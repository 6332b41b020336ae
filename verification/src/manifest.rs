//! The pack manifest (`pack.json`): the template that describes how a mouse
//! looks and animates, and the table of Windows cursor roles.
use crate::error::{Error, ErrorView, Invalid, InvalidView};
use crate::keyed::{lookup, NameMap};
use crate::text::{eq_ignore_case, str_eq, str_eq_ignore_ascii_case};
use vstd::prelude::*;

verus! {

/// A Windows cursor role and how it maps elsewhere.
#[derive(Debug, Clone, Copy)]
pub struct Role {
    /// Value name under `HKCU\Control Panel\Cursors`.
    pub win: &'static str,
    /// What to call it in the UI.
    pub label: &'static str,
    /// What it is for, shown as help text in the import wizard.
    pub hint: &'static str,
    /// Xcursor names for the Linux exporter. The first is the canonical file;
    /// the rest become symlinks.
    pub xcursor: &'static [&'static str],
}

/// Every role Windows can use, in the canonical order. `Person` and `Pin` only
/// exist on some installs, so the applier intersects this list with what the
/// live registry actually has.
pub open spec fn spec_roles() -> Seq<Role> {
    seq![
        Role {
            win: "Arrow",
            label: "Normal Select",
            hint: "The everyday pointer. This is the one people notice — start here.",
            xcursor: &["default", "left_ptr", "arrow", "top_left_arrow"],
        },
        Role {
            win: "Help",
            label: "Help Select",
            hint: "Arrow with a question mark.",
            xcursor: &["help", "question_arrow", "whats_this", "left_ptr_help"],
        },
        Role {
            win: "AppStarting",
            label: "Working in Background",
            hint: "Arrow plus a spinner. Usually animated.",
            xcursor: &["progress", "left_ptr_watch", "half-busy"],
        },
        Role {
            win: "Wait",
            label: "Busy",
            hint: "The full busy spinner. Usually animated.",
            xcursor: &["wait", "watch"],
        },
        Role {
            win: "Crosshair",
            label: "Precision Select",
            hint: "Crosshair for precise picking.",
            xcursor: &["crosshair", "cross", "tcross"],
        },
        Role {
            win: "IBeam",
            label: "Text Select",
            hint: "The text caret. Keep it thin or text gets hard to click.",
            xcursor: &["text", "xterm", "ibeam"],
        },
        Role {
            win: "NWPen",
            label: "Handwriting",
            hint: "Pen input.",
            xcursor: &["pencil", "draft"],
        },
        Role {
            win: "No",
            label: "Unavailable",
            hint: "The blocked / not-allowed symbol.",
            xcursor: &["not-allowed", "no-drop", "circle", "forbidden"],
        },
        Role {
            win: "SizeNS",
            label: "Resize Vertical",
            hint: "Up-down resize arrow.",
            xcursor: &["ns-resize", "sb_v_double_arrow", "v_double_arrow", "size_ver"],
        },
        Role {
            win: "SizeWE",
            label: "Resize Horizontal",
            hint: "Left-right resize arrow.",
            xcursor: &["ew-resize", "sb_h_double_arrow", "h_double_arrow", "size_hor"],
        },
        Role {
            win: "SizeNWSE",
            label: "Resize Diagonal 1",
            hint: "Top-left to bottom-right resize.",
            xcursor: &["nwse-resize", "size_fdiag", "nw-resize", "se-resize"],
        },
        Role {
            win: "SizeNESW",
            label: "Resize Diagonal 2",
            hint: "Top-right to bottom-left resize.",
            xcursor: &["nesw-resize", "size_bdiag", "ne-resize", "sw-resize"],
        },
        Role {
            win: "SizeAll",
            label: "Move",
            hint: "Four-way move arrow.",
            xcursor: &["all-scroll", "fleur", "move", "size_all"],
        },
        Role {
            win: "UpArrow",
            label: "Alternate Select",
            hint: "Straight up arrow.",
            xcursor: &["up-arrow", "center_ptr", "sb_up_arrow"],
        },
        Role {
            win: "Hand",
            label: "Link Select",
            hint: "The pointing hand used on links.",
            xcursor: &["pointer", "hand2", "hand1", "pointing_hand"],
        },
        Role {
            win: "Pin",
            label: "Location Select",
            hint: "Pen/touch location. Not present on every Windows install.",
            xcursor: &["pin"],
        },
        Role {
            win: "Person",
            label: "Person Select",
            hint: "Pen/touch person. Not present on every Windows install.",
            xcursor: &["person"],
        },
    ]
}

/// Number of roles Windows can use.
pub const ROLE_COUNT: usize = 17;

/// Every role Windows can use, in the canonical order.
pub fn roles() -> (r: Vec<Role>)
    ensures
        r@ == spec_roles(),
        r@.len() == ROLE_COUNT,
{
    let r = vec![
        Role {
            win: "Arrow",
            label: "Normal Select",
            hint: "The everyday pointer. This is the one people notice — start here.",
            xcursor: &["default", "left_ptr", "arrow", "top_left_arrow"],
        },
        Role {
            win: "Help",
            label: "Help Select",
            hint: "Arrow with a question mark.",
            xcursor: &["help", "question_arrow", "whats_this", "left_ptr_help"],
        },
        Role {
            win: "AppStarting",
            label: "Working in Background",
            hint: "Arrow plus a spinner. Usually animated.",
            xcursor: &["progress", "left_ptr_watch", "half-busy"],
        },
        Role {
            win: "Wait",
            label: "Busy",
            hint: "The full busy spinner. Usually animated.",
            xcursor: &["wait", "watch"],
        },
        Role {
            win: "Crosshair",
            label: "Precision Select",
            hint: "Crosshair for precise picking.",
            xcursor: &["crosshair", "cross", "tcross"],
        },
        Role {
            win: "IBeam",
            label: "Text Select",
            hint: "The text caret. Keep it thin or text gets hard to click.",
            xcursor: &["text", "xterm", "ibeam"],
        },
        Role {
            win: "NWPen",
            label: "Handwriting",
            hint: "Pen input.",
            xcursor: &["pencil", "draft"],
        },
        Role {
            win: "No",
            label: "Unavailable",
            hint: "The blocked / not-allowed symbol.",
            xcursor: &["not-allowed", "no-drop", "circle", "forbidden"],
        },
        Role {
            win: "SizeNS",
            label: "Resize Vertical",
            hint: "Up-down resize arrow.",
            xcursor: &["ns-resize", "sb_v_double_arrow", "v_double_arrow", "size_ver"],
        },
        Role {
            win: "SizeWE",
            label: "Resize Horizontal",
            hint: "Left-right resize arrow.",
            xcursor: &["ew-resize", "sb_h_double_arrow", "h_double_arrow", "size_hor"],
        },
        Role {
            win: "SizeNWSE",
            label: "Resize Diagonal 1",
            hint: "Top-left to bottom-right resize.",
            xcursor: &["nwse-resize", "size_fdiag", "nw-resize", "se-resize"],
        },
        Role {
            win: "SizeNESW",
            label: "Resize Diagonal 2",
            hint: "Top-right to bottom-left resize.",
            xcursor: &["nesw-resize", "size_bdiag", "ne-resize", "sw-resize"],
        },
        Role {
            win: "SizeAll",
            label: "Move",
            hint: "Four-way move arrow.",
            xcursor: &["all-scroll", "fleur", "move", "size_all"],
        },
        Role {
            win: "UpArrow",
            label: "Alternate Select",
            hint: "Straight up arrow.",
            xcursor: &["up-arrow", "center_ptr", "sb_up_arrow"],
        },
        Role {
            win: "Hand",
            label: "Link Select",
            hint: "The pointing hand used on links.",
            xcursor: &["pointer", "hand2", "hand1", "pointing_hand"],
        },
        Role {
            win: "Pin",
            label: "Location Select",
            hint: "Pen/touch location. Not present on every Windows install.",
            xcursor: &["pin"],
        },
        Role {
            win: "Person",
            label: "Person Select",
            hint: "Pen/touch person. Not present on every Windows install.",
            xcursor: &["person"],
        },
    ];
    assert(r@ =~= spec_roles());
    r
}

/// The first role whose name equals `name` ignoring ASCII case, from index `i` on.
pub open spec fn find_role_from(name: Seq<char>, i: int) -> Option<int>
    decreases 17 - i,
{
    if i < 0 || i >= 17 {
        None
    } else if eq_ignore_case(spec_roles()[i].win@, name) {
        Some(i)
    } else {
        find_role_from(name, i + 1)
    }
}

/// The role named `name`, ignoring ASCII case.
pub open spec fn find_role(name: Seq<char>) -> Option<int> {
    find_role_from(name, 0)
}

/// The role named `name`, ignoring ASCII case.
pub fn role(name: &str) -> (r: Option<Role>)
    ensures
        r is Some <==> find_role(name@) is Some,
        r matches Some(x) ==> x == spec_roles()[find_role(name@)->0],
{
    let table = roles();
    let mut i: usize = 0;
    while i < table.len()
        invariant
            0 <= i <= 17,
            table@ == spec_roles(),
            find_role(name@) == find_role_from(name@, i as int),
        decreases 17 - i,
    {
        if str_eq_ignore_ascii_case(table[i].win, name) {
            return Some(table[i]);
        }
        i = i + 1;
    }
    None
}

/// Grid description for a sprite sheet.
#[derive(Debug, Clone, Copy, PartialEq, Eq, Structural)]
pub struct Grid {
    pub cols: u32,
    pub rows: u32,
    /// How many cells are actually used, reading left-to-right, top-to-bottom.
    /// Defaults to `cols * rows`.
    pub frames: Option<u32>,
}

/// How a ready-made source's missing larger sizes get filled in.
#[derive(Debug, Clone, Copy, PartialEq, Eq, Structural)]
pub enum UpscaleMode {
    /// Leave the source at its native size; Windows stretches it on the fly.
    Off,
    /// Resample the largest embedded image with a Lanczos filter. Stays soft
    /// above the source's native size.
    Raster,
    /// Experimental: trace the largest embedded image into vector shapes and
    /// render each missing size from the trace.
    Vector,
}

impl Default for UpscaleMode {
    fn default() -> (r: Self)
        ensures
            r == UpscaleMode::Off,
    {
        UpscaleMode::Off
    }
}

/// The default target frame rate, 20 frames per second, as the bits of an `f32`.
pub const DEFAULT_FPS_BITS: u32 = 0x41A0_0000;

/// The bits of an `f32` that is positive and finite: sign clear, not zero,
/// exponent not all ones.
pub open spec fn fps_is_valid(bits: u32) -> bool {
    0 < bits && bits < 0x7F80_0000
}

/// The default target frame rate, as the bits of an `f32`.
pub fn default_fps() -> (r: u32)
    ensures
        r == DEFAULT_FPS_BITS,
{
    DEFAULT_FPS_BITS
}

/// Roles loop by default.
pub fn default_loop() -> (r: bool)
    ensures
        r,
{
    true
}

/// Hotspots are authored on a 32px canvas by default.
pub fn default_base_size() -> (r: u32)
    ensures
        r == 32,
{
    32
}

/// The manifest format written by this version.
pub fn default_format() -> (r: u32)
    ensures
        r == 1,
{
    1
}

/// Sizes emitted into every cursor, covering 100% through 400% display scaling
/// plus the whole range of the Windows cursor-size slider.
pub open spec fn spec_default_sizes() -> Seq<u32> {
    seq![32u32, 48, 64, 96, 128, 192, 256]
}

/// Sizes emitted into every cursor (see `spec_default_sizes`).
pub fn default_sizes() -> (r: Vec<u32>)
    ensures
        r@ == spec_default_sizes(),
{
    let r = vec![32u32, 48, 64, 96, 128, 192, 256];
    assert(r@ =~= spec_default_sizes());
    r
}

/// How one cursor role is drawn.
#[derive(Debug, Clone)]
pub struct RoleSpec {
    /// Path to the art, relative to the pack directory: a file or, for numbered
    /// frame sequences, a directory. Absent when the role inherits.
    pub source: Option<String>,
    /// Hotspot in `base_size` coordinates. Absent keeps the hotspot a
    /// ready-made `.cur`/`.ani` source carries; `[0, 0]` is a real value.
    pub hotspot: Option<[u32; 2]>,
    /// Target frame rate for animated sources, as the bits of an `f32`.
    pub fps_bits: u32,
    /// Whether an animation loops.
    pub looping: bool,
    /// Present when `source` is a sprite sheet.
    pub grid: Option<Grid>,
    /// `"system"` leaves this role at the Windows default.
    pub inherit: Option<String>,
    /// How a ready-made source's larger sizes are filled in.
    pub upscale: UpscaleMode,
}

impl Default for RoleSpec {
    fn default() -> (r: Self)
        ensures
            r.source is None,
            r.hotspot is None,
            r.fps_bits == DEFAULT_FPS_BITS,
            r.looping,
            r.grid is None,
            r.inherit is None,
            r.upscale == UpscaleMode::Off,
    {
        RoleSpec {
            source: None,
            hotspot: None,
            fps_bits: DEFAULT_FPS_BITS,
            looping: true,
            grid: None,
            inherit: None,
            upscale: UpscaleMode::Off,
        }
    }
}

/// The role is left at the Windows default: it has no source, or inherits
/// from `"system"`.
pub open spec fn spec_is_system(s: RoleSpec) -> bool {
    s.source is None || (s.inherit matches Some(t) && t@ == "system"@)
}

impl RoleSpec {
    /// True when this role should be left as the Windows default.
    pub fn is_system(&self) -> (r: bool)
        ensures
            r == spec_is_system(*self),
    {
        if self.source.is_none() {
            return true;
        }
        match &self.inherit {
            Some(t) => str_eq(t.as_str(), "system"),
            None => false,
        }
    }
}

/// The role named `name`, ignoring ASCII case.
pub fn role_named(name: &[char]) -> (r: Option<Role>)
    ensures
        r is Some <==> find_role(name@) is Some,
        r matches Some(x) ==> x == spec_roles()[find_role(name@)->0],
{
    let table = roles();
    let mut i: usize = 0;
    while i < table.len()
        invariant
            0 <= i <= 17,
            table@ == spec_roles(),
            find_role(name@) == find_role_from(name@, i as int),
        decreases 17 - i,
    {
        let w = crate::text::chars_of(table[i].win);
        if crate::text::eq_ignore_ascii_case(w.as_slice(), name) {
            return Some(table[i]);
        }
        i = i + 1;
    }
    None
}

/// The roles of a pack, keyed by Windows role name.
pub type RoleMap = NameMap<RoleSpec>;

/// A cursor pack.
#[derive(Debug)]
pub struct Pack {
    /// Manifest format.
    pub format: u32,
    pub name: String,
    pub author: Option<String>,
    pub version: Option<String>,
    pub description: Option<String>,
    /// Coordinate space that `hotspot` values are expressed in.
    pub base_size: u32,
    /// Sizes to emit into every cursor file.
    pub sizes: Vec<u32>,
    /// Roles, keyed by Windows role name.
    pub roles: RoleMap,
}

/// The first size from index `i` on that is out of range (0, or above 256).
pub open spec fn first_bad_size(sizes: Seq<u32>, i: int) -> Option<u32>
    decreases sizes.len() - i,
{
    if i < 0 || i >= sizes.len() {
        None
    } else if sizes[i] == 0 || sizes[i] > 256 {
        Some(sizes[i])
    } else {
        first_bad_size(sizes, i + 1)
    }
}

/// What is wrong with the role `name` drawn as `spec`, on a `base`x`base`
/// canvas (`base > 0`), if anything: an unknown name first; nothing for a role
/// left at the system default; then the hotspot, the frame rate, the grid.
pub open spec fn role_fault(name: Seq<char>, spec: RoleSpec, base: u32) -> Option<ErrorView> {
    if find_role(name) is None {
        Some(ErrorView::UnknownRole(name))
    } else if spec_is_system(spec) {
        None
    } else if spec.hotspot matches Some(h) && (h[0] >= base || h[1] >= base) {
        Some(
            ErrorView::HotspotOutOfBounds {
                role: name,
                x: spec.hotspot->0[0] as i32,
                y: spec.hotspot->0[1] as i32,
                size: base,
                max: (base - 1) as u32,
            },
        )
    } else if !fps_is_valid(spec.fps_bits) {
        Some(ErrorView::Invalid(InvalidView::InvalidFps { role: name, fps_bits: spec.fps_bits }))
    } else if spec.grid matches Some(g) && (g.cols == 0 || g.rows == 0) {
        Some(ErrorView::Invalid(InvalidView::ZeroGrid { role: name }))
    } else {
        None
    }
}

/// The fault of the first role from index `i` on that has one.
pub open spec fn first_role_fault(roles: Seq<(Seq<char>, RoleSpec)>, i: int, base: u32) -> Option<
    ErrorView,
>
    decreases roles.len() - i,
{
    if i < 0 || i >= roles.len() {
        None
    } else if role_fault(roles[i].0, roles[i].1, base) is Some {
        role_fault(roles[i].0, roles[i].1, base)
    } else {
        first_role_fault(roles, i + 1, base)
    }
}

/// Every role is left at the system default.
pub open spec fn all_system(roles: Seq<(Seq<char>, RoleSpec)>) -> bool {
    forall|i: int| 0 <= i < roles.len() ==> spec_is_system(#[trigger] roles[i].1)
}

/// What structural check a pack fails first, if any: a pack must change at
/// least one role, have a non-zero base size and at least one size, every size
/// in 1..=256, and every role valid (in name order).
pub open spec fn pack_fault(p: Pack) -> Option<ErrorView> {
    if p.roles@.len() == 0 || all_system(p.roles@) {
        Some(ErrorView::EmptyPack)
    } else if p.base_size == 0 {
        Some(ErrorView::Invalid(InvalidView::BaseSizeZero))
    } else if p.sizes@.len() == 0 {
        Some(ErrorView::Invalid(InvalidView::NoSizes))
    } else if first_bad_size(p.sizes@, 0) is Some {
        Some(ErrorView::Invalid(InvalidView::SizeOutOfRange(first_bad_size(p.sizes@, 0)->0)))
    } else {
        first_role_fault(p.roles@, 0, p.base_size)
    }
}

/// The role of the canonical table at index `i` is defined in `roles` and not
/// left at the system default.
pub open spec fn is_active(roles: Seq<(Seq<char>, RoleSpec)>, i: int) -> bool {
    lookup(roles, spec_roles()[i].win@) matches Some(s) && !spec_is_system(s)
}

/// Indices into the canonical role table, below `n`, of the active roles, in
/// table order.
pub open spec fn active_upto(roles: Seq<(Seq<char>, RoleSpec)>, n: int) -> Seq<int>
    decreases n,
{
    if n <= 0 {
        Seq::empty()
    } else if is_active(roles, n - 1) {
        active_upto(roles, n - 1).push(n - 1)
    } else {
        active_upto(roles, n - 1)
    }
}

impl Pack {
    /// Structural checks that do not need the art files present.
    #[verifier::loop_isolation(false)]
    pub fn validate(&self) -> (r: Result<(), Error>)
        ensures
            r is Ok <==> pack_fault(*self) is None,
            r matches Err(e) ==> pack_fault(*self) == Some(e@),
    {
        let entries = self.roles.entries();
        let ghost roles = self.roles@;
        let n = entries.len();
        let mut all_sys = true;
        let mut i: usize = 0;
        while i < n
            invariant
                0 <= i <= n,
                n == roles.len(),
                entries@.len() == n,
                forall|j: int| 0 <= j < n ==> (#[trigger] entries@[j]).1 == roles[j].1,
                all_sys == (forall|j: int| 0 <= j < i ==> spec_is_system(#[trigger] roles[j].1)),
            decreases n - i,
        {
            if !entries[i].1.is_system() {
                all_sys = false;
            }
            i = i + 1;
        }
        if n == 0 || all_sys {
            return Err(Error::EmptyPack);
        }
        if self.base_size == 0 {
            return Err(Error::Invalid(Invalid::BaseSizeZero));
        }
        if self.sizes.len() == 0 {
            return Err(Error::Invalid(Invalid::NoSizes));
        }
        let mut k: usize = 0;
        while k < self.sizes.len()
            invariant
                0 <= k <= self.sizes@.len(),
                first_bad_size(self.sizes@, 0) == first_bad_size(self.sizes@, k as int),
            decreases self.sizes@.len() - k,
        {
            let s = self.sizes[k];
            if s == 0 || s > 256 {
                return Err(Error::Invalid(Invalid::SizeOutOfRange(s)));
            }
            k = k + 1;
        }
        let base = self.base_size;
        let mut i: usize = 0;
        while i < n
            invariant
                0 <= i <= n,
                n == roles.len(),
                base == self.base_size,
                base > 0,
                entries@.len() == n,
                forall|j: int|
                    0 <= j < n ==> (#[trigger] entries@[j]).0@ == roles[j].0 && entries@[j].1
                        == roles[j].1,
                first_role_fault(roles, 0, base) == first_role_fault(roles, i as int, base),
            decreases n - i,
        {
            let name = &entries[i].0;
            let spec = &entries[i].1;
            if role(name.as_str()).is_none() {
                return Err(Error::UnknownRole(name.clone()));
            }
            if !spec.is_system() {
                if let Some(h) = spec.hotspot {
                    if h[0] >= base || h[1] >= base {
                        return Err(
                            Error::HotspotOutOfBounds {
                                role: name.clone(),
                                x: h[0] as i32,
                                y: h[1] as i32,
                                size: base,
                                max: base - 1,
                            },
                        );
                    }
                }
                if !(0 < spec.fps_bits && spec.fps_bits < 0x7F80_0000) {
                    return Err(Error::Invalid(Invalid::InvalidFps { role: name.clone(), fps_bits: spec.fps_bits }));
                }
                if let Some(g) = spec.grid {
                    if g.cols == 0 || g.rows == 0 {
                        return Err(Error::Invalid(Invalid::ZeroGrid { role: name.clone() }));
                    }
                }
            }
            i = i + 1;
        }
        Ok(())
    }

    /// Roles that will actually be written, in the canonical order.
    pub fn active_roles(&self) -> (r: Vec<(&'static str, &RoleSpec)>)
        ensures
            r@.len() == active_upto(self.roles@, 17).len(),
            forall|j: int|
                0 <= j < r@.len() ==> (#[trigger] r@[j]).0 == spec_roles()[active_upto(
                    self.roles@,
                    17,
                )[j]].win && lookup(self.roles@, r@[j].0@) == Some(*r@[j].1),
    {
        let table = roles();
        let mut out: Vec<(&'static str, &RoleSpec)> = Vec::new();
        let mut i: usize = 0;
        while i < table.len()
            invariant
                0 <= i <= 17,
                table@ == spec_roles(),
                out@.len() == active_upto(self.roles@, i as int).len(),
                forall|j: int|
                    0 <= j < out@.len() ==> (#[trigger] out@[j]).0 == spec_roles()[active_upto(
                        self.roles@,
                        i as int,
                    )[j]].win && lookup(self.roles@, out@[j].0@) == Some(*out@[j].1),
            decreases 17 - i,
        {
            let win = table[i].win;
            match self.roles.get(win) {
                Some(spec) => {
                    if !spec.is_system() {
                        out.push((win, spec));
                    }
                },
                None => {},
            }
            i = i + 1;
        }
        out
    }
}

/// No two roles of the table share a name.
pub proof fn lemma_role_names_distinct()
    ensures
        forall|i: int, j: int|
            0 <= i < j < 17 ==> (#[trigger] spec_roles()[i]).win@ != (#[trigger] spec_roles()[j]).win@,
{
    reveal_strlit("Arrow");
    reveal_strlit("Help");
    reveal_strlit("AppStarting");
    reveal_strlit("Wait");
    reveal_strlit("Crosshair");
    reveal_strlit("IBeam");
    reveal_strlit("NWPen");
    reveal_strlit("No");
    reveal_strlit("SizeNS");
    reveal_strlit("SizeWE");
    reveal_strlit("SizeNWSE");
    reveal_strlit("SizeNESW");
    reveal_strlit("SizeAll");
    reveal_strlit("UpArrow");
    reveal_strlit("Hand");
    reveal_strlit("Pin");
    reveal_strlit("Person");
    let t = spec_roles();
    assert forall|i: int, j: int| 0 <= i < j < 17 implies (#[trigger] t[i]).win@ != (#[trigger] t[j]).win@ by {
        let a = t[i].win@;
        let b = t[j].win@;
        assert(a.len() != b.len() || a[0] != b[0] || a[1] != b[1] || a[4] != b[4] || a[5] != b[5]);
    }
}

/// Past the first `i` roles, a role list with no fault has none at all.
proof fn lemma_no_role_fault(roles: Seq<(Seq<char>, RoleSpec)>, i: int, base: u32, j: int)
    requires
        0 <= i <= j < roles.len(),
        first_role_fault(roles, i, base) is None,
    ensures
        role_fault(roles[j].0, roles[j].1, base) is None,
    decreases j - i,
{
    if i < j {
        lemma_no_role_fault(roles, i + 1, base, j);
    }
}

/// A pack that passes its structural checks has a non-zero base size, and
/// every role it draws (not left at the system default) places any hotspot
/// inside the `base_size` x `base_size` canvas, both coordinates below
/// `base_size`, and any sprite grid with at least one column and one row.
pub proof fn lemma_valid_pack_hotspots_inside(p: Pack)
    requires
        pack_fault(p) is None,
    ensures
        p.base_size > 0,
        forall|j: int|
            0 <= j < p.roles@.len() && !spec_is_system(#[trigger] p.roles@[j].1) ==> (p.roles@[j].1.hotspot matches Some(
                h,
            ) ==> h[0] < p.base_size && h[1] < p.base_size) && (p.roles@[j].1.grid matches Some(g) ==> g.cols > 0
                && g.rows > 0),
{
    assert forall|j: int|
        0 <= j < p.roles@.len() && !spec_is_system(#[trigger] p.roles@[j].1) implies (p.roles@[j].1.hotspot matches Some(
        h,
    ) ==> h[0] < p.base_size && h[1] < p.base_size) && (p.roles@[j].1.grid matches Some(g) ==> g.cols > 0 && g.rows
        > 0) by {
        lemma_no_role_fault(p.roles@, 0, p.base_size, j);
    }
}

} // verus!

