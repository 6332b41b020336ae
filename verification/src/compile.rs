//! Compiling a pack into finished `.cur` / `.ani` files: the decisions about
//! which sizes each cursor carries, how ready-made cursor files are passed
//! through, and how rendered frames are grouped. Loading and rendering art,
//! and scaling hotspots, happen in the application.
use crate::ani::{distinct_asc, fit_sizes, spec_fit, Anim};
use crate::error::{Error, ErrorView};
use crate::ico::{spec_read_dir, Entry, Image, ImageView};
use crate::import::extension;
use crate::keyed::lookup;
use crate::manifest::{Pack, RoleSpec, UpscaleMode};
use crate::raster::{warnings_view, Warning, WarningView};
use crate::text::{chars_of, eq_ignore_case};
use vstd::prelude::*;

verus! {

/// One finished cursor file.
pub struct BuiltCursor {
    /// Windows role name, e.g. `Arrow`.
    pub role: String,
    /// File name to write, e.g. `Arrow.cur` or `Wait.ani`.
    pub file_name: String,
    pub data: Vec<u8>,
    pub animated: bool,
    pub frames: usize,
    pub sizes: Vec<u32>,
}

/// Everything a build produced.
pub struct Built {
    pub cursors: Vec<BuiltCursor>,
    pub warnings: Vec<Warning>,
}

/// A `.cur`, `.ani` or `.ico` file, by its extension in any case: already a
/// Windows cursor, so it is passed through rather than rasterised.
pub open spec fn is_ready_made_name(name: Seq<char>) -> bool {
    extension(name) matches Some(e) && (eq_ignore_case(e, "cur"@) || eq_ignore_case(e, "ani"@)
        || eq_ignore_case(e, "ico"@))
}

/// True for source files that are already Windows cursors.
pub fn is_ready_made(file_name: &str) -> (r: bool)
    ensures
        r == is_ready_made_name(file_name@),
{
    let (_, ext) = crate::import::split_extension(chars_of(file_name).as_slice());
    match ext {
        Some(e) => crate::text::eq_ignore_ascii_case(e.as_slice(), chars_of("cur").as_slice())
            || crate::text::eq_ignore_ascii_case(e.as_slice(), chars_of("ani").as_slice())
            || crate::text::eq_ignore_ascii_case(e.as_slice(), chars_of("ico").as_slice()),
        None => false,
    }
}

/// The widths of directory entries.
pub open spec fn widths(es: Seq<Entry>) -> Seq<u32> {
    Seq::new(es.len(), |i: int| es[i].width)
}

/// The sizes listed in a cursor's directory, distinct and ascending; none when
/// the directory cannot be read.
pub open spec fn spec_frame_sizes(d: Seq<u8>) -> Seq<u32> {
    match spec_read_dir(d) {
        Ok(es) => distinct_asc(widths(es)),
        Err(_) => Seq::empty(),
    }
}

/// Sizes listed in a cursor's directory, without touching pixel data.
pub fn frame_sizes(data: &[u8]) -> (r: Vec<u32>)
    ensures
        r@ == spec_frame_sizes(data@),
{
    match crate::ico::read_dir(data) {
        Err(_) => Vec::new(),
        Ok(entries) => {
            let mut ws: Vec<u32> = Vec::new();
            let mut i: usize = 0;
            while i < entries.len()
                invariant
                    0 <= i <= entries@.len(),
                    ws@ =~= widths(entries@).take(i as int),
                decreases entries@.len() - i,
            {
                ws.push(entries[i].width);
                i = i + 1;
            }
            assert(widths(entries@).take(entries@.len() as int) =~= widths(entries@));
            let sorted = crate::ani::sorted_sizes(ws.as_slice());
            crate::ani::dedup_sizes(sorted.as_slice())
        },
    }
}

/// What a ready-made cursor file holds, from its directories alone: whether
/// it is animated, how many frames it has, and the sizes of its (first) frame.
/// Paletted legacy cursors, which are not decoded here, pass this too.
pub open spec fn spec_ready_made_info(d: Seq<u8>) -> Option<(bool, nat, Seq<u32>)> {
    match crate::ani::spec_parse(d) {
        Ok(raw) => Some(
            (
                true,
                raw.frames.len(),
                if raw.frames.len() > 0 {
                    spec_frame_sizes(raw.frames[0])
                } else {
                    Seq::empty()
                },
            ),
        ),
        Err(_) => if spec_frame_sizes(d).len() == 0 {
            None
        } else {
            Some((false, 1, spec_frame_sizes(d)))
        },
    }
}

/// Whether the ready-made cursor at `path` is animated, its frame count and
/// its sizes (see `spec_ready_made_info`); an error when it is neither a
/// `.cur` nor an `.ani` that can be read.
pub fn ready_made_info(path: &str, data: &[u8]) -> (r: Result<(bool, usize, Vec<u32>), Error>)
    requires
        data@.len() < usize::MAX,
    ensures
        spec_ready_made_info(data@) is None ==> (r matches Err(e) && e@ == ErrorView::UnreadableCursor { path: path@ }),
        spec_ready_made_info(data@) matches Some(info) ==> (r matches Ok(x) && x.0 == info.0 && x.1 == info.1 && x.2@
            == info.2),
{
    match crate::ani::parse(data) {
        Ok(raw) => {
            let sizes = if raw.frames.len() > 0 {
                frame_sizes(raw.frames[0].as_slice())
            } else {
                Vec::new()
            };
            Ok((true, raw.frames.len(), sizes))
        },
        Err(_) => {
            let sizes = frame_sizes(data);
            if sizes.len() == 0 {
                Err(Error::UnreadableCursor { path: path.to_owned() })
            } else {
                Ok((false, 1, sizes))
            }
        },
    }
}

/// The largest of the sizes, or 32 when there are none.
pub open spec fn native_of(sizes: Seq<u32>) -> u32
    decreases sizes.len(),
{
    if sizes.len() == 0 {
        32
    } else if sizes.len() == 1 || sizes.last() >= native_of(sizes.drop_last()) {
        sizes.last()
    } else {
        native_of(sizes.drop_last())
    }
}

/// The largest of the sizes, or 32 when there are none.
pub fn native_size(sizes: &[u32]) -> (r: u32)
    ensures
        r == native_of(sizes@),
{
    let mut best: u32 = 32;
    let mut i: usize = 0;
    assert(sizes@.take(0) =~= Seq::<u32>::empty());
    while i < sizes.len()
        invariant
            0 <= i <= sizes@.len(),
            best == native_of(sizes@.take(i as int)),
        decreases sizes@.len() - i,
    {
        assert(sizes@.take(i + 1).drop_last() =~= sizes@.take(i as int));
        if i == 0 || sizes[i] >= best {
            best = sizes[i];
        }
        i = i + 1;
    }
    assert(sizes@.take(sizes@.len() as int) =~= sizes@);
    best
}

/// The sizes of `target` not among `sizes`, in order.
pub open spec fn added_sizes(target: Seq<u32>, sizes: Seq<u32>) -> Seq<u32>
    decreases target.len(),
{
    if target.len() == 0 {
        Seq::empty()
    } else if sizes.contains(target.last()) {
        added_sizes(target.drop_last(), sizes)
    } else {
        added_sizes(target.drop_last(), sizes).push(target.last())
    }
}

/// The sizes a ready-made cursor ends up with, and those dropped. A plain
/// pass-through keeps its own sizes; upscaling adds the pack's sizes; an
/// animation is held to the per-frame budget.
pub open spec fn spec_target(
    animated: bool,
    sizes: Seq<u32>,
    pack_sizes: Seq<u32>,
    upscale: UpscaleMode,
    has_hotspot: bool,
) -> (Seq<u32>, Seq<u32>) {
    let upscaling = upscale != UpscaleMode::Off;
    let wanted = if upscaling {
        distinct_asc(sizes + pack_sizes)
    } else {
        sizes
    };
    if !(has_hotspot || upscaling) {
        (sizes, Seq::empty())
    } else if animated {
        spec_fit(distinct_asc(wanted))
    } else {
        (wanted, Seq::empty())
    }
}

/// What passing a ready-made cursor through warns about: sizes an animation
/// had to drop while upscaling; then the sizes synthesized, or, when none
/// were, a source whose largest image is under 64 pixels.
pub open spec fn spec_ready_made_warnings(
    role: Seq<char>,
    animated: bool,
    sizes: Seq<u32>,
    pack_sizes: Seq<u32>,
    upscale: UpscaleMode,
    has_hotspot: bool,
) -> Seq<WarningView> {
    let upscaling = upscale != UpscaleMode::Off;
    let t = spec_target(animated, sizes, pack_sizes, upscale, has_hotspot);
    let native = native_of(sizes);
    let added = added_sizes(t.0, sizes);
    let first = if animated && upscaling && (has_hotspot || upscaling) && t.1.len() > 0 {
        seq![WarningView::AnimationSizesDropped { role, kept: t.0, dropped: t.1 }]
    } else {
        Seq::empty()
    };
    let second = if upscaling && added.len() > 0 {
        seq![WarningView::ReadyMadeUpscaled { role, native, added, mode: upscale }]
    } else if native < 64 {
        seq![WarningView::LowResolutionSource { role, largest: native }]
    } else {
        Seq::empty()
    };
    first + second
}

/// How a ready-made cursor is passed through.
pub struct ReadyMadePlan {
    /// Whether the file must be decoded and encoded again: an explicit
    /// hotspot or upscaling needs real pixels; otherwise its bytes are copied.
    pub needs_decode: bool,
    /// The sizes the cursor ends up with.
    pub target: Vec<u32>,
    /// What to tell the user.
    pub warnings: Vec<Warning>,
}

/// Whether `v` is among `s`.
fn contains_size(s: &[u32], v: u32) -> (r: bool)
    ensures
        r == s@.contains(v),
{
    let mut i: usize = 0;
    while i < s.len()
        invariant
            0 <= i <= s@.len(),
            forall|k: int| 0 <= k < i ==> s@[k] != v,
        decreases s@.len() - i,
    {
        if s[i] == v {
            assert(s@[i as int] == v);
            return true;
        }
        i = i + 1;
    }
    false
}

/// Plan passing the ready-made cursor for `role` through, given whether it is
/// animated, the sizes it holds, the pack's sizes, the role's upscale mode and
/// whether the role overrides the hotspot.
pub fn plan_ready_made(
    role: &str,
    animated: bool,
    sizes: &[u32],
    pack_sizes: &[u32],
    upscale: UpscaleMode,
    has_hotspot: bool,
) -> (r: ReadyMadePlan)
    ensures
        r.needs_decode == (has_hotspot || upscale != UpscaleMode::Off),
        r.target@ == spec_target(animated, sizes@, pack_sizes@, upscale, has_hotspot).0,
        warnings_view(r.warnings@) == spec_ready_made_warnings(role@, animated, sizes@, pack_sizes@, upscale, has_hotspot),
{
    let upscaling = upscale != UpscaleMode::Off;
    let needs_decode = has_hotspot || upscaling;
    let mut warnings: Vec<Warning> = Vec::new();
    let mut wanted: Vec<u32> = crate::text::copy_u32s(sizes);
    if upscaling {
        let mut both = crate::text::copy_u32s(sizes);
        let mut i: usize = 0;
        while i < pack_sizes.len()
            invariant
                0 <= i <= pack_sizes@.len(),
                both@ =~= sizes@ + pack_sizes@.take(i as int),
            decreases pack_sizes@.len() - i,
        {
            both.push(pack_sizes[i]);
            i = i + 1;
        }
        assert(pack_sizes@.take(pack_sizes@.len() as int) =~= pack_sizes@);
        let sorted = crate::ani::sorted_sizes(both.as_slice());
        wanted = crate::ani::dedup_sizes(sorted.as_slice());
    }
    let target: Vec<u32> = if !needs_decode {
        crate::text::copy_u32s(sizes)
    } else if animated {
        let (kept, dropped) = fit_sizes(wanted.as_slice());
        if upscaling && dropped.len() > 0 {
            warnings.push(
                Warning::AnimationSizesDropped {
                    role: role.to_owned(),
                    kept: crate::text::copy_u32s(kept.as_slice()),
                    dropped,
                },
            );
        }
        kept
    } else {
        wanted
    };
    let ghost t = spec_target(animated, sizes@, pack_sizes@, upscale, has_hotspot);
    assert(target@ == t.0);
    let native = native_size(sizes);
    let mut added: Vec<u32> = Vec::new();
    let mut k: usize = 0;
    assert(target@.take(0) =~= Seq::<u32>::empty());
    while k < target.len()
        invariant
            0 <= k <= target@.len(),
            added@ == added_sizes(target@.take(k as int), sizes@),
        decreases target@.len() - k,
    {
        assert(target@.take(k + 1).drop_last() =~= target@.take(k as int));
        if !contains_size(sizes, target[k]) {
            added.push(target[k]);
        }
        k = k + 1;
    }
    assert(target@.take(target@.len() as int) =~= target@);
    let ghost w1 = warnings_view(warnings@);
    if upscaling && added.len() > 0 {
        warnings.push(Warning::ReadyMadeUpscaled { role: role.to_owned(), native, added, mode: upscale });
    } else if native < 64 {
        warnings.push(Warning::LowResolutionSource { role: role.to_owned(), largest: native });
    }
    assert(warnings_view(warnings@) =~= spec_ready_made_warnings(
        role@,
        animated,
        sizes@,
        pack_sizes@,
        upscale,
        has_hotspot,
    ));
    ReadyMadePlan { needs_decode, target, warnings }
}

/// The sizes a drawn role is rendered at: the pack's sizes, distinct and
/// ascending, held to the per-frame budget when the role is animated.
pub open spec fn spec_role_sizes(pack_sizes: Seq<u32>, animated: bool) -> (Seq<u32>, Seq<u32>) {
    if animated {
        spec_fit(distinct_asc(distinct_asc(pack_sizes)))
    } else {
        (distinct_asc(pack_sizes), Seq::empty())
    }
}

/// The sizes a drawn role is rendered at (see `spec_role_sizes`), and the
/// warning when an animation had to drop some.
pub fn role_sizes(role: &str, pack_sizes: &[u32], animated: bool) -> (r: (Vec<u32>, Vec<Warning>))
    ensures
        r.0@ == spec_role_sizes(pack_sizes@, animated).0,
        warnings_view(r.1@) == if animated && spec_role_sizes(pack_sizes@, animated).1.len() > 0 {
            seq![WarningView::AnimationSizesDropped {
                role: role@,
                kept: spec_role_sizes(pack_sizes@, animated).0,
                dropped: spec_role_sizes(pack_sizes@, animated).1,
            }]
        } else {
            Seq::empty()
        },
{
    let sorted = crate::ani::sorted_sizes(pack_sizes);
    let sizes = crate::ani::dedup_sizes(sorted.as_slice());
    let mut warnings: Vec<Warning> = Vec::new();
    if animated {
        let (kept, dropped) = fit_sizes(sizes.as_slice());
        if dropped.len() > 0 {
            warnings.push(
                Warning::AnimationSizesDropped {
                    role: role.to_owned(),
                    kept: crate::text::copy_u32s(kept.as_slice()),
                    dropped,
                },
            );
        }
        assert(warnings_view(warnings@) =~= (if animated && spec_role_sizes(pack_sizes@, animated).1.len() > 0 {
            seq![WarningView::AnimationSizesDropped {
                role: role@,
                kept: spec_role_sizes(pack_sizes@, animated).0,
                dropped: spec_role_sizes(pack_sizes@, animated).1,
            }]
        } else {
            Seq::empty()
        }));
        (kept, warnings)
    } else {
        assert(warnings_view(warnings@) =~= Seq::<WarningView>::empty());
        (sizes, warnings)
    }
}

/// The name of the cursor file for `role`: `.ani` when animated, else `.cur`.
pub fn cursor_file_name(role: &str, animated: bool) -> (r: String)
    ensures
        r@ == role@ + (if animated {
            ".ani"@
        } else {
            ".cur"@
        }),
{
    let mut out = chars_of(role);
    if animated {
        crate::text::append(&mut out, ".ani");
    } else {
        crate::text::append(&mut out, ".cur");
    }
    crate::text::string_of(out.as_slice())
}

/// Every rate equals the first.
pub open spec fn all_equal(s: Seq<u32>) -> bool {
    forall|i: int| 0 <= i < s.len() ==> #[trigger] s[i] == s[0]
}

/// Apply the timing a GIF carries, in jiffies per frame (`rates`): per-frame
/// rates when there is one per frame and they differ, else the first as the
/// rate of every frame.
pub fn apply_gif_timing(anim: &mut Anim, rates: Vec<u32>)
    ensures
        final(anim).frames@ == old(anim).frames@,
        final(anim).seq == old(anim).seq,
        rates@.len() == old(anim).frames@.len() && !all_equal(rates@)
            ==> (final(anim).rates matches Some(v) && v@ == rates@ && final(anim).default_rate
            == old(anim).default_rate),
        !(rates@.len() == old(anim).frames@.len() && !all_equal(rates@))
            ==> final(anim).rates == old(anim).rates && final(anim).default_rate == (if rates@.len() > 0 {
            rates@[0]
        } else {
            old(anim).default_rate
        }),
{
    let mut differ = false;
    let mut i: usize = 0;
    while i < rates.len()
        invariant
            0 <= i <= rates@.len(),
            differ == !(forall|k: int| 0 <= k < i ==> #[trigger] rates@[k] == rates@[0]),
        decreases rates@.len() - i,
    {
        if rates[i] != rates[0] {
            differ = true;
        }
        i = i + 1;
    }
    if rates.len() == anim.frames.len() && differ {
        anim.rates = Some(rates);
    } else if rates.len() > 0 {
        anim.default_rate = rates[0];
    }
}

/// Rendered pixels, taken as byte sequences: `[size index][frame index]`.
pub open spec fn rendered_view(r: Seq<Vec<Vec<u8>>>) -> Seq<Seq<Seq<u8>>> {
    Seq::new(r.len(), |i: int| Seq::new(r[i]@.len(), |j: int| r[i]@[j]@))
}

/// What is wrong with frame `f` at size index `si`, if anything: the frame was
/// not rendered at that size, or its buffer does not hold the size's pixels.
pub open spec fn cell_fault(role: Seq<char>, sizes: Seq<u32>, rendered: Seq<Seq<Seq<u8>>>, f: int, si: int) -> Option<ErrorView> {
    if f >= rendered[si].len() {
        Some(ErrorView::LostFrame { role, frame: f as usize, size: sizes[si] })
    } else if rendered[si][f].len() != crate::ico::rgba_len(sizes[si] as nat) {
        Some(
            ErrorView::Cursor(
                crate::error::CursorFault::WrongBufferSize {
                    size: sizes[si],
                    want: (if crate::ico::rgba_len(sizes[si] as nat) <= usize::MAX {
                        crate::ico::rgba_len(sizes[si] as nat) as int
                    } else {
                        usize::MAX as int
                    }) as usize,
                    got: rendered[si][f].len() as usize,
                },
            ),
        )
    } else {
        None
    }
}

/// The first fault, frame by frame and size by size within a frame, from
/// frame `f` and size index `si` on.
pub open spec fn group_fault(
    role: Seq<char>,
    sizes: Seq<u32>,
    rendered: Seq<Seq<Seq<u8>>>,
    count: int,
    f: int,
    si: int,
) -> Option<ErrorView>
    decreases count - f, sizes.len() - si,
{
    if f < 0 || f >= count || si < 0 {
        None
    } else if si >= sizes.len() {
        group_fault(role, sizes, rendered, count, f + 1, 0)
    } else if cell_fault(role, sizes, rendered, f, si) is Some {
        cell_fault(role, sizes, rendered, f, si)
    } else {
        group_fault(role, sizes, rendered, count, f, si + 1)
    }
}

/// Regroup frames rendered size by size (`rendered[size index][frame index]`)
/// so that each animation frame carries all its sizes, each with its hotspot.
pub fn group_frames(
    role: &str,
    sizes: &[u32],
    hotspots: &[(u16, u16)],
    rendered: &Vec<Vec<Vec<u8>>>,
    frame_count: usize,
) -> (r: Result<Vec<Vec<Image>>, Error>)
    requires
        hotspots@.len() == sizes@.len(),
        rendered@.len() == sizes@.len(),
    ensures
        r is Ok <==> group_fault(role@, sizes@, rendered_view(rendered@), frame_count as int, 0, 0) is None,
        r matches Err(e) ==> group_fault(role@, sizes@, rendered_view(rendered@), frame_count as int, 0, 0)
            == Some(e@),
        r matches Ok(frames) ==> frames@.len() == frame_count && forall|f: int, si: int|
            0 <= f < frame_count && 0 <= si < sizes@.len() ==> (#[trigger] frames@[f]@[si])@ == (crate::ico::ImageView {
                size: sizes@[si],
                rgba: rendered_view(rendered@)[si][f],
                hot_x: hotspots@[si].0,
                hot_y: hotspots@[si].1,
            }) && frames@[f]@.len() == sizes@.len(),
{
    let ghost rv = rendered_view(rendered@);
    let n = sizes.len();
    let mut frames: Vec<Vec<Image>> = Vec::new();
    let mut f: usize = 0;
    while f < frame_count
        invariant
            0 <= f <= frame_count,
            n == sizes@.len(),
            hotspots@.len() == n,
            rendered@.len() == n,
            rv == rendered_view(rendered@),
            group_fault(role@, sizes@, rv, frame_count as int, 0, 0) == group_fault(role@, sizes@, rv, frame_count as int, f as int, 0),
            frames@.len() == f,
            forall|g: int, si: int|
                0 <= g < f && 0 <= si < n ==> (#[trigger] frames@[g]@[si])@ == (crate::ico::ImageView {
                    size: sizes@[si],
                    rgba: rv[si][g],
                    hot_x: hotspots@[si].0,
                    hot_y: hotspots@[si].1,
                }) && frames@[g]@.len() == n,
        decreases frame_count - f,
    {
        let mut images: Vec<Image> = Vec::new();
        let mut si: usize = 0;
        while si < n
            invariant
                0 <= si <= n,
                f < frame_count,
                n == sizes@.len(),
                hotspots@.len() == n,
                rendered@.len() == n,
                rv == rendered_view(rendered@),
                group_fault(role@, sizes@, rv, frame_count as int, 0, 0) == group_fault(role@, sizes@, rv, frame_count as int, f as int, si as int),
                images@.len() == si,
                forall|k: int|
                    0 <= k < si ==> (#[trigger] images@[k])@ == (crate::ico::ImageView {
                        size: sizes@[k],
                        rgba: rv[k][f as int],
                        hot_x: hotspots@[k].0,
                        hot_y: hotspots@[k].1,
                    }),
            decreases n - si,
        {
            let size = sizes[si];
            let (hx, hy) = hotspots[si];
            assert(rv[si as int].len() == rendered@[si as int]@.len());
            if f >= rendered[si].len() {
                return Err(Error::LostFrame { role: role.to_owned(), frame: f, size });
            }
            let rgba = rendered[si][f].clone();
            assert(rv[si as int][f as int] == rgba@);
            match Image::new(size, rgba, hx, hy) {
                Ok(img) => {
                    images.push(img);
                },
                Err(e) => {
                    return Err(e);
                },
            }
            si = si + 1;
        }
        frames.push(images);
        f = f + 1;
    }
    Ok(frames)
}


/// The roles that low-resolution warnings name, in order.
pub open spec fn low_res_roles(ws: Seq<WarningView>) -> Seq<Seq<char>>
    decreases ws.len(),
{
    if ws.len() == 0 {
        Seq::empty()
    } else {
        match ws.last() {
            WarningView::LowResolutionSource { role, .. } => low_res_roles(ws.drop_last()).push(role),
            _ => low_res_roles(ws.drop_last()),
        }
    }
}

/// A role drawn as `s`, with upscaling in `mode`.
pub open spec fn with_upscale(s: RoleSpec, mode: UpscaleMode) -> RoleSpec {
    RoleSpec { upscale: mode, ..s }
}

/// Role entries once upscaling in `mode` is on for each role named in
/// `names`; every other entry, and every other field, as it was.
pub open spec fn upscaled(roles: Seq<(Seq<char>, RoleSpec)>, names: Seq<Seq<char>>, mode: UpscaleMode) -> Seq<
    (Seq<char>, RoleSpec),
> {
    roles.map_values(
        |e: (Seq<char>, RoleSpec)|
            if names.contains(e.0) {
                (e.0, with_upscale(e.1, mode))
            } else {
                e
            },
    )
}

/// How many of `names` (counting repeats) name an entry of `roles`.
pub open spec fn count_present(roles: Seq<(Seq<char>, RoleSpec)>, names: Seq<Seq<char>>) -> nat
    decreases names.len(),
{
    if names.len() == 0 {
        0
    } else {
        count_present(roles, names.drop_last()) + if lookup(roles, names.last()) is Some {
            1nat
        } else {
            0nat
        }
    }
}

/// Turning on upscaling changes no role's fault, so the first fault from `i`
/// on stays the same.
proof fn lemma_upscaled_faults(roles: Seq<(Seq<char>, RoleSpec)>, names: Seq<Seq<char>>, mode: UpscaleMode, i: int, base: u32)
    requires
        0 <= i,
    ensures
        crate::manifest::first_role_fault(upscaled(roles, names, mode), i, base)
            == crate::manifest::first_role_fault(roles, i, base),
        crate::manifest::all_system(upscaled(roles, names, mode)) == crate::manifest::all_system(roles),
    decreases roles.len() - i,
{
    let u = upscaled(roles, names, mode);
    if i < roles.len() {
        lemma_upscaled_faults(roles, names, mode, i + 1, base);
        assert(u[i].0 == roles[i].0);
        assert(crate::manifest::role_fault(u[i].0, u[i].1, base) == crate::manifest::role_fault(roles[i].0, roles[i].1, base));
    }
    assert forall|k: int| 0 <= k < roles.len() implies crate::manifest::spec_is_system(#[trigger] u[k].1)
        == crate::manifest::spec_is_system(roles[k].1) by {}
    if crate::manifest::all_system(roles) {
        assert forall|k: int| 0 <= k < u.len() implies crate::manifest::spec_is_system(#[trigger] u[k].1) by {
            assert(crate::manifest::spec_is_system(roles[k].1));
        }
    }
    if crate::manifest::all_system(u) {
        assert forall|k: int| 0 <= k < roles.len() implies crate::manifest::spec_is_system(#[trigger] roles[k].1) by {
            assert(crate::manifest::spec_is_system(u[k].1));
        }
    }
}

/// Turn on upscaling in `mode` for every role of `pack` that a low-resolution
/// warning names, so that each gets its larger sizes filled in rather than
/// leaving Windows to stretch it. Gives how many times a warning named a role
/// of the pack. Nothing else about the pack changes, so a valid pack stays
/// valid.
pub fn upscale_low_resolution(pack: &mut Pack, warnings: &[Warning], mode: UpscaleMode) -> (r: usize)
    ensures
        final(pack).roles@ == upscaled(old(pack).roles@, low_res_roles(warnings_view(warnings@)), mode),
        r == count_present(old(pack).roles@, low_res_roles(warnings_view(warnings@))),
        final(pack).format == old(pack).format,
        final(pack).name == old(pack).name,
        final(pack).author == old(pack).author,
        final(pack).version == old(pack).version,
        final(pack).description == old(pack).description,
        final(pack).base_size == old(pack).base_size,
        final(pack).sizes == old(pack).sizes,
        crate::manifest::pack_fault(*final(pack)) == crate::manifest::pack_fault(*old(pack)),
{
    let ghost orig = pack.roles@;
    let mut changed: usize = 0;
    let mut i: usize = 0;
    assert(warnings_view(warnings@.take(0)) =~= Seq::<WarningView>::empty());
    assert(upscaled(orig, Seq::empty(), mode) =~= orig);
    while i < warnings.len()
        invariant
            0 <= i <= warnings@.len(),
            orig == old(pack).roles@,
            pack.roles@ == upscaled(orig, low_res_roles(warnings_view(warnings@.take(i as int))), mode),
            changed == count_present(orig, low_res_roles(warnings_view(warnings@.take(i as int)))),
            changed <= i,
            pack.format == old(pack).format,
            pack.name == old(pack).name,
            pack.author == old(pack).author,
            pack.version == old(pack).version,
            pack.description == old(pack).description,
            pack.base_size == old(pack).base_size,
            pack.sizes == old(pack).sizes,
        decreases warnings@.len() - i,
    {
        let ghost names = low_res_roles(warnings_view(warnings@.take(i as int)));
        let ghost ws1 = warnings_view(warnings@.take(i + 1));
        assert(ws1.drop_last() =~= warnings_view(warnings@.take(i as int)));
        assert(ws1.last() == warnings@[i as int]@);
        match &warnings[i] {
            Warning::LowResolutionSource { role, .. } => {
                let ghost k = role@;
                let ghost names1 = names.push(k);
                assert(low_res_roles(ws1) == names1);
                assert(names1.drop_last() =~= names);
                let ghost cur = pack.roles@;
                let found = match pack.roles.get(role.as_str()) {
                    Some(spec) => Some(
                        RoleSpec {
                            source: match &spec.source {
                                Some(x) => Some(x.clone()),
                                None => None,
                            },
                            hotspot: spec.hotspot,
                            fps_bits: spec.fps_bits,
                            looping: spec.looping,
                            grid: spec.grid,
                            inherit: match &spec.inherit {
                                Some(x) => Some(x.clone()),
                                None => None,
                            },
                            upscale: mode,
                        },
                    ),
                    None => None,
                };
                proof {
                    // Looking a name up finds the entry carrying it, in the
                    // entries as they were and in the current ones alike.
                    assert forall|j: int| 0 <= j < cur.len() implies #[trigger] cur[j].0 == orig[j].0 by {}
                    assert(crate::keyed::keys_ascending(orig)) by {
                        assert forall|a: int, b: int| 0 <= a < b < orig.len() implies crate::text::lex_lt(
                            #[trigger] orig[a].0,
                            #[trigger] orig[b].0,
                        ) by {
                            assert(cur[a].0 == orig[a].0 && cur[b].0 == orig[b].0);
                        }
                    }
                    if exists|j: int| 0 <= j < orig.len() && orig[j].0 == k {
                        let j = choose|j: int| 0 <= j < orig.len() && orig[j].0 == k;
                        crate::keyed::lemma_lookup_at(orig, j);
                        crate::keyed::lemma_lookup_at(cur, j);
                    } else {
                        crate::keyed::lemma_lookup_absent(orig, k, 0);
                        crate::keyed::lemma_lookup_absent(cur, k, 0);
                    }
                }
                match found {
                    Some(new_spec) => {
                        let ghost j = choose|j: int| 0 <= j < orig.len() && orig[j].0 == k;
                        assert(new_spec == with_upscale(orig[j].1, mode));
                        pack.roles.set_existing(role.as_str(), new_spec);
                        assert(pack.roles@ =~= upscaled(orig, names1, mode)) by {
                            assert forall|x: int| 0 <= x < orig.len() implies #[trigger] pack.roles@[x]
                                == upscaled(orig, names1, mode)[x] by {
                                if orig[x].0 == k {
                                    assert(x == j) by {
                                        if x < j {
                                            crate::text::lemma_lex_irreflexive(k);
                                        } else if x > j {
                                            crate::text::lemma_lex_irreflexive(k);
                                        }
                                    }
                                }
                            }
                        }
                        changed = changed + 1;
                    },
                    None => {
                        assert forall|x: int| 0 <= x < orig.len() implies orig[x].0 != k by {}
                        assert(pack.roles@ =~= upscaled(orig, names1, mode)) by {
                            assert forall|x: int| 0 <= x < orig.len() implies #[trigger] pack.roles@[x]
                                == upscaled(orig, names1, mode)[x] by {
                                assert(names1.contains(orig[x].0) == names.contains(orig[x].0)) by {
                                    if names1.contains(orig[x].0) {
                                        let q = choose|q: int| 0 <= q < names1.len() && names1[q] == orig[x].0;
                                        if q < names.len() {
                                            assert(names[q] == names1[q]);
                                        }
                                    }
                                    if names.contains(orig[x].0) {
                                        let q = choose|q: int| 0 <= q < names.len() && names[q] == orig[x].0;
                                        assert(names1[q] == names[q]);
                                    }
                                }
                            }
                        }
                    },
                }
            },
            _ => {
                assert(low_res_roles(ws1) == names);
            },
        }
        i = i + 1;
    }
    assert(warnings@.take(warnings@.len() as int) =~= warnings@);
    proof {
        lemma_upscaled_faults(orig, low_res_roles(warnings_view(warnings@)), mode, 0, pack.base_size);
    }
    changed
}

/// Whether two lists of sizes are the same.
fn same_sizes(a: &[u32], b: &[u32]) -> (r: bool)
    ensures
        r == (a@ == b@),
{
    if a.len() != b.len() {
        return false;
    }
    let mut i: usize = 0;
    while i < a.len()
        invariant
            0 <= i <= a@.len(),
            a@.len() == b@.len(),
            forall|k: int| 0 <= k < i ==> a@[k] == b@[k],
        decreases a@.len() - i,
    {
        if a[i] != b[i] {
            return false;
        }
        i = i + 1;
    }
    assert(a@ =~= b@);
    true
}

/// Whether two warnings say the same thing.
fn same_warning(a: &Warning, b: &Warning) -> (r: bool)
    ensures
        r == (a@ == b@),
{
    match (a, b) {
        (
            Warning::Padded { path: p1, from_w: w1, from_h: h1, to: t1 },
            Warning::Padded { path: p2, from_w: w2, from_h: h2, to: t2 },
        ) => crate::text::str_eq(p1.as_str(), p2.as_str()) && *w1 == *w2 && *h1 == *h2 && *t1 == *t2,
        (
            Warning::Upscaled { path: p1, native: n1, requested: q1 },
            Warning::Upscaled { path: p2, native: n2, requested: q2 },
        ) => crate::text::str_eq(p1.as_str(), p2.as_str()) && *n1 == *n2 && *q1 == *q2,
        (
            Warning::LowResolutionSource { role: r1, largest: l1 },
            Warning::LowResolutionSource { role: r2, largest: l2 },
        ) => crate::text::str_eq(r1.as_str(), r2.as_str()) && *l1 == *l2,
        (
            Warning::ReadyMadeUpscaled { role: r1, native: n1, added: a1, mode: m1 },
            Warning::ReadyMadeUpscaled { role: r2, native: n2, added: a2, mode: m2 },
        ) => crate::text::str_eq(r1.as_str(), r2.as_str()) && *n1 == *n2 && same_sizes(a1.as_slice(), a2.as_slice())
            && *m1 == *m2,
        (
            Warning::AnimationSizesDropped { role: r1, kept: k1, dropped: d1 },
            Warning::AnimationSizesDropped { role: r2, kept: k2, dropped: d2 },
        ) => crate::text::str_eq(r1.as_str(), r2.as_str()) && same_sizes(k1.as_slice(), k2.as_slice())
            && same_sizes(d1.as_slice(), d2.as_slice()),
        _ => false,
    }
}

/// A copy of a warning.
fn copy_warning(w: &Warning) -> (r: Warning)
    ensures
        r@ == w@,
{
    match w {
        Warning::Padded { path, from_w, from_h, to } => Warning::Padded {
            path: path.clone(),
            from_w: *from_w,
            from_h: *from_h,
            to: *to,
        },
        Warning::Upscaled { path, native, requested } => Warning::Upscaled {
            path: path.clone(),
            native: *native,
            requested: *requested,
        },
        Warning::LowResolutionSource { role, largest } => Warning::LowResolutionSource {
            role: role.clone(),
            largest: *largest,
        },
        Warning::ReadyMadeUpscaled { role, native, added, mode } => Warning::ReadyMadeUpscaled {
            role: role.clone(),
            native: *native,
            added: crate::text::copy_u32s(added.as_slice()),
            mode: *mode,
        },
        Warning::AnimationSizesDropped { role, kept, dropped } => Warning::AnimationSizesDropped {
            role: role.clone(),
            kept: crate::text::copy_u32s(kept.as_slice()),
            dropped: crate::text::copy_u32s(dropped.as_slice()),
        },
    }
}

/// One line of a list of warnings once grouped.
#[derive(Debug)]
pub enum WarningLine {
    /// `count` warnings of roles stuck at a low resolution, folded into one:
    /// the first names `first_role`, and the largest image among them is
    /// `biggest` pixels.
    LowResolution { count: usize, first_role: String, biggest: u32 },
    /// Any other warning, as it came.
    Single(Warning),
}

/// `WarningLine` with its role and warning taken as their views.
pub enum WarningLineView {
    LowResolution { count: usize, first_role: Seq<char>, biggest: u32 },
    Single(WarningView),
}

impl View for WarningLine {
    type V = WarningLineView;

    open spec fn view(&self) -> WarningLineView {
        match self {
            WarningLine::LowResolution { count, first_role, biggest } => WarningLineView::LowResolution {
                count: *count,
                first_role: first_role@,
                biggest: *biggest,
            },
            WarningLine::Single(w) => WarningLineView::Single(w@),
        }
    }
}

/// Lines taken as their views.
pub open spec fn lines_view(v: Seq<WarningLine>) -> Seq<WarningLineView> {
    Seq::new(v.len(), |i: int| v[i]@)
}

/// The role and largest size of each low-resolution warning, in order.
pub open spec fn low_res(ws: Seq<WarningView>) -> Seq<(Seq<char>, u32)>
    decreases ws.len(),
{
    if ws.len() == 0 {
        Seq::empty()
    } else {
        match ws.last() {
            WarningView::LowResolutionSource { role, largest } => low_res(ws.drop_last()).push((role, largest)),
            _ => low_res(ws.drop_last()),
        }
    }
}

/// The largest of the sizes; 0 when there are none.
pub open spec fn biggest_of(s: Seq<(Seq<char>, u32)>) -> u32
    decreases s.len(),
{
    if s.len() == 0 {
        0
    } else if s.last().1 > biggest_of(s.drop_last()) {
        s.last().1
    } else {
        biggest_of(s.drop_last())
    }
}

/// The warnings other than low-resolution ones, in order.
pub open spec fn other_warnings(ws: Seq<WarningView>) -> Seq<WarningView>
    decreases ws.len(),
{
    if ws.len() == 0 {
        Seq::empty()
    } else {
        match ws.last() {
            WarningView::LowResolutionSource { .. } => other_warnings(ws.drop_last()),
            _ => other_warnings(ws.drop_last()).push(ws.last()),
        }
    }
}

/// The warnings with each run of equal ones kept once.
pub open spec fn dedup_runs(ws: Seq<WarningView>) -> Seq<WarningView>
    decreases ws.len(),
{
    if ws.len() == 0 {
        Seq::empty()
    } else if dedup_runs(ws.drop_last()).len() > 0 && dedup_runs(ws.drop_last()).last() == ws.last() {
        dedup_runs(ws.drop_last())
    } else {
        dedup_runs(ws.drop_last()).push(ws.last())
    }
}

/// Each warning as a line of its own.
pub open spec fn singles(ws: Seq<WarningView>) -> Seq<WarningLineView> {
    Seq::new(ws.len(), |i: int| WarningLineView::Single(ws[i]))
}

/// The lines a list of warnings reads as: all low-resolution warnings folded
/// into one line first, then the others, each run of equal ones once.
pub open spec fn spec_collapse(ws: Seq<WarningView>) -> Seq<WarningLineView> {
    let low = low_res(ws);
    let head = if low.len() > 0 {
        seq![WarningLineView::LowResolution { count: low.len() as usize, first_role: low[0].0, biggest: biggest_of(low) }]
    } else {
        Seq::empty()
    };
    head + singles(dedup_runs(other_warnings(ws)))
}

/// Group repetitive warnings into one line each (see `spec_collapse`). A
/// downloaded pack typically trips the same low-resolution warning for every
/// pointer it contains; listing each buries the ones that differ.
pub fn collapse_warnings(warnings: &[Warning]) -> (r: Vec<WarningLine>)
    ensures
        lines_view(r@) == spec_collapse(warnings_view(warnings@)),
{
    let mut lines: Vec<WarningLine> = Vec::new();
    let mut count: usize = 0;
    let mut first: Option<String> = None;
    let mut biggest: u32 = 0;
    let mut i: usize = 0;
    assert(warnings_view(warnings@.take(0)) =~= Seq::<WarningView>::empty());
    assert(lines_view(lines@) =~= singles(Seq::<WarningView>::empty()));
    while i < warnings.len()
        invariant
            0 <= i <= warnings@.len(),
            count <= i,
            count == low_res(warnings_view(warnings@.take(i as int))).len(),
            count > 0 ==> (first matches Some(f) && f@ == low_res(warnings_view(warnings@.take(i as int)))[0].0),
            biggest == biggest_of(low_res(warnings_view(warnings@.take(i as int)))),
            lines_view(lines@) == singles(dedup_runs(other_warnings(warnings_view(warnings@.take(i as int))))),
        decreases warnings@.len() - i,
    {
        let ghost ws0 = warnings_view(warnings@.take(i as int));
        let ghost ws1 = warnings_view(warnings@.take(i + 1));
        assert(ws1.drop_last() =~= ws0);
        assert(ws1.last() == warnings@[i as int]@);
        let ghost d0 = dedup_runs(other_warnings(ws0));
        match &warnings[i] {
            Warning::LowResolutionSource { role, largest } => {
                assert(low_res(ws1) == low_res(ws0).push((role@, *largest)));
                assert(low_res(ws1).drop_last() =~= low_res(ws0));
                assert(other_warnings(ws1) == other_warnings(ws0));
                if count == 0 {
                    first = Some(role.clone());
                }
                if count == 0 || *largest > biggest {
                    biggest = *largest;
                }
                count = count + 1;
            },
            w => {
                assert(other_warnings(ws1) == other_warnings(ws0).push(w@));
                assert(other_warnings(ws1).drop_last() =~= other_warnings(ws0));
                assert(low_res(ws1) == low_res(ws0));
                let ghost o1 = other_warnings(ws1);
                let ghost before = lines_view(lines@);
                assert(before.len() == d0.len());
                let n = lines.len();
                let repeat = if n > 0 {
                    assert(before[n - 1] == singles(d0)[n - 1]);
                    assert(lines@[n - 1]@ == WarningLineView::Single(d0.last()));
                    match &lines[n - 1] {
                        WarningLine::Single(prev) => same_warning(prev, w),
                        _ => false,
                    }
                } else {
                    false
                };
                assert(repeat == (d0.len() > 0 && d0.last() == o1.last()));
                if !repeat {
                    lines.push(WarningLine::Single(copy_warning(w)));
                    assert(dedup_runs(o1) == d0.push(w@));
                    assert(lines_view(lines@) =~= before.push(WarningLineView::Single(w@)));
                } else {
                    assert(dedup_runs(o1) == d0);
                }
                assert(lines_view(lines@) =~= singles(dedup_runs(o1)));
            },
        }
        i = i + 1;
    }
    assert(warnings@.take(warnings@.len() as int) =~= warnings@);
    if count > 0 {
        match first {
            Some(f) => {
                lines.insert(0, WarningLine::LowResolution { count, first_role: f, biggest });
            },
            None => {},
        }
    }
    assert(lines_view(lines@) =~= spec_collapse(warnings_view(warnings@)));
    lines
}

/// The warnings with each run of equal ones kept once (see `dedup_runs`).
pub fn dedup_warnings(warnings: &[Warning]) -> (r: Vec<Warning>)
    ensures
        warnings_view(r@) == dedup_runs(warnings_view(warnings@)),
{
    let mut out: Vec<Warning> = Vec::new();
    let mut i: usize = 0;
    assert(warnings_view(warnings@.take(0)) =~= Seq::<WarningView>::empty());
    assert(warnings_view(out@) =~= Seq::<WarningView>::empty());
    while i < warnings.len()
        invariant
            0 <= i <= warnings@.len(),
            warnings_view(out@) == dedup_runs(warnings_view(warnings@.take(i as int))),
        decreases warnings@.len() - i,
    {
        let ghost ws0 = warnings_view(warnings@.take(i as int));
        let ghost ws1 = warnings_view(warnings@.take(i + 1));
        assert(ws1.drop_last() =~= ws0);
        assert(ws1.last() == warnings@[i as int]@);
        let ghost before = warnings_view(out@);
        let n = out.len();
        let repeat = n > 0 && same_warning(&out[n - 1], &warnings[i]);
        assert(repeat == (before.len() > 0 && before.last() == ws1.last()));
        if !repeat {
            out.push(copy_warning(&warnings[i]));
            assert(warnings_view(out@) =~= before.push(warnings@[i as int]@));
        }
        i = i + 1;
    }
    assert(warnings@.take(warnings@.len() as int) =~= warnings@);
    out
}

/// The index of the last of the first `n` images whose size is `size`.
pub open spec fn last_of_size(images: Seq<ImageView>, size: u32, n: int) -> Option<int>
    decreases n,
{
    if n <= 0 {
        None
    } else if images[n - 1].size == size {
        Some(n - 1)
    } else {
        last_of_size(images, size, n - 1)
    }
}

/// For each of the `targets` sizes a ready-made frame is rebuilt at, the
/// existing image kept for it unchanged: the last one of that size, or `None`
/// when the size has to be synthesized.
pub fn kept_images(images: &[Image], targets: &[u32]) -> (r: Vec<Option<usize>>)
    ensures
        r@.len() == targets@.len(),
        forall|t: int|
            0 <= t < targets@.len() ==> opt_index(#[trigger] r@[t]) == last_of_size(
                crate::ico::views(images@),
                targets@[t],
                images@.len() as int,
            ),
{
    let ghost v = crate::ico::views(images@);
    let mut out: Vec<Option<usize>> = Vec::new();
    let mut t: usize = 0;
    while t < targets.len()
        invariant
            0 <= t <= targets@.len(),
            v == crate::ico::views(images@),
            out@.len() == t,
            forall|q: int|
                0 <= q < t ==> opt_index(#[trigger] out@[q]) == last_of_size(v, targets@[q], images@.len() as int),
        decreases targets@.len() - t,
    {
        let want = targets[t];
        let mut k: usize = images.len();
        let mut found: Option<usize> = None;
        while k > 0 && found.is_none()
            invariant
                0 <= k <= images@.len(),
                v == crate::ico::views(images@),
                found is None ==> last_of_size(v, want, images@.len() as int) == last_of_size(v, want, k as int),
                found matches Some(i) ==> last_of_size(v, want, images@.len() as int) == Some(i as int),
            decreases k,
        {
            assert(v[k - 1].size == images@[k - 1].size);
            if images[k - 1].size == want {
                found = Some(k - 1);
            }
            k = k - 1;
        }
        out.push(found);
        t = t + 1;
    }
    out
}

/// An index taken as an integer.
pub open spec fn opt_index(o: Option<usize>) -> Option<int> {
    match o {
        Some(i) => Some(i as int),
        None => None,
    }
}

/// The values of `a + b` are those of `a` and those of `b`.
proof fn lemma_concat_set(a: Seq<u32>, b: Seq<u32>)
    ensures
        (a + b).to_set() == a.to_set() + b.to_set(),
{
    assert forall|v: u32| (a + b).to_set().contains(v) <==> (a.to_set() + b.to_set()).contains(v) by {
        if (a + b).contains(v) {
            let i = choose|i: int| 0 <= i < (a + b).len() && (a + b)[i] == v;
            if i < a.len() {
                assert(a[i] == v);
            } else {
                assert(b[i - a.len()] == v);
            }
        }
        if a.contains(v) {
            let i = choose|i: int| 0 <= i < a.len() && a[i] == v;
            assert((a + b)[i] == v);
        }
        if b.contains(v) {
            let i = choose|i: int| 0 <= i < b.len() && b[i] == v;
            assert((a + b)[a.len() + i] == v);
        }
    }
    assert((a + b).to_set() =~= a.to_set() + b.to_set());
}

/// A still ready-made cursor is never held to the animation budget and
/// nothing of it is dropped: passed through without upscaling it keeps
/// exactly its own sizes; upscaled, it gets every size it had and every size
/// of the pack, each once, in ascending order.
pub proof fn lemma_still_target_keeps_every_size(
    sizes: Seq<u32>,
    pack_sizes: Seq<u32>,
    upscale: UpscaleMode,
    has_hotspot: bool,
)
    ensures
        spec_target(false, sizes, pack_sizes, upscale, has_hotspot).1.len() == 0,
        upscale == UpscaleMode::Off ==> spec_target(false, sizes, pack_sizes, upscale, has_hotspot).0 == sizes,
        upscale != UpscaleMode::Off ==> crate::ani::strictly_ascending(spec_target(false, sizes, pack_sizes, upscale, has_hotspot).0)
            && spec_target(false, sizes, pack_sizes, upscale, has_hotspot).0.to_set() == sizes.to_set()
            + pack_sizes.to_set(),
{
    crate::ani::lemma_distinct_asc(sizes + pack_sizes);
    lemma_concat_set(sizes, pack_sizes);
}

} // verus!

