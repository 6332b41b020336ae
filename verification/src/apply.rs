//! Installing a pack and pointing Windows at it: the decisions. Building the
//! cursors, writing files and the registry, and telling Windows to reload
//! happen in the application, which hands the outcomes back here.
use crate::error::{Error, ErrorView};
use crate::raster::Warning;
use crate::registry::{set_role, set_scheme_name, set_scheme_source, sz_bytes, strings_view, value_view, values_view, RawValue, REG_DWORD, REG_SZ, SCHEME_SOURCE_USER};
use crate::restore::{join, join_path};
use crate::text::{chars_of, eq_ignore_case, lower_char, string_of, trim_ch, trim_matches};
use vstd::prelude::*;

verus! {

/// Both behaviour switches are on for a fresh install.
pub fn enabled_by_default() -> (r: bool)
    ensures
        r,
{
    true
}

/// What is currently applied, so the tray can show it across restarts.
///
/// Both behaviour switches default to on: the application is meant to be
/// there from boot, and to leave nothing behind when it is closed.
#[derive(Debug, Clone, PartialEq, Eq)]
pub struct State {
    /// `None` means the Windows defaults are in place right now.
    pub active_pack: Option<String>,
    pub active_pack_dir: Option<String>,
    /// The pack the user last chose, remembered across restarts. Quitting with
    /// `restore_on_exit` clears `active_pack` but keeps this; only an explicit
    /// restore of the Windows defaults forgets it.
    pub last_pack: Option<String>,
    pub last_pack_dir: Option<String>,
    /// Restore the Windows defaults when the application exits.
    pub restore_on_exit: bool,
    pub start_with_windows: bool,
}

impl Default for State {
    fn default() -> (r: Self)
        ensures
            r.active_pack is None,
            r.active_pack_dir is None,
            r.last_pack is None,
            r.last_pack_dir is None,
            r.restore_on_exit,
            r.start_with_windows,
    {
        State {
            active_pack: None,
            active_pack_dir: None,
            last_pack: None,
            last_pack_dir: None,
            restore_on_exit: true,
            start_with_windows: true,
        }
    }
}

/// Where the state is saved, under the data folder `root`.
pub fn state_path(root: &str) -> (r: String)
    ensures
        r@ == join_path(root@, "state.json"@),
{
    join(root, "state.json")
}

/// An ASCII letter or digit.
pub open spec fn is_alnum(c: char) -> bool {
    ('0' <= c && c <= '9') || ('a' <= c && c <= 'z') || ('A' <= c && c <= 'Z')
}

/// Each character of `s`: ASCII letters and digits in lowercase, anything else
/// as `-`.
pub open spec fn slug_chars(s: Seq<char>) -> Seq<char>
    decreases s.len(),
{
    if s.len() == 0 {
        Seq::empty()
    } else {
        slug_chars(s.drop_last()).push(
            if is_alnum(s.last()) {
                lower_char(s.last())
            } else {
                '-'
            },
        )
    }
}

/// A folder name made from a pack name: letters and digits in lowercase, any
/// other character as `-`, without leading or trailing `-`; `pack` when
/// nothing is left.
pub open spec fn spec_slug(name: Seq<char>) -> Seq<char> {
    if trim_ch(slug_chars(name), '-').len() == 0 {
        "pack"@
    } else {
        trim_ch(slug_chars(name), '-')
    }
}

/// A folder name made from a pack name (see `spec_slug`).
pub fn slug(name: &str) -> (r: String)
    ensures
        r@ == spec_slug(name@),
{
    let cs = chars_of(name);
    let mut out: Vec<char> = Vec::new();
    let mut i: usize = 0;
    assert(cs@.take(0) =~= Seq::<char>::empty());
    while i < cs.len()
        invariant
            0 <= i <= cs@.len(),
            cs@ == name@,
            out@ == slug_chars(cs@.take(i as int)),
        decreases cs@.len() - i,
    {
        let c = cs[i];
        let alnum = ('0' <= c && c <= '9') || ('a' <= c && c <= 'z') || ('A' <= c && c <= 'Z');
        if alnum {
            out.push(crate::text::lower_ascii(c));
        } else {
            out.push('-');
        }
        assert(cs@.take(i + 1).drop_last() =~= cs@.take(i as int));
        i = i + 1;
    }
    assert(cs@.take(cs@.len() as int) =~= cs@);
    let t = trim_matches(out.as_slice(), '-');
    if t.len() == 0 {
        "pack".to_owned()
    } else {
        string_of(t.as_slice())
    }
}

/// A character a slug may hold: a lowercase ASCII letter, a digit or `-`.
pub open spec fn slug_safe(c: char) -> bool {
    ('a' <= c && c <= 'z') || ('0' <= c && c <= '9') || c == '-'
}

proof fn lemma_slug_chars_safe(s: Seq<char>)
    ensures
        slug_chars(s).len() == s.len(),
        forall|i: int| 0 <= i < slug_chars(s).len() ==> slug_safe(#[trigger] slug_chars(s)[i]),
    decreases s.len(),
{
    if s.len() > 0 {
        lemma_slug_chars_safe(s.drop_last());
        let c = s.last();
        if is_alnum(c) {
            if 'A' <= c && c <= 'Z' {
                assert('a' <= lower_char(c) && lower_char(c) <= 'z');
            }
        }
        assert forall|i: int| 0 <= i < slug_chars(s).len() implies slug_safe(#[trigger] slug_chars(s)[i]) by {
            if i < s.len() - 1 {
                assert(slug_chars(s)[i] == slug_chars(s.drop_last())[i]);
            }
        }
    }
}

/// A slug is never empty and holds only lowercase ASCII letters, digits and
/// `-`, so an install folder named by one cannot reach outside the folder it
/// is placed in.
pub proof fn lemma_slug_is_safe(name: Seq<char>)
    ensures
        spec_slug(name).len() > 0,
        forall|i: int| 0 <= i < spec_slug(name).len() ==> slug_safe(#[trigger] spec_slug(name)[i]),
{
    let t = slug_chars(name);
    lemma_slug_chars_safe(name);
    crate::text::lemma_lead_ch_bounds(t, '-', 0);
    let lo = crate::text::lead_ch(t, '-', 0);
    crate::text::lemma_trail_ch_bounds(t, '-', t.len() as int, lo);
    if trim_ch(t, '-').len() > 0 {
        assert forall|i: int| 0 <= i < spec_slug(name).len() implies slug_safe(#[trigger] spec_slug(name)[i]) by {
            assert(spec_slug(name)[i] == t[lo + i]);
        }
    } else {
        reveal_strlit("pack");
        assert forall|i: int| 0 <= i < spec_slug(name).len() implies slug_safe(#[trigger] spec_slug(name)[i]) by {
            assert("pack"@[i] == 'p' || "pack"@[i] == 'a' || "pack"@[i] == 'c' || "pack"@[i] == 'k');
        }
    }
}

/// Where a pack's compiled cursors are installed, under the data folder `root`.
pub fn install_dir_for(root: &str, pack_name: &str) -> (r: String)
    ensures
        r@ == join_path(join_path(root@, "installed"@), spec_slug(pack_name@)),
{
    let base = join(root, "installed");
    let s = slug(pack_name);
    join(base.as_str(), s.as_str())
}

/// What Windows reports about a cursor file it successfully loaded.
#[derive(Debug, Clone, Copy, PartialEq, Eq)]
pub struct LoadedCursor {
    pub width: i32,
    pub height: i32,
    pub hot_x: i32,
    pub hot_y: i32,
}

/// The result of applying a pack.
#[derive(Debug)]
pub struct Applied {
    pub pack_name: String,
    pub install_dir: String,
    /// Roles set, with the file each points at.
    pub roles: Vec<(String, String)>,
    /// Roles reset to the Windows default because the pack does not define them.
    pub reset_to_default: Vec<String>,
    pub warnings: Vec<Warning>,
}

/// Everything applying a pack writes.
#[derive(Debug)]
pub struct ApplyPlan {
    pub applied: Applied,
    /// Registry values to write under the cursors key, in order.
    pub writes: Vec<RawValue>,
    /// The state to save.
    pub state: State,
}

/// The path of the first written cursor whose role equals `role` ignoring
/// ASCII case.
pub open spec fn written_path(written: Seq<(Seq<char>, Seq<char>)>, role: Seq<char>, i: int) -> Option<Seq<char>>
    decreases written.len() - i,
{
    if i < 0 || i >= written.len() {
        None
    } else if eq_ignore_case(written[i].0, role) {
        Some(written[i].1)
    } else {
        written_path(written, role, i + 1)
    }
}

/// Pairs of strings taken as character sequences.
pub open spec fn pairs_view(v: Seq<(String, String)>) -> Seq<(Seq<char>, Seq<char>)> {
    Seq::new(v.len(), |i: int| (v[i].0@, v[i].1@))
}

/// For the first `n` present roles: each role with the file written for it.
pub open spec fn set_roles(written: Seq<(Seq<char>, Seq<char>)>, present: Seq<Seq<char>>, n: int) -> Seq<(Seq<char>, Seq<char>)>
    decreases n,
{
    if n <= 0 {
        Seq::empty()
    } else {
        match written_path(written, present[n - 1], 0) {
            Some(p) => set_roles(written, present, n - 1).push((present[n - 1], p)),
            None => set_roles(written, present, n - 1),
        }
    }
}

/// The first `n` present roles that no written file is for.
pub open spec fn reset_roles(written: Seq<(Seq<char>, Seq<char>)>, present: Seq<Seq<char>>, n: int) -> Seq<Seq<char>>
    decreases n,
{
    if n <= 0 {
        Seq::empty()
    } else {
        match written_path(written, present[n - 1], 0) {
            Some(p) => reset_roles(written, present, n - 1),
            None => reset_roles(written, present, n - 1).push(present[n - 1]),
        }
    }
}

/// The role values for the first `n` present roles: the written file, or an
/// empty path (the Windows default).
pub open spec fn role_writes(written: Seq<(Seq<char>, Seq<char>)>, present: Seq<Seq<char>>, n: int) -> Seq<(Seq<char>, u32, Seq<u8>)>
    decreases n,
{
    if n <= 0 {
        Seq::empty()
    } else {
        let path = match written_path(written, present[n - 1], 0) {
            Some(p) => p,
            None => Seq::empty(),
        };
        role_writes(written, present, n - 1).push((present[n - 1], REG_SZ, sz_bytes(path)))
    }
}

/// The file written for `role`, ignoring ASCII case.
fn find_written(written: &[(String, String)], role: &str) -> (r: Option<usize>)
    ensures
        r is None <==> written_path(pairs_view(written@), role@, 0) is None,
        r matches Some(i) ==> i < written@.len() && written_path(pairs_view(written@), role@, 0)
            == Some(written@[i as int].1@),
{
    let ghost wv = pairs_view(written@);
    let mut i: usize = 0;
    while i < written.len()
        invariant
            0 <= i <= written@.len(),
            wv == pairs_view(written@),
            written_path(wv, role@, 0) == written_path(wv, role@, i as int),
        decreases written@.len() - i,
    {
        if crate::text::str_eq_ignore_ascii_case(written[i].0.as_str(), role) {
            return Some(i);
        }
        i = i + 1;
    }
    None
}

/// Point Windows at a compiled pack: each role present on this install is set
/// to the file written for it, or reset to the Windows default when the pack
/// does not define it, so switching packs never leaves a mixture of two; then
/// the scheme is named and marked as user-defined. The pack becomes both the
/// active and the remembered one.
pub fn apply(
    pack_name: &str,
    pack_dir: &str,
    install_dir: &str,
    written: &[(String, String)],
    present: &[String],
    warnings: Vec<Warning>,
    state: &State,
) -> (r: ApplyPlan)
    ensures
        r.applied.pack_name@ == pack_name@,
        r.applied.install_dir@ == install_dir@,
        pairs_view(r.applied.roles@) == set_roles(pairs_view(written@), strings_view(present@), present@.len() as int),
        strings_view(r.applied.reset_to_default@) == reset_roles(pairs_view(written@), strings_view(present@), present@.len() as int),
        r.applied.warnings == warnings,
        values_view(r.writes@) == role_writes(pairs_view(written@), strings_view(present@), present@.len() as int)
            + seq![(Seq::<char>::empty(), REG_SZ, sz_bytes(pack_name@)), ("Scheme Source"@, REG_DWORD, crate::bytes::le32(SCHEME_SOURCE_USER))],
        r.state.active_pack matches Some(n) && n@ == pack_name@,
        r.state.active_pack_dir matches Some(d) && d@ == pack_dir@,
        r.state.last_pack matches Some(n) && n@ == pack_name@,
        r.state.last_pack_dir matches Some(d) && d@ == pack_dir@,
        r.state.restore_on_exit == state.restore_on_exit,
        r.state.start_with_windows == state.start_with_windows,
{
    let ghost wv = pairs_view(written@);
    let ghost pv = strings_view(present@);
    let mut roles: Vec<(String, String)> = Vec::new();
    let mut reset: Vec<String> = Vec::new();
    let mut writes: Vec<RawValue> = Vec::new();
    let mut i: usize = 0;
    assert(pairs_view(roles@) =~= set_roles(wv, pv, 0));
    assert(strings_view(reset@) =~= reset_roles(wv, pv, 0));
    assert(values_view(writes@) =~= role_writes(wv, pv, 0));
    while i < present.len()
        invariant
            0 <= i <= present@.len(),
            wv == pairs_view(written@),
            pv == strings_view(present@),
            pairs_view(roles@) == set_roles(wv, pv, i as int),
            strings_view(reset@) == reset_roles(wv, pv, i as int),
            values_view(writes@) == role_writes(wv, pv, i as int),
        decreases present@.len() - i,
    {
        let role = &present[i];
        let ghost r0 = pairs_view(roles@);
        let ghost s0 = strings_view(reset@);
        let ghost w0 = values_view(writes@);
        assert(pv[i as int] == role@);
        match find_written(written, role.as_str()) {
            Some(k) => {
                let path = &written[k].1;
                writes.push(set_role(role.as_str(), path.as_str()));
                roles.push((role.clone(), path.clone()));
                assert(pairs_view(roles@) =~= r0.push((role@, path@)));
                assert(values_view(writes@) =~= w0.push((role@, REG_SZ, sz_bytes(path@))));
            },
            None => {
                writes.push(set_role(role.as_str(), ""));
                reset.push(role.clone());
                assert(strings_view(reset@) =~= s0.push(role@));
                proof {
                    reveal_strlit("");
                }
                assert(values_view(writes@) =~= w0.push((role@, REG_SZ, sz_bytes(Seq::empty()))));
            },
        }
        i = i + 1;
    }
    let ghost w1 = values_view(writes@);
    writes.push(set_scheme_name(pack_name));
    writes.push(set_scheme_source(SCHEME_SOURCE_USER));
    assert(values_view(writes@) =~= w1 + seq![(Seq::<char>::empty(), REG_SZ, sz_bytes(pack_name@)), ("Scheme Source"@, REG_DWORD, crate::bytes::le32(SCHEME_SOURCE_USER))]);
    let new_state = State {
        active_pack: Some(pack_name.to_owned()),
        active_pack_dir: Some(pack_dir.to_owned()),
        last_pack: Some(pack_name.to_owned()),
        last_pack_dir: Some(pack_dir.to_owned()),
        restore_on_exit: state.restore_on_exit,
        start_with_windows: state.start_with_windows,
    };
    ApplyPlan {
        applied: Applied {
            pack_name: pack_name.to_owned(),
            install_dir: install_dir.to_owned(),
            roles,
            reset_to_default: reset,
            warnings,
        },
        writes,
        state: new_state,
    }
}

/// Put the Windows defaults back because the user asked for them: nothing is
/// applied, and the remembered pack is forgotten too, so the next launch does
/// not quietly put it back.
pub fn restore_defaults(state: &State) -> (r: State)
    ensures
        r.active_pack is None,
        r.active_pack_dir is None,
        r.last_pack is None,
        r.last_pack_dir is None,
        r.restore_on_exit == state.restore_on_exit,
        r.start_with_windows == state.start_with_windows,
{
    State {
        active_pack: None,
        active_pack_dir: None,
        last_pack: None,
        last_pack_dir: None,
        restore_on_exit: state.restore_on_exit,
        start_with_windows: state.start_with_windows,
    }
}

/// An optional string, taken as its characters.
pub open spec fn opt_view(o: Option<String>) -> Option<Seq<char>> {
    match o {
        Some(s) => Some(s@),
        None => None,
    }
}

/// A copy of an optional string.
fn copy_opt(o: &Option<String>) -> (r: Option<String>)
    ensures
        opt_view(r) == opt_view(*o),
{
    match o {
        Some(s) => Some(s.clone()),
        None => None,
    }
}

/// Put the Windows defaults back on the way out, keeping the user's choice:
/// nothing is applied, but the remembered pack stays.
pub fn restore_defaults_for_exit(state: &State) -> (r: State)
    ensures
        r.active_pack is None,
        r.active_pack_dir is None,
        opt_view(r.last_pack) == opt_view(state.last_pack),
        opt_view(r.last_pack_dir) == opt_view(state.last_pack_dir),
        r.restore_on_exit == state.restore_on_exit,
        r.start_with_windows == state.start_with_windows,
{
    State {
        active_pack: None,
        active_pack_dir: None,
        last_pack: copy_opt(&state.last_pack),
        last_pack_dir: copy_opt(&state.last_pack_dir),
        restore_on_exit: state.restore_on_exit,
        start_with_windows: state.start_with_windows,
    }
}

/// The folder of the remembered pack to apply again at startup: only when
/// nothing is applied right now, a pack is remembered, and its `pack.json` is
/// still there (`pack_file_exists`).
pub fn reapply_last_pack(state: &State, pack_file_exists: bool) -> (r: Option<String>)
    ensures
        opt_view(r) == if state.active_pack is None && pack_file_exists {
            opt_view(state.last_pack_dir)
        } else {
            None
        },
{
    if state.active_pack.is_some() {
        return None;
    }
    match &state.last_pack_dir {
        None => None,
        Some(d) => {
            if pack_file_exists {
                Some(d.clone())
            } else {
                None
            }
        },
    }
}

/// A path separator of either kind.
pub open spec fn is_sep(c: char) -> bool {
    c == '\\' || c == '/'
}

/// The first index from `i` on that is not a separator, or the length.
pub open spec fn skip_seps(s: Seq<char>, i: int) -> int
    decreases s.len() - i,
{
    if 0 <= i < s.len() && is_sep(s[i]) {
        skip_seps(s, i + 1)
    } else {
        i
    }
}

/// The first index from `i` on that is a separator, or the length.
pub open spec fn piece_end(s: Seq<char>, i: int) -> int
    decreases s.len() - i,
{
    if 0 <= i < s.len() && !is_sep(s[i]) {
        piece_end(s, i + 1)
    } else {
        i
    }
}

proof fn lemma_skip_seps_bounds(s: Seq<char>, i: int)
    requires
        0 <= i <= s.len(),
    ensures
        i <= skip_seps(s, i) <= s.len(),
    decreases s.len() - i,
{
    if i < s.len() && is_sep(s[i]) {
        lemma_skip_seps_bounds(s, i + 1);
    }
}

proof fn lemma_piece_end_bounds(s: Seq<char>, i: int)
    requires
        0 <= i <= s.len(),
    ensures
        i <= piece_end(s, i) <= s.len(),
    decreases s.len() - i,
{
    if i < s.len() && !is_sep(s[i]) {
        lemma_piece_end_bounds(s, i + 1);
    }
}

/// The names between separators in `s`, from index `i` on.
pub open spec fn components_from(s: Seq<char>, i: int) -> Seq<Seq<char>>
    decreases s.len() - i,
{
    let a = skip_seps(s, i);
    if i < 0 || a >= s.len() || a < i {
        Seq::empty()
    } else {
        let b = piece_end(s, a);
        if a < b <= s.len() {
            seq![s.subrange(a, b)] + components_from(s, b)
        } else {
            Seq::empty()
        }
    }
}

/// The components of a path: the names between its separators.
pub open spec fn components(s: Seq<char>) -> Seq<Seq<char>> {
    components_from(s, 0)
}

/// The components of a path (see `components`).
fn path_components(s: &[char]) -> (r: Vec<Vec<char>>)
    ensures
        crate::import::names_view(r@) == components(s@),
{
    let n = s.len();
    let mut out: Vec<Vec<char>> = Vec::new();
    let mut i: usize = 0;
    assert(crate::import::names_view(out@) + components_from(s@, 0) =~= components(s@));
    while i < n
        invariant
            0 <= i <= n,
            n == s@.len(),
            crate::import::names_view(out@) + components_from(s@, i as int) == components(s@),
        decreases n - i,
    {
        let ghost start = i as int;
        proof {
            lemma_skip_seps_bounds(s@, i as int);
        }
        let mut a = i;
        while a < n && (s[a] == '\\' || s[a] == '/')
            invariant
                i <= a <= n,
                n == s@.len(),
                skip_seps(s@, i as int) == skip_seps(s@, a as int),
            decreases n - a,
        {
            a = a + 1;
        }
        if a == n {
            assert(components_from(s@, start) =~= Seq::<Seq<char>>::empty());
            assert(crate::import::names_view(out@) + components_from(s@, start) =~= crate::import::names_view(out@));
            i = n;
            assert(components_from(s@, n as int) =~= Seq::<Seq<char>>::empty());
        } else {
            proof {
                lemma_piece_end_bounds(s@, a as int);
            }
            let mut b = a;
            while b < n && !(s[b] == '\\' || s[b] == '/')
                invariant
                    a <= b <= n,
                    n == s@.len(),
                    piece_end(s@, a as int) == piece_end(s@, b as int),
                decreases n - b,
            {
                b = b + 1;
            }
            let piece = crate::text::slice_chars(s, a, b);
            let ghost before = crate::import::names_view(out@);
            out.push(piece);
            assert(crate::import::names_view(out@) =~= before.push(piece@));
            assert(components_from(s@, start) == seq![piece@] + components_from(s@, b as int));
            assert(before + components_from(s@, start) =~= crate::import::names_view(out@)
                + components_from(s@, b as int));
            i = b;
        }
    }
    assert(components_from(s@, n as int) =~= Seq::<Seq<char>>::empty());
    assert(crate::import::names_view(out@) + components_from(s@, n as int) =~= crate::import::names_view(out@));
    out
}

/// `path` lies under `base`: the components of `base` begin those of `path`.
pub open spec fn starts_with(path: Seq<char>, base: Seq<char>) -> bool {
    components(base).len() <= components(path).len() && components(path).subrange(
        0,
        components(base).len() as int,
    ) == components(base)
}

/// Whether `path` lies under `base` (see `starts_with`).
fn path_starts_with(path: &str, base: &str) -> (r: bool)
    ensures
        r == starts_with(path@, base@),
{
    let p = path_components(chars_of(path).as_slice());
    let b = path_components(chars_of(base).as_slice());
    let ghost pv = crate::import::names_view(p@);
    let ghost bv = crate::import::names_view(b@);
    assert(pv.len() == p@.len() && bv.len() == b@.len());
    if b.len() > p.len() {
        return false;
    }
    let mut i: usize = 0;
    while i < b.len()
        invariant
            0 <= i <= b@.len(),
            b@.len() <= p@.len(),
            pv == crate::import::names_view(p@),
            bv == crate::import::names_view(b@),
            pv == components(path@),
            bv == components(base@),
            forall|k: int| 0 <= k < i ==> pv[k] == bv[k],
        decreases b@.len() - i,
    {
        assert(pv[i as int] == p@[i as int]@ && bv[i as int] == b@[i as int]@);
        if !crate::text::chars_eq(p[i].as_slice(), b[i].as_slice()) {
            assert(pv.subrange(0, bv.len() as int)[i as int] != bv[i as int]);
            return false;
        }
        i = i + 1;
    }
    assert(pv.subrange(0, bv.len() as int) =~= bv);
    true
}

/// Some role points into `dir`: a non-empty value lying under it.
pub open spec fn any_under(values: Seq<Seq<char>>, dir: Seq<char>) -> bool {
    exists|i: int| 0 <= i < values.len() && values[i].len() > 0 && starts_with(values[i], dir)
}

/// Check the recorded active pack against what the roles point at
/// (`role_values`, the values of the roles present), and forget it when no
/// role points into its install folder `expected_dir`. The two drift when the
/// cursors are changed in Windows Settings, by the offline script, or by
/// another tool.
pub fn reconcile_state(state: &State, role_values: &[String], expected_dir: &str) -> (r: State)
    ensures
        state.active_pack is Some && !any_under(strings_view(role_values@), expected_dir@) ==> r.active_pack is None
            && r.active_pack_dir is None,
        !(state.active_pack is Some && !any_under(strings_view(role_values@), expected_dir@)) ==> opt_view(r.active_pack)
            == opt_view(state.active_pack) && opt_view(r.active_pack_dir) == opt_view(state.active_pack_dir),
        opt_view(r.last_pack) == opt_view(state.last_pack),
        opt_view(r.last_pack_dir) == opt_view(state.last_pack_dir),
        r.restore_on_exit == state.restore_on_exit,
        r.start_with_windows == state.start_with_windows,
{
    let ghost vs = strings_view(role_values@);
    let mut still = false;
    if state.active_pack.is_some() {
        let mut i: usize = 0;
        while i < role_values.len()
            invariant
                0 <= i <= role_values@.len(),
                vs == strings_view(role_values@),
                still == exists|k: int| 0 <= k < i && vs[k].len() > 0 && starts_with(vs[k], expected_dir@),
            decreases role_values@.len() - i,
        {
            let v = &role_values[i];
            assert(vs[i as int] == v@);
            if chars_of(v.as_str()).len() > 0 && path_starts_with(v.as_str(), expected_dir) {
                still = true;
            }
            i = i + 1;
        }
    }
    if state.active_pack.is_some() && !still {
        State {
            active_pack: None,
            active_pack_dir: None,
            last_pack: copy_opt(&state.last_pack),
            last_pack_dir: copy_opt(&state.last_pack_dir),
            restore_on_exit: state.restore_on_exit,
            start_with_windows: state.start_with_windows,
        }
    } else {
        State {
            active_pack: copy_opt(&state.active_pack),
            active_pack_dir: copy_opt(&state.active_pack_dir),
            last_pack: copy_opt(&state.last_pack),
            last_pack_dir: copy_opt(&state.last_pack_dir),
            restore_on_exit: state.restore_on_exit,
            start_with_windows: state.start_with_windows,
        }
    }
}

/// Whether deleting the pack in `pack_dir` must first restore the Windows
/// defaults: when it is the one applied, since deleting its files would leave
/// the registry pointing at nothing. Paths compare by their components.
#[verifier::loop_isolation(false)]
pub fn delete_pack(state: &State, pack_dir: &str) -> (r: bool)
    ensures
        r == (state.active_pack_dir matches Some(d) && components(d@) == components(pack_dir@)),
{
    match &state.active_pack_dir {
        None => false,
        Some(d) => {
            let a = path_components(chars_of(d.as_str()).as_slice());
            let b = path_components(chars_of(pack_dir).as_slice());
            let ghost av = crate::import::names_view(a@);
            let ghost bv = crate::import::names_view(b@);
            assert(av.len() == a@.len() && bv.len() == b@.len());
            if a.len() != b.len() {
                return false;
            }
            let mut i: usize = 0;
            while i < a.len()
                invariant
                    0 <= i <= a@.len(),
                    a@.len() == b@.len(),
                    av == crate::import::names_view(a@),
                    bv == crate::import::names_view(b@),
                    av == components(d@),
                    bv == components(pack_dir@),
                    forall|k: int| 0 <= k < i ==> av[k] == bv[k],
                decreases a@.len() - i,
            {
                assert(av[i as int] == a@[i as int]@ && bv[i as int] == b@[i as int]@);
                if !crate::text::chars_eq(a[i].as_slice(), b[i].as_slice()) {
                    assert(av[i as int] != bv[i as int]);
                    return false;
                }
                i = i + 1;
            }
            assert(av =~= bv);
            true
        },
    }
}

/// Whether the pack folder `pack_dir` lies inside the packs folder `root`,
/// comparing the components of both (as the system resolved them). Only a
/// pack inside it may be deleted: a manifest found anywhere else must never
/// cause that folder to be removed.
pub fn inside_packs_folder(pack_dir: &str, root: &str) -> (r: bool)
    ensures
        r == starts_with(pack_dir@, root@),
{
    path_starts_with(pack_dir, root)
}

/// What quitting the application does.
#[derive(Debug, Clone, Copy, PartialEq, Eq, Structural)]
pub enum QuitStep {
    /// Ask first: a pack is applied, and restoring on exit is off.
    Ask,
    /// Quit, restoring the Windows cursors on the way out when `restore`.
    Quit { restore: bool },
}

/// What quitting does in `state` (see `quit_step`).
pub open spec fn spec_quit_step(state: State) -> QuitStep {
    if state.active_pack is Some && !state.restore_on_exit {
        QuitStep::Ask
    } else {
        QuitStep::Quit { restore: state.restore_on_exit }
    }
}

/// What quitting does: with a pack applied and restoring on exit turned off,
/// ask first; otherwise quit, restoring the Windows cursors on the way out
/// when restoring on exit is on.
pub fn quit_step(state: &State) -> (r: QuitStep)
    ensures
        r == spec_quit_step(*state),
{
    if state.active_pack.is_some() && !state.restore_on_exit {
        QuitStep::Ask
    } else {
        QuitStep::Quit { restore: state.restore_on_exit }
    }
}

/// The application never exits leaving a pack applied without saying so:
/// whenever it would quit without restoring, no pack is applied.
pub proof fn lemma_quit_never_leaves_a_pack_silently(state: State)
    ensures
        spec_quit_step(state) == (QuitStep::Quit { restore: false }) ==> state.active_pack is None,
{
}

/// What the user picked in the tray.
#[derive(Debug, Clone)]
pub enum TrayCommand {
    Open,
    RestoreDefault,
    Quit,
    /// Apply the pack in this folder.
    ApplyPack(String),
}

} // verus!
