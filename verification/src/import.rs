//! Turning a folder of `.cur` / `.ani` files into a pack.
//!
//! Downloaded cursor sets ship their role mapping in one of three ways, tried
//! in descending order of reliability:
//!
//! 1. **A `.crs` scheme file**: INI sections named after the Windows roles
//!    exactly (`[Arrow]`, `[SizeNWSE]`, ...), each with a `Path=`.
//! 2. **`install.inf`**: a `[Strings]` section with standardised keys
//!    (`pointer`, `busy`, `link`, ...).
//! 3. **File names**: a last resort, and unreliable; real packs use names like
//!    `SilksongBackBusyCursor.ani` (which is *AppStarting*, not Wait). A scheme
//!    file always wins where one exists.
//!
//! Reading the folder and the scheme file happens in the application; this
//! module decides the mapping from the file names and the scheme text.
use crate::error::{Error, ErrorView};
use crate::keyed::{lookup, NameMap};
use crate::manifest::{
    default_sizes, find_role, pack_fault, role, role_named, spec_default_sizes, spec_is_system,
    spec_roles, Pack, RoleSpec, UpscaleMode, DEFAULT_FPS_BITS,
};
use crate::text::{
    decimal,
    lex_lt,
    chars_of, contains, eq_ignore_case, find_char, index_from, lower, occurs_in, slice_chars,
    spec_lines, str_eq, to_ascii_lowercase, trim, trim_ch, trim_matches, trim_start_ch,
    trim_start_matches, trim_ws, lines, chars_eq, eq_ignore_ascii_case,
};
use vstd::prelude::*;

verus! {

/// A name fragment or key, and the Windows role it stands for.
pub type Hint = (&'static str, &'static str);

/// The `[Strings]` keys Windows cursor scheme INFs use, and the role each means.
///
/// Two of these get mixed up constantly: `hand` is the *handwriting pen*, and
/// `link` is the pointing hand. `unavailiable` is the spelling Microsoft ships,
/// used verbatim in real INFs.
pub open spec fn spec_inf_keys() -> Seq<Hint> {
    seq![
        ("pointer", "Arrow"),
        ("help", "Help"),
        ("work", "AppStarting"),
        ("busy", "Wait"),
        ("cross", "Crosshair"),
        ("text", "IBeam"),
        ("hand", "NWPen"),
        ("unavailiable", "No"),
        ("unavailable", "No"),
        ("vert", "SizeNS"),
        ("horz", "SizeWE"),
        ("dgn1", "SizeNWSE"),
        ("dgn2", "SizeNESW"),
        ("move", "SizeAll"),
        ("alternate", "UpArrow"),
        ("link", "Hand"),
        ("person", "Person"),
        ("pin", "Pin")
    ]
}

/// The `[Strings]` keys (see `spec_inf_keys`).
pub fn inf_keys() -> (r: Vec<Hint>)
    ensures
        r@ == spec_inf_keys(),
{
    let r = vec![
        ("pointer", "Arrow"),
        ("help", "Help"),
        ("work", "AppStarting"),
        ("busy", "Wait"),
        ("cross", "Crosshair"),
        ("text", "IBeam"),
        ("hand", "NWPen"),
        ("unavailiable", "No"),
        ("unavailable", "No"),
        ("vert", "SizeNS"),
        ("horz", "SizeWE"),
        ("dgn1", "SizeNWSE"),
        ("dgn2", "SizeNESW"),
        ("move", "SizeAll"),
        ("alternate", "UpArrow"),
        ("link", "Hand"),
        ("person", "Person"),
        ("pin", "Pin")
    ];
    assert(r@ =~= spec_inf_keys());
    r
}

/// File name fragments that suggest a role; the first that occurs wins.
///
/// Ordered so that specific patterns beat generic ones; `no` would otherwise
/// swallow `normal`. Misspellings seen in the wild are listed on purpose.
pub open spec fn spec_name_hints() -> Seq<Hint> {
    seq![
        ("appstarting", "AppStarting"),
        ("app_starting", "AppStarting"),
        ("working", "AppStarting"),
        ("progress", "AppStarting"),
        ("startup", "AppStarting"),
        ("unavailiable", "No"),
        ("unavailable", "No"),
        ("unavalible", "No"),
        ("unavailible", "No"),
        ("forbidden", "No"),
        ("nodrop", "No"),
        ("no_drop", "No"),
        ("notallowed", "No"),
        ("crosshair", "Crosshair"),
        ("precision", "Crosshair"),
        ("cross", "Crosshair"),
        ("handwriting", "NWPen"),
        ("writing", "NWPen"),
        ("nwpen", "NWPen"),
        ("pencil", "NWPen"),
        ("pen", "NWPen"),
        ("alternate", "UpArrow"),
        ("altcursor", "UpArrow"),
        ("uparrow", "UpArrow"),
        ("up_arrow", "UpArrow"),
        ("diagonal1", "SizeNWSE"),
        ("nwse", "SizeNWSE"),
        ("fdiag", "SizeNWSE"),
        ("diag1", "SizeNWSE"),
        ("dgn1", "SizeNWSE"),
        ("diagonal2", "SizeNESW"),
        ("nesw", "SizeNESW"),
        ("bdiag", "SizeNESW"),
        ("diag2", "SizeNESW"),
        ("dgn2", "SizeNESW"),
        ("vertical", "SizeNS"),
        ("size_ns", "SizeNS"),
        ("vert", "SizeNS"),
        ("horizontal", "SizeWE"),
        ("size_we", "SizeWE"),
        ("size_ew", "SizeWE"),
        ("horz", "SizeWE"),
        ("sizeall", "SizeAll"),
        ("size_all", "SizeAll"),
        ("fleur", "SizeAll"),
        ("move", "SizeAll"),
        ("ibeam", "IBeam"),
        ("beam", "IBeam"),
        ("text", "IBeam"),
        ("link", "Hand"),
        ("hand", "Hand"),
        ("person", "Person"),
        ("pin", "Pin"),
        ("busy", "Wait"),
        ("wait", "Wait"),
        ("loading", "Wait"),
        ("help", "Help"),
        ("normal", "Arrow"),
        ("pointer", "Arrow"),
        ("default", "Arrow"),
        ("standard", "Arrow"),
        ("arrow", "Arrow")
    ]
}

/// The file name fragments (see `spec_name_hints`).
pub fn name_hints() -> (r: Vec<Hint>)
    ensures
        r@ == spec_name_hints(),
{
    let r = vec![
        ("appstarting", "AppStarting"),
        ("app_starting", "AppStarting"),
        ("working", "AppStarting"),
        ("progress", "AppStarting"),
        ("startup", "AppStarting"),
        ("unavailiable", "No"),
        ("unavailable", "No"),
        ("unavalible", "No"),
        ("unavailible", "No"),
        ("forbidden", "No"),
        ("nodrop", "No"),
        ("no_drop", "No"),
        ("notallowed", "No"),
        ("crosshair", "Crosshair"),
        ("precision", "Crosshair"),
        ("cross", "Crosshair"),
        ("handwriting", "NWPen"),
        ("writing", "NWPen"),
        ("nwpen", "NWPen"),
        ("pencil", "NWPen"),
        ("pen", "NWPen"),
        ("alternate", "UpArrow"),
        ("altcursor", "UpArrow"),
        ("uparrow", "UpArrow"),
        ("up_arrow", "UpArrow"),
        ("diagonal1", "SizeNWSE"),
        ("nwse", "SizeNWSE"),
        ("fdiag", "SizeNWSE"),
        ("diag1", "SizeNWSE"),
        ("dgn1", "SizeNWSE"),
        ("diagonal2", "SizeNESW"),
        ("nesw", "SizeNESW"),
        ("bdiag", "SizeNESW"),
        ("diag2", "SizeNESW"),
        ("dgn2", "SizeNESW"),
        ("vertical", "SizeNS"),
        ("size_ns", "SizeNS"),
        ("vert", "SizeNS"),
        ("horizontal", "SizeWE"),
        ("size_we", "SizeWE"),
        ("size_ew", "SizeWE"),
        ("horz", "SizeWE"),
        ("sizeall", "SizeAll"),
        ("size_all", "SizeAll"),
        ("fleur", "SizeAll"),
        ("move", "SizeAll"),
        ("ibeam", "IBeam"),
        ("beam", "IBeam"),
        ("text", "IBeam"),
        ("link", "Hand"),
        ("hand", "Hand"),
        ("person", "Person"),
        ("pin", "Pin"),
        ("busy", "Wait"),
        ("wait", "Wait"),
        ("loading", "Wait"),
        ("help", "Help"),
        ("normal", "Arrow"),
        ("pointer", "Arrow"),
        ("default", "Arrow"),
        ("standard", "Arrow"),
        ("arrow", "Arrow")
    ];
    assert(r@ =~= spec_name_hints());
    r
}

/// Where a mapping came from, in descending order of trustworthiness.
#[derive(Debug, Clone, Copy, PartialEq, Eq, Structural)]
pub enum MapSource {
    /// A `.crs` scheme file naming roles explicitly.
    SchemeFile,
    /// The `[Strings]` section of an `install.inf`.
    Inf,
    /// Guessed from the file name.
    FileName,
    /// Nothing identified the files, so they were assigned in order. A guess,
    /// and flagged as one.
    Position,
}

impl MapSource {
    /// How the source is named to the user.
    pub fn label(self) -> (r: &'static str)
        ensures
            r@ == match self {
                MapSource::SchemeFile => "the .crs scheme file"@,
                MapSource::Inf => "install.inf"@,
                MapSource::FileName => "file names"@,
                MapSource::Position => "file order (a guess)"@,
            },
    {
        match self {
            MapSource::SchemeFile => "the .crs scheme file",
            MapSource::Inf => "install.inf",
            MapSource::FileName => "file names",
            MapSource::Position => "file order (a guess)",
        }
    }

    /// True when the mapping is reliable enough not to need checking.
    pub fn is_reliable(self) -> (r: bool)
        ensures
            r == (self == MapSource::SchemeFile || self == MapSource::Inf),
    {
        match self {
            MapSource::SchemeFile | MapSource::Inf => true,
            _ => false,
        }
    }
}

/// Index of the name hint, among the first `n`, with the longest fragment
/// that occurs in `stem`; the earliest of equally long ones.
pub open spec fn best_hint(stem: Seq<char>, n: int) -> Option<int>
    decreases n,
{
    if n <= 0 {
        None
    } else if occurs_in(stem, spec_name_hints()[n - 1].0@) && (best_hint(stem, n - 1) is None
        || spec_name_hints()[n - 1].0@.len() > spec_name_hints()[best_hint(stem, n - 1)->0].0@.len()) {
        Some(n - 1)
    } else {
        best_hint(stem, n - 1)
    }
}

/// Of the first `n` name hints, the one chosen for `stem` has a fragment that
/// occurs in it, and every other hint whose fragment occurs is no longer, and
/// comes later when it is as long; none is chosen exactly when no fragment
/// occurs.
pub proof fn lemma_longest_hint_wins(stem: Seq<char>, n: int)
    requires
        0 <= n <= spec_name_hints().len(),
    ensures
        best_hint(stem, n) matches Some(b) ==> 0 <= b < n && occurs_in(stem, spec_name_hints()[b].0@) && forall|j: int|
            0 <= j < n && #[trigger] occurs_in(stem, spec_name_hints()[j].0@) ==> spec_name_hints()[j].0@.len()
                <= spec_name_hints()[b].0@.len() && (spec_name_hints()[j].0@.len() == spec_name_hints()[b].0@.len()
                ==> b <= j),
        best_hint(stem, n) is None <==> forall|j: int| 0 <= j < n ==> !#[trigger] occurs_in(stem, spec_name_hints()[j].0@),
    decreases n,
{
    if n > 0 {
        lemma_longest_hint_wins(stem, n - 1);
    }
}

/// The role a file stem suggests: that of the hint with the longest fragment
/// occurring in the stem, ignoring ASCII case; of equally long ones, the
/// first in the table.
pub open spec fn spec_role_from_name(stem: Seq<char>) -> Option<&'static str> {
    match best_hint(lower(stem), spec_name_hints().len() as int) {
        Some(i) => Some(spec_name_hints()[i].1),
        None => None,
    }
}

/// Guess a role from a file name: the longest matching fragment wins.
pub fn role_from_name(file_stem: &str) -> (r: Option<&'static str>)
    ensures
        r == spec_role_from_name(file_stem@),
{
    let stem = to_ascii_lowercase(chars_of(file_stem).as_slice());
    let hints = name_hints();
    let mut best: Option<usize> = None;
    let mut best_len: usize = 0;
    let mut i: usize = 0;
    while i < hints.len()
        invariant
            0 <= i <= hints@.len(),
            hints@ == spec_name_hints(),
            stem@ == lower(file_stem@),
            match best {
                Some(b) => best_hint(stem@, i as int) == Some(b as int) && b < i && best_len
                    == spec_name_hints()[b as int].0@.len(),
                None => best_hint(stem@, i as int) is None,
            },
        decreases hints@.len() - i,
    {
        let frag = chars_of(hints[i].0);
        if contains(stem.as_slice(), frag.as_slice()) && (best.is_none() || frag.len() > best_len) {
            best = Some(i);
            best_len = frag.len();
        }
        i = i + 1;
    }
    match best {
        Some(b) => Some(hints[b].1),
        None => None,
    }
}

/// The role an INF `[Strings]` key (already lowercase) stands for.
pub open spec fn inf_role_from(key: Seq<char>, i: int) -> Option<Seq<char>>
    decreases spec_inf_keys().len() - i,
{
    if i < 0 || i >= spec_inf_keys().len() {
        None
    } else if spec_inf_keys()[i].0@ == key {
        Some(spec_inf_keys()[i].1@)
    } else {
        inf_role_from(key, i + 1)
    }
}

/// The role an INF `[Strings]` key stands for.
fn inf_role(key: &[char]) -> (r: Option<&'static str>)
    ensures
        r matches Some(x) ==> inf_role_from(key@, 0) == Some(x@),
        r is None ==> inf_role_from(key@, 0) is None,
{
    let keys = inf_keys();
    let mut i: usize = 0;
    while i < keys.len()
        invariant
            0 <= i <= keys@.len(),
            keys@ == spec_inf_keys(),
            inf_role_from(key@, 0) == inf_role_from(key@, i as int),
        decreases keys@.len() - i,
    {
        let k = chars_of(keys[i].0);
        if chars_eq(k.as_slice(), key) {
            return Some(keys[i].1);
        }
        i = i + 1;
    }
    None
}

/// Name and value of an `name = value` line, each trimmed, the value also
/// without surrounding quotes; `None` without an `=`.
pub open spec fn key_value(line: Seq<char>) -> Option<(Seq<char>, Seq<char>)> {
    match index_from(line, '=', 0) {
        None => None,
        Some(e) => Some(
            (
                trim_ws(line.subrange(0, e)),
                trim_ws(trim_ch(trim_ws(line.subrange(e + 1, line.len() as int)), '"')),
            ),
        ),
    }
}

/// Splits an `name = value` line (see `key_value`).
fn split_key_value(line: &[char]) -> (r: Option<(Vec<char>, Vec<char>)>)
    ensures
        r is None <==> key_value(line@) is None,
        r matches Some(kv) ==> key_value(line@) == Some((kv.0@, kv.1@)),
{
    proof {
        crate::text::lemma_index_from_bounds(line@, '=', 0);
    }
    let n = line.len();
    match find_char(line, '=', 0) {
        None => None,
        Some(e) => {
            let key = trim(slice_chars(line, 0, e).as_slice());
            let value = trim(slice_chars(line, e + 1, n).as_slice());
            let value = trim(trim_matches(value.as_slice(), '"').as_slice());
            Some((key, value))
        },
    }
}

/// One line of an `install.inf`, given whether the `[Strings]` section is
/// open and the mapping so far. A section header opens or closes
/// `[Strings]`; inside it, a known key with a non-empty value maps its role,
/// unless an earlier line already did.
pub open spec fn inf_step(st: (bool, Map<Seq<char>, Seq<char>>), raw: Seq<char>) -> (
    bool,
    Map<Seq<char>, Seq<char>>,
) {
    let line = trim_ws(raw);
    if line.len() > 0 && line[0] == '[' {
        (eq_ignore_case(line, "[Strings]"@), st.1)
    } else if !st.0 || line.len() == 0 || line[0] == ';' {
        st
    } else {
        match key_value(line) {
            None => st,
            Some(kv) => if kv.1.len() == 0 {
                st
            } else {
                match inf_role_from(lower(kv.0), 0) {
                    None => st,
                    Some(r) => if st.1.contains_key(r) {
                        st
                    } else {
                        (st.0, st.1.insert(r, kv.1))
                    },
                }
            },
        }
    }
}

/// Runs `step` over `lines` from the first on.
pub open spec fn inf_fold(lines: Seq<Seq<char>>, st: (bool, Map<Seq<char>, Seq<char>>)) -> (
    bool,
    Map<Seq<char>, Seq<char>>,
)
    decreases lines.len(),
{
    if lines.len() == 0 {
        st
    } else {
        inf_fold(lines.drop_first(), inf_step(st, lines[0]))
    }
}

/// The role-to-file mapping the `[Strings]` section of an `install.inf` gives.
pub open spec fn spec_parse_inf(text: Seq<char>) -> Map<Seq<char>, Seq<char>> {
    inf_fold(spec_lines(text), (false, Map::empty())).1
}

/// A map of strings, taken as a map of character sequences.
pub open spec fn text_map(s: Seq<(Seq<char>, String)>) -> Map<Seq<char>, Seq<char>> {
    Map::new(|k: Seq<char>| lookup(s, k) is Some, |k: Seq<char>| lookup(s, k)->0@)
}

/// Sets `name` to `value` unless `name` is present already.
fn insert_new(m: &mut NameMap<String>, name: &str, value: &[char])
    ensures
        text_map(final(m)@) == if text_map(old(m)@).contains_key(name@) {
            text_map(old(m)@)
        } else {
            text_map(old(m)@).insert(name@, value@)
        },
{
    if !m.contains_key(name) {
        let v = crate::text::string_of(value);
        m.insert(name.to_owned(), v);
        assert(text_map(m@) =~= text_map(old(m)@).insert(name@, value@));
    }
}

/// Parse the `[Strings]` section of an `install.inf` into role -> file name.
pub fn parse_inf(text: &str) -> (r: NameMap<String>)
    ensures
        text_map(r@) == spec_parse_inf(text@),
{
    let ls = lines(text);
    let ghost all = spec_lines(text@);
    let strings = chars_of("[Strings]");
    let mut out: NameMap<String> = NameMap::new();
    let mut in_strings = false;
    let mut i: usize = 0;
    assert(all.skip(0) =~= all);
    assert(text_map(out@) =~= Map::<Seq<char>, Seq<char>>::empty());
    while i < ls.len()
        invariant
            0 <= i <= ls@.len(),
            ls@.len() == all.len(),
            all == spec_lines(text@),
            strings@ == "[Strings]"@,
            forall|k: int| 0 <= k < ls@.len() ==> (#[trigger] ls@[k])@ == all[k],
            spec_parse_inf(text@) == inf_fold(all.skip(i as int), (in_strings, text_map(out@))).1,
        decreases ls@.len() - i,
    {
        let ghost st = (in_strings, text_map(out@));
        let ghost raw = all[i as int];
        assert(all.skip(i as int)[0] == raw);
        assert(all.skip(i as int).drop_first() =~= all.skip(i + 1));
        let line = trim(ls[i].as_slice());
        if line.len() > 0 && line[0] == '[' {
            in_strings = eq_ignore_ascii_case(line.as_slice(), strings.as_slice());
        } else if !in_strings || line.len() == 0 || line[0] == ';' {
        } else {
            match split_key_value(line.as_slice()) {
                None => {},
                Some((key, value)) => {
                    if value.len() > 0 {
                        let key = to_ascii_lowercase(key.as_slice());
                        match inf_role(key.as_slice()) {
                            None => {},
                            Some(r) => {
                                insert_new(&mut out, r, value.as_slice());
                            },
                        }
                    }
                },
            }
        }
        assert((in_strings, text_map(out@)) == inf_step(st, raw));
        i = i + 1;
    }
    assert(all.skip(i as int).len() == 0);
    out
}

/// The name inside a `[name]` section header.
pub open spec fn section_name(line: Seq<char>) -> Option<Seq<char>> {
    if line.len() >= 2 && line[0] == '[' && line[line.len() - 1] == ']' {
        Some(line.subrange(1, line.len() - 1))
    } else {
        None
    }
}

/// The Windows role a `.crs` section names, matched ignoring ASCII case after
/// trimming; anything else names no role.
pub open spec fn crs_role(name: Seq<char>) -> Option<Seq<char>> {
    match find_role(trim_ws(name)) {
        Some(i) => Some(spec_roles()[i].win@),
        None => None,
    }
}

/// A path separator of either kind.
pub open spec fn is_sep(c: char) -> bool {
    c == '\\' || c == '/'
}

/// The last index below `j` holding a path separator, or -1.
pub open spec fn last_sep(s: Seq<char>, j: int) -> int
    decreases j,
{
    if j <= 0 || j > s.len() {
        -1
    } else if is_sep(s[j - 1]) {
        j - 1
    } else {
        last_sep(s, j - 1)
    }
}

proof fn lemma_last_sep_bounds(s: Seq<char>, j: int)
    requires
        0 <= j <= s.len(),
    ensures
        -1 <= last_sep(s, j) < j,
    decreases j,
{
    if j > 0 && !is_sep(s[j - 1]) {
        lemma_last_sep_bounds(s, j - 1);
    }
}

/// The file name at the end of a path: what follows the last `\` or `/`.
pub open spec fn file_part(s: Seq<char>) -> Seq<char> {
    s.subrange(last_sep(s, s.len() as int) + 1, s.len() as int)
}

/// The file name at the end of a path.
fn file_name_of(s: &[char]) -> (r: Vec<char>)
    ensures
        r@ == file_part(s@),
{
    let n = s.len();
    let mut j: usize = n;
    while j > 0 && !(s[j - 1] == '\\' || s[j - 1] == '/')
        invariant
            0 <= j <= n,
            n == s@.len(),
            last_sep(s@, n as int) == last_sep(s@, j as int),
        decreases j,
    {
        j = j - 1;
    }
    slice_chars(s, j, n)
}

/// The Windows role's name as text, where there is one.
pub open spec fn win_view(o: Option<&'static str>) -> Option<Seq<char>> {
    match o {
        Some(w) => Some(w@),
        None => None,
    }
}

/// One line of a `.crs` scheme file, given the role of the current section
/// and the mapping so far. A section header selects its role (or none); a
/// non-empty `Path=` inside a role's section maps the role to the file name
/// the path ends in, unless an earlier line already did.
pub open spec fn crs_step(st: (Option<Seq<char>>, Map<Seq<char>, Seq<char>>), raw: Seq<char>) -> (
    Option<Seq<char>>,
    Map<Seq<char>, Seq<char>>,
) {
    let line = trim_ws(trim_start_ch(raw, '\u{feff}'));
    if line.len() == 0 || line[0] == ';' {
        st
    } else if section_name(line) is Some {
        (crs_role(section_name(line)->0), st.1)
    } else {
        match key_value(line) {
            None => st,
            Some(kv) => if !eq_ignore_case(kv.0, "path"@) || kv.1.len() == 0 {
                st
            } else {
                match st.0 {
                    None => st,
                    Some(r) => if st.1.contains_key(r) {
                        st
                    } else {
                        (st.0, st.1.insert(r, file_part(kv.1)))
                    },
                }
            },
        }
    }
}

/// Runs `crs_step` over `lines` from the first on.
pub open spec fn crs_fold(lines: Seq<Seq<char>>, st: (Option<Seq<char>>, Map<Seq<char>, Seq<char>>)) -> (
    Option<Seq<char>>,
    Map<Seq<char>, Seq<char>>,
)
    decreases lines.len(),
{
    if lines.len() == 0 {
        st
    } else {
        crs_fold(lines.drop_first(), crs_step(st, lines[0]))
    }
}

/// The role-to-file mapping a `.crs` scheme file gives.
pub open spec fn spec_parse_crs(text: Seq<char>) -> Map<Seq<char>, Seq<char>> {
    crs_fold(spec_lines(text), (None, Map::empty())).1
}

/// Parse a `.crs` scheme file: `[RoleName]` sections each carrying a `Path=`.
///
/// Section names are the Windows role names verbatim, so anything else is
/// ignored rather than guessed at. The files are UTF-8 with a BOM in practice.
pub fn parse_crs(text: &str) -> (r: NameMap<String>)
    ensures
        text_map(r@) == spec_parse_crs(text@),
{
    let ls = lines(text);
    let ghost all = spec_lines(text@);
    let path = chars_of("path");
    let mut out: NameMap<String> = NameMap::new();
    let mut current: Option<&'static str> = None;
    let mut i: usize = 0;
    assert(all.skip(0) =~= all);
    assert(text_map(out@) =~= Map::<Seq<char>, Seq<char>>::empty());
    while i < ls.len()
        invariant
            0 <= i <= ls@.len(),
            ls@.len() == all.len(),
            all == spec_lines(text@),
            path@ == "path"@,
            forall|k: int| 0 <= k < ls@.len() ==> (#[trigger] ls@[k])@ == all[k],
            spec_parse_crs(text@) == crs_fold(
                all.skip(i as int),
                (win_view(current), text_map(out@)),
            ).1,
        decreases ls@.len() - i,
    {
        let ghost st = (win_view(current), text_map(out@));
        let ghost raw = all[i as int];
        assert(all.skip(i as int)[0] == raw);
        assert(all.skip(i as int).drop_first() =~= all.skip(i + 1));
        let line = trim(trim_start_matches(ls[i].as_slice(), '\u{feff}').as_slice());
        let n = line.len();
        if n == 0 || line[0] == ';' {
        } else if n >= 2 && line[0] == '[' && line[n - 1] == ']' {
            let name = trim(slice_chars(line.as_slice(), 1, n - 1).as_slice());
            current = match role_named(name.as_slice()) {
                Some(r) => Some(r.win),
                None => None,
            };
        } else {
            match split_key_value(line.as_slice()) {
                None => {},
                Some((key, value)) => {
                    if eq_ignore_ascii_case(key.as_slice(), path.as_slice()) && value.len() > 0 {
                        match current {
                            None => {},
                            Some(r) => {
                                let file = file_name_of(value.as_slice());
                                insert_new(&mut out, r, file.as_slice());
                            },
                        }
                    }
                },
            }
        }
        assert((win_view(current), text_map(out@)) == crs_step(st, raw));
        i = i + 1;
    }
    assert(all.skip(i as int).len() == 0);
    out
}

/// An ASCII decimal digit.
pub open spec fn is_digit(c: char) -> bool {
    '0' <= c && c <= '9'
}

/// The end of the run from `i` of characters that are digits exactly when `d`.
pub open spec fn run_end(s: Seq<char>, d: bool, i: int) -> int
    decreases s.len() - i,
{
    if 0 <= i < s.len() && is_digit(s[i]) == d {
        run_end(s, d, i + 1)
    } else {
        i
    }
}

proof fn lemma_run_end_bounds(s: Seq<char>, d: bool, i: int)
    requires
        0 <= i <= s.len(),
    ensures
        i <= run_end(s, d, i) <= s.len(),
    decreases s.len() - i,
{
    if i < s.len() && is_digit(s[i]) == d {
        lemma_run_end_bounds(s, d, i + 1);
    }
}

/// The number a run of decimal digits spells.
pub open spec fn digits_value(s: Seq<char>) -> nat
    decreases s.len(),
{
    if s.len() == 0 {
        0
    } else {
        digits_value(s.drop_last()) * 10 + ((s.last() as u32) - ('0' as u32)) as nat
    }
}

/// The sort key of one run: a run of digits counts by its value (saturating
/// at `u64::MAX`) with empty text; any other run counts as 0 with its text in
/// ASCII lowercase.
pub open spec fn run_key(run: Seq<char>) -> (u64, Seq<char>) {
    if run.len() > 0 && is_digit(run[0]) {
        (
            if digits_value(run) <= u64::MAX {
                digits_value(run) as u64
            } else {
                u64::MAX
            },
            Seq::empty(),
        )
    } else {
        (0, lower(run))
    }
}

/// The sort keys of the maximal digit and non-digit runs of `s` from `i` on.
pub open spec fn natural_runs(s: Seq<char>, i: int) -> Seq<(u64, Seq<char>)>
    decreases s.len() - i,
{
    if i < 0 || i >= s.len() {
        Seq::empty()
    } else {
        let e = run_end(s, is_digit(s[i]), i);
        if i < e <= s.len() {
            seq![run_key(s.subrange(i, e))] + natural_runs(s, e)
        } else {
            Seq::empty()
        }
    }
}

/// A natural sort key taken as numbers and character sequences.
pub open spec fn key_view(k: Seq<(u64, String)>) -> Seq<(u64, Seq<char>)> {
    Seq::new(k.len(), |i: int| (k[i].0, k[i].1@))
}

/// Sort key that orders `Blue-2` before `Blue-10`.
///
/// Numbered sets rely on this: a plain lexicographic sort would interleave them
/// and silently shift every role by one.
pub fn natural_key(name: &str) -> (r: Vec<(u64, String)>)
    ensures
        key_view(r@) == natural_runs(name@, 0),
{
    let s = chars_of(name);
    let n = s.len();
    let mut out: Vec<(u64, String)> = Vec::new();
    let mut i: usize = 0;
    assert(key_view(out@) + natural_runs(s@, 0) =~= natural_runs(s@, 0));
    while i < n
        invariant
            0 <= i <= n,
            n == s@.len(),
            s@ == name@,
            key_view(out@) + natural_runs(s@, i as int) == natural_runs(s@, 0),
        decreases n - i,
    {
        let d = '0' <= s[i] && s[i] <= '9';
        let start = i;
        proof {
            lemma_run_end_bounds(s@, d, i as int);
        }
        if d {
            let mut v: u64 = 0;
            let mut over = false;
            assert(s@.subrange(start as int, start as int) =~= Seq::<char>::empty());
            while i < n && '0' <= s[i] && s[i] <= '9'
                invariant
                    start <= i <= n,
                    n == s@.len(),
                    run_end(s@, true, start as int) == run_end(s@, true, i as int),
                    over == (digits_value(s@.subrange(start as int, i as int)) > u64::MAX),
                    !over ==> v == digits_value(s@.subrange(start as int, i as int)),
                decreases n - i,
            {
                let digit = (s[i] as u32 - '0' as u32) as u64;
                let ghost before = s@.subrange(start as int, i as int);
                assert(s@.subrange(start as int, i + 1).drop_last() =~= before);
                if !over {
                    match v.checked_mul(10) {
                        Some(t) => match t.checked_add(digit) {
                            Some(u) => {
                                v = u;
                            },
                            None => {
                                over = true;
                            },
                        },
                        None => {
                            over = true;
                        },
                    }
                } else {
                    assert(digits_value(s@.subrange(start as int, i + 1)) >= digits_value(before))
                        by (nonlinear_arith)
                        requires
                            digits_value(s@.subrange(start as int, i + 1)) == digits_value(before)
                                * 10 + digit,
                    ;
                }
                i = i + 1;
            }
            let key = if over {
                u64::MAX
            } else {
                v
            };
            let ghost run = s@.subrange(start as int, i as int);
            assert(run.len() > 0 && run[0] == s@[start as int]);
            out.push((key, String::new()));
            proof {
                assert(natural_runs(s@, start as int) == seq![run_key(run)] + natural_runs(
                    s@,
                    i as int,
                ));
                assert(key_view(out@) =~= key_view(out@.drop_last()).push(run_key(run)));
            }
        } else {
            let mut t: Vec<char> = Vec::new();
            while i < n && !('0' <= s[i] && s[i] <= '9')
                invariant
                    start <= i <= n,
                    n == s@.len(),
                    run_end(s@, false, start as int) == run_end(s@, false, i as int),
                    t@ == lower(s@.subrange(start as int, i as int)),
                decreases n - i,
            {
                t.push(crate::text::lower_ascii(s[i]));
                i = i + 1;
                assert(t@ =~= lower(s@.subrange(start as int, i as int)));
            }
            let ghost run = s@.subrange(start as int, i as int);
            assert(run.len() > 0 && run[0] == s@[start as int]);
            out.push((0, crate::text::string_of(t.as_slice())));
            proof {
                assert(natural_runs(s@, start as int) == seq![run_key(run)] + natural_runs(
                    s@,
                    i as int,
                ));
                assert(key_view(out@) =~= key_view(out@.drop_last()).push(run_key(run)));
            }
        }
    }
    assert(natural_runs(s@, n as int) =~= Seq::<(u64, Seq<char>)>::empty());
    assert(key_view(out@) + natural_runs(s@, n as int) =~= key_view(out@));
    out
}

/// Natural sort keys compare run by run: by number, then by text, a key that
/// is a prefix of another first (the order of `Vec<(u64, String)>`).
pub open spec fn runs_lt(a: Seq<(u64, Seq<char>)>, b: Seq<(u64, Seq<char>)>) -> bool
    decreases a.len(),
{
    if b.len() == 0 {
        false
    } else if a.len() == 0 {
        true
    } else if a[0].0 != b[0].0 {
        a[0].0 < b[0].0
    } else if a[0].1 != b[0].1 {
        lex_lt(a[0].1, b[0].1)
    } else {
        runs_lt(a.drop_first(), b.drop_first())
    }
}

/// Whether natural key `a` sorts before `b` (see `runs_lt`).
fn runs_less(a: &[(u64, String)], b: &[(u64, String)]) -> (r: bool)
    ensures
        r == runs_lt(key_view(a@), key_view(b@)),
{
    let ghost ka = key_view(a@);
    let ghost kb = key_view(b@);
    let mut i: usize = 0;
    assert(ka.skip(0) =~= ka);
    assert(kb.skip(0) =~= kb);
    while i < a.len() && i < b.len()
        invariant
            0 <= i <= a@.len(),
            i <= b@.len(),
            ka == key_view(a@),
            kb == key_view(b@),
            runs_lt(ka, kb) == runs_lt(ka.skip(i as int), kb.skip(i as int)),
        decreases a@.len() - i,
    {
        assert(ka.skip(i as int)[0] == (a@[i as int].0, a@[i as int].1@));
        assert(kb.skip(i as int)[0] == (b@[i as int].0, b@[i as int].1@));
        if a[i].0 != b[i].0 {
            return a[i].0 < b[i].0;
        }
        if !str_eq(a[i].1.as_str(), b[i].1.as_str()) {
            return crate::text::str_lt(a[i].1.as_str(), b[i].1.as_str());
        }
        assert(ka.skip(i as int).drop_first() =~= ka.skip(i + 1));
        assert(kb.skip(i as int).drop_first() =~= kb.skip(i + 1));
        i = i + 1;
    }
    i < b.len()
}

/// File name `a` sorts before `b` in natural order.
pub open spec fn natural_lt(a: Seq<char>, b: Seq<char>) -> bool {
    runs_lt(natural_runs(a, 0), natural_runs(b, 0))
}

/// A list of character lists, taken as sequences.
pub open spec fn names_view(v: Seq<Vec<char>>) -> Seq<Seq<char>> {
    Seq::new(v.len(), |i: int| v[i]@)
}

/// Inserts `x` after every name that does not sort after it naturally.
pub open spec fn insert_natural(s: Seq<Seq<char>>, x: Seq<char>) -> Seq<Seq<char>>
    decreases s.len(),
{
    if s.len() == 0 {
        seq![x]
    } else if !natural_lt(x, s.last()) {
        s.push(x)
    } else {
        insert_natural(s.drop_last(), x).push(s.last())
    }
}

/// The names in natural order; names with equal keys keep their order.
pub open spec fn sort_natural(s: Seq<Seq<char>>) -> Seq<Seq<char>>
    decreases s.len(),
{
    if s.len() == 0 {
        s
    } else {
        insert_natural(sort_natural(s.drop_last()), s.last())
    }
}

proof fn lemma_insert_natural_at(s: Seq<Seq<char>>, x: Seq<char>, p: int)
    requires
        0 <= p <= s.len(),
        forall|q: int| p < q <= s.len() ==> natural_lt(x, #[trigger] s[q - 1]),
        p == 0 || !natural_lt(x, s[p - 1]),
    ensures
        insert_natural(s, x) == s.insert(p, x),
    decreases s.len(),
{
    if s.len() == 0 {
        assert(insert_natural(s, x) =~= s.insert(p, x));
    } else if !natural_lt(x, s.last()) {
        if p < s.len() {
            assert(natural_lt(x, s[s.len() - 1]));
        }
        assert(insert_natural(s, x) =~= s.insert(p, x));
    } else {
        assert(p < s.len());
        let t = s.drop_last();
        assert forall|q: int| p < q <= t.len() implies natural_lt(x, #[trigger] t[q - 1]) by {
            assert(t[q - 1] == s[q - 1]);
        }
        lemma_insert_natural_at(t, x, p);
        assert(insert_natural(s, x) =~= s.insert(p, x));
    }
}

/// Whether `a` sorts before `b` in natural order.
fn natural_less(a: &[char], b: &[char]) -> (r: bool)
    ensures
        r == natural_lt(a@, b@),
{
    let ka = natural_key(crate::text::string_of(a).as_str());
    let kb = natural_key(crate::text::string_of(b).as_str());
    runs_less(ka.as_slice(), kb.as_slice())
}

/// The names in natural order (see `sort_natural`).
fn sort_by_natural_key(v: &Vec<Vec<char>>) -> (r: Vec<Vec<char>>)
    ensures
        names_view(r@) == sort_natural(names_view(v@)),
{
    let n = v.len();
    let ghost all = names_view(v@);
    let mut out: Vec<Vec<char>> = Vec::new();
    let mut i: usize = 0;
    assert(all.take(0) =~= Seq::<Seq<char>>::empty());
    assert(names_view(out@) =~= Seq::<Seq<char>>::empty());
    while i < n
        invariant
            0 <= i <= n,
            n == v@.len(),
            all == names_view(v@),
            names_view(out@) == sort_natural(all.take(i as int)),
        decreases n - i,
    {
        let ghost sorted = names_view(out@);
        let mut p = out.len();
        while p > 0 && natural_less(v[i].as_slice(), out[p - 1].as_slice())
            invariant
                0 <= p <= out@.len(),
                i < n,
                n == v@.len(),
                all == names_view(v@),
                sorted == names_view(out@),
                forall|q: int| p < q <= sorted.len() ==> natural_lt(all[i as int], #[trigger] sorted[q - 1]),
            decreases p,
        {
            p = p - 1;
        }
        let ghost x = all[i as int];
        proof {
            lemma_insert_natural_at(sorted, x, p as int);
            assert(all.take(i + 1).drop_last() =~= all.take(i as int));
            assert(all.take(i + 1).last() == x);
        }
        let item = v[i].clone();
        out.insert(p, item);
        assert(names_view(out@) =~= sorted.insert(p as int, x));
        i = i + 1;
    }
    assert(all.take(n as int) =~= all);
    out
}

/// Inserts `x` after every name that does not sort after it.
pub open spec fn insert_name(s: Seq<Seq<char>>, x: Seq<char>) -> Seq<Seq<char>>
    decreases s.len(),
{
    if s.len() == 0 {
        seq![x]
    } else if !lex_lt(x, s.last()) {
        s.push(x)
    } else {
        insert_name(s.drop_last(), x).push(s.last())
    }
}

/// The names in ascending order (the order of paths in one folder).
pub open spec fn sort_names(s: Seq<Seq<char>>) -> Seq<Seq<char>>
    decreases s.len(),
{
    if s.len() == 0 {
        s
    } else {
        insert_name(sort_names(s.drop_last()), s.last())
    }
}

proof fn lemma_insert_name_at(s: Seq<Seq<char>>, x: Seq<char>, p: int)
    requires
        0 <= p <= s.len(),
        forall|q: int| p < q <= s.len() ==> lex_lt(x, #[trigger] s[q - 1]),
        p == 0 || !lex_lt(x, s[p - 1]),
    ensures
        insert_name(s, x) == s.insert(p, x),
    decreases s.len(),
{
    if s.len() == 0 {
        assert(insert_name(s, x) =~= s.insert(p, x));
    } else if !lex_lt(x, s.last()) {
        if p < s.len() {
            assert(lex_lt(x, s[s.len() - 1]));
        }
        assert(insert_name(s, x) =~= s.insert(p, x));
    } else {
        assert(p < s.len());
        let t = s.drop_last();
        assert forall|q: int| p < q <= t.len() implies lex_lt(x, #[trigger] t[q - 1]) by {
            assert(t[q - 1] == s[q - 1]);
        }
        lemma_insert_name_at(t, x, p);
        assert(insert_name(s, x) =~= s.insert(p, x));
    }
}

/// Whether `a` sorts before `b` (see `lex_lt`).
fn chars_less(a: &[char], b: &[char]) -> (r: bool)
    ensures
        r == lex_lt(a@, b@),
{
    crate::text::str_lt(crate::text::string_of(a).as_str(), crate::text::string_of(b).as_str())
}

/// The names in ascending order (see `sort_names`).
fn sort_by_name(v: &Vec<Vec<char>>) -> (r: Vec<Vec<char>>)
    ensures
        names_view(r@) == sort_names(names_view(v@)),
{
    let n = v.len();
    let ghost all = names_view(v@);
    let mut out: Vec<Vec<char>> = Vec::new();
    let mut i: usize = 0;
    assert(all.take(0) =~= Seq::<Seq<char>>::empty());
    assert(names_view(out@) =~= Seq::<Seq<char>>::empty());
    while i < n
        invariant
            0 <= i <= n,
            n == v@.len(),
            all == names_view(v@),
            names_view(out@) == sort_names(all.take(i as int)),
        decreases n - i,
    {
        let ghost sorted = names_view(out@);
        let mut p = out.len();
        while p > 0 && chars_less(v[i].as_slice(), out[p - 1].as_slice())
            invariant
                0 <= p <= out@.len(),
                i < n,
                n == v@.len(),
                all == names_view(v@),
                sorted == names_view(out@),
                forall|q: int| p < q <= sorted.len() ==> lex_lt(all[i as int], #[trigger] sorted[q - 1]),
            decreases p,
        {
            p = p - 1;
        }
        let ghost x = all[i as int];
        proof {
            lemma_insert_name_at(sorted, x, p as int);
            assert(all.take(i + 1).drop_last() =~= all.take(i as int));
            assert(all.take(i + 1).last() == x);
        }
        let item = v[i].clone();
        out.insert(p, item);
        assert(names_view(out@) =~= sorted.insert(p as int, x));
        i = i + 1;
    }
    assert(all.take(n as int) =~= all);
    out
}

/// The last index below `j` holding a `.`, or -1.
pub open spec fn last_dot(s: Seq<char>, j: int) -> int
    decreases j,
{
    if j <= 0 || j > s.len() {
        -1
    } else if s[j - 1] == '.' {
        j - 1
    } else {
        last_dot(s, j - 1)
    }
}

proof fn lemma_last_dot_bounds(s: Seq<char>, j: int)
    requires
        0 <= j <= s.len(),
    ensures
        -1 <= last_dot(s, j) < j,
    decreases j,
{
    if j > 0 && s[j - 1] != '.' {
        lemma_last_dot_bounds(s, j - 1);
    }
}

/// `Path::extension` of a file name: what follows the last `.`, unless there
/// is none or it starts the name.
pub open spec fn extension(name: Seq<char>) -> Option<Seq<char>> {
    let d = last_dot(name, name.len() as int);
    if d <= 0 {
        None
    } else {
        Some(name.subrange(d + 1, name.len() as int))
    }
}

/// `Path::file_stem` of a file name: what comes before the extension.
pub open spec fn file_stem(name: Seq<char>) -> Seq<char> {
    let d = last_dot(name, name.len() as int);
    if d <= 0 {
        name
    } else {
        name.subrange(0, d)
    }
}

/// Stem and extension of a file name.
pub fn split_extension(name: &[char]) -> (r: (Vec<char>, Option<Vec<char>>))
    ensures
        r.0@ == file_stem(name@),
        r.1 is None <==> extension(name@) is None,
        r.1 matches Some(e) ==> extension(name@) == Some(e@),
{
    let n = name.len();
    let mut j: usize = n;
    while j > 0 && name[j - 1] != '.'
        invariant
            0 <= j <= n,
            n == name@.len(),
            last_dot(name@, n as int) == last_dot(name@, j as int),
        decreases j,
    {
        j = j - 1;
    }
    if j <= 1 {
        (slice_chars(name, 0, n), None)
    } else {
        (slice_chars(name, 0, j - 1), Some(slice_chars(name, j, n)))
    }
}

/// The stem of a file name (see `file_stem`).
pub fn stem_of(name: &[char]) -> (r: Vec<char>)
    ensures
        r@ == file_stem(name@),
{
    let (stem, _) = split_extension(name);
    stem
}

/// A `.cur` or `.ani` file, by its extension in any case.
pub open spec fn is_cursor_name(name: Seq<char>) -> bool {
    extension(name) matches Some(e) && (eq_ignore_case(e, "cur"@) || eq_ignore_case(e, "ani"@))
}

/// A `.crs` scheme file, by its extension in any case.
pub open spec fn is_scheme_name(name: Seq<char>) -> bool {
    extension(name) matches Some(e) && eq_ignore_case(e, "crs"@)
}

/// Whether the file `file_name` is a cursor (`.cur` or `.ani`).
pub fn is_cursor_file(file_name: &str) -> (r: bool)
    ensures
        r == is_cursor_name(file_name@),
{
    let (_, ext) = split_extension(chars_of(file_name).as_slice());
    match ext {
        Some(e) => eq_ignore_ascii_case(e.as_slice(), chars_of("cur").as_slice())
            || eq_ignore_ascii_case(e.as_slice(), chars_of("ani").as_slice()),
        None => false,
    }
}

/// Whether the file `file_name` is a `.crs` scheme.
pub fn is_scheme_file(file_name: &str) -> (r: bool)
    ensures
        r == is_scheme_name(file_name@),
{
    let (_, ext) = split_extension(chars_of(file_name).as_slice());
    match ext {
        Some(e) => eq_ignore_ascii_case(e.as_slice(), chars_of("crs").as_slice()),
        None => false,
    }
}

/// Whether the file `file_name` is an `install.inf`, in any case.
pub fn is_install_inf(file_name: &str) -> (r: bool)
    ensures
        r == eq_ignore_case(file_name@, "install.inf"@),
{
    crate::text::str_eq_ignore_ascii_case(file_name, "install.inf")
}

/// Strings taken as character sequences.
pub open spec fn strings_view(v: Seq<String>) -> Seq<Seq<char>> {
    Seq::new(v.len(), |i: int| v[i]@)
}

/// The cursor files among `names`, in their order.
pub open spec fn cursor_names(names: Seq<Seq<char>>) -> Seq<Seq<char>>
    decreases names.len(),
{
    if names.len() == 0 {
        Seq::empty()
    } else if is_cursor_name(names.last()) {
        cursor_names(names.drop_last()).push(names.last())
    } else {
        cursor_names(names.drop_last())
    }
}

/// The scheme the mapping is declared in, if any: a `.crs` file beats an
/// `install.inf`. Gives the declared role-to-file mapping, where it came from,
/// and the scheme file's name.
pub open spec fn declared(
    crs: Option<(Seq<char>, Seq<char>)>,
    inf: Option<(Seq<char>, Seq<char>)>,
) -> (Map<Seq<char>, Seq<char>>, MapSource, Option<Seq<char>>) {
    match crs {
        Some(c) => (spec_parse_crs(c.1), MapSource::SchemeFile, Some(c.0)),
        None => match inf {
            Some(i) => (spec_parse_inf(i.1), MapSource::Inf, Some(i.0)),
            None => (Map::empty(), MapSource::FileName, None),
        },
    }
}

/// The first index from `j` on of a file named `f`, ignoring ASCII case.
pub open spec fn first_match(files: Seq<Seq<char>>, f: Seq<char>, j: int) -> Option<int>
    decreases files.len() - j,
{
    if j < 0 || j >= files.len() {
        None
    } else if eq_ignore_case(files[j], f) {
        Some(j)
    } else {
        first_match(files, f, j + 1)
    }
}

/// The name of role `i` of the table.
pub open spec fn win(i: int) -> Seq<char> {
    spec_roles()[i].win@
}

/// The file the scheme assigns to role `i`: the first file named as the
/// scheme says, ignoring ASCII case.
pub open spec fn declared_index(files: Seq<Seq<char>>, m: Map<Seq<char>, Seq<char>>, i: int) -> Option<
    int,
> {
    if m.contains_key(win(i)) {
        first_match(files, m[win(i)], 0)
    } else {
        None
    }
}

/// File `j` is assigned to some role by the scheme.
pub open spec fn claimed(d: Seq<Option<int>>, j: int) -> bool {
    exists|i: int| 0 <= i < 17 && d[i] == Some(j)
}

/// The index in the role table of the role named `w`.
pub open spec fn win_index_from(w: Seq<char>, i: int) -> Option<int>
    decreases 17 - i,
{
    if i < 0 || i >= 17 {
        None
    } else if win(i) == w {
        Some(i)
    } else {
        win_index_from(w, i + 1)
    }
}

/// The table index of the role the name of file `f` suggests.
pub open spec fn guess_index(f: Seq<char>) -> Option<int> {
    match spec_role_from_name(file_stem(f)) {
        Some(w) => win_index_from(w@, 0),
        None => None,
    }
}

/// Role guessing for file `j`, given which roles are taken, which file each
/// guessed role went to, and the files left unmatched: a file the scheme
/// assigned is skipped; a file whose name suggests a role not yet taken gets
/// it; any other file is unmatched.
pub open spec fn guess_step(
    files: Seq<Seq<char>>,
    d: Seq<Option<int>>,
    st: (Seq<bool>, Seq<Option<int>>, Seq<int>),
    j: int,
) -> (Seq<bool>, Seq<Option<int>>, Seq<int>) {
    if claimed(d, j) {
        st
    } else {
        match guess_index(files[j]) {
            Some(g) => if !st.0[g] {
                (st.0.update(g, true), st.1.update(g, Some(j)), st.2)
            } else {
                (st.0, st.1, st.2.push(j))
            },
            None => (st.0, st.1, st.2.push(j)),
        }
    }
}

/// Role guessing over the files from `j` on, in order.
pub open spec fn guess_fold(
    files: Seq<Seq<char>>,
    d: Seq<Option<int>>,
    st: (Seq<bool>, Seq<Option<int>>, Seq<int>),
    j: int,
) -> (Seq<bool>, Seq<Option<int>>, Seq<int>)
    decreases files.len() - j,
{
    if j < 0 || j >= files.len() {
        st
    } else {
        guess_fold(files, d, guess_step(files, d, st, j), j + 1)
    }
}

/// Guessing starts with the roles the scheme assigned taken.
pub open spec fn guess_start(d: Seq<Option<int>>) -> (Seq<bool>, Seq<Option<int>>, Seq<int>) {
    (Seq::new(17, |i: int| d[i] is Some), Seq::new(17, |i: int| None::<int>), Seq::empty())
}

/// A mapping taken as file name, role name and source.
pub type MappingView = (Seq<char>, Seq<char>, MapSource);

/// The mappings for roles below `n`, in table order: the file the scheme
/// assigns, else the file guessed for it.
pub open spec fn maps_upto(
    files: Seq<Seq<char>>,
    d: Seq<Option<int>>,
    guessed: Seq<Option<int>>,
    src: MapSource,
    n: int,
) -> Seq<MappingView>
    decreases n,
{
    if n <= 0 {
        Seq::empty()
    } else {
        let prev = maps_upto(files, d, guessed, src, n - 1);
        match d[n - 1] {
            Some(j) => prev.push((files[j], win(n - 1), src)),
            None => match guessed[n - 1] {
                Some(j) => prev.push((files[j], win(n - 1), MapSource::FileName)),
                None => prev,
            },
        }
    }
}

/// The file the scheme assigns to each role of the table.
pub open spec fn decl_all(files: Seq<Seq<char>>, m: Map<Seq<char>, Seq<char>>) -> Seq<Option<int>> {
    Seq::new(17, |i: int| declared_index(files, m, i))
}

/// The files at the indices `idx`.
pub open spec fn pick(files: Seq<Seq<char>>, idx: Seq<int>) -> Seq<Seq<char>> {
    Seq::new(idx.len(), |k: int| files[idx[k]])
}

/// The files, in order, assigned to the roles of the table in order.
pub open spec fn position_maps(ordered: Seq<Seq<char>>) -> Seq<MappingView> {
    Seq::new(ordered.len(), |k: int| (ordered[k], win(k), MapSource::Position))
}

/// The outcome of an import: the mappings in role order, the files left
/// unmatched, the strongest source, and the scheme file.
pub type ImportView = (Seq<MappingView>, Seq<Seq<char>>, MapSource, Option<Seq<char>>);

/// How a folder holding the files `names` (and the given scheme files, each
/// as name and text) maps onto roles. Without cursor files there is nothing to
/// import. When neither the scheme nor the file names identify any file, files
/// are assigned to the roles in table order, sorted naturally, which needs no
/// more files than roles.
pub open spec fn spec_import(
    dir: Seq<char>,
    names: Seq<Seq<char>>,
    crs: Option<(Seq<char>, Seq<char>)>,
    inf: Option<(Seq<char>, Seq<char>)>,
) -> Result<ImportView, ErrorView> {
    let files = sort_names(cursor_names(names));
    let decl = declared(crs, inf);
    let d = decl_all(files, decl.0);
    let st = guess_fold(files, d, guess_start(d), 0);
    let maps = maps_upto(files, d, st.1, decl.1, 17);
    if files.len() == 0 {
        Err(ErrorView::NoFrames { dir })
    } else if maps.len() > 0 {
        Ok((maps, pick(files, st.2), strongest(maps), decl.2))
    } else if files.len() > 17 {
        Err(ErrorView::TooManyFiles { dir, found: files.len() as usize })
    } else {
        Ok((position_maps(sort_natural(files)), Seq::empty(), MapSource::Position, decl.2))
    }
}

/// An index, taken as an integer.
pub open spec fn opt_view(o: Option<usize>) -> Option<int> {
    match o {
        Some(j) => Some(j as int),
        None => None,
    }
}

/// Indices, taken as integers.
pub open spec fn opts_view(v: Seq<Option<usize>>) -> Seq<Option<int>> {
    Seq::new(v.len(), |i: int| opt_view(v[i]))
}

/// Indices, taken as integers.
pub open spec fn idx_view(v: Seq<usize>) -> Seq<int> {
    Seq::new(v.len(), |i: int| v[i] as int)
}

/// The cursor files among `names`, as character lists.
fn cursor_files(names: &[String]) -> (r: Vec<Vec<char>>)
    ensures
        names_view(r@) == cursor_names(strings_view(names@)),
{
    let ghost all = strings_view(names@);
    let mut out: Vec<Vec<char>> = Vec::new();
    let mut k: usize = 0;
    assert(all.take(0) =~= Seq::<Seq<char>>::empty());
    assert(names_view(out@) =~= Seq::<Seq<char>>::empty());
    while k < names.len()
        invariant
            0 <= k <= names@.len(),
            all == strings_view(names@),
            names_view(out@) == cursor_names(all.take(k as int)),
        decreases names@.len() - k,
    {
        let c = chars_of(names[k].as_str());
        assert(all.take(k + 1).drop_last() =~= all.take(k as int));
        assert(all.take(k + 1).last() == c@);
        if is_cursor_file(names[k].as_str()) {
            out.push(c);
            assert(names_view(out@) =~= names_view(out@.drop_last()).push(c@));
        }
        k = k + 1;
    }
    assert(all.take(names@.len() as int) =~= all);
    out
}

/// The first index from `j` on of a file named `f`, ignoring ASCII case.
fn find_file(files: &Vec<Vec<char>>, f: &[char]) -> (r: Option<usize>)
    ensures
        opt_view(r) == first_match(names_view(files@), f@, 0),
        r matches Some(j) ==> j < files@.len(),
{
    let ghost fv = names_view(files@);
    let mut j: usize = 0;
    while j < files.len()
        invariant
            0 <= j <= files@.len(),
            fv == names_view(files@),
            first_match(fv, f@, 0) == first_match(fv, f@, j as int),
        decreases files@.len() - j,
    {
        if eq_ignore_ascii_case(files[j].as_slice(), f) {
            return Some(j);
        }
        j = j + 1;
    }
    None
}

/// The file the scheme assigns to each role of the table.
fn declared_indices(files: &Vec<Vec<char>>, decl: &NameMap<String>) -> (r: Vec<Option<usize>>)
    ensures
        opts_view(r@) == decl_all(names_view(files@), text_map(decl@)),
        r@.len() == 17,
        forall|i: int| 0 <= i < r@.len() ==> (#[trigger] r@[i] matches Some(j) ==> j < files@.len()),
{
    let table = crate::manifest::roles();
    let ghost fv = names_view(files@);
    let ghost m = text_map(decl@);
    let mut out: Vec<Option<usize>> = Vec::new();
    let mut i: usize = 0;
    while i < 17
        invariant
            0 <= i <= 17,
            table@ == spec_roles(),
            fv == names_view(files@),
            m == text_map(decl@),
            out@.len() == i,
            forall|k: int| 0 <= k < i ==> opt_view(#[trigger] out@[k]) == declared_index(fv, m, k),
            forall|k: int| 0 <= k < out@.len() ==> (#[trigger] out@[k] matches Some(j) ==> j < files@.len()),
        decreases 17 - i,
    {
        match decl.get(table[i].win) {
            Some(fname) => {
                let fc = chars_of(fname.as_str());
                out.push(find_file(files, fc.as_slice()));
            },
            None => {
                out.push(None);
            },
        }
        i = i + 1;
    }
    assert(opts_view(out@) =~= decl_all(fv, m));
    out
}

/// Whether the scheme assigns file `j` to some role.
fn is_claimed(d: &Vec<Option<usize>>, j: usize) -> (r: bool)
    requires
        d@.len() == 17,
    ensures
        r == claimed(opts_view(d@), j as int),
{
    let mut i: usize = 0;
    while i < 17
        invariant
            0 <= i <= 17,
            d@.len() == 17,
            forall|k: int| 0 <= k < i ==> opts_view(d@)[k] != Some(j as int),
        decreases 17 - i,
    {
        if d[i] == Some(j) {
            assert(opts_view(d@)[i as int] == Some(j as int));
            return true;
        }
        i = i + 1;
    }
    false
}

/// The table index of the role named `w`.
fn table_index(w: &str) -> (r: Option<usize>)
    ensures
        opt_view(r) == win_index_from(w@, 0),
        r matches Some(g) ==> g < 17,
{
    let table = crate::manifest::roles();
    let mut i: usize = 0;
    while i < 17
        invariant
            0 <= i <= 17,
            table@ == spec_roles(),
            win_index_from(w@, 0) == win_index_from(w@, i as int),
        decreases 17 - i,
    {
        if str_eq(table[i].win, w) {
            return Some(i);
        }
        i = i + 1;
    }
    None
}

/// The table index of the role the name of file `f` suggests.
fn guess_role(f: &[char]) -> (r: Option<usize>)
    ensures
        opt_view(r) == guess_index(f@),
        r matches Some(g) ==> g < 17,
{
    let (stem, _) = split_extension(f);
    match role_from_name(crate::text::string_of(stem.as_slice()).as_str()) {
        Some(w) => table_index(w),
        None => None,
    }
}

/// Role guessing over all files (see `guess_fold`).
fn guess_roles(files: &Vec<Vec<char>>, d: &Vec<Option<usize>>) -> (r: (Vec<bool>, Vec<Option<usize>>, Vec<usize>))
    requires
        d@.len() == 17,
    ensures
        (r.0@, opts_view(r.1@), idx_view(r.2@)) == guess_fold(
            names_view(files@),
            opts_view(d@),
            guess_start(opts_view(d@)),
            0,
        ),
        r.1@.len() == 17,
        forall|g: int| 0 <= g < 17 ==> (#[trigger] r.1@[g] matches Some(j) ==> j < files@.len()),
        forall|k: int| 0 <= k < r.2@.len() ==> #[trigger] r.2@[k] < files@.len(),
{
    let ghost fv = names_view(files@);
    let ghost dv = opts_view(d@);
    let mut taken: Vec<bool> = Vec::new();
    let mut guessed: Vec<Option<usize>> = Vec::new();
    let mut i: usize = 0;
    while i < 17
        invariant
            0 <= i <= 17,
            d@.len() == 17,
            dv == opts_view(d@),
            taken@.len() == i,
            guessed@.len() == i,
            forall|k: int| 0 <= k < i ==> (#[trigger] taken@[k]) == (dv[k] is Some),
            forall|k: int| 0 <= k < i ==> (#[trigger] guessed@[k]) is None,
        decreases 17 - i,
    {
        taken.push(d[i].is_some());
        guessed.push(None);
        i = i + 1;
    }
    let mut unmatched: Vec<usize> = Vec::new();
    assert(taken@ =~= guess_start(dv).0);
    assert(opts_view(guessed@) =~= guess_start(dv).1);
    assert(idx_view(unmatched@) =~= guess_start(dv).2);
    let mut j: usize = 0;
    while j < files.len()
        invariant
            0 <= j <= files@.len(),
            fv == names_view(files@),
            dv == opts_view(d@),
            d@.len() == 17,
            taken@.len() == 17,
            guessed@.len() == 17,
            guess_fold(fv, dv, guess_start(dv), 0) == guess_fold(
                fv,
                dv,
                (taken@, opts_view(guessed@), idx_view(unmatched@)),
                j as int,
            ),
            forall|g: int| 0 <= g < 17 ==> (#[trigger] guessed@[g] matches Some(x) ==> x < files@.len()),
            forall|k: int| 0 <= k < unmatched@.len() ==> #[trigger] unmatched@[k] < files@.len(),
        decreases files@.len() - j,
    {
        let ghost st = (taken@, opts_view(guessed@), idx_view(unmatched@));
        if !is_claimed(d, j) {
            match guess_role(files[j].as_slice()) {
                Some(g) => {
                    if !taken[g] {
                        taken.set(g, true);
                        guessed.set(g, Some(j));
                        assert(opts_view(guessed@) =~= st.1.update(g as int, Some(j as int)));
                    } else {
                        unmatched.push(j);
                        assert(idx_view(unmatched@) =~= st.2.push(j as int));
                    }
                },
                None => {
                    unmatched.push(j);
                    assert(idx_view(unmatched@) =~= st.2.push(j as int));
                },
            }
        }
        assert((taken@, opts_view(guessed@), idx_view(unmatched@)) == guess_step(fv, dv, st, j as int));
        j = j + 1;
    }
    (taken, guessed, unmatched)
}

/// How one file got mapped, so the user can see the reasoning and correct it.
#[derive(Debug, Clone, PartialEq, Eq)]
pub struct Mapping {
    /// The file's name within the folder.
    pub file: String,
    /// The Windows role it was mapped to.
    pub role: String,
    /// What the mapping is based on.
    pub source: MapSource,
}

/// A mapping taken as file name, role name and source.
pub open spec fn mapping_view(m: Mapping) -> MappingView {
    (m.file@, m.role@, m.source)
}

/// Mappings taken as file names, role names and sources.
pub open spec fn mappings_view(v: Seq<Mapping>) -> Seq<MappingView> {
    Seq::new(v.len(), |i: int| mapping_view(v[i]))
}

/// How reliable a source is: a scheme file most, then `install.inf`, then a
/// file name, then position.
pub open spec fn source_rank(s: MapSource) -> int {
    match s {
        MapSource::SchemeFile => 3,
        MapSource::Inf => 2,
        MapSource::FileName => 1,
        MapSource::Position => 0,
    }
}

/// The strongest source any of the mappings used; `Position` when there are
/// none.
pub open spec fn strongest(maps: Seq<MappingView>) -> MapSource
    decreases maps.len(),
{
    if maps.len() == 0 {
        MapSource::Position
    } else if source_rank(maps.last().2) > source_rank(strongest(maps.drop_last())) {
        maps.last().2
    } else {
        strongest(maps.drop_last())
    }
}

/// No mapping used a source more reliable than the strongest, and when there
/// are mappings, one of them used it.
pub proof fn lemma_strongest_is_used(maps: Seq<MappingView>)
    ensures
        forall|i: int| 0 <= i < maps.len() ==> source_rank(#[trigger] maps[i].2) <= source_rank(strongest(maps)),
        maps.len() > 0 ==> exists|i: int| 0 <= i < maps.len() && #[trigger] maps[i].2 == strongest(maps),
    decreases maps.len(),
{
    if maps.len() > 0 {
        let rest = maps.drop_last();
        lemma_strongest_is_used(rest);
        assert forall|i: int| 0 <= i < maps.len() implies source_rank(#[trigger] maps[i].2) <= source_rank(
            strongest(maps),
        ) by {
            if i < maps.len() - 1 {
                assert(rest[i] == maps[i]);
            }
        }
        if source_rank(maps.last().2) > source_rank(strongest(rest)) {
            assert(maps[maps.len() - 1].2 == strongest(maps));
        } else if rest.len() > 0 {
            let k = choose|k: int| 0 <= k < rest.len() && #[trigger] rest[k].2 == strongest(rest);
            assert(maps[k].2 == strongest(maps));
        } else {
            assert(maps[0].2 == strongest(maps));
        }
    }
}

/// The strongest source any of the mappings used (see `strongest`).
fn strongest_source(mappings: &Vec<Mapping>) -> (r: MapSource)
    ensures
        r == strongest(mappings_view(mappings@)),
{
    let ghost mv = mappings_view(mappings@);
    let mut best = MapSource::Position;
    let mut i: usize = 0;
    assert(mv.take(0) =~= Seq::<MappingView>::empty());
    while i < mappings.len()
        invariant
            0 <= i <= mappings@.len(),
            mv == mappings_view(mappings@),
            best == strongest(mv.take(i as int)),
        decreases mappings@.len() - i,
    {
        assert(mv.take(i + 1).drop_last() =~= mv.take(i as int));
        assert(mv.take(i + 1).last() == mv[i as int]);
        let s = mappings[i].source;
        let rank_s: u8 = match s {
            MapSource::SchemeFile => 3,
            MapSource::Inf => 2,
            MapSource::FileName => 1,
            MapSource::Position => 0,
        };
        let rank_b: u8 = match best {
            MapSource::SchemeFile => 3,
            MapSource::Inf => 2,
            MapSource::FileName => 1,
            MapSource::Position => 0,
        };
        if rank_s > rank_b {
            best = s;
        }
        i = i + 1;
    }
    assert(mv.take(mv.len() as int) =~= mv);
    best
}

/// Result of scanning a folder.
#[derive(Debug)]
pub struct Import {
    pub pack: Pack,
    pub mappings: Vec<Mapping>,
    /// Cursor files present that could not be matched to a role.
    pub unmatched: Vec<String>,
    /// The scheme or INF file the mapping came from, if any.
    pub scheme_file: Option<String>,
    /// The strongest source any mapping used.
    pub source: MapSource,
}

/// A file name and text, taken as character sequences.
pub open spec fn pair_view(o: Option<(String, String)>) -> Option<(Seq<char>, Seq<char>)> {
    match o {
        Some(p) => Some((p.0@, p.1@)),
        None => None,
    }
}

/// A string, if any, taken as its characters.
pub open spec fn opt_string_view(o: Option<String>) -> Option<Seq<char>> {
    match o {
        Some(s) => Some(s@),
        None => None,
    }
}

/// An import taken as mappings, unmatched files, source and scheme file.
pub open spec fn import_view(imp: Import) -> ImportView {
    (mappings_view(imp.mappings@), strings_view(imp.unmatched@), imp.source, opt_string_view(imp.scheme_file))
}

/// The spec an imported role gets: its file as the source, and defaults
/// otherwise; the hotspot stays unset because the file carries its own.
pub open spec fn imported_spec(rs: RoleSpec, file: Seq<char>) -> bool {
    &&& rs.source matches Some(p) && p@ == file
    &&& rs.hotspot is None
    &&& rs.fps_bits == DEFAULT_FPS_BITS
    &&& rs.looping
    &&& rs.grid is None
    &&& rs.inherit is None
    &&& rs.upscale == UpscaleMode::Off
}

/// The description of a pack imported from `n` files.
pub open spec fn import_description(n: nat) -> Seq<char> {
    "Imported from "@ + decimal(n) + " ready-made cursor file(s)."@
}

/// The pack an import of `maps` under the name `name` builds: version 1.0.0,
/// the default sizes on a 32px canvas, and each mapped role drawn from its
/// file; such a pack always passes validation.
pub open spec fn imported_pack(p: Pack, maps: Seq<MappingView>, name: Seq<char>) -> bool {
    &&& p.format == 1
    &&& p.name@ == name
    &&& p.author is None
    &&& p.version matches Some(v) && v@ == "1.0.0"@
    &&& p.description matches Some(d) && d@ == import_description(maps.len())
    &&& p.base_size == 32
    &&& p.sizes@ == spec_default_sizes()
    &&& p.roles@.len() == maps.len()
    &&& forall|m: int|
        0 <= m < maps.len() ==> (lookup(p.roles@, #[trigger] maps[m].1) matches Some(rs)
            && imported_spec(rs, maps[m].0))
    &&& pack_fault(p) is None
}

proof fn lemma_win_index_found(w: Seq<char>, i: int, j: int)
    requires
        0 <= j <= i < 17,
        win(i) == w,
    ensures
        win_index_from(w, j) is Some,
    decreases i - j,
{
    if j < i && win(j) != w {
        lemma_win_index_found(w, i, j + 1);
    }
}

proof fn lemma_win_index_some(w: Seq<char>, j: int)
    requires
        0 <= j,
    ensures
        win_index_from(w, j) matches Some(i) ==> 0 <= i < 17 && win(i) == w,
    decreases 17 - j,
{
    if j < 17 && win(j) != w {
        lemma_win_index_some(w, j + 1);
    }
}

proof fn lemma_find_role_found(w: Seq<char>, i: int, j: int)
    requires
        0 <= j <= i < 17,
        spec_roles()[i].win@ == w,
    ensures
        crate::manifest::find_role_from(w, j) is Some,
    decreases i - j,
{
    if j < i && !eq_ignore_case(spec_roles()[j].win@, w) {
        lemma_find_role_found(w, i, j + 1);
    }
}

/// The roles of `maps_upto` are roles of the table below `n`, each once.
proof fn lemma_maps_upto_roles(
    files: Seq<Seq<char>>,
    d: Seq<Option<int>>,
    guessed: Seq<Option<int>>,
    src: MapSource,
    n: int,
)
    requires
        0 <= n <= 17,
    ensures
        forall|m: int|
            #![trigger maps_upto(files, d, guessed, src, n)[m]]
            0 <= m < maps_upto(files, d, guessed, src, n).len() ==> exists|i: int|
                0 <= i < n && maps_upto(files, d, guessed, src, n)[m].1 == #[trigger] win(i),
        forall|a: int, b: int|
            0 <= a < b < maps_upto(files, d, guessed, src, n).len() ==> (#[trigger] maps_upto(
                files,
                d,
                guessed,
                src,
                n,
            )[a]).1 != (#[trigger] maps_upto(files, d, guessed, src, n)[b]).1,
    decreases n,
{
    if n > 0 {
        lemma_maps_upto_roles(files, d, guessed, src, n - 1);
        crate::manifest::lemma_role_names_distinct();
        let prev = maps_upto(files, d, guessed, src, n - 1);
        let cur = maps_upto(files, d, guessed, src, n);
        assert forall|m: int| #![trigger cur[m]] 0 <= m < cur.len() implies exists|i: int|
            0 <= i < n && cur[m].1 == #[trigger] win(i) by {
            if m < prev.len() {
                assert(cur[m] == prev[m]);
                let i = choose|i: int| 0 <= i < n - 1 && prev[m].1 == #[trigger] win(i);
                assert(cur[m].1 == win(i));
            } else {
                assert(cur[m].1 == win(n - 1));
            }
        }
        assert forall|a: int, b: int| 0 <= a < b < cur.len() implies (#[trigger] cur[a]).1 != (
        #[trigger] cur[b]).1 by {
            assert(cur[a] == prev[a]);
            if b < prev.len() {
                assert(cur[b] == prev[b]);
            } else {
                let i = choose|i: int| 0 <= i < n - 1 && prev[a].1 == #[trigger] win(i);
                assert(cur[b].1 == win(n - 1));
                assert(spec_roles()[i].win@ != spec_roles()[n - 1].win@);
            }
        }
    }
}

/// The roles of `position_maps` are the first roles of the table, each once.
proof fn lemma_position_roles(ordered: Seq<Seq<char>>)
    requires
        ordered.len() <= 17,
    ensures
        forall|m: int|
            0 <= m < position_maps(ordered).len() ==> (#[trigger] position_maps(ordered)[m]).1 == win(m),
        forall|a: int, b: int|
            0 <= a < b < position_maps(ordered).len() ==> (#[trigger] position_maps(ordered)[a]).1
                != (#[trigger] position_maps(ordered)[b]).1,
{
    crate::manifest::lemma_role_names_distinct();
    assert forall|a: int, b: int| 0 <= a < b < position_maps(ordered).len() implies (#[trigger] position_maps(ordered)[a]).1
        != (#[trigger] position_maps(ordered)[b]).1 by {
        assert(spec_roles()[a].win@ != spec_roles()[b].win@);
    }
}

/// A role map whose every entry is a table role drawn as imported has no fault.
proof fn lemma_imported_roles_valid(roles: Seq<(Seq<char>, RoleSpec)>, i: int)
    requires
        0 <= i <= roles.len(),
        forall|k: int|
            #![trigger roles[k]]
            0 <= k < roles.len() ==> (exists|t: int| 0 <= t < 17 && roles[k].0 == #[trigger] win(t))
                && imported_spec(roles[k].1, roles[k].1.source->0@),
    ensures
        crate::manifest::first_role_fault(roles, i, 32) is None,
    decreases roles.len() - i,
{
    if i < roles.len() {
        let t = choose|t: int| 0 <= t < 17 && roles[i].0 == #[trigger] win(t);
        lemma_find_role_found(roles[i].0, t, 0);
        lemma_imported_roles_valid(roles, i + 1);
    }
}

/// Scan a folder's listing and build a pack from its cursor files.
///
/// `names` are the names of the regular files in the folder `dir`; `crs` and
/// `inf` are the name and text of a `.crs` scheme and an `install.inf` found
/// there, if any. Nothing is written; the caller decides whether to save.
pub fn from_listing(
    dir: &str,
    names: &[String],
    crs: Option<(String, String)>,
    inf: Option<(String, String)>,
    name: &str,
) -> (r: Result<Import, Error>)
    ensures
        r is Ok <==> spec_import(dir@, strings_view(names@), pair_view(crs), pair_view(inf)) is Ok,
        r matches Ok(imp) ==> spec_import(dir@, strings_view(names@), pair_view(crs), pair_view(inf))
            == Ok::<ImportView, ErrorView>(import_view(imp)) && imported_pack(
            imp.pack,
            import_view(imp).0,
            name@,
        ),
        r matches Err(e) ==> spec_import(dir@, strings_view(names@), pair_view(crs), pair_view(inf))
            == Err::<ImportView, ErrorView>(e@),
        r matches Ok(imp) ==> forall|a: int, b: int|
            0 <= a < b < import_view(imp).0.len() ==> (#[trigger] import_view(imp).0[a]).1
                != (#[trigger] import_view(imp).0[b]).1,
{
    let ghost spec = spec_import(dir@, strings_view(names@), pair_view(crs), pair_view(inf));
    let raw = cursor_files(names);
    let files = sort_by_name(&raw);
    let ghost fv = names_view(files@);
    if files.len() == 0 {
        return Err(Error::NoFrames { dir: dir.to_owned() });
    }
    let ghost decl = declared(pair_view(crs), pair_view(inf));
    let (decl_map, source, scheme_file) = match crs {
        Some((f, t)) => (parse_crs(t.as_str()), MapSource::SchemeFile, Some(f)),
        None => match inf {
            Some((f, t)) => (parse_inf(t.as_str()), MapSource::Inf, Some(f)),
            None => {
                let m: NameMap<String> = NameMap::new();
                assert(text_map(m@) =~= Map::<Seq<char>, Seq<char>>::empty());
                (m, MapSource::FileName, None)
            },
        },
    };
    assert(text_map(decl_map@) == decl.0 && source == decl.1 && opt_string_view(scheme_file) == decl.2);
    let d = declared_indices(&files, &decl_map);
    let ghost dv = opts_view(d@);
    let (_, guessed, unmatched_idx) = guess_roles(&files, &d);
    let ghost st = guess_fold(fv, dv, guess_start(dv), 0);
    let table = crate::manifest::roles();
    let mut mappings: Vec<Mapping> = Vec::new();
    let mut i: usize = 0;
    assert(mappings_view(mappings@) =~= maps_upto(fv, dv, st.1, source, 0));
    while i < 17
        invariant
            0 <= i <= 17,
            table@ == spec_roles(),
            fv == names_view(files@),
            dv == opts_view(d@),
            d@.len() == 17,
            guessed@.len() == 17,
            st.1 == opts_view(guessed@),
            forall|g: int| 0 <= g < 17 ==> (#[trigger] d@[g] matches Some(j) ==> j < files@.len()),
            forall|g: int| 0 <= g < 17 ==> (#[trigger] guessed@[g] matches Some(j) ==> j < files@.len()),
            mappings_view(mappings@) == maps_upto(fv, dv, st.1, source, i as int),
        decreases 17 - i,
    {
        let ghost before = mappings_view(mappings@);
        assert(dv[i as int] == opt_view(d@[i as int]));
        assert(st.1[i as int] == opt_view(guessed@[i as int]));
        match d[i] {
            Some(j) => {
                mappings.push(
                    Mapping {
                        file: crate::text::string_of(files[j].as_slice()),
                        role: table[i].win.to_owned(),
                        source,
                    },
                );
                assert(mappings_view(mappings@) =~= before.push((fv[j as int], win(i as int), source)));
            },
            None => match guessed[i] {
                Some(j) => {
                    mappings.push(
                        Mapping {
                            file: crate::text::string_of(files[j].as_slice()),
                            role: table[i].win.to_owned(),
                            source: MapSource::FileName,
                        },
                    );
                    assert(mappings_view(mappings@) =~= before.push(
                        (fv[j as int], win(i as int), MapSource::FileName),
                    ));
                },
                None => {},
            },
        }
        i = i + 1;
    }
    let ghost maps = mappings_view(mappings@);
    proof {
        lemma_maps_upto_roles(fv, dv, st.1, source, 17);
    }
    let mut unmatched: Vec<String> = Vec::new();
    let mut k: usize = 0;
    while k < unmatched_idx.len()
        invariant
            0 <= k <= unmatched_idx@.len(),
            fv == names_view(files@),
            st.2 == idx_view(unmatched_idx@),
            forall|q: int| 0 <= q < unmatched_idx@.len() ==> #[trigger] unmatched_idx@[q] < files@.len(),
            strings_view(unmatched@) =~= pick(fv, st.2.take(k as int)),
        decreases unmatched_idx@.len() - k,
    {
        let ghost before = strings_view(unmatched@);
        unmatched.push(crate::text::string_of(files[unmatched_idx[k]].as_slice()));
        assert(strings_view(unmatched@) =~= before.push(fv[st.2[k as int]]));
        assert(pick(fv, st.2.take(k + 1)) =~= pick(fv, st.2.take(k as int)).push(fv[st.2[k as int]]));
        k = k + 1;
    }
    assert(st.2.take(st.2.len() as int) =~= st.2);
    let mut src = strongest_source(&mappings);
    if mappings.len() == 0 {
        if files.len() > 17 {
            return Err(Error::TooManyFiles { dir: dir.to_owned(), found: files.len() });
        }
        let ordered = sort_by_natural_key(&files);
        let ghost ov = names_view(ordered@);
        proof {
            crate::manifest::lemma_role_names_distinct();
            assert(ov.len() == fv.len()) by {
                lemma_sort_natural_len(fv);
            }
        }
        unmatched = Vec::new();
        src = MapSource::Position;
        let mut q: usize = 0;
        while q < ordered.len()
            invariant
                0 <= q <= ordered@.len(),
                ordered@.len() <= 17,
                table@ == spec_roles(),
                ov == names_view(ordered@),
                mappings_view(mappings@) =~= position_maps(ov).take(q as int),
            decreases ordered@.len() - q,
        {
            mappings.push(
                Mapping {
                    file: crate::text::string_of(ordered[q].as_slice()),
                    role: table[q].win.to_owned(),
                    source: MapSource::Position,
                },
            );
            assert(position_maps(ov).take(q + 1) =~= position_maps(ov).take(q as int).push(
                (ov[q as int], win(q as int), MapSource::Position),
            ));
            q = q + 1;
        }
        assert(position_maps(ov).take(ov.len() as int) =~= position_maps(ov));
        proof {
            lemma_position_roles(ov);
            let pm = mappings_view(mappings@);
            assert forall|x: int| #![trigger pm[x]] 0 <= x < pm.len() implies exists|t: int|
                0 <= t < 17 && pm[x].1 == #[trigger] win(t) by {
                assert(pm[x].1 == win(x));
            }
        }
    }
    let ghost maps = mappings_view(mappings@);
    assert(forall|m: int| #![trigger maps[m]] 0 <= m < maps.len() ==> exists|t: int| 0 <= t < 17 && maps[m].1 == #[trigger] win(t));
    assert(forall|a: int, b: int| 0 <= a < b < maps.len() ==> (#[trigger] maps[a]).1 != (#[trigger] maps[b]).1);
    let mut roles: NameMap<RoleSpec> = NameMap::new();
    let mut m: usize = 0;
    while m < mappings.len()
        invariant
            0 <= m <= mappings@.len(),
            maps == mappings_view(mappings@),
            forall|x: int| #![trigger maps[x]] 0 <= x < maps.len() ==> exists|t: int| 0 <= t < 17 && maps[x].1 == #[trigger] win(t),
            forall|a: int, b: int| 0 <= a < b < maps.len() ==> (#[trigger] maps[a]).1 != (#[trigger] maps[b]).1,
            roles@.len() == m,
            crate::keyed::keys_ascending(roles@),
            forall|x: int|
                0 <= x < m ==> (lookup(roles@, #[trigger] maps[x].1) matches Some(rs) && imported_spec(
                    rs,
                    maps[x].0,
                )),
            forall|k: Seq<char>|
                lookup(roles@, k) is Some ==> exists|x: int| 0 <= x < m && k == #[trigger] maps[x].1,
        decreases mappings@.len() - m,
    {
        let spec = RoleSpec {
            source: Some(mappings[m].file.clone()),
            hotspot: None,
            fps_bits: DEFAULT_FPS_BITS,
            looping: true,
            grid: None,
            inherit: None,
            upscale: UpscaleMode::Off,
        };
        let ghost old_roles = roles@;
        proof {
            if lookup(old_roles, maps[m as int].1) is Some {
                let x = choose|x: int| 0 <= x < m && maps[m as int].1 == #[trigger] maps[x].1;
            }
        }
        roles.insert(mappings[m].role.clone(), spec);
        m = m + 1;
    }
    let description = crate::text::concat(
        crate::text::concat(
            chars_of("Imported from ").as_slice(),
            crate::text::decimal_chars(mappings.len()).as_slice(),
        ).as_slice(),
        chars_of(" ready-made cursor file(s).").as_slice(),
    );
    let pack = Pack {
        format: 1,
        name: name.to_owned(),
        author: None,
        version: Some("1.0.0".to_owned()),
        description: Some(crate::text::string_of(description.as_slice())),
        base_size: 32,
        sizes: default_sizes(),
        roles,
    };
    proof {
        let rv = pack.roles@;
        assert forall|k: int| #![trigger rv[k]] 0 <= k < rv.len() implies (exists|t: int| 0 <= t < 17 && rv[k].0 == #[trigger] win(t))
            && imported_spec(rv[k].1, rv[k].1.source->0@) by {
            crate::keyed::lemma_lookup_at(rv, k);
            let x = choose|x: int| 0 <= x < maps.len() && rv[k].0 == #[trigger] maps[x].1;
        }
        lemma_imported_roles_valid(rv, 0);
        reveal_with_fuel(crate::manifest::first_bad_size, 8);
        assert(rv.len() > 0);
        assert(!crate::manifest::all_system(rv)) by {
            assert(!spec_is_system(rv[0].1));
        }
    }
    match pack.validate() {
        Err(e) => {
            return Err(e);
        },
        Ok(()) => {},
    }
    let imp = Import { pack, mappings, unmatched, scheme_file, source: src };
    assert(import_view(imp).0 == maps);
    assert(imported_pack(imp.pack, maps, name@));
    // The import is the specified one, part by part.
    assert(spec is Ok);
    assert(spec->Ok_0.0 == maps);
    assert(spec->Ok_0.1 == import_view(imp).1);
    assert(spec->Ok_0.2 == import_view(imp).2);
    assert(spec->Ok_0.3 == import_view(imp).3);
    Ok(imp)
}

proof fn lemma_insert_natural_len(s: Seq<Seq<char>>, x: Seq<char>)
    ensures
        insert_natural(s, x).len() == s.len() + 1,
    decreases s.len(),
{
    if s.len() > 0 && natural_lt(x, s.last()) {
        lemma_insert_natural_len(s.drop_last(), x);
    }
}

proof fn lemma_sort_natural_len(s: Seq<Seq<char>>)
    ensures
        sort_natural(s).len() == s.len(),
    decreases s.len(),
{
    if s.len() > 0 {
        lemma_sort_natural_len(s.drop_last());
        lemma_insert_natural_len(sort_natural(s.drop_last()), s.last());
    }
}

/// Each character of `s`: ASCII letters, digits and `-` as they are, anything
/// else as `-`.
pub open spec fn sanitized_chars(s: Seq<char>) -> Seq<char>
    decreases s.len(),
{
    if s.len() == 0 {
        Seq::empty()
    } else {
        sanitized_chars(s.drop_last()).push(
            if crate::apply::is_alnum(s.last()) || s.last() == '-' {
                s.last()
            } else {
                '-'
            },
        )
    }
}

/// A folder name for an imported pack made from `name`: ASCII letters,
/// digits and `-` kept, anything else as `-`, without leading or trailing
/// `-`; `imported-pack` when nothing is left.
pub open spec fn spec_sanitize(name: Seq<char>) -> Seq<char> {
    if trim_ch(sanitized_chars(name), '-').len() == 0 {
        "imported-pack"@
    } else {
        trim_ch(sanitized_chars(name), '-')
    }
}

proof fn lemma_sanitized_chars_safe(s: Seq<char>)
    ensures
        sanitized_chars(s).len() == s.len(),
        forall|i: int|
            0 <= i < sanitized_chars(s).len() ==> crate::apply::is_alnum(#[trigger] sanitized_chars(s)[i])
                || sanitized_chars(s)[i] == '-',
    decreases s.len(),
{
    if s.len() > 0 {
        lemma_sanitized_chars_safe(s.drop_last());
        assert forall|i: int| 0 <= i < sanitized_chars(s).len() implies crate::apply::is_alnum(
            #[trigger] sanitized_chars(s)[i],
        ) || sanitized_chars(s)[i] == '-' by {
            if i < s.len() - 1 {
                assert(sanitized_chars(s)[i] == sanitized_chars(s.drop_last())[i]);
            }
        }
    }
}

/// A folder name made for an imported pack is never empty and holds only
/// ASCII letters, digits and `-`, so it cannot reach outside the folder it is
/// placed in.
pub proof fn lemma_sanitize_is_safe(name: Seq<char>)
    ensures
        spec_sanitize(name).len() > 0,
        forall|i: int|
            0 <= i < spec_sanitize(name).len() ==> crate::apply::is_alnum(#[trigger] spec_sanitize(name)[i])
                || spec_sanitize(name)[i] == '-',
{
    let t = sanitized_chars(name);
    lemma_sanitized_chars_safe(name);
    crate::text::lemma_lead_ch_bounds(t, '-', 0);
    let lo = crate::text::lead_ch(t, '-', 0);
    crate::text::lemma_trail_ch_bounds(t, '-', t.len() as int, lo);
    if trim_ch(t, '-').len() > 0 {
        assert forall|i: int| 0 <= i < spec_sanitize(name).len() implies crate::apply::is_alnum(
            #[trigger] spec_sanitize(name)[i],
        ) || spec_sanitize(name)[i] == '-' by {
            assert(spec_sanitize(name)[i] == t[lo + i]);
        }
    } else {
        reveal_strlit("imported-pack");
    }
}

/// A folder name for an imported pack (see `spec_sanitize`).
pub fn sanitize(name: &str) -> (r: String)
    ensures
        r@ == spec_sanitize(name@),
{
    let cs = chars_of(name);
    let mut out: Vec<char> = Vec::new();
    let mut i: usize = 0;
    assert(cs@.take(0) =~= Seq::<char>::empty());
    while i < cs.len()
        invariant
            0 <= i <= cs@.len(),
            cs@ == name@,
            out@ == sanitized_chars(cs@.take(i as int)),
        decreases cs@.len() - i,
    {
        let c = cs[i];
        let keep = ('0' <= c && c <= '9') || ('a' <= c && c <= 'z') || ('A' <= c && c <= 'Z') || c == '-';
        if keep {
            out.push(c);
        } else {
            out.push('-');
        }
        assert(cs@.take(i + 1).drop_last() =~= cs@.take(i as int));
        i = i + 1;
    }
    assert(cs@.take(cs@.len() as int) =~= cs@);
    let t = trim_matches(out.as_slice(), '-');
    if t.len() == 0 {
        "imported-pack".to_owned()
    } else {
        crate::text::string_of(t.as_slice())
    }
}

} // verus!
