//! The values under `HKCU\Control Panel\Cursors`, as plain data.
//!
//! The application reads and writes the registry; this module decides what to
//! write there, decodes what was read, and keeps captured snapshots in order.
//! Everything is per-user: no admin rights, and nothing under `C:\Windows`.
use crate::bytes::{le32, push_u32};
use crate::error::{Error, ErrorView};
use crate::keyed::{lookup, NameMap};
use crate::manifest::spec_roles;
use crate::text::{chars_of, eq_ignore_case, lex_lt, str_eq_ignore_ascii_case, string_of};
use crate::utf16::{decode_units, decode_utf16, encode_utf16, push_units, units_bytes, units_from_bytes, units_of, utf16};
use vstd::prelude::*;

verus! {

/// The key the cursors live under, below `HKEY_CURRENT_USER`.
pub const CURSORS_KEY: &'static str = "Control Panel\\Cursors";

/// The key installed schemes are registered under.
pub const SCHEMES_KEY: &'static str = "Control Panel\\Cursors\\Schemes";

/// `Scheme Source`: no scheme; Windows defaults.
pub const SCHEME_SOURCE_NONE: u32 = 0;

/// `Scheme Source`: a user-defined scheme, which is what is installed.
pub const SCHEME_SOURCE_USER: u32 = 1;

/// `Scheme Source`: a scheme that shipped with Windows.
pub const SCHEME_SOURCE_SYSTEM: u32 = 2;

/// `REG_SZ`: a string.
pub const REG_SZ: u32 = 1;

/// `REG_EXPAND_SZ`: a string with environment references.
pub const REG_EXPAND_SZ: u32 = 2;

/// `REG_DWORD`: a little-endian 32-bit number.
pub const REG_DWORD: u32 = 4;

/// `REG_DWORD_BIG_ENDIAN`: a big-endian 32-bit number.
pub const REG_DWORD_BIG_ENDIAN: u32 = 5;

/// `REG_MULTI_SZ`: strings separated by NULs.
pub const REG_MULTI_SZ: u32 = 7;

/// The value type written for a role's path.
pub const OUR_PATH_TYPE: u32 = 1;

/// The value type written for numbers.
pub const OUR_DWORD_TYPE: u32 = 4;

/// A string in lowercase, by the Unicode case mapping `str::to_lowercase`
/// applies.
pub uninterp spec fn lowercase(s: Seq<char>) -> Seq<char>;

/// `str::to_lowercase`: the string in lowercase, by the Unicode case mapping.
#[verifier::external_body]
pub(crate) fn to_lowercase(s: &str) -> (r: String)
    ensures
        r@ == lowercase(s@),
{
    s.to_lowercase()
}

/// One registry value captured exactly as stored, so a restore is
/// byte-identical.
#[derive(Debug, Clone, PartialEq, Eq)]
pub struct RawValue {
    pub name: String,
    /// The `REG_*` type code.
    pub vtype: u32,
    pub bytes: Vec<u8>,
}

/// A value taken as name, type and bytes.
pub open spec fn value_view(v: RawValue) -> (Seq<char>, u32, Seq<u8>) {
    (v.name@, v.vtype, v.bytes@)
}

/// Values taken as names, types and bytes.
pub open spec fn values_view(v: Seq<RawValue>) -> Seq<(Seq<char>, u32, Seq<u8>)> {
    Seq::new(v.len(), |i: int| value_view(v[i]))
}

/// A complete capture of the cursors key.
#[derive(Debug, Clone, PartialEq, Eq)]
pub struct Snapshot {
    /// When it was taken, as seconds since the epoch, for the UI.
    pub taken: String,
    pub values: Vec<RawValue>,
}

/// The index of the first value from `i` on whose name equals `name`
/// ignoring ASCII case.
pub open spec fn find_value(vs: Seq<(Seq<char>, u32, Seq<u8>)>, name: Seq<char>, i: int) -> Option<int>
    decreases vs.len() - i,
{
    if i < 0 || i >= vs.len() {
        None
    } else if eq_ignore_case(vs[i].0, name) {
        Some(i)
    } else {
        find_value(vs, name, i + 1)
    }
}

/// The lowercase names of `vs` below index `n`, as a set.
pub open spec fn lower_names(vs: Seq<(Seq<char>, u32, Seq<u8>)>, n: int) -> Set<Seq<char>> {
    Set::new(|k: Seq<char>| exists|i: int| 0 <= i < n && 0 <= i < vs.len() && lowercase(vs[i].0) == k)
}

/// A set of names, kept in order.
pub type NameSet = NameMap<()>;

impl Snapshot {
    /// The value named `name`, ignoring ASCII case.
    pub fn get(&self, name: &str) -> (r: Option<&RawValue>)
        ensures
            r is None <==> find_value(values_view(self.values@), name@, 0) is None,
            r matches Some(v) ==> *v == self.values@[find_value(values_view(self.values@), name@, 0)->0],
    {
        let ghost vs = values_view(self.values@);
        let mut i: usize = 0;
        while i < self.values.len()
            invariant
                0 <= i <= self.values@.len(),
                vs == values_view(self.values@),
                find_value(vs, name@, 0) == find_value(vs, name@, i as int),
            decreases self.values@.len() - i,
        {
            if str_eq_ignore_ascii_case(self.values[i].name.as_str(), name) {
                return Some(&self.values[i]);
            }
            i = i + 1;
        }
        None
    }

    /// Value names, lowercased, as a set.
    pub fn names(&self) -> (r: NameSet)
        ensures
            crate::keyed::as_map(r@).dom() == lower_names(values_view(self.values@), self.values@.len() as int),
    {
        let ghost vs = values_view(self.values@);
        let mut out: NameSet = NameMap::new();
        let mut i: usize = 0;
        assert(crate::keyed::as_map(out@).dom() =~= lower_names(vs, 0));
        while i < self.values.len()
            invariant
                0 <= i <= self.values@.len(),
                vs == values_view(self.values@),
                crate::keyed::as_map(out@).dom() == lower_names(vs, i as int),
            decreases self.values@.len() - i,
        {
            let l = to_lowercase(self.values[i].name.as_str());
            let ghost before = crate::keyed::as_map(out@).dom();
            out.insert(l, ());
            assert(crate::keyed::as_map(out@).dom() =~= lower_names(vs, i + 1)) by {
                assert(vs[i as int].0 == self.values@[i as int].name@);
            }
            i = i + 1;
        }
        out
    }
}

/// The bytes Windows stores for a string: its UTF-16 code units and a
/// terminating zero unit, two little-endian bytes each.
pub open spec fn sz_bytes(s: Seq<char>) -> Seq<u8> {
    units_bytes(utf16(s).push(0u16))
}

/// The stored bytes of the string `s` (see `sz_bytes`).
pub fn encode_sz(s: &str) -> (r: Vec<u8>)
    ensures
        r@ == sz_bytes(s@),
{
    let mut units = encode_utf16(s);
    units.push(0);
    let mut out: Vec<u8> = Vec::new();
    push_units(&mut out, units.as_slice());
    assert(out@ =~= sz_bytes(s@));
    out
}

/// `s` without trailing NUL characters.
pub open spec fn strip_nuls(s: Seq<char>) -> Seq<char>
    decreases s.len(),
{
    if s.len() > 0 && s.last() == '\0' {
        strip_nuls(s.drop_last())
    } else {
        s
    }
}

/// `s` with every NUL turned into a line break.
pub open spec fn nuls_to_newlines(s: Seq<char>) -> Seq<char> {
    s.map_values(|c: char| if c == '\0' { '\n' } else { c })
}

/// The string a value of type `vtype` holding `bytes` reads as: for the string
/// types, its code units decoded (unpaired surrogates replaced) without
/// trailing NULs, and for `REG_MULTI_SZ` with the separating NULs as line
/// breaks; `None` for any other type.
pub open spec fn spec_string_value(vtype: u32, bytes: Seq<u8>) -> Option<Seq<char>> {
    if vtype == REG_SZ || vtype == REG_EXPAND_SZ || vtype == REG_MULTI_SZ {
        let s = strip_nuls(decode_utf16(units_of(bytes)));
        if vtype == REG_MULTI_SZ {
            Some(nuls_to_newlines(s))
        } else {
            Some(s)
        }
    } else {
        None
    }
}

/// Read a value as a string (see `spec_string_value`).
pub fn string_value(v: &RawValue) -> (r: Result<String, Error>)
    ensures
        r is Ok <==> spec_string_value(v.vtype, v.bytes@) is Some,
        r matches Ok(s) ==> spec_string_value(v.vtype, v.bytes@) == Some(s@),
        r matches Err(e) ==> e@ == (ErrorView::BadValueType { name: v.name@, vtype: v.vtype }),
{
    if !(v.vtype == REG_SZ || v.vtype == REG_EXPAND_SZ || v.vtype == REG_MULTI_SZ) {
        return Err(Error::BadValueType { name: v.name.clone(), vtype: v.vtype });
    }
    let units = units_from_bytes(v.bytes.as_slice());
    let mut cs = decode_units(units.as_slice());
    let ghost full = cs@;
    while cs.len() > 0 && cs[cs.len() - 1] == '\0'
        invariant
            strip_nuls(full) == strip_nuls(cs@),
        decreases cs@.len(),
    {
        let ghost before = cs@;
        cs.pop();
        assert(cs@ == before.drop_last());
    }
    if v.vtype == REG_MULTI_SZ {
        let mut i: usize = 0;
        let ghost stripped = cs@;
        while i < cs.len()
            invariant
                0 <= i <= cs@.len(),
                cs@.len() == stripped.len(),
                forall|k: int| 0 <= k < i ==> cs@[k] == nuls_to_newlines(stripped)[k],
                forall|k: int| i <= k < cs@.len() ==> cs@[k] == stripped[k],
            decreases cs@.len() - i,
        {
            if cs[i] == '\0' {
                cs.set(i, '\n');
            }
            i = i + 1;
        }
        assert(cs@ =~= nuls_to_newlines(stripped));
    }
    Ok(string_of(cs.as_slice()))
}

/// The value that points `role` at the cursor file `path`; an empty path
/// means the Windows default.
pub fn set_role(role: &str, path: &str) -> (r: RawValue)
    ensures
        value_view(r) == (role@, REG_SZ, sz_bytes(path@)),
{
    RawValue { name: role.to_owned(), vtype: REG_SZ, bytes: encode_sz(path) }
}

/// The path `role` points at in `snap`, if it has a value.
pub fn get_role(snap: &Snapshot, role: &str) -> (r: Result<Option<String>, Error>)
    ensures
        find_value(values_view(snap.values@), role@, 0) is None ==> r == Ok::<
            Option<String>,
            Error,
        >(None),
        find_value(values_view(snap.values@), role@, 0) matches Some(i) ==> {
            let v = snap.values@[i];
            &&& r is Ok <==> spec_string_value(v.vtype, v.bytes@) is Some
            &&& r matches Ok(o) ==> o matches Some(s) && spec_string_value(v.vtype, v.bytes@) == Some(s@)
            &&& r matches Err(e) ==> e@ == (ErrorView::BadValueType { name: v.name@, vtype: v.vtype })
        },
{
    match snap.get(role) {
        None => Ok(None),
        Some(v) => match string_value(v) {
            Ok(s) => Ok(Some(s)),
            Err(e) => Err(e),
        },
    }
}

/// The value that names the scheme in Settings: the key's default value.
pub fn set_scheme_name(name: &str) -> (r: RawValue)
    ensures
        value_view(r) == (Seq::<char>::empty(), REG_SZ, sz_bytes(name@)),
{
    let r = RawValue { name: String::new(), vtype: REG_SZ, bytes: encode_sz(name) };
    r
}

/// The four little-endian bytes of `v`.
fn dword_bytes(v: u32) -> (r: Vec<u8>)
    ensures
        r@ == le32(v),
{
    let mut out: Vec<u8> = Vec::new();
    push_u32(&mut out, v);
    assert(out@ =~= le32(v));
    out
}

/// The `Scheme Source` value.
pub fn set_scheme_source(source: u32) -> (r: RawValue)
    ensures
        value_view(r) == ("Scheme Source"@, REG_DWORD, le32(source)),
{
    RawValue { name: "Scheme Source".to_owned(), vtype: REG_DWORD, bytes: dword_bytes(source) }
}

/// The `CursorBaseSize` value.
pub fn set_base_size(px: u32) -> (r: RawValue)
    ensures
        value_view(r) == ("CursorBaseSize"@, REG_DWORD, le32(px)),
{
    RawValue { name: "CursorBaseSize".to_owned(), vtype: REG_DWORD, bytes: dword_bytes(px) }
}

/// The number a value of type `vtype` holding `bytes` reads as: exactly four
/// bytes, little-endian for `REG_DWORD` and big-endian for
/// `REG_DWORD_BIG_ENDIAN`; `None` otherwise.
pub open spec fn spec_dword_value(vtype: u32, bytes: Seq<u8>) -> Option<u32> {
    if bytes.len() != 4 {
        None
    } else if vtype == REG_DWORD {
        Some(crate::bytes::u32_at(bytes, 0))
    } else if vtype == REG_DWORD_BIG_ENDIAN {
        Some((bytes[3] + 256 * bytes[2] + 65536 * bytes[1] + 16777216 * bytes[0]) as u32)
    } else {
        None
    }
}

/// The pointer size Windows uses, from `CursorBaseSize`; 32 when it is absent
/// or not a number.
pub fn get_base_size(snap: &Snapshot) -> (r: u32)
    ensures
        r == match find_value(values_view(snap.values@), "CursorBaseSize"@, 0) {
            Some(i) => match spec_dword_value(snap.values@[i].vtype, snap.values@[i].bytes@) {
                Some(n) => n,
                None => 32u32,
            },
            None => 32u32,
        },
{
    match snap.get("CursorBaseSize") {
        None => 32,
        Some(v) => {
            if v.bytes.len() != 4 {
                32
            } else if v.vtype == REG_DWORD {
                crate::bytes::read_u32(v.bytes.as_slice(), 0)
            } else if v.vtype == REG_DWORD_BIG_ENDIAN {
                v.bytes[3] as u32 + 256 * (v.bytes[2] as u32) + 65536 * (v.bytes[1] as u32)
                    + 16777216 * (v.bytes[0] as u32)
            } else {
                32
            }
        },
    }
}

/// Reading a role back gives the path it was set to, for a path without NUL
/// characters.
pub proof fn lemma_role_round_trip(path: Seq<char>)
    requires
        crate::utf16::no_nul(path),
    ensures
        spec_string_value(REG_SZ, sz_bytes(path)) == Some(path),
{
    lemma_units_round_trip(utf16(path).push(0u16));
    crate::utf16::lemma_decode_utf16_append(path, seq![0u16]);
    assert(utf16(path).push(0u16) =~= utf16(path) + seq![0u16]);
    assert(decode_utf16(seq![0u16]) =~= seq![((0u16 as u32) as char)] + decode_utf16(
        seq![0u16].drop_first(),
    ));
    assert(decode_utf16(seq![0u16].drop_first()) =~= Seq::<char>::empty());
    let d = path + seq![(0u16 as u32) as char];
    assert(((0u16 as u32) as char) == '\0') by {
        vstd::utf8::char_u32_cast('\0', 0u32);
        crate::utf16::lemma_char_code('\0');
    }
    assert(d.drop_last() =~= path);
    if path.len() > 0 {
        assert(path.last() != '\0');
    }
    assert(units_of(sz_bytes(path)) == utf16(path) + seq![0u16]);
    assert(decode_utf16(utf16(path) + seq![0u16]) == d);
    assert(strip_nuls(path) == path);
    assert(strip_nuls(d) == strip_nuls(path));
}

/// Reading back stored code units gives those units.
pub proof fn lemma_units_round_trip(u: Seq<u16>)
    ensures
        units_of(units_bytes(u)) == u,
        units_bytes(u).len() == 2 * u.len(),
    decreases u.len(),
{
    if u.len() > 0 {
        lemma_units_round_trip(u.drop_last());
        let b = units_bytes(u);
        let p = units_bytes(u.drop_last());
        assert(b == p + crate::bytes::le16(u.last()));
        assert forall|i: int| 0 <= i < u.len() implies units_of(b)[i] == u[i] by {
            if i < u.len() - 1 {
                assert(b[2 * i] == p[2 * i] && b[2 * i + 1] == p[2 * i + 1]);
                assert(units_of(p)[i] == u.drop_last()[i]);
            } else {
                assert(b.subrange(2 * i, 2 * i + 2) =~= crate::bytes::le16(u.last()));
                crate::bytes::lemma_le16(u.last(), b, 2 * i);
            }
        }
        assert(units_of(b) =~= u);
    } else {
        assert(units_of(units_bytes(u)) =~= u);
    }
}

/// A value taken as name, type and bytes.
pub type ValueView = (Seq<char>, u32, Seq<u8>);

/// Inserts `x` after every value whose name does not sort after its name.
pub open spec fn insert_value(s: Seq<ValueView>, x: ValueView) -> Seq<ValueView>
    decreases s.len(),
{
    if s.len() == 0 {
        seq![x]
    } else if !lex_lt(x.0, s.last().0) {
        s.push(x)
    } else {
        insert_value(s.drop_last(), x).push(s.last())
    }
}

/// The values ordered by name; values with equal names keep their order.
pub open spec fn sort_values(s: Seq<ValueView>) -> Seq<ValueView>
    decreases s.len(),
{
    if s.len() == 0 {
        s
    } else {
        insert_value(sort_values(s.drop_last()), s.last())
    }
}

proof fn lemma_insert_value_at(s: Seq<ValueView>, x: ValueView, p: int)
    requires
        0 <= p <= s.len(),
        forall|q: int| p < q <= s.len() ==> lex_lt(x.0, #[trigger] s[q - 1].0),
        p == 0 || !lex_lt(x.0, s[p - 1].0),
    ensures
        insert_value(s, x) == s.insert(p, x),
    decreases s.len(),
{
    if s.len() == 0 {
        assert(insert_value(s, x) =~= s.insert(p, x));
    } else if !lex_lt(x.0, s.last().0) {
        if p < s.len() {
            assert(lex_lt(x.0, s[s.len() - 1].0));
        }
        assert(insert_value(s, x) =~= s.insert(p, x));
    } else {
        assert(p < s.len());
        let t = s.drop_last();
        assert forall|q: int| p < q <= t.len() implies lex_lt(x.0, #[trigger] t[q - 1].0) by {
            assert(t[q - 1] == s[q - 1]);
        }
        lemma_insert_value_at(t, x, p);
        assert(insert_value(s, x) =~= s.insert(p, x));
    }
}

/// A capture of the cursors key holding `values`, ordered by name, taken at
/// `taken`.
pub fn snapshot(values: Vec<RawValue>, taken: String) -> (r: Snapshot)
    ensures
        values_view(r.values@) == sort_values(values_view(values@)),
        r.taken == taken,
{
    let ghost all = values_view(values@);
    let mut rest = values;
    let mut out: Vec<RawValue> = Vec::new();
    let ghost mut k: int = 0;
    assert(all.take(0) =~= Seq::<ValueView>::empty());
    assert(values_view(out@) =~= Seq::<ValueView>::empty());
    assert(values_view(rest@) =~= all.skip(0));
    while rest.len() > 0
        invariant
            0 <= k <= all.len(),
            values_view(rest@) == all.skip(k),
            values_view(out@) == sort_values(all.take(k)),
        decreases rest@.len(),
    {
        let ghost rv = rest@;
        assert(values_view(rv).len() == rv.len());
        assert(k < all.len());
        let x = rest.remove(0);
        let ghost xv = value_view(x);
        assert(values_view(rv)[0] == xv);
        assert(all.skip(k)[0] == xv);
        assert(values_view(rest@) =~= values_view(rv).skip(1));
        assert(all.skip(k).skip(1) =~= all.skip(k + 1));
        assert(values_view(rest@) =~= all.skip(k + 1));
        let ghost sorted = values_view(out@);
        let mut p = out.len();
        while p > 0 && crate::text::str_lt(x.name.as_str(), out[p - 1].name.as_str())
            invariant
                0 <= p <= out@.len(),
                sorted == values_view(out@),
                xv == value_view(x),
                forall|q: int| p < q <= sorted.len() ==> lex_lt(xv.0, #[trigger] sorted[q - 1].0),
            decreases p,
        {
            p = p - 1;
        }
        proof {
            lemma_insert_value_at(sorted, xv, p as int);
            assert(all.take(k + 1).drop_last() =~= all.take(k));
            assert(all.take(k + 1).last() == xv);
        }
        out.insert(p, x);
        assert(values_view(out@) =~= sorted.insert(p as int, xv));
        proof {
            k = k + 1;
        }
    }
    assert(all.take(k) =~= all);
    Snapshot { taken, values: out }
}

/// The roles of the table, below index `n`, that `have` holds (by lowercase
/// name), in table order.
pub open spec fn present_upto(have: Set<Seq<char>>, n: int) -> Seq<Seq<char>>
    decreases n,
{
    if n <= 0 {
        Seq::empty()
    } else if have.contains(lowercase(spec_roles()[n - 1].win@)) {
        present_upto(have, n - 1).push(spec_roles()[n - 1].win@)
    } else {
        present_upto(have, n - 1)
    }
}

/// Strings taken as character sequences.
pub open spec fn strings_view(v: Seq<String>) -> Seq<Seq<char>> {
    Seq::new(v.len(), |i: int| v[i]@)
}

/// Role names this Windows install actually has, intersected with the roles
/// known here, in the canonical order.
///
/// `Pin` and `Person` are absent on many installs, so hardcoding the list would
/// create values Windows never reads.
pub fn roles_present(snap: &Snapshot) -> (r: Vec<String>)
    ensures
        strings_view(r@) == present_upto(
            lower_names(values_view(snap.values@), snap.values@.len() as int),
            17,
        ),
{
    let have = snap.names();
    let ghost hs = lower_names(values_view(snap.values@), snap.values@.len() as int);
    let table = crate::manifest::roles();
    let mut out: Vec<String> = Vec::new();
    let mut i: usize = 0;
    assert(strings_view(out@) =~= present_upto(hs, 0));
    while i < 17
        invariant
            0 <= i <= 17,
            table@ == spec_roles(),
            crate::keyed::as_map(have@).dom() == hs,
            strings_view(out@) == present_upto(hs, i as int),
        decreases 17 - i,
    {
        let l = to_lowercase(table[i].win);
        if have.contains_key(l.as_str()) {
            let ghost before = strings_view(out@);
            out.push(table[i].win.to_owned());
            assert(strings_view(out@) =~= before.push(spec_roles()[i as int].win@));
        }
        i = i + 1;
    }
    out
}

/// What restoring `snap` over the current values `current` deletes: each
/// current value whose lowercase name the snapshot does not hold, in order.
pub open spec fn deletions(current: Seq<ValueView>, wanted: Set<Seq<char>>, n: int) -> Seq<Seq<char>>
    decreases n,
{
    if n <= 0 {
        Seq::empty()
    } else if !wanted.contains(lowercase(current[n - 1].0)) {
        deletions(current, wanted, n - 1).push(current[n - 1].0)
    } else {
        deletions(current, wanted, n - 1)
    }
}

/// The values to delete so that, once every value of `snap` is written back,
/// the cursors key holds exactly what `snap` captured.
pub fn restore_deletions(snap: &Snapshot, current: &Snapshot) -> (r: Vec<String>)
    ensures
        strings_view(r@) == deletions(
            values_view(current.values@),
            lower_names(values_view(snap.values@), snap.values@.len() as int),
            current.values@.len() as int,
        ),
{
    let wanted = snap.names();
    let ghost ws = lower_names(values_view(snap.values@), snap.values@.len() as int);
    let ghost cv = values_view(current.values@);
    let mut out: Vec<String> = Vec::new();
    let mut i: usize = 0;
    assert(strings_view(out@) =~= deletions(cv, ws, 0));
    while i < current.values.len()
        invariant
            0 <= i <= current.values@.len(),
            cv == values_view(current.values@),
            crate::keyed::as_map(wanted@).dom() == ws,
            strings_view(out@) == deletions(cv, ws, i as int),
        decreases current.values@.len() - i,
    {
        let l = to_lowercase(current.values[i].name.as_str());
        if !wanted.contains_key(l.as_str()) {
            let ghost before = strings_view(out@);
            out.push(current.values[i].name.clone());
            assert(strings_view(out@) =~= before.push(cv[i as int].0));
        }
        i = i + 1;
    }
    out
}

/// The path a scheme gives `role`: that of the first pair named like it,
/// ignoring ASCII case, or empty.
pub open spec fn scheme_path(paths: Seq<(Seq<char>, Seq<char>)>, role: Seq<char>, i: int) -> Seq<char>
    decreases paths.len() - i,
{
    if i < 0 || i >= paths.len() {
        Seq::empty()
    } else if eq_ignore_case(paths[i].0, role) {
        paths[i].1
    } else {
        scheme_path(paths, role, i + 1)
    }
}

/// Whether some present role is named `role`, ignoring ASCII case.
pub open spec fn is_present(present: Seq<Seq<char>>, role: Seq<char>) -> bool {
    exists|i: int| 0 <= i < present.len() && eq_ignore_case(#[trigger] present[i], role)
}

/// The scheme string for the roles of the table below `n` that are present,
/// in the order Windows fixes, each followed by a comma.
pub open spec fn scheme_parts(paths: Seq<(Seq<char>, Seq<char>)>, present: Seq<Seq<char>>, n: int) -> Seq<char>
    decreases n,
{
    if n <= 0 {
        Seq::empty()
    } else if is_present(present, spec_roles()[n - 1].win@) {
        scheme_parts(paths, present, n - 1) + scheme_path(paths, spec_roles()[n - 1].win@, 0) + seq![',']
    } else {
        scheme_parts(paths, present, n - 1)
    }
}

/// The value registering a scheme under `Cursors\Schemes`: the paths of the
/// present roles, in the order Windows fixes, joined by commas (empty for a
/// role the scheme leaves out).
pub open spec fn spec_scheme_value(paths: Seq<(Seq<char>, Seq<char>)>, present: Seq<Seq<char>>) -> Seq<char> {
    let s = scheme_parts(paths, present, 17);
    if s.len() == 0 {
        s
    } else {
        s.drop_last()
    }
}

/// Pairs of strings taken as character sequences.
pub open spec fn pairs_view(v: Seq<(String, String)>) -> Seq<(Seq<char>, Seq<char>)> {
    Seq::new(v.len(), |i: int| (v[i].0@, v[i].1@))
}

/// The value registering a scheme (see `spec_scheme_value`), given each role
/// with its path and the roles present on this install.
pub fn scheme_value(paths: &[(String, String)], present: &[String]) -> (r: String)
    ensures
        r@ == spec_scheme_value(pairs_view(paths@), strings_view(present@)),
{
    let ghost pv = pairs_view(paths@);
    let ghost rv = strings_view(present@);
    let table = crate::manifest::roles();
    let mut out: Vec<char> = Vec::new();
    let mut i: usize = 0;
    assert(out@ =~= scheme_parts(pv, rv, 0));
    while i < 17
        invariant
            0 <= i <= 17,
            table@ == spec_roles(),
            pv == pairs_view(paths@),
            rv == strings_view(present@),
            out@ == scheme_parts(pv, rv, i as int),
        decreases 17 - i,
    {
        let win = table[i].win;
        let mut here = false;
        let mut k: usize = 0;
        while k < present.len()
            invariant
                0 <= k <= present@.len(),
                rv == strings_view(present@),
                here == exists|j: int| 0 <= j < k && eq_ignore_case(#[trigger] rv[j], win@),
            decreases present@.len() - k,
        {
            assert(rv[k as int] == present@[k as int]@);
            if str_eq_ignore_ascii_case(present[k].as_str(), win) {
                here = true;
            }
            k = k + 1;
        }
        if here {
            let mut j: usize = 0;
            while j < paths.len() && !str_eq_ignore_ascii_case(paths[j].0.as_str(), win)
                invariant
                    0 <= j <= paths@.len(),
                    pv == pairs_view(paths@),
                    scheme_path(pv, win@, 0) == scheme_path(pv, win@, j as int),
                decreases paths@.len() - j,
            {
                j = j + 1;
            }
            if j < paths.len() {
                crate::text::append(&mut out, paths[j].1.as_str());
            }
            out.push(',');
        }
        i = i + 1;
    }
    if out.len() > 0 {
        out.pop();
    }
    string_of(out.as_slice())
}

/// `s` cut at every comma into its fields: the text between commas, with an
/// empty field where two commas meet or one begins or ends `s`.
pub open spec fn comma_fields(s: Seq<char>) -> Seq<Seq<char>>
    decreases s.len(),
{
    if s.len() == 0 {
        seq![Seq::<char>::empty()]
    } else {
        let f = comma_fields(s.drop_last());
        if s.last() == ',' {
            f.push(Seq::empty())
        } else {
            f.update(f.len() - 1, f.last().push(s.last()))
        }
    }
}

/// The roles of the table below index `n` that `present` names, ignoring
/// ASCII case, in table order.
pub open spec fn present_roles(present: Seq<Seq<char>>, n: int) -> Seq<Seq<char>>
    decreases n,
{
    if n <= 0 {
        Seq::empty()
    } else if exists|i: int| 0 <= i < present.len() && eq_ignore_case(#[trigger] present[i], spec_roles()[n - 1].win@) {
        present_roles(present, n - 1).push(spec_roles()[n - 1].win@)
    } else {
        present_roles(present, n - 1)
    }
}

/// `p` is the path `paths` gives `role`: that of the first pair named like
/// it, ignoring ASCII case, or empty when no pair is.
pub open spec fn paired_with(paths: Seq<(Seq<char>, Seq<char>)>, role: Seq<char>, p: Seq<char>) -> bool {
    ||| exists|i: int|
        0 <= i < paths.len() && eq_ignore_case(#[trigger] paths[i].0, role) && (forall|j: int|
            0 <= j < i ==> !eq_ignore_case(#[trigger] paths[j].0, role)) && p == paths[i].1
    ||| (forall|i: int| 0 <= i < paths.len() ==> !eq_ignore_case(#[trigger] paths[i].0, role)) && p.len() == 0
}

/// Text holding no comma.
pub open spec fn comma_free(s: Seq<char>) -> bool {
    forall|i: int| 0 <= i < s.len() ==> s[i] != ','
}

proof fn lemma_comma_fields_nonempty(s: Seq<char>)
    ensures
        comma_fields(s).len() >= 1,
    decreases s.len(),
{
    if s.len() > 0 {
        lemma_comma_fields_nonempty(s.drop_last());
    }
}

/// Appending comma-free text extends the last field.
proof fn lemma_comma_fields_append(s: Seq<char>, x: Seq<char>)
    requires
        comma_free(x),
    ensures
        comma_fields(s + x) == comma_fields(s).update(
            comma_fields(s).len() - 1,
            comma_fields(s).last() + x,
        ),
    decreases x.len(),
{
    lemma_comma_fields_nonempty(s);
    let f = comma_fields(s);
    if x.len() == 0 {
        assert(s + x =~= s);
        assert(f.last() + x =~= f.last());
        assert(f.update(f.len() - 1, f.last() + x) =~= f);
    } else {
        let y = x.drop_last();
        lemma_comma_fields_append(s, y);
        assert((s + x).drop_last() =~= s + y);
        assert((s + x).last() == x.last());
        let g = comma_fields(s + y);
        assert(g.last() == f.last() + y);
        assert(g.last().push(x.last()) =~= f.last() + x);
        assert(g.update(g.len() - 1, g.last().push(x.last())) =~= f.update(f.len() - 1, f.last() + x));
    }
}

/// The path a scheme gives a role is the one it is paired with.
proof fn lemma_scheme_path_paired(paths: Seq<(Seq<char>, Seq<char>)>, role: Seq<char>, i: int)
    requires
        0 <= i <= paths.len(),
        forall|j: int| 0 <= j < i ==> !eq_ignore_case(#[trigger] paths[j].0, role),
    ensures
        paired_with(paths, role, scheme_path(paths, role, i)),
    decreases paths.len() - i,
{
    if i < paths.len() && !eq_ignore_case(paths[i].0, role) {
        lemma_scheme_path_paired(paths, role, i + 1);
    } else if i < paths.len() {
        assert(eq_ignore_case(paths[i].0, role));
    }
}

/// The fields of the scheme text for the table below `n`: the path of each
/// present role, then the empty field after the last comma.
proof fn lemma_parts_fields(paths: Seq<(Seq<char>, Seq<char>)>, present: Seq<Seq<char>>, n: int)
    requires
        0 <= n <= 17,
        forall|i: int| 0 <= i < paths.len() ==> comma_free(#[trigger] paths[i].1),
    ensures
        comma_fields(scheme_parts(paths, present, n)).len() == present_roles(present, n).len() + 1,
        comma_fields(scheme_parts(paths, present, n)).last().len() == 0,
        forall|k: int|
            0 <= k < present_roles(present, n).len() ==> paired_with(
                paths,
                #[trigger] present_roles(present, n)[k],
                comma_fields(scheme_parts(paths, present, n))[k],
            ),
    decreases n,
{
    if n > 0 {
        lemma_parts_fields(paths, present, n - 1);
        let win = spec_roles()[n - 1].win@;
        if is_present(present, win) {
            let prev = scheme_parts(paths, present, n - 1);
            let x = scheme_path(paths, win, 0);
            lemma_scheme_path_paired(paths, win, 0);
            assert(comma_free(x)) by {
                if exists|i: int|
                    0 <= i < paths.len() && eq_ignore_case(#[trigger] paths[i].0, win) && (forall|j: int|
                        0 <= j < i ==> !eq_ignore_case(#[trigger] paths[j].0, win)) && x == paths[i].1 {
                    let i = choose|i: int|
                        0 <= i < paths.len() && eq_ignore_case(#[trigger] paths[i].0, win) && (forall|j: int|
                            0 <= j < i ==> !eq_ignore_case(#[trigger] paths[j].0, win)) && x == paths[i].1;
                    assert(comma_free(paths[i].1));
                }
            }
            lemma_comma_fields_append(prev, x);
            let f = comma_fields(prev);
            let g = comma_fields(prev + x);
            assert(scheme_parts(paths, present, n) == (prev + x).push(','));
            assert((prev + x).push(',').drop_last() =~= prev + x);
            assert(f.last() + x =~= x);
            let r = present_roles(present, n - 1);
            assert(present_roles(present, n) == r.push(win));
            assert forall|k: int| 0 <= k < r.len() + 1 implies paired_with(
                paths,
                #[trigger] r.push(win)[k],
                comma_fields(scheme_parts(paths, present, n))[k],
            ) by {
                if k < r.len() {
                    assert(r.push(win)[k] == r[k]);
                }
            }
        }
    }
}

/// The scheme value lists, comma-separated, one field for every role of the
/// table that is present on this install, in table order: the path given to
/// that role, or an empty field when the scheme gives it none, so no role
/// takes another's cursor. (Paths holding commas could not be told apart, and
/// with no role present there is no field to speak of.)
pub proof fn lemma_scheme_value_fields(paths: Seq<(Seq<char>, Seq<char>)>, present: Seq<Seq<char>>)
    requires
        forall|i: int| 0 <= i < paths.len() ==> comma_free(#[trigger] paths[i].1),
        present_roles(present, 17).len() > 0,
    ensures
        comma_fields(spec_scheme_value(paths, present)).len() == present_roles(present, 17).len(),
        forall|k: int|
            0 <= k < present_roles(present, 17).len() ==> paired_with(
                paths,
                #[trigger] present_roles(present, 17)[k],
                comma_fields(spec_scheme_value(paths, present))[k],
            ),
{
    lemma_parts_fields(paths, present, 17);
    let s = scheme_parts(paths, present, 17);
    let f = comma_fields(s);
    lemma_comma_fields_nonempty(s);
    if s.len() == 0 {
        assert(f =~= seq![Seq::<char>::empty()]);
        assert(false);
    }
    if s.last() != ',' {
        let f0 = comma_fields(s.drop_last());
        lemma_comma_fields_nonempty(s.drop_last());
        assert(f == f0.update(f0.len() - 1, f0.last().push(s.last())));
        assert(f.last() == f0.last().push(s.last()));
        assert(false);
    }
    assert(spec_scheme_value(paths, present) == s.drop_last());
    assert(s =~= s.drop_last().push(','));
    assert(comma_fields(s.drop_last()) =~= f.drop_last());
}

} // verus!

