//! Restore points, and the offline script that works without the application.
//!
//! A restore point is a snapshot of the cursors key taken before the first
//! change. The script written beside it puts that snapshot back using only
//! `reg.exe`, so the defaults come back even if the application will not
//! start, or has been deleted.
use crate::error::{Error, ErrorView};
use crate::keyed::NameMap;
use crate::manifest::spec_roles;
use crate::registry::{
    lower_names, lowercase, restore_deletions, deletions, strings_view, value_view, values_view,
    RawValue, Snapshot, ValueView, REG_DWORD, REG_EXPAND_SZ, REG_SZ,
};
use crate::text::{chars_of, decimal, decimal_chars, string_of};
use crate::utf16::{decode_units, decode_utf16, units_from_bytes, units_of};
use vstd::prelude::*;

verus! {

/// `root` joined with the file name `name`, with a `\` between them unless
/// `root` is empty or already ends in a separator.
pub open spec fn join_path(root: Seq<char>, name: Seq<char>) -> Seq<char> {
    if root.len() == 0 {
        name
    } else if root.last() == '\\' || root.last() == '/' {
        root + name
    } else {
        root + seq!['\\'] + name
    }
}

/// `root` joined with `name` (see `join_path`).
pub fn join(root: &str, name: &str) -> (r: String)
    ensures
        r@ == join_path(root@, name@),
{
    let mut out = chars_of(root);
    let n = out.len();
    if n > 0 && !(out[n - 1] == '\\' || out[n - 1] == '/') {
        out.push('\\');
    }
    let tail = chars_of(name);
    let joined = crate::text::concat(out.as_slice(), tail.as_slice());
    string_of(joined.as_slice())
}

/// The very first snapshot, taken before anything changed, under the data
/// folder `root`. Never overwritten.
pub fn original_path(root: &str) -> (r: String)
    ensures
        r@ == join_path(root@, "restore-point.json"@),
{
    join(root, "restore-point.json")
}

/// The state immediately before the most recent apply, for one-step undo.
pub fn previous_path(root: &str) -> (r: String)
    ensures
        r@ == join_path(root@, "previous.json"@),
{
    join(root, "previous.json")
}

/// The script that restores the defaults without needing the application.
pub fn script_path(root: &str) -> (r: String)
    ensures
        r@ == join_path(root@, "Restore-Default-Cursors.cmd"@),
{
    join(root, "Restore-Default-Cursors.cmd")
}

/// The code units before the first zero unit.
pub open spec fn until_zero(u: Seq<u16>) -> Seq<u16>
    decreases u.len(),
{
    if u.len() == 0 {
        u
    } else if u[0] == 0 {
        Seq::empty()
    } else {
        seq![u[0]] + until_zero(u.drop_first())
    }
}

/// The text of a `REG_SZ` / `REG_EXPAND_SZ` payload: its little-endian code
/// units up to the first zero unit, decoded with unpaired surrogates replaced.
pub open spec fn spec_decode_sz(bytes: Seq<u8>) -> Seq<char> {
    decode_utf16(until_zero(units_of(bytes)))
}

/// Decode a `REG_SZ` / `REG_EXPAND_SZ` payload (UTF-16LE, usually null
/// terminated).
pub fn decode_sz(bytes: &[u8]) -> (r: String)
    ensures
        r@ == spec_decode_sz(bytes@),
{
    let units = units_from_bytes(bytes);
    let mut n: usize = 0;
    while n < units.len() && units[n] != 0
        invariant
            0 <= n <= units@.len(),
            forall|k: int| 0 <= k < n ==> units@[k] != 0,
        decreases units@.len() - n,
    {
        n = n + 1;
    }
    let mut head: Vec<u16> = Vec::new();
    let mut i: usize = 0;
    while i < n
        invariant
            0 <= i <= n,
            n <= units@.len(),
            head@ =~= units@.take(i as int),
        decreases n - i,
    {
        head.push(units[i]);
        i = i + 1;
    }
    proof {
        lemma_until_zero(units@, n as int);
    }
    string_of(decode_units(head.as_slice()).as_slice())
}

proof fn lemma_until_zero(u: Seq<u16>, n: int)
    requires
        0 <= n <= u.len(),
        forall|k: int| 0 <= k < n ==> u[k] != 0,
        n == u.len() || u[n] == 0,
    ensures
        until_zero(u) == u.take(n),
    decreases u.len(),
{
    if u.len() > 0 && u[0] != 0 {
        lemma_until_zero(u.drop_first(), n - 1);
        assert(until_zero(u) =~= u.take(n));
    } else if u.len() > 0 {
        assert(u.take(n) =~= Seq::<u16>::empty());
    }
}

/// A text written as a `REG_SZ` reads back the same from its payload, for a
/// text without NUL characters.
pub proof fn lemma_decode_sz_round_trip(s: Seq<char>)
    requires
        crate::utf16::no_nul(s),
    ensures
        spec_decode_sz(crate::registry::sz_bytes(s)) == s,
{
    let u = crate::utf16::utf16(s);
    crate::registry::lemma_units_round_trip(u.push(0u16));
    crate::utf16::lemma_utf16_no_zero(s);
    lemma_until_zero(u.push(0u16), u.len() as int);
    assert(u.push(0u16).take(u.len() as int) =~= u);
    crate::utf16::lemma_decode_utf16(s);
}

/// The little-endian `u32` in the first four bytes, if there are four.
pub open spec fn spec_decode_dword(bytes: Seq<u8>) -> Option<u32> {
    if bytes.len() >= 4 {
        Some(crate::bytes::u32_at(bytes, 0))
    } else {
        None
    }
}

/// The little-endian `u32` in the first four bytes, if there are four.
pub fn decode_dword(bytes: &[u8]) -> (r: Option<u32>)
    ensures
        r == spec_decode_dword(bytes@),
{
    if bytes.len() >= 4 {
        Some(crate::bytes::read_u32(bytes, 0))
    } else {
        None
    }
}

/// One character escaped for `cmd.exe` inside double quotes: `%` doubled, so it
/// is not taken for a variable, and `"` doubled, so it does not end the
/// argument.
pub open spec fn escape_char(c: char) -> Seq<char> {
    if c == '%' {
        seq!['%', '%']
    } else if c == '"' {
        seq!['"', '"']
    } else {
        seq![c]
    }
}

/// `s` escaped for use inside `reg add ... /d "..."` in a batch file.
pub open spec fn spec_cmd_escape(s: Seq<char>) -> Seq<char>
    decreases s.len(),
{
    if s.len() == 0 {
        Seq::empty()
    } else {
        spec_cmd_escape(s.drop_last()) + escape_char(s.last())
    }
}

/// Escape a value for use inside `reg add ... /d "..."` in a batch file.
pub fn cmd_escape(s: &[char]) -> (r: Vec<char>)
    ensures
        r@ == spec_cmd_escape(s@),
{
    let mut out: Vec<char> = Vec::new();
    let mut i: usize = 0;
    assert(s@.take(0) =~= Seq::<char>::empty());
    while i < s.len()
        invariant
            0 <= i <= s@.len(),
            out@ == spec_cmd_escape(s@.take(i as int)),
        decreases s@.len() - i,
    {
        let c = s[i];
        let ghost before = out@;
        if c == '%' {
            out.push('%');
            out.push('%');
        } else if c == '"' {
            out.push('"');
            out.push('"');
        } else {
            out.push(c);
        }
        assert(s@.take(i + 1).drop_last() =~= s@.take(i as int));
        assert(out@ =~= before + escape_char(c));
        i = i + 1;
    }
    assert(s@.take(s@.len() as int) =~= s@);
    out
}

/// The cursors key as `reg.exe` names it.
pub open spec fn reg_key() -> Seq<char> {
    "HKCU\\Control Panel\\Cursors"@
}

/// How `reg.exe` is told which value: `/ve` for the default value, else
/// `/v "name"`.
pub open spec fn value_arg(name: Seq<char>) -> Seq<char> {
    if name.len() == 0 {
        "/ve"@
    } else {
        "/v \""@ + spec_cmd_escape(name) + "\""@
    }
}

/// A lowercase hexadecimal digit.
pub open spec fn hex_digit(d: nat) -> char {
    if d < 10 {
        ((48 + d) as u8) as char
    } else {
        ((87 + d) as u8) as char
    }
}

/// Bytes as lowercase hexadecimal, two digits each.
pub open spec fn hex_bytes(b: Seq<u8>) -> Seq<char>
    decreases b.len(),
{
    if b.len() == 0 {
        Seq::empty()
    } else {
        hex_bytes(b.drop_last()) + seq![hex_digit((b.last() / 16) as nat), hex_digit((b.last() % 16) as nat)]
    }
}

/// The script line that writes one captured value back: strings as
/// `REG_SZ`/`REG_EXPAND_SZ`, numbers as `REG_DWORD` (nothing when the number
/// is short), and anything else as hexadecimal `REG_BINARY`.
pub open spec fn restore_line(v: ValueView) -> Seq<char> {
    let head = "reg add \""@ + reg_key() + "\" "@ + value_arg(v.0);
    if v.1 == REG_SZ || v.1 == REG_EXPAND_SZ {
        head + " /t "@ + (if v.1 == REG_EXPAND_SZ {
            "REG_EXPAND_SZ"@
        } else {
            "REG_SZ"@
        }) + " /d \""@ + spec_cmd_escape(spec_decode_sz(v.2)) + "\" /f >nul\r\n"@
    } else if v.1 == REG_DWORD {
        match spec_decode_dword(v.2) {
            Some(n) => head + " /t REG_DWORD /d "@ + decimal(n as nat) + " /f >nul\r\n"@,
            None => Seq::empty(),
        }
    } else {
        head + " /t REG_BINARY /d "@ + hex_bytes(v.2) + " /f >nul\r\n"@
    }
}

/// The lines writing back the first `n` values.
pub open spec fn restore_lines(vs: Seq<ValueView>, n: int) -> Seq<char>
    decreases n,
{
    if n <= 0 {
        Seq::empty()
    } else {
        restore_lines(vs, n - 1) + restore_line(vs[n - 1])
    }
}

/// The lines deleting each role of the table, below index `n`, that the
/// snapshot did not hold (by lowercase name).
pub open spec fn delete_lines(have: Set<Seq<char>>, n: int) -> Seq<char>
    decreases n,
{
    if n <= 0 {
        Seq::empty()
    } else if !have.contains(lowercase(spec_roles()[n - 1].win@)) {
        delete_lines(have, n - 1) + "reg delete \""@ + reg_key() + "\" /v \""@ + spec_roles()[n
            - 1].win@ + "\" /f >nul 2>nul\r\n"@
    } else {
        delete_lines(have, n - 1)
    }
}

/// The opening of the restore script.
pub open spec fn script_header() -> Seq<char> {
    "@echo off\r\nREM  Restores the Windows mouse cursors that were in place before\r\nREM  CustoMouse was first used. Safe to run at any time, and it does\r\nREM  not need CustoMouse to be installed or working.\r\nREM  Only HKEY_CURRENT_USER is touched; no admin rights are required.\r\n\r\necho Restoring the original Windows cursors...\r\n\r\n"@
}

/// The close of the restore script: make Windows reload the cursors.
pub open spec fn script_footer() -> Seq<char> {
    "\r\nREM  Make the change take effect immediately.\r\nrundll32.exe user32.dll,UpdatePerUserSystemParameters 1, True\r\n\r\necho Done. Your original cursors are back.\r\npause\r\n"@
}

/// The restore script for the snapshot `snap`: write back every captured
/// value, delete every role it did not hold, and reload.
pub open spec fn spec_script(snap: Snapshot) -> Seq<char> {
    let vs = values_view(snap.values@);
    script_header() + restore_lines(vs, vs.len() as int) + delete_lines(
        lower_names(vs, vs.len() as int),
        17,
    ) + script_footer()
}

/// Appends `b` as two lowercase hexadecimal digits.
fn push_hex(out: &mut Vec<char>, b: u8)
    ensures
        final(out)@ == old(out)@ + seq![hex_digit((b / 16) as nat), hex_digit((b % 16) as nat)],
{
    let hi = b / 16;
    let lo = b % 16;
    out.push(if hi < 10 { (48 + hi) as char } else { (87 + hi) as char });
    out.push(if lo < 10 { (48 + lo) as char } else { (87 + lo) as char });
}

/// Appends the script line for one value (see `restore_line`).
fn push_restore_line(out: &mut Vec<char>, v: &RawValue)
    ensures
        final(out)@ == old(out)@ + restore_line(value_view(*v)),
{
    let ghost vv = value_view(*v);
    let mut head: Vec<char> = Vec::new();
    crate::text::append(&mut head, "reg add \"HKCU\\Control Panel\\Cursors\" ");
    let name = chars_of(v.name.as_str());
    if name.len() == 0 {
        crate::text::append(&mut head, "/ve");
    } else {
        crate::text::append(&mut head, "/v \"");
        crate::text::append_chars(&mut head, cmd_escape(name.as_slice()).as_slice());
        crate::text::append(&mut head, "\"");
    }
    proof {
        reveal_strlit("reg add \"HKCU\\Control Panel\\Cursors\" ");
        reveal_strlit("reg add \"");
        reveal_strlit("HKCU\\Control Panel\\Cursors");
        reveal_strlit("\" ");
        assert("reg add \"HKCU\\Control Panel\\Cursors\" "@ =~= "reg add \""@ + reg_key() + "\" "@);
        assert(head@ =~= "reg add \""@ + reg_key() + "\" "@ + value_arg(vv.0));
    }
    if v.vtype == REG_SZ || v.vtype == REG_EXPAND_SZ {
        crate::text::append_chars(out, head.as_slice());
        crate::text::append(out, " /t ");
        if v.vtype == REG_EXPAND_SZ {
            crate::text::append(out, "REG_EXPAND_SZ");
        } else {
            crate::text::append(out, "REG_SZ");
        }
        crate::text::append(out, " /d \"");
        let data = chars_of(decode_sz(v.bytes.as_slice()).as_str());
        crate::text::append_chars(out, cmd_escape(data.as_slice()).as_slice());
        crate::text::append(out, "\" /f >nul\r\n");
        assert(out@ =~= old(out)@ + restore_line(vv));
    } else if v.vtype == REG_DWORD {
        match decode_dword(v.bytes.as_slice()) {
            Some(n) => {
                crate::text::append_chars(out, head.as_slice());
                crate::text::append(out, " /t REG_DWORD /d ");
                crate::text::append_chars(out, decimal_chars(n as usize).as_slice());
                crate::text::append(out, " /f >nul\r\n");
                assert(out@ =~= old(out)@ + restore_line(vv));
            },
            None => {
                assert(out@ =~= old(out)@ + restore_line(vv));
            },
        }
    } else {
        crate::text::append_chars(out, head.as_slice());
        crate::text::append(out, " /t REG_BINARY /d ");
        let ghost start = out@;
        let mut i: usize = 0;
        assert(v.bytes@.take(0) =~= Seq::<u8>::empty());
        assert(start + hex_bytes(v.bytes@.take(0)) =~= start);
        while i < v.bytes.len()
            invariant
                0 <= i <= v.bytes@.len(),
                out@ == start + hex_bytes(v.bytes@.take(i as int)),
            decreases v.bytes@.len() - i,
        {
            push_hex(out, v.bytes[i]);
            assert(v.bytes@.take(i + 1).drop_last() =~= v.bytes@.take(i as int));
            assert(out@ =~= start + hex_bytes(v.bytes@.take(i + 1)));
            i = i + 1;
        }
        assert(v.bytes@.take(v.bytes@.len() as int) =~= v.bytes@);
        crate::text::append(out, " /f >nul\r\n");
        assert(out@ =~= old(out)@ + restore_line(vv));
    }
}

/// The text of the restore script for `snap` (see `spec_script`).
pub fn script_text(snap: &Snapshot) -> (r: String)
    ensures
        r@ == spec_script(*snap),
{
    let ghost vs = values_view(snap.values@);
    let mut out: Vec<char> = Vec::new();
    crate::text::append(
        &mut out,
        "@echo off\r\nREM  Restores the Windows mouse cursors that were in place before\r\nREM  CustoMouse was first used. Safe to run at any time, and it does\r\nREM  not need CustoMouse to be installed or working.\r\nREM  Only HKEY_CURRENT_USER is touched; no admin rights are required.\r\n\r\necho Restoring the original Windows cursors...\r\n\r\n",
    );
    let ghost h = out@;
    let mut i: usize = 0;
    assert(h + restore_lines(vs, 0) =~= h);
    while i < snap.values.len()
        invariant
            0 <= i <= snap.values@.len(),
            vs == values_view(snap.values@),
            out@ == h + restore_lines(vs, i as int),
        decreases snap.values@.len() - i,
    {
        push_restore_line(&mut out, &snap.values[i]);
        assert(out@ =~= h + restore_lines(vs, i + 1));
        i = i + 1;
    }
    let have = snap.names();
    let ghost hs = lower_names(vs, vs.len() as int);
    let ghost b = out@;
    let table = crate::manifest::roles();
    let mut k: usize = 0;
    assert(b + delete_lines(hs, 0) =~= b);
    while k < 17
        invariant
            0 <= k <= 17,
            table@ == spec_roles(),
            crate::keyed::as_map(have@).dom() == hs,
            out@ == b + delete_lines(hs, k as int),
        decreases 17 - k,
    {
        let l = crate::registry::to_lowercase(table[k].win);
        if !have.contains_key(l.as_str()) {
            crate::text::append(&mut out, "reg delete \"HKCU\\Control Panel\\Cursors\" /v \"");
            crate::text::append(&mut out, table[k].win);
            crate::text::append(&mut out, "\" /f >nul 2>nul\r\n");
            proof {
                reveal_strlit("reg delete \"HKCU\\Control Panel\\Cursors\" /v \"");
                reveal_strlit("reg delete \"");
                reveal_strlit("HKCU\\Control Panel\\Cursors");
                reveal_strlit("\" /v \"");
                assert("reg delete \"HKCU\\Control Panel\\Cursors\" /v \""@ =~= "reg delete \""@
                    + reg_key() + "\" /v \""@);
            }
            assert(out@ =~= b + delete_lines(hs, k + 1));
        }
        k = k + 1;
    }
    crate::text::append(
        &mut out,
        "\r\nREM  Make the change take effect immediately.\r\nrundll32.exe user32.dll,UpdatePerUserSystemParameters 1, True\r\n\r\necho Done. Your original cursors are back.\r\npause\r\n",
    );
    assert(out@ =~= spec_script(*snap));
    string_of(out.as_slice())
}

/// The restore script, written from the original restore point; there is
/// only one correct input, so no other can be passed.
pub fn write_script(original: Option<&Snapshot>) -> (r: Result<String, Error>)
    ensures
        original is None ==> r == Err::<String, Error>(Error::NoRestorePoint),
        original matches Some(s) ==> r matches Ok(t) && t@ == spec_script(*s),
{
    match original {
        None => Err(Error::NoRestorePoint),
        Some(s) => Ok(script_text(s)),
    }
}

/// The roles of the table, below index `n`, that `have` does not hold (by
/// lowercase name), in table order.
pub open spec fn added_upto(have: Set<Seq<char>>, n: int) -> Seq<Seq<char>>
    decreases n,
{
    if n <= 0 {
        Seq::empty()
    } else if !have.contains(lowercase(spec_roles()[n - 1].win@)) {
        added_upto(have, n - 1).push(spec_roles()[n - 1].win@)
    } else {
        added_upto(have, n - 1)
    }
}

/// Roles the original snapshot did not define, i.e. ones an apply would be
/// adding.
pub fn roles_added_by_us(snap: &Snapshot) -> (r: Vec<String>)
    ensures
        strings_view(r@) == added_upto(
            lower_names(values_view(snap.values@), snap.values@.len() as int),
            17,
        ),
{
    let have = snap.names();
    let ghost hs = lower_names(values_view(snap.values@), snap.values@.len() as int);
    let table = crate::manifest::roles();
    let mut out: Vec<String> = Vec::new();
    let mut i: usize = 0;
    assert(strings_view(out@) =~= added_upto(hs, 0));
    while i < 17
        invariant
            0 <= i <= 17,
            table@ == spec_roles(),
            crate::keyed::as_map(have@).dom() == hs,
            strings_view(out@) == added_upto(hs, i as int),
        decreases 17 - i,
    {
        let l = crate::registry::to_lowercase(table[i].win);
        if !have.contains_key(l.as_str()) {
            let ghost before = strings_view(out@);
            out.push(table[i].win.to_owned());
            assert(strings_view(out@) =~= before.push(spec_roles()[i as int].win@));
        }
        i = i + 1;
    }
    out
}

/// How one captured value is shown: its name (or `(scheme name)` for the
/// default value), and its data: the text of a string (or `(Windows
/// default)` when empty), the number of a `REG_DWORD` (nothing when short),
/// or the byte count of anything else.
pub open spec fn summary_entry(v: ValueView) -> (Seq<char>, Seq<char>) {
    let shown = if v.1 == REG_SZ || v.1 == REG_EXPAND_SZ {
        if spec_decode_sz(v.2).len() == 0 {
            "(Windows default)"@
        } else {
            spec_decode_sz(v.2)
        }
    } else if v.1 == REG_DWORD {
        match spec_decode_dword(v.2) {
            Some(n) => decimal(n as nat),
            None => Seq::empty(),
        }
    } else {
        decimal(v.2.len()) + " bytes"@
    };
    let name = if v.0.len() == 0 {
        "(scheme name)"@
    } else {
        v.0
    };
    (name, shown)
}

/// Pairs of strings, taken as character sequences.
pub open spec fn pairs_view(v: Seq<(String, String)>) -> Seq<(Seq<char>, Seq<char>)> {
    Seq::new(v.len(), |i: int| (v[i].0@, v[i].1@))
}

/// Values in the snapshot, for display (see `summary_entry`).
pub fn snapshot_summary(snap: &Snapshot) -> (r: Vec<(String, String)>)
    ensures
        r@.len() == snap.values@.len(),
        forall|i: int|
            0 <= i < r@.len() ==> pairs_view(r@)[i] == summary_entry(
                #[trigger] values_view(snap.values@)[i],
            ),
{
    let ghost vs = values_view(snap.values@);
    let mut out: Vec<(String, String)> = Vec::new();
    let mut i: usize = 0;
    while i < snap.values.len()
        invariant
            0 <= i <= snap.values@.len(),
            vs == values_view(snap.values@),
            out@.len() == i,
            forall|k: int| 0 <= k < i ==> pairs_view(out@)[k] == summary_entry(#[trigger] vs[k]),
        decreases snap.values@.len() - i,
    {
        let v = &snap.values[i];
        let shown: String = if v.vtype == REG_SZ || v.vtype == REG_EXPAND_SZ {
            let s = decode_sz(v.bytes.as_slice());
            if chars_of(s.as_str()).len() == 0 {
                "(Windows default)".to_owned()
            } else {
                s
            }
        } else if v.vtype == REG_DWORD {
            match decode_dword(v.bytes.as_slice()) {
                Some(n) => string_of(decimal_chars(n as usize).as_slice()),
                None => String::new(),
            }
        } else {
            let mut t = decimal_chars(v.bytes.len());
            crate::text::append(&mut t, " bytes");
            string_of(t.as_slice())
        };
        let name: String = if chars_of(v.name.as_str()).len() == 0 {
            "(scheme name)".to_owned()
        } else {
            v.name.clone()
        };
        out.push((name, shown));
        assert(pairs_view(out@)[i as int] == summary_entry(vs[i as int]));
        i = i + 1;
    }
    out
}

/// The registry changes that put a snapshot back.
#[derive(Debug)]
pub struct RestorePlan {
    /// Values to delete first: those the snapshot did not hold.
    pub delete: Vec<String>,
    /// Values to write, exactly as captured.
    pub write: Vec<RawValue>,
}

/// A copy of a value.
fn copy_value(v: &RawValue) -> (r: RawValue)
    ensures
        value_view(r) == value_view(*v),
{
    RawValue { name: v.name.clone(), vtype: v.vtype, bytes: v.bytes.clone() }
}

/// The cursors key as a map from each value name, told apart by its lowercase
/// form, to the value's type and bytes.
pub type KeyState = Map<Seq<char>, (u32, Seq<u8>)>;

/// The key `m` once each of `vs` is written, in order.
pub open spec fn apply_writes(m: KeyState, vs: Seq<ValueView>) -> KeyState
    decreases vs.len(),
{
    if vs.len() == 0 {
        m
    } else {
        apply_writes(m, vs.drop_last()).insert(lowercase(vs.last().0), (vs.last().1, vs.last().2))
    }
}

/// The key `m` once each value named in `names` is deleted.
pub open spec fn apply_deletes(m: KeyState, names: Seq<Seq<char>>) -> KeyState
    decreases names.len(),
{
    if names.len() == 0 {
        m
    } else {
        apply_deletes(m, names.drop_last()).remove(lowercase(names.last()))
    }
}

/// The key holding exactly the values `vs`.
pub open spec fn key_of(vs: Seq<ValueView>) -> KeyState {
    apply_writes(Map::empty(), vs)
}

/// Writing `vs` over any key: a name among them ends up with what writing
/// them over an empty key gives it; any other name is left as it was.
proof fn lemma_writes(m: KeyState, vs: Seq<ValueView>, k: Seq<char>)
    ensures
        lower_names(vs, vs.len() as int).contains(k) ==> apply_writes(m, vs).dom().contains(k)
            && apply_writes(Map::empty(), vs).dom().contains(k) && apply_writes(m, vs)[k] == apply_writes(
            Map::empty(),
            vs,
        )[k],
        !lower_names(vs, vs.len() as int).contains(k) ==> (apply_writes(m, vs).dom().contains(k)
            <==> m.dom().contains(k)) && apply_writes(m, vs)[k] == m[k] && !apply_writes(
            Map::empty(),
            vs,
        ).dom().contains(k),
    decreases vs.len(),
{
    if vs.len() > 0 {
        let p = vs.drop_last();
        let x = vs.last();
        let kx = lowercase(x.0);
        lemma_writes(m, p, k);
        let n = vs.len() as int;
        assert(lower_names(vs, n).contains(k) <==> (lower_names(p, n - 1).contains(k) || k == kx)) by {
            if lower_names(vs, n).contains(k) {
                let i = choose|i: int| 0 <= i < n && 0 <= i < vs.len() && lowercase(vs[i].0) == k;
                if i < n - 1 {
                    assert(p[i] == vs[i]);
                }
            }
            if lower_names(p, n - 1).contains(k) {
                let i = choose|i: int| 0 <= i < n - 1 && 0 <= i < p.len() && lowercase(p[i].0) == k;
                assert(p[i] == vs[i]);
            }
            if k == kx {
                assert(lowercase(vs[n - 1].0) == k);
            }
        }
    }
}

/// Deleting names from a key leaves only names it held and none deleted.
proof fn lemma_deletes(m: KeyState, names: Seq<Seq<char>>, k: Seq<char>)
    ensures
        apply_deletes(m, names).dom().contains(k) ==> m.dom().contains(k) && forall|j: int|
            0 <= j < names.len() ==> lowercase(#[trigger] names[j]) != k,
    decreases names.len(),
{
    if names.len() > 0 {
        lemma_deletes(m, names.drop_last(), k);
        if apply_deletes(m, names).dom().contains(k) {
            assert forall|j: int| 0 <= j < names.len() implies lowercase(#[trigger] names[j]) != k by {
                if j < names.len() - 1 {
                    assert(names[j] == names.drop_last()[j]);
                }
            }
        }
    }
}

/// Every current value whose lowercase name is not wanted is among the
/// deletions.
proof fn lemma_deletions_cover(current: Seq<ValueView>, wanted: Set<Seq<char>>, n: int, i: int)
    requires
        0 <= i < n <= current.len(),
        !wanted.contains(lowercase(current[i].0)),
    ensures
        exists|j: int| 0 <= j < deletions(current, wanted, n).len() && #[trigger] deletions(current, wanted, n)[j] == current[i].0,
    decreases n,
{
    let d = deletions(current, wanted, n);
    if i == n - 1 {
        assert(d[d.len() - 1] == current[i].0);
    } else {
        lemma_deletions_cover(current, wanted, n - 1, i);
        let d0 = deletions(current, wanted, n - 1);
        let j = choose|j: int| 0 <= j < d0.len() && #[trigger] d0[j] == current[i].0;
        assert(d[j] == d0[j]);
    }
}

/// Restoring a snapshot puts the cursors key back exactly as the snapshot
/// found it: whatever the key holds now, deleting the values the restore plan
/// deletes and then writing the values it writes leaves every value name
/// (told apart by its lowercase form) holding the type and bytes the snapshot
/// captured, and no other name present.
pub proof fn lemma_restore_exact(snap: Seq<ValueView>, current: Seq<ValueView>)
    ensures
        apply_writes(
            apply_deletes(
                key_of(current),
                deletions(current, lower_names(snap, snap.len() as int), current.len() as int),
            ),
            snap,
        ) == key_of(snap),
{
    let wanted = lower_names(snap, snap.len() as int);
    let dels = deletions(current, wanted, current.len() as int);
    let d = apply_deletes(key_of(current), dels);
    let result = apply_writes(d, snap);
    assert forall|k: Seq<char>| d.dom().contains(k) implies wanted.contains(k) by {
        lemma_deletes(key_of(current), dels, k);
        lemma_writes(Map::empty(), current, k);
        if !wanted.contains(k) {
            let i = choose|i: int|
                0 <= i < current.len() && 0 <= i < current.len() && lowercase(current[i].0) == k;
            lemma_deletions_cover(current, wanted, current.len() as int, i);
            let j = choose|j: int| 0 <= j < dels.len() && #[trigger] dels[j] == current[i].0;
            assert(lowercase(dels[j]) == k);
        }
    }
    assert forall|k: Seq<char>| #![trigger result.dom().contains(k)] result.dom().contains(k) <==> key_of(snap).dom().contains(k) by {
        lemma_writes(d, snap, k);
    }
    assert forall|k: Seq<char>| result.dom().contains(k) implies result[k] == key_of(snap)[k] by {
        lemma_writes(d, snap, k);
    }
    assert(result =~= key_of(snap));
}

/// What putting `snap` back over the current values `current` takes: delete
/// each current value whose lowercase name the snapshot does not hold, then
/// write every captured value, so the result is byte-identical rather than
/// merely close.
pub fn restore_plan(snap: &Snapshot, current: &Snapshot) -> (r: RestorePlan)
    ensures
        strings_view(r.delete@) == deletions(
            values_view(current.values@),
            lower_names(values_view(snap.values@), snap.values@.len() as int),
            current.values@.len() as int,
        ),
        values_view(r.write@) == values_view(snap.values@),
{
    let delete = restore_deletions(snap, current);
    let mut write: Vec<RawValue> = Vec::new();
    let mut i: usize = 0;
    while i < snap.values.len()
        invariant
            0 <= i <= snap.values@.len(),
            values_view(write@) =~= values_view(snap.values@).take(i as int),
        decreases snap.values@.len() - i,
    {
        let ghost before = values_view(write@);
        write.push(copy_value(&snap.values[i]));
        assert(values_view(write@) =~= before.push(values_view(snap.values@)[i as int]));
        i = i + 1;
    }
    RestorePlan { delete, write }
}

/// Put the original Windows cursors back: the plan for the restore point
/// `original`, which must exist.
pub fn restore_original(original: Option<&Snapshot>, current: &Snapshot) -> (r: Result<
    RestorePlan,
    Error,
>)
    ensures
        original is None ==> (r matches Err(e) && e@ == ErrorView::NoRestorePoint),
        original matches Some(s) ==> r matches Ok(p) && values_view(p.write@) == values_view(
            s.values@,
        ) && strings_view(p.delete@) == deletions(
            values_view(current.values@),
            lower_names(values_view(s.values@), s.values@.len() as int),
            current.values@.len() as int,
        ),
{
    match original {
        None => Err(Error::NoRestorePoint),
        Some(s) => Ok(restore_plan(s, current)),
    }
}

/// Undo the most recent apply: the plan for the state before it, or for the
/// original restore point when there is none.
pub fn restore_previous(
    previous: Option<&Snapshot>,
    original: Option<&Snapshot>,
    current: &Snapshot,
) -> (r: Result<RestorePlan, Error>)
    ensures
        previous matches Some(s) ==> r matches Ok(p) && values_view(p.write@) == values_view(
            s.values@,
        ) && strings_view(p.delete@) == deletions(
            values_view(current.values@),
            lower_names(values_view(s.values@), s.values@.len() as int),
            current.values@.len() as int,
        ),
        previous is None && original is None ==> (r matches Err(e) && e@
            == ErrorView::NoRestorePoint),
        previous is None ==> (original matches Some(s) ==> r matches Ok(p) && values_view(p.write@)
            == values_view(s.values@) && strings_view(p.delete@) == deletions(
            values_view(current.values@),
            lower_names(values_view(s.values@), s.values@.len() as int),
            current.values@.len() as int,
        )),
{
    match previous {
        Some(s) => Ok(restore_plan(s, current)),
        None => restore_original(original, current),
    }
}

/// A restore point, and what to write for it.
#[derive(Debug)]
pub struct RestorePoint {
    /// The snapshot the restore point holds.
    pub snapshot: Snapshot,
    /// Whether it was just captured, and must be saved as the original.
    pub save: bool,
    /// The restore script to write, if it has to be (re)written.
    pub script: Option<String>,
}

/// Make sure a restore point exists: keep the `original` one if there is one
/// (writing its script again if the script is gone), else capture `current`
/// as the original and write its script.
pub fn ensure_restore_point(original: Option<Snapshot>, script_exists: bool, current: Snapshot) -> (r:
    RestorePoint)
    ensures
        original matches Some(s) ==> r.snapshot == s && !r.save && (r.script is None
            <==> script_exists) && (r.script matches Some(t) ==> t@ == spec_script(s)),
        original is None ==> r.snapshot == current && r.save,
        original is None ==> (r.script matches Some(t) && t@ == spec_script(current)),
{
    match original {
        Some(s) => {
            let script = if script_exists {
                None
            } else {
                Some(script_text(&s))
            };
            RestorePoint { snapshot: s, save: false, script }
        },
        None => {
            let script = script_text(&current);
            RestorePoint { snapshot: current, save: true, script: Some(script) }
        },
    }
}

/// The lines for the first `m` values begin the lines for the first `n`.
proof fn lemma_lines_prefix(vs: Seq<ValueView>, m: int, n: int)
    requires
        0 <= m <= n,
    ensures
        restore_lines(vs, m).len() <= restore_lines(vs, n).len(),
        restore_lines(vs, n).subrange(0, restore_lines(vs, m).len() as int) == restore_lines(vs, m),
    decreases n - m,
{
    if m < n {
        lemma_lines_prefix(vs, m, n - 1);
        let a = restore_lines(vs, n - 1);
        assert((a + restore_line(vs[n - 1])).subrange(0, restore_lines(vs, m).len() as int) =~= a.subrange(
            0,
            restore_lines(vs, m).len() as int,
        ));
    } else {
        assert(restore_lines(vs, n).subrange(0, restore_lines(vs, n).len() as int) =~= restore_lines(vs, n));
    }
}

/// The start of the `reg add` line writing back a string value named `name`
/// as the registry type `ty`.
pub open spec fn string_line_start(name: Seq<char>, ty: Seq<char>) -> Seq<char> {
    "reg add \""@ + reg_key() + "\" "@ + value_arg(name) + " /t "@ + ty + " /d \""@
}

/// The restore script writes every captured string value back with the
/// registry type it was captured with: a value captured as `REG_EXPAND_SZ` is
/// written by a `reg add ... /t REG_EXPAND_SZ /d "..."` line, so Windows
/// expands `%SystemRoot%` in it again, and one captured as `REG_SZ` by a
/// `/t REG_SZ` line.
pub proof fn lemma_script_keeps_string_types(snap: Snapshot, i: int)
    requires
        0 <= i < snap.values@.len(),
    ensures
        snap.values@[i].vtype == REG_EXPAND_SZ ==> crate::text::occurs_in(
            spec_script(snap),
            string_line_start(snap.values@[i].name@, "REG_EXPAND_SZ"@),
        ),
        snap.values@[i].vtype == REG_SZ ==> crate::text::occurs_in(
            spec_script(snap),
            string_line_start(snap.values@[i].name@, "REG_SZ"@),
        ),
{
    let vs = values_view(snap.values@);
    let n = vs.len() as int;
    let v = vs[i];
    assert(v.0 == snap.values@[i].name@ && v.1 == snap.values@[i].vtype);
    lemma_lines_prefix(vs, i + 1, n);
    let before = restore_lines(vs, i);
    let line = restore_line(v);
    let all = restore_lines(vs, n);
    let script = spec_script(snap);
    let rest = all.subrange((before.len() + line.len()) as int, all.len() as int);
    assert(restore_lines(vs, i + 1) == before + line);
    assert(all =~= before + line + rest);
    let tail = delete_lines(lower_names(vs, vs.len() as int), 17) + script_footer();
    assert(script =~= script_header() + (before + line + rest) + tail);
    let off = script_header().len() + before.len();
    if v.1 == REG_SZ || v.1 == REG_EXPAND_SZ {
        let ty = if v.1 == REG_EXPAND_SZ {
            "REG_EXPAND_SZ"@
        } else {
            "REG_SZ"@
        };
        let t = string_line_start(v.0, ty);
        assert(line =~= t + spec_cmd_escape(spec_decode_sz(v.2)) + "\" /f >nul\r\n"@);
        assert(script.subrange(off as int, (off + t.len()) as int) =~= t);
        assert(crate::text::occurs_at(script, t, off as int));
    }
}

} // verus!

