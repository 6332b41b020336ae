//! UTF-16, as Windows stores strings: encoding characters into code units,
//! and decoding code units back, replacing unpaired surrogates.
use crate::bytes::le16;
use vstd::prelude::*;

verus! {

/// `char::from_u32`: the character with code point `v`, if `v` is a Unicode
/// scalar value (at most `0x10FFFF`, and not a surrogate).
#[verifier::external_body]
fn char_from_u32(v: u32) -> (r: Option<char>)
    ensures
        r is Some <==> (v <= 0x10FFFF && !(0xD800 <= v && v <= 0xDFFF)),
        r matches Some(c) ==> c as u32 == v,
{
    char::from_u32(v)
}

/// A character's code point is a Unicode scalar value, and names it.
pub proof fn lemma_char_code(c: char)
    ensures
        (c as u32) <= 0x10FFFF,
        !(0xD800 <= (c as u32) && (c as u32) <= 0xDFFF),
        ((c as u32) as char) == c,
{
    vstd::utf8::char_is_scalar(c);
    vstd::utf8::char_u32_cast(c, c as u32);
}

/// A leading (high) surrogate.
pub open spec fn is_high(u: u16) -> bool {
    0xD800 <= u && u <= 0xDBFF
}

/// A trailing (low) surrogate.
pub open spec fn is_low(u: u16) -> bool {
    0xDC00 <= u && u <= 0xDFFF
}

/// Any surrogate.
pub open spec fn is_surrogate(u: u16) -> bool {
    0xD800 <= u && u <= 0xDFFF
}

/// The code units of one character: itself below `0x10000`, else a surrogate
/// pair carrying the top and bottom ten bits of `c - 0x10000`.
pub open spec fn char_units(c: char) -> Seq<u16> {
    let v = c as u32;
    if v < 0x10000 {
        seq![v as u16]
    } else {
        seq![(0xD800 + (v - 0x10000) / 1024) as u16, (0xDC00 + (v - 0x10000) % 1024) as u16]
    }
}

/// The UTF-16 code units of `s`.
pub open spec fn utf16(s: Seq<char>) -> Seq<u16>
    decreases s.len(),
{
    if s.len() == 0 {
        Seq::empty()
    } else {
        char_units(s[0]) + utf16(s.drop_first())
    }
}

/// The character a surrogate pair stands for.
pub open spec fn pair_char(h: u16, l: u16) -> char {
    (0x10000 + (h - 0xD800) * 1024 + (l - 0xDC00)) as u32 as char
}

/// `String::from_utf16_lossy`: the characters of the code units `u`, a
/// surrogate pair giving one character and any other surrogate giving
/// U+FFFD.
pub open spec fn decode_utf16(u: Seq<u16>) -> Seq<char>
    decreases u.len(),
{
    if u.len() == 0 {
        Seq::empty()
    } else if u.len() >= 2 && is_high(u[0]) && is_low(u[1]) {
        seq![pair_char(u[0], u[1])] + decode_utf16(u.subrange(2, u.len() as int))
    } else if is_surrogate(u[0]) {
        seq!['\u{FFFD}'] + decode_utf16(u.drop_first())
    } else {
        seq![(u[0] as u32) as char] + decode_utf16(u.drop_first())
    }
}

/// Decoding the code units of a string gives the string back.
pub proof fn lemma_decode_utf16(s: Seq<char>)
    ensures
        decode_utf16(utf16(s)) == s,
    decreases s.len(),
{
    if s.len() > 0 {
        let c = s[0];
        let v = c as u32;
        lemma_char_code(c);
        let rest = utf16(s.drop_first());
        let u = utf16(s);
        lemma_decode_utf16(s.drop_first());
        assert(u == char_units(c) + rest);
        if v < 0x10000 {
            assert(u[0] == v as u16);
            assert(u.drop_first() =~= rest);
            assert(!is_surrogate(u[0]));
            assert(((u[0] as u32) as char) == c);
        } else {
            let w = (v - 0x10000) as int;
            assert(w / 1024 <= 0x3FF) by (nonlinear_arith)
                requires
                    0 <= w <= 0xFFFFF,
            ;
            assert(w == (w / 1024) * 1024 + w % 1024) by (nonlinear_arith);
            assert(u[0] == (0xD800 + w / 1024) as u16);
            assert(u[1] == (0xDC00 + w % 1024) as u16);
            assert(u.subrange(2, u.len() as int) =~= rest);
            assert(pair_char(u[0], u[1]) == c);
        }
        assert(s =~= seq![c] + s.drop_first());
    }
}

/// Decoding the code units of a string followed by more units gives the string
/// followed by what those units decode to.
pub proof fn lemma_decode_utf16_append(s: Seq<char>, t: Seq<u16>)
    ensures
        decode_utf16(utf16(s) + t) == s + decode_utf16(t),
    decreases s.len(),
{
    if s.len() == 0 {
        assert(utf16(s) + t =~= t);
        assert(s + decode_utf16(t) =~= decode_utf16(t));
    } else {
        let c = s[0];
        let v = c as u32;
        lemma_char_code(c);
        let rest = utf16(s.drop_first()) + t;
        let u = utf16(s) + t;
        lemma_decode_utf16_append(s.drop_first(), t);
        assert(u =~= char_units(c) + rest);
        if v < 0x10000 {
            assert(u[0] == v as u16);
            assert(u.drop_first() =~= rest);
            assert(!is_surrogate(u[0]));
            assert(((u[0] as u32) as char) == c);
        } else {
            let w = (v - 0x10000) as int;
            assert(w / 1024 <= 0x3FF) by (nonlinear_arith)
                requires
                    0 <= w <= 0xFFFFF,
            ;
            assert(w == (w / 1024) * 1024 + w % 1024) by (nonlinear_arith);
            assert(u[0] == (0xD800 + w / 1024) as u16);
            assert(u[1] == (0xDC00 + w % 1024) as u16);
            assert(u.subrange(2, u.len() as int) =~= rest);
            assert(pair_char(u[0], u[1]) == c);
        }
        assert(s + decode_utf16(t) =~= seq![c] + (s.drop_first() + decode_utf16(t)));
    }
}

/// A string holds no NUL character.
pub open spec fn no_nul(s: Seq<char>) -> bool {
    forall|i: int| 0 <= i < s.len() ==> s[i] != '\0'
}

/// The code units of a string without NUL characters hold no zero unit.
pub proof fn lemma_utf16_no_zero(s: Seq<char>)
    requires
        no_nul(s),
    ensures
        forall|i: int| 0 <= i < utf16(s).len() ==> utf16(s)[i] != 0,
    decreases s.len(),
{
    if s.len() > 0 {
        assert(no_nul(s.drop_first())) by {
            assert forall|i: int| 0 <= i < s.drop_first().len() implies s.drop_first()[i] != '\0' by {
                assert(s.drop_first()[i] == s[i + 1]);
            }
        }
        lemma_utf16_no_zero(s.drop_first());
        let c = s[0];
        assert(c != '\0');
        lemma_char_code(c);
        lemma_char_code('\0');
        assert((c as u32) != 0);
        let u = utf16(s);
        let h = char_units(c);
        assert forall|i: int| 0 <= i < u.len() implies u[i] != 0 by {
            if i < h.len() {
                assert(u[i] == h[i]);
            } else {
                assert(u[i] == utf16(s.drop_first())[i - h.len()]);
            }
        }
    }
}

/// The code units of `s`.
pub fn encode_utf16(s: &str) -> (r: Vec<u16>)
    ensures
        r@ == utf16(s@),
{
    let cs = crate::text::chars_of(s);
    let ghost all = s@;
    let mut out: Vec<u16> = Vec::new();
    assert(all.skip(cs@.len() as int) =~= Seq::<char>::empty());
    assert(all.skip(0) =~= all);
    let mut k: usize = 0;
    while k < cs.len()
        invariant
            0 <= k <= cs@.len(),
            cs@ == all,
            out@ + utf16(all.skip(k as int)) == utf16(all),
        decreases cs@.len() - k,
    {
        let c = cs[k];
        proof {
            lemma_char_code(c);
        }
        let v = c as u32;
        assert(all.skip(k as int)[0] == c);
        assert(all.skip(k as int).drop_first() =~= all.skip(k + 1));
        let ghost before = out@;
        if v < 0x10000 {
            out.push(v as u16);
            assert(out@ =~= before + char_units(c));
        } else {
            let w = v - 0x10000;
            out.push((0xD800 + w / 1024) as u16);
            out.push((0xDC00 + w % 1024) as u16);
            assert(out@ =~= before + char_units(c));
        }
        assert(utf16(all.skip(k as int)) == char_units(c) + utf16(all.skip(k + 1)));
        assert((before + char_units(c)) + utf16(all.skip(k + 1)) =~= before + (char_units(c) + utf16(
            all.skip(k + 1),
        )));
        k = k + 1;
    }
    assert(out@ + utf16(all.skip(cs@.len() as int)) =~= out@);
    assert(all.skip(0) =~= all);
    out
}

/// The two little-endian bytes of each code unit.
pub open spec fn units_bytes(u: Seq<u16>) -> Seq<u8>
    decreases u.len(),
{
    if u.len() == 0 {
        Seq::empty()
    } else {
        units_bytes(u.drop_last()) + le16(u.last())
    }
}

/// The code units stored little-endian in `b`, ignoring an odd last byte.
pub open spec fn units_of(b: Seq<u8>) -> Seq<u16> {
    Seq::new(b.len() / 2, |i: int| crate::bytes::u16_at(b, 2 * i))
}

/// The code units of `b`, two little-endian bytes each; an odd last byte is
/// ignored.
pub fn units_from_bytes(b: &[u8]) -> (r: Vec<u16>)
    ensures
        r@ == units_of(b@),
{
    let len = b.len();
    let n = len / 2;
    let mut out: Vec<u16> = Vec::new();
    let mut i: usize = 0;
    while i < n
        invariant
            0 <= i <= n,
            n == b@.len() / 2,
            len == b@.len(),
            out@ =~= units_of(b@).take(i as int),
        decreases n - i,
    {
        assert(2 * i + 2 <= b@.len());
        out.push(crate::bytes::read_u16(b, 2 * i));
        i = i + 1;
    }
    out
}

/// Appends each code unit as two little-endian bytes.
pub fn push_units(out: &mut Vec<u8>, u: &[u16])
    ensures
        final(out)@ == old(out)@ + units_bytes(u@),
{
    let mut i: usize = 0;
    assert(u@.take(0) =~= Seq::<u16>::empty());
    assert(old(out)@ + units_bytes(u@.take(0)) =~= old(out)@);
    while i < u.len()
        invariant
            0 <= i <= u@.len(),
            out@ == old(out)@ + units_bytes(u@.take(i as int)),
        decreases u@.len() - i,
    {
        let ghost before = out@;
        crate::bytes::push_u16(out, u[i]);
        assert(u@.take(i + 1).drop_last() =~= u@.take(i as int));
        assert(out@ =~= old(out)@ + units_bytes(u@.take(i + 1)));
        i = i + 1;
    }
    assert(u@.take(u@.len() as int) =~= u@);
}

/// The characters of the code units `u` (see `decode_utf16`).
pub fn decode_units(u: &[u16]) -> (r: Vec<char>)
    ensures
        r@ == decode_utf16(u@),
{
    let n = u.len();
    let mut out: Vec<char> = Vec::new();
    let mut i: usize = 0;
    assert(u@.subrange(0, n as int) =~= u@);
    while i < n
        invariant
            0 <= i <= n,
            n == u@.len(),
            out@ + decode_utf16(u@.subrange(i as int, n as int)) == decode_utf16(u@),
        decreases n - i,
    {
        let ghost t = u@.subrange(i as int, n as int);
        let ghost before = out@;
        let a = u[i];
        assert(t[0] == a);
        if i + 1 < n && 0xD800 <= a && a <= 0xDBFF && 0xDC00 <= u[i + 1] && u[i + 1] <= 0xDFFF {
            let b = u[i + 1];
            assert(t[1] == b);
            let v: u32 = 0x10000 + (a as u32 - 0xD800) * 1024 + (b as u32 - 0xDC00);
            assert(v <= 0x10FFFF);
            let c = char_from_u32(v).unwrap();
            proof {
                vstd::utf8::char_u32_cast(c, v);
            }
            out.push(c);
            assert(t.subrange(2, t.len() as int) =~= u@.subrange(i + 2, n as int));
            assert(out@ =~= before + seq![pair_char(a, b)]);
            i = i + 2;
        } else if 0xD800 <= a && a <= 0xDFFF {
            out.push('\u{FFFD}');
            assert(t.drop_first() =~= u@.subrange(i + 1, n as int));
            i = i + 1;
        } else {
            let c = char_from_u32(a as u32).unwrap();
            proof {
                vstd::utf8::char_u32_cast(c, a as u32);
            }
            out.push(c);
            assert(t.drop_first() =~= u@.subrange(i + 1, n as int));
            i = i + 1;
        }
        assert(before + decode_utf16(t) =~= out@ + decode_utf16(u@.subrange(i as int, n as int)));
    }
    assert(out@ + decode_utf16(u@.subrange(n as int, n as int)) =~= out@);
    out
}

} // verus!
