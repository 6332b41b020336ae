//! Character-level text helpers: conversions between strings and character
//! lists, ASCII case folding, and substring search.
use vstd::prelude::*;

verus! {

/// `String::push` appends one character.
pub assume_specification[ String::push ](s: &mut String, ch: char)
    ensures
        final(s)@ == old(s)@.push(ch),
;

/// The characters of `s`.
pub fn chars_of(s: &str) -> (r: Vec<char>)
    ensures
        r@ == s@,
{
    let n = s.unicode_len();
    let mut out: Vec<char> = Vec::new();
    let mut i: usize = 0;
    while i < n
        invariant
            0 <= i <= n,
            n == s@.len(),
            out@ =~= s@.take(i as int),
        decreases n - i,
    {
        out.push(s.get_char(i));
        i = i + 1;
    }
    assert(s@.take(n as int) =~= s@);
    out
}

/// A string holding the characters `cs`.
pub fn string_of(cs: &[char]) -> (r: String)
    ensures
        r@ == cs@,
{
    let mut out = String::new();
    let mut i: usize = 0;
    while i < cs.len()
        invariant
            0 <= i <= cs@.len(),
            out@ =~= cs@.take(i as int),
        decreases cs@.len() - i,
    {
        out.push(cs[i]);
        i = i + 1;
    }
    assert(cs@.take(cs@.len() as int) =~= cs@);
    out
}

/// `c` with an ASCII capital letter turned lowercase; every other character as is.
pub open spec fn lower_char(c: char) -> char {
    if 'A' <= c && c <= 'Z' {
        ((c as u32) + 32) as char
    } else {
        c
    }
}

/// ASCII lowercase of a character sequence.
pub open spec fn lower(s: Seq<char>) -> Seq<char> {
    s.map_values(|c: char| lower_char(c))
}

/// Equality ignoring ASCII case.
pub open spec fn eq_ignore_case(a: Seq<char>, b: Seq<char>) -> bool {
    lower(a) == lower(b)
}

/// ASCII lowercase of one character.
pub fn lower_ascii(c: char) -> (r: char)
    ensures
        r == lower_char(c),
{
    if 'A' <= c && c <= 'Z' {
        let b = c as u8;
        assert(b == c as u32);
        let r = (b + 32) as char;
        r
    } else {
        c
    }
}

/// ASCII lowercase of a character list.
pub fn to_ascii_lowercase(s: &[char]) -> (r: Vec<char>)
    ensures
        r@ == lower(s@),
{
    let mut out: Vec<char> = Vec::new();
    let mut i: usize = 0;
    while i < s.len()
        invariant
            0 <= i <= s@.len(),
            out@ =~= lower(s@).take(i as int),
        decreases s@.len() - i,
    {
        out.push(lower_ascii(s[i]));
        i = i + 1;
    }
    assert(lower(s@).take(s@.len() as int) =~= lower(s@));
    out
}

/// Whether two character lists are equal ignoring ASCII case.
pub fn eq_ignore_ascii_case(a: &[char], b: &[char]) -> (r: bool)
    ensures
        r == eq_ignore_case(a@, b@),
{
    if a.len() != b.len() {
        assert(lower(a@).len() != lower(b@).len());
        return false;
    }
    let mut i: usize = 0;
    while i < a.len()
        invariant
            0 <= i <= a@.len(),
            a@.len() == b@.len(),
            forall|k: int| 0 <= k < i ==> lower_char(a@[k]) == lower_char(b@[k]),
        decreases a@.len() - i,
    {
        if lower_ascii(a[i]) != lower_ascii(b[i]) {
            assert(lower(a@)[i as int] != lower(b@)[i as int]);
            return false;
        }
        i = i + 1;
    }
    assert(lower(a@) =~= lower(b@));
    true
}

/// Whether two character lists are equal.
pub fn chars_eq(a: &[char], b: &[char]) -> (r: bool)
    ensures
        r == (a@ == b@),
{
    if a.len() != b.len() {
        return false;
    }
    let mut i: usize = 0;
    while i < a.len()
        invariant
            0 <= i <= a@.len(),
            a@.len() == b@.len(),
            forall|k: int| 0 <= k < i ==> a@[k] == b@[k],
        decreases a@.len() - i,
    {
        if a[i] != b[i] {
            return false;
        }
        i = i + 1;
    }
    assert(a@ =~= b@);
    true
}

/// Whether two strings are equal.
pub fn str_eq(a: &str, b: &str) -> (r: bool)
    ensures
        r == (a@ == b@),
{
    let x = chars_of(a);
    let y = chars_of(b);
    chars_eq(x.as_slice(), y.as_slice())
}

/// Whether two strings are equal ignoring ASCII case.
pub fn str_eq_ignore_ascii_case(a: &str, b: &str) -> (r: bool)
    ensures
        r == eq_ignore_case(a@, b@),
{
    let x = chars_of(a);
    let y = chars_of(b);
    eq_ignore_ascii_case(x.as_slice(), y.as_slice())
}

/// `p` occurs in `s` at position `i`.
pub open spec fn occurs_at(s: Seq<char>, p: Seq<char>, i: int) -> bool {
    0 <= i && i + p.len() <= s.len() && s.subrange(i, i + p.len()) == p
}

/// `p` occurs somewhere in `s`.
pub open spec fn occurs_in(s: Seq<char>, p: Seq<char>) -> bool {
    exists|i: int| occurs_at(s, p, i)
}

/// Whether `p` occurs in `s`.
pub fn contains(s: &[char], p: &[char]) -> (r: bool)
    ensures
        r == occurs_in(s@, p@),
{
    if p.len() > s.len() {
        assert forall|i: int| !occurs_at(s@, p@, i) by {}
        return false;
    }
    if p.len() == 0 {
        assert(s@.subrange(0, 0) =~= p@);
        assert(occurs_at(s@, p@, 0));
        return true;
    }
    let n = s.len();
    let last = n - p.len();
    let mut i: usize = 0;
    while i <= last
        invariant
            0 <= i <= last + 1,
            n == s@.len(),
            p@.len() > 0,
            last == s@.len() - p@.len(),
            forall|k: int| 0 <= k < i ==> !occurs_at(s@, p@, k),
        decreases last + 1 - i,
    {
        let mut j: usize = 0;
        let mut same = true;
        while j < p.len()
            invariant
                0 <= j <= p@.len(),
                i + p@.len() <= s@.len(),
                n == s@.len(),
                same == (forall|k: int| 0 <= k < j ==> s@[i + k] == p@[k]),
            decreases p@.len() - j,
        {
            if s[i + j] != p[j] {
                same = false;
            }
            j = j + 1;
        }
        if same {
            assert(s@.subrange(i as int, i + p@.len()) =~= p@);
            assert(occurs_at(s@, p@, i as int));
            return true;
        }
        assert(!occurs_at(s@, p@, i as int)) by {
            if occurs_at(s@, p@, i as int) {
                let k = choose|k: int| 0 <= k < p@.len() && s@[i + k] != p@[k];
                assert(s@.subrange(i as int, i + p@.len())[k] == s@[i + k]);
            }
        }
        i = i + 1;
    }
    assert forall|k: int| !occurs_at(s@, p@, k) by {
        if 0 <= k <= last {
        }
    }
    false
}

/// `a` sorts strictly before `b`: character by character by code point, a
/// proper prefix first. This is the order of `String`'s `Ord`, since UTF-8
/// bytes compare in code point order.
pub open spec fn lex_lt(a: Seq<char>, b: Seq<char>) -> bool
    decreases a.len(),
{
    if b.len() == 0 {
        false
    } else if a.len() == 0 {
        true
    } else if a[0] != b[0] {
        a[0] < b[0]
    } else {
        lex_lt(a.drop_first(), b.drop_first())
    }
}

/// No sequence sorts before itself.
pub proof fn lemma_lex_irreflexive(a: Seq<char>)
    ensures
        !lex_lt(a, a),
    decreases a.len(),
{
    if a.len() > 0 {
        lemma_lex_irreflexive(a.drop_first());
    }
}

/// Two sequences are equal, or one sorts before the other.
pub proof fn lemma_lex_total(a: Seq<char>, b: Seq<char>)
    ensures
        a == b || lex_lt(a, b) || lex_lt(b, a),
    decreases a.len(),
{
    if a.len() == 0 || b.len() == 0 {
        if a.len() == 0 && b.len() == 0 {
            assert(a =~= b);
        }
    } else if a[0] == b[0] {
        lemma_lex_total(a.drop_first(), b.drop_first());
        if a.drop_first() == b.drop_first() {
            assert(a =~= seq![a[0]] + a.drop_first());
            assert(b =~= seq![b[0]] + b.drop_first());
        }
    }
}

/// The order is asymmetric.
pub proof fn lemma_lex_asymmetric(a: Seq<char>, b: Seq<char>)
    requires
        lex_lt(a, b),
    ensures
        !lex_lt(b, a),
    decreases a.len(),
{
    if a.len() > 0 && b.len() > 0 && a[0] == b[0] {
        lemma_lex_asymmetric(a.drop_first(), b.drop_first());
    }
}

/// The order is transitive.
pub proof fn lemma_lex_transitive(a: Seq<char>, b: Seq<char>, c: Seq<char>)
    requires
        lex_lt(a, b),
        lex_lt(b, c),
    ensures
        lex_lt(a, c),
    decreases a.len(),
{
    if a.len() > 0 && a[0] == b[0] && b[0] == c[0] {
        lemma_lex_transitive(a.drop_first(), b.drop_first(), c.drop_first());
    }
}

/// Whether `a` sorts strictly before `b` (see `lex_lt`).
pub fn str_lt(a: &str, b: &str) -> (r: bool)
    ensures
        r == lex_lt(a@, b@),
{
    let x = chars_of(a);
    let y = chars_of(b);
    let mut i: usize = 0;
    assert(a@.skip(0) =~= a@);
    assert(b@.skip(0) =~= b@);
    while i < x.len() && i < y.len()
        invariant
            0 <= i <= x@.len(),
            i <= y@.len(),
            x@ == a@,
            y@ == b@,
            lex_lt(a@, b@) == lex_lt(a@.skip(i as int), b@.skip(i as int)),
        decreases x@.len() - i,
    {
        let p = x[i];
        let q = y[i];
        assert(a@.skip(i as int)[0] == p);
        assert(b@.skip(i as int)[0] == q);
        if p != q {
            return p < q;
        }
        assert(a@.skip(i as int).drop_first() =~= a@.skip(i + 1));
        assert(b@.skip(i as int).drop_first() =~= b@.skip(i + 1));
        i = i + 1;
    }
    i < y.len()
}

/// `char::is_whitespace`: the characters with the Unicode `White_Space`
/// property.
pub open spec fn is_space(c: char) -> bool {
    ('\t' <= c && c <= '\r') || c == ' ' || c == '\u{85}' || c == '\u{a0}' || c == '\u{1680}'
        || ('\u{2000}' <= c && c <= '\u{200a}') || c == '\u{2028}' || c == '\u{2029}' || c
        == '\u{202f}' || c == '\u{205f}' || c == '\u{3000}'
}

/// Whether `c` is whitespace (see `is_space`).
pub fn is_whitespace(c: char) -> (r: bool)
    ensures
        r == is_space(c),
{
    ('\t' <= c && c <= '\r') || c == ' ' || c == '\u{85}' || c == '\u{a0}' || c == '\u{1680}'
        || ('\u{2000}' <= c && c <= '\u{200a}') || c == '\u{2028}' || c == '\u{2029}' || c
        == '\u{202f}' || c == '\u{205f}' || c == '\u{3000}'
}

/// The first index from `i` on whose character is not whitespace, or the length.
pub open spec fn lead_ws(s: Seq<char>, i: int) -> int
    decreases s.len() - i,
{
    if 0 <= i < s.len() && is_space(s[i]) {
        lead_ws(s, i + 1)
    } else {
        i
    }
}

/// Moving back from `j`, but not below `lo`, past whitespace: the end of what is left.
pub open spec fn trail_ws(s: Seq<char>, j: int, lo: int) -> int
    decreases j - lo,
{
    if lo < j <= s.len() && is_space(s[j - 1]) {
        trail_ws(s, j - 1, lo)
    } else {
        j
    }
}

/// `str::trim`: `s` without leading and trailing whitespace.
pub open spec fn trim_ws(s: Seq<char>) -> Seq<char> {
    s.subrange(lead_ws(s, 0), trail_ws(s, s.len() as int, lead_ws(s, 0)))
}

/// The first index from `i` on whose character is not `c`, or the length.
pub open spec fn lead_ch(s: Seq<char>, c: char, i: int) -> int
    decreases s.len() - i,
{
    if 0 <= i < s.len() && s[i] == c {
        lead_ch(s, c, i + 1)
    } else {
        i
    }
}

/// Moving back from `j`, but not below `lo`, past copies of `c`.
pub open spec fn trail_ch(s: Seq<char>, c: char, j: int, lo: int) -> int
    decreases j - lo,
{
    if lo < j <= s.len() && s[j - 1] == c {
        trail_ch(s, c, j - 1, lo)
    } else {
        j
    }
}

/// `str::trim_matches(c)`: `s` without leading and trailing copies of `c`.
pub open spec fn trim_ch(s: Seq<char>, c: char) -> Seq<char> {
    s.subrange(lead_ch(s, c, 0), trail_ch(s, c, s.len() as int, lead_ch(s, c, 0)))
}

/// `str::trim_start_matches(c)`: `s` without leading copies of `c`.
pub open spec fn trim_start_ch(s: Seq<char>, c: char) -> Seq<char> {
    s.subrange(lead_ch(s, c, 0), s.len() as int)
}

pub proof fn lemma_lead_ws_bounds(s: Seq<char>, i: int)
    requires
        0 <= i <= s.len(),
    ensures
        i <= lead_ws(s, i) <= s.len(),
    decreases s.len() - i,
{
    if i < s.len() && is_space(s[i]) {
        lemma_lead_ws_bounds(s, i + 1);
    }
}

pub proof fn lemma_trail_ws_bounds(s: Seq<char>, j: int, lo: int)
    requires
        0 <= lo <= j <= s.len(),
    ensures
        lo <= trail_ws(s, j, lo) <= j,
    decreases j - lo,
{
    if lo < j && is_space(s[j - 1]) {
        lemma_trail_ws_bounds(s, j - 1, lo);
    }
}

pub proof fn lemma_lead_ch_bounds(s: Seq<char>, c: char, i: int)
    requires
        0 <= i <= s.len(),
    ensures
        i <= lead_ch(s, c, i) <= s.len(),
    decreases s.len() - i,
{
    if i < s.len() && s[i] == c {
        lemma_lead_ch_bounds(s, c, i + 1);
    }
}

pub proof fn lemma_trail_ch_bounds(s: Seq<char>, c: char, j: int, lo: int)
    requires
        0 <= lo <= j <= s.len(),
    ensures
        lo <= trail_ch(s, c, j, lo) <= j,
    decreases j - lo,
{
    if lo < j && s[j - 1] == c {
        lemma_trail_ch_bounds(s, c, j - 1, lo);
    }
}

/// `s[lo..hi]` as a new list.
pub fn slice_chars(s: &[char], lo: usize, hi: usize) -> (r: Vec<char>)
    requires
        lo <= hi <= s@.len(),
    ensures
        r@ == s@.subrange(lo as int, hi as int),
{
    let mut out: Vec<char> = Vec::new();
    let mut i: usize = lo;
    while i < hi
        invariant
            lo <= i <= hi,
            hi <= s@.len(),
            out@ =~= s@.subrange(lo as int, i as int),
        decreases hi - i,
    {
        out.push(s[i]);
        i = i + 1;
    }
    out
}

/// `s` without leading and trailing whitespace.
pub fn trim(s: &[char]) -> (r: Vec<char>)
    ensures
        r@ == trim_ws(s@),
{
    let n = s.len();
    let mut a: usize = 0;
    while a < n && is_whitespace(s[a])
        invariant
            0 <= a <= n,
            n == s@.len(),
            lead_ws(s@, 0) == lead_ws(s@, a as int),
        decreases n - a,
    {
        a = a + 1;
    }
    let mut b: usize = n;
    while b > a && is_whitespace(s[b - 1])
        invariant
            a <= b <= n,
            n == s@.len(),
            a == lead_ws(s@, 0),
            trail_ws(s@, n as int, a as int) == trail_ws(s@, b as int, a as int),
        decreases b - a,
    {
        b = b - 1;
    }
    slice_chars(s, a, b)
}

/// `s` without leading and trailing copies of `c`.
pub fn trim_matches(s: &[char], c: char) -> (r: Vec<char>)
    ensures
        r@ == trim_ch(s@, c),
{
    let n = s.len();
    let mut a: usize = 0;
    while a < n && s[a] == c
        invariant
            0 <= a <= n,
            n == s@.len(),
            lead_ch(s@, c, 0) == lead_ch(s@, c, a as int),
        decreases n - a,
    {
        a = a + 1;
    }
    let mut b: usize = n;
    while b > a && s[b - 1] == c
        invariant
            a <= b <= n,
            n == s@.len(),
            a == lead_ch(s@, c, 0),
            trail_ch(s@, c, n as int, a as int) == trail_ch(s@, c, b as int, a as int),
        decreases b - a,
    {
        b = b - 1;
    }
    slice_chars(s, a, b)
}

/// `s` without leading copies of `c`.
pub fn trim_start_matches(s: &[char], c: char) -> (r: Vec<char>)
    ensures
        r@ == trim_start_ch(s@, c),
{
    let n = s.len();
    let mut a: usize = 0;
    while a < n && s[a] == c
        invariant
            0 <= a <= n,
            n == s@.len(),
            lead_ch(s@, c, 0) == lead_ch(s@, c, a as int),
        decreases n - a,
    {
        a = a + 1;
    }
    slice_chars(s, a, n)
}

/// The first index from `i` on holding `c`.
pub open spec fn index_from(s: Seq<char>, c: char, i: int) -> Option<int>
    decreases s.len() - i,
{
    if i < 0 || i >= s.len() {
        None
    } else if s[i] == c {
        Some(i)
    } else {
        index_from(s, c, i + 1)
    }
}

pub proof fn lemma_index_from_bounds(s: Seq<char>, c: char, i: int)
    requires
        0 <= i,
    ensures
        index_from(s, c, i) is Some ==> i <= index_from(s, c, i)->0 < s.len() && s[index_from(
            s,
            c,
            i,
        )->0] == c,
    decreases s.len() - i,
{
    if i < s.len() && s[i] != c {
        lemma_index_from_bounds(s, c, i + 1);
    }
}

/// The first index from `i` on holding `c`.
pub fn find_char(s: &[char], c: char, i: usize) -> (r: Option<usize>)
    ensures
        r matches Some(j) ==> index_from(s@, c, i as int) == Some(j as int) && i <= j < s@.len(),
        r is None ==> index_from(s@, c, i as int) is None,
{
    let mut j = i;
    while j < s.len()
        invariant
            i <= j,
            index_from(s@, c, i as int) == index_from(s@, c, j as int),
        decreases s@.len() - j,
    {
        if s[j] == c {
            return Some(j);
        }
        j = j + 1;
    }
    None
}

/// `s` split at every `c`, from index `i` on: the pieces between the
/// separators, including an empty piece where two separators meet or one ends
/// the text.
pub open spec fn split_from(s: Seq<char>, c: char, i: int) -> Seq<Seq<char>>
    decreases s.len() - i, 1int,
{
    if i < 0 || i > s.len() {
        Seq::empty()
    } else {
        match index_from(s, c, i) {
            None => seq![s.subrange(i, s.len() as int)],
            Some(j) => if i <= j < s.len() {
                seq![s.subrange(i, j)] + split_from(s, c, j + 1)
            } else {
                Seq::empty()
            },
        }
    }
}

/// The lines of `s`, split at `'\n'`. A `'\r'` before the `'\n'` stays on the
/// line, where trimming removes it.
pub open spec fn spec_lines(s: Seq<char>) -> Seq<Seq<char>> {
    split_from(s, '\n', 0)
}

/// The lines of `text` (see `spec_lines`).
pub fn lines(text: &str) -> (r: Vec<Vec<char>>)
    ensures
        r@.len() == spec_lines(text@).len(),
        forall|k: int| 0 <= k < r@.len() ==> (#[trigger] r@[k])@ == spec_lines(text@)[k],
{
    let s = chars_of(text);
    let ghost whole = spec_lines(text@);
    let mut out: Vec<Vec<char>> = Vec::new();
    let n = s.len();
    let mut i: usize = 0;
    loop
        invariant
            s@ == text@,
            n == s@.len(),
            0 <= i <= s@.len(),
            whole == spec_lines(text@),
            whole.len() == out@.len() + split_from(s@, '\n', i as int).len(),
            forall|k: int| 0 <= k < out@.len() ==> (#[trigger] out@[k])@ == whole[k],
            forall|k: int|
                0 <= k < split_from(s@, '\n', i as int).len() ==> whole[out@.len() + k]
                    == #[trigger] split_from(s@, '\n', i as int)[k],
        decreases s@.len() - i,
    {
        proof {
            lemma_index_from_bounds(s@, '\n', i as int);
        }
        match find_char(s.as_slice(), '\n', i) {
            None => {
                let piece = slice_chars(s.as_slice(), i, s.len());
                assert(split_from(s@, '\n', i as int)[0] == piece@);
                out.push(piece);
                return out;
            },
            Some(j) => {
                let piece = slice_chars(s.as_slice(), i, j);
                let ghost pre = split_from(s@, '\n', i as int);
                let ghost rest = split_from(s@, '\n', j + 1);
                let ghost before = out@.len();
                assert(pre == seq![piece@] + rest);
                assert(whole[before as int + 0] == pre[0]);
                out.push(piece);
                i = j + 1;
                assert forall|k: int| 0 <= k < rest.len() implies whole[out@.len() + k]
                    == #[trigger] rest[k] by {
                    assert(pre[k + 1] == rest[k]);
                }
            },
        }
    }
}

/// The character of a decimal digit.
pub open spec fn digit_char(d: nat) -> char {
    ((48 + d) as u8) as char
}

/// `n` in decimal.
pub open spec fn decimal(n: nat) -> Seq<char>
    decreases n,
{
    if n < 10 {
        seq![digit_char(n)]
    } else {
        decimal(n / 10).push(digit_char(n % 10))
    }
}

/// `n` in decimal.
pub fn decimal_chars(n: usize) -> (r: Vec<char>)
    ensures
        r@ == decimal(n as nat),
    decreases n,
{
    let d = ((n % 10) as u8 + 48) as char;
    if n < 10 {
        vec![d]
    } else {
        let mut v = decimal_chars(n / 10);
        v.push(d);
        v
    }
}

/// `a` followed by `b`.
pub fn concat(a: &[char], b: &[char]) -> (r: Vec<char>)
    ensures
        r@ == a@ + b@,
{
    let mut out = slice_chars(a, 0, a.len());
    let mut i: usize = 0;
    while i < b.len()
        invariant
            0 <= i <= b@.len(),
            out@ =~= a@ + b@.take(i as int),
        decreases b@.len() - i,
    {
        out.push(b[i]);
        i = i + 1;
    }
    assert(b@.take(b@.len() as int) =~= b@);
    out
}

/// Appends the characters of `s`.
pub fn append(out: &mut Vec<char>, s: &str)
    ensures
        final(out)@ == old(out)@ + s@,
{
    let cs = chars_of(s);
    append_chars(out, cs.as_slice());
}

/// Appends the characters `s`.
pub fn append_chars(out: &mut Vec<char>, s: &[char])
    ensures
        final(out)@ == old(out)@ + s@,
{
    let mut i: usize = 0;
    while i < s.len()
        invariant
            0 <= i <= s@.len(),
            out@ =~= old(out)@ + s@.take(i as int),
        decreases s@.len() - i,
    {
        out.push(s[i]);
        i = i + 1;
    }
    assert(s@.take(s@.len() as int) =~= s@);
}

/// A copy of the bytes `b`.
pub fn copy_bytes(b: &[u8]) -> (r: Vec<u8>)
    ensures
        r@ == b@,
{
    let mut out: Vec<u8> = Vec::new();
    let mut i: usize = 0;
    while i < b.len()
        invariant
            0 <= i <= b@.len(),
            out@ =~= b@.take(i as int),
        decreases b@.len() - i,
    {
        out.push(b[i]);
        i = i + 1;
    }
    assert(b@.take(b@.len() as int) =~= b@);
    out
}

/// A copy of the numbers `b`.
pub fn copy_u32s(b: &[u32]) -> (r: Vec<u32>)
    ensures
        r@ == b@,
{
    let mut out: Vec<u32> = Vec::new();
    let mut i: usize = 0;
    while i < b.len()
        invariant
            0 <= i <= b@.len(),
            out@ =~= b@.take(i as int),
        decreases b@.len() - i,
    {
        out.push(b[i]);
        i = i + 1;
    }
    assert(b@.take(b@.len() as int) =~= b@);
    out
}

} // verus!
