//! The decisions around turning art into square RGBA frames: which files of a
//! numbered sequence make up an animation, how a sprite sheet divides into
//! cells, how non-square art is padded, and how pixels move between straight
//! and premultiplied alpha. Decoding raster art is in `artwork`; drawing
//! vector art happens in the application.
use crate::error::{Error, ErrorView};
use crate::import::{digits_value, extension, file_stem, is_digit};
use crate::manifest::{Grid, UpscaleMode};
use crate::text::{chars_of, eq_ignore_case};
use vstd::prelude::*;

verus! {

/// Something worth telling the user about that is not fatal.
#[derive(Debug, Clone, PartialEq, Eq)]
pub enum Warning {
    /// Source was `from_w`x`from_h`, not square, so it was padded to `to`x`to`.
    /// Cursors must be square.
    Padded { path: String, from_w: u32, from_h: u32, to: u32 },
    /// Source is smaller than a requested size, so that size is an upscale.
    Upscaled { path: String, native: u32, requested: u32 },
    /// A ready-made `.cur`/`.ani` was used as-is, and the sizes it happens to
    /// contain are all Windows will ever have for that pointer.
    LowResolutionSource { role: String, largest: u32 },
    /// A ready-made source's larger sizes were synthesized from its largest
    /// embedded image, rather than left for Windows to stretch.
    ReadyMadeUpscaled { role: String, native: u32, added: Vec<u32>, mode: UpscaleMode },
    /// Sizes were left out of an animated cursor to stay under the Windows
    /// per-frame limit.
    AnimationSizesDropped { role: String, kept: Vec<u32>, dropped: Vec<u32> },
}

/// `Warning` with each string taken as its characters and each list as a
/// sequence.
pub enum WarningView {
    Padded { path: Seq<char>, from_w: u32, from_h: u32, to: u32 },
    Upscaled { path: Seq<char>, native: u32, requested: u32 },
    LowResolutionSource { role: Seq<char>, largest: u32 },
    ReadyMadeUpscaled { role: Seq<char>, native: u32, added: Seq<u32>, mode: UpscaleMode },
    AnimationSizesDropped { role: Seq<char>, kept: Seq<u32>, dropped: Seq<u32> },
}

impl View for Warning {
    type V = WarningView;

    open spec fn view(&self) -> WarningView {
        match self {
            Warning::Padded { path, from_w, from_h, to } => WarningView::Padded {
                path: path@,
                from_w: *from_w,
                from_h: *from_h,
                to: *to,
            },
            Warning::Upscaled { path, native, requested } => WarningView::Upscaled {
                path: path@,
                native: *native,
                requested: *requested,
            },
            Warning::LowResolutionSource { role, largest } => WarningView::LowResolutionSource {
                role: role@,
                largest: *largest,
            },
            Warning::ReadyMadeUpscaled { role, native, added, mode } => WarningView::ReadyMadeUpscaled {
                role: role@,
                native: *native,
                added: added@,
                mode: *mode,
            },
            Warning::AnimationSizesDropped { role, kept, dropped } => WarningView::AnimationSizesDropped {
                role: role@,
                kept: kept@,
                dropped: dropped@,
            },
        }
    }
}

/// Warnings taken as their views.
pub open spec fn warnings_view(v: Seq<Warning>) -> Seq<WarningView> {
    Seq::new(v.len(), |i: int| v[i]@)
}

/// The start of the run of decimal digits that ends at `j`.
pub open spec fn digits_start(s: Seq<char>, j: int) -> int
    decreases j,
{
    if 0 < j <= s.len() && is_digit(s[j - 1]) {
        digits_start(s, j - 1)
    } else {
        j
    }
}

proof fn lemma_digits_start_bounds(s: Seq<char>, j: int)
    requires
        0 <= j <= s.len(),
    ensures
        0 <= digits_start(s, j) <= j,
    decreases j,
{
    if 0 < j && is_digit(s[j - 1]) {
        lemma_digits_start_bounds(s, j - 1);
    }
}

/// The number that ends the stem of a file name, e.g. 7 for `walk_007.png`;
/// `None` when the stem does not end in a digit, or the number does not fit.
pub open spec fn spec_trailing_number(name: Seq<char>) -> Option<usize> {
    let stem = file_stem(name);
    let digits = stem.subrange(digits_start(stem, stem.len() as int), stem.len() as int);
    if digits.len() == 0 || digits_value(digits) > usize::MAX {
        None
    } else {
        Some(digits_value(digits) as usize)
    }
}

/// Extract the trailing integer from a file's stem, e.g. `walk_007.png` -> 7.
pub fn trailing_number(file_name: &str) -> (r: Option<usize>)
    ensures
        r == spec_trailing_number(file_name@),
{
    let stem = crate::import::stem_of(chars_of(file_name).as_slice());
    let n = stem.len();
    let mut a: usize = n;
    while a > 0 && '0' <= stem[a - 1] && stem[a - 1] <= '9'
        invariant
            0 <= a <= n,
            n == stem@.len(),
            digits_start(stem@, n as int) == digits_start(stem@, a as int),
            forall|k: int| a <= k < n ==> is_digit(#[trigger] stem@[k]),
        decreases a,
    {
        a = a - 1;
    }
    if a == n {
        return None;
    }
    let mut v: usize = 0;
    let mut i: usize = a;
    assert(stem@.subrange(a as int, a as int) =~= Seq::<char>::empty());
    while i < n
        invariant
            a <= i <= n,
            n == stem@.len(),
            a == digits_start(stem@, n as int),
            stem@ == file_stem(file_name@),
            forall|k: int| a <= k < n ==> is_digit(#[trigger] stem@[k]),
            v == digits_value(stem@.subrange(a as int, i as int)),
        decreases n - i,
    {
        let d = (stem[i] as u32 - '0' as u32) as usize;
        assert(is_digit(stem@[i as int]));
        assert(stem@.subrange(a as int, i + 1).drop_last() =~= stem@.subrange(a as int, i as int));
        assert(digits_value(stem@.subrange(a as int, i + 1)) == v * 10 + d);
        match v.checked_mul(10) {
            Some(t) => match t.checked_add(d) {
                Some(u) => {
                    v = u;
                },
                None => {
                    proof {
                        lemma_digits_value_grows(stem@.subrange(a as int, n as int), (i + 1 - a) as int);
                        assert(stem@.subrange(a as int, n as int).take((i + 1 - a) as int) =~= stem@.subrange(a as int, i + 1));
                    }
                    return None;
                },
            },
            None => {
                proof {
                    lemma_digits_value_grows(stem@.subrange(a as int, n as int), (i + 1 - a) as int);
                    assert(stem@.subrange(a as int, n as int).take((i + 1 - a) as int) =~= stem@.subrange(a as int, i + 1));
                }
                return None;
            },
        }
        i = i + 1;
    }
    Some(v)
}

/// A run of digits is worth at least any of its prefixes.
proof fn lemma_digits_value_grows(s: Seq<char>, k: int)
    requires
        0 <= k <= s.len(),
        forall|i: int| 0 <= i < s.len() ==> is_digit(#[trigger] s[i]),
    ensures
        digits_value(s.take(k)) <= digits_value(s),
    decreases s.len() - k,
{
    if k < s.len() {
        lemma_digits_value_grows(s, k + 1);
        let t = s.take(k + 1);
        assert(t.drop_last() =~= s.take(k));
        assert(digits_value(t) >= digits_value(s.take(k))) by (nonlinear_arith)
            requires
                digits_value(t) == digits_value(s.take(k)) * 10 + ((t.last() as u32) - ('0' as u32)) as nat,
        ;
    } else {
        assert(s.take(k) =~= s);
    }
}

/// A PNG, WebP or BMP file, by its extension in any case.
pub open spec fn is_frame_name(name: Seq<char>) -> bool {
    extension(name) matches Some(e) && (eq_ignore_case(e, "png"@) || eq_ignore_case(e, "webp"@)
        || eq_ignore_case(e, "bmp"@))
}

/// The frame files among `names`, with their trailing numbers, in order:
/// image files whose stem ends in a number.
pub open spec fn numbered(names: Seq<Seq<char>>) -> Seq<(usize, Seq<char>)>
    decreases names.len(),
{
    if names.len() == 0 {
        Seq::empty()
    } else if is_frame_name(names.last()) && spec_trailing_number(names.last()) is Some {
        numbered(names.drop_last()).push((spec_trailing_number(names.last())->0, names.last()))
    } else {
        numbered(names.drop_last())
    }
}

/// Inserts `x` after every frame whose number is not above its number.
pub open spec fn insert_frame(s: Seq<(usize, Seq<char>)>, x: (usize, Seq<char>)) -> Seq<(usize, Seq<char>)>
    decreases s.len(),
{
    if s.len() == 0 {
        seq![x]
    } else if s.last().0 <= x.0 {
        s.push(x)
    } else {
        insert_frame(s.drop_last(), x).push(s.last())
    }
}

/// The frames ordered by number; frames with equal numbers keep their order.
pub open spec fn sort_frames(s: Seq<(usize, Seq<char>)>) -> Seq<(usize, Seq<char>)>
    decreases s.len(),
{
    if s.len() == 0 {
        s
    } else {
        insert_frame(sort_frames(s.drop_last()), s.last())
    }
}

proof fn lemma_insert_frame_at(s: Seq<(usize, Seq<char>)>, x: (usize, Seq<char>), p: int)
    requires
        0 <= p <= s.len(),
        forall|q: int| p < q <= s.len() ==> x.0 < (#[trigger] s[q - 1]).0,
        p == 0 || s[p - 1].0 <= x.0,
    ensures
        insert_frame(s, x) == s.insert(p, x),
    decreases s.len(),
{
    if s.len() == 0 {
        assert(insert_frame(s, x) =~= s.insert(p, x));
    } else if s.last().0 <= x.0 {
        if p < s.len() {
            assert(x.0 < s[s.len() - 1].0);
        }
        assert(insert_frame(s, x) =~= s.insert(p, x));
    } else {
        assert(p < s.len());
        let t = s.drop_last();
        assert forall|q: int| p < q <= t.len() implies x.0 < (#[trigger] t[q - 1]).0 by {
            assert(t[q - 1] == s[q - 1]);
        }
        lemma_insert_frame_at(t, x, p);
        assert(insert_frame(s, x) =~= s.insert(p, x));
    }
}

/// Whether some frame carries the number `n`.
pub open spec fn has_number(s: Seq<(usize, Seq<char>)>, n: int) -> bool {
    exists|i: int| 0 <= i < s.len() && s[i].0 == n
}

/// Up to `want` numbers from `n` to `last` that no frame carries, in order.
pub open spec fn missing_from(s: Seq<(usize, Seq<char>)>, n: int, last: int, want: int) -> Seq<usize>
    decreases last + 1 - n,
{
    if n > last || want <= 0 {
        Seq::empty()
    } else if has_number(s, n) {
        missing_from(s, n + 1, last, want)
    } else {
        seq![n as usize] + missing_from(s, n + 1, last, want - 1)
    }
}

/// File names taken as character sequences.
pub open spec fn names_of(s: Seq<(usize, Seq<char>)>) -> Seq<Seq<char>> {
    Seq::new(s.len(), |i: int| s[i].1)
}

/// The frames of a numbered sequence in the folder `dir` holding the files
/// `names`, in frame order. The numbers must run without gaps (and without
/// repeats) from the first to the last, or the animation would silently skip;
/// the error names the first ten missing numbers.
pub open spec fn spec_sequence(dir: Seq<char>, names: Seq<Seq<char>>) -> Result<Seq<Seq<char>>, ErrorView> {
    let f = sort_frames(numbered(names));
    if f.len() == 0 {
        Err(ErrorView::NoFrames { dir })
    } else if f.len() != f.last().0 - f[0].0 + 1 {
        Err(
            ErrorView::FrameGap {
                dir,
                found: f.len() as usize,
                max: f.last().0,
                first: f[0].0,
                missing: missing_from(f, f[0].0 as int, f.last().0 as int, 10),
            },
        )
    } else {
        Ok(names_of(f))
    }
}

/// Whether the file `name` is a PNG, WebP or BMP.
fn is_frame_file(name: &[char]) -> (r: bool)
    ensures
        r == is_frame_name(name@),
{
    let (_, ext) = crate::import::split_extension(name);
    match ext {
        Some(e) => crate::text::eq_ignore_ascii_case(e.as_slice(), chars_of("png").as_slice())
            || crate::text::eq_ignore_ascii_case(e.as_slice(), chars_of("webp").as_slice())
            || crate::text::eq_ignore_ascii_case(e.as_slice(), chars_of("bmp").as_slice()),
        None => false,
    }
}

/// Frames taken as numbers and character sequences.
pub open spec fn frames_view(v: Seq<(usize, String)>) -> Seq<(usize, Seq<char>)> {
    Seq::new(v.len(), |i: int| (v[i].0, v[i].1@))
}

/// The frame files of a numbered sequence, in frame order (see `spec_sequence`).
pub fn sequence_frames(dir: &str, names: &[String]) -> (r: Result<Vec<String>, Error>)
    ensures
        r is Ok <==> spec_sequence(dir@, crate::import::strings_view(names@)) is Ok,
        r matches Ok(v) ==> spec_sequence(dir@, crate::import::strings_view(names@)) == Ok::<
            Seq<Seq<char>>,
            ErrorView,
        >(crate::import::strings_view(v@)),
        r matches Err(e) ==> spec_sequence(dir@, crate::import::strings_view(names@)) == Err::<
            Seq<Seq<char>>,
            ErrorView,
        >(e@),
{
    let ghost all = crate::import::strings_view(names@);
    let mut sorted: Vec<(usize, String)> = Vec::new();
    let mut k: usize = 0;
    assert(all.take(0) =~= Seq::<Seq<char>>::empty());
    assert(frames_view(sorted@) =~= Seq::<(usize, Seq<char>)>::empty());
    while k < names.len()
        invariant
            0 <= k <= names@.len(),
            all == crate::import::strings_view(names@),
            frames_view(sorted@) == sort_frames(numbered(all.take(k as int))),
        decreases names@.len() - k,
    {
        let c = chars_of(names[k].as_str());
        assert(all.take(k + 1).drop_last() =~= all.take(k as int));
        assert(all.take(k + 1).last() == c@);
        let ghost nk = numbered(all.take(k as int));
        if is_frame_file(c.as_slice()) {
            match trailing_number(names[k].as_str()) {
                Some(num) => {
                    let ghost xs = frames_view(sorted@);
                    let ghost x = (num, c@);
                    assert(numbered(all.take(k + 1)) == nk.push(x));
                    assert(nk.push(x).drop_last() =~= nk);
                    assert(sort_frames(nk.push(x)) == insert_frame(sort_frames(nk), x));
                    let mut p = sorted.len();
                    while p > 0 && num < sorted[p - 1].0
                        invariant
                            0 <= p <= sorted@.len(),
                            xs == frames_view(sorted@),
                            forall|q: int| p < q <= xs.len() ==> num < (#[trigger] xs[q - 1]).0,
                        decreases p,
                    {
                        p = p - 1;
                    }
                    proof {
                        lemma_insert_frame_at(xs, x, p as int);
                    }
                    sorted.insert(p, (num, names[k].clone()));
                    assert(frames_view(sorted@) =~= xs.insert(p as int, x));
                },
                None => {},
            }
        }
        k = k + 1;
    }
    assert(all.take(names@.len() as int) =~= all);
    let ghost f = frames_view(sorted@);
    let n = sorted.len();
    if n == 0 {
        return Err(Error::NoFrames { dir: dir.to_owned() });
    }
    let first = sorted[0].0;
    let last = sorted[n - 1].0;
    assert(f[0].0 == first && f.last().0 == last);
    if (n as u128) + (first as u128) != (last as u128) + 1 {
        let mut missing: Vec<usize> = Vec::new();
        let mut m: usize = first;
        let mut done = first > last;
        while !done && missing.len() < 10
            invariant
                first <= m,
                n == sorted@.len(),
                f == frames_view(sorted@),
                !done ==> m <= last,
                missing@.len() <= 10,
                missing@ + missing_from(f, if done { last + 1 } else { m as int }, last as int, 10 - missing@.len())
                    == missing_from(f, first as int, last as int, 10),
            decreases last - m + (if done { 0int } else { 1int }),
        {
            let mut present = false;
            let mut j: usize = 0;
            while j < n
                invariant
                    0 <= j <= n,
                    n == sorted@.len(),
                    f == frames_view(sorted@),
                    present == exists|i: int| 0 <= i < j && f[i].0 == m,
                decreases n - j,
            {
                assert(f[j as int].0 == sorted@[j as int].0);
                if sorted[j].0 == m {
                    present = true;
                }
                j = j + 1;
            }
            let ghost before = missing@;
            let ghost want = 10 - missing@.len();
            if !present {
                missing.push(m);
                assert(before + missing_from(f, m as int, last as int, want) =~= missing@ + missing_from(
                    f,
                    m + 1,
                    last as int,
                    want - 1,
                ));
            }
            if m == last {
                done = true;
                assert(missing_from(f, last + 1, last as int, 10 - missing@.len()) =~= Seq::<usize>::empty());
            } else {
                m = m + 1;
            }
        }
        assert(missing_from(f, if done { last + 1 } else { m as int }, last as int, 10 - missing@.len()) =~= Seq::<usize>::empty());
        return Err(Error::FrameGap { dir: dir.to_owned(), found: n, max: last, first, missing });
    }
    let mut out: Vec<String> = Vec::new();
    let mut i: usize = 0;
    while i < n
        invariant
            0 <= i <= n,
            n == sorted@.len(),
            f == frames_view(sorted@),
            crate::import::strings_view(out@) =~= names_of(f).take(i as int),
        decreases n - i,
    {
        let ghost before = crate::import::strings_view(out@);
        out.push(sorted[i].1.clone());
        assert(crate::import::strings_view(out@) =~= before.push(f[i as int].1));
        i = i + 1;
    }
    assert(names_of(f).take(n as int) =~= names_of(f));
    Ok(out)
}

/// What `check_frame` gives, with errors taken as their views.
pub open spec fn spec_check_frame(first: Option<(u32, u32)>, path: Seq<char>, w: u32, h: u32) -> Result<
    (u32, u32),
    ErrorView,
> {
    match first {
        None => if (if w < h {
            w
        } else {
            h
        }) < crate::MIN_SOURCE_PX {
            Err(ErrorView::SourceTooSmall { path, got: if w < h { w } else { h }, want: crate::MIN_SOURCE_PX })
        } else {
            Ok((w, h))
        },
        Some(d) => if d == (w, h) {
            Ok(d)
        } else {
            Err(ErrorView::FrameSizeMismatch { path, w, h, fw: d.0, fh: d.1 })
        },
    }
}

/// Check the size of one frame of art at `path`, `w`x`h`, given the first
/// frame's size if this is not the first: the first must be at least
/// `MIN_SOURCE_PX` on its short side, and every later one must match it.
/// Gives the first frame's size.
pub fn check_frame(first: Option<(u32, u32)>, path: &str, w: u32, h: u32) -> (r: Result<(u32, u32), Error>)
    ensures
        first is None && (if w < h { w } else { h }) < crate::MIN_SOURCE_PX ==> (r matches Err(e) && e@
            == (ErrorView::SourceTooSmall {
            path: path@,
            got: if w < h {
                w
            } else {
                h
            },
            want: crate::MIN_SOURCE_PX,
        })),
        first is None && (if w < h { w } else { h }) >= crate::MIN_SOURCE_PX ==> r == Ok::<(u32, u32), Error>((w, h)),
        first matches Some(d) ==> (if d == (w, h) {
            r == Ok::<(u32, u32), Error>(d)
        } else {
            r matches Err(e) && e@ == (ErrorView::FrameSizeMismatch { path: path@, w, h, fw: d.0, fh: d.1 })
        }),
        r matches Ok(d) ==> spec_check_frame(first, path@, w, h) == Ok::<(u32, u32), ErrorView>(d),
        r matches Err(e) ==> spec_check_frame(first, path@, w, h) == Err::<(u32, u32), ErrorView>(e@),
{
    match first {
        None => {
            let got = if w < h {
                w
            } else {
                h
            };
            if got < crate::MIN_SOURCE_PX {
                Err(Error::SourceTooSmall { path: path.to_owned(), got, want: crate::MIN_SOURCE_PX })
            } else {
                Ok((w, h))
            }
        },
        Some((fw, fh)) => {
            if w != fw || h != fh {
                Err(Error::FrameSizeMismatch { path: path.to_owned(), w, h, fw, fh })
            } else {
                Ok((fw, fh))
            }
        },
    }
}

/// How a sprite sheet divides: each cell's width and height, and how many
/// cells are frames.
pub struct SheetCells {
    pub cell_w: u32,
    pub cell_h: u32,
    pub count: u32,
}

/// What `sheet_cells` gives, as cell width, cell height and frame count, with
/// errors taken as their views.
pub open spec fn spec_sheet_cells(path: Seq<char>, w: u32, h: u32, grid: Grid) -> Result<(u32, u32, u32), ErrorView> {
    let capacity = (grid.cols * grid.rows) as u32;
    let count = match grid.frames {
        Some(f) => f,
        None => capacity,
    };
    let cw = (w / grid.cols) as u32;
    let ch = (h / grid.rows) as u32;
    let got = if cw < ch {
        cw
    } else {
        ch
    };
    if w % grid.cols != 0 || h % grid.rows != 0 {
        Err(ErrorView::SheetNotDivisible { path, w, h, cols: grid.cols, rows: grid.rows })
    } else if count == 0 || count > capacity {
        Err(ErrorView::SheetFrameCount { path, frames: count, cols: grid.cols, rows: grid.rows, capacity })
    } else if got < crate::MIN_SOURCE_PX {
        Err(ErrorView::SourceTooSmall { path, got, want: crate::MIN_SOURCE_PX })
    } else {
        Ok((cw, ch, count))
    }
}

/// Divide the `w`x`h` sprite sheet at `path` by its grid: the grid must divide
/// it evenly, the frame count (the whole grid unless given) must be 1 to the
/// grid's capacity, and a cell must be at least `MIN_SOURCE_PX` on its short
/// side.
pub fn sheet_cells(path: &str, w: u32, h: u32, grid: Grid) -> (r: Result<SheetCells, Error>)
    requires
        grid.cols > 0,
        grid.rows > 0,
        grid.cols * grid.rows <= u32::MAX,
    ensures
        ({
            let capacity = (grid.cols * grid.rows) as u32;
            let count = match grid.frames {
                Some(f) => f,
                None => capacity,
            };
            let cw = (w / grid.cols) as u32;
            let ch = (h / grid.rows) as u32;
            let got = if cw < ch {
                cw
            } else {
                ch
            };
            if w % grid.cols != 0 || h % grid.rows != 0 {
                r matches Err(e) && e@ == (ErrorView::SheetNotDivisible {
                    path: path@,
                    w,
                    h,
                    cols: grid.cols,
                    rows: grid.rows,
                })
            } else if count == 0 || count > capacity {
                r matches Err(e) && e@ == (ErrorView::SheetFrameCount {
                    path: path@,
                    frames: count,
                    cols: grid.cols,
                    rows: grid.rows,
                    capacity,
                })
            } else if got < crate::MIN_SOURCE_PX {
                r matches Err(e) && e@ == (ErrorView::SourceTooSmall {
                    path: path@,
                    got,
                    want: crate::MIN_SOURCE_PX,
                })
            } else {
                r matches Ok(c) && c.cell_w == cw && c.cell_h == ch && c.count == count
            }
        }),
        r matches Ok(c) ==> spec_sheet_cells(path@, w, h, grid) == Ok::<(u32, u32, u32), ErrorView>(
            (c.cell_w, c.cell_h, c.count),
        ),
        r matches Err(e) ==> spec_sheet_cells(path@, w, h, grid) == Err::<(u32, u32, u32), ErrorView>(e@),
{
    if w % grid.cols != 0 || h % grid.rows != 0 {
        return Err(
            Error::SheetNotDivisible { path: path.to_owned(), w, h, cols: grid.cols, rows: grid.rows },
        );
    }
    let capacity = grid.cols * grid.rows;
    let count = match grid.frames {
        Some(f) => f,
        None => capacity,
    };
    if count == 0 || count > capacity {
        return Err(
            Error::SheetFrameCount {
                path: path.to_owned(),
                frames: count,
                cols: grid.cols,
                rows: grid.rows,
                capacity,
            },
        );
    }
    let cw = w / grid.cols;
    let ch = h / grid.rows;
    let got = if cw < ch {
        cw
    } else {
        ch
    };
    if got < crate::MIN_SOURCE_PX {
        return Err(Error::SourceTooSmall { path: path.to_owned(), got, want: crate::MIN_SOURCE_PX });
    }
    Ok(SheetCells { cell_w: cw, cell_h: ch, count })
}

/// The top-left corner of cell `i`, reading the grid left to right and top to
/// bottom.
pub fn cell_origin(i: u32, cols: u32, cell_w: u32, cell_h: u32) -> (r: (u32, u32))
    requires
        cols > 0,
        (cols as int) * (cell_w as int) <= u32::MAX,
        ((i / cols) as int) * (cell_h as int) <= u32::MAX,
    ensures
        r.0 == (i % cols) * cell_w,
        r.1 == (i / cols) * cell_h,
{
    let cx = i % cols;
    let cy = i / cols;
    assert(cx * cell_w <= cols * cell_w) by (nonlinear_arith)
        requires
            cx < cols,
    ;
    (cx * cell_w, cy * cell_h)
}

/// The side of the square canvas `w`x`h` art is padded into, top-left
/// anchored so hotspot coordinates stay predictable, and the warning when
/// padding was needed.
pub fn pad_square(path: &str, w: u32, h: u32) -> (r: (u32, Option<Warning>))
    ensures
        w == h ==> r.0 == w && r.1 is None,
        w != h ==> r.0 == (if w > h { w } else { h }),
        w != h ==> (r.1 matches Some(Warning::Padded { path: p, from_w, from_h, to }) && p@ == path@
            && from_w == w && from_h == h && to == r.0),
{
    if w == h {
        return (w, None);
    }
    let side = if w > h {
        w
    } else {
        h
    };
    (side, Some(Warning::Padded { path: path.to_owned(), from_w: w, from_h: h, to: side }))
}

/// The sizes among `sizes` above the art's native size `native`, in order.
pub open spec fn upscaled_sizes(sizes: Seq<u32>, native: u32) -> Seq<u32>
    decreases sizes.len(),
{
    if sizes.len() == 0 {
        Seq::empty()
    } else if sizes.last() > native {
        upscaled_sizes(sizes.drop_last(), native).push(sizes.last())
    } else {
        upscaled_sizes(sizes.drop_last(), native)
    }
}

/// Warnings that depend on the sizes requested: one for each size that is an
/// upscale of raster art `native` pixels wide. Vector art (`native` is
/// `None`) is exact at any size.
pub fn size_warnings(native: Option<u32>, path: &str, sizes: &[u32]) -> (r: Vec<Warning>)
    ensures
        native is None ==> r@.len() == 0,
        native matches Some(n) ==> r@.len() == upscaled_sizes(sizes@, n).len() && forall|i: int|
            0 <= i < r@.len() ==> (#[trigger] r@[i] matches Warning::Upscaled { path: p, native: m, requested: q }
                && p@ == path@ && m == n && q == upscaled_sizes(sizes@, n)[i]),
{
    let mut out: Vec<Warning> = Vec::new();
    match native {
        None => out,
        Some(n) => {
            let mut k: usize = 0;
            assert(sizes@.take(0) =~= Seq::<u32>::empty());
            while k < sizes.len()
                invariant
                    0 <= k <= sizes@.len(),
                    out@.len() == upscaled_sizes(sizes@.take(k as int), n).len(),
                    forall|i: int|
                        0 <= i < out@.len() ==> (#[trigger] out@[i] matches Warning::Upscaled { path: p, native: m, requested: q }
                            && p@ == path@ && m == n && q == upscaled_sizes(sizes@.take(k as int), n)[i]),
                decreases sizes@.len() - k,
            {
                let s = sizes[k];
                let ghost before = upscaled_sizes(sizes@.take(k as int), n);
                assert(sizes@.take(k + 1).drop_last() =~= sizes@.take(k as int));
                assert(sizes@.take(k + 1).last() == s);
                if s > n {
                    out.push(Warning::Upscaled { path: path.to_owned(), native: n, requested: s });
                    assert(upscaled_sizes(sizes@.take(k + 1), n) == before.push(s));
                }
                k = k + 1;
            }
            assert(sizes@.take(sizes@.len() as int) =~= sizes@);
            out
        },
    }
}

/// The delay of a GIF frame in milliseconds from its numerator and
/// denominator: 100 when the denominator is 0.
pub fn gif_delay_ms(num: u32, den: u32) -> (r: u32)
    ensures
        r == if den == 0 {
            100
        } else {
            num / den
        },
{
    if den == 0 {
        100
    } else {
        num / den
    }
}

/// A colour channel `v` scaled by alpha `a`, rounded to nearest.
pub open spec fn premul_channel(v: u8, a: u8) -> u8 {
    ((v * a + 127) / 255) as u8
}

/// A premultiplied channel `v` divided back by alpha `a`, rounded to nearest
/// and capped at 255; 0 where the pixel is fully transparent.
pub open spec fn unpremul_channel(v: u8, a: u8) -> u8 {
    if a == 0 {
        0
    } else if (v * 255 + a / 2) / (a as int) > 255 {
        255
    } else {
        ((v * 255 + a / 2) / (a as int)) as u8
    }
}

/// The alpha of the pixel that byte `i` belongs to.
pub open spec fn alpha_of(px: Seq<u8>, i: int) -> u8 {
    px[i - i % 4 + 3]
}

/// RGBA bytes with the colour channels of the first `n` pixels premultiplied
/// by their alpha; alpha and any later bytes unchanged.
pub open spec fn premultiplied(px: Seq<u8>, n: int) -> Seq<u8> {
    Seq::new(
        px.len(),
        |i: int|
            if i < 4 * n && i % 4 != 3 {
                premul_channel(px[i], alpha_of(px, i))
            } else {
                px[i]
            },
    )
}

/// RGBA bytes with the colour channels of the first `n` pixels divided back by
/// their alpha; alpha and any later bytes unchanged.
pub open spec fn unpremultiplied(px: Seq<u8>, n: int) -> Seq<u8> {
    Seq::new(
        px.len(),
        |i: int|
            if i < 4 * n && i % 4 != 3 {
                unpremul_channel(px[i], alpha_of(px, i))
            } else {
                px[i]
            },
    )
}

/// Scale the colour channels of the first `n` RGBA pixels by their alpha.
#[verifier::spinoff_prover]
#[verifier::rlimit(40)]
pub fn premultiply(px: &mut Vec<u8>, n: usize)
    requires
        4 * n <= old(px)@.len(),
    ensures
        final(px)@ == premultiplied(old(px)@, n as int),
{
    let ghost orig = px@;
    let len = px.len();
    let mut k: usize = 0;
    while k < n
        invariant
            0 <= k <= n,
            len == orig.len(),
            4 * n <= orig.len(),
            px@.len() == orig.len(),
            forall|i: int|
                0 <= i < px@.len() ==> #[trigger] px@[i] == if i < 4 * k && i % 4 != 3 {
                    premul_channel(orig[i], alpha_of(orig, i))
                } else {
                    orig[i]
                },
        decreases n - k,
    {
        let base = 4 * k;
        let a = px[base + 3];
        assert(a == alpha_of(orig, base + 0) && a == alpha_of(orig, base + 1) && a == alpha_of(orig, base + 2));
        let mut c: usize = 0;
        while c < 3
            invariant
                0 <= c <= 3,
                base == 4 * k,
                k < n,
                4 * n <= orig.len(),
                px@.len() == orig.len(),
                a == orig[base + 3],
                forall|i: int|
                    0 <= i < px@.len() ==> #[trigger] px@[i] == if (i < 4 * k || (base <= i < base + c)) && i % 4 != 3 {
                        premul_channel(orig[i], alpha_of(orig, i))
                    } else {
                        orig[i]
                    },
            decreases 3 - c,
        {
            let v = px[base + c];
            assert((base + c) % 4 == c);
            assert(alpha_of(orig, base + c) == a);
            assert((v as u32) * (a as u32) <= 65025) by (nonlinear_arith)
                requires
                    v <= 255,
                    a <= 255,
            ;
            let p = ((v as u32 * a as u32 + 127) / 255) as u8;
            px.set(base + c, p);
            c = c + 1;
        }
        k = k + 1;
    }
    assert(px@ =~= premultiplied(orig, n as int));
}

/// Divide the colour channels of the first `n` RGBA pixels back by their alpha.
#[verifier::spinoff_prover]
pub fn unpremultiply(px: &mut Vec<u8>, n: usize)
    requires
        4 * n <= old(px)@.len(),
    ensures
        final(px)@ == unpremultiplied(old(px)@, n as int),
{
    let ghost orig = px@;
    let len = px.len();
    let mut k: usize = 0;
    while k < n
        invariant
            0 <= k <= n,
            len == orig.len(),
            4 * n <= orig.len(),
            px@.len() == orig.len(),
            forall|i: int|
                0 <= i < px@.len() ==> #[trigger] px@[i] == if i < 4 * k && i % 4 != 3 {
                    unpremul_channel(orig[i], alpha_of(orig, i))
                } else {
                    orig[i]
                },
        decreases n - k,
    {
        let base = 4 * k;
        let a = px[base + 3];
        let mut c: usize = 0;
        while c < 3
            invariant
                0 <= c <= 3,
                base == 4 * k,
                k < n,
                4 * n <= orig.len(),
                px@.len() == orig.len(),
                a == orig[base + 3],
                forall|i: int|
                    0 <= i < px@.len() ==> #[trigger] px@[i] == if (i < 4 * k || (base <= i < base + c)) && i % 4 != 3 {
                        unpremul_channel(orig[i], alpha_of(orig, i))
                    } else {
                        orig[i]
                    },
            decreases 3 - c,
        {
            let v = px[base + c];
            assert(alpha_of(orig, base + c) == a);
            let u: u8 = if a == 0 {
                0
            } else {
                let x = (v as u32 * 255 + a as u32 / 2) / a as u32;
                if x > 255 {
                    255
                } else {
                    x as u8
                }
            };
            px.set(base + c, u);
            c = c + 1;
        }
        k = k + 1;
    }
    assert(px@ =~= unpremultiplied(orig, n as int));
}

/// Premultiplying a channel and dividing it back moves it by at most 4 where
/// alpha is at least 29.
pub proof fn lemma_channel_round_trip(v: u8, a: u8)
    requires
        a >= 29,
    ensures
        unpremul_channel(premul_channel(v, a), a) <= v + 4,
        v <= unpremul_channel(premul_channel(v, a), a) + 4,
{
    let vi = v as int;
    let ai = a as int;
    let p = (vi * ai + 127) / 255;
    assert(0 <= vi * ai <= 255 * 255) by (nonlinear_arith)
        requires
            0 <= vi <= 255,
            0 <= ai <= 255,
    ;
    assert(255 * p <= vi * ai + 127 < 255 * p + 255);
    assert(p <= 255);
    assert(premul_channel(v, a) == p);
    let h = ai / 2;
    let x = (p * 255 + h) / ai;
    assert(ai * x <= p * 255 + h < ai * x + ai) by (nonlinear_arith)
        requires
            ai > 0,
            x == (p * 255 + h) / ai,
            p * 255 + h >= 0,
    ;
    assert(x <= vi + 4) by (nonlinear_arith)
        requires
            ai * x <= p * 255 + h,
            255 * p <= vi * ai + 127,
            2 * h <= ai,
            ai >= 29,
    ;
    assert(vi <= x + 4) by (nonlinear_arith)
        requires
            p * 255 + h < ai * x + ai,
            vi * ai + 127 < 255 * p + 255,
            2 * h + 1 >= ai,
            ai >= 29,
    ;
}

/// Premultiplying RGBA pixels and dividing them back keeps every alpha
/// exactly, and moves each colour channel of a pixel with alpha at least 29
/// by at most 4.
pub proof fn lemma_premultiply_round_trip(px: Seq<u8>, n: int, i: int)
    requires
        0 <= n,
        4 * n <= px.len(),
        0 <= i < px.len(),
    ensures
        unpremultiplied(premultiplied(px, n), n).len() == px.len(),
        i % 4 == 3 || i >= 4 * n ==> unpremultiplied(premultiplied(px, n), n)[i] == px[i],
        i < 4 * n && alpha_of(px, i) >= 29 ==> unpremultiplied(premultiplied(px, n), n)[i] <= px[i] + 4
            && px[i] <= unpremultiplied(premultiplied(px, n), n)[i] + 4,
{
    let q = premultiplied(px, n);
    if i < 4 * n {
        let j = i - i % 4 + 3;
        assert(j % 4 == 3 && j < 4 * n && j < px.len());
        assert(q[j] == px[j]);
        assert(alpha_of(q, i) == alpha_of(px, i));
        if i % 4 != 3 && alpha_of(px, i) >= 29 {
            lemma_channel_round_trip(px[i], alpha_of(px, i));
        }
    }
}

/// `image::imageops::resize` with `FilterType::Lanczos3`, on the `from`x`from`
/// RGBA pixels at the start of `rgba`: a `to`x`to` RGBA image, four bytes per
/// pixel. The filter weights come from floating-point `sin`, whose precision
/// std leaves open, so which bytes come out is not stated.
#[verifier::external_body]
fn resize_lanczos3(rgba: Vec<u8>, from: u32, to: u32) -> (r: Vec<u8>)
    requires
        rgba@.len() >= 4 * ((from as int) * (from as int)),
        to > 0,
        4 * ((to as int) * (to as int)) <= usize::MAX,
    ensures
        r@.len() == 4 * ((to as int) * (to as int)),
{
    let img = image::RgbaImage::from_raw(from, from, rgba).unwrap();
    image::imageops::resize(&img, to, to, image::imageops::FilterType::Lanczos3).into_raw()
}

/// Resize a square RGBA buffer, resampling in premultiplied space so soft
/// edges do not pick up a dark fringe; the buffer must hold at least
/// `from`x`from` pixels. The same size gives the buffer back; another gives
/// `to`x`to` pixels divided back out of premultiplied form.
pub fn resize_rgba(rgba: &[u8], from: u32, to: u32) -> (r: Result<Vec<u8>, Error>)
    requires
        to > 0,
        4 * ((to as int) * (to as int)) <= usize::MAX,
    ensures
        rgba@.len() < 4 * ((from as int) * (from as int)) ==> (r matches Err(e) && e@ == ErrorView::NotRgba { size: from }),
        rgba@.len() >= 4 * ((from as int) * (from as int)) && from == to ==> (r matches Ok(v) && v@ == rgba@),
        rgba@.len() >= 4 * ((from as int) * (from as int)) && from != to ==> (r matches Ok(v) && v@.len() == 4 * (
        (to as int) * (to as int)) && exists|x: Seq<u8>|
            x.len() == v@.len() && v@ == #[trigger] unpremultiplied(x, (to as int) * (to as int))),
{
    assert((from as u128) * (from as u128) <= 0xFFFF_FFFF_FFFF_FFFF_FFFF) by (nonlinear_arith)
        requires
            from <= 0xFFFF_FFFF,
    ;
    let need = 4 * ((from as u128) * (from as u128));
    if (rgba.len() as u128) < need {
        return Err(Error::NotRgba { size: from });
    }
    let mut copy = crate::text::copy_bytes(rgba);
    if from == to {
        return Ok(copy);
    }
    assert((from as int) * (from as int) <= rgba@.len());
    let n = from as usize * from as usize;
    premultiply(&mut copy, n);
    let mut out = resize_lanczos3(copy, from, to);
    let ghost resampled = out@;
    unpremultiply(&mut out, to as usize * to as usize);
    assert(out@ == unpremultiplied(resampled, (to as int) * (to as int)));
    Ok(out)
}

} // verus!
