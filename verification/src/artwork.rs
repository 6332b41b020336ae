//! Raster art as square RGBA frames: decoding images with `image`, cutting
//! sprite sheets into cells, padding non-square art, and checking that the
//! frames of an animation agree.
use crate::compile::{dedup_runs, dedup_warnings};
use crate::error::{Error, ErrorView};
use crate::manifest::Grid;
use crate::raster::{check_frame, cell_origin, pad_square, gif_delay_ms, sheet_cells, spec_check_frame, spec_sheet_cells, warnings_view, Warning, WarningView};
use image::AnimationDecoder;
use vstd::prelude::*;

verus! {

/// The side of the square that `w`x`h` art is padded into.
pub open spec fn side_of(w: u32, h: u32) -> u32 {
    if w > h {
        w
    } else {
        h
    }
}

/// Byte `i` of the `w`x`h` RGBA pixels `px` placed at the top-left of a
/// square of `side`: the byte of the pixel at the same place, or 0
/// (transparent) outside the art.
pub open spec fn padded_byte(px: Seq<u8>, w: int, h: int, side: int, i: int) -> u8 {
    if (i / 4) % side < w && (i / 4) / side < h {
        px[4 * (((i / 4) / side) * w + (i / 4) % side) + i % 4]
    } else {
        0
    }
}

/// The `w`x`h` RGBA pixels `px` padded into a square, top-left anchored.
pub open spec fn spec_pad(px: Seq<u8>, w: u32, h: u32) -> Seq<u8> {
    let s = side_of(w, h) as int;
    Seq::new((4 * (s * s)) as nat, |i: int| padded_byte(px, w as int, h as int, s, i))
}

/// Pad `w`x`h` RGBA pixels into a square of the larger side, with the art at
/// the top-left and transparent pixels elsewhere.
pub fn pad_to_square(px: &[u8], w: u32, h: u32) -> (r: Vec<u8>)
    requires
        px@.len() == 4 * ((w as int) * (h as int)),
        4 * ((side_of(w, h) as int) * (side_of(w, h) as int)) <= usize::MAX,
    ensures
        r@ == spec_pad(px@, w, h),
{
    let s: usize = if w > h {
        w as usize
    } else {
        h as usize
    };
    assert((s as int) * (s as int) <= 4 * ((s as int) * (s as int))) by (nonlinear_arith);
    let total: usize = 4 * (s * s);
    let wu = w as usize;
    let hu = h as usize;
    let n = px.len();
    let mut out: Vec<u8> = Vec::new();
    let mut i: usize = 0;
    while i < total
        invariant
            0 <= i <= total,
            total == 4 * ((s as int) * (s as int)),
            s == side_of(w, h),
            wu == w && hu == h,
            n == px@.len(),
            px@.len() == 4 * ((w as int) * (h as int)),
            out@.len() == i,
            forall|k: int| 0 <= k < i ==> #[trigger] out@[k] == padded_byte(px@, w as int, h as int, s as int, k),
        decreases total - i,
    {
        assert(s > 0) by (nonlinear_arith)
            requires
                i < total,
                total == 4 * ((s as int) * (s as int)),
        ;
        let p = i / 4;
        let x = p % s;
        let y = p / s;
        let b: u8 = if x < wu && y < hu {
            assert((y as int) * (w as int) + (x as int) + 1 <= (w as int) * (h as int)) by (nonlinear_arith)
                requires
                    y < h,
                    x < w,
            ;
            px[4 * (y * wu + x) + i % 4]
        } else {
            0
        };
        out.push(b);
        i = i + 1;
    }
    assert(out@ =~= spec_pad(px@, w, h));
    out
}

/// The cell of `cw`x`ch` pixels at `(x0, y0)` of RGBA pixels `w` wide.
pub open spec fn spec_cell(px: Seq<u8>, w: int, x0: int, y0: int, cw: int, ch: int) -> Seq<u8> {
    Seq::new(
        (4 * (cw * ch)) as nat,
        |i: int| px[4 * ((y0 + (i / 4) / cw) * w + x0 + (i / 4) % cw) + i % 4],
    )
}

/// Copy out the cell of `cw`x`ch` pixels whose top-left corner is at
/// `(x0, y0)`, from RGBA pixels `w` wide.
pub fn cell_pixels(px: &[u8], w: u32, x0: u32, y0: u32, cw: u32, ch: u32) -> (r: Vec<u8>)
    requires
        x0 + cw <= w,
        4 * ((y0 + ch) * w) <= px@.len(),
    ensures
        r@ == spec_cell(px@, w as int, x0 as int, y0 as int, cw as int, ch as int),
{
    let n = px.len();
    assert((cw as int) * (ch as int) <= (w as int) * ((y0 + ch) as int)) by (nonlinear_arith)
        requires
            cw <= w,
            ch <= y0 + ch,
    ;
    let total: usize = 4 * (cw as usize * ch as usize);
    let mut out: Vec<u8> = Vec::new();
    let mut i: usize = 0;
    while i < total
        invariant
            0 <= i <= total,
            n == px@.len(),
            total == 4 * ((cw as int) * (ch as int)),
            x0 + cw <= w,
            4 * ((y0 + ch) * w) <= px@.len(),
            out@.len() == i,
            forall|k: int|
                0 <= k < i ==> #[trigger] out@[k] == px@[4 * ((y0 + (k / 4) / (cw as int)) * w + x0 + (k / 4) % (
                cw as int)) + k % 4],
        decreases total - i,
    {
        let p = i / 4;
        assert(cw > 0 && p < (cw as int) * (ch as int)) by (nonlinear_arith)
            requires
                i < total,
                total == 4 * ((cw as int) * (ch as int)),
                p == i / 4,
        ;
        let row = p / cw as usize;
        let col = p % cw as usize;
        assert(row < ch) by (nonlinear_arith)
            requires
                cw > 0,
                p < (cw as int) * (ch as int),
                row == (p as int) / (cw as int),
        ;
        assert(((y0 + row) as int) * (w as int) + x0 + col + 1 <= ((y0 + ch) as int) * (w as int) && y0 + row
            <= ((y0 + ch) as int) * (w as int)) by (nonlinear_arith)
            requires
                row < ch,
                col < cw,
                x0 + cw <= w,
        ;
        let idx = 4 * ((y0 as usize + row) * w as usize + x0 as usize + col) + i % 4;
        out.push(px[idx]);
        i = i + 1;
    }
    assert(out@ =~= spec_cell(px@, w as int, x0 as int, y0 as int, cw as int, ch as int));
    out
}

/// A decoded image taken as a view: width, height and RGBA pixels, or the
/// decoder's message.
pub type DecodedView = Result<(u32, u32, Seq<u8>), Seq<char>>;

/// A decoded image taken as a view.
pub open spec fn decoded_view(d: Result<(u32, u32, Vec<u8>), String>) -> DecodedView {
    match d {
        Ok((w, h, px)) => Ok((w, h, px@)),
        Err(m) => Err(m@),
    }
}

/// A decoded image holds four bytes for each of its `w`x`h` pixels.
pub open spec fn well_decoded(d: DecodedView) -> bool {
    d matches Ok((w, h, px)) ==> px.len() == 4 * ((w as int) * (h as int))
}

/// The name of what `image::open` makes of `bytes` read from the file at
/// `path` (whose extension names the format), converted to RGBA: width,
/// height and pixels, or the text of the decoder's error.
pub uninterp spec fn decoded_rgba(bytes: Seq<u8>, path: Seq<char>) -> Result<(u32, u32, Seq<u8>), Seq<char>>;

/// `image::ImageFormat::from_path` on `path`, then
/// `image::load_from_memory_with_format` on `bytes` and `to_rgba8`; an error
/// is given as its text. These are the steps `image::open` takes on a file,
/// and they are integer work on the bytes and the extension alone; for a
/// file name ending in a bare `.`, `from_path` names the empty extension in
/// its error where `image::open` reports an unknown format. The pixels are
/// four bytes for each of the `w`x`h` pixels.
#[verifier::external_body]
fn decode_raster(bytes: &[u8], path: &str) -> (r: Result<(u32, u32, Vec<u8>), String>)
    ensures
        decoded_view(r) == decoded_rgba(bytes@, path@),
        well_decoded(decoded_view(r)),
{
    let format = image::ImageFormat::from_path(path).map_err(|e| e.to_string())?;
    let img = image::load_from_memory_with_format(bytes, format).map_err(|e| e.to_string())?;
    let img = img.to_rgba8();
    Ok((img.width(), img.height(), img.into_raw()))
}

/// A decoded GIF frame: delay numerator and denominator in milliseconds,
/// width, height and RGBA pixels.
pub type GifFrameView = (u32, u32, u32, u32, Seq<u8>);

/// Decoded GIF frames taken as views.
pub open spec fn gif_view(v: Seq<(u32, u32, u32, u32, Vec<u8>)>) -> Seq<GifFrameView> {
    Seq::new(v.len(), |i: int| (v[i].0, v[i].1, v[i].2, v[i].3, v[i].4@))
}

/// A decoded GIF taken as a view: its frames, or the decoder's message.
pub open spec fn gif_decoded_view(d: Result<Vec<(u32, u32, u32, u32, Vec<u8>)>, String>) -> Result<
    Seq<GifFrameView>,
    Seq<char>,
> {
    match d {
        Ok(v) => Ok(gif_view(v@)),
        Err(m) => Err(m@),
    }
}

/// Every frame holds four bytes for each of its `w`x`h` pixels.
pub open spec fn well_decoded_gif(d: Result<Seq<GifFrameView>, Seq<char>>) -> bool {
    d matches Ok(fs) ==> forall|k: int|
        0 <= k < fs.len() ==> (#[trigger] fs[k]).4.len() == 4 * ((fs[k].2 as int) * (fs[k].3 as int))
}

/// The name of the frames `image`'s GIF decoder composes from `bytes`, or the
/// text of its error.
pub uninterp spec fn decoded_gif(bytes: Seq<u8>) -> Result<Seq<GifFrameView>, Seq<char>>;

/// `image::codecs::gif::GifDecoder` on `bytes`, its frames collected: each
/// with its delay as a ratio of milliseconds and its composed RGBA canvas, four
/// bytes for each of its `w`x`h` pixels; an error is given as its text.
/// Decoding is integer work on the bytes alone.
#[verifier::external_body]
fn decode_gif(bytes: &[u8]) -> (r: Result<Vec<(u32, u32, u32, u32, Vec<u8>)>, String>)
    ensures
        gif_decoded_view(r) == decoded_gif(bytes@),
        well_decoded_gif(gif_decoded_view(r)),
{
    let decoder = image::codecs::gif::GifDecoder::new(std::io::Cursor::new(bytes)).map_err(|e| e.to_string())?;
    let frames = decoder.into_frames().collect_frames().map_err(|e| e.to_string())?;
    Ok(
        frames.into_iter().map(|f| {
            let (num, den) = f.delay().numer_denom_ms();
            let buf = f.into_buffer();
            (num, den, buf.width(), buf.height(), buf.into_raw())
        }).collect(),
    )
}

/// Art made square: its side, its pixels, and the warning when it had to be
/// padded; an error when the square would not fit in memory.
pub open spec fn spec_square(path: Seq<char>, w: u32, h: u32, px: Seq<u8>) -> Result<
    (u32, Seq<u8>, Option<WarningView>),
    ErrorView,
> {
    if w == h {
        Ok((w, px, None))
    } else if 4 * ((side_of(w, h) as int) * (side_of(w, h) as int)) > usize::MAX {
        Err(ErrorView::CanvasTooLarge { path, side: side_of(w, h) })
    } else {
        Ok(
            (
                side_of(w, h),
                spec_pad(px, w, h),
                Some(WarningView::Padded { path, from_w: w, from_h: h, to: side_of(w, h) }),
            ),
        )
    }
}

/// A warning, if any, as a list.
pub open spec fn opt_seq(o: Option<WarningView>) -> Seq<WarningView> {
    match o {
        Some(w) => seq![w],
        None => Seq::empty(),
    }
}

/// Make the `w`x`h` art at `path` square (see `spec_square`).
fn square_frame(path: &str, w: u32, h: u32, px: Vec<u8>) -> (r: Result<(u32, Vec<u8>, Option<Warning>), Error>)
    requires
        px@.len() == 4 * ((w as int) * (h as int)),
    ensures
        r matches Ok(t) ==> spec_square(path@, w, h, px@) == Ok::<_, ErrorView>(
            (
                t.0,
                t.1@,
                match t.2 {
                    Some(x) => Some(x@),
                    None => None,
                },
            ),
        ),
        r matches Err(e) ==> spec_square(path@, w, h, px@) == Err::<(u32, Seq<u8>, Option<WarningView>), ErrorView>(e@),
{
    let (side, warn) = pad_square(path, w, h);
    if w == h {
        return Ok((w, px, None));
    }
    assert((side as int) * (side as int) <= 0xFFFF_FFFF * 0xFFFF_FFFF) by (nonlinear_arith)
        requires
            side <= 0xFFFF_FFFF,
    ;
    if 4 * ((side as u128) * (side as u128)) > usize::MAX as u128 {
        return Err(Error::CanvasTooLarge { path: path.to_owned(), side });
    }
    let padded = pad_to_square(px.as_slice(), w, h);
    Ok((side, padded, warn))
}

/// Raster art as square frames, each with its side, and the per-frame delays
/// in milliseconds when the source carried its own timing (GIF).
#[derive(Debug)]
pub struct RasterArt {
    pub frames: Vec<(u32, Vec<u8>)>,
    pub delays_ms: Option<Vec<u32>>,
}

/// Square frames taken as sides and byte sequences.
pub open spec fn squares_view(v: Seq<(u32, Vec<u8>)>) -> Seq<(u32, Seq<u8>)> {
    Seq::new(v.len(), |i: int| (v[i].0, v[i].1@))
}

/// Raster art taken as its frames and delays.
pub type ArtView = (Seq<(u32, Seq<u8>)>, Option<Seq<u32>>);

/// Raster art taken as its frames and delays.
pub open spec fn art_view(a: RasterArt) -> ArtView {
    (
        squares_view(a.frames@),
        match a.delays_ms {
            Some(d) => Some(d@),
            None => None,
        },
    )
}

/// What a still image at `path`, decoded to `d`, gives: its one frame made
/// square, and the warning when it was padded. It must have decoded and be
/// at least `MIN_SOURCE_PX` on its short side.
pub open spec fn spec_static_art(path: Seq<char>, d: DecodedView) -> Result<(ArtView, Seq<WarningView>), ErrorView> {
    match d {
        Err(msg) => Err(ErrorView::Image { path, msg }),
        Ok((w, h, px)) => match spec_check_frame(None, path, w, h) {
            Err(e) => Err(e),
            Ok(_) => match spec_square(path, w, h, px) {
                Err(e) => Err(e),
                Ok((s, f, warn)) => Ok(((seq![(s, f)], None), opt_seq(warn))),
            },
        },
    }
}

/// Make still art from the image at `path` as decoded (see
/// `spec_static_art`).
pub fn static_art(path: &str, decoded: Result<(u32, u32, Vec<u8>), String>) -> (r: Result<
    (RasterArt, Vec<Warning>),
    Error,
>)
    requires
        well_decoded(decoded_view(decoded)),
    ensures
        r matches Ok(x) ==> spec_static_art(path@, decoded_view(decoded)) == Ok::<_, ErrorView>(
            (art_view(x.0), warnings_view(x.1@)),
        ),
        r matches Err(e) ==> spec_static_art(path@, decoded_view(decoded)) == Err::<
            (ArtView, Seq<WarningView>),
            ErrorView,
        >(e@),
{
    let (w, h, px) = match decoded {
        Ok(d) => d,
        Err(msg) => {
            return Err(Error::Image { path: path.to_owned(), msg });
        },
    };
    match check_frame(None, path, w, h) {
        Err(e) => {
            return Err(e);
        },
        Ok(_) => {},
    }
    match square_frame(path, w, h, px) {
        Err(e) => Err(e),
        Ok((side, frame, warn)) => {
            let mut frames: Vec<(u32, Vec<u8>)> = Vec::new();
            frames.push((side, frame));
            let mut warnings: Vec<Warning> = Vec::new();
            match warn {
                Some(x) => warnings.push(x),
                None => {},
            }
            let art = RasterArt { frames, delays_ms: None };
            assert(squares_view(art.frames@) =~= seq![(side, frame@)]);
            assert(warnings_view(warnings@) =~= opt_seq(
                match warn {
                    Some(x) => Some(x@),
                    None => None,
                },
            ));
            Ok((art, warnings))
        },
    }
}

/// What loading a still image at `path` from its `bytes` gives: the image
/// `image` decodes them to, made into art (see `spec_static_art`).
pub open spec fn spec_load_static(path: Seq<char>, bytes: Seq<u8>) -> Result<(ArtView, Seq<WarningView>), ErrorView> {
    spec_static_art(path, decoded_rgba(bytes, path))
}

/// Load a still image at `path` from its `bytes` (see `spec_load_static`).
pub fn load_static(path: &str, bytes: &[u8]) -> (r: Result<(RasterArt, Vec<Warning>), Error>)
    ensures
        r matches Ok(x) ==> spec_load_static(path@, bytes@) == Ok::<_, ErrorView>(
            (art_view(x.0), warnings_view(x.1@)),
        ),
        r matches Err(e) ==> spec_load_static(path@, bytes@) == Err::<(ArtView, Seq<WarningView>), ErrorView>(e@),
{
    static_art(path, decode_raster(bytes, path))
}

/// Cell `i` of a sprite sheet of RGBA pixels `w` wide, cut by `grid` into
/// `cw`x`ch` cells read left to right, top to bottom.
pub open spec fn sheet_cell(px: Seq<u8>, w: u32, grid: Grid, cw: u32, ch: u32, i: int) -> Seq<u8> {
    spec_cell(
        px,
        w as int,
        (i % (grid.cols as int)) * (cw as int),
        (i / (grid.cols as int)) * (ch as int),
        cw as int,
        ch as int,
    )
}

/// What a sprite sheet at `path`, decoded to `d`, gives: its cells (as many
/// as the grid says are frames), each made square, and one warning when they
/// had to be padded. It must have decoded, and divide as `sheet_cells`
/// checks.
pub open spec fn spec_sheet_art(path: Seq<char>, d: DecodedView, grid: Grid) -> Result<
    (ArtView, Seq<WarningView>),
    ErrorView,
> {
    match d {
        Err(msg) => Err(ErrorView::Image { path, msg }),
        Ok((w, h, px)) => match spec_sheet_cells(path, w, h, grid) {
            Err(e) => Err(e),
            Ok((cw, ch, count)) => if cw == ch {
                Ok(((Seq::new(count as nat, |i: int| (cw, sheet_cell(px, w, grid, cw, ch, i))), None), Seq::empty()))
            } else if 4 * ((side_of(cw, ch) as int) * (side_of(cw, ch) as int)) > usize::MAX {
                Err(ErrorView::CanvasTooLarge { path, side: side_of(cw, ch) })
            } else {
                Ok(
                    (
                        (
                            Seq::new(
                                count as nat,
                                |i: int| (side_of(cw, ch), spec_pad(sheet_cell(px, w, grid, cw, ch, i), cw, ch)),
                            ),
                            None,
                        ),
                        seq![WarningView::Padded { path, from_w: cw, from_h: ch, to: side_of(cw, ch) }],
                    ),
                )
            },
        },
    }
}

/// Cell `i` of a `cols`x`rows` grid of `cw`x`ch` cells lies inside it.
proof fn lemma_cell_inside(i: int, cols: int, rows: int, cw: int, ch: int)
    requires
        0 <= i < cols * rows,
        cols > 0,
        rows > 0,
        cw >= 0,
        ch >= 0,
    ensures
        (i % cols) * cw + cw <= cols * cw,
        (i / cols) * ch + ch <= rows * ch,
        i / cols < rows,
{
    assert(i / cols < rows) by (nonlinear_arith)
        requires
            0 <= i < cols * rows,
            cols > 0,
    ;
    assert((i % cols) * cw + cw <= cols * cw) by (nonlinear_arith)
        requires
            0 <= i % cols < cols,
            cw >= 0,
    ;
    assert((i / cols) * ch + ch <= rows * ch) by (nonlinear_arith)
        requires
            0 <= i / cols < rows,
            ch >= 0,
    ;
}

/// Cut the sprite sheet at `path`, as decoded, into art (see
/// `spec_sheet_art`).
pub fn sheet_art(path: &str, decoded: Result<(u32, u32, Vec<u8>), String>, grid: Grid) -> (r: Result<
    (RasterArt, Vec<Warning>),
    Error,
>)
    requires
        well_decoded(decoded_view(decoded)),
        grid.cols > 0,
        grid.rows > 0,
        grid.cols * grid.rows <= u32::MAX,
    ensures
        r matches Ok(x) ==> spec_sheet_art(path@, decoded_view(decoded), grid) == Ok::<_, ErrorView>(
            (art_view(x.0), warnings_view(x.1@)),
        ),
        r matches Err(e) ==> spec_sheet_art(path@, decoded_view(decoded), grid) == Err::<
            (ArtView, Seq<WarningView>),
            ErrorView,
        >(e@),
{
    let (w, h, px) = match decoded {
        Ok(d) => d,
        Err(msg) => {
            return Err(Error::Image { path: path.to_owned(), msg });
        },
    };
    let cells = match sheet_cells(path, w, h, grid) {
        Ok(c) => c,
        Err(e) => {
            return Err(e);
        },
    };
    let cw = cells.cell_w;
    let ch = cells.cell_h;
    let count = cells.count;
    let side = if cw > ch {
        cw
    } else {
        ch
    };
    assert((side as int) * (side as int) <= 0xFFFF_FFFF * 0xFFFF_FFFF) by (nonlinear_arith)
        requires
            side <= 0xFFFF_FFFF,
    ;
    if cw != ch && 4 * ((side as u128) * (side as u128)) > usize::MAX as u128 {
        return Err(Error::CanvasTooLarge { path: path.to_owned(), side });
    }
    let cols = grid.cols;
    let rows = grid.rows;
    assert(w == (cols as int) * (cw as int) && h == (rows as int) * (ch as int)) by (nonlinear_arith)
        requires
            w % cols == 0,
            h % rows == 0,
            cw == w / cols,
            ch == h / rows,
            cols > 0,
            rows > 0,
    ;
    let mut frames: Vec<(u32, Vec<u8>)> = Vec::new();
    let mut i: u32 = 0;
    while i < count
        invariant
            0 <= i <= count,
            count <= (cols as int) * (rows as int),
            cols == grid.cols && rows == grid.rows,
            cols > 0 && rows > 0,
            w == (cols as int) * (cw as int),
            h == (rows as int) * (ch as int),
            px@.len() == 4 * ((w as int) * (h as int)),
            side == side_of(cw, ch),
            cw != ch ==> 4 * ((side as int) * (side as int)) <= usize::MAX,
            frames@.len() == i,
            forall|k: int|
                0 <= k < i ==> #[trigger] squares_view(frames@)[k] == if cw == ch {
                    (cw, sheet_cell(px@, w, grid, cw, ch, k))
                } else {
                    (side, spec_pad(sheet_cell(px@, w, grid, cw, ch, k), cw, ch))
                },
        decreases count - i,
    {
        proof {
            lemma_cell_inside(i as int, cols as int, rows as int, cw as int, ch as int);
        }
        let (x, y) = cell_origin(i, cols, cw, ch);
        assert(4 * ((y + ch) * w) <= px@.len()) by (nonlinear_arith)
            requires
                y + ch <= h,
                px@.len() == 4 * ((w as int) * (h as int)),
        ;
        let cell = cell_pixels(px.as_slice(), w, x, y, cw, ch);
        let ghost before = squares_view(frames@);
        if cw == ch {
            frames.push((cw, cell));
        } else {
            let padded = pad_to_square(cell.as_slice(), cw, ch);
            frames.push((side, padded));
        }
        assert(squares_view(frames@) =~= before.push(squares_view(frames@)[i as int]));
        i = i + 1;
    }
    let mut warnings: Vec<Warning> = Vec::new();
    if cw != ch {
        warnings.push(Warning::Padded { path: path.to_owned(), from_w: cw, from_h: ch, to: side });
    }
    let art = RasterArt { frames, delays_ms: None };
    proof {
        if cw == ch {
            assert(squares_view(art.frames@) =~= Seq::new(
                count as nat,
                |k: int| (cw, sheet_cell(px@, w, grid, cw, ch, k)),
            ));
            assert(warnings_view(warnings@) =~= Seq::<WarningView>::empty());
        } else {
            assert(squares_view(art.frames@) =~= Seq::new(
                count as nat,
                |k: int| (side_of(cw, ch), spec_pad(sheet_cell(px@, w, grid, cw, ch, k), cw, ch)),
            ));
            assert(warnings_view(warnings@) =~= seq![
                WarningView::Padded { path: path@, from_w: cw, from_h: ch, to: side_of(cw, ch) },
            ]);
        }
    }
    Ok((art, warnings))
}

/// What loading a sprite sheet at `path` from its `bytes` gives: the image
/// `image` decodes them to, cut by `grid` (see `spec_sheet_art`).
pub open spec fn spec_load_sheet(path: Seq<char>, bytes: Seq<u8>, grid: Grid) -> Result<
    (ArtView, Seq<WarningView>),
    ErrorView,
> {
    spec_sheet_art(path, decoded_rgba(bytes, path), grid)
}

/// Load a sprite sheet at `path` from its `bytes` (see `spec_load_sheet`).
pub fn load_sheet(path: &str, bytes: &[u8], grid: Grid) -> (r: Result<(RasterArt, Vec<Warning>), Error>)
    requires
        grid.cols > 0,
        grid.rows > 0,
        grid.cols * grid.rows <= u32::MAX,
    ensures
        r matches Ok(x) ==> spec_load_sheet(path@, bytes@, grid) == Ok::<_, ErrorView>(
            (art_view(x.0), warnings_view(x.1@)),
        ),
        r matches Err(e) ==> spec_load_sheet(path@, bytes@, grid) == Err::<(ArtView, Seq<WarningView>), ErrorView>(e@),
{
    sheet_art(path, decode_raster(bytes, path), grid)
}

/// The first `n` GIF frames of `fs` made square, their delays in
/// milliseconds (100 when the ratio has no denominator), and the padding
/// warnings in frame order.
pub open spec fn gif_fold(path: Seq<char>, fs: Seq<GifFrameView>, n: int) -> Result<
    (Seq<(u32, Seq<u8>)>, Seq<u32>, Seq<WarningView>),
    ErrorView,
>
    decreases n,
{
    if n <= 0 {
        Ok((Seq::empty(), Seq::empty(), Seq::empty()))
    } else {
        match gif_fold(path, fs, n - 1) {
            Err(e) => Err(e),
            Ok((fr, ds, ws)) => {
                let f = fs[n - 1];
                match spec_square(path, f.2, f.3, f.4) {
                    Err(e) => Err(e),
                    Ok((s, px, warn)) => Ok(
                        (
                            fr.push((s, px)),
                            ds.push(
                                if f.1 == 0 {
                                    100u32
                                } else {
                                    (f.0 / f.1) as u32
                                },
                            ),
                            ws + opt_seq(warn),
                        ),
                    ),
                }
            },
        }
    }
}

/// What an animated GIF at `path`, decoded to `d`, gives: every frame made
/// square, the frames' own delays, and the padding warnings with runs of
/// equal ones kept once. It must have decoded to at least one frame, and the
/// first must be at least `MIN_SOURCE_PX` on a side.
pub open spec fn spec_gif_art(path: Seq<char>, d: Result<Seq<GifFrameView>, Seq<char>>) -> Result<
    (ArtView, Seq<WarningView>),
    ErrorView,
> {
    match d {
        Err(msg) => Err(ErrorView::Image { path, msg }),
        Ok(fs) => if fs.len() == 0 {
            Err(ErrorView::NoFrames { dir: path })
        } else {
            match gif_fold(path, fs, fs.len() as int) {
                Err(e) => Err(e),
                Ok((fr, ds, ws)) => if fr[0].0 < crate::MIN_SOURCE_PX {
                    Err(ErrorView::SourceTooSmall { path, got: fr[0].0, want: crate::MIN_SOURCE_PX })
                } else {
                    Ok(((fr, Some(ds)), dedup_runs(ws)))
                },
            }
        },
    }
}

proof fn lemma_gif_fold_len(path: Seq<char>, fs: Seq<GifFrameView>, n: int)
    requires
        0 <= n,
    ensures
        gif_fold(path, fs, n) matches Ok((fr, ds, _)) ==> fr.len() == n && ds.len() == n,
    decreases n,
{
    if n > 0 {
        lemma_gif_fold_len(path, fs, n - 1);
    }
}

/// Once the GIF fold fails, it fails the same way for every longer prefix.
proof fn lemma_gif_fold_err(path: Seq<char>, fs: Seq<GifFrameView>, k: int, n: int)
    requires
        0 <= k <= n,
        gif_fold(path, fs, k) is Err,
    ensures
        gif_fold(path, fs, n) == gif_fold(path, fs, k),
    decreases n - k,
{
    if k < n {
        lemma_gif_fold_err(path, fs, k, n - 1);
    }
}

/// Once the frame fold fails, it fails the same way for every longer prefix.
proof fn lemma_frames_fold_err(files: Seq<DecodedFrameView>, k: int, n: int)
    requires
        0 <= k <= n,
        frames_fold(files, k) is Err,
    ensures
        frames_fold(files, n) == frames_fold(files, k),
    decreases n - k,
{
    if k < n {
        lemma_frames_fold_err(files, k, n - 1);
    }
}

/// Make art from the animated GIF at `path` as decoded (see
/// `spec_gif_art`).
pub fn gif_art(path: &str, decoded: Result<Vec<(u32, u32, u32, u32, Vec<u8>)>, String>) -> (r: Result<
    (RasterArt, Vec<Warning>),
    Error,
>)
    requires
        well_decoded_gif(gif_decoded_view(decoded)),
    ensures
        r matches Ok(x) ==> spec_gif_art(path@, gif_decoded_view(decoded)) == Ok::<_, ErrorView>(
            (art_view(x.0), warnings_view(x.1@)),
        ),
        r matches Err(e) ==> spec_gif_art(path@, gif_decoded_view(decoded)) == Err::<
            (ArtView, Seq<WarningView>),
            ErrorView,
        >(e@),
{
    let raw = match &decoded {
        Ok(v) => v,
        Err(msg) => {
            return Err(Error::Image { path: path.to_owned(), msg: msg.as_str().to_owned() });
        },
    };
    let ghost fs = gif_view(raw@);
    assert forall|j: int| 0 <= j < raw@.len() implies (#[trigger] raw@[j]).4@.len() == 4 * ((raw@[j].2 as int) * (
    raw@[j].3 as int)) by {
        assert(fs[j] == (raw@[j].0, raw@[j].1, raw@[j].2, raw@[j].3, raw@[j].4@));
    }
    if raw.len() == 0 {
        return Err(Error::NoFrames { dir: path.to_owned() });
    }
    let mut frames: Vec<(u32, Vec<u8>)> = Vec::new();
    let mut delays: Vec<u32> = Vec::new();
    let mut warnings: Vec<Warning> = Vec::new();
    let mut k: usize = 0;
    assert(squares_view(frames@) =~= Seq::<(u32, Seq<u8>)>::empty());
    assert(warnings_view(warnings@) =~= Seq::<WarningView>::empty());
    assert(delays@ =~= Seq::<u32>::empty());
    while k < raw.len()
        invariant
            0 <= k <= raw@.len(),
            fs == gif_view(raw@),
            raw@.len() > 0,
            gif_decoded_view(decoded) == Ok::<Seq<GifFrameView>, Seq<char>>(fs),
            forall|j: int| 0 <= j < raw@.len() ==> (#[trigger] raw@[j]).4@.len() == 4 * ((raw@[j].2 as int) * (
            raw@[j].3 as int)),
            gif_fold(path@, fs, k as int) == Ok::<_, ErrorView>(
                (squares_view(frames@), delays@, warnings_view(warnings@)),
            ),
        decreases raw@.len() - k,
    {
        let (num, den, w, h) = (raw[k].0, raw[k].1, raw[k].2, raw[k].3);
        let px = crate::text::copy_bytes(raw[k].4.as_slice());
        assert(fs[k as int] == (num, den, w, h, px@));
        let delay = gif_delay_ms(num, den);
        match square_frame(path, w, h, px) {
            Err(e) => {
                proof {
                    assert(gif_fold(path@, fs, k + 1) == Err::<
                        (Seq<(u32, Seq<u8>)>, Seq<u32>, Seq<WarningView>),
                        ErrorView,
                    >(e@));
                    lemma_gif_fold_err(path@, fs, k + 1, fs.len() as int);
                }
                return Err(e);
            },
            Ok((side, frame, warn)) => {
                let ghost f0 = squares_view(frames@);
                let ghost w0 = warnings_view(warnings@);
                frames.push((side, frame));
                delays.push(delay);
                match warn {
                    Some(x) => {
                        warnings.push(x);
                        assert(warnings_view(warnings@) =~= w0 + seq![x@]);
                    },
                    None => {
                        assert(warnings_view(warnings@) =~= w0 + Seq::<WarningView>::empty());
                    },
                }
                assert(squares_view(frames@) =~= f0.push((side, frame@)));
            },
        }
        k = k + 1;
    }
    proof {
        lemma_gif_fold_len(path@, fs, fs.len() as int);
    }
    assert(squares_view(frames@)[0] == (frames@[0].0, frames@[0].1@));
    if frames[0].0 < crate::MIN_SOURCE_PX {
        return Err(Error::SourceTooSmall { path: path.to_owned(), got: frames[0].0, want: crate::MIN_SOURCE_PX });
    }
    let kept = dedup_warnings(warnings.as_slice());
    Ok((RasterArt { frames, delays_ms: Some(delays) }, kept))
}

/// What loading an animated GIF at `path` from its `bytes` gives: the frames
/// `image`'s GIF decoder composes from them, made into art (see
/// `spec_gif_art`).
pub open spec fn spec_load_gif(path: Seq<char>, bytes: Seq<u8>) -> Result<(ArtView, Seq<WarningView>), ErrorView> {
    spec_gif_art(path, decoded_gif(bytes))
}

/// Load an animated GIF at `path` from its `bytes` (see `spec_load_gif`).
pub fn load_gif(path: &str, bytes: &[u8]) -> (r: Result<(RasterArt, Vec<Warning>), Error>)
    ensures
        r matches Ok(x) ==> spec_load_gif(path@, bytes@) == Ok::<_, ErrorView>(
            (art_view(x.0), warnings_view(x.1@)),
        ),
        r matches Err(e) ==> spec_load_gif(path@, bytes@) == Err::<(ArtView, Seq<WarningView>), ErrorView>(e@),
{
    gif_art(path, decode_gif(bytes))
}

/// A frame of a numbered sequence as decoded: its file's path and the
/// decoded image, taken as views.
pub type DecodedFrameView = (Seq<char>, DecodedView);

/// Decoded frames taken as views.
pub open spec fn decoded_frames_view(v: Seq<(String, Result<(u32, u32, Vec<u8>), String>)>) -> Seq<DecodedFrameView> {
    Seq::new(v.len(), |i: int| (v[i].0@, decoded_view(v[i].1)))
}

/// The first `n` decoded frames, checked against the first frame's size and
/// made square; with the first frame's size and the padding warnings.
pub open spec fn frames_fold(files: Seq<DecodedFrameView>, n: int) -> Result<
    (Seq<(u32, Seq<u8>)>, Option<(u32, u32)>, Seq<WarningView>),
    ErrorView,
>
    decreases n,
{
    if n <= 0 {
        Ok((Seq::empty(), None, Seq::empty()))
    } else {
        match frames_fold(files, n - 1) {
            Err(e) => Err(e),
            Ok((fr, dims, ws)) => {
                let f = files[n - 1];
                match f.1 {
                    Err(msg) => Err(ErrorView::Image { path: f.0, msg }),
                    Ok((w, h, px)) => match spec_check_frame(dims, f.0, w, h) {
                        Err(e) => Err(e),
                        Ok(d) => match spec_square(f.0, w, h, px) {
                            Err(e) => Err(e),
                            Ok((s, p, warn)) => Ok((fr.push((s, p)), Some(d), ws + opt_seq(warn))),
                        },
                    },
                }
            },
        }
    }
}

/// What the frames of a numbered sequence in the folder `dir` give, decoded
/// in frame order: every frame decoded, of the first frame's size (itself at
/// least `MIN_SOURCE_PX` on its short side), made square, with the padding
/// warnings (runs of equal ones kept once).
pub open spec fn spec_sequence_art(dir: Seq<char>, files: Seq<DecodedFrameView>) -> Result<
    (ArtView, Seq<WarningView>),
    ErrorView,
> {
    if files.len() == 0 {
        Err(ErrorView::NoFrames { dir })
    } else {
        match frames_fold(files, files.len() as int) {
            Err(e) => Err(e),
            Ok((fr, _, ws)) => Ok(((fr, None), dedup_runs(ws))),
        }
    }
}

/// Make art from the frames of a numbered sequence in the folder `dir`, each
/// given as its file's path and the image decoded from it, in the order
/// `raster::sequence_frames` gives (see `spec_sequence_art`).
pub fn sequence_art(dir: &str, files: &[(String, Result<(u32, u32, Vec<u8>), String>)]) -> (r: Result<
    (RasterArt, Vec<Warning>),
    Error,
>)
    requires
        forall|i: int| 0 <= i < files@.len() ==> well_decoded(#[trigger] decoded_frames_view(files@)[i].1),
    ensures
        r matches Ok(x) ==> spec_sequence_art(dir@, decoded_frames_view(files@)) == Ok::<_, ErrorView>(
            (art_view(x.0), warnings_view(x.1@)),
        ),
        r matches Err(e) ==> spec_sequence_art(dir@, decoded_frames_view(files@)) == Err::<
            (ArtView, Seq<WarningView>),
            ErrorView,
        >(e@),
{
    let ghost fv = decoded_frames_view(files@);
    if files.len() == 0 {
        return Err(Error::NoFrames { dir: dir.to_owned() });
    }
    let mut frames: Vec<(u32, Vec<u8>)> = Vec::new();
    let mut warnings: Vec<Warning> = Vec::new();
    let mut dims: Option<(u32, u32)> = None;
    let mut k: usize = 0;
    assert(squares_view(frames@) =~= Seq::<(u32, Seq<u8>)>::empty());
    assert(warnings_view(warnings@) =~= Seq::<WarningView>::empty());
    while k < files.len()
        invariant
            0 <= k <= files@.len(),
            fv == decoded_frames_view(files@),
            forall|i: int| 0 <= i < files@.len() ==> well_decoded(#[trigger] fv[i].1),
            frames_fold(fv, k as int) == Ok::<_, ErrorView>(
                (squares_view(frames@), dims, warnings_view(warnings@)),
            ),
        decreases files@.len() - k,
    {
        let path = files[k].0.as_str();
        assert(fv[k as int] == (files@[k as int].0@, decoded_view(files@[k as int].1)));
        let (w, h, px) = match &files[k].1 {
            Ok(d) => (d.0, d.1, crate::text::copy_bytes(d.2.as_slice())),
            Err(msg) => {
                proof {
                    lemma_frames_fold_err(fv, k + 1, fv.len() as int);
                }
                return Err(Error::Image { path: path.to_owned(), msg: msg.as_str().to_owned() });
            },
        };
        assert(well_decoded(fv[k as int].1));
        match check_frame(dims, path, w, h) {
            Err(e) => {
                proof {
                    lemma_frames_fold_err(fv, k + 1, fv.len() as int);
                }
                return Err(e);
            },
            Ok(d) => {
                dims = Some(d);
            },
        }
        match square_frame(path, w, h, px) {
            Err(e) => {
                proof {
                    lemma_frames_fold_err(fv, k + 1, fv.len() as int);
                }
                return Err(e);
            },
            Ok((side, frame, warn)) => {
                let ghost f0 = squares_view(frames@);
                let ghost w0 = warnings_view(warnings@);
                frames.push((side, frame));
                match warn {
                    Some(x) => {
                        warnings.push(x);
                        assert(warnings_view(warnings@) =~= w0 + seq![x@]);
                    },
                    None => {
                        assert(warnings_view(warnings@) =~= w0 + Seq::<WarningView>::empty());
                    },
                }
                assert(squares_view(frames@) =~= f0.push((side, frame@)));
            },
        }
        k = k + 1;
    }
    let kept = dedup_warnings(warnings.as_slice());
    Ok((RasterArt { frames, delays_ms: None }, kept))
}

/// What loading the frames of a numbered sequence in the folder `dir` gives,
/// from its frame files (path and bytes) in frame order: each decoded by
/// `image`, then made into art (see `spec_sequence_art`).
pub open spec fn spec_load_frames(dir: Seq<char>, files: Seq<(Seq<char>, Seq<u8>)>) -> Result<
    (ArtView, Seq<WarningView>),
    ErrorView,
> {
    spec_sequence_art(dir, Seq::new(files.len(), |i: int| (files[i].0, decoded_rgba(files[i].1, files[i].0))))
}

/// Frame files taken as paths and bytes.
pub open spec fn files_view(v: Seq<(String, Vec<u8>)>) -> Seq<(Seq<char>, Seq<u8>)> {
    Seq::new(v.len(), |i: int| (v[i].0@, v[i].1@))
}

/// Load the frames of a numbered sequence in the folder `dir`, given its frame
/// files (path and bytes) in the order `raster::sequence_frames` gives (see
/// `spec_load_frames`).
pub fn load_frames(dir: &str, files: &[(String, Vec<u8>)]) -> (r: Result<(RasterArt, Vec<Warning>), Error>)
    ensures
        r matches Ok(x) ==> spec_load_frames(dir@, files_view(files@)) == Ok::<_, ErrorView>(
            (art_view(x.0), warnings_view(x.1@)),
        ),
        r matches Err(e) ==> spec_load_frames(dir@, files_view(files@)) == Err::<(ArtView, Seq<WarningView>), ErrorView>(e@),
{
    let ghost want = Seq::new(
        files@.len(),
        |i: int| (files@[i].0@, decoded_rgba(files@[i].1@, files@[i].0@)),
    );
    let mut decoded: Vec<(String, Result<(u32, u32, Vec<u8>), String>)> = Vec::new();
    let mut k: usize = 0;
    while k < files.len()
        invariant
            0 <= k <= files@.len(),
            want.len() == files@.len(),
            want == Seq::new(files@.len(), |i: int| (files@[i].0@, decoded_rgba(files@[i].1@, files@[i].0@))),
            decoded@.len() == k,
            forall|i: int| 0 <= i < k ==> #[trigger] decoded_frames_view(decoded@)[i] == want[i],
            forall|i: int| 0 <= i < k ==> well_decoded(#[trigger] decoded_frames_view(decoded@)[i].1),
        decreases files@.len() - k,
    {
        let path = files[k].0.as_str();
        let d = decode_raster(files[k].1.as_slice(), path);
        let ghost before = decoded_frames_view(decoded@);
        decoded.push((path.to_owned(), d));
        assert(decoded_frames_view(decoded@) =~= before.push((path@, decoded_view(d))));
        k = k + 1;
    }
    assert(decoded_frames_view(decoded@) =~= want);
    assert(files_view(files@).len() == files@.len());
    assert(Seq::new(
        files_view(files@).len(),
        |i: int| (files_view(files@)[i].0, decoded_rgba(files_view(files@)[i].1, files_view(files@)[i].0)),
    ) =~= want);
    sequence_art(dir, decoded.as_slice())
}

} // verus!
