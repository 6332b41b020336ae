//! Error type. Each variant carries the values its message names, so the
//! message itself can be written where it is shown.
use vstd::prelude::*;

verus! {

/// Why a `.cur` / `.ico` container could not be read or written.
#[derive(Debug, Clone, PartialEq, Eq)]
pub enum CursorFault {
    /// There were no images to encode.
    NoImages,
    /// The data is shorter than the 6-byte directory header.
    ShortHeader,
    /// The directory header declares zero images.
    ZeroImages,
    /// The directory needs `need` bytes, but the data has only `len`.
    DirectoryTruncated { count: usize, need: usize, len: usize },
    /// An entry's offset plus length does not fit in memory.
    EntryOverflow,
    /// An entry's image runs past the end of the data.
    ImagePastEnd { start: usize, end: usize, len: usize },
    /// The image is a PNG payload, which Windows cursors do not support.
    PngPayload,
    /// The image is shorter than its BITMAPINFOHEADER.
    ImageShorterThanHeader,
    /// Only 32bpp BGRA images are supported.
    UnsupportedBitCount(u16),
    /// Only uncompressed (BI_RGB) images are supported.
    UnsupportedCompression(u32),
    /// The image is not a non-empty square.
    NotSquare { w: u32, h: u32 },
    /// The pixel data is shorter than the header says.
    PixelsTruncated,
    /// An image of `size`x`size` needs `want` RGBA bytes but has `got`.
    WrongBufferSize { size: u32, want: usize, got: usize },
}

/// Why an animated cursor could not be read or written.
#[derive(Debug, Clone, PartialEq, Eq)]
pub enum AniFault {
    /// There are no frames.
    NoFrames,
    /// The rate chunk has `rates` entries but there are `steps` steps.
    RateCountMismatch { rates: usize, steps: usize },
    /// The sequence refers to frame `index`, but there are only `frames`.
    SeqOutOfRange { index: u32, frames: usize },
    /// Frame `frame` has no images.
    EmptyFrame { frame: usize },
    /// Frame `frame` holds different sizes from frame 0.
    SizesDiffer { frame: usize },
    /// The data does not start with a RIFF ACON header.
    NotRiffAcon,
    /// The chunk at `offset` claims `size` bytes, past the end of the data.
    ChunkPastEnd { offset: usize, size: usize },
    /// The `anih` chunk is shorter than 36 bytes.
    ShortAnih,
    /// A frame chunk runs past the end of its LIST.
    FramePastList,
    /// There is no `anih` chunk.
    NoAnih,
    /// There are no `icon` frames.
    NoIconFrames,
}

/// A pack manifest value out of range.
#[derive(Debug, Clone, PartialEq, Eq)]
pub enum Invalid {
    /// `base_size` must be greater than zero.
    BaseSizeZero,
    /// `sizes` must list at least one size.
    NoSizes,
    /// A size is out of range (1..=256).
    SizeOutOfRange(u32),
    /// A role's frame rate, the `f32` with bits `fps_bits`, is not a positive,
    /// finite number.
    InvalidFps { role: String, fps_bits: u32 },
    /// A role's sprite sheet grid has zero columns or rows.
    ZeroGrid { role: String },
}

/// Errors of the cursor pack core.
#[derive(Debug, Clone, PartialEq, Eq)]
pub enum Error {
    /// A malformed cursor container or image.
    Cursor(CursorFault),
    /// A malformed animated cursor.
    Ani(AniFault),
    /// A role name this system does not use.
    UnknownRole(String),
    /// The pack defines no role, or leaves every role at the system default.
    EmptyPack,
    /// A hotspot outside the `size`x`size` base canvas.
    HotspotOutOfBounds { role: String, x: i32, y: i32, size: u32, max: u32 },
    /// A manifest value out of range.
    Invalid(Invalid),
    /// The folder `dir` holds no usable files.
    NoFrames { dir: String },
    /// The folder `dir` holds `found` cursor files that nothing identifies,
    /// more than there are Windows pointers.
    TooManyFiles { dir: String, found: usize },
    /// The registry value `name` has type `vtype`, which does not hold the
    /// kind of data asked for.
    BadValueType { name: String, vtype: u32 },
    /// No restore point has been taken yet.
    NoRestorePoint,
    /// The art at `path` is `got` pixels on its short side, under the `want`
    /// that a sharp cursor needs.
    SourceTooSmall { path: String, got: u32, want: u32 },
    /// A numbered frame sequence in `dir` has gaps: `found` frames numbered
    /// `first` to `max`, with (the first of) the `missing` numbers absent.
    FrameGap { dir: String, found: usize, max: usize, first: usize, missing: Vec<usize> },
    /// The frame at `path` is `w`x`h`, but the first frame is `fw`x`fh`.
    FrameSizeMismatch { path: String, w: u32, h: u32, fw: u32, fh: u32 },
    /// The sprite sheet at `path`, `w`x`h`, does not divide into `cols`x`rows` cells.
    SheetNotDivisible { path: String, w: u32, h: u32, cols: u32, rows: u32 },
    /// The sprite sheet at `path` asks for `frames` frames, but its grid holds `capacity`.
    SheetFrameCount { path: String, frames: u32, cols: u32, rows: u32, capacity: u32 },
    /// A pixel buffer too short for `size`x`size` RGBA.
    NotRgba { size: u32 },
    /// The file at `path` is neither a `.cur` nor an `.ani` that can be read.
    UnreadableCursor { path: String },
    /// The art at `path` could not be decoded; `msg` is the decoder's reason.
    Image { path: String, msg: String },
    /// Padding the art at `path` into a square of `side` pixels needs more
    /// bytes than memory can address.
    CanvasTooLarge { path: String, side: u32 },
    /// Rendering the role `role` produced no frame `frame` at `size` pixels.
    LostFrame { role: String, frame: usize, size: u32 },
}

/// `Invalid` with each role name taken as its characters.
pub enum InvalidView {
    BaseSizeZero,
    NoSizes,
    SizeOutOfRange(u32),
    InvalidFps { role: Seq<char>, fps_bits: u32 },
    ZeroGrid { role: Seq<char> },
}

/// `Error` with each string taken as its characters.
pub enum ErrorView {
    Cursor(CursorFault),
    Ani(AniFault),
    UnknownRole(Seq<char>),
    EmptyPack,
    HotspotOutOfBounds { role: Seq<char>, x: i32, y: i32, size: u32, max: u32 },
    Invalid(InvalidView),
    NoFrames { dir: Seq<char> },
    TooManyFiles { dir: Seq<char>, found: usize },
    BadValueType { name: Seq<char>, vtype: u32 },
    NoRestorePoint,
    SourceTooSmall { path: Seq<char>, got: u32, want: u32 },
    FrameGap { dir: Seq<char>, found: usize, max: usize, first: usize, missing: Seq<usize> },
    FrameSizeMismatch { path: Seq<char>, w: u32, h: u32, fw: u32, fh: u32 },
    SheetNotDivisible { path: Seq<char>, w: u32, h: u32, cols: u32, rows: u32 },
    SheetFrameCount { path: Seq<char>, frames: u32, cols: u32, rows: u32, capacity: u32 },
    NotRgba { size: u32 },
    UnreadableCursor { path: Seq<char> },
    Image { path: Seq<char>, msg: Seq<char> },
    CanvasTooLarge { path: Seq<char>, side: u32 },
    LostFrame { role: Seq<char>, frame: usize, size: u32 },
}

impl View for Invalid {
    type V = InvalidView;

    open spec fn view(&self) -> InvalidView {
        match self {
            Invalid::BaseSizeZero => InvalidView::BaseSizeZero,
            Invalid::NoSizes => InvalidView::NoSizes,
            Invalid::SizeOutOfRange(s) => InvalidView::SizeOutOfRange(*s),
            Invalid::InvalidFps { role, fps_bits } => InvalidView::InvalidFps { role: role@, fps_bits: *fps_bits },
            Invalid::ZeroGrid { role } => InvalidView::ZeroGrid { role: role@ },
        }
    }
}

impl View for Error {
    type V = ErrorView;

    open spec fn view(&self) -> ErrorView {
        match self {
            Error::Cursor(f) => ErrorView::Cursor(*f),
            Error::Ani(f) => ErrorView::Ani(*f),
            Error::UnknownRole(r) => ErrorView::UnknownRole(r@),
            Error::EmptyPack => ErrorView::EmptyPack,
            Error::HotspotOutOfBounds { role, x, y, size, max } => ErrorView::HotspotOutOfBounds {
                role: role@,
                x: *x,
                y: *y,
                size: *size,
                max: *max,
            },
            Error::Invalid(i) => ErrorView::Invalid(i@),
            Error::NoFrames { dir } => ErrorView::NoFrames { dir: dir@ },
            Error::TooManyFiles { dir, found } => ErrorView::TooManyFiles { dir: dir@, found: *found },
            Error::BadValueType { name, vtype } => ErrorView::BadValueType { name: name@, vtype: *vtype },
            Error::NoRestorePoint => ErrorView::NoRestorePoint,
            Error::SourceTooSmall { path, got, want } => ErrorView::SourceTooSmall {
                path: path@,
                got: *got,
                want: *want,
            },
            Error::FrameGap { dir, found, max, first, missing } => ErrorView::FrameGap {
                dir: dir@,
                found: *found,
                max: *max,
                first: *first,
                missing: missing@,
            },
            Error::FrameSizeMismatch { path, w, h, fw, fh } => ErrorView::FrameSizeMismatch {
                path: path@,
                w: *w,
                h: *h,
                fw: *fw,
                fh: *fh,
            },
            Error::SheetNotDivisible { path, w, h, cols, rows } => ErrorView::SheetNotDivisible {
                path: path@,
                w: *w,
                h: *h,
                cols: *cols,
                rows: *rows,
            },
            Error::SheetFrameCount { path, frames, cols, rows, capacity } => ErrorView::SheetFrameCount {
                path: path@,
                frames: *frames,
                cols: *cols,
                rows: *rows,
                capacity: *capacity,
            },
            Error::NotRgba { size } => ErrorView::NotRgba { size: *size },
            Error::UnreadableCursor { path } => ErrorView::UnreadableCursor { path: path@ },
            Error::Image { path, msg } => ErrorView::Image { path: path@, msg: msg@ },
            Error::CanvasTooLarge { path, side } => ErrorView::CanvasTooLarge { path: path@, side: *side },
            Error::LostFrame { role, frame, size } => ErrorView::LostFrame {
                role: role@,
                frame: *frame,
                size: *size,
            },
        }
    }
}

} // verus!
