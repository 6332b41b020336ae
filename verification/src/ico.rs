//! Windows ICO/CUR container: a multi-size directory of 32bpp BGRA DIB images.
//!
//! Layout, all little-endian:
//!
//! ```text
//! ICONDIR      0  u16 reserved = 0
//!              2  u16 type     = 2 for cursors (1 for icons)
//!              4  u16 count
//! ICONDIRENTRY (16 bytes each, `count` of them)
//!              0  u8  width       (0 means 256)
//!              1  u8  height      (0 means 256)
//!              2  u8  color_count = 0
//!              3  u8  reserved    = 0
//!              4  u16 hotspot_x   (cursors only; "planes" for icons)
//!              6  u16 hotspot_y   (cursors only; "bitcount" for icons)
//!              8  u32 bytes_in_res
//!             12  u32 image_offset
//! image        BITMAPINFOHEADER (40) + XOR bitmap (BGRA, bottom-up) + AND mask (1bpp)
//! ```
//!
//! The hotspot lives in the directory entry, once per image, so a multi-size
//! cursor carries a correctly scaled hotspot for every size.
use crate::bytes::{le16, le32, lemma_le16, lemma_le32, push_u16, push_u32, read_u16, read_u32, u16_at, u32_at};
use crate::error::{CursorFault, Error};
use vstd::arithmetic::div_mod::lemma_fundamental_div_mod_converse;
use vstd::prelude::*;

verus! {

/// `ICONDIR.type` for a cursor.
pub const TYPE_CURSOR: u16 = 2;
/// `ICONDIR.type` for an icon.
pub const TYPE_ICON: u16 = 1;

/// Bytes in the `ICONDIR` header.
pub const DIR_HEADER: usize = 6;
/// Bytes in one `ICONDIRENTRY`.
pub const DIR_ENTRY: usize = 16;
/// Bytes in a `BITMAPINFOHEADER`.
pub const BITMAPINFOHEADER: u32 = 40;

/// One rasterized cursor image at a single square size.
///
/// `rgba` is top-down, row-major, 8 bits per channel, straight (not premultiplied)
/// alpha: `size * size * 4` bytes.
#[derive(Debug, Clone, PartialEq, Eq)]
pub struct Image {
    pub size: u32,
    pub rgba: Vec<u8>,
    pub hot_x: u16,
    pub hot_y: u16,
}

/// The mathematical content of an [`Image`].
pub struct ImageView {
    pub size: u32,
    pub rgba: Seq<u8>,
    pub hot_x: u16,
    pub hot_y: u16,
}

impl View for Image {
    type V = ImageView;

    open spec fn view(&self) -> ImageView {
        ImageView { size: self.size, rgba: self.rgba@, hot_x: self.hot_x, hot_y: self.hot_y }
    }
}

/// The views of a sequence of images.
pub open spec fn views(s: Seq<Image>) -> Seq<ImageView> {
    s.map_values(|i: Image| i@)
}

/// RGBA bytes of a `size`x`size` image.
pub open spec fn rgba_len(size: nat) -> nat {
    size * size * 4
}

/// Bytes in one row of the 1bpp AND mask, padded to a 4-byte boundary.
pub open spec fn spec_and_stride(size: nat) -> nat {
    ((size + 31) / 32) * 4
}

/// Bytes of the 1bpp AND mask.
pub open spec fn and_len(size: nat) -> nat {
    spec_and_stride(size) * size
}

/// Bytes one image of this size occupies inside a container.
pub open spec fn image_len(size: nat) -> nat {
    40 + rgba_len(size) + and_len(size)
}

/// Bytes a directory of images of these sizes occupies, headers included.
pub open spec fn sizes_len(sizes: Seq<u32>) -> nat
    decreases sizes.len(),
{
    if sizes.len() == 0 {
        0
    } else {
        sizes_len(sizes.drop_last()) + image_len(sizes.last() as nat)
    }
}

/// Bytes of a whole container holding images of these sizes.
pub open spec fn spec_frame_bytes(sizes: Seq<u32>) -> nat {
    6 + 16 * sizes.len() + sizes_len(sizes)
}

/// The width/height byte of a directory entry: 256 and above are stored as 0.
pub open spec fn spec_dim_byte(size: u32) -> u8 {
    if size >= 256 { 0 } else { size as u8 }
}

/// The size a width/height byte stands for.
pub open spec fn spec_decode_dim(b: u8) -> u32 {
    if b == 0 { 256 } else { b as u32 }
}

/// Bytes of the AND mask stride for `size`.
pub fn and_stride(size: u32) -> (r: usize)
    requires
        size <= u32::MAX - 31,
    ensures
        r == spec_and_stride(size as nat),
{
    (((size + 31) / 32) * 4) as usize
}

/// Bytes one image of `size` occupies inside a container, without building it.
pub fn image_bytes(size: u32) -> (r: usize)
    requires
        image_len(size as nat) <= usize::MAX,
    ensures
        r == image_len(size as nat),
{
    proof {
        lemma_image_len_bounds(size as nat);
        assert(size > 0xffff_ffe0 ==> 4 * size * size > 0xffff_ffff_ffff_ffff) by (nonlinear_arith);
    }
    let s = size as usize;
    let stride = and_stride(size);
    assert(s * s * 4 <= image_len(size as nat)) by (nonlinear_arith)
        requires s * s * 4 == rgba_len(size as nat), image_len(size as nat) == 40 + rgba_len(size as nat) + and_len(size as nat);
    assert(stride * s == and_len(size as nat)) by (nonlinear_arith)
        requires stride == spec_and_stride(size as nat), s == size;
    40 + s * s * 4 + stride * s
}

/// Facts about the size of one image.
pub proof fn lemma_image_len_bounds(size: nat)
    ensures
        image_len(size) >= 40 + 4 * size,
        image_len(size) >= 40 + 4 * size * size,
        rgba_len(size) == 4 * size * size,
        image_len(size) == 40 + rgba_len(size) + and_len(size),
        and_len(size) >= 0,
{
    assert(size * size * 4 == 4 * size * size) by (nonlinear_arith);
    assert(4 * size * size >= 4 * size) by (nonlinear_arith);
    assert(spec_and_stride(size) * size >= 0) by (nonlinear_arith);
}

/// Bytes a complete directory of these sizes would occupy.
///
/// Used to keep animated cursors under the size ceiling the Windows `.ani`
/// loader imposes on each frame.
pub fn frame_bytes(sizes: &[u32]) -> (r: usize)
    requires
        spec_frame_bytes(sizes@) <= usize::MAX,
    ensures
        r == spec_frame_bytes(sizes@),
{
    let mut total: usize = 0;
    let mut i: usize = 0;
    proof {
        lemma_sizes_len_prefix(sizes@, sizes@.len() as int);
        assert(sizes@.take(sizes@.len() as int) =~= sizes@);
    }
    while i < sizes.len()
        invariant
            0 <= i <= sizes@.len(),
            total == sizes_len(sizes@.take(i as int)),
            spec_frame_bytes(sizes@) <= usize::MAX,
            forall|k: int| 0 <= k <= sizes@.len() ==> sizes_len(#[trigger] sizes@.take(k)) <= sizes_len(sizes@),
        decreases sizes@.len() - i,
    {
        assert(sizes@.take(i + 1).drop_last() =~= sizes@.take(i as int));
        assert(sizes_len(sizes@.take(i + 1)) <= sizes_len(sizes@));
        total = total + image_bytes(sizes[i]);
        i = i + 1;
    }
    assert(sizes@.take(sizes@.len() as int) =~= sizes@);
    DIR_HEADER + DIR_ENTRY * sizes.len() + total
}

/// The summed length of a prefix never exceeds the summed length of the whole.
pub proof fn lemma_sizes_len_prefix(s: Seq<u32>, n: int)
    requires
        0 <= n <= s.len(),
    ensures
        forall|k: int| 0 <= k <= n ==> sizes_len(#[trigger] s.take(k)) <= sizes_len(s.take(n)),
    decreases n,
{
    if n > 0 {
        lemma_sizes_len_prefix(s, n - 1);
        assert(s.take(n).drop_last() =~= s.take(n - 1));
        assert forall|k: int| 0 <= k <= n implies sizes_len(#[trigger] s.take(k)) <= sizes_len(s.take(n)) by {
            if k < n {
                assert(sizes_len(s.take(k)) <= sizes_len(s.take(n - 1)));
            }
        }
    }
    assert(s.take(s.len() as int) =~= s);
}

/// Encode the width/height byte: 256 is stored as 0.
pub fn dim_byte(size: u32) -> (r: u8)
    ensures
        r == spec_dim_byte(size),
{
    if size >= 256 {
        0
    } else {
        size as u8
    }
}

/// The size a width/height byte stands for.
pub fn decode_dim(b: u8) -> (r: u32)
    ensures
        r == spec_decode_dim(b),
{
    if b == 0 {
        256
    } else {
        b as u32
    }
}

impl Image {
    /// An image, provided `rgba` holds exactly `size * size * 4` bytes.
    pub fn new(size: u32, rgba: Vec<u8>, hot_x: u16, hot_y: u16) -> (r: Result<Image, Error>)
        ensures
            rgba@.len() == rgba_len(size as nat) <==> r is Ok,
            r matches Ok(img) ==> img@ == (ImageView { size, rgba: rgba@, hot_x, hot_y }),
            r matches Err(e) ==> e == Error::Cursor(CursorFault::WrongBufferSize {
                size,
                want: (if rgba_len(size as nat) <= usize::MAX { rgba_len(size as nat) as int } else { usize::MAX as int }) as usize,
                got: rgba@.len() as usize,
            }),
    {
        let s = size as u128;
        assert(s * s * 4 <= 0xffff_ffff_ffff_ffff_ffff_ffff) by (nonlinear_arith) requires s <= 0xffff_ffff;
        let want_wide = s * s * 4;
        let want: usize = if want_wide <= usize::MAX as u128 { want_wide as usize } else { usize::MAX };
        assert(s * s * 4 == rgba_len(size as nat)) by (nonlinear_arith)
            requires s == size;
        if want_wide != rgba.len() as u128 {
            return Err(Error::Cursor(CursorFault::WrongBufferSize { size, want, got: rgba.len() }));
        }
        Ok(Image { size, rgba, hot_x, hot_y })
    }
}


// ------------------------------------------------------------------ ordering

/// Insert `x` into `s` after every trailing element smaller than it... read from
/// the back: `x` lands just after the last element whose size is at least its own.
/// On a list sorted largest-first this is a stable insertion.
pub open spec fn insert_desc(s: Seq<ImageView>, x: ImageView) -> Seq<ImageView>
    decreases s.len(),
{
    if s.len() == 0 {
        seq![x]
    } else if s.last().size >= x.size {
        s.push(x)
    } else {
        insert_desc(s.drop_last(), x).push(s.last())
    }
}

/// The images ordered largest-first; images of equal size keep their order.
pub open spec fn sort_desc(s: Seq<ImageView>) -> Seq<ImageView>
    decreases s.len(),
{
    if s.len() == 0 {
        s
    } else {
        insert_desc(sort_desc(s.drop_last()), s.last())
    }
}

/// Where the backwards scan stops is where [`insert_desc`] puts the element.
proof fn lemma_insert_desc_at(s: Seq<ImageView>, x: ImageView, p: int)
    requires
        0 <= p <= s.len(),
        forall|q: int| p < q <= s.len() ==> (#[trigger] s[q - 1]).size < x.size,
        p == 0 || s[p - 1].size >= x.size,
    ensures
        insert_desc(s, x) == s.insert(p, x),
    decreases s.len(),
{
    if s.len() == 0 {
        assert(insert_desc(s, x) =~= s.insert(p, x));
    } else if s.last().size >= x.size {
        if p < s.len() {
            assert(s[s.len() - 1].size < x.size);
        }
        assert(insert_desc(s, x) =~= s.insert(p, x));
    } else {
        assert(p < s.len());
        let t = s.drop_last();
        assert forall|q: int| p < q <= t.len() implies (#[trigger] t[q - 1]).size < x.size by {
            assert(t[q - 1] == s[q - 1]);
        }
        lemma_insert_desc_at(t, x, p);
        assert(insert_desc(s, x) =~= s.insert(p, x));
    }
}

/// Inserting adds exactly one element.
pub proof fn lemma_insert_desc_multiset(s: Seq<ImageView>, x: ImageView)
    ensures
        insert_desc(s, x).to_multiset() == s.to_multiset().insert(x),
        insert_desc(s, x).len() == s.len() + 1,
    decreases s.len(),
{
    broadcast use vstd::seq_lib::to_multiset_build;
    if s.len() == 0 {
        assert(s =~= Seq::<ImageView>::empty());
        assert(seq![x] =~= s.push(x));
    } else if s.last().size >= x.size {
    } else {
        lemma_insert_desc_multiset(s.drop_last(), x);
        assert(s =~= s.drop_last().push(s.last()));
        assert(insert_desc(s, x).to_multiset() =~= s.to_multiset().insert(x));
    }
}

/// Sorting is a permutation.
pub proof fn lemma_sort_desc_multiset(s: Seq<ImageView>)
    ensures
        sort_desc(s).to_multiset() == s.to_multiset(),
        sort_desc(s).len() == s.len(),
    decreases s.len(),
{
    broadcast use vstd::seq_lib::to_multiset_build;
    if s.len() > 0 {
        lemma_sort_desc_multiset(s.drop_last());
        lemma_insert_desc_multiset(sort_desc(s.drop_last()), s.last());
        assert(s =~= s.drop_last().push(s.last()));
    }
}

/// Every image of the sorted sequence is one of the input images.
pub proof fn lemma_sort_desc_elements(s: Seq<ImageView>)
    ensures
        sort_desc(s).len() == s.len(),
        forall|k: int| 0 <= k < s.len() ==> s.contains(#[trigger] sort_desc(s)[k]),
{
    broadcast use vstd::seq_lib::to_multiset_contains;
    lemma_sort_desc_multiset(s);
    assert forall|k: int| 0 <= k < s.len() implies s.contains(#[trigger] sort_desc(s)[k]) by {
        let y = sort_desc(s)[k];
        assert(sort_desc(s).contains(y));
        vstd::seq_lib::to_multiset_contains(sort_desc(s), y);
        vstd::seq_lib::to_multiset_contains(s, y);
    }
}

/// Positions of `images` in largest-first order, ties kept in input order.
fn order_desc(images: &[Image]) -> (order: Vec<usize>)
    ensures
        order@.len() == images@.len(),
        forall|k: int| 0 <= k < order@.len() ==> (#[trigger] order@[k]) < images@.len(),
        order@.map_values(|k: usize| images@[k as int]@) == sort_desc(views(images@)),
{
    let n = images.len();
    let ghost v = views(images@);
    let mut order: Vec<usize> = Vec::new();
    let mut i: usize = 0;
    assert(v.take(0) =~= Seq::<ImageView>::empty());
    assert(order@.map_values(|k: usize| images@[k as int]@) =~= Seq::<ImageView>::empty());
    while i < n
        invariant
            0 <= i <= n,
            n == images@.len(),
            v == views(images@),
            order@.len() == i,
            forall|k: int| 0 <= k < order@.len() ==> (#[trigger] order@[k]) < n,
            order@.map_values(|k: usize| images@[k as int]@) == sort_desc(v.take(i as int)),
        decreases n - i,
    {
        let ghost sorted = order@.map_values(|k: usize| images@[k as int]@);
        let mut p = order.len();
        while p > 0 && images[order[p - 1]].size < images[i].size
            invariant
                0 <= p <= order@.len(),
                order@.len() == i,
                i < n,
                n == images@.len(),
                forall|k: int| 0 <= k < order@.len() ==> (#[trigger] order@[k]) < n,
                sorted == order@.map_values(|k: usize| images@[k as int]@),
                forall|q: int| p < q <= sorted.len() ==> (#[trigger] sorted[q - 1]).size < images@[i as int].size,
            decreases p,
        {
            p = p - 1;
        }
        let ghost x = images@[i as int]@;
        proof {
            lemma_insert_desc_at(sorted, x, p as int);
            assert(v.take(i + 1).drop_last() =~= v.take(i as int));
            assert(v.take(i + 1).last() == x);
        }
        order.insert(p, i);
        assert(order@.map_values(|k: usize| images@[k as int]@) =~= sorted.insert(p as int, x));
        i = i + 1;
    }
    assert(v.take(n as int) =~= v);
    order
}

// ------------------------------------------------------------------ encoding

/// The RGBA channel that BGRA channel `c` holds, and back.
pub open spec fn swap_channel(c: int) -> int {
    if c == 0 {
        2
    } else if c == 2 {
        0
    } else {
        c
    }
}

/// For byte `j` of a bottom-up BGRA bitmap of a `size`x`size` image, the index
/// of the top-down RGBA byte it holds. Applied twice it gives `j` back.
pub open spec fn flip_index(size: int, j: int) -> int {
    let px = j / 4;
    let c = j % 4;
    let row = px / size;
    let col = px % size;
    ((size - 1 - row) * size + col) * 4 + swap_channel(c)
}

/// The XOR bitmap of an image: BGRA, rows bottom-up.
pub open spec fn xor_bytes(size: nat, rgba: Seq<u8>) -> Seq<u8> {
    Seq::new(rgba_len(size), |j: int| rgba[flip_index(size as int, j)])
}

/// A zero-filled run of `n` bytes.
pub open spec fn zeros(n: nat) -> Seq<u8> {
    Seq::new(n, |i: int| 0u8)
}

/// The BITMAPINFOHEADER written before each image. Height is doubled because the
/// DIB holds the XOR bitmap and the AND mask stacked.
pub open spec fn dib_header(size: u32) -> Seq<u8> {
    le32(40) + le32(size) + le32((2 * size) as u32) + le16(1) + le16(32) + le32(0) + le32(
        (rgba_len(size as nat) + and_len(size as nat)) as u32,
    ) + le32(0) + le32(0) + le32(0) + le32(0)
}

/// One image as stored in the container: header, XOR bitmap, all-zero AND mask.
pub open spec fn dib_bytes(img: ImageView) -> Seq<u8> {
    dib_header(img.size) + xor_bytes(img.size as nat, img.rgba) + zeros(and_len(img.size as nat))
}

/// Bytes the images occupy, in order.
pub open spec fn total_len(s: Seq<ImageView>) -> nat
    decreases s.len(),
{
    if s.len() == 0 {
        0
    } else {
        total_len(s.drop_last()) + image_len(s.last().size as nat)
    }
}

/// One 16-byte directory entry.
pub open spec fn entry_bytes(img: ImageView, kind: u16, offset: nat) -> Seq<u8> {
    seq![spec_dim_byte(img.size), spec_dim_byte(img.size), 0u8, 0u8] + (if kind == TYPE_CURSOR {
        le16(img.hot_x) + le16(img.hot_y)
    } else {
        le16(1) + le16(32)
    }) + le32(image_len(img.size as nat) as u32) + le32(offset as u32)
}

/// Where the first image starts, after the header and `n` entries.
pub open spec fn first_offset(n: nat) -> nat {
    6 + 16 * n
}

/// The first `n` directory entries for the images `s`.
pub open spec fn dir_bytes(s: Seq<ImageView>, kind: u16, n: nat) -> Seq<u8>
    decreases n,
{
    if n == 0 {
        Seq::empty()
    } else {
        dir_bytes(s, kind, (n - 1) as nat) + entry_bytes(
            s[n - 1],
            kind,
            first_offset(s.len()) + total_len(s.take(n - 1)),
        )
    }
}

/// The first `n` stored images of `s`, back to back.
pub open spec fn dibs(s: Seq<ImageView>, n: nat) -> Seq<u8>
    decreases n,
{
    if n == 0 {
        Seq::empty()
    } else {
        dibs(s, (n - 1) as nat) + dib_bytes(s[n - 1])
    }
}

/// A complete container holding the images `s` in the given order.
#[verifier::opaque]
pub open spec fn container_bytes(s: Seq<ImageView>, kind: u16) -> Seq<u8> {
    le16(0) + le16(kind) + le16((s.len() % 65536) as u16) + dir_bytes(s, kind, s.len()) + dibs(
        s,
        s.len(),
    )
}

/// What [`encode`] produces: the images largest-first in one container.
pub open spec fn spec_encode(images: Seq<ImageView>, kind: u16) -> Result<Seq<u8>, Error> {
    if images.len() == 0 {
        Err(Error::Cursor(CursorFault::NoImages))
    } else {
        Ok(container_bytes(sort_desc(images), kind))
    }
}

/// Images that can be written: every buffer holds its pixels, and every offset
/// in the directory fits its 32-bit field.
pub open spec fn encodable(images: Seq<ImageView>) -> bool {
    &&& forall|k: int| 0 <= k < images.len() ==> (#[trigger] images[k]).rgba.len() >= rgba_len(images[k].size as nat)
    &&& first_offset(images.len()) + total_len(images) <= u32::MAX
}

/// Byte `(row * size + col) * 4 + c` of the XOR bitmap holds RGBA byte
/// `((size - 1 - row) * size + col) * 4 + swap(c)`.
pub proof fn lemma_flip(size: int, row: int, col: int, c: int)
    requires
        0 <= row < size,
        0 <= col < size,
        0 <= c < 4,
    ensures
        flip_index(size, (row * size + col) * 4 + c) == ((size - 1 - row) * size + col) * 4 + swap_channel(c),
        0 <= (row * size + col) * 4 + c < size * size * 4,
        0 <= ((size - 1 - row) * size + col) * 4 + swap_channel(c) < size * size * 4,
{
    let px = row * size + col;
    assert(0 <= px < size * size) by (nonlinear_arith)
        requires 0 <= row < size, 0 <= col < size, px == row * size + col;
    lemma_fundamental_div_mod_converse(px * 4 + c, 4, px, c);
    lemma_fundamental_div_mod_converse(px, size, row, col);
    let q = (size - 1 - row) * size + col;
    assert(0 <= q < size * size) by (nonlinear_arith)
        requires 0 <= row < size, 0 <= col < size, q == (size - 1 - row) * size + col;
}

/// The summed length of a prefix never exceeds the summed length of the whole.
pub proof fn lemma_total_len_prefix(s: Seq<ImageView>, n: int)
    requires
        0 <= n <= s.len(),
    ensures
        total_len(s.take(n)) <= total_len(s),
    decreases s.len() - n,
{
    if n < s.len() {
        lemma_total_len_prefix(s, n + 1);
        assert(s.take(n + 1).drop_last() =~= s.take(n));
    } else {
        assert(s.take(n) =~= s);
    }
}

/// Append one stored image: header, XOR bitmap, AND mask.
fn write_dib(out: &mut Vec<u8>, img: &Image)
    requires
        img.rgba@.len() >= rgba_len(img.size as nat),
        image_len(img.size as nat) <= u32::MAX,
    ensures
        final(out)@ == old(out)@ + dib_bytes(img@),
{
    let size = img.size;
    proof {
        lemma_image_len_bounds(size as nat);
        assert(size <= 0x7fff) by (nonlinear_arith)
            requires 4 * size * size <= 0xffff_ffff;
    }
    let s = size as usize;
    let xor_len = s * s * 4;
    assert(xor_len == rgba_len(size as nat)) by (nonlinear_arith) requires s == size, xor_len == s * s * 4;
    let and_stride = and_stride(size);
    let and_total = and_stride * s;
    assert(and_total == and_len(size as nat)) by (nonlinear_arith) requires and_stride == spec_and_stride(size as nat), s == size, and_total == and_stride * s;

    let ghost start = out@;
    push_u32(out, BITMAPINFOHEADER);
    push_u32(out, size);
    push_u32(out, size * 2);
    push_u16(out, 1);
    push_u16(out, 32);
    push_u32(out, 0);
    push_u32(out, (xor_len + and_total) as u32);
    push_u32(out, 0);
    push_u32(out, 0);
    push_u32(out, 0);
    push_u32(out, 0);
    assert(out@ =~= start + dib_header(size));

    let ghost head = out@;
    let ghost xor = xor_bytes(size as nat, img.rgba@);
    let mut r: usize = 0;
    assert(xor.take(0) =~= Seq::<u8>::empty());
    assert(out@ =~= head + xor.take(0));
    while r < s
        invariant
            0 <= r <= s,
            s == size,
            s <= 0x7fff,
            img.rgba@.len() >= rgba_len(size as nat),
            xor == xor_bytes(size as nat, img.rgba@),
            out@ == head + xor.take((r * s * 4) as int),
        decreases s - r,
    {
        let y = s - 1 - r;
        assert(y * s * 4 <= s * s * 4 && s * s * 4 <= 0xffff_ffff) by (nonlinear_arith) requires y < s, s <= 0x7fff;
        let row = y * s * 4;
        let mut x: usize = 0;
        assert(r * s * 4 + 0 == (r * s + 0) * 4);
        while x < s
            invariant
                0 <= r < s,
                0 <= x <= s,
                s == size,
                s <= 0x7fff,
                y == s - 1 - r,
                row == y * s * 4,
                img.rgba@.len() >= rgba_len(size as nat),
                xor == xor_bytes(size as nat, img.rgba@),
                out@ == head + xor.take(((r * s + x) * 4) as int),
            decreases s - x,
        {
            assert(row + x * 4 + 3 < s * s * 4 && s * s * 4 <= 0xffff_ffff) by (nonlinear_arith) requires row == y * s * 4, y < s, x < s, s <= 0x7fff;
            let p = row + x * 4;
            proof {
                assert(p == (y * s + x) * 4) by (nonlinear_arith) requires p == row + x * 4, row == y * s * 4;
                lemma_flip(s as int, r as int, x as int, 0);
                lemma_flip(s as int, r as int, x as int, 1);
                lemma_flip(s as int, r as int, x as int, 2);
                lemma_flip(s as int, r as int, x as int, 3);
                assert(y == s - 1 - r);
            }
            let ghost k = (r * s + x) * 4;
            out.push(img.rgba[p + 2]);
            out.push(img.rgba[p + 1]);
            out.push(img.rgba[p]);
            out.push(img.rgba[p + 3]);
            proof {
                assert(xor[k] == img.rgba@[p + 2]);
                assert(xor[k + 1] == img.rgba@[p + 1]);
                assert(xor[k + 2] == img.rgba@[p as int]);
                assert(xor[k + 3] == img.rgba@[p + 3]);
                assert(k + 4 == (r * s + x + 1) * 4);
                assert(out@ =~= head + xor.take(k + 4));
            }
            x = x + 1;
        }
        assert((r * s + s) * 4 == (r + 1) * s * 4) by (nonlinear_arith);
        r = r + 1;
    }
    assert(s * s * 4 == xor.len()) by (nonlinear_arith) requires xor.len() == rgba_len(size as nat), s == size;
    assert(xor.take(xor.len() as int) =~= xor);

    let ghost mid = out@;
    let mut k: usize = 0;
    assert(out@ =~= mid + zeros(0));
    while k < and_total
        invariant
            0 <= k <= and_total,
            out@ == mid + zeros(k as nat),
        decreases and_total - k,
    {
        out.push(0u8);
        k = k + 1;
        assert(out@ =~= mid + zeros(k as nat));
    }
    assert(final(out)@ =~= old(out)@ + dib_bytes(img@));
}

/// Encode a set of images as a single `.cur` (or `.ico`) file.
///
/// Images are emitted largest-first, which is what Windows' own cursors do;
/// images of equal size keep their relative order.
#[verifier::rlimit(40)]
#[verifier::spinoff_prover]
pub fn encode(images: &[Image], kind: u16) -> (r: Result<Vec<u8>, Error>)
    requires
        encodable(views(images@)),
    ensures
        r matches Ok(bytes) ==> spec_encode(views(images@), kind) == Ok::<Seq<u8>, Error>(bytes@),
        r matches Err(e) ==> spec_encode(views(images@), kind) == Err::<Seq<u8>, Error>(e),
{
    if images.len() == 0 {
        return Err(Error::Cursor(CursorFault::NoImages));
    }
    let ghost v = views(images@);
    let order = order_desc(images);
    let n = order.len();
    let ghost sorted = sort_desc(v);
    proof {
        lemma_sort_desc_elements(v);
        lemma_sort_desc_total(v);
        assert(sorted =~= order@.map_values(|k: usize| images@[k as int]@));
    }

    let mut out: Vec<u8> = Vec::new();
    push_u16(&mut out, 0);
    push_u16(&mut out, kind);
    push_u16(&mut out, (n % 65536) as u16);
    let ghost head = out@;
    assert(head =~= le16(0) + le16(kind) + le16((sorted.len() % 65536) as u16));

    let mut offset: u32 = (DIR_HEADER + DIR_ENTRY * n) as u32;
    let mut i: usize = 0;
    assert(out@ =~= head + dir_bytes(sorted, kind, 0));
    assert(sorted.take(0) =~= Seq::<ImageView>::empty());
    while i < n
        invariant
            0 <= i <= n,
            n == order@.len(),
            n == sorted.len(),
            n == images@.len(),
            v == views(images@),
            sorted == sort_desc(v),
            sorted == order@.map_values(|k: usize| images@[k as int]@),
            forall|k: int| 0 <= k < order@.len() ==> (#[trigger] order@[k]) < images@.len(),
            encodable(sorted),
            offset == first_offset(n as nat) + total_len(sorted.take(i as int)),
            out@ == head + dir_bytes(sorted, kind, i as nat),
        decreases n - i,
    {
        let img = &images[order[i]];
        assert(img@ == sorted[i as int]);
        proof {
            lemma_total_len_prefix(sorted, i + 1);
            assert(sorted.take(i + 1).drop_last() =~= sorted.take(i as int));
            lemma_image_len_bounds(img.size as nat);
        }
        let len = image_bytes(img.size) as u32;
        let ghost before = out@;
        out.push(dim_byte(img.size));
        out.push(dim_byte(img.size));
        out.push(0);
        out.push(0);
        if kind == TYPE_CURSOR {
            push_u16(&mut out, img.hot_x);
            push_u16(&mut out, img.hot_y);
        } else {
            push_u16(&mut out, 1);
            push_u16(&mut out, 32);
        }
        push_u32(&mut out, len);
        push_u32(&mut out, offset);
        assert(out@ =~= before + entry_bytes(sorted[i as int], kind, offset as nat));
        offset = offset + len;
        i = i + 1;
    }

    let ghost dir_end = out@;
    let mut j: usize = 0;
    assert(out@ =~= dir_end + dibs(sorted, 0));
    while j < n
        invariant
            0 <= j <= n,
            n == order@.len(),
            n == sorted.len(),
            sorted == order@.map_values(|k: usize| images@[k as int]@),
            forall|k: int| 0 <= k < order@.len() ==> (#[trigger] order@[k]) < images@.len(),
            encodable(sorted),
            out@ == dir_end + dibs(sorted, j as nat),
        decreases n - j,
    {
        let img = &images[order[j]];
        assert(img@ == sorted[j as int]);
        proof {
            lemma_total_len_prefix(sorted, j + 1);
            lemma_total_len_last(sorted.take(j + 1));
            assert(sorted.take(j + 1).last() == sorted[j as int]);
        }
        write_dib(&mut out, img);
        j = j + 1;
    }
    proof {
        reveal(container_bytes);
    }
    assert(out@ =~= container_bytes(sorted, kind));
    Ok(out)
}

/// The last image's length is part of the total.
pub proof fn lemma_total_len_last(s: Seq<ImageView>)
    requires
        s.len() > 0,
    ensures
        image_len(s.last().size as nat) <= total_len(s),
{
}

/// Sorting keeps the images encodable and the total length.
pub proof fn lemma_sort_desc_total(s: Seq<ImageView>)
    requires
        encodable(s),
    ensures
        encodable(sort_desc(s)),
        total_len(sort_desc(s)) == total_len(s),
{
    lemma_sort_desc_elements(s);
    lemma_sort_desc_total_len(s);
    let t = sort_desc(s);
    assert forall|k: int| 0 <= k < t.len() implies (#[trigger] t[k]).rgba.len() >= rgba_len(t[k].size as nat) by {
        assert(s.contains(t[k]));
    }
}

proof fn lemma_insert_desc_total_len(s: Seq<ImageView>, x: ImageView)
    ensures
        total_len(insert_desc(s, x)) == total_len(s) + image_len(x.size as nat),
    decreases s.len(),
{
    if s.len() == 0 {
        assert(seq![x].drop_last() =~= Seq::<ImageView>::empty());
        assert(seq![x].last() == x);
        assert(total_len(Seq::<ImageView>::empty()) == 0);
        assert(total_len(s) == 0);
    } else if s.last().size >= x.size {
        assert(s.push(x).drop_last() =~= s);
    } else {
        lemma_insert_desc_total_len(s.drop_last(), x);
        let t = insert_desc(s.drop_last(), x);
        assert(t.push(s.last()).drop_last() =~= t);
        assert(total_len(t.push(s.last())) == total_len(t) + image_len(s.last().size as nat));
        assert(total_len(s) == total_len(s.drop_last()) + image_len(s.last().size as nat));
    }
}

proof fn lemma_sort_desc_total_len(s: Seq<ImageView>)
    ensures
        total_len(sort_desc(s)) == total_len(s),
    decreases s.len(),
{
    if s.len() > 0 {
        lemma_sort_desc_total_len(s.drop_last());
        lemma_insert_desc_total_len(sort_desc(s.drop_last()), s.last());
    }
}

// ------------------------------------------------------------------ decoding

/// A directory entry, without decoding pixels.
#[derive(Debug, Clone, Copy, PartialEq, Eq, Structural)]
pub struct Entry {
    pub width: u32,
    pub height: u32,
    pub hot_x: u16,
    pub hot_y: u16,
    pub bytes: u32,
    pub offset: u32,
}

/// The entry stored at byte `o`.
pub open spec fn entry_at(d: Seq<u8>, o: int) -> Entry {
    Entry {
        width: spec_decode_dim(d[o]),
        height: spec_decode_dim(d[o + 1]),
        hot_x: u16_at(d, o + 4),
        hot_y: u16_at(d, o + 6),
        bytes: u32_at(d, o + 8),
        offset: u32_at(d, o + 12),
    }
}

/// What [`read_dir`] returns for `d`.
pub open spec fn spec_read_dir(d: Seq<u8>) -> Result<Seq<Entry>, Error> {
    if d.len() < 6 {
        Err(Error::Cursor(CursorFault::ShortHeader))
    } else if u16_at(d, 4) == 0 {
        Err(Error::Cursor(CursorFault::ZeroImages))
    } else if d.len() < first_offset(u16_at(d, 4) as nat) {
        Err(
            Error::Cursor(
                CursorFault::DirectoryTruncated {
                    count: u16_at(d, 4) as usize,
                    need: first_offset(u16_at(d, 4) as nat) as usize,
                    len: d.len() as usize,
                },
            ),
        )
    } else {
        Ok(Seq::new(u16_at(d, 4) as nat, |i: int| entry_at(d, 6 + 16 * i)))
    }
}

/// Read just the directory of a `.cur`/`.ico`.
pub fn read_dir(data: &[u8]) -> (r: Result<Vec<Entry>, Error>)
    ensures
        r matches Ok(v) ==> spec_read_dir(data@) == Ok::<Seq<Entry>, Error>(v@),
        r matches Err(e) ==> spec_read_dir(data@) == Err::<Seq<Entry>, Error>(e),
{
    if data.len() < DIR_HEADER {
        return Err(Error::Cursor(CursorFault::ShortHeader));
    }
    let count = read_u16(data, 4) as usize;
    if count == 0 {
        return Err(Error::Cursor(CursorFault::ZeroImages));
    }
    let need = DIR_HEADER + DIR_ENTRY * count;
    if data.len() < need {
        return Err(Error::Cursor(CursorFault::DirectoryTruncated { count, need, len: data.len() }));
    }
    let mut out: Vec<Entry> = Vec::new();
    let mut i: usize = 0;
    while i < count
        invariant
            0 <= i <= count,
            count == u16_at(data@, 4),
            data@.len() >= first_offset(count as nat),
            out@ =~= Seq::new(i as nat, |k: int| entry_at(data@, 6 + 16 * k)),
        decreases count - i,
    {
        let o = DIR_HEADER + i * DIR_ENTRY;
        let e = Entry {
            width: decode_dim(data[o]),
            height: decode_dim(data[o + 1]),
            hot_x: read_u16(data, o + 4),
            hot_y: read_u16(data, o + 6),
            bytes: read_u32(data, o + 8),
            offset: read_u32(data, o + 12),
        };
        out.push(e);
        i = i + 1;
    }
    Ok(out)
}

/// The width a BITMAPINFOHEADER declares, negative read as zero.
pub open spec fn dib_width(v: u32) -> u32 {
    if v >= 0x8000_0000 { 0 } else { v }
}

/// The image height a BITMAPINFOHEADER declares: half the stored height, which
/// covers the XOR bitmap and the AND mask stacked. Negative reads as zero.
pub open spec fn dib_height(v: u32) -> u32 {
    if v >= 0x8000_0000 { 0 } else { v / 2 }
}

/// Decode one stored image (the bytes of a directory entry).
pub open spec fn decode_dib(img: Seq<u8>, hot_x: u16, hot_y: u16) -> Result<ImageView, Error> {
    if img.len() >= 4 && img[0] == 0x89 && img[1] == 0x50 && img[2] == 0x4e && img[3] == 0x47 {
        Err(Error::Cursor(CursorFault::PngPayload))
    } else if img.len() < 40 {
        Err(Error::Cursor(CursorFault::ImageShorterThanHeader))
    } else if u16_at(img, 14) != 32 {
        Err(Error::Cursor(CursorFault::UnsupportedBitCount(u16_at(img, 14))))
    } else if u32_at(img, 16) != 0 {
        Err(Error::Cursor(CursorFault::UnsupportedCompression(u32_at(img, 16))))
    } else {
        let w = dib_width(u32_at(img, 4));
        let h = dib_height(u32_at(img, 8));
        if w == 0 || h == 0 || w != h {
            Err(Error::Cursor(CursorFault::NotSquare { w, h }))
        } else if img.len() < 40 + rgba_len(w as nat) {
            Err(Error::Cursor(CursorFault::PixelsTruncated))
        } else {
            Ok(
                ImageView {
                    size: w,
                    rgba: Seq::new(rgba_len(w as nat), |k: int| img[40 + flip_index(w as int, k)]),
                    hot_x,
                    hot_y,
                },
            )
        }
    }
}

/// Decode the image a directory entry points at.
pub open spec fn decode_entry(d: Seq<u8>, e: Entry) -> Result<ImageView, Error> {
    let start = e.offset as int;
    let end = start + e.bytes as int;
    if end > usize::MAX {
        Err(Error::Cursor(CursorFault::EntryOverflow))
    } else if end > d.len() {
        Err(
            Error::Cursor(
                CursorFault::ImagePastEnd { start: start as usize, end: end as usize, len: d.len() as usize },
            ),
        )
    } else {
        decode_dib(d.subrange(start, end), e.hot_x, e.hot_y)
    }
}

/// Decode the images of the entries, in order, stopping at the first failure.
pub open spec fn decode_entries(d: Seq<u8>, es: Seq<Entry>) -> Result<Seq<ImageView>, Error>
    decreases es.len(),
{
    if es.len() == 0 {
        Ok(Seq::empty())
    } else {
        match decode_entries(d, es.drop_last()) {
            Err(e) => Err(e),
            Ok(prev) => match decode_entry(d, es.last()) {
                Err(e) => Err(e),
                Ok(img) => Ok(prev.push(img)),
            },
        }
    }
}

/// What [`decode`] returns for `d`.
#[verifier::opaque]
pub open spec fn spec_decode(d: Seq<u8>) -> Result<Seq<ImageView>, Error> {
    match spec_read_dir(d) {
        Err(e) => Err(e),
        Ok(es) => decode_entries(d, es),
    }
}

/// Decode the stored image `img` (already cut out of the container).
fn decode_one(img: &[u8], hot_x: u16, hot_y: u16) -> (r: Result<Image, Error>)
    ensures
        r matches Ok(i) ==> decode_dib(img@, hot_x, hot_y) == Ok::<ImageView, Error>(i@),
        r matches Err(e) ==> decode_dib(img@, hot_x, hot_y) == Err::<ImageView, Error>(e),
{
    if img.len() >= 4 && img[0] == 0x89 && img[1] == 0x50 && img[2] == 0x4e && img[3] == 0x47 {
        return Err(Error::Cursor(CursorFault::PngPayload));
    }
    if img.len() < BITMAPINFOHEADER as usize {
        return Err(Error::Cursor(CursorFault::ImageShorterThanHeader));
    }
    let width = read_u32(img, 4);
    let height2 = read_u32(img, 8);
    let bitcount = read_u16(img, 14);
    let compression = read_u32(img, 16);
    if bitcount != 32 {
        return Err(Error::Cursor(CursorFault::UnsupportedBitCount(bitcount)));
    }
    if compression != 0 {
        return Err(Error::Cursor(CursorFault::UnsupportedCompression(compression)));
    }
    let w: u32 = if width >= 0x8000_0000 { 0 } else { width };
    let h: u32 = if height2 >= 0x8000_0000 { 0 } else { height2 / 2 };
    if w == 0 || h == 0 || w != h {
        return Err(Error::Cursor(CursorFault::NotSquare { w, h }));
    }
    let wide = w as u64;
    assert(wide * wide * 4 < 0x1_0000_0000_0000_0000 - 40) by (nonlinear_arith) requires wide < 0x8000_0000;
    assert(wide * wide * 4 == rgba_len(w as nat)) by (nonlinear_arith) requires wide == w;
    if (img.len() as u64) < 40 + wide * wide * 4 {
        return Err(Error::Cursor(CursorFault::PixelsTruncated));
    }
    let n = w as usize;
    let xor_len = n * n * 4;
    let img_len = img.len();
    let mut rgba: Vec<u8> = vec![0u8; xor_len];
    let ghost want = Seq::new(rgba_len(w as nat), |k: int| img@[40 + flip_index(w as int, k)]);
    let mut y: usize = 0;
    while y < n
        invariant
            0 <= y <= n,
            n == w,
            xor_len == n * n * 4,
            img@.len() >= 40 + xor_len,
            rgba@.len() == xor_len,
            img_len == img@.len(),
            want.len() == xor_len,
            want == Seq::new(rgba_len(w as nat), |k: int| img@[40 + flip_index(w as int, k)]),
            forall|k: int| 0 <= k < (y * n * 4) ==> rgba@[k] == #[trigger] want[k],
        decreases n - y,
    {
        assert((n - 1 - y) * n * 4 <= xor_len && y * n * 4 <= xor_len) by (nonlinear_arith) requires y < n, xor_len == n * n * 4;
        let src_row = (n - 1 - y) * n * 4;
        let dst_row = y * n * 4;
        let mut x: usize = 0;
        assert(y * n * 4 == (y * n + 0) * 4);
        while x < n
            invariant
                0 <= y < n,
                0 <= x <= n,
                n == w,
                xor_len == n * n * 4,
                img@.len() >= 40 + xor_len,
                rgba@.len() == xor_len,
                src_row == (n - 1 - y) * n * 4,
                dst_row == y * n * 4,
                img_len == img@.len(),
                want == Seq::new(rgba_len(w as nat), |k: int| img@[40 + flip_index(w as int, k)]),
                forall|k: int| 0 <= k < ((y * n + x) * 4) ==> rgba@[k] == #[trigger] want[k],
            decreases n - x,
        {
            assert(src_row + x * 4 + 3 < xor_len && dst_row + x * 4 + 3 < xor_len) by (nonlinear_arith)
                requires src_row == (n - 1 - y) * n * 4, dst_row == y * n * 4, x < n, y < n, xor_len == n * n * 4;
            assert(40 + src_row + x * 4 + 3 < img@.len());
            let s = 40 + src_row + x * 4;
            let d = dst_row + x * 4;
            proof {
                assert(d == (y * n + x) * 4) by (nonlinear_arith) requires d == dst_row + x * 4, dst_row == y * n * 4;
                assert(s == 40 + ((n - 1 - y) * n + x) * 4) by (nonlinear_arith) requires s == 40 + src_row + x * 4, src_row == (n - 1 - y) * n * 4;
                lemma_flip(n as int, y as int, x as int, 0);
                lemma_flip(n as int, y as int, x as int, 1);
                lemma_flip(n as int, y as int, x as int, 2);
                lemma_flip(n as int, y as int, x as int, 3);
            }
            let ghost prev = rgba@;
            rgba.set(d, img[s + 2]);
            rgba.set(d + 1, img[s + 1]);
            rgba.set(d + 2, img[s]);
            rgba.set(d + 3, img[s + 3]);
            proof {
                assert(want[d as int] == img@[s + 2]);
                assert(want[d + 1] == img@[s + 1]);
                assert(want[d + 2] == img@[s as int]);
                assert(want[d + 3] == img@[s + 3]);
                assert((y * n + x + 1) * 4 == d + 4);
                assert forall|k: int| 0 <= k < ((y * n + (x + 1)) * 4) implies rgba@[k] == #[trigger] want[k] by {
                    if k < d {
                        assert(rgba@[k] == prev[k]);
                    }
                }
            }
            x = x + 1;
        }
        assert((y * n + n) * 4 == (y + 1) * n * 4) by (nonlinear_arith);
        y = y + 1;
    }
    assert(rgba@ =~= want);
    Ok(Image { size: w, rgba, hot_x, hot_y })
}

/// Fully decode a `.cur`/`.ico` back to images.
///
/// Handles the 32bpp BI_RGB form we emit and that Windows' own cursors use.
/// PNG-payload entries (Vista icon style) and paletted DIBs are reported rather
/// than silently skipped.
pub fn decode(data: &[u8]) -> (r: Result<Vec<Image>, Error>)
    ensures
        r matches Ok(v) ==> spec_decode(data@) == Ok::<Seq<ImageView>, Error>(views(v@)),
        r matches Err(e) ==> spec_decode(data@) == Err::<Seq<ImageView>, Error>(e),
{
    let entries = match read_dir(data) {
        Ok(es) => es,
        Err(e) => {
            proof {
                reveal(spec_decode);
            }
            return Err(e);
        },
    };
    let mut out: Vec<Image> = Vec::new();
    let mut i: usize = 0;
    assert(entries@.take(0) =~= Seq::<Entry>::empty());
    assert(views(out@) =~= Seq::<ImageView>::empty());
    while i < entries.len()
        invariant
            0 <= i <= entries@.len(),
            spec_read_dir(data@) == Ok::<Seq<Entry>, Error>(entries@),
            decode_entries(data@, entries@.take(i as int)) == Ok::<Seq<ImageView>, Error>(views(out@)),
        decreases entries@.len() - i,
    {
        let e = entries[i];
        proof {
            assert(entries@.take(i + 1).drop_last() =~= entries@.take(i as int));
            assert(entries@.take(i + 1).last() == e);
        }
        let start = e.offset as usize;
        let end = match start.checked_add(e.bytes as usize) {
            Some(end) => end,
            None => {
                proof {
                    lemma_decode_entries_err(data@, entries@, (i + 1) as int);
                    reveal(spec_decode);
                }
                return Err(Error::Cursor(CursorFault::EntryOverflow));
            },
        };
        if end > data.len() {
            proof {
                lemma_decode_entries_err(data@, entries@, (i + 1) as int);
                reveal(spec_decode);
            }
            return Err(Error::Cursor(CursorFault::ImagePastEnd { start, end, len: data.len() }));
        }
        let img = &data[start..end];
        assert(img@ =~= data@.subrange(start as int, end as int));
        let ghost old_out = out@;
        match decode_one(img, e.hot_x, e.hot_y) {
            Ok(image) => {
                out.push(image);
                assert(decode_entry(data@, e) == Ok::<ImageView, Error>(image@));
                assert(views(out@) =~= views(old_out).push(image@));
                assert(decode_entries(data@, entries@.take(i + 1)) == Ok::<Seq<ImageView>, Error>(views(old_out).push(image@)));
            },
            Err(err) => {
                proof {
                    lemma_decode_entries_err(data@, entries@, (i + 1) as int);
                    reveal(spec_decode);
                }
                return Err(err);
            },
        }
        i = i + 1;
    }
    assert(entries@.take(entries@.len() as int) =~= entries@);
    proof {
        reveal(spec_decode);
    }
    Ok(out)
}

/// A failure decoding the first `n` entries is the failure of decoding all of them.
proof fn lemma_decode_entries_err(d: Seq<u8>, es: Seq<Entry>, n: int)
    requires
        0 <= n <= es.len(),
        decode_entries(d, es.take(n)) is Err,
    ensures
        decode_entries(d, es) == decode_entries(d, es.take(n)),
    decreases es.len() - n,
{
    if n < es.len() {
        assert(es.take(n + 1).drop_last() =~= es.take(n));
        lemma_decode_entries_err(d, es, n + 1);
    } else {
        assert(es.take(n) =~= es);
    }
}

// ------------------------------------------------------------------ round trip

/// Applying [`flip_index`] twice returns the byte it started from.
pub proof fn lemma_flip_involution(size: int, k: int)
    requires
        size > 0,
        0 <= k < size * size * 4,
    ensures
        0 <= flip_index(size, k) < size * size * 4,
        flip_index(size, flip_index(size, k)) == k,
{
    let px = k / 4;
    let c = k % 4;
    let row = px / size;
    let col = px % size;
    vstd::arithmetic::div_mod::lemma_fundamental_div_mod(k, 4);
    vstd::arithmetic::div_mod::lemma_fundamental_div_mod(px, size);
    vstd::arithmetic::div_mod::lemma_mod_bound(k, 4);
    vstd::arithmetic::div_mod::lemma_mod_bound(px, size);
    assert(0 <= px < size * size) by (nonlinear_arith)
        requires k == 4 * px + c, 0 <= c < 4, 0 <= k < size * size * 4;
    assert(0 <= row < size) by (nonlinear_arith)
        requires px == size * row + col, 0 <= col < size, 0 <= px < size * size, size > 0;
    assert(k == (row * size + col) * 4 + c) by (nonlinear_arith)
        requires k == 4 * px + c, px == size * row + col;
    lemma_flip(size, row, col, c);
    lemma_flip(size, size - 1 - row, col, swap_channel(c));
}

/// Images that survive a round trip: non-empty, with exactly their pixels.
pub open spec fn exact_image(img: ImageView) -> bool {
    img.size >= 1 && img.rgba.len() == rgba_len(img.size as nat)
}

/// Directory entry `i` sits at bytes `16 * i .. 16 * i + 16` of the entries.
proof fn lemma_dir_entry(s: Seq<ImageView>, kind: u16, m: nat, i: int)
    requires
        0 <= i < m <= s.len(),
    ensures
        dir_bytes(s, kind, m).len() == 16 * m,
        dir_bytes(s, kind, m).subrange(16 * i, 16 * i + 16) == entry_bytes(
            s[i],
            kind,
            first_offset(s.len()) + total_len(s.take(i)),
        ),
    decreases m,
{
    lemma_dir_len(s, kind, (m - 1) as nat);
    if i < m - 1 {
        lemma_dir_entry(s, kind, (m - 1) as nat, i);
        let a = dir_bytes(s, kind, (m - 1) as nat);
        let b = entry_bytes(s[m - 1], kind, first_offset(s.len()) + total_len(s.take(m - 1)));
        assert((a + b).subrange(16 * i, 16 * i + 16) =~= a.subrange(16 * i, 16 * i + 16));
    } else {
        let a = dir_bytes(s, kind, (m - 1) as nat);
        let b = entry_bytes(s[m - 1], kind, first_offset(s.len()) + total_len(s.take(m - 1)));
        assert((a + b).subrange(16 * i, 16 * i + 16) =~= b);
    }
}

/// The first `m` entries take `16 * m` bytes.
proof fn lemma_dir_len(s: Seq<ImageView>, kind: u16, m: nat)
    ensures
        dir_bytes(s, kind, m).len() == 16 * m,
    decreases m,
{
    if m > 0 {
        lemma_dir_len(s, kind, (m - 1) as nat);
    }
}

/// Stored image `i` sits at its running offset within the image section.
proof fn lemma_dibs_at(s: Seq<ImageView>, m: nat, i: int)
    requires
        0 <= i < m <= s.len(),
    ensures
        dibs(s, m).len() == total_len(s.take(m as int)),
        dibs(s, m).subrange(total_len(s.take(i)) as int, total_len(s.take(i + 1)) as int) == dib_bytes(s[i]),
    decreases m,
{
    lemma_dibs_len(s, (m - 1) as nat);
    lemma_dibs_len(s, m);
    assert(s.take(i + 1).drop_last() =~= s.take(i));
    if i < m - 1 {
        lemma_dibs_at(s, (m - 1) as nat, i);
        let a = dibs(s, (m - 1) as nat);
        let b = dib_bytes(s[m - 1]);
        lemma_total_len_prefix(s.take(m - 1), i + 1);
        assert(s.take(m - 1).take(i + 1) =~= s.take(i + 1));
        assert((a + b).subrange(total_len(s.take(i)) as int, total_len(s.take(i + 1)) as int)
            =~= a.subrange(total_len(s.take(i)) as int, total_len(s.take(i + 1)) as int));
    } else {
        let a = dibs(s, (m - 1) as nat);
        let b = dib_bytes(s[m - 1]);
        assert((a + b).subrange(total_len(s.take(i)) as int, total_len(s.take(i + 1)) as int) =~= b);
    }
}

/// The first `m` stored images take their summed length.
proof fn lemma_dibs_len(s: Seq<ImageView>, m: nat)
    requires
        m <= s.len(),
    ensures
        dibs(s, m).len() == total_len(s.take(m as int)),
    decreases m,
{
    if m > 0 {
        lemma_dibs_len(s, (m - 1) as nat);
        assert(s.take(m as int).drop_last() =~= s.take(m - 1));
        lemma_image_len_bounds(s[m - 1].size as nat);
        assert(dib_bytes(s[m - 1]).len() == image_len(s[m - 1].size as nat));
    }
}

/// A stored image decodes back to the image.
#[verifier::spinoff_prover]
#[verifier::rlimit(60)]
proof fn lemma_decode_dib(img: ImageView)
    requires
        exact_image(img),
        image_len(img.size as nat) <= u32::MAX,
    ensures
        decode_dib(dib_bytes(img), img.hot_x, img.hot_y) == Ok::<ImageView, Error>(img),
{
    let size = img.size;
    lemma_image_len_bounds(size as nat);
    assert(size <= 0x7fff) by (nonlinear_arith)
        requires 4 * size * size <= 0xffff_ffff;
    let d = dib_bytes(img);
    let xor = xor_bytes(size as nat, img.rgba);
    assert(d.len() == 40 + rgba_len(size as nat) + and_len(size as nat));
    assert(d.subrange(4, 8) =~= le32(size));
    assert(d.subrange(8, 12) =~= le32((2 * size) as u32));
    assert(d.subrange(14, 16) =~= le16(32));
    assert(d.subrange(16, 20) =~= le32(0));
    lemma_le32(size, d, 4);
    lemma_le32((2 * size) as u32, d, 8);
    lemma_le16(32, d, 14);
    lemma_le32(0, d, 16);
    assert(d[0] == 40);
    let back = Seq::new(rgba_len(size as nat), |k: int| d[40 + flip_index(size as int, k)]);
    assert forall|k: int| 0 <= k < rgba_len(size as nat) implies back[k] == img.rgba[k] by {
        lemma_flip_involution(size as int, k);
        let j = flip_index(size as int, k);
        assert(d[40 + j] == xor[j]);
    }
    assert(back =~= img.rgba);
}

/// The entry written for an image reads back with its hotspot, length and offset.
proof fn lemma_entry_roundtrip(d: Seq<u8>, o: int, img: ImageView, off: nat)
    requires
        0 <= o,
        o + 16 <= d.len(),
        d.subrange(o, o + 16) == entry_bytes(img, TYPE_CURSOR, off),
        off <= u32::MAX,
        image_len(img.size as nat) <= u32::MAX,
    ensures
        entry_at(d, o).hot_x == img.hot_x,
        entry_at(d, o).hot_y == img.hot_y,
        entry_at(d, o).bytes == image_len(img.size as nat),
        entry_at(d, o).offset == off,
{
    let e = entry_bytes(img, TYPE_CURSOR, off);
    assert(d.subrange(o + 4, o + 6) =~= e.subrange(4, 6));
    assert(e.subrange(4, 6) =~= le16(img.hot_x));
    assert(d.subrange(o + 6, o + 8) =~= e.subrange(6, 8));
    assert(e.subrange(6, 8) =~= le16(img.hot_y));
    assert(d.subrange(o + 8, o + 12) =~= e.subrange(8, 12));
    assert(e.subrange(8, 12) =~= le32(image_len(img.size as nat) as u32));
    assert(d.subrange(o + 12, o + 16) =~= e.subrange(12, 16));
    assert(e.subrange(12, 16) =~= le32(off as u32));
    lemma_le16(img.hot_x, d, o + 4);
    lemma_le16(img.hot_y, d, o + 6);
    lemma_le32(image_len(img.size as nat) as u32, d, o + 8);
    lemma_le32(off as u32, d, o + 12);
}

/// Decoding what [`encode`] wrote for a cursor gives back exactly the images,
/// largest first (equal sizes in their original order), with their pixels and
/// hotspots.
pub proof fn lemma_decode_encode(images: Seq<ImageView>)
    requires
        encodable(images),
        0 < images.len() <= 65535,
        forall|k: int| 0 <= k < images.len() ==> exact_image(#[trigger] images[k]),
    ensures
        spec_encode(images, TYPE_CURSOR) matches Ok(b) && spec_decode(b) == Ok::<Seq<ImageView>, Error>(
            sort_desc(images),
        ),
{
    let s = sort_desc(images);
    let n = s.len();
    lemma_sort_desc_total(images);
    lemma_sort_desc_elements(images);
    assert forall|k: int| 0 <= k < n implies exact_image(#[trigger] s[k]) by {
        assert(images.contains(s[k]));
    }
    let b = container_bytes(s, TYPE_CURSOR);
    let es = Seq::new(n, |i: int| entry_at(b, 6 + 16 * i));
    lemma_read_dir_encoded(s);

    assert forall|i: int| 0 <= i < n implies decode_entry(b, #[trigger] es[i]) == Ok::<ImageView, Error>(s[i]) by {
        lemma_entry_decodes(s, i);
    }
    lemma_decode_entries_ok(b, es, s, n as int);
    assert(es.take(n as int) =~= es);
    assert(s.take(n as int) =~= s);
    assert(decode_entries(b, es) == Ok::<Seq<ImageView>, Error>(s));
    reveal(spec_decode);
    assert(spec_decode(b) == Ok::<Seq<ImageView>, Error>(s));
    assert(spec_encode(images, TYPE_CURSOR) == Ok::<Seq<u8>, Error>(b));
}

/// Entries that each decode to the matching image decode, together, to all of them.
proof fn lemma_decode_entries_ok(d: Seq<u8>, es: Seq<Entry>, s: Seq<ImageView>, m: int)
    requires
        0 <= m <= es.len(),
        es.len() == s.len(),
        forall|i: int| 0 <= i < es.len() ==> decode_entry(d, #[trigger] es[i]) == Ok::<ImageView, Error>(s[i]),
    ensures
        decode_entries(d, es.take(m)) == Ok::<Seq<ImageView>, Error>(s.take(m)),
    decreases m,
{
    if m == 0 {
        assert(es.take(0) =~= Seq::<Entry>::empty());
        assert(s.take(0) =~= Seq::<ImageView>::empty());
    } else {
        lemma_decode_entries_ok(d, es, s, m - 1);
        assert(es.take(m).drop_last() =~= es.take(m - 1));
        assert(es.take(m).last() == es[m - 1]);
        assert(s.take(m - 1).push(s[m - 1]) =~= s.take(m));
    }
}

/// An encoded container is its header, then its directory, then its images.
proof fn lemma_container_parts(s: Seq<ImageView>, kind: u16)
    ensures
        container_bytes(s, kind).len() == first_offset(s.len()) + total_len(s),
        container_bytes(s, kind).subrange(4, 6) == le16((s.len() % 65536) as u16),
        container_bytes(s, kind).subrange(6, first_offset(s.len()) as int) == dir_bytes(s, kind, s.len()),
        container_bytes(s, kind).subrange(first_offset(s.len()) as int, container_bytes(s, kind).len() as int)
            == dibs(s, s.len()),
{
    let n = s.len();
    let head = le16(0) + le16(kind) + le16((n % 65536) as u16);
    let dir = dir_bytes(s, kind, n);
    let ds = dibs(s, n);
    lemma_dir_len(s, kind, n);
    lemma_dibs_len(s, n);
    assert(s.take(n as int) =~= s);
    let b = head + dir + ds;
    reveal(container_bytes);
    assert(b == container_bytes(s, kind));
    assert(b.subrange(4, 6) =~= le16((n % 65536) as u16));
    assert(b.subrange(6, first_offset(n) as int) =~= dir);
    assert(b.subrange(first_offset(n) as int, b.len() as int) =~= ds);
}

/// Entry `i` of an encoded cursor decodes to image `i`.
#[verifier::spinoff_prover]
#[verifier::rlimit(40)]
proof fn lemma_entry_decodes(s: Seq<ImageView>, i: int)
    requires
        encodable(s),
        0 <= i < s.len() <= 65535,
        exact_image(s[i]),
    ensures
        decode_entry(container_bytes(s, TYPE_CURSOR), entry_at(container_bytes(s, TYPE_CURSOR), 6 + 16 * i))
            == Ok::<ImageView, Error>(s[i]),
{
    let n = s.len();
    let b = container_bytes(s, TYPE_CURSOR);
    let dir = dir_bytes(s, TYPE_CURSOR, n);
    let ds = dibs(s, n);
    lemma_container_parts(s, TYPE_CURSOR);
    lemma_dir_entry(s, TYPE_CURSOR, n, i);
    let off = first_offset(n) + total_len(s.take(i));
    lemma_total_len_prefix(s, i);
    lemma_total_len_prefix(s, i + 1);
    assert(b.subrange(6 + 16 * i, 6 + 16 * i + 16) =~= b.subrange(6, first_offset(n) as int).subrange(16 * i, 16 * i + 16));
    lemma_total_len_last(s.take(i + 1));
    assert(s.take(i + 1).last() == s[i]);
    assert(s.take(i + 1).drop_last() =~= s.take(i));
    lemma_entry_roundtrip(b, 6 + 16 * i, s[i], off);
    lemma_dibs_at(s, n, i);
    let start = off as int;
    let end = start + image_len(s[i].size as nat);
    assert(end == first_offset(n) + total_len(s.take(i + 1)));
    let lo = total_len(s.take(i)) as int;
    let hi = total_len(s.take(i + 1)) as int;
    assert(b.subrange(start, end) =~= b.subrange(first_offset(n) as int, b.len() as int).subrange(lo, hi));
    lemma_decode_dib(s[i]);
}

/// The directory of an encoded cursor lists one entry per image.
proof fn lemma_read_dir_encoded(s: Seq<ImageView>)
    requires
        0 < s.len() <= 65535,
    ensures
        spec_read_dir(container_bytes(s, TYPE_CURSOR)) == Ok::<Seq<Entry>, Error>(
            Seq::new(s.len(), |i: int| entry_at(container_bytes(s, TYPE_CURSOR), 6 + 16 * i)),
        ),
{
    let n = s.len();
    let b = container_bytes(s, TYPE_CURSOR);
    lemma_container_parts(s, TYPE_CURSOR);
    assert((n % 65536) as u16 == n as u16);
    lemma_le16(n as u16, b, 4);
}
impl Image {
    /// Bytes this image occupies inside a container: header, colour plane and
    /// AND mask.
    pub fn encoded_len(&self) -> (r: usize)
        requires
            image_len(self.size as nat) <= usize::MAX,
        ensures
            r == image_len(self.size as nat),
    {
        image_bytes(self.size)
    }

    /// Bytes of the colour (XOR) plane.
    pub fn xor_len(&self) -> (r: usize)
        requires
            image_len(self.size as nat) <= usize::MAX,
        ensures
            r == rgba_len(self.size as nat),
    {
        proof {
            lemma_image_len_bounds(self.size as nat);
        }
        let s = self.size as usize;
        assert(s * s * 4 == rgba_len(self.size as nat)) by (nonlinear_arith)
            requires
                s == self.size,
        ;
        s * s * 4
    }

    /// Bytes of the AND mask.
    pub fn and_len(&self) -> (r: usize)
        requires
            image_len(self.size as nat) <= usize::MAX,
        ensures
            r == and_len(self.size as nat),
    {
        proof {
            lemma_image_len_bounds(self.size as nat);
        }
        let n = image_bytes(self.size);
        let x = self.xor_len();
        n - 40 - x
    }
}

/// The index of the largest image, the last one among equals.
pub open spec fn largest_from(images: Seq<ImageView>, n: int) -> int
    decreases n,
{
    if n <= 1 {
        0
    } else if images[n - 1].size >= images[largest_from(images, n - 1)].size {
        n - 1
    } else {
        largest_from(images, n - 1)
    }
}

/// The index of the largest image (the last one among equals).
pub fn largest(images: &[Image]) -> (r: usize)
    requires
        images@.len() > 0,
    ensures
        r == largest_from(views(images@), images@.len() as int),
        r < images@.len(),
{
    let ghost v = views(images@);
    let mut best: usize = 0;
    let mut i: usize = 1;
    while i < images.len()
        invariant
            1 <= i <= images@.len(),
            v == views(images@),
            best < i,
            best == largest_from(v, i as int),
        decreases images@.len() - i,
    {
        if images[i].size >= images[best].size {
            best = i;
        }
        i = i + 1;
    }
    best
}

/// How far apart two sizes are.
pub open spec fn size_gap(a: u32, b: u32) -> nat {
    if a >= b {
        (a - b) as nat
    } else {
        (b - a) as nat
    }
}

/// How far apart two sizes are.
fn gap_of(a: u32, b: u32) -> (r: u32)
    ensures
        r == size_gap(a, b),
{
    if a >= b {
        a - b
    } else {
        b - a
    }
}

/// The index of the image whose size is closest to `want`: no image is
/// closer, and every earlier one is farther.
pub fn closest(images: &[Image], want: u32) -> (r: usize)
    requires
        images@.len() > 0,
    ensures
        r < images@.len(),
        forall|i: int|
            0 <= i < images@.len() ==> size_gap(images@[r as int].size, want) <= size_gap(#[trigger] images@[i].size, want),
        forall|i: int| 0 <= i < r ==> size_gap(images@[r as int].size, want) < size_gap(#[trigger] images@[i].size, want),
{
    let mut best: usize = 0;
    let mut best_gap: u32 = gap_of(images[0].size, want);
    let mut i: usize = 1;
    while i < images.len()
        invariant
            1 <= i <= images@.len(),
            best < i,
            best_gap == size_gap(images@[best as int].size, want),
            forall|k: int| 0 <= k < i ==> best_gap <= size_gap(#[trigger] images@[k].size, want),
            forall|k: int| 0 <= k < best ==> best_gap < size_gap(#[trigger] images@[k].size, want),
        decreases images@.len() - i,
    {
        let g = gap_of(images[i].size, want);
        if g < best_gap {
            best = i;
            best_gap = g;
        }
        i = i + 1;
    }
    best
}

// ------------------------------------------------------------ pixel layout

/// In a stored image the pixel at `row`, `col` (rows counted from the top of
/// the picture) sits, after the 40-byte header, in row `size - 1 - row` of
/// the XOR bitmap, as blue, green, red, alpha.
pub proof fn lemma_dib_pixel_is_bgra(img: ImageView, row: int, col: int)
    requires
        0 <= row < img.size,
        0 <= col < img.size,
    ensures
        ({
            let s = img.size as int;
            let d = dib_bytes(img);
            let j = 40 + ((s - 1 - row) * s + col) * 4;
            let p = (row * s + col) * 4;
            &&& j + 3 < d.len()
            &&& d[j] == img.rgba[p + 2]
            &&& d[j + 1] == img.rgba[p + 1]
            &&& d[j + 2] == img.rgba[p]
            &&& d[j + 3] == img.rgba[p + 3]
        }),
{
    let s = img.size as int;
    let x = xor_bytes(img.size as nat, img.rgba);
    let h = dib_header(img.size);
    assert(h.len() == 40);
    let q = ((s - 1 - row) * s + col) * 4;
    lemma_flip(s, s - 1 - row, col, 0);
    lemma_flip(s, s - 1 - row, col, 1);
    lemma_flip(s, s - 1 - row, col, 2);
    lemma_flip(s, s - 1 - row, col, 3);
    assert(s - 1 - (s - 1 - row) == row);
    assert(q + 3 < x.len());
    assert(dib_bytes(img)[40 + q] == x[q]);
    assert(dib_bytes(img)[40 + q + 1] == x[q + 1]);
    assert(dib_bytes(img)[40 + q + 2] == x[q + 2]);
    assert(dib_bytes(img)[40 + q + 3] == x[q + 3]);
}

/// A stored image takes `image_len` bytes.
proof fn lemma_dib_len(img: ImageView)
    ensures
        dib_bytes(img).len() == image_len(img.size as nat),
{
    assert(dib_header(img.size).len() == 40);
}

/// Where the `k`-th image stored (largest first) lies in an encoded
/// container: after the header, the directory and the images before it.
proof fn lemma_stored_image_at(images: Seq<ImageView>, kind: u16, k: int)
    requires
        0 <= k < images.len(),
    ensures
        spec_encode(images, kind) matches Ok(b) && ({
            let off = first_offset(images.len()) + total_len(sort_desc(images).take(k));
            &&& off + image_len(sort_desc(images)[k].size as nat) <= b.len()
            &&& b.subrange(off as int, (off + image_len(sort_desc(images)[k].size as nat)) as int) == dib_bytes(
                sort_desc(images)[k],
            )
        }),
{
    reveal(container_bytes);
    let sorted = sort_desc(images);
    lemma_sort_desc_multiset(images);
    let n = sorted.len();
    let head = le16(0) + le16(kind) + le16((n % 65536) as u16) + dir_bytes(sorted, kind, n);
    lemma_dir_len(sorted, kind, n);
    let ds = dibs(sorted, n);
    let b = container_bytes(sorted, kind);
    assert(b =~= head + ds);
    lemma_dibs_at(sorted, n, k);
    assert(sorted.take(k + 1).drop_last() =~= sorted.take(k));
    lemma_total_len_prefix(sorted, k + 1);
    assert(sorted.take(n as int) =~= sorted);
    let t = total_len(sorted.take(k));
    let e = total_len(sorted.take(k + 1));
    assert(b.subrange((head.len() + t) as int, (head.len() + e) as int) =~= ds.subrange(t as int, e as int));
}

/// In an encoded container, every pixel of every image is stored as blue,
/// green, red, alpha, rows bottom-up: for the `k`-th image stored (largest
/// first), which starts after the header, the directory and the images
/// before it, the pixel at `row`, `col` counted from the top sits in row
/// `size - 1 - row` of its XOR bitmap, after the 40-byte image header.
pub proof fn lemma_encoded_pixels_are_bgra_bottom_up(images: Seq<ImageView>, kind: u16, k: int, row: int, col: int)
    requires
        0 <= k < images.len(),
        0 <= row < sort_desc(images)[k].size,
        0 <= col < sort_desc(images)[k].size,
    ensures
        spec_encode(images, kind) matches Ok(b) && ({
            let img = sort_desc(images)[k];
            let s = img.size as int;
            let j = first_offset(images.len()) + total_len(sort_desc(images).take(k)) + 40 + ((s - 1 - row) * s
                + col) * 4;
            let p = (row * s + col) * 4;
            &&& j + 3 < b.len()
            &&& b[j] == img.rgba[p + 2]
            &&& b[j + 1] == img.rgba[p + 1]
            &&& b[j + 2] == img.rgba[p]
            &&& b[j + 3] == img.rgba[p + 3]
        }),
{
    let sorted = sort_desc(images);
    let img = sorted[k];
    let s = img.size as int;
    lemma_stored_image_at(images, kind, k);
    lemma_dib_pixel_is_bgra(img, row, col);
    let off = first_offset(images.len()) + total_len(sorted.take(k));
    let q = 40 + ((s - 1 - row) * s + col) * 4;
    let b = spec_encode(images, kind)->Ok_0;
    let sub = b.subrange(off as int, (off + image_len(s as nat)) as int);
    assert(sub[q] == b[off + q]);
    assert(sub[q + 1] == b[off + q + 1]);
    assert(sub[q + 2] == b[off + q + 2]);
    assert(sub[q + 3] == b[off + q + 3]);
}

} // verus!

