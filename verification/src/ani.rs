//! Windows animated cursor (`.ani`): a RIFF `ACON` file.
//!
//! ```text
//! RIFF <size> ACON
//!   anih <36>            9 x u32, see AnimHeader
//!   rate <4*steps>       optional, per-step delay in jiffies
//!   seq  <4*steps>       optional, step -> frame index
//!   LIST <size> fram
//!     icon <size> ...    each a complete .cur file
//! ```
//!
//! Each `icon` chunk is a full multi-size cursor, so a single `.ani` covers all
//! DPI scales. Timing is quantised to jiffies (1/60 s).
use crate::error::{AniFault, Error};
use crate::bytes::{le32, lemma_le32, push_u32, read_u32, u32_at};
use crate::ico::{container_bytes, encodable, image_len, sort_desc, spec_frame_bytes, views, Image, ImageView, TYPE_CURSOR};
use vstd::prelude::*;

verus! {

/// Frames are `.cur`/`.ico` data rather than raw DIBs.
pub const AF_ICON: u32 = 0x1;
/// A `seq ` chunk is present.
pub const AF_SEQUENCE: u32 = 0x2;
/// Jiffies in one second.
pub const JIFFIES_PER_SECOND: u32 = 60;

/// Largest per-frame payload the Windows `.ani` loader reliably accepts.
///
/// The ceiling applies per frame, not per file, and single-image frames are
/// exempt. This is why Windows' own animated cursors ship 32/48/64 and never
/// larger, and why animated roles are budgeted while static `.cur` files are not.
pub const MAX_FRAME_BYTES: usize = 65_536;

// ------------------------------------------------------------------ size sets

/// Insert `x` into an ascending list after every element not larger than it.
pub open spec fn insert_asc(s: Seq<u32>, x: u32) -> Seq<u32>
    decreases s.len(),
{
    if s.len() == 0 {
        seq![x]
    } else if s.last() <= x {
        s.push(x)
    } else {
        insert_asc(s.drop_last(), x).push(s.last())
    }
}

/// `s` in ascending order.
pub open spec fn sort_asc(s: Seq<u32>) -> Seq<u32>
    decreases s.len(),
{
    if s.len() == 0 {
        s
    } else {
        insert_asc(sort_asc(s.drop_last()), s.last())
    }
}

/// `s` with each run of equal neighbours collapsed to one element.
pub open spec fn dedup(s: Seq<u32>) -> Seq<u32>
    decreases s.len(),
{
    if s.len() == 0 {
        s
    } else {
        let d = dedup(s.drop_last());
        if d.len() > 0 && d.last() == s.last() {
            d
        } else {
            d.push(s.last())
        }
    }
}

/// The distinct values of `s`, ascending.
pub open spec fn distinct_asc(s: Seq<u32>) -> Seq<u32> {
    dedup(sort_asc(s))
}

/// A strictly ascending sequence.
pub open spec fn strictly_ascending(s: Seq<u32>) -> bool {
    forall|i: int, j: int| 0 <= i < j < s.len() ==> s[i] < s[j]
}

/// A (weakly) ascending sequence.
pub open spec fn ascending(s: Seq<u32>) -> bool {
    forall|i: int, j: int| 0 <= i < j < s.len() ==> s[i] <= s[j]
}

proof fn lemma_insert_asc_at(s: Seq<u32>, x: u32, p: int)
    requires
        0 <= p <= s.len(),
        forall|q: int| p < q <= s.len() ==> (#[trigger] s[q - 1]) > x,
        p == 0 || s[p - 1] <= x,
    ensures
        insert_asc(s, x) == s.insert(p, x),
    decreases s.len(),
{
    if s.len() == 0 {
        assert(insert_asc(s, x) =~= s.insert(p, x));
    } else if s.last() <= x {
        if p < s.len() {
            assert(s[s.len() - 1] > x);
        }
        assert(insert_asc(s, x) =~= s.insert(p, x));
    } else {
        let t = s.drop_last();
        assert forall|q: int| p < q <= t.len() implies (#[trigger] t[q - 1]) > x by {
            assert(t[q - 1] == s[q - 1]);
        }
        lemma_insert_asc_at(t, x, p);
        assert(insert_asc(s, x) =~= s.insert(p, x));
    }
}

/// Sort a list of sizes ascending.
pub fn sorted_sizes(sizes: &[u32]) -> (r: Vec<u32>)
    ensures
        r@ == sort_asc(sizes@),
{
    let mut out: Vec<u32> = Vec::new();
    let mut i: usize = 0;
    assert(sizes@.take(0) =~= Seq::<u32>::empty());
    while i < sizes.len()
        invariant
            0 <= i <= sizes@.len(),
            out@ == sort_asc(sizes@.take(i as int)),
        decreases sizes@.len() - i,
    {
        let x = sizes[i];
        let mut p = out.len();
        while p > 0 && out[p - 1] > x
            invariant
                0 <= p <= out@.len(),
                forall|q: int| p < q <= out@.len() ==> (#[trigger] out@[q - 1]) > x,
            decreases p,
        {
            p = p - 1;
        }
        proof {
            lemma_insert_asc_at(out@, x, p as int);
            assert(sizes@.take(i + 1).drop_last() =~= sizes@.take(i as int));
        }
        out.insert(p, x);
        i = i + 1;
    }
    assert(sizes@.take(sizes@.len() as int) =~= sizes@);
    out
}

/// Collapse runs of equal neighbours.
pub fn dedup_sizes(s: &[u32]) -> (r: Vec<u32>)
    ensures
        r@ == dedup(s@),
{
    let mut out: Vec<u32> = Vec::new();
    let mut i: usize = 0;
    assert(s@.take(0) =~= Seq::<u32>::empty());
    while i < s.len()
        invariant
            0 <= i <= s@.len(),
            out@ == dedup(s@.take(i as int)),
        decreases s@.len() - i,
    {
        assert(s@.take(i + 1).drop_last() =~= s@.take(i as int));
        if out.len() == 0 || out[out.len() - 1] != s[i] {
            out.push(s[i]);
        }
        i = i + 1;
    }
    assert(s@.take(s@.len() as int) =~= s@);
    out
}

/// The greedy budget: sizes taken in order, each kept while the frame stays
/// within [`MAX_FRAME_BYTES`]; the first size is always kept.
pub open spec fn spec_fit(u: Seq<u32>) -> (Seq<u32>, Seq<u32>)
    decreases u.len(),
{
    if u.len() == 0 {
        (Seq::empty(), Seq::empty())
    } else {
        let (k, d) = spec_fit(u.drop_last());
        let x = u.last();
        if k.len() == 0 || spec_frame_bytes(k.push(x)) <= MAX_FRAME_BYTES {
            (k.push(x), d)
        } else {
            (k, d.push(x))
        }
    }
}

/// Bytes one image of `size` occupies, computed without overflow.
fn image_len_wide(size: u32) -> (r: u128)
    ensures
        r == image_len(size as nat),
{
    let s = size as u128;
    let stride = ((s + 31) / 32) * 4;
    assert(s * s * 4 <= 0x4_0000_0000_0000_0000) by (nonlinear_arith) requires s <= 0xffff_ffff;
    assert(stride * s <= 0x4_0000_0000_0000_0000) by (nonlinear_arith) requires s <= 0xffff_ffff, stride == ((s + 31) / 32) * 4;
    assert(s * s * 4 == crate::ico::rgba_len(size as nat)) by (nonlinear_arith) requires s == size;
    assert(stride * s == crate::ico::and_len(size as nat)) by (nonlinear_arith) requires s == size, stride == ((s + 31) / 32) * 4;
    40 + s * s * 4 + stride * s
}

/// Choose the largest prefix of the distinct, ascending `sizes` that fits inside
/// [`MAX_FRAME_BYTES`].
///
/// Sizes are considered smallest-first, because the small ones are what actually
/// get displayed at ordinary DPI. Returns `(kept, dropped)`; at least one size is
/// kept whenever there is one, since a single-image frame is exempt from the limit.
pub fn fit_sizes(sizes: &[u32]) -> (r: (Vec<u32>, Vec<u32>))
    ensures
        (r.0@, r.1@) == spec_fit(distinct_asc(sizes@)),
{
    let sorted = sorted_sizes(sizes);
    let u = dedup_sizes(sorted.as_slice());
    let mut kept: Vec<u32> = Vec::new();
    let mut dropped: Vec<u32> = Vec::new();
    let mut kept_bytes: u128 = 6;
    let mut i: usize = 0;
    assert(u@.take(0) =~= Seq::<u32>::empty());
    while i < u.len()
        invariant
            0 <= i <= u@.len(),
            (kept@, dropped@) == spec_fit(u@.take(i as int)),
            kept_bytes == spec_frame_bytes(kept@),
            kept_bytes <= 0x10_0000_0000_0000_0000,
        decreases u@.len() - i,
    {
        let x = u[i];
        assert(u@.take(i + 1).drop_last() =~= u@.take(i as int));
        assert(kept@.push(x).drop_last() =~= kept@);
        let len = image_len_wide(x);
        assert(len <= 0x8_0000_0000_0000_0000) by (nonlinear_arith) requires len == image_len(x as nat), x <= 0xffff_ffff;
        let trial = kept_bytes + 16 + len;
        assert(trial == spec_frame_bytes(kept@.push(x)));
        if kept.len() == 0 || trial <= MAX_FRAME_BYTES as u128 {
            kept.push(x);
            kept_bytes = trial;
        } else {
            dropped.push(x);
        }
        i = i + 1;
    }
    assert(u@.take(u@.len() as int) =~= u@);
    (kept, dropped)
}


// ------------------------------------------------------------------ animations

/// `RIFF`, as a little-endian four-character code.
pub const FOURCC_RIFF: u32 = 0x4646_4952;
/// `ACON`
pub const FOURCC_ACON: u32 = 0x4E4F_4341;
/// `anih`
pub const FOURCC_ANIH: u32 = 0x6869_6E61;
/// `rate`
pub const FOURCC_RATE: u32 = 0x6574_6172;
/// `seq `
pub const FOURCC_SEQ: u32 = 0x2071_6573;
/// `LIST`
pub const FOURCC_LIST: u32 = 0x5453_494C;
/// `fram`
pub const FOURCC_FRAM: u32 = 0x6D61_7266;
/// `icon`
pub const FOURCC_ICON: u32 = 0x6E6F_6369;

/// An animated cursor: a sequence of frames, each itself a multi-size image set.
#[derive(Debug, Clone)]
pub struct Anim {
    /// Each entry is one frame, holding that frame's images at every size.
    pub frames: Vec<Vec<Image>>,
    /// Default delay for every step, in jiffies.
    pub default_rate: u32,
    /// Optional per-step delays in jiffies. Length must equal the step count.
    pub rates: Option<Vec<u32>>,
    /// Optional step -> frame index mapping, for reusing frames.
    pub seq: Option<Vec<u32>>,
}

/// The mathematical content of an [`Anim`].
pub struct AnimView {
    pub frames: Seq<Seq<ImageView>>,
    pub default_rate: u32,
    pub rates: Option<Seq<u32>>,
    pub seq: Option<Seq<u32>>,
}

/// The view of an optional list.
pub open spec fn opt_view(o: Option<Vec<u32>>) -> Option<Seq<u32>> {
    match o {
        Some(v) => Some(v@),
        None => None,
    }
}

impl View for Anim {
    type V = AnimView;

    open spec fn view(&self) -> AnimView {
        AnimView {
            frames: frame_views(self.frames@),
            default_rate: self.default_rate,
            rates: opt_view(self.rates),
            seq: opt_view(self.seq),
        }
    }
}

/// Number of animation steps: the sequence length when there is one, else the
/// frame count.
pub open spec fn spec_steps(a: AnimView) -> nat {
    match a.seq {
        Some(s) => s.len(),
        None => a.frames.len(),
    }
}

/// The sizes of a frame's images, in order.
pub open spec fn frame_sizes(f: Seq<ImageView>) -> Seq<u32> {
    f.map_values(|i: ImageView| i.size)
}

/// The first sequence entry that names a frame that does not exist.
pub open spec fn first_bad_index(s: Seq<u32>, frames: nat) -> Option<u32>
    decreases s.len(),
{
    if s.len() == 0 {
        None
    } else {
        match first_bad_index(s.drop_last(), frames) {
            Some(b) => Some(b),
            None => if s.last() >= frames { Some(s.last()) } else { None },
        }
    }
}

/// The first problem among the first `n` frames: an empty frame, or one whose
/// sizes differ from frame 0.
pub open spec fn first_frame_fault(frames: Seq<Seq<ImageView>>, n: nat) -> Option<AniFault>
    decreases n,
{
    if n == 0 {
        None
    } else {
        match first_frame_fault(frames, (n - 1) as nat) {
            Some(f) => Some(f),
            None => if frames[n - 1].len() == 0 {
                Some(AniFault::EmptyFrame { frame: (n - 1) as usize })
            } else if frame_sizes(frames[n - 1]) != frame_sizes(frames[0]) {
                Some(AniFault::SizesDiffer { frame: (n - 1) as usize })
            } else {
                None
            },
        }
    }
}

/// A fault found before the frames themselves are looked at.
pub open spec fn header_fault(a: AnimView) -> Option<AniFault> {
    match a.rates {
        Some(r) if r.len() != spec_steps(a) => Some(
            AniFault::RateCountMismatch { rates: r.len() as usize, steps: spec_steps(a) as usize },
        ),
        _ => match a.seq {
            Some(s) => match first_bad_index(s, a.frames.len()) {
                Some(b) => Some(AniFault::SeqOutOfRange { index: b, frames: a.frames.len() as usize }),
                None => None,
            },
            None => None,
        },
    }
}

/// What the consistency check finds.
pub open spec fn spec_validate(a: AnimView) -> Result<(), Error> {
    match header_fault(a) {
        Some(f) => Err(Error::Ani(f)),
        None => match first_frame_fault(a.frames, a.frames.len()) {
            Some(f) => Err(Error::Ani(f)),
            None => Ok(()),
        },
    }
}

/// Animations the checks can run on: either the header is already at fault, or
/// there is a frame 0 to compare the others with.
pub open spec fn checkable(a: AnimView) -> bool {
    header_fault(a) is Some || a.frames.len() > 0
}

impl Anim {
    /// Build from frames at a given rate in jiffies per step.
    pub fn from_frames(frames: Vec<Vec<Image>>, default_rate: u32) -> (r: Result<Anim, Error>)
        ensures
            frames@.len() == 0 <==> r is Err,
            r matches Err(e) ==> e == Error::Ani(AniFault::NoFrames),
            r matches Ok(a) ==> a.frames == frames && a.default_rate == default_rate && a.rates is None
                && a.seq is None,
    {
        if frames.len() == 0 {
            return Err(Error::Ani(AniFault::NoFrames));
        }
        Ok(Anim { frames, default_rate, rates: None, seq: None })
    }

    /// Number of animation steps, which may exceed the frame count when `seq` is used.
    pub fn steps(&self) -> (r: usize)
        ensures
            r == spec_steps(self@),
    {
        match &self.seq {
            Some(s) => s.len(),
            None => self.frames.len(),
        }
    }

    /// Total loop duration in jiffies: the per-step rates summed, or the default
    /// rate times the step count.
    pub fn total_jiffies(&self) -> (r: u32)
        requires
            spec_total_jiffies(self@) <= u32::MAX,
        ensures
            r == spec_total_jiffies(self@),
    {
        match &self.rates {
            Some(rates) => {
                let mut total: u32 = 0;
                let mut i: usize = 0;
                assert(rates@.take(0) =~= Seq::<u32>::empty());
                proof { lemma_sum_prefix(rates@, rates@.len() as int); }
                assert(rates@.take(rates@.len() as int) =~= rates@);
                while i < rates.len()
                    invariant
                        0 <= i <= rates@.len(),
                        total == sum_u32(rates@.take(i as int)),
                        sum_u32(rates@) <= u32::MAX,
                        forall|k: int| 0 <= k <= rates@.len() ==> sum_u32(#[trigger] rates@.take(k)) <= sum_u32(rates@),
                    decreases rates@.len() - i,
                {
                    assert(rates@.take(i + 1).drop_last() =~= rates@.take(i as int));
                    assert(sum_u32(rates@.take(i + 1)) <= sum_u32(rates@));
                    total = total + rates[i];
                    i = i + 1;
                }
                assert(rates@.take(i as int) =~= rates@);
                total
            },
            None => {
                let steps = self.steps();
                if self.default_rate == 0 {
                    assert(self.default_rate as nat * spec_steps(self@) == 0) by (nonlinear_arith)
                        requires self.default_rate == 0;
                    return 0;
                }
                assert(steps <= u32::MAX) by (nonlinear_arith)
                    requires self.default_rate * steps <= u32::MAX, self.default_rate >= 1;
                self.default_rate * (steps as u32)
            },
        }
    }

    /// The sizes present, taken from the first frame, ascending.
    pub fn sizes(&self) -> (r: Vec<u32>)
        requires
            self@.frames.len() > 0,
        ensures
            r@ == sort_asc(frame_sizes(self@.frames[0])),
    {
        let s = sizes_of(&self.frames[0]);
        sorted_sizes(s.as_slice())
    }
}

/// The sum of a list of `u32`s.
pub open spec fn sum_u32(s: Seq<u32>) -> nat
    decreases s.len(),
{
    if s.len() == 0 {
        0
    } else {
        sum_u32(s.drop_last()) + s.last() as nat
    }
}

/// Total loop duration in jiffies.
pub open spec fn spec_total_jiffies(a: AnimView) -> nat {
    match a.rates {
        Some(r) => sum_u32(r),
        None => a.default_rate as nat * spec_steps(a),
    }
}

proof fn lemma_sum_prefix(s: Seq<u32>, n: int)
    requires
        0 <= n <= s.len(),
    ensures
        forall|k: int| 0 <= k <= n ==> sum_u32(#[trigger] s.take(k)) <= sum_u32(s.take(n)),
    decreases n,
{
    if n > 0 {
        lemma_sum_prefix(s, n - 1);
        assert(s.take(n).drop_last() =~= s.take(n - 1));
    }
}

/// The sizes of a frame, in order.
fn sizes_of(frame: &Vec<Image>) -> (r: Vec<u32>)
    ensures
        r@ == frame_sizes(views(frame@)),
{
    let mut s: Vec<u32> = Vec::new();
    let mut i: usize = 0;
    while i < frame.len()
        invariant
            0 <= i <= frame@.len(),
            s@ =~= frame_sizes(views(frame@)).take(i as int),
        decreases frame@.len() - i,
    {
        s.push(frame[i].size);
        i = i + 1;
    }
    assert(s@ =~= frame_sizes(views(frame@)));
    s
}

/// Element-wise equality of two size lists.
fn same_sizes(a: &Vec<u32>, b: &Vec<u32>) -> (r: bool)
    ensures
        r == (a@ == b@),
{
    if a.len() != b.len() {
        return false;
    }
    let mut i: usize = 0;
    while i < a.len()
        invariant
            0 <= i <= a@.len(),
            a@.len() == b@.len(),
            forall|k: int| 0 <= k < i ==> a@[k] == b@[k],
        decreases a@.len() - i,
    {
        if a[i] != b[i] {
            return false;
        }
        i = i + 1;
    }
    assert(a@ =~= b@);
    true
}

/// Check that the rates, sequence and frames agree with each other.
fn validate(a: &Anim) -> (r: Result<(), Error>)
    requires
        checkable(a@),
    ensures
        r == spec_validate(a@),
{
    let steps = a.steps();
    if let Some(r) = &a.rates {
        if r.len() != steps {
            return Err(Error::Ani(AniFault::RateCountMismatch { rates: r.len(), steps }));
        }
    }
    if let Some(s) = &a.seq {
        let mut i: usize = 0;
        assert(s@.take(0) =~= Seq::<u32>::empty());
        while i < s.len()
            invariant
                0 <= i <= s@.len(),
                a@.seq == Some(s@),
                match a@.rates {
                    Some(r) => r.len() == spec_steps(a@),
                    None => true,
                },
                first_bad_index(s@.take(i as int), a.frames@.len()) is None,
            decreases s@.len() - i,
        {
            assert(s@.take(i + 1).drop_last() =~= s@.take(i as int));
            assert(s@.take(i + 1).last() == s@[i as int]);
            if s[i] as usize >= a.frames.len() {
                proof {
                    lemma_first_bad_prefix(s@, a.frames@.len(), (i + 1) as int);
                    assert(first_bad_index(s@, a.frames@.len()) == Some(s@[i as int]));
                    assert(a@.frames.len() == a.frames@.len());
                    assert(a@.seq == Some(s@));
                    assert(header_fault(a@) == Some(AniFault::SeqOutOfRange { index: s@[i as int], frames: a.frames@.len() as usize }));
                }
                return Err(Error::Ani(AniFault::SeqOutOfRange { index: s[i], frames: a.frames.len() }));
            }
            i = i + 1;
        }
        assert(s@.take(s@.len() as int) =~= s@);
    }
    let ghost fv = a@.frames;
    let first = sizes_of(&a.frames[0]);
    let mut n: usize = 0;
    while n < a.frames.len()
        invariant
            0 <= n <= a.frames@.len(),
            a.frames@.len() > 0,
            fv == a@.frames,
            header_fault(a@) is None,
            first@ == frame_sizes(fv[0]),
            first_frame_fault(fv, n as nat) is None,
        decreases a.frames@.len() - n,
    {
        let f = &a.frames[n];
        assert(views(f@) == fv[n as int]);
        if f.len() == 0 {
            proof { lemma_frame_fault_prefix(fv, (n + 1) as nat); }
            return Err(Error::Ani(AniFault::EmptyFrame { frame: n }));
        }
        let sizes = sizes_of(f);
        if !same_sizes(&sizes, &first) {
            proof { lemma_frame_fault_prefix(fv, (n + 1) as nat); }
            return Err(Error::Ani(AniFault::SizesDiffer { frame: n }));
        }
        n = n + 1;
    }
    Ok(())
}

proof fn lemma_first_bad_prefix(s: Seq<u32>, frames: nat, n: int)
    requires
        0 <= n <= s.len(),
        first_bad_index(s.take(n), frames) is Some,
    ensures
        first_bad_index(s, frames) == first_bad_index(s.take(n), frames),
    decreases s.len() - n,
{
    if n < s.len() {
        assert(s.take(n + 1).drop_last() =~= s.take(n));
        lemma_first_bad_prefix(s, frames, n + 1);
    } else {
        assert(s.take(n) =~= s);
    }
}

proof fn lemma_frame_fault_prefix(frames: Seq<Seq<ImageView>>, n: nat)
    requires
        n <= frames.len(),
        first_frame_fault(frames, n) is Some,
    ensures
        first_frame_fault(frames, frames.len()) == first_frame_fault(frames, n),
    decreases frames.len() - n,
{
    if n < frames.len() {
        lemma_frame_fault_prefix(frames, n + 1);
    }
}


// ------------------------------------------------------------------ encoding

/// A RIFF chunk: four-character code, body length, body, and a pad byte when the
/// length is odd (chunks are word-aligned).
pub open spec fn chunk_bytes(id: u32, body: Seq<u8>) -> Seq<u8> {
    le32(id) + le32(body.len() as u32) + body + (if body.len() % 2 == 1 {
        seq![0u8]
    } else {
        Seq::empty()
    })
}

/// A list of `u32`s, each little-endian.
pub open spec fn u32_list_bytes(v: Seq<u32>) -> Seq<u8>
    decreases v.len(),
{
    if v.len() == 0 {
        Seq::empty()
    } else {
        u32_list_bytes(v.drop_last()) + le32(v.last())
    }
}

/// The `anih` flags for an animation.
pub open spec fn spec_flags(a: AnimView) -> u32 {
    if a.seq is Some {
        AF_ICON | AF_SEQUENCE
    } else {
        AF_ICON
    }
}

/// The 36-byte `anih` body.
pub open spec fn anih_bytes(a: AnimView) -> Seq<u8> {
    le32(36) + le32(a.frames.len() as u32) + le32(spec_steps(a) as u32) + le32(0) + le32(0) + le32(32)
        + le32(1) + le32(a.default_rate) + le32(spec_flags(a))
}

/// The `icon` chunks of the first `n` frames, each a cursor with its images
/// largest-first.
pub open spec fn icon_chunks(frames: Seq<Seq<ImageView>>, n: nat) -> Seq<u8>
    decreases n,
{
    if n == 0 {
        Seq::empty()
    } else {
        icon_chunks(frames, (n - 1) as nat) + chunk_bytes(FOURCC_ICON, frame_container(frames, n - 1))
    }
}

/// The body of the `LIST fram` chunk.
pub open spec fn fram_bytes(frames: Seq<Seq<ImageView>>) -> Seq<u8> {
    le32(FOURCC_FRAM) + icon_chunks(frames, frames.len())
}

/// The optional chunk for a list: absent when there is no list.
pub open spec fn opt_list_chunk(id: u32, o: Option<Seq<u32>>) -> Seq<u8> {
    match o {
        Some(v) => chunk_bytes(id, u32_list_bytes(v)),
        None => Seq::empty(),
    }
}

/// The body of the RIFF chunk.
pub open spec fn acon_body(a: AnimView) -> Seq<u8> {
    le32(FOURCC_ACON) + chunk_bytes(FOURCC_ANIH, anih_bytes(a)) + opt_list_chunk(FOURCC_RATE, a.rates)
        + opt_list_chunk(FOURCC_SEQ, a.seq) + chunk_bytes(FOURCC_LIST, fram_bytes(a.frames))
}

/// A complete `.ani` file.
#[verifier::opaque]
pub open spec fn riff_bytes(a: AnimView) -> Seq<u8> {
    le32(FOURCC_RIFF) + le32(acon_body(a).len() as u32) + acon_body(a)
}

/// What [`encode`] produces.
pub open spec fn spec_encode(a: AnimView) -> Result<Seq<u8>, Error> {
    match spec_validate(a) {
        Err(e) => Err(e),
        Ok(_) => Ok(riff_bytes(a)),
    }
}

/// Animations that can be written: checkable, and when consistent, every frame
/// can be written as a cursor.
pub open spec fn writable(a: AnimView) -> bool {
    &&& checkable(a)
    &&& spec_validate(a) is Ok ==> forall|k: int| 0 <= k < a.frames.len() ==> encodable(#[trigger] a.frames[k])
}

/// Append a RIFF chunk.
fn push_chunk(out: &mut Vec<u8>, id: u32, body: &[u8])
    ensures
        final(out)@ == old(out)@ + chunk_bytes(id, body@),
{
    push_u32(out, id);
    push_u32(out, body.len() as u32);
    let mut i: usize = 0;
    let ghost start = out@;
    while i < body.len()
        invariant
            0 <= i <= body@.len(),
            out@ == start + body@.take(i as int),
        decreases body@.len() - i,
    {
        out.push(body[i]);
        i = i + 1;
        assert(out@ =~= start + body@.take(i as int));
    }
    assert(body@.take(body@.len() as int) =~= body@);
    if body.len() % 2 == 1 {
        out.push(0);
    }
    assert(final(out)@ =~= old(out)@ + chunk_bytes(id, body@));
}

/// A list of `u32`s, little-endian.
fn u32_list(v: &Vec<u32>) -> (r: Vec<u8>)
    ensures
        r@ == u32_list_bytes(v@),
{
    let mut out: Vec<u8> = Vec::new();
    let mut i: usize = 0;
    assert(v@.take(0) =~= Seq::<u32>::empty());
    while i < v.len()
        invariant
            0 <= i <= v@.len(),
            out@ == u32_list_bytes(v@.take(i as int)),
        decreases v@.len() - i,
    {
        assert(v@.take(i + 1).drop_last() =~= v@.take(i as int));
        push_u32(&mut out, v[i]);
        i = i + 1;
    }
    assert(v@.take(v@.len() as int) =~= v@);
    out
}

/// Append the optional list chunk.
fn push_opt_list(out: &mut Vec<u8>, id: u32, o: &Option<Vec<u32>>)
    ensures
        final(out)@ == old(out)@ + opt_list_chunk(id, opt_view(*o)),
{
    match o {
        Some(v) => {
            let b = u32_list(v);
            push_chunk(out, id, b.as_slice());
        },
        None => {
            assert(out@ =~= out@ + Seq::<u8>::empty());
        },
    }
}

/// Encode an animated cursor.
pub fn encode(anim: &Anim) -> (r: Result<Vec<u8>, Error>)
    requires
        writable(anim@),
    ensures
        r matches Ok(b) ==> spec_encode(anim@) == Ok::<Seq<u8>, Error>(b@),
        r matches Err(e) ==> spec_encode(anim@) == Err::<Seq<u8>, Error>(e),
{
    match validate(anim) {
        Ok(()) => {},
        Err(e) => return Err(e),
    }
    let steps = anim.steps();
    let mut flags = AF_ICON;
    if anim.seq.is_some() {
        flags = flags | AF_SEQUENCE;
    }
    assert(AF_ICON | AF_SEQUENCE == 3u32) by (bit_vector);

    let mut anih: Vec<u8> = Vec::new();
    push_u32(&mut anih, 36);
    push_u32(&mut anih, anim.frames.len() as u32);
    push_u32(&mut anih, steps as u32);
    push_u32(&mut anih, 0);
    push_u32(&mut anih, 0);
    push_u32(&mut anih, 32);
    push_u32(&mut anih, 1);
    push_u32(&mut anih, anim.default_rate);
    push_u32(&mut anih, flags);
    assert(anih@ =~= anih_bytes(anim@));

    let ghost fv = anim@.frames;
    proof {
        lemma_frames_consistent(fv, fv.len());
    }
    let mut fram: Vec<u8> = Vec::new();
    push_u32(&mut fram, FOURCC_FRAM);
    let ghost fram_head = fram@;
    let mut i: usize = 0;
    assert(fram@ =~= fram_head + icon_chunks(fv, 0));
    while i < anim.frames.len()
        invariant
            0 <= i <= anim.frames@.len(),
            fv == anim@.frames,
            fv.len() == anim.frames@.len(),
            forall|k: int| 0 <= k < fv.len() ==> encodable(#[trigger] fv[k]),
            forall|k: int| 0 <= k < fv.len() ==> (#[trigger] fv[k]).len() > 0,
            fram@ == fram_head + icon_chunks(fv, i as nat),
        decreases anim.frames@.len() - i,
    {
        let frame = &anim.frames[i];
        assert(views(frame@) == fv[i as int]);
        let cur = match crate::ico::encode(frame.as_slice(), TYPE_CURSOR) {
            Ok(c) => c,
            Err(e) => {
                assert(false);
                return Err(e);
            },
        };
        proof {
            reveal(frame_container);
        }
        push_chunk(&mut fram, FOURCC_ICON, cur.as_slice());
        i = i + 1;
    }

    let mut body: Vec<u8> = Vec::new();
    push_u32(&mut body, FOURCC_ACON);
    push_chunk(&mut body, FOURCC_ANIH, anih.as_slice());
    push_opt_list(&mut body, FOURCC_RATE, &anim.rates);
    push_opt_list(&mut body, FOURCC_SEQ, &anim.seq);
    push_chunk(&mut body, FOURCC_LIST, fram.as_slice());
    assert(body@ =~= acon_body(anim@));

    let mut out: Vec<u8> = Vec::new();
    push_u32(&mut out, FOURCC_RIFF);
    push_u32(&mut out, body.len() as u32);
    let ghost head = out@;
    let mut k: usize = 0;
    while k < body.len()
        invariant
            0 <= k <= body@.len(),
            out@ == head + body@.take(k as int),
        decreases body@.len() - k,
    {
        out.push(body[k]);
        k = k + 1;
        assert(out@ =~= head + body@.take(k as int));
    }
    assert(body@.take(body@.len() as int) =~= body@);
    proof {
        reveal(riff_bytes);
    }
    assert(out@ =~= riff_bytes(anim@));
    Ok(out)
}


/// Frames that pass the check are all non-empty, with the sizes of frame 0.
pub proof fn lemma_frames_consistent(frames: Seq<Seq<ImageView>>, n: nat)
    requires
        n <= frames.len(),
        first_frame_fault(frames, n) is None,
    ensures
        forall|k: int| 0 <= k < n ==> (#[trigger] frames[k]).len() > 0,
        forall|k: int| 0 <= k < n ==> frame_sizes(#[trigger] frames[k]) == frame_sizes(frames[0]),
    decreases n,
{
    if n > 0 {
        lemma_frames_consistent(frames, (n - 1) as nat);
    }
}


// ------------------------------------------------------------------ parsing

/// The raw `anih` header, as read from a file.
#[derive(Debug, Clone, Copy, PartialEq, Eq, Structural)]
pub struct AnimHeader {
    pub cb_size: u32,
    pub frames: u32,
    pub steps: u32,
    pub cx: u32,
    pub cy: u32,
    pub bit_count: u32,
    pub planes: u32,
    pub display_rate: u32,
    pub flags: u32,
}

/// Everything a parsed `.ani` contains, with frames left as raw `.cur` bytes.
#[derive(Debug, Clone)]
pub struct RawAni {
    pub header: AnimHeader,
    pub frames: Vec<Vec<u8>>,
    pub rates: Option<Vec<u32>>,
    pub seq: Option<Vec<u32>>,
}

/// The mathematical content of a [`RawAni`].
pub struct RawAniView {
    pub header: AnimHeader,
    pub frames: Seq<Seq<u8>>,
    pub rates: Option<Seq<u32>>,
    pub seq: Option<Seq<u32>>,
}

impl View for RawAni {
    type V = RawAniView;

    open spec fn view(&self) -> RawAniView {
        RawAniView {
            header: self.header,
            frames: byte_views(self.frames@),
            rates: opt_view(self.rates),
            seq: opt_view(self.seq),
        }
    }
}

/// The views of a list of byte buffers.
pub open spec fn byte_views(s: Seq<Vec<u8>>) -> Seq<Seq<u8>> {
    s.map_values(|f: Vec<u8>| f@)
}

/// What the chunk walk has gathered so far.
pub struct ParseState {
    pub header: Option<AnimHeader>,
    pub frames: Seq<Seq<u8>>,
    pub rates: Option<Seq<u32>>,
    pub seq: Option<Seq<u32>>,
}

/// The header stored at `o`.
pub open spec fn header_at(d: Seq<u8>, o: int) -> AnimHeader {
    AnimHeader {
        cb_size: u32_at(d, o),
        frames: u32_at(d, o + 4),
        steps: u32_at(d, o + 8),
        cx: u32_at(d, o + 12),
        cy: u32_at(d, o + 16),
        bit_count: u32_at(d, o + 20),
        planes: u32_at(d, o + 24),
        display_rate: u32_at(d, o + 28),
        flags: u32_at(d, o + 32),
    }
}

/// The whole little-endian `u32`s in `d[lo..hi]`; a trailing partial one is ignored.
pub open spec fn u32_list_at(d: Seq<u8>, lo: int, hi: int) -> Seq<u32> {
    Seq::new(((hi - lo) / 4) as nat, |i: int| u32_at(d, lo + 4 * i))
}

/// Walk the sub-chunks of a `LIST fram` from `o` to `end`, collecting `icon` bodies.
#[verifier::opaque]
pub open spec fn walk_icons(d: Seq<u8>, o: int, end: int, frames: Seq<Seq<u8>>) -> Result<Seq<Seq<u8>>, Error>
    decreases end + 2 - o,
{
    if o + 8 > end || o < 0 {
        Ok(frames)
    } else {
        let ssize = u32_at(d, o + 4) as int;
        let sbody = o + 8;
        if sbody + ssize > end {
            Err(Error::Ani(AniFault::FramePastList))
        } else {
            let f2 = if u32_at(d, o) == FOURCC_ICON {
                frames.push(d.subrange(sbody, sbody + ssize))
            } else {
                frames
            };
            walk_icons(d, sbody + ssize + ssize % 2, end, f2)
        }
    }
}

/// What one chunk contributes.
pub open spec fn chunk_step(d: Seq<u8>, id: u32, body: int, end: int, st: ParseState) -> Result<ParseState, Error> {
    let size = end - body;
    if id == FOURCC_ANIH {
        if size < 36 {
            Err(Error::Ani(AniFault::ShortAnih))
        } else {
            Ok(ParseState { header: Some(header_at(d, body)), ..st })
        }
    } else if id == FOURCC_RATE {
        Ok(ParseState { rates: Some(u32_list_at(d, body, end)), ..st })
    } else if id == FOURCC_SEQ {
        Ok(ParseState { seq: Some(u32_list_at(d, body, end)), ..st })
    } else if id == FOURCC_LIST && size >= 4 && u32_at(d, body) == FOURCC_FRAM {
        match walk_icons(d, body + 4, end, st.frames) {
            Ok(f) => Ok(ParseState { frames: f, ..st }),
            Err(e) => Err(e),
        }
    } else {
        Ok(st)
    }
}

/// One top-level chunk at `off` (which leaves room for a chunk header): where the
/// next chunk starts and the state after this one.
#[verifier::opaque]
pub open spec fn walk_step(d: Seq<u8>, off: int, st: ParseState) -> Result<(int, ParseState), Error> {
    let size = u32_at(d, off + 4) as int;
    let body = off + 8;
    let end = body + size;
    if end > d.len() {
        Err(Error::Ani(AniFault::ChunkPastEnd { offset: off as usize, size: size as usize }))
    } else {
        match chunk_step(d, u32_at(d, off), body, end, st) {
            Err(e) => Err(e),
            Ok(st2) => Ok((end + size % 2, st2)),
        }
    }
}

/// Walk the top-level chunks from `off`.
#[verifier::opaque]
pub open spec fn walk(d: Seq<u8>, off: int, st: ParseState) -> Result<ParseState, Error>
    decreases d.len() + 2 - off,
{
    if off + 8 > d.len() || off < 0 {
        Ok(st)
    } else {
        match walk_step(d, off, st) {
            Err(e) => Err(e),
            Ok((next, st2)) => if off < next <= d.len() + 1 {
                walk(d, next, st2)
            } else {
                Ok(st2)
            },
        }
    }
}

/// What [`parse`] returns for `d`.
pub open spec fn spec_parse(d: Seq<u8>) -> Result<RawAniView, Error> {
    if d.len() < 12 || u32_at(d, 0) != FOURCC_RIFF || u32_at(d, 8) != FOURCC_ACON {
        Err(Error::Ani(AniFault::NotRiffAcon))
    } else {
        match walk(d, 12, ParseState { header: None, frames: Seq::empty(), rates: None, seq: None }) {
            Err(e) => Err(e),
            Ok(st) => match st.header {
                None => Err(Error::Ani(AniFault::NoAnih)),
                Some(h) => if st.frames.len() == 0 {
                    Err(Error::Ani(AniFault::NoIconFrames))
                } else {
                    Ok(RawAniView { header: h, frames: st.frames, rates: st.rates, seq: st.seq })
                },
            },
        }
    }
}

/// The `u32`s in `d[lo..hi]`.
fn read_u32_list(d: &[u8], lo: usize, hi: usize) -> (r: Vec<u32>)
    requires
        lo <= hi <= d@.len(),
    ensures
        r@ == u32_list_at(d@, lo as int, hi as int),
{
    let n = (hi - lo) / 4;
    let mut out: Vec<u32> = Vec::new();
    let mut i: usize = 0;
    while i < n
        invariant
            0 <= i <= n,
            n == (hi - lo) / 4,
            lo <= hi <= d@.len(),
            out@ =~= u32_list_at(d@, lo as int, hi as int).take(i as int),
        decreases n - i,
    {
        out.push(read_u32(d, lo + 4 * i));
        i = i + 1;
    }
    assert(out@ =~= u32_list_at(d@, lo as int, hi as int));
    out
}

/// The view of the parse state held in the loop's variables.
pub open spec fn state_of(
    header: Option<AnimHeader>,
    frames: Seq<Vec<u8>>,
    rates: Option<Vec<u32>>,
    seq: Option<Vec<u32>>,
) -> ParseState {
    ParseState { header, frames: byte_views(frames), rates: opt_view(rates), seq: opt_view(seq) }
}

/// Collect the `icon` sub-chunks of a `LIST fram` body running from `start` to `end`.
fn read_icons(data: &[u8], start: usize, end: usize, frames: &mut Vec<Vec<u8>>) -> (r: Result<(), Error>)
    requires
        start <= end <= data@.len(),
        data@.len() < usize::MAX,
    ensures
        walk_icons(data@, start as int, end as int, byte_views(old(frames)@)) == (match r {
            Ok(_) => Ok::<Seq<Seq<u8>>, Error>(byte_views(final(frames)@)),
            Err(e) => Err::<Seq<Seq<u8>>, Error>(e),
        }),
{
    let ghost total = walk_icons(data@, start as int, end as int, byte_views(old(frames)@));
    let mut o = start;
    while o < end && end - o >= 8
        invariant
            start <= o <= end + 1,
            end <= data@.len(),
            data@.len() < usize::MAX,
            walk_icons(data@, o as int, end as int, byte_views(frames@)) == total,
            total == walk_icons(data@, start as int, end as int, byte_views(old(frames)@)),
        decreases end + 2 - o,
    {
        proof {
            reveal(walk_icons);
        }
        let ssize = read_u32(data, o + 4) as usize;
        let sbody = o + 8;
        let ghost before = byte_views(frames@);
        if ssize > end - sbody {
            assert(walk_icons(data@, o as int, end as int, before) == Err::<Seq<Seq<u8>>, Error>(Error::Ani(AniFault::FramePastList)));
            assert(total == Err::<Seq<Seq<u8>>, Error>(Error::Ani(AniFault::FramePastList)));
            return Err(Error::Ani(AniFault::FramePastList));
        }
        let send = sbody + ssize;
        if read_u32(data, o) == FOURCC_ICON {
            let mut f: Vec<u8> = Vec::new();
            let mut k: usize = sbody;
            while k < send
                invariant
                    sbody <= k <= send,
                    send == sbody + ssize,
                    send <= data@.len(),
                    f@ =~= data@.subrange(sbody as int, k as int),
                decreases sbody + ssize - k,
            {
                f.push(data[k]);
                k = k + 1;
            }
            frames.push(f);
            assert(byte_views(frames@) =~= before.push(data@.subrange(sbody as int, (sbody + ssize) as int)));
        }
        if ssize % 2 == 1 && sbody + ssize == end {
            o = end + 1;
        } else {
            o = sbody + ssize + ssize % 2;
        }
    }
    proof {
        reveal(walk_icons);
    }
    Ok(())
}

/// Read one top-level chunk at `off` into the state; returns where the next starts.
fn parse_chunk(
    data: &[u8],
    off: usize,
    header: &mut Option<AnimHeader>,
    frames: &mut Vec<Vec<u8>>,
    rates: &mut Option<Vec<u32>>,
    seq: &mut Option<Vec<u32>>,
) -> (r: Result<usize, Error>)
    requires
        off + 8 <= data@.len(),
        data@.len() < usize::MAX,
    ensures
        walk_step(data@, off as int, state_of(*old(header), old(frames)@, *old(rates), *old(seq))) == (match r {
            Ok(next) => Ok::<(int, ParseState), Error>(
                (next as int, state_of(*final(header), final(frames)@, *final(rates), *final(seq))),
            ),
            Err(e) => Err::<(int, ParseState), Error>(e),
        }),
        r matches Ok(next) ==> off < next <= data@.len() + 1,
{
    proof {
        reveal(walk_step);
    }
    let id = read_u32(data, off);
    let size = read_u32(data, off + 4) as usize;
    let body = off + 8;
    if size > data.len() - body {
        return Err(Error::Ani(AniFault::ChunkPastEnd { offset: off, size }));
    }
    let end = body + size;
    let ghost st = state_of(*header, frames@, *rates, *seq);
    if id == FOURCC_ANIH {
        if size < 36 {
            return Err(Error::Ani(AniFault::ShortAnih));
        }
        *header = Some(AnimHeader {
            cb_size: read_u32(data, body),
            frames: read_u32(data, body + 4),
            steps: read_u32(data, body + 8),
            cx: read_u32(data, body + 12),
            cy: read_u32(data, body + 16),
            bit_count: read_u32(data, body + 20),
            planes: read_u32(data, body + 24),
            display_rate: read_u32(data, body + 28),
            flags: read_u32(data, body + 32),
        });
    } else if id == FOURCC_RATE {
        *rates = Some(read_u32_list(data, body, end));
    } else if id == FOURCC_SEQ {
        *seq = Some(read_u32_list(data, body, end));
    } else if id == FOURCC_LIST && size >= 4 && read_u32(data, body) == FOURCC_FRAM {
        match read_icons(data, body + 4, end, frames) {
            Ok(()) => {},
            Err(e) => return Err(e),
        }
    }
    Ok(end + size % 2)
}

/// Parse an `.ani` without decoding pixels.
pub fn parse(data: &[u8]) -> (r: Result<RawAni, Error>)
    requires
        data@.len() < usize::MAX,
    ensures
        r matches Ok(raw) ==> spec_parse(data@) == Ok::<RawAniView, Error>(raw@),
        r matches Err(e) ==> spec_parse(data@) == Err::<RawAniView, Error>(e),
{
    if data.len() < 12 || read_u32(data, 0) != FOURCC_RIFF || read_u32(data, 8) != FOURCC_ACON {
        return Err(Error::Ani(AniFault::NotRiffAcon));
    }
    let mut header: Option<AnimHeader> = None;
    let mut frames: Vec<Vec<u8>> = Vec::new();
    let mut rates: Option<Vec<u32>> = None;
    let mut seq: Option<Vec<u32>> = None;
    let ghost init = ParseState { header: None, frames: Seq::empty(), rates: None, seq: None };
    let ghost total = walk(data@, 12, init);
    assert(byte_views(frames@) =~= Seq::<Seq<u8>>::empty());
    assert(state_of(header, frames@, rates, seq) == init);

    let mut off: usize = 12;
    while off < data.len() && data.len() - off >= 8
        invariant
            12 <= off <= data@.len() + 1,
            data@.len() < usize::MAX,
            walk(data@, off as int, state_of(header, frames@, rates, seq)) == total,
            total == walk(data@, 12, init),
            init == (ParseState { header: None, frames: Seq::empty(), rates: None, seq: None }),
            data@.len() >= 12 && u32_at(data@, 0) == FOURCC_RIFF && u32_at(data@, 8) == FOURCC_ACON,
        decreases data@.len() + 2 - off,
    {
        let ghost st = state_of(header, frames@, rates, seq);
        proof {
            reveal(walk);
        }
        match parse_chunk(data, off, &mut header, &mut frames, &mut rates, &mut seq) {
            Ok(next) => {
                off = next;
            },
            Err(e) => {
                assert(walk(data@, off as int, st) == Err::<ParseState, Error>(e));
                assert(total == Err::<ParseState, Error>(e));
                return Err(e);
            },
        }
    }
    let ghost st = state_of(header, frames@, rates, seq);
    proof {
        reveal(walk);
    }
    assert(total == Ok::<ParseState, Error>(st));
    let h = match header {
        Some(h) => h,
        None => return Err(Error::Ani(AniFault::NoAnih)),
    };
    if frames.len() == 0 {
        return Err(Error::Ani(AniFault::NoIconFrames));
    }
    let raw = RawAni { header: h, frames, rates, seq };
    Ok(raw)
}


/// Decode each frame's cursor, stopping at the first failure.
pub open spec fn decode_frames(fs: Seq<Seq<u8>>) -> Result<Seq<Seq<ImageView>>, Error>
    decreases fs.len(),
{
    if fs.len() == 0 {
        Ok(Seq::empty())
    } else {
        match decode_frames(fs.drop_last()) {
            Err(e) => Err(e),
            Ok(prev) => match crate::ico::spec_decode(fs.last()) {
                Err(e) => Err(e),
                Ok(f) => Ok(prev.push(f)),
            },
        }
    }
}

/// What [`decode`] returns for `d`.
pub open spec fn spec_decode(d: Seq<u8>) -> Result<AnimView, Error> {
    match spec_parse(d) {
        Err(e) => Err(e),
        Ok(raw) => match decode_frames(raw.frames) {
            Err(e) => Err(e),
            Ok(fs) => Ok(AnimView { frames: fs, default_rate: raw.header.display_rate, rates: raw.rates, seq: raw.seq }),
        },
    }
}

proof fn lemma_decode_frames_err(fs: Seq<Seq<u8>>, n: int)
    requires
        0 <= n <= fs.len(),
        decode_frames(fs.take(n)) is Err,
    ensures
        decode_frames(fs) == decode_frames(fs.take(n)),
    decreases fs.len() - n,
{
    if n < fs.len() {
        assert(fs.take(n + 1).drop_last() =~= fs.take(n));
        lemma_decode_frames_err(fs, n + 1);
    } else {
        assert(fs.take(n) =~= fs);
    }
}

/// The views of a list of frames.
pub open spec fn frame_views(s: Seq<Vec<Image>>) -> Seq<Seq<ImageView>> {
    s.map_values(|f: Vec<Image>| views(f@))
}

/// Parse and fully decode into an [`Anim`].
pub fn decode(data: &[u8]) -> (r: Result<Anim, Error>)
    requires
        data@.len() < usize::MAX,
    ensures
        r matches Ok(a) ==> spec_decode(data@) == Ok::<AnimView, Error>(a@),
        r matches Err(e) ==> spec_decode(data@) == Err::<AnimView, Error>(e),
{
    let raw = match parse(data) {
        Ok(raw) => raw,
        Err(e) => return Err(e),
    };
    let ghost fs = raw@.frames;
    let mut frames: Vec<Vec<Image>> = Vec::new();
    let mut i: usize = 0;
    assert(fs.take(0) =~= Seq::<Seq<u8>>::empty());
    assert(frame_views(frames@) =~= Seq::<Seq<ImageView>>::empty());
    while i < raw.frames.len()
        invariant
            0 <= i <= raw.frames@.len(),
            fs == raw@.frames,
            fs.len() == raw.frames@.len(),
            spec_parse(data@) == Ok::<RawAniView, Error>(raw@),
            decode_frames(fs.take(i as int)) == Ok::<Seq<Seq<ImageView>>, Error>(frame_views(frames@)),
        decreases raw.frames@.len() - i,
    {
        assert(fs.take(i + 1).drop_last() =~= fs.take(i as int));
        assert(fs.take(i + 1).last() == raw.frames@[i as int]@);
        let ghost before = frame_views(frames@);
        match crate::ico::decode(raw.frames[i].as_slice()) {
            Ok(images) => {
                frames.push(images);
                assert(frame_views(frames@) =~= before.push(views(images@)));
            },
            Err(e) => {
                proof { lemma_decode_frames_err(fs, (i + 1) as int); }
                return Err(e);
            },
        }
        i = i + 1;
    }
    assert(fs.take(fs.len() as int) =~= fs);
    let a = Anim { frames, default_rate: raw.header.display_rate, rates: raw.rates, seq: raw.seq };
    assert(a@.frames == frame_views(a.frames@));
    Ok(a)
}


// ------------------------------------------------------------------ round trip

/// Each `u32` of a written list sits at its own four bytes.
proof fn lemma_u32_list_bytes(v: Seq<u32>, i: int)
    requires
        0 <= i < v.len(),
    ensures
        u32_list_bytes(v).len() == 4 * v.len(),
        u32_list_bytes(v).subrange(4 * i, 4 * i + 4) == le32(v[i]),
    decreases v.len(),
{
    lemma_u32_list_len(v.drop_last());
    if i < v.len() - 1 {
        lemma_u32_list_bytes(v.drop_last(), i);
        let a = u32_list_bytes(v.drop_last());
        assert((a + le32(v.last())).subrange(4 * i, 4 * i + 4) =~= a.subrange(4 * i, 4 * i + 4));
    } else {
        let a = u32_list_bytes(v.drop_last());
        assert((a + le32(v.last())).subrange(4 * i, 4 * i + 4) =~= le32(v.last()));
    }
}

proof fn lemma_u32_list_len(v: Seq<u32>)
    ensures
        u32_list_bytes(v).len() == 4 * v.len(),
    decreases v.len(),
{
    if v.len() > 0 {
        lemma_u32_list_len(v.drop_last());
    }
}

/// A written list reads back as the list.
proof fn lemma_u32_list_roundtrip(v: Seq<u32>, d: Seq<u8>, lo: int)
    requires
        0 <= lo,
        lo + 4 * v.len() <= d.len(),
        d.subrange(lo, lo + 4 * v.len()) == u32_list_bytes(v),
    ensures
        u32_list_at(d, lo, lo + 4 * v.len()) == v,
{
    lemma_u32_list_len(v);
    assert forall|i: int| 0 <= i < v.len() implies #[trigger] u32_at(d, lo + 4 * i) == v[i] by {
        lemma_u32_list_bytes(v, i);
        assert(d.subrange(lo + 4 * i, lo + 4 * i + 4) =~= u32_list_bytes(v).subrange(4 * i, 4 * i + 4));
        lemma_le32(v[i], d, lo + 4 * i);
    }
    assert(u32_list_at(d, lo, lo + 4 * v.len()) =~= v);
}

/// The fields of a chunk written at `off` read back.
proof fn lemma_chunk_fields(d: Seq<u8>, off: int, id: u32, body: Seq<u8>)
    requires
        0 <= off,
        off + chunk_bytes(id, body).len() <= d.len(),
        d.subrange(off, off + chunk_bytes(id, body).len()) == chunk_bytes(id, body),
        body.len() <= u32::MAX,
    ensures
        chunk_bytes(id, body).len() == 8 + body.len() + body.len() % 2,
        u32_at(d, off) == id,
        u32_at(d, off + 4) == body.len(),
        d.subrange(off + 8, off + 8 + body.len()) == body,
{
    let c = chunk_bytes(id, body);
    let h = le32(id) + le32(body.len() as u32);
    assert(c.subrange(0, 8) =~= h);
    assert(d.subrange(off, off + 4) =~= h.subrange(0, 4)) by {
        assert(d.subrange(off, off + 4) =~= c.subrange(0, 4));
    }
    assert(d.subrange(off + 4, off + 8) =~= h.subrange(4, 8)) by {
        assert(d.subrange(off + 4, off + 8) =~= c.subrange(4, 8));
    }
    assert(h.subrange(0, 4) =~= le32(id));
    assert(h.subrange(4, 8) =~= le32(body.len() as u32));
    lemma_le32(id, d, off);
    lemma_le32(body.len() as u32, d, off + 4);
    assert(d.subrange(off + 8, off + 8 + body.len()) =~= c.subrange(8, 8 + body.len() as int));
    assert(c.subrange(8, 8 + body.len() as int) =~= body);
}

/// With its fields in place, a chunk is one step of the walk.
proof fn lemma_walk_chunk(d: Seq<u8>, off: int, id: u32, size: nat, st: ParseState)
    requires
        0 <= off,
        off + 8 + size <= d.len(),
        u32_at(d, off) == id,
        u32_at(d, off + 4) == size,
    ensures
        walk_step(d, off, st) == (match chunk_step(d, id, off + 8, off + 8 + size, st) {
            Err(e) => Err::<(int, ParseState), Error>(e),
            Ok(st2) => Ok::<(int, ParseState), Error>((off + 8 + size + size % 2, st2)),
        }),
{
    reveal(walk_step);
}

/// The header written in `anih` reads back.
proof fn lemma_anih_roundtrip(d: Seq<u8>, o: int, a: AnimView)
    requires
        0 <= o,
        o + 36 <= d.len(),
        d.subrange(o, o + 36) == anih_bytes(a),
    ensures
        header_at(d, o) == (AnimHeader {
            cb_size: 36,
            frames: a.frames.len() as u32,
            steps: spec_steps(a) as u32,
            cx: 0,
            cy: 0,
            bit_count: 32,
            planes: 1,
            display_rate: a.default_rate,
            flags: spec_flags(a),
        }),
{
    let v = seq![36u32, a.frames.len() as u32, spec_steps(a) as u32, 0, 0, 32, 1, a.default_rate, spec_flags(a)];
    reveal_with_fuel(u32_list_bytes, 10);
    assert(v.drop_last().drop_last().drop_last().drop_last().drop_last().drop_last().drop_last().drop_last().drop_last() =~= Seq::<u32>::empty());
    assert(anih_bytes(a) =~= u32_list_bytes(v)) by {
        assert(v.drop_last() =~= seq![36u32, a.frames.len() as u32, spec_steps(a) as u32, 0, 0, 32, 1, a.default_rate]);
        assert(v.drop_last().drop_last() =~= seq![36u32, a.frames.len() as u32, spec_steps(a) as u32, 0, 0, 32, 1]);
        assert(v.drop_last().drop_last().drop_last() =~= seq![36u32, a.frames.len() as u32, spec_steps(a) as u32, 0, 0, 32]);
        assert(v.drop_last().drop_last().drop_last().drop_last() =~= seq![36u32, a.frames.len() as u32, spec_steps(a) as u32, 0, 0]);
        assert(v.drop_last().drop_last().drop_last().drop_last().drop_last() =~= seq![36u32, a.frames.len() as u32, spec_steps(a) as u32, 0]);
        assert(v.drop_last().drop_last().drop_last().drop_last().drop_last().drop_last() =~= seq![36u32, a.frames.len() as u32, spec_steps(a) as u32]);
        assert(v.drop_last().drop_last().drop_last().drop_last().drop_last().drop_last().drop_last() =~= seq![36u32, a.frames.len() as u32]);
        assert(v.drop_last().drop_last().drop_last().drop_last().drop_last().drop_last().drop_last().drop_last() =~= seq![36u32]);
    }
    lemma_u32_list_roundtrip(v, d, o);
    let r = u32_list_at(d, o, o + 36);
    assert(r[0] == u32_at(d, o));
    assert(r[1] == u32_at(d, o + 4));
    assert(r[2] == u32_at(d, o + 8));
    assert(r[3] == u32_at(d, o + 12));
    assert(r[4] == u32_at(d, o + 16));
    assert(r[5] == u32_at(d, o + 20));
    assert(r[6] == u32_at(d, o + 24));
    assert(r[7] == u32_at(d, o + 28));
    assert(r[8] == u32_at(d, o + 32));
}

/// The stored cursor of frame `i`.
#[verifier::opaque]
pub open spec fn frame_container(frames: Seq<Seq<ImageView>>, i: int) -> Seq<u8> {
    container_bytes(sort_desc(frames[i]), TYPE_CURSOR)
}

/// Earlier `icon` chunks are a prefix of later ones.
proof fn lemma_icon_prefix(frames: Seq<Seq<ImageView>>, k: nat, n: nat)
    requires
        k <= n,
    ensures
        icon_chunks(frames, k).len() <= icon_chunks(frames, n).len(),
        icon_chunks(frames, n).subrange(0, icon_chunks(frames, k).len() as int) == icon_chunks(frames, k),
    decreases n - k,
{
    if k < n {
        lemma_icon_prefix(frames, k, (n - 1) as nat);
        let a = icon_chunks(frames, (n - 1) as nat);
        let b = chunk_bytes(FOURCC_ICON, frame_container(frames, n - 1));
        assert((a + b).subrange(0, icon_chunks(frames, k).len() as int)
            =~= a.subrange(0, icon_chunks(frames, k).len() as int));
    } else {
        assert(icon_chunks(frames, n).subrange(0, icon_chunks(frames, n).len() as int) =~= icon_chunks(frames, n));
    }
}

/// One `icon` chunk in place is one step of the sub-chunk walk.
proof fn lemma_walk_icon_step(d: Seq<u8>, o: int, end: int, acc: Seq<Seq<u8>>, c: Seq<u8>)
    requires
        0 <= o,
        o + 8 + c.len() <= end,
        u32_at(d, o) == FOURCC_ICON,
        u32_at(d, o + 4) == c.len(),
        d.subrange(o + 8, o + 8 + c.len()) == c,
    ensures
        walk_icons(d, o, end, acc) == walk_icons(d, o + 8 + c.len() + c.len() % 2, end, acc.push(c)),
{
    reveal(walk_icons);
}

/// The sub-chunk walk ends where there is no room for another chunk.
proof fn lemma_walk_icons_end(d: Seq<u8>, o: int, end: int, acc: Seq<Seq<u8>>)
    requires
        o + 8 > end,
    ensures
        walk_icons(d, o, end, acc) == Ok::<Seq<Seq<u8>>, Error>(acc),
{
    reveal(walk_icons);
}

/// The walk ends where there is no room for another chunk.
proof fn lemma_walk_end(d: Seq<u8>, off: int, st: ParseState)
    requires
        off + 8 > d.len(),
    ensures
        walk(d, off, st) == Ok::<ParseState, Error>(st),
{
    reveal(walk);
}

/// Walking written `icon` chunks collects the frames' cursors.
proof fn lemma_walk_icons(d: Seq<u8>, start: int, frames: Seq<Seq<ImageView>>, k: nat)
    requires
        0 <= start,
        k <= frames.len(),
        start + icon_chunks(frames, frames.len()).len() <= d.len(),
        d.subrange(start, start + icon_chunks(frames, frames.len()).len()) == icon_chunks(frames, frames.len()),
        icon_chunks(frames, frames.len()).len() <= u32::MAX,
    ensures
        walk_icons(d, start, start + icon_chunks(frames, frames.len()).len(), Seq::empty()) == walk_icons(
            d,
            start + icon_chunks(frames, k).len(),
            start + icon_chunks(frames, frames.len()).len(),
            Seq::new(k, |i: int| frame_container(frames, i)),
        ),
    decreases k,
{
    let n = frames.len();
    let end = start + icon_chunks(frames, n).len();
    if k == 0 {
        assert(Seq::new(0, |i: int| frame_container(frames, i)) =~= Seq::<Seq<u8>>::empty());
    } else {
        lemma_walk_icons(d, start, frames, (k - 1) as nat);
        lemma_icon_prefix(frames, (k - 1) as nat, n);
        lemma_icon_prefix(frames, k, n);
        let pre = icon_chunks(frames, (k - 1) as nat);
        let c = frame_container(frames, k - 1);
        let ch = chunk_bytes(FOURCC_ICON, c);
        let o = start + pre.len();
        assert(icon_chunks(frames, k) == pre + ch);
        let whole = icon_chunks(frames, n);
        assert(d.subrange(o, o + ch.len()) =~= whole.subrange(pre.len() as int, (pre.len() + ch.len()) as int));
        assert(whole.subrange(pre.len() as int, (pre.len() + ch.len()) as int) =~= (pre + ch).subrange(pre.len() as int, (pre + ch).len() as int));
        assert((pre + ch).subrange(pre.len() as int, (pre + ch).len() as int) =~= ch);
        assert(c.len() <= u32::MAX);
        lemma_chunk_fields(d, o, FOURCC_ICON, c);
        let prev = Seq::new((k - 1) as nat, |i: int| frame_container(frames, i));
        lemma_walk_icon_step(d, o, end, prev, c);
        assert(prev.push(c) =~= Seq::new(k, |i: int| frame_container(frames, i)));
    }
}

/// An animation whose file fits the 32-bit sizes RIFF records.
pub open spec fn riff_sized(a: AnimView) -> bool {
    acon_body(a).len() <= u32::MAX
}

/// Where the rate chunk starts: after the 12-byte file header and the `anih` chunk.
pub open spec fn rate_offset() -> int {
    56int
}

/// Where the seq chunk starts.
pub open spec fn seq_offset(a: AnimView) -> int {
    rate_offset() + opt_list_chunk(FOURCC_RATE, a.rates).len()
}

/// Where the `LIST` chunk starts.
pub open spec fn list_offset(a: AnimView) -> int {
    seq_offset(a) + opt_list_chunk(FOURCC_SEQ, a.seq).len()
}

/// The parts of a written `.ani`, at their offsets.
proof fn lemma_riff_layout(a: AnimView)
    ensures
        riff_bytes(a).len() == list_offset(a) + chunk_bytes(FOURCC_LIST, fram_bytes(a.frames)).len(),
        riff_bytes(a).len() == 8 + acon_body(a).len(),
        chunk_bytes(FOURCC_ANIH, anih_bytes(a)).len() == 44,
        riff_bytes(a).subrange(0, 4) == le32(FOURCC_RIFF),
        riff_bytes(a).subrange(8, 12) == le32(FOURCC_ACON),
        riff_bytes(a).subrange(12, rate_offset()) == chunk_bytes(FOURCC_ANIH, anih_bytes(a)),
        riff_bytes(a).subrange(rate_offset(), seq_offset(a)) == opt_list_chunk(FOURCC_RATE, a.rates),
        riff_bytes(a).subrange(seq_offset(a), list_offset(a)) == opt_list_chunk(FOURCC_SEQ, a.seq),
        riff_bytes(a).subrange(list_offset(a), riff_bytes(a).len() as int) == chunk_bytes(
            FOURCC_LIST,
            fram_bytes(a.frames),
        ),
{
    reveal(riff_bytes);
    let d = riff_bytes(a);
    let ca = chunk_bytes(FOURCC_ANIH, anih_bytes(a));
    let cr = opt_list_chunk(FOURCC_RATE, a.rates);
    let cs = opt_list_chunk(FOURCC_SEQ, a.seq);
    let cl = chunk_bytes(FOURCC_LIST, fram_bytes(a.frames));
    let p0 = le32(FOURCC_RIFF) + le32(acon_body(a).len() as u32) + le32(FOURCC_ACON);
    assert(d =~= p0 + ca + cr + cs + cl);
    assert(d.subrange(0, 4) =~= le32(FOURCC_RIFF));
    assert(d.subrange(8, 12) =~= le32(FOURCC_ACON));
    assert(d.subrange(12, rate_offset()) =~= ca);
    assert(d.subrange(rate_offset(), seq_offset(a)) =~= cr);
    assert(d.subrange(seq_offset(a), list_offset(a)) =~= cs);
    assert(d.subrange(list_offset(a), d.len() as int) =~= cl);
}

/// A chunk in place is one step of the whole walk.
proof fn lemma_walk_through(d: Seq<u8>, off: int, id: u32, body: Seq<u8>, st: ParseState)
    requires
        0 <= off,
        off + chunk_bytes(id, body).len() <= d.len(),
        d.subrange(off, off + chunk_bytes(id, body).len()) == chunk_bytes(id, body),
        body.len() <= u32::MAX,
    ensures
        d.subrange(off + 8, off + 8 + body.len()) == body,
        walk(d, off, st) == (match chunk_step(d, id, off + 8, off + 8 + body.len(), st) {
            Err(e) => Err::<ParseState, Error>(e),
            Ok(st2) => walk(d, off + chunk_bytes(id, body).len(), st2),
        }),
{
    lemma_chunk_fields(d, off, id, body);
    lemma_walk_chunk(d, off, id, body.len(), st);
    reveal(walk);
}

/// A written optional list chunk is read back into the state.
proof fn lemma_walk_list(d: Seq<u8>, off: int, id: u32, o: Option<Seq<u32>>, st: ParseState, st2: ParseState)
    requires
        0 <= off,
        id == FOURCC_RATE || id == FOURCC_SEQ,
        off + opt_list_chunk(id, o).len() <= d.len(),
        d.subrange(off, off + opt_list_chunk(id, o).len()) == opt_list_chunk(id, o),
        opt_list_chunk(id, o).len() <= u32::MAX,
        o is None ==> st2 == st,
        o matches Some(v) ==> st2 == (if id == FOURCC_RATE {
            ParseState { rates: Some(v), ..st }
        } else {
            ParseState { seq: Some(v), ..st }
        }),
    ensures
        walk(d, off, st) == walk(d, off + opt_list_chunk(id, o).len(), st2),
{
    match o {
        Some(v) => {
            lemma_u32_list_len(v);
            lemma_walk_through(d, off, id, u32_list_bytes(v), st);
            lemma_u32_list_roundtrip(v, d, off + 8);
        },
        None => {},
    }
}

/// The size a written `.ani` records in its RIFF header is the length of the
/// file after that 8-byte header.
pub proof fn lemma_riff_size_field(a: AnimView)
    requires
        spec_validate(a) is Ok,
        riff_sized(a),
    ensures
        spec_encode(a) matches Ok(b) && b.len() >= 8 && u32_at(b, 4) == b.len() - 8,
{
    reveal(riff_bytes);
    let b = riff_bytes(a);
    let n = acon_body(a).len();
    assert(b.subrange(4, 8) =~= le32(n as u32));
    lemma_le32(n as u32, b, 4);
}

/// Parsing a written `.ani` gives back its header, the frames' cursors, and the
/// rate and sequence lists.
pub proof fn lemma_parse_encode(a: AnimView)
    requires
        spec_validate(a) is Ok,
        a.frames.len() > 0,
        riff_sized(a),
    ensures
        spec_encode(a) matches Ok(b) && spec_parse(b) == Ok::<RawAniView, Error>(
            RawAniView {
                header: AnimHeader {
                    cb_size: 36,
                    frames: a.frames.len() as u32,
                    steps: spec_steps(a) as u32,
                    cx: 0,
                    cy: 0,
                    bit_count: 32,
                    planes: 1,
                    display_rate: a.default_rate,
                    flags: spec_flags(a),
                },
                frames: Seq::new(a.frames.len(), |i: int| frame_container(a.frames, i)),
                rates: a.rates,
                seq: a.seq,
            },
        ),
{
    let d = riff_bytes(a);
    let n = a.frames.len();
    lemma_riff_layout(a);
    lemma_le32(FOURCC_RIFF, d, 0);
    lemma_le32(FOURCC_ACON, d, 8);
    let init = ParseState { header: None, frames: Seq::empty(), rates: None, seq: None };
    lemma_walk_through(d, 12, FOURCC_ANIH, anih_bytes(a), init);
    lemma_anih_roundtrip(d, 20, a);
    let st1 = ParseState { header: Some(header_at(d, 20)), ..init };
    let st2 = ParseState { rates: a.rates, ..st1 };
    lemma_walk_list(d, rate_offset(), FOURCC_RATE, a.rates, st1, st2);
    let st3 = ParseState { seq: a.seq, ..st2 };
    lemma_walk_list(d, seq_offset(a), FOURCC_SEQ, a.seq, st2, st3);
    lemma_walk_fram(a, st3);
    assert(n > 0);
}

/// A `LIST fram` chunk's step is its sub-chunk walk.
proof fn lemma_list_step(d: Seq<u8>, body: int, end: int, st: ParseState)
    requires
        end - body >= 4,
        u32_at(d, body) == FOURCC_FRAM,
    ensures
        chunk_step(d, FOURCC_LIST, body, end, st) == (match walk_icons(d, body + 4, end, st.frames) {
            Ok(f) => Ok::<ParseState, Error>(ParseState { frames: f, ..st }),
            Err(e) => Err::<ParseState, Error>(e),
        }),
{
}

/// The `LIST fram` chunk of a written `.ani` is read back as the frames' cursors.
proof fn lemma_walk_fram(a: AnimView, st: ParseState)
    requires
        riff_sized(a),
        st.frames == Seq::<Seq<u8>>::empty(),
    ensures
        walk(riff_bytes(a), list_offset(a), st) == Ok::<ParseState, Error>(
            ParseState { frames: Seq::new(a.frames.len(), |i: int| frame_container(a.frames, i)), ..st },
        ),
{
    let d = riff_bytes(a);
    let n = a.frames.len();
    lemma_riff_layout(a);
    let fb = fram_bytes(a.frames);
    let o4 = list_offset(a);
    let ic = icon_chunks(a.frames, n);
    assert(fb.len() == 4 + ic.len());
    lemma_walk_through(d, o4, FOURCC_LIST, fb, st);
    assert(d.subrange(o4 + 8, o4 + 12) =~= fb.subrange(0, 4));
    assert(fb.subrange(0, 4) =~= le32(FOURCC_FRAM));
    lemma_le32(FOURCC_FRAM, d, o4 + 8);
    let end = o4 + 8 + fb.len();
    lemma_list_step(d, o4 + 8, end, st);
    assert(d.subrange(o4 + 12, o4 + 12 + ic.len()) =~= fb.subrange(4, fb.len() as int));
    assert(fb.subrange(4, fb.len() as int) =~= ic);
    lemma_walk_icons(d, o4 + 12, a.frames, n);
    let fs = Seq::new(n, |i: int| frame_container(a.frames, i));
    lemma_walk_icons_end(d, o4 + 12 + ic.len(), o4 + 12 + ic.len(), fs);
    assert(walk_icons(d, o4 + 12, end, st.frames) == Ok::<Seq<Seq<u8>>, Error>(fs));
    let st4 = ParseState { frames: fs, ..st };
    lemma_walk_end(d, d.len() as int, st4);
}


/// Frames whose cursors survive the round trip: each non-empty, at most 65535
/// images, every image non-empty and holding exactly its pixels.
pub open spec fn exact_frames(frames: Seq<Seq<ImageView>>) -> bool {
    forall|k: int|
        0 <= k < frames.len() ==> {
            &&& 0 < (#[trigger] frames[k]).len() <= 65535
            &&& encodable(frames[k])
            &&& forall|j: int| 0 <= j < frames[k].len() ==> crate::ico::exact_image(#[trigger] frames[k][j])
        }
}

/// The frames with each frame's images ordered largest-first.
pub open spec fn sorted_frames(frames: Seq<Seq<ImageView>>) -> Seq<Seq<ImageView>> {
    Seq::new(frames.len(), |i: int| sort_desc(frames[i]))
}

proof fn lemma_decode_frames_encoded(frames: Seq<Seq<ImageView>>, m: nat)
    requires
        m <= frames.len(),
        exact_frames(frames),
    ensures
        decode_frames(Seq::new(frames.len(), |i: int| frame_container(frames, i)).take(m as int))
            == Ok::<Seq<Seq<ImageView>>, Error>(sorted_frames(frames).take(m as int)),
    decreases m,
{
    let cs = Seq::new(frames.len(), |i: int| frame_container(frames, i));
    if m == 0 {
        assert(cs.take(0) =~= Seq::<Seq<u8>>::empty());
        assert(sorted_frames(frames).take(0) =~= Seq::<Seq<ImageView>>::empty());
    } else {
        lemma_decode_frames_encoded(frames, (m - 1) as nat);
        assert(cs.take(m as int).drop_last() =~= cs.take(m - 1));
        assert(cs.take(m as int).last() == frame_container(frames, m - 1));
        let f = frames[m - 1];
        assert(0 < f.len() <= 65535 && encodable(f));
        crate::ico::lemma_decode_encode(f);
        reveal(frame_container);
        assert(sorted_frames(frames).take(m - 1).push(sort_desc(f)) =~= sorted_frames(frames).take(m as int));
    }
}

/// Decoding what [`encode`] wrote gives back the animation, with each frame's
/// images ordered largest-first: the same frames, default rate, rate list and
/// sequence.
pub proof fn lemma_decode_encode(a: AnimView)
    requires
        spec_validate(a) is Ok,
        a.frames.len() > 0,
        riff_sized(a),
        exact_frames(a.frames),
    ensures
        spec_encode(a) matches Ok(b) && spec_decode(b) == Ok::<AnimView, Error>(
            AnimView { frames: sorted_frames(a.frames), default_rate: a.default_rate, rates: a.rates, seq: a.seq },
        ),
{
    lemma_parse_encode(a);
    let n = a.frames.len();
    lemma_decode_frames_encoded(a.frames, n);
    let cs = Seq::new(n, |i: int| frame_container(a.frames, i));
    assert(cs.take(n as int) =~= cs);
    assert(sorted_frames(a.frames).take(n as int) =~= sorted_frames(a.frames));
}


// ------------------------------------------------------------------ size budget laws

proof fn lemma_insert_asc_props(s: Seq<u32>, x: u32)
    requires
        ascending(s),
    ensures
        ascending(insert_asc(s, x)),
        insert_asc(s, x).to_multiset() == s.to_multiset().insert(x),
    decreases s.len(),
{
    broadcast use vstd::seq_lib::to_multiset_build;
    if s.len() == 0 {
        assert(s =~= Seq::<u32>::empty());
        assert(seq![x] =~= s.push(x));
    } else if s.last() <= x {
        assert forall|i: int, j: int| 0 <= i < j < s.push(x).len() implies s.push(x)[i] <= s.push(x)[j] by {
            if j == s.len() {
                assert(s[i] <= s[s.len() - 1]);
            }
        }
    } else {
        let t = s.drop_last();
        assert(ascending(t));
        lemma_insert_asc_props(t, x);
        let r = insert_asc(t, x);
        lemma_insert_asc_bound(t, x, s.last());
        assert forall|i: int, j: int| 0 <= i < j < r.push(s.last()).len() implies r.push(s.last())[i] <= r.push(s.last())[j] by {
            if j == r.len() {
                assert(r[i] <= s.last());
            }
        }
        assert(s =~= t.push(s.last()));
    }
}

/// Inserting keeps every element at most a bound that all of them respect.
proof fn lemma_insert_asc_bound(s: Seq<u32>, x: u32, b: u32)
    requires
        x <= b,
        forall|i: int| 0 <= i < s.len() ==> s[i] <= b,
    ensures
        forall|i: int| 0 <= i < insert_asc(s, x).len() ==> insert_asc(s, x)[i] <= b,
        insert_asc(s, x).len() == s.len() + 1,
    decreases s.len(),
{
    if s.len() > 0 && s.last() > x {
        lemma_insert_asc_bound(s.drop_last(), x, b);
    }
}

/// Sorting orders the sizes and keeps each of them.
pub proof fn lemma_sort_asc_props(s: Seq<u32>)
    ensures
        ascending(sort_asc(s)),
        sort_asc(s).to_multiset() == s.to_multiset(),
    decreases s.len(),
{
    broadcast use vstd::seq_lib::to_multiset_build;
    if s.len() > 0 {
        lemma_sort_asc_props(s.drop_last());
        lemma_insert_asc_props(sort_asc(s.drop_last()), s.last());
        assert(s =~= s.drop_last().push(s.last()));
    }
}

/// Collapsing runs of an ascending list leaves a strictly ascending list of the
/// same values.
pub proof fn lemma_dedup_props(s: Seq<u32>)
    requires
        ascending(s),
    ensures
        strictly_ascending(dedup(s)),
        dedup(s).to_set() == s.to_set(),
        s.len() > 0 ==> dedup(s).len() > 0 && dedup(s).last() == s.last(),
    decreases s.len(),
{
    broadcast use Seq::lemma_push_to_set_commute;
    if s.len() > 0 {
        let t = s.drop_last();
        assert(ascending(t));
        lemma_dedup_props(t);
        let d = dedup(t);
        assert(s =~= t.push(s.last()));
        if d.len() > 0 && d.last() == s.last() {
            assert(s.to_set() =~= t.to_set().insert(s.last()));
            assert(t.to_set().contains(s.last())) by {
                assert(d.to_set().contains(d.last())) by {
                    assert(d.contains(d.last()));
                }
            }
        } else {
            if t.len() > 0 {
                assert(t.last() <= s.last());
                assert(d.last() == t.last());
            }
            assert forall|i: int, j: int| 0 <= i < j < d.push(s.last()).len() implies d.push(s.last())[i] < d.push(s.last())[j] by {
                if j == d.len() {
                    if i < d.len() - 1 {
                        assert(d[i] < d[d.len() - 1]);
                    }
                }
            }
            assert(d.push(s.last()).to_set() =~= d.to_set().insert(s.last()));
            assert(s.to_set() =~= t.to_set().insert(s.last()));
        }
    }
}

/// Two strictly ascending lists of the same values are the same list.
pub proof fn lemma_strictly_ascending_unique(a: Seq<u32>, b: Seq<u32>)
    requires
        strictly_ascending(a),
        strictly_ascending(b),
        a.to_set() == b.to_set(),
    ensures
        a == b,
    decreases a.len() + b.len(),
{
    broadcast use Seq::lemma_push_to_set_commute;
    if a.len() == 0 || b.len() == 0 {
        if a.len() > 0 {
            assert(a.to_set().contains(a[0])) by { assert(a.contains(a[0])); }
            assert(!b.to_set().contains(a[0]));
        }
        if b.len() > 0 {
            assert(b.to_set().contains(b[0])) by { assert(b.contains(b[0])); }
            assert(!a.to_set().contains(b[0]));
        }
        assert(a =~= b);
    } else {
        let la = a.last();
        let lb = b.last();
        assert(a.to_set().contains(la)) by { assert(a.contains(la)); }
        assert(b.to_set().contains(lb)) by { assert(b.contains(lb)); }
        assert(b.contains(la));
        assert(a.contains(lb));
        let ia = choose|i: int| 0 <= i < b.len() && b[i] == la;
        let ib = choose|i: int| 0 <= i < a.len() && a[i] == lb;
        if ia < b.len() - 1 {
            assert(la < lb);
            assert(a[ib] <= la);
        }
        assert(la == lb);
        let a2 = a.drop_last();
        let b2 = b.drop_last();
        assert(a =~= a2.push(la));
        assert(b =~= b2.push(lb));
        assert forall|v: u32| a2.to_set().contains(v) <==> b2.to_set().contains(v) by {
            if a2.to_set().contains(v) {
                assert(a2.contains(v));
                let i = choose|i: int| 0 <= i < a2.len() && a2[i] == v;
                assert(a[i] < la);
                assert(b.to_set().contains(v)) by { assert(a.contains(v)); assert(a.to_set().contains(v)); }
                assert(b.contains(v));
                let j = choose|j: int| 0 <= j < b.len() && b[j] == v;
                assert(j != b.len() - 1);
                assert(b2[j] == v);
                assert(b2.contains(v));
            }
            if b2.to_set().contains(v) {
                assert(b2.contains(v));
                let i = choose|i: int| 0 <= i < b2.len() && b2[i] == v;
                assert(b[i] < lb);
                assert(a.to_set().contains(v)) by { assert(b.contains(v)); assert(b.to_set().contains(v)); }
                assert(a.contains(v));
                let j = choose|j: int| 0 <= j < a.len() && a[j] == v;
                assert(j != a.len() - 1);
                assert(a2[j] == v);
                assert(a2.contains(v));
            }
        }
        assert(a2.to_set() =~= b2.to_set());
        lemma_strictly_ascending_unique(a2, b2);
    }
}

/// The distinct sizes, ascending: strictly ascending and holding exactly the
/// values of the input.
pub proof fn lemma_distinct_asc(s: Seq<u32>)
    ensures
        strictly_ascending(distinct_asc(s)),
        distinct_asc(s).to_set() == s.to_set(),
{
    lemma_sort_asc_props(s);
    lemma_dedup_props(sort_asc(s));
    assert(sort_asc(s).to_set() =~= s.to_set()) by {
        assert forall|v: u32| sort_asc(s).to_set().contains(v) <==> s.to_set().contains(v) by {
            vstd::seq_lib::to_multiset_contains(sort_asc(s), v);
            vstd::seq_lib::to_multiset_contains(s, v);
        }
    }
}

/// The order and repetition of the requested sizes do not change what is kept
/// and dropped: only the set of sizes matters.
pub proof fn lemma_fit_sizes_set_only(s1: Seq<u32>, s2: Seq<u32>)
    requires
        s1.to_set() == s2.to_set(),
    ensures
        spec_fit(distinct_asc(s1)) == spec_fit(distinct_asc(s2)),
{
    lemma_distinct_asc(s1);
    lemma_distinct_asc(s2);
    lemma_strictly_ascending_unique(distinct_asc(s1), distinct_asc(s2));
}

/// A larger image never takes fewer bytes.
pub proof fn lemma_image_len_monotone(x: nat, y: nat)
    requires
        x <= y,
    ensures
        image_len(x) <= image_len(y),
{
    vstd::arithmetic::div_mod::lemma_div_is_ordered((x + 31) as int, (y + 31) as int, 32);
    let sx = crate::ico::spec_and_stride(x);
    let sy = crate::ico::spec_and_stride(y);
    assert(sx <= sy);
    assert(x * x * 4 <= y * y * 4) by (nonlinear_arith) requires x <= y;
    assert(sx * x <= sy * y) by (nonlinear_arith) requires x <= y, sx <= sy, 0 <= sx;
}

proof fn lemma_frame_push(k: Seq<u32>, x: u32)
    ensures
        spec_frame_bytes(k.push(x)) == spec_frame_bytes(k) + 16 + image_len(x as nat),
{
    assert(k.push(x).drop_last() =~= k);
}

/// The budget, applied to ascending sizes: the kept sizes followed by the dropped
/// ones are the input, so what is kept is the smallest sizes; at least one is
/// kept; and a frame of more than one kept size stays within the budget.
pub proof fn lemma_fit_budget(u: Seq<u32>)
    requires
        ascending(u),
    ensures
        spec_fit(u).0 + spec_fit(u).1 == u,
        u.len() > 0 ==> spec_fit(u).0.len() > 0,
        spec_fit(u).0.len() <= 1 || spec_frame_bytes(spec_fit(u).0) <= MAX_FRAME_BYTES,
        spec_fit(u).1.len() > 0 ==> spec_fit(u).0.len() > 0 && spec_frame_bytes(
            spec_fit(u).0.push(spec_fit(u).1[0]),
        ) > MAX_FRAME_BYTES,
    decreases u.len(),
{
    if u.len() > 0 {
        let t = u.drop_last();
        assert(ascending(t));
        lemma_fit_budget(t);
        let (k, d) = spec_fit(t);
        let x = u.last();
        lemma_frame_push(k, x);
        if d.len() > 0 {
            assert(d[0] == t[k.len() as int]);
            assert(d[0] <= x);
            lemma_frame_push(k, d[0]);
            lemma_image_len_monotone(d[0] as nat, x as nat);
            assert(spec_frame_bytes(k.push(x)) > MAX_FRAME_BYTES);
            assert(spec_fit(u) == (k, d.push(x)));
            assert(k + d.push(x) =~= (k + d).push(x));
            assert(d.push(x)[0] == d[0]);
        } else {
            if k.len() == 0 || spec_frame_bytes(k.push(x)) <= MAX_FRAME_BYTES {
                assert(k.push(x) + d =~= (k + d).push(x));
            } else {
                assert(k + d.push(x) =~= (k + d).push(x));
            }
        }
        assert(u =~= t.push(x));
    }
}

} // verus!
