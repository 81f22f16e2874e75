//! From the pixels of a video's frames to the hash of each.

use crate::bits::{has_bit, lemma_set_bit, ones};
use crate::frames::distance;
use crate::ordering::{in_order, lemma_same_members, sorted, Precedence};
use crate::seqs::lemma_push_contains;
use vstd::prelude::*;

verus! {

/// Side of a stored frame.
pub const SIDE: usize = 64;

/// Pixels of a stored frame.
pub const FRAME_STRIDE: usize = 4096;

/// Side of the thumbnail the frame hash is computed from.
pub const THUMB: usize = 16;

/// How many coefficients make a hash.
pub const COEFFICIENTS: usize = 64;

/// The frames of a video that differ from the one kept before them, when each was
/// shown, and what their pixels add up to.
pub struct FrameStack {
    pub frames: Vec<Vec<u8>>,
    pub times: Vec<Option<u32>>,
    pub sums: Vec<u64>,
    pub squares: Vec<u64>,
}

/// What one pixel adds up to over some frames.
pub open spec fn pixel_sum(frames: Seq<Vec<u8>>, i: int) -> nat
    decreases frames.len(),
{
    if frames.len() == 0 {
        0
    } else {
        pixel_sum(frames.drop_last(), i) + frames.last()@[i] as nat
    }
}

/// What the square of one pixel adds up to over some frames.
pub open spec fn pixel_squares(frames: Seq<Vec<u8>>, i: int) -> nat
    decreases frames.len(),
{
    if frames.len() == 0 {
        0
    } else {
        pixel_squares(frames.drop_last(), i) + (frames.last()@[i] * frames.last()@[i]) as nat
    }
}

proof fn lemma_sums_bounded(frames: Seq<Vec<u8>>, i: int)
    ensures
        pixel_sum(frames, i) <= 255 * frames.len(),
        pixel_squares(frames, i) <= 65025 * frames.len(),
    decreases frames.len(),
{
    if frames.len() > 0 {
        lemma_sums_bounded(frames.drop_last(), i);
        let v = frames.last()@[i];
        assert(v * v <= 65025) by (nonlinear_arith)
            requires
                v <= 255,
        ;
    }
}

impl FrameStack {
    /// Every frame is complete and timed, neighbours differ, and the sums are theirs.
    pub open spec fn is_valid(&self) -> bool {
        &&& self.frames@.len() == self.times@.len()
        &&& self.sums@.len() == FRAME_STRIDE
        &&& self.squares@.len() == FRAME_STRIDE
        &&& forall|k: int|
            0 <= k < self.frames@.len() ==> (#[trigger] self.frames@[k])@.len() == FRAME_STRIDE
        &&& forall|k: int|
            1 <= k < self.frames@.len() ==> (#[trigger] self.frames@[k])@ != self.frames@[k - 1]@
        &&& forall|i: int|
            0 <= i < FRAME_STRIDE ==> #[trigger] self.sums@[i] == pixel_sum(self.frames@, i)
        &&& forall|i: int|
            0 <= i < FRAME_STRIDE ==> #[trigger] self.squares@[i] == pixel_squares(self.frames@, i)
    }

    /// No frame yet.
    pub fn new() -> (stack: FrameStack)
        ensures
            stack.is_valid(),
            stack.frames@.len() == 0,
    {
        let mut sums: Vec<u64> = Vec::new();
        let mut squares: Vec<u64> = Vec::new();
        for i in 0..FRAME_STRIDE
            invariant
                sums@.len() == i,
                squares@.len() == i,
                forall|j: int| 0 <= j < i ==> #[trigger] sums@[j] == 0,
                forall|j: int| 0 <= j < i ==> #[trigger] squares@[j] == 0,
        {
            sums.push(0);
            squares.push(0);
        }
        FrameStack { frames: Vec::new(), times: Vec::new(), sums, squares }
    }

    /// Keep a frame, unless it is the same as the one kept before it.
    pub fn push(&mut self, frame: Vec<u8>, time: Option<u32>) -> (kept: bool)
        requires
            old(self).is_valid(),
            frame@.len() == FRAME_STRIDE,
            old(self).frames@.len() < u32::MAX,
        ensures
            final(self).is_valid(),
            kept <==> old(self).frames@.len() == 0 || old(self).frames@.last()@ != frame@,
            kept ==> final(self).frames@ == old(self).frames@.push(frame) && final(self).times@
                == old(self).times@.push(time),
            !kept ==> *final(self) == *old(self),
            is_offered(*old(self), frame, time, *final(self), kept),
    {
        let n = self.frames.len();
        if n > 0 && same_frame(&self.frames[n - 1], &frame) {
            return false;
        }
        let ghost before = *old(self);
        let ghost all = before.frames@.push(frame);
        for i in 0..FRAME_STRIDE
            invariant
                before.is_valid(),
                before.frames@.len() < u32::MAX,
                frame@.len() == FRAME_STRIDE,
                self.frames == before.frames,
                self.times == before.times,
                self.sums@.len() == FRAME_STRIDE,
                self.squares@.len() == FRAME_STRIDE,
                all == before.frames@.push(frame),
                forall|j: int| 0 <= j < i ==> #[trigger] self.sums@[j] == pixel_sum(all, j),
                forall|j: int| 0 <= j < i ==> #[trigger] self.squares@[j] == pixel_squares(all, j),
                forall|j: int|
                    i <= j < FRAME_STRIDE ==> #[trigger] self.sums@[j] == before.sums@[j],
                forall|j: int|
                    i <= j < FRAME_STRIDE ==> #[trigger] self.squares@[j] == before.squares@[j],
        {
            let v: u64 = frame[i] as u64;
            proof {
                assert(all.drop_last() =~= before.frames@);
                lemma_sums_bounded(before.frames@, i as int);
                assert(v * v <= 65025) by (nonlinear_arith)
                    requires
                        v <= 255,
                ;
            }
            let sum: u64 = self.sums[i] + v;
            let square: u64 = self.squares[i] + v * v;
            self.sums.set(i, sum);
            self.squares.set(i, square);
        }
        self.frames.push(frame);
        self.times.push(time);
        true
    }
}

/// Whether this is what comes of offering a frame to a stack: it is kept at the end, with
/// its time, or the stack stays as it is.
pub open spec fn is_offered(
    before: FrameStack,
    frame: Vec<u8>,
    time: Option<u32>,
    after: FrameStack,
    kept: bool,
) -> bool {
    &&& kept <==> before.frames@.len() == 0 || before.frames@.last()@ != frame@
    &&& kept ==> after.frames@ == before.frames@.push(frame) && after.times@ == before.times@.push(
        time,
    )
    &&& !kept ==> after == before
}

/// Whether two frames are the same.
fn same_frame(a: &Vec<u8>, b: &Vec<u8>) -> (yes: bool)
    requires
        a@.len() == FRAME_STRIDE,
        b@.len() == FRAME_STRIDE,
    ensures
        yes <==> a@ == b@,
{
    for i in 0..FRAME_STRIDE
        invariant
            a@.len() == FRAME_STRIDE,
            b@.len() == FRAME_STRIDE,
            forall|j: int| 0 <= j < i ==> #[trigger] a@[j] == b@[j],
    {
        if a[i] != b[i] {
            return false;
        }
    }
    assert(a@ =~= b@);
    true
}

/// The part of the frame that the picture moves in, ends included.
#[derive(Clone, Copy, Debug, PartialEq, Eq, Structural)]
pub struct Crop {
    pub top: usize,
    pub bottom: usize,
    pub left: usize,
    pub right: usize,
}

/// Whether a pixel varies over the frames: its variance is above two.
pub open spec fn is_busy(sums: Seq<u64>, squares: Seq<u64>, n: nat, i: int) -> bool {
    n * squares[i] - sums[i] * sums[i] > 2 * n * n
}

/// Whether some pixel of a row varies.
pub open spec fn is_busy_row(sums: Seq<u64>, squares: Seq<u64>, n: nat, y: int) -> bool {
    exists|x: int| 0 <= x < SIDE && #[trigger] is_busy_at(sums, squares, n, y, x)
}

/// Whether some pixel of a column varies.
pub open spec fn is_busy_column(sums: Seq<u64>, squares: Seq<u64>, n: nat, x: int) -> bool {
    exists|y: int| 0 <= y < SIDE && #[trigger] is_busy_at(sums, squares, n, y, x)
}

/// Whether the pixel of a row and a column varies.
pub open spec fn is_busy_at(sums: Seq<u64>, squares: Seq<u64>, n: nat, y: int, x: int) -> bool {
    is_busy(sums, squares, n, y * SIDE + x)
}

/// The first and the last of the marked lines.
pub open spec fn are_ends(marks: Seq<bool>, first: int, last: int) -> bool {
    &&& 0 <= first <= last < marks.len()
    &&& marks[first]
    &&& marks[last]
    &&& forall|i: int| 0 <= i < first ==> !#[trigger] marks[i]
    &&& forall|i: int| last < i < marks.len() ==> !#[trigger] marks[i]
}

/// One line in from an end, unless the end is the frame's own.
pub open spec fn inset(first: int, last: int) -> (int, int) {
    (
        if first > 0 {
            first + 1
        } else {
            first
        },
        if last < SIDE - 1 {
            last - 1
        } else {
            last
        },
    )
}

/// What the frame is cropped to: the lines that vary, one in from each end, where they
/// span at least sixteen both ways. The whole frame otherwise.
pub open spec fn is_crop(rows: Seq<bool>, columns: Seq<bool>, c: Crop) -> bool {
    ||| exists|a: int, b: int, d: int, e: int|
        #[trigger] are_ends(rows, a, b) && #[trigger] are_ends(columns, d, e) && b - a + 1 >= THUMB
            && e - d + 1 >= THUMB && (c.top as int, c.bottom as int) == inset(a, b) && (
            c.left as int,
            c.right as int,
        ) == inset(d, e)
    ||| is_narrow(rows, columns) && c == (Crop { top: 0, bottom: 63, left: 0, right: 63 })
}

/// Whether too little varies to crop by.
pub open spec fn is_narrow(rows: Seq<bool>, columns: Seq<bool>) -> bool {
    forall|a: int, b: int, d: int, e: int|
        !(#[trigger] are_ends(rows, a, b) && #[trigger] are_ends(columns, d, e) && b - a + 1
            >= THUMB && e - d + 1 >= THUMB)
}

/// The rows and columns that vary.
pub open spec fn are_busy_lines(
    sums: Seq<u64>,
    squares: Seq<u64>,
    n: nat,
    rows: Seq<bool>,
    columns: Seq<bool>,
) -> bool {
    &&& rows.len() == SIDE
    &&& columns.len() == SIDE
    &&& forall|y: int|
        0 <= y < SIDE ==> (#[trigger] rows[y] <==> is_busy_row(sums, squares, n, y))
    &&& forall|x: int|
        0 <= x < SIDE ==> (#[trigger] columns[x] <==> is_busy_column(sums, squares, n, x))
}

/// The first and the last marked line, where there is one.
fn ends(marks: &Vec<bool>) -> (out: Option<(usize, usize)>)
    ensures
        out matches Some(e) ==> are_ends(marks@, e.0 as int, e.1 as int),
        out is None ==> forall|i: int| 0 <= i < marks@.len() ==> !#[trigger] marks@[i],
{
    let n = marks.len();
    let mut first: usize = 0;
    while first < n && !marks[first]
        invariant
            n == marks@.len(),
            first <= n,
            forall|i: int| 0 <= i < first ==> !#[trigger] marks@[i],
        decreases n - first,
    {
        first = first + 1;
    }
    if first == n {
        return None;
    }
    let mut last: usize = n - 1;
    while !marks[last]
        invariant
            n == marks@.len(),
            first <= last < n,
            marks@[first as int],
            forall|i: int| last < i < n ==> !#[trigger] marks@[i],
        decreases last,
    {
        last = last - 1;
    }
    Some((first, last))
}

proof fn lemma_one_pair_of_ends(marks: Seq<bool>, a: int, b: int, c: int, d: int)
    requires
        are_ends(marks, a, b),
        are_ends(marks, c, d),
    ensures
        a == c,
        b == d,
{
    if a < c {
        assert(marks[a]);
    }
    if c < a {
        assert(marks[c]);
    }
    if b < d {
        assert(marks[d]);
    }
    if d < b {
        assert(marks[b]);
    }
}

/// Find the part of the frame that the picture moves in, leaving out borders that
/// never change.
pub fn auto_crop(stack: &FrameStack) -> (crop: Crop)
    requires
        stack.is_valid(),
        stack.frames@.len() <= u32::MAX,
    ensures
        exists|rows: Seq<bool>, columns: Seq<bool>|
            #[trigger] are_busy_lines(
                stack.sums@,
                stack.squares@,
                stack.frames@.len(),
                rows,
                columns,
            ) && is_crop(rows, columns, crop),
        crop.top + 13 <= crop.bottom < SIDE,
        crop.left + 13 <= crop.right < SIDE,
{
    let n: u128 = stack.frames.len() as u128;
    let ghost sums = stack.sums@;
    let ghost squares = stack.squares@;
    let ghost count = stack.frames@.len();
    let mut rows: Vec<bool> = Vec::new();
    let mut columns: Vec<bool> = Vec::new();
    for i in 0..SIDE
        invariant
            rows@.len() == i,
            columns@.len() == i,
            forall|j: int| 0 <= j < i ==> !#[trigger] rows@[j],
            forall|j: int| 0 <= j < i ==> !#[trigger] columns@[j],
    {
        rows.push(false);
        columns.push(false);
    }
    for y in 0..SIDE
        invariant
            stack.is_valid(),
            n == stack.frames@.len(),
            n <= u32::MAX,
            count == stack.frames@.len(),
            sums == stack.sums@,
            squares == stack.squares@,
            rows@.len() == SIDE,
            columns@.len() == SIDE,
            forall|j: int|
                0 <= j < y ==> (#[trigger] rows@[j] <==> is_busy_row(sums, squares, count, j)),
            forall|j: int| y <= j < SIDE ==> !#[trigger] rows@[j],
            forall|x: int|
                0 <= x < SIDE ==> (#[trigger] columns@[x] <==> exists|j: int|
                    0 <= j < y && #[trigger] is_busy_at(sums, squares, count, j, x)),
    {
        let ghost before = columns@;
        for x in 0..SIDE
            invariant
                stack.is_valid(),
                n == stack.frames@.len(),
                n <= u32::MAX,
                count == stack.frames@.len(),
                sums == stack.sums@,
                squares == stack.squares@,
                y < SIDE,
                rows@.len() == SIDE,
                columns@.len() == SIDE,
                forall|j: int|
                    0 <= j < y ==> (#[trigger] rows@[j] <==> is_busy_row(sums, squares, count, j)),
                forall|j: int| y < j < SIDE ==> !#[trigger] rows@[j],
                rows@[y as int] <==> exists|k: int|
                    0 <= k < x && #[trigger] is_busy_at(sums, squares, count, y as int, k),
                before.len() == SIDE,
                forall|k: int| x <= k < SIDE ==> #[trigger] columns@[k] == before[k],
                forall|k: int|
                    0 <= k < x ==> (#[trigger] columns@[k] <==> before[k] || is_busy_at(
                        sums,
                        squares,
                        count,
                        y as int,
                        k,
                    )),
        {
            let i: usize = y * SIDE + x;
            let s: u128 = stack.sums[i] as u128;
            let q: u128 = stack.squares[i] as u128;
            proof {
                lemma_sums_bounded(stack.frames@, i as int);
                assert(stack.sums@[i as int] == pixel_sum(stack.frames@, i as int));
                assert(stack.squares@[i as int] == pixel_squares(stack.frames@, i as int));
                assert(n * q <= 0xfe01_0000_0000_0000_0000 && s * s
                    <= 0xfe01_0000_0000_0000_0000 && n * n <= 0x1_0000_0000_0000_0000) by (nonlinear_arith)
                    requires
                        n <= 0xffff_ffff,
                        q <= 65025 * n,
                        s <= 255 * n,
                ;
                assert(2 * count * count == 2 * (n * n)) by (nonlinear_arith)
                    requires
                        count == n,
                ;
            }
            if n * q > s * s + 2 * (n * n) {
                assert(is_busy_at(sums, squares, count, y as int, x as int));
                rows.set(y, true);
                columns.set(x, true);
            } else {
                assert(!is_busy_at(sums, squares, count, y as int, x as int));
            }
        }
        proof {
            assert forall|x: int| 0 <= x < SIDE implies (#[trigger] columns@[x] <==> exists|j: int|
                0 <= j < y + 1 && #[trigger] is_busy_at(sums, squares, count, j, x)) by {
                assert(before[x] <==> exists|j: int|
                    0 <= j < y && #[trigger] is_busy_at(sums, squares, count, j, x));
                if before[x] {
                    let j = choose|j: int|
                        0 <= j < y && #[trigger] is_busy_at(sums, squares, count, j, x);
                    assert(is_busy_at(sums, squares, count, j, x) && j < y + 1);
                }
            }
        }
    }
    proof {
        assert(are_busy_lines(sums, squares, count, rows@, columns@));
    }
    let whole = Crop { top: 0, bottom: 63, left: 0, right: 63 };
    let crop = match (ends(&rows), ends(&columns)) {
        (Some((a, b)), Some((d, e))) => {
            if b - a + 1 >= THUMB && e - d + 1 >= THUMB {
                let c = Crop {
                    top: if a > 0 {
                        a + 1
                    } else {
                        a
                    },
                    bottom: if b < SIDE - 1 {
                        b - 1
                    } else {
                        b
                    },
                    left: if d > 0 {
                        d + 1
                    } else {
                        d
                    },
                    right: if e < SIDE - 1 {
                        e - 1
                    } else {
                        e
                    },
                };
                assert(are_ends(rows@, a as int, b as int));
                assert(are_ends(columns@, d as int, e as int));
                assert(is_crop(rows@, columns@, c));
                c
            } else {
                proof {
                    assert forall|a1: int, b1: int, d1: int, e1: int|
                        !(#[trigger] are_ends(rows@, a1, b1) && #[trigger] are_ends(
                            columns@,
                            d1,
                            e1,
                        ) && b1 - a1 + 1 >= THUMB && e1 - d1 + 1 >= THUMB) by {
                        if are_ends(rows@, a1, b1) && are_ends(columns@, d1, e1) {
                            lemma_one_pair_of_ends(rows@, a as int, b as int, a1, b1);
                            lemma_one_pair_of_ends(columns@, d as int, e as int, d1, e1);
                        }
                    }
                }
                whole
            }
        },
        _ => whole,
    };
    assert(is_crop(rows@, columns@, crop));
    crop
}

/// How much of source pixel `s` falls on output sample `o`, in sixteenths, where
/// sixteen samples cover `len` pixels.
pub open spec fn share_of(o: int, s: int, len: int) -> int {
    let from = if o * len > 16 * s {
        o * len
    } else {
        16 * s
    };
    let to = if (o + 1) * len < 16 * (s + 1) {
        (o + 1) * len
    } else {
        16 * (s + 1)
    };
    if to > from {
        to - from
    } else {
        0
    }
}

/// What the first `n` pixels of a column give to one sample of rows.
pub open spec fn column_part(frame: Seq<u8>, c: Crop, oy: int, x: int, n: int) -> int
    decreases n,
{
    if n <= 0 {
        0
    } else {
        column_part(frame, c, oy, x, n - 1) + share_of(oy, n - 1, c.bottom - c.top + 1)
            * frame[(c.top + n - 1) * SIDE + x]
    }
}

/// What a column gives to one sample of rows.
pub open spec fn column_value(frame: Seq<u8>, c: Crop, oy: int, x: int) -> int {
    column_part(frame, c, oy, x, c.bottom - c.top + 1)
}

/// What the first `n` columns give to one sample.
pub open spec fn sample_part(frame: Seq<u8>, c: Crop, oy: int, ox: int, n: int) -> int
    decreases n,
{
    if n <= 0 {
        0
    } else {
        sample_part(frame, c, oy, ox, n - 1) + share_of(ox, n - 1, c.right - c.left + 1)
            * column_value(frame, c, oy, c.left + n - 1)
    }
}

/// One sample of the thumbnail, times the number of pixels of the crop: the average of
/// the pixels it covers, those at its edges in part.
pub open spec fn sample_value(frame: Seq<u8>, c: Crop, oy: int, ox: int) -> int {
    sample_part(frame, c, oy, ox, c.right - c.left + 1)
}

fn share(o: usize, s: usize, len: usize) -> (part: u32)
    requires
        o < THUMB,
        s < SIDE,
        len <= SIDE,
    ensures
        part == share_of(o as int, s as int, len as int),
        part <= 16,
{
    proof {
        assert(0 <= o * len <= 16 * 64 && 0 <= (o + 1) * len <= 16 * 64) by (nonlinear_arith)
            requires
                0 <= o < 16,
                0 <= len <= 64,
        ;
    }
    let from: usize = if o * len > 16 * s {
        o * len
    } else {
        16 * s
    };
    let to: usize = if (o + 1) * len < 16 * (s + 1) {
        (o + 1) * len
    } else {
        16 * (s + 1)
    };
    if to > from {
        (to - from) as u32
    } else {
        0
    }
}

/// Whether a crop lies within the frame.
pub open spec fn fits(c: Crop) -> bool {
    c.top <= c.bottom < SIDE && c.left <= c.right < SIDE
}

/// One column of the crop, averaged down to one sample of rows.
fn column(frame: &Vec<u8>, c: Crop, oy: usize, x: usize) -> (sum: u32)
    requires
        frame@.len() == FRAME_STRIDE,
        fits(c),
        oy < THUMB,
        x < SIDE,
    ensures
        sum == column_value(frame@, c, oy as int, x as int),
        sum <= 261120,
{
    let len: usize = c.bottom - c.top + 1;
    let mut sum: u32 = 0;
    for s in 0..len
        invariant
            frame@.len() == FRAME_STRIDE,
            fits(c),
            oy < THUMB,
            x < SIDE,
            len == c.bottom - c.top + 1,
            sum == column_part(frame@, c, oy as int, x as int, s as int),
            sum <= 4080 * s,
    {
        let w = share(oy, s, len);
        let v: u32 = frame[(c.top + s) * SIDE + x] as u32;
        assert(w * v <= 4080) by (nonlinear_arith)
            requires
                w <= 16,
                v <= 255,
        ;
        sum = sum + w * v;
    }
    sum
}

/// Whether these are the samples of a cropped frame, row by row.
pub open spec fn is_thumbnail(frame: Seq<u8>, c: Crop, thumb: Seq<u32>) -> bool {
    &&& thumb.len() == THUMB * THUMB
    &&& forall|oy: int, ox: int|
        0 <= oy < THUMB && 0 <= ox < THUMB ==> #[trigger] sample_value(frame, c, oy, ox)
            == thumb[oy * THUMB + ox]
}

/// Box-filter the cropped part of a frame down to the thumbnail. Each sample is the
/// average of the pixels it covers, times the number of pixels of the crop.
pub fn resample(frame: &Vec<u8>, c: Crop) -> (thumb: Vec<u32>)
    requires
        frame@.len() == FRAME_STRIDE,
        fits(c),
    ensures
        thumb@.len() == THUMB * THUMB,
        forall|oy: int, ox: int|
            0 <= oy < THUMB && 0 <= ox < THUMB ==> #[trigger] sample_value(frame@, c, oy, ox)
                == thumb@[oy * THUMB + ox],
        is_thumbnail(frame@, c, thumb@),
{
    let len: usize = c.right - c.left + 1;
    let mut thumb: Vec<u32> = Vec::new();
    for oy in 0..THUMB
        invariant
            frame@.len() == FRAME_STRIDE,
            fits(c),
            len == c.right - c.left + 1,
            thumb@.len() == oy * THUMB,
            forall|py: int, px: int|
                0 <= py < oy && 0 <= px < THUMB ==> #[trigger] sample_value(frame@, c, py, px)
                    == thumb@[py * THUMB + px],
    {
        let mut band: Vec<u32> = Vec::new();
        for s in 0..len
            invariant
                frame@.len() == FRAME_STRIDE,
                fits(c),
                oy < THUMB,
                len == c.right - c.left + 1,
                band@.len() == s,
                forall|k: int|
                    0 <= k < s ==> #[trigger] band@[k] == column_value(
                        frame@,
                        c,
                        oy as int,
                        c.left + k,
                    ) && band@[k] <= 261120,
        {
            band.push(column(frame, c, oy, c.left + s));
        }
        for ox in 0..THUMB
            invariant
                frame@.len() == FRAME_STRIDE,
                fits(c),
                oy < THUMB,
                len == c.right - c.left + 1,
                band@.len() == len,
                forall|k: int|
                    0 <= k < len ==> #[trigger] band@[k] == column_value(
                        frame@,
                        c,
                        oy as int,
                        c.left + k,
                    ) && band@[k] <= 261120,
                thumb@.len() == oy * THUMB + ox,
                forall|py: int, px: int|
                    0 <= py < oy && 0 <= px < THUMB ==> #[trigger] sample_value(frame@, c, py, px)
                        == thumb@[py * THUMB + px],
                forall|px: int|
                    0 <= px < ox ==> #[trigger] sample_value(frame@, c, oy as int, px)
                        == thumb@[oy * THUMB + px],
        {
            let mut sum: u32 = 0;
            for s in 0..len
                invariant
                    fits(c),
                    ox < THUMB,
                    len == c.right - c.left + 1,
                    band@.len() == len,
                    forall|k: int|
                        0 <= k < len ==> #[trigger] band@[k] == column_value(
                            frame@,
                            c,
                            oy as int,
                            c.left + k,
                        ) && band@[k] <= 261120,
                    sum == sample_part(frame@, c, oy as int, ox as int, s as int),
                    sum <= 4177920 * s,
            {
                let w = share(ox, s, len);
                let v = band[s];
                assert(band@[s as int] == column_value(frame@, c, oy as int, c.left + s));
                assert(w * v <= 4177920) by (nonlinear_arith)
                    requires
                        w <= 16,
                        v <= 261120,
                ;
                sum = sum + w * v;
            }
            let ghost before = thumb@;
            thumb.push(sum);
        }
    }
    thumb
}

/// What the first `n` pixels give to a sample together.
pub open spec fn shares_upto(o: int, len: int, n: int) -> int
    decreases n,
{
    if n <= 0 {
        0
    } else {
        shares_upto(o, len, n - 1) + share_of(o, n - 1, len)
    }
}

spec fn least(a: int, b: int) -> int {
    if a < b {
        a
    } else {
        b
    }
}

proof fn lemma_shares_upto(o: int, len: int, n: int)
    requires
        0 <= o < 16,
        0 < len,
        0 <= n,
    ensures
        shares_upto(o, len, n) == least((o + 1) * len, 16 * n) - least(o * len, 16 * n),
    decreases n,
{
    assert((o + 1) * len == o * len + len && 0 <= o * len) by (nonlinear_arith)
        requires
            0 <= o,
            0 < len,
    ;
    if n > 0 {
        lemma_shares_upto(o, len, n - 1);
    }
}

/// The pixels of a sample share it out exactly: it is an average.
pub proof fn lemma_a_sample_is_an_average(o: int, len: int)
    requires
        0 <= o < THUMB,
        0 < len,
    ensures
        shares_upto(o, len, len) == len,
{
    lemma_shares_upto(o, len, len);
    assert(0 <= o * len && o * len <= 16 * len && (o + 1) * len <= 16 * len && (o + 1) * len == o
        * len + len) by (nonlinear_arith)
        requires
            0 <= o < 16,
            0 < len,
    ;
}

proof fn lemma_even_column(frame: Seq<u8>, c: Crop, v: u8, oy: int, x: int, n: int)
    requires
        fits(c),
        frame.len() == FRAME_STRIDE,
        forall|i: int| 0 <= i < frame.len() ==> #[trigger] frame[i] == v,
        0 <= n <= c.bottom - c.top + 1,
        0 <= x < SIDE,
    ensures
        column_part(frame, c, oy, x, n) == shares_upto(oy, c.bottom - c.top + 1, n) * v,
    decreases n,
{
    if n > 0 {
        let len = c.bottom - c.top + 1;
        lemma_even_column(frame, c, v, oy, x, n - 1);
        assert(frame[(c.top + n - 1) * SIDE + x] == v);
        let a = shares_upto(oy, len, n - 1);
        let b = share_of(oy, n - 1, len);
        assert((a + b) * v == a * v + b * v) by (nonlinear_arith);
    }
}

proof fn lemma_even_sample(frame: Seq<u8>, c: Crop, v: u8, oy: int, ox: int, n: int)
    requires
        fits(c),
        frame.len() == FRAME_STRIDE,
        forall|i: int| 0 <= i < frame.len() ==> #[trigger] frame[i] == v,
        0 <= n <= c.right - c.left + 1,
        0 <= oy < THUMB,
    ensures
        sample_part(frame, c, oy, ox, n) == shares_upto(ox, c.right - c.left + 1, n) * ((c.bottom
            - c.top + 1) * v),
    decreases n,
{
    if n > 0 {
        let len = c.right - c.left + 1;
        let h = c.bottom - c.top + 1;
        lemma_even_sample(frame, c, v, oy, ox, n - 1);
        lemma_even_column(frame, c, v, oy, c.left + n - 1, h);
        lemma_a_sample_is_an_average(oy, h);
        let a = shares_upto(ox, len, n - 1);
        let b = share_of(ox, n - 1, len);
        let m = h * v;
        assert((a + b) * m == a * m + b * m) by (nonlinear_arith);
    }
}

/// A frame of one colour has a thumbnail of that colour, however it is cropped.
pub proof fn lemma_an_even_frame_stays_even(frame: Seq<u8>, c: Crop, v: u8, oy: int, ox: int)
    requires
        fits(c),
        frame.len() == FRAME_STRIDE,
        forall|i: int| 0 <= i < frame.len() ==> #[trigger] frame[i] == v,
        0 <= oy < THUMB,
        0 <= ox < THUMB,
    ensures
        sample_value(frame, c, oy, ox) == (c.right - c.left + 1) * ((c.bottom - c.top + 1) * v),
{
    let len = c.right - c.left + 1;
    lemma_even_sample(frame, c, v, oy, ox, len);
    lemma_a_sample_is_an_average(ox, len);
}

/// Whether one coefficient comes ahead of another: it is larger, or it is equal and
/// stands first.
pub open spec fn outranks(list: Seq<i32>, j: usize, i: usize) -> bool {
    list[j as int] > list[i as int] || (list[j as int] == list[i as int] && j < i)
}

/// The coefficients that come ahead of one.
pub open spec fn ahead(list: Seq<i32>, i: usize) -> Set<usize> {
    Set::new(|j: usize| j < list.len() && outranks(list, j, i))
}

/// Whether a coefficient is in the upper half of all of them: fewer than half come
/// ahead of it.
pub open spec fn is_above(list: Seq<i32>, i: int) -> bool {
    ahead(list, i as usize).len() < COEFFICIENTS / 2
}

/// Whether a hash has one bit for each coefficient, the first one highest, that is in
/// the upper half of them all: exactly half of its bits.
pub open spec fn is_hash(list: Seq<i32>, hash: u64) -> bool {
    &&& forall|i: int|
        0 <= i < COEFFICIENTS ==> (#[trigger] is_above(list, i) <==> has_bit(
            hash,
            (63 - i) as u64,
        ))
    &&& ones(hash) == COEFFICIENTS / 2
}

/// Coefficients by their rank, the highest first.
pub struct ByRank<'a> {
    pub list: &'a Vec<i32>,
}

impl<'a> Precedence<usize> for ByRank<'a> {
    open spec fn le(&self, a: usize, b: usize) -> bool {
        a == b || outranks(self.list@, a, b)
    }

    open spec fn knows(&self, a: usize) -> bool {
        a < self.list@.len()
    }

    proof fn le_is_total(&self, a: usize, b: usize) {
    }

    proof fn le_is_transitive(&self, a: usize, b: usize, c: usize) {
    }

    fn precedes(&self, a: &usize, b: &usize) -> (yes: bool) {
        let x = self.list[*a];
        let y = self.list[*b];
        x > y || (x == y && *a <= *b)
    }
}

/// In a ranking, as many come ahead of an item as stand before it.
proof fn lemma_place(list: &Vec<i32>, order: Seq<usize>, at: int)
    requires
        in_order(order, &ByRank { list }),
        order.no_duplicates(),
        0 <= at < order.len(),
        forall|v: usize| order.contains(v) <==> v < list@.len(),
    ensures
        ahead(list@, order[at]).len() == at,
{
    let first = order.take(at);
    let i = order[at];
    assert forall|j: usize| ahead(list@, i).contains(j) <==> first.to_set().contains(j) by {
        if ahead(list@, i).contains(j) {
            assert(order.contains(j));
            let q = choose|q: int| 0 <= q < order.len() && order[q] == j;
            if q > at {
                assert((ByRank { list }).le(order[at], order[q]));
            }
            assert(q < at);
            assert(first[q] == j);
        }
        if first.to_set().contains(j) {
            let q = choose|q: int| 0 <= q < first.len() && first[q] == j;
            assert(order[q] == j);
            assert(order.contains(j));
            assert((ByRank { list }).le(order[q], order[at]));
        }
    }
    assert(ahead(list@, i) =~= first.to_set());
    first.unique_seq_to_set();
}

/// One bit per coefficient, the first one highest: is it among the higher half?
///
/// The coefficients are given by their order alone. Of equal ones, the first comes
/// first, so that the number of bits set is the same whatever the frame shows.
pub fn hash_of(coefficients: &Vec<i32>) -> (hash: u64)
    requires
        coefficients@.len() == COEFFICIENTS,
    ensures
        is_hash(coefficients@, hash),
{
    let by_rank = ByRank { list: coefficients };
    let mut places: Vec<usize> = Vec::new();
    for i in 0..COEFFICIENTS
        invariant
            places@.len() == i,
            forall|j: int| 0 <= j < i ==> #[trigger] places@[j] == j,
    {
        places.push(i);
    }
    let order = sorted(&places, &by_rank);
    proof {
        assert(places@.no_duplicates());
        lemma_same_members(order@, places@);
        assert forall|v: usize| order@.contains(v) <==> v < coefficients@.len() by {
            if v < 64 {
                assert(places@[v as int] == v);
            }
        }
    }
    let mut hash: u64 = 0;
    proof {
        assert forall|v: u64| v < 64 implies !#[trigger] has_bit(0, v) by {
            assert((0u64 >> v) & 1 != 1) by (bit_vector)
                requires
                    v < 64,
            ;
        }
    }
    for k in 0..COEFFICIENTS / 2
        invariant
            order@.len() == COEFFICIENTS,
            order@.no_duplicates(),
            forall|q: int| 0 <= q < COEFFICIENTS ==> #[trigger] order@[q] < COEFFICIENTS,
            forall|v: u64|
                v < 64 ==> (#[trigger] has_bit(hash, v) <==> order@.take(k as int).contains(
                    (63 - v) as usize,
                )),
            ones(hash) == k,
    {
        let place: u64 = 63 - order[k] as u64;
        let ghost before = hash;
        hash = hash | (1u64 << place);
        proof {
            let less = order@.take(k as int);
            let more = order@.take(k + 1);
            if has_bit(before, place) {
                let q = choose|q: int| 0 <= q < less.len() && less[q] == order@[k as int];
                assert(order@[q] == order@[k as int]);
            }
            lemma_set_bit(before, place);
            assert(more =~= less.push(order@[k as int]));
            lemma_push_contains(less, order@[k as int]);
        }
    }
    proof {
        assert forall|i: int| 0 <= i < COEFFICIENTS implies (#[trigger] is_above(coefficients@, i)
            <==> has_bit(hash, (63 - i) as u64)) by {
            let v = (63 - i) as u64;
            assert((63 - v) as usize == i);
            let top = order@.take(32);
            assert(order@.contains(i as usize));
            let at = choose|at: int| 0 <= at < order@.len() && order@[at] == i as usize;
            lemma_place(coefficients, order@, at);
            if at < 32 {
                assert(top[at] == i as usize);
            }
            if top.contains(i as usize) {
                let q = choose|q: int| 0 <= q < top.len() && top[q] == i as usize;
                assert(order@[q] == order@[at]);
            }
            assert(has_bit(hash, v) <==> top.contains((63 - v) as usize));
        }
    }
    hash
}

/// Where a level parts the coefficients in two halves, the bits set are those above it.
pub proof fn lemma_a_hash_is_a_median_split(list: Seq<i32>, level: int, i: usize)
    requires
        list.len() == COEFFICIENTS,
        i < COEFFICIENTS,
        Set::new(|j: usize| j < list.len() && list[j as int] > level).len() == COEFFICIENTS / 2,
    ensures
        is_above(list, i as int) <==> list[i as int] > level,
{
    let high = Set::new(|j: usize| j < list.len() && list[j as int] > level);
    let front = ahead(list, i);
    let all = Seq::new(COEFFICIENTS as nat, |k: int| k as usize);
    assert forall|j: usize| j < COEFFICIENTS implies all.to_set().contains(j) by {
        assert(all[j as int] == j);
    }
    vstd::set_lib::lemma_len_subset(high, all.to_set());
    vstd::set_lib::lemma_len_subset(front, all.to_set());
    if list[i as int] > level {
        assert(high.contains(i));
        assert(front.subset_of(high.remove(i)));
        vstd::set_lib::lemma_len_subset(front, high.remove(i));
    } else {
        assert(high.subset_of(front));
        vstd::set_lib::lemma_len_subset(high, front);
    }
}

/// The bits that two numbers have between them and those they differ in are even.
pub proof fn lemma_parity(a: u64, b: u64)
    ensures
        (ones(a ^ b) + ones(a) + ones(b)) % 2 == 0,
    decreases a, b,
{
    let x = a ^ b;
    let y = (a / 2) ^ (b / 2);
    assert(x / 2 == y && (x % 2 + a % 2 + b % 2) % 2 == 0) by (bit_vector)
        requires
            x == a ^ b,
            y == (a / 2) ^ (b / 2),
    ;
    assert(ones(x) == x % 2 + ones(x / 2)) by {
        if x == 0 {
            assert(x / 2 == 0);
        }
    }
    assert(ones(a) == a % 2 + ones(a / 2)) by {
        if a == 0 {
            assert(a / 2 == 0);
        }
    }
    assert(ones(b) == b % 2 + ones(b / 2)) by {
        if b == 0 {
            assert(b / 2 == 0);
        }
    }
    if a > 0 || b > 0 {
        lemma_parity(a / 2, b / 2);
    }
}

/// Two hashes differ in an even number of places, whatever the frames show, so an odd
/// tolerance accepts exactly what the even one below it does.
pub proof fn lemma_only_even_distances_matter(
    first: Seq<i32>,
    second: Seq<i32>,
    a: u64,
    b: u64,
    d: nat,
)
    requires
        is_hash(first, a),
        is_hash(second, b),
    ensures
        distance(a, b) % 2 == 0,
        d % 2 == 1 ==> (distance(a, b) <= d <==> distance(a, b) <= d - 1),
{
    lemma_parity(a, b);
}

} // verus!
