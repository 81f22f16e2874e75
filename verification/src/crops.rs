//! What cropping a video and hashing a picture promise.

use crate::bits::{has_bit, ones};
use crate::picture::{
    ahead, are_busy_lines, are_ends, auto_crop, hash_of, inset, is_above, is_busy_at, is_crop,
    is_hash, is_narrow, is_offered, outranks, pixel_squares, pixel_sum, Crop, FrameStack,
};
use vstd::prelude::*;

verus! {

/// How far a value lies from each of some frames' values at one pixel: the squares of the
/// differences, added up.
pub open spec fn square_distance(frames: Seq<Vec<u8>>, i: int, v: int) -> int
    decreases frames.len(),
{
    if frames.len() == 0 {
        0
    } else {
        let u = frames.last()@[i] as int;
        square_distance(frames.drop_last(), i, v) + (u - v) * (u - v)
    }
}

/// How far the values of one pixel lie from each other: the squares of the differences
/// between every two frames, added up.
pub open spec fn spread(frames: Seq<Vec<u8>>, i: int) -> int
    decreases frames.len(),
{
    if frames.len() == 0 {
        0
    } else {
        spread(frames.drop_last(), i) + square_distance(
            frames.drop_last(),
            i,
            frames.last()@[i] as int,
        )
    }
}

/// Whether a pixel varies: the square of the difference between one frame and another, or
/// the same one again, is above four on average.
pub open spec fn varies(frames: Seq<Vec<u8>>, y: int, x: int) -> bool {
    spread(frames, y * 64 + x) > 2 * (frames.len() * frames.len())
}

proof fn lemma_square_distance(frames: Seq<Vec<u8>>, i: int, v: int)
    ensures
        square_distance(frames, i, v) == pixel_squares(frames, i) - 2 * v * pixel_sum(frames, i)
            + frames.len() * (v * v),
    decreases frames.len(),
{
    if frames.len() > 0 {
        let less = frames.drop_last();
        lemma_square_distance(less, i, v);
        let u = frames.last()@[i] as int;
        let (q, s, n) = (pixel_squares(less, i) as int, pixel_sum(less, i) as int, less.len() as int);
        assert(q - 2 * v * s + n * (v * v) + (u - v) * (u - v) == (q + u * u) - 2 * v * (s + u) + (n
            + 1) * (v * v)) by (nonlinear_arith);
        assert(frames.len() == n + 1);
    } else {
        assert(0 - 2 * v * 0 + 0 * (v * v) == 0) by (nonlinear_arith);
    }
}

proof fn lemma_spread(frames: Seq<Vec<u8>>, i: int)
    ensures
        spread(frames, i) == frames.len() * pixel_squares(frames, i) - pixel_sum(frames, i)
            * pixel_sum(frames, i),
    decreases frames.len(),
{
    if frames.len() > 0 {
        let less = frames.drop_last();
        lemma_spread(less, i);
        let v = frames.last()@[i] as int;
        lemma_square_distance(less, i, v);
        let (q, s, n) = (pixel_squares(less, i) as int, pixel_sum(less, i) as int, less.len() as int);
        assert(n * q - s * s + (q - 2 * v * s + n * (v * v)) == (n + 1) * (q + v * v) - (s + v) * (s
            + v)) by (nonlinear_arith);
        assert(frames.len() == n + 1);
    }
}

proof fn lemma_varies(stack: &FrameStack, y: int, x: int)
    requires
        stack.is_valid(),
        0 <= y < 64,
        0 <= x < 64,
    ensures
        is_busy_at(stack.sums@, stack.squares@, stack.frames@.len(), y, x) <==> varies(
            stack.frames@,
            y,
            x,
        ),
{
    let i = y * 64 + x;
    lemma_spread(stack.frames@, i);
    assert(stack.sums@[i] == pixel_sum(stack.frames@, i));
    assert(stack.squares@[i] == pixel_squares(stack.frames@, i));
    let n = stack.frames@.len();
    assert(2 * n * n == 2 * (n * n)) by (nonlinear_arith);
}

/// Whether nothing varies outside these rows and columns, and something does in the first
/// and the last of each.
pub open spec fn is_moving_part(
    frames: Seq<Vec<u8>>,
    top: int,
    bottom: int,
    left: int,
    right: int,
) -> bool {
    &&& 0 <= top <= bottom < 64
    &&& 0 <= left <= right < 64
    &&& exists|x: int| 0 <= x < 64 && #[trigger] varies(frames, top, x)
    &&& exists|x: int| 0 <= x < 64 && #[trigger] varies(frames, bottom, x)
    &&& exists|y: int| 0 <= y < 64 && #[trigger] varies(frames, y, left)
    &&& exists|y: int| 0 <= y < 64 && #[trigger] varies(frames, y, right)
    &&& forall|y: int, x: int|
        0 <= y < 64 && 0 <= x < 64 && #[trigger] varies(frames, y, x) ==> top <= y <= bottom && left
            <= x <= right
}

/// A video is cropped to the part of the frame that varies, a line further in wherever
/// that does not reach the edge of the frame. Where it spans fewer than sixteen lines
/// either way, the frame is taken whole.
pub proof fn lemma_a_crop_is_what_moves(
    stack: &FrameStack,
    c: Crop,
    top: int,
    bottom: int,
    left: int,
    right: int,
)
    requires
        call_ensures(auto_crop, (stack,), c),
        stack.is_valid(),
        is_moving_part(stack.frames@, top, bottom, left, right),
    ensures
        bottom - top >= 15 && right - left >= 15 ==> {
            &&& c.top == if top > 0 {
                top + 1
            } else {
                0
            }
            &&& c.bottom == if bottom < 63 {
                bottom - 1
            } else {
                63
            }
            &&& c.left == if left > 0 {
                left + 1
            } else {
                0
            }
            &&& c.right == if right < 63 {
                right - 1
            } else {
                63
            }
        },
        bottom - top < 15 || right - left < 15 ==> c.top == 0 && c.bottom == 63 && c.left == 0
            && c.right == 63,
{
    let frames = stack.frames@;
    let (rows, columns) = choose|rows: Seq<bool>, columns: Seq<bool>|
        #[trigger] are_busy_lines(stack.sums@, stack.squares@, frames.len(), rows, columns)
            && is_crop(rows, columns, c);
    lemma_busy_lines(stack, rows, columns);
    assert(are_ends(rows, top, bottom)) by {
        assert(rows[top] && rows[bottom]);
    }
    assert(are_ends(columns, left, right)) by {
        assert(columns[left] && columns[right]);
    }
    if exists|a: int, b: int, d: int, e: int|
        #[trigger] are_ends(rows, a, b) && #[trigger] are_ends(columns, d, e) && b - a + 1 >= 16
            && e - d + 1 >= 16 && (c.top as int, c.bottom as int) == inset(a, b) && (
            c.left as int,
            c.right as int,
        ) == inset(d, e) {
        let (a, b, d, e) = choose|a: int, b: int, d: int, e: int|
            #[trigger] are_ends(rows, a, b) && #[trigger] are_ends(columns, d, e) && b - a + 1 >= 16
                && e - d + 1 >= 16 && (c.top as int, c.bottom as int) == inset(a, b) && (
                c.left as int,
                c.right as int,
            ) == inset(d, e);
        lemma_the_ends(rows, a, b, top, bottom);
        lemma_the_ends(columns, d, e, left, right);
    } else {
        assert(is_narrow(rows, columns));
    }
}

proof fn lemma_the_ends(marks: Seq<bool>, a: int, b: int, c: int, d: int)
    requires
        are_ends(marks, a, b),
        are_ends(marks, c, d),
    ensures
        a == c,
        b == d,
{
    assert(marks[a] && marks[b] && marks[c] && marks[d]);
}

proof fn lemma_busy_lines(stack: &FrameStack, rows: Seq<bool>, columns: Seq<bool>)
    requires
        stack.is_valid(),
        are_busy_lines(stack.sums@, stack.squares@, stack.frames@.len(), rows, columns),
    ensures
        forall|y: int|
            0 <= y < 64 ==> (#[trigger] rows[y] <==> exists|x: int|
                0 <= x < 64 && #[trigger] varies(stack.frames@, y, x)),
        forall|x: int|
            0 <= x < 64 ==> (#[trigger] columns[x] <==> exists|y: int|
                0 <= y < 64 && #[trigger] varies(stack.frames@, y, x)),
{
    let (sums, squares, n) = (stack.sums@, stack.squares@, stack.frames@.len());
    assert forall|y: int, x: int|
        0 <= y < 64 && 0 <= x < 64 implies #[trigger] is_busy_at(sums, squares, n, y, x) == varies(
        stack.frames@,
        y,
        x,
    ) by {
        lemma_varies(stack, y, x);
    }
    assert forall|y: int, x: int|
        0 <= y < 64 && 0 <= x < 64 implies is_busy_at(sums, squares, n, y, x) == #[trigger] varies(
        stack.frames@,
        y,
        x,
    ) by {
        lemma_varies(stack, y, x);
    }
    assert forall|y: int| 0 <= y < 64 implies (#[trigger] rows[y] <==> exists|x: int|
        0 <= x < 64 && #[trigger] varies(stack.frames@, y, x)) by {
        if rows[y] {
            let x = choose|x: int| 0 <= x < 64 && #[trigger] is_busy_at(sums, squares, n, y, x);
            assert(varies(stack.frames@, y, x));
        }
        if exists|x: int| 0 <= x < 64 && #[trigger] varies(stack.frames@, y, x) {
            let x = choose|x: int| 0 <= x < 64 && #[trigger] varies(stack.frames@, y, x);
            assert(is_busy_at(sums, squares, n, y, x));
        }
    }
    assert forall|x: int| 0 <= x < 64 implies (#[trigger] columns[x] <==> exists|y: int|
        0 <= y < 64 && #[trigger] varies(stack.frames@, y, x)) by {
        if columns[x] {
            let y = choose|y: int| 0 <= y < 64 && #[trigger] is_busy_at(sums, squares, n, y, x);
            assert(varies(stack.frames@, y, x));
        }
        if exists|y: int| 0 <= y < 64 && #[trigger] varies(stack.frames@, y, x) {
            let y = choose|y: int| 0 <= y < 64 && #[trigger] varies(stack.frames@, y, x);
            assert(is_busy_at(sums, squares, n, y, x));
        }
    }
}

/// A video in which nothing varies is not cropped.
pub proof fn lemma_a_still_video_is_not_cropped(stack: &FrameStack, c: Crop)
    requires
        call_ensures(auto_crop, (stack,), c),
        stack.is_valid(),
        forall|y: int, x: int|
            0 <= y < 64 && 0 <= x < 64 ==> !#[trigger] varies(stack.frames@, y, x),
    ensures
        c.top == 0 && c.bottom == 63 && c.left == 0 && c.right == 63,
{
    let (rows, columns) = choose|rows: Seq<bool>, columns: Seq<bool>|
        #[trigger] are_busy_lines(
            stack.sums@,
            stack.squares@,
            stack.frames@.len(),
            rows,
            columns,
        ) && is_crop(rows, columns, c);
    lemma_busy_lines(stack, rows, columns);
    assert forall|a: int, b: int| !#[trigger] are_ends(rows, a, b) by {
        if are_ends(rows, a, b) {
            assert(rows[a]);
            let x = choose|x: int| 0 <= x < 64 && #[trigger] varies(stack.frames@, a, x);
        }
    }
}

/// A frame is kept unless it is pixel for pixel the one kept last: a frame that returns
/// after another is kept again. Those kept before it, and their times, stay.
pub proof fn lemma_only_a_repeated_frame_is_dropped(
    before: FrameStack,
    frame: Vec<u8>,
    time: Option<u32>,
    after: FrameStack,
    kept: bool,
    i: int,
)
    requires
        is_offered(before, frame, time, after, kept),
        before.is_valid(),
        before.frames@.len() > 0,
        frame@.len() == 4096,
        0 <= i < 4096,
    ensures
        frame@[i] != before.frames@.last()@[i] ==> kept,
        frame@ == before.frames@.last()@ ==> !kept,
        after.frames@.len() == before.frames@.len() + if kept {
            1int
        } else {
            0
        },
        forall|k: int|
            0 <= k < before.frames@.len() ==> #[trigger] after.frames@[k] == before.frames@[k]
                && after.times@[k] == before.times@[k],
        kept ==> after.frames@.last() == frame && after.times@.last() == time,
{
}

/// The first frame is kept, whatever it shows.
pub proof fn lemma_the_first_frame_is_kept(
    before: FrameStack,
    frame: Vec<u8>,
    time: Option<u32>,
    after: FrameStack,
    kept: bool,
)
    requires
        is_offered(before, frame, time, after, kept),
        before.frames@.len() == 0,
        before.times@.len() == 0,
    ensures
        kept,
        after.frames@ == seq![frame],
        after.times@ == seq![time],
{
    assert(after.frames@ =~= seq![frame]);
    assert(after.times@ =~= seq![time]);
}

/// Whether the bit of a hash that stands for one coefficient is set: the first has the
/// highest.
pub open spec fn is_set(hash: u64, i: int) -> bool {
    (hash >> ((63 - i) as u64)) & 1 == 1
}

/// A hash has half its bits set, and those of the larger coefficients: where one is set,
/// so is that of every larger coefficient, and of every equal one that stands before it.
pub proof fn lemma_a_hash_marks_the_larger_half(
    coefficients: &Vec<i32>,
    hash: u64,
    i: int,
    j: int,
)
    requires
        call_ensures(hash_of, (coefficients,), hash),
        coefficients@.len() == 64,
        0 <= i < 64,
        0 <= j < 64,
        coefficients@[i] > coefficients@[j] || (coefficients@[i] == coefficients@[j] && i < j),
        is_set(hash, j),
    ensures
        is_set(hash, i),
        ones(hash) == 32,
{
    let list = coefficients@;
    assert(is_hash(list, hash));
    assert(is_above(list, j) <==> has_bit(hash, (63 - j) as u64));
    assert(is_above(list, i) <==> has_bit(hash, (63 - i) as u64));
    let (a, b) = (ahead(list, i as usize), ahead(list, j as usize));
    assert(a.subset_of(b)) by {
        assert forall|k: usize| a.contains(k) implies b.contains(k) by {
            assert(outranks(list, k, i as usize));
        }
    }
    let all = Seq::new(64, |k: int| k as usize);
    assert forall|k: usize| b.contains(k) implies all.to_set().contains(k) by {
        assert(all[k as int] == k);
    }
    vstd::set_lib::lemma_len_subset(b, all.to_set());
    vstd::set_lib::lemma_len_subset(a, b);
}

} // verus!
