//! What shrinking a frame to its thumbnail promises.

use crate::picture::{
    column_part, column_value, fits, lemma_a_sample_is_an_average, resample, sample_part,
    sample_value, share_of, shares_upto, Crop,
};
use vstd::prelude::*;

verus! {

/// How much two stretches of a line have in common.
pub open spec fn common(a: int, b: int, c: int, d: int) -> int {
    let from = if a > c {
        a
    } else {
        c
    };
    let to = if b < d {
        b
    } else {
        d
    };
    if from < to {
        to - from
    } else {
        0
    }
}

/// The pixel of a frame at one row and column of a crop.
pub open spec fn pixel_at(c: Crop, row: int, column: int) -> int {
    (c.top + row) * 64 + c.left + column
}

/// Whether all the pixels of a crop that a sample of the thumbnail covers, in whole or
/// in part, have one value. The thumbnail is sixteen samples high and sixteen wide, so a
/// sample covers a sixteenth of the crop each way.
pub open spec fn is_flat_under(frame: Seq<u8>, c: Crop, oy: int, ox: int, v: u8) -> bool {
    let (h, w) = (c.bottom - c.top + 1, c.right - c.left + 1);
    forall|s: int, t: int|
        0 <= s < h && 0 <= t < w && oy * h < 16 * (s + 1) && 16 * s < (oy + 1) * h && ox * w < 16
            * (t + 1) && 16 * t < (ox + 1) * w ==> frame[#[trigger] pixel_at(c, s, t)] == v
}

proof fn lemma_flat_column(frame: Seq<u8>, c: Crop, oy: int, ox: int, v: u8, t: int, n: int)
    requires
        fits(c),
        is_flat_under(frame, c, oy, ox, v),
        0 <= t < c.right - c.left + 1,
        ox * (c.right - c.left + 1) < 16 * (t + 1),
        16 * t < (ox + 1) * (c.right - c.left + 1),
        0 <= n <= c.bottom - c.top + 1,
    ensures
        column_part(frame, c, oy, c.left + t, n) == v * shares_upto(oy, c.bottom - c.top + 1, n),
    decreases n,
{
    let h = c.bottom - c.top + 1;
    if n > 0 {
        lemma_flat_column(frame, c, oy, ox, v, t, n - 1);
        let p = share_of(oy, n - 1, h);
        let before = shares_upto(oy, h, n - 1);
        let f = frame[(c.top + n - 1) * 64 + (c.left + t)] as int;
        assert(pixel_at(c, n - 1, t) == (c.top + n - 1) * 64 + (c.left + t));
        if p > 0 {
            assert(frame[pixel_at(c, n - 1, t)] == v);
        }
        assert(v * before + p * f == v * (before + p)) by (nonlinear_arith)
            requires
                p == 0 || f == v,
        ;
    }
}

proof fn lemma_flat_sample(frame: Seq<u8>, c: Crop, oy: int, ox: int, v: u8, n: int)
    requires
        fits(c),
        0 <= oy < 16,
        is_flat_under(frame, c, oy, ox, v),
        0 <= n <= c.right - c.left + 1,
    ensures
        sample_part(frame, c, oy, ox, n) == v * (c.bottom - c.top + 1) * shares_upto(
            ox,
            c.right - c.left + 1,
            n,
        ),
    decreases n,
{
    let h = c.bottom - c.top + 1;
    let w = c.right - c.left + 1;
    if n > 0 {
        lemma_flat_sample(frame, c, oy, ox, v, n - 1);
        let p = share_of(ox, n - 1, w);
        let before = shares_upto(ox, w, n - 1);
        let col = column_value(frame, c, oy, c.left + n - 1);
        let vh = v * h;
        if p > 0 {
            lemma_flat_column(frame, c, oy, ox, v, n - 1, h);
            lemma_a_sample_is_an_average(oy, h);
            assert(col == vh);
        }
        assert(vh * before + p * col == vh * (before + p)) by (nonlinear_arith)
            requires
                p == 0 || col == vh,
        ;
    } else {
        assert(v * h * 0 == 0) by (nonlinear_arith);
    }
}

/// A sample all of whose pixels have one value has that value, times the number of
/// pixels of the crop, whatever the rest of the frame holds. So bands across a frame, or
/// down it, come to the same bands in the thumbnail.
pub proof fn lemma_a_sample_sees_what_it_covers(
    frame: &Vec<u8>,
    c: Crop,
    thumb: Vec<u32>,
    oy: int,
    ox: int,
    v: u8,
)
    requires
        call_ensures(resample, (frame, c), thumb),
        fits(c),
        0 <= oy < 16,
        0 <= ox < 16,
        is_flat_under(frame@, c, oy, ox, v),
    ensures
        thumb@.len() == 256,
        thumb@[oy * 16 + ox] == v * (c.bottom - c.top + 1) * (c.right - c.left + 1),
{
    let w = c.right - c.left + 1;
    lemma_flat_sample(frame@, c, oy, ox, v, w);
    lemma_a_sample_is_an_average(ox, w);
    assert(sample_value(frame@, c, oy, ox) == thumb@[oy * 16 + ox]);
}

proof fn lemma_changed_column(
    frame: Seq<u8>,
    other: Seq<u8>,
    c: Crop,
    s: int,
    t: int,
    v: u8,
    oy: int,
    x: int,
    n: int,
)
    requires
        fits(c),
        frame.len() == 4096,
        0 <= s < c.bottom - c.top + 1,
        0 <= t < c.right - c.left + 1,
        other == frame.update(pixel_at(c, s, t), v),
        0 <= x < 64,
        0 <= n <= c.bottom - c.top + 1,
    ensures
        column_part(other, c, oy, x, n) == column_part(frame, c, oy, x, n) + if x == c.left + t && s
            < n {
            share_of(oy, s, c.bottom - c.top + 1) * (v - frame[pixel_at(c, s, t)])
        } else {
            0
        },
    decreases n,
{
    if n > 0 {
        lemma_changed_column(frame, other, c, s, t, v, oy, x, n - 1);
        let at = (c.top + n - 1) * 64 + x;
        let p = share_of(oy, n - 1, c.bottom - c.top + 1);
        if at == pixel_at(c, s, t) {
            assert(n - 1 == s && x == c.left + t);
            let f = frame[at] as int;
            assert(p * v == p * f + p * (v - f)) by (nonlinear_arith);
        }
    }
}

proof fn lemma_changed_sample(
    frame: Seq<u8>,
    other: Seq<u8>,
    c: Crop,
    s: int,
    t: int,
    v: u8,
    oy: int,
    ox: int,
    n: int,
)
    requires
        fits(c),
        frame.len() == 4096,
        0 <= s < c.bottom - c.top + 1,
        0 <= t < c.right - c.left + 1,
        other == frame.update(pixel_at(c, s, t), v),
        0 <= n <= c.right - c.left + 1,
    ensures
        sample_part(other, c, oy, ox, n) == sample_part(frame, c, oy, ox, n) + if t < n {
            share_of(ox, t, c.right - c.left + 1) * (share_of(oy, s, c.bottom - c.top + 1) * (v
                - frame[pixel_at(c, s, t)]))
        } else {
            0
        },
    decreases n,
{
    if n > 0 {
        lemma_changed_sample(frame, other, c, s, t, v, oy, ox, n - 1);
        let h = c.bottom - c.top + 1;
        lemma_changed_column(frame, other, c, s, t, v, oy, c.left + n - 1, h);
        let p = share_of(ox, n - 1, c.right - c.left + 1);
        let col = column_value(frame, c, oy, c.left + n - 1);
        let more = share_of(oy, s, h) * (v - frame[pixel_at(c, s, t)]);
        if n - 1 == t {
            assert(p * (col + more) == p * col + p * more) by (nonlinear_arith);
        }
    }
}

/// A pixel counts for a sample by the area they have in common: raising it raises the
/// sample by that much for every level, and lowering it lowers it.
pub proof fn lemma_a_pixel_counts_by_its_area(
    frame: &Vec<u8>,
    other: &Vec<u8>,
    c: Crop,
    thumb: Vec<u32>,
    changed: Vec<u32>,
    s: int,
    t: int,
    v: u8,
    oy: int,
    ox: int,
)
    requires
        call_ensures(resample, (frame, c), thumb),
        call_ensures(resample, (other, c), changed),
        fits(c),
        frame@.len() == 4096,
        0 <= s < c.bottom - c.top + 1,
        0 <= t < c.right - c.left + 1,
        other@ == frame@.update(pixel_at(c, s, t), v),
        0 <= oy < 16,
        0 <= ox < 16,
    ensures
        ({
            let (h, w) = (c.bottom - c.top + 1, c.right - c.left + 1);
            changed@[oy * 16 + ox] == thumb@[oy * 16 + ox] + common(
                ox * w,
                (ox + 1) * w,
                16 * t,
                16 * (t + 1),
            ) * (common(oy * h, (oy + 1) * h, 16 * s, 16 * (s + 1)) * (v - frame@[pixel_at(
                c,
                s,
                t,
            )]))
        }),
{
    lemma_changed_sample(frame@, other@, c, s, t, v, oy, ox, c.right - c.left + 1);
    assert(sample_value(frame@, c, oy, ox) == thumb@[oy * 16 + ox]);
    assert(sample_value(other@, c, oy, ox) == changed@[oy * 16 + ox]);
}

} // verus!
