//! Taking the frame matches that others agree with, a band of offsets at a time.

use crate::evidence::{lemma_witnesses_needed, witnesses_needed, Tolerance, HASH_BITS};
use crate::fingerprint::VideoFingerprint;
use crate::frames::{
    agreeing, all_rows, frame_distance, frame_offset, frame_row, is_admitted, is_corroborated,
    is_matched_a, is_matched_b, is_timed, lemma_agreeing_grows, lemma_rows_upto, offsets_fit,
    rows_between, rows_of, rows_upto, ALIGNMENT_TOLERANCE_MS, EVERY_OFFSET, MAX_BUCKETS,
};
use crate::matching::{has_matching, is_matching, lemma_wider, Edge};
use crate::ordering::{in_order, lemma_same_members, sorted, Precedence};
use crate::witness::{
    eligible, is_row, rows_differ, rows_fit, Aligned, Witnesses, MAX_WITNESSES,
};
use vstd::prelude::*;

verus! {

/// What one pair is judged by: the two tolerances, and how many witnesses each
/// distance has to carry.
#[derive(Clone, Copy)]
pub struct Rule<'a> {
    pub tol: Tolerance,
    pub schedule: &'a Vec<u32>,
}

/// The table of witnesses by distance.
pub open spec fn is_schedule(schedule: Seq<u32>) -> bool {
    &&& schedule.len() == HASH_BITS + 1
    &&& forall|d: int|
        0 <= d <= HASH_BITS ==> #[trigger] schedule[d] == witnesses_needed(d as nat)
}

/// The order of frame matches by the offset they imply, and then by their samples and
/// their distance.
pub struct ByOffset;

impl Precedence<Aligned> for ByOffset {
    open spec fn le(&self, a: Aligned, b: Aligned) -> bool {
        a.0 < b.0 || (a.0 == b.0 && (a.1 < b.1 || (a.1 == b.1 && (a.2 < b.2 || (a.2 == b.2 && a.3
            <= b.3)))))
    }

    open spec fn knows(&self, a: Aligned) -> bool {
        true
    }

    proof fn le_is_total(&self, a: Aligned, b: Aligned) {
    }

    proof fn le_is_transitive(&self, a: Aligned, b: Aligned, c: Aligned) {
    }

    fn precedes(&self, a: &Aligned, b: &Aligned) -> (yes: bool) {
        a.0 < b.0 || (a.0 == b.0 && (a.1 < b.1 || (a.1 == b.1 && (a.2 < b.2 || (a.2 == b.2 && a.3
            <= b.3)))))
    }
}

/// Any table of witnesses by distance that a search can answer: each distance takes as
/// many as a search looks for at most, or is refused outright.
pub open spec fn is_table(schedule: Seq<u32>) -> bool {
    &&& schedule.len() == HASH_BITS + 1
    &&& forall|d: int|
        0 <= d <= HASH_BITS ==> #[trigger] schedule[d] == u32::MAX || schedule[d] <= MAX_WITNESSES
}

/// How many witnesses a table asks of a distance. Past the width of a hash, as many as
/// at it.
pub open spec fn asked(schedule: Seq<u32>, distance: u32) -> u32 {
    if distance <= HASH_BITS {
        schedule[distance as int]
    } else {
        schedule[HASH_BITS as int]
    }
}

/// Do as many of the frame matches agree with this one as a table asks for? A match on
/// its own has nothing behind it.
pub open spec fn is_backed(rows: Seq<Aligned>, schedule: Seq<u32>, row: Aligned) -> bool {
    &&& rows.len() >= 2
    &&& asked(schedule, row.3) != u32::MAX
    &&& has_matching(
        agreeing(rows, row.0 as int, row.1, row.2),
        asked(schedule, row.3) as nat,
    )
}

/// Does a backed match with an offset in the band pair sample `x`, on the first side
/// or the second?
pub open spec fn is_flagged(
    rows: Seq<Aligned>,
    schedule: Seq<u32>,
    lo: int,
    hi: int,
    left: bool,
    x: int,
) -> bool {
    is_flagged_upto(rows, schedule, rows.len() as int, lo, hi, left, x)
}

/// `is_flagged`, by one of the first `n` rows.
pub open spec fn is_flagged_upto(
    rows: Seq<Aligned>,
    schedule: Seq<u32>,
    n: int,
    lo: int,
    hi: int,
    left: bool,
    x: int,
) -> bool {
    exists|r: int|
        0 <= r < n && (if left {
            (#[trigger] rows[r]).1
        } else {
            rows[r].2
        }) == x && lo <= rows[r].0 < hi && is_backed(rows, schedule, rows[r])
}

/// Does a corroborated match with an offset in the band pair sample `x`, on the
/// first side or the second?
pub open spec fn is_marked(rows: Seq<Aligned>, lo: int, hi: int, left: bool, x: int) -> bool {
    exists|r: int|
        0 <= r < rows.len() && (if left {
            (#[trigger] rows[r]).1
        } else {
            rows[r].2
        }) == x && lo <= rows[r].0 < hi && is_corroborated(rows, rows[r])
}

/// Reordering the frame matches changes no verdict.
proof fn lemma_same_witnesses(rows: Seq<Aligned>, other: Seq<Aligned>, row: Aligned, n: nat)
    requires
        forall|x: Aligned| rows.contains(x) <==> other.contains(x),
    ensures
        has_matching(agreeing(rows, row.0 as int, row.1, row.2), n) <==> has_matching(
            agreeing(other, row.0 as int, row.1, row.2),
            n,
        ),
{
    let g = agreeing(rows, row.0 as int, row.1, row.2);
    let h = agreeing(other, row.0 as int, row.1, row.2);
    assert forall|r: int| 0 <= r < rows.len() implies other.contains(#[trigger] rows[r]) by {
        assert(rows.contains(rows[r]));
    }
    assert forall|r: int| 0 <= r < other.len() implies rows.contains(#[trigger] other[r]) by {
        assert(other.contains(other[r]));
    }
    lemma_agreeing_grows(rows, other, row.0 as int, row.1, row.2);
    lemma_agreeing_grows(other, rows, row.0 as int, row.1, row.2);
    if has_matching(g, n) {
        lemma_wider(g, h, n);
    }
    if has_matching(h, n) {
        lemma_wider(h, g, n);
    }
}

/// The alignment window of a row offers exactly the matches that agree with it.
proof fn lemma_window(rows: Seq<Aligned>, lo: int, hi: int, k: int)
    requires
        0 <= lo <= k < hi <= rows.len(),
        forall|q: int, r: int| 0 <= q < r < rows.len() ==> (#[trigger] rows[q]).0 <= (
        #[trigger] rows[r]).0,
        forall|q: int| 0 <= q < lo ==> rows[k].0 - (#[trigger] rows[q]).0 > ALIGNMENT_TOLERANCE_MS,
        rows[k].0 - rows[lo].0 <= ALIGNMENT_TOLERANCE_MS,
        forall|q: int| 0 <= q < hi ==> (#[trigger] rows[q]).0 - rows[k].0 <= ALIGNMENT_TOLERANCE_MS,
        hi < rows.len() ==> rows[hi].0 - rows[k].0 > ALIGNMENT_TOLERANCE_MS,
        rows_differ(rows),
    ensures
        eligible(rows.subrange(lo, hi), rows[k].1, rows[k].2) == agreeing(
            rows,
            rows[k].0 as int,
            rows[k].1,
            rows[k].2,
        ),
        is_row(rows.subrange(lo, hi), (rows[k].1, rows[k].2)),
        rows_differ(rows.subrange(lo, hi)),
{
    let window = rows.subrange(lo, hi);
    let i = rows[k].1;
    let j = rows[k].2;
    assert(window[k - lo] == rows[k]);
    assert forall|r: int, q: int|
        0 <= r < window.len() && 0 <= q < window.len() && r != q implies (#[trigger] window[r]).1
        != (#[trigger] window[q]).1 || window[r].2 != window[q].2 by {
        assert(window[r] == rows[r + lo] && window[q] == rows[q + lo]);
    }
    let g = eligible(window, i, j);
    let h = agreeing(rows, rows[k].0 as int, i, j);
    assert forall|e: Edge| g.contains(e) == h.contains(e) by {
        if g.contains(e) {
            let r = choose|r: int|
                0 <= r < window.len() && (#[trigger] window[r]).1 == e.0 && window[r].2 == e.1;
            assert(window[r] == rows[r + lo]);
            assert(rows[lo].0 <= rows[r + lo].0);
        }
        if h.contains(e) {
            let r = choose|r: int|
                0 <= r < rows.len() && (#[trigger] rows[r]).1 == e.0 && rows[r].2 == e.1
                    && -ALIGNMENT_TOLERANCE_MS <= rows[r].0 - rows[k].0 <= ALIGNMENT_TOLERANCE_MS;
            assert(r >= lo);
            if r >= hi {
                assert(rows[hi].0 <= rows[r].0);
            }
            assert(window[r - lo] == rows[r]);
        }
    }
    assert(g =~= h);
}

/// Flag every frame match that enough *other* frame matches agree with about the
/// time offset between the two videos.
///
/// Sorting by offset puts every match that could witness another one next to it,
/// so one pass with a sliding window settles the whole list. Only matches with an
/// offset in `targets` are judged; the others are there as witnesses.
pub fn corroborated(
    aligned: &mut Vec<Aligned>,
    schedule: &Vec<u32>,
    matched_a: &mut Vec<bool>,
    matched_b: &mut Vec<bool>,
    targets: (i64, i64),
    witnesses: &mut Witnesses,
)
    requires
        is_table(schedule@),
        old(witnesses).is_valid(),
        rows_differ(old(aligned)@),
        rows_fit(old(aligned)@, old(matched_a)@.len(), old(matched_b)@.len()),
        offsets_fit(old(aligned)@),
    ensures
        final(witnesses).is_valid(),
        final(aligned)@.to_multiset() == old(aligned)@.to_multiset(),
        in_order(final(aligned)@, &ByOffset),
        final(matched_a)@.len() == old(matched_a)@.len(),
        final(matched_b)@.len() == old(matched_b)@.len(),
        forall|x: int|
            0 <= x < old(matched_a)@.len() ==> (#[trigger] final(matched_a)@[x] <==> old(
                matched_a,
            )@[x] || is_flagged(
                old(aligned)@,
                schedule@,
                targets.0 as int,
                targets.1 as int,
                true,
                x,
            )),
        forall|x: int|
            0 <= x < old(matched_b)@.len() ==> (#[trigger] final(matched_b)@[x] <==> old(
                matched_b,
            )@[x] || is_flagged(
                old(aligned)@,
                schedule@,
                targets.0 as int,
                targets.1 as int,
                false,
                x,
            )),
{
    if aligned.len() < 2 {
        return;
    }
    let rows = sorted(aligned, &ByOffset);
    let ghost na = matched_a@.len();
    let ghost nb = matched_b@.len();
    proof {
        lemma_same_members(rows@, aligned@);
        lemma_reordered(aligned@, rows@, na, nb);
    }
    witnesses.begin(matched_a.len(), matched_b.len());
    let mut lo: usize = 0;
    let mut hi: usize = 0;
    for k in 0..rows.len()
        invariant
            is_table(schedule@),
            rows@.len() >= 2,
            witnesses.is_valid(),
            witnesses.samples() == (na, nb),
            matched_a@.len() == na,
            matched_b@.len() == nb,
            na == old(matched_a)@.len(),
            nb == old(matched_b)@.len(),
            in_order(rows@, &ByOffset),
            rows_differ(rows@),
            rows_fit(rows@, na, nb),
            offsets_fit(rows@),
            lo <= k || lo == 0,
            lo <= rows@.len(),
            hi <= rows@.len(),
            k < rows@.len() ==> forall|q: int|
                0 <= q < lo ==> rows@[k as int].0 - (#[trigger] rows@[q]).0
                    > ALIGNMENT_TOLERANCE_MS,
            k < rows@.len() ==> forall|q: int|
                0 <= q < hi ==> (#[trigger] rows@[q]).0 - rows@[k as int].0
                    <= ALIGNMENT_TOLERANCE_MS,
            forall|x: int|
                0 <= x < na ==> (#[trigger] matched_a@[x] <==> old(matched_a)@[x] || is_flagged_upto(
                    rows@,
                    schedule@,
                    k as int,
                    targets.0 as int,
                    targets.1 as int,
                    true,
                    x,
                )),
            forall|x: int|
                0 <= x < nb ==> (#[trigger] matched_b@[x] <==> old(matched_b)@[x] || is_flagged_upto(
                    rows@,
                    schedule@,
                    k as int,
                    targets.0 as int,
                    targets.1 as int,
                    false,
                    x,
                )),
    {
        let (offset, i, j, distance) = rows[k];
        assert(rows@[k as int].0 == offset);
        while offset - rows[lo].0 > ALIGNMENT_TOLERANCE_MS
            invariant
                lo <= k < rows@.len(),
                offset == rows@[k as int].0,
                offsets_fit(rows@),
                forall|q: int|
                    0 <= q < lo ==> offset - (#[trigger] rows@[q]).0 > ALIGNMENT_TOLERANCE_MS,
            ensures
                lo <= k,
                offset - rows@[lo as int].0 <= ALIGNMENT_TOLERANCE_MS,
                forall|q: int|
                    0 <= q < lo ==> offset - (#[trigger] rows@[q]).0 > ALIGNMENT_TOLERANCE_MS,
            decreases rows@.len() - lo,
        {
            lo = lo + 1;
        }
        while hi < rows.len() && rows[hi].0 - offset <= ALIGNMENT_TOLERANCE_MS
            invariant
                hi <= rows@.len(),
                k < rows@.len(),
                offset == rows@[k as int].0,
                offsets_fit(rows@),
                forall|q: int|
                    0 <= q < hi ==> (#[trigger] rows@[q]).0 - offset <= ALIGNMENT_TOLERANCE_MS,
            decreases rows@.len() - hi,
        {
            hi = hi + 1;
        }
        proof {
            assert forall|q: int, r: int| 0 <= q < r < rows@.len() implies (#[trigger] rows@[q]).0
                <= (#[trigger] rows@[r]).0 by {
                assert((ByOffset).le(rows@[q], rows@[r]));
            }
            if hi <= k {
                if hi < k {
                    assert(rows@[hi as int].0 <= rows@[k as int].0);
                }
            }
            lemma_window(rows@, lo as int, hi as int, k as int);
        }
        let ghost before_a = matched_a@;
        let ghost before_b = matched_b@;
        let needed = if distance <= HASH_BITS {
            schedule[distance as usize]
        } else {
            schedule[HASH_BITS as usize]
        };
        assert(needed == asked(schedule@, distance));
        if offset >= targets.0 && offset < targets.1 && needed != u32::MAX {
            if !(matched_a[i as usize] && matched_b[j as usize]) {
                let window = vstd::slice::slice_subrange(rows.as_slice(), lo, hi);
                assert(window@ == rows@.subrange(lo as int, hi as int));
                assert(rows_fit(window@, na, nb)) by {
                    assert forall|r: int| 0 <= r < window@.len() implies (#[trigger] window@[r]).1
                        < na && window@[r].2 < nb by {
                        assert(window@[r] == rows@[r + lo]);
                    }
                }
                if witnesses.enough(window, i, j, needed as usize) {
                    matched_a.set(i as usize, true);
                    matched_b.set(j as usize, true);
                }
            }
        }
        proof {
            assert forall|x: int| 0 <= x < na implies (#[trigger] matched_a@[x] <==> old(
                matched_a,
            )@[x] || is_flagged_upto(
                rows@,
                schedule@,
                k + 1,
                targets.0 as int,
                targets.1 as int,
                true,
                x,
            )) by {
                lemma_flagged_push(
                    rows@,
                    schedule@,
                    k as int,
                    targets.0 as int,
                    targets.1 as int,
                    true,
                    x,
                );
                assert(before_a[x] <==> old(matched_a)@[x] || is_flagged_upto(
                    rows@,
                    schedule@,
                    k as int,
                    targets.0 as int,
                    targets.1 as int,
                    true,
                    x,
                ));
            }
            assert forall|x: int| 0 <= x < nb implies (#[trigger] matched_b@[x] <==> old(
                matched_b,
            )@[x] || is_flagged_upto(
                rows@,
                schedule@,
                k + 1,
                targets.0 as int,
                targets.1 as int,
                false,
                x,
            )) by {
                lemma_flagged_push(
                    rows@,
                    schedule@,
                    k as int,
                    targets.0 as int,
                    targets.1 as int,
                    false,
                    x,
                );
                assert(before_b[x] <==> old(matched_b)@[x] || is_flagged_upto(
                    rows@,
                    schedule@,
                    k as int,
                    targets.0 as int,
                    targets.1 as int,
                    false,
                    x,
                ));
            }
            if k + 1 < rows@.len() {
                assert(rows@[k as int].0 <= rows@[k + 1].0);
            }
        }
    }
    proof {
        assert forall|x: int, left: bool| #[trigger]
            is_flagged(
                aligned@,
                schedule@,
                targets.0 as int,
                targets.1 as int,
                left,
                x,
            ) <==> is_flagged(
                rows@,
                schedule@,
                targets.0 as int,
                targets.1 as int,
                left,
                x,
            ) by {
            lemma_flagged_reordered(
                aligned@,
                rows@,
                schedule@,
                targets.0 as int,
                targets.1 as int,
                left,
                x,
            );
            lemma_flagged_reordered(
                rows@,
                aligned@,
                schedule@,
                targets.0 as int,
                targets.1 as int,
                left,
                x,
            );
        }
    }
    *aligned = rows;
}

proof fn lemma_flagged_push(
    rows: Seq<Aligned>,
    schedule: Seq<u32>,
    n: int,
    lo: int,
    hi: int,
    left: bool,
    x: int,
)
    requires
        0 <= n < rows.len(),
    ensures
        is_flagged_upto(rows, schedule, n + 1, lo, hi, left, x) <==> is_flagged_upto(
            rows,
            schedule,
            n,
            lo,
            hi,
            left,
            x,
        ) || ((if left {
            rows[n].1
        } else {
            rows[n].2
        }) == x && lo <= rows[n].0 < hi && is_backed(rows, schedule, rows[n])),
{
}

proof fn lemma_flagged_reordered(
    rows: Seq<Aligned>,
    other: Seq<Aligned>,
    schedule: Seq<u32>,
    lo: int,
    hi: int,
    left: bool,
    x: int,
)
    requires
        rows.len() == other.len(),
        forall|y: Aligned| rows.contains(y) <==> other.contains(y),
    ensures
        is_flagged(rows, schedule, lo, hi, left, x) ==> is_flagged(
            other,
            schedule,
            lo,
            hi,
            left,
            x,
        ),
{
    if is_flagged(rows, schedule, lo, hi, left, x) {
        let r = choose|r: int|
            0 <= r < rows.len() && (if left {
                (#[trigger] rows[r]).1
            } else {
                rows[r].2
            }) == x && lo <= rows[r].0 < hi && is_backed(rows, schedule, rows[r]);
        assert(rows.contains(rows[r]));
        let q = choose|q: int| 0 <= q < other.len() && other[q] == rows[r];
        let row = rows[r];
        lemma_same_witnesses(rows, other, row, asked(schedule, row.3) as nat);
        assert(other[q].1 == rows[r].1);
    }
}

/// The table of witnesses flags what is corroborated.
proof fn lemma_flagged_is_marked(
    rows: Seq<Aligned>,
    schedule: Seq<u32>,
    lo: int,
    hi: int,
    left: bool,
    x: int,
)
    requires
        is_schedule(schedule),
        forall|r: int| 0 <= r < rows.len() ==> (#[trigger] rows[r]).3 <= HASH_BITS,
    ensures
        is_flagged(rows, schedule, lo, hi, left, x) <==> is_marked(rows, lo, hi, left, x),
{
    assert forall|r: int| 0 <= r < rows.len() implies (is_backed(rows, schedule, #[trigger] rows[r])
        <==> is_corroborated(rows, rows[r])) by {
        let row = rows[r];
        assert(schedule[row.3 as int] == witnesses_needed(row.3 as nat));
        if rows.len() < 2 && is_corroborated(rows, row) {
            lemma_witnesses_needed(row.3 as nat);
            let g = agreeing(rows, row.0 as int, row.1, row.2);
            let m = choose|m: Seq<Edge>| #[trigger]
                is_matching(g, m) && m.len() == witnesses_needed(row.3 as nat) as nat;
            assert(g.contains(m[0]));
        }
    }
    if is_flagged(rows, schedule, lo, hi, left, x) {
        let r = choose|r: int|
            0 <= r < rows.len() && (if left {
                (#[trigger] rows[r]).1
            } else {
                rows[r].2
            }) == x && lo <= rows[r].0 < hi && is_backed(rows, schedule, rows[r]);
        assert(rows[r].1 == rows[r].1);
    }
    if is_marked(rows, lo, hi, left, x) {
        let r = choose|r: int|
            0 <= r < rows.len() && (if left {
                (#[trigger] rows[r]).1
            } else {
                rows[r].2
            }) == x && lo <= rows[r].0 < hi && is_corroborated(rows, rows[r]);
        assert(rows[r].1 == rows[r].1);
    }
}

proof fn lemma_schedule_is_table(schedule: Seq<u32>)
    requires
        is_schedule(schedule),
    ensures
        is_table(schedule),
{
    assert forall|d: int| 0 <= d <= HASH_BITS implies #[trigger] schedule[d] == u32::MAX
        || schedule[d] <= MAX_WITNESSES by {
        lemma_witnesses_needed(d as nat);
    }
}

/// What holds of every row holds of the rows in another order.
proof fn lemma_reordered(rows: Seq<Aligned>, other: Seq<Aligned>, na: nat, nb: nat)
    requires
        rows.to_multiset() == other.to_multiset(),
        rows_differ(rows),
        rows_fit(rows, na, nb),
        offsets_fit(rows),
    ensures
        rows_differ(other),
        rows_fit(other, na, nb),
        offsets_fit(other),
{
    lemma_same_members(rows, other);
    assert(rows.no_duplicates()) by {
        assert forall|r: int, q: int| 0 <= r < rows.len() && 0 <= q < rows.len() && r
            != q implies rows[r] != rows[q] by {
            assert(rows[r].1 != rows[q].1 || rows[r].2 != rows[q].2);
        }
    }
    assert forall|r: int| 0 <= r < other.len() implies (#[trigger] other[r]).1 < na
        && other[r].2 < nb && -0x1_0000_0000 < other[r].0 < 0x1_0000_0000 by {
        assert(other.contains(other[r]));
        let q = choose|q: int| 0 <= q < rows.len() && rows[q] == other[r];
        assert(rows[q] == other[r]);
    }
    assert forall|r: int, q: int|
        0 <= r < other.len() && 0 <= q < other.len() && r != q implies (#[trigger] other[r]).1 != (
    #[trigger] other[q]).1 || other[r].2 != other[q].2 by {
        assert(other.contains(other[r]) && other.contains(other[q]));
        let x = choose|x: int| 0 <= x < rows.len() && rows[x] == other[r];
        let y = choose|y: int| 0 <= y < rows.len() && rows[y] == other[q];
        assert(other[r] != other[q]);
        assert(x != y);
        assert(rows[x].1 != rows[y].1 || rows[x].2 != rows[y].2);
    }
}

/// Is sample `i` of `a` within `strict` of some sample of `b`?
pub open spec fn is_close_a(a: &VideoFingerprint, b: &VideoFingerprint, strict: nat, i: int, m: int, n: int) -> bool {
    exists|j: int|
        0 <= j < b.valid_hashes@.len() && is_before(i, j, m, n) && #[trigger] frame_distance(
            a,
            b,
            i,
            j,
        ) <= strict
}

/// Is sample `j` of `b` within `strict` of some sample of `a`?
pub open spec fn is_close_b(a: &VideoFingerprint, b: &VideoFingerprint, strict: nat, j: int, m: int, n: int) -> bool {
    exists|i: int|
        0 <= i < a.valid_hashes@.len() && is_before(i, j, m, n) && #[trigger] frame_distance(
            a,
            b,
            i,
            j,
        ) <= strict
}

/// Does the walk over all pairs of samples reach `(i, j)` before `(m, n)`?
pub open spec fn is_before(i: int, j: int, m: int, n: int) -> bool {
    i < m || (i == m && j < n)
}

/// One pair of samples: the strict match is marked, the loose one is handed back.
fn frame_match(
    fp_a: &VideoFingerprint,
    fp_b: &VideoFingerprint,
    tol: Tolerance,
    i: usize,
    j: usize,
    matched_a: &mut Vec<bool>,
    matched_b: &mut Vec<bool>,
) -> (row: Option<Aligned>)
    requires
        is_timed(fp_a),
        is_timed(fp_b),
        i < fp_a.valid_hashes@.len(),
        j < fp_b.valid_hashes@.len(),
        old(matched_a)@.len() == fp_a.valid_hashes@.len(),
        old(matched_b)@.len() == fp_b.valid_hashes@.len(),
    ensures
        row is Some <==> frame_distance(fp_a, fp_b, i as int, j as int) <= tol.loose,
        row matches Some(r) ==> r == frame_row(fp_a, fp_b, i as int, j as int) && r.3 <= HASH_BITS,
        frame_distance(fp_a, fp_b, i as int, j as int) <= tol.strict ==> {
            &&& final(matched_a)@ == old(matched_a)@.update(i as int, true)
            &&& final(matched_b)@ == old(matched_b)@.update(j as int, true)
        },
        frame_distance(fp_a, fp_b, i as int, j as int) > tol.strict ==> {
            &&& final(matched_a)@ == old(matched_a)@
            &&& final(matched_b)@ == old(matched_b)@
        },
{
    let distance = (fp_a.valid_hashes[i] ^ fp_b.valid_hashes[j]).count_ones();
    proof {
        crate::frames::lemma_ones_bound(fp_a.valid_hashes@[i as int] ^ fp_b.valid_hashes@[j as int]);
    }
    if distance <= tol.strict {
        matched_a.set(i, true);
        matched_b.set(j, true);
    }
    if distance <= tol.loose {
        let offset: i64 = fp_a.valid_t_start[i] as i64 - fp_b.valid_t_start[j] as i64;
        Some((offset, i as u32, j as u32, distance))
    } else {
        None
    }
}

/// What the strict matches mark, up to a point of the walk.
pub open spec fn close_marks(
    a: &VideoFingerprint,
    b: &VideoFingerprint,
    strict: nat,
    m: int,
    n: int,
    before_a: Seq<bool>,
    before_b: Seq<bool>,
    after_a: Seq<bool>,
    after_b: Seq<bool>,
) -> bool {
    &&& before_a.len() == a.valid_hashes@.len()
    &&& before_b.len() == b.valid_hashes@.len()
    &&& after_a.len() == before_a.len()
    &&& after_b.len() == before_b.len()
    &&& forall|x: int|
        0 <= x < before_a.len() ==> (#[trigger] after_a[x] <==> before_a[x] || is_close_a(
            a,
            b,
            strict,
            x,
            m,
            n,
        ))
    &&& forall|y: int|
        0 <= y < before_b.len() ==> (#[trigger] after_b[y] <==> before_b[y] || is_close_b(
            a,
            b,
            strict,
            y,
            m,
            n,
        ))
}

proof fn lemma_close_step(
    a: &VideoFingerprint,
    b: &VideoFingerprint,
    strict: nat,
    m: int,
    n: int,
    before_a: Seq<bool>,
    before_b: Seq<bool>,
    mid_a: Seq<bool>,
    mid_b: Seq<bool>,
    after_a: Seq<bool>,
    after_b: Seq<bool>,
)
    requires
        0 <= m < a.valid_hashes@.len(),
        0 <= n < b.valid_hashes@.len(),
        close_marks(a, b, strict, m, n, before_a, before_b, mid_a, mid_b),
        frame_distance(a, b, m, n) <= strict ==> after_a == mid_a.update(m, true) && after_b
            == mid_b.update(n, true),
        frame_distance(a, b, m, n) > strict ==> after_a == mid_a && after_b == mid_b,
    ensures
        close_marks(a, b, strict, m, n + 1, before_a, before_b, after_a, after_b),
{
    assert forall|x: int| 0 <= x < before_a.len() implies (#[trigger] after_a[x] <==> before_a[x]
        || is_close_a(a, b, strict, x, m, n + 1)) by {
        assert(mid_a[x] <==> before_a[x] || is_close_a(a, b, strict, x, m, n));
        if is_close_a(a, b, strict, x, m, n) {
            let j = choose|j: int|
                0 <= j < b.valid_hashes@.len() && is_before(x, j, m, n)
                    && #[trigger] frame_distance(a, b, x, j) <= strict;
            assert(is_before(x, j, m, n + 1));
        }
        if is_close_a(a, b, strict, x, m, n + 1) {
            let j = choose|j: int|
                0 <= j < b.valid_hashes@.len() && is_before(x, j, m, n + 1)
                    && #[trigger] frame_distance(a, b, x, j) <= strict;
            if !(x == m && j == n) {
                assert(is_before(x, j, m, n));
            }
        }
        if x == m && frame_distance(a, b, m, n) <= strict {
            assert(is_before(m, n, m, n + 1));
        }
    }
    assert forall|y: int| 0 <= y < before_b.len() implies (#[trigger] after_b[y] <==> before_b[y]
        || is_close_b(a, b, strict, y, m, n + 1)) by {
        assert(mid_b[y] <==> before_b[y] || is_close_b(a, b, strict, y, m, n));
        if is_close_b(a, b, strict, y, m, n) {
            let i = choose|i: int|
                0 <= i < a.valid_hashes@.len() && is_before(i, y, m, n)
                    && #[trigger] frame_distance(a, b, i, y) <= strict;
            assert(is_before(i, y, m, n + 1));
        }
        if is_close_b(a, b, strict, y, m, n + 1) {
            let i = choose|i: int|
                0 <= i < a.valid_hashes@.len() && is_before(i, y, m, n + 1)
                    && #[trigger] frame_distance(a, b, i, y) <= strict;
            if !(i == m && y == n) {
                assert(is_before(i, y, m, n));
            }
        }
        if y == n && frame_distance(a, b, m, n) <= strict {
            assert(is_before(m, n, m, n + 1));
        }
    }
}

proof fn lemma_close_next(
    a: &VideoFingerprint,
    b: &VideoFingerprint,
    strict: nat,
    m: int,
    before_a: Seq<bool>,
    before_b: Seq<bool>,
    after_a: Seq<bool>,
    after_b: Seq<bool>,
)
    requires
        close_marks(
            a,
            b,
            strict,
            m,
            b.valid_hashes@.len() as int,
            before_a,
            before_b,
            after_a,
            after_b,
        ),
    ensures
        close_marks(a, b, strict, m + 1, 0, before_a, before_b, after_a, after_b),
{
    let n = b.valid_hashes@.len() as int;
    assert forall|x: int| 0 <= x < before_a.len() implies (#[trigger] after_a[x] <==> before_a[x]
        || is_close_a(a, b, strict, x, m + 1, 0)) by {
        if is_close_a(a, b, strict, x, m, n) {
            let j = choose|j: int|
                0 <= j < n && is_before(x, j, m, n) && #[trigger] frame_distance(a, b, x, j)
                    <= strict;
            assert(is_before(x, j, m + 1, 0));
        }
        if is_close_a(a, b, strict, x, m + 1, 0) {
            let j = choose|j: int|
                0 <= j < n && is_before(x, j, m + 1, 0) && #[trigger] frame_distance(a, b, x, j)
                    <= strict;
            assert(is_before(x, j, m, n));
        }
    }
    assert forall|y: int| 0 <= y < before_b.len() implies (#[trigger] after_b[y] <==> before_b[y]
        || is_close_b(a, b, strict, y, m + 1, 0)) by {
        if is_close_b(a, b, strict, y, m, n) {
            let i = choose|i: int|
                0 <= i < a.valid_hashes@.len() && is_before(i, y, m, n)
                    && #[trigger] frame_distance(a, b, i, y) <= strict;
            assert(is_before(i, y, m + 1, 0));
        }
        if is_close_b(a, b, strict, y, m + 1, 0) {
            let i = choose|i: int|
                0 <= i < a.valid_hashes@.len() && is_before(i, y, m + 1, 0)
                    && #[trigger] frame_distance(a, b, i, y) <= strict;
            assert(is_before(i, y, m, n));
        }
    }
}

/// The rows a walk over all pairs of samples has met before `(m, n)`.
spec fn walked(a: &VideoFingerprint, b: &VideoFingerprint, loose: nat, m: int, n: int) -> Seq<Aligned> {
    rows_upto(a, b, loose, m) + rows_of(a, b, loose, m, n)
}

proof fn lemma_walked_step(a: &VideoFingerprint, b: &VideoFingerprint, loose: nat, m: int, n: int)
    requires
        0 <= n,
    ensures
        frame_distance(a, b, m, n) <= loose ==> walked(a, b, loose, m, n + 1) == walked(
            a,
            b,
            loose,
            m,
            n,
        ).push(frame_row(a, b, m, n)),
        frame_distance(a, b, m, n) > loose ==> walked(a, b, loose, m, n + 1) == walked(
            a,
            b,
            loose,
            m,
            n,
        ),
{
    if frame_distance(a, b, m, n) <= loose {
        assert(walked(a, b, loose, m, n + 1) =~= walked(a, b, loose, m, n).push(
            frame_row(a, b, m, n),
        ));
    }
}

proof fn lemma_walked_next(a: &VideoFingerprint, b: &VideoFingerprint, loose: nat, m: int)
    requires
        0 <= m,
    ensures
        walked(a, b, loose, m + 1, 0) == walked(
            a,
            b,
            loose,
            m,
            b.valid_hashes@.len() as int,
        ),
        walked(a, b, loose, m, 0) == rows_upto(a, b, loose, m),
{
    assert(walked(a, b, loose, m + 1, 0) =~= rows_upto(a, b, loose, m + 1));
    assert(walked(a, b, loose, m, 0) =~= rows_upto(a, b, loose, m));
}

proof fn lemma_between_push(rows: Seq<Aligned>, row: Aligned, lo: int, hi: int)
    ensures
        rows_between(rows.push(row), lo, hi) == (if lo <= row.0 <= hi {
            rows_between(rows, lo, hi).push(row)
        } else {
            rows_between(rows, lo, hi)
        }),
{
    reveal(Seq::filter);
    assert(rows.push(row).drop_last() =~= rows);
}

/// Every pair of samples in turn: the strict matches are marked, and the loose
/// ones with an offset in the range are collected, up to a cap, and counted.
pub fn collect(
    fp_a: &VideoFingerprint,
    fp_b: &VideoFingerprint,
    tol: Tolerance,
    matched_a: &mut Vec<bool>,
    matched_b: &mut Vec<bool>,
    range: (i64, i64),
    cap: Option<usize>,
) -> (out: (Vec<Aligned>, u64))
    requires
        is_timed(fp_a),
        is_timed(fp_b),
        old(matched_a)@.len() == fp_a.valid_hashes@.len(),
        old(matched_b)@.len() == fp_b.valid_hashes@.len(),
    ensures
        close_marks(
            fp_a,
            fp_b,
            tol.strict as nat,
            fp_a.valid_hashes@.len() as int,
            0,
            old(matched_a)@,
            old(matched_b)@,
            final(matched_a)@,
            final(matched_b)@,
        ),
        out.1 == rows_between(
            all_rows(fp_a, fp_b, tol.loose as nat),
            range.0 as int,
            range.1 as int,
        ).len(),
        cap is None || out.1 <= cap->0 ==> out.0@ == rows_between(
            all_rows(fp_a, fp_b, tol.loose as nat),
            range.0 as int,
            range.1 as int,
        ),
{
    let ghost loose = tol.loose as nat;
    let ghost strict = tol.strict as nat;
    let ghost lo = range.0 as int;
    let ghost hi = range.1 as int;
    let na = fp_a.valid_hashes.len();
    let nb = fp_b.valid_hashes.len();
    let mut list: Vec<Aligned> = Vec::new();
    let mut total: u64 = 0;
    proof {
        reveal(Seq::filter);
        lemma_walked_next(fp_a, fp_b, loose, 0);
        assert(walked(fp_a, fp_b, loose, 0, 0) =~= Seq::<Aligned>::empty());
        assert forall|x: int| !is_close_a(fp_a, fp_b, strict, x, 0, 0) || x < 0 by {}
        assert forall|y: int| #[trigger] is_close_b(fp_a, fp_b, strict, y, 0, 0) implies y < 0 by {}
    }
    for i in 0..na
        invariant
            is_timed(fp_a),
            is_timed(fp_b),
            loose == tol.loose,
            strict == tol.strict,
            lo == range.0,
            hi == range.1,
            na == fp_a.valid_hashes@.len(),
            nb == fp_b.valid_hashes@.len(),
            matched_a@.len() == na,
            matched_b@.len() == nb,
            close_marks(
                fp_a,
                fp_b,
                strict,
                i as int,
                0,
                old(matched_a)@,
                old(matched_b)@,
                matched_a@,
                matched_b@,
            ),
            total == rows_between(walked(fp_a, fp_b, loose, i as int, 0), lo, hi).len(),
            total <= i * nb,
            cap is None || total <= cap->0 ==> list@ == rows_between(
                walked(fp_a, fp_b, loose, i as int, 0),
                lo,
                hi,
            ),
            cap matches Some(c) ==> total > c ==> list@.len() == c,
    {
        for j in 0..nb
            invariant
                is_timed(fp_a),
                is_timed(fp_b),
                loose == tol.loose,
                strict == tol.strict,
                lo == range.0,
                hi == range.1,
                i < na,
                na == fp_a.valid_hashes@.len(),
                nb == fp_b.valid_hashes@.len(),
                matched_a@.len() == na,
                matched_b@.len() == nb,
                close_marks(
                    fp_a,
                    fp_b,
                    strict,
                    i as int,
                    j as int,
                    old(matched_a)@,
                    old(matched_b)@,
                    matched_a@,
                    matched_b@,
                ),
                total == rows_between(walked(fp_a, fp_b, loose, i as int, j as int), lo, hi).len(),
                total <= i * nb + j,
                cap is None || total <= cap->0 ==> list@ == rows_between(
                    walked(fp_a, fp_b, loose, i as int, j as int),
                    lo,
                    hi,
                ),
                cap matches Some(c) ==> total > c ==> list@.len() == c,
        {
            let ghost mid_a = matched_a@;
            let ghost mid_b = matched_b@;
            let row = frame_match(fp_a, fp_b, tol, i, j, matched_a, matched_b);
            proof {
                lemma_close_step(
                    fp_a,
                    fp_b,
                    strict,
                    i as int,
                    j as int,
                    old(matched_a)@,
                    old(matched_b)@,
                    mid_a,
                    mid_b,
                    matched_a@,
                    matched_b@,
                );
                lemma_walked_step(fp_a, fp_b, loose, i as int, j as int);
                lemma_between_push(
                    walked(fp_a, fp_b, loose, i as int, j as int),
                    frame_row(fp_a, fp_b, i as int, j as int),
                    lo,
                    hi,
                );
                assert(i * nb + j < 0xffff_ffff * 0xffff_ffff) by (nonlinear_arith)
                    requires
                        i < na < u32::MAX,
                        j < nb < u32::MAX,
                ;
            }
            match row {
                Some(entry) => {
                    if entry.0 >= range.0 && entry.0 <= range.1 {
                        let room: bool = match cap {
                            Some(c) => list.len() < c,
                            None => true,
                        };
                        if room {
                            list.push(entry);
                        }
                        total = total + 1;
                    }
                },
                None => {},
            }
        }
        proof {
            lemma_close_next(
                fp_a,
                fp_b,
                strict,
                i as int,
                old(matched_a)@,
                old(matched_b)@,
                matched_a@,
                matched_b@,
            );
            lemma_walked_next(fp_a, fp_b, loose, i as int);
            assert(i * nb + nb == (i + 1) * nb) by (nonlinear_arith);
        }
    }
    proof {
        lemma_walked_next(fp_a, fp_b, loose, na as int);
    }
    (list, total)
}

/// How many frame matches have an offset from `lo` up to, but not including, `hi`.
pub open spec fn count_in(rows: Seq<Aligned>, lo: int, hi: int) -> nat {
    rows_between(rows, lo, hi - 1).len()
}

proof fn lemma_count_push(rows: Seq<Aligned>, row: Aligned, lo: int, hi: int)
    ensures
        count_in(rows.push(row), lo, hi) == count_in(rows, lo, hi) + (if lo <= row.0 < hi {
            1nat
        } else {
            0nat
        }),
{
    lemma_between_push(rows, row, lo, hi - 1);
}

proof fn lemma_count_split(rows: Seq<Aligned>, lo: int, mid: int, hi: int)
    requires
        lo <= mid <= hi,
    ensures
        count_in(rows, lo, hi) == count_in(rows, lo, mid) + count_in(rows, mid, hi),
        count_in(rows, lo, hi) <= rows.len(),
    decreases rows.len(),
{
    reveal(Seq::filter);
    if rows.len() > 0 {
        let less = rows.drop_last();
        lemma_count_split(less, lo, mid, hi);
        assert(less.push(rows.last()) =~= rows);
        lemma_count_push(less, rows.last(), lo, mid);
        lemma_count_push(less, rows.last(), mid, hi);
        lemma_count_push(less, rows.last(), lo, hi);
    }
}

/// The smallest and largest of a list of times.
fn extremes(times: &Vec<u32>) -> (ends: Option<(u32, u32)>)
    ensures
        ends is None <==> times@.len() == 0,
        ends matches Some(e) ==> forall|i: int|
            0 <= i < times@.len() ==> e.0 <= #[trigger] times@[i] <= e.1,
        ends matches Some(e) ==> times@.contains(e.0) && times@.contains(e.1),
{
    if times.len() == 0 {
        return None;
    }
    let mut lo: u32 = times[0];
    let mut hi: u32 = times[0];
    assert(times@[0] == lo);
    for k in 1..times.len()
        invariant
            times@.len() > 0,
            times@.contains(lo),
            times@.contains(hi),
            forall|i: int| 0 <= i < k ==> lo <= #[trigger] times@[i] <= hi,
    {
        let t = times[k];
        assert(times@[k as int] == t);
        if t < lo {
            lo = t;
        }
        if t > hi {
            hi = t;
        }
    }
    Some((lo, hi))
}

/// Bands that follow one another without a gap.
pub open spec fn are_bands(bands: Seq<(i64, i64)>) -> bool {
    &&& bands.len() > 0
    &&& forall|k: int| 0 <= k < bands.len() ==> (#[trigger] bands[k]).0 <= bands[k].1
    &&& forall|k: int, l: int|
        0 <= k && l == k + 1 && l < bands.len() ==> (#[trigger] bands[k]).1 == (#[trigger] bands[l]).0
}

/// The time-offset axis of two videos, cut into buckets.
pub struct Axis {
    pub first: i64,
    pub last: i64,
    pub width: i64,
    pub buckets: usize,
}

impl Axis {
    /// The buckets cover every offset from first to last, and none is narrower
    /// than the alignment tolerance.
    pub open spec fn is_valid(&self) -> bool {
        &&& -0x1_0000_0000 < self.first <= self.last < 0x1_0000_0000
        &&& ALIGNMENT_TOLERANCE_MS <= self.width <= 0x4_0000_0000
        &&& self.width == bucket_width(self.first as int, self.last as int)
        &&& self.buckets == (self.last - self.first + 1) / (self.width as int) + 1
        &&& self.buckets <= MAX_BUCKETS + 1
    }

    /// Where bucket `b` begins.
    pub open spec fn edge(&self, b: int) -> int {
        bucket_edge(self.first as int, self.width as int, b)
    }
}

/// Where bucket `b` begins, when the first begins at `first`.
pub open spec fn bucket_edge(first: int, width: int, b: int) -> int {
    first + b * width
}

/// How wide a bucket is: as wide as the alignment tolerance, unless that would make
/// too many of them.
pub open spec fn bucket_width(first: int, last: int) -> int {
    let least = (last - first + 1) / (MAX_BUCKETS as int) + 1;
    if ALIGNMENT_TOLERANCE_MS >= least {
        ALIGNMENT_TOLERANCE_MS as int
    } else {
        least
    }
}

/// Is there a sample of each video that many milliseconds apart?
pub open spec fn is_offset(a: &VideoFingerprint, b: &VideoFingerprint, offset: int) -> bool {
    exists|i: int, j: int|
        0 <= i < a.valid_hashes@.len() && 0 <= j < b.valid_hashes@.len() && #[trigger] frame_offset(
            a,
            b,
            i,
            j,
        ) == offset
}

/// The least and the greatest offset of a sample of one video from one of the other.
pub open spec fn are_offset_ends(
    a: &VideoFingerprint,
    b: &VideoFingerprint,
    first: int,
    last: int,
) -> bool {
    &&& is_offset(a, b, first)
    &&& is_offset(a, b, last)
    &&& forall|i: int, j: int|
        0 <= i < a.valid_hashes@.len() && 0 <= j < b.valid_hashes@.len() ==> first
            <= #[trigger] frame_offset(a, b, i, j) <= last
}

/// Does the axis run from the least offset of the two videos to the greatest?
spec fn is_axis_of(axis: &Axis, a: &VideoFingerprint, b: &VideoFingerprint) -> bool {
    are_offset_ends(a, b, axis.first as int, axis.last as int)
}

/// The axis of two videos, unless one of them has no samples.
fn axis_of(fp_a: &VideoFingerprint, fp_b: &VideoFingerprint) -> (axis: Option<Axis>)
    requires
        is_timed(fp_a),
        is_timed(fp_b),
    ensures
        axis is None <==> fp_a.valid_hashes@.len() == 0 || fp_b.valid_hashes@.len() == 0,
        axis matches Some(x) ==> x.is_valid() && is_axis_of(&x, fp_a, fp_b),
{
    let (a_lo, a_hi) = match extremes(&fp_a.valid_t_start) {
        Some(ends) => ends,
        None => {
            return None;
        },
    };
    let (b_lo, b_hi) = match extremes(&fp_b.valid_t_start) {
        Some(ends) => ends,
        None => {
            return None;
        },
    };
    let first: i64 = a_lo as i64 - b_hi as i64;
    let last: i64 = a_hi as i64 - b_lo as i64;
    proof {
        assert forall|i: int, j: int|
            0 <= i < fp_a.valid_hashes@.len() && 0 <= j < fp_b.valid_hashes@.len() implies first
            <= #[trigger] frame_offset(fp_a, fp_b, i, j) <= last by {
            assert(a_lo <= fp_a.valid_t_start@[i] <= a_hi);
            assert(b_lo <= fp_b.valid_t_start@[j] <= b_hi);
        }
        assert(first <= frame_offset(fp_a, fp_b, 0, 0) <= last);
        let (p, q) = choose|p: int, q: int|
            0 <= p < fp_a.valid_t_start@.len() && 0 <= q < fp_b.valid_t_start@.len()
                && fp_a.valid_t_start@[p] == a_lo && fp_b.valid_t_start@[q] == b_hi;
        assert(frame_offset(fp_a, fp_b, p, q) == first);
        let (p, q) = choose|p: int, q: int|
            0 <= p < fp_a.valid_t_start@.len() && 0 <= q < fp_b.valid_t_start@.len()
                && fp_a.valid_t_start@[p] == a_hi && fp_b.valid_t_start@[q] == b_lo;
        assert(frame_offset(fp_a, fp_b, p, q) == last);
    }
    let span: i64 = last - first + 1;
    let wide: i64 = span / MAX_BUCKETS + 1;
    let width: i64 = if ALIGNMENT_TOLERANCE_MS >= wide {
        ALIGNMENT_TOLERANCE_MS
    } else {
        wide
    };
    proof {
        assert(0 <= span / width <= MAX_BUCKETS) by (nonlinear_arith)
            requires
                width >= span / MAX_BUCKETS + 1,
                width >= 1,
                span >= 0,
                MAX_BUCKETS == 1_048_576,
        ;
    }
    let buckets: usize = (span / width + 1) as usize;
    Some(Axis { first, last, width, buckets })
}

/// Where an offset on the axis falls.
fn bucket_of(axis: &Axis, offset: i64) -> (at: usize)
    requires
        axis.is_valid(),
        axis.first <= offset <= axis.last,
    ensures
        at < axis.buckets,
        axis.edge(at as int) <= offset < axis.edge(at + 1),
        forall|b: int| b != at ==> !(#[trigger] axis.edge(b) <= offset < axis.edge(b + 1)),
{
    let far: i64 = offset - axis.first;
    let ghost w = axis.width as int;
    let ghost at = far / axis.width;
    let ghost span = axis.last - axis.first + 1;
    proof {
        assert(0 <= at <= span / w) by (nonlinear_arith)
            requires
                0 <= far <= span,
                w >= 1,
                at == far as int / w,
        ;
        assert(at * w <= far < (at + 1) * w) by (nonlinear_arith)
            requires
                0 <= far,
                w >= 1,
                at == far as int / w,
        ;
        assert forall|b: int| b != at implies !(#[trigger] axis.edge(b) <= offset < axis.edge(
            b + 1,
        )) by {
            assert(!(b * w <= far < (b + 1) * w)) by (nonlinear_arith)
                requires
                    b != at,
                    at * w <= far < (at + 1) * w,
                    w >= 1,
            ;
        }
    }
    (far / axis.width) as usize
}

/// Each count is the number of matches in its bucket.
spec fn are_counts(rows: Seq<Aligned>, counts: Seq<u64>, axis: &Axis) -> bool {
    &&& counts.len() == axis.buckets
    &&& forall|b: int|
        0 <= b < counts.len() ==> #[trigger] counts[b] == count_in(
            rows,
            axis.edge(b),
            axis.edge(b + 1),
        )
}

proof fn lemma_edges(axis: &Axis, a: int, b: int)
    requires
        axis.is_valid(),
        0 <= a <= b <= axis.buckets,
    ensures
        axis.first <= axis.edge(a) <= axis.edge(b) <= 0x8_0000_0000,
        axis.edge(0) == axis.first,
        axis.edge(b + 1) == axis.edge(b) + axis.width,
        axis.last < axis.edge(axis.buckets as int),
        b < axis.buckets ==> axis.edge(b) <= axis.last + 1,
        b * axis.width <= 0x8_0000_0000,
        a * axis.width >= 0,
{
    let w = axis.width as int;
    let span = axis.last - axis.first + 1;
    let n = axis.buckets as int;
    assert(0 <= a * w <= b * w && (b + 1) * w == b * w + w && 0 * w == 0) by (nonlinear_arith)
        requires
            w >= 1,
            0 <= a <= b,
    ;
    assert(b * w <= span + w && span < n * w) by (nonlinear_arith)
        requires
            w >= 1,
            b <= n,
            n == span / w + 1,
            span >= 0,
    ;
    if b < n {
        assert(b * w <= span) by (nonlinear_arith)
            requires
                w >= 1,
                b < n,
                n == span / w + 1,
                span >= 0,
        ;
    }
}

/// The count of a bucket is no more than there are matches.
proof fn lemma_count_bound(rows: Seq<Aligned>, counts: Seq<u64>, axis: &Axis, at: int)
    requires
        axis.is_valid(),
        are_counts(rows, counts, axis),
        0 <= at < counts.len(),
    ensures
        counts[at] <= rows.len(),
{
    lemma_edges(axis, at, at + 1);
    lemma_edges(axis, at, at);
    lemma_count_split(rows, axis.edge(at), axis.edge(at), axis.edge(at + 1));
}

/// Count the matches of two videos into buckets, marking the strict ones again.
fn bucket_counts(
    fp_a: &VideoFingerprint,
    fp_b: &VideoFingerprint,
    tol: Tolerance,
    matched_a: &mut Vec<bool>,
    matched_b: &mut Vec<bool>,
    axis: &Axis,
) -> (counts: Vec<u64>)
    requires
        is_timed(fp_a),
        is_timed(fp_b),
        axis.is_valid(),
        is_axis_of(axis, fp_a, fp_b),
        old(matched_a)@.len() == fp_a.valid_hashes@.len(),
        old(matched_b)@.len() == fp_b.valid_hashes@.len(),
    ensures
        close_marks(
            fp_a,
            fp_b,
            tol.strict as nat,
            fp_a.valid_hashes@.len() as int,
            0,
            old(matched_a)@,
            old(matched_b)@,
            final(matched_a)@,
            final(matched_b)@,
        ),
        are_counts(all_rows(fp_a, fp_b, tol.loose as nat), counts@, axis),
{
    let ghost loose = tol.loose as nat;
    let ghost strict = tol.strict as nat;
    let na = fp_a.valid_hashes.len();
    let nb = fp_b.valid_hashes.len();
    let mut counts: Vec<u64> = Vec::new();
    for b in 0..axis.buckets
        invariant
            counts@.len() == b,
            forall|c: int| 0 <= c < b ==> #[trigger] counts@[c] == 0,
    {
        counts.push(0);
    }
    proof {
        reveal(Seq::filter);
        lemma_walked_next(fp_a, fp_b, loose, 0);
        assert(walked(fp_a, fp_b, loose, 0, 0) =~= Seq::<Aligned>::empty());
        assert forall|x: int| !is_close_a(fp_a, fp_b, strict, x, 0, 0) || x < 0 by {}
        assert forall|y: int| #[trigger] is_close_b(fp_a, fp_b, strict, y, 0, 0) implies y < 0 by {}
    }
    for i in 0..na
        invariant
            is_timed(fp_a),
            is_timed(fp_b),
            axis.is_valid(),
            is_axis_of(axis, fp_a, fp_b),
            loose == tol.loose,
            strict == tol.strict,
            na == fp_a.valid_hashes@.len(),
            nb == fp_b.valid_hashes@.len(),
            matched_a@.len() == na,
            matched_b@.len() == nb,
            close_marks(
                fp_a,
                fp_b,
                strict,
                i as int,
                0,
                old(matched_a)@,
                old(matched_b)@,
                matched_a@,
                matched_b@,
            ),
            are_counts(walked(fp_a, fp_b, loose, i as int, 0), counts@, axis),
            walked(fp_a, fp_b, loose, i as int, 0).len() <= i * nb,
    {
        for j in 0..nb
            invariant
                is_timed(fp_a),
                is_timed(fp_b),
                axis.is_valid(),
                is_axis_of(axis, fp_a, fp_b),
                loose == tol.loose,
                strict == tol.strict,
                i < na,
                na == fp_a.valid_hashes@.len(),
                nb == fp_b.valid_hashes@.len(),
                matched_a@.len() == na,
                matched_b@.len() == nb,
                close_marks(
                    fp_a,
                    fp_b,
                    strict,
                    i as int,
                    j as int,
                    old(matched_a)@,
                    old(matched_b)@,
                    matched_a@,
                    matched_b@,
                ),
                are_counts(walked(fp_a, fp_b, loose, i as int, j as int), counts@, axis),
                walked(fp_a, fp_b, loose, i as int, j as int).len() <= i * nb + j,
        {
            let ghost mid_a = matched_a@;
            let ghost mid_b = matched_b@;
            let ghost sofar = walked(fp_a, fp_b, loose, i as int, j as int);
            let row = frame_match(fp_a, fp_b, tol, i, j, matched_a, matched_b);
            proof {
                lemma_close_step(
                    fp_a,
                    fp_b,
                    strict,
                    i as int,
                    j as int,
                    old(matched_a)@,
                    old(matched_b)@,
                    mid_a,
                    mid_b,
                    matched_a@,
                    matched_b@,
                );
                lemma_walked_step(fp_a, fp_b, loose, i as int, j as int);
                assert(axis.first <= frame_offset(fp_a, fp_b, i as int, j as int) <= axis.last);
                assert(i * nb + j < 0xffff_ffff * 0xffff_ffff) by (nonlinear_arith)
                    requires
                        i < na < u32::MAX,
                        j < nb < u32::MAX,
                ;
            }
            match row {
                Some(entry) => {
                    let at = bucket_of(axis, entry.0);
                    let ghost before = counts@;
                    proof {
                        lemma_count_bound(sofar, counts@, axis, at as int);
                    }
                    let more: u64 = counts[at] + 1;
                    counts.set(at, more);
                    proof {
                        assert forall|b: int| 0 <= b < counts@.len() implies #[trigger] counts@[b]
                            == count_in(sofar.push(entry), axis.edge(b), axis.edge(b + 1)) by {
                            lemma_count_push(sofar, entry, axis.edge(b), axis.edge(b + 1));
                            assert(before[b] == count_in(
                                sofar,
                                axis.edge(b),
                                axis.edge(b + 1),
                            ));
                        }
                    }
                },
                None => {},
            }
        }
        proof {
            lemma_close_next(
                fp_a,
                fp_b,
                strict,
                i as int,
                old(matched_a)@,
                old(matched_b)@,
                matched_a@,
                matched_b@,
            );
            lemma_walked_next(fp_a, fp_b, loose, i as int);
            assert(i * nb + nb == (i + 1) * nb) by (nonlinear_arith);
        }
    }
    proof {
        lemma_walked_next(fp_a, fp_b, loose, na as int);
    }
    counts
}

/// A band holds no more than `cap` matches, or all it holds lies in one bucket.
pub open spec fn band_holds(
    rows: Seq<Aligned>,
    band: (i64, i64),
    cap: nat,
    first: int,
    width: int,
) -> bool {
    count_in(rows, band.0 as int, band.1 as int) <= cap || exists|m: int|
        0 <= m && band.0 <= #[trigger] bucket_edge(first, width, m) && forall|r: int|
            0 <= r < rows.len() && band.0 <= (#[trigger] rows[r]).0 < band.1 ==> bucket_edge(
                first,
                width,
                m,
            ) <= rows[r].0 < bucket_edge(first, width, m + 1)
}

/// Every band holds no more than `cap` matches, or all it holds lies in one bucket.
pub open spec fn bands_hold(
    rows: Seq<Aligned>,
    bands: Seq<(i64, i64)>,
    cap: nat,
    first: int,
    width: int,
) -> bool {
    forall|k: int| 0 <= k < bands.len() ==> #[trigger] band_holds(rows, bands[k], cap, first, width)
}

/// A band ends where a bucket begins that would overrun the cap.
pub open spec fn is_full(
    rows: Seq<Aligned>,
    band: (i64, i64),
    cap: nat,
    first: int,
    width: int,
) -> bool {
    &&& count_in(rows, band.0 as int, band.1 as int) > 0
    &&& exists|m: int|
        0 <= m && band.1 == #[trigger] bucket_edge(first, width, m) && count_in(
            rows,
            band.0 as int,
            bucket_edge(first, width, m + 1),
        ) > cap
}

/// Every band but the last is as long as the cap allows.
pub open spec fn are_full(
    rows: Seq<Aligned>,
    bands: Seq<(i64, i64)>,
    cap: nat,
    first: int,
    width: int,
) -> bool {
    forall|k: int| 0 <= k < bands.len() - 1 ==> #[trigger] is_full(rows, bands[k], cap, first, width)
}

/// Whether these are the bands that the matches of two videos are cut into: from the
/// least offset to the greatest, without a gap, each as long as it can be without
/// holding more than `cap` of them, or more than one bucket.
pub open spec fn is_plan(
    a: &VideoFingerprint,
    b: &VideoFingerprint,
    loose: nat,
    cap: nat,
    bands: Seq<(i64, i64)>,
) -> bool {
    if a.valid_hashes@.len() == 0 || b.valid_hashes@.len() == 0 {
        bands == seq![EVERY_OFFSET]
    } else {
        &&& are_bands(bands)
        &&& are_offset_ends(a, b, bands[0].0 as int, bands[bands.len() - 1].1 - 1)
        &&& bands_hold(
            all_rows(a, b, loose),
            bands,
            cap,
            bands[0].0 as int,
            bucket_width(bands[0].0 as int, bands[bands.len() - 1].1 - 1),
        )
        &&& are_full(
            all_rows(a, b, loose),
            bands,
            cap,
            bands[0].0 as int,
            bucket_width(bands[0].0 as int, bands[bands.len() - 1].1 - 1),
        )
    }
}

/// Close a band whenever the next bucket would overrun the cap.
fn cut_bands(axis: &Axis, counts: &Vec<u64>, cap: usize, Ghost(rows): Ghost<Seq<Aligned>>) -> (bands:
    Vec<(i64, i64)>)
    requires
        axis.is_valid(),
        are_counts(rows, counts@, axis),
        rows.len() <= 0xffff_ffff * 0xffff_ffff,
    ensures
        are_bands(bands@),
        bands@[0].0 == axis.first,
        bands@[bands@.len() - 1].1 == axis.last + 1,
        bands_hold(rows, bands@, cap as nat, axis.first as int, axis.width as int),
        are_full(rows, bands@, cap as nat, axis.first as int, axis.width as int),
{
    let mut bands: Vec<(i64, i64)> = Vec::new();
    let mut start: usize = 0;
    let mut running: u64 = 0;
    let mut opened: i64 = axis.first;
    proof {
        lemma_edges(axis, 0, 0);
        lemma_count_empty(rows, axis.first as int);
        let span = axis.last - axis.first + 1;
        let w = axis.width as int;
        assert(span / w >= 0) by (nonlinear_arith)
            requires
                span >= 0,
                w >= 1,
        ;
    }
    for b in 0..axis.buckets
        invariant
            axis.is_valid(),
            are_counts(rows, counts@, axis),
            rows.len() <= 0xffff_ffff * 0xffff_ffff,
            start <= b,
            start < axis.buckets,
            opened == axis.edge(start as int),
            running == count_in(rows, axis.edge(start as int), axis.edge(b as int)),
            running > 0 ==> start < b,
            running > cap ==> b > 0 && running == counts@[b - 1],
            forall|k: int, l: int|
                0 <= k && l == k + 1 && l < bands@.len() ==> (#[trigger] bands@[k]).1 == (
                #[trigger] bands@[l]).0,
            forall|k: int| 0 <= k < bands@.len() ==> (#[trigger] bands@[k]).0 <= bands@[k].1,
            bands@.len() == 0 ==> start == 0,
            bands@.len() > 0 ==> bands@[0].0 == axis.first && bands@[bands@.len() - 1].1 == opened,
            bands_hold(rows, bands@, cap as nat, axis.first as int, axis.width as int),
            forall|k: int|
                0 <= k < bands@.len() ==> #[trigger] is_full(
                    rows,
                    bands@[k],
                    cap as nat,
                    axis.first as int,
                    axis.width as int,
                ),
    {
        let count = counts[b];
        proof {
            lemma_edges(axis, start as int, b as int);
            lemma_edges(axis, b as int, b + 1);
            lemma_count_bound(rows, counts@, axis, b as int);
            lemma_count_split(
                rows,
                axis.edge(start as int),
                axis.edge(b as int),
                axis.edge(b + 1),
            );
            lemma_count_empty(rows, axis.edge(b as int));
        }
        if running > 0 && running + count > cap as u64 {
            let ghost before = bands@;
            let closed: i64 = axis.first + b as i64 * axis.width;
            bands.push((opened, closed));
            proof {
                if running > cap {
                    lemma_one_bucket(
                        rows,
                        counts@,
                        axis,
                        start as int,
                        b as int,
                        cap as nat,
                        (opened, closed),
                    );
                }
                lemma_bands_push(
                    rows,
                    before,
                    (opened, closed),
                    cap as nat,
                    axis.first as int,
                    axis.width as int,
                );
                assert(closed == axis.edge(b as int));
                assert(is_full(
                    rows,
                    (opened, closed),
                    cap as nat,
                    axis.first as int,
                    axis.width as int,
                ));
                assert forall|k: int| 0 <= k < bands@.len() implies #[trigger] is_full(
                    rows,
                    bands@[k],
                    cap as nat,
                    axis.first as int,
                    axis.width as int,
                ) by {
                    if k < before.len() {
                        assert(bands@[k] == before[k]);
                        assert(is_full(
                            rows,
                            before[k],
                            cap as nat,
                            axis.first as int,
                            axis.width as int,
                        ));
                    }
                }
            }
            opened = closed;
            start = b;
            running = 0;
        }
        running = running + count;
    }
    let ghost before = bands@;
    proof {
        lemma_edges(axis, start as int, axis.buckets as int);
        lemma_edges(axis, start as int, axis.buckets - 1);
        lemma_edges(axis, start as int, start as int);
        lemma_count_split(
            rows,
            axis.edge(start as int),
            axis.last + 1,
            axis.edge(axis.buckets as int),
        );
    }
    bands.push((opened, axis.last + 1));
    proof {
        let band = (opened, (axis.last + 1) as i64);
        if running > cap {
            lemma_one_bucket(
                rows,
                counts@,
                axis,
                start as int,
                axis.buckets as int,
                cap as nat,
                band,
            );
        }
        lemma_bands_push(
            rows,
            before,
            band,
            cap as nat,
            axis.first as int,
            axis.width as int,
        );
        assert forall|k: int| 0 <= k < bands@.len() - 1 implies #[trigger] is_full(
            rows,
            bands@[k],
            cap as nat,
            axis.first as int,
            axis.width as int,
        ) by {
            assert(bands@[k] == before[k]);
            assert(is_full(rows, before[k], cap as nat, axis.first as int, axis.width as int));
        }
    }
    bands
}

proof fn lemma_count_empty(rows: Seq<Aligned>, x: int)
    ensures
        count_in(rows, x, x) == 0,
    decreases rows.len(),
{
    reveal(Seq::filter);
    if rows.len() > 0 {
        let less = rows.drop_last();
        lemma_count_empty(less, x);
        assert(less.push(rows.last()) =~= rows);
        lemma_count_push(less, rows.last(), x, x);
    }
}

/// A match in a range is counted there.
proof fn lemma_counted(rows: Seq<Aligned>, lo: int, hi: int, r: int)
    requires
        0 <= r < rows.len(),
        lo <= rows[r].0 < hi,
    ensures
        count_in(rows, lo, hi) > 0,
    decreases rows.len(),
{
    reveal(Seq::filter);
    let less = rows.drop_last();
    assert(less.push(rows.last()) =~= rows);
    lemma_count_push(less, rows.last(), lo, hi);
    if r < less.len() {
        assert(less[r] == rows[r]);
        lemma_counted(less, lo, hi, r);
    }
}

/// What a band counts, its last bucket holds alone.
proof fn lemma_one_bucket(
    rows: Seq<Aligned>,
    counts: Seq<u64>,
    axis: &Axis,
    start: int,
    b: int,
    cap: nat,
    band: (i64, i64),
)
    requires
        axis.is_valid(),
        are_counts(rows, counts, axis),
        0 <= start < b <= axis.buckets,
        band.0 == axis.edge(start),
        band.1 <= axis.edge(b),
        count_in(rows, axis.edge(start), axis.edge(b)) == counts[b - 1],
    ensures
        band_holds(rows, band, cap, axis.first as int, axis.width as int),
{
    lemma_edges(axis, start, b - 1);
    lemma_edges(axis, b - 1, b);
    let x = axis.edge(b - 1);
    assert(counts[b - 1] == count_in(rows, axis.edge(b - 1), axis.edge(b - 1 + 1)));
    lemma_count_split(rows, axis.edge(start), x, axis.edge(b));
    assert(count_in(rows, axis.edge(start), x) == 0);
    assert forall|r: int|
        0 <= r < rows.len() && band.0 <= (#[trigger] rows[r]).0 < band.1 implies x <= rows[r].0
        < axis.edge(b - 1 + 1) by {
        if rows[r].0 < x {
            lemma_counted(rows, axis.edge(start), x, r);
        }
    }
    assert(band.0 <= bucket_edge(axis.first as int, axis.width as int, b - 1));
}

proof fn lemma_bands_push(
    rows: Seq<Aligned>,
    bands: Seq<(i64, i64)>,
    band: (i64, i64),
    cap: nat,
    first: int,
    width: int,
)
    requires
        bands_hold(rows, bands, cap, first, width),
        band_holds(rows, band, cap, first, width),
    ensures
        bands_hold(rows, bands.push(band), cap, first, width),
{
    let more = bands.push(band);
    assert forall|k: int| 0 <= k < more.len() implies #[trigger] band_holds(
        rows,
        more[k],
        cap,
        first,
        width,
    ) by {
        if k < bands.len() {
            assert(more[k] == bands[k]);
            assert(band_holds(rows, bands[k], cap, first, width));
        }
    }
}

/// Cut the time-offset axis into bands of at most `cap` matches each.
///
/// Matches are counted into buckets of a fixed width, and a band is closed
/// whenever the next bucket would overrun the cap. A single bucket holding more
/// than `cap` is left in one band, which simply exceeds it.
pub fn plan_bands(
    fp_a: &VideoFingerprint,
    fp_b: &VideoFingerprint,
    tol: Tolerance,
    matched_a: &mut Vec<bool>,
    matched_b: &mut Vec<bool>,
    cap: usize,
) -> (bands: Vec<(i64, i64)>)
    requires
        is_timed(fp_a),
        is_timed(fp_b),
        old(matched_a)@.len() == fp_a.valid_hashes@.len(),
        old(matched_b)@.len() == fp_b.valid_hashes@.len(),
    ensures
        close_marks(
            fp_a,
            fp_b,
            tol.strict as nat,
            fp_a.valid_hashes@.len() as int,
            0,
            old(matched_a)@,
            old(matched_b)@,
            final(matched_a)@,
            final(matched_b)@,
        ),
        are_bands(bands@),
        forall|r: int|
            0 <= r < all_rows(fp_a, fp_b, tol.loose as nat).len() ==> bands@[0].0 <= (
            #[trigger] all_rows(fp_a, fp_b, tol.loose as nat)[r]).0
                < bands@[bands@.len() - 1].1,
        is_plan(fp_a, fp_b, tol.loose as nat, cap as nat, bands@),
{
    let ghost rows = all_rows(fp_a, fp_b, tol.loose as nat);
    let ghost na = fp_a.valid_hashes@.len();
    let ghost nb = fp_b.valid_hashes@.len();
    proof {
        lemma_rows_upto(fp_a, fp_b, tol.loose as nat, na as int);
        assert(na * nb <= 0xffff_ffff * 0xffff_ffff) by (nonlinear_arith)
            requires
                na < u32::MAX,
                nb < u32::MAX,
        ;
    }
    match axis_of(fp_a, fp_b) {
        Some(axis) => {
            let counts = bucket_counts(fp_a, fp_b, tol, matched_a, matched_b, &axis);
            let bands = cut_bands(&axis, &counts, cap, Ghost(rows));
            proof {
                assert forall|r: int| 0 <= r < rows.len() implies bands@[0].0 <= (
                #[trigger] rows[r]).0 < bands@[bands@.len() - 1].1 by {
                    let row = rows[r];
                    assert(row == frame_row(fp_a, fp_b, row.1 as int, row.2 as int));
                    assert(axis.first <= frame_offset(fp_a, fp_b, row.1 as int, row.2 as int)
                        <= axis.last);
                }
                assert(is_plan(fp_a, fp_b, tol.loose as nat, cap as nat, bands@));
            }
            bands
        },
        None => {
            let mut bands: Vec<(i64, i64)> = Vec::new();
            bands.push(EVERY_OFFSET);
            proof {
                assert(na * nb == 0) by (nonlinear_arith)
                    requires
                        na == 0 || nb == 0,
                ;
                assert(rows.len() == 0);
                lemma_no_frames(fp_a, fp_b, tol.strict as nat, matched_a@, matched_b@);
                assert(bands@ =~= seq![EVERY_OFFSET]);
            }
            bands
        },
    }
}

/// Without samples on one side there is nothing to mark.
proof fn lemma_no_frames(
    a: &VideoFingerprint,
    b: &VideoFingerprint,
    strict: nat,
    marks_a: Seq<bool>,
    marks_b: Seq<bool>,
)
    requires
        a.valid_hashes@.len() == 0 || b.valid_hashes@.len() == 0,
        marks_a.len() == a.valid_hashes@.len(),
        marks_b.len() == b.valid_hashes@.len(),
    ensures
        close_marks(
            a,
            b,
            strict,
            a.valid_hashes@.len() as int,
            0,
            marks_a,
            marks_b,
            marks_a,
            marks_b,
        ),
{
}

/// An offset one alignment tolerance lower, as far as offsets go.
pub open spec fn skirt_below(lo: int) -> int {
    if lo - ALIGNMENT_TOLERANCE_MS >= i64::MIN {
        lo - ALIGNMENT_TOLERANCE_MS
    } else {
        i64::MIN as int
    }
}

/// An offset one alignment tolerance higher, as far as offsets go.
pub open spec fn skirt_above(hi: int) -> int {
    if hi + ALIGNMENT_TOLERANCE_MS <= i64::MAX {
        hi + ALIGNMENT_TOLERANCE_MS
    } else {
        i64::MAX as int
    }
}

fn below(lo: i64) -> (out: i64)
    ensures
        out == skirt_below(lo as int),
{
    if lo >= i64::MIN + ALIGNMENT_TOLERANCE_MS {
        lo - ALIGNMENT_TOLERANCE_MS
    } else {
        i64::MIN
    }
}

fn above(hi: i64) -> (out: i64)
    ensures
        out == skirt_above(hi as int),
{
    if hi <= i64::MAX - ALIGNMENT_TOLERANCE_MS {
        hi + ALIGNMENT_TOLERANCE_MS
    } else {
        i64::MAX
    }
}

/// The matches a band has to hold: its own, and those close enough on either side
/// to witness one of them.
pub open spec fn band_rows(rows: Seq<Aligned>, band: (i64, i64)) -> Seq<Aligned> {
    rows_between(rows, skirt_below(band.0 as int), skirt_above(band.1 as int))
}

/// The most matches any of the first `n` bands has to hold.
pub open spec fn peak(rows: Seq<Aligned>, bands: Seq<(i64, i64)>, n: int) -> nat
    decreases n,
{
    if n <= 0 {
        0
    } else {
        let before = peak(rows, bands, n - 1);
        let own = band_rows(rows, bands[n - 1]).len();
        if own > before {
            own
        } else {
            before
        }
    }
}

proof fn lemma_between(rows: Seq<Aligned>, lo: int, hi: int)
    requires
        rows_differ(rows),
    ensures
        rows_differ(rows_between(rows, lo, hi)),
        forall|x: Aligned| #[trigger]
            rows_between(rows, lo, hi).contains(x) <==> rows.contains(x) && lo <= x.0 <= hi,
        (forall|r: int| 0 <= r < rows.len() ==> lo <= (#[trigger] rows[r]).0 <= hi) ==> rows_between(
            rows,
            lo,
            hi,
        ) == rows,
    decreases rows.len(),
{
    reveal(Seq::filter);
    let list = rows_between(rows, lo, hi);
    if rows.len() > 0 {
        let less = rows.drop_last();
        let row = rows.last();
        assert forall|r: int, q: int|
            0 <= r < less.len() && 0 <= q < less.len() && r != q implies (#[trigger] less[r]).1 != (
        #[trigger] less[q]).1 || less[r].2 != less[q].2 by {
            assert(rows[r].1 != rows[q].1 || rows[r].2 != rows[q].2);
        }
        lemma_between(less, lo, hi);
        let part = rows_between(less, lo, hi);
        assert(less.push(row) =~= rows);
        lemma_between_push(less, row, lo, hi);
        assert forall|x: Aligned| #[trigger] list.contains(x) <==> rows.contains(x) && lo <= x.0
            <= hi by {
            crate::enumeration::lemma_concat_contains(less, seq![row], x);
            assert(rows =~= less + seq![row]);
            crate::enumeration::lemma_concat_contains(part, seq![row], x);
            assert(seq![row][0] == row);
            if lo <= row.0 <= hi {
                assert(list =~= part + seq![row]);
            }
        }
        if lo <= row.0 <= hi {
            assert forall|r: int, q: int|
                0 <= r < list.len() && 0 <= q < list.len() && r != q implies (
            #[trigger] list[r]).1 != (#[trigger] list[q]).1 || list[r].2 != list[q].2 by {
                if r < part.len() && q < part.len() {
                    assert(list[r] == part[r] && list[q] == part[q]);
                } else if r < part.len() {
                    assert(part.contains(part[r]));
                    let x = choose|x: int| 0 <= x < less.len() && less[x] == part[r];
                    assert(rows[x] == list[r] && rows[rows.len() - 1] == list[q]);
                } else {
                    assert(part.contains(part[q]));
                    let x = choose|x: int| 0 <= x < less.len() && less[x] == part[q];
                    assert(rows[x] == list[q] && rows[rows.len() - 1] == list[r]);
                }
            }
        }
        if forall|r: int| 0 <= r < rows.len() ==> lo <= (#[trigger] rows[r]).0 <= hi {
            assert forall|r: int| 0 <= r < less.len() implies lo <= (#[trigger] less[r]).0 <= hi by {
                assert(less[r] == rows[r]);
            }
            assert(rows[rows.len() - 1] == row);
            assert(list =~= rows);
        }
    } else {
        assert(list =~= rows);
    }
}

/// Judging a band against its own matches and its skirt changes no verdict.
proof fn lemma_band(rows: Seq<Aligned>, band: (i64, i64), left: bool, x: int)
    requires
        rows_differ(rows),
        offsets_fit(rows),
    ensures
        is_marked(band_rows(rows, band), band.0 as int, band.1 as int, left, x) <==> is_marked(
            rows,
            band.0 as int,
            band.1 as int,
            left,
            x,
        ),
{
    let part = band_rows(rows, band);
    let lo = band.0 as int;
    let hi = band.1 as int;
    lemma_between(rows, skirt_below(lo), skirt_above(hi));
    if is_marked(part, lo, hi, left, x) {
        let r = choose|r: int|
            0 <= r < part.len() && (if left {
                (#[trigger] part[r]).1
            } else {
                part[r].2
            }) == x && lo <= part[r].0 < hi && is_corroborated(part, part[r]);
        assert(part.contains(part[r]));
        let q = choose|q: int| 0 <= q < rows.len() && rows[q] == part[r];
        lemma_band_verdict(rows, part, band, part[r]);
        assert(rows[q].1 == part[r].1);
    }
    if is_marked(rows, lo, hi, left, x) {
        let q = choose|q: int|
            0 <= q < rows.len() && (if left {
                (#[trigger] rows[q]).1
            } else {
                rows[q].2
            }) == x && lo <= rows[q].0 < hi && is_corroborated(rows, rows[q]);
        assert(rows.contains(rows[q]));
        assert(part.contains(rows[q]));
        let r = choose|r: int| 0 <= r < part.len() && part[r] == rows[q];
        lemma_band_verdict(rows, part, band, rows[q]);
        assert(part[r].1 == rows[q].1);
    }
}

proof fn lemma_band_verdict(
    rows: Seq<Aligned>,
    part: Seq<Aligned>,
    band: (i64, i64),
    row: Aligned,
)
    requires
        offsets_fit(rows),
        forall|x: Aligned| #[trigger]
            part.contains(x) <==> rows.contains(x) && skirt_below(band.0 as int) <= x.0
                <= skirt_above(band.1 as int),
        band.0 <= row.0 < band.1,
    ensures
        is_corroborated(part, row) <==> is_corroborated(rows, row),
{
    let n = witnesses_needed(row.3 as nat) as nat;
    let g = agreeing(part, row.0 as int, row.1, row.2);
    let h = agreeing(rows, row.0 as int, row.1, row.2);
    assert forall|e: Edge| #[trigger] g.contains(e) <==> h.contains(e) by {
        if g.contains(e) {
            let r = choose|r: int|
                0 <= r < part.len() && (#[trigger] part[r]).1 == e.0 && part[r].2 == e.1
                    && -ALIGNMENT_TOLERANCE_MS <= part[r].0 - row.0 <= ALIGNMENT_TOLERANCE_MS;
            assert(part.contains(part[r]));
            let q = choose|q: int| 0 <= q < rows.len() && rows[q] == part[r];
            assert(rows[q].1 == e.0);
        }
        if h.contains(e) {
            let q = choose|q: int|
                0 <= q < rows.len() && (#[trigger] rows[q]).1 == e.0 && rows[q].2 == e.1
                    && -ALIGNMENT_TOLERANCE_MS <= rows[q].0 - row.0 <= ALIGNMENT_TOLERANCE_MS;
            assert(rows.contains(rows[q]));
            assert(part.contains(rows[q]));
            let r = choose|r: int| 0 <= r < part.len() && part[r] == rows[q];
            assert(part[r].1 == e.0);
        }
    }
    if has_matching(g, n) {
        lemma_wider(g, h, n);
    }
    if has_matching(h, n) {
        lemma_wider(h, g, n);
    }
}

/// Is sample `x` marked by one of the first `n` bands?
spec fn is_marked_by(rows: Seq<Aligned>, bands: Seq<(i64, i64)>, n: int, left: bool, x: int) -> bool {
    exists|k: int|
        0 <= k < n && is_marked(
            rows,
            (#[trigger] bands[k]).0 as int,
            bands[k].1 as int,
            left,
            x,
        )
}

/// An offset between the first band's beginning and the last one's end is in one of
/// them.
proof fn lemma_in_some_band(bands: Seq<(i64, i64)>, offset: int, n: int)
    requires
        are_bands(bands),
        0 < n <= bands.len(),
        bands[0].0 <= offset < bands[n - 1].1,
    ensures
        exists|k: int| 0 <= k < n && (#[trigger] bands[k]).0 <= offset < bands[k].1,
    decreases n,
{
    if n > 1 && offset < bands[n - 2].1 {
        lemma_in_some_band(bands, offset, n - 1);
        let k = choose|k: int| 0 <= k < n - 1 && (#[trigger] bands[k]).0 <= offset < bands[k].1;
        assert(bands[k].0 <= offset);
    } else if n > 1 {
        assert(bands[n - 2].1 == bands[n - 1].0);
        assert(bands[n - 1].0 <= offset);
    } else {
        assert(bands[0].0 <= offset);
    }
}

/// Marking band by band marks what marking all at once does.
proof fn lemma_all_bands(rows: Seq<Aligned>, bands: Seq<(i64, i64)>, left: bool, x: int)
    requires
        are_bands(bands),
        offsets_fit(rows),
        forall|r: int|
            0 <= r < rows.len() ==> bands[0].0 <= (#[trigger] rows[r]).0 < bands[bands.len()
                - 1].1,
    ensures
        is_marked_by(rows, bands, bands.len() as int, left, x) <==> is_marked(
            rows,
            i64::MIN as int,
            i64::MAX as int,
            left,
            x,
        ),
{
    if is_marked(rows, i64::MIN as int, i64::MAX as int, left, x) {
        let r = choose|r: int|
            0 <= r < rows.len() && (if left {
                (#[trigger] rows[r]).1
            } else {
                rows[r].2
            }) == x && i64::MIN <= rows[r].0 < i64::MAX && is_corroborated(rows, rows[r]);
        lemma_in_some_band(bands, rows[r].0 as int, bands.len() as int);
        let k = choose|k: int|
            0 <= k < bands.len() && (#[trigger] bands[k]).0 <= rows[r].0 < bands[k].1;
        assert(is_marked(rows, bands[k].0 as int, bands[k].1 as int, left, x));
    }
    if is_marked_by(rows, bands, bands.len() as int, left, x) {
        let k = choose|k: int|
            0 <= k < bands.len() && is_marked(
                rows,
                (#[trigger] bands[k]).0 as int,
                bands[k].1 as int,
                left,
                x,
            );
        let r = choose|r: int|
            0 <= r < rows.len() && (if left {
                (#[trigger] rows[r]).1
            } else {
                rows[r].2
            }) == x && bands[k].0 <= rows[r].0 < bands[k].1 && is_corroborated(rows, rows[r]);
        assert(-0x1_0000_0000 < rows[r].0 < 0x1_0000_0000);
    }
}

/// What the strict matches and the corroborated ones mark together.
proof fn lemma_matched(a: &VideoFingerprint, b: &VideoFingerprint, strict: nat, loose: nat, x: int)
    requires
        is_timed(a),
        is_timed(b),
    ensures
        0 <= x < a.valid_hashes@.len() ==> (is_matched_a(a, b, strict, loose, x) <==> is_close_a(
            a,
            b,
            strict,
            x,
            a.valid_hashes@.len() as int,
            0,
        ) || is_marked(all_rows(a, b, loose), i64::MIN as int, i64::MAX as int, true, x)),
        0 <= x < b.valid_hashes@.len() ==> (is_matched_b(a, b, strict, loose, x) <==> is_close_b(
            a,
            b,
            strict,
            x,
            a.valid_hashes@.len() as int,
            0,
        ) || is_marked(all_rows(a, b, loose), i64::MIN as int, i64::MAX as int, false, x)),
{
    let rows = all_rows(a, b, loose);
    let na = a.valid_hashes@.len() as int;
    let nb = b.valid_hashes@.len() as int;
    lemma_rows_upto(a, b, loose, na);
    if 0 <= x < na {
        if is_matched_a(a, b, strict, loose, x) {
            let j = choose|j: int| #[trigger] is_admitted(a, b, strict, loose, x, j);
            if frame_distance(a, b, x, j) <= strict {
                assert(is_before(x, j, na, 0));
            } else {
                let row = frame_row(a, b, x, j);
                assert(rows.contains(row));
                let r = choose|r: int| 0 <= r < rows.len() && rows[r] == row;
                assert(rows[r].1 == x);
            }
        }
        if is_close_a(a, b, strict, x, na, 0) {
            let j = choose|j: int|
                0 <= j < nb && is_before(x, j, na, 0) && #[trigger] frame_distance(a, b, x, j)
                    <= strict;
            assert(is_admitted(a, b, strict, loose, x, j));
        }
        if is_marked(rows, i64::MIN as int, i64::MAX as int, true, x) {
            let r = choose|r: int|
                0 <= r < rows.len() && (#[trigger] rows[r]).1 == x && i64::MIN <= rows[r].0
                    < i64::MAX && is_corroborated(rows, rows[r]);
            assert(is_admitted(a, b, strict, loose, x, rows[r].2 as int));
        }
    }
    if 0 <= x < nb {
        if is_matched_b(a, b, strict, loose, x) {
            let i = choose|i: int| #[trigger] is_admitted(a, b, strict, loose, i, x);
            if frame_distance(a, b, i, x) <= strict {
                assert(is_before(i, x, na, 0));
            } else {
                let row = frame_row(a, b, i, x);
                assert(rows.contains(row));
                let r = choose|r: int| 0 <= r < rows.len() && rows[r] == row;
                assert(rows[r].2 == x);
            }
        }
        if is_close_b(a, b, strict, x, na, 0) {
            let i = choose|i: int|
                0 <= i < na && is_before(i, x, na, 0) && #[trigger] frame_distance(a, b, i, x)
                    <= strict;
            assert(is_admitted(a, b, strict, loose, i, x));
        }
        if is_marked(rows, i64::MIN as int, i64::MAX as int, false, x) {
            let r = choose|r: int|
                0 <= r < rows.len() && (#[trigger] rows[r]).2 == x && i64::MIN <= rows[r].0
                    < i64::MAX && is_corroborated(rows, rows[r]);
            assert(is_admitted(a, b, strict, loose, rows[r].1 as int, x));
        }
    }
}

/// The most matches held at once: all of them when they fit, and otherwise what the
/// fullest band needs of those the pair is cut into.
pub open spec fn is_held(
    a: &VideoFingerprint,
    b: &VideoFingerprint,
    loose: nat,
    cap: nat,
    held: nat,
) -> bool {
    let rows = all_rows(a, b, loose);
    if rows.len() <= cap {
        held == rows.len()
    } else {
        exists|bands: Seq<(i64, i64)>| #[trigger]
            is_plan(a, b, loose, cap, bands) && held == peak(rows, bands, bands.len() as int)
    }
}

/// Run the corroboration rule over one pair, holding at most `cap` matches at a
/// time where the pair can be cut that finely. Returns the most it held at once.
///
/// Past the cap the pair is walked in bands of the time-offset axis. Each band is
/// collected with a skirt of one alignment tolerance on either side, so every
/// witness of every match inside it is there, and only the matches inside it are
/// judged. The bands leave no gap, so every match is judged against exactly the
/// witnesses the whole list would have offered it: the verdicts do not depend on
/// the cap.
#[verifier::rlimit(40)]
pub fn corroborate_pair(
    fp_a: &VideoFingerprint,
    fp_b: &VideoFingerprint,
    rule: Rule,
    matched_a: &mut Vec<bool>,
    matched_b: &mut Vec<bool>,
    cap: usize,
    witnesses: &mut Witnesses,
) -> (held: usize)
    requires
        is_timed(fp_a),
        is_timed(fp_b),
        is_schedule(rule.schedule@),
        old(witnesses).is_valid(),
        old(matched_a)@.len() == fp_a.valid_hashes@.len(),
        old(matched_b)@.len() == fp_b.valid_hashes@.len(),
    ensures
        final(witnesses).is_valid(),
        final(matched_a)@.len() == old(matched_a)@.len(),
        final(matched_b)@.len() == old(matched_b)@.len(),
        forall|x: int|
            0 <= x < old(matched_a)@.len() ==> (#[trigger] final(matched_a)@[x] <==> old(
                matched_a,
            )@[x] || is_matched_a(
                fp_a,
                fp_b,
                rule.tol.strict as nat,
                rule.tol.loose as nat,
                x,
            )),
        forall|x: int|
            0 <= x < old(matched_b)@.len() ==> (#[trigger] final(matched_b)@[x] <==> old(
                matched_b,
            )@[x] || is_matched_b(
                fp_a,
                fp_b,
                rule.tol.strict as nat,
                rule.tol.loose as nat,
                x,
            )),
        is_held(fp_a, fp_b, rule.tol.loose as nat, cap as nat, held as nat),
{
    let tol = rule.tol;
    let ghost strict = tol.strict as nat;
    let ghost loose = tol.loose as nat;
    let ghost rows = all_rows(fp_a, fp_b, loose);
    let ghost na = fp_a.valid_hashes@.len() as int;
    let ghost nb = fp_b.valid_hashes@.len() as int;
    proof {
        lemma_rows_upto(fp_a, fp_b, loose, na);
        lemma_between(rows, i64::MIN as int, i64::MAX as int);
        assert(rows_between(rows, i64::MIN as int, i64::MAX as int) == rows);
        lemma_row_facts(fp_a, fp_b, loose);
        assert forall|x: int| 0 <= x < na implies (#[trigger] is_matched_a(
            fp_a,
            fp_b,
            strict,
            loose,
            x,
        ) <==> is_close_a(fp_a, fp_b, strict, x, na, 0) || is_marked(
            rows,
            i64::MIN as int,
            i64::MAX as int,
            true,
            x,
        )) by {
            lemma_matched(fp_a, fp_b, strict, loose, x);
        }
        assert forall|x: int| 0 <= x < nb implies (#[trigger] is_matched_b(
            fp_a,
            fp_b,
            strict,
            loose,
            x,
        ) <==> is_close_b(fp_a, fp_b, strict, x, na, 0) || is_marked(
            rows,
            i64::MIN as int,
            i64::MAX as int,
            false,
            x,
        )) by {
            lemma_matched(fp_a, fp_b, strict, loose, x);
        }
    }
    let (mut aligned, total) = collect(
        fp_a,
        fp_b,
        tol,
        matched_a,
        matched_b,
        EVERY_OFFSET,
        Some(cap),
    );
    let ghost close_a = matched_a@;
    let ghost close_b = matched_b@;
    if total <= cap as u64 {
        let ghost all = aligned@;
        proof {
            lemma_schedule_is_table(rule.schedule@);
        }
        corroborated(&mut aligned, rule.schedule, matched_a, matched_b, EVERY_OFFSET, witnesses);
        proof {
            assert forall|x: int, left: bool| #[trigger]
                is_flagged(
                    all,
                    rule.schedule@,
                    i64::MIN as int,
                    i64::MAX as int,
                    left,
                    x,
                ) <==> is_marked(all, i64::MIN as int, i64::MAX as int, left, x) by {
                lemma_flagged_is_marked(
                    all,
                    rule.schedule@,
                    i64::MIN as int,
                    i64::MAX as int,
                    left,
                    x,
                );
            }
            lemma_same_members(aligned@, all);
            assert forall|x: int| 0 <= x < na implies (#[trigger] matched_a@[x] <==> old(
                matched_a,
            )@[x] || is_matched_a(fp_a, fp_b, strict, loose, x)) by {
                assert(close_a[x] <==> old(matched_a)@[x] || is_close_a(
                    fp_a,
                    fp_b,
                    strict,
                    x,
                    na,
                    0,
                ));
            }
            assert forall|x: int| 0 <= x < nb implies (#[trigger] matched_b@[x] <==> old(
                matched_b,
            )@[x] || is_matched_b(fp_a, fp_b, strict, loose, x)) by {
                assert(close_b[x] <==> old(matched_b)@[x] || is_close_b(
                    fp_a,
                    fp_b,
                    strict,
                    x,
                    na,
                    0,
                ));
            }
        }
        return aligned.len();
    }
    let bands = plan_bands(fp_a, fp_b, tol, matched_a, matched_b, cap);
    proof {
        lemma_close_again(
            fp_a,
            fp_b,
            strict,
            old(matched_a)@,
            old(matched_b)@,
            close_a,
            close_b,
            matched_a@,
            matched_b@,
        );
    }
    let mut held: usize = 0;
    for k in 0..bands.len()
        invariant
            is_timed(fp_a),
            is_timed(fp_b),
            is_schedule(rule.schedule@),
            witnesses.is_valid(),
            tol == rule.tol,
            strict == tol.strict,
            loose == tol.loose,
            rows == all_rows(fp_a, fp_b, loose),
            na == fp_a.valid_hashes@.len(),
            nb == fp_b.valid_hashes@.len(),
            matched_a@.len() == na,
            matched_b@.len() == nb,
            close_a.len() == na,
            close_b.len() == nb,
            rows_differ(rows),
            rows_fit(rows, na as nat, nb as nat),
            offsets_fit(rows),
            forall|r: int| 0 <= r < rows.len() ==> (#[trigger] rows[r]).3 <= HASH_BITS,
            forall|x: int|
                0 <= x < na && is_close_a(fp_a, fp_b, strict, x, na, 0) ==> #[trigger] close_a[x],
            forall|x: int|
                0 <= x < nb && is_close_b(fp_a, fp_b, strict, x, na, 0) ==> #[trigger] close_b[x],
            forall|x: int|
                0 <= x < na ==> (#[trigger] matched_a@[x] <==> close_a[x] || is_marked_by(
                    rows,
                    bands@,
                    k as int,
                    true,
                    x,
                )),
            forall|x: int|
                0 <= x < nb ==> (#[trigger] matched_b@[x] <==> close_b[x] || is_marked_by(
                    rows,
                    bands@,
                    k as int,
                    false,
                    x,
                )),
            held == peak(rows, bands@, k as int),
    {
        let (lo, hi) = bands[k];
        let ghost band = bands@[k as int];
        let ghost before_a = matched_a@;
        let ghost before_b = matched_b@;
        let (mut part, _count) = collect(
            fp_a,
            fp_b,
            tol,
            matched_a,
            matched_b,
            (below(lo), above(hi)),
            None,
        );
        proof {
            assert(part@ == band_rows(rows, band));
            lemma_between(rows, skirt_below(lo as int), skirt_above(hi as int));
            lemma_part_facts(rows, part@, na as nat, nb as nat);
            assert forall|x: int| 0 <= x < na implies matched_a@[x] == #[trigger] before_a[x] by {
                if is_close_a(fp_a, fp_b, strict, x, na, 0) {
                    assert(close_a[x]);
                }
            }
            assert forall|x: int| 0 <= x < nb implies matched_b@[x] == #[trigger] before_b[x] by {
                if is_close_b(fp_a, fp_b, strict, x, na, 0) {
                    assert(close_b[x]);
                }
            }
        }
        if part.len() > held {
            held = part.len();
        }
        let ghost own = part@;
        proof {
            lemma_schedule_is_table(rule.schedule@);
        }
        corroborated(&mut part, rule.schedule, matched_a, matched_b, (lo, hi), witnesses);
        proof {
            assert forall|x: int, left: bool| #[trigger]
                is_flagged(own, rule.schedule@, lo as int, hi as int, left, x) <==> is_marked(
                    own,
                    lo as int,
                    hi as int,
                    left,
                    x,
                ) by {
                lemma_flagged_is_marked(own, rule.schedule@, lo as int, hi as int, left, x);
            }
            assert forall|x: int, left: bool| #[trigger]
                is_marked_by(rows, bands@, k + 1, left, x) <==> is_marked_by(
                    rows,
                    bands@,
                    k as int,
                    left,
                    x,
                ) || is_marked(own, lo as int, hi as int, left, x) by {
                lemma_band(rows, band, left, x);
                lemma_marked_by_push(rows, bands@, k as int, left, x);
            }
            assert forall|x: int| 0 <= x < na implies (#[trigger] matched_a@[x] <==> close_a[x]
                || is_marked_by(rows, bands@, k + 1, true, x)) by {
                assert(before_a[x] <==> close_a[x] || is_marked_by(
                    rows,
                    bands@,
                    k as int,
                    true,
                    x,
                ));
            }
            assert forall|x: int| 0 <= x < nb implies (#[trigger] matched_b@[x] <==> close_b[x]
                || is_marked_by(rows, bands@, k + 1, false, x)) by {
                assert(before_b[x] <==> close_b[x] || is_marked_by(
                    rows,
                    bands@,
                    k as int,
                    false,
                    x,
                ));
            }
        }
    }
    proof {
        assert forall|x: int| 0 <= x < na implies (#[trigger] matched_a@[x] <==> old(
            matched_a,
        )@[x] || is_matched_a(fp_a, fp_b, strict, loose, x)) by {
            lemma_all_bands(rows, bands@, true, x);
            assert(close_a[x] <==> old(matched_a)@[x] || is_close_a(fp_a, fp_b, strict, x, na, 0));
        }
        assert forall|x: int| 0 <= x < nb implies (#[trigger] matched_b@[x] <==> old(
            matched_b,
        )@[x] || is_matched_b(fp_a, fp_b, strict, loose, x)) by {
            lemma_all_bands(rows, bands@, false, x);
            assert(close_b[x] <==> old(matched_b)@[x] || is_close_b(fp_a, fp_b, strict, x, na, 0));
        }
        assert(is_plan(fp_a, fp_b, loose, cap as nat, bands@));
    }
    held
}

proof fn lemma_marked_by_push(
    rows: Seq<Aligned>,
    bands: Seq<(i64, i64)>,
    n: int,
    left: bool,
    x: int,
)
    requires
        0 <= n < bands.len(),
    ensures
        is_marked_by(rows, bands, n + 1, left, x) <==> is_marked_by(rows, bands, n, left, x)
            || is_marked(rows, bands[n].0 as int, bands[n].1 as int, left, x),
{
}

/// What holds of every row holds of some of the rows.
proof fn lemma_part_facts(rows: Seq<Aligned>, part: Seq<Aligned>, na: nat, nb: nat)
    requires
        rows_fit(rows, na, nb),
        offsets_fit(rows),
        forall|r: int| 0 <= r < rows.len() ==> (#[trigger] rows[r]).3 <= HASH_BITS,
        forall|x: Aligned| #[trigger] part.contains(x) ==> rows.contains(x),
    ensures
        rows_fit(part, na, nb),
        offsets_fit(part),
        forall|r: int| 0 <= r < part.len() ==> (#[trigger] part[r]).3 <= HASH_BITS,
{
    assert forall|r: int| 0 <= r < part.len() implies (#[trigger] part[r]).3 <= HASH_BITS
        && part[r].1 < na && part[r].2 < nb && -0x1_0000_0000 < part[r].0 < 0x1_0000_0000 by {
        assert(part.contains(part[r]));
        let q = choose|q: int| 0 <= q < rows.len() && rows[q] == part[r];
        assert(rows[q] == part[r]);
    }
}

proof fn lemma_row_facts(a: &VideoFingerprint, b: &VideoFingerprint, loose: nat)
    requires
        is_timed(a),
        is_timed(b),
    ensures
        rows_fit(all_rows(a, b, loose), a.valid_hashes@.len(), b.valid_hashes@.len()),
        forall|r: int|
            0 <= r < all_rows(a, b, loose).len() ==> (#[trigger] all_rows(a, b, loose)[r]).3
                <= HASH_BITS,
{
    lemma_rows_upto(a, b, loose, a.valid_hashes@.len() as int);
    let rows = all_rows(a, b, loose);
    assert forall|r: int| 0 <= r < rows.len() implies (#[trigger] rows[r]).3 <= HASH_BITS
        && rows[r].1 < a.valid_hashes@.len() && rows[r].2 < b.valid_hashes@.len() by {
        let row = rows[r];
        crate::frames::lemma_ones_bound(
            a.valid_hashes@[row.1 as int] ^ b.valid_hashes@[row.2 as int],
        );
    }
}

/// Marking the strict matches a second time marks nothing new.
proof fn lemma_close_again(
    a: &VideoFingerprint,
    b: &VideoFingerprint,
    strict: nat,
    before_a: Seq<bool>,
    before_b: Seq<bool>,
    once_a: Seq<bool>,
    once_b: Seq<bool>,
    twice_a: Seq<bool>,
    twice_b: Seq<bool>,
)
    requires
        close_marks(
            a,
            b,
            strict,
            a.valid_hashes@.len() as int,
            0,
            before_a,
            before_b,
            once_a,
            once_b,
        ),
        close_marks(
            a,
            b,
            strict,
            a.valid_hashes@.len() as int,
            0,
            once_a,
            once_b,
            twice_a,
            twice_b,
        ),
    ensures
        twice_a == once_a,
        twice_b == once_b,
{
    assert forall|x: int| 0 <= x < once_a.len() implies #[trigger] twice_a[x] == once_a[x] by {}
    assert forall|x: int| 0 <= x < once_b.len() implies #[trigger] twice_b[x] == once_b[x] by {}
    assert(twice_a =~= once_a);
    assert(twice_b =~= once_b);
}

} // verus!
