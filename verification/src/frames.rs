//! Which frames of two videos match, and which of those matches others agree with.

use crate::bits::ones;
use crate::evidence::{loose_for, witnesses_needed};
use crate::fingerprint::VideoFingerprint;
use crate::matching::{has_matching, lemma_wider, Edge};
use crate::witness::{rows_differ, Aligned};
use vstd::prelude::*;

verus! {

/// How far apart two frame matches may place the videos and still count as the
/// same alignment, in milliseconds.
pub const ALIGNMENT_TOLERANCE_MS: i64 = 500;

/// The most frame matches the corroboration rule will hold for one pair at once.
pub const MAX_ALIGNED_MATCHES: usize = 1_048_576;

/// The most buckets the time-offset axis is counted into.
pub const MAX_BUCKETS: i64 = 1_048_576;

/// The whole of the time-offset axis.
pub const EVERY_OFFSET: (i64, i64) = (i64::MIN, i64::MAX);

/// How many bits two hashes differ in.
pub open spec fn distance(a: u64, b: u64) -> nat {
    ones(a ^ b)
}

/// Every stored hash has its times, and samples can be numbered.
pub open spec fn is_timed(fp: &VideoFingerprint) -> bool {
    &&& fp.valid_t_start@.len() == fp.valid_hashes@.len()
    &&& fp.valid_t_end@.len() == fp.valid_hashes@.len()
    &&& fp.valid_hashes@.len() < u32::MAX
}

/// Every stored hash has half of its bits set.
pub open spec fn is_balanced(fp: &VideoFingerprint) -> bool {
    forall|i: int| 0 <= i < fp.valid_hashes@.len() ==> ones(#[trigger] fp.valid_hashes@[i]) == 32
}

/// How far apart sample `i` of one video and sample `j` of the other are.
pub open spec fn frame_distance(a: &VideoFingerprint, b: &VideoFingerprint, i: int, j: int) -> nat {
    distance(a.valid_hashes@[i], b.valid_hashes@[j])
}

/// The time offset between the videos that a match of the two samples implies.
pub open spec fn frame_offset(a: &VideoFingerprint, b: &VideoFingerprint, i: int, j: int) -> int {
    a.valid_t_start@[i] - b.valid_t_start@[j]
}

/// The frame match of two samples.
pub open spec fn frame_row(a: &VideoFingerprint, b: &VideoFingerprint, i: int, j: int) -> Aligned {
    (
        frame_offset(a, b, i, j) as i64,
        i as u32,
        j as u32,
        frame_distance(a, b, i, j) as u32,
    )
}

/// The frame matches within `loose` of sample `i`, up to sample `n` of the other.
pub open spec fn rows_of(
    a: &VideoFingerprint,
    b: &VideoFingerprint,
    loose: nat,
    i: int,
    n: int,
) -> Seq<Aligned>
    decreases n,
{
    if n <= 0 {
        Seq::empty()
    } else if frame_distance(a, b, i, n - 1) <= loose {
        rows_of(a, b, loose, i, n - 1).push(frame_row(a, b, i, n - 1))
    } else {
        rows_of(a, b, loose, i, n - 1)
    }
}

/// The frame matches within `loose` of the first `m` samples.
pub open spec fn rows_upto(
    a: &VideoFingerprint,
    b: &VideoFingerprint,
    loose: nat,
    m: int,
) -> Seq<Aligned>
    decreases m,
{
    if m <= 0 {
        Seq::empty()
    } else {
        rows_upto(a, b, loose, m - 1) + rows_of(
            a,
            b,
            loose,
            m - 1,
            b.valid_hashes@.len() as int,
        )
    }
}

/// Every frame match of two videos within `loose`.
pub open spec fn all_rows(a: &VideoFingerprint, b: &VideoFingerprint, loose: nat) -> Seq<Aligned> {
    rows_upto(a, b, loose, a.valid_hashes@.len() as int)
}

/// The frame matches with offsets in a range, ends included.
pub open spec fn rows_between(rows: Seq<Aligned>, lo: int, hi: int) -> Seq<Aligned> {
    rows.filter(|r: Aligned| lo <= r.0 <= hi)
}

/// The samples of the frame matches that agree with a match at `offset`, other
/// than those sharing a sample with it.
pub open spec fn agreeing(rows: Seq<Aligned>, offset: int, i: u32, j: u32) -> Set<Edge> {
    Set::new(
        |e: Edge|
            e.0 != i && e.1 != j && exists|r: int|
                0 <= r < rows.len() && (#[trigger] rows[r]).1 == e.0 && rows[r].2 == e.1
                    && -ALIGNMENT_TOLERANCE_MS <= rows[r].0 - offset <= ALIGNMENT_TOLERANCE_MS,
    )
}

/// Do enough of the frame matches agree with this one?
pub open spec fn is_corroborated(rows: Seq<Aligned>, row: Aligned) -> bool {
    &&& witnesses_needed(row.3 as nat) != u32::MAX
    &&& has_matching(
        agreeing(rows, row.0 as int, row.1, row.2),
        witnesses_needed(row.3 as nat) as nat,
    )
}

/// Is the match of two samples taken: at face value, or because enough others
/// agree with it?
pub open spec fn is_admitted(
    a: &VideoFingerprint,
    b: &VideoFingerprint,
    strict: nat,
    loose: nat,
    i: int,
    j: int,
) -> bool {
    &&& 0 <= i < a.valid_hashes@.len()
    &&& 0 <= j < b.valid_hashes@.len()
    &&& frame_distance(a, b, i, j) <= strict || (frame_distance(a, b, i, j) <= loose
        && is_corroborated(all_rows(a, b, loose), frame_row(a, b, i, j)))
}

/// Is sample `i` of `a` matched by some sample of `b`?
pub open spec fn is_matched_a(
    a: &VideoFingerprint,
    b: &VideoFingerprint,
    strict: nat,
    loose: nat,
    i: int,
) -> bool {
    exists|j: int| #[trigger] is_admitted(a, b, strict, loose, i, j)
}

/// Is sample `j` of `b` matched by some sample of `a`?
pub open spec fn is_matched_b(
    a: &VideoFingerprint,
    b: &VideoFingerprint,
    strict: nat,
    loose: nat,
    j: int,
) -> bool {
    exists|i: int| #[trigger] is_admitted(a, b, strict, loose, i, j)
}

/// Offsets are differences of two sample times.
pub open spec fn offsets_fit(rows: Seq<Aligned>) -> bool {
    forall|r: int|
        0 <= r < rows.len() ==> -0x1_0000_0000 < (#[trigger] rows[r]).0 < 0x1_0000_0000
}

/// Two hashes differ in at most all of their bits.
pub proof fn lemma_ones_bound(x: u64)
    ensures
        ones(x) <= 64,
{
    vstd::arithmetic::power2::lemma2_to64();
    crate::bits::lemma_ones_below(x, 64);
}

/// What the rows of one sample hold.
proof fn lemma_rows_of(a: &VideoFingerprint, b: &VideoFingerprint, loose: nat, i: int, n: int)
    requires
        is_timed(a),
        is_timed(b),
        0 <= i < a.valid_hashes@.len(),
        0 <= n <= b.valid_hashes@.len(),
    ensures
        rows_of(a, b, loose, i, n).len() <= n,
        forall|r: int|
            0 <= r < rows_of(a, b, loose, i, n).len() ==> {
                let row = #[trigger] rows_of(a, b, loose, i, n)[r];
                row.1 == i && row.2 < n && row == frame_row(a, b, i, row.2 as int)
                    && frame_distance(a, b, i, row.2 as int) <= loose
            },
        forall|r: int, q: int|
            0 <= r < q < rows_of(a, b, loose, i, n).len() ==> (#[trigger] rows_of(
                a,
                b,
                loose,
                i,
                n,
            )[r]).2 < (#[trigger] rows_of(a, b, loose, i, n)[q]).2,
        forall|j: int|
            0 <= j < n && #[trigger] frame_distance(a, b, i, j) <= loose ==> rows_of(
                a,
                b,
                loose,
                i,
                n,
            ).contains(frame_row(a, b, i, j)),
    decreases n,
{
    if n > 0 {
        lemma_rows_of(a, b, loose, i, n - 1);
        let less = rows_of(a, b, loose, i, n - 1);
        let more = rows_of(a, b, loose, i, n);
        assert forall|r: int| 0 <= r < more.len() implies {
            let row = #[trigger] more[r];
            row.1 == i && row.2 < n && row == frame_row(a, b, i, row.2 as int) && frame_distance(
                a,
                b,
                i,
                row.2 as int,
            ) <= loose
        } by {
            if r < less.len() {
                assert(more[r] == less[r]);
            }
        }
        assert forall|r: int, q: int| 0 <= r < q < more.len() implies (#[trigger] more[r]).2 < (
        #[trigger] more[q]).2 by {
            assert(more[r] == less[r]);
            if q < less.len() {
                assert(more[q] == less[q]);
            }
        }
        assert forall|j: int| 0 <= j < n && #[trigger] frame_distance(a, b, i, j)
            <= loose implies more.contains(frame_row(a, b, i, j)) by {
            if j < n - 1 {
                assert(less.contains(frame_row(a, b, i, j)));
                let r = choose|r: int| 0 <= r < less.len() && less[r] == frame_row(a, b, i, j);
                assert(more[r] == frame_row(a, b, i, j));
            } else {
                assert(more[less.len() as int] == frame_row(a, b, i, j));
            }
        }
    }
}

/// What the rows of the first samples hold.
pub proof fn lemma_rows_upto(a: &VideoFingerprint, b: &VideoFingerprint, loose: nat, m: int)
    requires
        is_timed(a),
        is_timed(b),
        0 <= m <= a.valid_hashes@.len(),
    ensures
        rows_upto(a, b, loose, m).len() <= m * b.valid_hashes@.len(),
        forall|r: int|
            0 <= r < rows_upto(a, b, loose, m).len() ==> {
                let row = #[trigger] rows_upto(a, b, loose, m)[r];
                row.1 < m && row.2 < b.valid_hashes@.len() && row == frame_row(
                    a,
                    b,
                    row.1 as int,
                    row.2 as int,
                ) && frame_distance(a, b, row.1 as int, row.2 as int) <= loose
            },
        forall|i: int, j: int|
            0 <= i < m && 0 <= j < b.valid_hashes@.len() && #[trigger] frame_distance(a, b, i, j)
                <= loose ==> rows_upto(a, b, loose, m).contains(frame_row(a, b, i, j)),
        rows_differ(rows_upto(a, b, loose, m)),
        offsets_fit(rows_upto(a, b, loose, m)),
        rows_upto(a, b, loose, m).no_duplicates(),
    decreases m,
{
    let n = b.valid_hashes@.len() as int;
    if m > 0 {
        lemma_rows_upto(a, b, loose, m - 1);
        lemma_rows_of(a, b, loose, m - 1, n);
        let less = rows_upto(a, b, loose, m - 1);
        let own = rows_of(a, b, loose, m - 1, n);
        let more = rows_upto(a, b, loose, m);
        assert((m - 1) * n + n == m * n) by (nonlinear_arith);
        assert forall|r: int| 0 <= r < more.len() implies {
            let row = #[trigger] more[r];
            row.1 < m && row.2 < n && row == frame_row(a, b, row.1 as int, row.2 as int)
                && frame_distance(a, b, row.1 as int, row.2 as int) <= loose
        } by {
            if r < less.len() {
                assert(more[r] == less[r]);
            } else {
                assert(more[r] == own[r - less.len()]);
            }
        }
        assert forall|i: int, j: int|
            0 <= i < m && 0 <= j < n && #[trigger] frame_distance(a, b, i, j)
                <= loose implies more.contains(frame_row(a, b, i, j)) by {
            if i < m - 1 {
                assert(less.contains(frame_row(a, b, i, j)));
                let r = choose|r: int| 0 <= r < less.len() && less[r] == frame_row(a, b, i, j);
                assert(more[r] == frame_row(a, b, i, j));
            } else {
                assert(own.contains(frame_row(a, b, i, j)));
                let r = choose|r: int| 0 <= r < own.len() && own[r] == frame_row(a, b, i, j);
                assert(more[r + less.len()] == frame_row(a, b, i, j));
            }
        }
        assert forall|r: int, q: int|
            0 <= r < more.len() && 0 <= q < more.len() && r != q implies (#[trigger] more[r]).1 != (
        #[trigger] more[q]).1 || more[r].2 != more[q].2 by {
            if r < less.len() && q < less.len() {
                assert(more[r] == less[r] && more[q] == less[q]);
            } else if r < less.len() {
                assert(more[r] == less[r] && more[q] == own[q - less.len()]);
            } else if q < less.len() {
                assert(more[q] == less[q] && more[r] == own[r - less.len()]);
            } else {
                assert(more[q] == own[q - less.len()] && more[r] == own[r - less.len()]);
                if r < q {
                    assert(own[r - less.len()].2 < own[q - less.len()].2);
                } else {
                    assert(own[q - less.len()].2 < own[r - less.len()].2);
                }
            }
        }
        assert forall|r: int| 0 <= r < more.len() implies -0x1_0000_0000 < (#[trigger] more[r]).0
            < 0x1_0000_0000 by {
            let row = more[r];
            assert(row == frame_row(a, b, row.1 as int, row.2 as int));
            assert(-0x1_0000_0000 < frame_offset(a, b, row.1 as int, row.2 as int)
                < 0x1_0000_0000);
        }
    } else {
        assert(m * n == 0) by (nonlinear_arith)
            requires
                m == 0,
        ;
    }
    let rows = rows_upto(a, b, loose, m);
    assert forall|r: int, q: int| 0 <= r < rows.len() && 0 <= q < rows.len() && r != q implies rows[r]
        != rows[q] by {
        assert(rows[r].1 != rows[q].1 || rows[r].2 != rows[q].2);
    }
}

/// A sequence only gains members by being widened.
pub proof fn lemma_agreeing_grows(
    rows: Seq<Aligned>,
    wider: Seq<Aligned>,
    offset: int,
    i: u32,
    j: u32,
)
    requires
        forall|r: int| 0 <= r < rows.len() ==> wider.contains(#[trigger] rows[r]),
    ensures
        forall|e: Edge| #[trigger]
            agreeing(rows, offset, i, j).contains(e) ==> agreeing(wider, offset, i, j).contains(e),
{
    assert forall|e: Edge| #[trigger] agreeing(rows, offset, i, j).contains(e) implies agreeing(
        wider,
        offset,
        i,
        j,
    ).contains(e) by {
        let r = choose|r: int|
            0 <= r < rows.len() && (#[trigger] rows[r]).1 == e.0 && rows[r].2 == e.1
                && -ALIGNMENT_TOLERANCE_MS <= rows[r].0 - offset <= ALIGNMENT_TOLERANCE_MS;
        assert(wider.contains(rows[r]));
        let q = choose|q: int| 0 <= q < wider.len() && wider[q] == rows[r];
        assert(wider[q].1 == e.0);
    }
}

/// A wider tolerance never takes a frame match away.
pub proof fn lemma_tolerance_only_admits_more(
    a: &VideoFingerprint,
    b: &VideoFingerprint,
    d: nat,
    e: nat,
    i: int,
    j: int,
)
    requires
        is_timed(a),
        is_timed(b),
        d <= e,
        is_admitted(a, b, d, loose_for(d), i, j),
    ensures
        is_admitted(a, b, e, loose_for(e), i, j),
{
    let near = all_rows(a, b, loose_for(d));
    let far = all_rows(a, b, loose_for(e));
    let row = frame_row(a, b, i, j);
    if frame_distance(a, b, i, j) > d {
        lemma_rows_upto(a, b, loose_for(d), a.valid_hashes@.len() as int);
        lemma_rows_upto(a, b, loose_for(e), a.valid_hashes@.len() as int);
        assert forall|r: int| 0 <= r < near.len() implies far.contains(#[trigger] near[r]) by {
            let x = near[r];
            assert(frame_distance(a, b, x.1 as int, x.2 as int) <= loose_for(e));
        }
        lemma_agreeing_grows(near, far, row.0 as int, row.1, row.2);
        lemma_wider(
            agreeing(near, row.0 as int, row.1, row.2),
            agreeing(far, row.0 as int, row.1, row.2),
            witnesses_needed(row.3 as nat) as nat,
        );
    }
}

} // verus!
