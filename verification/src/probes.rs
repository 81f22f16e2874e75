//! What telling a video from any other file promises.

use crate::media::{
    first_look, found_by, is_first_verdict, is_passing, is_passing_failure, is_passing_in,
    is_transient, not_media, second_look, unrecognised, Cause, NotMedia, Probe,
};
use crate::stats::RunStats;
use crate::text::number;
use vstd::prelude::*;

verus! {

/// How much is read of a file, at most what it holds.
pub open spec fn at_most(want: int, held: usize) -> int {
    if held < want {
        held as int
    } else {
        want
    }
}

/// The first look opens a file that scores more than one, refuses one that scores nothing,
/// and leaves any other to a second look. The second opens one that scores more than one
/// and refuses any other. A refusal tells how much was read and what it scored.
pub proof fn lemma_what_two_looks_decide(
    score: i32,
    held: usize,
    first: Probe,
    second: Probe,
)
    requires
        call_ensures(first_look, (score, held), first),
        call_ensures(second_look, (score, held), second),
    ensures
        score >= 2 ==> first == Probe::Open && second == Probe::Open,
        score == 0 ==> (first matches Probe::Refuse(v) && v.bytes == at_most(2048, held) && v.score
            == 0),
        score == 1 || score < 0 ==> first == Probe::LookAgain,
        score <= 1 ==> (second matches Probe::Refuse(v) && v.bytes == at_most(16384, held)
            && v.score == score),
{
}

/// A file is media where either look at it scores more than one. It is not where the first
/// scores nothing, whatever a second one would, or where neither scores more than one.
pub proof fn lemma_what_is_media<P: Fn(usize) -> i32>(
    held: usize,
    probe: &P,
    found: Option<NotMedia>,
    a: i32,
    b: i32,
)
    requires
        call_ensures(unrecognised::<P>, (held, probe), found),
        forall|score: i32| #[trigger] probe.ensures((2048,), score) ==> score == a,
        forall|score: i32| #[trigger] probe.ensures((16384,), score) ==> score == b,
    ensures
        a >= 2 ==> found is None,
        a == 0 ==> (found matches Some(v) && v.bytes == at_most(2048, held) && v.score == 0),
        (a == 1 || a < 0) && b >= 2 ==> found is None,
        (a == 1 || a < 0) && b <= 1 ==> (found matches Some(v) && v.bytes == at_most(16384, held)
            && v.score == b),
{
    let (first, second) = choose|first: i32, second: i32| #[trigger]
        found_by(probe, first, second, held, found);
    assert(first == a);
}

/// What is said of a file that is not media names how much was read of it and what that
/// scored.
pub proof fn lemma_what_is_said_of_a_refusal(
    verdict: NotMedia,
    text: String,
    bytes: String,
    score: String,
    most: String,
)
    requires
        call_ensures(NotMedia::message, (&verdict,), text),
        call_ensures(number, (verdict.bytes as u64,), bytes),
        verdict.score >= 0 ==> call_ensures(number, (verdict.score as u64,), score),
        verdict.score < 0 ==> call_ensures(number, ((-verdict.score) as u64,), score),
        call_ensures(number, (100,), most),
    ensures
        verdict.bytes == 0 ==> text@ == "this file is empty"@,
        verdict.bytes > 0 ==> text@ == "no demuxer recognised the first "@ + bytes@
            + " bytes of this file (the best guess scored "@ + (if verdict.score < 0 {
            "-"@ + score@
        } else {
            score@
        }) + " of "@ + most@ + ", which libavformat treats as no evidence)"@,
{
    assert(verdict.bytes as nat == (verdict.bytes as u64) as nat);
}

/// Whether the moment is to blame for one cause of a failure: a system error with one of
/// the codes, from the demuxer or an input, or an input error without a code.
pub open spec fn is_of_the_moment(cause: Cause, codes: Seq<i32>) -> bool {
    ||| cause == Cause::Input(None)
    ||| exists|k: int|
        0 <= k < codes.len() && (cause == Cause::Input(Some(#[trigger] codes[k])) || cause
            == Cause::Demuxer(codes[k]))
}

/// A failure passes where the moment is to blame for any one of its causes, however deep
/// it lies.
pub proof fn lemma_one_passing_cause_is_enough(
    chain: &Vec<Cause>,
    codes: &Vec<i32>,
    yes: bool,
)
    requires
        call_ensures(is_passing_failure, (chain, codes), yes),
    ensures
        yes <==> exists|i: int|
            0 <= i < chain@.len() && is_of_the_moment(#[trigger] chain@[i], codes@),
{
    assert forall|i: int| 0 <= i < chain@.len() implies is_passing(chain@[i], codes@)
        == is_of_the_moment(#[trigger] chain@[i], codes@) by {
        let c = chain@[i];
        if let Cause::Demuxer(code) = c {
            if codes@.contains(code) {
                let k = choose|k: int| 0 <= k < codes@.len() && codes@[k] == code;
                assert(c == Cause::Demuxer(codes@[k]));
            }
        }
        if let Cause::Input(Some(code)) = c {
            if codes@.contains(code) {
                let k = choose|k: int| 0 <= k < codes@.len() && codes@[k] == code;
                assert(c == Cause::Input(Some(codes@[k])));
            }
        }
    }
    if yes {
        let i = choose|i: int| 0 <= i < chain@.len() && is_passing(#[trigger] chain@[i], codes@);
        assert(is_of_the_moment(chain@[i], codes@));
    }
}

/// An input that failed without a code is worth another try; a failure none of whose
/// causes came from the system is not.
pub proof fn lemma_what_is_worth_another_try(chain: &Vec<Cause>, yes: bool)
    requires
        call_ensures(is_transient, (chain,), yes),
    ensures
        (exists|i: int| 0 <= i < chain@.len() && #[trigger] chain@[i] == Cause::Input(None)) ==> yes,
        (forall|i: int|
            0 <= i < chain@.len() ==> (#[trigger] chain@[i]) is NotMedia || chain@[i] is Other)
            ==> !yes,
{
    let codes = choose|codes: Seq<i32>|
        crate::errno::are_environmental(codes) && yes == #[trigger] is_passing_in(chain@, codes);
    if exists|i: int| 0 <= i < chain@.len() && #[trigger] chain@[i] == Cause::Input(None) {
        let i = choose|i: int| 0 <= i < chain@.len() && #[trigger] chain@[i] == Cause::Input(None);
        assert(is_passing(chain@[i], codes));
    }
}

/// The verdict in an error is the first one in its chain, however deep it lies.
pub proof fn lemma_the_first_verdict_counts(
    chain: &Vec<Cause>,
    found: Option<NotMedia>,
    i: int,
    v: NotMedia,
)
    requires
        call_ensures(not_media, (chain,), found),
        0 <= i < chain@.len(),
        chain@[i] == Cause::NotMedia(v),
        forall|j: int| 0 <= j < i ==> !((#[trigger] chain@[j]) is NotMedia),
    ensures
        found == Some(v),
{
    assert(is_first_verdict(chain@, found));
    if let Some(w) = found {
        let k = choose|k: int|
            0 <= k < chain@.len() && #[trigger] chain@[k] == Cause::NotMedia(w) && forall|j: int|
                0 <= j < k ==> !((#[trigger] chain@[j]) is NotMedia);
        assert(chain@[i] is NotMedia && chain@[k] is NotMedia);
    } else {
        assert(chain@[i] is NotMedia);
    }
}

/// A run had problems where anything at all was recorded of it, of any kind.
pub proof fn lemma_any_problem_is_one(stats: &RunStats, yes: bool)
    requires
        call_ensures(RunStats::had_problems, (stats,), yes),
    ensures
        !yes <==> stats.clustering_abandoned.lines@.len() == 0 && stats.delete_stale.lines@.len()
            == 0 && stats.delete_failed.lines@.len() == 0 && stats.report_write_failed.lines@.len()
            == 0,
{
}

} // verus!
