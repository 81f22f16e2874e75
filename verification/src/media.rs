//! Whether a file is a video at all, and whether asking again could say otherwise.

use crate::errno::{are_environmental, environmental};
use crate::text::{decimal, number};
use vstd::prelude::*;

verus! {

/// How much of a file is given to say what format it is, before concluding there is
/// nothing there.
pub const FIRST_PROBE_BYTES: usize = 2048;

/// How much is read before turning away a file that showed a whisper of a signal.
pub const SECOND_PROBE_BYTES: usize = 16384;

/// The score of a file that nothing recognises.
pub const NO_EVIDENCE: i32 = 1;

/// The best score there is.
pub const PROBE_SCORE_MAX: u64 = 100;

/// The verdict on a file that nothing recognises.
#[derive(Clone, Copy, Debug, PartialEq, Eq, Structural)]
pub struct NotMedia {
    /// How much of the file was looked at before giving up.
    pub bytes: usize,
    /// What the best guess scored.
    pub score: i32,
}

/// A whole number, with its sign.
pub open spec fn signed_text(n: int) -> Seq<char> {
    if n < 0 {
        "-"@ + decimal((-n) as nat)
    } else {
        decimal(n as nat)
    }
}

/// The sentence for a file that nothing recognises.
pub open spec fn refusal_text(verdict: NotMedia) -> Seq<char> {
    if verdict.bytes == 0 {
        "this file is empty"@
    } else {
        "no demuxer recognised the first "@ + decimal(verdict.bytes as nat)
            + " bytes of this file (the best guess scored "@ + signed_text(verdict.score as int)
            + " of "@ + decimal(PROBE_SCORE_MAX as nat)
            + ", which libavformat treats as no evidence)"@
    }
}

fn signed(n: i32) -> (s: String)
    ensures
        s@ == signed_text(n as int),
{
    if n < 0 {
        let mut s = "-".to_owned();
        s.append(number((-(n as i64)) as u64).as_str());
        s
    } else {
        number(n as u64)
    }
}

impl NotMedia {
    /// What is said of the file.
    pub fn message(&self) -> (text: String)
        ensures
            text@ == refusal_text(*self),
    {
        if self.bytes == 0 {
            return "this file is empty".to_owned();
        }
        let mut s = "no demuxer recognised the first ".to_owned();
        s.append(number(self.bytes as u64).as_str());
        s.append(" bytes of this file (the best guess scored ");
        s.append(signed(self.score).as_str());
        s.append(" of ");
        s.append(number(PROBE_SCORE_MAX).as_str());
        s.append(", which libavformat treats as no evidence)");
        s
    }
}

/// What follows from a look at the head of a file.
#[derive(Clone, Copy, Debug, PartialEq, Eq, Structural)]
pub enum Probe {
    /// It is worth opening.
    Open,
    /// It is worth a second look, at more of it.
    LookAgain,
    /// It is not media.
    Refuse(NotMedia),
}

/// What is read of a file, at most what it holds.
pub open spec fn looked_at(want: usize, held: usize) -> usize {
    if want <= held {
        want
    } else {
        held
    }
}

/// What the first look says. Only a file that scores nothing at all is refused by it.
pub fn first_look(score: i32, held: usize) -> (probe: Probe)
    ensures
        score > NO_EVIDENCE ==> probe == Probe::Open,
        score == 0 ==> probe == Probe::Refuse(
            NotMedia { bytes: looked_at(FIRST_PROBE_BYTES, held), score },
        ),
        score <= NO_EVIDENCE && score != 0 ==> probe == Probe::LookAgain,
{
    if score > NO_EVIDENCE {
        Probe::Open
    } else if score == 0 {
        Probe::Refuse(
            NotMedia {
                bytes: if FIRST_PROBE_BYTES <= held {
                    FIRST_PROBE_BYTES
                } else {
                    held
                },
                score,
            },
        )
    } else {
        Probe::LookAgain
    }
}

/// What the second look says.
pub fn second_look(score: i32, held: usize) -> (probe: Probe)
    ensures
        score > NO_EVIDENCE ==> probe == Probe::Open,
        score <= NO_EVIDENCE ==> probe == Probe::Refuse(
            NotMedia { bytes: looked_at(SECOND_PROBE_BYTES, held), score },
        ),
{
    if score > NO_EVIDENCE {
        Probe::Open
    } else {
        Probe::Refuse(
            NotMedia {
                bytes: if SECOND_PROBE_BYTES <= held {
                    SECOND_PROBE_BYTES
                } else {
                    held
                },
                score,
            },
        )
    }
}

/// What two looks at a file of `held` bytes come to: how much was read and what it
/// scored, or nothing where the file is worth opening.
pub open spec fn verdict(first: int, second: int, held: usize) -> Option<NotMedia> {
    if first > NO_EVIDENCE {
        None
    } else if first == 0 {
        Some(NotMedia { bytes: looked_at(FIRST_PROBE_BYTES, held), score: first as i32 })
    } else if second > NO_EVIDENCE {
        None
    } else {
        Some(NotMedia { bytes: looked_at(SECOND_PROBE_BYTES, held), score: second as i32 })
    }
}

/// Whether a file is not media, by what its head scores when so much of it is looked
/// at. The second look is only taken where the first leaves it open.
pub fn unrecognised<P>(held: usize, probe: &P) -> (found: Option<NotMedia>) where
    P: Fn(usize) -> i32,

    requires
        probe.requires((FIRST_PROBE_BYTES,)),
        forall|score: i32| #[trigger]
            probe.ensures((FIRST_PROBE_BYTES,), score) && score <= NO_EVIDENCE && score != 0
                ==> probe.requires((SECOND_PROBE_BYTES,)),
    ensures
        exists|first: i32, second: i32| #[trigger] found_by(probe, first, second, held, found),
{
    let first = probe(FIRST_PROBE_BYTES);
    assert(probe.ensures((FIRST_PROBE_BYTES,), first));
    match first_look(first, held) {
        Probe::Open => {
            let ghost second: i32 = 0;
            assert(found_by(probe, first, second, held, None));
            None
        },
        Probe::Refuse(v) => {
            let ghost second: i32 = 0;
            assert(found_by(probe, first, second, held, Some(v)));
            Some(v)
        },
        Probe::LookAgain => {
            let second = probe(SECOND_PROBE_BYTES);
            assert(probe.ensures((SECOND_PROBE_BYTES,), second));
            match second_look(second, held) {
                Probe::Refuse(v) => {
                    assert(found_by(probe, first, second, held, Some(v)));
                    Some(v)
                },
                _ => {
                    assert(found_by(probe, first, second, held, None));
                    None
                },
            }
        },
    }
}

/// Whether two looks led to a verdict.
pub open spec fn found_by<P: Fn(usize) -> i32>(
    probe: &P,
    first: i32,
    second: i32,
    held: usize,
    found: Option<NotMedia>,
) -> bool {
    &&& probe.ensures((FIRST_PROBE_BYTES,), first)
    &&& first <= NO_EVIDENCE && first != 0 ==> probe.ensures((SECOND_PROBE_BYTES,), second)
    &&& found == verdict(first as int, second as int, held)
}

/// One cause in the chain of an error.
#[derive(Clone, Copy, Debug, PartialEq, Eq, Structural)]
pub enum Cause {
    /// The verdict that a file is not media.
    NotMedia(NotMedia),
    /// A system error that came through the demuxer.
    Demuxer(i32),
    /// An input error, with the system's code where there is one.
    Input(Option<i32>),
    /// Anything else.
    Other,
}

/// Whether a cause is about the moment rather than about the file. An input error
/// without a code is.
pub open spec fn is_passing(cause: Cause, environmental: Seq<i32>) -> bool {
    match cause {
        Cause::Demuxer(code) => environmental.contains(code),
        Cause::Input(Some(code)) => environmental.contains(code),
        Cause::Input(None) => true,
        Cause::NotMedia(_) => false,
        Cause::Other => false,
    }
}

/// Whether some cause of a failure is about the moment.
pub open spec fn is_passing_in(chain: Seq<Cause>, environmental: Seq<i32>) -> bool {
    exists|i: int| 0 <= i < chain.len() && is_passing(#[trigger] chain[i], environmental)
}

fn is_among(list: &Vec<i32>, code: i32) -> (yes: bool)
    ensures
        yes <==> list@.contains(code),
{
    for i in 0..list.len()
        invariant
            forall|j: int| 0 <= j < i ==> #[trigger] list@[j] != code,
    {
        if list[i] == code {
            assert(list@.contains(list@[i as int]));
            return true;
        }
    }
    false
}

/// Whether a failure is about the moment rather than about the file, given the system's
/// codes for the former: some cause of it is.
pub fn is_passing_failure(chain: &Vec<Cause>, environmental: &Vec<i32>) -> (yes: bool)
    ensures
        yes <==> is_passing_in(chain@, environmental@),
{
    for i in 0..chain.len()
        invariant
            forall|j: int| 0 <= j < i ==> !is_passing(#[trigger] chain@[j], environmental@),
    {
        let passing = match chain[i] {
            Cause::Demuxer(code) => is_among(environmental, code),
            Cause::Input(Some(code)) => is_among(environmental, code),
            Cause::Input(None) => true,
            Cause::NotMedia(_) => false,
            Cause::Other => false,
        };
        if passing {
            assert(is_passing(chain@[i as int], environmental@));
            return true;
        }
    }
    false
}

/// Whether a failure is about the moment rather than about the file: a permission that
/// may be granted, a file that vanished, a mount that dropped.
pub fn is_transient(chain: &Vec<Cause>) -> (yes: bool)
    ensures
        exists|codes: Seq<i32>|
            are_environmental(codes) && yes == #[trigger] is_passing_in(chain@, codes),
{
    let codes = environmental();
    let yes = is_passing_failure(chain, &codes);
    assert(yes == is_passing_in(chain@, codes@));
    yes
}

/// A failure none of whose causes came from the system is about the file, and an input
/// error without a code is not.
pub proof fn lemma_what_is_about_the_file(chain: Seq<Cause>, codes: Seq<i32>)
    ensures
        (forall|i: int|
            0 <= i < chain.len() ==> (#[trigger] chain[i]) is NotMedia || chain[i] is Other)
            ==> !is_passing_in(chain, codes),
        chain.contains(Cause::Input(None)) ==> is_passing_in(chain, codes),
{
    if chain.contains(Cause::Input(None)) {
        let i = choose|i: int| 0 <= i < chain.len() && chain[i] == Cause::Input(None);
        assert(is_passing(chain[i], codes));
    }
}

/// The first verdict that a file is not media in the chain of an error, where there is
/// one.
pub open spec fn is_first_verdict(chain: Seq<Cause>, found: Option<NotMedia>) -> bool {
    match found {
        None => forall|i: int| 0 <= i < chain.len() ==> !((#[trigger] chain[i]) is NotMedia),
        Some(v) => exists|i: int|
            0 <= i < chain.len() && #[trigger] chain[i] == Cause::NotMedia(v) && forall|j: int|
                0 <= j < i ==> !((#[trigger] chain[j]) is NotMedia),
    }
}

/// The verdict that a file is not media, if that is what this error is. Every cause is
/// considered, as the verdict is often wrapped in another.
pub fn not_media(chain: &Vec<Cause>) -> (found: Option<NotMedia>)
    ensures
        is_first_verdict(chain@, found),
{
    for i in 0..chain.len()
        invariant
            forall|j: int| 0 <= j < i ==> !((#[trigger] chain@[j]) is NotMedia),
    {
        match chain[i] {
            Cause::NotMedia(v) => {
                assert(chain@[i as int] == Cause::NotMedia(v));
                return Some(v);
            },
            _ => {},
        }
    }
    None
}

} // verus!
