//! The last question asked before anything leaves its path.

use crate::display::{format_size, size_text};
use crate::disposal::Disposal;
use crate::text::{characters, decimal, number};
use vstd::prelude::*;

verus! {

/// How many targets are named before the rest are summarised as a count.
pub const PREVIEW_LIMIT: usize = 10;

/// How many times an unrecognised answer is met with a re-ask before the question
/// gives up.
pub const MAX_ATTEMPTS: usize = 3;

/// A file about to be disposed of: what to call it, and what it weighs.
pub struct Target<'a> {
    pub path: &'a str,
    pub size: u64,
}

/// What is about to happen.
pub open spec fn intent_text(disposal: &Disposal, count: nat, bytes: nat) -> Seq<char> {
    match disposal {
        Disposal::Trash => "About to move "@ + decimal(count) + " file(s) ("@ + size_text(bytes)
            + ") to the trash."@,
        Disposal::Permanent => "About to PERMANENTLY DELETE "@ + decimal(count) + " file(s) ("@
            + size_text(bytes) + "). This cannot be undone."@,
        Disposal::MoveTo(dir) => "About to move "@ + decimal(count) + " file(s) ("@ + size_text(
            bytes,
        ) + ") under "@ + dir@ + "."@,
    }
}

/// The headline: what is about to happen, in the words of the mode doing it.
pub fn intent(disposal: &Disposal, count: usize, bytes: u64) -> (text: String)
    ensures
        text@ == intent_text(disposal, count as nat, bytes as nat),
{
    let size = format_size(bytes);
    match disposal {
        Disposal::Trash => {
            let mut s = "About to move ".to_owned();
            s.append(number(count as u64).as_str());
            s.append(" file(s) (");
            s.append(size.as_str());
            s.append(") to the trash.");
            s
        },
        Disposal::Permanent => {
            let mut s = "About to PERMANENTLY DELETE ".to_owned();
            s.append(number(count as u64).as_str());
            s.append(" file(s) (");
            s.append(size.as_str());
            s.append("). This cannot be undone.");
            s
        },
        Disposal::MoveTo(dir) => {
            let mut s = "About to move ".to_owned();
            s.append(number(count as u64).as_str());
            s.append(" file(s) (");
            s.append(size.as_str());
            s.append(") under ");
            s.append(dir.as_str());
            s.append(".");
            s
        },
    }
}

/// Whether a character is white space.
pub open spec fn is_white(c: char) -> bool {
    ||| '\u{9}' <= c <= '\u{d}'
    ||| c == ' '
    ||| c == '\u{85}'
    ||| c == '\u{a0}'
    ||| c == '\u{1680}'
    ||| '\u{2000}' <= c <= '\u{200a}'
    ||| c == '\u{2028}'
    ||| c == '\u{2029}'
    ||| c == '\u{202f}'
    ||| c == '\u{205f}'
    ||| c == '\u{3000}'
}

fn white(c: char) -> (yes: bool)
    ensures
        yes <==> is_white(c),
{
    ('\u{9}' <= c && c <= '\u{d}') || c == ' ' || c == '\u{85}' || c == '\u{a0}' || c == '\u{1680}'
        || ('\u{2000}' <= c && c <= '\u{200a}') || c == '\u{2028}' || c == '\u{2029}'
        || c == '\u{202f}' || c == '\u{205f}' || c == '\u{3000}'
}

/// A letter from A to Z in lower case, and anything else as it is.
pub open spec fn lower(c: char) -> char {
    if 'A' <= c <= 'Z' {
        ((c as u32) + 32) as char
    } else {
        c
    }
}

/// A text without the white space before and after it.
pub open spec fn trimmed(s: Seq<char>) -> Seq<char>
    decreases s.len(),
{
    if s.len() == 0 {
        s
    } else if is_white(s[0]) {
        trimmed(s.drop_first())
    } else if is_white(s.last()) {
        trimmed(s.drop_last())
    } else {
        s
    }
}

/// A text in lower case.
pub open spec fn lowered(s: Seq<char>) -> Seq<char> {
    s.map_values(|c: char| lower(c))
}

/// What a line says: yes, no, or nothing that is an answer. An empty line is a yes.
pub open spec fn answer(line: Seq<char>) -> Option<bool> {
    let word = lowered(trimmed(line));
    if word.len() == 0 || word == seq!['y'] || word == seq!['y', 'e', 's'] {
        Some(true)
    } else if word == seq!['n'] || word == seq!['n', 'o'] {
        Some(false)
    } else {
        None
    }
}

/// Whether a character is this letter, in either case.
fn is_letter(c: char, low: char, up: char) -> (yes: bool)
    requires
        'a' <= low <= 'z',
        'A' <= up <= 'Z',
        up as u32 + 32 == low as u32,
    ensures
        yes <==> lower(c) == low,
{
    c == low || c == up
}

/// The words that are answers, letter by letter.
proof fn lemma_words(word: Seq<char>)
    ensures
        word == seq!['y'] <==> word.len() == 1 && word[0] == 'y',
        word == seq!['y', 'e', 's'] <==> word.len() == 3 && word[0] == 'y' && word[1] == 'e'
            && word[2] == 's',
        word == seq!['n'] <==> word.len() == 1 && word[0] == 'n',
        word == seq!['n', 'o'] <==> word.len() == 2 && word[0] == 'n' && word[1] == 'o',
{
    if word.len() == 1 {
        assert(word =~= seq![word[0]]);
    } else if word.len() == 2 {
        assert(word =~= seq![word[0], word[1]]);
    } else if word.len() == 3 {
        assert(word =~= seq![word[0], word[1], word[2]]);
    }
}

/// One line of input as an answer, or `None` if it was not one.
pub fn interpret(line: &str) -> (said: Option<bool>)
    ensures
        said == answer(line@),
{
    let cs = characters(line);
    let mut from: usize = 0;
    let mut to: usize = cs.len();
    assert(cs@.subrange(0, cs@.len() as int) =~= cs@);
    while from < to && white(cs[from])
        invariant
            from <= to == cs@.len(),
            trimmed(cs@.subrange(from as int, to as int)) == trimmed(line@),
        decreases to - from,
    {
        assert(cs@.subrange(from as int, to as int).drop_first() =~= cs@.subrange(
            from + 1,
            to as int,
        ));
        from = from + 1;
    }
    while from < to && white(cs[to - 1])
        invariant
            from <= to <= cs@.len(),
            from < to ==> !is_white(cs@[from as int]),
            trimmed(cs@.subrange(from as int, to as int)) == trimmed(line@),
        decreases to - from,
    {
        assert(cs@.subrange(from as int, to as int).drop_last() =~= cs@.subrange(
            from as int,
            to - 1,
        ));
        to = to - 1;
    }
    let ghost word = cs@.subrange(from as int, to as int);
    let ghost low = lowered(word);
    assert(trimmed(line@) == word);
    let n = to - from;
    proof {
        assert(low.len() == n);
        assert forall|i: int| 0 <= i < n implies #[trigger] low[i] == lower(cs@[from + i]) by {}
        assert(n > 0 ==> low[0] == lower(cs@[from as int]));
        assert(n > 1 ==> low[1] == lower(cs@[from + 1]));
        assert(n > 2 ==> low[2] == lower(cs@[from + 2]));
        lemma_words(low);
    }
    if n == 0 {
        Some(true)
    } else if n == 1 && is_letter(cs[from], 'y', 'Y') {
        Some(true)
    } else if n == 1 && is_letter(cs[from], 'n', 'N') {
        Some(false)
    } else if n == 2 && is_letter(cs[from], 'n', 'N') && is_letter(cs[from + 1], 'o', 'O') {
        Some(false)
    } else if n == 3 && is_letter(cs[from], 'y', 'Y') && is_letter(cs[from + 1], 'e', 'E')
        && is_letter(cs[from + 2], 's', 'S') {
        Some(true)
    } else {
        None
    }
}

/// What the targets weigh together.
pub open spec fn weight(targets: Seq<Target<'_>>, n: int) -> nat
    decreases n,
{
    if n <= 0 {
        0
    } else {
        weight(targets, n - 1) + targets[n - 1].size as nat
    }
}

/// A text with spaces before it, up to a width.
pub open spec fn aligned(s: Seq<char>, width: nat) -> Seq<char>
    decreases width - s.len(),
{
    if s.len() >= width {
        s
    } else {
        aligned(seq![' '] + s, width)
    }
}

fn align(s: String, width: usize) -> (out: String)
    requires
        width < 1000,
    ensures
        out@ == aligned(s@, width as nat),
{
    let mut out = s;
    let mut len = characters(out.as_str()).len();
    proof {
        reveal_strlit(" ");
        assert(" "@ =~= seq![' ']);
    }
    let ghost whole = out@;
    while len < width
        invariant
            len == out@.len(),
            " "@ == seq![' '],
            aligned(out@, width as nat) == aligned(whole, width as nat),
        decreases width - len,
    {
        let mut next = " ".to_owned();
        next.append(out.as_str());
        out = next;
        len = len + 1;
    }
    out
}

/// The first `n` targets, a line each.
pub open spec fn preview_text(targets: Seq<Target<'_>>, n: int) -> Seq<char>
    decreases n,
{
    if n <= 0 {
        Seq::empty()
    } else {
        preview_text(targets, n - 1) + "  "@ + aligned(size_text(targets[n - 1].size as nat), 9)
            + "  "@ + targets[n - 1].path@ + "\n"@
    }
}

/// How many targets are named.
pub open spec fn shown(count: nat) -> nat {
    if count <= PREVIEW_LIMIT {
        count
    } else {
        PREVIEW_LIMIT as nat
    }
}

/// What is shown before the question: what is about to happen, the first targets, and
/// how many more there are.
pub open spec fn question_text(disposal: &Disposal, targets: Seq<Target<'_>>) -> Seq<char> {
    "\n"@ + intent_text(disposal, targets.len(), weight(targets, targets.len() as int)) + "\n"@
        + preview_text(targets, shown(targets.len()) as int) + (if targets.len() > PREVIEW_LIMIT {
        "  ... and "@ + decimal((targets.len() - PREVIEW_LIMIT) as nat) + " more\n"@
    } else {
        Seq::empty()
    }) + "Answer n to print the full report and leave every file alone.\n"@
}

proof fn lemma_weight_grows(targets: Seq<Target<'_>>, m: int, n: int)
    requires
        0 <= m <= n,
    ensures
        weight(targets, m) <= weight(targets, n),
    decreases n - m,
{
    if m < n {
        lemma_weight_grows(targets, m, n - 1);
    }
}

/// What is shown before the question.
pub fn question(disposal: &Disposal, targets: &[Target<'_>]) -> (text: String)
    requires
        weight(targets@, targets@.len() as int) <= u64::MAX,
    ensures
        text@ == question_text(disposal, targets@),
{
    let mut bytes: u64 = 0;
    for i in 0..targets.len()
        invariant
            weight(targets@, targets@.len() as int) <= u64::MAX,
            bytes == weight(targets@, i as int),
    {
        proof {
            lemma_weight_grows(targets@, i + 1, targets@.len() as int);
        }
        bytes = bytes + targets[i].size;
    }
    let mut text = "\n".to_owned();
    text.append(intent(disposal, targets.len(), bytes).as_str());
    text.append("\n");
    let count: usize = if targets.len() <= PREVIEW_LIMIT {
        targets.len()
    } else {
        PREVIEW_LIMIT
    };
    let ghost head = text@;
    assert(head + preview_text(targets@, 0) =~= head);
    for i in 0..count
        invariant
            count <= targets@.len(),
            text@ == head + preview_text(targets@, i as int),
    {
        let t = &targets[i];
        let ghost before = text@;
        text.append("  ");
        text.append(align(format_size(t.size), 9).as_str());
        text.append("  ");
        text.append(t.path);
        text.append("\n");
        assert(text@ =~= head + preview_text(targets@, i + 1));
    }
    if targets.len() > PREVIEW_LIMIT {
        text.append("  ... and ");
        text.append(number((targets.len() - PREVIEW_LIMIT) as u64).as_str());
        text.append(" more\n");
    }
    text.append("Answer n to print the full report and leave every file alone.\n");
    assert(text@ =~= question_text(disposal, targets@));
    text
}

/// What came back when the question was asked.
pub enum Reply {
    /// The input ended: nobody said anything.
    Ended,
    /// The input could not be read.
    Unreadable,
    /// A line.
    Line(String),
}

/// Whether a reply settles nothing, so that the question is asked again.
pub open spec fn is_unusable(r: Reply) -> bool {
    r matches Reply::Line(l) && answer(l@) is None
}

/// What a reply comes to: only a clear yes is one.
pub open spec fn is_yes(r: Reply) -> bool {
    r matches Reply::Line(l) && answer(l@) == Some(true)
}

/// Whether the user was asked these times and gave these replies: again and again
/// while they settled nothing, three times at most.
pub open spec fn is_dialogue<R: Fn(usize) -> Reply>(ask: &R, replies: Seq<Reply>) -> bool {
    &&& 0 < replies.len() <= MAX_ATTEMPTS
    &&& forall|i: int|
        0 <= i < replies.len() ==> ask.ensures((i as usize,), #[trigger] replies[i])
    &&& forall|i: int| 0 <= i < replies.len() - 1 ==> is_unusable(#[trigger] replies[i])
    &&& replies.len() < MAX_ATTEMPTS ==> !is_unusable(replies.last())
}

/// Whether there is anything to ask, and anybody to ask it of.
pub open spec fn must_ask(count: nat, assume_yes: bool, interactive: bool) -> bool {
    count > 0 && !assume_yes && interactive
}

/// Whether the user was shown this.
pub open spec fn is_told<T: Fn(&str)>(tell: &T, text: Seq<char>) -> bool {
    exists|s: &str| s@ == text && #[trigger] tell.ensures((s,), ())
}

/// What is said of a line that is no answer.
pub open spec fn again_text() -> Seq<char> {
    "Please answer y or n.\n"@
}

/// What is said once there were too many of those.
pub open spec fn unusable_text() -> Seq<char> {
    "No usable answer; nothing will be touched.\n"@
}

/// Whether the question may be asked a first time, or the next after so many: of
/// somebody who is there and has not asked to stop, once what is about to happen was
/// shown; and again only after a reply that settled nothing, which was remarked on.
pub open spec fn may_ask<S: Fn() -> bool, T: Fn(&str), R: Fn(usize) -> Reply>(
    disposal: &Disposal,
    targets: Seq<Target<'_>>,
    stop: &S,
    tell: &T,
    ask: &R,
    attempt: usize,
) -> bool {
    &&& attempt < MAX_ATTEMPTS
    &&& stop.ensures((), false)
    &&& is_told(tell, question_text(disposal, targets))
    &&& attempt > 0 ==> is_told(tell, again_text()) && was_unusable(ask, attempt - 1)
}

/// Whether asking the question for that time settled nothing.
pub open spec fn was_unusable<R: Fn(usize) -> Reply>(ask: &R, attempt: int) -> bool {
    exists|reply: Reply| is_unusable(reply) && #[trigger] ask.ensures((attempt as usize,), reply)
}

/// Whether a text may be shown: the question to somebody who has not asked to stop,
/// and what is said of a reply only after one that settled nothing.
pub open spec fn may_tell<S: Fn() -> bool, T: Fn(&str), R: Fn(usize) -> Reply>(
    disposal: &Disposal,
    targets: Seq<Target<'_>>,
    stop: &S,
    tell: &T,
    ask: &R,
    text: Seq<char>,
) -> bool {
    &&& stop.ensures((), false)
    &&& {
        ||| text == question_text(disposal, targets)
        ||| text == again_text() && is_told(tell, question_text(disposal, targets)) && (
        exists|attempt: int| 0 <= attempt < MAX_ATTEMPTS && #[trigger] was_unusable(ask, attempt))
        ||| text == unusable_text() && is_told(tell, again_text()) && was_unusable(
            ask,
            MAX_ATTEMPTS - 1,
        )
    }
}

/// Ask, and return whether the disposal may go ahead.
///
/// Without anything to ask, or anybody to ask, or with the answer given in advance, it
/// may. Otherwise nothing but a clear yes lets it: not the end of the input, not a
/// line that is no answer, and not being asked to stop.
///
/// `tell` shows a text, and `ask` asks once and says what came back. Neither happens
/// where there is nothing or nobody to ask, and what is about to happen is shown before
/// anything is asked.
pub fn approve<S, T, R>(
    disposal: &Disposal,
    targets: &[Target<'_>],
    assume_yes: bool,
    interactive: bool,
    stop: &S,
    tell: &T,
    ask: &R,
) -> (allowed: bool) where S: Fn() -> bool, T: Fn(&str), R: Fn(usize) -> Reply
    requires
        stop.requires(()),
        must_ask(targets@.len(), assume_yes, interactive) ==> weight(
            targets@,
            targets@.len() as int,
        ) <= u64::MAX,
        forall|s: &str|
            must_ask(targets@.len(), assume_yes, interactive) && may_tell(
                disposal,
                targets@,
                stop,
                tell,
                ask,
                s@,
            ) ==> #[trigger] tell.requires((s,)),
        forall|i: usize|
            must_ask(targets@.len(), assume_yes, interactive) && may_ask(
                disposal,
                targets@,
                stop,
                tell,
                ask,
                i,
            ) ==> #[trigger] ask.requires((i,)),
    ensures
        !must_ask(targets@.len(), assume_yes, interactive) ==> allowed,
        must_ask(targets@.len(), assume_yes, interactive) ==> (!allowed && stop.ensures((), true))
            || stop.ensures((), false) && is_told(tell, question_text(disposal, targets@))
            && exists|replies: Seq<Reply>|
            #[trigger] is_dialogue(ask, replies) && allowed == is_yes(replies.last()) && (
            replies.len() > 1 ==> is_told(tell, again_text())) && (is_unusable(replies.last())
                ==> is_told(tell, unusable_text())),
{
    if targets.len() == 0 || assume_yes || !interactive {
        return true;
    }
    if stop() {
        return false;
    }
    let shown = question(disposal, targets);
    tell(shown.as_str());
    assert(is_told(tell, question_text(disposal, targets@)));
    let ghost mut replies: Seq<Reply> = Seq::empty();
    for attempt in 0..MAX_ATTEMPTS
        invariant
            stop.requires(()),
            forall|s: &str|
                may_tell(disposal, targets@, stop, tell, ask, s@) ==> #[trigger] tell.requires(
                    (s,),
                ),
            forall|i: usize|
                may_ask(disposal, targets@, stop, tell, ask, i) ==> #[trigger] ask.requires((i,)),
            must_ask(targets@.len(), assume_yes, interactive),
            stop.ensures((), false),
            is_told(tell, question_text(disposal, targets@)),
            replies.len() == attempt,
            attempt > 0 ==> is_told(tell, again_text()),
            forall|i: int|
                0 <= i < replies.len() ==> ask.ensures((i as usize,), #[trigger] replies[i]),
            forall|i: int| 0 <= i < replies.len() ==> is_unusable(#[trigger] replies[i]),
    {
        assert(attempt > 0 ==> was_unusable(ask, attempt - 1)) by {
            if attempt > 0 {
                assert(ask.ensures(((attempt - 1) as usize,), replies[attempt - 1]));
            }
        }
        assert(may_ask(disposal, targets@, stop, tell, ask, attempt));
        let reply = ask(attempt);
        let ghost before = replies;
        proof {
            replies = replies.push(reply);
            assert forall|i: int| 0 <= i < replies.len() - 1 implies is_unusable(
                #[trigger] replies[i],
            ) by {
                assert(replies[i] == before[i]);
            }
            assert forall|i: int| 0 <= i < replies.len() implies ask.ensures(
                (i as usize,),
                #[trigger] replies[i],
            ) by {
                if i < attempt {
                    assert(replies[i] == before[i]);
                }
            }
        }
        match &reply {
            Reply::Ended => {
                assert(is_dialogue(ask, replies));
                return false;
            },
            Reply::Unreadable => {
                assert(is_dialogue(ask, replies));
                return false;
            },
            Reply::Line(line) => {
                if stop() {
                    return false;
                }
                match interpret(line.as_str()) {
                    Some(said) => {
                        assert(is_dialogue(ask, replies));
                        return said;
                    },
                    None => {
                        assert(is_unusable(reply));
                        assert(was_unusable(ask, attempt as int));
                        tell("Please answer y or n.\n");
                        assert(is_told(tell, again_text()));
                    },
                }
            },
        }
    }
    assert(ask.ensures(((MAX_ATTEMPTS - 1) as usize,), replies[MAX_ATTEMPTS - 1]));
    assert(was_unusable(ask, MAX_ATTEMPTS - 1));
    tell("No usable answer; nothing will be touched.\n");
    assert(is_told(tell, unusable_text()));
    assert(is_unusable(replies[replies.len() - 1]));
    assert(is_dialogue(ask, replies));
    false
}

} // verus!
