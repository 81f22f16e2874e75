//! What asking before a removal, and removing, promise.

use crate::confirm::{
    aligned, answer, approve, intent, interpret, is_dialogue, is_unusable, is_white, is_yes, lower,
    lowered, preview_text, question, trimmed, weight, Reply, Target,
};
use crate::display::format_size;
use crate::disposal::{
    aliased_line, changed_since, disposed_line, frees_nothing, next_step, on_disk, trouble_lines,
    Alias, Disposal, Look, MoveEvent, MoveStep, OnDisk,
};
use crate::text::number;
use vstd::prelude::*;

verus! {

/// A look at a path tells what it is a name for: a link that leads elsewhere, one of
/// several names of a file, or the only one. A link is as long as what it leads to.
pub proof fn lemma_what_a_path_is_a_name_for(look: Look, disk: OnDisk)
    requires
        call_ensures(on_disk, (look,), disk),
    ensures
        look is Link <==> disk.alias == Alias::Symlink,
        disk.alias == Alias::HardLink <==> (look matches Look::File { size, names } && names >= 2),
        look matches Look::Link { target } ==> disk.size == target,
        look matches Look::File { size, names } ==> disk.size == Some(size),
        look is Unreadable ==> disk.size is None && disk.alias == Alias::Sole,
{
}

/// Taking away the only name of a file always frees its data, and taking away a link
/// that leads elsewhere never does. One of several names leaves the data behind where it
/// is deleted for good, and takes it along where it is moved.
pub proof fn lemma_what_a_removal_frees(alias: Alias, disposal: &Disposal, nothing: bool)
    requires
        call_ensures(frees_nothing, (alias, disposal), nothing),
    ensures
        alias == Alias::Sole ==> !nothing,
        alias == Alias::Symlink ==> nothing,
        alias == Alias::HardLink && *disposal is Permanent ==> nothing,
        alias == Alias::HardLink && (*disposal is Trash || *disposal is MoveTo) ==> !nothing,
{
}

/// A file has changed where its length can be read and is another one. What is said of it
/// names both, the one it had first.
pub proof fn lemma_a_changed_file_has_another_length(
    path: &str,
    measured: u64,
    current: Option<u64>,
    detail: Option<String>,
    then: String,
    now: String,
)
    requires
        call_ensures(changed_since, (path, measured, current), detail),
        call_ensures(number, (measured,), then),
        current is Some ==> call_ensures(number, (current->0,), now),
    ensures
        current is None ==> detail is None,
        current == Some(measured) ==> detail is None,
        current is Some && current->0 != measured ==> (detail matches Some(d) && d@ == path@ + ": "@
            + then@ + " bytes when scanned, "@ + now@ + " bytes now"@),
{
}

/// What a file that was dealt with is marked as: its data stayed, or it was moved, or it
/// is gone.
pub proof fn lemma_what_a_removed_file_is_marked_as(
    disposal: &Disposal,
    aliased: bool,
    label: &'static str,
    mode: &'static str,
)
    requires
        call_ensures(Disposal::done_label, (disposal, aliased), label),
        call_ensures(Disposal::mode, (disposal,), mode),
    ensures
        aliased ==> label@ == "UNLINKED"@,
        !aliased && *disposal is MoveTo ==> label@ == "MOVED"@,
        !aliased && !(*disposal is MoveTo) ==> label@ == "DELETED"@,
        *disposal is Trash ==> mode@ == "trash"@,
        *disposal is Permanent ==> mode@ == "permanent"@,
        *disposal is MoveTo ==> mode@ == "move"@,
{
}

/// A move renames onto nothing that is already there; copies only where the rename failed
/// for want of one filesystem; removes the file only once its copy stands; and takes back
/// what it wrote where that, or the removal, failed.
pub proof fn lemma_how_a_file_is_moved(
    path: &str,
    dest: &str,
    event: MoveEvent,
    cross_device: i32,
    step: MoveStep,
)
    requires
        call_ensures(next_step, (path, dest, event, cross_device), step),
    ensures
        event matches MoveEvent::Looked { occupied } ==> {
            &&& occupied ==> step is Failed
            &&& !occupied ==> step is Rename
        },
        event is Renamed ==> step is Done,
        event matches MoveEvent::RenameFailed { code, detail } ==> {
            &&& code == Some(cross_device) ==> step is Copy
            &&& code != Some(cross_device) ==> (step matches MoveStep::Failed(m) && m@
                == "Failed to move "@ + path@ + " to "@ + dest@ + ": "@ + detail@)
        },
        event is Copied ==> step is Unlink,
        event matches MoveEvent::CopyFailed { detail } ==> (step matches MoveStep::Undo(m) && m@
            == detail@),
        event is Unlinked ==> step is Done,
        event matches MoveEvent::UnlinkFailed { detail } ==> (step matches MoveStep::Undo(m) && m@
            == "Failed to remove "@ + path@ + " after copying it to "@ + dest@ + ": "@ + detail@),
{
}

/// What was done is said with how many files and how many bytes it was done to.
pub proof fn lemma_what_is_said_of_a_removal(
    disposal: &Disposal,
    count: usize,
    bytes: u64,
    line: String,
    before: String,
    n: String,
    size: String,
)
    requires
        call_ensures(disposed_line, (disposal, count, bytes), line),
        call_ensures(intent, (disposal, count, bytes), before),
        call_ensures(number, (count as u64,), n),
        call_ensures(format_size, (bytes,), size),
    ensures
        *disposal is Permanent ==> line@ == "Permanently deleted "@ + n@ + " file(s), "@ + size@
            + " freed."@,
        *disposal is Trash ==> line@ == "Moved "@ + n@ + " file(s) to trash ("@ + size@
            + " total)."@,
        *disposal matches Disposal::MoveTo(dir) ==> line@ == "Moved "@ + n@ + " file(s) ("@ + size@
            + " total) under "@ + dir@ + "."@,
        *disposal is Permanent ==> before@ == "About to PERMANENTLY DELETE "@ + n@ + " file(s) ("@
            + size@ + "). This cannot be undone."@,
        *disposal is Trash ==> before@ == "About to move "@ + n@ + " file(s) ("@ + size@
            + ") to the trash."@,
        *disposal matches Disposal::MoveTo(dir) ==> before@ == "About to move "@ + n@
            + " file(s) ("@ + size@ + ") under "@ + dir@ + "."@,
{
    assert(count as nat == (count as u64) as nat);
}

/// Nothing is said of what did not happen: of names whose data stayed, of files that could
/// not be removed, and of files that changed, each only where there were any.
pub proof fn lemma_no_trouble_is_not_mentioned(
    failed: usize,
    changed: usize,
    lines: String,
    only_failed: String,
    only_changed: String,
    aliased: usize,
    bytes: u64,
    line: String,
)
    requires
        call_ensures(trouble_lines, (failed, changed), lines),
        call_ensures(trouble_lines, (failed, 0), only_failed),
        call_ensures(trouble_lines, (0, changed), only_changed),
        call_ensures(aliased_line, (aliased, bytes), line),
    ensures
        lines@ == only_failed@ + only_changed@,
        only_failed@.len() == 0 <==> failed == 0,
        only_changed@.len() == 0 <==> changed == 0,
        line@.len() == 0 <==> aliased == 0,
{
    reveal_strlit("\n");
    let none = Seq::<char>::empty();
    assert(lines@ =~= only_failed@ + only_changed@);
}

/// Whether a text is another with spaces before it, to nine characters.
pub open spec fn is_to_the_right(out: Seq<char>, s: Seq<char>) -> bool {
    &&& out.len() == if s.len() < 9 {
        9
    } else {
        s.len()
    }
    &&& out.skip(out.len() - s.len()) == s
    &&& forall|k: int| 0 <= k < out.len() - s.len() ==> #[trigger] out[k] == ' '
}

proof fn lemma_aligned(s: Seq<char>)
    ensures
        is_to_the_right(aligned(s, 9), s),
    decreases 9 - s.len(),
{
    let out = aligned(s, 9);
    if s.len() < 9 {
        let more = seq![' '] + s;
        lemma_aligned(more);
        let n = out.len() - more.len();
        assert(out.skip(n)[0] == more[0]);
        assert(out.skip(n).skip(1) =~= out.skip(n + 1));
        assert(more.skip(1) =~= s);
    } else {
        assert(out.skip(0) =~= s);
    }
}

/// What is shown before the question starts with what is about to happen, to how many
/// files of how many bytes together, and ends with how to call it off. Between them one
/// target more adds its bytes, and up to ten a line of its own, with its size and its
/// path.
pub proof fn lemma_a_question_names_the_first_targets(
    disposal: &Disposal,
    targets: &[Target<'_>],
    more: &[Target<'_>],
    bytes: u64,
    text: String,
    longer: String,
    head: String,
    other_head: String,
    size: String,
) -> (cell: Seq<char>)
    requires
        more@.len() == targets@.len() + 1,
        more@.drop_last() == targets@,
        targets@.len() < 10,
        bytes == weight(targets@, targets@.len() as int),
        bytes + more@.last().size <= u64::MAX,
        call_ensures(question, (disposal, targets), text),
        call_ensures(question, (disposal, more), longer),
        call_ensures(intent, (disposal, targets@.len() as usize, bytes), head),
        call_ensures(
            intent,
            (disposal, more@.len() as usize, (bytes + more@.last().size) as u64),
            other_head,
        ),
        call_ensures(format_size, (more@.last().size,), size),
    ensures
        is_to_the_right(cell, size@),
        targets@.len() == 0 ==> bytes == 0 && text@ == "\n"@ + head@ + "\n"@ + closing(),
        exists|body: Seq<char>|
            text@ == "\n"@ + head@ + "\n"@ + #[trigger] closed_by(body, closing()) && longer@
                == "\n"@ + other_head@ + "\n"@ + closed_by(
                body + "  "@ + cell + "  "@ + more@.last().path@ + "\n"@,
                closing(),
            ),
{
    let n = targets@.len() as int;
    assert(more@.last() == more@[n]);
    lemma_same_weight(targets@, more@, n);
    lemma_same_preview(targets@, more@, n);
    let body = preview_text(targets@, n);
    let cell = aligned(size@, 9);
    lemma_aligned(size@);
    assert(text@ =~= "\n"@ + head@ + "\n"@ + closed_by(body, closing()));
    let line = body + "  "@ + cell + "  "@ + more@.last().path@ + "\n"@;
    assert(preview_text(more@, n + 1) =~= line);
    assert(longer@ =~= "\n"@ + other_head@ + "\n"@ + closed_by(line, closing()));
    if n == 0 {
        assert(text@ =~= "\n"@ + head@ + "\n"@ + closing());
    }
    cell
}

/// How a question ends.
pub open spec fn closing() -> Seq<char> {
    "Answer n to print the full report and leave every file alone.\n"@
}

/// One text and then another.
pub open spec fn closed_by(body: Seq<char>, end: Seq<char>) -> Seq<char> {
    body + end
}

/// Past ten targets the first ten are named, and the rest counted.
pub proof fn lemma_a_question_counts_the_rest(
    disposal: &Disposal,
    ten: &[Target<'_>],
    targets: &[Target<'_>],
    bytes: u64,
    all: u64,
    text: String,
    longer: String,
    head: String,
    other_head: String,
    rest: String,
)
    requires
        ten@.len() == 10,
        targets@.len() > 10,
        targets@.take(10) == ten@,
        bytes == weight(ten@, 10),
        all == weight(targets@, targets@.len() as int),
        targets@.len() <= usize::MAX,
        call_ensures(question, (disposal, ten), text),
        call_ensures(question, (disposal, targets), longer),
        call_ensures(intent, (disposal, 10, bytes), head),
        call_ensures(intent, (disposal, targets@.len() as usize, all), other_head),
        call_ensures(number, ((targets@.len() - 10) as u64,), rest),
    ensures
        exists|body: Seq<char>|
            text@ == "\n"@ + head@ + "\n"@ + #[trigger] closed_by(body, closing()) && longer@
                == "\n"@ + other_head@ + "\n"@ + closed_by(
                body + "  ... and "@ + rest@ + " more\n"@,
                closing(),
            ),
{
    assert forall|k: int| 0 <= k < 10 implies #[trigger] ten@[k] == targets@[k] by {
        assert(targets@.take(10)[k] == targets@[k]);
    }
    lemma_first_preview(ten@, targets@, 10);
    let body = preview_text(ten@, 10);
    assert(text@ =~= "\n"@ + head@ + "\n"@ + closed_by(body, closing()));
    assert(((targets@.len() - 10) as u64) as nat == (targets@.len() - 10) as nat);
    assert(longer@ =~= "\n"@ + other_head@ + "\n"@ + closed_by(
        body + "  ... and "@ + rest@ + " more\n"@,
        closing(),
    ));
}

proof fn lemma_first_preview(a: Seq<Target<'_>>, b: Seq<Target<'_>>, n: int)
    requires
        0 <= n <= a.len(),
        forall|k: int| 0 <= k < n ==> #[trigger] a[k] == b[k],
    ensures
        preview_text(a, n) == preview_text(b, n),
        weight(a, n) == weight(b, n),
    decreases n,
{
    if n > 0 {
        lemma_first_preview(a, b, n - 1);
        assert(a[n - 1] == b[n - 1]);
    }
}

proof fn lemma_same_preview(a: Seq<Target<'_>>, b: Seq<Target<'_>>, n: int)
    requires
        n == a.len(),
        b.len() == n + 1,
        b.drop_last() == a,
    ensures
        preview_text(a, n) == preview_text(b, n),
{
    assert forall|k: int| 0 <= k < n implies #[trigger] a[k] == b[k] by {
        assert(b.drop_last()[k] == b[k]);
    }
    lemma_first_preview(a, b, n);
}

proof fn lemma_same_weight(a: Seq<Target<'_>>, b: Seq<Target<'_>>, n: int)
    requires
        n == a.len(),
        b.len() == n + 1,
        b.drop_last() == a,
    ensures
        weight(b, n + 1) == weight(a, n) + b[n].size,
{
    assert forall|k: int| 0 <= k < n implies #[trigger] a[k] == b[k] by {
        assert(b.drop_last()[k] == b[k]);
    }
    lemma_first_preview(a, b, n);
}

/// Whether a character is blank.
pub open spec fn is_blank(c: char) -> bool {
    let n = c as u32;
    9 <= n <= 13 || n == 32 || n == 0x85 || n == 0xa0 || n == 0x1680 || 0x2000 <= n <= 0x200a || n
        == 0x2028 || n == 0x2029 || n == 0x202f || n == 0x205f || n == 0x3000
}

proof fn lemma_trimmed(s: Seq<char>, c: char)
    requires
        is_white(c),
    ensures
        trimmed(s.push(c)) == trimmed(s),
        trimmed(seq![c] + s) == trimmed(s),
    decreases s.len(),
{
    assert((seq![c] + s).drop_first() =~= s);
    assert(s.push(c).drop_last() =~= s);
    if s.len() == 0 {
        assert(s.push(c).drop_first() =~= s);
    } else if is_white(s[0]) {
        lemma_trimmed(s.drop_first(), c);
        assert(s.push(c).drop_first() =~= s.drop_first().push(c));
    }
}

/// Blanks before and after an answer make no difference to it.
pub proof fn lemma_blanks_make_no_difference(
    line: &str,
    other: &str,
    c: char,
    said: Option<bool>,
    told: Option<bool>,
)
    requires
        call_ensures(interpret, (line,), said),
        call_ensures(interpret, (other,), told),
        is_blank(c),
        other@ == line@.push(c) || other@ == seq![c] + line@,
    ensures
        said == told,
{
    assert(is_white(c));
    lemma_trimmed(line@, c);
}

proof fn lemma_trimmed_same(s: Seq<char>, t: Seq<char>)
    requires
        s.len() == t.len(),
        forall|i: int| 0 <= i < s.len() ==> lower(#[trigger] s[i]) == lower(t[i]),
    ensures
        lowered(trimmed(s)) == lowered(trimmed(t)),
    decreases s.len(),
{
    if s.len() > 0 {
        assert(lower(s[0]) == lower(t[0]));
        assert(lower(s[s.len() - 1]) == lower(t[t.len() - 1]));
        lemma_lower(s[0]);
        lemma_lower(t[0]);
        lemma_lower(s[s.len() - 1]);
        lemma_lower(t[t.len() - 1]);
        if is_white(s[0]) {
            lemma_trimmed_same(s.drop_first(), t.drop_first());
        } else if is_white(s.last()) {
            lemma_trimmed_same(s.drop_last(), t.drop_last());
        } else {
            assert(lowered(s) =~= lowered(t));
        }
    }
}

proof fn lemma_lower(c: char)
    ensures
        is_white(lower(c)) <==> is_white(c),
        is_white(c) ==> lower(c) == c,
{
}

/// Whether two characters are the same letter, but for its case.
pub open spec fn is_same_letter(a: char, b: char) -> bool {
    ||| a == b
    ||| 'A' <= a <= 'Z' && b as u32 == a as u32 + 32
    ||| 'A' <= b <= 'Z' && a as u32 == b as u32 + 32
}

/// The case of an answer makes no difference to it.
pub proof fn lemma_case_makes_no_difference(
    line: &str,
    other: &str,
    said: Option<bool>,
    told: Option<bool>,
)
    requires
        call_ensures(interpret, (line,), said),
        call_ensures(interpret, (other,), told),
        line@.len() == other@.len(),
        forall|i: int| 0 <= i < line@.len() ==> is_same_letter(#[trigger] line@[i], other@[i]),
    ensures
        said == told,
{
    assert forall|i: int| 0 <= i < line@.len() implies lower(#[trigger] line@[i]) == lower(
        other@[i],
    ) by {
        assert(is_same_letter(line@[i], other@[i]));
    }
    lemma_trimmed_same(line@, other@);
}

/// Written small and without blanks around it, a yes is `y`, `yes` or nothing at all, a
/// no is `n` or `no`, and nothing else is an answer.
pub proof fn lemma_what_is_an_answer(line: &str, said: Option<bool>)
    requires
        call_ensures(interpret, (line,), said),
        forall|i: int| 0 <= i < line@.len() ==> !('A' <= #[trigger] line@[i] <= 'Z'),
        line@.len() > 0 ==> !is_blank(line@[0]) && !is_blank(line@.last()),
    ensures
        said == Some(true) <==> line@.len() == 0 || line@ == seq!['y'] || line@
            == seq!['y', 'e', 's'],
        said == Some(false) <==> line@ == seq!['n'] || line@ == seq!['n', 'o'],
{
    assert(trimmed(line@) == line@);
    assert(lowered(line@) =~= line@) by {
        assert forall|i: int| 0 <= i < line@.len() implies lower(#[trigger] line@[i]) == line@[i] by {
            assert(!('A' <= line@[i] <= 'Z'));
        }
    }
    assert(seq!['n'].len() == 1 && seq!['n', 'o'].len() == 2);
    assert(seq!['y'][0] == 'y' && seq!['n'][0] == 'n');
}

/// Where there is nothing to ask about, the answer was given beforehand or nobody is
/// there, a removal goes ahead unasked.
pub proof fn lemma_nobody_is_asked_for_nothing<S, T, R>(
    disposal: &Disposal,
    targets: &[Target<'_>],
    assume_yes: bool,
    interactive: bool,
    stop: &S,
    tell: &T,
    ask: &R,
    allowed: bool,
) where S: Fn() -> bool, T: Fn(&str), R: Fn(usize) -> Reply
    requires
        call_ensures(
            approve::<S, T, R>,
            (disposal, targets, assume_yes, interactive, stop, tell, ask),
            allowed,
        ),
        targets@.len() == 0 || assume_yes || !interactive,
    ensures
        allowed,
{
}

/// Asked of somebody, a removal does not go ahead where the run is stopped, where the
/// input ends or cannot be read at once, or where every reply is a line that is no answer
/// or a no. It does where the first one is a yes.
pub proof fn lemma_only_a_yes_lets_a_removal_go_ahead<S, T, R>(
    disposal: &Disposal,
    targets: &[Target<'_>],
    stop: &S,
    tell: &T,
    ask: &R,
    allowed: bool,
) where S: Fn() -> bool, T: Fn(&str), R: Fn(usize) -> Reply
    requires
        call_ensures(
            approve::<S, T, R>,
            (disposal, targets, false, true, stop, tell, ask),
            allowed,
        ),
        targets@.len() > 0,
    ensures
        !stop.ensures((), false) ==> !allowed,
        (forall|reply: Reply| #[trigger]
            ask.ensures((0,), reply) ==> reply is Ended || reply is Unreadable) ==> !allowed,
        allowed ==> exists|i: usize, reply: Reply|
            i < 3 && #[trigger] ask.ensures((i,), reply) && reply is Line && answer_of(reply)
                == Some(true),
        !stop.ensures((), true) && (forall|reply: Reply| #[trigger]
            ask.ensures((0,), reply) ==> reply is Line && answer_of(reply) == Some(true))
            ==> allowed,
{
    if allowed {
        let replies = choose|replies: Seq<Reply>|
            #[trigger] is_dialogue(ask, replies) && allowed == is_yes(replies.last());
        let n = replies.len() - 1;
        assert(ask.ensures((n as usize,), replies[n]));
        assert(ask.ensures((0,), replies[0])) by {
            assert(ask.ensures((0int as usize,), replies[0]));
        }
        if n > 0 {
            assert(is_unusable(replies[0]));
        }
    }
    if !stop.ensures((), true) && (forall|reply: Reply| #[trigger]
        ask.ensures((0,), reply) ==> reply is Line && answer_of(reply) == Some(true)) {
        let replies = choose|replies: Seq<Reply>|
            #[trigger] is_dialogue(ask, replies) && allowed == is_yes(replies.last());
        assert(ask.ensures((0,), replies[0])) by {
            assert(ask.ensures((0int as usize,), replies[0]));
        }
        if replies.len() > 1 {
            assert(is_unusable(replies[0]));
        }
    }
}

/// What a reply that is a line comes to.
pub open spec fn answer_of(reply: Reply) -> Option<bool> {
    match reply {
        Reply::Line(l) => answer(l@),
        _ => None,
    }
}

} // verus!
