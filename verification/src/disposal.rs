//! Taking a file off its path: when it may be done, how, and what is said of it.

use crate::display::{format_size, size_text};
use crate::paths::{components, components_of, is_rooted, joined, named, pieces, rendered};
use crate::stats::RunStats;
use crate::text::{decimal, number, texts};
use vstd::prelude::*;

verus! {

/// What to do with a file marked for deletion.
#[derive(Clone, Debug)]
pub enum Disposal {
    /// The system trash. Recoverable, and the default.
    Trash,
    /// Removed for good.
    Permanent,
    /// Relocated under a folder, mirroring the file's absolute path.
    MoveTo(String),
}

/// Width of the leading action column in the listings, comma included.
pub const ACTION_COLUMN: usize = 9;

/// The word for a file that was dealt with. A file whose data stayed where it was has
/// a word of its own.
pub open spec fn done_text(disposal: &Disposal, aliased: bool) -> Seq<char> {
    if aliased {
        "UNLINKED"@
    } else {
        match disposal {
            Disposal::Trash => "DELETED"@,
            Disposal::Permanent => "DELETED"@,
            Disposal::MoveTo(_) => "MOVED"@,
        }
    }
}

/// The short name of a mode.
pub open spec fn mode_text(disposal: &Disposal) -> Seq<char> {
    match disposal {
        Disposal::Trash => "trash"@,
        Disposal::Permanent => "permanent"@,
        Disposal::MoveTo(_) => "move"@,
    }
}

impl Disposal {
    /// Label for the results table once the file has been dealt with.
    pub fn done_label(&self, aliased: bool) -> (label: &'static str)
        ensures
            label@ == done_text(self, aliased),
    {
        if aliased {
            return "UNLINKED";
        }
        match self {
            Disposal::Trash => "DELETED",
            Disposal::Permanent => "DELETED",
            Disposal::MoveTo(_) => "MOVED",
        }
    }

    /// Short name for the machine-readable summary.
    pub fn mode(&self) -> (name: &'static str)
        ensures
            name@ == mode_text(self),
    {
        match self {
            Disposal::Trash => "trash",
            Disposal::Permanent => "permanent",
            Disposal::MoveTo(_) => "move",
        }
    }
}

/// What a path is a name for, as far as its removal is concerned.
#[derive(Clone, Copy, Debug, PartialEq, Eq, Structural)]
pub enum Alias {
    /// The only name for these bytes.
    Sole,
    /// A hard link with at least one sibling.
    HardLink,
    /// A symbolic link.
    Symlink,
}

/// What one look at the disk says about a file, taken immediately before the
/// irreversible step.
#[derive(Clone, Copy, Debug, PartialEq, Eq)]
pub struct OnDisk {
    /// The file's current length, or `None` when it could not be read.
    pub size: Option<u64>,
    /// Whether this path is one of several names for the same data.
    pub alias: Alias,
}

/// What one look at a path found, link not followed.
#[derive(Clone, Copy, Debug)]
pub enum Look {
    /// Nothing could be read there.
    Unreadable,
    /// A symbolic link, and the length of what it leads to, where it leads anywhere.
    Link { target: Option<u64> },
    /// Anything else: its length, and how many names it has.
    File { size: u64, names: u64 },
}

/// What a look at the disk means. A file with a second name is an alias, and so is a
/// link, which is as long as what it leads to.
pub fn on_disk(look: Look) -> (disk: OnDisk)
    ensures
        disk == match look {
            Look::Unreadable => OnDisk { size: None, alias: Alias::Sole },
            Look::Link { target } => OnDisk { size: target, alias: Alias::Symlink },
            Look::File { size, names } => OnDisk {
                size: Some(size),
                alias: if names > 1 {
                    Alias::HardLink
                } else {
                    Alias::Sole
                },
            },
        },
{
    match look {
        Look::Unreadable => OnDisk { size: None, alias: Alias::Sole },
        Look::Link { target } => OnDisk { size: target, alias: Alias::Symlink },
        Look::File { size, names } => OnDisk {
            size: Some(size),
            alias: if names > 1 {
                Alias::HardLink
            } else {
                Alias::Sole
            },
        },
    }
}

/// Whether a disposal takes the name and leaves the data behind. A rename carries a
/// hard link's data with it, and never a symbolic link's.
pub open spec fn leaves_data(alias: Alias, disposal: &Disposal) -> bool {
    alias == Alias::Symlink || (alias == Alias::HardLink && disposal is Permanent)
}

/// Whether this disposal takes the name and leaves the data behind.
pub fn frees_nothing(alias: Alias, disposal: &Disposal) -> (yes: bool)
    ensures
        yes <==> leaves_data(alias, disposal),
{
    match alias {
        Alias::Sole => false,
        Alias::Symlink => true,
        Alias::HardLink => match disposal {
            Disposal::Permanent => true,
            Disposal::Trash => false,
            Disposal::MoveTo(_) => false,
        },
    }
}

/// Whether a file is known to have a different length than it was measured at. A
/// length that cannot be read proves nothing.
pub open spec fn is_changed(measured: u64, current: Option<u64>) -> bool {
    current matches Some(size) && size != measured
}

/// How a changed file is described.
pub open spec fn change_text(path: Seq<char>, measured: nat, size: nat) -> Seq<char> {
    path + ": "@ + decimal(measured) + " bytes when scanned, "@ + decimal(size) + " bytes now"@
}

/// A description of how the file's length differs from what was measured, if it does.
pub fn changed_since(path: &str, measured_size: u64, current: Option<u64>) -> (detail: Option<String>)
    ensures
        detail is Some <==> is_changed(measured_size, current),
        detail matches Some(d) ==> d@ == change_text(
            path@,
            measured_size as nat,
            current->0 as nat,
        ),
{
    match current {
        None => None,
        Some(size) => {
            if size == measured_size {
                return None;
            }
            let mut d = path.to_owned();
            d.append(": ");
            d.append(number(measured_size).as_str());
            d.append(" bytes when scanned, ");
            d.append(number(size).as_str());
            d.append(" bytes now");
            Some(d)
        },
    }
}

/// What became of one file the disposal pass reached.
#[derive(Clone, Copy, Debug, PartialEq, Eq, Structural)]
pub enum Fate {
    /// Gone from the path it was at. `aliased` says whether the data stayed where it
    /// was.
    Done { aliased: bool },
    /// It no longer matches the size it was measured at, so it was left alone.
    Changed,
    /// The disposal itself failed. The file is still there.
    Failed,
}

/// One line more, with this text.
pub open spec fn is_one_more(before: Seq<String>, after: Seq<String>, text: Seq<char>) -> bool {
    after.len() == before.len() + 1 && after.drop_last() == before && after.last()@ == text
}

/// Take one file off its path, if it is still the file that was measured.
///
/// `remove` is what takes it away, and says whether it did. It is asked for only when
/// the file is not known to have changed.
pub fn dispose_one<R>(
    path: &str,
    measured_size: u64,
    disposal: &Disposal,
    disk: OnDisk,
    remove: &R,
    stats: &mut RunStats,
) -> (fate: Fate) where R: Fn() -> bool
    requires
        !is_changed(measured_size, disk.size) ==> remove.requires(()),
    ensures
        fate == Fate::Changed <==> is_changed(measured_size, disk.size),
        fate is Done ==> fate == (Fate::Done { aliased: leaves_data(disk.alias, disposal) })
            && remove.ensures((), true),
        fate == Fate::Failed ==> remove.ensures((), false),
        final(stats).clustering_abandoned == old(stats).clustering_abandoned,
        final(stats).report_write_failed == old(stats).report_write_failed,
        fate is Done ==> *final(stats) == *old(stats),
        fate == Fate::Changed ==> final(stats).delete_failed == old(stats).delete_failed
            && is_one_more(
            old(stats).delete_stale.lines@,
            final(stats).delete_stale.lines@,
            change_text(path@, measured_size as nat, disk.size->0 as nat),
        ),
        fate == Fate::Failed ==> final(stats).delete_stale == old(stats).delete_stale
            && is_one_more(
            old(stats).delete_failed.lines@,
            final(stats).delete_failed.lines@,
            path@,
        ),
{
    match changed_since(path, measured_size, disk.size) {
        Some(detail) => {
            stats.delete_stale.record(detail);
            assert(stats.delete_stale.lines@.drop_last() =~= old(stats).delete_stale.lines@);
            return Fate::Changed;
        },
        None => {},
    }
    if remove() {
        Fate::Done { aliased: frees_nothing(disk.alias, disposal) }
    } else {
        stats.delete_failed.record(path.to_owned());
        assert(stats.delete_failed.lines@.drop_last() =~= old(stats).delete_failed.lines@);
        Fate::Failed
    }
}

/// The names in a path, from the root down.
pub open spec fn names_of(path: Seq<char>) -> Seq<Seq<char>> {
    named(pieces(path), is_rooted(path))
}

/// Where a file at `path` goes under `root`: its whole path, recreated inside it.
pub open spec fn mirrored_text(root: Seq<char>, path: Seq<char>) -> Seq<char> {
    joined(seq![root] + names_of(path))
}

/// Where a file goes under the folder it is moved to.
///
/// The absolute path is recreated inside the folder, so no two files want the same
/// place.
pub fn mirrored(root: &str, path: &str) -> (dest: String)
    ensures
        dest@ == mirrored_text(root@, path@),
{
    let parts = components(path);
    let mut list: Vec<String> = Vec::new();
    list.push(root.to_owned());
    let cs = crate::text::characters(path);
    let rooted: bool = cs.len() > 0 && cs[0] == '/';
    let first: usize = if rooted {
        1
    } else {
        0
    };
    proof {
        assert(texts(parts@).len() == parts@.len());
        if rooted {
            assert(components_of(path@).len() >= 1);
        }
        assert(texts(parts@).skip(first as int) =~= names_of(path@));
        assert(texts(list@) =~= seq![root@] + texts(parts@).skip(first as int).take(0));
    }
    for i in first..parts.len()
        invariant
            first <= parts@.len(),
            texts(list@) == seq![root@] + texts(parts@).skip(first as int).take(i - first),
    {
        let ghost before = list@;
        list.push(parts[i].as_str().to_owned());
        proof {
            assert(texts(list@) =~= texts(before).push(parts@[i as int]@));
            let all = texts(parts@).skip(first as int);
            assert(all.take(i + 1 - first) =~= all.take(i - first).push(parts@[i as int]@));
            assert(texts(list@) =~= seq![root@] + all.take(i + 1 - first));
        }
    }
    proof {
        let all = texts(parts@).skip(first as int);
        assert(all.take(parts@.len() - first) =~= all);
        assert(texts(list@).take(list@.len() as int) =~= texts(list@));
    }
    rendered(&list, list.len())
}

/// A name that can stand in a path.
spec fn is_plain(name: Seq<char>) -> bool {
    name.len() > 0 && !name.contains('/')
}

proof fn lemma_pieces_plain(s: Seq<char>)
    ensures
        pieces(s).len() > 0,
        forall|i: int| 0 <= i < pieces(s).len() ==> !(#[trigger] pieces(s)[i]).contains('/'),
    decreases s.len(),
{
    if s.len() > 0 {
        let less = pieces(s.drop_last());
        lemma_pieces_plain(s.drop_last());
        assert forall|i: int| 0 <= i < pieces(s).len() implies !(#[trigger] pieces(s)[i]).contains(
            '/',
        ) by {
            if s.last() != '/' && i == less.len() - 1 {
                crate::seqs::lemma_push_contains(less.last(), s.last());
                assert(!less[i].contains('/'));
            } else if i < less.len() {
                assert(pieces(s)[i] == less[i]);
            }
        }
    }
}

proof fn lemma_named_plain(list: Seq<Seq<char>>, rooted: bool)
    requires
        forall|i: int| 0 <= i < list.len() ==> !(#[trigger] list[i]).contains('/'),
    ensures
        forall|i: int| 0 <= i < named(list, rooted).len() ==> is_plain(#[trigger] named(list, rooted)[i]),
    decreases list.len(),
{
    if list.len() > 0 {
        let less = list.drop_last();
        assert forall|i: int| 0 <= i < less.len() implies !(#[trigger] less[i]).contains('/') by {
            assert(less[i] == list[i]);
        }
        lemma_named_plain(less, rooted);
        assert(!list[list.len() - 1].contains('/'));
        let before = named(less, rooted);
        assert forall|i: int| 0 <= i < named(list, rooted).len() implies is_plain(
            #[trigger] named(list, rooted)[i],
        ) by {
            if i < before.len() {
                assert(named(list, rooted)[i] == before[i]);
            }
        }
    }
}

/// A slash and a name add one piece.
pub proof fn lemma_pieces_append(s: Seq<char>, name: Seq<char>)
    requires
        !name.contains('/'),
    ensures
        pieces(s.push('/') + name) == pieces(s).push(name),
    decreases name.len(),
{
    let whole = s.push('/') + name;
    if name.len() == 0 {
        assert(whole =~= s.push('/'));
        assert(whole.drop_last() =~= s);
        assert(name =~= Seq::<char>::empty());
    } else {
        let less = name.drop_last();
        assert forall|c: char| less.contains(c) implies name.contains(c) by {
            let i = choose|i: int| 0 <= i < less.len() && less[i] == c;
            assert(name[i] == c);
        }
        lemma_pieces_append(s, less);
        assert(whole.drop_last() =~= s.push('/') + less);
        assert(name.contains(name[name.len() - 1]));
        assert(whole.last() == name.last());
        let before = pieces(s).push(less);
        assert(before.drop_last() =~= pieces(s));
        assert(less.push(name.last()) =~= name);
    }
}

/// A list of names, written as a path, can be read back from it.
proof fn lemma_joined(names: Seq<Seq<char>>)
    requires
        names.len() > 0,
        forall|i: int| 0 <= i < names.len() ==> is_plain(#[trigger] names[i]),
    ensures
        pieces(joined(names)) == names,
        joined(names).len() > 0,
        joined(names).last() != '/',
    decreases names.len(),
{
    let less = names.drop_last();
    let name = names.last();
    assert(is_plain(names[names.len() - 1]));
    assert(name.contains(name[name.len() - 1]));
    let before = joined(less);
    if less.len() == 0 {
        assert(joined(names) =~= name);
        lemma_one_piece(name);
        assert(names =~= seq![name]);
    } else {
        lemma_joined(less);
        lemma_pieces_append(before, name);
        assert(joined(names) == before.push('/') + name);
        assert(joined(names).last() == name.last());
        assert(less.push(name) =~= names);
    }
}

pub proof fn lemma_one_piece(name: Seq<char>)
    requires
        !name.contains('/'),
    ensures
        pieces(name) == seq![name],
    decreases name.len(),
{
    if name.len() > 0 {
        let less = name.drop_last();
        assert forall|c: char| less.contains(c) implies name.contains(c) by {
            let i = choose|i: int| 0 <= i < less.len() && less[i] == c;
            assert(name[i] == c);
        }
        lemma_one_piece(less);
        assert(name.contains(name[name.len() - 1]));
        assert(less.push(name.last()) =~= name);
        assert(pieces(name) =~= seq![name]);
    } else {
        assert(name =~= Seq::<char>::empty());
    }
}

/// What a folder's text is followed by a name with.
spec fn under(root: Seq<char>) -> Seq<char> {
    if root.len() == 0 || root.last() == '/' {
        root
    } else {
        root.push('/')
    }
}

proof fn lemma_under(root: Seq<char>, names: Seq<Seq<char>>)
    requires
        forall|i: int| 0 <= i < names.len() ==> is_plain(#[trigger] names[i]),
    ensures
        names.len() > 0 ==> joined(seq![root] + names) == under(root) + joined(names),
        names.len() == 0 ==> joined(seq![root] + names) == root,
    decreases names.len(),
{
    let all = seq![root] + names;
    if names.len() == 0 {
        assert(all =~= seq![root]);
        assert(all.drop_last() =~= Seq::<Seq<char>>::empty());
        assert(joined(all.drop_last()) =~= Seq::<char>::empty());
        assert(joined(all) =~= root);
    } else {
        let less = names.drop_last();
        lemma_under(root, less);
        assert(all.drop_last() =~= seq![root] + less);
        if less.len() == 0 {
            assert(joined(less) =~= Seq::<char>::empty());
            assert(joined(all) =~= under(root) + joined(names));
        } else {
            lemma_joined(less);
            assert(joined(seq![root] + less).last() == joined(less).last());
            assert(joined(all) =~= under(root) + joined(names));
        }
    }
}

/// A path from the root, written without anything superfluous.
pub open spec fn is_canonical(path: Seq<char>) -> bool {
    is_rooted(path) && path == joined(components_of(path))
}

/// No two files want the same place: different canonical paths are mirrored to
/// different destinations, whatever folder they are moved to.
pub proof fn lemma_no_two_files_want_one_place(root: Seq<char>, p: Seq<char>, q: Seq<char>)
    requires
        is_canonical(p),
        is_canonical(q),
        mirrored_text(root, p) == mirrored_text(root, q),
    ensures
        p == q,
{
    lemma_pieces_plain(p);
    lemma_pieces_plain(q);
    lemma_named_plain(pieces(p), true);
    lemma_named_plain(pieces(q), true);
    let m = names_of(p);
    let n = names_of(q);
    lemma_under(root, m);
    lemma_under(root, n);
    if m.len() > 0 && n.len() > 0 {
        lemma_joined(m);
        lemma_joined(n);
        let k = under(root).len() as int;
        assert((under(root) + joined(m)).skip(k) =~= joined(m));
        assert((under(root) + joined(n)).skip(k) =~= joined(n));
    } else if m.len() > 0 {
        lemma_joined(m);
        assert((under(root) + joined(m)).len() > root.len());
    } else if n.len() > 0 {
        lemma_joined(n);
        assert((under(root) + joined(n)).len() > root.len());
    } else {
        assert(m =~= n);
    }
    assert(components_of(p) == components_of(q));
}

/// What happened while a file was being moved.
pub enum MoveEvent {
    /// The destination was looked at.
    Looked { occupied: bool },
    /// The file was renamed to the destination.
    Renamed,
    /// It was not, with the system's error code where there was one.
    RenameFailed { code: Option<i32>, detail: String },
    /// The file was copied to the destination, and the copy is on disk.
    Copied,
    /// It was not.
    CopyFailed { detail: String },
    /// The file was removed after it was copied.
    Unlinked,
    /// It was not.
    UnlinkFailed { detail: String },
}

/// What to do next to move a file.
pub enum MoveStep {
    /// Rename it to the destination.
    Rename,
    /// Copy it to the destination and flush the copy.
    Copy,
    /// Remove it: the copy stands.
    Unlink,
    /// Remove what was written to the destination, and report.
    Undo(String),
    /// Nothing: the file was moved.
    Done,
    /// Nothing: the file was not moved.
    Failed(String),
}

/// The message for a destination that already holds something.
pub open spec fn occupied_text(path: Seq<char>, dest: Seq<char>) -> Seq<char> {
    "Failed to move "@ + path + ": "@ + dest
        + " already exists (an earlier run moved a file from this path)"@
}

/// The message for a rename that failed.
pub open spec fn rename_text(path: Seq<char>, dest: Seq<char>, detail: Seq<char>) -> Seq<char> {
    "Failed to move "@ + path + " to "@ + dest + ": "@ + detail
}

/// The message for a file that could not be removed once copied.
pub open spec fn unlink_text(path: Seq<char>, dest: Seq<char>, detail: Seq<char>) -> Seq<char> {
    "Failed to remove "@ + path + " after copying it to "@ + dest + ": "@ + detail
}

/// What follows what: nothing that is already there is ever replaced, a file is only
/// removed once its copy is on disk, and a move that fails half way is undone.
pub open spec fn is_next(
    path: Seq<char>,
    dest: Seq<char>,
    event: MoveEvent,
    cross_device: i32,
    step: MoveStep,
) -> bool {
    match event {
        MoveEvent::Looked { occupied: true } => step matches MoveStep::Failed(m) && m@
            == occupied_text(path, dest),
        MoveEvent::Looked { occupied: false } => step is Rename,
        MoveEvent::Renamed => step is Done,
        MoveEvent::RenameFailed { code, detail } => if code == Some(cross_device) {
            step is Copy
        } else {
            step matches MoveStep::Failed(m) && m@ == rename_text(path, dest, detail@)
        },
        MoveEvent::Copied => step is Unlink,
        MoveEvent::CopyFailed { detail } => step matches MoveStep::Undo(m) && m@ == detail@,
        MoveEvent::Unlinked => step is Done,
        MoveEvent::UnlinkFailed { detail } => step matches MoveStep::Undo(m) && m@ == unlink_text(
            path,
            dest,
            detail@,
        ),
    }
}

/// The next step of moving a file from `path` to `dest`, given the error code that
/// says the two are on different filesystems.
pub fn next_step(path: &str, dest: &str, event: MoveEvent, cross_device: i32) -> (step: MoveStep)
    ensures
        is_next(path@, dest@, event, cross_device, step),
{
    match event {
        MoveEvent::Looked { occupied } => {
            if !occupied {
                return MoveStep::Rename;
            }
            let mut m = "Failed to move ".to_owned();
            m.append(path);
            m.append(": ");
            m.append(dest);
            m.append(" already exists (an earlier run moved a file from this path)");
            MoveStep::Failed(m)
        },
        MoveEvent::Renamed => MoveStep::Done,
        MoveEvent::RenameFailed { code, detail } => {
            match code {
                Some(c) => {
                    if c == cross_device {
                        return MoveStep::Copy;
                    }
                },
                None => {},
            }
            let mut m = "Failed to move ".to_owned();
            m.append(path);
            m.append(" to ");
            m.append(dest);
            m.append(": ");
            m.append(detail.as_str());
            MoveStep::Failed(m)
        },
        MoveEvent::Copied => MoveStep::Unlink,
        MoveEvent::CopyFailed { detail } => MoveStep::Undo(detail),
        MoveEvent::Unlinked => MoveStep::Done,
        MoveEvent::UnlinkFailed { detail } => {
            let mut m = "Failed to remove ".to_owned();
            m.append(path);
            m.append(" after copying it to ");
            m.append(dest);
            m.append(": ");
            m.append(detail.as_str());
            MoveStep::Undo(m)
        },
    }
}

/// The next step of moving a file from `path` to `dest`. A rename that failed because
/// the two are on different filesystems is followed by a copy, any other by nothing.
pub fn move_under(path: &str, dest: &str, event: MoveEvent) -> (step: MoveStep)
    ensures
        exists|code: i32|
            call_ensures(crate::errno::exdev, (), code) && #[trigger] is_next(
                path@,
                dest@,
                event,
                code,
                step,
            ),
{
    let code = crate::errno::exdev();
    let step = next_step(path, dest, event, code);
    assert(is_next(path@, dest@, event, code, step));
    step
}

/// A file is removed only once its copy is on disk, and nothing already at the
/// destination is ever replaced.
pub proof fn lemma_a_move_never_loses_a_file(
    path: Seq<char>,
    dest: Seq<char>,
    event: MoveEvent,
    code: i32,
    step: MoveStep,
)
    requires
        is_next(path, dest, event, code, step),
    ensures
        step is Unlink ==> event is Copied,
        step is Rename ==> (event matches MoveEvent::Looked { occupied } && !occupied),
        step is Copy ==> event is RenameFailed,
        step is Undo ==> event is CopyFailed || event is UnlinkFailed,
        step is Done ==> event is Renamed || event is Unlinked,
{
}

/// What a disposal pass did.
pub open spec fn disposed_text(disposal: &Disposal, count: nat, bytes: nat) -> Seq<char> {
    match disposal {
        Disposal::Permanent => "Permanently deleted "@ + decimal(count) + " file(s), "@
            + size_text(bytes) + " freed."@,
        Disposal::Trash => "Moved "@ + decimal(count) + " file(s) to trash ("@ + size_text(bytes)
            + " total)."@,
        Disposal::MoveTo(dir) => "Moved "@ + decimal(count) + " file(s) ("@ + size_text(bytes)
            + " total) under "@ + dir@ + "."@,
    }
}

/// What a disposal pass did, in the words of the mode that did it.
pub fn disposed_line(disposal: &Disposal, count: usize, bytes: u64) -> (line: String)
    ensures
        line@ == disposed_text(disposal, count as nat, bytes as nat),
{
    match disposal {
        Disposal::Permanent => {
            let mut s = "Permanently deleted ".to_owned();
            s.append(number(count as u64).as_str());
            s.append(" file(s), ");
            s.append(format_size(bytes).as_str());
            s.append(" freed.");
            s
        },
        Disposal::Trash => {
            let mut s = "Moved ".to_owned();
            s.append(number(count as u64).as_str());
            s.append(" file(s) to trash (");
            s.append(format_size(bytes).as_str());
            s.append(" total).");
            s
        },
        Disposal::MoveTo(dir) => {
            let mut s = "Moved ".to_owned();
            s.append(number(count as u64).as_str());
            s.append(" file(s) (");
            s.append(format_size(bytes).as_str());
            s.append(" total) under ");
            s.append(dir.as_str());
            s.append(".");
            s
        },
    }
}

/// What the byte figure of a disposal leaves out.
pub open spec fn aliased_text(count: nat, bytes: nat) -> Seq<char> {
    if count == 0 {
        Seq::empty()
    } else {
        "\n"@ + decimal(count)
            + " file(s) were another name for data that is still on disk (a hard link or a symlink), so their "@
            + size_text(bytes) + " is not counted above; they are marked UNLINKED."@
    }
}

/// What the byte figure of a disposal leaves out, when there is anything to leave out.
pub fn aliased_line(count: usize, bytes: u64) -> (line: String)
    ensures
        line@ == aliased_text(count as nat, bytes as nat),
{
    let mut s = String::new();
    if count == 0 {
        assert(s@ =~= Seq::<char>::empty());
        return s;
    }
    s.append("\n");
    s.append(number(count as u64).as_str());
    s.append(
        " file(s) were another name for data that is still on disk (a hard link or a symlink), so their ",
    );
    s.append(format_size(bytes).as_str());
    s.append(" is not counted above; they are marked UNLINKED.");
    assert(s@ =~= aliased_text(count as nat, bytes as nat));
    s
}

/// What a disposal pass could not do.
pub open spec fn trouble_text(failed: nat, changed: nat) -> Seq<char> {
    (if failed > 0 {
        "\n"@ + decimal(failed) + " file(s) could not be removed (see errors above)."@
    } else {
        Seq::empty()
    }) + (if changed > 0 {
        "\n"@ + decimal(changed)
            + " file(s) changed on disk after they were scanned and were left alone (re-run to judge them as they now stand)."@
    } else {
        Seq::empty()
    })
}

/// The lines that follow when the pass did not get everything, each omitted when its
/// count is zero.
pub fn trouble_lines(failed: usize, changed: usize) -> (lines: String)
    ensures
        lines@ == trouble_text(failed as nat, changed as nat),
{
    let mut s = String::new();
    if failed > 0 {
        s.append("\n");
        s.append(number(failed as u64).as_str());
        s.append(" file(s) could not be removed (see errors above).");
    }
    if changed > 0 {
        s.append("\n");
        s.append(number(changed as u64).as_str());
        s.append(
            " file(s) changed on disk after they were scanned and were left alone (re-run to judge them as they now stand).",
        );
    }
    assert(s@ =~= trouble_text(failed as nat, changed as nat));
    s
}

} // verus!
