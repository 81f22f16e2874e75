//! The parts of a path, and the folder several paths share.

use crate::text::{characters, texts};
use vstd::prelude::*;

verus! {

/// `s` cut at every slash.
pub open spec fn pieces(s: Seq<char>) -> Seq<Seq<char>>
    decreases s.len(),
{
    if s.len() == 0 {
        seq![Seq::<char>::empty()]
    } else {
        let before = pieces(s.drop_last());
        if s.last() == '/' {
            before.push(Seq::<char>::empty())
        } else {
            before.drop_last().push(before.last().push(s.last()))
        }
    }
}

/// Does this piece name something? An empty piece never does, and neither does a
/// lone dot, except the one that a relative path begins with.
pub open spec fn is_name(piece: Seq<char>, first: bool, rooted: bool) -> bool {
    piece.len() > 0 && (piece == seq!['.'] ==> first && !rooted)
}

/// The pieces that name something.
pub open spec fn named(list: Seq<Seq<char>>, rooted: bool) -> Seq<Seq<char>>
    decreases list.len(),
{
    if list.len() == 0 {
        Seq::empty()
    } else {
        let before = named(list.drop_last(), rooted);
        if is_name(list.last(), list.len() == 1, rooted) {
            before.push(list.last())
        } else {
            before
        }
    }
}

/// Does the path start at the root?
pub open spec fn is_rooted(path: Seq<char>) -> bool {
    path.len() > 0 && path[0] == '/'
}

/// The components of a path: the root, if it starts there, then each name.
pub open spec fn components_of(path: Seq<char>) -> Seq<Seq<char>> {
    if is_rooted(path) {
        seq![seq!['/']] + named(pieces(path), true)
    } else {
        named(pieces(path), false)
    }
}

/// The components of the folder a path sits in.
pub open spec fn folder_of(path: Seq<char>) -> Seq<Seq<char>> {
    let parts = components_of(path);
    if parts.len() == 0 {
        parts
    } else {
        parts.drop_last()
    }
}

/// Components as one path.
pub open spec fn joined(parts: Seq<Seq<char>>) -> Seq<char>
    decreases parts.len(),
{
    if parts.len() == 0 {
        Seq::empty()
    } else {
        let before = joined(parts.drop_last());
        if before.len() == 0 || before.last() == '/' {
            before + parts.last()
        } else {
            before.push('/') + parts.last()
        }
    }
}

/// How many components the two lists agree on, counting from the `n`th.
pub open spec fn agreement(a: Seq<Seq<char>>, b: Seq<Seq<char>>, n: nat) -> nat
    decreases a.len() - n,
{
    if n < a.len() && n < b.len() && a[n as int] == b[n as int] {
        agreement(a, b, n + 1)
    } else {
        n
    }
}

/// The components every one of the paths' folders begins with.
pub open spec fn shared_folder(paths: Seq<Seq<char>>) -> Seq<Seq<char>>
    decreases paths.len(),
{
    if paths.len() == 0 {
        Seq::empty()
    } else if paths.len() == 1 {
        folder_of(paths[0])
    } else {
        let so_far = shared_folder(paths.drop_last());
        so_far.take(agreement(so_far, folder_of(paths.last()), 0) as int)
    }
}

proof fn lemma_agreement(a: Seq<Seq<char>>, b: Seq<Seq<char>>, n: nat, m: nat)
    requires
        n <= a.len(),
        n <= b.len(),
        a.take(n as int) == b.take(n as int),
    ensures
        n <= agreement(a, b, n),
        agreement(a, b, n) <= a.len(),
        agreement(a, b, n) <= b.len(),
        a.take(agreement(a, b, n) as int) == b.take(agreement(a, b, n) as int),
        m <= a.len() && m <= b.len() && a.take(m as int) == b.take(m as int) ==> m <= agreement(
            a,
            b,
            n,
        ),
    decreases a.len() - n,
{
    if n < a.len() && n < b.len() && a[n as int] == b[n as int] {
        assert(a.take((n + 1) as int) =~= a.take(n as int).push(a[n as int]));
        assert(b.take((n + 1) as int) =~= b.take(n as int).push(b[n as int]));
        lemma_agreement(a, b, n + 1, m);
    } else if m > n && m <= a.len() && m <= b.len() && a.take(m as int) == b.take(m as int) {
        assert(a.take(m as int)[n as int] == b.take(m as int)[n as int]);
    }
}

/// The shared folder holds every path, and no deeper folder does.
pub proof fn lemma_shared_folder_is_deepest(paths: Seq<Seq<char>>, deeper: Seq<Seq<char>>)
    requires
        paths.len() > 0,
    ensures
        forall|i: int| #![trigger paths[i]]
            0 <= i < paths.len() ==> shared_folder(paths).is_prefix_of(folder_of(paths[i])),
        (forall|i: int| #![trigger paths[i]]
            0 <= i < paths.len() ==> deeper.is_prefix_of(folder_of(paths[i])))
            ==> deeper.is_prefix_of(shared_folder(paths)),
    decreases paths.len(),
{
    if paths.len() > 1 {
        let before = paths.drop_last();
        let so_far = shared_folder(before);
        let folder = folder_of(paths.last());
        lemma_shared_folder_is_deepest(before, deeper);
        assert(so_far.take(0) =~= folder.take(0));
        lemma_agreement(so_far, folder, 0, deeper.len());
        let whole = shared_folder(paths);
        assert forall|i: int| #![trigger paths[i]] 0 <= i < paths.len() implies whole.is_prefix_of(
            folder_of(paths[i]),
        ) by {
            if i < before.len() {
                assert(before[i] == paths[i]);
                assert(so_far.is_prefix_of(folder_of(before[i])));
                assert(whole =~= folder_of(paths[i]).take(whole.len() as int));
            } else {
                assert(whole =~= folder.take(whole.len() as int));
            }
        }
        if forall|i: int| #![trigger paths[i]]
            0 <= i < paths.len() ==> deeper.is_prefix_of(folder_of(paths[i])) {
            assert forall|i: int| #![trigger before[i]] 0 <= i < before.len() implies deeper.is_prefix_of(
                folder_of(before[i]),
            ) by {
                assert(before[i] == paths[i]);
            }
            assert(deeper.is_prefix_of(folder_of(paths[paths.len() - 1])));
            assert(so_far.take(deeper.len() as int) =~= deeper);
            assert(folder.take(deeper.len() as int) =~= deeper);
            assert(deeper =~= whole.take(deeper.len() as int));
        }
    } else {
        assert(paths[0] == paths.last());
        assert(folder_of(paths[0]).is_prefix_of(folder_of(paths[0])));
    }
}

/// The piece of `path` from `start` to `end`, if it names something.
fn name_between(path: &str, cs: &Vec<char>, start: usize, end: usize, rooted: bool) -> (name:
    Option<String>)
    requires
        cs@ == path@,
        start <= end <= cs@.len(),
    ensures
        name is Some <==> is_name(cs@.subrange(start as int, end as int), start == 0, rooted),
        name matches Some(s) ==> s@ == cs@.subrange(start as int, end as int),
{
    let ghost text = cs@.subrange(start as int, end as int);
    let dot: bool = end - start == 1 && cs[start] == '.';
    proof {
        if end - start == 1 && cs@[start as int] == '.' {
            assert(text =~= seq!['.']);
        }
        if text == seq!['.'] {
            assert(text.len() == 1);
            assert(text[0] == '.');
        }
    }
    if start == end || (dot && (rooted || start > 0)) {
        None
    } else {
        Some(path.substring_char(start, end).to_owned())
    }
}

/// The components of a path.
pub fn components(path: &str) -> (parts: Vec<String>)
    ensures
        texts(parts@) == components_of(path@),
{
    let cs = characters(path);
    let mut parts: Vec<String> = Vec::new();
    let rooted: bool = cs.len() > 0 && cs[0] == '/';
    proof {
        reveal_strlit("/");
        assert("/"@ =~= seq!['/']);
    }
    if rooted {
        parts.push("/".to_owned());
    }
    let ghost head = texts(parts@);
    let ghost mut done: Seq<Seq<char>> = Seq::empty();
    let mut start: usize = 0;
    proof {
        assert(rooted ==> head =~= seq![seq!['/']]);
        assert(!rooted ==> head =~= Seq::empty());
        assert(cs@.take(0) =~= Seq::<char>::empty());
        assert(cs@.subrange(0, 0) =~= Seq::<char>::empty());
        assert(done.push(cs@.subrange(0, 0)) =~= seq![Seq::<char>::empty()]);
        assert(head =~= head + named(done, rooted));
    }
    for i in 0..cs.len()
        invariant
            cs@ == path@,
            start <= i,
            done.len() == 0 <==> start == 0,
            pieces(cs@.take(i as int)) == done.push(cs@.subrange(start as int, i as int)),
            texts(parts@) == head + named(done, rooted),
    {
        let ghost text = cs@.subrange(start as int, i as int);
        proof {
            assert(cs@.take(i + 1).drop_last() =~= cs@.take(i as int));
            assert(done.push(text).drop_last() =~= done);
        }
        if cs[i] == '/' {
            let ghost earlier = parts@;
            match name_between(path, &cs, start, i, rooted) {
                Some(name) => {
                    parts.push(name);
                    proof {
                        assert(texts(parts@) =~= texts(earlier).push(text));
                        assert(head + named(done, rooted).push(text) =~= (head + named(
                            done,
                            rooted,
                        )).push(text));
                    }
                },
                None => {},
            }
            proof {
                done = done.push(text);
                assert(cs@.subrange(i + 1, i + 1) =~= Seq::<char>::empty());
            }
            start = i + 1;
        } else {
            proof {
                assert(text.push(cs@[i as int]) =~= cs@.subrange(start as int, i + 1));
            }
        }
    }
    let ghost text = cs@.subrange(start as int, cs@.len() as int);
    let ghost earlier = parts@;
    proof {
        assert(cs@.take(cs@.len() as int) =~= cs@);
        assert(done.push(text).drop_last() =~= done);
    }
    match name_between(path, &cs, start, cs.len(), rooted) {
        Some(name) => {
            parts.push(name);
            proof {
                assert(texts(parts@) =~= texts(earlier).push(text));
                assert(head + named(done, rooted).push(text) =~= (head + named(done, rooted)).push(
                    text,
                ));
            }
        },
        None => {},
    }
    parts
}

/// The first `count` components as one path.
pub fn rendered(parts: &Vec<String>, count: usize) -> (path: String)
    requires
        count <= parts@.len(),
    ensures
        path@ == joined(texts(parts@).take(count as int)),
{
    let mut path = String::new();
    let mut slash: bool = true;
    proof {
        reveal_strlit("/");
        assert("/"@ =~= seq!['/']);
    }
    for i in 0..count
        invariant
            count <= parts@.len(),
            "/"@ == seq!['/'],
            path@ == joined(texts(parts@).take(i as int)),
            slash <==> path@.len() == 0 || path@.last() == '/',
    {
        proof {
            assert(texts(parts@).take(i + 1).drop_last() =~= texts(parts@).take(i as int));
        }
        if !slash {
            path.append("/");
        }
        let ghost before = path@;
        path.append(parts[i].as_str());
        let cs = characters(path.as_str());
        slash = cs.len() == 0 || cs[cs.len() - 1] == '/';
        proof {
            assert(joined(texts(parts@).take(i as int)).push('/') =~= joined(
                texts(parts@).take(i as int),
            ) + "/"@);
        }
    }
    path
}

/// The deepest folder every one of `paths` sits under, or `None` if they share
/// none.
///
/// Compared a whole component at a time, so `/lib/season1` and `/lib/season2`
/// share `/lib` and not `/lib/season`.
pub fn common_parent(paths: &Vec<String>) -> (folder: Option<String>)
    ensures
        folder is Some <==> shared_folder(texts(paths@)).len() > 0,
        folder matches Some(f) ==> f@ == joined(shared_folder(texts(paths@))),
{
    if paths.len() == 0 {
        return None;
    }
    let mut shared = components(paths[0].as_str());
    let mut count: usize = if shared.len() == 0 {
        0
    } else {
        shared.len() - 1
    };
    proof {
        assert(texts(paths@).take(1) =~= seq![texts(paths@)[0]]);
        assert(texts(shared@).take(count as int) =~= folder_of(texts(paths@)[0]));
    }
    for i in 1..paths.len()
        invariant
            count <= shared@.len(),
            paths@.len() > 0,
            texts(shared@).take(count as int) == shared_folder(texts(paths@).take(i as int)),
    {
        let other = components(paths[i].as_str());
        let limit: usize = if other.len() == 0 {
            0
        } else {
            other.len() - 1
        };
        let ghost a = texts(shared@).take(count as int);
        let ghost b = texts(other@).take(limit as int);
        proof {
            assert(b =~= folder_of(texts(paths@)[i as int]));
            assert(texts(paths@).take(i + 1).drop_last() =~= texts(paths@).take(i as int));
        }
        let mut n: usize = 0;
        while n < count && n < limit && shared[n] == other[n]
            invariant
                count <= shared@.len(),
                limit <= other@.len(),
                a == texts(shared@).take(count as int),
                b == texts(other@).take(limit as int),
                n <= count,
                n <= limit,
                agreement(a, b, 0) == agreement(a, b, n as nat),
            decreases count - n,
        {
            n = n + 1;
        }
        proof {
            if n < count && n < limit {
                assert(a[n as int] == shared@[n as int]@);
                assert(b[n as int] == other@[n as int]@);
            }
            assert(a.take(n as int) =~= texts(shared@).take(n as int));
        }
        count = n;
    }
    proof {
        assert(texts(paths@).take(paths@.len() as int) =~= texts(paths@));
    }
    if count == 0 {
        None
    } else {
        Some(rendered(&shared, count))
    }
}

} // verus!
