//! What taking paths apart and putting them together promises.

use crate::disposal::{lemma_one_piece, lemma_pieces_append, mirrored, names_of};
use crate::paths::{
    common_parent, components, components_of, folder_of, is_rooted, joined,
    lemma_shared_folder_is_deepest, named, pieces, rendered, shared_folder,
};
use crate::text::texts;
use vstd::prelude::*;

verus! {

/// Whether a name is one that a path can be lengthened by: it holds no slash, and is not
/// a dot that stands for where it is.
pub open spec fn is_step_down(name: Seq<char>) -> bool {
    name.len() > 0 && name != seq!['.'] && !name.contains('/')
}

proof fn lemma_named_push(list: Seq<Seq<char>>, name: Seq<char>, rooted: bool)
    requires
        list.len() > 0,
    ensures
        named(list.push(name), rooted) == if name.len() > 0 && name != seq!['.'] {
            named(list, rooted).push(name)
        } else {
            named(list, rooted)
        },
{
    assert(list.push(name).drop_last() =~= list);
}

proof fn lemma_pieces_some(s: Seq<char>)
    ensures
        pieces(s).len() > 0,
    decreases s.len(),
{
    if s.len() > 0 {
        lemma_pieces_some(s.drop_last());
    }
}

proof fn lemma_lengthened(p: Seq<char>, name: Seq<char>)
    requires
        p.len() > 0,
        !name.contains('/'),
    ensures
        is_step_down(name) ==> components_of(p.push('/') + name) == components_of(p).push(name),
        !is_step_down(name) ==> components_of(p.push('/') + name) == components_of(p),
        is_step_down(name) ==> names_of(p.push('/') + name) == names_of(p).push(name),
        !is_step_down(name) ==> names_of(p.push('/') + name) == names_of(p),
        is_rooted(p.push('/') + name) == is_rooted(p),
{
    let q = p.push('/') + name;
    lemma_pieces_append(p, name);
    lemma_pieces_some(p);
    assert(q[0] == p[0]);
    lemma_named_push(pieces(p), name, is_rooted(p));
    let head = seq![seq!['/']];
    assert((head + named(pieces(p), true)).push(name) =~= head + named(pieces(p), true).push(name));
}

/// A path that is lengthened by a name has one component more, that name. Lengthened by
/// nothing, or by a dot, it has the same ones.
pub proof fn lemma_a_longer_path_has_one_component_more(
    p: &str,
    q: &str,
    name: Seq<char>,
    parts: Vec<String>,
    more: Vec<String>,
)
    requires
        p@.len() > 0,
        !name.contains('/'),
        q@ == p@.push('/') + name,
        call_ensures(components, (p,), parts),
        call_ensures(components, (q,), more),
    ensures
        more@.len() == parts@.len() + if is_step_down(name) {
            1int
        } else {
            0
        },
        forall|i: int| 0 <= i < parts@.len() ==> #[trigger] more@[i]@ == parts@[i]@,
        is_step_down(name) ==> more@[parts@.len() as int]@ == name,
{
    lemma_lengthened(p@, name);
    assert(texts(parts@).len() == parts@.len());
    assert(texts(more@).len() == more@.len());
    assert forall|i: int| 0 <= i < parts@.len() implies #[trigger] more@[i]@ == parts@[i]@ by {
        assert(texts(more@)[i] == more@[i]@);
        assert(texts(parts@)[i] == parts@[i]@);
    }
    if is_step_down(name) {
        assert(texts(more@)[parts@.len() as int] == name);
    }
}

/// A name by itself is a component by itself, a dot too. Nothing is none. A name behind a
/// slash is one under the root, and a slash by itself is the root.
pub proof fn lemma_the_shortest_paths(
    p: &str,
    q: &str,
    parts: Vec<String>,
    rooted: Vec<String>,
)
    requires
        !p@.contains('/'),
        q@ == seq!['/'] + p@,
        call_ensures(components, (p,), parts),
        call_ensures(components, (q,), rooted),
    ensures
        p@.len() == 0 ==> parts@.len() == 0,
        p@.len() > 0 ==> parts@.len() == 1 && parts@[0]@ == p@,
        rooted@.len() == if is_step_down(p@) {
            2int
        } else {
            1
        },
        rooted@[0]@ == seq!['/'],
        is_step_down(p@) ==> rooted@[1]@ == p@,
{
    reveal_with_fuel(named, 2);
    reveal_with_fuel(pieces, 2);
    let s = p@;
    lemma_one_piece(s);
    assert(texts(parts@).len() == parts@.len());
    assert(texts(rooted@).len() == rooted@.len());
    let one = seq![s];
    assert(one.drop_last() =~= Seq::<Seq<char>>::empty());
    if s.len() > 0 {
        assert(s.contains(s[0]));
        assert(named(one, false) =~= seq![s]);
        assert(texts(parts@)[0] == s);
    }
    let none = Seq::<char>::empty();
    lemma_pieces_append(none, s);
    assert(q@ =~= none.push('/') + s);
    assert(pieces(none) =~= seq![none]);
    assert(pieces(q@) =~= seq![none].push(s));
    lemma_named_push(seq![none], s, true);
    assert(seq![none].drop_last() =~= Seq::<Seq<char>>::empty());
    assert(named(seq![none], true) =~= Seq::<Seq<char>>::empty());
    assert(components_of(q@)[0] == seq!['/']);
    assert(texts(rooted@)[0] == seq!['/']);
    if is_step_down(s) {
        assert(components_of(q@)[1] == s);
        assert(texts(rooted@)[1] == s);
    }
}

/// Components written as a path are joined by slashes, with none behind one that ends in
/// one itself.
pub proof fn lemma_components_are_joined_by_slashes(
    parts: &Vec<String>,
    n: usize,
    short: String,
    long: String,
)
    requires
        n < parts@.len(),
        call_ensures(rendered, (parts, n), short),
        call_ensures(rendered, (parts, (n + 1) as usize), long),
    ensures
        n == 0 ==> short@.len() == 0,
        short@.len() == 0 || short@.last() == '/' ==> long@ == short@ + parts@[n as int]@,
        short@.len() > 0 && short@.last() != '/' ==> long@ == short@ + seq!['/'] + parts@[n as int]@,
{
    let all = texts(parts@);
    assert(parts.len() == parts@.len());
    assert(all.take(n + 1).drop_last() =~= all.take(n as int));
    assert(all.take(n + 1).last() == parts@[n as int]@);
    assert(short@.push('/') =~= short@ + seq!['/']);
}

/// What some paths share is the components that all of them begin with, short of the last
/// one of each. Where there are none they share no folder.
pub proof fn lemma_what_paths_share(
    paths: &Vec<String>,
    folder: Option<String>,
    names: Seq<&str>,
    parts: Seq<Vec<String>>,
    k: usize,
    shown: String,
)
    requires
        call_ensures(common_parent, (paths,), folder),
        paths@.len() > 0,
        names.len() == paths@.len(),
        parts.len() == paths@.len(),
        forall|i: int| 0 <= i < paths@.len() ==> (#[trigger] names[i])@ == paths@[i]@,
        forall|i: int|
            0 <= i < paths@.len() ==> call_ensures(components, (names[i],), #[trigger] parts[i]),
        forall|i: int| 0 <= i < paths@.len() ==> k < (#[trigger] parts[i])@.len(),
        forall|i: int, m: int|
            0 <= i < paths@.len() && 0 <= m < k ==> (#[trigger] parts[i]@[m])@ == parts[0]@[m]@,
        exists|i: int|
            0 <= i < paths@.len() && ((#[trigger] parts[i])@.len() == k + 1 || parts[i]@[k as int]@
                != parts[0]@[k as int]@),
        call_ensures(rendered, (&parts[0], k), shown),
    ensures
        folder is Some <==> k > 0,
        folder matches Some(f) ==> f@ == shown@,
{
    let list = texts(paths@);
    let shared = shared_folder(list);
    let first = texts(parts[0]@);
    let common = first.take(k as int);
    assert forall|i: int| #![trigger list[i]] 0 <= i < list.len() implies common.is_prefix_of(
        folder_of(list[i]),
    ) && folder_of(list[i]) == texts(parts[i]@).drop_last() && parts[i]@.len() > k by {
        assert(names[i]@ == paths@[i]@);
        assert(list[i] == paths@[i]@);
        assert(call_ensures(components, (names[i],), parts[i]));
        let all = texts(parts[i]@);
        assert(all == components_of(list[i]));
        assert(all.len() == parts[i]@.len());
        assert(parts[0]@.len() > k);
        assert forall|m: int| 0 <= m < k implies common[m] == all.drop_last()[m] by {
            assert(parts[i]@[m]@ == parts[0]@[m]@);
        }
        assert(common =~= all.drop_last().take(k as int));
    }
    lemma_shared_folder_is_deepest(list, common);
    assert(common.is_prefix_of(shared));
    if shared.len() > k {
        let i = choose|i: int|
            0 <= i < paths@.len() && ((#[trigger] parts[i])@.len() == k + 1 || parts[i]@[k as int]@
                != parts[0]@[k as int]@);
        assert(list[i] == paths@[i]@ && list[0] == paths@[0]@);
        assert(shared.is_prefix_of(folder_of(list[i])));
        assert(shared.is_prefix_of(folder_of(list[0])));
        assert(folder_of(list[i]).take(shared.len() as int)[k as int] == shared[k as int]);
        assert(folder_of(list[0]).take(shared.len() as int)[k as int] == shared[k as int]);
    }
    assert(shared =~= common);
}

/// A file that is moved to a folder keeps its path inside it: one level further down in
/// its path is one level further down in the folder, and the root is the folder itself.
pub proof fn lemma_a_moved_file_keeps_its_path(
    root: &str,
    p: &str,
    q: &str,
    name: Seq<char>,
    dest: String,
    deeper: String,
)
    requires
        root@.len() > 0,
        p@.len() > 0,
        !name.contains('/'),
        q@ == p@.push('/') + name,
        call_ensures(mirrored, (root, p), dest),
        call_ensures(mirrored, (root, q), deeper),
    ensures
        p@ == seq!['/'] ==> dest@ == root@,
        !is_step_down(name) ==> deeper@ == dest@,
        is_step_down(name) && dest@.last() != '/' ==> deeper@ == dest@ + seq!['/'] + name,
        is_step_down(name) && dest@.last() == '/' ==> deeper@ == dest@ + name,
        dest@.len() > 0,
{
    lemma_lengthened(p@, name);
    let list = seq![root@] + names_of(p@);
    lemma_joined_some(list);
    if is_step_down(name) {
        assert(seq![root@] + names_of(q@) =~= list.push(name));
        assert(list.push(name).drop_last() =~= list);
        assert(dest@.push('/') =~= dest@ + seq!['/']);
    }
    if p@ == seq!['/'] {
        reveal_with_fuel(named, 2);
        reveal_with_fuel(pieces, 2);
        reveal_with_fuel(joined, 2);
        let none = Seq::<char>::empty();
        assert(p@.drop_last() =~= none);
        assert(pieces(p@) =~= seq![none].push(none));
        lemma_named_push(seq![none], none, true);
        assert(seq![none].drop_last() =~= Seq::<Seq<char>>::empty());
        assert(names_of(p@) =~= Seq::<Seq<char>>::empty());
        assert(list =~= seq![root@]);
        assert(list.drop_last() =~= Seq::<Seq<char>>::empty());
        assert(dest@ =~= root@);
    }
}

proof fn lemma_joined_some(list: Seq<Seq<char>>)
    requires
        list.len() > 0,
        list[0].len() > 0,
    ensures
        joined(list).len() > 0,
    decreases list.len(),
{
    if list.len() > 1 {
        assert(list.drop_last()[0] == list[0]);
        lemma_joined_some(list.drop_last());
    }
}

} // verus!
