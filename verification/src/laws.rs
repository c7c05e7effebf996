//! Laws of the store, stated over its model and proved from the invariants.

use vstd::prelude::*;

use crate::digest::{id_of, ID_CHARS};
use crate::store::{
    has_pair, lemma_listed_index, listed, matches_in, tags_of_in, Store,
};

verus! {

/// No identifier matches a prefix that none of them carries.
proof fn lemma_matches_none(ids: Seq<Seq<char>>, prefix: Seq<char>)
    requires
        forall|i: int| 0 <= i < ids.len() ==> !prefix.is_prefix_of(#[trigger] ids[i]),
    ensures
        matches_in(ids, prefix).len() == 0,
    decreases ids.len(),
{
    if ids.len() > 0 {
        assert(forall|i: int|
            0 <= i < ids.drop_last().len() ==> (#[trigger] ids.drop_last()[i]) == ids[i]);
        lemma_matches_none(ids.drop_last(), prefix);
    }
}

/// Among unique identifiers of one fixed length, a full-length prefix
/// matches exactly the identifier it equals.
proof fn lemma_matches_full(ids: Seq<Seq<char>>, p: Seq<char>)
    requires
        forall|i: int| 0 <= i < ids.len() ==> (#[trigger] ids[i]).len() == p.len(),
        forall|i: int, j: int|
            0 <= i < j < ids.len() ==> (#[trigger] ids[i]) != (#[trigger] ids[j]),
        ids.contains(p),
    ensures
        matches_in(ids, p) == seq![p],
    decreases ids.len(),
{
    let n = ids.len() as int;
    let last = ids.last();
    let rest = ids.drop_last();
    assert(forall|i: int| 0 <= i < rest.len() ==> (#[trigger] rest[i]) == ids[i]);
    if last == p {
        assert forall|i: int| 0 <= i < rest.len() implies !p.is_prefix_of(
            #[trigger] rest[i],
        ) by {
            assert(ids[i] != ids[n - 1]);
            if p.is_prefix_of(rest[i]) {
                assert(rest[i].subrange(0, p.len() as int) =~= rest[i]);
                assert(p == rest[i]);
            }
        }
        lemma_matches_none(rest, p);
        assert(p.is_prefix_of(last)) by {
            assert(p =~= last.subrange(0, p.len() as int));
        }
        assert(matches_in(ids, p) =~= seq![p]);
    } else {
        assert(!p.is_prefix_of(last)) by {
            if p.is_prefix_of(last) {
                assert(last.subrange(0, p.len() as int) =~= last);
                assert(p == last);
            }
        }
        let w = choose|w: int| 0 <= w < n && ids[w] == p;
        assert(ids[w] != ids[n - 1]);
        assert(rest[w] == p);
        assert(rest.contains(p));
        lemma_matches_full(rest, p);
    }
}

/// Round trip: resolving the full identifier of a stored content designates
/// exactly that identifier. Together with the contracts of `Store::add` and
/// `Store::resolve`, resolving the identifier `add` returned gives it back.
pub proof fn lemma_full_id_resolves(s: Store, content: Seq<u8>)
    requires
        s.wf(),
        s.contains_id(id_of(content)),
    ensures
        s.matching_ids(id_of(content)) == seq![id_of(content)],
{
    let ids = s.ids();
    let m = s.objects_model();
    let p = id_of(content);
    let w = choose|w: int| 0 <= w < ids.len() && ids[w] == p;
    assert(m[w].0 == p);
    assert(p.len() == ID_CHARS);
    assert forall|i: int| 0 <= i < ids.len() implies (#[trigger] ids[i]).len() == p.len() by {
        assert(ids[i] == m[i].0);
    }
    assert forall|i: int, j: int| 0 <= i < j < ids.len() implies (#[trigger] ids[i]) != (
    #[trigger] ids[j]) by {
        assert(m[i].0 != m[j].0);
    }
    lemma_matches_full(ids, p);
}

/// What `tags_of_in` selects: names from the containers whose tag is
/// associated with `id`, and all of them.
proof fn lemma_tags_of_in_sound(
    t: Seq<(Seq<char>, u64, u64)>,
    g: Seq<(Seq<char>, Seq<char>, u64)>,
    id: Seq<char>,
)
    ensures
        forall|x: int|
            0 <= x < tags_of_in(t, g, id).len() ==> has_pair(
                g,
                #[trigger] tags_of_in(t, g, id)[x],
                id,
            ) && listed(t, tags_of_in(t, g, id)[x]),
        forall|j: int|
            0 <= j < t.len() && has_pair(g, (#[trigger] t[j]).0, id) ==> tags_of_in(
                t,
                g,
                id,
            ).contains(t[j].0),
    decreases t.len(),
{
    if t.len() > 0 {
        let rest = t.drop_last();
        lemma_tags_of_in_sound(rest, g, id);
        let res = tags_of_in(t, g, id);
        let resr = tags_of_in(rest, g, id);
        assert(forall|j: int| 0 <= j < rest.len() ==> (#[trigger] rest[j]) == t[j]);
        assert forall|x: int| 0 <= x < res.len() implies has_pair(g, #[trigger] res[x], id)
            && listed(t, res[x]) by {
            if x < resr.len() {
                assert(res[x] == resr[x]);
            } else {
                assert(res[x] == t.last().0);
            }
        }
        assert forall|j: int|
            0 <= j < t.len() && has_pair(g, (#[trigger] t[j]).0, id) implies res.contains(
            t[j].0,
        ) by {
            if j < t.len() - 1 {
                assert(rest[j] == t[j]);
                assert(has_pair(g, rest[j].0, id));
                assert(resr.contains(rest[j].0));
                let x = choose|x: int| 0 <= x < resr.len() && resr[x] == t[j].0;
                assert(res[x] == resr[x]);
                assert(res[x] == t[j].0);
            } else {
                assert(res[res.len() - 1] == t.last().0);
            }
        }
    }
}

/// With unique container names, `tags_of_in` lists no name twice.
proof fn lemma_tags_of_in_unique(
    t: Seq<(Seq<char>, u64, u64)>,
    g: Seq<(Seq<char>, Seq<char>, u64)>,
    id: Seq<char>,
)
    requires
        forall|j1: int, j2: int|
            0 <= j1 < j2 < t.len() ==> (#[trigger] t[j1]).0 != (#[trigger] t[j2]).0,
    ensures
        forall|x1: int, x2: int|
            0 <= x1 < x2 < tags_of_in(t, g, id).len() ==> (#[trigger] tags_of_in(t, g, id)[x1])
                != (#[trigger] tags_of_in(t, g, id)[x2]),
    decreases t.len(),
{
    if t.len() > 0 {
        let rest = t.drop_last();
        assert(forall|j: int| 0 <= j < rest.len() ==> (#[trigger] rest[j]) == t[j]);
        lemma_tags_of_in_unique(rest, g, id);
        lemma_tags_of_in_sound(rest, g, id);
        let res = tags_of_in(t, g, id);
        let resr = tags_of_in(rest, g, id);
        // the last container's name never occurs among the earlier names
        assert forall|x: int| 0 <= x < resr.len() implies (#[trigger] resr[x]) != t.last().0 by {
            lemma_listed_index(rest, resr[x]);
            let j = choose|j: int| 0 <= j < rest.len() && (#[trigger] rest[j]).0 == resr[x];
            assert(t[j].0 != t[t.len() - 1].0);
        }
        assert forall|x1: int, x2: int| 0 <= x1 < x2 < res.len() implies (#[trigger] res[x1]) != (
        #[trigger] res[x2]) by {
            if x2 < resr.len() {
                assert(res[x1] == resr[x1] && res[x2] == resr[x2]);
            } else if res.len() > resr.len() {
                assert(res[x1] == resr[x1] && res[x2] == t.last().0);
            }
        }
    }
}

/// A tag is carried once or not at all: `tags_of` lists exactly the names
/// associated with the identifier, each exactly once, however many times a
/// tag was attached.
pub proof fn lemma_tags_listed_once(s: Store, id: Seq<char>)
    requires
        s.wf(),
    ensures
        forall|name: Seq<char>|
            #![trigger s.tags_of_model(id).contains(name)]
            #![trigger s.has_tag(id, name)]
            s.tags_of_model(id).contains(name) <==> s.has_tag(id, name),
        forall|x1: int, x2: int|
            0 <= x1 < x2 < s.tags_of_model(id).len() ==> (#[trigger] s.tags_of_model(id)[x1]) != (
            #[trigger] s.tags_of_model(id)[x2]),
{
    let t = s.tags_model();
    let g = s.taggings_model();
    lemma_tags_of_in_sound(t, g, id);
    lemma_tags_of_in_unique(t, g, id);
    let res = s.tags_of_model(id);
    assert forall|name: Seq<char>|
        #![trigger res.contains(name)]
        #![trigger s.has_tag(id, name)]
        res.contains(name) <==> s.has_tag(id, name) by {
        if s.has_tag(id, name) {
            let k = choose|k: int| 0 <= k < g.len() && (#[trigger] g[k]).0 == name && g[k].1 == id;
            assert(listed(t, g[k].0));
            lemma_listed_index(t, name);
            let j = choose|j: int| 0 <= j < t.len() && (#[trigger] t[j]).0 == name;
            assert(has_pair(g, t[j].0, id));
            assert(res.contains(t[j].0));
        }
        if res.contains(name) {
            let x = choose|x: int| 0 <= x < res.len() && res[x] == name;
            assert(has_pair(g, res[x], id));
        }
    }
}

} // verus!
