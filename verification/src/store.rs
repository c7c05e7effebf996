//! The content-addressable object store with its tag index.
//!
//! A [`Store`] keeps every note ("scribble") under an identifier derived from
//! its content alone, so storing identical content twice is a no-op. Tags are
//! a many-to-many association between tag names and identifiers, kept apart
//! from the objects themselves: the object store has no knowledge of tags.
//!
//! Recency is an explicit creation-order stamp recorded when an object or an
//! association is created, not a mutable storage timestamp: re-adding
//! existing content or re-tagging an already-tagged object leaves every stamp
//! unchanged.

use vstd::prelude::*;
use vstd::slice::slice_to_vec;

use crate::digest::{digest, id_of, ID_CHARS};
use crate::text::str_eq;
use crate::Error;

verus! {

/// A stored note: its content-derived identifier, its content, and the
/// creation-order stamp it was given when first stored.
pub struct Scribble {
    pub id: String,
    pub created_at: u64,
    pub content: Vec<u8>,
}

/// A tag container: its name, the stamp of its first association, and the
/// stamp of its most recent one.
pub struct Tag {
    pub name: String,
    pub created_at: u64,
    pub last_used: u64,
}

/// One association between a tag name and a stored identifier.
pub struct Tagging {
    pub tag_name: String,
    pub scribble_id: String,
    pub created_at: u64,
}

/// The in-memory content-addressable store.
///
/// `objects` is kept in creation order; `tags` is kept most-recently-used
/// first; `taggings` is kept in association order. [`Store::wf`] states the
/// invariants tying the three together.
pub struct Store {
    pub objects: Vec<Scribble>,
    pub tags: Vec<Tag>,
    pub taggings: Vec<Tagging>,
}

/// True when `name` is usable as a tag name: non-empty, not a relative path
/// component, and free of path separators and NUL.
pub open spec fn valid_tag_name(name: Seq<char>) -> bool {
    &&& name.len() > 0
    &&& name != seq!['.']
    &&& name != seq!['.', '.']
    &&& forall|i: int|
        0 <= i < name.len() ==> name[i] != '/' && name[i] != '\\' && name[i] != '\u{0}'
}

/// Checks a tag name for use as a path component.
pub fn check_tag_name(name: &str) -> (r: bool)
    ensures
        r == valid_tag_name(name@),
{
    let n = name.unicode_len();
    if n == 0 {
        return false;
    }
    if n == 1 && name.get_char(0) == '.' {
        assert(name@ =~= seq!['.']);
        return false;
    }
    if n == 2 && name.get_char(0) == '.' && name.get_char(1) == '.' {
        assert(name@ =~= seq!['.', '.']);
        return false;
    }
    let mut i: usize = 0;
    while i < n
        invariant
            n == name@.len(),
            i <= n,
            forall|k: int|
                0 <= k < i ==> name@[k] != '/' && name@[k] != '\\' && name@[k] != '\u{0}',
        decreases n - i,
    {
        let c = name.get_char(i);
        if c == '/' || c == '\\' || c == '\u{0}' {
            return false;
        }
        i = i + 1;
    }
    assert(name@ != seq!['.']) by {
        if name@ == seq!['.'] {
            assert(name@.len() == 1 && name@[0] == '.');
        }
    }
    assert(name@ != seq!['.', '.']) by {
        if name@ == seq!['.', '.'] {
            assert(name@.len() == 2 && name@[0] == '.' && name@[1] == '.');
        }
    }
    true
}

/// The object invariants: each object is content-addressed (its identifier
/// is the digest of its content, a fixed-length hex string), identifiers are
/// unique, and each creation stamp is the object's position in creation
/// order.
pub open spec fn objects_wf(m: Seq<(Seq<char>, Seq<u8>, u64)>) -> bool {
    &&& forall|i: int|
        0 <= i < m.len() ==> (#[trigger] m[i]).0 == id_of(m[i].1) && m[i].0.len() == ID_CHARS
            && m[i].2 == i as u64
    &&& forall|i: int, j: int| 0 <= i < j < m.len() ==> (#[trigger] m[i]).0 != (#[trigger] m[j]).0
}

/// True when some association in `g` carries the tag `name`.
pub open spec fn tag_used(g: Seq<(Seq<char>, Seq<char>, u64)>, name: Seq<char>) -> bool
    decreases g.len(),
{
    g.len() > 0 && (g.last().0 == name || tag_used(g.drop_last(), name))
}

/// The stamp of the most recent association in `g` carrying `name`.
pub open spec fn last_use_stamp(g: Seq<(Seq<char>, Seq<char>, u64)>, name: Seq<char>) -> u64
    recommends
        tag_used(g, name),
    decreases g.len(),
{
    if g.len() == 0 {
        0
    } else if g.last().0 == name {
        g.last().2
    } else {
        last_use_stamp(g.drop_last(), name)
    }
}

/// The stamp of the first association in `g` carrying `name`.
pub open spec fn first_use_stamp(g: Seq<(Seq<char>, Seq<char>, u64)>, name: Seq<char>) -> u64
    recommends
        tag_used(g, name),
    decreases g.len(),
{
    if g.len() == 0 {
        0
    } else if tag_used(g.drop_last(), name) {
        first_use_stamp(g.drop_last(), name)
    } else {
        g.last().2
    }
}

/// True when `g` associates the tag `name` with the identifier `id`.
pub open spec fn has_pair(
    g: Seq<(Seq<char>, Seq<char>, u64)>,
    name: Seq<char>,
    id: Seq<char>,
) -> bool {
    exists|k: int| 0 <= k < g.len() && (#[trigger] g[k]).0 == name && g[k].1 == id
}

/// The names from `t`, in order, whose tag `g` associates with `id`.
pub open spec fn tags_of_in(
    t: Seq<(Seq<char>, u64, u64)>,
    g: Seq<(Seq<char>, Seq<char>, u64)>,
    id: Seq<char>,
) -> Seq<Seq<char>>
    decreases t.len(),
{
    if t.len() == 0 {
        Seq::empty()
    } else if has_pair(g, t.last().0, id) {
        tags_of_in(t.drop_last(), g, id).push(t.last().0)
    } else {
        tags_of_in(t.drop_last(), g, id)
    }
}

/// True when a container named `name` stands in `t`.
pub open spec fn listed(t: Seq<(Seq<char>, u64, u64)>, name: Seq<char>) -> bool
    decreases t.len(),
{
    t.len() > 0 && (t.last().0 == name || listed(t.drop_last(), name))
}

/// The tag-index invariants: association stamps are positions in association
/// order; a (tag, identifier) association exists at most once; every
/// association's tag has a container and every container's tag has an
/// association; tag names are valid and unique; a container's `last_used`
/// (resp. `created_at`) is the stamp of its most (resp. least) recent
/// association; containers stand most-recently-used first.
pub open spec fn tags_wf(t: Seq<(Seq<char>, u64, u64)>, g: Seq<(Seq<char>, Seq<char>, u64)>) -> bool {
    &&& forall|k: int|
        0 <= k < g.len() ==> (#[trigger] g[k]).2 == k as u64 && listed(t, g[k].0)
    &&& forall|k1: int, k2: int|
        0 <= k1 < k2 < g.len() ==> !((#[trigger] g[k1]).0 == (#[trigger] g[k2]).0 && g[k1].1
            == g[k2].1)
    &&& forall|j: int|
        0 <= j < t.len() ==> valid_tag_name((#[trigger] t[j]).0) && tag_used(g, t[j].0) && t[j].2
            == last_use_stamp(g, t[j].0) && t[j].1 == first_use_stamp(g, t[j].0)
    &&& forall|j1: int, j2: int|
        0 <= j1 < j2 < t.len() ==> (#[trigger] t[j1]).0 != (#[trigger] t[j2]).0
    &&& forall|j1: int, j2: int|
        0 <= j1 < j2 < t.len() ==> (#[trigger] t[j1]).2 > (#[trigger] t[j2]).2
}

/// A container stands in `t` exactly when some position holds its name.
pub proof fn lemma_listed_index(t: Seq<(Seq<char>, u64, u64)>, name: Seq<char>)
    ensures
        listed(t, name) <==> exists|j: int| 0 <= j < t.len() && (#[trigger] t[j]).0 == name,
    decreases t.len(),
{
    if t.len() > 0 {
        lemma_listed_index(t.drop_last(), name);
        if listed(t, name) {
            if t.last().0 == name {
                assert(t[t.len() - 1].0 == name);
            } else {
                let j = choose|j: int|
                    0 <= j < t.drop_last().len() && (#[trigger] t.drop_last()[j]).0 == name;
                assert(t[j].0 == name);
            }
        }
        if exists|j: int| 0 <= j < t.len() && (#[trigger] t[j]).0 == name {
            let j = choose|j: int| 0 <= j < t.len() && (#[trigger] t[j]).0 == name;
            if j < t.len() - 1 {
                assert(t.drop_last()[j].0 == name);
            }
        }
    }
}

/// A tag is used exactly when some association carries it.
pub proof fn lemma_used_index(g: Seq<(Seq<char>, Seq<char>, u64)>, name: Seq<char>)
    ensures
        tag_used(g, name) <==> exists|k: int| 0 <= k < g.len() && (#[trigger] g[k]).0 == name,
    decreases g.len(),
{
    if g.len() > 0 {
        lemma_used_index(g.drop_last(), name);
        if tag_used(g, name) {
            if g.last().0 == name {
                assert(g[g.len() - 1].0 == name);
            } else {
                let k = choose|k: int|
                    0 <= k < g.drop_last().len() && (#[trigger] g.drop_last()[k]).0 == name;
                assert(g[k].0 == name);
            }
        }
        if exists|k: int| 0 <= k < g.len() && (#[trigger] g[k]).0 == name {
            let k = choose|k: int| 0 <= k < g.len() && (#[trigger] g[k]).0 == name;
            if k < g.len() - 1 {
                assert(g.drop_last()[k].0 == name);
            }
        }
    }
}

/// How one more association changes what is used and when.
proof fn lemma_use_push(
    g: Seq<(Seq<char>, Seq<char>, u64)>,
    e: (Seq<char>, Seq<char>, u64),
    name: Seq<char>,
)
    ensures
        tag_used(g.push(e), name) == (tag_used(g, name) || e.0 == name),
        last_use_stamp(g.push(e), name) == if e.0 == name {
            e.2
        } else {
            last_use_stamp(g, name)
        },
        first_use_stamp(g.push(e), name) == if tag_used(g, name) {
            first_use_stamp(g, name)
        } else {
            e.2
        },
{
    assert(g.push(e).drop_last() =~= g);
    assert(g.push(e).last() == e);
}

/// With positional stamps, the last use of a used tag lies below the length.
proof fn lemma_last_use_lt(g: Seq<(Seq<char>, Seq<char>, u64)>, name: Seq<char>)
    requires
        forall|k: int| 0 <= k < g.len() ==> (#[trigger] g[k]).2 == k as u64,
        g.len() <= u64::MAX,
        tag_used(g, name),
    ensures
        last_use_stamp(g, name) < g.len() as u64,
        first_use_stamp(g, name) < g.len() as u64,
    decreases g.len(),
{
    if g.last().0 == name {
        assert(g[g.len() - 1].2 == (g.len() - 1) as u64);
        if tag_used(g.drop_last(), name) {
            assert(forall|k: int|
                0 <= k < g.drop_last().len() ==> (#[trigger] g.drop_last()[k]).2 == k as u64);
            lemma_last_use_lt(g.drop_last(), name);
        }
    } else {
        assert(forall|k: int|
            0 <= k < g.drop_last().len() ==> (#[trigger] g.drop_last()[k]).2 == k as u64);
        lemma_last_use_lt(g.drop_last(), name);
    }
}

/// The views of a sequence of strings.
pub open spec fn names_of(v: Seq<String>) -> Seq<Seq<char>> {
    v.map_values(|s: String| s@)
}

/// The identifiers among `ids` that begin with `prefix`, in order.
pub open spec fn matches_in(ids: Seq<Seq<char>>, prefix: Seq<char>) -> Seq<Seq<char>>
    decreases ids.len(),
{
    if ids.len() == 0 {
        Seq::empty()
    } else if prefix.is_prefix_of(ids.last()) {
        matches_in(ids.drop_last(), prefix).push(ids.last())
    } else {
        matches_in(ids.drop_last(), prefix)
    }
}

/// What `matches_in` selects: exactly the identifiers carrying the prefix.
pub proof fn lemma_matches_in_sound(ids: Seq<Seq<char>>, prefix: Seq<char>)
    ensures
        forall|j: int|
            0 <= j < matches_in(ids, prefix).len() ==> prefix.is_prefix_of(
                #[trigger] matches_in(ids, prefix)[j],
            ) && ids.contains(matches_in(ids, prefix)[j]),
        forall|i: int|
            0 <= i < ids.len() && prefix.is_prefix_of(#[trigger] ids[i]) ==> matches_in(
                ids,
                prefix,
            ).contains(ids[i]),
    decreases ids.len(),
{
    if ids.len() > 0 {
        let rest = ids.drop_last();
        lemma_matches_in_sound(rest, prefix);
        let ms = matches_in(ids, prefix);
        let msr = matches_in(rest, prefix);
        assert forall|j: int| 0 <= j < ms.len() implies prefix.is_prefix_of(#[trigger] ms[j])
            && ids.contains(ms[j]) by {
            if j < msr.len() {
                assert(ms[j] == msr[j]);
                let w = choose|w: int| 0 <= w < rest.len() && rest[w] == msr[j];
                assert(ids[w] == msr[j]);
            } else {
                assert(ms[j] == ids.last());
                assert(ids[ids.len() - 1] == ids.last());
            }
        }
        assert forall|i: int|
            0 <= i < ids.len() && prefix.is_prefix_of(#[trigger] ids[i]) implies ms.contains(
            ids[i],
        ) by {
            if i < ids.len() - 1 {
                assert(rest[i] == ids[i]);
                let w = choose|w: int| 0 <= w < msr.len() && msr[w] == ids[i];
                assert(ms[w] == ids[i]);
            } else {
                assert(ms[ms.len() - 1] == ids.last());
            }
        }
    }
}

/// True when some object in `m` is stored under `id`.
pub open spec fn id_is_stored(m: Seq<(Seq<char>, Seq<u8>, u64)>, id: Seq<char>) -> bool {
    exists|i: int| 0 <= i < m.len() && (#[trigger] m[i]).0 == id
}

/// The referential-integrity invariant: every association names an
/// identifier that is stored.
pub open spec fn refs_wf(
    m: Seq<(Seq<char>, Seq<u8>, u64)>,
    g: Seq<(Seq<char>, Seq<char>, u64)>,
) -> bool {
    forall|k: int| 0 <= k < g.len() ==> id_is_stored(m, (#[trigger] g[k]).1)
}

/// Referential integrity survives any change to the objects that keeps every
/// already-stored identifier at its position.
proof fn lemma_refs_wf_preserved(
    old_m: Seq<(Seq<char>, Seq<u8>, u64)>,
    new_m: Seq<(Seq<char>, Seq<u8>, u64)>,
    g: Seq<(Seq<char>, Seq<char>, u64)>,
)
    requires
        refs_wf(old_m, g),
        old_m.len() <= new_m.len(),
        forall|i: int| 0 <= i < old_m.len() ==> (#[trigger] new_m[i]).0 == old_m[i].0,
    ensures
        refs_wf(new_m, g),
{
    assert forall|k: int| 0 <= k < g.len() implies id_is_stored(new_m, (#[trigger] g[k]).1) by {
        assert(id_is_stored(old_m, g[k].1));
        let i0 = choose|i: int| 0 <= i < old_m.len() && (#[trigger] old_m[i]).0 == g[k].1;
        assert(new_m[i0].0 == g[k].1);
    }
}

/// The tag-index invariants survive a first association of `name` with `id`:
/// the new association is stamped next in order and a fresh container for
/// `name` is put in front.
#[verifier::spinoff_prover]
proof fn lemma_tags_wf_fresh_tag(
    t0: Seq<(Seq<char>, u64, u64)>,
    g0: Seq<(Seq<char>, Seq<char>, u64)>,
    t1: Seq<(Seq<char>, u64, u64)>,
    g1: Seq<(Seq<char>, Seq<char>, u64)>,
    name: Seq<char>,
    id: Seq<char>,
)
    requires
        tags_wf(t0, g0),
        g0.len() <= u64::MAX,
        valid_tag_name(name),
        forall|j: int| 0 <= j < t0.len() ==> (#[trigger] t0[j]).0 != name,
        g1 == g0.push((name, id, g0.len() as u64)),
        t1 == seq![(name, g0.len() as u64, g0.len() as u64)] + t0,
    ensures
        tags_wf(t1, g1),
{
    let n = g0.len() as int;
    let stamp = n as u64;
    let e = (name, id, stamp);
    assert(t1.len() == t0.len() + 1);
    assert(forall|x: int| 1 <= x < t1.len() ==> (#[trigger] t1[x]) == t0[x - 1]);
    assert(forall|k: int| 0 <= k < n ==> (#[trigger] g1[k]) == g0[k]);
    assert(g1[n] == e);
    // `name` was never used: its container would have to be listed
    assert(!tag_used(g0, name)) by {
        lemma_used_index(g0, name);
        if tag_used(g0, name) {
            let k = choose|k: int| 0 <= k < g0.len() && (#[trigger] g0[k]).0 == name;
            lemma_listed_index(t0, name);
        }
    }
    assert forall|k: int| 0 <= k < g1.len() implies (#[trigger] g1[k]).2 == k as u64 && listed(
        t1,
        g1[k].0,
    ) by {
        lemma_listed_index(t1, g1[k].0);
        if k < n {
            lemma_listed_index(t0, g0[k].0);
            let j = choose|j: int| 0 <= j < t0.len() && (#[trigger] t0[j]).0 == g0[k].0;
            assert(t1[j + 1].0 == g1[k].0);
        } else {
            assert(t1[0].0 == g1[k].0);
        }
    }
    assert forall|k1: int, k2: int| 0 <= k1 < k2 < g1.len() implies !((#[trigger] g1[k1]).0 == (
    #[trigger] g1[k2]).0 && g1[k1].1 == g1[k2].1) by {
        if k2 == n {
            lemma_used_index(g0, name);
        }
    }
    assert forall|j: int| 0 <= j < t1.len() implies valid_tag_name((#[trigger] t1[j]).0)
        && tag_used(g1, t1[j].0) && t1[j].2 == last_use_stamp(g1, t1[j].0) && t1[j].1
        == first_use_stamp(g1, t1[j].0) by {
        lemma_use_push(g0, e, t1[j].0);
        if j >= 1 {
            assert(t1[j] == t0[j - 1]);
            assert(t0[j - 1].0 != name);
        }
    }
    assert forall|x1: int, x2: int| 0 <= x1 < x2 < t1.len() implies (#[trigger] t1[x1]).0 != (
    #[trigger] t1[x2]).0 by {
        if x1 >= 1 {
            assert(t0[x1 - 1].0 != t0[x2 - 1].0);
        } else {
            assert(t0[x2 - 1].0 != name);
        }
    }
    assert forall|x1: int, x2: int| 0 <= x1 < x2 < t1.len() implies (#[trigger] t1[x1]).2 > (
    #[trigger] t1[x2]).2 by {
        if x1 == 0 {
            assert(t0[x2 - 1].2 == last_use_stamp(g0, t0[x2 - 1].0));
            lemma_last_use_lt(g0, t0[x2 - 1].0);
        } else {
            assert(t0[x1 - 1].2 > t0[x2 - 1].2);
        }
    }
}

/// The shape of the container list after the container for `name`,
/// previously at `j0`, moves to the front.
pub open spec fn moved_front(
    t0: Seq<(Seq<char>, u64, u64)>,
    t1: Seq<(Seq<char>, u64, u64)>,
    name: Seq<char>,
    j0: int,
    stamp: u64,
) -> bool {
    &&& t1.len() == t0.len()
    &&& t1[0] == (name, t0[j0].1, stamp)
    &&& forall|x: int| 1 <= x <= j0 ==> (#[trigger] t1[x]) == t0[x - 1]
    &&& forall|x: int| j0 < x < t1.len() ==> (#[trigger] t1[x]) == t0[x]
}

/// Prepending the moved container to the remainder has the `moved_front`
/// shape.
proof fn lemma_moved_front_shape(
    t0: Seq<(Seq<char>, u64, u64)>,
    t1: Seq<(Seq<char>, u64, u64)>,
    name: Seq<char>,
    j0: int,
    stamp: u64,
)
    requires
        0 <= j0 < t0.len(),
        t1 == seq![(name, t0[j0].1, stamp)] + t0.remove(j0),
    ensures
        moved_front(t0, t1, name, j0, stamp),
{
    assert(t0.remove(j0).len() == t0.len() - 1);
    assert forall|x: int| 1 <= x <= j0 implies (#[trigger] t1[x]) == t0[x - 1] by {
        assert(t0.remove(j0)[x - 1] == t0.subrange(0, j0)[x - 1]);
    }
    assert forall|x: int| j0 < x < t1.len() implies (#[trigger] t1[x]) == t0[x] by {
        assert(t0.remove(j0)[x - 1] == t0.subrange(j0 + 1, t0.len() as int)[x - 1 - j0]);
    }
}

/// The tag-index invariants survive a new association of `name` with `id`
/// when a container for `name` already stands at `j0`: the association is
/// stamped next in order and the container moves to the front with that
/// stamp as its `last_used`.
#[verifier::spinoff_prover]
proof fn lemma_tags_wf_retag(
    t0: Seq<(Seq<char>, u64, u64)>,
    g0: Seq<(Seq<char>, Seq<char>, u64)>,
    t1: Seq<(Seq<char>, u64, u64)>,
    g1: Seq<(Seq<char>, Seq<char>, u64)>,
    name: Seq<char>,
    id: Seq<char>,
    j0: int,
)
    requires
        tags_wf(t0, g0),
        g0.len() <= u64::MAX,
        0 <= j0 < t0.len(),
        t0[j0].0 == name,
        forall|k: int| 0 <= k < g0.len() ==> !((#[trigger] g0[k]).0 == name && g0[k].1 == id),
        g1 == g0.push((name, id, g0.len() as u64)),
        t1 == seq![(name, t0[j0].1, g0.len() as u64)] + t0.remove(j0),
    ensures
        tags_wf(t1, g1),
{
    let n = g0.len() as int;
    let stamp = n as u64;
    let e = (name, id, stamp);
    lemma_moved_front_shape(t0, t1, name, j0, stamp);
    assert(forall|k: int| 0 <= k < n ==> (#[trigger] g1[k]) == g0[k]);
    assert(g1[n] == e);
    assert forall|k: int| 0 <= k < g1.len() implies (#[trigger] g1[k]).2 == k as u64 && listed(
        t1,
        g1[k].0,
    ) by {
        lemma_listed_index(t1, g1[k].0);
        if k < n {
            lemma_listed_index(t0, g0[k].0);
            let j = choose|j: int| 0 <= j < t0.len() && (#[trigger] t0[j]).0 == g0[k].0;
            if j == j0 {
                assert(t1[0].0 == g1[k].0);
            } else if j < j0 {
                assert(t1[j + 1].0 == g1[k].0);
            } else {
                assert(t1[j].0 == g1[k].0);
            }
        } else {
            assert(t1[0].0 == g1[k].0);
        }
    }
    assert forall|k1: int, k2: int| 0 <= k1 < k2 < g1.len() implies !((#[trigger] g1[k1]).0 == (
    #[trigger] g1[k2]).0 && g1[k1].1 == g1[k2].1) by {}
    assert forall|j: int| 0 <= j < t1.len() implies valid_tag_name((#[trigger] t1[j]).0)
        && tag_used(g1, t1[j].0) && t1[j].2 == last_use_stamp(g1, t1[j].0) && t1[j].1
        == first_use_stamp(g1, t1[j].0) by {
        lemma_use_push(g0, e, t1[j].0);
        if j == 0 {
            assert(t1[0].0 == t0[j0].0);
            assert(tag_used(g0, t0[j0].0));
            assert(t1[0].1 == t0[j0].1 == first_use_stamp(g0, t0[j0].0));
        } else {
            let y: int = if j <= j0 { j - 1 } else { j };
            assert(t1[j] == t0[y]);
            if y < j0 {
                assert(t0[y].0 != t0[j0].0);
            } else if y > j0 {
                assert(t0[j0].0 != t0[y].0);
            }
            assert(t1[j].0 != name);
        }
    }
    assert forall|x1: int, x2: int| 0 <= x1 < x2 < t1.len() implies (#[trigger] t1[x1]).0 != (
    #[trigger] t1[x2]).0 by {
        let y2: int = if x2 <= j0 { x2 - 1 } else { x2 };
        if x1 == 0 {
            if y2 < j0 {
                assert(t0[y2].0 != t0[j0].0);
            } else {
                assert(t0[j0].0 != t0[y2].0);
            }
        } else {
            let y1: int = if x1 <= j0 { x1 - 1 } else { x1 };
            assert(y1 < y2);
            assert(t0[y1].0 != t0[y2].0);
        }
    }
    assert forall|x1: int, x2: int| 0 <= x1 < x2 < t1.len() implies (#[trigger] t1[x1]).2 > (
    #[trigger] t1[x2]).2 by {
        if x1 == 0 {
            let y2: int = if x2 <= j0 { x2 - 1 } else { x2 };
            assert(t0[y2].2 == last_use_stamp(g0, t0[y2].0));
            lemma_last_use_lt(g0, t0[y2].0);
        } else {
            let y1: int = if x1 <= j0 { x1 - 1 } else { x1 };
            let y2: int = if x2 <= j0 { x2 - 1 } else { x2 };
            assert(y1 < y2);
            assert(t0[y1].2 > t0[y2].2);
        }
    }
}

impl Store {
    /// The stored objects, in creation order: (identifier, content, stamp).
    pub open spec fn objects_model(self) -> Seq<(Seq<char>, Seq<u8>, u64)> {
        self.objects@.map_values(|o: Scribble| (o.id@, o.content@, o.created_at))
    }

    /// The tag containers, most-recently-used first:
    /// (name, first-association stamp, last-association stamp).
    pub open spec fn tags_model(self) -> Seq<(Seq<char>, u64, u64)> {
        self.tags@.map_values(|t: Tag| (t.name@, t.created_at, t.last_used))
    }

    /// The associations, in association order:
    /// (tag name, identifier, stamp).
    pub open spec fn taggings_model(self) -> Seq<(Seq<char>, Seq<char>, u64)> {
        self.taggings@.map_values(|g: Tagging| (g.tag_name@, g.scribble_id@, g.created_at))
    }

    /// The stored identifiers, in creation order.
    pub open spec fn ids(self) -> Seq<Seq<char>> {
        self.objects_model().map_values(|o: (Seq<char>, Seq<u8>, u64)| o.0)
    }

    /// True when an object is stored under exactly this identifier.
    pub open spec fn contains_id(self, id: Seq<char>) -> bool {
        self.ids().contains(id)
    }

    /// The position of the object stored under `id`.
    pub open spec fn obj_index(self, id: Seq<char>) -> int {
        choose|i: int| 0 <= i < self.objects_model().len() && self.objects_model()[i].0 == id
    }

    /// The content stored under `id`.
    pub open spec fn content_of(self, id: Seq<char>) -> Seq<u8> {
        self.objects_model()[self.obj_index(id)].1
    }

    /// The tag names, most-recently-used first.
    pub open spec fn tag_names(self) -> Seq<Seq<char>> {
        self.tags_model().map_values(|t: (Seq<char>, u64, u64)| t.0)
    }

    /// True when `id` currently carries the tag `name`.
    pub open spec fn has_tag(self, id: Seq<char>, name: Seq<char>) -> bool {
        has_pair(self.taggings_model(), name, id)
    }

    /// The names of the tags `id` carries, in container order
    /// (most-recently-used first).
    pub open spec fn tags_of_model(self, id: Seq<char>) -> Seq<Seq<char>> {
        tags_of_in(self.tags_model(), self.taggings_model(), id)
    }

    /// True when a container for `name` exists.
    pub open spec fn has_container(self, name: Seq<char>) -> bool {
        self.tag_names().contains(name)
    }

    /// The position of the container for `name`.
    pub open spec fn container_index(self, name: Seq<char>) -> int {
        choose|j: int| 0 <= j < self.tags_model().len() && self.tags_model()[j].0 == name
    }

    /// The invariants of a well-formed store: see [`objects_wf`],
    /// [`tags_wf`] and [`refs_wf`].
    pub open spec fn wf(self) -> bool {
        &&& objects_wf(self.objects_model())
        &&& tags_wf(self.tags_model(), self.taggings_model())
        &&& refs_wf(self.objects_model(), self.taggings_model())
    }

    /// In a well-formed store the object at position `i` is the one its
    /// identifier designates.
    pub proof fn lemma_object_at(self, i: int)
        requires
            self.wf(),
            0 <= i < self.objects_model().len(),
        ensures
            self.contains_id(self.objects_model()[i].0),
            self.obj_index(self.objects_model()[i].0) == i,
            self.content_of(self.objects_model()[i].0) == self.objects_model()[i].1,
    {
        let m = self.objects_model();
        let id = m[i].0;
        assert(self.ids()[i] == id);
        assert(self.contains_id(id));
        let w = self.obj_index(id);
        assert(0 <= w < m.len() && m[w].0 == id);
        if w != i {
            if w < i {
                assert(m[w].0 != m[i].0);
            } else {
                assert(m[i].0 != m[w].0);
            }
        }
    }

    /// An empty store.
    pub fn new() -> (s: Store)
        ensures
            s.wf(),
            s.objects_model() =~= Seq::empty(),
            s.tags_model() =~= Seq::empty(),
            s.taggings_model() =~= Seq::empty(),
    {
        Store { objects: Vec::new(), tags: Vec::new(), taggings: Vec::new() }
    }

    /// The position of the object stored under `id`, if any.
    fn find_object(&self, id: &str) -> (r: Option<usize>)
        ensures
            match r {
                Some(i) => 0 <= i < self.objects_model().len() && self.objects_model()[i as int].0
                    == id@,
                None => !self.contains_id(id@),
            },
    {
        let n = self.objects.len();
        let mut i: usize = 0;
        while i < n
            invariant
                n == self.objects@.len(),
                i <= n,
                forall|k: int| 0 <= k < i ==> (#[trigger] self.objects_model()[k]).0 != id@,
            decreases n - i,
        {
            if str_eq(self.objects[i].id.as_str(), id) {
                return Some(i);
            }
            i = i + 1;
        }
        assert(!self.contains_id(id@)) by {
            if self.contains_id(id@) {
                let w = choose|w: int| 0 <= w < self.ids().len() && self.ids()[w] == id@;
                assert(self.objects_model()[w].0 == id@);
            }
        }
        None
    }

    /// Stores a content and returns its identifier.
    ///
    /// The identifier is a pure function of the content. When an object is
    /// already stored under that identifier, its bytes are overwritten in
    /// place and its creation stamp is kept; under the collision-resistance
    /// assumption on the digest those bytes are the identical content, so
    /// storing the same content twice leaves the store exactly as it was and
    /// the store keeps one object per distinct content.
    pub fn add(&mut self, content: &[u8]) -> (id: String)
        requires
            old(self).wf(),
        ensures
            final(self).wf(),
            id@ == id_of(content@),
            id@.len() == ID_CHARS,
            final(self).contains_id(id@),
            final(self).content_of(id@) == content@,
            final(self).tags_model() == old(self).tags_model(),
            final(self).taggings_model() == old(self).taggings_model(),
            old(self).contains_id(id@) ==> final(self).objects_model() == old(
                self,
            ).objects_model().update(
                old(self).obj_index(id@),
                (id@, content@, old(self).objects_model()[old(self).obj_index(id@)].2),
            ),
            old(self).contains_id(id@) && old(self).content_of(id@) == content@
                ==> final(self).objects_model() == old(self).objects_model(),
            !old(self).contains_id(id@) ==> final(self).objects_model() == old(
                self,
            ).objects_model().push(
                (id@, content@, old(self).objects_model().len() as u64),
            ),
    {
        let id = digest(content);
        match self.find_object(id.as_str()) {
            Some(i) => {
                proof {
                    old(self).lemma_object_at(i as int);
                }
                let ghost old_m = self.objects_model();
                self.objects[i].content = slice_to_vec(content);
                proof {
                    let w = old(self).obj_index(id@);
                    assert(self.objects_model() =~= old_m.update(
                        w,
                        (id@, content@, old_m[w].2),
                    ));
                    assert(self.tags_model() =~= old(self).tags_model());
                    assert(self.taggings_model() =~= old(self).taggings_model());
                    let m = self.objects_model();
                    assert forall|a: int|
                        0 <= a < m.len() implies (#[trigger] m[a]).0 == id_of(m[a].1)
                        && m[a].0.len() == ID_CHARS && m[a].2 == a as u64 by {
                        if a != w {
                            assert(m[a] == old_m[a]);
                        }
                    }
                    assert forall|a: int, b: int|
                        0 <= a < b < m.len() implies (#[trigger] m[a]).0 != (
                    #[trigger] m[b]).0 by {
                        assert(m[a].0 == old_m[a].0 && m[b].0 == old_m[b].0);
                    }
                    lemma_refs_wf_preserved(old_m, m, self.taggings_model());
                    assert(self.wf());
                    self.lemma_object_at(w);
                    if old(self).content_of(id@) == content@ {
                        assert(old_m.update(w, (id@, content@, old_m[w].2)) =~= old_m);
                    }
                }
                id
            },
            None => {
                let ghost old_m = self.objects_model();
                let created_at = self.objects.len() as u64;
                let scribble = Scribble {
                    id: id.clone(),
                    created_at,
                    content: slice_to_vec(content),
                };
                self.objects.push(scribble);
                proof {
                    assert(self.objects_model() =~= old_m.push(
                        (id@, content@, old_m.len() as u64),
                    ));
                    assert(self.tags_model() =~= old(self).tags_model());
                    assert(self.taggings_model() =~= old(self).taggings_model());
                    let m = self.objects_model();
                    assert forall|i: int|
                        0 <= i < m.len() implies (#[trigger] m[i]).0 == id_of(m[i].1)
                        && m[i].0.len() == ID_CHARS && m[i].2 == i as u64 by {
                        if i < m.len() - 1 {
                            assert(m[i] == old_m[i]);
                        }
                    }
                    assert forall|a: int, b: int|
                        0 <= a < b < m.len() implies (#[trigger] m[a]).0 != (
                    #[trigger] m[b]).0 by {
                        if b < m.len() - 1 {
                            assert(m[a] == old_m[a] && m[b] == old_m[b]);
                        } else {
                            assert(m[a] == old_m[a]);
                            assert(old(self).ids()[a] == old_m[a].0);
                        }
                    }
                    lemma_refs_wf_preserved(old_m, m, self.taggings_model());
                    assert(self.wf());
                    self.lemma_object_at(m.len() - 1);
                }
                id
            },
        }
    }

    /// The position of the container for `name`, if any.
    fn find_container(&self, name: &str) -> (r: Option<usize>)
        ensures
            match r {
                Some(j) => 0 <= j < self.tags_model().len() && self.tags_model()[j as int].0
                    == name@,
                None => !self.has_container(name@),
            },
    {
        let n = self.tags.len();
        let mut j: usize = 0;
        while j < n
            invariant
                n == self.tags@.len(),
                j <= n,
                forall|x: int| 0 <= x < j ==> (#[trigger] self.tags_model()[x]).0 != name@,
            decreases n - j,
        {
            if str_eq(self.tags[j].name.as_str(), name) {
                return Some(j);
            }
            j = j + 1;
        }
        assert(!self.has_container(name@)) by {
            if self.has_container(name@) {
                let w = choose|w: int|
                    0 <= w < self.tag_names().len() && self.tag_names()[w] == name@;
                assert(self.tags_model()[w].0 == name@);
            }
        }
        None
    }

    /// True when the association between `name` and `id` exists.
    fn find_assoc(&self, id: &str, name: &str) -> (r: bool)
        ensures
            r == self.has_tag(id@, name@),
    {
        let n = self.taggings.len();
        let mut k: usize = 0;
        while k < n
            invariant
                n == self.taggings@.len(),
                k <= n,
                forall|x: int|
                    0 <= x < k ==> !((#[trigger] self.taggings_model()[x]).0 == name@
                        && self.taggings_model()[x].1 == id@),
            decreases n - k,
        {
            if str_eq(self.taggings[k].tag_name.as_str(), name) && str_eq(
                self.taggings[k].scribble_id.as_str(),
                id,
            ) {
                assert(self.taggings_model()[k as int].0 == name@);
                return true;
            }
            k = k + 1;
        }
        false
    }

    /// The stored identifiers that begin with `prefix`, in creation order.
    pub open spec fn matching_ids(self, prefix: Seq<char>) -> Seq<Seq<char>> {
        matches_in(self.ids(), prefix)
    }

    /// Expands a user-typed identifier prefix to the unique stored
    /// identifier carrying it.
    ///
    /// Exactly one stored identifier begins with `prefix`: that identifier
    /// is returned. None does: `NotFound`. Two or more do: `Ambiguous`,
    /// naming the conflicting candidates in creation order.
    pub fn resolve(&self, prefix: &str) -> (r: Result<String, Error>)
        ensures
            match r {
                Ok(id) => self.matching_ids(prefix@) == seq![id@] && self.contains_id(id@)
                    && prefix@.is_prefix_of(id@),
                Err(Error::NotFound) => self.matching_ids(prefix@).len() == 0,
                Err(Error::Ambiguous(cands)) => self.matching_ids(prefix@).len() >= 2 && names_of(
                    cands@,
                ) == self.matching_ids(prefix@),
                Err(Error::IoError) => false,
                Err(Error::InvalidTagName) => false,
            },
    {
        let mut cands: Vec<String> = Vec::new();
        let n = self.objects.len();
        let mut i: usize = 0;
        while i < n
            invariant
                n == self.objects@.len(),
                i <= n,
                names_of(cands@) =~= matches_in(self.ids().take(i as int), prefix@),
            decreases n - i,
        {
            let ghost prev = cands@;
            if crate::text::str_is_prefix(prefix, self.objects[i].id.as_str()) {
                cands.push(self.objects[i].id.clone());
            }
            proof {
                let taken = self.ids().take(i + 1);
                assert(taken.drop_last() =~= self.ids().take(i as int));
                assert(taken.last() == self.ids()[i as int]);
                assert(self.ids()[i as int] == self.objects_model()[i as int].0);
                if prefix@.is_prefix_of(self.ids()[i as int]) {
                    assert(names_of(cands@) =~= names_of(prev).push(self.ids()[i as int]));
                }
            }
            i = i + 1;
        }
        proof {
            assert(self.ids().take(n as int) =~= self.ids());
            lemma_matches_in_sound(self.ids(), prefix@);
        }
        if cands.len() == 0 {
            Err(Error::NotFound)
        } else if cands.len() == 1 {
            let id = cands[0].clone();
            proof {
                let ms = self.matching_ids(prefix@);
                assert(id@ == names_of(cands@)[0]);
                assert(ms =~= seq![id@]);
                assert(self.ids().contains(ms[0]));
            }
            Ok(id)
        } else {
            Err(Error::Ambiguous(cands))
        }
    }

    /// Associates the tag `name` with the stored object `id`.
    ///
    /// The association is registered once: re-tagging an already-tagged
    /// object is a silent no-op that changes nothing, not an error. A
    /// container for the tag is created on first use; a genuinely new
    /// association stamps the container as the most recently used and moves
    /// it to the front. `InvalidTagName` is returned exactly when the name
    /// is unusable as a path component, and `NotFound` exactly when the name
    /// is fine but no object is stored under `id`: a tag is never attached
    /// to an identifier that does not exist.
    #[verifier::rlimit(100)]
    pub fn tag(&mut self, id: &str, name: &str) -> (r: Result<(), Error>)
        requires
            old(self).wf(),
        ensures
            final(self).wf(),
            final(self).objects_model() == old(self).objects_model(),
            match r {
                Ok(()) => {
                    &&& valid_tag_name(name@)
                    &&& old(self).contains_id(id@)
                    &&& final(self).has_tag(id@, name@)
                    &&& old(self).has_tag(id@, name@) ==> final(self).tags_model() == old(
                        self,
                    ).tags_model() && final(self).taggings_model() == old(self).taggings_model()
                    &&& !old(self).has_tag(id@, name@) ==> final(self).taggings_model() == old(
                        self,
                    ).taggings_model().push(
                        (name@, id@, old(self).taggings_model().len() as u64),
                    )
                    &&& !old(self).has_tag(id@, name@) && old(self).has_container(name@) ==> final(self).tags_model() == seq![
                        (
                            name@,
                            old(self).tags_model()[old(self).container_index(name@)].1,
                            old(self).taggings_model().len() as u64,
                        ),
                    ] + old(self).tags_model().remove(old(self).container_index(name@))
                    &&& !old(self).has_tag(id@, name@) && !old(self).has_container(name@)
                        ==> final(self).tags_model() == seq![
                        (
                            name@,
                            old(self).taggings_model().len() as u64,
                            old(self).taggings_model().len() as u64,
                        ),
                    ] + old(self).tags_model()
                },
                Err(Error::InvalidTagName) => !valid_tag_name(name@) && final(self).tags_model()
                    == old(self).tags_model() && final(self).taggings_model() == old(
                    self,
                ).taggings_model(),
                Err(Error::NotFound) => valid_tag_name(name@) && !old(self).contains_id(id@)
                    && final(self).tags_model() == old(self).tags_model() && final(self).taggings_model() == old(self).taggings_model(),
                Err(Error::Ambiguous(_)) => false,
                Err(Error::IoError) => false,
            },
    {
        if !check_tag_name(name) {
            return Err(Error::InvalidTagName);
        }
        let target = self.find_object(id);
        if target.is_none() {
            return Err(Error::NotFound);
        }
        if self.find_assoc(id, name) {
            proof {
                let w = target->Some_0 as int;
                assert(self.ids()[w] == self.objects_model()[w].0);
            }
            return Ok(());
        }
        let ghost m0 = self.objects_model();
        let ghost t0 = self.tags_model();
        let ghost g0 = self.taggings_model();
        let stamp = self.taggings.len() as u64;
        match self.find_container(name) {
            Some(j0) => {
                let created_at = self.tags[j0].created_at;
                let _moved = self.tags.remove(j0);
                let entry = Tag { name: name.to_owned(), created_at, last_used: stamp };
                self.tags.insert(0, entry);
                proof {
                    assert(old(self).container_index(name@) == j0 as int) by {
                        let w = old(self).container_index(name@);
                        if w != j0 as int {
                            if w < j0 as int {
                                assert(t0[w].0 != t0[j0 as int].0);
                            } else {
                                assert(t0[j0 as int].0 != t0[w].0);
                            }
                        }
                    }
                    assert(self.tags_model() =~= seq![(name@, t0[j0 as int].1, stamp)]
                        + t0.remove(j0 as int));
                }
            },
            None => {
                let entry = Tag { name: name.to_owned(), created_at: stamp, last_used: stamp };
                self.tags.insert(0, entry);
                proof {
                    assert(self.tags_model() =~= seq![(name@, stamp, stamp)] + t0);
                }
            },
        }
        let assoc = Tagging {
            tag_name: name.to_owned(),
            scribble_id: id.to_owned(),
            created_at: stamp,
        };
        self.taggings.push(assoc);
        proof {
            assert(self.objects_model() =~= m0);
            assert(self.taggings_model() =~= g0.push((name@, id@, stamp)));
            let t1 = self.tags_model();
            let g1 = self.taggings_model();
            assert(g0.len() == old(self).taggings@.len());
            if old(self).has_container(name@) {
                let j0 = old(self).container_index(name@);
                lemma_tags_wf_retag(t0, g0, t1, g1, name@, id@, j0);
            } else {
                assert forall|j: int| 0 <= j < t0.len() implies (#[trigger] t0[j]).0 != name@ by {
                    if t0[j].0 == name@ {
                        assert(old(self).tag_names()[j] == name@);
                    }
                }
                lemma_tags_wf_fresh_tag(t0, g0, t1, g1, name@, id@);
            }
            assert(refs_wf(m0, g1)) by {
                assert forall|k: int| 0 <= k < g1.len() implies id_is_stored(
                    m0,
                    (#[trigger] g1[k]).1,
                ) by {
                    if k < g0.len() {
                        assert(g1[k] == g0[k]);
                        assert(id_is_stored(m0, g0[k].1));
                    } else {
                        let w = target->Some_0 as int;
                        assert(m0[w].0 == id@);
                    }
                }
            }
            assert(g1[g1.len() - 1].0 == name@ && g1[g1.len() - 1].1 == id@);
            let w = target->Some_0 as int;
            assert(old(self).ids()[w] == m0[w].0);
        }
        Ok(())
    }

    /// The exact bytes stored under `id`, or `NotFound` when no object is
    /// stored under that exact identifier.
    pub fn read(&self, id: &str) -> (r: Result<Vec<u8>, Error>)
        requires
            self.wf(),
        ensures
            match r {
                Ok(content) => self.contains_id(id@) && content@ == self.content_of(id@),
                Err(e) => !self.contains_id(id@) && e is NotFound,
            },
    {
        match self.find_object(id) {
            Some(i) => {
                proof {
                    self.lemma_object_at(i as int);
                }
                Ok(slice_to_vec(self.objects[i].content.as_slice()))
            },
            None => Err(Error::NotFound),
        }
    }

    /// The names of the tags `id` currently carries, most-recently-used
    /// container first. An identifier with no tags, or one that is not
    /// stored, carries none.
    pub fn tags_of(&self, id: &str) -> (r: Vec<String>)
        ensures
            names_of(r@) == self.tags_of_model(id@),
    {
        let mut out: Vec<String> = Vec::new();
        let n = self.tags.len();
        let mut j: usize = 0;
        while j < n
            invariant
                n == self.tags@.len(),
                j <= n,
                names_of(out@) =~= tags_of_in(
                    self.tags_model().take(j as int),
                    self.taggings_model(),
                    id@,
                ),
            decreases n - j,
        {
            let ghost prev = out@;
            if self.find_assoc(id, self.tags[j].name.as_str()) {
                out.push(self.tags[j].name.clone());
            }
            proof {
                let t = self.tags_model();
                let taken = t.take(j + 1);
                assert(taken.drop_last() =~= t.take(j as int));
                assert(taken.last() == t[j as int]);
                if has_pair(self.taggings_model(), t[j as int].0, id@) {
                    assert(names_of(out@) =~= names_of(prev).push(t[j as int].0));
                }
            }
            j = j + 1;
        }
        proof {
            assert(self.tags_model().take(n as int) =~= self.tags_model());
        }
        out
    }

    /// Every tag name with at least one association, ordered by the most
    /// recent association event against each container: most-recently-used
    /// first.
    pub fn all_tags(&self) -> (r: Vec<String>)
        requires
            self.wf(),
        ensures
            names_of(r@) == self.tag_names(),
            forall|x1: int, x2: int|
                0 <= x1 < x2 < r@.len() ==> last_use_stamp(
                    self.taggings_model(),
                    #[trigger] names_of(r@)[x1],
                ) > last_use_stamp(self.taggings_model(), #[trigger] names_of(r@)[x2]),
    {
        let mut out: Vec<String> = Vec::new();
        let n = self.tags.len();
        let mut j: usize = 0;
        while j < n
            invariant
                n == self.tags@.len(),
                j <= n,
                names_of(out@) =~= self.tag_names().take(j as int),
            decreases n - j,
        {
            let ghost prev = out@;
            out.push(self.tags[j].name.clone());
            proof {
                assert(names_of(out@) =~= names_of(prev).push(self.tag_names()[j as int]));
                assert(self.tag_names().take(j + 1) =~= self.tag_names().take(j as int).push(
                    self.tag_names()[j as int],
                ));
            }
            j = j + 1;
        }
        proof {
            assert(self.tag_names().take(n as int) =~= self.tag_names());
            let t = self.tags_model();
            assert forall|x1: int, x2: int| 0 <= x1 < x2 < out@.len() implies last_use_stamp(
                self.taggings_model(),
                #[trigger] names_of(out@)[x1],
            ) > last_use_stamp(self.taggings_model(), #[trigger] names_of(out@)[x2]) by {
                assert(t[x1].2 > t[x2].2);
                assert(t[x1].2 == last_use_stamp(self.taggings_model(), t[x1].0));
                assert(t[x2].2 == last_use_stamp(self.taggings_model(), t[x2].0));
            }
        }
        out
    }

    /// Every stored identifier, most recently created first.
    pub fn list_ids_by_recency(&self) -> (r: Vec<String>)
        ensures
            r@.len() == self.ids().len(),
            forall|x: int|
                0 <= x < r@.len() ==> names_of(r@)[x] == self.ids()[self.ids().len() - 1 - x],
    {
        let n = self.objects.len();
        let mut out: Vec<String> = Vec::new();
        let mut x: usize = 0;
        while x < n
            invariant
                n == self.objects@.len(),
                x <= n,
                out@.len() == x,
                forall|y: int|
                    0 <= y < x ==> names_of(out@)[y] == self.ids()[self.ids().len() - 1 - y],
            decreases n - x,
        {
            let ghost prev = out@;
            out.push(self.objects[n - 1 - x].id.clone());
            proof {
                assert(names_of(out@) =~= names_of(prev).push(self.ids()[n - 1 - x]));
            }
            x = x + 1;
        }
        out
    }

    /// At most `limit` stored objects (all of them when no limit is given),
    /// most recently created first, each with its bounded preview.
    pub fn list(&self, limit: Option<usize>) -> (r: Vec<(String, String)>)
        ensures
            r@.len() == match limit {
                Some(l) => vstd::math::min(l as int, self.ids().len() as int),
                None => self.ids().len() as int,
            },
            forall|x: int|
                0 <= x < r@.len() ==> (#[trigger] r@[x]).0@ == self.objects_model()[self.ids().len()
                    - 1 - x].0 && r@[x].1@ == crate::preview::preview_of(
                    self.objects_model()[self.ids().len() - 1 - x].1,
                ),
    {
        let n = self.objects.len();
        let count: usize = match limit {
            Some(l) => if l < n {
                l
            } else {
                n
            },
            None => n,
        };
        let mut out: Vec<(String, String)> = Vec::new();
        let mut x: usize = 0;
        while x < count
            invariant
                n == self.objects@.len(),
                count <= n,
                x <= count,
                out@.len() == x,
                forall|y: int|
                    0 <= y < x ==> (#[trigger] out@[y]).0@ == self.objects_model()[n - 1 - y].0
                        && out@[y].1@ == crate::preview::preview_of(
                        self.objects_model()[n - 1 - y].1,
                    ),
            decreases count - x,
        {
            let o = &self.objects[n - 1 - x];
            let p = crate::preview::preview(o.content.as_slice());
            out.push((o.id.clone(), p));
            x = x + 1;
        }
        out
    }
}

} // verus!
