//! What the index holds, and what insertion and removal make of it.

use crate::beam::{beam_search, law_search_gives_the_closest_visited};
use crate::lists::at_most;
use crate::ranking::Ranked;
use crate::sorting::{first_by_key, lemma_stable_order, stable_order};
use vstd::prelude::*;

verus! {

/// The stored vectors, their outgoing links, and where searches start.
#[verifier::ext_equal]
pub struct IndexView<T> {
    pub vectors: Map<Seq<char>, Seq<T>>,
    pub links: Map<Seq<char>, Seq<Seq<char>>>,
    pub entry: Option<Seq<char>>,
}

/// The distance of every stored vector to `query`.
pub open spec fn distances_to<T>(
    query: Seq<T>,
    vectors: Map<Seq<char>, Seq<T>>,
    distance: spec_fn(Seq<T>, Seq<T>) -> i32,
) -> Map<Seq<char>, i32> {
    Map::new(|id: Seq<char>| vectors.contains_key(id), |id: Seq<char>| distance(query, vectors[id]))
}

/// The links of `owner` cut down to `m`: the closest to it, in order of distance.
/// An owner without a vector keeps its latest links.
pub open spec fn prune<T>(
    owner: Seq<char>,
    links: Seq<Seq<char>>,
    vectors: Map<Seq<char>, Seq<T>>,
    distance: spec_fn(Seq<T>, Seq<T>) -> i32,
    m: nat,
) -> Seq<Seq<char>> {
    if vectors.contains_key(owner) {
        let stored = links.filter(|id: Seq<char>| vectors.contains_key(id));
        let keys = stored.map_values(|id: Seq<char>| distance(vectors[owner], vectors[id]));
        first_by_key(stored, keys, m)
    } else {
        links.skip(links.len() - m)
    }
}

/// The links after `id` was linked with `other` both ways; the links of `other` are
/// pruned once there are more than `2 * m` of them.
pub open spec fn connect<T>(
    links: Map<Seq<char>, Seq<Seq<char>>>,
    id: Seq<char>,
    other: Seq<char>,
    vectors: Map<Seq<char>, Seq<T>>,
    distance: spec_fn(Seq<T>, Seq<T>) -> i32,
    m: nat,
) -> Map<Seq<char>, Seq<Seq<char>>> {
    let out = if links.contains_key(id) {
        links.insert(id, links[id].push(other))
    } else {
        links
    };
    if out.contains_key(other) {
        let back = out[other].push(id);
        out.insert(
            other,
            if back.len() > 2 * m {
                prune(other, back, vectors, distance, m)
            } else {
                back
            },
        )
    } else {
        out
    }
}

/// The links after `id` was linked with each of `others` in turn.
pub open spec fn connect_all<T>(
    links: Map<Seq<char>, Seq<Seq<char>>>,
    id: Seq<char>,
    others: Seq<Seq<char>>,
    vectors: Map<Seq<char>, Seq<T>>,
    distance: spec_fn(Seq<T>, Seq<T>) -> i32,
    m: nat,
) -> Map<Seq<char>, Seq<Seq<char>>>
    decreases others.len(),
{
    if others.len() == 0 {
        links
    } else {
        connect(
            connect_all(links, id, others.drop_last(), vectors, distance, m),
            id,
            others.last(),
            vectors,
            distance,
            m,
        )
    }
}

/// The ids of a ranked list.
pub open spec fn ids_of(list: Seq<Ranked>) -> Seq<Seq<char>> {
    list.map_values(|x: Ranked| x.id)
}

/// Whether a neighbour is no further than the threshold, if there is one.
pub open spec fn within(threshold: Option<i32>) -> spec_fn(Ranked) -> bool {
    |x: Ranked|
        match threshold {
            Some(limit) => x.distance <= limit,
            None => true,
        }
}

/// How many vectors at the beginning of a batch have the right dimensions.
pub open spec fn accepted<T>(entries: Seq<(Seq<char>, Seq<T>)>, dimensions: nat) -> nat
    decreases entries.len(),
{
    if entries.len() > 0 && entries[0].1.len() == dimensions {
        1 + accepted(entries.drop_first(), dimensions)
    } else {
        0
    }
}

/// Whether a link leads elsewhere than to `id`.
pub open spec fn other_than(id: Seq<char>) -> spec_fn(Seq<char>) -> bool {
    |to: Seq<char>| to != id
}

/// The links that do not lead to `id`.
pub open spec fn without(links: Seq<Seq<char>>, id: Seq<char>) -> Seq<Seq<char>> {
    links.filter(other_than(id))
}

/// A graph without the links to `id`.
pub open spec fn links_without(
    links: Map<Seq<char>, Seq<Seq<char>>>,
    id: Seq<char>,
) -> Map<Seq<char>, Seq<Seq<char>>> {
    Map::new(
        |other: Seq<char>| links.contains_key(other),
        |other: Seq<char>| without(links[other], id),
    )
}

impl<T> IndexView<T> {
    /// The index without vectors.
    pub open spec fn empty() -> Self {
        IndexView { vectors: Map::empty(), links: Map::empty(), entry: None }
    }

    /// The state that an index is always in: every stored vector has the index's
    /// dimensions and a list of at most `2 * m` links to stored vectors, nothing else
    /// has links, and searches start at a stored vector as soon as there is one.
    pub open spec fn valid(self, dimensions: nat, m: nat) -> bool {
        &&& self.vectors.dom().finite()
        &&& self.links.dom() == self.vectors.dom()
        &&& forall|id: Seq<char>| #[trigger]
            self.vectors.contains_key(id) ==> self.vectors[id].len() == dimensions
        &&& forall|id: Seq<char>| #[trigger]
            self.links.contains_key(id) ==> self.links[id].len() <= 2 * m
        &&& forall|id: Seq<char>, i: int|
            self.links.contains_key(id) && 0 <= i < self.links[id].len()
                ==> self.vectors.contains_key(#[trigger] self.links[id][i])
        &&& match self.entry {
            Some(id) => self.vectors.contains_key(id),
            None => self.vectors.dom() == Set::<Seq<char>>::empty(),
        }
    }

    /// The vectors that a search with a beam of `ef` finds, nearest first.
    pub open spec fn nearest(
        self,
        query: Seq<T>,
        ef: nat,
        distance: spec_fn(Seq<T>, Seq<T>) -> i32,
    ) -> Seq<Ranked> {
        beam_search(self.entry, self.links, distances_to(query, self.vectors, distance), ef)
    }

    /// The index after `vector` was stored under `id`. The first vector becomes the
    /// entry point; any other is linked with the `m` nearest that a search with a
    /// beam of `ef_construction` (at least `m`) finds.
    pub open spec fn inserted(
        self,
        id: Seq<char>,
        vector: Seq<T>,
        distance: spec_fn(Seq<T>, Seq<T>) -> i32,
        m: nat,
        ef_construction: nat,
    ) -> Self {
        let stored = IndexView {
            vectors: self.vectors.insert(id, vector),
            links: self.links.insert(id, Seq::empty()),
            entry: self.entry,
        };
        if self.entry is None {
            IndexView { entry: Some(id), ..stored }
        } else {
            let beam = if ef_construction >= m {
                ef_construction
            } else {
                m
            };
            let near = at_most(stored.nearest(vector, beam, distance), m);
            IndexView {
                links: connect_all(stored.links, id, ids_of(near), stored.vectors, distance, m),
                ..stored
            }
        }
    }

    /// The index after the vectors of a batch were stored in turn.
    pub open spec fn inserted_all(
        self,
        entries: Seq<(Seq<char>, Seq<T>)>,
        distance: spec_fn(Seq<T>, Seq<T>) -> i32,
        m: nat,
        ef_construction: nat,
    ) -> Self
        decreases entries.len(),
    {
        if entries.len() == 0 {
            self
        } else {
            let last = entries.last();
            self.inserted_all(entries.drop_last(), distance, m, ef_construction).inserted(
                last.0,
                last.1,
                distance,
                m,
                ef_construction,
            )
        }
    }

    /// What a search for `k` neighbours with a beam of `ef` (at least `k`) returns:
    /// the `k` nearest that it finds, without those beyond the threshold.
    pub open spec fn hits(
        self,
        query: Seq<T>,
        k: nat,
        ef: nat,
        threshold: Option<i32>,
        distance: spec_fn(Seq<T>, Seq<T>) -> i32,
    ) -> Seq<Ranked> {
        let beam = if ef >= k {
            ef
        } else {
            k
        };
        at_most(self.nearest(query, beam, distance), k).filter(within(threshold))
    }

    /// `after` is this index without the vector `id`: no vector links to it any more,
    /// and if searches started there they start at some vector that is left, if any.
    pub open spec fn removed(self, id: Seq<char>, after: Self) -> bool {
        &&& after.vectors == self.vectors.remove(id)
        &&& after.links == links_without(self.links.remove(id), id)
        &&& if self.entry == Some(id) {
            match after.entry {
                Some(next) => after.vectors.contains_key(next),
                None => after.vectors.dom() == Set::<Seq<char>>::empty(),
            }
        } else {
            after.entry == self.entry
        }
    }
}

/// Pruning keeps some of the links, at most `m`.
pub proof fn lemma_prune<T>(
    owner: Seq<char>,
    links: Seq<Seq<char>>,
    vectors: Map<Seq<char>, Seq<T>>,
    distance: spec_fn(Seq<T>, Seq<T>) -> i32,
    m: nat,
)
    requires
        links.len() >= m,
    ensures
        prune(owner, links, vectors, distance, m).len() <= m,
        forall|i: int|
            0 <= i < prune(owner, links, vectors, distance, m).len() ==> links.contains(
                #[trigger] prune(owner, links, vectors, distance, m)[i],
            ),
{
    let kept = prune(owner, links, vectors, distance, m);
    if vectors.contains_key(owner) {
        let is_stored = |id: Seq<char>| vectors.contains_key(id);
        let stored = links.filter(is_stored);
        let keys = stored.map_values(|id: Seq<char>| distance(vectors[owner], vectors[id]));
        lemma_stable_order(keys);
        assert forall|i: int| 0 <= i < kept.len() implies links.contains(#[trigger] kept[i]) by {
            let p = stable_order(keys)[i];
            assert(0 <= p < stored.len());
            assert(kept[i] == stored[p]);
            links.lemma_filter_contains_rev(is_stored, stored[p]);
        }
    } else {
        assert forall|i: int| 0 <= i < kept.len() implies links.contains(#[trigger] kept[i]) by {
            assert(kept[i] == links[i + links.len() - m]);
        }
    }
}

/// Links that may be held while `id` is being linked with `count` others.
spec fn links_valid<T>(
    links: Map<Seq<char>, Seq<Seq<char>>>,
    vectors: Map<Seq<char>, Seq<T>>,
    id: Seq<char>,
    count: nat,
    m: nat,
) -> bool {
    &&& links.dom() == vectors.dom()
    &&& links.contains_key(id)
    &&& links[id].len() <= 2 * count
    &&& forall|other: Seq<char>| #[trigger]
        links.contains_key(other) ==> links[other].len() <= 2 * m
    &&& forall|other: Seq<char>, i: int|
        links.contains_key(other) && 0 <= i < links[other].len() ==> vectors.contains_key(
            #[trigger] links[other][i],
        )
}

proof fn lemma_connect_valid<T>(
    links: Map<Seq<char>, Seq<Seq<char>>>,
    id: Seq<char>,
    other: Seq<char>,
    vectors: Map<Seq<char>, Seq<T>>,
    distance: spec_fn(Seq<T>, Seq<T>) -> i32,
    m: nat,
    count: nat,
)
    requires
        links_valid(links, vectors, id, count, m),
        vectors.contains_key(other),
        count < m,
    ensures
        links_valid(connect(links, id, other, vectors, distance, m), vectors, id, count + 1, m),
{
    let out = links.insert(id, links[id].push(other));
    let back = out[other].push(id);
    let after = connect(links, id, other, vectors, distance, m);
    assert(vectors.contains_key(id));
    assert forall|i: int| 0 <= i < back.len() implies vectors.contains_key(#[trigger] back[i]) by {
        if i < out[other].len() {
            assert(back[i] == out[other][i]);
            if other == id {
                if i < links[id].len() {
                    assert(out[id][i] == links[id][i]);
                }
            } else {
                assert(out[other][i] == links[other][i]);
            }
        }
    }
    if back.len() > 2 * m {
        lemma_prune(other, back, vectors, distance, m);
    }
    assert(after.dom() =~= vectors.dom());
    assert forall|o: Seq<char>, i: int|
        after.contains_key(o) && 0 <= i < after[o].len() implies vectors.contains_key(
        #[trigger] after[o][i],
    ) by {
        if o == other {
            if back.len() > 2 * m {
                assert(back.contains(after[o][i]));
            } else {
                assert(after[o][i] == back[i]);
            }
        } else if o == id {
            if i < links[id].len() {
                assert(after[o][i] == links[id][i]);
            }
        } else {
            assert(after[o][i] == links[o][i]);
        }
    }
}

proof fn lemma_connect_all_valid<T>(
    links: Map<Seq<char>, Seq<Seq<char>>>,
    id: Seq<char>,
    others: Seq<Seq<char>>,
    vectors: Map<Seq<char>, Seq<T>>,
    distance: spec_fn(Seq<T>, Seq<T>) -> i32,
    m: nat,
)
    requires
        links_valid(links, vectors, id, 0, m),
        forall|i: int| 0 <= i < others.len() ==> vectors.contains_key(#[trigger] others[i]),
        others.len() <= m,
    ensures
        links_valid(
            connect_all(links, id, others, vectors, distance, m),
            vectors,
            id,
            others.len(),
            m,
        ),
    decreases others.len(),
{
    if others.len() > 0 {
        let front = others.drop_last();
        assert forall|i: int| 0 <= i < front.len() implies vectors.contains_key(
            #[trigger] front[i],
        ) by {
            assert(front[i] == others[i]);
        }
        lemma_connect_all_valid(links, id, front, vectors, distance, m);
        lemma_connect_valid(
            connect_all(links, id, front, vectors, distance, m),
            id,
            others.last(),
            vectors,
            distance,
            m,
            front.len(),
        );
    }
}

/// Storing a vector of the right dimensions keeps the index in a valid state.
pub proof fn law_insert_keeps_index_valid<T>(
    index: IndexView<T>,
    id: Seq<char>,
    vector: Seq<T>,
    distance: spec_fn(Seq<T>, Seq<T>) -> i32,
    dimensions: nat,
    m: nat,
    ef_construction: nat,
)
    requires
        index.valid(dimensions, m),
        vector.len() == dimensions,
    ensures
        index.inserted(id, vector, distance, m, ef_construction).valid(dimensions, m),
{
    let stored = IndexView {
        vectors: index.vectors.insert(id, vector),
        links: index.links.insert(id, Seq::empty()),
        entry: index.entry,
    };
    assert(stored.links.dom() =~= stored.vectors.dom());
    assert forall|o: Seq<char>, i: int|
        stored.links.contains_key(o) && 0 <= i
            < stored.links[o].len() implies stored.vectors.contains_key(
        #[trigger] stored.links[o][i],
    ) by {
        if o != id {
            assert(stored.links[o][i] == index.links[o][i]);
        }
    }
    if index.entry is Some {
        let beam = if ef_construction >= m {
            ef_construction
        } else {
            m
        };
        let distances = distances_to(vector, stored.vectors, distance);
        assert(distances.dom() =~= stored.vectors.dom());
        law_search_gives_the_closest_visited(index.entry->0, stored.links, distances, beam);
        let near = at_most(stored.nearest(vector, beam, distance), m);
        let others = ids_of(near);
        assert forall|i: int| 0 <= i < others.len() implies stored.vectors.contains_key(
            #[trigger] others[i],
        ) by {
            assert(others[i] == stored.nearest(vector, beam, distance)[i].id);
        }
        lemma_connect_all_valid(stored.links, id, others, stored.vectors, distance, m);
    }
}

/// What is left after `without` are other links of the list.
pub proof fn lemma_without(links: Seq<Seq<char>>, id: Seq<char>, i: int)
    requires
        0 <= i < without(links, id).len(),
    ensures
        without(links, id)[i] != id,
        links.contains(without(links, id)[i]),
{
    links.lemma_filter_pred(other_than(id), i);
    links.lemma_filter_contains_rev(other_than(id), without(links, id)[i]);
}

proof fn lemma_without_len(links: Seq<Seq<char>>, id: Seq<char>)
    ensures
        without(links, id).len() <= links.len(),
{
    links.lemma_filter_len(other_than(id));
}

/// The length of the accepted beginning of a batch is the position of the first vector
/// with other dimensions, or the length of the batch.
pub proof fn lemma_accepted<T>(entries: Seq<(Seq<char>, Seq<T>)>, dimensions: nat, n: nat)
    requires
        n <= entries.len(),
        forall|i: int| 0 <= i < n ==> (#[trigger] entries[i]).1.len() == dimensions,
        n < entries.len() ==> entries[n as int].1.len() != dimensions,
    ensures
        accepted(entries, dimensions) == n,
    decreases n,
{
    if n > 0 {
        let rest = entries.drop_first();
        assert forall|i: int| 0 <= i < n - 1 implies (#[trigger] rest[i]).1.len()
            == dimensions by {
            assert(rest[i] == entries[i + 1]);
        }
        assert(entries[0].1.len() == dimensions);
        lemma_accepted(rest, dimensions, (n - 1) as nat);
    }
}

/// Removing a vector keeps the index in a valid state.
pub proof fn law_remove_keeps_index_valid<T>(
    before: IndexView<T>,
    id: Seq<char>,
    after: IndexView<T>,
    dimensions: nat,
    m: nat,
)
    requires
        before.valid(dimensions, m),
        before.removed(id, after),
    ensures
        after.valid(dimensions, m),
{
    assert(after.links.dom() =~= after.vectors.dom());
    if before.entry is None {
        assert(after.vectors.dom() =~= Set::empty());
    }
    assert forall|o: Seq<char>| #[trigger] after.links.contains_key(o) implies after.links[o].len()
        <= 2 * m by {
        lemma_without_len(before.links[o], id);
        assert(before.links.contains_key(o));
    }
    assert forall|o: Seq<char>, i: int|
        after.links.contains_key(o) && 0 <= i < after.links[o].len() implies after.vectors.contains_key(
        #[trigger] after.links[o][i],
    ) by {
        let list = before.links[o];
        let to = after.links[o][i];
        lemma_without(list, id, i);
        let j = choose|j: int| 0 <= j < list.len() && list[j] == to;
        assert(before.vectors.contains_key(before.links[o][j]));
    }
}

} // verus!
