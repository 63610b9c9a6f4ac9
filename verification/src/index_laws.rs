//! What holds of every index, whatever was stored, removed or searched for.

use crate::beam::{
    explore, is_path, law_search_covers_reachable, law_search_gives_the_closest_visited,
    law_search_visits_the_links_of_its_entry,
    law_wide_search_gives_all_reachable, reachable, start,
};
use crate::index_model::{
    connect_all, distances_to, ids_of, law_insert_keeps_index_valid, law_remove_keeps_index_valid,
    lemma_without, prune, within, without, IndexView,
};
use crate::lists::{at_most, lemma_filter_keeps_all};
use crate::ranking::{closer, holds_id, is_ranked, lemma_closer_irreflexive, Ranked};
use crate::sorting::{comes_first, lemma_stable_order, lemma_stable_order_lists, stable_order};
use vstd::prelude::*;

verus! {

/// A selection from a ranked list is ranked, and holds what satisfies the condition.
proof fn lemma_filter_ranked(list: Seq<Ranked>, keep: spec_fn(Ranked) -> bool)
    requires
        is_ranked(list),
    ensures
        is_ranked(list.filter(keep)),
        list.filter(keep).len() <= list.len(),
        forall|i: int|
            0 <= i < list.filter(keep).len() ==> keep(#[trigger] list.filter(keep)[i])
                && list.contains(list.filter(keep)[i]),
    decreases list.len(),
{
    reveal(Seq::filter);
    if list.len() > 0 {
        let front = list.drop_last();
        let last = list.last();
        let kept = list.filter(keep);
        lemma_filter_ranked(front, keep);
        assert forall|i: int| 0 <= i < front.len() implies list.contains(#[trigger] front[i]) by {
            assert(list[i] == front[i]);
        }
        assert(list.contains(last)) by {
            assert(list[list.len() - 1] == last);
        }
        assert forall|i: int| 0 <= i < kept.len() implies keep(#[trigger] kept[i])
            && list.contains(kept[i]) by {
            if i < front.filter(keep).len() {
                assert(kept[i] == front.filter(keep)[i]);
                assert(front.contains(kept[i]));
            }
        }
        assert forall|i: int, j: int| 0 <= i < j < kept.len() implies closer(
            #[trigger] kept[i],
            #[trigger] kept[j],
        ) by {
            assert(kept[i] == front.filter(keep)[i]);
            if j < front.filter(keep).len() {
                assert(kept[j] == front.filter(keep)[j]);
            } else {
                assert(front.contains(kept[i]));
                let k = choose|k: int| 0 <= k < front.len() && front[k] == kept[i];
                assert(closer(list[k], list[list.len() - 1]));
            }
        }
    }
}

/// What a search finds is ranked, stored and at its true distance.
proof fn lemma_nearest<T>(
    index: IndexView<T>,
    query: Seq<T>,
    ef: nat,
    distance: spec_fn(Seq<T>, Seq<T>) -> i32,
    dimensions: nat,
    m: nat,
)
    requires
        index.valid(dimensions, m),
    ensures
        ({
            let found = index.nearest(query, ef, distance);
            &&& is_ranked(found)
            &&& forall|i: int|
                0 <= i < found.len() ==> {
                    &&& index.vectors.contains_key((#[trigger] found[i]).id)
                    &&& found[i].distance == distance(query, index.vectors[found[i].id])
                }
        }),
{
    let distances = distances_to(query, index.vectors, distance);
    assert(distances.dom() =~= index.vectors.dom());
    match index.entry {
        Some(entry) => {
            law_search_gives_the_closest_visited(entry, index.links, distances, ef);
        },
        None => {},
    }
}

/// A search returns at most `k` stored vectors, none twice, each with its true
/// distance to the query, nearest first, and none beyond the threshold.
pub proof fn law_search_returns_near_stored_vectors<T>(
    index: IndexView<T>,
    query: Seq<T>,
    k: nat,
    ef: nat,
    threshold: Option<i32>,
    distance: spec_fn(Seq<T>, Seq<T>) -> i32,
    dimensions: nat,
    m: nat,
)
    requires
        index.valid(dimensions, m),
    ensures
        ({
            let hits = index.hits(query, k, ef, threshold, distance);
            &&& hits.len() <= k
            &&& is_ranked(hits)
            &&& forall|i: int, j: int|
                0 <= i < j < hits.len() ==> (#[trigger] hits[i]).id != (#[trigger] hits[j]).id
            &&& forall|i: int|
                0 <= i < hits.len() ==> {
                    &&& index.vectors.contains_key((#[trigger] hits[i]).id)
                    &&& hits[i].distance == distance(query, index.vectors[hits[i].id])
                    &&& threshold is Some ==> hits[i].distance <= threshold->0
                }
        }),
{
    let beam = if ef >= k {
        ef
    } else {
        k
    };
    let found = index.nearest(query, beam, distance);
    let near = at_most(found, k);
    let hits = index.hits(query, k, ef, threshold, distance);
    lemma_nearest(index, query, beam, distance, dimensions, m);
    assert(is_ranked(near));
    lemma_filter_ranked(near, within(threshold));
    assert forall|i: int| 0 <= i < hits.len() implies {
        &&& index.vectors.contains_key((#[trigger] hits[i]).id)
        &&& hits[i].distance == distance(query, index.vectors[hits[i].id])
        &&& threshold is Some ==> hits[i].distance <= threshold->0
    } by {
        assert(near.contains(hits[i]));
        let j = choose|j: int| 0 <= j < near.len() && near[j] == hits[i];
        assert(found[j] == hits[i]);
    }
    assert forall|i: int, j: int| 0 <= i < j < hits.len() implies (#[trigger] hits[i]).id != (
    #[trigger] hits[j]).id by {
        if hits[i].id == hits[j].id {
            assert(hits[i] == hits[j]);
            lemma_closer_irreflexive(hits[i]);
        }
    }
}

/// With any beam, a search finds nothing only if nothing is stored.
pub proof fn law_search_finds_nothing_only_in_an_empty_index<T>(
    index: IndexView<T>,
    query: Seq<T>,
    ef: nat,
    distance: spec_fn(Seq<T>, Seq<T>) -> i32,
    dimensions: nat,
    m: nat,
)
    requires
        index.valid(dimensions, m),
    ensures
        index.nearest(query, ef, distance).len() == 0 <==> index.vectors.is_empty(),
{
    let distances = distances_to(query, index.vectors, distance);
    assert(distances.dom() =~= index.vectors.dom());
    match index.entry {
        Some(entry) => {
            law_search_gives_the_closest_visited(entry, index.links, distances, ef);
            assert(index.vectors.dom().contains(entry));
        },
        None => {},
    }
}

/// A search without a threshold that returns fewer than `k` results returns every
/// vector that links lead to from the entry point.
pub proof fn law_short_search_returns_all_reachable<T>(
    index: IndexView<T>,
    query: Seq<T>,
    k: nat,
    ef: nat,
    distance: spec_fn(Seq<T>, Seq<T>) -> i32,
    dimensions: nat,
    m: nat,
    id: Seq<char>,
)
    requires
        index.valid(dimensions, m),
        index.entry is Some,
        reachable(
            index.entry->0,
            id,
            index.links,
            index.vectors.dom(),
        ),
    ensures
        index.hits(query, k, ef, None, distance).len() < k ==> holds_id(
            index.hits(query, k, ef, None, distance),
            id,
        ),
{
    let beam = if ef >= k {
        ef
    } else {
        k
    };
    let distances = distances_to(query, index.vectors, distance);
    assert(distances.dom() =~= index.vectors.dom());
    let found = index.nearest(query, beam, distance);
    let near = at_most(found, k);
    lemma_nearest(index, query, beam, distance, dimensions, m);
    lemma_filter_keeps_all(near, within(None));
    law_search_covers_reachable(index.entry->0, index.links, distances, beam, id);
}

/// A search without a threshold returns `k` results whenever links lead to as many
/// vectors from the entry point.
pub proof fn law_search_returns_k_of_k_reachable<T>(
    index: IndexView<T>,
    query: Seq<T>,
    k: nat,
    ef: nat,
    distance: spec_fn(Seq<T>, Seq<T>) -> i32,
    dimensions: nat,
    m: nat,
    ids: Seq<Seq<char>>,
)
    requires
        index.valid(dimensions, m),
        index.entry is Some,
        ids.no_duplicates(),
        ids.len() >= k,
        forall|i: int|
            0 <= i < ids.len() ==> reachable(
                index.entry->0,
                #[trigger] ids[i],
                index.links,
                index.vectors.dom(),
            ),
    ensures
        index.hits(query, k, ef, None, distance).len() == k,
{
    let hits = index.hits(query, k, ef, None, distance);
    law_search_returns_near_stored_vectors(index, query, k, ef, None, distance, dimensions, m);
    if hits.len() < k {
        let found = hits.map_values(|x: Ranked| x.id);
        assert forall|i: int| 0 <= i < ids.len() implies found.to_set().contains(
            #[trigger] ids[i],
        ) by {
            law_short_search_returns_all_reachable(
                index,
                query,
                k,
                ef,
                distance,
                dimensions,
                m,
                ids[i],
            );
            let j = choose|j: int| 0 <= j < hits.len() && (#[trigger] hits[j]).id == ids[i];
            assert(found[j] == ids[i]);
        }
        ids.unique_seq_to_set();
        found.lemma_cardinality_of_set();
        assert(ids.to_set().subset_of(found.to_set()));
        vstd::set_lib::lemma_len_subset(ids.to_set(), found.to_set());
    }
}

/// With a beam as wide as the index, a search without a threshold returns the `k`
/// nearest of all vectors that links lead to from the entry point: one that is left
/// out ranks behind `k` results.
pub proof fn law_wide_search_returns_the_nearest<T>(
    index: IndexView<T>,
    query: Seq<T>,
    k: nat,
    ef: nat,
    distance: spec_fn(Seq<T>, Seq<T>) -> i32,
    dimensions: nat,
    m: nat,
    id: Seq<char>,
)
    requires
        index.valid(dimensions, m),
        index.entry is Some,
        ef >= index.vectors.len(),
        reachable(
            index.entry->0,
            id,
            index.links,
            index.vectors.dom(),
        ),
    ensures
        ({
            let hits = index.hits(query, k, ef, None, distance);
            let left_out = Ranked { distance: distance(query, index.vectors[id]), id };
            !holds_id(hits, id) ==> {
                &&& hits.len() == k
                &&& forall|i: int| 0 <= i < hits.len() ==> closer(#[trigger] hits[i], left_out)
            }
        }),
{
    let beam = if ef >= k {
        ef
    } else {
        k
    };
    let distances = distances_to(query, index.vectors, distance);
    assert(distances.dom() =~= index.vectors.dom());
    let found = index.nearest(query, beam, distance);
    let near = at_most(found, k);
    let hits = index.hits(query, k, ef, None, distance);
    lemma_nearest(index, query, beam, distance, dimensions, m);
    lemma_filter_keeps_all(near, within(None));
    assert(hits == near);
    law_wide_search_gives_all_reachable(index.entry->0, index.links, distances, beam, id);
    let at = choose|at: int| 0 <= at < found.len() && (#[trigger] found[at]).id == id;
    if !holds_id(hits, id) {
        if at < near.len() {
            assert(near[at].id == id);
        }
        assert forall|i: int| 0 <= i < hits.len() implies closer(
            #[trigger] hits[i],
            Ranked { distance: distance(query, index.vectors[id]), id },
        ) by {
            assert(hits[i] == found[i]);
            assert(closer(found[i], found[at]));
        }
    }
}

/// With a beam as wide as the index, a vector that links lead to and that is strictly
/// nearer to the query than every other is the first result.
pub proof fn law_wide_search_returns_a_strictly_nearest_vector_first<T>(
    index: IndexView<T>,
    query: Seq<T>,
    k: nat,
    ef: nat,
    distance: spec_fn(Seq<T>, Seq<T>) -> i32,
    dimensions: nat,
    m: nat,
    id: Seq<char>,
)
    requires
        index.valid(dimensions, m),
        index.entry is Some,
        ef >= index.vectors.len(),
        k > 0,
        reachable(
            index.entry->0,
            id,
            index.links,
            index.vectors.dom(),
        ),
        forall|other: Seq<char>| #[trigger]
            index.vectors.contains_key(other) && other != id ==> distance(
                query,
                index.vectors[id],
            ) < distance(query, index.vectors[other]),
    ensures
        index.hits(query, k, ef, None, distance).len() > 0,
        index.hits(query, k, ef, None, distance)[0].id == id,
{
    let hits = index.hits(query, k, ef, None, distance);
    law_wide_search_returns_the_nearest(index, query, k, ef, distance, dimensions, m, id);
    law_search_returns_near_stored_vectors(index, query, k, ef, None, distance, dimensions, m);
    if hits.len() > 0 && hits[0].id != id {
        assert(index.vectors.contains_key(hits[0].id));
        if holds_id(hits, id) {
            let i = choose|i: int| 0 <= i < hits.len() && (#[trigger] hits[i]).id == id;
            assert(closer(hits[0], hits[i]));
        } else {
            assert(closer(hits[0], Ranked { distance: distance(query, index.vectors[id]), id }));
        }
    }
}

/// Storing a vector puts it under its id and leaves every other vector as it was. The
/// entry point changes only if there was none.
pub proof fn law_insert_stores_one_vector<T>(
    index: IndexView<T>,
    id: Seq<char>,
    vector: Seq<T>,
    distance: spec_fn(Seq<T>, Seq<T>) -> i32,
    dimensions: nat,
    m: nat,
    ef_construction: nat,
)
    requires
        index.valid(dimensions, m),
    ensures
        ({
            let after = index.inserted(id, vector, distance, m, ef_construction);
            &&& after.vectors.contains_key(id)
            &&& after.vectors[id] == vector
            &&& forall|other: Seq<char>|
                other != id ==> {
                    &&& #[trigger] after.vectors.contains_key(other)
                        == index.vectors.contains_key(other)
                    &&& after.vectors[other] == index.vectors[other]
                }
            &&& after.vectors.len() == index.vectors.len() + if index.vectors.contains_key(id) {
                0int
            } else {
                1
            }
            &&& index.entry is Some ==> after.entry == index.entry
            &&& index.entry is None ==> after.entry == Some(id)
        }),
{
}

/// The links of `other` once `id` was added to them: all of them, or the `m` closest when
/// there are more than `2 * m`.
pub open spec fn linked_back<T>(
    other: Seq<char>,
    links: Seq<Seq<char>>,
    id: Seq<char>,
    vectors: Map<Seq<char>, Seq<T>>,
    distance: spec_fn(Seq<T>, Seq<T>) -> i32,
    m: nat,
) -> Seq<Seq<char>> {
    let back = links.push(id);
    if back.len() > 2 * m {
        prune(other, back, vectors, distance, m)
    } else {
        back
    }
}

proof fn lemma_connect_all<T>(
    links: Map<Seq<char>, Seq<Seq<char>>>,
    id: Seq<char>,
    others: Seq<Seq<char>>,
    vectors: Map<Seq<char>, Seq<T>>,
    distance: spec_fn(Seq<T>, Seq<T>) -> i32,
    m: nat,
)
    requires
        links.contains_key(id),
        others.no_duplicates(),
        !others.contains(id),
        forall|i: int| 0 <= i < others.len() ==> links.contains_key(#[trigger] others[i]),
    ensures
        ({
            let after = connect_all(links, id, others, vectors, distance, m);
            &&& after.dom() == links.dom()
            &&& after[id] == links[id] + others
            &&& forall|i: int|
                0 <= i < others.len() ==> after[#[trigger] others[i]] == linked_back(
                    others[i],
                    links[others[i]],
                    id,
                    vectors,
                    distance,
                    m,
                )
            &&& forall|other: Seq<char>|
                other != id && !others.contains(other) ==> #[trigger] after[other] == links[other]
        }),
    decreases others.len(),
{
    let after = connect_all(links, id, others, vectors, distance, m);
    if others.len() == 0 {
        assert(links[id] + others =~= links[id]);
    } else {
        let front = others.drop_last();
        let last = others.last();
        assert(last == others[others.len() - 1]);
        assert(others.contains(last));
        assert forall|x: Seq<char>| #[trigger] front.contains(x) implies others.contains(x) && x
            != last by {
            let i = choose|i: int| 0 <= i < front.len() && front[i] == x;
            assert(others[i] == x);
        }
        assert forall|i: int| 0 <= i < front.len() implies links.contains_key(
            #[trigger] front[i],
        ) by {
            assert(front[i] == others[i]);
        }
        lemma_connect_all(links, id, front, vectors, distance, m);
        let mid = connect_all(links, id, front, vectors, distance, m);
        assert(!front.contains(last));
        assert(mid[last] == links[last]);
        assert(after.dom() =~= links.dom());
        assert(after[id] =~= links[id] + others);
        assert forall|i: int| 0 <= i < others.len() implies after[#[trigger] others[i]]
            == linked_back(others[i], links[others[i]], id, vectors, distance, m) by {
            if i < front.len() {
                assert(front[i] == others[i]);
                assert(front.contains(others[i]));
            }
        }
        assert forall|other: Seq<char>| other != id && !others.contains(
            other,
        ) implies #[trigger] after[other] == links[other] by {
            assert(mid[other] == links[other]);
        }
    }
}

/// Nothing links to a new id, so no search that starts elsewhere comes across it.
proof fn lemma_new_id_is_not_reachable<T>(
    stored: IndexView<T>,
    id: Seq<char>,
    entry: Seq<char>,
)
    requires
        entry != id,
        forall|other: Seq<char>, i: int|
            stored.links.contains_key(other) && 0 <= i < stored.links[other].len() ==> (
            #[trigger] stored.links[other][i]) != id,
    ensures
        !reachable(entry, id, stored.links, stored.vectors.dom()),
{
    if reachable(entry, id, stored.links, stored.vectors.dom()) {
        let path = choose|path: Seq<Seq<char>>|
            #[trigger] is_path(path, stored.links, stored.vectors.dom()) && path[0] == entry
                && path.last() == id;
        let before = path[path.len() - 2];
        assert(stored.links[before].contains(path[path.len() - 2 + 1]));
        let i = choose|i: int|
            0 <= i < stored.links[before].len() && stored.links[before][i] == id;
        assert(stored.links[before][i] != id);
    }
}

/// A new vector in an index that is not empty is linked with the `m` nearest that the
/// search for its neighbours finds, and with all that links lead to when these are
/// fewer. Each of them links back, pruned when its list grew too long, and no other
/// links change.
pub proof fn law_new_vector_is_linked_both_ways<T>(
    index: IndexView<T>,
    id: Seq<char>,
    vector: Seq<T>,
    distance: spec_fn(Seq<T>, Seq<T>) -> i32,
    dimensions: nat,
    m: nat,
    ef_construction: nat,
)
    requires
        index.valid(dimensions, m),
        index.entry is Some,
        !index.vectors.contains_key(id),
        vector.len() == dimensions,
    ensures
        ({
            let after = index.inserted(id, vector, distance, m, ef_construction);
            let linked = after.links[id];
            &&& linked.len() <= m
            &&& linked.no_duplicates()
            &&& forall|other: Seq<char>| #[trigger]
                linked.contains(other) ==> {
                    &&& index.vectors.contains_key(other)
                    &&& after.links[other] == linked_back(
                        other,
                        index.links[other],
                        id,
                        after.vectors,
                        distance,
                        m,
                    )
                }
            &&& forall|other: Seq<char>|
                other != id && !linked.contains(other) ==> #[trigger] after.links[other]
                    == index.links[other]
            &&& forall|i: int, j: int|
                0 <= i < j < linked.len() ==> distance(
                    vector,
                    index.vectors[#[trigger] linked[i]],
                ) <= distance(vector, index.vectors[#[trigger] linked[j]])
            &&& linked.len() < m ==> forall|other: Seq<char>| #[trigger]
                reachable(
                    index.entry->0,
                    other,
                    index.links.insert(id, Seq::empty()),
                    after.vectors.dom(),
                ) ==> linked.contains(other)
        }),
{
    let after = index.inserted(id, vector, distance, m, ef_construction);
    let entry = index.entry->0;
    let stored = IndexView {
        vectors: index.vectors.insert(id, vector),
        links: index.links.insert(id, Seq::empty()),
        entry: index.entry,
    };
    let distances = distances_to(vector, stored.vectors, distance);
    assert(distances.dom() =~= stored.vectors.dom());
    let beam = if ef_construction >= m {
        ef_construction
    } else {
        m
    };
    let found = stored.nearest(vector, beam, distance);
    let near = at_most(found, m);
    let others = ids_of(near);
    law_search_gives_the_closest_visited(entry, stored.links, distances, beam);
    assert forall|other: Seq<char>, i: int|
        stored.links.contains_key(other) && 0 <= i < stored.links[other].len() implies (
    #[trigger] stored.links[other][i]) != id by {
        assert(stored.links[other][i] == index.links[other][i]);
    }
    lemma_new_id_is_not_reachable(stored, id, entry);
    law_search_covers_reachable(entry, stored.links, distances, beam, id);
    assert forall|i: int| 0 <= i < others.len() implies index.vectors.contains_key(
        #[trigger] others[i],
    ) && others[i] == found[i].id by {
        assert(near[i] == found[i]);
        assert(distances.contains_key(found[i].id));
        assert(found[i].id != id);
    }
    assert(!others.contains(id));
    assert(others.no_duplicates()) by {
        assert forall|i: int, j: int|
            0 <= i < others.len() && 0 <= j < others.len() && i != j implies others[i]
            != others[j] by {
            let (a, b) = if i < j { (i, j) } else { (j, i) };
            assert(found[a].id != found[b].id);
        }
    }
    lemma_connect_all(stored.links, id, others, stored.vectors, distance, m);
    assert(stored.links[id] + others =~= others);
    assert(after.links[id] == others);
    assert forall|other: Seq<char>| #[trigger] others.contains(other) implies {
        &&& index.vectors.contains_key(other)
        &&& after.links[other] == linked_back(
            other,
            index.links[other],
            id,
            after.vectors,
            distance,
            m,
        )
    } by {
        let i = choose|i: int| 0 <= i < others.len() && others[i] == other;
        assert(index.vectors.contains_key(others[i]));
        assert(stored.links[other] == index.links[other]);
    }
    assert forall|i: int, j: int| 0 <= i < j < others.len() implies distance(
        vector,
        index.vectors[#[trigger] others[i]],
    ) <= distance(vector, index.vectors[#[trigger] others[j]]) by {
        assert(closer(found[i], found[j]));
    }
    if others.len() < m {
        assert forall|other: Seq<char>| #[trigger]
            reachable(entry, other, stored.links, stored.vectors.dom()) implies others.contains(other) by {
            law_search_covers_reachable(entry, stored.links, distances, beam, other);
            let i = choose|i: int| 0 <= i < found.len() && (#[trigger] found[i]).id == other;
            assert(others[i] == other);
        }
    }
}

/// Storing a batch keeps the index valid, as far as the vectors have the right dimensions.
pub proof fn law_insert_batch_keeps_index_valid<T>(
    index: IndexView<T>,
    entries: Seq<(Seq<char>, Seq<T>)>,
    distance: spec_fn(Seq<T>, Seq<T>) -> i32,
    dimensions: nat,
    m: nat,
    ef_construction: nat,
)
    requires
        index.valid(dimensions, m),
        forall|i: int| 0 <= i < entries.len() ==> (#[trigger] entries[i]).1.len() == dimensions,
    ensures
        index.inserted_all(entries, distance, m, ef_construction).valid(dimensions, m),
    decreases entries.len(),
{
    if entries.len() > 0 {
        let front = entries.drop_last();
        assert forall|i: int| 0 <= i < front.len() implies (#[trigger] front[i]).1.len()
            == dimensions by {
            assert(front[i] == entries[i]);
        }
        assert(entries[entries.len() - 1].1.len() == dimensions);
        law_insert_batch_keeps_index_valid(index, front, distance, dimensions, m, ef_construction);
        law_insert_keeps_index_valid(
            index.inserted_all(front, distance, m, ef_construction),
            entries.last().0,
            entries.last().1,
            distance,
            dimensions,
            m,
            ef_construction,
        );
    }
}

/// After a removal the id is neither stored nor linked to, every other vector is as it
/// was, and no search returns the id.
pub proof fn law_removed_vector_is_gone<T>(
    before: IndexView<T>,
    id: Seq<char>,
    after: IndexView<T>,
    query: Seq<T>,
    k: nat,
    ef: nat,
    threshold: Option<i32>,
    distance: spec_fn(Seq<T>, Seq<T>) -> i32,
    dimensions: nat,
    m: nat,
)
    requires
        before.valid(dimensions, m),
        before.removed(id, after),
    ensures
        !after.vectors.contains_key(id),
        !after.links.contains_key(id),
        forall|other: Seq<char>, i: int|
            after.links.contains_key(other) && 0 <= i < after.links[other].len() ==> (
            #[trigger] after.links[other][i]) != id,
        forall|other: Seq<char>|
            other != id ==> {
                &&& #[trigger] after.vectors.contains_key(other)
                    == before.vectors.contains_key(other)
                &&& after.vectors[other] == before.vectors[other]
            },
        !holds_id(after.hits(query, k, ef, threshold, distance), id),
{
    assert forall|other: Seq<char>, i: int|
        after.links.contains_key(other) && 0 <= i < after.links[other].len() implies (
    #[trigger] after.links[other][i]) != id by {
        lemma_without(before.links[other], id, i);
    }
    law_remove_keeps_index_valid(before, id, after, dimensions, m);
    law_search_returns_near_stored_vectors(
        after,
        query,
        k,
        ef,
        threshold,
        distance,
        dimensions,
        m,
    );
}

/// Pruning keeps at most `m` of a stored vector's links to stored vectors, and no link
/// that it drops leads to a vector closer than one that it keeps.
pub proof fn law_prune_keeps_the_closest<T>(
    owner: Seq<char>,
    links: Seq<Seq<char>>,
    vectors: Map<Seq<char>, Seq<T>>,
    distance: spec_fn(Seq<T>, Seq<T>) -> i32,
    m: nat,
    dropped: Seq<char>,
    kept: Seq<char>,
)
    requires
        vectors.contains_key(owner),
        vectors.contains_key(dropped),
        links.contains(dropped),
        !prune(owner, links, vectors, distance, m).contains(dropped),
        prune(owner, links, vectors, distance, m).contains(kept),
    ensures
        prune(owner, links, vectors, distance, m).len() == m,
        distance(vectors[owner], vectors[kept]) <= distance(vectors[owner], vectors[dropped]),
{
    let is_stored = |id: Seq<char>| vectors.contains_key(id);
    let stored = links.filter(is_stored);
    let keys = stored.map_values(|id: Seq<char>| distance(vectors[owner], vectors[id]));
    let order = stable_order(keys);
    let pruned = prune(owner, links, vectors, distance, m);
    lemma_stable_order(keys);
    let at = choose|at: int| 0 <= at < links.len() && links[at] == dropped;
    links.lemma_filter_contains(is_stored, at);
    let p = choose|p: int| 0 <= p < stored.len() && stored[p] == dropped;
    lemma_stable_order_lists(keys, order, p);
    let r = choose|r: int| 0 <= r < order.len() && order[r] == p;
    if r < pruned.len() {
        assert(pruned[r] == stored[order[r]]);
    }
    let i = choose|i: int| 0 <= i < pruned.len() && pruned[i] == kept;
    assert(comes_first(keys, order[i], order[r]));
    assert(kept == stored[order[i]]);
    assert(keys[order[i]] <= keys[order[r]]);
}

/// `a` is linked with every other stored vector, once with each, and not with itself.
pub open spec fn links_to_all_others<T>(index: IndexView<T>, a: Seq<char>) -> bool {
    &&& index.links[a].no_duplicates()
    &&& !index.links[a].contains(a)
    &&& forall|other: Seq<char>|
        #![trigger index.vectors.contains_key(other)]
        index.vectors.contains_key(other) && other != a ==> index.links[a].contains(other)
}

/// All stored vectors are linked with each other.
pub open spec fn fully_linked<T>(index: IndexView<T>) -> bool {
    forall|a: Seq<char>|
        index.vectors.contains_key(a) ==> #[trigger] links_to_all_others(index, a)
}

/// In a fully linked index a vector has fewer links than there are vectors.
proof fn lemma_fully_linked_len<T>(
    index: IndexView<T>,
    a: Seq<char>,
    dimensions: nat,
    m: nat,
)
    requires
        index.valid(dimensions, m),
        index.vectors.contains_key(a),
        links_to_all_others(index, a),
    ensures
        index.links[a].len() < index.vectors.len(),
{
    let links = index.links[a];
    let others = index.vectors.dom().remove(a);
    links.unique_seq_to_set();
    assert forall|x: Seq<char>| links.to_set().contains(x) implies others.contains(x) by {
        let i = choose|i: int| 0 <= i < links.len() && links[i] == x;
        assert(index.links.contains_key(a));
        assert(index.vectors.contains_key(index.links[a][i]));
    }
    assert(links.to_set().subset_of(others));
    vstd::set_lib::lemma_len_subset(links.to_set(), others);
}

/// A new vector in an index of at most `m` vectors that are all linked with each other is
/// linked with all of them.
pub proof fn law_small_index_stays_fully_linked_on_insert<T>(
    index: IndexView<T>,
    id: Seq<char>,
    vector: Seq<T>,
    distance: spec_fn(Seq<T>, Seq<T>) -> i32,
    dimensions: nat,
    m: nat,
    ef_construction: nat,
)
    requires
        index.valid(dimensions, m),
        fully_linked(index),
        index.vectors.len() <= m,
        !index.vectors.contains_key(id),
        vector.len() == dimensions,
    ensures
        fully_linked(index.inserted(id, vector, distance, m, ef_construction)),
{
    let after = index.inserted(id, vector, distance, m, ef_construction);
    match index.entry {
        None => {
            assert forall|a: Seq<char>|
                after.vectors.contains_key(a) implies #[trigger] links_to_all_others(after, a) by {
                assert(!index.vectors.dom().contains(a));
                assert(a == id);
                assert(after.links[id] =~= Seq::empty());
                assert forall|other: Seq<char>|
                    #![trigger after.vectors.contains_key(other)]
                    after.vectors.contains_key(other) && other != a implies after.links[a].contains(
                    other,
                ) by {
                    assert(!index.vectors.dom().contains(other));
                }
            }
        },
        Some(entry) => {
            law_new_vector_is_linked_both_ways(
                index,
                id,
                vector,
                distance,
                dimensions,
                m,
                ef_construction,
            );
            let linked = after.links[id];
            lemma_links_of_new_vector(index, id, after, vector, dimensions, m);
            assert forall|a: Seq<char>|
                after.vectors.contains_key(a) implies #[trigger] links_to_all_others(after, a) by {
                if a == id {
                    if linked.contains(id) {
                        assert(index.vectors.contains_key(id));
                    }
                    assert forall|other: Seq<char>|
                        #![trigger after.vectors.contains_key(other)]
                        after.vectors.contains_key(other) && other
                            != a implies after.links[a].contains(other) by {
                        assert(index.vectors.contains_key(other));
                    }
                } else {
                    assert(index.vectors.contains_key(a));
                    assert(linked.contains(a));
                    assert(links_to_all_others(index, a));
                    lemma_fully_linked_len(index, a, dimensions, m);
                    lemma_linked_back_to_new(index, id, after, a, dimensions, m);
                }
            }
        },
    }
}

/// The links of a stored vector with the new one added still lead to all others.
proof fn lemma_linked_back_to_new<T>(
    index: IndexView<T>,
    id: Seq<char>,
    after: IndexView<T>,
    a: Seq<char>,
    dimensions: nat,
    m: nat,
)
    requires
        index.valid(dimensions, m),
        !index.vectors.contains_key(id),
        index.vectors.contains_key(a),
        links_to_all_others(index, a),
        after.vectors.dom() == index.vectors.dom().insert(id),
        after.links[a] == index.links[a].push(id),
    ensures
        links_to_all_others(after, a),
{
    let before = index.links[a];
    let now = after.links[a];
    assert forall|i: int| 0 <= i < before.len() implies index.vectors.contains_key(
        #[trigger] before[i],
    ) by {
        assert(index.links.contains_key(a));
        assert(index.vectors.contains_key(index.links[a][i]));
    }
    assert forall|i: int, j: int|
        0 <= i < now.len() && 0 <= j < now.len() && i != j implies now[i] != now[j] by {
        if i < before.len() && j < before.len() {
            assert(before[i] != before[j]);
        } else if i < before.len() {
            assert(index.vectors.contains_key(before[i]));
        } else {
            assert(index.vectors.contains_key(before[j]));
        }
    }
    assert(!now.contains(a)) by {
        if now.contains(a) {
            let i = choose|i: int| 0 <= i < now.len() && now[i] == a;
            if i < before.len() {
                assert(before[i] == a);
                assert(before.contains(a));
            }
        }
    }
    assert forall|other: Seq<char>|
        #![trigger after.vectors.contains_key(other)]
        after.vectors.contains_key(other) && other != a implies now.contains(other) by {
        assert(after.vectors.dom().contains(other));
        if other == id {
            assert(now[before.len() as int] == id);
        } else {
            assert(index.vectors.contains_key(other));
            let i = choose|i: int| 0 <= i < before.len() && before[i] == other;
            assert(now[i] == other);
        }
    }
}

/// In a small fully linked index the search for the neighbours of a new vector finds all.
proof fn lemma_links_of_new_vector<T>(
    index: IndexView<T>,
    id: Seq<char>,
    after: IndexView<T>,
    vector: Seq<T>,
    dimensions: nat,
    m: nat,
)
    requires
        index.valid(dimensions, m),
        fully_linked(index),
        index.vectors.len() <= m,
        index.entry is Some,
        after.vectors == index.vectors.insert(id, vector),
        after.links[id].no_duplicates(),
        after.links[id].len() <= m,
        forall|other: Seq<char>| #[trigger]
            after.links[id].contains(other) ==> index.vectors.contains_key(other),
        after.links[id].len() < m ==> forall|other: Seq<char>| #[trigger]
            reachable(
                index.entry->0,
                other,
                index.links.insert(id, Seq::empty()),
                after.vectors.dom(),
            ) ==> after.links[id].contains(other),
        !index.vectors.contains_key(id),
    ensures
        forall|other: Seq<char>| #[trigger]
            index.vectors.contains_key(other) ==> after.links[id].contains(other),
{
    let linked = after.links[id];
    let entry = index.entry->0;
    let links = index.links.insert(id, Seq::empty());
    let stored = after.vectors.dom();
    if linked.len() < m {
        assert forall|other: Seq<char>| #[trigger]
            index.vectors.contains_key(other) implies linked.contains(other) by {
            let path = if other == entry {
                seq![entry]
            } else {
                seq![entry, other]
            };
            assert(links_to_all_others(index, entry));
            assert(index.links.contains_key(entry));
            assert(links[entry] == index.links[entry]);
            assert(is_path(path, links, stored));
            assert(path[0] == entry && path.last() == other);
            assert(reachable(entry, other, links, stored));
        }
    } else {
        linked.unique_seq_to_set();
        assert forall|x: Seq<char>| linked.to_set().contains(
            x,
        ) implies index.vectors.dom().contains(x) by {
            assert(linked.contains(x));
        }
        assert(linked.to_set().subset_of(index.vectors.dom()));
        vstd::set_lib::lemma_len_subset(linked.to_set(), index.vectors.dom());
        vstd::set_lib::lemma_subset_equality(linked.to_set(), index.vectors.dom());
        assert forall|other: Seq<char>| #[trigger]
            index.vectors.contains_key(other) implies linked.contains(other) by {
            assert(index.vectors.dom().contains(other));
            assert(linked.to_set().contains(other));
        }
    }
}

/// Links without those to `id` hold nothing twice if they did not before, and still lead
/// to everything else.
proof fn lemma_without_keeps_others(links: Seq<Seq<char>>, id: Seq<char>)
    requires
        links.no_duplicates(),
    ensures
        without(links, id).no_duplicates(),
        forall|x: Seq<char>| #[trigger]
            without(links, id).contains(x) <==> links.contains(x) && x != id,
    decreases links.len(),
{
    reveal(Seq::filter);
    if links.len() > 0 {
        let front = links.drop_last();
        let last = links.last();
        let kept = without(links, id);
        assert(front.no_duplicates());
        lemma_without_keeps_others(front, id);
        assert(!front.contains(last)) by {
            if front.contains(last) {
                let i = choose|i: int| 0 <= i < front.len() && front[i] == last;
                assert(links[i] == links[links.len() - 1]);
            }
        }
        assert forall|x: Seq<char>| links.contains(x) <==> front.contains(x) || x == last by {
            if front.contains(x) {
                let i = choose|i: int| 0 <= i < front.len() && front[i] == x;
                assert(links[i] == x);
            }
            if links.contains(x) && x != last {
                let i = choose|i: int| 0 <= i < links.len() && links[i] == x;
                assert(front[i] == x);
            }
            if x == last {
                assert(links[links.len() - 1] == x);
            }
        }
        if last != id {
            let before = without(front, id);
            assert(kept =~= before.push(last));
            assert(!before.contains(last));
            assert forall|i: int, j: int|
                0 <= i < kept.len() && 0 <= j < kept.len() && i != j implies kept[i] != kept[j] by {
                if i < before.len() {
                    assert(before.contains(before[i]));
                }
                if j < before.len() {
                    assert(before.contains(before[j]));
                }
            }
            assert forall|x: Seq<char>| #[trigger] kept.contains(x) <==> links.contains(x) && x
                != id by {
                if kept.contains(x) {
                    let i = choose|i: int| 0 <= i < kept.len() && kept[i] == x;
                    if i < before.len() {
                        assert(before[i] == x);
                        assert(before.contains(x));
                    }
                }
                if before.contains(x) {
                    let i = choose|i: int| 0 <= i < before.len() && before[i] == x;
                    assert(kept[i] == x);
                }
                assert(kept[before.len() as int] == last);
            }
        } else {
            assert(kept == without(front, id));
        }
    }
}

/// A removal leaves the other vectors linked with each other.
pub proof fn law_fully_linked_index_stays_so_on_remove<T>(
    before: IndexView<T>,
    id: Seq<char>,
    after: IndexView<T>,
    dimensions: nat,
    m: nat,
)
    requires
        before.valid(dimensions, m),
        fully_linked(before),
        before.removed(id, after),
    ensures
        fully_linked(after),
{
    assert forall|a: Seq<char>| after.vectors.contains_key(a) implies #[trigger] links_to_all_others(
        after,
        a,
    ) by {
        assert(before.vectors.contains_key(a));
        assert(links_to_all_others(before, a));
        assert(before.links.contains_key(a));
        lemma_without_keeps_others(before.links[a], id);
        assert(after.links[a] == without(before.links[a], id));
        assert forall|other: Seq<char>|
            #![trigger after.vectors.contains_key(other)]
            after.vectors.contains_key(other) && other != a implies after.links[a].contains(
            other,
        ) by {
            assert(before.vectors.contains_key(other));
        }
    }
}

/// `hits` are the `k` nearest of all stored vectors (all of them if there are fewer),
/// nearest first and with their true distances: none that is left out is nearer than one
/// of them.
pub open spec fn are_the_nearest<T>(
    hits: Seq<Ranked>,
    index: IndexView<T>,
    query: Seq<T>,
    k: nat,
    distance: spec_fn(Seq<T>, Seq<T>) -> i32,
) -> bool {
    &&& hits.len() == if k < index.vectors.len() {
        k
    } else {
        index.vectors.len()
    }
    &&& is_ranked(hits)
    &&& forall|i: int|
        0 <= i < hits.len() ==> {
            &&& index.vectors.contains_key((#[trigger] hits[i]).id)
            &&& hits[i].distance == distance(query, index.vectors[hits[i].id])
        }
    &&& forall|id: Seq<char>, i: int|
        #![trigger index.vectors.contains_key(id), hits[i]]
        index.vectors.contains_key(id) && !holds_id(hits, id) && 0 <= i < hits.len()
            ==> hits[i].distance <= distance(query, index.vectors[id])
}

/// A search returns no more results than there are vectors, and as many if it returns
/// every vector.
proof fn lemma_hits_len<T>(
    index: IndexView<T>,
    query: Seq<T>,
    k: nat,
    ef: nat,
    distance: spec_fn(Seq<T>, Seq<T>) -> i32,
    dimensions: nat,
    m: nat,
)
    requires
        index.valid(dimensions, m),
    ensures
        ({
            let hits = index.hits(query, k, ef, None, distance);
            &&& hits.len() <= index.vectors.len()
            &&& (forall|id: Seq<char>| #[trigger]
                index.vectors.contains_key(id) ==> holds_id(hits, id)) ==> hits.len()
                == index.vectors.len()
        }),
{
    let hits = index.hits(query, k, ef, None, distance);
    law_search_returns_near_stored_vectors(index, query, k, ef, None, distance, dimensions, m);
    let found = hits.map_values(|x: Ranked| x.id);
    assert(found.no_duplicates()) by {
        assert forall|i: int, j: int|
            0 <= i < found.len() && 0 <= j < found.len() && i != j implies found[i] != found[j] by {
            let (a, b) = if i < j { (i, j) } else { (j, i) };
            assert(hits[a].id != hits[b].id);
        }
    }
    found.unique_seq_to_set();
    assert forall|x: Seq<char>| found.to_set().contains(x) implies index.vectors.dom().contains(
        x,
    ) by {
        let i = choose|i: int| 0 <= i < found.len() && found[i] == x;
        assert(index.vectors.contains_key(hits[i].id));
    }
    assert(found.to_set().subset_of(index.vectors.dom()));
    vstd::set_lib::lemma_len_subset(found.to_set(), index.vectors.dom());
    if forall|id: Seq<char>| #[trigger] index.vectors.contains_key(id) ==> holds_id(hits, id) {
        assert forall|id: Seq<char>| index.vectors.dom().contains(
            id,
        ) implies found.to_set().contains(id) by {
            assert(index.vectors.contains_key(id));
            let i = choose|i: int| 0 <= i < hits.len() && (#[trigger] hits[i]).id == id;
            assert(found[i] == id);
        }
        assert(found.to_set() =~= index.vectors.dom());
    }
}

/// In a fully linked index a search without a threshold is exact, whatever its beam.
pub proof fn law_fully_linked_search_is_exact<T>(
    index: IndexView<T>,
    query: Seq<T>,
    k: nat,
    ef: nat,
    distance: spec_fn(Seq<T>, Seq<T>) -> i32,
    dimensions: nat,
    m: nat,
)
    requires
        index.valid(dimensions, m),
        fully_linked(index),
    ensures
        are_the_nearest(index.hits(query, k, ef, None, distance), index, query, k, distance),
{
    let hits = index.hits(query, k, ef, None, distance);
    law_search_returns_near_stored_vectors(index, query, k, ef, None, distance, dimensions, m);
    lemma_hits_len(index, query, k, ef, distance, dimensions, m);
    assert forall|id: Seq<char>, i: int|
        #![trigger index.vectors.contains_key(id), hits[i]]
        index.vectors.contains_key(id) && !holds_id(hits, id) && 0 <= i
            < hits.len() implies hits[i].distance <= distance(query, index.vectors[id]) by {
        lemma_left_out_is_no_nearer(index, query, k, ef, distance, dimensions, m, id);
    }
    if hits.len() < index.vectors.len() {
        let id = choose|id: Seq<char>| #[trigger] index.vectors.contains_key(id) && !holds_id(hits, id);
        lemma_left_out_is_no_nearer(index, query, k, ef, distance, dimensions, m, id);
    }
}

/// In a fully linked index a search looks at every vector, so one that it leaves out is no
/// nearer than any of `k` results.
proof fn lemma_left_out_is_no_nearer<T>(
    index: IndexView<T>,
    query: Seq<T>,
    k: nat,
    ef: nat,
    distance: spec_fn(Seq<T>, Seq<T>) -> i32,
    dimensions: nat,
    m: nat,
    id: Seq<char>,
)
    requires
        index.valid(dimensions, m),
        fully_linked(index),
        index.vectors.contains_key(id),
        !holds_id(index.hits(query, k, ef, None, distance), id),
    ensures
        index.hits(query, k, ef, None, distance).len() == k,
        forall|i: int|
            0 <= i < k ==> (#[trigger] index.hits(query, k, ef, None, distance)[i]).distance
                <= distance(query, index.vectors[id]),
{
    let beam = if ef >= k {
        ef
    } else {
        k
    };
    let distances = distances_to(query, index.vectors, distance);
    assert(distances.dom() =~= index.vectors.dom());
    let found = index.nearest(query, beam, distance);
    let near = at_most(found, k);
    let hits = index.hits(query, k, ef, None, distance);
    lemma_filter_keeps_all(near, within(None));
    assert(hits == near);
    assert(index.vectors.dom().contains(id));
    let entry = index.entry->0;
    assert(links_to_all_others(index, entry));
    assert(index.links.contains_key(entry));
    let end = explore(start(entry, distances), index.links, distances, beam);
    law_search_visits_the_links_of_its_entry(entry, index.links, distances, beam, id);
    law_search_gives_the_closest_visited(entry, index.links, distances, beam);
    assert(end.visited.contains(id));
    if holds_id(found, id) {
        let at = choose|at: int| 0 <= at < found.len() && (#[trigger] found[at]).id == id;
        if at < near.len() {
            assert(near[at].id == id);
        }
        assert forall|i: int| 0 <= i < k implies (#[trigger] hits[i]).distance <= distance(
            query,
            index.vectors[id],
        ) by {
            assert(closer(found[i], found[at]));
        }
    } else {
        assert forall|i: int| 0 <= i < k implies (#[trigger] hits[i]).distance <= distance(
            query,
            index.vectors[id],
        ) by {
            if i < found.len() - 1 {
                assert(closer(found[i], found[found.len() - 1]));
            }
        }
    }
}

/// `after` is `before` with one new vector of the right dimensions, or with one removed.
pub open spec fn is_change<T>(
    before: IndexView<T>,
    after: IndexView<T>,
    distance: spec_fn(Seq<T>, Seq<T>) -> i32,
    dimensions: nat,
    m: nat,
    ef_construction: nat,
) -> bool {
    ||| is_new_vector(before, after, distance, dimensions, m, ef_construction)
    ||| exists|id: Seq<char>| #[trigger] before.removed(id, after)
}

/// `states` are what an index goes through, from the empty one on, while it never holds
/// more than `m + 1` vectors.
pub open spec fn is_small_history<T>(
    states: Seq<IndexView<T>>,
    distance: spec_fn(Seq<T>, Seq<T>) -> i32,
    dimensions: nat,
    m: nat,
    ef_construction: nat,
) -> bool {
    &&& states.len() > 0
    &&& states[0] == IndexView::<T>::empty()
    &&& forall|i: int|
        0 <= i < states.len() ==> (#[trigger] states[i]).vectors.len() <= m + 1
    &&& forall|i: int|
        0 < i < states.len() ==> is_change(
            states[i - 1],
            #[trigger] states[i],
            distance,
            dimensions,
            m,
            ef_construction,
        )
}

proof fn lemma_small_history<T>(
    states: Seq<IndexView<T>>,
    n: int,
    distance: spec_fn(Seq<T>, Seq<T>) -> i32,
    dimensions: nat,
    m: nat,
    ef_construction: nat,
)
    requires
        is_small_history(states, distance, dimensions, m, ef_construction),
        0 <= n < states.len(),
    ensures
        states[n].valid(dimensions, m),
        fully_linked(states[n]),
    decreases n,
{
    if n == 0 {
        assert(states[0].vectors.dom() =~= Set::empty());
        assert(states[0].links.dom() =~= Set::empty());
    } else {
        lemma_small_history(states, n - 1, distance, dimensions, m, ef_construction);
        let before = states[n - 1];
        let after = states[n];
        assert(is_change(before, after, distance, dimensions, m, ef_construction));
        if exists|id: Seq<char>| #[trigger] before.removed(id, after) {
            let id = choose|id: Seq<char>| #[trigger] before.removed(id, after);
            law_remove_keeps_index_valid(before, id, after, dimensions, m);
            law_fully_linked_index_stays_so_on_remove(before, id, after, dimensions, m);
        } else {
            let (id, vector) = choose|id: Seq<char>, vector: Seq<T>|
                !before.vectors.contains_key(id) && vector.len() == dimensions && after
                    == #[trigger] before.inserted(id, vector, distance, m, ef_construction);
            law_insert_stores_one_vector(
                before,
                id,
                vector,
                distance,
                dimensions,
                m,
                ef_construction,
            );
            law_insert_keeps_index_valid(
                before,
                id,
                vector,
                distance,
                dimensions,
                m,
                ef_construction,
            );
            law_small_index_stays_fully_linked_on_insert(
                before,
                id,
                vector,
                distance,
                dimensions,
                m,
                ef_construction,
            );
        }
    }
}

/// A search without a threshold is exact in an index that never held more than `m + 1`
/// vectors, filled with new ids and thinned by removals: it returns the `k` nearest of
/// all stored vectors, whatever its beam.
pub proof fn law_small_index_search_is_exact<T>(
    states: Seq<IndexView<T>>,
    query: Seq<T>,
    k: nat,
    ef: nat,
    distance: spec_fn(Seq<T>, Seq<T>) -> i32,
    dimensions: nat,
    m: nat,
    ef_construction: nat,
)
    requires
        is_small_history(states, distance, dimensions, m, ef_construction),
    ensures
        are_the_nearest(
            states.last().hits(query, k, ef, None, distance),
            states.last(),
            query,
            k,
            distance,
        ),
{
    lemma_small_history(states, states.len() - 1, distance, dimensions, m, ef_construction);
    law_fully_linked_search_is_exact(states.last(), query, k, ef, distance, dimensions, m);
}

/// Links lead from the entry point to every stored vector.
pub open spec fn connected<T>(index: IndexView<T>) -> bool {
    forall|id: Seq<char>| #[trigger]
        index.vectors.contains_key(id) ==> index.entry is Some && reachable(
            index.entry->0,
            id,
            index.links,
            index.vectors.dom(),
        )
}

/// Every vector has fewer links than there are vectors.
pub open spec fn has_short_lists<T>(index: IndexView<T>) -> bool {
    forall|id: Seq<char>| #[trigger]
        index.vectors.contains_key(id) ==> index.links[id].len() < index.vectors.len()
}

/// What links lead to, they still lead to when vectors and links are added.
pub(crate) proof fn lemma_reachable_grows<T>(
    before: IndexView<T>,
    after: IndexView<T>,
    entry: Seq<char>,
    id: Seq<char>,
)
    requires
        reachable(entry, id, before.links, before.vectors.dom()),
        before.vectors.dom().subset_of(after.vectors.dom()),
        before.links.dom() == before.vectors.dom(),
        after.links.dom() == after.vectors.dom(),
        forall|a: Seq<char>, to: Seq<char>|
            before.vectors.contains_key(a) && #[trigger] before.links[a].contains(to)
                ==> after.links[a].contains(to),
    ensures
        reachable(entry, id, after.links, after.vectors.dom()),
{
    let path = choose|path: Seq<Seq<char>>|
        #[trigger] is_path(path, before.links, before.vectors.dom()) && path[0] == entry
            && path.last() == id;
    assert forall|i: int| 0 <= i < path.len() implies after.vectors.dom().contains(
        #[trigger] path[i],
    ) by {
        assert(before.vectors.dom().contains(path[i]));
    }
    assert forall|i: int|
        #![trigger path[i]]
        0 <= i < path.len() - 1 implies after.links.contains_key(path[i])
        && after.links[path[i]].contains(path[i + 1]) by {
        assert(before.vectors.contains_key(path[i]));
        assert(before.links[path[i]].contains(path[i + 1]));
    }
    assert(is_path(path, after.links, after.vectors.dom()));
}

/// As long as no list of links is pruned, which takes more than `2 * m` vectors, links
/// lead from the entry point to every vector: a new vector in an index of at most `2 * m`
/// vectors that links all lead to leaves every vector, the new one included, so.
pub proof fn law_unpruned_index_stays_connected_on_insert<T>(
    index: IndexView<T>,
    id: Seq<char>,
    vector: Seq<T>,
    distance: spec_fn(Seq<T>, Seq<T>) -> i32,
    dimensions: nat,
    m: nat,
    ef_construction: nat,
)
    requires
        index.valid(dimensions, m),
        connected(index),
        has_short_lists(index),
        index.vectors.len() <= 2 * m,
        !index.vectors.contains_key(id),
        vector.len() == dimensions,
    ensures
        connected(index.inserted(id, vector, distance, m, ef_construction)),
        has_short_lists(index.inserted(id, vector, distance, m, ef_construction)),
{
    let after = index.inserted(id, vector, distance, m, ef_construction);
    law_insert_keeps_index_valid(index, id, vector, distance, dimensions, m, ef_construction);
    law_insert_stores_one_vector(index, id, vector, distance, dimensions, m, ef_construction);
    match index.entry {
        None => {
            assert forall|a: Seq<char>| #[trigger] after.vectors.contains_key(a) implies a == id by {
                assert(!index.vectors.dom().contains(a));
            }
            assert(after.links[id] =~= Seq::empty());
            let path = seq![id];
            assert(is_path(path, after.links, after.vectors.dom()));
            assert(path[0] == id && path.last() == id);
            assert(reachable(id, id, after.links, after.vectors.dom()));
        },
        Some(entry) => {
            law_new_vector_is_linked_both_ways(
                index,
                id,
                vector,
                distance,
                dimensions,
                m,
                ef_construction,
            );
            lemma_unpruned_lists(index, id, after, vector, distance, m);
            lemma_connected_to_new(index, id, after, entry, dimensions, m);
        },
    }
}

/// Where no list is pruned, old links stay and lists stay short.
proof fn lemma_unpruned_lists<T>(
    index: IndexView<T>,
    id: Seq<char>,
    after: IndexView<T>,
    vector: Seq<T>,
    distance: spec_fn(Seq<T>, Seq<T>) -> i32,
    m: nat,
)
    requires
        index.vectors.dom().finite(),
        has_short_lists(index),
        index.vectors.len() <= 2 * m,
        !index.vectors.contains_key(id),
        after.vectors == index.vectors.insert(id, vector),
        after.links[id].no_duplicates(),
        forall|other: Seq<char>| #[trigger]
            after.links[id].contains(other) ==> {
                &&& index.vectors.contains_key(other)
                &&& after.links[other] == linked_back(
                    other,
                    index.links[other],
                    id,
                    after.vectors,
                    distance,
                    m,
                )
            },
        forall|other: Seq<char>|
            other != id && !after.links[id].contains(other) ==> #[trigger] after.links[other]
                == index.links[other],
    ensures
        has_short_lists(after),
        forall|other: Seq<char>| #[trigger]
            after.links[id].contains(other) ==> after.links[other] == index.links[other].push(id),
        forall|a: Seq<char>, to: Seq<char>|
            index.vectors.contains_key(a) && #[trigger] index.links[a].contains(to)
                ==> after.links[a].contains(to),
{
    let linked = after.links[id];
    assert forall|other: Seq<char>| #[trigger] linked.contains(other) implies after.links[other]
        == index.links[other].push(id) by {
        assert(index.vectors.contains_key(other));
    }
    assert forall|a: Seq<char>, to: Seq<char>|
        index.vectors.contains_key(a) && #[trigger] index.links[a].contains(
            to,
        ) implies after.links[a].contains(to) by {
        if linked.contains(a) {
            let i = choose|i: int| 0 <= i < index.links[a].len() && index.links[a][i] == to;
            assert(after.links[a][i] == to);
        } else {
            assert(after.links[a] == index.links[a]);
        }
    }
    linked.unique_seq_to_set();
    assert forall|x: Seq<char>| linked.to_set().contains(x) implies index.vectors.dom().contains(
        x,
    ) by {
        assert(linked.contains(x));
    }
    assert(linked.to_set().subset_of(index.vectors.dom()));
    vstd::set_lib::lemma_len_subset(linked.to_set(), index.vectors.dom());
    assert forall|a: Seq<char>| #[trigger] after.vectors.contains_key(a) implies after.links[a].len()
        < after.vectors.len() by {
        if a != id {
            assert(index.vectors.contains_key(a));
            if !linked.contains(a) {
                assert(after.links[a] == index.links[a]);
            }
        }
    }
}

/// Where no list is pruned, links lead to the new vector over one that it is linked with.
proof fn lemma_connected_to_new<T>(
    index: IndexView<T>,
    id: Seq<char>,
    after: IndexView<T>,
    entry: Seq<char>,
    dimensions: nat,
    m: nat,
)
    requires
        index.valid(dimensions, m),
        after.valid(dimensions, m),
        connected(index),
        index.entry == Some(entry),
        after.entry == Some(entry),
        index.vectors.len() <= 2 * m,
        !index.vectors.contains_key(id),
        after.vectors.dom() == index.vectors.dom().insert(id),
        forall|other: Seq<char>| #[trigger]
            after.links[id].contains(other) ==> {
                &&& index.vectors.contains_key(other)
                &&& after.links[other] == index.links[other].push(id)
            },
        after.links[id].len() < m ==> forall|other: Seq<char>| #[trigger]
            reachable(
                entry,
                other,
                index.links.insert(id, Seq::empty()),
                after.vectors.dom(),
            ) ==> after.links[id].contains(other),
        forall|a: Seq<char>, to: Seq<char>|
            index.vectors.contains_key(a) && #[trigger] index.links[a].contains(to)
                ==> after.links[a].contains(to),
    ensures
        connected(after),
{
    let linked = after.links[id];
    assert(linked.len() > 0) by {
        if linked.len() == 0 {
            assert(index.vectors.dom().contains(entry));
            vstd::set_lib::lemma_len_subset(set![entry], index.vectors.dom());
            assert(m > 0);
            let path = seq![entry];
            let links = index.links.insert(id, Seq::empty());
            assert(is_path(path, links, after.vectors.dom()));
            assert(path[0] == entry && path.last() == entry);
            assert(reachable(entry, entry, links, after.vectors.dom()));
            assert(linked.contains(entry));
        }
    }
    let other = linked[0];
    assert(linked.contains(other));
    assert forall|a: Seq<char>| #[trigger] after.vectors.contains_key(a) implies reachable(
        entry,
        a,
        after.links,
        after.vectors.dom(),
    ) by {
        if a != id {
            assert(after.vectors.dom().contains(a));
            assert(index.vectors.contains_key(a));
            lemma_reachable_grows(index, after, entry, a);
        } else {
            assert(index.vectors.contains_key(other));
            lemma_reachable_grows(index, after, entry, other);
            let path = choose|path: Seq<Seq<char>>|
                #[trigger] is_path(path, after.links, after.vectors.dom()) && path[0] == entry
                    && path.last() == other;
            let longer = path.push(id);
            assert(after.links[other][index.links[other].len() as int] == id);
            assert(after.links[other].contains(id));
            assert forall|i: int| 0 <= i < longer.len() implies after.vectors.dom().contains(
                #[trigger] longer[i],
            ) by {
                if i < path.len() {
                    assert(longer[i] == path[i]);
                }
            }
            assert forall|i: int|
                #![trigger longer[i]]
                0 <= i < longer.len() - 1 implies after.links.contains_key(longer[i])
                && after.links[longer[i]].contains(longer[i + 1]) by {
                assert(longer[i] == path[i]);
                if i < path.len() - 1 {
                    assert(longer[i + 1] == path[i + 1]);
                } else {
                    assert(longer[i] == other);
                    assert(after.vectors.dom().contains(path[i]));
                }
            }
            assert(is_path(longer, after.links, after.vectors.dom()));
            assert(longer[0] == entry && longer.last() == id);
        }
    }
}

/// In an index whose links lead to every vector, a search without a threshold returns `k`
/// results, or every vector if there are fewer, and with a beam as wide as the index it
/// is exact.
pub proof fn law_connected_search_returns_k<T>(
    index: IndexView<T>,
    query: Seq<T>,
    k: nat,
    ef: nat,
    distance: spec_fn(Seq<T>, Seq<T>) -> i32,
    dimensions: nat,
    m: nat,
)
    requires
        index.valid(dimensions, m),
        connected(index),
    ensures
        index.hits(query, k, ef, None, distance).len() == if k < index.vectors.len() {
            k
        } else {
            index.vectors.len()
        },
        ef >= index.vectors.len() ==> are_the_nearest(
            index.hits(query, k, ef, None, distance),
            index,
            query,
            k,
            distance,
        ),
{
    let hits = index.hits(query, k, ef, None, distance);
    law_search_returns_near_stored_vectors(index, query, k, ef, None, distance, dimensions, m);
    lemma_hits_len(index, query, k, ef, distance, dimensions, m);
    if hits.len() < k {
        assert forall|id: Seq<char>| #[trigger] index.vectors.contains_key(id) implies holds_id(
            hits,
            id,
        ) by {
            law_short_search_returns_all_reachable(
                index,
                query,
                k,
                ef,
                distance,
                dimensions,
                m,
                id,
            );
        }
    }
    if ef >= index.vectors.len() {
        assert forall|id: Seq<char>, i: int|
            #![trigger index.vectors.contains_key(id), hits[i]]
            index.vectors.contains_key(id) && !holds_id(hits, id) && 0 <= i
                < hits.len() implies hits[i].distance <= distance(query, index.vectors[id]) by {
            law_wide_search_returns_the_nearest(
                index,
                query,
                k,
                ef,
                distance,
                dimensions,
                m,
                id,
            );
            assert(closer(hits[i], Ranked { distance: distance(query, index.vectors[id]), id }));
        }
    }
}

/// `states` are what an index goes through, from the empty one on, while new vectors are
/// stored in it and it does not hold more than `2 * m + 1` of them.
pub open spec fn is_growing_history<T>(
    states: Seq<IndexView<T>>,
    distance: spec_fn(Seq<T>, Seq<T>) -> i32,
    dimensions: nat,
    m: nat,
    ef_construction: nat,
) -> bool {
    &&& states.len() > 0
    &&& states[0] == IndexView::<T>::empty()
    &&& forall|i: int|
        0 <= i < states.len() ==> (#[trigger] states[i]).vectors.len() <= 2 * m + 1
    &&& forall|i: int|
        0 < i < states.len() ==> is_new_vector(
            states[i - 1],
            #[trigger] states[i],
            distance,
            dimensions,
            m,
            ef_construction,
        )
}

/// `after` is `before` with one new vector of the right dimensions.
pub open spec fn is_new_vector<T>(
    before: IndexView<T>,
    after: IndexView<T>,
    distance: spec_fn(Seq<T>, Seq<T>) -> i32,
    dimensions: nat,
    m: nat,
    ef_construction: nat,
) -> bool {
    exists|id: Seq<char>, vector: Seq<T>|
        !before.vectors.contains_key(id) && vector.len() == dimensions && after
            == #[trigger] before.inserted(id, vector, distance, m, ef_construction)
}

proof fn lemma_growing_history<T>(
    states: Seq<IndexView<T>>,
    n: int,
    distance: spec_fn(Seq<T>, Seq<T>) -> i32,
    dimensions: nat,
    m: nat,
    ef_construction: nat,
)
    requires
        is_growing_history(states, distance, dimensions, m, ef_construction),
        0 <= n < states.len(),
    ensures
        states[n].valid(dimensions, m),
        connected(states[n]),
        has_short_lists(states[n]),
    decreases n,
{
    if n == 0 {
        assert(states[0].vectors.dom() =~= Set::empty());
        assert(states[0].links.dom() =~= Set::empty());
    } else {
        lemma_growing_history(states, n - 1, distance, dimensions, m, ef_construction);
        let before = states[n - 1];
        let after = states[n];
        assert(is_new_vector(before, after, distance, dimensions, m, ef_construction));
        let (id, vector) = choose|id: Seq<char>, vector: Seq<T>|
            !before.vectors.contains_key(id) && vector.len() == dimensions && after
                == #[trigger] before.inserted(id, vector, distance, m, ef_construction);
        law_insert_stores_one_vector(before, id, vector, distance, dimensions, m, ef_construction);
        law_insert_keeps_index_valid(before, id, vector, distance, dimensions, m, ef_construction);
        law_unpruned_index_stays_connected_on_insert(
            before,
            id,
            vector,
            distance,
            dimensions,
            m,
            ef_construction,
        );
    }
}

/// An index that was only filled with new ids, up to `2 * m + 1` of them, stays fully
/// searchable: a search without a threshold returns `k` results, or every vector if there
/// are fewer, and with a beam as wide as the index it returns the `k` nearest of all.
pub proof fn law_growing_index_stays_searchable<T>(
    states: Seq<IndexView<T>>,
    query: Seq<T>,
    k: nat,
    ef: nat,
    distance: spec_fn(Seq<T>, Seq<T>) -> i32,
    dimensions: nat,
    m: nat,
    ef_construction: nat,
)
    requires
        is_growing_history(states, distance, dimensions, m, ef_construction),
    ensures
        states.last().hits(query, k, ef, None, distance).len() == if k
            < states.last().vectors.len() {
            k
        } else {
            states.last().vectors.len()
        },
        ef >= states.last().vectors.len() ==> are_the_nearest(
            states.last().hits(query, k, ef, None, distance),
            states.last(),
            query,
            k,
            distance,
        ),
{
    lemma_growing_history(states, states.len() - 1, distance, dimensions, m, ef_construction);
    law_connected_search_returns_k(states.last(), query, k, ef, distance, dimensions, m);
}

} // verus!
