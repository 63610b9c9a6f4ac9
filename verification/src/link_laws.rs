//! What storing, removing and searching change and find, link by link.

use crate::beam::{
    beam_search, is_path, law_links_of_results_are_followed, law_reachable_is_followed_link_by_link,
    law_search_covers_reachable, law_search_gives_the_closest_visited, reachable,
};
use crate::index_laws::{
    law_search_finds_nothing_only_in_an_empty_index, law_search_returns_near_stored_vectors,
    law_wide_search_returns_a_strictly_nearest_vector_first, law_wide_search_returns_the_nearest,
    lemma_reachable_grows,
};
use crate::index_model::{
    accepted, connect_all, distances_to, ids_of, law_insert_keeps_index_valid, other_than, prune,
    within, without, IndexView,
};
use crate::lists::{at_most, lemma_filter_keeps_all};
use crate::ranking::{closer, holds_id, is_ranked, Ranked};
use crate::sorting::{law_stable_order_lists_positions_by_key, lemma_stable_order, lemma_stable_order_lists, stable_order};
use vstd::prelude::*;

verus! {

/// An index searches its links from its entry point, and ranks each stored vector by its
/// distance to the query, the query first.
pub proof fn law_index_searches_its_own_links<T>(
    index: IndexView<T>,
    query: Seq<T>,
    ef: nat,
    distance: spec_fn(Seq<T>, Seq<T>) -> i32,
    distances: Map<Seq<char>, i32>,
)
    requires
        distances.dom() == index.vectors.dom(),
        forall|id: Seq<char>| #[trigger]
            index.vectors.contains_key(id) ==> distances[id] == distance(query, index.vectors[id]),
    ensures
        index.nearest(query, ef, distance) == beam_search(
            index.entry,
            index.links,
            distances,
            ef,
        ),
{
    let measured = distances_to(query, index.vectors, distance);
    assert forall|id: Seq<char>| distances.dom().contains(id) implies distances[id]
        == #[trigger] measured[id] by {
        assert(index.vectors.contains_key(id));
    }
    assert(measured =~= distances);
}

/// A search returns the first `k` of what it finds with its beam, or with a beam of `k` if
/// that is wider.
pub proof fn law_search_returns_the_first_k_found<T>(
    index: IndexView<T>,
    query: Seq<T>,
    k: nat,
    ef: nat,
    distance: spec_fn(Seq<T>, Seq<T>) -> i32,
)
    ensures
        ({
            let hits = index.hits(query, k, ef, None, distance);
            let found = index.nearest(
                query,
                if ef >= k {
                    ef
                } else {
                    k
                },
                distance,
            );
            &&& hits.len() == if k < found.len() {
                k
            } else {
                found.len()
            }
            &&& forall|i: int| 0 <= i < hits.len() ==> #[trigger] hits[i] == found[i]
        }),
{
    let beam = if ef >= k {
        ef
    } else {
        k
    };
    lemma_filter_keeps_all(at_most(index.nearest(query, beam, distance), k), within(None));
}

/// Asking for fewer results with the same beam gives the beginning of the same list.
pub proof fn law_fewer_results_are_the_first_ones<T>(
    index: IndexView<T>,
    query: Seq<T>,
    k: nat,
    more: nat,
    ef: nat,
    distance: spec_fn(Seq<T>, Seq<T>) -> i32,
)
    requires
        k <= more <= ef,
    ensures
        ({
            let few = index.hits(query, k, ef, None, distance);
            let many = index.hits(query, more, ef, None, distance);
            &&& few.len() == if k < many.len() {
                k
            } else {
                many.len()
            }
            &&& few == many.take(few.len() as int)
        }),
{
    law_search_returns_the_first_k_found(index, query, k, ef, distance);
    law_search_returns_the_first_k_found(index, query, more, ef, distance);
    let few = index.hits(query, k, ef, None, distance);
    let many = index.hits(query, more, ef, None, distance);
    assert(few =~= many.take(few.len() as int));
}

/// A threshold cuts the results off where they get further than it: those up to it are
/// returned, the equally far ones included, and those beyond it are not.
pub proof fn law_threshold_cuts_the_results_off<T>(
    index: IndexView<T>,
    query: Seq<T>,
    k: nat,
    ef: nat,
    threshold: i32,
    distance: spec_fn(Seq<T>, Seq<T>) -> i32,
    dimensions: nat,
    m: nat,
)
    requires
        index.valid(dimensions, m),
    ensures
        ({
            let near = index.hits(query, k, ef, Some(threshold), distance);
            let all = index.hits(query, k, ef, None, distance);
            &&& near.len() <= all.len()
            &&& near == all.take(near.len() as int)
            &&& forall|i: int| 0 <= i < near.len() ==> (#[trigger] near[i]).distance <= threshold
            &&& forall|i: int|
                near.len() <= i < all.len() ==> (#[trigger] all[i]).distance > threshold
        }),
{
    law_search_returns_near_stored_vectors(index, query, k, ef, None, distance, dimensions, m);
    let beam = if ef >= k {
        ef
    } else {
        k
    };
    let list = at_most(index.nearest(query, beam, distance), k);
    lemma_filter_keeps_all(list, within(None));
    lemma_cut_off(list, threshold);
}

proof fn lemma_cut_off(list: Seq<Ranked>, threshold: i32)
    requires
        is_ranked(list),
    ensures
        ({
            let near = list.filter(within(Some(threshold)));
            &&& near.len() <= list.len()
            &&& near == list.take(near.len() as int)
            &&& forall|i: int| 0 <= i < near.len() ==> (#[trigger] near[i]).distance <= threshold
            &&& forall|i: int|
                near.len() <= i < list.len() ==> (#[trigger] list[i]).distance > threshold
        }),
    decreases list.len(),
{
    reveal(Seq::filter);
    if list.len() > 0 {
        let front = list.drop_last();
        let last = list.last();
        let before = front.filter(within(Some(threshold)));
        let near = list.filter(within(Some(threshold)));
        assert(is_ranked(front));
        lemma_cut_off(front, threshold);
        if last.distance <= threshold {
            assert(before.len() == front.len()) by {
                if before.len() < front.len() {
                    let i = before.len() as int;
                    assert(front[i].distance > threshold);
                    assert(closer(list[i], list[list.len() - 1]));
                    assert(list[i] == front[i]);
                }
            }
            assert(near =~= list);
            assert(near =~= list.take(near.len() as int));
            assert forall|i: int| 0 <= i < near.len() implies (#[trigger] near[i]).distance
                <= threshold by {
                if i < front.len() {
                    assert(near[i] == before[i]);
                }
            }
        } else {
            assert(near == before);
            assert(near =~= list.take(near.len() as int));
            assert forall|i: int| near.len() <= i < list.len() implies (
            #[trigger] list[i]).distance > threshold by {
                if i < front.len() {
                    assert(front[i] == list[i]);
                }
            }
        }
    }
}

/// No vector that a result links to is nearer than the results: it is one of them, or there
/// are `k` that are all at least as near.
pub proof fn law_no_neighbour_of_a_result_is_nearer<T>(
    index: IndexView<T>,
    query: Seq<T>,
    k: nat,
    ef: nat,
    distance: spec_fn(Seq<T>, Seq<T>) -> i32,
    dimensions: nat,
    m: nat,
    x: int,
    to: Seq<char>,
)
    requires
        index.valid(dimensions, m),
        0 <= x < index.hits(query, k, ef, None, distance).len(),
        index.links[index.hits(query, k, ef, None, distance)[x].id].contains(to),
    ensures
        ({
            let hits = index.hits(query, k, ef, None, distance);
            ||| exists|j: int| 0 <= j < hits.len() && (#[trigger] hits[j]).id == to
            ||| hits.len() == k && forall|j: int|
                0 <= j < hits.len() ==> (#[trigger] hits[j]).distance <= distance(
                    query,
                    index.vectors[to],
                )
        }),
{
    let beam = if ef >= k {
        ef
    } else {
        k
    };
    let hits = index.hits(query, k, ef, None, distance);
    let found = index.nearest(query, beam, distance);
    let distances = distances_to(query, index.vectors, distance);
    assert(distances.dom() =~= index.vectors.dom());
    law_search_returns_the_first_k_found(index, query, k, ef, distance);
    law_search_returns_near_stored_vectors(index, query, k, ef, None, distance, dimensions, m);
    let result = hits[x].id;
    assert(index.vectors.contains_key(result));
    let at = choose|at: int| 0 <= at < index.links[result].len() && index.links[result][at] == to;
    assert(index.links.contains_key(result));
    assert(index.vectors.contains_key(index.links[result][at]));
    match index.entry {
        Some(entry) => {
            assert(hits[x] == found[x]);
            law_search_gives_the_closest_visited(entry, index.links, distances, beam);
            law_links_of_results_are_followed(entry, index.links, distances, beam, x, to);
            if exists|j: int| 0 <= j < found.len() && (#[trigger] found[j]).id == to {
                let j = choose|j: int| 0 <= j < found.len() && (#[trigger] found[j]).id == to;
                if j < hits.len() {
                    assert(hits[j].id == to);
                } else {
                    assert forall|i: int| 0 <= i < hits.len() implies (
                    #[trigger] hits[i]).distance <= distance(query, index.vectors[to]) by {
                        assert(closer(found[i], found[j]));
                    }
                }
            } else {
                assert forall|i: int| 0 <= i < hits.len() implies (#[trigger] hits[i]).distance
                    <= distance(query, index.vectors[to]) by {
                    assert(hits[i] == found[i]);
                }
            }
        },
        None => {
            assert(index.vectors.dom().contains(result));
        },
    }
}

/// Pruning the links of a stored vector keeps `m` of those that lead to stored vectors, or
/// all if there are fewer: the closest to it, in order of their distance, and of equally
/// close ones those that stand first. The links of a vector that is not stored are cut
/// down to the latest `m`.
pub proof fn law_prune_keeps_the_m_closest<T>(
    owner: Seq<char>,
    links: Seq<Seq<char>>,
    vectors: Map<Seq<char>, Seq<T>>,
    distance: spec_fn(Seq<T>, Seq<T>) -> i32,
    m: nat,
)
    ensures
        vectors.contains_key(owner) ==> exists|places: Seq<int>|
            {
                let stored = links.filter(|id: Seq<char>| vectors.contains_key(id));
                let kept = prune(owner, links, vectors, distance, m);
                let far = |p: int| distance(vectors[owner], vectors[stored[p]]);
                &&& places.len() == kept.len()
                &&& #[trigger] places.no_duplicates()
                &&& kept.len() == if m < stored.len() {
                    m
                } else {
                    stored.len()
                }
                &&& forall|i: int|
                    0 <= i < kept.len() ==> 0 <= #[trigger] places[i] < stored.len() && kept[i]
                        == stored[places[i]]
                &&& forall|i: int, j: int|
                    0 <= i < j < kept.len() ==> {
                        ||| far(#[trigger] places[i]) < far(#[trigger] places[j])
                        ||| far(places[i]) == far(places[j]) && places[i] < places[j]
                    }
                &&& forall|p: int, i: int|
                    #![trigger stored[p], places[i]]
                    0 <= p < stored.len() && !places.contains(p) && 0 <= i < kept.len() ==> {
                        ||| far(places[i]) < far(p)
                        ||| far(places[i]) == far(p) && places[i] < p
                    }
            },
        !vectors.contains_key(owner) && m <= links.len() ==> prune(
            owner,
            links,
            vectors,
            distance,
            m,
        ) == links.skip(links.len() - m),
{
    if vectors.contains_key(owner) {
        let stored = links.filter(|id: Seq<char>| vectors.contains_key(id));
        let keys = stored.map_values(|id: Seq<char>| distance(vectors[owner], vectors[id]));
        let kept = prune(owner, links, vectors, distance, m);
        let order = stable_order(keys);
        law_stable_order_lists_positions_by_key(keys);
        let places = order.take(kept.len() as int);
        let far = |p: int| distance(vectors[owner], vectors[stored[p]]);
        assert(places.no_duplicates());
        assert forall|i: int| 0 <= i < kept.len() implies 0 <= #[trigger] places[i] < stored.len()
            && kept[i] == stored[places[i]] by {
            assert(places[i] == order[i]);
        }
        assert forall|i: int, j: int| 0 <= i < j < kept.len() implies {
            ||| far(#[trigger] places[i]) < far(#[trigger] places[j])
            ||| far(places[i]) == far(places[j]) && places[i] < places[j]
        } by {
            assert(places[i] == order[i] && places[j] == order[j]);
        }
        assert forall|p: int, i: int|
            #![trigger stored[p], places[i]]
            0 <= p < stored.len() && !places.contains(p) && 0 <= i < kept.len() implies {
            ||| far(places[i]) < far(p)
            ||| far(places[i]) == far(p) && places[i] < p
        } by {
            lemma_stable_order(keys);
            lemma_stable_order_lists(keys, order, p);
            let r = choose|r: int| 0 <= r < order.len() && order[r] == p;
            if r < kept.len() {
                assert(places[r] == p);
            }
            assert(places[i] == order[i]);
            assert(keys[order[i]] == far(places[i]) && keys[order[r]] == far(p));
        }
    }
}

/// What linking `id` with `others` in turn makes of the links: each other gets `id` behind
/// its links, pruned if they are then more than `2 * m`, and `id` gets the others behind its
/// own. Where `id` is one of them it gets itself twice.
proof fn lemma_connect_all_links<T>(
    links: Map<Seq<char>, Seq<Seq<char>>>,
    id: Seq<char>,
    others: Seq<Seq<char>>,
    vectors: Map<Seq<char>, Seq<T>>,
    distance: spec_fn(Seq<T>, Seq<T>) -> i32,
    m: nat,
)
    requires
        links.contains_key(id),
        links[id].len() == 0,
        others.len() <= m,
        others.no_duplicates(),
        forall|i: int| 0 <= i < others.len() ==> links.contains_key(#[trigger] others[i]),
    ensures
        ({
            let after = connect_all(links, id, others, vectors, distance, m);
            &&& after.dom() == links.dom()
            &&& !others.contains(id) ==> after[id] == others
            &&& forall|p: int|
                0 <= p < others.len() && #[trigger] others[p] == id ==> after[id] == others.take(
                    p + 1,
                ) + seq![id] + others.skip(p + 1)
            &&& forall|i: int|
                0 <= i < others.len() && others[i] != id ==> {
                    let back = links[others[i]].push(id);
                    after[#[trigger] others[i]] == if back.len() > 2 * m {
                        prune(others[i], back, vectors, distance, m)
                    } else {
                        back
                    }
                }
            &&& forall|other: Seq<char>|
                other != id && !others.contains(other) ==> #[trigger] after[other] == links[other]
        }),
    decreases others.len(),
{
    let after = connect_all(links, id, others, vectors, distance, m);
    if others.len() == 0 {
        assert(links[id] =~= others);
    } else {
        let front = others.drop_last();
        let last = others.last();
        assert(last == others[others.len() - 1]);
        assert(others.contains(last));
        assert forall|x: Seq<char>| #[trigger] front.contains(x) implies others.contains(x) && x
            != last by {
            let i = choose|i: int| 0 <= i < front.len() && front[i] == x;
            assert(others[i] == x);
        }
        assert forall|x: Seq<char>| #[trigger] others.contains(x) && x
            != last implies front.contains(x) by {
            let i = choose|i: int| 0 <= i < others.len() && others[i] == x;
            assert(front[i] == x);
        }
        assert forall|i: int| 0 <= i < front.len() implies links.contains_key(
            #[trigger] front[i],
        ) by {
            assert(front[i] == others[i]);
        }
        lemma_connect_all_links(links, id, front, vectors, distance, m);
        let mid = connect_all(links, id, front, vectors, distance, m);
        assert(!front.contains(last));
        assert(after.dom() =~= links.dom());
        if last == id {
            assert(!front.contains(id));
            assert(mid[id] == front);
            let twice = front.push(id).push(id);
            assert(twice.len() <= 2 * m);
            assert(after[id] == twice);
            assert forall|p: int|
                0 <= p < others.len() && #[trigger] others[p] == id implies after[id]
                == others.take(p + 1) + seq![id] + others.skip(p + 1) by {
                assert(p == others.len() - 1);
                assert(twice =~= others.take(p + 1) + seq![id] + others.skip(p + 1));
            }
        } else {
            assert(mid[last] == links[last]);
            assert(after[id] == mid[id].push(last));
            if !others.contains(id) {
                assert(!front.contains(id));
                assert(after[id] =~= others);
            }
            assert forall|p: int|
                0 <= p < others.len() && #[trigger] others[p] == id implies after[id]
                == others.take(p + 1) + seq![id] + others.skip(p + 1) by {
                assert(front[p] == id);
                assert(after[id] =~= others.take(p + 1) + seq![id] + others.skip(p + 1));
            }
        }
        assert forall|i: int| 0 <= i < others.len() && others[i] != id implies {
            let back = links[others[i]].push(id);
            after[#[trigger] others[i]] == if back.len() > 2 * m {
                prune(others[i], back, vectors, distance, m)
            } else {
                back
            }
        } by {
            if i < front.len() {
                assert(front[i] == others[i]);
                assert(front.contains(others[i]));
                assert(after[others[i]] == mid[others[i]]);
            }
        }
        assert forall|other: Seq<char>| other != id && !others.contains(
            other,
        ) implies #[trigger] after[other] == links[other] by {
            assert(!front.contains(other));
            assert(mid[other] == links[other]);
        }
    }
}

/// The index with `vector` under `id` before it is linked: whatever links `id` had are gone,
/// and every other link, those to `id` included, is there.
pub open spec fn stored_unlinked<T>(
    index: IndexView<T>,
    id: Seq<char>,
    vector: Seq<T>,
) -> IndexView<T> {
    IndexView {
        vectors: index.vectors.insert(id, vector),
        links: index.links.insert(id, Seq::empty()),
        entry: index.entry,
    }
}

/// Storing a vector, whether its id is new or known, links it with the `m` nearest that a
/// search for it finds, with a beam of `ef_construction` and at least `m`, while it has no
/// links of its own: these become its links, in order, and each of them links back to it,
/// behind the links that it has, of which only the `m` closest stay if they are then more
/// than `2 * m`. No other vector's links change, whether they lead to it or not. A vector
/// that finds itself links to itself twice.
pub proof fn law_stored_vector_is_linked_with_the_nearest_found<T>(
    index: IndexView<T>,
    id: Seq<char>,
    vector: Seq<T>,
    distance: spec_fn(Seq<T>, Seq<T>) -> i32,
    dimensions: nat,
    m: nat,
    ef_construction: nat,
)
    requires
        index.valid(dimensions, m),
        index.entry is Some,
        vector.len() == dimensions,
    ensures
        ({
            let after = index.inserted(id, vector, distance, m, ef_construction);
            let near = stored_unlinked(index, id, vector).hits(
                vector,
                m,
                ef_construction,
                None,
                distance,
            ).map_values(|x: Ranked| x.id);
            &&& after.vectors == index.vectors.insert(id, vector)
            &&& after.entry == index.entry
            &&& !near.contains(id) ==> after.links[id] == near
            &&& forall|p: int|
                0 <= p < near.len() && #[trigger] near[p] == id ==> after.links[id] == near.take(
                    p + 1,
                ) + seq![id] + near.skip(p + 1)
            &&& forall|other: Seq<char>| #[trigger]
                near.contains(other) && other != id ==> {
                    &&& index.vectors.contains_key(other)
                    &&& index.links[other].len() < 2 * m ==> after.links[other]
                        == index.links[other].push(id)
                    &&& index.links[other].len() >= 2 * m ==> after.links[other] == prune(
                        other,
                        index.links[other].push(id),
                        after.vectors,
                        distance,
                        m,
                    )
                }
            &&& forall|other: Seq<char>|
                other != id && !near.contains(other) ==> #[trigger] after.links[other]
                    == index.links[other]
        }),
{
    let after = index.inserted(id, vector, distance, m, ef_construction);
    let entry = index.entry->0;
    let stored = stored_unlinked(index, id, vector);
    let near = stored.hits(vector, m, ef_construction, None, distance).map_values(
        |x: Ranked| x.id,
    );
    lemma_stored_unlinked_valid(index, id, vector, dimensions, m);
    let beam = if ef_construction >= m {
        ef_construction
    } else {
        m
    };
    let found = stored.nearest(vector, beam, distance);
    law_search_returns_the_first_k_found(stored, vector, m, ef_construction, distance);
    law_search_returns_near_stored_vectors(
        stored,
        vector,
        m,
        ef_construction,
        None,
        distance,
        dimensions,
        m,
    );
    let hits = stored.hits(vector, m, ef_construction, None, distance);
    assert(hits =~= at_most(found, m));
    assert(near =~= ids_of(at_most(found, m)));
    assert(near.no_duplicates()) by {
        assert forall|i: int, j: int|
            0 <= i < near.len() && 0 <= j < near.len() && i != j implies near[i] != near[j] by {
            let (a, b) = if i < j { (i, j) } else { (j, i) };
            assert(hits[a].id != hits[b].id);
        }
    }
    assert forall|i: int| 0 <= i < near.len() implies stored.links.contains_key(
        #[trigger] near[i],
    ) by {
        assert(stored.vectors.contains_key(hits[i].id));
    }
    lemma_connect_all_links(stored.links, id, near, stored.vectors, distance, m);
    assert forall|other: Seq<char>| #[trigger] near.contains(other) && other != id implies {
        &&& index.vectors.contains_key(other)
        &&& index.links[other].len() < 2 * m ==> after.links[other] == index.links[other].push(id)
        &&& index.links[other].len() >= 2 * m ==> after.links[other] == prune(
            other,
            index.links[other].push(id),
            after.vectors,
            distance,
            m,
        )
    } by {
        let i = choose|i: int| 0 <= i < near.len() && near[i] == other;
        assert(stored.vectors.contains_key(hits[i].id));
        assert(stored.links[other] == index.links[other]);
        assert(after.links[near[i]] == after.links[other]);
    }
    assert forall|other: Seq<char>| other != id && !near.contains(
        other,
    ) implies #[trigger] after.links[other] == index.links[other] by {
        assert(stored.links[other] == index.links[other]);
    }
}

proof fn lemma_stored_unlinked_valid<T>(
    index: IndexView<T>,
    id: Seq<char>,
    vector: Seq<T>,
    dimensions: nat,
    m: nat,
)
    requires
        index.valid(dimensions, m),
        index.entry is Some,
        vector.len() == dimensions,
    ensures
        stored_unlinked(index, id, vector).valid(dimensions, m),
{
    let stored = stored_unlinked(index, id, vector);
    assert(stored.links.dom() =~= stored.vectors.dom());
    assert forall|o: Seq<char>, i: int|
        stored.links.contains_key(o) && 0 <= i
            < stored.links[o].len() implies stored.vectors.contains_key(
        #[trigger] stored.links[o][i],
    ) by {
        if o != id {
            assert(stored.links[o][i] == index.links[o][i]);
        }
    }
}

/// The first vector is stored without links, and searches start at it.
pub proof fn law_first_vector_becomes_the_entry_point<T>(
    index: IndexView<T>,
    id: Seq<char>,
    vector: Seq<T>,
    distance: spec_fn(Seq<T>, Seq<T>) -> i32,
    m: nat,
    ef_construction: nat,
)
    requires
        index.entry is None,
    ensures
        ({
            let after = index.inserted(id, vector, distance, m, ef_construction);
            &&& after.entry == Some(id)
            &&& after.vectors == index.vectors.insert(id, vector)
            &&& after.links == index.links.insert(id, Seq::empty())
        }),
{
}

/// The vectors that a search for the neighbours of `vector` finds when it is stored under
/// `id`, the `m` nearest of them.
pub open spec fn neighbours_found<T>(
    index: IndexView<T>,
    id: Seq<char>,
    vector: Seq<T>,
    distance: spec_fn(Seq<T>, Seq<T>) -> i32,
    m: nat,
    ef_construction: nat,
) -> Seq<Seq<char>> {
    stored_unlinked(index, id, vector).hits(
        vector,
        m,
        ef_construction,
        None,
        distance,
    ).map_values(|x: Ranked| x.id)
}

/// As long as no neighbour that is found for a vector has a full list of links, which would
/// be pruned, storing the vector takes no link from any other vector.
proof fn lemma_links_are_kept<T>(
    index: IndexView<T>,
    id: Seq<char>,
    vector: Seq<T>,
    distance: spec_fn(Seq<T>, Seq<T>) -> i32,
    dimensions: nat,
    m: nat,
    ef_construction: nat,
)
    requires
        index.valid(dimensions, m),
        index.entry is Some,
        vector.len() == dimensions,
        forall|other: Seq<char>| #[trigger]
            neighbours_found(index, id, vector, distance, m, ef_construction).contains(other)
                && other != id ==> index.links[other].len() < 2 * m,
    ensures
        forall|from: Seq<char>, to: Seq<char>|
            from != id && index.vectors.contains_key(from) && #[trigger] index.links[from].contains(
                to,
            ) ==> index.inserted(
                id,
                vector,
                distance,
                m,
                ef_construction,
            ).links[from].contains(to),
{
    let after = index.inserted(id, vector, distance, m, ef_construction);
    let near = neighbours_found(index, id, vector, distance, m, ef_construction);
    law_stored_vector_is_linked_with_the_nearest_found(
        index,
        id,
        vector,
        distance,
        dimensions,
        m,
        ef_construction,
    );
    assert forall|from: Seq<char>, to: Seq<char>|
        from != id && index.vectors.contains_key(from) && #[trigger] index.links[from].contains(
            to,
        ) implies after.links[from].contains(to) by {
        let list = index.links[from];
        let at = choose|at: int| 0 <= at < list.len() && list[at] == to;
        if near.contains(from) {
            assert(after.links[from] == list.push(id));
            assert(after.links[from][at] == to);
        } else {
            assert(after.links[from] == list);
        }
    }
}

/// A vector that links lead to is returned by a search with a beam as wide as the index,
/// among as many results, and as the first result if no other vector is as near.
proof fn lemma_within_reach_is_found<T>(
    index: IndexView<T>,
    id: Seq<char>,
    distance: spec_fn(Seq<T>, Seq<T>) -> i32,
    dimensions: nat,
    m: nat,
    query: Seq<T>,
    k: nat,
    ef: nat,
)
    requires
        index.valid(dimensions, m),
        index.entry is Some,
        reachable(index.entry->0, id, index.links, index.vectors.dom()),
        k > 0,
        ef >= index.vectors.len(),
    ensures
        ({
            let hits = index.hits(query, k, ef, None, distance);
            &&& k >= index.vectors.len() ==> exists|i: int|
                0 <= i < hits.len() && (#[trigger] hits[i]).id == id && hits[i].distance
                    == distance(query, index.vectors[id])
            &&& (forall|other: Seq<char>| #[trigger]
                index.vectors.contains_key(other) && other != id ==> distance(
                    query,
                    index.vectors[id],
                ) < distance(query, index.vectors[other])) ==> hits.len() > 0 && hits[0].id == id
                && hits[0].distance == distance(query, index.vectors[id])
        }),
{
    let hits = index.hits(query, k, ef, None, distance);
    law_search_returns_near_stored_vectors(index, query, k, ef, None, distance, dimensions, m);
    law_reachable_is_followed_link_by_link(
        index.entry->0,
        id,
        index.links,
        index.vectors.dom(),
    );
    if k >= index.vectors.len() {
        law_wide_search_returns_the_nearest(
            index,
            query,
            k,
            ef,
            distance,
            dimensions,
            m,
            id,
        );
        lemma_full_hits_hold_all(index, query, k, ef, distance, dimensions, m, id);
        let i = choose|i: int| 0 <= i < hits.len() && (#[trigger] hits[i]).id == id;
        assert(hits[i].id == id && hits[i].distance == distance(query, index.vectors[id]));
    }
    if forall|other: Seq<char>| #[trigger]
        index.vectors.contains_key(other) && other != id ==> distance(query, index.vectors[id])
            < distance(query, index.vectors[other]) {
        law_wide_search_returns_a_strictly_nearest_vector_first(
            index,
            query,
            k,
            ef,
            distance,
            dimensions,
            m,
            id,
        );
    }
}

/// Storing a vector leaves it within reach, whether its id is new or known: if it is not the
/// entry point, links lead to it from there afterwards, and so a search with a beam as wide
/// as the index returns it among as many results, and as the first result if no other
/// vector is as near to the query. This is so as long as no neighbour that is found for it
/// has a full list of links, as a full one is pruned.
pub proof fn law_stored_vector_is_within_reach<T>(
    index: IndexView<T>,
    id: Seq<char>,
    vector: Seq<T>,
    distance: spec_fn(Seq<T>, Seq<T>) -> i32,
    dimensions: nat,
    m: nat,
    ef_construction: nat,
    query: Seq<T>,
    k: nat,
    ef: nat,
)
    requires
        index.valid(dimensions, m),
        index.entry is Some,
        index.entry != Some(id),
        vector.len() == dimensions,
        m > 0,
        forall|other: Seq<char>| #[trigger]
            neighbours_found(index, id, vector, distance, m, ef_construction).contains(other)
                && other != id ==> index.links[other].len() < 2 * m,
        k > 0,
        ef >= index.vectors.insert(id, vector).len(),
    ensures
        ({
            let after = index.inserted(id, vector, distance, m, ef_construction);
            let hits = after.hits(query, k, ef, None, distance);
            &&& reachable(index.entry->0, id, after.links, after.vectors.dom())
            &&& k >= after.vectors.len() ==> exists|i: int|
                0 <= i < hits.len() && (#[trigger] hits[i]).id == id && hits[i].distance
                    == distance(query, vector)
            &&& (forall|other: Seq<char>| #[trigger]
                index.vectors.contains_key(other) && other != id ==> distance(query, vector)
                    < distance(query, index.vectors[other])) ==> hits.len() > 0 && hits[0].id == id
                && hits[0].distance == distance(query, vector)
        }),
{
    let after = index.inserted(id, vector, distance, m, ef_construction);
    let entry = index.entry->0;
    let stored = stored_unlinked(index, id, vector);
    let near = neighbours_found(index, id, vector, distance, m, ef_construction);
    let hits = stored.hits(vector, m, ef_construction, None, distance);
    law_stored_vector_is_linked_with_the_nearest_found(
        index,
        id,
        vector,
        distance,
        dimensions,
        m,
        ef_construction,
    );
    law_insert_keeps_index_valid(index, id, vector, distance, dimensions, m, ef_construction);
    lemma_links_are_kept(index, id, vector, distance, dimensions, m, ef_construction);
    lemma_stored_unlinked_valid(index, id, vector, dimensions, m);
    let beam = if ef_construction >= m {
        ef_construction
    } else {
        m
    };
    let distances = distances_to(vector, stored.vectors, distance);
    let found = stored.nearest(vector, beam, distance);
    assert(distances.dom() =~= stored.vectors.dom());
    law_search_returns_the_first_k_found(stored, vector, m, ef_construction, distance);
    law_search_finds_nothing_only_in_an_empty_index(stored, vector, beam, distance, dimensions, m);
    assert(stored.vectors.dom().contains(id));
    let first = near[0];
    assert(first == hits[0].id);
    assert(near.contains(first));
    assert forall|a: Seq<char>, to: Seq<char>|
        stored.vectors.contains_key(a) && #[trigger] stored.links[a].contains(
            to,
        ) implies after.links[a].contains(to) by {
        assert(a != id);
        assert(index.links[a].contains(to));
    }
    assert(found[0].id == first);
    law_search_covers_reachable(entry, stored.links, distances, beam, first);
    lemma_reachable_grows(stored, after, entry, first);
    if first != id {
        let list = after.links[first];
        assert(list == index.links[first].push(id));
        assert(list[index.links[first].len() as int] == id);
        assert(list.contains(id));
        law_reachable_is_followed_link_by_link(entry, id, after.links, after.vectors.dom());
    }
    lemma_nearest_of_others(index, id, vector, after, query, distance);
    lemma_within_reach_is_found(after, id, distance, dimensions, m, query, k, ef);
}

proof fn lemma_nearest_of_others<T>(
    index: IndexView<T>,
    id: Seq<char>,
    vector: Seq<T>,
    after: IndexView<T>,
    query: Seq<T>,
    distance: spec_fn(Seq<T>, Seq<T>) -> i32,
)
    requires
        after.vectors == index.vectors.insert(id, vector),
    ensures
        (forall|other: Seq<char>| #[trigger]
            index.vectors.contains_key(other) && other != id ==> distance(query, vector)
                < distance(query, index.vectors[other])) ==> (forall|other: Seq<char>| #[trigger]
            after.vectors.contains_key(other) && other != id ==> distance(
                query,
                after.vectors[id],
            ) < distance(query, after.vectors[other])),
{
    if forall|other: Seq<char>| #[trigger]
        index.vectors.contains_key(other) && other != id ==> distance(query, vector) < distance(
            query,
            index.vectors[other],
        ) {
        assert forall|other: Seq<char>| #[trigger] after.vectors.contains_key(other) && other
            != id implies distance(query, after.vectors[id]) < distance(
            query,
            after.vectors[other],
        ) by {
            assert(index.vectors.contains_key(other));
        }
    }
}

/// Storing again under a known id takes no link to it from any other vector: if links led
/// to it from the entry point, and it is not the entry point itself, they lead to it
/// afterwards, whatever `m` is, and a wide search finds it. This is so as long as no
/// neighbour that is found for it has a full list of links, as a full one is pruned.
pub proof fn law_vector_stored_again_stays_within_reach<T>(
    index: IndexView<T>,
    id: Seq<char>,
    vector: Seq<T>,
    distance: spec_fn(Seq<T>, Seq<T>) -> i32,
    dimensions: nat,
    m: nat,
    ef_construction: nat,
    query: Seq<T>,
    k: nat,
    ef: nat,
)
    requires
        index.valid(dimensions, m),
        index.entry is Some,
        index.entry != Some(id),
        vector.len() == dimensions,
        reachable(index.entry->0, id, index.links, index.vectors.dom()),
        forall|other: Seq<char>| #[trigger]
            neighbours_found(index, id, vector, distance, m, ef_construction).contains(other)
                && other != id ==> index.links[other].len() < 2 * m,
        k > 0,
        ef >= index.vectors.len(),
    ensures
        ({
            let after = index.inserted(id, vector, distance, m, ef_construction);
            let hits = after.hits(query, k, ef, None, distance);
            &&& forall|from: Seq<char>|
                from != id && index.vectors.contains_key(from)
                    && #[trigger] index.links[from].contains(id) ==> after.links[from].contains(id)
            &&& reachable(index.entry->0, id, after.links, after.vectors.dom())
            &&& k >= index.vectors.len() ==> exists|i: int|
                0 <= i < hits.len() && (#[trigger] hits[i]).id == id && hits[i].distance
                    == distance(query, vector)
            &&& (forall|other: Seq<char>| #[trigger]
                index.vectors.contains_key(other) && other != id ==> distance(query, vector)
                    < distance(query, index.vectors[other])) ==> hits.len() > 0 && hits[0].id == id
                && hits[0].distance == distance(query, vector)
        }),
{
    let after = index.inserted(id, vector, distance, m, ef_construction);
    let entry = index.entry->0;
    let stored = index.vectors.dom();
    law_stored_vector_is_linked_with_the_nearest_found(
        index,
        id,
        vector,
        distance,
        dimensions,
        m,
        ef_construction,
    );
    law_insert_keeps_index_valid(index, id, vector, distance, dimensions, m, ef_construction);
    lemma_links_are_kept(index, id, vector, distance, dimensions, m, ef_construction);
    let path = choose|path: Seq<Seq<char>>|
        #[trigger] is_path(path, index.links, stored) && path[0] == entry && path.last() == id;
    assert(stored.contains(path[path.len() - 1]));
    assert(after.vectors.dom() =~= stored);
    let n = first_place(path, id);
    lemma_first_place(path, id);
    let short = path.take(n + 1);
    assert forall|i: int| 0 <= i < short.len() implies after.vectors.dom().contains(
        #[trigger] short[i],
    ) by {
        assert(short[i] == path[i]);
    }
    assert forall|i: int|
        #![trigger short[i]]
        0 <= i < short.len() - 1 implies after.links.contains_key(short[i])
        && after.links[short[i]].contains(short[i + 1]) by {
        assert(short[i] == path[i] && short[i + 1] == path[i + 1]);
        assert(stored.contains(path[i]));
        assert(index.vectors.contains_key(path[i]));
        assert(path[i] != id);
        assert(index.links[path[i]].contains(path[i + 1]));
    }
    assert(is_path(short, after.links, after.vectors.dom()));
    assert(short[0] == entry && short.last() == id);
    lemma_nearest_of_others(index, id, vector, after, query, distance);
    lemma_within_reach_is_found(after, id, distance, dimensions, m, query, k, ef);
}

/// A list of as many distinct stored ids as there are holds them all.
proof fn lemma_full_hits_hold_all<T>(
    index: IndexView<T>,
    query: Seq<T>,
    k: nat,
    ef: nat,
    distance: spec_fn(Seq<T>, Seq<T>) -> i32,
    dimensions: nat,
    m: nat,
    id: Seq<char>,
)
    requires
        index.valid(dimensions, m),
        index.vectors.contains_key(id),
        k >= index.vectors.len(),
        index.hits(query, k, ef, None, distance).len() == k || holds_id(
            index.hits(query, k, ef, None, distance),
            id,
        ),
    ensures
        holds_id(index.hits(query, k, ef, None, distance), id),
{
    let hits = index.hits(query, k, ef, None, distance);
    law_search_returns_near_stored_vectors(index, query, k, ef, None, distance, dimensions, m);
    if hits.len() == k {
        let found = hits.map_values(|x: Ranked| x.id);
        assert(found.no_duplicates()) by {
            assert forall|i: int, j: int|
                0 <= i < found.len() && 0 <= j < found.len() && i != j implies found[i]
                != found[j] by {
                let (a, b) = if i < j { (i, j) } else { (j, i) };
                assert(hits[a].id != hits[b].id);
            }
        }
        found.unique_seq_to_set();
        assert forall|x: Seq<char>| found.to_set().contains(x) implies index.vectors.dom().contains(
            x,
        ) by {
            let i = choose|i: int| 0 <= i < found.len() && found[i] == x;
            assert(index.vectors.contains_key(hits[i].id));
        }
        assert(found.to_set().subset_of(index.vectors.dom()));
        vstd::set_lib::lemma_len_subset(found.to_set(), index.vectors.dom());
        vstd::set_lib::lemma_subset_equality(found.to_set(), index.vectors.dom());
        assert(index.vectors.dom().contains(id));
        assert(found.to_set().contains(id));
        let i = choose|i: int| 0 <= i < found.len() && found[i] == id;
        assert(hits[i].id == id);
    }
}

spec fn first_place(path: Seq<Seq<char>>, id: Seq<char>) -> int
    decreases path.len(),
{
    if path.len() == 0 || path[0] == id {
        0
    } else {
        1 + first_place(path.drop_first(), id)
    }
}

proof fn lemma_first_place(path: Seq<Seq<char>>, id: Seq<char>)
    requires
        path.len() > 0,
        path.last() == id,
    ensures
        0 <= first_place(path, id) < path.len(),
        path[first_place(path, id)] == id,
        forall|i: int| 0 <= i < first_place(path, id) ==> #[trigger] path[i] != id,
    decreases path.len(),
{
    if path[0] != id {
        let rest = path.drop_first();
        assert(rest.last() == path.last());
        lemma_first_place(rest, id);
        assert(rest[first_place(rest, id)] == path[first_place(rest, id) + 1]);
        assert forall|i: int| 0 <= i < first_place(path, id) implies #[trigger] path[i] != id by {
            if i > 0 {
                assert(rest[i - 1] == path[i]);
            }
        }
    }
}

/// A removal keeps every other link of every other vector, in order: its list afterwards
/// is the list before without the links to the removed id, and a list that did not name
/// the id is unchanged. Searches start where they did, unless they started at the removed
/// vector; then they start at one that is left, if there is any.
pub proof fn law_removal_keeps_every_other_link<T>(
    before: IndexView<T>,
    id: Seq<char>,
    after: IndexView<T>,
    other: Seq<char>,
    to: Seq<char>,
)
    requires
        before.removed(id, after),
        before.links.contains_key(other),
        other != id,
    ensures
        after.links.dom() == before.links.dom().remove(id),
        after.links[other] == before.links[other].filter(|link: Seq<char>| link != id),
        !before.links[other].contains(id) ==> after.links[other] == before.links[other],
        to != id ==> (after.links[other].contains(to) <==> before.links[other].contains(to)),
        !after.links[other].contains(id),
        before.entry != Some(id) ==> after.entry == before.entry,
        before.entry == Some(id) && after.entry is Some ==> after.vectors.contains_key(
            after.entry->0,
        ),
        before.entry == Some(id) && after.entry is None ==> after.vectors.dom() =~= Set::empty(),
        after.vectors == before.vectors.remove(id),
{
    let list = before.links[other];
    let elsewhere = |link: Seq<char>| link != id;
    assert(elsewhere =~= other_than(id));
    assert(after.links.dom() =~= before.links.dom().remove(id));
    assert(after.links[other] == without(list, id));
    assert(after.links[other] == list.filter(elsewhere));
    if !list.contains(id) {
        assert forall|i: int| 0 <= i < list.len() implies elsewhere(#[trigger] list[i]) by {
            assert(list.contains(list[i]));
        }
        lemma_filter_keeps_all(list, elsewhere);
    }
    if to != id {
        if list.contains(to) {
            let i = choose|i: int| 0 <= i < list.len() && list[i] == to;
            list.lemma_filter_contains(elsewhere, i);
        }
        if list.filter(elsewhere).contains(to) {
            list.lemma_filter_contains_rev(elsewhere, to);
        }
    }
    if list.filter(elsewhere).contains(id) {
        let i = choose|i: int| 0 <= i < list.filter(elsewhere).len() && list.filter(elsewhere)[i] == id;
        list.lemma_filter_pred(elsewhere, i);
    }
}

/// Whatever links led to over vectors other than the removed one, they lead to afterwards.
pub proof fn law_removal_keeps_paths_around_the_vector<T>(
    before: IndexView<T>,
    id: Seq<char>,
    after: IndexView<T>,
    path: Seq<Seq<char>>,
)
    requires
        before.removed(id, after),
        is_path(path, before.links, before.vectors.dom()),
        !path.contains(id),
    ensures
        is_path(path, after.links, after.vectors.dom()),
{
    assert forall|i: int| 0 <= i < path.len() implies after.vectors.dom().contains(
        #[trigger] path[i],
    ) by {
        assert(path.contains(path[i]));
        assert(before.vectors.dom().contains(path[i]));
    }
    assert forall|i: int|
        #![trigger path[i]]
        0 <= i < path.len() - 1 implies after.links.contains_key(path[i])
        && after.links[path[i]].contains(path[i + 1]) by {
        assert(path.contains(path[i]));
        assert(path.contains(path[i + 1]));
        law_removal_keeps_every_other_link(before, id, after, path[i], path[i + 1]);
    }
}

/// A batch is stored entry by entry: the index after one entry more is the index after the
/// others with that entry stored, for batches of any length.
pub proof fn law_batch_is_stored_entry_by_entry<T>(
    index: IndexView<T>,
    entries: Seq<(Seq<char>, Seq<T>)>,
    id: Seq<char>,
    vector: Seq<T>,
    distance: spec_fn(Seq<T>, Seq<T>) -> i32,
    m: nat,
    ef_construction: nat,
)
    ensures
        index.inserted_all(Seq::empty(), distance, m, ef_construction) == index,
        index.inserted_all(entries.push((id, vector)), distance, m, ef_construction)
            == index.inserted_all(entries, distance, m, ef_construction).inserted(
            id,
            vector,
            distance,
            m,
            ef_construction,
        ),
{
    assert(entries.push((id, vector)).drop_last() =~= entries);
}

/// A batch may be stored in two parts, one after the other.
pub proof fn law_batch_may_be_split<T>(
    index: IndexView<T>,
    first: Seq<(Seq<char>, Seq<T>)>,
    second: Seq<(Seq<char>, Seq<T>)>,
    distance: spec_fn(Seq<T>, Seq<T>) -> i32,
    m: nat,
    ef_construction: nat,
)
    ensures
        index.inserted_all(first + second, distance, m, ef_construction) == index.inserted_all(
            first,
            distance,
            m,
            ef_construction,
        ).inserted_all(second, distance, m, ef_construction),
    decreases second.len(),
{
    if second.len() == 0 {
        assert(first + second =~= first);
    } else {
        law_batch_may_be_split(index, first, second.drop_last(), distance, m, ef_construction);
        assert((first + second).drop_last() =~= first + second.drop_last());
        assert((first + second).last() == second.last());
    }
}

/// After a batch every id of it is stored with the components of its last entry, and every
/// other id as before.
pub proof fn law_batch_stores_the_last_of_each_id<T>(
    index: IndexView<T>,
    entries: Seq<(Seq<char>, Seq<T>)>,
    distance: spec_fn(Seq<T>, Seq<T>) -> i32,
    m: nat,
    ef_construction: nat,
    id: Seq<char>,
)
    ensures
        ({
            let after = index.inserted_all(entries, distance, m, ef_construction);
            &&& forall|i: int|
                0 <= i < entries.len() && (#[trigger] entries[i]).0 == id && (forall|j: int|
                    i < j < entries.len() ==> (#[trigger] entries[j]).0 != id)
                    ==> after.vectors.contains_key(id) && after.vectors[id] == entries[i].1
            &&& (forall|j: int| 0 <= j < entries.len() ==> (#[trigger] entries[j]).0 != id) ==> {
                &&& after.vectors.contains_key(id) == index.vectors.contains_key(id)
                &&& after.vectors[id] == index.vectors[id]
            }
            &&& index.entry is Some ==> after.entry == index.entry
            &&& index.entry is None && entries.len() > 0 ==> after.entry == Some(entries[0].0)
        }),
    decreases entries.len(),
{
    let after = index.inserted_all(entries, distance, m, ef_construction);
    if entries.len() > 0 {
        let front = entries.drop_last();
        let last = entries.len() - 1;
        law_batch_stores_the_last_of_each_id(index, front, distance, m, ef_construction, id);
        assert(entries.last() == entries[last]);
        assert forall|i: int|
            0 <= i < entries.len() && (#[trigger] entries[i]).0 == id && (forall|j: int|
                i < j < entries.len() ==> (
                #[trigger] entries[j]).0 != id) implies after.vectors.contains_key(id)
            && after.vectors[id] == entries[i].1 by {
            if i < last {
                assert(front[i] == entries[i]);
                assert(entries[last].0 != id);
                assert forall|j: int| i < j < front.len() implies (#[trigger] front[j]).0 != id by {
                    assert(front[j] == entries[j]);
                }
            }
        }
        if forall|j: int| 0 <= j < entries.len() ==> (#[trigger] entries[j]).0 != id {
            assert forall|j: int| 0 <= j < front.len() implies (#[trigger] front[j]).0 != id by {
                assert(front[j] == entries[j]);
            }
            assert(entries[last].0 != id);
        }
        if front.len() > 0 {
            assert(front[0] == entries[0]);
        }
    }
}

/// A batch is accepted up to its first vector of other dimensions, and as a whole exactly if
/// it holds none.
pub proof fn law_batch_is_accepted_up_to_the_first_wrong_vector<T>(
    entries: Seq<(Seq<char>, Seq<T>)>,
    dimensions: nat,
)
    ensures
        accepted(entries, dimensions) <= entries.len(),
        forall|i: int|
            0 <= i < accepted(entries, dimensions) ==> (#[trigger] entries[i]).1.len()
                == dimensions,
        accepted(entries, dimensions) < entries.len() ==> entries[accepted(
            entries,
            dimensions,
        ) as int].1.len() != dimensions,
    decreases entries.len(),
{
    if entries.len() > 0 && entries[0].1.len() == dimensions {
        let rest = entries.drop_first();
        law_batch_is_accepted_up_to_the_first_wrong_vector(rest, dimensions);
        assert forall|i: int| 0 <= i < accepted(entries, dimensions) implies (
        #[trigger] entries[i]).1.len() == dimensions by {
            if i > 0 {
                assert(rest[i - 1] == entries[i]);
            }
        }
        if accepted(entries, dimensions) < entries.len() {
            assert(rest[accepted(rest, dimensions) as int] == entries[accepted(
                entries,
                dimensions,
            ) as int]);
        }
    }
}

/// In a valid index every stored vector has the index's dimensions and at most `2 * m`
/// links, all to stored vectors, and nothing else has links. Searches start at a stored
/// vector exactly if there is one.
pub proof fn law_valid_index_links_stored_vectors<T>(
    index: IndexView<T>,
    dimensions: nat,
    m: nat,
    id: Seq<char>,
    to: Seq<char>,
)
    requires
        index.valid(dimensions, m),
    ensures
        index.vectors.dom().finite(),
        index.vectors.contains_key(id) ==> index.vectors[id].len() == dimensions
            && index.links[id].len() <= 2 * m,
        index.links.contains_key(id) == index.vectors.contains_key(id),
        index.vectors.contains_key(id) && index.links[id].contains(to)
            ==> index.vectors.contains_key(to),
        index.entry is Some ==> index.vectors.contains_key(index.entry->0),
        index.entry is None ==> !index.vectors.contains_key(id),
{
    if index.vectors.contains_key(id) {
        assert(index.links.contains_key(id));
        if index.links[id].contains(to) {
            let i = choose|i: int| 0 <= i < index.links[id].len() && index.links[id][i] == to;
            assert(index.vectors.contains_key(index.links[id][i]));
        }
    }
    assert(index.links.dom().contains(id) == index.vectors.dom().contains(id));
}

/// An empty index has no vectors, no links and no entry point, and every search in it
/// returns nothing.
pub proof fn law_empty_index_holds_nothing<T>(
    id: Seq<char>,
    query: Seq<T>,
    k: nat,
    ef: nat,
    threshold: Option<i32>,
    distance: spec_fn(Seq<T>, Seq<T>) -> i32,
    dimensions: nat,
    m: nat,
)
    ensures
        !IndexView::<T>::empty().vectors.contains_key(id),
        !IndexView::<T>::empty().links.contains_key(id),
        IndexView::<T>::empty().entry is None,
        IndexView::<T>::empty().valid(dimensions, m),
        IndexView::<T>::empty().hits(query, k, ef, threshold, distance).len() == 0,
{
    let index = IndexView::<T>::empty();
    assert(index.vectors.dom() =~= Set::empty());
    reveal(Seq::filter);
}

} // verus!
