//! The vector index: a graph of near neighbours, searched with a beam.

use crate::beam::{
    advance, beam_valid, explore, finished, keep_closest, keeps_closest_visited,
    lemma_advance_pending, lemma_advance_valid, lemma_start_valid, lemma_visit_all_valid,
    pending, start, visit, visit_all, Beam,
};
use crate::distance::{gives, is_measure, measure, measured};
use crate::error::VectorDbError;
use crate::index_laws::{
    law_search_finds_nothing_only_in_an_empty_index, law_search_returns_near_stored_vectors,
};
use crate::index_model::{
    accepted, connect, connect_all, distances_to, ids_of, law_insert_keeps_index_valid,
    law_remove_keeps_index_valid, lemma_accepted, links_without, other_than, prune, within, without, IndexView,
};
use crate::link_laws::law_batch_stores_the_last_of_each_id;
use crate::lists::{at_most, copy_texts, lemma_filter_next, texts};
use crate::ranking::{closer, holds_id, insert_ranked, is_ranked, ranked_list, Neighbor, Ranked};
use crate::sorting::{first_by_key, order_by_key, positions, stable_order};
use crate::metadata::Metadata;
use crate::types::{bare_hit, bare_hits, hit_list, DistanceMetric, SearchQuery, SearchResult};
use vstd::hash_map::StringHashMap;
use vstd::hash_set::StringHashSet;
use vstd::prelude::*;

verus! {

/// Settings of the index.
#[derive(Debug, Clone, Copy)]
pub struct HnswConfig {
    /// How many neighbours a new vector is linked with.
    pub m: usize,
    /// The beam of the search that finds the neighbours of a new vector.
    pub ef_construction: usize,
    /// The beam of a search that sets none itself.
    pub ef_search: usize,
    /// How distances are measured.
    pub metric: DistanceMetric,
    /// The number of components of every vector.
    pub dimensions: usize,
}

impl Default for HnswConfig {
    fn default() -> (config: Self)
        ensures
            config.m == 32,
            config.ef_construction == 200,
            config.ef_search == 100,
            config.metric == DistanceMetric::Cosine,
            config.dimensions == 384,
    {
        HnswConfig {
            m: 32,
            ef_construction: 200,
            ef_search: 100,
            metric: DistanceMetric::Cosine,
            dimensions: 384,
        }
    }
}

/// The distance that `calculate` measures by `metric`, as a function of two vectors.
pub open spec fn distance_by<T, F: Fn(&[T], &[T], DistanceMetric) -> Option<i32>>(
    calculate: F,
    metric: DistanceMetric,
) -> spec_fn(Seq<T>, Seq<T>) -> i32 {
    |a: Seq<T>, b: Seq<T>| measured(calculate, a, b, metric)
}

/// The components of the stored vectors.
pub open spec fn components<T>(vectors: Map<Seq<char>, Vec<T>>) -> Map<Seq<char>, Seq<T>> {
    Map::new(|id: Seq<char>| vectors.contains_key(id), |id: Seq<char>| vectors[id]@)
}

/// The ids that the stored links name.
pub open spec fn link_texts(
    graph: Map<Seq<char>, Vec<String>>,
) -> Map<Seq<char>, Seq<Seq<char>>> {
    Map::new(|id: Seq<char>| graph.contains_key(id), |id: Seq<char>| texts(graph[id]@))
}

/// The ids and components of a batch of vectors.
pub open spec fn batch<T>(vectors: Seq<(String, Vec<T>)>) -> Seq<(Seq<char>, Seq<T>)> {
    vectors.map_values(|entry: (String, Vec<T>)| (entry.0@, entry.1@))
}

/// An index of vectors with components of type `T`. `calculate_distance` measures how
/// far two vectors are apart, where that is defined.
#[verifier::reject_recursive_types(T)]
pub struct HnswIndex<T, F> {
    config: HnswConfig,
    calculate_distance: F,
    vectors: StringHashMap<Vec<T>>,
    graph: StringHashMap<Vec<String>>,
    ids: Vec<String>,
    entry_point: Option<String>,
}

/// A search under way.
struct SearchState {
    visited: StringHashSet,
    frontier: Vec<Neighbor>,
    found: Vec<Neighbor>,
}

impl View for SearchState {
    type V = Beam;

    closed spec fn view(&self) -> Beam {
        Beam {
            visited: self.visited@,
            frontier: ranked_list(self.frontier@),
            found: ranked_list(self.found@),
        }
    }
}

impl<T, F> View for HnswIndex<T, F> {
    type V = IndexView<T>;

    closed spec fn view(&self) -> IndexView<T> {
        IndexView {
            vectors: components(self.vectors@),
            links: link_texts(self.graph@),
            entry: match self.entry_point {
                Some(id) => Some(id@),
                None => None,
            },
        }
    }
}

impl<T, F: Fn(&[T], &[T], DistanceMetric) -> Option<i32>> HnswIndex<T, F> {
    /// The settings of this index.
    pub closed spec fn config(&self) -> HnswConfig {
        self.config
    }

    /// What measures distances for this index.
    pub closed spec fn calculate(&self) -> F {
        self.calculate_distance
    }

    /// The distance between two vectors in this index.
    pub open spec fn distance(&self) -> spec_fn(Seq<T>, Seq<T>) -> i32 {
        distance_by(self.calculate(), self.config().metric)
    }

    /// What holds of every index between operations.
    pub closed spec fn wf(&self) -> bool {
        &&& is_measure::<T, F>(self.calculate_distance)
        &&& self@.valid(self.config.dimensions as nat, self.config.m as nat)
        &&& texts(self.ids@).no_duplicates()
        &&& texts(self.ids@).to_set() == self.vectors@.dom()
    }

    /// What an index holds is always valid, so that every law of the index holds of it.
    pub proof fn lemma_wf_is_valid(&self)
        requires
            self.wf(),
        ensures
            self@.valid(self.config().dimensions as nat, self.config().m as nat),
    {
    }

    /// Whatever distance the given function returns for two vectors by the index's metric is
    /// the distance by which the index ranks them. Two vectors for which it returns none
    /// count as far apart as the largest finite number.
    pub proof fn law_distance_is_the_given_one(&self, x: &[T], y: &[T], result: Option<i32>)
        requires
            self.wf(),
            call_ensures(self.calculate(), (x, y, self.config().metric), result),
        ensures
            result is Some ==> (self.distance())(x@, y@) == result->0,
            result is None ==> (self.distance())(x@, y@) == 0x7F7F_FFFF,
    {
        let metric = self.config().metric;
        assert(gives(self.calculate(), x@, y@, metric, result));
        let chosen = choose|r: Option<i32>| gives(self.calculate(), x@, y@, metric, r);
        assert(gives(self.calculate(), x@, y@, metric, chosen));
    }

    /// The results of a search are stored vectors, each once and at most `k`, nearest first
    /// and none beyond the threshold, with neither metadata nor components. Their scores are
    /// the distances that the given function returns for the query and the stored vector.
    pub proof fn law_results_are_near_stored_vectors(
        &self,
        query: Seq<T>,
        k: nat,
        ef: nat,
        threshold: Option<i32>,
        results: Seq<SearchResult<T>>,
    )
        requires
            self.wf(),
            hit_list(results) == bare_hits::<T>(
                self@.hits(query, k, ef, threshold, self.distance()),
            ),
        ensures
            results.len() <= k,
            forall|i: int|
                0 <= i < results.len() ==> {
                    &&& self@.vectors.contains_key((#[trigger] results[i]).id@)
                    &&& results[i].metadata@ == Map::<Seq<char>, Seq<char>>::empty()
                    &&& results[i].vector is None
                    &&& threshold is Some ==> results[i].score <= threshold->0
                },
            forall|i: int, j: int|
                0 <= i < j < results.len() ==> {
                    &&& (#[trigger] results[i]).score <= (#[trigger] results[j]).score
                    &&& results[i].id@ != results[j].id@
                },
            forall|i: int, x: &[T], y: &[T], r: Option<i32>|
                0 <= i < results.len() && x@ == query && y@ == self@.vectors[(
                #[trigger] results[i]).id@] && #[trigger] call_ensures(
                    self.calculate(),
                    (x, y, self.config().metric),
                    r,
                ) ==> results[i].score == match r {
                    Some(distance) => distance,
                    None => 0x7F7F_FFFF,
                },
    {
        let hits = self@.hits(query, k, ef, threshold, self.distance());
        self.lemma_wf_is_valid();
        law_search_returns_near_stored_vectors(
            self@,
            query,
            k,
            ef,
            threshold,
            self.distance(),
            self.config().dimensions as nat,
            self.config().m as nat,
        );
        let shown = bare_hits::<T>(hits);
        assert(results.len() == hit_list(results).len());
        assert(shown.len() == hits.len());
        assert forall|i: int| 0 <= i < results.len() implies {
            &&& (#[trigger] results[i]).id@ == hits[i].id
            &&& results[i].score == hits[i].distance
            &&& results[i].metadata@ == Map::<Seq<char>, Seq<char>>::empty()
            &&& results[i].vector is None
        } by {
            assert(hit_list(results)[i] == results[i]@);
            assert(shown[i] == bare_hit::<T>(hits[i]));
        }
        assert forall|i: int, j: int| 0 <= i < j < results.len() implies {
            &&& (#[trigger] results[i]).score <= (#[trigger] results[j]).score
            &&& results[i].id@ != results[j].id@
        } by {
            assert(closer(hits[i], hits[j]));
            assert(hits[i].id != hits[j].id);
        }
        assert forall|i: int, x: &[T], y: &[T], r: Option<i32>|
            0 <= i < results.len() && x@ == query && y@ == self@.vectors[(
            #[trigger] results[i]).id@] && #[trigger] call_ensures(
                self.calculate(),
                (x, y, self.config().metric),
                r,
            ) implies results[i].score == match r {
            Some(distance) => distance,
            None => 0x7F7F_FFFF,
        } by {
            self.law_distance_is_the_given_one(x, y, r);
            assert(self@.vectors.contains_key(hits[i].id));
        }
    }

    /// What measures distances for this index.
    pub(crate) fn measure_with(&self) -> (calculate: &F)
        requires
            self.wf(),
        ensures
            *calculate == self.calculate(),
            is_measure::<T, F>(*calculate),
    {
        &self.calculate_distance
    }

    /// Looks at one id during a search.
    fn look_at(&self, id: &String, query: &[T], ef: usize, state: &mut SearchState)
        requires
            is_measure::<T, F>(self.calculate_distance),
            beam_valid(old(state)@, distances_to(query@, self@.vectors, self.distance())),
        ensures
            final(state)@ == visit(
                old(state)@,
                id@,
                distances_to(query@, self@.vectors, self.distance()),
                ef as nat,
            ),
    {
        let ghost distances = distances_to(query@, self@.vectors, self.distance());
        let ghost before = state@;
        if state.visited.contains(id.as_str()) {
            return ;
        }
        state.visited.insert(id.clone());
        match self.vectors.get(id.as_str()) {
            Some(vector) => {
                let distance: i32 = measure(
                    &self.calculate_distance,
                    query,
                    vector.as_slice(),
                    self.config.metric,
                );
                let ghost x = Ranked { distance, id: id@ };
                proof {
                    assert(distances.contains_key(id@) && distances[id@] == distance);
                    assert(!holds_id(before.frontier, id@));
                    assert(!holds_id(before.found, id@));
                }
                insert_ranked(&mut state.frontier, Neighbor { id: id.clone(), distance });
                if state.found.len() < ef {
                    insert_ranked(&mut state.found, Neighbor { id: id.clone(), distance });
                } else if state.found.len() > 0 && distance < state.found[state.found.len()
                    - 1].distance {
                    state.found.pop();
                    proof {
                        let kept = ranked_list(state.found@);
                        assert(kept =~= before.found.drop_last());
                        assert(is_ranked(kept));
                        assert forall|i: int| 0 <= i < kept.len() implies (#[trigger] kept[i]).id
                            != id@ by {
                            assert(kept[i] == before.found[i]);
                        }
                    }
                    insert_ranked(&mut state.found, Neighbor { id: id.clone(), distance });
                }
                assert(state@.found == keep_closest(before.found, x, ef as nat));
            },
            None => {},
        }
    }

    /// The vectors that a search with a beam of `ef` finds, nearest first.
    fn search_knn_internal(&self, query: &[T], ef: usize) -> (found: Vec<Neighbor>)
        requires
            is_measure::<T, F>(self.calculate_distance),
            self@.vectors.dom().finite(),
        ensures
            ranked_list(found@) == self@.nearest(query@, ef as nat, self.distance()),
            self.wf() ==> (found@.len() == 0 <==> self@.vectors.is_empty()),
    {
        proof {
            if self.wf() {
                law_search_finds_nothing_only_in_an_empty_index(
                    self@,
                    query@,
                    ef as nat,
                    self.distance(),
                    self.config.dimensions as nat,
                    self.config.m as nat,
                );
            }
        }
        let ghost distances = distances_to(query@, self@.vectors, self.distance());
        let ghost links = self@.links;
        let ghost beam = ef as nat;
        assert(distances.dom() =~= self@.vectors.dom());
        let entry: &String = match &self.entry_point {
            Some(id) => id,
            None => {
                let none: Vec<Neighbor> = Vec::new();
                assert(ranked_list(none@) =~= Seq::empty());
                return none;
            },
        };
        let mut state = SearchState {
            visited: StringHashSet::new(),
            frontier: Vec::new(),
            found: Vec::new(),
        };
        let ghost first = start(entry@, distances);
        match self.vectors.get(entry.as_str()) {
            Some(vector) => {
                let distance: i32 = measure(
                    &self.calculate_distance,
                    query,
                    vector.as_slice(),
                    self.config.metric,
                );
                state.frontier.push(Neighbor { id: entry.clone(), distance });
                state.found.push(Neighbor { id: entry.clone(), distance });
                state.visited.insert(entry.clone());
                proof {
                    lemma_start_valid(entry@, distances, beam);
                    assert(state@.visited =~= first.visited);
                    assert(state@.frontier =~= first.frontier);
                    assert(state@.found =~= first.found);
                }
            },
            None => {
                assert(ranked_list(state.found@) =~= first.found);
                return state.found;
            },
        }
        while state.frontier.len() > 0 && !(state.found.len() > 0 && state.found.len() >= ef
            && state.frontier[0].distance > state.found[state.found.len() - 1].distance)
            invariant
                is_measure::<T, F>(self.calculate_distance),
                distances == distances_to(query@, self@.vectors, self.distance()),
                distances.dom().finite(),
                links == self@.links,
                beam == ef as nat,
                beam_valid(state@, distances),
                keeps_closest_visited(state@, distances, beam),
                explore(state@, links, distances, beam) == explore(first, links, distances, beam),
            decreases pending(state@, distances),
        {
            let ghost before = state@;
            proof {
                lemma_advance_pending(before, links, distances, beam);
                lemma_advance_valid(before, links, distances, beam);
            }
            let nearest = state.frontier.remove(0);
            let ghost rest = Beam { frontier: before.frontier.drop_first(), ..before };
            assert(state@.frontier =~= rest.frontier);
            assert(state@ == rest);
            match self.graph.get(nearest.id.as_str()) {
                Some(list) => {
                    let ghost out = texts(list@);
                    assert(links[nearest.id@] == out);
                    let mut i: usize = 0;
                    assert(out.take(0) =~= Seq::empty());
                    while i < list.len()
                        invariant
                            is_measure::<T, F>(self.calculate_distance),
                            distances == distances_to(query@, self@.vectors, self.distance()),
                            beam == ef as nat,
                            out == texts(list@),
                            i <= list@.len(),
                            beam_valid(rest, distances),
                            keeps_closest_visited(rest, distances, beam),
                            state@ == visit_all(rest, out.take(i as int), distances, beam),
                        decreases list@.len() - i,
                    {
                        proof {
                            lemma_visit_all_valid(rest, out.take(i as int), distances, beam);
                        }
                        self.look_at(&list[i], query, ef, &mut state);
                        assert(out.take(i + 1).drop_last() =~= out.take(i as int));
                        assert(out.take(i + 1).last() == list@[i as int]@);
                        i = i + 1;
                    }
                    assert(out.take(i as int) =~= out);
                },
                None => {},
            }
            assert(state@ == advance(before, links, distances, beam));
        }
        assert(finished(state@, beam));
        state.found
    }

    /// Cuts the links of `owner` down to the `m` closest to it.
    fn prune_connections(&self, owner: &String, connections: &Vec<String>) -> (kept: Vec<String>)
        requires
            is_measure::<T, F>(self.calculate_distance),
            connections@.len() > self.config().m,
        ensures
            texts(kept@) == prune(
                owner@,
                texts(connections@),
                self@.vectors,
                self.distance(),
                self.config().m as nat,
            ),
    {
        let m: usize = self.config.m;
        let ghost all = texts(connections@);
        let mut kept: Vec<String> = Vec::new();
        match self.vectors.get(owner.as_str()) {
            Some(owner_vector) => {
                let ghost is_stored = |id: Seq<char>| self@.vectors.contains_key(id);
                let ghost key_of = |id: Seq<char>|
                    self.distance()(self@.vectors[owner@], self@.vectors[id]);
                let mut stored: Vec<String> = Vec::new();
                let mut keys: Vec<i32> = Vec::new();
                let mut i: usize = 0;
                assert(texts(stored@) =~= all.take(0).filter(is_stored)) by {
                    assert(all.take(0) =~= Seq::empty());
                    reveal(Seq::filter);
                }
                assert(keys@ =~= texts(stored@).map_values(key_of));
                while i < connections.len()
                    invariant
                        is_measure::<T, F>(self.calculate_distance),
                        i <= connections@.len(),
                        all == texts(connections@),
                        is_stored == (|id: Seq<char>| self@.vectors.contains_key(id)),
                        key_of == (|id: Seq<char>|
                            self.distance()(self@.vectors[owner@], self@.vectors[id])),
                        self@.vectors[owner@] == owner_vector@,
                        texts(stored@) == all.take(i as int).filter(is_stored),
                        keys@ == texts(stored@).map_values(key_of),
                    decreases connections@.len() - i,
                {
                    let id: &String = &connections[i];
                    let ghost stored_before = texts(stored@);
                    proof {
                        lemma_filter_next(all, is_stored, i as int);
                        assert(all[i as int] == id@);
                    }
                    match self.vectors.get(id.as_str()) {
                        Some(vector) => {
                            let key: i32 = measure(
                                &self.calculate_distance,
                                owner_vector.as_slice(),
                                vector.as_slice(),
                                self.config.metric,
                            );
                            keys.push(key);
                            stored.push(id.clone());
                            assert(texts(stored@) =~= stored_before.push(id@));
                            assert(keys@ =~= texts(stored@).map_values(key_of));
                        },
                        None => {},
                    }
                    i = i + 1;
                }
                assert(all.take(i as int) =~= all);
                let order = order_by_key(&keys);
                assert forall|k: int| 0 <= k < order@.len() implies #[trigger] order@[k]
                    < stored@.len() by {
                    assert(positions(order@)[k] == order@[k]);
                }
                let mut j: usize = 0;
                while j < order.len() && j < m
                    invariant
                        j <= order@.len(),
                        j <= m,
                        order@.len() == stored@.len(),
                        positions(order@) == stable_order(keys@),
                        forall|k: int| 0 <= k < order@.len() ==> #[trigger] order@[k] < stored@.len(),
                        texts(kept@) == Seq::new(
                            j as nat,
                            |k: int| texts(stored@)[stable_order(keys@)[k]],
                        ),
                    decreases order@.len() - j,
                {
                    assert(positions(order@)[j as int] == order@[j as int]);
                    let ghost kept_before = texts(kept@);
                    kept.push(stored[order[j]].clone());
                    j = j + 1;
                    assert(texts(kept@) =~= Seq::new(
                        j as nat,
                        |k: int| texts(stored@)[stable_order(keys@)[k]],
                    )) by {
                        assert(texts(kept@) =~= kept_before.push(
                            stored@[order@[j - 1] as int]@,
                        ));
                    }
                }
                assert(texts(kept@) =~= first_by_key(texts(stored@), keys@, m as nat));
            },
            None => {
                let mut i: usize = connections.len() - m;
                let ghost from = i as int;
                while i < connections.len()
                    invariant
                        0 <= from <= i <= connections@.len(),
                        all == texts(connections@),
                        texts(kept@) == all.subrange(from, i as int),
                    decreases connections@.len() - i,
                {
                    let ghost kept_before = texts(kept@);
                    kept.push(connections[i].clone());
                    assert(texts(kept@) =~= kept_before.push(all[i as int]));
                    assert(all.subrange(from, i + 1) =~= kept_before.push(all[i as int]));
                    i = i + 1;
                }
                assert(texts(kept@) =~= all.skip(from));
            },
        }
        kept
    }

    /// Links `id` with `other` both ways.
    fn link(&mut self, id: &String, other: &String)
        requires
            is_measure::<T, F>(old(self).calculate_distance),
        ensures
            final(self).config == old(self).config,
            final(self).calculate_distance == old(self).calculate_distance,
            final(self).vectors == old(self).vectors,
            final(self).ids == old(self).ids,
            final(self).entry_point == old(self).entry_point,
            final(self)@.links == connect(
                old(self)@.links,
                id@,
                other@,
                old(self)@.vectors,
                old(self).distance(),
                old(self).config().m as nat,
            ),
    {
        let ghost links = self@.links;
        let mut own: Option<Vec<String>> = None;
        match self.graph.get(id.as_str()) {
            Some(list) => {
                let mut grown = copy_texts(list);
                grown.push(other.clone());
                assert(texts(grown@) =~= links[id@].push(other@));
                own = Some(grown);
            },
            None => {},
        }
        match own {
            Some(grown) => {
                self.graph.insert(id.clone(), grown);
            },
            None => {},
        }
        let ghost out = if links.contains_key(id@) {
            links.insert(id@, links[id@].push(other@))
        } else {
            links
        };
        assert(self@.links =~= out);
        let m: usize = self.config.m;
        let mut back: Option<Vec<String>> = None;
        match self.graph.get(other.as_str()) {
            Some(list) => {
                let mut grown = copy_texts(list);
                grown.push(id.clone());
                assert(texts(grown@) =~= out[other@].push(id@));
                if grown.len() > m && grown.len() - m > m {
                    back = Some(self.prune_connections(other, &grown));
                } else {
                    back = Some(grown);
                }
            },
            None => {},
        }
        match back {
            Some(list) => {
                self.graph.insert(other.clone(), list);
            },
            None => {},
        }
        assert(self@.links =~= connect(
            links,
            id@,
            other@,
            old(self)@.vectors,
            old(self).distance(),
            m as nat,
        ));
    }

    /// An index without vectors.
    pub fn new(config: HnswConfig, calculate_distance: F) -> (index: Self)
        requires
            is_measure::<T, F>(calculate_distance),
        ensures
            index.wf(),
            index.config() == config,
            index.calculate() == calculate_distance,
            index@ == IndexView::<T>::empty(),
    {
        let index = HnswIndex {
            config,
            calculate_distance,
            vectors: StringHashMap::new(),
            graph: StringHashMap::new(),
            ids: Vec::new(),
            entry_point: None,
        };
        proof {
            assert(index@.vectors =~= Map::empty());
            assert(index@.links =~= Map::empty());
            assert(index@.vectors.dom() =~= Set::empty());
            assert(texts(index.ids@).to_set() =~= Set::empty());
        }
        index
    }

    /// Stores `vector` under `id` and links it with its nearest neighbours. A vector
    /// of the wrong dimensions is refused, and then nothing changes.
    ///
    /// Storing again under an id replaces the vector and starts its links afresh. Under the
    /// entry point's id this puts every other vector out of reach: the search for neighbours
    /// starts at the entry point, which then has no links, and so it finds only the entry
    /// point itself.
    pub fn insert(&mut self, id: String, vector: Vec<T>) -> (result: Result<(), VectorDbError>)
        requires
            old(self).wf(),
        ensures
            final(self).wf(),
            final(self).config() == old(self).config(),
            final(self).calculate() == old(self).calculate(),
            if vector@.len() == old(self).config().dimensions {
                &&& result == Ok::<(), VectorDbError>(())
                &&& final(self)@ == old(self)@.inserted(
                    id@,
                    vector@,
                    old(self).distance(),
                    old(self).config().m as nat,
                    old(self).config().ef_construction as nat,
                )
            } else {
                &&& result == Err::<(), VectorDbError>(
                    VectorDbError::InvalidDimensions {
                        expected: old(self).config().dimensions,
                        actual: vector@.len() as usize,
                    },
                )
                &&& *final(self) == *old(self)
            },
            vector@.len() == old(self).config().dimensions ==> {
                &&& final(self)@.vectors == old(self)@.vectors.insert(id@, vector@)
                &&& old(self)@.entry is None ==> final(self)@.entry == Some(id@)
                &&& old(self)@.entry is Some ==> final(self)@.entry == old(self)@.entry
            },
    {
        if vector.len() != self.config.dimensions {
            return Err(
                VectorDbError::InvalidDimensions {
                    expected: self.config.dimensions,
                    actual: vector.len(),
                },
            );
        }
        let ghost before = self@;
        let ghost distance = self.distance();
        let ghost m = self.config.m as nat;
        let ghost components_new = vector@;
        proof {
            law_insert_keeps_index_valid(
                before,
                id@,
                vector@,
                distance,
                self.config.dimensions as nat,
                m,
                self.config.ef_construction as nat,
            );
        }
        let ghost ids_before = texts(self.ids@);
        if !self.vectors.contains_key(id.as_str()) {
            self.ids.push(id.clone());
            assert(texts(self.ids@) =~= ids_before.push(id@));
            assert(!ids_before.contains(id@)) by {
                assert(!ids_before.to_set().contains(id@));
            }
        }
        proof {
            assert(texts(self.ids@).no_duplicates());
            assert(texts(self.ids@).to_set() =~= self.vectors@.dom().insert(id@)) by {
                assert forall|x: Seq<char>| texts(self.ids@).to_set().contains(x)
                    <==> ids_before.to_set().insert(id@).contains(x) by {
                    lemma_push_set(ids_before, id@, x);
                }
            }
        }
        self.vectors.insert(id.clone(), vector);
        self.graph.insert(id.clone(), Vec::new());
        let ghost stored = IndexView {
            vectors: before.vectors.insert(id@, components_new),
            links: before.links.insert(id@, Seq::empty()),
            entry: before.entry,
        };
        proof {
            assert(self@.vectors =~= stored.vectors);
            assert(self@.links =~= stored.links) by {
                assert(texts(self.graph@[id@]@) =~= Seq::empty());
            }
            assert(self@ == stored);
        }
        if self.entry_point.is_none() {
            self.entry_point = Some(id);
            return Ok(());
        }
        let beam: usize = if self.config.ef_construction >= self.config.m {
            self.config.ef_construction
        } else {
            self.config.m
        };
        let near: Vec<Neighbor> = match self.vectors.get(id.as_str()) {
            Some(vector) => self.search_knn_internal(vector.as_slice(), beam),
            None => Vec::new(),
        };
        let ghost chosen = ids_of(at_most(ranked_list(near@), m));
        let mut i: usize = 0;
        assert(chosen.take(0) =~= Seq::empty());
        while i < near.len() && i < self.config.m
            invariant
                is_measure::<T, F>(self.calculate_distance),
                self.config == old(self).config,
                self.calculate_distance == old(self).calculate_distance,
                self.entry_point == old(self).entry_point,
                self@.vectors == stored.vectors,
                self@.entry == stored.entry,
                texts(self.ids@).no_duplicates(),
                texts(self.ids@).to_set() == self.vectors@.dom(),
                distance == self.distance(),
                m == self.config.m,
                chosen == ids_of(at_most(ranked_list(near@), m)),
                i <= chosen.len(),
                self@.links == connect_all(
                    stored.links,
                    id@,
                    chosen.take(i as int),
                    stored.vectors,
                    distance,
                    m,
                ),
            decreases near@.len() - i,
        {
            proof {
                assert(chosen.take(i + 1).drop_last() =~= chosen.take(i as int));
                assert(chosen[i as int] == near@[i as int].id@);
                assert(chosen.take(i + 1).last() == near@[i as int].id@);
            }
            self.link(&id, &near[i].id);
            i = i + 1;
        }
        assert(chosen.take(i as int) =~= chosen);
        Ok(())
    }

    /// Stores a batch of vectors in turn, up to the first of the wrong dimensions.
    pub fn insert_batch(&mut self, vectors: Vec<(String, Vec<T>)>) -> (result: Result<
        (),
        VectorDbError,
    >)
        requires
            old(self).wf(),
        ensures
            final(self).wf(),
            final(self).config() == old(self).config(),
            final(self).calculate() == old(self).calculate(),
            ({
                let entries = batch(vectors@);
                let count = accepted(entries, old(self).config().dimensions as nat);
                &&& final(self)@ == old(self)@.inserted_all(
                    entries.take(count as int),
                    old(self).distance(),
                    old(self).config().m as nat,
                    old(self).config().ef_construction as nat,
                )
                &&& result == if count == entries.len() {
                    Ok::<(), VectorDbError>(())
                } else {
                    Err::<(), VectorDbError>(
                        VectorDbError::InvalidDimensions {
                            expected: old(self).config().dimensions,
                            actual: entries[count as int].1.len() as usize,
                        },
                    )
                }
            }),
            result is Ok <==> forall|i: int|
                0 <= i < vectors@.len() ==> (#[trigger] vectors@[i]).1@.len() == old(
                    self,
                ).config().dimensions,
            forall|i: int|
                result is Ok && 0 <= i < vectors@.len() && (forall|j: int|
                    i < j < vectors@.len() ==> (#[trigger] vectors@[j]).0@ != vectors@[i].0@) ==> {
                    &&& final(self)@.vectors.contains_key((#[trigger] vectors@[i]).0@)
                    &&& final(self)@.vectors[vectors@[i].0@] == vectors@[i].1@
                },
            forall|id: Seq<char>|
                (forall|i: int| 0 <= i < vectors@.len() ==> (#[trigger] vectors@[i]).0@ != id) ==> {
                    &&& (#[trigger] final(self)@.vectors.contains_key(id)) == old(
                        self,
                    )@.vectors.contains_key(id)
                    &&& final(self)@.vectors[id] == old(self)@.vectors[id]
                },
    {
        let ghost entries = batch(vectors@);
        let ghost all = vectors@;
        let ghost dimensions = self.config.dimensions as nat;
        assert(entries.take(0) =~= Seq::empty());
        for entry in it: vectors.into_iter()
            invariant
                it.seq() == all,
                entries == batch(all),
                dimensions == self.config.dimensions,
                self.wf(),
                self.config() == old(self).config(),
                self.calculate() == old(self).calculate(),
                forall|i: int|
                    0 <= i < it.index() ==> (#[trigger] entries[i]).1.len() == dimensions,
                self@ == old(self)@.inserted_all(
                    entries.take(it.index() as int),
                    old(self).distance(),
                    old(self).config().m as nat,
                    old(self).config().ef_construction as nat,
                ),
        {
            let ghost i = it.index() as int;
            let (id, vector) = entry;
            proof {
                assert(entries[i] == (id@, vector@));
                assert(entries.take(i + 1).drop_last() =~= entries.take(i));
                assert(entries.take(i + 1).last() == entries[i]);
            }
            match self.insert(id, vector) {
                Ok(()) => {},
                Err(error) => {
                    proof {
                        lemma_accepted(entries, dimensions, i as nat);
                        assert(all[i].1@.len() != dimensions);
                        lemma_batch_stored(
                            old(self)@,
                            all,
                            i,
                            old(self).distance(),
                            old(self).config().m as nat,
                            old(self).config().ef_construction as nat,
                        );
                    }
                    return Err(error);
                },
            }
        }
        proof {
            lemma_accepted(entries, dimensions, entries.len());
            assert(entries.take(entries.len() as int) =~= entries);
            assert forall|i: int| 0 <= i < all.len() implies (#[trigger] all[i]).1@.len()
                == dimensions by {
                assert(entries[i].1.len() == dimensions);
            }
            lemma_batch_stored(
                old(self)@,
                all,
                all.len() as int,
                old(self).distance(),
                old(self).config().m as nat,
                old(self).config().ef_construction as nat,
            );
        }
        Ok(())
    }

    /// The nearest neighbours of the query's vector, nearest first, with neither
    /// metadata nor components. The query's filters play no part.
    pub fn search(&self, query: &SearchQuery<T>) -> (result: Result<
        Vec<SearchResult<T>>,
        VectorDbError,
    >)
        requires
            self.wf(),
        ensures
            result is Ok,
            hit_list(result->Ok_0@) == bare_hits::<T>(
                self@.hits(
                    query.vector@,
                    query.k as nat,
                    (match query.ef_search {
                        Some(ef) => ef,
                        None => self.config().ef_search,
                    }) as nat,
                    query.threshold,
                    self.distance(),
                ),
            ),
            ({
                let results = result->Ok_0@;
                &&& results.len() <= query.k
                &&& forall|i: int|
                    0 <= i < results.len() ==> {
                        &&& self@.vectors.contains_key((#[trigger] results[i]).id@)
                        &&& results[i].metadata@ == Map::<Seq<char>, Seq<char>>::empty()
                        &&& results[i].vector is None
                        &&& query.threshold is Some ==> results[i].score <= query.threshold->0
                    }
                &&& forall|i: int, j: int|
                    0 <= i < j < results.len() ==> {
                        &&& (#[trigger] results[i]).score <= (#[trigger] results[j]).score
                        &&& results[i].id@ != results[j].id@
                    }
                &&& forall|i: int, x: &[T], y: &[T], r: Option<i32>|
                    0 <= i < results.len() && x@ == query.vector@ && y@ == self@.vectors[(
                    #[trigger] results[i]).id@] && #[trigger] call_ensures(
                        self.calculate(),
                        (x, y, self.config().metric),
                        r,
                    ) ==> results[i].score == match r {
                        Some(distance) => distance,
                        None => 0x7F7F_FFFF,
                    }
            }),
    {
        let results = self.search_with(
            query.vector.as_slice(),
            query.k,
            query.ef_search,
            query.threshold,
        );
        proof {
            self.law_results_are_near_stored_vectors(
                query.vector@,
                query.k as nat,
                (match query.ef_search {
                    Some(ef) => ef,
                    None => self.config().ef_search,
                }) as nat,
                query.threshold,
                results@,
            );
        }
        Ok(results)
    }

    /// The `k` nearest neighbours of `vector`, without those beyond the threshold.
    pub(crate) fn search_with(
        &self,
        vector: &[T],
        k: usize,
        ef_search: Option<usize>,
        threshold: Option<i32>,
    ) -> (results: Vec<SearchResult<T>>)
        requires
            self.wf(),
        ensures
            hit_list(results@) == bare_hits::<T>(
                self@.hits(
                    vector@,
                    k as nat,
                    (match ef_search {
                        Some(ef) => ef,
                        None => self.config().ef_search,
                    }) as nat,
                    threshold,
                    self.distance(),
                ),
            ),
    {
        let wanted: usize = match ef_search {
            Some(ef) => ef,
            None => self.config.ef_search,
        };
        let beam: usize = if wanted >= k {
            wanted
        } else {
            k
        };
        let mut candidates = self.search_knn_internal(vector, beam);
        let ghost found = ranked_list(candidates@);
        candidates.truncate(k);
        let ghost near = candidates@;
        let ghost list = ranked_list(near);
        assert(list =~= at_most(found, k as nat));
        let ghost kept = within(threshold);
        let mut results: Vec<SearchResult<T>> = Vec::new();
        assert(hit_list(results@) =~= bare_hits::<T>(list.take(0).filter(kept))) by {
            assert(list.take(0) =~= Seq::empty());
            reveal(Seq::filter);
        }
        for candidate in it: candidates.into_iter()
            invariant
                it.seq() == near,
                list == ranked_list(near),
                kept == within(threshold),
                hit_list(results@) == bare_hits::<T>(list.take(it.index() as int).filter(kept)),
        {
            let ghost i = it.index() as int;
            let ghost before = list.take(i).filter(kept);
            let keep: bool = match threshold {
                Some(limit) => candidate.distance <= limit,
                None => true,
            };
            proof {
                lemma_filter_next(list, kept, i);
                assert(list[i] == candidate@);
            }
            if keep {
                let ghost x = candidate@;
                results.push(
                    SearchResult {
                        id: candidate.id,
                        score: candidate.distance,
                        metadata: Metadata::new(),
                        vector: None,
                    },
                );
                assert(hit_list(results@) =~= bare_hits::<T>(before).push(bare_hit(x)));
                assert(bare_hits::<T>(before).push(bare_hit(x)) =~= bare_hits::<T>(before.push(x)));
            }
        }
        assert(list.take(list.len() as int) =~= list);
        results
    }

    /// Takes the vector `id` out of the index, with every link to it. Gives whether
    /// there was such a vector; if not, nothing changes.
    pub fn remove(&mut self, id: &str) -> (result: Result<bool, VectorDbError>)
        requires
            old(self).wf(),
        ensures
            final(self).wf(),
            final(self).config() == old(self).config(),
            final(self).calculate() == old(self).calculate(),
            result == Ok::<bool, VectorDbError>(old(self)@.vectors.contains_key(id@)),
            if old(self)@.vectors.contains_key(id@) {
                old(self)@.removed(id@, final(self)@)
            } else {
                *final(self) == *old(self)
            },
            old(self)@.vectors.contains_key(id@) ==> final(self)@.vectors == old(
                self,
            )@.vectors.remove(id@),
            forall|other: Seq<char>|
                old(self)@.vectors.contains_key(id@) && other != id@ && #[trigger] old(
                    self,
                )@.links.contains_key(other) ==> final(self)@.links[other] == old(
                    self,
                )@.links[other].filter(|to: Seq<char>| to != id@),
    {
        if !self.vectors.contains_key(id) {
            return Ok(false);
        }
        let ghost before = self@;
        self.vectors.remove(id);
        self.graph.remove(id);
        let gone = id.to_owned();
        self.forget_id(&gone);
        assert(self.graph@.dom() =~= self.vectors@.dom()) by {
            assert(before.links.dom() == before.vectors.dom());
            assert(before.vectors.dom() =~= old(self).vectors@.dom());
            assert(before.links.dom() =~= old(self).graph@.dom());
        }
        let ghost links = self@.links;
        assert(links =~= before.links.remove(id@));
        self.drop_links_to(&gone);
        let starts_here: bool = match &self.entry_point {
            Some(entry) => *entry == gone,
            None => false,
        };
        if starts_here {
            if self.ids.len() > 0 {
                self.entry_point = Some(self.ids[0].clone());
                assert(texts(self.ids@).contains(texts(self.ids@)[0]));
            } else {
                self.entry_point = None;
            }
        }
        proof {
            assert(self@.vectors =~= before.vectors.remove(id@));
            assert(self@.vectors.dom() =~= self.vectors@.dom());
            if self.ids@.len() == 0 {
                assert(texts(self.ids@).to_set() =~= Set::empty());
            }
            assert(before.removed(id@, self@));
            let elsewhere = |to: Seq<char>| to != id@;
            assert(elsewhere =~= other_than(id@));
            assert forall|other: Seq<char>|
                other != id@ && #[trigger] before.links.contains_key(
                    other,
                ) implies self@.links[other] == before.links[other].filter(elsewhere) by {
                assert(self@.links[other] == without(before.links[other], id@));
            }
            law_remove_keeps_index_valid(
                before,
                id@,
                self@,
                self.config.dimensions as nat,
                self.config.m as nat,
            );
        }
        Ok(true)
    }

    /// Takes `id` out of the list of stored ids.
    fn forget_id(&mut self, id: &String)
        requires
            texts(old(self).ids@).no_duplicates(),
        ensures
            final(self).config == old(self).config,
            final(self).calculate_distance == old(self).calculate_distance,
            final(self).vectors == old(self).vectors,
            final(self).graph == old(self).graph,
            final(self).entry_point == old(self).entry_point,
            texts(final(self).ids@).no_duplicates(),
            texts(final(self).ids@).to_set() == texts(old(self).ids@).to_set().remove(id@),
    {
        let ghost before = texts(self.ids@);
        let mut i: usize = 0;
        while i < self.ids.len()
            invariant
                *self == *old(self),
                before == texts(self.ids@),
                before.no_duplicates(),
                i <= before.len(),
                forall|j: int| 0 <= j < i ==> #[trigger] before[j] != id@,
            decreases before.len() - i,
        {
            if self.ids[i] == *id {
                assert(before[i as int] == id@);
                self.ids.remove(i);
                proof {
                    let after = texts(self.ids@);
                    assert(after =~= before.remove(i as int));
                    assert forall|x: Seq<char>| after.to_set().contains(x)
                        <==> before.to_set().remove(id@).contains(x) by {
                        if after.contains(x) {
                            let j = choose|j: int| 0 <= j < after.len() && after[j] == x;
                            let k = if j < i { j } else { j + 1 };
                            assert(before[k] == x);
                        }
                        if before.contains(x) && x != id@ {
                            let j = choose|j: int| 0 <= j < before.len() && before[j] == x;
                            let k = if j < i { j } else { j - 1 };
                            assert(after[k] == x);
                        }
                    }
                    assert(after.to_set() =~= before.to_set().remove(id@));
                }
                return ;
            }
            i = i + 1;
        }
        assert(before.to_set().remove(id@) =~= before.to_set()) by {
            assert(!before.contains(id@));
        }
    }

    /// Takes every link to `id` out of the graph.
    fn drop_links_to(&mut self, id: &String)
        requires
            texts(old(self).ids@).no_duplicates(),
            texts(old(self).ids@).to_set() == old(self).graph@.dom(),
        ensures
            final(self).config == old(self).config,
            final(self).calculate_distance == old(self).calculate_distance,
            final(self).vectors == old(self).vectors,
            final(self).ids == old(self).ids,
            final(self).entry_point == old(self).entry_point,
            final(self)@.links == links_without(old(self)@.links, id@),
    {
        let ghost before = self@.links;
        let ghost all = texts(self.ids@);
        let mut i: usize = 0;
        while i < self.ids.len()
            invariant
                self.config == old(self).config,
                self.calculate_distance == old(self).calculate_distance,
                self.vectors == old(self).vectors,
                self.ids == old(self).ids,
                self.entry_point == old(self).entry_point,
                before == old(self)@.links,
                all == texts(self.ids@),
                all.no_duplicates(),
                all.to_set() == before.dom(),
                i <= all.len(),
                self@.links.dom() == before.dom(),
                forall|j: int|
                    0 <= j < i ==> self@.links[#[trigger] all[j]] == without(before[all[j]], id@),
                forall|j: int| i <= j < all.len() ==> self@.links[#[trigger] all[j]] == before[all[j]],
            decreases all.len() - i,
        {
            let ghost links = self@.links;
            let mut kept: Option<Vec<String>> = None;
            match self.graph.get(self.ids[i].as_str()) {
                Some(list) => {
                    kept = Some(texts_without(list, id));
                },
                None => {},
            }
            assert(all.to_set().contains(all[i as int]));
            match kept {
                Some(list) => {
                    self.graph.insert(self.ids[i].clone(), list);
                    assert(self@.links =~= links.insert(
                        all[i as int],
                        without(before[all[i as int]], id@),
                    ));
                },
                None => {},
            }
            assert(self@.links.dom() =~= before.dom());
            i = i + 1;
        }
        proof {
            let expected = links_without(before, id@);
            assert forall|other: Seq<char>| before.contains_key(other) implies self@.links[other]
                == #[trigger] expected[other] by {
                assert(all.to_set().contains(other));
                let j = choose|j: int| 0 <= j < all.len() && all[j] == other;
                assert(self@.links[all[j]] == without(before[all[j]], id@));
            }
            assert(self@.links =~= expected);
        }
    }

    /// The number of stored vectors.
    pub fn len(&self) -> (count: usize)
        ensures
            count == self@.vectors.len(),
    {
        assert(self@.vectors.dom() =~= self.vectors@.dom());
        self.vectors.len()
    }

    /// Whether no vector is stored.
    pub fn is_empty(&self) -> (empty: bool)
        ensures
            empty == self@.vectors.is_empty(),
    {
        assert(self@.vectors.dom() =~= self.vectors@.dom());
        self.vectors.is_empty()
    }
}

/// The links of a list that lead elsewhere than to `id`.
fn texts_without(list: &Vec<String>, id: &String) -> (kept: Vec<String>)
    ensures
        texts(kept@) == without(texts(list@), id@),
{
    let ghost all = texts(list@);
    let mut kept: Vec<String> = Vec::new();
    assert(texts(kept@) =~= all.take(0).filter(other_than(id@))) by {
        assert(all.take(0) =~= Seq::empty());
        reveal(Seq::filter);
    }
    let mut i: usize = 0;
    while i < list.len()
        invariant
            all == texts(list@),
            i <= all.len(),
            texts(kept@) == all.take(i as int).filter(other_than(id@)),
        decreases all.len() - i,
    {
        let ghost before = texts(kept@);
        proof {
            lemma_filter_next(all, other_than(id@), i as int);
            assert(all[i as int] == list@[i as int]@);
        }
        if list[i] != *id {
            kept.push(list[i].clone());
            assert(texts(kept@) =~= before.push(all[i as int]));
        }
        i = i + 1;
    }
    assert(all.take(i as int) =~= all);
    kept
}

/// What storing the first `count` vectors of a batch makes of the stored vectors.
proof fn lemma_batch_stored<T>(
    index: IndexView<T>,
    vectors: Seq<(String, Vec<T>)>,
    count: int,
    distance: spec_fn(Seq<T>, Seq<T>) -> i32,
    m: nat,
    ef_construction: nat,
)
    requires
        0 <= count <= vectors.len(),
    ensures
        ({
            let after = index.inserted_all(
                batch(vectors).take(count),
                distance,
                m,
                ef_construction,
            );
            &&& forall|i: int|
                0 <= i < count && (forall|j: int|
                    i < j < count ==> (#[trigger] vectors[j]).0@ != vectors[i].0@) ==> {
                    &&& after.vectors.contains_key((#[trigger] vectors[i]).0@)
                    &&& after.vectors[vectors[i].0@] == vectors[i].1@
                }
            &&& forall|id: Seq<char>|
                (forall|i: int| 0 <= i < count ==> (#[trigger] vectors[i]).0@ != id) ==> {
                    &&& (#[trigger] after.vectors.contains_key(id)) == index.vectors.contains_key(
                        id,
                    )
                    &&& after.vectors[id] == index.vectors[id]
                }
        }),
{
    let entries = batch(vectors).take(count);
    let after = index.inserted_all(entries, distance, m, ef_construction);
    assert forall|i: int| 0 <= i < count implies (#[trigger] entries[i]) == (
        vectors[i].0@,
        vectors[i].1@,
    ) by {}
    assert forall|i: int|
        0 <= i < count && (forall|j: int|
            i < j < count ==> (#[trigger] vectors[j]).0@ != vectors[i].0@) implies {
        &&& after.vectors.contains_key((#[trigger] vectors[i]).0@)
        &&& after.vectors[vectors[i].0@] == vectors[i].1@
    } by {
        law_batch_stores_the_last_of_each_id(
            index,
            entries,
            distance,
            m,
            ef_construction,
            vectors[i].0@,
        );
        assert(entries[i].0 == vectors[i].0@);
        assert forall|j: int| i < j < entries.len() implies (#[trigger] entries[j]).0
            != vectors[i].0@ by {
            assert(vectors[j].0@ != vectors[i].0@);
        }
    }
    assert forall|id: Seq<char>|
        (forall|i: int| 0 <= i < count ==> (#[trigger] vectors[i]).0@ != id) implies {
        &&& (#[trigger] after.vectors.contains_key(id)) == index.vectors.contains_key(id)
        &&& after.vectors[id] == index.vectors[id]
    } by {
        law_batch_stores_the_last_of_each_id(index, entries, distance, m, ef_construction, id);
        assert forall|j: int| 0 <= j < entries.len() implies (#[trigger] entries[j]).0 != id by {
            assert(vectors[j].0@ != id);
        }
    }
}

/// What is stored shows its texts and components as they are.
pub proof fn law_stored_parts_are_shown_as_they_are<T>(
    vectors: Map<Seq<char>, Vec<T>>,
    graph: Map<Seq<char>, Vec<String>>,
    entries: Seq<(String, Vec<T>)>,
    id: Seq<char>,
)
    ensures
        components(vectors).contains_key(id) == vectors.contains_key(id),
        vectors.contains_key(id) ==> components(vectors)[id] == vectors[id]@,
        link_texts(graph).contains_key(id) == graph.contains_key(id),
        graph.contains_key(id) ==> link_texts(graph)[id].len() == graph[id]@.len(),
        forall|i: int|
            graph.contains_key(id) && 0 <= i < graph[id]@.len() ==> #[trigger] link_texts(
                graph,
            )[id][i] == graph[id]@[i]@,
        batch(entries).len() == entries.len(),
        forall|i: int|
            0 <= i < entries.len() ==> (#[trigger] batch(entries)[i]).0 == entries[i].0@ && batch(
                entries,
            )[i].1 == entries[i].1@,
{
}

proof fn lemma_push_set(list: Seq<Seq<char>>, id: Seq<char>, x: Seq<char>)
    ensures
        list.push(id).contains(x) <==> list.contains(x) || x == id,
{
    if list.contains(x) {
        let i = choose|i: int| 0 <= i < list.len() && list[i] == x;
        assert(list.push(id)[i] == x);
    }
    if x == id {
        assert(list.push(id)[list.len() as int] == x);
    }
}

} // verus!
