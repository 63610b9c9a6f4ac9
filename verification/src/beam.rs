//! What a beam search over the link graph visits and finds.
//!
//! The search is described over plain maps: `links` gives each id its outgoing
//! links, and `distances` gives each stored id its distance to the query.

use crate::ranking::{
    closer, holds_id, is_ranked, law_ranked_insert_puts_one_in_its_place,
    lemma_closer_irreflexive, lemma_ranked_insert, ranked_insert, Ranked,
};
use vstd::prelude::*;

verus! {

/// The state of a search.
pub struct Beam {
    /// Every id that was looked at.
    pub visited: Set<Seq<char>>,
    /// Stored ids whose links were not followed yet, nearest first.
    pub frontier: Seq<Ranked>,
    /// The results so far, nearest first.
    pub found: Seq<Ranked>,
}

/// The results after `x` was met: it is added while there are fewer than `ef`, and
/// otherwise takes the place of the furthest result if it is strictly closer.
pub open spec fn keep_closest(found: Seq<Ranked>, x: Ranked, ef: nat) -> Seq<Ranked> {
    if found.len() < ef {
        ranked_insert(found, x)
    } else if found.len() > 0 && x.distance < found.last().distance {
        ranked_insert(found.drop_last(), x)
    } else {
        found
    }
}

/// The state after looking at one id.
pub open spec fn visit(beam: Beam, id: Seq<char>, distances: Map<Seq<char>, i32>, ef: nat) -> Beam {
    if beam.visited.contains(id) {
        beam
    } else if !distances.contains_key(id) {
        Beam { visited: beam.visited.insert(id), ..beam }
    } else {
        let x = Ranked { distance: distances[id], id };
        Beam {
            visited: beam.visited.insert(id),
            frontier: ranked_insert(beam.frontier, x),
            found: keep_closest(beam.found, x, ef),
        }
    }
}

/// The state after looking at `ids` in turn.
pub open spec fn visit_all(
    beam: Beam,
    ids: Seq<Seq<char>>,
    distances: Map<Seq<char>, i32>,
    ef: nat,
) -> Beam
    decreases ids.len(),
{
    if ids.len() == 0 {
        beam
    } else {
        visit(visit_all(beam, ids.drop_last(), distances, ef), ids.last(), distances, ef)
    }
}

/// The search stops when nothing is left to follow, or when the nearest id left is
/// further than the furthest of at least `ef` results.
pub open spec fn finished(beam: Beam, ef: nat) -> bool {
    ||| beam.frontier.len() == 0
    ||| {
        &&& beam.found.len() > 0
        &&& beam.found.len() >= ef
        &&& beam.frontier[0].distance > beam.found.last().distance
    }
}

/// The state after following the links of the nearest id left.
pub open spec fn advance(
    beam: Beam,
    links: Map<Seq<char>, Seq<Seq<char>>>,
    distances: Map<Seq<char>, i32>,
    ef: nat,
) -> Beam {
    let rest = Beam { frontier: beam.frontier.drop_first(), ..beam };
    if links.contains_key(beam.frontier[0].id) {
        visit_all(rest, links[beam.frontier[0].id], distances, ef)
    } else {
        rest
    }
}

/// How many more ids can still be followed.
pub open spec fn pending(beam: Beam, distances: Map<Seq<char>, i32>) -> nat {
    distances.dom().difference(beam.visited).len() + beam.frontier.len()
}

/// The state in which the search stops.
pub open spec fn explore(
    beam: Beam,
    links: Map<Seq<char>, Seq<Seq<char>>>,
    distances: Map<Seq<char>, i32>,
    ef: nat,
) -> Beam
    decreases pending(beam, distances),
    when distances.dom().finite()
    via explore_terminates
{
    if finished(beam, ef) {
        beam
    } else {
        explore(advance(beam, links, distances, ef), links, distances, ef)
    }
}

#[via_fn]
proof fn explore_terminates(
    beam: Beam,
    links: Map<Seq<char>, Seq<Seq<char>>>,
    distances: Map<Seq<char>, i32>,
    ef: nat,
) {
    if !finished(beam, ef) {
        lemma_advance_pending(beam, links, distances, ef);
    }
}

/// Following the links of an id leaves fewer ids to follow.
pub proof fn lemma_advance_pending(
    beam: Beam,
    links: Map<Seq<char>, Seq<Seq<char>>>,
    distances: Map<Seq<char>, i32>,
    ef: nat,
)
    requires
        distances.dom().finite(),
        beam.frontier.len() > 0,
    ensures
        pending(advance(beam, links, distances, ef), distances) < pending(beam, distances),
{
    let rest = Beam { frontier: beam.frontier.drop_first(), ..beam };
    if links.contains_key(beam.frontier[0].id) {
        lemma_visit_all_pending(rest, links[beam.frontier[0].id], distances, ef);
    }
}

proof fn lemma_ranked_insert_len(list: Seq<Ranked>, x: Ranked)
    ensures
        ranked_insert(list, x).len() == list.len() + 1,
    decreases list.len(),
{
    if list.len() > 0 && !closer(x, list[0]) {
        lemma_ranked_insert_len(list.drop_first(), x);
    }
}

proof fn lemma_visit_all_pending(
    beam: Beam,
    ids: Seq<Seq<char>>,
    distances: Map<Seq<char>, i32>,
    ef: nat,
)
    requires
        distances.dom().finite(),
    ensures
        pending(visit_all(beam, ids, distances, ef), distances) <= pending(beam, distances),
    decreases ids.len(),
{
    if ids.len() > 0 {
        lemma_visit_all_pending(beam, ids.drop_last(), distances, ef);
        let before = visit_all(beam, ids.drop_last(), distances, ef);
        let id = ids.last();
        let left = distances.dom().difference(before.visited);
        if !before.visited.contains(id) {
            let after = visit(before, id, distances, ef);
            assert(distances.dom().difference(after.visited) =~= left.remove(id));
            if distances.contains_key(id) {
                lemma_ranked_insert_len(
                    before.frontier,
                    Ranked { distance: distances[id], id },
                );
            }
        }
    }
}

/// The search before its first step: it starts at the entry point, if that is stored.
pub open spec fn start(entry: Seq<char>, distances: Map<Seq<char>, i32>) -> Beam {
    if distances.contains_key(entry) {
        let x = Ranked { distance: distances[entry], id: entry };
        Beam { visited: set![entry], frontier: seq![x], found: seq![x] }
    } else {
        Beam { visited: Set::empty(), frontier: Seq::empty(), found: Seq::empty() }
    }
}

/// The results of a search from the entry point, nearest first.
pub open spec fn beam_search(
    entry: Option<Seq<char>>,
    links: Map<Seq<char>, Seq<Seq<char>>>,
    distances: Map<Seq<char>, i32>,
    ef: nat,
) -> Seq<Ranked> {
    match entry {
        None => Seq::empty(),
        Some(id) => explore(start(id, distances), links, distances, ef).found,
    }
}

/// The elements of `list` are visited stored ids with their true distances.
pub open spec fn lists_visited(
    list: Seq<Ranked>,
    visited: Set<Seq<char>>,
    distances: Map<Seq<char>, i32>,
) -> bool {
    forall|i: int|
        0 <= i < list.len() ==> {
            let x = #[trigger] list[i];
            &&& visited.contains(x.id)
            &&& distances.contains_key(x.id)
            &&& distances[x.id] == x.distance
        }
}

/// What every state of a search satisfies.
pub open spec fn beam_valid(beam: Beam, distances: Map<Seq<char>, i32>) -> bool {
    &&& is_ranked(beam.frontier)
    &&& is_ranked(beam.found)
    &&& lists_visited(beam.frontier, beam.visited, distances)
    &&& lists_visited(beam.found, beam.visited, distances)
}

/// The results are the closest of all stored ids that were visited: whatever was
/// visited and left out is no closer than the furthest of at least `ef` results.
pub open spec fn keeps_closest_visited(
    beam: Beam,
    distances: Map<Seq<char>, i32>,
    ef: nat,
) -> bool {
    &&& 0 < beam.found.len() <= if ef > 1 { ef } else { 1 }
    &&& forall|id: Seq<char>|
        #![trigger beam.visited.contains(id)]
        beam.visited.contains(id) && distances.contains_key(id) && !holds_id(beam.found, id) ==> {
            &&& beam.found.len() >= ef
            &&& distances[id] >= beam.found.last().distance
        }
}

/// Inserting into a ranked list adds one element and keeps the others.
pub proof fn lemma_ranked_insert_ids(list: Seq<Ranked>, x: Ranked)
    requires
        is_ranked(list),
        !holds_id(list, x.id),
    ensures
        is_ranked(ranked_insert(list, x)),
        ranked_insert(list, x).len() == list.len() + 1,
        forall|i: int|
            0 <= i < ranked_insert(list, x).len() ==> (#[trigger] ranked_insert(list, x)[i] == x
                || list.contains(ranked_insert(list, x)[i])),
        forall|id: Seq<char>| #[trigger]
            holds_id(ranked_insert(list, x), id) <==> holds_id(list, id) || id == x.id,
{
    let at = lemma_ranked_insert(list, x);
    let new = ranked_insert(list, x);
    assert forall|i: int| 0 <= i < new.len() implies (#[trigger] new[i] == x || list.contains(
        new[i],
    )) by {
        if i < at {
            assert(new[i] == list[i]);
        } else if i > at {
            assert(new[i] == list[i - 1]);
        }
    }
    assert forall|id: Seq<char>| #[trigger] holds_id(new, id) <==> holds_id(list, id) || id
        == x.id by {
        if holds_id(new, id) {
            let i = choose|i: int| 0 <= i < new.len() && (#[trigger] new[i]).id == id;
            if i < at {
                assert(list[i].id == id);
            } else if i > at {
                assert(list[i - 1].id == id);
            }
        }
        if holds_id(list, id) {
            let i = choose|i: int| 0 <= i < list.len() && (#[trigger] list[i]).id == id;
            if i < at {
                assert(new[i].id == id);
            } else {
                assert(new[i + 1].id == id);
            }
        }
        if id == x.id {
            assert(new[at].id == id);
        }
    }
}

/// Looking at an id keeps the state valid and the results the closest visited.
pub proof fn lemma_visit_valid(
    beam: Beam,
    id: Seq<char>,
    distances: Map<Seq<char>, i32>,
    ef: nat,
)
    requires
        beam_valid(beam, distances),
        keeps_closest_visited(beam, distances, ef),
    ensures
        beam_valid(visit(beam, id, distances, ef), distances),
        keeps_closest_visited(visit(beam, id, distances, ef), distances, ef),
{
    let after = visit(beam, id, distances, ef);
    if !beam.visited.contains(id) {
        assert(!holds_id(beam.frontier, id));
        assert(!holds_id(beam.found, id));
        if distances.contains_key(id) {
            let x = Ranked { distance: distances[id], id };
            lemma_ranked_insert_ids(beam.frontier, x);
            let kept = if beam.found.len() < ef {
                beam.found
            } else {
                beam.found.drop_last()
            };
            assert(!holds_id(kept, id));
            assert forall|i: int| 0 <= i < kept.len() implies beam.found.contains(kept[i]) by {
                assert(kept[i] == beam.found[i]);
            }
            lemma_ranked_insert_ids(kept, x);
            assert(lists_visited(after.frontier, after.visited, distances));
            assert(lists_visited(after.found, after.visited, distances));
            assert forall|other: Seq<char>|
                #![trigger after.visited.contains(other)]
                after.visited.contains(other) && distances.contains_key(other) && !holds_id(
                    after.found,
                    other,
                ) implies {
                &&& after.found.len() >= ef
                &&& distances[other] >= after.found.last().distance
            } by {
                lemma_left_out(beam, after, x, other, distances, ef);
            }
        }
    }
}

proof fn lemma_left_out(
    beam: Beam,
    after: Beam,
    x: Ranked,
    other: Seq<char>,
    distances: Map<Seq<char>, i32>,
    ef: nat,
)
    requires
        beam_valid(beam, distances),
        keeps_closest_visited(beam, distances, ef),
        !beam.visited.contains(x.id),
        distances.contains_key(x.id),
        x.distance == distances[x.id],
        after == visit(beam, x.id, distances, ef),
        after.visited.contains(other),
        distances.contains_key(other),
        !holds_id(after.found, other),
    ensures
        after.found.len() >= ef,
        after.found.len() > 0,
        distances[other] >= after.found.last().distance,
{
    let found = beam.found;
    assert(!holds_id(found, x.id));
    if found.len() < ef {
        lemma_ranked_insert_ids(found, x);
        assert(beam.visited.contains(other));
    } else if found.len() > 0 && x.distance < found.last().distance {
        let kept = found.drop_last();
        let furthest = found.last();
        assert(!holds_id(kept, x.id));
        lemma_ranked_insert_ids(kept, x);
        let last = after.found.last();
        assert(last == after.found[after.found.len() - 1]);
        assert(last.distance <= furthest.distance) by {
            if last != x {
                let i = choose|i: int| 0 <= i < kept.len() && kept[i] == last;
                assert(closer(found[i], found[found.len() - 1]));
            }
        }
        assert(other != x.id);
        assert(beam.visited.contains(other));
        if holds_id(found, other) {
            let i = choose|i: int| 0 <= i < found.len() && (#[trigger] found[i]).id == other;
            if i < found.len() - 1 {
                assert(kept[i].id == other);
                assert(holds_id(kept, other));
            }
            assert(furthest.id == other);
        }
    } else {
        if other != x.id {
            assert(beam.visited.contains(other));
        }
    }
}

/// Looking at several ids keeps the state valid and the results the closest visited.
pub proof fn lemma_visit_all_valid(
    beam: Beam,
    ids: Seq<Seq<char>>,
    distances: Map<Seq<char>, i32>,
    ef: nat,
)
    requires
        beam_valid(beam, distances),
        keeps_closest_visited(beam, distances, ef),
    ensures
        beam_valid(visit_all(beam, ids, distances, ef), distances),
        keeps_closest_visited(visit_all(beam, ids, distances, ef), distances, ef),
    decreases ids.len(),
{
    if ids.len() > 0 {
        lemma_visit_all_valid(beam, ids.drop_last(), distances, ef);
        lemma_visit_valid(
            visit_all(beam, ids.drop_last(), distances, ef),
            ids.last(),
            distances,
            ef,
        );
    }
}

/// A step keeps the state valid and the results the closest visited.
pub proof fn lemma_advance_valid(
    beam: Beam,
    links: Map<Seq<char>, Seq<Seq<char>>>,
    distances: Map<Seq<char>, i32>,
    ef: nat,
)
    requires
        beam.frontier.len() > 0,
        beam_valid(beam, distances),
        keeps_closest_visited(beam, distances, ef),
    ensures
        beam_valid(
            Beam { frontier: beam.frontier.drop_first(), ..beam },
            distances,
        ),
        beam_valid(advance(beam, links, distances, ef), distances),
        keeps_closest_visited(advance(beam, links, distances, ef), distances, ef),
{
    let rest = Beam { frontier: beam.frontier.drop_first(), ..beam };
    assert forall|i: int| 0 <= i < rest.frontier.len() implies beam.frontier.contains(
        #[trigger] rest.frontier[i],
    ) by {
        assert(rest.frontier[i] == beam.frontier[i + 1]);
    }
    assert(beam_valid(rest, distances));
    if links.contains_key(beam.frontier[0].id) {
        lemma_visit_all_valid(rest, links[beam.frontier[0].id], distances, ef);
    }
}

/// Whatever holds of the state is carried to the end of the search: it is valid, and
/// its results are the closest ids of all that it visited.
pub proof fn lemma_explore_valid(
    beam: Beam,
    links: Map<Seq<char>, Seq<Seq<char>>>,
    distances: Map<Seq<char>, i32>,
    ef: nat,
)
    requires
        distances.dom().finite(),
        beam_valid(beam, distances),
        keeps_closest_visited(beam, distances, ef),
    ensures
        beam_valid(explore(beam, links, distances, ef), distances),
        keeps_closest_visited(explore(beam, links, distances, ef), distances, ef),
        finished(explore(beam, links, distances, ef), ef),
    decreases pending(beam, distances),
{
    if !finished(beam, ef) {
        lemma_advance_pending(beam, links, distances, ef);
        lemma_advance_valid(beam, links, distances, ef);
        lemma_explore_valid(advance(beam, links, distances, ef), links, distances, ef);
    }
}

/// The first state of a search from a stored entry point is valid.
pub proof fn lemma_start_valid(entry: Seq<char>, distances: Map<Seq<char>, i32>, ef: nat)
    requires
        distances.contains_key(entry),
    ensures
        beam_valid(start(entry, distances), distances),
        keeps_closest_visited(start(entry, distances), distances, ef),
{
    let first = start(entry, distances);
    assert(first.found[0].id == entry);
    assert forall|id: Seq<char>| first.visited.contains(id) implies holds_id(first.found, id) by {
        assert(id == entry);
    }
}

/// A search gives each stored id at most once, with its true distance, nearest
/// first, and never more than `ef` of them (or one, when `ef` is zero). Of all
/// stored ids that it visits, it gives the closest.
pub proof fn law_search_gives_the_closest_visited(
    entry: Seq<char>,
    links: Map<Seq<char>, Seq<Seq<char>>>,
    distances: Map<Seq<char>, i32>,
    ef: nat,
)
    requires
        distances.dom().finite(),
        distances.contains_key(entry),
    ensures
        ({
            let end = explore(start(entry, distances), links, distances, ef);
            let found = beam_search(Some(entry), links, distances, ef);
            &&& found == end.found
            &&& is_ranked(found)
            &&& 0 < found.len() <= if ef > 1 { ef } else { 1 }
            &&& forall|i: int, j: int|
                0 <= i < j < found.len() ==> (#[trigger] found[i]).id != (#[trigger] found[j]).id
            &&& forall|i: int|
                0 <= i < found.len() ==> {
                    &&& distances.contains_key((#[trigger] found[i]).id)
                    &&& found[i].distance == distances[found[i].id]
                }
            &&& forall|id: Seq<char>|
                #![trigger end.visited.contains(id)]
                end.visited.contains(id) && distances.contains_key(id) && !holds_id(found, id)
                    ==> found.len() >= ef && distances[id] >= found.last().distance
        }),
{
    lemma_start_valid(entry, distances, ef);
    lemma_explore_valid(start(entry, distances), links, distances, ef);
    let found = beam_search(Some(entry), links, distances, ef);
    assert forall|i: int, j: int| 0 <= i < j < found.len() implies (#[trigger] found[i]).id != (
    #[trigger] found[j]).id by {
        if found[i].id == found[j].id {
            assert(found[i] == found[j]);
            lemma_closer_irreflexive(found[i]);
        }
    }
}

/// `path` leads from link to link over stored ids.
pub open spec fn is_path(
    path: Seq<Seq<char>>,
    links: Map<Seq<char>, Seq<Seq<char>>>,
    stored: Set<Seq<char>>,
) -> bool {
    &&& path.len() > 0
    &&& forall|i: int| 0 <= i < path.len() ==> stored.contains(#[trigger] path[i])
    &&& forall|i: int|
        #![trigger path[i]]
        0 <= i < path.len() - 1 ==> links.contains_key(path[i]) && links[path[i]].contains(
            path[i + 1],
        )
}

/// Following links over stored ids leads from `from` to `to`.
pub open spec fn reachable(
    from: Seq<char>,
    to: Seq<char>,
    links: Map<Seq<char>, Seq<Seq<char>>>,
    stored: Set<Seq<char>>,
) -> bool {
    exists|path: Seq<Seq<char>>|
        #[trigger] is_path(path, links, stored) && path[0] == from && path.last() == to
}

/// The links of every visited stored id were followed, but for the ids left to follow.
spec fn links_followed(
    beam: Beam,
    links: Map<Seq<char>, Seq<Seq<char>>>,
    distances: Map<Seq<char>, i32>,
) -> bool {
    forall|id: Seq<char>, to: Seq<char>|
        #![trigger beam.visited.contains(id), beam.visited.contains(to)]
        beam.visited.contains(id) && distances.contains_key(id) && !holds_id(beam.frontier, id)
            && links.contains_key(id) && links[id].contains(to) ==> beam.visited.contains(to)
}

/// Every visited stored id can be reached from the entry point.
spec fn visits_reachable(
    beam: Beam,
    entry: Seq<char>,
    links: Map<Seq<char>, Seq<Seq<char>>>,
    distances: Map<Seq<char>, i32>,
) -> bool {
    forall|id: Seq<char>|
        #![trigger beam.visited.contains(id)]
        beam.visited.contains(id) && distances.contains_key(id) ==> reachable(
            entry,
            id,
            links,
            distances.dom(),
        )
}

/// A ranked list of stored ids is no longer than the number of stored ids, and lists
/// them all once it is as long.
proof fn lemma_found_count(beam: Beam, distances: Map<Seq<char>, i32>)
    requires
        distances.dom().finite(),
        beam_valid(beam, distances),
    ensures
        beam.found.len() <= distances.dom().len(),
        beam.found.len() >= distances.dom().len() ==> forall|id: Seq<char>|
            distances.contains_key(id) ==> #[trigger] holds_id(beam.found, id),
{
    let ids = beam.found.map_values(|x: Ranked| x.id);
    assert forall|i: int, j: int| 0 <= i < ids.len() && 0 <= j < ids.len() && i != j implies ids[i]
        != ids[j] by {
        let (a, b) = if i < j { (i, j) } else { (j, i) };
        if ids[a] == ids[b] {
            assert(beam.found[a] == beam.found[b]);
            lemma_closer_irreflexive(beam.found[a]);
        }
    }
    ids.unique_seq_to_set();
    let listed = ids.to_set();
    assert(listed.subset_of(distances.dom()));
    vstd::set_lib::lemma_len_subset(listed, distances.dom());
    if beam.found.len() >= distances.dom().len() {
        vstd::set_lib::lemma_subset_equality(listed, distances.dom());
        assert forall|id: Seq<char>| distances.contains_key(id) implies #[trigger] holds_id(
            beam.found,
            id,
        ) by {
            assert(listed.contains(id));
            let i = choose|i: int| 0 <= i < ids.len() && ids[i] == id;
            assert(beam.found[i].id == id);
        }
    }
}

proof fn lemma_visit_all_covers(
    beam: Beam,
    ids: Seq<Seq<char>>,
    distances: Map<Seq<char>, i32>,
    ef: nat,
)
    requires
        beam_valid(beam, distances),
        keeps_closest_visited(beam, distances, ef),
    ensures
        ({
            let end = visit_all(beam, ids, distances, ef);
            &&& forall|id: Seq<char>|
                #![trigger end.visited.contains(id)]
                end.visited.contains(id) <==> beam.visited.contains(id) || ids.contains(id)
            &&& forall|id: Seq<char>|
                beam.visited.contains(id) || !distances.contains_key(id) ==> (
                #[trigger] holds_id(end.frontier, id) <==> holds_id(beam.frontier, id))
            &&& forall|id: Seq<char>|
                #![trigger end.visited.contains(id)]
                end.visited.contains(id) && !beam.visited.contains(id) && distances.contains_key(id)
                    ==> holds_id(end.frontier, id)
        }),
    decreases ids.len(),
{
    if ids.len() > 0 {
        let front = ids.drop_last();
        let id = ids.last();
        let mid = visit_all(beam, front, distances, ef);
        lemma_visit_all_covers(beam, front, distances, ef);
        lemma_visit_all_valid(beam, front, distances, ef);
        let end = visit_all(beam, ids, distances, ef);
        assert(end == visit(mid, id, distances, ef));
        assert forall|other: Seq<char>| ids.contains(other) <==> front.contains(other) || other
            == id by {
            if ids.contains(other) && other != id {
                let i = choose|i: int| 0 <= i < ids.len() && ids[i] == other;
                assert(front[i] == other);
            }
            if front.contains(other) {
                let i = choose|i: int| 0 <= i < front.len() && front[i] == other;
                assert(ids[i] == other);
            }
            if other == id {
                assert(ids[ids.len() - 1] == other);
            }
        }
        if !mid.visited.contains(id) && distances.contains_key(id) {
            let x = Ranked { distance: distances[id], id };
            assert(!holds_id(mid.frontier, id));
            lemma_ranked_insert_ids(mid.frontier, x);
        }
    }
}

proof fn lemma_explore_covers(
    beam: Beam,
    entry: Seq<char>,
    links: Map<Seq<char>, Seq<Seq<char>>>,
    distances: Map<Seq<char>, i32>,
    ef: nat,
)
    requires
        distances.dom().finite(),
        beam_valid(beam, distances),
        keeps_closest_visited(beam, distances, ef),
        visits_reachable(beam, entry, links, distances),
        links_followed(beam, links, distances),
        beam.visited.contains(entry),
    ensures
        ({
            let end = explore(beam, links, distances, ef);
            &&& end.visited.contains(entry)
            &&& beam_valid(end, distances)
            &&& keeps_closest_visited(end, distances, ef)
            &&& visits_reachable(end, entry, links, distances)
            &&& links_followed(end, links, distances)
            &&& finished(end, ef)
        }),
    decreases pending(beam, distances),
{
    if !finished(beam, ef) {
        let nearest = beam.frontier[0];
        let rest = Beam { frontier: beam.frontier.drop_first(), ..beam };
        let next = advance(beam, links, distances, ef);
        lemma_advance_pending(beam, links, distances, ef);
        lemma_advance_valid(beam, links, distances, ef);
        assert forall|id: Seq<char>| #[trigger] holds_id(rest.frontier, id) <==> holds_id(
            beam.frontier,
            id,
        ) && id != nearest.id by {
            if holds_id(beam.frontier, id) && id != nearest.id {
                let i = choose|i: int|
                    0 <= i < beam.frontier.len() && (#[trigger] beam.frontier[i]).id == id;
                assert(rest.frontier[i - 1].id == id);
            }
            if holds_id(rest.frontier, id) {
                let i = choose|i: int|
                    0 <= i < rest.frontier.len() && (#[trigger] rest.frontier[i]).id == id;
                assert(beam.frontier[i + 1].id == id);
                if id == nearest.id {
                    assert(beam.frontier[i + 1] == beam.frontier[0]);
                    assert(closer(beam.frontier[0], beam.frontier[i + 1]));
                    lemma_closer_irreflexive(nearest);
                }
            }
        }
        if links.contains_key(nearest.id) {
            let out = links[nearest.id];
            lemma_visit_all_covers(rest, out, distances, ef);
            assert(beam.visited.contains(nearest.id));
            assert forall|id: Seq<char>|
                #![trigger next.visited.contains(id)]
                next.visited.contains(id) && distances.contains_key(id) implies reachable(
                entry,
                id,
                links,
                distances.dom(),
            ) by {
                if !beam.visited.contains(id) {
                    let path = choose|path: Seq<Seq<char>>|
                        #[trigger] is_path(path, links, distances.dom()) && path[0] == entry
                            && path.last() == nearest.id;
                    let longer = path.push(id);
                    assert forall|i: int|
                        #![trigger longer[i]]
                        0 <= i < longer.len() - 1 implies links.contains_key(longer[i])
                        && links[longer[i]].contains(longer[i + 1]) by {
                        assert(longer[i] == path[i]);
                        if i < path.len() - 1 {
                            assert(longer[i + 1] == path[i + 1]);
                        }
                    }
                    assert(is_path(longer, links, distances.dom()));
                    assert(longer[0] == entry && longer.last() == id);
                }
            }
            assert forall|id: Seq<char>, to: Seq<char>|
                #![trigger next.visited.contains(id), next.visited.contains(to)]
                next.visited.contains(id) && distances.contains_key(id) && !holds_id(
                    next.frontier,
                    id,
                ) && links.contains_key(id) && links[id].contains(
                    to,
                ) implies next.visited.contains(to) by {
                assert(beam.visited.contains(id));
                if id != nearest.id {
                    assert(!holds_id(rest.frontier, id));
                    assert(beam.visited.contains(to) ==> next.visited.contains(to));
                    assert(!holds_id(beam.frontier, id));
                }
            }
        } else {
            assert forall|id: Seq<char>, to: Seq<char>|
                #![trigger next.visited.contains(id), next.visited.contains(to)]
                next.visited.contains(id) && distances.contains_key(id) && !holds_id(
                    next.frontier,
                    id,
                ) && links.contains_key(id) && links[id].contains(
                    to,
                ) implies next.visited.contains(to) by {
                assert(!holds_id(rest.frontier, id));
                assert(!holds_id(beam.frontier, id));
            }
        }
        lemma_explore_covers(next, entry, links, distances, ef);
    }
}

proof fn lemma_path_visited(
    end: Beam,
    path: Seq<Seq<char>>,
    i: int,
    links: Map<Seq<char>, Seq<Seq<char>>>,
    distances: Map<Seq<char>, i32>,
)
    requires
        is_path(path, links, distances.dom()),
        0 <= i < path.len(),
        end.visited.contains(path[0]),
        links_followed(end, links, distances),
        end.frontier.len() == 0,
    ensures
        end.visited.contains(path[i]),
    decreases i,
{
    if i > 0 {
        lemma_path_visited(end, path, i - 1, links, distances);
        assert(links[path[i - 1]].contains(path[i - 1 + 1]));
    }
}

/// A search gives only stored ids that links lead to from the entry point, and if it
/// gives fewer than `ef` it gives all of these.
pub proof fn law_search_covers_reachable(
    entry: Seq<char>,
    links: Map<Seq<char>, Seq<Seq<char>>>,
    distances: Map<Seq<char>, i32>,
    ef: nat,
    id: Seq<char>,
)
    requires
        distances.dom().finite(),
        distances.contains_key(entry),
    ensures
        ({
            let found = beam_search(Some(entry), links, distances, ef);
            &&& holds_id(found, id) ==> reachable(entry, id, links, distances.dom())
            &&& reachable(entry, id, links, distances.dom()) && found.len() < ef ==> holds_id(found, id)
        }),
{
    let first = start(entry, distances);
    let end = explore(first, links, distances, ef);
    lemma_start_valid(entry, distances, ef);
    assert(first.frontier[0].id == entry);
    assert forall|other: Seq<char>|
        #![trigger first.visited.contains(other)]
        first.visited.contains(other) implies other == entry && holds_id(
        first.frontier,
        other,
    ) by {}
    assert(reachable(entry, entry, links, distances.dom())) by {
        let path = seq![entry];
        assert(is_path(path, links, distances.dom()));
        assert(path[0] == entry && path.last() == entry);
    }
    lemma_explore_covers(first, entry, links, distances, ef);
    if holds_id(end.found, id) {
        let i = choose|i: int| 0 <= i < end.found.len() && (#[trigger] end.found[i]).id == id;
        assert(end.visited.contains(end.found[i].id));
    }
    if reachable(entry, id, links, distances.dom()) && end.found.len() < ef {
        let path = choose|path: Seq<Seq<char>>|
            #[trigger] is_path(path, links, distances.dom()) && path[0] == entry && path.last() == id;
        assert(distances.contains_key(path[path.len() - 1]));
        lemma_path_visited(end, path, path.len() - 1, links, distances);
        assert(end.visited.contains(id));
    }
}

/// With a beam as wide as the number of stored ids, a search gives exactly the
/// stored ids that links lead to from the entry point.
pub proof fn law_wide_search_gives_all_reachable(
    entry: Seq<char>,
    links: Map<Seq<char>, Seq<Seq<char>>>,
    distances: Map<Seq<char>, i32>,
    ef: nat,
    id: Seq<char>,
)
    requires
        distances.dom().finite(),
        distances.contains_key(entry),
        ef >= distances.dom().len(),
    ensures
        holds_id(beam_search(Some(entry), links, distances, ef), id) <==> reachable(
            entry,
            id,
            links,
            distances.dom(),
        ),
{
    law_search_covers_reachable(entry, links, distances, ef, id);
    lemma_start_valid(entry, distances, ef);
    lemma_explore_valid(start(entry, distances), links, distances, ef);
    lemma_found_count(explore(start(entry, distances), links, distances, ef), distances);
    if reachable(entry, id, links, distances.dom()) {
        let path = choose|path: Seq<Seq<char>>|
            #[trigger] is_path(path, links, distances.dom()) && path[0] == entry && path.last() == id;
        assert(distances.contains_key(path[path.len() - 1]));
    }
}

proof fn lemma_visit_all_keeps_visited(
    beam: Beam,
    ids: Seq<Seq<char>>,
    distances: Map<Seq<char>, i32>,
    ef: nat,
    id: Seq<char>,
)
    requires
        beam.visited.contains(id),
    ensures
        visit_all(beam, ids, distances, ef).visited.contains(id),
    decreases ids.len(),
{
    if ids.len() > 0 {
        lemma_visit_all_keeps_visited(beam, ids.drop_last(), distances, ef, id);
    }
}

proof fn lemma_explore_keeps_visited(
    beam: Beam,
    links: Map<Seq<char>, Seq<Seq<char>>>,
    distances: Map<Seq<char>, i32>,
    ef: nat,
    id: Seq<char>,
)
    requires
        distances.dom().finite(),
        beam.visited.contains(id),
    ensures
        explore(beam, links, distances, ef).visited.contains(id),
    decreases pending(beam, distances),
{
    if !finished(beam, ef) {
        let rest = Beam { frontier: beam.frontier.drop_first(), ..beam };
        lemma_advance_pending(beam, links, distances, ef);
        if links.contains_key(beam.frontier[0].id) {
            lemma_visit_all_keeps_visited(
                rest,
                links[beam.frontier[0].id],
                distances,
                ef,
                id,
            );
        }
        lemma_explore_keeps_visited(advance(beam, links, distances, ef), links, distances, ef, id);
    }
}

/// However narrow its beam, a search looks at its entry point and at everything that the
/// entry point links to.
pub proof fn law_search_visits_the_links_of_its_entry(
    entry: Seq<char>,
    links: Map<Seq<char>, Seq<Seq<char>>>,
    distances: Map<Seq<char>, i32>,
    ef: nat,
    id: Seq<char>,
)
    requires
        distances.dom().finite(),
        distances.contains_key(entry),
        id == entry || (links.contains_key(entry) && links[entry].contains(id)),
    ensures
        explore(start(entry, distances), links, distances, ef).visited.contains(id),
{
    let first = start(entry, distances);
    let rest = Beam { frontier: first.frontier.drop_first(), ..first };
    let next = advance(first, links, distances, ef);
    lemma_start_valid(entry, distances, ef);
    lemma_advance_valid(first, links, distances, ef);
    assert(first.frontier[0] == first.found.last());
    assert(!finished(first, ef));
    if id == entry {
        lemma_explore_keeps_visited(first, links, distances, ef, id);
    } else {
        lemma_visit_all_covers(rest, links[entry], distances, ef);
        assert(next.visited.contains(id));
        lemma_explore_keeps_visited(next, links, distances, ef, id);
    }
}

/// A search does not stop while one of its results leads to something nearer: whatever
/// stored id a result links to is a result too, or there are `ef` results that are all at
/// least as near.
pub proof fn law_links_of_results_are_followed(
    entry: Seq<char>,
    links: Map<Seq<char>, Seq<Seq<char>>>,
    distances: Map<Seq<char>, i32>,
    ef: nat,
    x: int,
    to: Seq<char>,
)
    requires
        distances.dom().finite(),
        distances.contains_key(entry),
        0 <= x < beam_search(Some(entry), links, distances, ef).len(),
        links.contains_key(beam_search(Some(entry), links, distances, ef)[x].id),
        links[beam_search(Some(entry), links, distances, ef)[x].id].contains(to),
        distances.contains_key(to),
    ensures
        ({
            let found = beam_search(Some(entry), links, distances, ef);
            ||| exists|j: int| 0 <= j < found.len() && (#[trigger] found[j]).id == to
            ||| found.len() >= ef && forall|j: int|
                0 <= j < found.len() ==> (#[trigger] found[j]).distance <= distances[to]
        }),
{
    let first = start(entry, distances);
    let end = explore(first, links, distances, ef);
    let found = end.found;
    lemma_start_valid(entry, distances, ef);
    assert(first.frontier[0].id == entry);
    assert forall|other: Seq<char>|
        #![trigger first.visited.contains(other)]
        first.visited.contains(other) implies other == entry && holds_id(
        first.frontier,
        other,
    ) by {}
    assert(reachable(entry, entry, links, distances.dom())) by {
        let path = seq![entry];
        assert(is_path(path, links, distances.dom()));
        assert(path[0] == entry && path.last() == entry);
    }
    lemma_explore_covers(first, entry, links, distances, ef);
    let result = found[x];
    assert(end.visited.contains(result.id));
    assert forall|j: int| 0 <= j < found.len() implies (#[trigger] found[j]).distance
        <= found.last().distance by {
        if j < found.len() - 1 {
            assert(closer(found[j], found[found.len() - 1]));
        }
    }
    assert(!holds_id(end.frontier, result.id)) by {
        if holds_id(end.frontier, result.id) {
            let f = choose|f: int|
                0 <= f < end.frontier.len() && (#[trigger] end.frontier[f]).id == result.id;
            if f > 0 {
                assert(closer(end.frontier[0], end.frontier[f]));
            }
            assert(end.frontier[f].distance == result.distance);
        }
    }
    assert(end.visited.contains(to));
}

/// A search starts with its entry point as the only id seen, to follow and found.
pub proof fn law_search_starts_at_its_entry(
    entry: Seq<char>,
    links: Map<Seq<char>, Seq<Seq<char>>>,
    distances: Map<Seq<char>, i32>,
    ef: nat,
)
    ensures
        beam_search(None, links, distances, ef) == Seq::<Ranked>::empty(),
        beam_search(Some(entry), links, distances, ef) == explore(
            start(entry, distances),
            links,
            distances,
            ef,
        ).found,
        distances.contains_key(entry) ==> start(entry, distances) == (Beam {
            visited: Set::empty().insert(entry),
            frontier: seq![Ranked { distance: distances[entry], id: entry }],
            found: seq![Ranked { distance: distances[entry], id: entry }],
        }),
        !distances.contains_key(entry) ==> start(entry, distances).found.len() == 0 && start(
            entry,
            distances,
        ).frontier.len() == 0,
{
    assert(start(entry, distances).visited =~= if distances.contains_key(entry) {
        Set::empty().insert(entry)
    } else {
        Set::empty()
    });
}

/// `after` is the ranked list `before` with `x` behind all that rank before it and in front
/// of all that rank after it.
pub open spec fn is_put_in_place(before: Seq<Ranked>, x: Ranked, after: Seq<Ranked>) -> bool {
    exists|at: int|
        0 <= at <= before.len() && after == #[trigger] before.insert(at, x) && (forall|i: int|
            0 <= i < at ==> closer(#[trigger] before[i], x)) && (forall|i: int|
            at <= i < before.len() ==> closer(x, #[trigger] before[i]))
}

proof fn lemma_put_in_place(list: Seq<Ranked>, x: Ranked)
    requires
        is_ranked(list),
        !holds_id(list, x.id),
    ensures
        is_put_in_place(list, x, ranked_insert(list, x)),
{
    law_ranked_insert_puts_one_in_its_place(list, x);
    let at = choose|at: int|
        0 <= at <= list.len() && ranked_insert(list, x) == #[trigger] list.insert(at, x) && (
        forall|i: int| 0 <= i < at ==> closer(#[trigger] list[i], x)) && (forall|i: int|
            at <= i < list.len() ==> closer(x, #[trigger] list[i]));
    assert(ranked_insert(list, x) == list.insert(at, x));
}

/// An id that was seen before changes nothing. A new one is seen from then on; if it is
/// stored it is to be followed, and it becomes a result while there are fewer than `ef`, or
/// in place of the furthest if it is strictly nearer. One that is as far as the furthest
/// does not take its place.
pub proof fn law_what_meeting_an_id_changes(
    beam: Beam,
    id: Seq<char>,
    distances: Map<Seq<char>, i32>,
    ef: nat,
)
    requires
        beam_valid(beam, distances),
    ensures
        ({
            let after = visit(beam, id, distances, ef);
            let x = Ranked { distance: distances[id], id };
            &&& after.visited == beam.visited.insert(id)
            &&& beam.visited.contains(id) || !distances.contains_key(id) ==> after.frontier
                == beam.frontier && after.found == beam.found
            &&& !beam.visited.contains(id) && distances.contains_key(id) ==> {
                &&& is_put_in_place(beam.frontier, x, after.frontier)
                &&& beam.found.len() < ef ==> is_put_in_place(beam.found, x, after.found)
                &&& beam.found.len() >= ef && beam.found.len() > 0 && distances[id]
                    < beam.found.last().distance ==> is_put_in_place(
                    beam.found.drop_last(),
                    x,
                    after.found,
                )
                &&& beam.found.len() >= ef && (beam.found.len() == 0 || distances[id]
                    >= beam.found.last().distance) ==> after.found == beam.found
            }
        }),
{
    let after = visit(beam, id, distances, ef);
    let x = Ranked { distance: distances[id], id };
    if beam.visited.contains(id) {
        assert(beam.visited.insert(id) =~= beam.visited);
    } else if distances.contains_key(id) {
        assert(!holds_id(beam.frontier, id));
        assert(!holds_id(beam.found, id));
        lemma_put_in_place(beam.frontier, x);
        if beam.found.len() < ef {
            lemma_put_in_place(beam.found, x);
        } else if beam.found.len() > 0 {
            let kept = beam.found.drop_last();
            assert(!holds_id(kept, id)) by {
                if holds_id(kept, id) {
                    let i = choose|i: int| 0 <= i < kept.len() && (#[trigger] kept[i]).id == id;
                    assert(beam.found[i].id == id);
                }
            }
            lemma_put_in_place(kept, x);
        }
    }
}

/// Ids are looked at one after the other.
pub proof fn law_ids_are_met_in_turn(
    beam: Beam,
    ids: Seq<Seq<char>>,
    id: Seq<char>,
    distances: Map<Seq<char>, i32>,
    ef: nat,
)
    ensures
        visit_all(beam, Seq::empty(), distances, ef) == beam,
        visit_all(beam, ids.push(id), distances, ef) == visit(
            visit_all(beam, ids, distances, ef),
            id,
            distances,
            ef,
        ),
{
    assert(ids.push(id).drop_last() =~= ids);
}

/// A search stops when nothing is left to follow, or when there are `ef` results and the
/// nearest id that is left is further than all of them. Until then it goes on to the ids
/// that the nearest one left links to.
pub proof fn law_search_follows_the_nearest_that_is_left(
    beam: Beam,
    links: Map<Seq<char>, Seq<Seq<char>>>,
    distances: Map<Seq<char>, i32>,
    ef: nat,
)
    requires
        distances.dom().finite(),
    ensures
        beam.frontier.len() == 0 ==> explore(beam, links, distances, ef) == beam,
        beam.frontier.len() > 0 && beam.found.len() > 0 && beam.found.len() >= ef
            && beam.frontier[0].distance > beam.found.last().distance ==> explore(
            beam,
            links,
            distances,
            ef,
        ) == beam,
        beam.frontier.len() > 0 && (beam.found.len() == 0 || beam.found.len() < ef
            || beam.frontier[0].distance <= beam.found.last().distance) ==> explore(
            beam,
            links,
            distances,
            ef,
        ) == explore(
            visit_all(
                Beam {
                    visited: beam.visited,
                    frontier: beam.frontier.drop_first(),
                    found: beam.found,
                },
                if links.contains_key(beam.frontier[0].id) {
                    links[beam.frontier[0].id]
                } else {
                    Seq::empty()
                },
                distances,
                ef,
            ),
            links,
            distances,
            ef,
        ),
{
    if beam.frontier.len() > 0 {
        let rest = Beam { frontier: beam.frontier.drop_first(), ..beam };
        assert(visit_all(rest, Seq::empty(), distances, ef) == rest);
    }
}

/// An id can be reached exactly if it is the stored start itself, or if an id that can be
/// reached links to it and it is stored.
pub proof fn law_reachable_is_followed_link_by_link(
    from: Seq<char>,
    to: Seq<char>,
    links: Map<Seq<char>, Seq<Seq<char>>>,
    stored: Set<Seq<char>>,
)
    ensures
        stored.contains(from) ==> reachable(from, from, links, stored),
        reachable(from, to, links, stored) ==> stored.contains(from) && stored.contains(to),
        reachable(from, to, links, stored) && from != to ==> exists|via: Seq<char>|
            #[trigger] reachable(from, via, links, stored) && links.contains_key(via)
                && links[via].contains(to),
        forall|via: Seq<char>|
            #[trigger] reachable(from, via, links, stored) && links.contains_key(via)
                && links[via].contains(to) && stored.contains(to) ==> reachable(
                from,
                to,
                links,
                stored,
            ),
{
    if stored.contains(from) {
        let path = seq![from];
        assert(is_path(path, links, stored));
        assert(path[0] == from && path.last() == from);
    }
    if reachable(from, to, links, stored) {
        let path = choose|path: Seq<Seq<char>>|
            #[trigger] is_path(path, links, stored) && path[0] == from && path.last() == to;
        assert(stored.contains(path[0]));
        assert(stored.contains(path[path.len() - 1]));
        if from != to {
            let shorter = path.drop_last();
            assert forall|i: int| 0 <= i < shorter.len() implies stored.contains(
                #[trigger] shorter[i],
            ) by {
                assert(shorter[i] == path[i]);
            }
            assert forall|i: int|
                #![trigger shorter[i]]
                0 <= i < shorter.len() - 1 implies links.contains_key(shorter[i])
                && links[shorter[i]].contains(shorter[i + 1]) by {
                assert(shorter[i] == path[i] && shorter[i + 1] == path[i + 1]);
            }
            assert(is_path(shorter, links, stored));
            let via = shorter.last();
            assert(shorter[0] == from);
            assert(reachable(from, via, links, stored));
            assert(path[path.len() - 2] == via);
            assert(links[path[path.len() - 2]].contains(path[path.len() - 2 + 1]));
        }
    }
    assert forall|via: Seq<char>|
        #[trigger] reachable(from, via, links, stored) && links.contains_key(via)
            && links[via].contains(to) && stored.contains(to) implies reachable(
        from,
        to,
        links,
        stored,
    ) by {
        let path = choose|path: Seq<Seq<char>>|
            #[trigger] is_path(path, links, stored) && path[0] == from && path.last() == via;
        let longer = path.push(to);
        assert forall|i: int| 0 <= i < longer.len() implies stored.contains(
            #[trigger] longer[i],
        ) by {
            if i < path.len() {
                assert(longer[i] == path[i]);
            }
        }
        assert forall|i: int|
            #![trigger longer[i]]
            0 <= i < longer.len() - 1 implies links.contains_key(longer[i])
            && links[longer[i]].contains(longer[i + 1]) by {
            assert(longer[i] == path[i]);
            if i < path.len() - 1 {
                assert(longer[i + 1] == path[i + 1]);
            }
        }
        assert(is_path(longer, links, stored));
        assert(longer[0] == from && longer.last() == to);
    }
}

} // verus!
