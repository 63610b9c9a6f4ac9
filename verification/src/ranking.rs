//! Neighbours of a query and lists of them, nearest first.

use crate::text::{
    lemma_text_less_irreflexive, lemma_text_less_total, lemma_text_less_transitive, text_before,
    text_less,
};
use vstd::prelude::*;

verus! {

/// A vector's id together with its distance to the query.
pub struct Ranked {
    pub distance: i32,
    pub id: Seq<char>,
}

/// `a` ranks before `b`: it is closer, or as close with the earlier id.
pub open spec fn closer(a: Ranked, b: Ranked) -> bool {
    a.distance < b.distance || (a.distance == b.distance && text_less(a.id, b.id))
}

/// Each element ranks before all that follow it.
pub open spec fn is_ranked(list: Seq<Ranked>) -> bool {
    forall|i: int, j: int| 0 <= i < j < list.len() ==> closer(#[trigger] list[i], #[trigger] list[j])
}

/// Some element of the list has this id.
pub open spec fn holds_id(list: Seq<Ranked>, id: Seq<char>) -> bool {
    exists|i: int| 0 <= i < list.len() && (#[trigger] list[i]).id == id
}

/// The list with `x` put in front of the first element that it ranks before.
pub open spec fn ranked_insert(list: Seq<Ranked>, x: Ranked) -> Seq<Ranked>
    decreases list.len(),
{
    if list.len() == 0 {
        seq![x]
    } else if closer(x, list[0]) {
        seq![x] + list
    } else {
        seq![list[0]] + ranked_insert(list.drop_first(), x)
    }
}

/// No element ranks before itself.
pub proof fn lemma_closer_irreflexive(a: Ranked)
    ensures
        !closer(a, a),
{
    lemma_text_less_irreflexive(a.id);
}

/// The ranking order is transitive.
pub proof fn lemma_closer_transitive(a: Ranked, b: Ranked, c: Ranked)
    requires
        closer(a, b),
        closer(b, c),
    ensures
        closer(a, c),
{
    if a.distance == b.distance && b.distance == c.distance {
        lemma_text_less_transitive(a.id, b.id, c.id);
    }
}

/// Of two elements with different ids one ranks before the other, not both.
pub proof fn lemma_closer_total(a: Ranked, b: Ranked)
    requires
        a.id != b.id,
    ensures
        closer(a, b) != closer(b, a),
{
    lemma_text_less_total(a.id, b.id);
    if closer(a, b) && closer(b, a) {
        lemma_closer_transitive(a, b, a);
        lemma_closer_irreflexive(a);
    }
}

/// Inserting at a position that splits the list around `x` is `ranked_insert`.
pub proof fn lemma_ranked_insert_at(list: Seq<Ranked>, x: Ranked, at: int)
    requires
        0 <= at <= list.len(),
        forall|i: int| 0 <= i < at ==> !closer(x, #[trigger] list[i]),
        at < list.len() ==> closer(x, list[at]),
    ensures
        ranked_insert(list, x) == list.insert(at, x),
    decreases list.len(),
{
    if list.len() == 0 {
        assert(list.insert(at, x) =~= seq![x]);
    } else if at == 0 {
        assert(list.insert(at, x) =~= seq![x] + list);
    } else {
        let rest = list.drop_first();
        assert forall|i: int| 0 <= i < at - 1 implies !closer(x, #[trigger] rest[i]) by {
            assert(rest[i] == list[i + 1]);
        }
        lemma_ranked_insert_at(rest, x, at - 1);
        assert(list.insert(at, x) =~= seq![list[0]] + rest.insert(at - 1, x));
    }
}

/// Inserting a new id keeps the list ranked and adds just that element.
pub proof fn lemma_ranked_insert(list: Seq<Ranked>, x: Ranked) -> (at: int)
    requires
        is_ranked(list),
        !holds_id(list, x.id),
    ensures
        0 <= at <= list.len(),
        ranked_insert(list, x) == list.insert(at, x),
        is_ranked(ranked_insert(list, x)),
{
    let at = first_after(list, x);
    lemma_first_after(list, x);
    lemma_ranked_insert_at(list, x, at);
    let new = list.insert(at, x);
    assert forall|i: int, j: int| 0 <= i < j < new.len() implies closer(
        #[trigger] new[i],
        #[trigger] new[j],
    ) by {
        if i == at {
            assert(new[j] == list[j - 1]);
            if j - 1 > at {
                assert(closer(list[at], list[j - 1]));
                lemma_closer_transitive(x, list[at], list[j - 1]);
            }
        } else if j == at {
            assert(new[i] == list[i]);
            assert(list[i].id != x.id);
            lemma_closer_total(x, list[i]);
        } else {
            let oi = if i < at { i } else { i - 1 };
            let oj = if j < at { j } else { j - 1 };
            assert(new[i] == list[oi] && new[j] == list[oj]);
        }
    }
    at
}

spec fn first_after(list: Seq<Ranked>, x: Ranked) -> int
    decreases list.len(),
{
    if list.len() == 0 || closer(x, list[0]) {
        0
    } else {
        1 + first_after(list.drop_first(), x)
    }
}

proof fn lemma_first_after(list: Seq<Ranked>, x: Ranked)
    ensures
        0 <= first_after(list, x) <= list.len(),
        forall|i: int| 0 <= i < first_after(list, x) ==> !closer(x, #[trigger] list[i]),
        first_after(list, x) < list.len() ==> closer(x, list[first_after(list, x)]),
    decreases list.len(),
{
    if list.len() > 0 && !closer(x, list[0]) {
        let rest = list.drop_first();
        lemma_first_after(rest, x);
        assert forall|i: int| 0 <= i < first_after(list, x) implies !closer(
            x,
            #[trigger] list[i],
        ) by {
            if i > 0 {
                assert(rest[i - 1] == list[i]);
            }
        }
    }
}

/// A stored vector found by a search, with its distance to the query.
pub struct Neighbor {
    pub id: String,
    pub distance: i32,
}

impl View for Neighbor {
    type V = Ranked;

    open spec fn view(&self) -> Ranked {
        Ranked { distance: self.distance, id: self.id@ }
    }
}

/// The neighbours of a list as ids and distances.
pub open spec fn ranked_list(list: Seq<Neighbor>) -> Seq<Ranked> {
    list.map_values(|n: Neighbor| n@)
}

impl Neighbor {
    /// Whether this neighbour ranks before `other`.
    pub fn closer_than(&self, other: &Neighbor) -> (is_closer: bool)
        ensures
            is_closer == closer(self@, other@),
    {
        if self.distance == other.distance {
            text_before(self.id.as_str(), other.id.as_str())
        } else {
            self.distance < other.distance
        }
    }
}

/// Puts a neighbour whose id the list does not hold at its place in a ranked list.
pub fn insert_ranked(list: &mut Vec<Neighbor>, x: Neighbor)
    requires
        is_ranked(ranked_list(old(list)@)),
        !holds_id(ranked_list(old(list)@), x.id@),
    ensures
        ranked_list(final(list)@) == ranked_insert(ranked_list(old(list)@), x@),
{
    let ghost before = ranked_list(list@);
    let mut low: usize = 0;
    let mut high: usize = list.len();
    while low < high
        invariant
            before == ranked_list(list@),
            is_ranked(before),
            !holds_id(before, x.id@),
            low <= high <= list@.len(),
            forall|i: int| 0 <= i < low ==> !closer(x@, #[trigger] before[i]),
            forall|i: int| high <= i < before.len() ==> closer(x@, #[trigger] before[i]),
        decreases high - low,
    {
        let mid: usize = low + (high - low) / 2;
        proof {
            assert(before[mid as int] == list@[mid as int]@);
            lemma_closer_total(x@, before[mid as int]);
        }
        if x.closer_than(&list[mid]) {
            proof {
                assert forall|i: int| mid <= i < before.len() implies closer(
                    x@,
                    #[trigger] before[i],
                ) by {
                    if i > mid {
                        lemma_closer_transitive(x@, before[mid as int], before[i]);
                    }
                }
            }
            high = mid;
        } else {
            proof {
                assert forall|i: int| 0 <= i < mid + 1 implies !closer(
                    x@,
                    #[trigger] before[i],
                ) by {
                    if i < mid && closer(x@, before[i]) {
                        lemma_closer_transitive(x@, before[i], before[mid as int]);
                    }
                }
            }
            low = mid + 1;
        }
    }
    proof {
        lemma_ranked_insert_at(before, x@, low as int);
    }
    let ghost entry = x@;
    list.insert(low, x);
    assert(ranked_list(list@) =~= before.insert(low as int, entry));
}

/// Neighbours rank by distance, and equally near ones by id. Their order decides nothing
/// else, so a ranked list is one with ascending distances and, among equal distances,
/// ascending ids.
pub proof fn law_neighbours_rank_by_distance_then_id(a: Ranked, b: Ranked, list: Seq<Ranked>)
    ensures
        a.distance < b.distance ==> closer(a, b) && !closer(b, a),
        a.distance == b.distance ==> closer(a, b) == text_less(a.id, b.id),
        is_ranked(list) <==> forall|i: int, j: int|
            0 <= i < j < list.len() ==> {
                ||| (#[trigger] list[i]).distance < (#[trigger] list[j]).distance
                ||| list[i].distance == list[j].distance && text_less(list[i].id, list[j].id)
            },
        holds_id(list, a.id) <==> list.map_values(|x: Ranked| x.id).contains(a.id),
{
    let ids = list.map_values(|x: Ranked| x.id);
    if holds_id(list, a.id) {
        let i = choose|i: int| 0 <= i < list.len() && (#[trigger] list[i]).id == a.id;
        assert(ids[i] == a.id);
    }
    if ids.contains(a.id) {
        let i = choose|i: int| 0 <= i < ids.len() && ids[i] == a.id;
        assert(list[i].id == a.id);
    }
    if is_ranked(list) {
        assert forall|i: int, j: int| 0 <= i < j < list.len() implies {
            ||| (#[trigger] list[i]).distance < (#[trigger] list[j]).distance
            ||| list[i].distance == list[j].distance && text_less(list[i].id, list[j].id)
        } by {
            assert(closer(list[i], list[j]));
        }
    }
}

/// Putting a new id into a ranked list leaves the other elements as they stand, and puts
/// it behind all that rank before it and in front of all that rank after it.
pub proof fn law_ranked_insert_puts_one_in_its_place(list: Seq<Ranked>, x: Ranked)
    requires
        is_ranked(list),
        !holds_id(list, x.id),
    ensures
        exists|at: int|
            0 <= at <= list.len() && ranked_insert(list, x) == #[trigger] list.insert(at, x) && (
            forall|i: int| 0 <= i < at ==> closer(#[trigger] list[i], x)) && (forall|i: int|
                at <= i < list.len() ==> closer(x, #[trigger] list[i])),
{
    let at = lemma_ranked_insert(list, x);
    let new = list.insert(at, x);
    assert forall|i: int| 0 <= i < at implies closer(#[trigger] list[i], x) by {
        assert(new[i] == list[i] && new[at] == x);
    }
    assert forall|i: int| at <= i < list.len() implies closer(x, #[trigger] list[i]) by {
        assert(new[i + 1] == list[i] && new[at] == x);
    }
}

/// The view of a neighbour shows its id and its distance as they are, and a list of
/// neighbours shows each of them in its place.
pub proof fn law_neighbour_views(list: Seq<Neighbor>)
    ensures
        ranked_list(list).len() == list.len(),
        forall|i: int|
            0 <= i < list.len() ==> {
                &&& (#[trigger] ranked_list(list)[i]).id == list[i].id@
                &&& ranked_list(list)[i].distance == list[i].distance
            },
{
}

} // verus!
