//! Lists of texts, and beginnings and selections of lists.

use vstd::prelude::*;

verus! {

/// The first `n` elements, or all if there are fewer.
pub open spec fn at_most<A>(list: Seq<A>, n: nat) -> Seq<A> {
    if n < list.len() {
        list.take(n as int)
    } else {
        list
    }
}

/// The texts of a list of strings.
pub open spec fn texts(list: Seq<String>) -> Seq<Seq<char>> {
    list.map_values(|text: String| text@)
}

/// Copies a list of strings.
pub fn copy_texts(list: &Vec<String>) -> (copy: Vec<String>)
    ensures
        texts(copy@) == texts(list@),
{
    let mut copy: Vec<String> = Vec::new();
    let mut i: usize = 0;
    while i < list.len()
        invariant
            i <= list@.len(),
            texts(copy@) == texts(list@).take(i as int),
        decreases list@.len() - i,
    {
        let ghost before = texts(copy@);
        copy.push(list[i].clone());
        assert(texts(copy@) =~= before.push(texts(list@)[i as int]));
        assert(texts(list@).take(i + 1) =~= before.push(texts(list@)[i as int]));
        i = i + 1;
    }
    assert(texts(list@).take(i as int) =~= texts(list@));
    copy
}

/// Filtering one element more keeps it or leaves it out.
pub proof fn lemma_filter_next<A>(list: Seq<A>, keep: spec_fn(A) -> bool, i: int)
    requires
        0 <= i < list.len(),
    ensures
        list.take(i + 1).filter(keep) == if keep(list[i]) {
            list.take(i).filter(keep).push(list[i])
        } else {
            list.take(i).filter(keep)
        },
{
    reveal(Seq::filter);
    assert(list.take(i + 1).drop_last() =~= list.take(i));
}

/// A selection that every element passes is the whole list.
pub proof fn lemma_filter_keeps_all<A>(list: Seq<A>, keep: spec_fn(A) -> bool)
    requires
        forall|i: int| 0 <= i < list.len() ==> keep(#[trigger] list[i]),
    ensures
        list.filter(keep) == list,
    decreases list.len(),
{
    reveal(Seq::filter);
    if list.len() > 0 {
        let front = list.drop_last();
        assert forall|i: int| 0 <= i < front.len() implies keep(#[trigger] front[i]) by {
            assert(front[i] == list[i]);
        }
        lemma_filter_keeps_all(front, keep);
        assert(keep(list[list.len() - 1]));
        assert(front.push(list.last()) =~= list);
    } else {
        assert(list.filter(keep) =~= list);
    }
}

/// A beginning of a list keeps each element in its place.
pub proof fn law_beginning_of_a_list<A>(list: Seq<A>, n: nat)
    ensures
        n < list.len() ==> at_most(list, n).len() == n,
        n >= list.len() ==> at_most(list, n) == list,
        forall|i: int| 0 <= i < at_most(list, n).len() ==> #[trigger] at_most(list, n)[i] == list[i],
{
}

/// The texts of a list of strings are theirs, each in its place.
pub proof fn law_texts_of_strings(list: Seq<String>)
    ensures
        texts(list).len() == list.len(),
        forall|i: int| 0 <= i < list.len() ==> #[trigger] texts(list)[i] == list[i]@,
{
}

} // verus!
