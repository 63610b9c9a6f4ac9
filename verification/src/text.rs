//! The order of texts, used to break ties between equally distant vectors, and their
//! beginnings.

use vstd::prelude::*;
use vstd::std_specs::iter::IteratorSpec;

verus! {

/// `a` comes before `b` in the order of Rust's strings: the first position where
/// they differ decides by code point, and a proper prefix comes first.
pub open spec fn text_less(a: Seq<char>, b: Seq<char>) -> bool
    decreases a.len(),
{
    if b.len() == 0 {
        false
    } else if a.len() == 0 {
        true
    } else if a[0] != b[0] {
        a[0] < b[0]
    } else {
        text_less(a.drop_first(), b.drop_first())
    }
}

/// No text comes before itself.
pub proof fn lemma_text_less_irreflexive(a: Seq<char>)
    ensures
        !text_less(a, a),
    decreases a.len(),
{
    if a.len() > 0 {
        lemma_text_less_irreflexive(a.drop_first());
    }
}

/// The order of texts is transitive.
pub proof fn lemma_text_less_transitive(a: Seq<char>, b: Seq<char>, c: Seq<char>)
    requires
        text_less(a, b),
        text_less(b, c),
    ensures
        text_less(a, c),
    decreases a.len(),
{
    if a.len() > 0 && a[0] == b[0] && b[0] == c[0] {
        lemma_text_less_transitive(a.drop_first(), b.drop_first(), c.drop_first());
    }
}

/// Of two different texts one comes before the other.
pub proof fn lemma_text_less_total(a: Seq<char>, b: Seq<char>)
    ensures
        a == b || text_less(a, b) || text_less(b, a),
    decreases a.len(),
{
    if a.len() == 0 && b.len() == 0 {
        assert(a =~= b);
    } else if a.len() > 0 && b.len() > 0 && a[0] == b[0] {
        lemma_text_less_total(a.drop_first(), b.drop_first());
        if a.drop_first() == b.drop_first() {
            assert(a =~= seq![a[0]] + a.drop_first());
            assert(b =~= seq![b[0]] + b.drop_first());
        }
    }
}

/// Whether `a` comes before `b`.
pub fn text_before(a: &str, b: &str) -> (before: bool)
    ensures
        before == text_less(a@, b@),
{
    broadcast use vstd::string::group_string_axioms;

    let mut left = a.chars();
    let mut right = b.chars();
    loop
        invariant
            left.obeys_prophetic_iter_laws(),
            right.obeys_prophetic_iter_laws(),
            left.decrease() is Some,
            text_less(a@, b@) == text_less(left.remaining(), right.remaining()),
        decreases left.decrease()->0,
    {
        match (left.next(), right.next()) {
            (_, None) => {
                return false;
            },
            (None, Some(_)) => {
                return true;
            },
            (Some(x), Some(y)) => {
                if x != y {
                    return x < y;
                }
            },
        }
    }
}

/// Whether `text` begins with `prefix`.
pub fn begins_with(text: &str, prefix: &str) -> (begins: bool)
    ensures
        begins == prefix@.is_prefix_of(text@),
{
    broadcast use vstd::string::group_string_axioms;

    let mut left = text.chars();
    let mut right = prefix.chars();
    loop
        invariant
            left.obeys_prophetic_iter_laws(),
            right.obeys_prophetic_iter_laws(),
            right.decrease() is Some,
            prefix@.is_prefix_of(text@) == right.remaining().is_prefix_of(left.remaining()),
        decreases right.decrease()->0,
    {
        let ghost before = left.remaining();
        let ghost wanted = right.remaining();
        match right.next() {
            None => {
                assert(before.subrange(0, 0) =~= Seq::empty());
                return true;
            },
            Some(y) => match left.next() {
                None => {
                    return false;
                },
                Some(x) => {
                    if x != y {
                        assert(wanted.is_prefix_of(before) ==> wanted[0] == before[0]);
                        return false;
                    }
                    proof {
                        lemma_prefix_rest(before, wanted);
                    }
                },
            },
        }
    }
}

/// Two texts with the same first character are compared by the rest.
proof fn lemma_prefix_rest(text: Seq<char>, prefix: Seq<char>)
    requires
        text.len() > 0,
        prefix.len() > 0,
        text[0] == prefix[0],
    ensures
        prefix.is_prefix_of(text) == prefix.drop_first().is_prefix_of(text.drop_first()),
{
    let rest = text.drop_first();
    let wanted = prefix.drop_first();
    if prefix.is_prefix_of(text) {
        assert forall|i: int| 0 <= i < wanted.len() implies wanted[i] == rest.subrange(
            0,
            wanted.len() as int,
        )[i] by {
            assert(prefix[i + 1] == text.subrange(0, prefix.len() as int)[i + 1]);
        }
        assert(wanted =~= rest.subrange(0, wanted.len() as int));
    }
    if wanted.is_prefix_of(rest) {
        assert forall|i: int| 0 <= i < prefix.len() implies prefix[i] == text.subrange(
            0,
            prefix.len() as int,
        )[i] by {
            if i > 0 {
                assert(wanted[i - 1] == rest.subrange(0, wanted.len() as int)[i - 1]);
            }
        }
        assert(prefix =~= text.subrange(0, prefix.len() as int));
    }
}

/// One text comes before another exactly if, behind a common beginning, it ends first or
/// has the smaller character.
pub proof fn law_text_order(a: Seq<char>, b: Seq<char>)
    ensures
        text_less(a, b) <==> exists|n: int|
            0 <= n <= a.len() && n < b.len() && #[trigger] a.take(n) == b.take(n) && (n == a.len()
                || a[n] < b[n]),
    decreases a.len(),
{
    if a.len() > 0 && b.len() > 0 && a[0] == b[0] {
        let c = a.drop_first();
        let d = b.drop_first();
        law_text_order(c, d);
        if text_less(a, b) {
            let n = choose|n: int|
                0 <= n <= c.len() && n < d.len() && #[trigger] c.take(n) == d.take(n) && (n
                    == c.len() || c[n] < d[n]);
            assert(a.take(n + 1) =~= seq![a[0]] + c.take(n));
            assert(b.take(n + 1) =~= seq![b[0]] + d.take(n));
            assert(a.take(n + 1) == b.take(n + 1));
        }
        if exists|n: int|
            0 <= n <= a.len() && n < b.len() && #[trigger] a.take(n) == b.take(n) && (n == a.len()
                || a[n] < b[n]) {
            let n = choose|n: int|
                0 <= n <= a.len() && n < b.len() && #[trigger] a.take(n) == b.take(n) && (n
                    == a.len() || a[n] < b[n]);
            assert(n > 0);
            assert(c.take(n - 1) =~= a.take(n).drop_first());
            assert(d.take(n - 1) =~= b.take(n).drop_first());
            assert(c.take(n - 1) == d.take(n - 1));
        }
    } else if b.len() > 0 {
        assert(a.take(0) =~= b.take(0));
        if a.len() > 0 {
            assert forall|n: int|
                0 < n <= a.len() && n < b.len() implies #[trigger] a.take(n) != b.take(n) by {
                assert(a.take(n)[0] == a[0] && b.take(n)[0] == b[0]);
            }
        }
    }
}

} // verus!
