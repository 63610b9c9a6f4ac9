//! The metadata of a vector: values by key.

use vstd::prelude::*;

verus! {

/// Values by key. A value is held in its canonical textual form, so that two values
/// are equal exactly when their texts are.
pub struct Metadata {
    entries: Vec<(String, String)>,
}

spec fn keys_distinct(entries: Seq<(String, String)>) -> bool {
    forall|i: int, j: int|
        0 <= i < j < entries.len() ==> (#[trigger] entries[i]).0@ != (#[trigger] entries[j]).0@
}

spec fn as_map(entries: Seq<(String, String)>) -> Map<Seq<char>, Seq<char>>
    decreases entries.len(),
{
    if entries.len() == 0 {
        Map::empty()
    } else {
        as_map(entries.drop_last()).insert(entries.last().0@, entries.last().1@)
    }
}

proof fn lemma_as_map(entries: Seq<(String, String)>)
    requires
        keys_distinct(entries),
    ensures
        forall|i: int|
            0 <= i < entries.len() ==> {
                &&& as_map(entries).contains_key((#[trigger] entries[i]).0@)
                &&& as_map(entries)[entries[i].0@] == entries[i].1@
            },
        forall|key: Seq<char>|
            as_map(entries).contains_key(key) ==> exists|i: int|
                0 <= i < entries.len() && (#[trigger] entries[i]).0@ == key,
    decreases entries.len(),
{
    if entries.len() > 0 {
        let front = entries.drop_last();
        lemma_as_map(front);
        assert forall|i: int| 0 <= i < entries.len() implies {
            &&& as_map(entries).contains_key((#[trigger] entries[i]).0@)
            &&& as_map(entries)[entries[i].0@] == entries[i].1@
        } by {
            if i < front.len() {
                assert(front[i] == entries[i]);
                assert(entries[i].0@ != entries[entries.len() - 1].0@);
            }
        }
        assert forall|key: Seq<char>| as_map(entries).contains_key(key) implies exists|i: int|
            0 <= i < entries.len() && (#[trigger] entries[i]).0@ == key by {
            if key == entries.last().0@ {
                assert(entries[entries.len() - 1].0@ == key);
            } else {
                let i = choose|i: int| 0 <= i < front.len() && (#[trigger] front[i]).0@ == key;
                assert(entries[i].0@ == key);
            }
        }
    }
}

impl View for Metadata {
    type V = Map<Seq<char>, Seq<char>>;

    closed spec fn view(&self) -> Map<Seq<char>, Seq<char>> {
        as_map(self.entries@)
    }
}

/// `metadata` has every key of `filters` with the same value.
pub open spec fn satisfies(
    metadata: Map<Seq<char>, Seq<char>>,
    filters: Map<Seq<char>, Seq<char>>,
) -> bool {
    forall|key: Seq<char>| #[trigger]
        filters.contains_key(key) ==> metadata.contains_key(key) && metadata[key] == filters[key]
}

impl Metadata {
    #[verifier::type_invariant]
    spec fn has_distinct_keys(self) -> bool {
        keys_distinct(self.entries@)
    }

    /// No metadata.
    pub fn new() -> (metadata: Self)
        ensures
            metadata@ == Map::<Seq<char>, Seq<char>>::empty(),
    {
        Metadata { entries: Vec::new() }
    }

    /// This metadata with `value` under `key`, in place of any earlier value.
    pub fn with(self, key: String, value: String) -> (metadata: Self)
        ensures
            metadata@ == self@.insert(key@, value@),
    {
        proof {
            use_type_invariant(&self);
            lemma_as_map(self.entries@);
        }
        let ghost before = self.entries@;
        let ghost new_key = key@;
        let ghost new_value = value@;
        let mut entries = self.entries;
        let mut i: usize = 0;
        while i < entries.len()
            invariant
                entries@ == before,
                before == self.entries@,
                keys_distinct(before),
                new_key == key@,
                new_value == value@,
                i <= before.len(),
                forall|j: int| 0 <= j < i ==> (#[trigger] before[j]).0@ != key@,
            decreases before.len() - i,
        {
            if entries[i].0 == key {
                entries.set(i, (key, value));
                proof {
                    assert forall|a: int, b: int| 0 <= a < b < entries@.len() implies (
                    #[trigger] entries@[a]).0@ != (#[trigger] entries@[b]).0@ by {
                        assert(before[a].0@ != before[b].0@);
                    }
                    lemma_as_map(entries@);
                    lemma_same_map(before, entries@, i as int, new_key, new_value);
                }
                return Metadata { entries };
            }
            i = i + 1;
        }
        entries.push((key, value));
        assert(entries@.drop_last() =~= before);
        Metadata { entries }
    }

    /// The value under `key`.
    pub fn get(&self, key: &str) -> (value: Option<&String>)
        ensures
            match value {
                Some(text) => self@.contains_key(key@) && text@ == self@[key@],
                None => !self@.contains_key(key@),
            },
    {
        proof {
            use_type_invariant(self);
            lemma_as_map(self.entries@);
        }
        let wanted = key.to_owned();
        let mut i: usize = 0;
        while i < self.entries.len()
            invariant
                i <= self.entries@.len(),
                wanted@ == key@,
                forall|j: int| 0 <= j < i ==> (#[trigger] self.entries@[j]).0@ != key@,
                forall|j: int|
                    0 <= j < self.entries@.len() ==> {
                        &&& self@.contains_key((#[trigger] self.entries@[j]).0@)
                        &&& self@[self.entries@[j].0@] == self.entries@[j].1@
                    },
            decreases self.entries@.len() - i,
        {
            if self.entries[i].0 == wanted {
                return Some(&self.entries[i].1);
            }
            i = i + 1;
        }
        None
    }

    /// Whether there is no metadata.
    pub fn is_empty(&self) -> (empty: bool)
        ensures
            empty == (self@ == Map::<Seq<char>, Seq<char>>::empty()),
    {
        proof {
            use_type_invariant(self);
            lemma_as_map(self.entries@);
            if self.entries@.len() > 0 {
                assert(self@.contains_key(self.entries@[0].0@));
            }
        }
        self.entries.len() == 0
    }

    /// Whether this metadata has every key of `filters` with the same value.
    pub fn matches_all(&self, filters: &Metadata) -> (all: bool)
        ensures
            all == satisfies(self@, filters@),
            all <==> forall|key: Seq<char>| #[trigger]
                filters@.contains_key(key) ==> self@.contains_key(key) && self@[key]
                    == filters@[key],
    {
        proof {
            use_type_invariant(filters);
            lemma_as_map(filters.entries@);
        }
        let mut i: usize = 0;
        while i < filters.entries.len()
            invariant
                i <= filters.entries@.len(),
                forall|j: int|
                    0 <= j < filters.entries@.len() ==> {
                        &&& filters@.contains_key((#[trigger] filters.entries@[j]).0@)
                        &&& filters@[filters.entries@[j].0@] == filters.entries@[j].1@
                    },
                forall|j: int|
                    0 <= j < i ==> {
                        &&& self@.contains_key((#[trigger] filters.entries@[j]).0@)
                        &&& self@[filters.entries@[j].0@] == filters.entries@[j].1@
                    },
            decreases filters.entries@.len() - i,
        {
            let same = match self.get(filters.entries[i].0.as_str()) {
                Some(value) => *value == filters.entries[i].1,
                None => false,
            };
            if !same {
                assert(filters@.contains_key(filters.entries@[i as int].0@));
                return false;
            }
            i = i + 1;
        }
        true
    }
}

/// Replacing the value of one entry replaces that value in the map.
proof fn lemma_same_map(
    before: Seq<(String, String)>,
    after: Seq<(String, String)>,
    at: int,
    key: Seq<char>,
    value: Seq<char>,
)
    requires
        keys_distinct(before),
        keys_distinct(after),
        before.len() == after.len(),
        0 <= at < before.len(),
        before[at].0@ == key,
        after[at].0@ == key,
        after[at].1@ == value,
        forall|i: int| 0 <= i < before.len() && i != at ==> before[i] == after[i],
    ensures
        as_map(after) == as_map(before).insert(key, value),
{
    lemma_as_map(before);
    lemma_as_map(after);
    let expected = as_map(before).insert(key, value);
    assert forall|k: Seq<char>| as_map(after).contains_key(k) <==> expected.contains_key(k) by {
        if as_map(after).contains_key(k) {
            let i = choose|i: int| 0 <= i < after.len() && (#[trigger] after[i]).0@ == k;
            assert(as_map(before).contains_key(before[i].0@));
        }
        if expected.contains_key(k) && k != key {
            let i = choose|i: int| 0 <= i < before.len() && (#[trigger] before[i]).0@ == k;
            assert(as_map(after).contains_key(after[i].0@));
        }
        assert(as_map(after).contains_key(after[at].0@));
    }
    assert forall|k: Seq<char>| as_map(after).contains_key(k) implies as_map(after)[k]
        == expected[k] by {
        let i = choose|i: int| 0 <= i < after.len() && (#[trigger] after[i]).0@ == k;
        if i != at {
            assert(before[i].0@ != before[at].0@) by {
                let (a, b) = if i < at { (i, at) } else { (at, i) };
                assert(before[a].0@ != before[b].0@);
            }
        }
    }
    assert(as_map(after) =~= expected);
}

/// Metadata satisfies filters exactly if under each of their keys it has the very value of
/// the filter. So no filters are satisfied by all metadata, more filters by less of it, and
/// filters that are metadata themselves by that metadata.
pub proof fn law_filters_ask_for_equal_values(
    metadata: Map<Seq<char>, Seq<char>>,
    filters: Map<Seq<char>, Seq<char>>,
    key: Seq<char>,
    value: Seq<char>,
)
    ensures
        satisfies(metadata, filters) <==> forall|k: Seq<char>| #[trigger]
            filters.contains_key(k) ==> metadata.contains_key(k) && metadata[k] == filters[k],
        satisfies(metadata, Map::empty()),
        satisfies(metadata, metadata),
        !filters.contains_key(key) ==> (satisfies(metadata, filters.insert(key, value)) <==> (
        satisfies(metadata, filters) && metadata.contains_key(key) && metadata[key] == value)),
{
    let more = filters.insert(key, value);
    if !filters.contains_key(key) {
        if satisfies(metadata, more) {
            assert(more.contains_key(key));
            assert forall|k: Seq<char>| #[trigger]
                filters.contains_key(k) implies metadata.contains_key(k) && metadata[k]
                == filters[k] by {
                assert(more.contains_key(k));
            }
        }
        if satisfies(metadata, filters) && metadata.contains_key(key) && metadata[key] == value {
            assert forall|k: Seq<char>| #[trigger]
                more.contains_key(k) implies metadata.contains_key(k) && metadata[k]
                == more[k] by {
                if k != key {
                    assert(filters.contains_key(k));
                }
            }
        }
    }
}

} // verus!
