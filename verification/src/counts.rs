//! Counting how often each value occurs in a column.

use vstd::prelude::*;
use crate::text::texts;

verus! {

/// How many entries of `items` equal `key`.
pub open spec fn occurrences(items: Seq<Seq<char>>, key: Seq<char>) -> nat
    decreases items.len(),
{
    if items.len() == 0 {
        0
    } else if items.last() == key {
        occurrences(items.drop_last(), key) + 1
    } else {
        occurrences(items.drop_last(), key)
    }
}

/// The values of `items` without repetition, each at the place of its first
/// occurrence.
pub open spec fn distinct(items: Seq<Seq<char>>) -> Seq<Seq<char>>
    decreases items.len(),
{
    if items.len() == 0 {
        Seq::empty()
    } else if distinct(items.drop_last()).contains(items.last()) {
        distinct(items.drop_last())
    } else {
        distinct(items.drop_last()).push(items.last())
    }
}

/// Each distinct value of `items`, in order of first occurrence, with the
/// number of its occurrences.
pub open spec fn tally(items: Seq<Seq<char>>) -> Seq<(Seq<char>, nat)> {
    Seq::new(
        distinct(items).len(),
        |i: int| (distinct(items)[i], occurrences(items, distinct(items)[i])),
    )
}

/// No value occurs more often than there are entries.
pub proof fn lemma_occurrences_bound(items: Seq<Seq<char>>, key: Seq<char>)
    ensures
        occurrences(items, key) <= items.len(),
    decreases items.len(),
{
    if items.len() > 0 {
        lemma_occurrences_bound(items.drop_last(), key);
    }
}

/// A value occurs at least once exactly if it is an entry.
pub proof fn lemma_occurrences_positive(items: Seq<Seq<char>>, key: Seq<char>)
    ensures
        occurrences(items, key) > 0 <==> items.contains(key),
    decreases items.len(),
{
    if items.len() > 0 {
        let front = items.drop_last();
        lemma_occurrences_positive(front, key);
        if items.contains(key) {
            let i = choose|i: int| 0 <= i < items.len() && items[i] == key;
            if i < front.len() {
                assert(front[i] == key);
            }
        }
        if front.contains(key) {
            let i = choose|i: int| 0 <= i < front.len() && front[i] == key;
            assert(items[i] == key);
        }
        if items.last() == key {
            assert(items[items.len() - 1] == key);
        }
    }
}

/// The distinct values are the entries, each once.
pub proof fn lemma_distinct_members(items: Seq<Seq<char>>)
    ensures
        distinct(items).no_duplicates(),
        distinct(items).len() <= items.len(),
        forall|key: Seq<char>| #[trigger] distinct(items).contains(key) <==> items.contains(key),
    decreases items.len(),
{
    if items.len() > 0 {
        let front = items.drop_last();
        let last = items.last();
        lemma_distinct_members(front);
        assert forall|key: Seq<char>| #[trigger]
            distinct(items).contains(key) <==> items.contains(key) by {
            if items.contains(key) {
                let i = choose|i: int| 0 <= i < items.len() && items[i] == key;
                if i < front.len() {
                    assert(front[i] == key);
                    assert(front.contains(key));
                    assert(distinct(front).contains(key));
                    let j = choose|j: int|
                        0 <= j < distinct(front).len() && distinct(front)[j] == key;
                    assert(distinct(items)[j] == key);
                } else if !distinct(front).contains(last) {
                    assert(distinct(items)[distinct(items).len() - 1] == key);
                }
            }
            if distinct(items).contains(key) {
                let j = choose|j: int| 0 <= j < distinct(items).len() && distinct(items)[j] == key;
                if j < distinct(front).len() {
                    assert(distinct(front)[j] == key);
                    assert(distinct(front).contains(key));
                    assert(front.contains(key));
                    let i = choose|i: int| 0 <= i < front.len() && front[i] == key;
                    assert(items[i] == key);
                } else {
                    assert(items[items.len() - 1] == key);
                }
            }
        }
    }
}

/// There are as many distinct values as the set of entries has elements.
pub proof fn lemma_distinct_len(items: Seq<Seq<char>>)
    ensures
        distinct(items).len() == items.to_set().len(),
{
    lemma_distinct_members(items);
    distinct(items).unique_seq_to_set();
    assert(distinct(items).to_set() =~= items.to_set());
}

/// For each distinct value of a column, how often it occurs.
#[derive(Debug)]
pub struct CountMap {
    keys: Vec<String>,
    counts: Vec<usize>,
}

impl View for CountMap {
    type V = Seq<(Seq<char>, nat)>;

    closed spec fn view(&self) -> Seq<(Seq<char>, nat)> {
        Seq::new(self.keys@.len(), |i: int| (self.keys@[i]@, self.counts@[i] as nat))
    }
}

impl CountMap {
    #[verifier::type_invariant]
    spec fn one_count_per_key(self) -> bool {
        self.keys.len() == self.counts.len()
    }

    /// The number of distinct values.
    pub fn len(&self) -> (n: usize)
        ensures
            n == self@.len(),
    {
        self.keys.len()
    }

    /// The `i`-th distinct value.
    pub fn key(&self, i: usize) -> (key: &String)
        requires
            i < self@.len(),
        ensures
            key@ == self@[i as int].0,
    {
        &self.keys[i]
    }

    /// How often the `i`-th distinct value occurs.
    pub fn count(&self, i: usize) -> (count: usize)
        requires
            i < self@.len(),
        ensures
            count == self@[i as int].1,
    {
        proof {
            use_type_invariant(self);
        }
        self.counts[i]
    }
}

/// The place of `key` among `keys`, if it is one of them.
fn position(keys: &Vec<String>, key: &String) -> (found: Option<usize>)
    ensures
        match found {
            Some(j) => j < keys.len() && keys[j as int]@ == key@,
            None => !texts(keys@).contains(key@),
        },
{
    let mut j: usize = 0;
    while j < keys.len()
        invariant
            j <= keys.len(),
            forall|k: int| 0 <= k < j ==> keys[k]@ != key@,
        decreases keys.len() - j,
    {
        if keys[j] == *key {
            return Some(j);
        }
        j = j + 1;
    }
    None
}

/// Counts the occurrences of each value of `arr`.
pub fn count_map(arr: &[String]) -> (counts: CountMap)
    ensures
        counts@ == tally(texts(arr@)),
{
    let ghost items = texts(arr@);
    let mut keys: Vec<String> = Vec::new();
    let mut counts: Vec<usize> = Vec::new();
    let mut i: usize = 0;
    while i < arr.len()
        invariant
            i <= arr.len(),
            items == texts(arr@),
            keys.len() == counts.len(),
            texts(keys@) == distinct(items.take(i as int)),
            forall|k: int|
                0 <= k < counts.len() ==> counts[k] == occurrences(
                    items.take(i as int),
                    #[trigger] keys[k]@,
                ),
        decreases arr.len() - i,
    {
        let ghost seen = items.take(i as int);
        let ghost next = items.take(i + 1);
        let ghost old_keys = texts(keys@);
        proof {
            assert(next.drop_last() =~= seen);
            assert(next.last() == arr[i as int]@);
            lemma_distinct_members(seen);
        }
        match position(&keys, &arr[i]) {
            Some(j) => {
                proof {
                    lemma_occurrences_bound(seen, keys[j as int]@);
                    assert(old_keys[j as int] == next.last());
                    assert(old_keys.contains(next.last()));
                    assert forall|k: int| 0 <= k < keys.len() && k != j implies keys[k]@
                        != next.last() by {
                        assert(old_keys[k] == keys[k]@);
                    }
                }
                let c = counts[j];
                counts.set(j, c + 1);
                assert forall|k: int| 0 <= k < counts.len() implies counts[k] == occurrences(
                    next,
                    #[trigger] keys[k]@,
                ) by {
                    assert(keys[k]@ == next.last() <==> k == j);
                }
            },
            None => {
                proof {
                    lemma_occurrences_positive(seen, next.last());
                }
                keys.push(arr[i].clone());
                counts.push(1);
                assert(texts(keys@) =~= old_keys.push(next.last()));
                assert forall|k: int| 0 <= k < counts.len() implies counts[k] == occurrences(
                    next,
                    #[trigger] keys[k]@,
                ) by {
                    if k < old_keys.len() {
                        assert(old_keys[k] == keys[k]@);
                        assert(old_keys.contains(keys[k]@));
                    }
                }
            },
        }
        i = i + 1;
    }
    assert(items.take(i as int) =~= items);
    let result = CountMap { keys, counts };
    assert(result@ =~= tally(items)) by {
        assert forall|k: int| 0 <= k < result@.len() implies result@[k] == tally(items)[k] by {
            assert(texts(result.keys@)[k] == result.keys@[k]@);
        }
    }
    result
}

} // verus!
