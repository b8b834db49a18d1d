//! A map keyed by strings, kept as the list of its insertions.
use vstd::prelude::*;

verus! {

/// The map that the insertions `e` make, in order, into an empty map.
pub open spec fn entries_map<V>(e: Seq<(String, V)>) -> Map<Seq<char>, V>
    decreases e.len(),
{
    if e.len() == 0 {
        Map::empty()
    } else {
        entries_map(e.drop_last()).insert(e.last().0@, e.last().1)
    }
}

/// The contents of the strings, in order.
pub open spec fn string_views(strings: Seq<String>) -> Seq<Seq<char>> {
    strings.map_values(|e: String| e@)
}

/// The index of the last occurrence of `k` in `keys`, or -1 where there is none.
pub open spec fn last_index(keys: Seq<Seq<char>>, k: Seq<char>) -> int
    decreases keys.len(),
{
    if keys.len() == 0 {
        -1
    } else if keys.last() == k {
        keys.len() - 1
    } else {
        last_index(keys.drop_last(), k)
    }
}

pub proof fn lemma_last_index_push(keys: Seq<Seq<char>>, x: Seq<char>, k: Seq<char>)
    ensures
        last_index(keys.push(x), k) == if k == x {
            keys.len() as int
        } else {
            last_index(keys, k)
        },
{
    assert(keys.push(x).drop_last() =~= keys);
}

/// `last_index` finds the last occurrence: where it is not -1, the key is at
/// that index and at no later one; where it is -1, the key is nowhere.
pub proof fn lemma_last_index_is_last(keys: Seq<Seq<char>>, k: Seq<char>)
    ensures
        -1 <= last_index(keys, k) < keys.len(),
        last_index(keys, k) >= 0 ==> keys[last_index(keys, k)] == k,
        forall|j: int| last_index(keys, k) < j < keys.len() ==> keys[j] != k,
    decreases keys.len(),
{
    if keys.len() > 0 && keys.last() != k {
        lemma_last_index_is_last(keys.drop_last(), k);
        assert forall|j: int| last_index(keys, k) < j < keys.len() implies keys[j] != k by {
            if j < keys.len() - 1 {
                assert(keys.drop_last()[j] == keys[j]);
            }
        }
    }
}

/// Taking one more key moves the last index of that key to it, and leaves
/// the last index of every other key as it was.
pub proof fn lemma_last_index_take(keys: Seq<Seq<char>>, i: int)
    requires
        0 <= i < keys.len(),
    ensures
        forall|k: Seq<char>| #[trigger]
            last_index(keys.take(i + 1), k) == if k == keys[i] {
                i
            } else {
                last_index(keys.take(i), k)
            },
{
    assert(keys.take(i + 1) =~= keys.take(i).push(keys[i]));
    assert forall|k: Seq<char>| #[trigger]
        last_index(keys.take(i + 1), k) == if k == keys[i] {
            i
        } else {
            last_index(keys.take(i), k)
        } by {
        lemma_last_index_push(keys.take(i), keys[i], k);
    }
}

/// A key maps to the value of its last insertion.
pub proof fn lemma_entries_map_last<V>(e: Seq<(String, V)>, k: Seq<char>, j: int)
    requires
        0 <= j < e.len(),
        e[j].0@ == k,
        forall|i: int| j < i < e.len() ==> e[i].0@ != k,
    ensures
        entries_map(e).contains_key(k),
        entries_map(e)[k] == e[j].1,
    decreases e.len(),
{
    if j < e.len() - 1 {
        lemma_entries_map_last(e.drop_last(), k, j);
    }
}

/// A key that was never inserted is not in the map.
pub proof fn lemma_entries_map_absent<V>(e: Seq<(String, V)>, k: Seq<char>)
    requires
        forall|i: int| 0 <= i < e.len() ==> e[i].0@ != k,
    ensures
        !entries_map(e).contains_key(k),
    decreases e.len(),
{
    if e.len() > 0 {
        lemma_entries_map_absent(e.drop_last(), k);
    }
}

/// A map from strings to values. Inserting a key that is already present
/// replaces its value.
pub struct StrMap<V> {
    entries: Vec<(String, V)>,
}

impl<V> View for StrMap<V> {
    type V = Map<Seq<char>, V>;

    closed spec fn view(&self) -> Map<Seq<char>, V> {
        entries_map(self.entries@)
    }
}

impl<V> StrMap<V> {
    /// An empty map.
    pub fn new() -> (m: StrMap<V>)
        ensures
            m@ == Map::<Seq<char>, V>::empty(),
    {
        StrMap { entries: Vec::new() }
    }

    /// Maps `key` to `value`, replacing the value it had.
    pub fn insert(&mut self, key: String, value: V)
        ensures
            final(self)@ == old(self)@.insert(key@, value),
    {
        let ghost old_entries = self.entries@;
        self.entries.push((key, value));
        proof {
            assert(self.entries@.drop_last() =~= old_entries);
        }
    }

    /// The value that `key` maps to, if any.
    pub fn get(&self, key: &String) -> (r: Option<&V>)
        ensures
            r is Some <==> self@.contains_key(key@),
            r matches Some(v) ==> *v == self@[key@],
    {
        let mut j = self.entries.len();
        while j > 0
            invariant
                j <= self.entries@.len(),
                forall|i: int| j <= i < self.entries@.len() ==> self.entries@[i].0@ != key@,
            decreases j,
        {
            j = j - 1;
            if self.entries[j].0 == *key {
                proof {
                    lemma_entries_map_last(self.entries@, key@, j as int);
                }
                return Some(&self.entries[j].1);
            }
        }
        proof {
            lemma_entries_map_absent(self.entries@, key@);
        }
        None
    }

    /// The insertions that made the map, in order: inserting them in turn into
    /// an empty map gives this map.
    pub fn into_entries(self) -> (r: Vec<(String, V)>)
        ensures
            entries_map(r@) == self@,
    {
        self.entries
    }
}

} // verus!
