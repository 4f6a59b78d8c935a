//! The per-node counter store: a mapping from counter name to 64-bit value.
//! Inserts overwrite; there is no delete. The store is kept as an
//! association list with pairwise distinct keys, viewed as a map.

use vstd::prelude::*;

verus! {

/// No two entries share a key.
pub open spec fn unique_keys(s: Seq<(Seq<char>, u64)>) -> bool {
    forall|i: int, j: int| 0 <= i < j < s.len() ==> s[i].0 != s[j].0
}

/// The map an association list denotes; later entries win.
pub open spec fn map_of_entries(s: Seq<(Seq<char>, u64)>) -> Map<Seq<char>, u64>
    decreases s.len(),
{
    if s.len() == 0 {
        Map::empty()
    } else {
        map_of_entries(s.drop_last()).insert(s.last().0, s.last().1)
    }
}

/// A key is in the denoted map exactly when some entry carries it.
pub proof fn lemma_map_of_entries_contains(s: Seq<(Seq<char>, u64)>, k: Seq<char>)
    ensures
        map_of_entries(s).contains_key(k) <==> exists|i: int| 0 <= i < s.len() && s[i].0 == k,
    decreases s.len(),
{
    if s.len() > 0 {
        lemma_map_of_entries_contains(s.drop_last(), k);
        if k == s.last().0 {
            assert(s[s.len() - 1].0 == k);
        } else if exists|i: int| 0 <= i < s.len() && s[i].0 == k {
            let i = choose|i: int| 0 <= i < s.len() && s[i].0 == k;
            assert(s.drop_last()[i] == s[i]);
        }
    }
}

/// With distinct keys, each entry's key maps to that entry's value.
pub proof fn lemma_map_of_entries_value(s: Seq<(Seq<char>, u64)>, i: int)
    requires
        unique_keys(s),
        0 <= i < s.len(),
    ensures
        map_of_entries(s).contains_key(s[i].0),
        map_of_entries(s)[s[i].0] == s[i].1,
    decreases s.len(),
{
    if i < s.len() - 1 {
        assert(s.drop_last()[i] == s[i]);
        lemma_map_of_entries_value(s.drop_last(), i);
    }
}

/// Overwriting the entry that holds a key denotes the same map as inserting
/// the key afresh.
pub proof fn lemma_map_of_entries_update(s: Seq<(Seq<char>, u64)>, i: int, v: u64)
    requires
        unique_keys(s),
        0 <= i < s.len(),
    ensures
        map_of_entries(s.update(i, (s[i].0, v))) =~= map_of_entries(s).insert(s[i].0, v),
{
    let t = s.update(i, (s[i].0, v));
    assert(unique_keys(t));
    assert forall|k: Seq<char>|
        map_of_entries(t).contains_key(k) == map_of_entries(s).insert(
            s[i].0,
            v,
        ).contains_key(k) by {
        lemma_map_of_entries_contains(t, k);
        lemma_map_of_entries_contains(s, k);
        if exists|j: int| 0 <= j < s.len() && s[j].0 == k {
            let j = choose|j: int| 0 <= j < s.len() && s[j].0 == k;
            assert(t[j].0 == k);
        }
        if exists|j: int| 0 <= j < t.len() && t[j].0 == k {
            let j = choose|j: int| 0 <= j < t.len() && t[j].0 == k;
            assert(s[j].0 == k);
        }
    }
    assert forall|k: Seq<char>| map_of_entries(t).contains_key(k) implies map_of_entries(t)[k]
        == map_of_entries(s).insert(s[i].0, v)[k] by {
        lemma_map_of_entries_contains(t, k);
        let j = choose|j: int| 0 <= j < t.len() && t[j].0 == k;
        lemma_map_of_entries_value(t, j);
        if k == s[i].0 {
            assert(j == i);
        } else {
            assert(s[j].0 == k);
            lemma_map_of_entries_value(s, j);
        }
    }
}

/// A node's counters.
pub struct CounterStore {
    pub entries: Vec<(String, u64)>,
}

impl CounterStore {
    /// The entries with their names as character sequences.
    pub open spec fn entries_seq(self) -> Seq<(Seq<char>, u64)> {
        self.entries@.map_values(|e: (String, u64)| (e.0@, e.1))
    }

    /// Well-formedness: no counter name occurs twice.
    pub open spec fn wf(self) -> bool {
        unique_keys(self.entries_seq())
    }

    /// The store as a map from counter name to value.
    pub open spec fn as_map(self) -> Map<Seq<char>, u64> {
        map_of_entries(self.entries_seq())
    }

    /// An empty store.
    pub fn new() -> (store: CounterStore)
        ensures
            store.wf(),
            store.as_map() =~= Map::<Seq<char>, u64>::empty(),
            store.entries_seq() =~= Seq::<(Seq<char>, u64)>::empty(),
    {
        CounterStore { entries: Vec::new() }
    }

    /// Sets a counter, overwriting any previous value under the same name.
    pub fn set_counter(&mut self, counter: &str, value: u64)
        requires
            old(self).wf(),
        ensures
            final(self).wf(),
            final(self).as_map() =~= old(self).as_map().insert(counter@, value),
    {
        let key = String::from_str(counter);
        let ghost pre = self.entries_seq();
        let n = self.entries.len();
        let mut i: usize = 0;
        while i < n && self.entries[i].0 != key
            invariant
                i <= n,
                n == self.entries.len(),
                *self == *old(self),
                key@ == counter@,
                forall|j: int| 0 <= j < i ==> pre[j].0 != counter@,
                pre == self.entries_seq(),
            decreases n - i,
        {
            i = i + 1;
        }
        if i < n {
            self.entries.set(i, (key, value));
            proof {
                assert(self.entries_seq() =~= pre.update(i as int, (counter@, value)));
                lemma_map_of_entries_update(pre, i as int, value);
            }
        } else {
            self.entries.push((key, value));
            proof {
                assert(self.entries_seq() =~= pre.push((counter@, value)));
                assert(self.entries_seq().drop_last() =~= pre);
                assert forall|j: int, l: int|
                    0 <= j < l < self.entries_seq().len() implies self.entries_seq()[j].0
                    != self.entries_seq()[l].0 by {
                    if l == self.entries_seq().len() - 1 {
                        lemma_map_of_entries_contains(pre, self.entries_seq()[j].0);
                    }
                }
            }
        }
    }

    /// Reads one counter.
    pub fn get(&self, counter: &str) -> (r: Option<u64>)
        requires
            self.wf(),
        ensures
            match r {
                Some(v) => self.as_map().contains_key(counter@) && self.as_map()[counter@] == v,
                None => !self.as_map().contains_key(counter@),
            },
    {
        let key = String::from_str(counter);
        let n = self.entries.len();
        let mut i: usize = 0;
        while i < n && self.entries[i].0 != key
            invariant
                i <= n,
                n == self.entries.len(),
                key@ == counter@,
                forall|j: int| 0 <= j < i ==> self.entries_seq()[j].0 != counter@,
            decreases n - i,
        {
            i = i + 1;
        }
        proof {
            lemma_map_of_entries_contains(self.entries_seq(), counter@);
            if i < n {
                lemma_map_of_entries_value(self.entries_seq(), i as int);
            }
        }
        if i < n {
            Some(self.entries[i].1)
        } else {
            None
        }
    }

    /// The names of all counters set so far, each exactly once.
    pub fn keys(&self) -> (r: Vec<String>)
        requires
            self.wf(),
        ensures
            r@.map_values(|k: String| k@) =~= self.entries_seq().map_values(
                |e: (Seq<char>, u64)| e.0,
            ),
            forall|k: Seq<char>|
                self.as_map().contains_key(k) <==> exists|i: int|
                    0 <= i < r@.len() && #[trigger] r@[i]@ == k,
    {
        let n = self.entries.len();
        let mut r: Vec<String> = Vec::new();
        let mut i: usize = 0;
        while i < n
            invariant
                i <= n,
                n == self.entries.len(),
                r@.len() == i,
                forall|j: int| 0 <= j < i ==> #[trigger] r@[j]@ == self.entries_seq()[j].0,
            decreases n - i,
        {
            r.push(self.entries[i].0.clone());
            i = i + 1;
        }
        proof {
            assert(r@.map_values(|k: String| k@) =~= self.entries_seq().map_values(
                |e: (Seq<char>, u64)| e.0,
            ));
            assert forall|k: Seq<char>|
                self.as_map().contains_key(k) == (exists|i: int|
                    0 <= i < r@.len() && #[trigger] r@[i]@ == k) by {
                lemma_map_of_entries_contains(self.entries_seq(), k);
                if exists|i: int| 0 <= i < self.entries_seq().len() && self.entries_seq()[i].0
                    == k {
                    let i = choose|i: int|
                        0 <= i < self.entries_seq().len() && self.entries_seq()[i].0 == k;
                    assert(r@[i]@ == k);
                }
            }
        }
        r
    }
}

} // verus!
