//! The shared in-memory mapping from keys to values.
//!
//! A [`KvStore`] is the single shared mutable resource of the system.  Its
//! operations are each one atomic step over the mapping; the embedding
//! program serializes them behind one lock and never holds that lock across
//! I/O.  The mathematical value of a store is a [`Map`] from key characters
//! to value characters.

use vstd::prelude::*;

verus! {

/// The mapping from keys to values, keys pairwise distinct, held as a vector
/// of entries.
pub struct KvStore {
    entries: Vec<(String, String)>,
}

/// True when no two entries share a key.
spec fn distinct_keys(s: Seq<(String, String)>) -> bool {
    forall|i: int, j: int| 0 <= i < j < s.len() ==> s[i].0@ != s[j].0@
}

/// The mapping that a sequence of entries denotes: later entries win,
/// though under `distinct_keys` no two entries compete.
spec fn map_of(s: Seq<(String, String)>) -> Map<Seq<char>, Seq<char>>
    decreases s.len(),
{
    if s.len() == 0 {
        Map::empty()
    } else {
        map_of(s.drop_last()).insert(s.last().0@, s.last().1@)
    }
}

/// A key is in the mapping exactly when some entry carries it.
proof fn lemma_map_of_contains(s: Seq<(String, String)>, k: Seq<char>)
    ensures
        map_of(s).contains_key(k) <==> exists|i: int| 0 <= i < s.len() && s[i].0@ == k,
    decreases s.len(),
{
    if s.len() == 0 {
    } else {
        lemma_map_of_contains(s.drop_last(), k);
        if s.last().0@ == k {
            assert(s[s.len() - 1].0@ == k);
        } else {
            assert forall|i: int| 0 <= i < s.len() - 1 implies s.drop_last()[i] == s[i] by {}
        }
    }
}

/// Dropping the last entry keeps the keys pairwise distinct.
proof fn lemma_distinct_drop_last(s: Seq<(String, String)>)
    requires
        distinct_keys(s),
        s.len() > 0,
    ensures
        distinct_keys(s.drop_last()),
{
    assert forall|i: int, j: int|
        0 <= i < j < s.drop_last().len() implies s.drop_last()[i].0@ != s.drop_last()[j].0@ by {
        assert(s.drop_last()[i] == s[i]);
        assert(s.drop_last()[j] == s[j]);
    }
}

/// Under distinct keys, the entry at `i` gives the value the mapping holds
/// for its key.
proof fn lemma_map_of_index(s: Seq<(String, String)>, i: int)
    requires
        distinct_keys(s),
        0 <= i < s.len(),
    ensures
        map_of(s).contains_key(s[i].0@),
        map_of(s)[s[i].0@] == s[i].1@,
    decreases s.len(),
{
    if i == s.len() - 1 {
    } else {
        lemma_distinct_drop_last(s);
        assert(s.drop_last()[i] == s[i]);
        lemma_map_of_index(s.drop_last(), i);
        assert(s[i].0@ != s.last().0@);
    }
}

/// Removing an entry keeps the keys pairwise distinct.
proof fn lemma_distinct_remove(s: Seq<(String, String)>, i: int)
    requires
        distinct_keys(s),
        0 <= i < s.len(),
    ensures
        distinct_keys(s.remove(i)),
{
    let t = s.remove(i);
    assert forall|x: int, y: int| 0 <= x < y < t.len() implies t[x].0@ != t[y].0@ by {
        let sx = if x < i { x } else { x + 1 };
        let sy = if y < i { y } else { y + 1 };
        assert(t[x] == s[sx]);
        assert(t[y] == s[sy]);
    }
}

/// Under distinct keys, removing the entry at `i` removes exactly its key
/// from the mapping.
proof fn lemma_map_of_remove(s: Seq<(String, String)>, i: int)
    requires
        distinct_keys(s),
        0 <= i < s.len(),
    ensures
        map_of(s.remove(i)) == map_of(s).remove(s[i].0@),
    decreases s.len(),
{
    let k = s[i].0@;
    lemma_distinct_drop_last(s);
    if i == s.len() - 1 {
        assert(s.remove(i) =~= s.drop_last());
        lemma_map_of_contains(s.drop_last(), k);
        assert(forall|j: int| 0 <= j < s.len() - 1 ==> #[trigger] s.drop_last()[j].0@ != k);
        assert(!map_of(s.drop_last()).contains_key(k));
        assert(map_of(s.drop_last()) =~= map_of(s).remove(k));
    } else {
        let t = s.remove(i);
        assert(t.drop_last() =~= s.drop_last().remove(i));
        assert(t.last() == s.last());
        assert(s.drop_last()[i] == s[i]);
        lemma_map_of_remove(s.drop_last(), i);
        assert(s.last().0@ != k);
        assert(map_of(s.drop_last()).remove(k).insert(s.last().0@, s.last().1@) =~= map_of(
            s.drop_last(),
        ).insert(s.last().0@, s.last().1@).remove(k));
    }
}

impl View for KvStore {
    type V = Map<Seq<char>, Seq<char>>;

    closed spec fn view(&self) -> Map<Seq<char>, Seq<char>> {
        map_of(self.entries@)
    }
}

impl KvStore {
    /// The store's internal invariant: entries hold pairwise distinct keys,
    /// so each key denotes at most one value.
    pub closed spec fn wf(&self) -> bool {
        distinct_keys(self.entries@)
    }

    /// Creates the store, empty, at process start.
    pub fn new() -> (r: Self)
        ensures
            r.wf(),
            r@ == Map::<Seq<char>, Seq<char>>::empty(),
    {
        KvStore { entries: Vec::new() }
    }

    /// Returns a copy of the value stored under the key, or nothing when the
    /// key is absent.
    pub fn get(&self, key: String) -> (r: Option<String>)
        requires
            self.wf(),
        ensures
            match r {
                Some(v) => self@.contains_key(key@) && v@ == self@[key@],
                None => !self@.contains_key(key@),
            },
    {
        let n = self.entries.len();
        let mut i: usize = 0;
        while i < n
            invariant
                self.wf(),
                n == self.entries@.len(),
                i <= n,
                forall|j: int| 0 <= j < i ==> self.entries@[j].0@ != key@,
            decreases n - i,
        {
            let pair = &self.entries[i];
            if pair.0 == key {
                proof {
                    lemma_map_of_index(self.entries@, i as int);
                }
                return Some(pair.1.clone());
            }
            i += 1;
        }
        proof {
            lemma_map_of_contains(self.entries@, key@);
        }
        None
    }

    /// Removes the entry carrying the key, reporting its previous value.
    fn remove_entry(&mut self, key: &String) -> (r: Option<String>)
        requires
            old(self).wf(),
        ensures
            final(self).wf(),
            final(self)@ == old(self)@.remove(key@),
            match r {
                Some(v) => old(self)@.contains_key(key@) && v@ == old(self)@[key@],
                None => !old(self)@.contains_key(key@),
            },
    {
        let n = self.entries.len();
        let mut i: usize = 0;
        while i < n
            invariant
                self == old(self),
                self.wf(),
                n == self.entries@.len(),
                i <= n,
                forall|j: int| 0 <= j < i ==> self.entries@[j].0@ != key@,
            decreases n - i,
        {
            if self.entries[i].0 == *key {
                proof {
                    lemma_map_of_index(self.entries@, i as int);
                    lemma_map_of_remove(self.entries@, i as int);
                    lemma_distinct_remove(self.entries@, i as int);
                }
                let pair = self.entries.remove(i);
                return Some(pair.1);
            }
            i += 1;
        }
        proof {
            lemma_map_of_contains(self.entries@, key@);
            assert(self@.remove(key@) =~= self@);
        }
        None
    }

    /// Inserts or overwrites the value stored under the key; always
    /// succeeds.
    pub fn set(&mut self, key: String, value: String)
        requires
            old(self).wf(),
        ensures
            final(self).wf(),
            final(self)@ == old(self)@.insert(key@, value@),
    {
        let ghost gk = key@;
        let ghost gv = value@;
        let _prev = self.remove_entry(&key);
        proof {
            lemma_map_of_contains(self.entries@, gk);
        }
        let ghost mid = self.entries@;
        self.entries.push((key, value));
        proof {
            assert(self.entries@.drop_last() =~= mid);
            assert(self.entries@.last().0@ == gk && self.entries@.last().1@ == gv);
            assert(self@ == map_of(mid).insert(gk, gv));
            assert(map_of(mid).insert(gk, gv) =~= old(self)@.insert(gk, gv));
            assert forall|x: int, y: int|
                0 <= x < y < self.entries@.len() implies self.entries@[x].0@
                != self.entries@[y].0@ by {
                if y < self.entries@.len() - 1 {
                    assert(self.entries@[x] == mid[x]);
                    assert(self.entries@[y] == mid[y]);
                } else {
                    assert(self.entries@[x] == mid[x]);
                    assert(mid[x].0@ != gk);
                }
            }
        }
    }

    /// Removes the key, reporting the value it held, or nothing when it was
    /// absent.
    pub fn delete(&mut self, key: String) -> (r: Option<String>)
        requires
            old(self).wf(),
        ensures
            final(self).wf(),
            final(self)@ == old(self)@.remove(key@),
            match r {
                Some(v) => old(self)@.contains_key(key@) && v@ == old(self)@[key@],
                None => !old(self)@.contains_key(key@),
            },
    {
        self.remove_entry(&key)
    }

    /// Reports whether the key is present.
    pub fn key_exists(&self, key: String) -> (r: bool)
        requires
            self.wf(),
        ensures
            r == self@.contains_key(key@),
    {
        self.get(key).is_some()
    }

    /// A snapshot of all current keys, each exactly once, in no particular
    /// order.
    pub fn keys(&self) -> (r: Vec<String>)
        requires
            self.wf(),
        ensures
            r.deep_view().no_duplicates(),
            r.deep_view().to_set() == self@.dom(),
    {
        let n = self.entries.len();
        let mut out: Vec<String> = Vec::new();
        let mut i: usize = 0;
        while i < n
            invariant
                self.wf(),
                n == self.entries@.len(),
                i <= n,
                out@.len() == i,
                forall|j: int| 0 <= j < i ==> out@[j]@ == self.entries@[j].0@,
            decreases n - i,
        {
            let pair = &self.entries[i];
            out.push(pair.0.clone());
            i += 1;
        }
        proof {
            let dv = out.deep_view();
            assert(forall|j: int| 0 <= j < n ==> dv[j] == out@[j]@);
            assert forall|x: int, y: int| 0 <= x < y < dv.len() implies dv[x] != dv[y] by {}
            assert forall|k: Seq<char>| dv.to_set().contains(k) == self@.dom().contains(
                k,
            ) by {
                lemma_map_of_contains(self.entries@, k);
                if self@.dom().contains(k) {
                    let w = choose|j: int| 0 <= j < n && self.entries@[j].0@ == k;
                    assert(dv[w] == k);
                }
            }
            assert(dv.to_set() =~= self@.dom());
        }
        out
    }
}

} // verus!
