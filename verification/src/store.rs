use vstd::prelude::*;

use crate::errors::{DepLookupError, DuplicateWriteError, NotReadyError};
use crate::graph::TaskKey;

verus! {

/// The keys of a list of entries, in order.
pub open spec fn kv_keys<V>(s: Seq<(TaskKey, V)>) -> Seq<TaskKey> {
    s.map_values(|p: (TaskKey, V)| p.0)
}

/// The mapping a list of entries describes; a later entry would win, but a
/// well-formed store never holds a key twice.
pub open spec fn kv_map<V>(s: Seq<(TaskKey, V)>) -> Map<TaskKey, V>
    decreases s.len(),
{
    if s.len() == 0 {
        Map::empty()
    } else {
        kv_map(s.drop_last()).insert(s.last().0, s.last().1)
    }
}

/// With distinct keys, the mapping holds exactly the listed pairs.
pub proof fn lemma_kv_map_props<V>(s: Seq<(TaskKey, V)>)
    requires
        kv_keys(s).no_duplicates(),
    ensures
        forall|k: TaskKey| kv_map(s).contains_key(k) <==> kv_keys(s).contains(k),
        forall|i: int| 0 <= i < s.len() ==> kv_map(s).contains_key((#[trigger] s[i]).0),
        forall|i: int| 0 <= i < s.len() ==> kv_map(s)[(#[trigger] s[i]).0] == s[i].1,
    decreases s.len(),
{
    if s.len() > 0 {
        let butlast = s.drop_last();
        assert(kv_keys(butlast) =~= kv_keys(s).drop_last());
        assert(kv_keys(butlast).no_duplicates());
        lemma_kv_map_props(butlast);
        assert forall|k: TaskKey| kv_map(s).contains_key(k) implies kv_keys(s).contains(k) by {
            if k == s.last().0 {
                assert(kv_keys(s)[s.len() - 1] == k);
            } else {
                assert(kv_map(butlast).contains_key(k));
                assert(kv_keys(butlast).contains(k));
                let i = choose|i: int| 0 <= i < kv_keys(butlast).len() && kv_keys(butlast)[i] == k;
                assert(kv_keys(s)[i] == k);
            }
        }
        assert forall|k: TaskKey| kv_keys(s).contains(k) implies kv_map(s).contains_key(k) by {
            let i = choose|i: int| 0 <= i < kv_keys(s).len() && kv_keys(s)[i] == k;
            if i < s.len() - 1 {
                assert(kv_keys(butlast)[i] == k);
            }
        }
        assert forall|i: int| 0 <= i < s.len() implies kv_map(s).contains_key(
            (#[trigger] s[i]).0,
        ) by {
            assert(kv_keys(s)[i] == s[i].0);
            assert(kv_keys(s).contains(s[i].0));
        }
        assert forall|i: int| 0 <= i < s.len() implies kv_map(s)[(#[trigger] s[i]).0] == s[i].1 by {
            if i < s.len() - 1 {
                // The last key differs from this one, so the insert is
                // invisible at s[i].0.
                assert(kv_keys(s)[i] == s[i].0 && kv_keys(s)[s.len() - 1] == s.last().0);
                assert(s[i].0 != s.last().0);
                assert(butlast[i] == s[i]);
            }
        }
    }
}

/// Write-once-per-key, read-many mapping from task key to completed value.
/// Entries are appended when a task completes and never change afterwards.
#[derive(Debug)]
pub struct ResultStore<V> {
    pub entries: Vec<(TaskKey, V)>,
}

impl<V> View for ResultStore<V> {
    type V = Map<TaskKey, V>;

    open spec fn view(&self) -> Map<TaskKey, V> {
        kv_map(self.entries@)
    }
}

impl<V> ResultStore<V> {
    /// The published pairs, in completion order.
    pub open spec fn entry_seq(&self) -> Seq<(TaskKey, V)> {
        self.entries@
    }

    /// Each key holds at most one value.
    pub open spec fn wf(&self) -> bool {
        kv_keys(self.entries@).no_duplicates()
    }

    pub fn new() -> (s: ResultStore<V>)
        ensures
            s.wf(),
            s@ == Map::<TaskKey, V>::empty(),
            s.entry_seq() == Seq::<(TaskKey, V)>::empty(),
    {
        let s = ResultStore { entries: Vec::new() };
        proof {
            assert(kv_keys(s.entries@) =~= Seq::<TaskKey>::empty());
        }
        s
    }

    pub fn num_published(&self) -> (n: usize)
        ensures
            n == self.entry_seq().len(),
    {
        self.entries.len()
    }

    fn find(&self, key: TaskKey) -> (r: Option<usize>)
        ensures
            match r {
                Some(i) => i < self.entries@.len() && self.entries@[i as int].0 == key,
                None => !kv_keys(self.entries@).contains(key),
            },
    {
        let n = self.entries.len();
        for i in 0..n
            invariant
                n == self.entries@.len(),
                forall|j: int| 0 <= j < i ==> (#[trigger] self.entries@[j]).0 != key,
        {
            if self.entries[i].0 == key {
                return Some(i);
            }
        }
        proof {
            assert forall|j: int| 0 <= j < kv_keys(self.entries@).len() implies kv_keys(
                self.entries@,
            )[j] != key by {
                assert(self.entries@[j].0 != key);
            }
        }
        None
    }

    pub fn contains(&self, key: TaskKey) -> (b: bool)
        requires
            self.wf(),
        ensures
            b == self@.contains_key(key),
    {
        proof {
            lemma_kv_map_props(self.entries@);
        }
        self.find(key).is_some()
    }

    /// Publishes the completed value for `key`; write-once: a second publish
    /// for the same key is refused and changes nothing.
    pub fn publish(&mut self, key: TaskKey, value: V) -> (r: Result<(), DuplicateWriteError>)
        requires
            old(self).wf(),
        ensures
            final (self).wf(),
            match r {
                Ok(()) => {
                    &&& !old(self)@.contains_key(key)
                    &&& final (self)@ == old(self)@.insert(key, value)
                    &&& final (self).entry_seq() == old(self).entry_seq().push((key, value))
                },
                Err(e) => {
                    &&& e.key == key
                    &&& old(self)@.contains_key(key)
                    &&& *final (self) == *old(self)
                },
            },
    {
        proof {
            lemma_kv_map_props(self.entries@);
        }
        match self.find(key) {
            Some(_) => Err(DuplicateWriteError { key }),
            None => {
                let ghost old_entries = self.entries@;
                self.entries.push((key, value));
                proof {
                    assert(self.entries@.drop_last() =~= old_entries);
                    assert(kv_keys(self.entries@) =~= kv_keys(old_entries).push(key));
                    assert(kv_keys(self.entries@).no_duplicates());
                }
                Ok(())
            },
        }
    }

    /// Reads the value published for `key`; the result only depends on the
    /// store's contents, so repeated reads return the same value.
    pub fn get(&self, key: TaskKey) -> (r: Result<&V, NotReadyError>)
        ensures
            self.wf() ==> match r {
                Ok(v) => self@.contains_key(key) && *v == self@[key],
                Err(e) => e.key == key && !self@.contains_key(key),
            },
    {
        proof {
            if self.wf() {
                lemma_kv_map_props(self.entries@);
            }
        }
        match self.find(key) {
            Some(i) => Ok(&self.entries[i].1),
            None => Err(NotReadyError { key }),
        }
    }

    /// The published pairs, for inspection.
    pub fn entries(&self) -> (r: &Vec<(TaskKey, V)>)
        ensures
            r@ == self.entry_seq(),
    {
        &self.entries
    }

    /// Hands every published pair to the caller, closing the store.
    pub fn drain_all(self) -> (r: Vec<(TaskKey, V)>)
        ensures
            r@ == self.entry_seq(),
    {
        self.entries
    }
}

/// The restricted read interface a running task gets: lookups are limited to
/// the task's declared dependencies, so the dependency graph stays the single
/// source of truth for ordering.
pub struct DepView<'a, V> {
    pub store: &'a ResultStore<V>,
    pub allowed: &'a Vec<TaskKey>,
}

impl<'a, V> DepView<'a, V> {
    /// Reads a declared dependency's value. A key outside the declared set is
    /// refused as `Undeclared` even when a value for it exists.
    pub fn get(&self, key: TaskKey) -> (r: Result<&V, DepLookupError>)
        ensures
            self.store.wf() ==> match r {
                Ok(v) => self.allowed@.contains(key) && self.store@.contains_key(key) && *v
                    == self.store@[key],
                Err(DepLookupError::Undeclared(k)) => k == key && !self.allowed@.contains(key),
                Err(DepLookupError::NotReady(k)) => k == key && self.allowed@.contains(key)
                    && !self.store@.contains_key(key),
            },
    {
        let n = self.allowed.len();
        let mut declared = false;
        for i in 0..n
            invariant
                n == self.allowed@.len(),
                declared <==> exists|j: int| 0 <= j < i && self.allowed@[j] == key,
        {
            if self.allowed[i] == key {
                declared = true;
            }
        }
        if !declared {
            return Err(DepLookupError::Undeclared(key));
        }
        match self.store.get(key) {
            Ok(v) => Ok(v),
            Err(_) => Err(DepLookupError::NotReady(key)),
        }
    }
}

} // verus!
