//! An index from tags to sets of files.

use crate::idset::IdSet;
use std::collections::HashMap;
use vstd::prelude::*;

verus! {

broadcast use vstd::std_specs::hash::group_hash_axioms;

/// For each tag the set of files filed under it. A tag under which no file
/// is filed has no entry.
#[derive(Debug)]
pub struct TagIndex {
    map: HashMap<u64, IdSet>,
}

impl TagIndex {
    /// Every entry is a set without repetition, and none is empty.
    pub closed spec fn wf(&self) -> bool {
        forall|t: u64| #[trigger]
            self.map@.contains_key(t) ==> self.map@[t].wf() && self.map@[t]@ != Set::<u64>::empty()
    }

    /// Whether `tag` has an entry.
    pub closed spec fn has_entry(&self, tag: u64) -> bool {
        self.map@.contains_key(tag)
    }

    /// The files filed under `tag`.
    pub closed spec fn files_of(&self, tag: u64) -> Set<u64> {
        if self.map@.contains_key(tag) {
            self.map@[tag]@
        } else {
            Set::empty()
        }
    }

    /// A tag has an entry exactly when a file is filed under it.
    pub proof fn lemma_entries(&self, tag: u64)
        requires
            self.wf(),
        ensures
            self.has_entry(tag) <==> self.files_of(tag) != Set::<u64>::empty(),
    {
    }

    pub fn new() -> (idx: TagIndex)
        ensures
            idx.wf(),
            forall|t: u64| #[trigger] idx.files_of(t) == Set::<u64>::empty(),
            forall|t: u64| !#[trigger] idx.has_entry(t),
    {
        TagIndex { map: HashMap::new() }
    }

    /// A copy of the set of files filed under `tag`.
    pub fn get(&self, tag: u64) -> (s: IdSet)
        requires
            self.wf(),
        ensures
            s.wf(),
            s@ == self.files_of(tag),
    {
        match self.map.get(&tag) {
            Some(s) => s.copy(),
            None => IdSet::new(),
        }
    }

    /// Whether `file` is filed under `tag`.
    pub fn contains(&self, tag: u64, file: u64) -> (b: bool)
        ensures
            b == self.files_of(tag).contains(file),
    {
        match self.map.get(&tag) {
            Some(s) => s.contains(file),
            None => false,
        }
    }

    /// Files `file` under `tag`. Returns whether it was not yet there.
    pub fn insert(&mut self, tag: u64, file: u64) -> (fresh: bool)
        requires
            old(self).wf(),
        ensures
            final(self).wf(),
            fresh == !old(self).files_of(tag).contains(file),
            final(self).files_of(tag) == old(self).files_of(tag).insert(file),
            forall|t: u64| t != tag ==> #[trigger] final(self).files_of(t) == old(self).files_of(t),
    {
        let mut set = match self.map.remove(&tag) {
            Some(s) => s,
            None => IdSet::new(),
        };
        let fresh = set.insert(file);
        assert(set@.contains(file));
        self.map.insert(tag, set);
        assert forall|t: u64| t != tag implies #[trigger] self.files_of(t) == old(self).files_of(
            t,
        ) by {}
        fresh
    }

    /// Takes `file` from under `tag`, and drops the entry of `tag` if it
    /// was the last. Returns whether the file was there.
    pub fn remove(&mut self, tag: u64, file: u64) -> (found: bool)
        requires
            old(self).wf(),
        ensures
            final(self).wf(),
            found == old(self).files_of(tag).contains(file),
            final(self).files_of(tag) == old(self).files_of(tag).remove(file),
            forall|t: u64| t != tag ==> #[trigger] final(self).files_of(t) == old(self).files_of(t),
    {
        match self.map.remove(&tag) {
            None => {
                assert(old(self).files_of(tag).remove(file) =~= Set::<u64>::empty());
                assert forall|t: u64| t != tag implies #[trigger] self.files_of(t) == old(
                    self,
                ).files_of(t) by {}
                false
            },
            Some(s) => {
                let mut set = s;
                let found = set.remove(file);
                if !set.is_empty() {
                    self.map.insert(tag, set);
                }
                assert forall|t: u64| t != tag implies #[trigger] self.files_of(t) == old(
                    self,
                ).files_of(t) by {}
                found
            },
        }
    }

    /// Drops the entry of `tag`. Returns whether there was one.
    pub fn remove_tag(&mut self, tag: u64) -> (found: bool)
        requires
            old(self).wf(),
        ensures
            final(self).wf(),
            found == old(self).has_entry(tag),
            final(self).files_of(tag) == Set::<u64>::empty(),
            forall|t: u64| t != tag ==> #[trigger] final(self).files_of(t) == old(self).files_of(t),
    {
        let r = self.map.remove(&tag);
        assert forall|t: u64| t != tag implies #[trigger] self.files_of(t) == old(self).files_of(
            t,
        ) by {}
        r.is_some()
    }
}

} // verus!
