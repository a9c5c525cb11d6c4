//! The node of a directory.

use crate::idset::IdSet;
use crate::shelf::file::FileRef;
use crate::shelf::index::TagIndex;
use crate::tag::TagRef;
use vstd::prelude::*;

verus! {

/// One directory of the tree: its files, its tag index, the directory tags
/// declared at it, the closures cached at it, and its subdirectories.
#[derive(Debug)]
pub struct Node {
    pub name: Vec<u8>,
    pub parent: usize,
    pub files: IdSet,
    pub tags: TagIndex,
    pub dtags: IdSet,
    pub dtag_files: TagIndex,
    pub directories: Vec<usize>,
}

impl Node {
    /// The sets and indexes of the node are each in order.
    pub open spec fn wf(&self) -> bool {
        &&& self.files.wf()
        &&& self.tags.wf()
        &&& self.dtags.wf()
        &&& self.dtag_files.wf()
    }

    /// The files of the directory that carry `tag` themselves.
    pub open spec fn tagged(&self, tag: u64) -> Set<u64> {
        self.tags.files_of(tag)
    }

    /// The directory tags declared here.
    pub open spec fn dtag_set(&self) -> Set<u64> {
        self.dtags@
    }

    /// The closure of `tag` cached here.
    pub open spec fn closure(&self, tag: u64) -> Set<u64> {
        self.dtag_files.files_of(tag)
    }

    /// The tag index has an entry for `tag`.
    pub open spec fn has_tagged(&self, tag: u64) -> bool {
        self.tags.has_entry(tag)
    }

    /// A closure of `tag` is cached here.
    pub open spec fn has_closure(&self, tag: u64) -> bool {
        self.dtag_files.has_entry(tag)
    }

    /// `other` is this node but for its tag index.
    pub open spec fn same_but_tags(&self, other: &Node) -> bool {
        &&& self.name == other.name
        &&& self.parent == other.parent
        &&& self.files == other.files
        &&& self.dtags == other.dtags
        &&& self.dtag_files == other.dtag_files
        &&& self.directories == other.directories
    }

    /// `other` is this node but for the directory tags declared at it.
    pub open spec fn same_but_dtags(&self, other: &Node) -> bool {
        &&& self.name == other.name
        &&& self.parent == other.parent
        &&& self.files == other.files
        &&& self.tags == other.tags
        &&& self.dtag_files == other.dtag_files
        &&& self.directories == other.directories
    }

    /// `other` is this node but for the closures cached at it.
    pub open spec fn same_but_closures(&self, other: &Node) -> bool {
        &&& self.name == other.name
        &&& self.parent == other.parent
        &&& self.files == other.files
        &&& self.tags == other.tags
        &&& self.dtags == other.dtags
        &&& self.directories == other.directories
    }

    /// An empty directory named `name` under the directory at `parent`.
    pub fn new(name: Vec<u8>, parent: usize) -> (n: Node)
        ensures
            n.wf(),
            n.name == name,
            n.parent == parent,
            n.files@ == Set::<u64>::empty(),
            n.directories@.len() == 0,
            n.dtag_set() == Set::<u64>::empty(),
            forall|t: u64| #[trigger] n.tagged(t) == Set::<u64>::empty(),
            forall|t: u64| #[trigger] n.closure(t) == Set::<u64>::empty(),
    {
        Node {
            name,
            parent,
            files: IdSet::new(),
            tags: TagIndex::new(),
            dtags: IdSet::new(),
            dtag_files: TagIndex::new(),
            directories: Vec::new(),
        }
    }

    /// Declares `dtag` here. Returns whether the declaration is new.
    pub fn attach_dtag(&mut self, dtag: TagRef) -> (fresh: bool)
        requires
            old(self).wf(),
        ensures
            final(self).wf(),
            fresh == !old(self).dtag_set().contains(dtag.id),
            final(self).dtag_set() == old(self).dtag_set().insert(dtag.id),
            final(self).same_but_dtags(old(self)),
    {
        self.dtags.insert(dtag.id)
    }

    /// Withdraws the declaration of `dtag` here. Returns whether there was one.
    pub fn detach_dtag(&mut self, dtag: TagRef) -> (found: bool)
        requires
            old(self).wf(),
        ensures
            final(self).wf(),
            found == old(self).dtag_set().contains(dtag.id),
            final(self).dtag_set() == old(self).dtag_set().remove(dtag.id),
            final(self).same_but_dtags(old(self)),
    {
        self.dtags.remove(dtag.id)
    }

    /// Files `file` under `tag` in the tag index. Returns whether it was not
    /// yet there.
    pub fn attach(&mut self, tag: TagRef, file: FileRef) -> (fresh: bool)
        requires
            old(self).wf(),
        ensures
            final(self).wf(),
            fresh == !old(self).tagged(tag.id).contains(file.id),
            final(self).tagged(tag.id) == old(self).tagged(tag.id).insert(file.id),
            forall|t: u64| t != tag.id ==> #[trigger] final(self).tagged(t) == old(self).tagged(t),
            final(self).same_but_tags(old(self)),
    {
        self.tags.insert(tag.id, file.id)
    }

    /// With a file: takes it from under `tag` in the tag index, and drops
    /// the entry if it was the last; returns whether the file was there.
    /// Without: drops the whole entry of `tag`; returns whether there was one.
    pub fn detach(&mut self, tag: TagRef, file: Option<FileRef>) -> (found: bool)
        requires
            old(self).wf(),
        ensures
            final(self).wf(),
            final(self).same_but_tags(old(self)),
            forall|t: u64| t != tag.id ==> #[trigger] final(self).tagged(t) == old(self).tagged(t),
            match file {
                Some(f) => {
                    &&& found == old(self).tagged(tag.id).contains(f.id)
                    &&& final(self).tagged(tag.id) == old(self).tagged(tag.id).remove(f.id)
                },
                None => {
                    &&& found == (old(self).tagged(tag.id) != Set::<u64>::empty())
                    &&& final(self).tagged(tag.id) == Set::<u64>::empty()
                },
            },
    {
        match file {
            Some(f) => self.tags.remove(tag.id, f.id),
            None => {
                proof {
                    self.tags.lemma_entries(tag.id);
                }
                self.tags.remove_tag(tag.id)
            },
        }
    }
}

} // verus!
