//! Files and what is known of them.

use crate::idset::IdSet;
use crate::tag::TagRef;
use vstd::prelude::*;

verus! {

/// A handle to a file of a shelf: the place of the file in the shelf.
#[derive(Clone, Copy, Debug, PartialEq, Eq, Structural, Hash)]
pub struct FileRef {
    pub id: u64,
}

/// A point in time: whole seconds since the Unix epoch, and the nanoseconds
/// past that second.
#[derive(Clone, Copy, Debug, PartialEq, Eq, Structural, Hash)]
pub struct Timestamp {
    pub secs: i64,
    pub nanos: u32,
}

#[derive(Clone, Copy, Debug, PartialEq, Eq, Structural, Hash)]
pub struct UnixMetadata {
    pub permissions: u32,
    pub uid: u32,
    pub gid: u32,
}

#[derive(Clone, Copy, Debug, PartialEq, Eq, Structural, Hash)]
pub struct WindowsMetadata {
    pub attributes: u32,
}

/// What a scan found out about a file. A time that the file system does not
/// keep is `None`.
#[derive(Clone, Copy, Debug, PartialEq, Eq, Structural, Hash)]
pub struct FileMetadata {
    pub size: u64,
    pub readonly: bool,
    pub modified: Option<Timestamp>,
    pub accessed: Option<Timestamp>,
    pub created: Option<Timestamp>,
    pub unix: Option<UnixMetadata>,
    pub windows: Option<WindowsMetadata>,
}

impl FileMetadata {
    /// The metadata of a file of which nothing could be read: size 0,
    /// writable, no time and no permissions known.
    pub open spec fn unknown() -> FileMetadata {
        FileMetadata {
            size: 0,
            readonly: false,
            modified: None,
            accessed: None,
            created: None,
            unix: None,
            windows: None,
        }
    }

    /// The metadata of a file from what a scan read of it. `None` stands for
    /// a file whose metadata could not be read.
    pub fn new(found: Option<FileMetadata>) -> (m: FileMetadata)
        ensures
            m == match found {
                Some(meta) => meta,
                None => FileMetadata::unknown(),
            },
    {
        match found {
            Some(meta) => meta,
            None => FileMetadata {
                size: 0,
                readonly: false,
                modified: None,
                accessed: None,
                created: None,
                unix: None,
                windows: None,
            },
        }
    }
}

/// A file: its path and name, the directory that holds it, its metadata,
/// the tags put on it and the directory tags it inherits.
#[derive(Debug)]
pub struct File {
    pub path: String,
    pub name: Vec<u8>,
    pub dir: usize,
    pub metadata: FileMetadata,
    pub tags: IdSet,
    pub dtags: IdSet,
}

impl File {
    /// Both tag sets are kept without repetition.
    pub open spec fn wf(&self) -> bool {
        self.tags.wf() && self.dtags.wf()
    }

    /// The tags put on the file itself.
    pub open spec fn tag_set(&self) -> Set<u64> {
        self.tags@
    }

    /// The directory tags that the file inherits.
    pub open spec fn dtag_set(&self) -> Set<u64> {
        self.dtags@
    }

    /// A file with no tags.
    pub fn new(path: String, name: Vec<u8>, dir: usize, metadata: FileMetadata) -> (f: File)
        ensures
            f.wf(),
            f.path == path,
            f.name == name,
            f.dir == dir,
            f.metadata == metadata,
            f.tag_set() == Set::<u64>::empty(),
            f.dtag_set() == Set::<u64>::empty(),
    {
        File { path, name, dir, metadata, tags: IdSet::new(), dtags: IdSet::new() }
    }

    pub fn path(&self) -> (p: &String)
        ensures
            *p == self.path,
    {
        &self.path
    }

    pub fn name(&self) -> (n: &Vec<u8>)
        ensures
            *n == self.name,
    {
        &self.name
    }

    pub fn metadata(&self) -> (m: FileMetadata)
        ensures
            m == self.metadata,
    {
        self.metadata
    }

    /// Whether the file carries `tag` itself.
    pub fn has_tag(&self, tag: TagRef) -> (b: bool)
        ensures
            b == self.tag_set().contains(tag.id),
    {
        self.tags.contains(tag.id)
    }

    /// Whether the file inherits `tag` from a directory.
    pub fn has_dtag(&self, tag: TagRef) -> (b: bool)
        ensures
            b == self.dtag_set().contains(tag.id),
    {
        self.dtags.contains(tag.id)
    }

    /// Puts `tag` on the file. Returns whether the tag is new to it.
    pub fn attach(&mut self, tag: TagRef) -> (fresh: bool)
        requires
            old(self).wf(),
        ensures
            final(self).wf(),
            fresh == !old(self).tag_set().contains(tag.id),
            final(self).tag_set() == old(self).tag_set().insert(tag.id),
            final(self).dtags == old(self).dtags,
            final(self).path == old(self).path,
            final(self).name == old(self).name,
            final(self).dir == old(self).dir,
            final(self).metadata == old(self).metadata,
    {
        self.tags.insert(tag.id)
    }

    /// Takes `tag` off the file. Returns whether the file carried it.
    pub fn detach(&mut self, tag: TagRef) -> (found: bool)
        requires
            old(self).wf(),
        ensures
            final(self).wf(),
            found == old(self).tag_set().contains(tag.id),
            final(self).tag_set() == old(self).tag_set().remove(tag.id),
            final(self).dtags == old(self).dtags,
            final(self).path == old(self).path,
            final(self).name == old(self).name,
            final(self).dir == old(self).dir,
            final(self).metadata == old(self).metadata,
    {
        self.tags.remove(tag.id)
    }

    /// Marks the file as inheriting `tag`. Returns whether the mark is new.
    pub fn attach_dtag(&mut self, tag: TagRef) -> (fresh: bool)
        requires
            old(self).wf(),
        ensures
            final(self).wf(),
            fresh == !old(self).dtag_set().contains(tag.id),
            final(self).dtag_set() == old(self).dtag_set().insert(tag.id),
            final(self).tags == old(self).tags,
            final(self).path == old(self).path,
            final(self).name == old(self).name,
            final(self).dir == old(self).dir,
            final(self).metadata == old(self).metadata,
    {
        self.dtags.insert(tag.id)
    }

    /// Clears the mark of inheriting `tag`. Returns whether it was set.
    pub fn detach_dtag(&mut self, tag: TagRef) -> (found: bool)
        requires
            old(self).wf(),
        ensures
            final(self).wf(),
            found == old(self).dtag_set().contains(tag.id),
            final(self).dtag_set() == old(self).dtag_set().remove(tag.id),
            final(self).tags == old(self).tags,
            final(self).path == old(self).path,
            final(self).name == old(self).name,
            final(self).dir == old(self).dir,
            final(self).metadata == old(self).metadata,
    {
        self.dtags.remove(tag.id)
    }
}

} // verus!
