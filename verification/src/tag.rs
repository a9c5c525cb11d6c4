//! Tags and the arena that owns them.

use crate::path::same_bytes;
use vstd::prelude::*;
use vstd::string::StringSliceAdditionalSpecFns;

verus! {

/// A handle to a tag: the tag's stable identifier. Two handles are the same
/// tag exactly when their identifiers are equal.
#[derive(Clone, Copy, Debug, PartialEq, Eq, Structural, Hash)]
pub struct TagRef {
    pub id: u64,
}

/// A tag: its identifier, the priority by which tags are ordered, its name,
/// and the tag above it, if any.
#[derive(Debug)]
pub struct Tag {
    pub id: u64,
    pub priority: u64,
    pub name: String,
    pub parent: Option<TagRef>,
}

/// The arena of the tags. The identifier of a tag is its place in the arena.
#[derive(Debug)]
pub struct TagManager {
    tags: Vec<Tag>,
}

/// The first place at or after `from` at which `names` holds `name`.
pub open spec fn first_named(names: Seq<Seq<u8>>, name: Seq<u8>, from: int) -> Option<int>
    decreases names.len() - from,
{
    if from < 0 || from >= names.len() {
        None
    } else if names[from] == name {
        Some(from)
    } else {
        first_named(names, name, from + 1)
    }
}

impl TagManager {
    /// Every tag stands at the place that its identifier names.
    pub closed spec fn wf(&self) -> bool {
        &&& self.tags@.len() <= u64::MAX
        &&& forall|i: int| 0 <= i < self.tags@.len() ==> (#[trigger] self.tags@[i]).id == i
    }

    /// The number of tags.
    pub closed spec fn count(&self) -> nat {
        self.tags@.len()
    }

    /// The names of the tags as bytes, in the order of their identifiers.
    pub closed spec fn names(&self) -> Seq<Seq<u8>> {
        Seq::new(self.tags@.len(), |i: int| vstd::utf8::encode_utf8(self.tags@[i].name@))
    }

    /// The priorities of the tags, in the order of their identifiers.
    pub closed spec fn priorities(&self) -> Seq<u64> {
        Seq::new(self.tags@.len(), |i: int| self.tags@[i].priority)
    }

    /// For each tag the tag above it, in the order of their identifiers.
    pub closed spec fn parents(&self) -> Seq<Option<TagRef>> {
        Seq::new(self.tags@.len(), |i: int| self.tags@[i].parent)
    }

    /// The tag that a query means by `name`: the first tag of that name.
    pub open spec fn lookup(&self, name: Seq<u8>) -> Option<TagRef> {
        match first_named(self.names(), name, 0) {
            Some(i) => Some(TagRef { id: i as u64 }),
            None => None,
        }
    }

    pub fn new() -> (m: TagManager)
        ensures
            m.wf(),
            m.count() == 0,
            m.names() == Seq::<Seq<u8>>::empty(),
            m.priorities() == Seq::<u64>::empty(),
            m.parents() == Seq::<Option<TagRef>>::empty(),
    {
        let m = TagManager { tags: Vec::new() };
        assert(m.names() =~= Seq::<Seq<u8>>::empty());
        assert(m.priorities() =~= Seq::<u64>::empty());
        assert(m.parents() =~= Seq::<Option<TagRef>>::empty());
        m
    }

    /// Adds a tag. Its identifier is the number of tags before it.
    pub fn create(&mut self, name: &str, priority: u64, parent: Option<TagRef>) -> (tag: TagRef)
        requires
            old(self).wf(),
        ensures
            final(self).wf(),
            tag.id == old(self).count(),
            final(self).count() == old(self).count() + 1,
            final(self).names() == old(self).names().push(name.spec_bytes()),
            final(self).priorities() == old(self).priorities().push(priority),
            final(self).parents() == old(self).parents().push(parent),
    {
        let id = self.tags.len() as u64;
        self.tags.push(Tag { id, priority, name: name.to_owned(), parent });
        let n = self.tags.len();
        assert(self.names() =~= old(self).names().push(name.spec_bytes()));
        assert(self.priorities() =~= old(self).priorities().push(priority));
        assert(self.parents() =~= old(self).parents().push(parent));
        TagRef { id }
    }

    /// The tag behind a handle, if the handle is one of this arena.
    pub fn get(&self, tag: TagRef) -> (r: Option<&Tag>)
        requires
            self.wf(),
        ensures
            r is Some == (tag.id < self.count()),
            r matches Some(t) ==> t.id == tag.id && t.priority == self.priorities()[tag.id as int]
                && t.parent == self.parents()[tag.id as int] && vstd::utf8::encode_utf8(t.name@)
                == self.names()[tag.id as int],
    {
        if tag.id < self.tags.len() as u64 {
            Some(&self.tags[tag.id as usize])
        } else {
            None
        }
    }

    /// The tag named `name`, if there is one.
    pub fn retrieve_tag(&self, name: &[u8]) -> (r: Option<TagRef>)
        requires
            self.wf(),
        ensures
            r == self.lookup(name@),
    {
        let mut i: usize = 0;
        while i < self.tags.len()
            invariant
                self.wf(),
                i <= self.tags@.len(),
                first_named(self.names(), name@, 0) == first_named(self.names(), name@, i as int),
            decreases self.tags@.len() - i,
        {
            if same_bytes(self.tags[i].name.as_str().as_bytes(), name) {
                return Some(TagRef { id: i as u64 });
            }
            i += 1;
        }
        None
    }

    /// Whether tag `a` comes before tag `b`: whether its priority is lower.
    /// `None` where a handle is none of this arena.
    pub fn precedes(&self, a: TagRef, b: TagRef) -> (r: Option<bool>)
        requires
            self.wf(),
        ensures
            r is Some == (a.id < self.count() && b.id < self.count()),
            r matches Some(before) ==> before == (self.priorities()[a.id as int]
                < self.priorities()[b.id as int]),
    {
        if a.id < self.tags.len() as u64 && b.id < self.tags.len() as u64 {
            Some(self.tags[a.id as usize].priority < self.tags[b.id as usize].priority)
        } else {
            None
        }
    }
}

} // verus!
