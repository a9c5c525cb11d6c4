//! The shelf: the tree of a root directory with its tag indexes.

use crate::idset::IdSet;
use crate::path::{components, names_of, same_bytes, split_path, starts_with};
use crate::shelf::file::{File, FileMetadata, FileRef};
use crate::shelf::model::{
    changed, entry_at, link_at, put, DirView, FileView, ShelfView, UpdateErr,
};
use crate::shelf::node::Node;
use crate::tag::TagRef;
use vstd::prelude::*;
use vstd::string::StringSliceAdditionalSpecFns;

verus! {

/// The tree under a root directory. The nodes stand in one table, the root
/// first and every other node after its parent; the files stand in another.
#[derive(Debug)]
pub struct Shelf {
    root_path: Vec<Vec<u8>>,
    nodes: Vec<Node>,
    files: Vec<File>,
}

impl View for Shelf {
    type V = ShelfView;

    closed spec fn view(&self) -> ShelfView {
        ShelfView {
            root: names_of(self.root_path@),
            dirs: Seq::new(
                self.nodes@.len(),
                |k: int|
                    DirView {
                        parent: self.nodes@[k].parent as int,
                        name: self.nodes@[k].name@,
                        dtags: self.nodes@[k].dtags@,
                    },
            ),
            files: Seq::new(
                self.files@.len(),
                |f: int|
                    FileView {
                        dir: self.files@[f].dir as int,
                        name: self.files@[f].name@,
                        tags: self.files@[f].tags@,
                        path: self.files@[f].path@,
                        metadata: self.files@[f].metadata,
                    },
            ),
        }
    }
}

impl Shelf {
    /// The tables are in order: the model is a tree, every set is kept
    /// without repetition, every node lists its own files and its own
    /// subdirectories.
    spec fn shape_wf(&self) -> bool {
        &&& self@.tree_wf()
        &&& self.nodes@.len() <= usize::MAX
        &&& self.files@.len() <= usize::MAX
        &&& self.files@.len() <= u64::MAX
        &&& forall|k: int| 0 <= k < self.nodes@.len() ==> (#[trigger] self.nodes@[k]).wf()
        &&& forall|f: int| 0 <= f < self.files@.len() ==> (#[trigger] self.files@[f]).wf()
        &&& forall|k: int, f: u64|
            0 <= k < self.nodes@.len() ==> (#[trigger] self.nodes@[k].files@.contains(f) <==> (f
                < self.files@.len() && self.files@[f as int].dir == k))
        &&& forall|k: int, j: int|
            0 <= k < self.nodes@.len() && 0 <= j < self.nodes@[k].directories@.len() ==> 0 < (
            #[trigger] self.nodes@[k].directories@[j]) < self.nodes@.len()
                && self.nodes@[self.nodes@[k].directories@[j] as int].parent == k
        &&& forall|c: int|
            0 < c < self.nodes@.len()
                ==> (#[trigger] self.nodes@[self.nodes@[c].parent as int]).directories@.contains(
                c as usize,
            )
    }

    /// The tag index of every node holds what the model says.
    spec fn tags_ok(&self) -> bool {
        forall|k: int, t: u64|
            0 <= k < self.nodes@.len() ==> (#[trigger] self.nodes@[k].tagged(t)) == self@.node_tags(
                k,
                t,
            )
    }

    /// The closures cached at every node hold what the model says.
    spec fn closures_ok(&self) -> bool {
        forall|k: int, t: u64|
            0 <= k < self.nodes@.len() ==> (#[trigger] self.nodes@[k].closure(t))
                == self@.node_dtag_files(k, t)
    }

    /// Every file is marked with the directory tags in whose scope it lies.
    spec fn marks_ok(&self) -> bool {
        forall|f: int, t: u64|
            0 <= f < self.files@.len() ==> (#[trigger] self.files@[f].dtags@.contains(t))
                == self@.covered(self.files@[f].dir as int, t)
    }

    /// The shelf is in order: its tables are, and every index, closure and
    /// mark is what the model defines (`lemma_wf_tree` and `lemma_wf_indexes`
    /// say what follows).
    pub closed spec fn wf(&self) -> bool {
        &&& self.shape_wf()
        &&& self.tags_ok()
        &&& self.closures_ok()
        &&& self.marks_ok()
    }

    /// A shelf in order has a tree for its model.
    pub proof fn lemma_wf_tree(&self)
        requires
            self.wf(),
        ensures
            self@.tree_wf(),
    {
    }

    /// The node of directory `n`.
    pub closed spec fn node(&self, n: int) -> Node {
        self.nodes@[n]
    }

    /// The file at place `f`.
    pub closed spec fn file_at(&self, f: int) -> File {
        self.files@[f]
    }

    /// What a shelf in order keeps at its nodes and files is what the model
    /// defines. The tag index of every node holds, for every tag, the files
    /// of the node that carry the tag themselves; the closure cached at
    /// every node holds, for every tag, the files in and below the node that
    /// lie in the scope of the tag; each has an entry for a tag exactly
    /// where that set is not empty. Every node declares the directory tags
    /// that the model gives it. Every file carries the tags that the model
    /// gives it, and is marked with the directory tags in whose scope it
    /// lies.
    pub proof fn lemma_wf_indexes(&self)
        requires
            self.wf(),
        ensures
            forall|n: int, t: u64|
                0 <= n < self@.dirs.len() ==> {
                    &&& (#[trigger] self.node(n).tagged(t)) == self@.node_tags(n, t)
                    &&& self.node(n).has_tagged(t) == (self@.node_tags(n, t) != Set::<u64>::empty())
                },
            forall|n: int, t: u64|
                0 <= n < self@.dirs.len() ==> {
                    &&& (#[trigger] self.node(n).closure(t)) == self@.node_dtag_files(n, t)
                    &&& self.node(n).has_closure(t) == (self@.node_dtag_files(n, t) != Set::<
                        u64,
                    >::empty())
                },
            forall|n: int|
                0 <= n < self@.dirs.len() ==> (#[trigger] self.node(n)).dtag_set()
                    == self@.dirs[n].dtags,
            forall|f: int|
                0 <= f < self@.files.len() ==> (#[trigger] self.file_at(f)).tag_set()
                    == self@.files[f].tags,
            forall|f: int, t: u64|
                0 <= f < self@.files.len() ==> (#[trigger] self.file_at(f).dtag_set().contains(t))
                    == self@.covered(self@.files[f].dir, t),
    {
        assert forall|n: int, t: u64| 0 <= n < self@.dirs.len() implies {
            &&& (#[trigger] self.node(n).tagged(t)) == self@.node_tags(n, t)
            &&& self.node(n).has_tagged(t) == (self@.node_tags(n, t) != Set::<u64>::empty())
        } by {
            assert(self.nodes@[n].wf());
            assert(self.nodes@[n].tagged(t) == self@.node_tags(n, t));
            self.nodes@[n].tags.lemma_entries(t);
        }
        assert forall|n: int, t: u64| 0 <= n < self@.dirs.len() implies {
            &&& (#[trigger] self.node(n).closure(t)) == self@.node_dtag_files(n, t)
            &&& self.node(n).has_closure(t) == (self@.node_dtag_files(n, t) != Set::<u64>::empty())
        } by {
            assert(self.nodes@[n].wf());
            assert(self.nodes@[n].closure(t) == self@.node_dtag_files(n, t));
            self.nodes@[n].dtag_files.lemma_entries(t);
        }
        assert forall|f: int, t: u64| 0 <= f < self@.files.len() implies (
        #[trigger] self.file_at(f).dtag_set().contains(t)) == self@.covered(
            self@.files[f].dir,
            t,
        ) by {
            assert(self.files@[f].dtags@.contains(t) == self@.covered(
                self.files@[f].dir as int,
                t,
            ));
        }
    }

    /// `other` has the tree and the files of this shelf: the same nodes
    /// under the same names and parents with the same lists, and the same
    /// files in the same directories; tags, closures and marks may differ.
    spec fn same_frame(&self, other: &Shelf) -> bool {
        &&& self.root_path == other.root_path
        &&& self.nodes@.len() == other.nodes@.len()
        &&& self.files@.len() == other.files@.len()
        &&& forall|k: int|
            0 <= k < self.nodes@.len() ==> {
                &&& (#[trigger] self.nodes@[k]).name == other.nodes@[k].name
                &&& self.nodes@[k].parent == other.nodes@[k].parent
                &&& self.nodes@[k].files == other.nodes@[k].files
                &&& self.nodes@[k].directories == other.nodes@[k].directories
            }
        &&& forall|f: int|
            0 <= f < self.files@.len() ==> {
                &&& (#[trigger] self.files@[f]).name == other.files@[f].name
                &&& self.files@[f].dir == other.files@[f].dir
                &&& self.files@[f].path == other.files@[f].path
                &&& self.files@[f].metadata == other.files@[f].metadata
            }
    }

    /// The sets of every node and of every file are kept without repetition.
    spec fn sets_wf(&self) -> bool {
        &&& forall|k: int| 0 <= k < self.nodes@.len() ==> (#[trigger] self.nodes@[k]).wf()
        &&& forall|f: int| 0 <= f < self.files@.len() ==> (#[trigger] self.files@[f]).wf()
    }

    proof fn lemma_frame(&self, other: &Shelf)
        requires
            other.shape_wf(),
            self.same_frame(other),
            self.sets_wf(),
        ensures
            self.shape_wf(),
            self@.same_tree(other@),
            self@.files.len() == other@.files.len(),
            forall|f: int|
                0 <= f < self@.files.len()
                    ==> (#[trigger] self@.files[f]).dir == other@.files[f].dir
                    && self@.files[f].name == other@.files[f].name,
    {
        let v = self@;
        let w = other@;
        assert(w.tree_wf());
        assert forall|k: int| 0 < k < v.dirs.len() implies 0 <= (#[trigger] v.dirs[k]).parent
            < k by {
            assert(0 <= w.dirs[k].parent < k);
        }
        assert forall|j: int, k: int|
            0 < j < k < v.dirs.len() && (#[trigger] v.dirs[j]).parent == (
            #[trigger] v.dirs[k]).parent implies v.dirs[j].name != v.dirs[k].name by {
            assert(w.dirs[j].parent == w.dirs[k].parent);
        }
        assert forall|f: int| 0 <= f < v.files.len() implies 0 <= (#[trigger] v.files[f]).dir
            < v.dirs.len() by {
            assert(0 <= w.files[f].dir < w.dirs.len());
        }
        assert forall|f: int, g: int|
            0 <= f < g < v.files.len() && (#[trigger] v.files[f]).dir == (
            #[trigger] v.files[g]).dir implies v.files[f].name != v.files[g].name by {
            assert(w.files[f].dir == w.files[g].dir);
        }
        assert(v.tree_wf());
        assert forall|k: int, f: u64| 0 <= k < self.nodes@.len() implies (
        #[trigger] self.nodes@[k].files@.contains(f) <==> (f < self.files@.len()
            && self.files@[f as int].dir == k)) by {
            assert(other.nodes@[k].files@.contains(f) <==> (f < other.files@.len()
                && other.files@[f as int].dir == k));
        }
        assert forall|k: int, j: int|
            0 <= k < self.nodes@.len() && 0 <= j < self.nodes@[k].directories@.len() implies 0 < (
            #[trigger] self.nodes@[k].directories@[j]) < self.nodes@.len()
                && self.nodes@[self.nodes@[k].directories@[j] as int].parent == k by {
            assert(0 < other.nodes@[k].directories@[j] < other.nodes@.len());
        }
        assert forall|c: int| 0 < c < self.nodes@.len() implies (
        #[trigger] self.nodes@[self.nodes@[c].parent as int]).directories@.contains(
            c as usize,
        ) by {
            assert(0 <= w.dirs[c].parent < c);
            assert(other.nodes@[other.nodes@[c].parent as int].directories@.contains(c as usize));
        }
    }

    /// This shelf is `other` with closures and marks changed: the tables are
    /// in order, and the tree, the files and the tags are those of `other`.
    spec fn recached(&self, other: &Shelf) -> bool {
        &&& self.shape_wf()
        &&& self@ == other@
        &&& self.same_frame(other)
        &&& forall|m: int|
            0 <= m < self.nodes@.len() ==> (#[trigger] self.nodes@[m]).same_but_closures(
                &other.nodes@[m],
            )
        &&& forall|g: int|
            0 <= g < self.files@.len() ==> (#[trigger] self.files@[g]).tags == other.files@[g].tags
    }

    proof fn lemma_recached_again(&self, mid: &Shelf, other: &Shelf)
        requires
            self.recached(mid),
            mid.recached(other),
        ensures
            self.recached(other),
    {
        assert forall|m: int| 0 <= m < self.nodes@.len() implies {
            &&& (#[trigger] self.nodes@[m]).name == other.nodes@[m].name
            &&& self.nodes@[m].parent == other.nodes@[m].parent
            &&& self.nodes@[m].files == other.nodes@[m].files
            &&& self.nodes@[m].directories == other.nodes@[m].directories
            &&& self.nodes@[m].same_but_closures(&other.nodes@[m])
        } by {
            let b = mid.nodes@[m];
        }
        assert forall|g: int| 0 <= g < self.files@.len() implies {
            &&& (#[trigger] self.files@[g]).name == other.files@[g].name
            &&& self.files@[g].dir == other.files@[g].dir
            &&& self.files@[g].path == other.files@[g].path
            &&& self.files@[g].metadata == other.files@[g].metadata
            &&& self.files@[g].tags == other.files@[g].tags
        } by {
            let b = mid.files@[g];
        }
    }

    /// A shelf rooted at `path`, with an empty root directory.
    pub fn new(path: &str) -> (shelf: Shelf)
        ensures
            shelf.wf(),
            shelf@ == ShelfView::empty(components(path.spec_bytes())),
    {
        let root_path = split_path(path);
        let mut nodes: Vec<Node> = Vec::new();
        nodes.push(Node::new(Vec::new(), 0));
        let files: Vec<File> = Vec::new();
        let shelf = Shelf { root_path, nodes, files };
        proof {
            let e = ShelfView::empty(components(path.spec_bytes()));
            assert(shelf@.dirs =~= e.dirs);
            assert(shelf@.files =~= e.files);
            assert(shelf.shape_wf());
            assert forall|k: int, t: u64| 0 <= k < shelf.nodes@.len() implies (
            #[trigger] shelf.nodes@[k].tagged(t)) == shelf@.node_tags(k, t) by {
                assert(shelf@.node_tags(k, t) =~= Set::<u64>::empty());
            }
            assert forall|k: int, t: u64| 0 <= k < shelf.nodes@.len() implies (
            #[trigger] shelf.nodes@[k].closure(t)) == shelf@.node_dtag_files(k, t) by {
                assert(shelf@.node_dtag_files(k, t) =~= Set::<u64>::empty());
            }
        }
        shelf
    }

    /// The number of directories.
    pub fn dir_count(&self) -> (n: usize)
        ensures
            n == self@.dirs.len(),
    {
        self.nodes.len()
    }

    /// The number of files.
    pub fn file_count(&self) -> (n: usize)
        ensures
            n == self@.files.len(),
    {
        self.files.len()
    }

    /// The subdirectory of node `n` named `name`.
    fn find_child(&self, n: usize, name: &[u8]) -> (r: Option<usize>)
        requires
            self.shape_wf(),
            n < self.nodes@.len(),
        ensures
            match r {
                Some(c) => self@.child(n as int, name@) == Some(c as int) && c < self.nodes@.len(),
                None => self@.child(n as int, name@) is None,
            },
    {
        let ghost dirs = self.nodes@[n as int].directories@;
        let mut j: usize = 0;
        while j < self.nodes[n].directories.len()
            invariant
                self.shape_wf(),
                n < self.nodes@.len(),
                dirs == self.nodes@[n as int].directories@,
                j <= dirs.len(),
                forall|i: int| 0 <= i < j ==> self.nodes@[dirs[i] as int].name@ != name@,
            decreases dirs.len() - j,
        {
            let c = self.nodes[n].directories[j];
            assert(0 < self.nodes@[n as int].directories@[j as int] < self.nodes@.len());
            if same_bytes(self.nodes[c].name.as_slice(), name) {
                proof {
                    let v = self@;
                    assert(link_at(v.links(), n as int, name@, c as int));
                    let d = choose|d: int| link_at(v.links(), n as int, name@, d);
                    assert(v.dirs[d].parent == v.dirs[c as int].parent);
                    assert(d == c);
                }
                return Some(c);
            }
            j += 1;
        }
        proof {
            let v = self@;
            assert forall|d: int| !link_at(v.links(), n as int, name@, d) by {
                if link_at(v.links(), n as int, name@, d) {
                    assert(0 < d < self.nodes@.len());
                    assert(self.nodes@[d].parent as int == n);
                    assert(self.nodes@[self.nodes@[d].parent as int].directories@.contains(
                        d as usize,
                    ));
                    assert(dirs.contains(d as usize));
                    let i = choose|i: int| 0 <= i < dirs.len() && dirs[i] == d as usize;
                    assert(self.nodes@[dirs[i] as int].name@ != name@);
                }
            }
        }
        None
    }

    /// The file of node `n` named `name`.
    fn find_file(&self, n: usize, name: &[u8]) -> (r: Option<u64>)
        requires
            self.shape_wf(),
            n < self.nodes@.len(),
        ensures
            match r {
                Some(f) => self@.file_in(n as int, name@) == Some(f as int) && f
                    < self.files@.len(),
                None => self@.file_in(n as int, name@) is None,
            },
    {
        let ghost ids = self.nodes@[n as int].files.members();
        proof {
            self.nodes@[n as int].files.lemma_members();
        }
        let mut j: usize = 0;
        while j < self.nodes[n].files.len()
            invariant
                self.shape_wf(),
                n < self.nodes@.len(),
                ids == self.nodes@[n as int].files.members(),
                self.nodes@[n as int].files@ == ids.to_set(),
                j <= ids.len(),
                forall|i: int| 0 <= i < j ==> self.files@[ids[i] as int].name@ != name@,
            decreases ids.len() - j,
        {
            let f = self.nodes[n].files.get(j);
            assert(self.nodes@[n as int].files@.contains(f));
            assert(f < self.files@.len() && self.files@[f as int].dir == n);
            if same_bytes(self.files[f as usize].name.as_slice(), name) {
                proof {
                    let v = self@;
                    assert(entry_at(v.entries(), n as int, name@, f as int));
                    let g = choose|g: int| entry_at(v.entries(), n as int, name@, g);
                    assert(v.files[g].dir == v.files[f as int].dir);
                    assert(g == f);
                }
                return Some(f);
            }
            j += 1;
        }
        proof {
            let v = self@;
            assert forall|g: int| !entry_at(v.entries(), n as int, name@, g) by {
                if entry_at(v.entries(), n as int, name@, g) {
                    assert(0 <= g < self.files@.len());
                    assert(self.files@[g as u64 as int].dir == n);
                    assert(self.nodes@[n as int].files@.contains(g as u64));
                    assert(ids.contains(g as u64));
                    let i = choose|i: int| 0 <= i < ids.len() && ids[i] == g as u64;
                    assert(self.files@[ids[i] as int].name@ != name@);
                }
            }
        }
        None
    }

    /// The directory reached from the root through `parts[from..to]`.
    fn walk(&self, parts: &Vec<Vec<u8>>, from: usize, to: usize) -> (r: Option<usize>)
        requires
            self.shape_wf(),
            from <= to <= parts@.len(),
        ensures
            match r {
                Some(n) => self@.walk(0, names_of(parts@).subrange(from as int, to as int))
                    == Some(n as int) && n < self.nodes@.len(),
                None => self@.walk(0, names_of(parts@).subrange(from as int, to as int)) is None,
            },
    {
        let ghost names = names_of(parts@).subrange(from as int, to as int);
        let mut cur: usize = 0;
        let mut i: usize = from;
        assert(names.skip(0) =~= names);
        while i < to
            invariant
                self.shape_wf(),
                from <= i <= to <= parts@.len(),
                cur < self.nodes@.len(),
                names == names_of(parts@).subrange(from as int, to as int),
                self@.walk(0, names) == self@.walk(cur as int, names.skip(i - from)),
            decreases to - i,
        {
            let ghost rest = names.skip(i - from);
            assert(rest[0] == parts@[i as int]@);
            assert(rest.drop_first() =~= names.skip(i + 1 - from));
            match self.find_child(cur, parts[i].as_slice()) {
                None => {
                    return None;
                },
                Some(c) => {
                    cur = c;
                },
            }
            i += 1;
        }
        Some(cur)
    }

    /// Whether `parts` begins with the components of the root.
    fn under_root(&self, parts: &Vec<Vec<u8>>) -> (b: bool)
        ensures
            b == starts_with(names_of(parts@), self@.root),
    {
        let n = self.root_path.len();
        if parts.len() < n {
            return false;
        }
        let mut i: usize = 0;
        while i < n
            invariant
                n == self.root_path@.len(),
                n <= parts@.len(),
                i <= n,
                forall|j: int| 0 <= j < i ==> parts@[j]@ == self.root_path@[j]@,
            decreases n - i,
        {
            if !same_bytes(parts[i].as_slice(), self.root_path[i].as_slice()) {
                proof {
                    let a = names_of(parts@).take(n as int);
                    assert(a[i as int] != self@.root[i as int]);
                }
                return false;
            }
            i += 1;
        }
        assert(names_of(parts@).take(n as int) =~= self@.root);
        true
    }

    /// The directory that `path` names.
    fn locate_dir(&self, path: &str) -> (r: Result<usize, UpdateErr>)
        requires
            self.shape_wf(),
        ensures
            match r {
                Ok(n) => self@.locate_dir(components(path.spec_bytes())) == Ok::<int, UpdateErr>(
                    n as int,
                ) && n < self.nodes@.len(),
                Err(e) => self@.locate_dir(components(path.spec_bytes())) == Err::<int, UpdateErr>(
                    e,
                ),
            },
    {
        let parts = split_path(path);
        if !self.under_root(&parts) {
            return Err(UpdateErr::PathNotFound);
        }
        assert(names_of(parts@).subrange(self.root_path@.len() as int, parts@.len() as int)
            =~= names_of(parts@).skip(self@.root.len() as int));
        match self.walk(&parts, self.root_path.len(), parts.len()) {
            None => Err(UpdateErr::PathNotFound),
            Some(n) => Ok(n),
        }
    }

    /// The directory in which the last component of `path` is looked up,
    /// and that component.
    fn locate_parent(&self, path: &str) -> (r: Result<(usize, Vec<u8>), UpdateErr>)
        requires
            self.shape_wf(),
        ensures
            match r {
                Ok((n, name)) => self@.locate_parent(components(path.spec_bytes())) == Ok::<
                    int,
                    UpdateErr,
                >(n as int) && n < self.nodes@.len() && name@ == components(
                    path.spec_bytes(),
                ).last(),
                Err(e) => self@.locate_parent(components(path.spec_bytes())) == Err::<
                    int,
                    UpdateErr,
                >(e),
            },
    {
        let mut parts = split_path(path);
        if !self.under_root(&parts) {
            return Err(UpdateErr::PathNotFound);
        }
        if parts.len() == self.root_path.len() {
            return Err(UpdateErr::FileNotFound);
        }
        let last = parts.len() - 1;
        assert(names_of(parts@).subrange(self.root_path@.len() as int, last as int) =~= names_of(
            parts@,
        ).skip(self@.root.len() as int).drop_last());
        assert(names_of(parts@).last() == parts@[last as int]@);
        match self.walk(&parts, self.root_path.len(), last) {
            None => Err(UpdateErr::PathNotFound),
            Some(n) => {
                let name = parts.pop().unwrap();
                Ok((n, name))
            },
        }
    }

    /// The file that `path` names.
    fn locate_file(&self, path: &str) -> (r: Result<u64, UpdateErr>)
        requires
            self.shape_wf(),
        ensures
            match r {
                Ok(f) => self@.locate_file(components(path.spec_bytes())) == Ok::<int, UpdateErr>(
                    f as int,
                ) && f < self.files@.len(),
                Err(e) => self@.locate_file(components(path.spec_bytes())) == Err::<
                    int,
                    UpdateErr,
                >(e),
            },
    {
        match self.locate_parent(path) {
            Err(e) => Err(e),
            Ok((n, name)) => match self.find_file(n, name.as_slice()) {
                None => Err(UpdateErr::FileNotFound),
                Some(f) => Ok(f),
            },
        }
    }

    /// Adds an empty directory at `path`, under a directory that is there.
    /// Returns whether the directory is new: `false` where the path names the
    /// root or a directory of the tree, and then nothing changes. Where the
    /// path does not lie under the root, or its parent is no directory of the
    /// tree, nothing changes either.
    pub fn add_dir(&mut self, path: &str) -> (res: Result<bool, UpdateErr>)
        requires
            old(self).wf(),
        ensures
            final(self).wf(),
            match old(self)@.locate_parent(components(path.spec_bytes())) {
                Err(UpdateErr::FileNotFound) => res == Ok::<bool, UpdateErr>(false) && *final(self)
                    == *old(self),
                Err(e) => res == Err::<bool, UpdateErr>(e) && *final(self) == *old(self),
                Ok(p) => match old(self)@.child(p, components(path.spec_bytes()).last()) {
                    Some(_) => res == Ok::<bool, UpdateErr>(false) && *final(self) == *old(self),
                    None => res == Ok::<bool, UpdateErr>(true)
                        && final(self)@ == old(self)@.with_dir(p,
                        components(path.spec_bytes()).last()),
                },
            },
    {
        let (p, name) = match self.locate_parent(path) {
            Err(UpdateErr::FileNotFound) => {
                return Ok(false);
            },
            Err(e) => {
                return Err(e);
            },
            Ok(found) => found,
        };
        if self.find_child(p, name.as_slice()).is_some() {
            return Ok(false);
        }
        let ghost v = self@;
        let ghost w = v.with_dir(p as int, name@);
        let c = self.nodes.len();
        self.nodes.push(Node::new(name, p));
        self.nodes[p].directories.push(c);
        let total = self.nodes.len();
        proof {
            assert(self@.dirs =~= w.dirs);
            assert(self@.files =~= w.files);
            assert(self@ == w);
            assert(v.tree_wf());
            assert forall|k: int| 0 <= k < c implies {
                &&& (#[trigger] self.nodes@[k]).name == old(self).nodes@[k].name
                &&& self.nodes@[k].parent == old(self).nodes@[k].parent
                &&& self.nodes@[k].files == old(self).nodes@[k].files
                &&& self.nodes@[k].tags == old(self).nodes@[k].tags
                &&& self.nodes@[k].dtags == old(self).nodes@[k].dtags
                &&& self.nodes@[k].dtag_files == old(self).nodes@[k].dtag_files
                &&& k != p ==> self.nodes@[k].directories == old(self).nodes@[k].directories
                &&& self.nodes@[k].wf()
            } by {
                assert(old(self).nodes@[k].wf());
            }
            assert(self.nodes@[p as int].directories@
                == old(self).nodes@[p as int].directories@.push(
                c,
            ));
            // the tree
            assert forall|k: int| 0 < k < w.dirs.len() implies 0 <= (#[trigger] w.dirs[k]).parent
                < k by {
                if k < c {
                    assert(0 <= v.dirs[k].parent < k);
                }
            }
            assert forall|j: int, k: int|
                0 < j < k < w.dirs.len() && (#[trigger] w.dirs[j]).parent == (
                #[trigger] w.dirs[k]).parent implies w.dirs[j].name != w.dirs[k].name by {
                if k < c {
                    assert(v.dirs[j].parent == v.dirs[k].parent);
                } else {
                    if w.dirs[j].name == w.dirs[k].name {
                        assert(link_at(v.links(), p as int, w.dirs[k].name, j));
                    }
                }
            }
            assert forall|f: int| 0 <= f < w.files.len() implies 0 <= (#[trigger] w.files[f]).dir
                < w.dirs.len() by {
                assert(0 <= v.files[f].dir < v.dirs.len());
            }
            assert forall|f: int, g: int|
                0 <= f < g < w.files.len() && (#[trigger] w.files[f]).dir == (
                #[trigger] w.files[g]).dir implies w.files[f].name != w.files[g].name by {
                assert(v.files[f].dir == v.files[g].dir);
            }
            assert(w.tree_wf());
            assert forall|k: int, f: u64| 0 <= k < self.nodes@.len() implies (
            #[trigger] self.nodes@[k].files@.contains(f) <==> (f < self.files@.len()
                && self.files@[f as int].dir == k)) by {
                if k < c {
                    assert(old(self).nodes@[k].files@.contains(f) <==> (f < old(self).files@.len()
                        && old(self).files@[f as int].dir == k));
                } else {
                    if f < self.files@.len() {
                        assert(0 <= v.files[f as int].dir < v.dirs.len());
                    }
                }
            }
            assert forall|k: int, j: int|
                0 <= k < self.nodes@.len() && 0 <= j < self.nodes@[k].directories@.len() implies 0
                < (#[trigger] self.nodes@[k].directories@[j]) < self.nodes@.len()
                    && self.nodes@[self.nodes@[k].directories@[j] as int].parent == k by {
                if k < c {
                    if k == p && j == old(self).nodes@[k].directories@.len() {
                    } else {
                        assert(0 < old(self).nodes@[k].directories@[j] < old(self).nodes@.len());
                    }
                }
            }
            assert forall|d: int| 0 < d < self.nodes@.len() implies (
            #[trigger] self.nodes@[self.nodes@[d].parent as int]).directories@.contains(
                d as usize,
            ) by {
                if d < c {
                    assert(0 <= v.dirs[d].parent < d);
                    let q = old(self).nodes@[d].parent as int;
                    assert(old(self).nodes@[q].directories@.contains(d as usize));
                    let i = choose|i: int|
                        0 <= i < old(self).nodes@[q].directories@.len()
                            && old(self).nodes@[q].directories@[i] == d as usize;
                    assert(self.nodes@[q].directories@[i] == d as usize);
                } else {
                    let last = old(self).nodes@[p as int].directories@.len() as int;
                    assert(self.nodes@[p as int].directories@[last] == c);
                }
            }
            assert(self.shape_wf());
            assert forall|m: int, t: u64| 0 <= m < self.nodes@.len() implies (
            #[trigger] self.nodes@[m].tagged(t)) == self@.node_tags(m, t) by {
                if m < c {
                    assert(old(self).nodes@[m].tagged(t) == v.node_tags(m, t));
                    assert(w.node_tags(m, t) =~= v.node_tags(m, t));
                } else {
                    assert forall|f: u64| !w.node_tags(m, t).contains(f) by {
                        if f < w.files.len() {
                            assert(0 <= v.files[f as int].dir < v.dirs.len());
                        }
                    }
                    assert(w.node_tags(m, t) =~= Set::<u64>::empty());
                }
            }
            assert forall|m: int, t: u64| 0 <= m < self.nodes@.len() implies (
            #[trigger] self.nodes@[m].closure(t)) == self@.node_dtag_files(m, t) by {
                let want = w.node_dtag_files(m, t);
                if m < c {
                    assert(old(self).nodes@[m].closure(t) == v.node_dtag_files(m, t));
                    assert forall|f: u64| want.contains(f) == v.node_dtag_files(m, t).contains(
                        f,
                    ) by {
                        if f < w.files.len() {
                            assert(0 <= v.files[f as int].dir < v.dirs.len());
                            v.lemma_with_dir(p as int, w.dirs[c as int].name, m,
                                v.files[f as int].dir, t);
                        }
                    }
                    assert(want =~= v.node_dtag_files(m, t));
                } else {
                    assert forall|f: u64| !want.contains(f) by {
                        if f < w.files.len() {
                            assert(0 <= v.files[f as int].dir < v.dirs.len());
                            if w.in_subtree(m, w.files[f as int].dir) {
                                w.lemma_subtree_order(m, w.files[f as int].dir);
                            }
                        }
                    }
                    assert(want =~= Set::<u64>::empty());
                }
            }
            assert forall|g: int, t: u64| 0 <= g < self.files@.len() implies (
            #[trigger] self.files@[g].dtags@.contains(t)) == self@.covered(
                self.files@[g].dir as int,
                t,
            ) by {
                assert(old(self).files@[g].dtags@.contains(t) == v.covered(
                    old(self).files@[g].dir as int,
                    t,
                ));
                assert(0 <= v.files[g].dir < v.dirs.len());
                v.lemma_with_dir(p as int, w.dirs[c as int].name, 0, v.files[g].dir, t);
            }
        }
        Ok(true)
    }

    /// Brings file `f`, which lies in directory `p` and has no marks yet,
    /// into the scope of every directory tag declared at `p` or above: into
    /// the closures cached at `p` and above, and onto the marks of the file.
    fn inherit(&mut self, p: usize, f: u64)
        requires
            old(self).shape_wf(),
            p < old(self).nodes@.len(),
            f < old(self).files@.len(),
            old(self).files@[f as int].dtags@ == Set::<u64>::empty(),
        ensures
            final(self).recached(old(self)),
            forall|m: int, t: u64|
                0 <= m < final(self).nodes@.len() ==> (#[trigger] final(self).nodes@[m].closure(t))
                    == if old(self)@.in_subtree(m, p as int) && old(self)@.covered(p as int, t) {
                    old(self).nodes@[m].closure(t).insert(f)
                } else {
                    old(self).nodes@[m].closure(t)
                },
            forall|g: int|
                0 <= g < final(self).files@.len() && g != f ==> (#[trigger] final(self).files@[g])
                    == old(self).files@[g],
            forall|t: u64|
                (#[trigger] final(self).files@[f as int].dtags@.contains(t)) == old(self)@.covered(
                    p as int,
                    t,
                ),
    {
        let ghost v = self@;
        let mut cur = p;
        let mut going = true;
        while going
            invariant
                old(self).shape_wf(),
                self.recached(old(self)),
                v == old(self)@,
                cur < self.nodes@.len(),
                p < self.nodes@.len(),
                f < self.files@.len(),
                forall|t: u64|
                    v.covered(p as int, t) == (#[trigger] self.marked(f, t) || (going && v.covered(
                        cur as int,
                        t,
                    ))),
                forall|m: int, t: u64|
                    0 <= m < self.nodes@.len()
                        ==> (#[trigger] self.nodes@[m].closure(t)) == if v.in_subtree(
                        m,
                        p as int,
                    ) && self.marked(f, t) {
                        old(self).nodes@[m].closure(t).insert(f)
                    } else {
                        old(self).nodes@[m].closure(t)
                    },
                forall|g: int|
                    0 <= g < self.files@.len() && g != f
                        ==> (#[trigger] self.files@[g]) == old(self).files@[g],
            decreases
                    (if going {
                        cur + 1
                    } else {
                        0
                    }),
        {
            let ghost declared = self.nodes@[cur as int].dtags.members();
            let ghost entry = *self;
            proof {
                self.nodes@[cur as int].dtags.lemma_members();
            }
            let mut j: usize = 0;
            while j < self.nodes[cur].dtags.len()
                invariant
                    old(self).shape_wf(),
                    self.recached(old(self)),
                    v == old(self)@,
                    cur < self.nodes@.len(),
                    p < self.nodes@.len(),
                    f < self.files@.len(),
                    declared == self.nodes@[cur as int].dtags.members(),
                    j <= declared.len(),
                    forall|t: u64|
                        #[trigger] self.marked(f, t) == (entry.marked(f, t) || declared.subrange(
                            0,
                            j as int,
                        ).contains(t)),
                    forall|m: int, t: u64|
                        0 <= m < self.nodes@.len() ==> (#[trigger] self.nodes@[m].closure(t))
                            == if v.in_subtree(m, p as int) && self.marked(f, t) {
                            old(self).nodes@[m].closure(t).insert(f)
                        } else {
                            old(self).nodes@[m].closure(t)
                        },
                    forall|g: int|
                        0 <= g < self.files@.len() && g != f
                            ==> (#[trigger] self.files@[g]) == old(self).files@[g],
                decreases declared.len() - j,
            {
                let t0 = self.nodes[cur].dtags.get(j);
                let ghost pre = *self;
                self.remark(p, f, TagRef { id: t0 }, true);
                proof {
                    self.lemma_recached_again(&pre, old(self));
                    assert forall|g: int| 0 <= g < self.files@.len() && g != f implies (
                    #[trigger] self.files@[g]) == old(self).files@[g] by {
                        assert(self.files@[g] == pre.files@[g]);
                    }
                    assert forall|t: u64|
                        #[trigger] self.marked(f, t) == (entry.marked(f, t) || declared.subrange(
                            0,
                            j + 1,
                        ).contains(t)) by {
                        let was = pre.marked(f, t);
                        let a = declared.subrange(0, j as int);
                        let b = declared.subrange(0, j + 1);
                        assert(b =~= a.push(t0));
                        if a.contains(t) {
                            let i = choose|i: int| 0 <= i < a.len() && a[i] == t;
                            assert(b[i] == t);
                        }
                        if t == t0 {
                            assert(b[j as int] == t);
                        }
                        if b.contains(t) && t != t0 {
                            let i = choose|i: int| 0 <= i < b.len() && b[i] == t;
                            assert(a[i] == t);
                        }
                    }
                    assert forall|m: int, t: u64| 0 <= m < self.nodes@.len() implies (
                    #[trigger] self.nodes@[m].closure(t)) == if v.in_subtree(m, p as int)
                        && self.marked(f, t) {
                        old(self).nodes@[m].closure(t).insert(f)
                    } else {
                        old(self).nodes@[m].closure(t)
                    } by {
                        let c = pre.nodes@[m].closure(t);
                        let was = pre.marked(f, t);
                        let o = old(self).nodes@[m].closure(t);
                        assert(o.insert(f).insert(f) =~= o.insert(f));
                    }
                }
                j += 1;
            }
            proof {
                assert forall|t: u64|
                    v.covered(p as int, t) == (#[trigger] self.marked(f, t) || (going && cur != 0
                        && v.covered(v.dirs[cur as int].parent, t))) by {
                    let was = entry.marked(f, t);
                    let now = self.marked(f, t);
                    assert(declared.subrange(0, j as int) =~= declared);
                    assert(v.declares(cur as int, t) == declared.contains(t));
                    if cur != 0 {
                        assert(0 <= v.dirs[cur as int].parent < cur);
                    }
                }
            }
            if cur == 0 {
                going = false;
            } else {
                assert(0 <= v.dirs[cur as int].parent < cur);
                cur = self.nodes[cur].parent;
            }
        }
        proof {
            assert forall|t: u64|
                (#[trigger] self.files@[f as int].dtags@.contains(t)) == old(self)@.covered(
                    p as int,
                    t,
                ) by {
                let n = self.marked(f, t);
            }
            assert forall|m: int, t: u64| 0 <= m < self.nodes@.len() implies (
            #[trigger] self.nodes@[m].closure(t)) == if old(self)@.in_subtree(m, p as int)
                && old(self)@.covered(p as int, t) {
                old(self).nodes@[m].closure(t).insert(f)
            } else {
                old(self).nodes@[m].closure(t)
            } by {
                let n = self.marked(f, t);
            }
        }
    }

    /// File `f` is marked as inheriting `t`.
    spec fn marked(&self, f: u64, t: u64) -> bool {
        self.files@[f as int].dtags@.contains(t)
    }

    /// Adds a file at `path`, in a directory that is there, with no tags of
    /// its own; it inherits the directory tags in whose scope the directory
    /// lies. Returns the handle of the file. Where the path names a file of
    /// the tree already, that file's handle is returned and nothing changes.
    /// Where the path does not lie under the root, or its parent is no
    /// directory of the tree, nothing changes either.
    pub fn add_file(&mut self, path: &str, metadata: FileMetadata) -> (res: Result<
        FileRef,
        UpdateErr,
    >)
        requires
            old(self).wf(),
        ensures
            final(self).wf(),
            match old(self)@.locate_parent(components(path.spec_bytes())) {
                Err(e) => res == Err::<FileRef, UpdateErr>(e) && *final(self) == *old(self),
                Ok(p) => match old(self)@.file_in(p, components(path.spec_bytes()).last()) {
                    Some(f) => res == Ok::<FileRef, UpdateErr>(FileRef { id: f as u64 })
                        && *final(self) == *old(self),
                    None => res == Ok::<FileRef, UpdateErr>(
                        FileRef { id: old(self)@.files.len() as u64 },
                    ) && final(self)@ == old(self)@.with_file(
                        p,
                        components(path.spec_bytes()).last(),
                        path@,
                        metadata,
                    ),
                },
            },
    {
        let (p, name) = match self.locate_parent(path) {
            Err(e) => {
                return Err(e);
            },
            Ok(found) => found,
        };
        match self.find_file(p, name.as_slice()) {
            Some(f) => {
                return Ok(FileRef { id: f });
            },
            None => {},
        }
        let ghost v = self@;
        let ghost w = v.with_file(p as int, name@, path@, metadata);
        let count = self.files.len();
        let id = count as u64;
        self.files.push(File::new(path.to_owned(), name, p, metadata));
        let total = self.files.len();
        self.nodes[p].files.insert(id);
        proof {
            assert(self@.dirs =~= w.dirs);
            assert(self@.files =~= w.files);
            assert(self@ == w);
            assert(v.tree_wf());
            assert forall|k: int| 0 <= k < self.nodes@.len() implies {
                &&& (#[trigger] self.nodes@[k]).name == old(self).nodes@[k].name
                &&& self.nodes@[k].parent == old(self).nodes@[k].parent
                &&& self.nodes@[k].directories == old(self).nodes@[k].directories
                &&& self.nodes@[k].tags == old(self).nodes@[k].tags
                &&& self.nodes@[k].dtags == old(self).nodes@[k].dtags
                &&& self.nodes@[k].dtag_files == old(self).nodes@[k].dtag_files
                &&& k != p ==> self.nodes@[k].files == old(self).nodes@[k].files
                &&& self.nodes@[k].wf()
            } by {
                assert(old(self).nodes@[k].wf());
            }
            assert forall|g: int| 0 <= g < count
                implies (#[trigger] self.files@[g]) == old(self).files@[g] by {}
            assert forall|k: int| 0 < k < w.dirs.len() implies 0 <= (#[trigger] w.dirs[k]).parent
                < k by {
                assert(0 <= v.dirs[k].parent < k);
            }
            assert forall|j: int, k: int|
                0 < j < k < w.dirs.len() && (#[trigger] w.dirs[j]).parent == (
                #[trigger] w.dirs[k]).parent implies w.dirs[j].name != w.dirs[k].name by {
                assert(v.dirs[j].parent == v.dirs[k].parent);
            }
            assert forall|g: int| 0 <= g < w.files.len() implies 0 <= (#[trigger] w.files[g]).dir
                < w.dirs.len() by {
                if g < count {
                    assert(0 <= v.files[g].dir < v.dirs.len());
                }
            }
            assert forall|g: int, h: int|
                0 <= g < h < w.files.len() && (#[trigger] w.files[g]).dir == (
                #[trigger] w.files[h]).dir implies w.files[g].name != w.files[h].name by {
                if h < count {
                    assert(v.files[g].dir == v.files[h].dir);
                } else {
                    if w.files[g].name == w.files[h].name {
                        assert(entry_at(v.entries(), p as int, w.files[h].name, g));
                    }
                }
            }
            assert(w.tree_wf());
            assert forall|g: int| 0 <= g < self.files@.len() implies (
            #[trigger] self.files@[g]).wf() by {
                if g < count {
                    assert(old(self).files@[g].wf());
                }
            }
            assert forall|k: int, g: u64| 0 <= k < self.nodes@.len() implies (
            #[trigger] self.nodes@[k].files@.contains(g) <==> (g < self.files@.len()
                && self.files@[g as int].dir == k)) by {
                assert(old(self).nodes@[k].files@.contains(g) <==> (g < old(self).files@.len()
                    && old(self).files@[g as int].dir == k));
            }
            assert forall|k: int, j: int|
                0 <= k < self.nodes@.len() && 0 <= j < self.nodes@[k].directories@.len() implies 0
                < (#[trigger] self.nodes@[k].directories@[j]) < self.nodes@.len()
                    && self.nodes@[self.nodes@[k].directories@[j] as int].parent == k by {
                assert(0 < old(self).nodes@[k].directories@[j] < old(self).nodes@.len());
            }
            assert forall|d: int| 0 < d < self.nodes@.len() implies (
            #[trigger] self.nodes@[self.nodes@[d].parent as int]).directories@.contains(
                d as usize,
            ) by {
                assert(0 <= v.dirs[d].parent < d);
                assert(old(self).nodes@[old(self).nodes@[d].parent as int].directories@.contains(
                    d as usize,
                ));
            }
            assert(self.shape_wf());
        }
        let ghost mid = *self;
        self.inherit(p, id);
        proof {
            assert(self@ == w);
            assert forall|m: int, t: u64| 0 <= m < self.nodes@.len() implies (
            #[trigger] self.nodes@[m].tagged(t)) == self@.node_tags(m, t) by {
                assert(old(self).nodes@[m].tagged(t) == v.node_tags(m, t));
                assert(mid.nodes@[m].tags == old(self).nodes@[m].tags);
                assert(self.nodes@[m].tags == mid.nodes@[m].tags);
                assert(w.node_tags(m, t) =~= v.node_tags(m, t));
            }
            assert forall|m: int, t: u64| 0 <= m < self.nodes@.len() implies (
            #[trigger] self.nodes@[m].closure(t)) == self@.node_dtag_files(m, t) by {
                assert(old(self).nodes@[m].closure(t) == v.node_dtag_files(m, t));
                assert(mid.nodes@[m].dtag_files == old(self).nodes@[m].dtag_files);
                assert(mid.nodes@[m].closure(t) == old(self).nodes@[m].closure(t));
                assert(self.nodes@[m].closure(t) =~= w.node_dtag_files(m, t));
            }
            assert forall|g: int, t: u64| 0 <= g < self.files@.len() implies (
            #[trigger] self.files@[g].dtags@.contains(t)) == self@.covered(
                self.files@[g].dir as int,
                t,
            ) by {
                if g < count {
                    assert(self.files@[g] == mid.files@[g]);
                    assert(old(self).files@[g].dtags@.contains(t) == v.covered(
                        old(self).files@[g].dir as int,
                        t,
                    ));
                }
            }
        }
        Ok(FileRef { id })
    }

    /// Puts `tag` on the file at `path`, and files the file under the tag
    /// in the index of its directory. Returns whether the tag is new to the
    /// file. Where the path names no file, nothing changes.
    pub fn attach(&mut self, path: &str, tag: TagRef) -> (res: Result<bool, UpdateErr>)
        requires
            old(self).wf(),
        ensures
            final(self).wf(),
            match old(self)@.locate_file(components(path.spec_bytes())) {
                Err(e) => res == Err::<bool, UpdateErr>(e) && *final(self) == *old(self),
                Ok(f) => res == Ok::<bool, UpdateErr>(!old(self)@.files[f].tags.contains(tag.id))
                    && final(self)@ == old(self)@.with_tag(f, tag.id),
            },
    {
        self.retag(path, tag, true)
    }

    /// With a path: takes `tag` off the file at `path` and out of the index
    /// of its directory; returns whether the file carried it; where the path
    /// names no file, nothing changes. Without a path: takes `tag` off every
    /// file of the shelf and out of every index; returns whether any file
    /// carried it.
    pub fn detach(&mut self, path: Option<&str>, tag: TagRef) -> (res: Result<bool, UpdateErr>)
        requires
            old(self).wf(),
        ensures
            final(self).wf(),
            match path {
                Some(p) => match old(self)@.locate_file(components(p.spec_bytes())) {
                    Err(e) => res == Err::<bool, UpdateErr>(e) && *final(self) == *old(self),
                    Ok(f) => res == Ok::<bool, UpdateErr>(
                        old(self)@.files[f].tags.contains(tag.id),
                    ) && final(self)@ == old(self)@.without_tag(f, tag.id),
                },
                None => res == Ok::<bool, UpdateErr>(old(self)@.tag_in_use(tag.id))
                    && final(self)@ == old(self)@.without_tag_anywhere(tag.id),
            },
    {
        match path {
            Some(p) => self.retag(p, tag, false),
            None => Ok(self.detach_everywhere(tag)),
        }
    }

    /// Puts `tag` on the file at `path` (`on`) or takes it off, in the tag
    /// set of the file and in the index of its directory. Returns whether
    /// that changed anything.
    fn retag(&mut self, path: &str, tag: TagRef, on: bool) -> (res: Result<bool, UpdateErr>)
        requires
            old(self).wf(),
        ensures
            final(self).wf(),
            match old(self)@.locate_file(components(path.spec_bytes())) {
                Err(e) => res == Err::<bool, UpdateErr>(e) && *final(self) == *old(self),
                Ok(f) => res == Ok::<bool, UpdateErr>(
                    on != old(self)@.files[f].tags.contains(tag.id),
                ) && final(self)@ == if on {
                    old(self)@.with_tag(f, tag.id)
                } else {
                    old(self)@.without_tag(f, tag.id)
                },
            },
    {
        match self.locate_file(path) {
            Err(e) => Err(e),
            Ok(f) => Ok(self.retag_file(f, tag, on)),
        }
    }

    /// Puts `tag` on file `f` (`on`) or takes it off, in the tag set of the
    /// file and in the index of its directory. Returns whether that changed
    /// anything.
    fn retag_file(&mut self, f: u64, tag: TagRef, on: bool) -> (changes: bool)
        requires
            old(self).wf(),
            f < old(self)@.files.len(),
        ensures
            final(self).wf(),
            changes == (on != old(self)@.files[f as int].tags.contains(tag.id)),
            final(self)@ == if on {
                old(self)@.with_tag(f as int, tag.id)
            } else {
                old(self)@.without_tag(f as int, tag.id)
            },
    {
        let dir = self.files[f as usize].dir;
        assert(dir < self.nodes@.len()) by {
            assert(0 <= self@.files[f as int].dir < self@.dirs.len());
        }
        let file = FileRef { id: f };
        let changes = if on {
            self.files[f as usize].attach(tag)
        } else {
            self.files[f as usize].detach(tag)
        };
        if changes {
            if on {
                self.nodes[dir].attach(tag, file);
            } else {
                self.nodes[dir].detach(tag, Some(file));
            }
        }
        proof {
            let v = old(self)@;
            let w = if on {
                v.with_tag(f as int, tag.id)
            } else {
                v.without_tag(f as int, tag.id)
            };
            assert(self@.files =~= w.files);
            assert(self@.dirs =~= w.dirs);
            assert(self@ == w);
            self.lemma_frame(old(self));
            assert forall|k: int, t: u64| 0 <= k < self.nodes@.len() implies (
            #[trigger] self.nodes@[k].tagged(t)) == self@.node_tags(k, t) by {
                assert(old(self).nodes@[k].tagged(t) == v.node_tags(k, t));
                if k == dir && t == tag.id {
                    assert(w.node_tags(k, t) =~= put(v.node_tags(k, t), f, on));
                } else {
                    assert(w.node_tags(k, t) =~= v.node_tags(k, t));
                }
            }
            assert forall|k: int, t: u64| 0 <= k < self.nodes@.len() implies (
            #[trigger] self.nodes@[k].closure(t)) == self@.node_dtag_files(k, t) by {
                assert(old(self).nodes@[k].closure(t) == v.node_dtag_files(k, t));
                assert(w.node_dtag_files(k, t) =~= v.node_dtag_files(k, t));
            }
            assert forall|g: int, t: u64| 0 <= g < self.files@.len() implies (
            #[trigger] self.files@[g].dtags@.contains(t)) == self@.covered(
                self.files@[g].dir as int,
                t,
            ) by {
                assert(old(self).files@[g].dtags@.contains(t) == v.covered(
                    old(self).files@[g].dir as int,
                    t,
                ));
            }
        }
        changes
    }

    /// Takes `tag` off every file of the shelf and out of every index.
    /// Returns whether any file carried it.
    fn detach_everywhere(&mut self, tag: TagRef) -> (res: bool)
        requires
            old(self).wf(),
        ensures
            final(self).wf(),
            res == old(self)@.tag_in_use(tag.id),
            final(self)@ == old(self)@.without_tag_anywhere(tag.id),
    {
        let ghost v = self@;
        let mut found = false;
        let mut i: usize = 0;
        while i < self.files.len()
            invariant
                old(self).wf(),
                v == old(self)@,
                self.nodes == old(self).nodes,
                self.root_path == old(self).root_path,
                self.files@.len() == old(self).files@.len(),
                i <= self.files@.len(),
                forall|g: int|
                    0 <= g < self.files@.len() ==> {
                        &&& (#[trigger] self.files@[g]).wf()
                        &&& self.files@[g].dtags == old(self).files@[g].dtags
                        &&& self.files@[g].name == old(self).files@[g].name
                        &&& self.files@[g].dir == old(self).files@[g].dir
                        &&& self.files@[g].path == old(self).files@[g].path
                        &&& self.files@[g].metadata == old(self).files@[g].metadata
                        &&& self.files@[g].tags@ == if g < i {
                            old(self).files@[g].tags@.remove(tag.id)
                        } else {
                            old(self).files@[g].tags@
                        }
                    },
                found == exists|g: int| 0 <= g < i && (#[trigger] v.files[g]).tags.contains(tag.id),
            decreases self.files@.len() - i,
        {
            let r = self.files[i].detach(tag);
            proof {
                if r {
                    assert(v.files[i as int].tags.contains(tag.id));
                }
            }
            found = found || r;
            i += 1;
        }
        let mut k: usize = 0;
        while k < self.nodes.len()
            invariant
                old(self).wf(),
                v == old(self)@,
                self.files@.len() == old(self).files@.len(),
                self.nodes@.len() == old(self).nodes@.len(),
                self.root_path == old(self).root_path,
                k <= self.nodes@.len(),
                forall|g: int|
                    0 <= g < self.files@.len() ==> {
                        &&& (#[trigger] self.files@[g]).wf()
                        &&& self.files@[g].dtags == old(self).files@[g].dtags
                        &&& self.files@[g].name == old(self).files@[g].name
                        &&& self.files@[g].dir == old(self).files@[g].dir
                        &&& self.files@[g].path == old(self).files@[g].path
                        &&& self.files@[g].metadata == old(self).files@[g].metadata
                        &&& self.files@[g].tags@ == old(self).files@[g].tags@.remove(tag.id)
                    },
                forall|m: int|
                    0 <= m < self.nodes@.len() ==> {
                        &&& (#[trigger] self.nodes@[m]).wf()
                        &&& self.nodes@[m].same_but_tags(&old(self).nodes@[m])
                        &&& forall|t: u64|
                            t != tag.id ==> #[trigger] self.nodes@[m].tagged(t)
                                == old(self).nodes@[m].tagged(t)
                        &&& m < k ==> self.nodes@[m].tagged(tag.id) == Set::<u64>::empty()
                    },
            decreases self.nodes@.len() - k,
        {
            self.nodes[k].detach(tag, None);
            k += 1;
        }
        proof {
            let w = v.without_tag_anywhere(tag.id);
            assert(self@.files =~= w.files);
            assert(self@.dirs =~= w.dirs);
            assert(self@ == w);
            self.lemma_frame(old(self));
            assert forall|m: int, t: u64| 0 <= m < self.nodes@.len() implies (
            #[trigger] self.nodes@[m].tagged(t)) == self@.node_tags(m, t) by {
                assert(old(self).nodes@[m].tagged(t) == v.node_tags(m, t));
                if t == tag.id {
                    assert(w.node_tags(m, t) =~= Set::<u64>::empty());
                } else {
                    assert(w.node_tags(m, t) =~= v.node_tags(m, t));
                }
            }
            assert forall|m: int, t: u64| 0 <= m < self.nodes@.len() implies (
            #[trigger] self.nodes@[m].closure(t)) == self@.node_dtag_files(m, t) by {
                assert(old(self).nodes@[m].closure(t) == v.node_dtag_files(m, t));
                assert(w.node_dtag_files(m, t) =~= v.node_dtag_files(m, t));
            }
            assert forall|g: int, t: u64| 0 <= g < self.files@.len() implies (
            #[trigger] self.files@[g].dtags@.contains(t)) == self@.covered(
                self.files@[g].dir as int,
                t,
            ) by {
                assert(old(self).files@[g].dtags@.contains(t) == v.covered(
                    old(self).files@[g].dir as int,
                    t,
                ));
            }
        }
        found
    }

    /// Whether a directory above node `n` declares `tag`.
    fn is_shadowed(&self, n: usize, tag: u64) -> (b: bool)
        requires
            self.shape_wf(),
            n < self.nodes@.len(),
        ensures
            b == self@.shadowed(n as int, tag),
    {
        if n == 0 {
            return false;
        }
        assert(0 <= self@.dirs[n as int].parent < n);
        let ghost top = self@.dirs[n as int].parent;
        let mut cur = self.nodes[n].parent;
        loop
            invariant
                self.shape_wf(),
                0 < n < self.nodes@.len(),
                top == self@.dirs[n as int].parent,
                0 <= top < n,
                cur < self.nodes@.len(),
                self@.covered(top, tag) == self@.covered(cur as int, tag),
            decreases cur,
        {
            if self.nodes[cur].dtags.contains(tag) {
                return true;
            }
            if cur == 0 {
                return false;
            }
            assert(0 <= self@.dirs[cur as int].parent < cur);
            cur = self.nodes[cur].parent;
        }
    }

    /// Puts `file` into the closure of `tag` cached at node `k` and at every
    /// node above it (`on`), or takes it out of them.
    fn closure_change(&mut self, k: usize, tag: u64, file: u64, on: bool)
        requires
            old(self).shape_wf(),
            k < old(self).nodes@.len(),
        ensures
            final(self).recached(old(self)),
            final(self).files == old(self).files,
            forall|m: int, t: u64|
                0 <= m < final(self).nodes@.len() ==> (#[trigger] final(self).nodes@[m].closure(t))
                    == if t == tag && old(self)@.in_subtree(m, k as int) {
                    put(old(self).nodes@[m].closure(t), file, on)
                } else {
                    old(self).nodes@[m].closure(t)
                },
    {
        let ghost v = self@;
        let mut cur = k;
        let mut going = true;
        while going
            invariant
                old(self).shape_wf(),
                v == old(self)@,
                self.files == old(self).files,
                self.root_path == old(self).root_path,
                self.nodes@.len() == old(self).nodes@.len(),
                cur < self.nodes@.len(),
                k < self.nodes@.len(),
                v.in_subtree(cur as int, k as int),
                forall|m: int|
                    0 <= m < self.nodes@.len() ==> (#[trigger] self.nodes@[m]).wf()
                        && self.nodes@[m].same_but_closures(&old(self).nodes@[m]),
                forall|m: int, t: u64|
                    0 <= m < self.nodes@.len() ==> (#[trigger] self.nodes@[m].closure(t)) == if t
                        == tag && v.in_subtree(m, k as int) && !(going && v.in_subtree(
                        m,
                        cur as int,
                    )) {
                        put(old(self).nodes@[m].closure(t), file, on)
                    } else {
                        old(self).nodes@[m].closure(t)
                    },
            decreases
                    (if going {
                        cur + 1
                    } else {
                        0
                    }),
        {
            let ghost before = self.nodes@;
            let ghost at = cur as int;
            if on {
                self.nodes[cur].dtag_files.insert(tag, file);
            } else {
                self.nodes[cur].dtag_files.remove(tag, file);
            }
            if cur == 0 {
                going = false;
            } else {
                let up = self.nodes[cur].parent;
                proof {
                    assert(0 <= v.dirs[cur as int].parent < cur);
                    v.lemma_subtree_up(cur as int, k as int);
                    assert forall|m: int| v.in_subtree(m, cur as int) == (m == cur || v.in_subtree(
                        m,
                        up as int,
                    )) by {}
                    if v.in_subtree(cur as int, up as int) {
                        v.lemma_subtree_order(cur as int, up as int);
                    }
                }
                cur = up;
            }
            proof {
                assert forall|m: int, t: u64| 0 <= m < self.nodes@.len() implies (
                #[trigger] self.nodes@[m].closure(t)) == if t == tag && v.in_subtree(m, k as int)
                    && !(going && v.in_subtree(m, cur as int)) {
                    put(old(self).nodes@[m].closure(t), file, on)
                } else {
                    old(self).nodes@[m].closure(t)
                } by {
                    let c = before[m].closure(t);
                    if m != at {
                        assert(self.nodes@[m] == before[m]);
                    }
                }
            }
        }
        proof {
            assert(self@.dirs =~= v.dirs);
            assert(self@.files =~= v.files);
            assert(self.same_frame(old(self)));
            assert(self.sets_wf());
            self.lemma_frame(old(self));
        }
    }

    /// Brings file `f` into the scope of `dtag` at node `k` (`on`) or takes
    /// it out: the file joins, or leaves, the closure of the tag cached at
    /// `k` and at every node above, and gets, or loses, the mark of
    /// inheriting the tag.
    fn remark(&mut self, k: usize, f: u64, dtag: TagRef, on: bool)
        requires
            old(self).shape_wf(),
            k < old(self).nodes@.len(),
            f < old(self).files@.len(),
        ensures
            final(self).recached(old(self)),
            forall|m: int, t: u64|
                0 <= m < final(self).nodes@.len() ==> (#[trigger] final(self).nodes@[m].closure(t))
                    == if t == dtag.id && old(self)@.in_subtree(m, k as int) {
                    put(old(self).nodes@[m].closure(t), f, on)
                } else {
                    old(self).nodes@[m].closure(t)
                },
            forall|g: int, t: u64|
                0 <= g < final(self).files@.len()
                    ==> (#[trigger] final(self).files@[g].dtags@.contains(
                    t,
                )) == if g == f && t == dtag.id {
                    on
                } else {
                    old(self).files@[g].dtags@.contains(t)
                },
            forall|g: int|
                0 <= g < final(self).files@.len() && g != f ==> (#[trigger] final(self).files@[g])
                    == old(self).files@[g],
    {
        self.closure_change(k, dtag.id, f, on);
        let ghost mid = *self;
        if on {
            self.files[f as usize].attach_dtag(dtag);
        } else {
            self.files[f as usize].detach_dtag(dtag);
        }
        proof {
            assert(self.same_frame(&mid));
            assert(self.sets_wf());
            self.lemma_frame(&mid);
            assert(self@.dirs =~= mid@.dirs);
            assert(self@.files =~= mid@.files);
            assert(self.recached(&mid));
            self.lemma_recached_again(&mid, old(self));
        }
    }

    /// Brings the files of node `k` into the scope of `dtag` (`on`) or takes
    /// them out of it: every file of the node joins, or leaves, the closure
    /// cached at the node and at every node above, and gets, or loses, the
    /// mark of inheriting the tag.
    fn spread_own(&mut self, k: usize, dtag: TagRef, on: bool)
        requires
            old(self).shape_wf(),
            k < old(self).nodes@.len(),
        ensures
            final(self).recached(old(self)),
            forall|m: int, t: u64|
                0 <= m < final(self).nodes@.len() ==> (#[trigger] final(self).nodes@[m].closure(t))
                    == if t == dtag.id {
                    changed(old(self).nodes@[m].closure(t), old(self)@.own_files(k as int, m), on)
                } else {
                    old(self).nodes@[m].closure(t)
                },
            forall|g: int, t: u64|
                0 <= g < final(self).files@.len()
                    ==> (#[trigger] final(self).files@[g].dtags@.contains(
                    t,
                )) == if t == dtag.id && old(self).files@[g].dir == k {
                    on
                } else {
                    old(self).files@[g].dtags@.contains(t)
                },
    {
        let ghost v = self@;
        let tag = dtag.id;
        let ghost ids = self.nodes@[k as int].files.members();
        proof {
            self.nodes@[k as int].files.lemma_members();
            assert forall|m: int, t: u64| 0 <= m < self.nodes@.len() implies (
            #[trigger] self.nodes@[m].closure(t)) == if t == tag {
                changed(old(self).nodes@[m].closure(t), Self::done(v, ids, 0, k as int, m), on)
            } else {
                old(self).nodes@[m].closure(t)
            } by {
                let c = self.nodes@[m].closure(t);
                let d = Self::done(v, ids, 0, k as int, m);
                assert(d =~= Set::<u64>::empty());
                assert(changed(c, d, on) =~= c);
            }
        }
        let mut i: usize = 0;
        while i < self.nodes[k].files.len()
            invariant
                old(self).shape_wf(),
                self.recached(old(self)),
                v == old(self)@,
                k < self.nodes@.len(),
                tag == dtag.id,
                ids == self.nodes@[k as int].files.members(),
                ids.to_set() == old(self).nodes@[k as int].files@,
                i <= ids.len(),
                forall|m: int, t: u64|
                    0 <= m < self.nodes@.len() ==> (#[trigger] self.nodes@[m].closure(t)) == if t
                        == tag {
                        changed(
                            old(self).nodes@[m].closure(t),
                            Self::done(v, ids, i as int, k as int, m),
                            on,
                        )
                    } else {
                        old(self).nodes@[m].closure(t)
                    },
                forall|g: int, t: u64|
                    0 <= g < self.files@.len() ==> (#[trigger] self.files@[g].dtags@.contains(t))
                        == if t == tag && ids.subrange(0, i as int).contains(g as u64) {
                        on
                    } else {
                        old(self).files@[g].dtags@.contains(t)
                    },
            decreases ids.len() - i,
        {
            let f = self.nodes[k].files.get(i);
            proof {
                assert(ids.contains(f));
                assert(old(self).nodes@[k as int].files@.contains(f));
                assert(f < old(self).files@.len());
            }
            let ghost pre = *self;
            self.remark(k, f, dtag, on);
            proof {
                self.lemma_recached_again(&pre, old(self));
                let s0 = ids.subrange(0, i as int);
                let s1 = ids.subrange(0, i + 1);
                assert(s1 =~= s0.push(f));
                assert forall|g: u64| s1.contains(g) == (s0.contains(g) || g == f) by {
                    if s0.contains(g) {
                        let q = choose|q: int| 0 <= q < s0.len() && s0[q] == g;
                        assert(s1[q] == g);
                    }
                    if g == f {
                        assert(s1[i as int] == g);
                    }
                    if s1.contains(g) && g != f {
                        let q = choose|q: int| 0 <= q < s1.len() && s1[q] == g;
                        assert(s0[q] == g);
                    }
                }
                assert forall|m: int, t: u64| 0 <= m < self.nodes@.len() implies (
                #[trigger] self.nodes@[m].closure(t)) == if t == tag {
                    changed(
                        old(self).nodes@[m].closure(t),
                        Self::done(v, ids, i + 1, k as int, m),
                        on,
                    )
                } else {
                    old(self).nodes@[m].closure(t)
                } by {
                    let c = pre.nodes@[m].closure(t);
                    let o = old(self).nodes@[m].closure(t);
                    let d0 = Self::done(v, ids, i as int, k as int, m);
                    let d1 = Self::done(v, ids, i + 1, k as int, m);
                    if t == tag {
                        if v.in_subtree(m, k as int) {
                            assert(d1 =~= d0.insert(f));
                            assert(put(changed(o, d0, on), f, on) =~= changed(o, d1, on));
                        } else {
                            assert(d1 =~= d0);
                        }
                    }
                }
                assert forall|g: int, t: u64| 0 <= g < self.files@.len() implies (
                #[trigger] self.files@[g].dtags@.contains(t)) == if t == tag && s1.contains(
                    g as u64,
                ) {
                    on
                } else {
                    old(self).files@[g].dtags@.contains(t)
                } by {
                    let c = pre.files@[g].dtags@.contains(t);
                }
            }
            i += 1;
        }
        proof {
            assert(ids.subrange(0, i as int) =~= ids);
            assert forall|g: u64| ids.contains(g) == (g < old(self).files@.len()
                && old(self).files@[g as int].dir == k) by {
                assert(old(self).nodes@[k as int].files@.contains(g) == ids.contains(g));
            }
            assert forall|m: int, t: u64| 0 <= m < self.nodes@.len() implies (
            #[trigger] self.nodes@[m].closure(t)) == if t == tag {
                changed(old(self).nodes@[m].closure(t), v.own_files(k as int, m), on)
            } else {
                old(self).nodes@[m].closure(t)
            } by {
                assert(Self::done(v, ids, i as int, k as int, m) =~= v.own_files(k as int, m));
            }
        }
    }

    /// The first `i` of the files `ids` of node `k`, seen from node `m`: all
    /// of them if `k` lies in or below `m`, none otherwise.
    spec fn done(v: ShelfView, ids: Seq<u64>, i: int, k: int, m: int) -> Set<u64> {
        Set::new(|g: u64| ids.subrange(0, i).contains(g) && v.in_subtree(m, k))
    }

    /// Brings the closure of `dtag` at node `k` into the scope of the tag
    /// (`on`) or takes it out: the files of `k`, and then, going down into
    /// each subdirectory that does not declare the tag itself, the files
    /// below. Every file of the closure joins, or leaves, the closure cached
    /// at its directory and at every directory above, and gets, or loses, the
    /// mark of inheriting the tag.
    fn spread(&mut self, k: usize, dtag: TagRef, on: bool)
        requires
            old(self).shape_wf(),
            k < old(self).nodes@.len(),
        ensures
            final(self).recached(old(self)),
            forall|m: int, t: u64|
                0 <= m < final(self).nodes@.len() ==> (#[trigger] final(self).nodes@[m].closure(t))
                    == if t == dtag.id {
                    changed(
                        old(self).nodes@[m].closure(t),
                        old(self)@.closure_files(
                            k as int,
                            dtag.id,
                            m,
                            old(self)@.files.len() as int,
                        ),
                        on,
                    )
                } else {
                    old(self).nodes@[m].closure(t)
                },
            forall|g: int, t: u64|
                0 <= g < final(self).files@.len()
                    ==> (#[trigger] final(self).files@[g].dtags@.contains(
                    t,
                )) == if t == dtag.id && old(self)@.in_closure(
                    k as int,
                    old(self).files@[g].dir as int,
                    dtag.id,
                ) {
                    on
                } else {
                    old(self).files@[g].dtags@.contains(t)
                },
        decreases old(self).nodes@.len() - k,
    {
        let ghost v = self@;
        let tag = dtag.id;
        let ghost kids = self.nodes@[k as int].directories@;
        self.spread_own(k, dtag, on);
        proof {
            assert forall|m: int, t: u64| 0 <= m < self.nodes@.len() implies (
            #[trigger] self.nodes@[m].closure(t)) == if t == tag {
                changed(
                    old(self).nodes@[m].closure(t),
                    v.reached_files(k as int, kids, 0, tag, m),
                    on,
                )
            } else {
                old(self).nodes@[m].closure(t)
            } by {
                assert(v.own_files(k as int, m) =~= v.reached_files(k as int, kids, 0, tag, m));
            }
        }
        let mut j: usize = 0;
        while j < self.nodes[k].directories.len()
            invariant
                old(self).shape_wf(),
                self.recached(old(self)),
                v == old(self)@,
                k < self.nodes@.len(),
                tag == dtag.id,
                kids == self.nodes@[k as int].directories@,
                j <= kids.len(),
                forall|m: int, t: u64|
                    0 <= m < self.nodes@.len() ==> (#[trigger] self.nodes@[m].closure(t)) == if t
                        == tag {
                        changed(
                            old(self).nodes@[m].closure(t),
                            v.reached_files(k as int, kids, j as int, tag, m),
                            on,
                        )
                    } else {
                        old(self).nodes@[m].closure(t)
                    },
                forall|g: int, t: u64|
                    0 <= g < self.files@.len() ==> (#[trigger] self.files@[g].dtags@.contains(t))
                        == if t == tag && (old(self).files@[g].dir == k || v.reached(
                        kids,
                        j as int,
                        tag,
                        old(self).files@[g].dir as int,
                    )) {
                        on
                    } else {
                        old(self).files@[g].dtags@.contains(t)
                    },
            decreases kids.len() - j,
        {
            let c = self.nodes[k].directories[j];
            proof {
                assert(0 < self.nodes@[k as int].directories@[j as int] < self.nodes@.len());
                assert(self.nodes@[c as int].parent == k);
                assert(0 <= v.dirs[c as int].parent < c);
            }
            let ghost pre = *self;
            let skip = self.nodes[c].dtags.contains(tag);
            assert(skip == v.declares(c as int, tag));
            if !skip {
                self.spread(c, dtag, on);
                proof {
                    self.lemma_recached_again(&pre, old(self));
                }
            }
            proof {
                assert forall|d: int|
                    v.reached(kids, j + 1, tag, d) == (v.reached(kids, j as int, tag, d) || (!skip
                        && v.in_closure(c as int, d, tag))) by {
                    if v.reached(kids, j as int, tag, d) {
                        let i = choose|i: int|
                            0 <= i < j && i < kids.len() && !v.declares(kids[i] as int, tag)
                                && #[trigger] v.in_closure(kids[i] as int, d, tag);
                        assert(0 <= i < j + 1);
                    }
                    if !skip && v.in_closure(c as int, d, tag) {
                        assert(v.in_closure(kids[j as int] as int, d, tag));
                    }
                    if v.reached(kids, j + 1, tag, d) {
                        let i = choose|i: int|
                            0 <= i < j + 1 && i < kids.len() && !v.declares(kids[i] as int, tag)
                                && #[trigger] v.in_closure(kids[i] as int, d, tag);
                        if i < j {
                            assert(v.reached(kids, j as int, tag, d));
                        }
                    }
                }
                assert forall|m: int, t: u64| 0 <= m < self.nodes@.len() implies (
                #[trigger] self.nodes@[m].closure(t)) == if t == tag {
                    changed(
                        old(self).nodes@[m].closure(t),
                        v.reached_files(k as int, kids, j + 1, tag, m),
                        on,
                    )
                } else {
                    old(self).nodes@[m].closure(t)
                } by {
                    let p = pre.nodes@[m].closure(t);
                    let o = old(self).nodes@[m].closure(t);
                    let r0 = v.reached_files(k as int, kids, j as int, tag, m);
                    let r1 = v.reached_files(k as int, kids, j + 1, tag, m);
                    let cf = v.closure_files(c as int, tag, m, v.files.len() as int);
                    if t == tag {
                        if skip {
                            assert(r1 =~= r0);
                        } else {
                            assert(r1 =~= r0.union(cf));
                            assert(changed(changed(o, r0, on), cf, on) =~= changed(o, r1, on));
                        }
                    }
                }
                assert forall|g: int, t: u64| 0 <= g < self.files@.len() implies (
                #[trigger] self.files@[g].dtags@.contains(t)) == if t == tag
                    && (old(self).files@[g].dir == k || v.reached(
                    kids,
                    j + 1,
                    tag,
                    old(self).files@[g].dir as int,
                )) {
                    on
                } else {
                    old(self).files@[g].dtags@.contains(t)
                } by {
                    let p = pre.files@[g].dtags@.contains(t);
                    assert(pre.files@[g].dir == old(self).files@[g].dir);
                }
            }
            j += 1;
        }
        proof {
            let all = kids.len() as int;
            assert forall|d: int|
                0 <= d < v.dirs.len() implies (d == k || v.reached(kids, all, tag, d))
                    == v.in_closure(k as int, d, tag) by {
                if v.reached(kids, all, tag, d) {
                    let i = choose|i: int|
                        0 <= i < all && i < kids.len() && !v.declares(kids[i] as int, tag)
                            && #[trigger] v.in_closure(kids[i] as int, d, tag);
                    assert(0 < old(self).nodes@[k as int].directories@[i] < old(self).nodes@.len());
                    let c = kids[i] as int;
                    assert(old(self).nodes@[c].parent == k);
                    assert(0 <= v.dirs[c].parent < c);
                    v.lemma_closure_up(c, d, tag);
                }
                if v.in_closure(k as int, d, tag) && d != k {
                    let c = v.lemma_closure_down(k as int, d, tag);
                    assert(old(self).nodes@[k as int].directories@.contains(c as usize));
                    let i = choose|i: int| 0 <= i < kids.len() && kids[i] == c as usize;
                    assert(v.in_closure(kids[i] as int, d, tag));
                }
            }
            assert forall|m: int, t: u64| 0 <= m < self.nodes@.len() implies (
            #[trigger] self.nodes@[m].closure(t)) == if t == tag {
                changed(
                    old(self).nodes@[m].closure(t),
                    v.closure_files(k as int, tag, m, v.files.len() as int),
                    on,
                )
            } else {
                old(self).nodes@[m].closure(t)
            } by {
                let r = v.reached_files(k as int, kids, all, tag, m);
                let cf = v.closure_files(k as int, tag, m, v.files.len() as int);
                assert forall|g: u64| r.contains(g) == cf.contains(g) by {
                    if g < v.files.len() {
                        assert(0 <= v.files[g as int].dir < v.dirs.len());
                    }
                }
                assert(r =~= cf);
            }
            assert forall|g: int, t: u64| 0 <= g < self.files@.len() implies (
            #[trigger] self.files@[g].dtags@.contains(t)) == if t == tag && v.in_closure(
                k as int,
                old(self).files@[g].dir as int,
                tag,
            ) {
                on
            } else {
                old(self).files@[g].dtags@.contains(t)
            } by {
                assert(0 <= v.files[g].dir < v.dirs.len());
            }
        }
    }

    /// Declares `dtag` at the directory at `path`. Where no directory above
    /// declares it, the closure of the tag at the directory (what lies below,
    /// short of directories that declare the tag themselves) is brought into
    /// the closures cached there and above, and its files are marked. Returns
    /// whether the declaration is new. Where the path names no directory,
    /// nothing changes.
    pub fn attach_dtag(&mut self, path: &str, dtag: TagRef) -> (res: Result<bool, UpdateErr>)
        requires
            old(self).wf(),
        ensures
            final(self).wf(),
            match old(self)@.locate_dir(components(path.spec_bytes())) {
                Err(e) => res == Err::<bool, UpdateErr>(e) && *final(self) == *old(self),
                Ok(n) => res == Ok::<bool, UpdateErr>(!old(self)@.dirs[n].dtags.contains(dtag.id))
                    && final(self)@ == old(self)@.with_dtag(n, dtag.id),
            },
    {
        self.redeclare(path, dtag, true)
    }

    /// Withdraws the declaration of `dtag` at the directory at `path`. Where
    /// no directory above declares it, the closure of the tag at the directory
    /// (what lies below, short of directories that declare the tag
    /// themselves) is taken out of the closures cached there and above, and
    /// its files lose the mark. Returns whether there was a declaration.
    /// Where the path names no directory, nothing changes.
    pub fn detach_dtag(&mut self, path: &str, dtag: TagRef) -> (res: Result<bool, UpdateErr>)
        requires
            old(self).wf(),
        ensures
            final(self).wf(),
            match old(self)@.locate_dir(components(path.spec_bytes())) {
                Err(e) => res == Err::<bool, UpdateErr>(e) && *final(self) == *old(self),
                Ok(n) => res == Ok::<bool, UpdateErr>(old(self)@.dirs[n].dtags.contains(dtag.id))
                    && final(self)@ == old(self)@.without_dtag(n, dtag.id),
            },
    {
        self.redeclare(path, dtag, false)
    }

    /// Declares `dtag` at the directory at `path` (`on`) or withdraws the
    /// declaration, and, unless a directory above declares the tag, spreads
    /// the change over the closure of the tag at the directory. Returns
    /// whether the declarations of the directory changed.
    fn redeclare(&mut self, path: &str, dtag: TagRef, on: bool) -> (res: Result<bool, UpdateErr>)
        requires
            old(self).wf(),
        ensures
            final(self).wf(),
            match old(self)@.locate_dir(components(path.spec_bytes())) {
                Err(e) => res == Err::<bool, UpdateErr>(e) && *final(self) == *old(self),
                Ok(n) => res == Ok::<bool, UpdateErr>(
                    on != old(self)@.dirs[n].dtags.contains(dtag.id),
                ) && final(self)@ == if on {
                    old(self)@.with_dtag(n, dtag.id)
                } else {
                    old(self)@.without_dtag(n, dtag.id)
                },
            },
    {
        match self.locate_dir(path) {
            Err(e) => Err(e),
            Ok(n) => Ok(self.redeclare_at(n, dtag, on)),
        }
    }

    /// Declares `dtag` at node `n` (`on`) or withdraws the declaration, and,
    /// unless a directory above declares the tag, spreads the change over the
    /// closure of the tag at the node. Returns whether the declarations of
    /// the node changed.
    fn redeclare_at(&mut self, n: usize, dtag: TagRef, on: bool) -> (changes: bool)
        requires
            old(self).wf(),
            n < old(self)@.dirs.len(),
        ensures
            final(self).wf(),
            changes == (on != old(self)@.dirs[n as int].dtags.contains(dtag.id)),
            final(self)@ == if on {
                old(self)@.with_dtag(n as int, dtag.id)
            } else {
                old(self)@.without_dtag(n as int, dtag.id)
            },
    {
        let tag = dtag.id;
        let ghost v = self@;
        let ghost w = if on {
            v.with_dtag(n as int, tag)
        } else {
            v.without_dtag(n as int, tag)
        };
        let shadowed = self.is_shadowed(n, tag);
        let changes = if on {
            self.nodes[n].attach_dtag(dtag)
        } else {
            self.nodes[n].detach_dtag(dtag)
        };
        proof {
            assert(self@.dirs =~= w.dirs);
            assert(self@.files =~= w.files);
            assert(self.same_frame(old(self)));
            assert(self.sets_wf());
            self.lemma_frame(old(self));
        }
        let ghost mid = *self;
        if !shadowed {
            self.spread(n, dtag, on);
        }
        proof {
            assert(self@ == w);
            assert(w.same_tree(v));
            assert forall|j: int| 0 <= j < w.dirs.len() && j != n implies (
            #[trigger] w.dirs[j]).dtags == v.dirs[j].dtags by {}
            assert forall|m: int, t: u64| 0 <= m < self.nodes@.len() implies (
            #[trigger] self.nodes@[m].tagged(t)) == self@.node_tags(m, t) by {
                assert(old(self).nodes@[m].tagged(t) == v.node_tags(m, t));
                assert(mid.nodes@[m].tags == old(self).nodes@[m].tags);
                assert(self.nodes@[m].tags == mid.nodes@[m].tags);
                assert(w.node_tags(m, t) =~= v.node_tags(m, t));
            }
            assert forall|m: int, t: u64| 0 <= m < self.nodes@.len() implies (
            #[trigger] self.nodes@[m].closure(t)) == self@.node_dtag_files(m, t) by {
                assert(old(self).nodes@[m].closure(t) == v.node_dtag_files(m, t));
                assert(mid.nodes@[m].dtag_files == old(self).nodes@[m].dtag_files);
                assert(mid.nodes@[m].closure(t) == old(self).nodes@[m].closure(t));
                let have = self.nodes@[m].closure(t);
                let want = w.node_dtag_files(m, t);
                assert forall|g: u64| have.contains(g) == want.contains(g) by {
                    if g < w.files.len() {
                        let d = w.files[g as int].dir;
                        assert(0 <= v.files[g as int].dir < v.dirs.len());
                        Self::lemma_scope(v, n as int, tag, on, shadowed, d, t);
                        w.lemma_same_tree_subtree(v, m, d);
                        w.lemma_closure_frame(v, n as int, d, tag);
                    }
                }
                assert(have =~= want);
            }
            assert forall|g: int, t: u64| 0 <= g < self.files@.len() implies (
            #[trigger] self.files@[g].dtags@.contains(t)) == self@.covered(
                self.files@[g].dir as int,
                t,
            ) by {
                assert(old(self).files@[g].dtags@.contains(t) == v.covered(
                    old(self).files@[g].dir as int,
                    t,
                ));
                assert(mid.files@[g] == old(self).files@[g]);
                let d = w.files[g].dir;
                assert(0 <= v.files[g].dir < v.dirs.len());
                Self::lemma_scope(v, n as int, tag, on, shadowed, d, t);
                w.lemma_closure_frame(v, n as int, d, tag);
            }
        }
        changes
    }

    /// What a declaration of `tag` at `n`, made (`on`) or withdrawn, does to
    /// the scope of tag `t` at directory `d`: nothing where `t` is another
    /// tag or a directory above `n` declares the tag; else the closure of the
    /// tag at `n` comes into the scope, or leaves it.
    proof fn lemma_scope(v: ShelfView, n: int, tag: u64, on: bool, shadowed: bool, d: int, t: u64)
        requires
            0 <= n < v.dirs.len(),
            0 <= d < v.dirs.len(),
            shadowed == v.shadowed(n, tag),
        ensures
            ({
                let w = if on {
                    v.with_dtag(n, tag)
                } else {
                    v.without_dtag(n, tag)
                };
                w.covered(d, t) == if t != tag || shadowed {
                    v.covered(d, t)
                } else if on {
                    v.covered(d, t) || v.in_closure(n, d, tag)
                } else {
                    v.covered(d, t) && !v.in_closure(n, d, tag)
                }
            }),
    {
        v.lemma_closure(n, d, tag);
        if shadowed {
            v.lemma_shadowed(n, tag, d, t);
        } else if on {
            v.lemma_with_dtag(n, tag, d, t);
        } else {
            v.lemma_without_dtag(n, tag, d, t);
        }
    }

    /// Puts every tag of `tags` on file `f`.
    fn carry_tags(&mut self, f: u64, tags: &IdSet)
        requires
            old(self).wf(),
            f < old(self)@.files.len(),
        ensures
            final(self).wf(),
            final(self)@ == old(self)@.with_tags(f as int, tags@),
    {
        let ghost v = self@;
        let ghost ids = tags.members();
        proof {
            tags.lemma_members();
            let w = v.with_tags(f as int, ids.subrange(0, 0).to_set());
            assert(v.files[f as int].tags.union(ids.subrange(0, 0).to_set())
                =~= v.files[f as int].tags);
            assert(w.files =~= v.files);
        }
        let mut j: usize = 0;
        while j < tags.len()
            invariant
                self.wf(),
                v == old(self)@,
                f < v.files.len(),
                ids == tags.members(),
                j <= ids.len(),
                self@ == v.with_tags(f as int, ids.subrange(0, j as int).to_set()),
            decreases ids.len() - j,
        {
            let t = tags.get(j);
            self.retag_file(f, TagRef { id: t }, true);
            proof {
                let before = ids.subrange(0, j as int);
                let after = ids.subrange(0, j + 1);
                assert(after =~= before.push(t));
                assert forall|x: u64| after.contains(x) == (before.contains(x) || x == t) by {
                    if before.contains(x) {
                        let i = choose|i: int| 0 <= i < before.len() && before[i] == x;
                        assert(after[i] == x);
                    }
                    if x == t {
                        assert(after[j as int] == x);
                    }
                    if after.contains(x) && x != t {
                        let i = choose|i: int| 0 <= i < after.len() && after[i] == x;
                        assert(before[i] == x);
                    }
                }
                let w = v.with_tags(f as int, after.to_set());
                assert(v.files[f as int].tags.union(before.to_set()).insert(t)
                    =~= v.files[f as int].tags.union(after.to_set()));
                assert(self@.files =~= w.files);
            }
            j += 1;
        }
        proof {
            assert(ids.subrange(0, j as int) =~= ids);
        }
    }

    /// Declares every tag of `tags` at node `n`.
    fn carry_dtags(&mut self, n: usize, tags: &IdSet)
        requires
            old(self).wf(),
            n < old(self)@.dirs.len(),
        ensures
            final(self).wf(),
            final(self)@ == old(self)@.with_dtags(n as int, tags@),
    {
        let ghost v = self@;
        let ghost ids = tags.members();
        proof {
            tags.lemma_members();
            let w = v.with_dtags(n as int, ids.subrange(0, 0).to_set());
            assert(v.dirs[n as int].dtags.union(ids.subrange(0, 0).to_set())
                =~= v.dirs[n as int].dtags);
            assert(w.dirs =~= v.dirs);
        }
        let mut j: usize = 0;
        while j < tags.len()
            invariant
                self.wf(),
                v == old(self)@,
                n < v.dirs.len(),
                ids == tags.members(),
                j <= ids.len(),
                self@ == v.with_dtags(n as int, ids.subrange(0, j as int).to_set()),
            decreases ids.len() - j,
        {
            let t = tags.get(j);
            self.redeclare_at(n, TagRef { id: t }, true);
            proof {
                let before = ids.subrange(0, j as int);
                let after = ids.subrange(0, j + 1);
                assert(after =~= before.push(t));
                assert forall|x: u64| after.contains(x) == (before.contains(x) || x == t) by {
                    if before.contains(x) {
                        let i = choose|i: int| 0 <= i < before.len() && before[i] == x;
                        assert(after[i] == x);
                    }
                    if x == t {
                        assert(after[j as int] == x);
                    }
                    if after.contains(x) && x != t {
                        let i = choose|i: int| 0 <= i < after.len() && after[i] == x;
                        assert(before[i] == x);
                    }
                }
                let w = v.with_dtags(n as int, after.to_set());
                assert(v.dirs[n as int].dtags.union(before.to_set()).insert(t)
                    =~= v.dirs[n as int].dtags.union(after.to_set()));
                assert(self@.dirs =~= w.dirs);
            }
            j += 1;
        }
        proof {
            assert(ids.subrange(0, j as int) =~= ids);
        }
    }

    /// For each directory of this shelf the directory of `scan` that has the
    /// same path, if there is one.
    fn counterparts(&self, scan: &Shelf) -> (map: Vec<Option<usize>>)
        requires
            self.shape_wf(),
            scan.shape_wf(),
        ensures
            map@.len() == self.nodes@.len(),
            forall|k: int|
                0 <= k < map@.len() ==> scan@.dir_at(self@.dir_path(k), #[trigger] map@[k]),
    {
        let ghost v = self@;
        let ghost w = scan@;
        let mut map: Vec<Option<usize>> = Vec::new();
        let mut k: usize = 0;
        while k < self.nodes.len()
            invariant
                self.shape_wf(),
                scan.shape_wf(),
                v == self@,
                w == scan@,
                k <= self.nodes@.len(),
                map@.len() == k,
                forall|i: int| 0 <= i < k ==> w.dir_at(v.dir_path(i), #[trigger] map@[i]),
            decreases self.nodes@.len() - k,
        {
            let ghost before = map@;
            let found = if k == 0 {
                assert(!v.has_parent(0) && !w.has_parent(0));
                Some(0)
            } else {
                assert(0 <= v.dirs[k as int].parent < k);
                let p = self.nodes[k].parent;
                let ghost name = v.dirs[k as int].name;
                match map[p] {
                    None => {
                        proof {
                            assert forall|n: int| 0 <= n < scan.nodes@.len() implies (
                            #[trigger] w.dir_path(n)) != v.dir_path(k as int) by {
                                if w.dir_path(n) == v.dir_path(k as int) {
                                    let up = w.dirs[n].parent;
                                    assert(v.has_parent(k as int));
                                    assert(v.dir_path(k as int).len() > 0);
                                    assert(w.has_parent(n));
                                    assert(w.dir_path(n).drop_last() =~= w.dir_path(up));
                                    assert(v.dir_path(k as int).drop_last() =~= v.dir_path(
                                        p as int,
                                    ));
                                    assert(w.dir_path(up) != v.dir_path(p as int));
                                }
                            }
                        }
                        None
                    },
                    Some(q) => {
                        let c = scan.find_child(q, self.nodes[k].name.as_slice());
                        proof {
                            match c {
                                Some(d) => {
                                    w.lemma_child(q as int, name, d as int);
                                    assert(0 <= w.dirs[d as int].parent < d);
                                },
                                None => {
                                    assert forall|n: int| 0 <= n < scan.nodes@.len() implies (
                                    #[trigger] w.dir_path(n)) != v.dir_path(k as int) by {
                                        if w.dir_path(n) == v.dir_path(k as int) {
                                            let up = w.dirs[n].parent;
                                            assert(v.has_parent(k as int));
                                            assert(v.dir_path(k as int).len() > 0);
                                            assert(w.has_parent(n));
                                            assert(w.dir_path(n).drop_last() =~= w.dir_path(up));
                                            assert(v.dir_path(k as int).drop_last() =~= v.dir_path(
                                                p as int,
                                            ));
                                            assert(w.dir_path(n).last() == w.dirs[n].name);
                                            assert(v.dir_path(k as int).last() == name);
                                            w.lemma_one_dir_per_path(up, q as int);
                                            w.lemma_child(q as int, name, n);
                                        }
                                    }
                                },
                            }
                        }
                        c
                    },
                }
            };
            map.push(found);
            proof {
                assert forall|i: int| 0 <= i < k + 1 implies w.dir_at(
                    v.dir_path(i),
                    #[trigger] map@[i],
                ) by {
                    if i < k {
                        assert(map@[i] == before[i]);
                    }
                }
            }
            k += 1;
        }
        map
    }

    /// Reconciles the shelf with a fresh scan of its tree: the shelf becomes
    /// `scan`, with the tags of this shelf carried over. A file of `scan`
    /// gets the tags of the file that had its path, a directory the
    /// declarations of the directory that had its path; files and
    /// directories whose paths are not in `scan` are gone, with their tags.
    pub fn refresh(&mut self, scan: Shelf)
        requires
            old(self).wf(),
            scan.wf(),
        ensures
            final(self).wf(),
            final(self)@ == old(self)@.refresh(scan@),
    {
        let ghost v = self@;
        let ghost w = scan@;
        let map = self.counterparts(&scan);
        let mut fresh = scan;
        proof {
            let r = v.refreshed(w, 0, 0);
            assert forall|n: int| 0 <= n < w.dirs.len() implies r.dirs[n] == w.dirs[n] by {
                assert(r.dirs[n].dtags =~= w.dirs[n].dtags);
            }
            assert forall|g: int| 0 <= g < w.files.len() implies r.files[g] == w.files[g] by {
                assert(r.files[g].tags =~= w.files[g].tags);
            }
            assert(r.dirs =~= w.dirs);
            assert(r.files =~= w.files);
        }
        let mut k: usize = 0;
        while k < self.nodes.len()
            invariant
                self.wf(),
                fresh.wf(),
                v == self@,
                w.tree_wf(),
                v.tree_wf(),
                k <= self.nodes@.len(),
                map@.len() == self.nodes@.len(),
                forall|i: int|
                    0 <= i < map@.len() ==> w.dir_at(v.dir_path(i), #[trigger] map@[i]),
                fresh@ == v.refreshed(w, k as int, 0),
            decreases self.nodes@.len() - k,
        {
            let ghost before = fresh@;
            match map[k] {
                None => {},
                Some(n) => {
                    fresh.carry_dtags(n, &self.nodes[k].dtags);
                },
            }
            proof {
                let r = v.refreshed(w, k + 1, 0);
                assert forall|m: int, t: u64|
                    0 <= m < w.dirs.len() implies v.declared(w, m, t, k + 1) == (v.declared(
                    w,
                    m,
                    t,
                    k as int,
                ) || (v.dirs[k as int].dtags.contains(t) && v.dir_path(k as int) == w.dir_path(
                    m,
                ))) by {
                    if v.declared(w, m, t, k as int) {
                        let i = choose|i: int|
                            0 <= i < k && i < v.dirs.len() && v.dirs[i].dtags.contains(t) && (
                            #[trigger] v.dir_path(i)) == w.dir_path(m);
                        assert(0 <= i < k + 1);
                    }
                    if v.declared(w, m, t, k + 1) {
                        let i = choose|i: int|
                            0 <= i < k + 1 && i < v.dirs.len() && v.dirs[i].dtags.contains(t) && (
                            #[trigger] v.dir_path(i)) == w.dir_path(m);
                        if i < k {
                            assert(v.declared(w, m, t, k as int));
                        }
                    }
                    if v.dirs[k as int].dtags.contains(t) && v.dir_path(k as int) == w.dir_path(
                        m,
                    ) {
                        assert(v.declared(w, m, t, k + 1));
                    }
                }
                assert forall|m: int| 0 <= m < w.dirs.len() implies fresh@.dirs[m]
                    == r.dirs[m] by {
                    match map@[k as int] {
                        Some(n) => {
                            if m != n {
                                if w.dir_path(m) == v.dir_path(k as int) {
                                    w.lemma_one_dir_per_path(m, n as int);
                                }
                            }
                        },
                        None => {},
                    }
                    assert(fresh@.dirs[m].dtags =~= r.dirs[m].dtags);
                }
                assert(fresh@.dirs =~= r.dirs);
                assert(fresh@.files =~= r.files);
            }
            k += 1;
        }
        let mut f: usize = 0;
        while f < self.files.len()
            invariant
                self.wf(),
                fresh.wf(),
                v == self@,
                w.tree_wf(),
                v.tree_wf(),
                f <= self.files@.len(),
                map@.len() == self.nodes@.len(),
                forall|i: int|
                    0 <= i < map@.len() ==> w.dir_at(v.dir_path(i), #[trigger] map@[i]),
                fresh@ == v.refreshed(w, v.dirs.len() as int, f as int),
            decreases self.files@.len() - f,
        {
            let dir = self.files[f].dir;
            assert(dir < self.nodes@.len()) by {
                assert(0 <= v.files[f as int].dir < v.dirs.len());
            }
            let ghost name = v.files[f as int].name;
            let ghost now = fresh@;
            // the file of the scan with the path of this file
            let ghost twin: Option<int> = None;
            match map[dir] {
                None => {},
                Some(n) => {
                    match fresh.find_file(n, self.files[f].name.as_slice()) {
                        None => {
                            proof {
                                assert(now.entries() =~= w.entries());
                            }
                        },
                        Some(g) => {
                            proof {
                                assert(now.entries() =~= w.entries());
                                w.lemma_file_in(n as int, name, g as int);
                                twin = Some(g as int);
                            }
                            fresh.carry_tags(g, &self.files[f].tags);
                        },
                    }
                },
            }
            proof {
                let r = v.refreshed(w, v.dirs.len() as int, f + 1);
                // `twin` is the one file of the scan with the path of this file
                assert forall|g: int| 0 <= g < w.files.len() implies (twin == Some(g)) == (
                v.file_path(f as int) == w.file_path(g)) by {
                    let pf = v.file_path(f as int);
                    let pg = w.file_path(g);
                    assert(pf.drop_last() =~= v.dir_path(dir as int));
                    assert(pg.drop_last() =~= w.dir_path(w.files[g].dir));
                    assert(pf.last() == name);
                    assert(pg.last() == w.files[g].name);
                    assert(0 <= w.files[g].dir < w.dirs.len());
                    if twin is Some {
                        let h = twin->0;
                        if pf == pg {
                            w.lemma_one_file_per_path(g, h);
                        }
                    } else {
                        if pf == pg {
                            match map@[dir as int] {
                                None => {},
                                Some(n) => {
                                    w.lemma_one_dir_per_path(w.files[g].dir, n as int);
                                    assert(now.entries() =~= w.entries());
                                    w.lemma_file_in(n as int, name, g);
                                },
                            }
                        }
                    }
                }
                assert forall|g: int, t: u64|
                    0 <= g < w.files.len() implies v.carries(w, g, t, f + 1) == (v.carries(
                    w,
                    g,
                    t,
                    f as int,
                ) || (v.files[f as int].tags.contains(t) && v.file_path(f as int) == w.file_path(
                    g,
                ))) by {
                    if v.carries(w, g, t, f as int) {
                        let i = choose|i: int|
                            0 <= i < f && i < v.files.len() && v.files[i].tags.contains(t) && (
                            #[trigger] v.file_path(i)) == w.file_path(g);
                        assert(0 <= i < f + 1);
                    }
                    if v.carries(w, g, t, f + 1) {
                        let i = choose|i: int|
                            0 <= i < f + 1 && i < v.files.len() && v.files[i].tags.contains(t) && (
                            #[trigger] v.file_path(i)) == w.file_path(g);
                        if i < f {
                            assert(v.carries(w, g, t, f as int));
                        }
                    }
                    if v.files[f as int].tags.contains(t) && v.file_path(f as int) == w.file_path(
                        g,
                    ) {
                        assert(v.carries(w, g, t, f + 1));
                    }
                }
                assert forall|g: int| 0 <= g < w.files.len() implies fresh@.files[g]
                    == r.files[g] by {
                    assert(fresh@.files[g].tags =~= r.files[g].tags);
                }
                assert(fresh@.files =~= r.files);
                assert(fresh@.dirs =~= r.dirs);
            }
            f += 1;
        }
        *self = fresh;
    }

    /// The files that carry `tag`: those filed under it in the index of the
    /// root, and those in the closure cached at the root.
    pub fn retrieve(&self, tag: TagRef) -> (files: IdSet)
        requires
            self.wf(),
        ensures
            files.wf(),
            files@ == self@.retrieve(tag.id),
    {
        assert(self.nodes@[0].wf());
        assert(self.nodes@[0].tagged(tag.id) == self@.node_tags(0, tag.id));
        assert(self.nodes@[0].closure(tag.id) == self@.node_dtag_files(0, tag.id));
        let mut files = self.nodes[0].tags.get(tag.id);
        let inherited = self.nodes[0].dtag_files.get(tag.id);
        files.extend(&inherited);
        files
    }

    /// Every file of the shelf.
    pub fn get_all(&self) -> (files: IdSet)
        requires
            self.wf(),
        ensures
            files.wf(),
            files@ == self@.all_files(),
    {
        let files = IdSet::below(self.files.len() as u64);
        assert(files@ =~= self@.all_files());
        files
    }

    /// The file behind a handle, if the handle is one of this shelf: it has
    /// the name, the path, the metadata and the tags that the model gives,
    /// and is marked with the directory tags in whose scope it lies.
    pub fn file(&self, file: FileRef) -> (r: Option<&File>)
        requires
            self.wf(),
        ensures
            r is Some == (file.id < self@.files.len()),
            r matches Some(f) ==> {
                &&& *f == self.file_at(file.id as int)
                &&& f.name@ == self@.files[file.id as int].name
                &&& f.path@ == self@.files[file.id as int].path
                &&& f.metadata == self@.files[file.id as int].metadata
                &&& f.dir == self@.files[file.id as int].dir
                &&& f.tag_set() == self@.files[file.id as int].tags
                &&& forall|t: u64|
                    f.dtag_set().contains(t) == self@.covered(self@.files[file.id as int].dir, t)
            },
    {
        if file.id < self.files.len() as u64 {
            let f = &self.files[file.id as usize];
            assert forall|t: u64|
                f.dtag_set().contains(t) == self@.covered(
                    self@.files[file.id as int].dir,
                    t,
                ) by {
                assert(self.files@[file.id as int].dtags@.contains(t) == self@.covered(
                    self.files@[file.id as int].dir as int,
                    t,
                ));
            }
            Some(f)
        } else {
            None
        }
    }

    /// The handle of the file at `path`.
    pub fn find(&self, path: &str) -> (r: Result<FileRef, UpdateErr>)
        requires
            self.wf(),
        ensures
            match self@.locate_file(components(path.spec_bytes())) {
                Err(e) => r == Err::<FileRef, UpdateErr>(e),
                Ok(f) => r == Ok::<FileRef, UpdateErr>(FileRef { id: f as u64 }) && f
                    < self@.files.len(),
            },
    {
        match self.locate_file(path) {
            Err(e) => Err(e),
            Ok(f) => Ok(FileRef { id: f }),
        }
    }

    /// The files filed under `tag` in the index of the directory at `path`.
    pub fn tagged_in(&self, path: &str, tag: TagRef) -> (r: Result<IdSet, UpdateErr>)
        requires
            self.wf(),
        ensures
            match self@.locate_dir(components(path.spec_bytes())) {
                Err(e) => r == Err::<IdSet, UpdateErr>(e),
                Ok(n) => r matches Ok(s) && s.wf() && s@ == self@.node_tags(n, tag.id),
            },
    {
        match self.locate_dir(path) {
            Err(e) => Err(e),
            Ok(n) => {
                assert(self.nodes@[n as int].wf());
                assert(self.nodes@[n as int].tagged(tag.id) == self@.node_tags(n as int, tag.id));
                Ok(self.nodes[n].tags.get(tag.id))
            },
        }
    }

    /// The closure of `tag` cached at the directory at `path`.
    pub fn closure_in(&self, path: &str, tag: TagRef) -> (r: Result<IdSet, UpdateErr>)
        requires
            self.wf(),
        ensures
            match self@.locate_dir(components(path.spec_bytes())) {
                Err(e) => r == Err::<IdSet, UpdateErr>(e),
                Ok(n) => r matches Ok(s) && s.wf() && s@ == self@.node_dtag_files(n, tag.id),
            },
    {
        match self.locate_dir(path) {
            Err(e) => Err(e),
            Ok(n) => {
                assert(self.nodes@[n as int].wf());
                assert(self.nodes@[n as int].closure(tag.id) == self@.node_dtag_files(
                    n as int,
                    tag.id,
                ));
                Ok(self.nodes[n].dtag_files.get(tag.id))
            },
        }
    }

    /// Whether the directory at `path` declares `tag`.
    pub fn declares(&self, path: &str, tag: TagRef) -> (r: Result<bool, UpdateErr>)
        requires
            self.wf(),
        ensures
            match self@.locate_dir(components(path.spec_bytes())) {
                Err(e) => r == Err::<bool, UpdateErr>(e),
                Ok(n) => r == Ok::<bool, UpdateErr>(self@.dirs[n].dtags.contains(tag.id)),
            },
    {
        match self.locate_dir(path) {
            Err(e) => Err(e),
            Ok(n) => Ok(self.nodes[n].dtags.contains(tag.id)),
        }
    }
}

} // verus!
