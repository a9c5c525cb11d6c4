//! The mathematical model of a shelf: a tree of directories, the files in
//! them, the tags put on files and the tags declared on directories. What a
//! shelf caches (the tag index of each directory, the closure of each
//! directory tag, the tags a file inherits) is defined here from that state.

use crate::path::starts_with;
use crate::shelf::file::FileMetadata;
use vstd::prelude::*;

verus! {

/// Why a path could not be resolved.
#[derive(Clone, Copy, Debug, PartialEq, Eq, Structural)]
pub enum UpdateErr {
    /// The path does not lead to a directory of the tree.
    PathNotFound,
    /// The path leads into the tree, but not to a file.
    FileNotFound,
}

/// A directory as the model sees it.
pub struct DirView {
    /// The place of the parent directory; of no meaning for the root.
    pub parent: int,
    /// The name under which the parent holds this directory.
    pub name: Seq<u8>,
    /// The directory tags declared at this directory.
    pub dtags: Set<u64>,
}

/// A file as the model sees it.
pub struct FileView {
    /// The place of the directory that holds the file.
    pub dir: int,
    /// The name of the file in its directory.
    pub name: Seq<u8>,
    /// The tags put on the file itself.
    pub tags: Set<u64>,
    /// The path under which the file was added.
    pub path: Seq<char>,
    /// What the scan found out about the file.
    pub metadata: FileMetadata,
}

/// A shelf as the model sees it. Directory 0 is the root, and every other
/// directory stands after its parent.
pub struct ShelfView {
    /// The components of the path of the root.
    pub root: Seq<Seq<u8>>,
    pub dirs: Seq<DirView>,
    pub files: Seq<FileView>,
}

/// The set `set` with `file` put into it (`on`) or taken out of it.
pub open spec fn put(set: Set<u64>, file: u64, on: bool) -> Set<u64> {
    if on {
        set.insert(file)
    } else {
        set.remove(file)
    }
}

/// The set `set` with `other` joined to it (`on`) or taken out of it.
pub open spec fn changed(set: Set<u64>, other: Set<u64>, on: bool) -> Set<u64> {
    if on {
        set.union(other)
    } else {
        set.difference(other)
    }
}

/// `k` is a directory other than the root, and its parent stands before it.
pub open spec fn dir_has_parent(dirs: Seq<DirView>, k: int) -> bool {
    0 < k < dirs.len() && 0 <= dirs[k].parent < k
}

/// Directory `k` is `m` or lies below it.
pub open spec fn dir_in_subtree(dirs: Seq<DirView>, m: int, k: int) -> bool
    decreases k,
{
    k == m || (dir_has_parent(dirs, k) && dir_in_subtree(dirs, m, dirs[k].parent))
}

/// Directory `k` declares `tag`.
pub open spec fn dir_declares(dirs: Seq<DirView>, k: int, tag: u64) -> bool {
    0 <= k < dirs.len() && dirs[k].dtags.contains(tag)
}

/// `k` or a directory above it declares `tag`.
pub open spec fn dir_covered(dirs: Seq<DirView>, k: int, tag: u64) -> bool
    decreases k,
{
    dir_declares(dirs, k, tag) || (dir_has_parent(dirs, k) && dir_covered(
        dirs,
        dirs[k].parent,
        tag,
    ))
}

/// Directory `k` is reached from `n` by going down without entering a
/// directory that declares `tag` itself.
pub open spec fn dir_in_closure(dirs: Seq<DirView>, n: int, k: int, tag: u64) -> bool
    decreases k,
{
    k == n || (dir_has_parent(dirs, k) && !dir_declares(dirs, k, tag) && dir_in_closure(
        dirs,
        n,
        dirs[k].parent,
        tag,
    ))
}

/// The names of the directories on the way from the root down to
/// directory `k`: the path of `k` under the root.
pub open spec fn dir_path(dirs: Seq<DirView>, k: int) -> Seq<Seq<u8>>
    decreases k,
{
    if dir_has_parent(dirs, k) {
        dir_path(dirs, dirs[k].parent).push(dirs[k].name)
    } else {
        Seq::empty()
    }
}

/// Directory `c` is not the root, and `from` holds it under `name`.
pub open spec fn link_at(links: Seq<(int, Seq<u8>)>, from: int, name: Seq<u8>, c: int) -> bool {
    0 < c < links.len() && links[c] == (from, name)
}

/// The directory that `from` holds under `name`.
pub open spec fn link_child(links: Seq<(int, Seq<u8>)>, from: int, name: Seq<u8>) -> Option<int> {
    if exists|c: int| link_at(links, from, name, c) {
        Some(choose|c: int| link_at(links, from, name, c))
    } else {
        None
    }
}

/// The directory reached from `from` through the directories named by
/// `names`, one after the other.
pub open spec fn link_walk(links: Seq<(int, Seq<u8>)>, from: int, names: Seq<Seq<u8>>) -> Option<
    int,
>
    decreases names.len(),
{
    if names.len() == 0 {
        Some(from)
    } else {
        match link_child(links, from, names[0]) {
            None => None,
            Some(c) => link_walk(links, c, names.drop_first()),
        }
    }
}

/// File `f` lies in directory `dir` under `name`.
pub open spec fn entry_at(entries: Seq<(int, Seq<u8>)>, dir: int, name: Seq<u8>, f: int) -> bool {
    0 <= f < entries.len() && entries[f] == (dir, name)
}

/// The file that directory `dir` holds under `name`.
pub open spec fn entry_index(entries: Seq<(int, Seq<u8>)>, dir: int, name: Seq<u8>) -> Option<
    int,
> {
    if exists|f: int| entry_at(entries, dir, name, f) {
        Some(choose|f: int| entry_at(entries, dir, name, f))
    } else {
        None
    }
}

impl ShelfView {
    /// The model of a shelf with the root path `root`, an empty root
    /// directory and nothing else.
    pub open spec fn empty(root: Seq<Seq<u8>>) -> ShelfView {
        ShelfView {
            root,
            dirs: seq![DirView { parent: 0, name: Seq::empty(), dtags: Set::empty() }],
            files: Seq::empty(),
        }
    }

    /// `k` is a directory other than the root, and its parent stands before it.
    pub open spec fn has_parent(self, k: int) -> bool {
        dir_has_parent(self.dirs, k)
    }

    /// The directories form a tree under directory 0, no directory holds two
    /// entries of one name, and every file lies in a directory.
    pub open spec fn tree_wf(self) -> bool {
        &&& self.dirs.len() >= 1
        &&& forall|k: int| 0 < k < self.dirs.len() ==> 0 <= (#[trigger] self.dirs[k]).parent < k
        &&& forall|j: int, k: int|
            0 < j < k < self.dirs.len() && (#[trigger] self.dirs[j]).parent == (
            #[trigger] self.dirs[k]).parent ==> self.dirs[j].name != self.dirs[k].name
        &&& forall|f: int|
            0 <= f < self.files.len() ==> 0 <= (#[trigger] self.files[f]).dir < self.dirs.len()
        &&& forall|f: int, g: int|
            0 <= f < g < self.files.len() && (#[trigger] self.files[f]).dir == (
            #[trigger] self.files[g]).dir ==> self.files[f].name != self.files[g].name
    }

    /// Directory `k` is `m` or lies below it.
    pub open spec fn in_subtree(self, m: int, k: int) -> bool {
        dir_in_subtree(self.dirs, m, k)
    }

    /// Directory `k` declares `tag`.
    pub open spec fn declares(self, k: int, tag: u64) -> bool {
        dir_declares(self.dirs, k, tag)
    }

    /// Directory `k` lies in the scope of directory tag `tag`: `k` or a
    /// directory above it declares the tag.
    pub open spec fn covered(self, k: int, tag: u64) -> bool {
        dir_covered(self.dirs, k, tag)
    }

    /// A directory above `n` declares `tag`.
    pub open spec fn shadowed(self, n: int, tag: u64) -> bool {
        self.has_parent(n) && self.covered(self.dirs[n].parent, tag)
    }

    /// Directory `k` is reached from `n` by going down without entering a
    /// directory that declares `tag` itself: the closure of `tag` at `n`.
    pub open spec fn in_closure(self, n: int, k: int, tag: u64) -> bool {
        dir_in_closure(self.dirs, n, k, tag)
    }

    /// For each directory its parent and its name: the shape of the tree.
    pub open spec fn links(self) -> Seq<(int, Seq<u8>)> {
        Seq::new(self.dirs.len(), |k: int| (self.dirs[k].parent, self.dirs[k].name))
    }

    /// For each file its directory and its name.
    pub open spec fn entries(self) -> Seq<(int, Seq<u8>)> {
        Seq::new(self.files.len(), |f: int| (self.files[f].dir, self.files[f].name))
    }

    /// The directory that `from` holds under `name`.
    pub open spec fn child(self, from: int, name: Seq<u8>) -> Option<int> {
        link_child(self.links(), from, name)
    }

    /// The directory reached from `from` through the directories named by
    /// `names`, one after the other.
    pub open spec fn walk(self, from: int, names: Seq<Seq<u8>>) -> Option<int> {
        link_walk(self.links(), from, names)
    }

    /// The file that directory `dir` holds under `name`.
    pub open spec fn file_in(self, dir: int, name: Seq<u8>) -> Option<int> {
        entry_index(self.entries(), dir, name)
    }

    /// The directory that the path with components `path` names: the path
    /// begins with the components of the root, and the rest leads from the
    /// root through directories.
    pub open spec fn locate_dir(self, path: Seq<Seq<u8>>) -> Result<int, UpdateErr> {
        if !starts_with(path, self.root) {
            Err(UpdateErr::PathNotFound)
        } else {
            match self.walk(0, path.skip(self.root.len() as int)) {
                None => Err(UpdateErr::PathNotFound),
                Some(n) => Ok(n),
            }
        }
    }

    /// The directory in which the last component of `path` is looked up:
    /// the path begins with the components of the root and goes on, and all
    /// but its last component lead from the root through directories.
    pub open spec fn locate_parent(self, path: Seq<Seq<u8>>) -> Result<int, UpdateErr> {
        if !starts_with(path, self.root) {
            Err(UpdateErr::PathNotFound)
        } else if path.len() == self.root.len() {
            Err(UpdateErr::FileNotFound)
        } else {
            match self.walk(0, path.skip(self.root.len() as int).drop_last()) {
                None => Err(UpdateErr::PathNotFound),
                Some(n) => Ok(n),
            }
        }
    }

    /// The file that the path with components `path` names: all but the last
    /// component lead to a directory, and the last names a file in it.
    pub open spec fn locate_file(self, path: Seq<Seq<u8>>) -> Result<int, UpdateErr> {
        match self.locate_parent(path) {
            Err(e) => Err(e),
            Ok(n) => match self.file_in(n, path.last()) {
                None => Err(UpdateErr::FileNotFound),
                Some(f) => Ok(f),
            },
        }
    }

    /// The path of directory `k` under the root: the names of the
    /// directories on the way down to it.
    pub open spec fn dir_path(self, k: int) -> Seq<Seq<u8>> {
        dir_path(self.dirs, k)
    }

    /// The path of file `f` under the root: the path of its directory, and
    /// its name.
    pub open spec fn file_path(self, f: int) -> Seq<Seq<u8>> {
        self.dir_path(self.files[f].dir).push(self.files[f].name)
    }

    /// The files of directory `n` that carry `tag` themselves: the entry of
    /// `tag` in the tag index of `n`.
    pub open spec fn node_tags(self, n: int, tag: u64) -> Set<u64> {
        Set::new(
            |f: u64|
                f < self.files.len() && self.files[f as int].dir == n
                    && self.files[f as int].tags.contains(
                    tag,
                ),
        )
    }

    /// The files in and below directory `n` that lie in the scope of `tag`:
    /// the closure of `tag` cached at `n`.
    pub open spec fn node_dtag_files(self, n: int, tag: u64) -> Set<u64> {
        Set::new(
            |f: u64|
                f < self.files.len() && self.in_subtree(n, self.files[f as int].dir)
                    && self.covered(self.files[f as int].dir, tag),
        )
    }

    /// The files in and below directory `m` that lie in the closure of `tag`
    /// at `n`, among the first `bound` files.
    pub open spec fn closure_files(self, n: int, tag: u64, m: int, bound: int) -> Set<u64> {
        Set::new(
            |f: u64|
                f < bound && f < self.files.len() && self.in_subtree(m, self.files[f as int].dir)
                    && self.in_closure(n, self.files[f as int].dir, tag),
        )
    }

    /// Directory `d` lies in the closure of `tag` at one of the first `j` of
    /// the directories `kids`, and that one does not declare the tag.
    pub open spec fn reached(self, kids: Seq<usize>, j: int, tag: u64, d: int) -> bool {
        exists|i: int|
            0 <= i < j && i < kids.len() && !self.declares(kids[i] as int, tag)
                && #[trigger] self.in_closure(kids[i] as int, d, tag)
    }

    /// The files of directory `k`, seen from directory `m`: all of them if
    /// `k` lies in or below `m`, none otherwise.
    pub open spec fn own_files(self, k: int, m: int) -> Set<u64> {
        Set::new(
            |f: u64| f < self.files.len() && self.files[f as int].dir == k && self.in_subtree(m, k),
        )
    }

    /// The files in and below `m` that lie in `k` itself or in the closure of
    /// `tag` at one of the first `j` of the directories `kids`.
    pub open spec fn reached_files(
        self,
        k: int,
        kids: Seq<usize>,
        j: int,
        tag: u64,
        m: int,
    ) -> Set<u64> {
        Set::new(
            |f: u64|
                f < self.files.len() && self.in_subtree(m, self.files[f as int].dir) && (
                self.files[f as int].dir == k || self.reached(
                    kids,
                    j,
                    tag,
                    self.files[f as int].dir,
                )),
        )
    }

    /// What the shelf gives for `tag`: the root's index entry and the root's
    /// closure.
    pub open spec fn retrieve(self, tag: u64) -> Set<u64> {
        self.node_tags(0, tag).union(self.node_dtag_files(0, tag))
    }

    /// Every file of the shelf.
    pub open spec fn all_files(self) -> Set<u64> {
        Set::new(|f: u64| f < self.files.len())
    }

    /// Some file carries `tag` itself.
    pub open spec fn tag_in_use(self, tag: u64) -> bool {
        exists|f: int| 0 <= f < self.files.len() && (#[trigger] self.files[f]).tags.contains(tag)
    }

    /// The model with `tag` put on file `f`.
    pub open spec fn with_tag(self, f: int, tag: u64) -> ShelfView {
        ShelfView {
            files: self.files.update(
                f,
                FileView { tags: self.files[f].tags.insert(tag), ..self.files[f] },
            ),
            ..self
        }
    }

    /// The model with `tag` taken off file `f`.
    pub open spec fn without_tag(self, f: int, tag: u64) -> ShelfView {
        ShelfView {
            files: self.files.update(
                f,
                FileView { tags: self.files[f].tags.remove(tag), ..self.files[f] },
            ),
            ..self
        }
    }

    /// The model with `tag` taken off every file.
    pub open spec fn without_tag_anywhere(self, tag: u64) -> ShelfView {
        ShelfView {
            files: Seq::new(
                self.files.len(),
                |f: int| FileView { tags: self.files[f].tags.remove(tag), ..self.files[f] },
            ),
            ..self
        }
    }

    /// The model with `tag` declared at directory `n`.
    pub open spec fn with_dtag(self, n: int, tag: u64) -> ShelfView {
        ShelfView {
            dirs: self.dirs.update(
                n,
                DirView { dtags: self.dirs[n].dtags.insert(tag), ..self.dirs[n] },
            ),
            ..self
        }
    }

    /// The model with the declaration of `tag` at directory `n` withdrawn.
    pub open spec fn without_dtag(self, n: int, tag: u64) -> ShelfView {
        ShelfView {
            dirs: self.dirs.update(
                n,
                DirView { dtags: self.dirs[n].dtags.remove(tag), ..self.dirs[n] },
            ),
            ..self
        }
    }

    /// The model with a new, empty directory `name` under directory `p`.
    pub open spec fn with_dir(self, p: int, name: Seq<u8>) -> ShelfView {
        ShelfView {
            dirs: self.dirs.push(DirView { parent: p, name, dtags: Set::empty() }),
            ..self
        }
    }

    /// The model with a new file `name` in directory `p`, without tags.
    pub open spec fn with_file(
        self,
        p: int,
        name: Seq<u8>,
        path: Seq<char>,
        metadata: FileMetadata,
    ) -> ShelfView {
        ShelfView {
            files: self.files.push(FileView { dir: p, name, tags: Set::empty(), path, metadata }),
            ..self
        }
    }

    /// A directory added at the end changes nothing for those before it.
    pub proof fn lemma_with_dir(self, p: int, name: Seq<u8>, m: int, k: int, t: u64)
        requires
            0 <= k < self.dirs.len(),
        ensures
            self.with_dir(p, name).in_subtree(m, k) == self.in_subtree(m, k),
            self.with_dir(p, name).covered(k, t) == self.covered(k, t),
        decreases k,
    {
        let w = self.with_dir(p, name);
        assert(w.has_parent(k) == self.has_parent(k));
        assert(w.dirs[k] == self.dirs[k]);
        if self.has_parent(k) {
            self.lemma_with_dir(p, name, m, self.dirs[k].parent, t);
        }
    }

    /// The model with the tags `tags` put on file `f`.
    pub open spec fn with_tags(self, f: int, tags: Set<u64>) -> ShelfView {
        ShelfView {
            files: self.files.update(
                f,
                FileView { tags: self.files[f].tags.union(tags), ..self.files[f] },
            ),
            ..self
        }
    }

    /// The model with the tags `tags` declared at directory `n`.
    pub open spec fn with_dtags(self, n: int, tags: Set<u64>) -> ShelfView {
        ShelfView {
            dirs: self.dirs.update(
                n,
                DirView { dtags: self.dirs[n].dtags.union(tags), ..self.dirs[n] },
            ),
            ..self
        }
    }

    /// One of the first `upto` files of this model carries `tag` and has the
    /// path of file `g` of `scan`.
    pub open spec fn carries(self, scan: ShelfView, g: int, tag: u64, upto: int) -> bool {
        exists|f: int|
            0 <= f < upto && f < self.files.len() && self.files[f].tags.contains(tag) && (
            #[trigger] self.file_path(f)) == scan.file_path(g)
    }

    /// One of the first `upto` directories of this model declares `tag` and
    /// has the path of directory `n` of `scan`.
    pub open spec fn declared(self, scan: ShelfView, n: int, tag: u64, upto: int) -> bool {
        exists|m: int|
            0 <= m < upto && m < self.dirs.len() && self.dirs[m].dtags.contains(tag) && (
            #[trigger] self.dir_path(m)) == scan.dir_path(n)
    }

    /// The model `scan` with the declarations of the first `dirs` directories
    /// and the tags of the first `files` files of this model carried over to
    /// the directories and files of the same paths.
    pub open spec fn refreshed(self, scan: ShelfView, dirs: int, files: int) -> ShelfView {
        ShelfView {
            root: scan.root,
            dirs: Seq::new(
                scan.dirs.len(),
                |n: int|
                    DirView {
                        dtags: Set::new(
                            |t: u64|
                                scan.dirs[n].dtags.contains(t) || self.declared(scan, n, t, dirs),
                        ),
                        ..scan.dirs[n]
                    },
            ),
            files: Seq::new(
                scan.files.len(),
                |g: int|
                    FileView {
                        tags: Set::new(
                            |t: u64|
                                scan.files[g].tags.contains(t) || self.carries(scan, g, t, files),
                        ),
                        ..scan.files[g]
                    },
            ),
        }
    }

    /// This model reconciled with a fresh scan: the tree, the files and the
    /// metadata of `scan`; every file with the tags that `scan` gives it and
    /// those that the file of the same path carries here; every directory
    /// with the declarations that `scan` gives it and those of the directory
    /// of the same path here. What is not in `scan` is gone.
    pub open spec fn refresh(self, scan: ShelfView) -> ShelfView {
        self.refreshed(scan, self.dirs.len() as int, self.files.len() as int)
    }

    /// No directory has the path `path`.
    pub open spec fn no_dir_at(self, path: Seq<Seq<u8>>) -> bool {
        forall|n: int| 0 <= n < self.dirs.len() ==> #[trigger] self.dir_path(n) != path
    }

    /// `twin` is the directory that has the path `path`, or `None` where no
    /// directory has it.
    pub open spec fn dir_at(self, path: Seq<Seq<u8>>, twin: Option<usize>) -> bool {
        &&& twin is Some ==> twin->0 < self.dirs.len() && self.dir_path(twin->0 as int) == path
        &&& twin is None ==> self.no_dir_at(path)
    }

    /// No two directories have the same path.
    pub proof fn lemma_one_dir_per_path(self, a: int, b: int)
        requires
            self.tree_wf(),
            0 <= a < self.dirs.len(),
            0 <= b < self.dirs.len(),
            self.dir_path(a) == self.dir_path(b),
        ensures
            a == b,
    {
        self.lemma_path_leads(a);
        self.lemma_path_leads(b);
    }

    /// No two files have the same path.
    pub proof fn lemma_one_file_per_path(self, f: int, g: int)
        requires
            self.tree_wf(),
            0 <= f < self.files.len(),
            0 <= g < self.files.len(),
            self.file_path(f) == self.file_path(g),
        ensures
            f == g,
    {
        let a = self.files[f].dir;
        let b = self.files[g].dir;
        let pf = self.file_path(f);
        let pg = self.file_path(g);
        assert(pf.drop_last() =~= self.dir_path(a));
        assert(pg.drop_last() =~= self.dir_path(b));
        assert(pf.last() == self.files[f].name);
        assert(pg.last() == self.files[g].name);
        self.lemma_one_dir_per_path(a, b);
    }

    /// Models with the same tree give every directory the same path.
    pub proof fn lemma_same_tree_paths(self, other: ShelfView, k: int)
        requires
            self.same_tree(other),
        ensures
            self.dir_path(k) == other.dir_path(k),
        decreases k,
    {
        if self.has_parent(k) {
            self.lemma_same_tree_paths(other, self.dirs[k].parent);
        }
    }

    /// Two models with the same tree: the same directories under the same
    /// names and parents.
    pub open spec fn same_tree(self, other: ShelfView) -> bool {
        &&& self.dirs.len() == other.dirs.len()
        &&& forall|k: int|
            0 <= k < self.dirs.len() ==> (#[trigger] self.dirs[k]).parent == other.dirs[k].parent
                && self.dirs[k].name == other.dirs[k].name
    }

    pub proof fn lemma_same_tree_subtree(self, other: ShelfView, m: int, k: int)
        requires
            self.same_tree(other),
        ensures
            self.in_subtree(m, k) == other.in_subtree(m, k),
        decreases k,
    {
        if k != m && self.has_parent(k) {
            self.lemma_same_tree_subtree(other, m, self.dirs[k].parent);
        }
    }

    /// A directory in a subtree stands at or after the root of the subtree.
    pub proof fn lemma_subtree_order(self, m: int, k: int)
        requires
            self.in_subtree(m, k),
        ensures
            m <= k,
        decreases k,
    {
        if k != m {
            self.lemma_subtree_order(m, self.dirs[k].parent);
        }
    }

    /// Every directory lies below the root.
    pub proof fn lemma_root_subtree(self, k: int)
        requires
            self.tree_wf(),
            0 <= k < self.dirs.len(),
        ensures
            self.in_subtree(0, k),
        decreases k,
    {
        if k != 0 {
            self.lemma_root_subtree(self.dirs[k].parent);
        }
    }

    /// Below a directory that lies in the scope of a tag, everything does.
    pub proof fn lemma_covered_down(self, m: int, k: int, tag: u64)
        requires
            self.covered(m, tag),
            self.in_subtree(m, k),
            0 <= k < self.dirs.len(),
        ensures
            self.covered(k, tag),
        decreases k,
    {
        if k != m {
            self.lemma_covered_down(m, self.dirs[k].parent, tag);
        }
    }

    /// The closure at `n` lies below `n`, and what lies below `n` outside the
    /// closure is in the scope of a declaration of its own.
    pub proof fn lemma_closure(self, n: int, k: int, tag: u64)
        requires
            0 <= k < self.dirs.len(),
        ensures
            self.in_closure(n, k, tag) ==> self.in_subtree(n, k),
            self.in_subtree(n, k) && !self.in_closure(n, k, tag) ==> self.covered(k, tag),
        decreases k,
    {
        if k != n && self.has_parent(k) {
            self.lemma_closure(n, self.dirs[k].parent, tag);
        }
    }

    /// Going through `names` and then through `name` is going through
    /// `names` and taking the directory `name` from where that leads.
    pub proof fn lemma_walk_push(self, from: int, names: Seq<Seq<u8>>, name: Seq<u8>)
        ensures
            self.walk(from, names.push(name)) == match self.walk(from, names) {
                None => None,
                Some(n) => self.child(n, name),
            },
        decreases names.len(),
    {
        let all = names.push(name);
        if names.len() == 0 {
            assert(all.drop_first() =~= Seq::<Seq<u8>>::empty());
            assert(all[0] == name);
            match self.child(from, name) {
                None => {},
                Some(c) => {
                    assert(self.walk(c, all.drop_first()) == Some(c));
                },
            }
        } else {
            assert(all[0] == names[0]);
            assert(all.drop_first() =~= names.drop_first().push(name));
            match self.child(from, names[0]) {
                None => {},
                Some(c) => {
                    self.lemma_walk_push(c, names.drop_first(), name);
                },
            }
        }
    }

    /// What a directory holds under a name is the one directory below it
    /// with that name.
    pub proof fn lemma_child(self, from: int, name: Seq<u8>, c: int)
        requires
            self.tree_wf(),
        ensures
            (self.child(from, name) == Some(c)) == (0 < c < self.dirs.len()
                && self.dirs[c].parent == from && self.dirs[c].name == name),
    {
        let links = self.links();
        if link_at(links, from, name, c) {
            let d = choose|d: int| link_at(links, from, name, d);
            assert(self.dirs[d].parent == self.dirs[c].parent);
            assert(d == c);
        }
        if self.child(from, name) == Some(c) {
            assert(link_at(links, from, name, c));
        }
    }

    /// The path of a directory leads to it.
    pub proof fn lemma_path_leads(self, k: int)
        requires
            self.tree_wf(),
            0 <= k < self.dirs.len(),
        ensures
            self.walk(0, self.dir_path(k)) == Some(k),
        decreases k,
    {
        if k == 0 {
            assert(!self.has_parent(0));
        } else {
            let p = self.dirs[k].parent;
            assert(0 <= p < k);
            self.lemma_path_leads(p);
            self.lemma_walk_push(0, self.dir_path(p), self.dirs[k].name);
            self.lemma_child(p, self.dirs[k].name, k);
        }
    }

    /// Where a path leads from the root is the directory whose path it is.
    pub proof fn lemma_leads_by_path(self, names: Seq<Seq<u8>>, n: int)
        requires
            self.tree_wf(),
            self.walk(0, names) == Some(n),
        ensures
            0 <= n < self.dirs.len(),
            self.dir_path(n) == names,
        decreases names.len(),
    {
        if names.len() == 0 {
            assert(!self.has_parent(0));
            assert(self.dir_path(0) =~= names);
        } else {
            let front = names.drop_last();
            let name = names.last();
            assert(front.push(name) =~= names);
            self.lemma_walk_push(0, front, name);
            let p = self.walk(0, front)->0;
            self.lemma_leads_by_path(front, p);
            self.lemma_child(p, name, n);
            assert(self.has_parent(n));
        }
    }

    /// The law of paths: a path leads from the root to a directory exactly
    /// when it is the path of that directory.
    pub proof fn law_paths(self, names: Seq<Seq<u8>>, n: int)
        requires
            self.tree_wf(),
        ensures
            (self.walk(0, names) == Some(n)) == (0 <= n < self.dirs.len() && self.dir_path(n)
                == names),
    {
        if self.walk(0, names) == Some(n) {
            self.lemma_leads_by_path(names, n);
        }
        if 0 <= n < self.dirs.len() && self.dir_path(n) == names {
            self.lemma_path_leads(n);
        }
    }

    /// A directory holds a file under a name exactly when the file lies in
    /// it and has that name.
    pub proof fn lemma_file_in(self, dir: int, name: Seq<u8>, f: int)
        requires
            self.tree_wf(),
        ensures
            (self.file_in(dir, name) == Some(f)) == (0 <= f < self.files.len()
                && self.files[f].dir == dir && self.files[f].name == name),
    {
        let entries = self.entries();
        if entry_at(entries, dir, name, f) {
            let g = choose|g: int| entry_at(entries, dir, name, g);
            assert(self.files[g].dir == self.files[f].dir);
            assert(g == f);
        }
        if self.file_in(dir, name) == Some(f) {
            assert(entry_at(entries, dir, name, f));
        }
    }

    /// What lies below a directory lies below its parent.
    pub proof fn lemma_subtree_up(self, m: int, k: int)
        requires
            self.in_subtree(m, k),
            self.has_parent(m),
        ensures
            self.in_subtree(self.dirs[m].parent, k),
        decreases k,
    {
        let p = self.dirs[m].parent;
        if k != m {
            self.lemma_subtree_up(m, self.dirs[k].parent);
        } else {
            assert(self.in_subtree(p, p));
        }
    }

    /// The closure at `n` does not depend on what `n` itself declares.
    pub proof fn lemma_closure_frame(self, other: ShelfView, n: int, k: int, tag: u64)
        requires
            self.same_tree(other),
            forall|j: int|
                0 <= j < self.dirs.len() && j != n ==> (#[trigger] self.dirs[j]).dtags
                    == other.dirs[j].dtags,
        ensures
            self.in_closure(n, k, tag) == other.in_closure(n, k, tag),
        decreases k,
    {
        if k != n && self.has_parent(k) {
            self.lemma_closure_frame(other, n, self.dirs[k].parent, tag);
        }
    }

    /// The closure at a directory that does not declare the tag lies in the
    /// closure at its parent.
    pub proof fn lemma_closure_up(self, c: int, d: int, tag: u64)
        requires
            self.has_parent(c),
            !self.declares(c, tag),
            self.in_closure(c, d, tag),
        ensures
            self.in_closure(self.dirs[c].parent, d, tag),
        decreases d,
    {
        let k = self.dirs[c].parent;
        if d == c {
            assert(self.in_closure(k, k, tag));
        } else if d != k {
            self.lemma_closure_up(c, self.dirs[d].parent, tag);
        }
    }

    /// What lies in the closure at `k`, other than `k` itself, lies in the
    /// closure at a directory right below `k` that does not declare the tag.
    pub proof fn lemma_closure_down(self, k: int, d: int, tag: u64) -> (c: int)
        requires
            self.in_closure(k, d, tag),
            d != k,
        ensures
            self.has_parent(c),
            self.dirs[c].parent == k,
            !self.declares(c, tag),
            self.in_closure(c, d, tag),
        decreases d,
    {
        let p = self.dirs[d].parent;
        if p == k {
            d
        } else {
            let c = self.lemma_closure_down(k, p, tag);
            c
        }
    }

    /// Declaring `tag` at `n` brings the subtree of `n` into its scope, and
    /// changes the scope of no other tag.
    pub proof fn lemma_with_dtag(self, n: int, tag: u64, k: int, t: u64)
        requires
            0 <= n < self.dirs.len(),
            0 <= k < self.dirs.len(),
        ensures
            self.with_dtag(n, tag).same_tree(self),
            t != tag ==> self.with_dtag(n, tag).covered(k, t) == self.covered(k, t),
            self.with_dtag(n, tag).covered(k, tag) == (self.covered(k, tag) || self.in_subtree(
                n,
                k,
            )),
        decreases k,
    {
        let w = self.with_dtag(n, tag);
        if self.has_parent(k) {
            self.lemma_with_dtag(n, tag, self.dirs[k].parent, t);
        }
        assert(w.has_parent(k) == self.has_parent(k));
        assert(w.declares(k, t) == (self.declares(k, t) || (k == n && t == tag)));
        assert(w.declares(k, tag) == (self.declares(k, tag) || k == n));
    }

    /// Withdrawing the declaration of `tag` at `n`, where no directory above
    /// `n` declares it, takes the closure of `tag` at `n` out of its scope,
    /// and changes the scope of no other tag.
    pub proof fn lemma_without_dtag(self, n: int, tag: u64, k: int, t: u64)
        requires
            0 <= n < self.dirs.len(),
            0 <= k < self.dirs.len(),
            !self.shadowed(n, tag),
        ensures
            self.without_dtag(n, tag).same_tree(self),
            t != tag ==> self.without_dtag(n, tag).covered(k, t) == self.covered(k, t),
            self.without_dtag(n, tag).covered(k, tag) == (self.covered(k, tag)
                && !self.in_closure(n, k, tag)),
        decreases k,
    {
        let w = self.without_dtag(n, tag);
        if self.has_parent(k) {
            self.lemma_without_dtag(n, tag, self.dirs[k].parent, t);
        }
        assert(w.has_parent(k) == self.has_parent(k));
        assert(w.declares(k, t) == (self.declares(k, t) && !(k == n && t == tag)));
        assert(w.declares(k, tag) == (self.declares(k, tag) && k != n));
    }

    /// Where a directory above `n` declares `tag`, a declaration at `n`
    /// changes no scope, whether it is made or withdrawn.
    pub proof fn lemma_shadowed(self, n: int, tag: u64, k: int, t: u64)
        requires
            0 <= n < self.dirs.len(),
            0 <= k < self.dirs.len(),
            self.shadowed(n, tag),
        ensures
            self.without_dtag(n, tag).same_tree(self),
            self.without_dtag(n, tag).covered(k, t) == self.covered(k, t),
            self.with_dtag(n, tag).covered(k, t) == self.covered(k, t),
        decreases k,
    {
        let w = self.without_dtag(n, tag);
        let a = self.with_dtag(n, tag);
        if self.has_parent(k) {
            self.lemma_shadowed(n, tag, self.dirs[k].parent, t);
        }
        assert(w.has_parent(k) == self.has_parent(k));
        assert(a.has_parent(k) == self.has_parent(k));
        assert(w.declares(k, t) == (self.declares(k, t) && !(k == n && t == tag)));
        assert(a.declares(k, t) == (self.declares(k, t) || (k == n && t == tag)));
    }
}

} // verus!
