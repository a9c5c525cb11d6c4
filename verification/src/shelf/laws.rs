//! What holds of the operations of a shelf, whatever the shelf.
//!
//! The operations are given by what they do to the model (`with_tag`,
//! `without_tag`, `with_dtag`, `without_dtag`); the indexes, closures and
//! marks of a shelf in order are functions of its model.

use crate::shelf::model::{ShelfView, UpdateErr};
use vstd::prelude::*;

verus! {

/// Putting a tag on a file or taking one off changes no path: every path
/// names the file it named before.
pub proof fn lemma_tags_keep_paths(v: ShelfView, f: int, tag: u64, path: Seq<Seq<u8>>)
    requires
        0 <= f < v.files.len(),
    ensures
        v.with_tag(f, tag).locate_file(path) == v.locate_file(path),
        v.without_tag(f, tag).locate_file(path) == v.locate_file(path),
{
    assert(v.with_tag(f, tag).entries() =~= v.entries());
    assert(v.without_tag(f, tag).entries() =~= v.entries());
}

/// Attaching a tag twice is attaching it once: after the first time the
/// path still names the file, the file carries the tag, so that the second
/// time reports no change, and the shelf is left as the first time left it.
pub proof fn law_attach_twice(v: ShelfView, path: Seq<Seq<u8>>, tag: u64)
    requires
        v.locate_file(path) is Ok,
    ensures
        ({
            let f = v.locate_file(path)->Ok_0;
            let once = v.with_tag(f, tag);
            &&& once.locate_file(path) == Ok::<int, UpdateErr>(f)
            &&& once.files[f].tags.contains(tag)
            &&& once.with_tag(f, tag) == once
        }),
{
    let f = v.locate_file(path)->Ok_0;
    let once = v.with_tag(f, tag);
    lemma_tags_keep_paths(v, f, tag, path);
    let twice = once.with_tag(f, tag);
    assert(once.files[f].tags.insert(tag) =~= once.files[f].tags);
    assert(twice.files =~= once.files);
}

/// Detaching a tag from a file that did not carry it before it was attached
/// restores the shelf as it was before the attaching, and with it every
/// index.
pub proof fn law_detach_undoes_attach(v: ShelfView, path: Seq<Seq<u8>>, tag: u64)
    requires
        v.locate_file(path) is Ok,
        !v.files[v.locate_file(path)->Ok_0].tags.contains(tag),
    ensures
        ({
            let f = v.locate_file(path)->Ok_0;
            let once = v.with_tag(f, tag);
            &&& once.locate_file(path) == Ok::<int, UpdateErr>(f)
            &&& once.files[f].tags.contains(tag)
            &&& once.without_tag(f, tag) == v
            &&& forall|n: int, t: u64| once.without_tag(f, tag).node_tags(n, t) == v.node_tags(n, t)
        }),
{
    let f = v.locate_file(path)->Ok_0;
    let once = v.with_tag(f, tag);
    lemma_tags_keep_paths(v, f, tag, path);
    let back = once.without_tag(f, tag);
    assert(v.files[f].tags.insert(tag).remove(tag) =~= v.files[f].tags);
    assert(back.files =~= v.files);
}

/// Detaching a tag that the file does not carry changes nothing, and
/// attaching one that it carries changes nothing.
pub proof fn law_no_change(v: ShelfView, f: int, tag: u64)
    requires
        0 <= f < v.files.len(),
    ensures
        !v.files[f].tags.contains(tag) ==> v.without_tag(f, tag) == v,
        v.files[f].tags.contains(tag) ==> v.with_tag(f, tag) == v,
{
    if !v.files[f].tags.contains(tag) {
        assert(v.files[f].tags.remove(tag) =~= v.files[f].tags);
        assert(v.without_tag(f, tag).files =~= v.files);
    } else {
        assert(v.files[f].tags.insert(tag) =~= v.files[f].tags);
        assert(v.with_tag(f, tag).files =~= v.files);
    }
}

/// Shadowing. Let directory `b` lie below directory `a`, and let both
/// declare `tag`. Withdrawing the declaration at `a` leaves every file in and
/// below `b` among the files retrieved for the tag; withdrawing the one at
/// `b` leaves every file in and below `a` among them.
pub proof fn law_shadowing(v: ShelfView, a: int, b: int, tag: u64, f: u64)
    requires
        v.tree_wf(),
        0 <= a < v.dirs.len(),
        0 <= b < v.dirs.len(),
        a != b,
        v.in_subtree(a, b),
        v.declares(a, tag),
        v.declares(b, tag),
        f < v.files.len(),
    ensures
        v.in_subtree(b, v.files[f as int].dir) ==> v.without_dtag(a, tag).retrieve(tag).contains(f),
        v.in_subtree(a, v.files[f as int].dir) ==> v.without_dtag(b, tag).retrieve(tag).contains(f),
{
    let d = v.files[f as int].dir;
    assert(0 <= d < v.dirs.len());
    v.lemma_root_subtree(d);
    if v.in_subtree(b, d) {
        let w = v.without_dtag(a, tag);
        assert(w.same_tree(v));
        w.lemma_same_tree_subtree(v, b, d);
        w.lemma_same_tree_subtree(v, 0, d);
        assert(w.declares(b, tag));
        w.lemma_covered_down(b, d, tag);
        assert(w.node_dtag_files(0, tag).contains(f));
    }
    if v.in_subtree(a, d) {
        let w = v.without_dtag(b, tag);
        assert(w.same_tree(v));
        w.lemma_same_tree_subtree(v, a, d);
        w.lemma_same_tree_subtree(v, 0, d);
        assert(w.declares(a, tag));
        w.lemma_covered_down(a, d, tag);
        assert(w.node_dtag_files(0, tag).contains(f));
    }
}

/// A directory tag covers exactly the files in and below the directories
/// that declare it: the closure cached at the root holds a file exactly when
/// its directory, or one above it, declares the tag.
pub proof fn law_closure_at_root(v: ShelfView, tag: u64, f: u64)
    requires
        v.tree_wf(),
        f < v.files.len(),
    ensures
        v.node_dtag_files(0, tag).contains(f) == v.covered(v.files[f as int].dir, tag),
{
    v.lemma_root_subtree(v.files[f as int].dir);
}

/// A path that names a file names the file whose path under the root it
/// is.
pub proof fn lemma_located_by_path(v: ShelfView, path: Seq<Seq<u8>>, f: int)
    requires
        v.tree_wf(),
        v.locate_file(path) == Ok::<int, UpdateErr>(f),
    ensures
        0 <= f < v.files.len(),
        v.root + v.file_path(f) == path,
{
    let rest = path.skip(v.root.len() as int);
    let n = v.walk(0, rest.drop_last())->0;
    v.lemma_leads_by_path(rest.drop_last(), n);
    v.lemma_file_in(n, path.last(), f);
    assert(rest.last() == path.last());
    assert(v.file_path(f) =~= rest);
    assert(path.take(v.root.len() as int) + rest =~= path);
}

/// A path that names a directory names the directory whose path under the
/// root it is.
pub proof fn lemma_located_dir_by_path(v: ShelfView, path: Seq<Seq<u8>>, n: int)
    requires
        v.tree_wf(),
        v.locate_dir(path) == Ok::<int, UpdateErr>(n),
    ensures
        0 <= n < v.dirs.len(),
        v.root + v.dir_path(n) == path,
{
    let rest = path.skip(v.root.len() as int);
    v.lemma_leads_by_path(rest, n);
    assert(path.take(v.root.len() as int) + rest =~= path);
}

/// Reconciling keeps the tags of what is still there. Where a path names a
/// file before, and names a file of the fresh scan, which gives it no tags
/// of its own, it names that file afterwards, and the file carries the tags
/// that the file of that path carried before.
pub proof fn law_refresh_keeps_tags(v: ShelfView, scan: ShelfView, path: Seq<Seq<u8>>)
    requires
        v.tree_wf(),
        scan.tree_wf(),
        v.root == scan.root,
        v.locate_file(path) is Ok,
        scan.locate_file(path) is Ok,
        scan.files[scan.locate_file(path)->Ok_0].tags == Set::<u64>::empty(),
    ensures
        v.refresh(scan).locate_file(path) == scan.locate_file(path),
        v.refresh(scan).files[scan.locate_file(path)->Ok_0].tags
            == v.files[v.locate_file(path)->Ok_0].tags,
{
    let f = v.locate_file(path)->Ok_0;
    let g = scan.locate_file(path)->Ok_0;
    let r = v.refresh(scan);
    lemma_located_by_path(v, path, f);
    lemma_located_by_path(scan, path, g);
    assert(r.links() =~= scan.links());
    assert(r.entries() =~= scan.entries());
    assert(v.file_path(f) =~= path.skip(v.root.len() as int));
    assert(scan.file_path(g) =~= path.skip(v.root.len() as int));
    let have = r.files[g].tags;
    let want = v.files[f].tags;
    assert forall|t: u64| have.contains(t) == want.contains(t) by {
        if v.carries(scan, g, t, v.files.len() as int) {
            let i = choose|i: int|
                0 <= i < v.files.len() && i < v.files.len() && v.files[i].tags.contains(t) && (
                #[trigger] v.file_path(i)) == scan.file_path(g);
            v.lemma_one_file_per_path(i, f);
        }
        if want.contains(t) {
            assert(v.file_path(f) == scan.file_path(g));
            assert(v.carries(scan, g, t, v.files.len() as int));
        }
    }
    assert(have =~= want);
}

/// Reconciling keeps the declarations of what is still there. Where a path
/// names a directory before, and names a directory of the fresh scan, which
/// gives it no declarations of its own, it names that directory afterwards,
/// and the directory declares the tags that the directory of that path
/// declared before.
pub proof fn law_refresh_keeps_dtags(v: ShelfView, scan: ShelfView, path: Seq<Seq<u8>>)
    requires
        v.tree_wf(),
        scan.tree_wf(),
        v.root == scan.root,
        v.locate_dir(path) is Ok,
        scan.locate_dir(path) is Ok,
        scan.dirs[scan.locate_dir(path)->Ok_0].dtags == Set::<u64>::empty(),
    ensures
        v.refresh(scan).locate_dir(path) == scan.locate_dir(path),
        v.refresh(scan).dirs[scan.locate_dir(path)->Ok_0].dtags
            == v.dirs[v.locate_dir(path)->Ok_0].dtags,
{
    let m = v.locate_dir(path)->Ok_0;
    let n = scan.locate_dir(path)->Ok_0;
    let r = v.refresh(scan);
    lemma_located_dir_by_path(v, path, m);
    lemma_located_dir_by_path(scan, path, n);
    assert(r.links() =~= scan.links());
    assert(v.dir_path(m) =~= path.skip(v.root.len() as int));
    assert(scan.dir_path(n) =~= path.skip(v.root.len() as int));
    let have = r.dirs[n].dtags;
    let want = v.dirs[m].dtags;
    assert forall|t: u64| have.contains(t) == want.contains(t) by {
        if v.declared(scan, n, t, v.dirs.len() as int) {
            let i = choose|i: int|
                0 <= i < v.dirs.len() && i < v.dirs.len() && v.dirs[i].dtags.contains(t) && (
                #[trigger] v.dir_path(i)) == scan.dir_path(n);
            v.lemma_one_dir_per_path(i, m);
        }
        if want.contains(t) {
            assert(v.dir_path(m) == scan.dir_path(n));
            assert(v.declared(scan, n, t, v.dirs.len() as int));
        }
    }
    assert(have =~= want);
}

/// Reconciling retires what is gone: afterwards the shelf has the
/// directories and the files of the fresh scan and no others, each in its
/// place, with the metadata of the scan.
pub proof fn law_refresh_retires(v: ShelfView, scan: ShelfView)
    ensures
        v.refresh(scan).root == scan.root,
        v.refresh(scan).same_tree(scan),
        v.refresh(scan).files.len() == scan.files.len(),
        forall|g: int|
            0 <= g < scan.files.len() ==> {
                &&& (#[trigger] v.refresh(scan).files[g]).dir == scan.files[g].dir
                &&& v.refresh(scan).files[g].name == scan.files[g].name
                &&& v.refresh(scan).files[g].path == scan.files[g].path
                &&& v.refresh(scan).files[g].metadata == scan.files[g].metadata
            },
{
}

} // verus!
