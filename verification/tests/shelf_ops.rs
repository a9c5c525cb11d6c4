use file_manager::idset::IdSet;
use file_manager::shelf::file::{FileMetadata, FileRef};
use file_manager::shelf::model::UpdateErr;
use file_manager::shelf::shelf::Shelf;
use file_manager::tag::TagRef;

fn meta(size: u64) -> FileMetadata {
    FileMetadata {
        size,
        readonly: false,
        modified: None,
        accessed: None,
        created: None,
        unix: None,
        windows: None,
    }
}

/// `/r` with `a.txt` (0), `b.txt` (1) and `sub/c.txt` (2).
fn sample() -> Shelf {
    let mut shelf = Shelf::new("/r");
    assert_eq!(shelf.add_file("/r/a.txt", meta(1)), Ok(FileRef { id: 0 }));
    assert_eq!(shelf.add_file("/r/b.txt", meta(2)), Ok(FileRef { id: 1 }));
    assert_eq!(shelf.add_dir("/r/sub"), Ok(true));
    assert_eq!(shelf.add_file("/r/sub/c.txt", meta(3)), Ok(FileRef { id: 2 }));
    shelf
}

/// `/r` with `f0` (0), `A/f1` (1), `A/B/f2` (2), `A/B/C/f3` (3), `A/D/f4` (4), `E/f5` (5).
fn deep() -> Shelf {
    let mut shelf = Shelf::new("/r");
    for dir in ["/r/A", "/r/A/B", "/r/A/B/C", "/r/A/D", "/r/E"] {
        assert_eq!(shelf.add_dir(dir), Ok(true));
    }
    let files = ["/r/f0", "/r/A/f1", "/r/A/B/f2", "/r/A/B/C/f3", "/r/A/D/f4", "/r/E/f5"];
    for (i, path) in files.iter().enumerate() {
        assert_eq!(shelf.add_file(path, meta(i as u64)), Ok(FileRef { id: i as u64 }));
    }
    shelf
}

fn sorted(set: &IdSet) -> Vec<u64> {
    let mut v: Vec<u64> = (0..set.len()).map(|i| set.get(i)).collect();
    v.sort();
    v
}

fn ids(shelf: &Shelf, tag: u64) -> Vec<u64> {
    sorted(&shelf.retrieve(TagRef { id: tag }))
}

fn closure(shelf: &Shelf, dir: &str, tag: u64) -> Vec<u64> {
    sorted(&shelf.closure_in(dir, TagRef { id: tag }).unwrap())
}

fn tagged(shelf: &Shelf, dir: &str, tag: u64) -> Vec<u64> {
    sorted(&shelf.tagged_in(dir, TagRef { id: tag }).unwrap())
}

fn marks(shelf: &Shelf, tag: u64) -> Vec<u64> {
    (0..shelf.file_count() as u64)
        .filter(|&f| shelf.file(FileRef { id: f }).unwrap().has_dtag(TagRef { id: tag }))
        .collect()
}

/// Everything that can be seen of the tags of a shelf, for tags 0 to 9.
fn snapshot(shelf: &Shelf, dirs: &[&str]) -> Vec<Vec<u64>> {
    let mut out = Vec::new();
    for tag in 0..10u64 {
        out.push(ids(shelf, tag));
        out.push(marks(shelf, tag));
        out.push(
            (0..shelf.file_count() as u64)
                .filter(|&f| shelf.file(FileRef { id: f }).unwrap().has_tag(TagRef { id: tag }))
                .collect(),
        );
        for dir in dirs {
            out.push(tagged(shelf, dir, tag));
            out.push(closure(shelf, dir, tag));
            out.push(vec![shelf.declares(dir, TagRef { id: tag }).unwrap() as u64]);
        }
    }
    out
}

const DEEP_DIRS: [&str; 6] = ["/r", "/r/A", "/r/A/B", "/r/A/B/C", "/r/A/D", "/r/E"];

#[test]
fn attach_reports_whether_the_tag_is_new() {
    let mut shelf = sample();
    let x = TagRef { id: 7 };
    assert_eq!(shelf.attach("/r/a.txt", x), Ok(true));
    assert_eq!(shelf.attach("/r/a.txt", x), Ok(false));
    assert_eq!(ids(&shelf, 7), vec![0]);
    assert_eq!(tagged(&shelf, "/r", 7), vec![0]);
    assert!(shelf.file(FileRef { id: 0 }).unwrap().has_tag(x));
    assert_eq!(shelf.detach(Some("/r/a.txt"), x), Ok(true));
    assert_eq!(shelf.detach(Some("/r/a.txt"), x), Ok(false));
    assert_eq!(ids(&shelf, 7), Vec::<u64>::new());
    assert!(!shelf.file(FileRef { id: 0 }).unwrap().has_tag(x));
}

#[test]
fn attach_twice_is_attach_once() {
    let mut once = deep();
    let mut twice = deep();
    let x = TagRef { id: 3 };
    assert_eq!(once.attach("/r/A/B/f2", x), Ok(true));
    assert_eq!(twice.attach("/r/A/B/f2", x), Ok(true));
    assert_eq!(twice.attach("/r/A/B/f2", x), Ok(false));
    assert_eq!(snapshot(&once, &DEEP_DIRS), snapshot(&twice, &DEEP_DIRS));
}

#[test]
fn detach_after_attach_restores_the_indexes() {
    let mut shelf = deep();
    shelf.attach("/r/A/f1", TagRef { id: 1 }).unwrap();
    shelf.attach_dtag("/r/A/B", TagRef { id: 2 }).unwrap();
    let before = snapshot(&shelf, &DEEP_DIRS);
    let x = TagRef { id: 3 };
    assert_eq!(shelf.attach("/r/A/B/f2", x), Ok(true));
    assert_eq!(tagged(&shelf, "/r/A/B", 3), vec![2]);
    assert_ne!(snapshot(&shelf, &DEEP_DIRS), before);
    assert_eq!(shelf.detach(Some("/r/A/B/f2"), x), Ok(true));
    assert_eq!(snapshot(&shelf, &DEEP_DIRS), before);
}

#[test]
fn attach_on_a_missing_path_fails() {
    let mut shelf = sample();
    let x = TagRef { id: 7 };
    assert_eq!(shelf.attach("/r/nope/a.txt", x), Err(UpdateErr::PathNotFound));
    assert_eq!(shelf.attach("/other/a.txt", x), Err(UpdateErr::PathNotFound));
    assert_eq!(shelf.attach("/r/zzz.txt", x), Err(UpdateErr::FileNotFound));
    assert_eq!(shelf.attach("/r", x), Err(UpdateErr::FileNotFound));
    assert_eq!(shelf.attach("/r/sub", x), Err(UpdateErr::FileNotFound));
    assert_eq!(shelf.detach(Some("/r/sub/zzz.txt"), x), Err(UpdateErr::FileNotFound));
    assert_eq!(shelf.detach(Some("/r/a.txt/x"), x), Err(UpdateErr::PathNotFound));
    assert_eq!(ids(&shelf, 7), Vec::<u64>::new());
}

#[test]
fn failed_operations_change_nothing() {
    let mut shelf = deep();
    shelf.attach("/r/A/f1", TagRef { id: 1 }).unwrap();
    shelf.attach_dtag("/r/A/B", TagRef { id: 2 }).unwrap();
    let before = snapshot(&shelf, &DEEP_DIRS);
    for tag in [1u64, 2, 5] {
        let t = TagRef { id: tag };
        assert_eq!(shelf.attach("/r/A/X/f1", t), Err(UpdateErr::PathNotFound));
        assert_eq!(shelf.attach("/r/A/B/C/nope", t), Err(UpdateErr::FileNotFound));
        assert_eq!(shelf.detach(Some("/q/A/f1"), t), Err(UpdateErr::PathNotFound));
        assert_eq!(shelf.detach(Some("/r/A/B/nope"), t), Err(UpdateErr::FileNotFound));
        assert_eq!(shelf.attach_dtag("/r/A/B/Z", t), Err(UpdateErr::PathNotFound));
        assert_eq!(shelf.detach_dtag("/r/A/f1", t), Err(UpdateErr::PathNotFound));
        assert_eq!(shelf.detach_dtag("/elsewhere", t), Err(UpdateErr::PathNotFound));
    }
    assert_eq!(snapshot(&shelf, &DEEP_DIRS), before);
    assert_eq!(shelf.file_count(), 6);
    assert_eq!(shelf.dir_count(), 6);
}

#[test]
fn retrieve_joins_the_root_index_and_the_root_closure() {
    let mut shelf = deep();
    let x = TagRef { id: 4 };
    shelf.attach("/r/f0", x).unwrap();
    shelf.attach("/r/E/f5", x).unwrap();
    shelf.attach_dtag("/r/A/D", x).unwrap();
    // the index of the root holds the root's own files only
    assert_eq!(tagged(&shelf, "/r", 4), vec![0]);
    assert_eq!(tagged(&shelf, "/r/E", 4), vec![5]);
    assert_eq!(closure(&shelf, "/r", 4), vec![4]);
    assert_eq!(ids(&shelf, 4), vec![0, 4]);
}

#[test]
fn detach_everywhere() {
    let mut shelf = deep();
    let x = TagRef { id: 4 };
    let y = TagRef { id: 5 };
    shelf.attach("/r/f0", x).unwrap();
    shelf.attach("/r/A/B/f2", x).unwrap();
    shelf.attach("/r/E/f5", x).unwrap();
    shelf.attach("/r/E/f5", y).unwrap();
    shelf.attach_dtag("/r/A", x).unwrap();
    assert_eq!(shelf.detach(None, x), Ok(true));
    assert_eq!(shelf.detach(None, x), Ok(false));
    for f in 0..6 {
        assert!(!shelf.file(FileRef { id: f }).unwrap().has_tag(x));
    }
    for dir in DEEP_DIRS {
        assert_eq!(tagged(&shelf, dir, 4), Vec::<u64>::new());
    }
    // directory tags and other tags stay
    assert_eq!(ids(&shelf, 4), vec![1, 2, 3, 4]);
    assert_eq!(tagged(&shelf, "/r/E", 5), vec![5]);
    // a tag that only a file below the root carries was in use
    let z = TagRef { id: 6 };
    shelf.attach("/r/A/B/C/f3", z).unwrap();
    assert_eq!(shelf.detach(None, z), Ok(true));
    assert_eq!(shelf.detach(None, TagRef { id: 9 }), Ok(false));
}

#[test]
fn directory_tag_covers_the_subtree() {
    let mut shelf = sample();
    let z = TagRef { id: 9 };
    assert_eq!(shelf.attach_dtag("/r/sub", z), Ok(true));
    assert_eq!(ids(&shelf, 9), vec![2]);
    assert!(shelf.file(FileRef { id: 2 }).unwrap().has_dtag(z));
    assert_eq!(shelf.declares("/r/sub", z), Ok(true));
    assert_eq!(shelf.declares("/r", z), Ok(false));
    assert_eq!(shelf.attach_dtag("/r/sub", z), Ok(false));
    assert_eq!(ids(&shelf, 9), vec![2]);
    assert_eq!(shelf.detach_dtag("/r/sub", z), Ok(true));
    assert_eq!(ids(&shelf, 9), Vec::<u64>::new());
    assert!(!shelf.file(FileRef { id: 2 }).unwrap().has_dtag(z));
    assert_eq!(shelf.detach_dtag("/r/sub", z), Ok(false));
}

#[test]
fn closures_are_cached_at_every_node_up_to_the_root() {
    let mut shelf = deep();
    let x = TagRef { id: 1 };
    assert_eq!(shelf.attach_dtag("/r/A", x), Ok(true));
    assert_eq!(closure(&shelf, "/r", 1), vec![1, 2, 3, 4]);
    assert_eq!(closure(&shelf, "/r/A", 1), vec![1, 2, 3, 4]);
    assert_eq!(closure(&shelf, "/r/A/B", 1), vec![2, 3]);
    assert_eq!(closure(&shelf, "/r/A/B/C", 1), vec![3]);
    assert_eq!(closure(&shelf, "/r/A/D", 1), vec![4]);
    assert_eq!(closure(&shelf, "/r/E", 1), Vec::<u64>::new());
    assert_eq!(marks(&shelf, 1), vec![1, 2, 3, 4]);
    assert_eq!(shelf.detach_dtag("/r/A", x), Ok(true));
    for dir in DEEP_DIRS {
        assert_eq!(closure(&shelf, dir, 1), Vec::<u64>::new());
    }
    assert_eq!(marks(&shelf, 1), Vec::<u64>::new());
}

#[test]
fn directory_tag_at_the_root() {
    let mut shelf = deep();
    let x = TagRef { id: 1 };
    assert_eq!(shelf.attach_dtag("/r", x), Ok(true));
    assert_eq!(ids(&shelf, 1), vec![0, 1, 2, 3, 4, 5]);
    // below a declaration a second one changes no closure
    assert_eq!(shelf.attach_dtag("/r/A", x), Ok(true));
    assert_eq!(ids(&shelf, 1), vec![0, 1, 2, 3, 4, 5]);
    assert_eq!(shelf.detach_dtag("/r/A", x), Ok(true));
    assert_eq!(ids(&shelf, 1), vec![0, 1, 2, 3, 4, 5]);
    assert_eq!(shelf.detach_dtag("/r", x), Ok(true));
    assert_eq!(ids(&shelf, 1), Vec::<u64>::new());
}

#[test]
fn nested_declaration_is_a_scope_of_its_own() {
    // declared at A, then again at A/B
    let mut shelf = deep();
    let x = TagRef { id: 1 };
    assert_eq!(shelf.attach_dtag("/r/A", x), Ok(true));
    assert_eq!(shelf.attach_dtag("/r/A/B", x), Ok(true));
    assert_eq!(ids(&shelf, 1), vec![1, 2, 3, 4]);
    // withdrawn at A: what lies in and below B stays covered
    assert_eq!(shelf.detach_dtag("/r/A", x), Ok(true));
    assert_eq!(ids(&shelf, 1), vec![2, 3]);
    assert_eq!(closure(&shelf, "/r/A", 1), vec![2, 3]);
    assert_eq!(closure(&shelf, "/r/A/D", 1), Vec::<u64>::new());
    assert_eq!(marks(&shelf, 1), vec![2, 3]);
    assert_eq!(shelf.detach_dtag("/r/A/B", x), Ok(true));
    assert_eq!(ids(&shelf, 1), Vec::<u64>::new());
}

#[test]
fn nested_declaration_made_first() {
    // declared at A/B, then at A
    let mut shelf = deep();
    let x = TagRef { id: 1 };
    assert_eq!(shelf.attach_dtag("/r/A/B", x), Ok(true));
    assert_eq!(ids(&shelf, 1), vec![2, 3]);
    assert_eq!(shelf.attach_dtag("/r/A", x), Ok(true));
    assert_eq!(ids(&shelf, 1), vec![1, 2, 3, 4]);
    // withdrawn at B: A still covers what lies below it
    assert_eq!(shelf.detach_dtag("/r/A/B", x), Ok(true));
    assert_eq!(ids(&shelf, 1), vec![1, 2, 3, 4]);
    assert_eq!(marks(&shelf, 1), vec![1, 2, 3, 4]);
    assert_eq!(shelf.detach_dtag("/r/A", x), Ok(true));
    assert_eq!(ids(&shelf, 1), Vec::<u64>::new());
    assert_eq!(marks(&shelf, 1), Vec::<u64>::new());
}

#[test]
fn withdrawing_what_was_not_declared_changes_nothing() {
    let mut shelf = deep();
    let x = TagRef { id: 1 };
    shelf.attach_dtag("/r/A/B", x).unwrap();
    let before = snapshot(&shelf, &DEEP_DIRS);
    assert_eq!(shelf.detach_dtag("/r/A", x), Ok(false));
    assert_eq!(shelf.detach_dtag("/r/A/B/C", x), Ok(false));
    assert_eq!(shelf.detach_dtag("/r", x), Ok(false));
    assert_eq!(snapshot(&shelf, &DEEP_DIRS), before);
}

#[test]
fn direct_and_directory_tags_are_independent() {
    let mut shelf = sample();
    let x = TagRef { id: 2 };
    shelf.attach("/r/sub/c.txt", x).unwrap();
    shelf.attach_dtag("/r/sub", x).unwrap();
    let c = shelf.file(FileRef { id: 2 }).unwrap();
    assert!(c.has_tag(x) && c.has_dtag(x));
    shelf.detach_dtag("/r/sub", x).unwrap();
    let c = shelf.file(FileRef { id: 2 }).unwrap();
    assert!(c.has_tag(x) && !c.has_dtag(x));
    assert_eq!(tagged(&shelf, "/r/sub", 2), vec![2]);
}

#[test]
fn a_new_file_inherits_the_directory_tags_above_it() {
    let mut shelf = deep();
    let x = TagRef { id: 1 };
    let y = TagRef { id: 2 };
    shelf.attach_dtag("/r/A", x).unwrap();
    shelf.attach_dtag("/r/A/B", y).unwrap();
    shelf.attach_dtag("/r/E", y).unwrap();
    assert_eq!(shelf.add_file("/r/A/B/new", meta(9)), Ok(FileRef { id: 6 }));
    let new = shelf.file(FileRef { id: 6 }).unwrap();
    assert!(new.has_dtag(x) && new.has_dtag(y));
    assert_eq!(closure(&shelf, "/r", 1), vec![1, 2, 3, 4, 6]);
    assert_eq!(closure(&shelf, "/r/A/B", 1), vec![2, 3, 6]);
    assert_eq!(closure(&shelf, "/r/A/B/C", 1), vec![3]);
    assert_eq!(closure(&shelf, "/r", 2), vec![2, 3, 5, 6]);
    assert_eq!(shelf.add_dir("/r/A/B/fresh"), Ok(true));
    assert_eq!(closure(&shelf, "/r/A/B/fresh", 1), Vec::<u64>::new());
    assert_eq!(shelf.add_file("/r/A/B/fresh/f", meta(9)), Ok(FileRef { id: 7 }));
    assert_eq!(closure(&shelf, "/r/A/B/fresh", 1), vec![7]);
    assert_eq!(ids(&shelf, 2), vec![2, 3, 5, 6, 7]);
}

#[test]
fn building_the_tree() {
    let mut shelf = Shelf::new("/home/me");
    assert_eq!(shelf.dir_count(), 1);
    assert_eq!(shelf.file_count(), 0);
    assert_eq!(shelf.add_dir("/home/me"), Ok(false));
    assert_eq!(shelf.add_dir("/home/me/docs"), Ok(true));
    assert_eq!(shelf.add_dir("/home/me/docs"), Ok(false));
    assert_eq!(shelf.add_dir("/home/me//docs/"), Ok(false));
    assert_eq!(shelf.add_dir("/home/me/x/y"), Err(UpdateErr::PathNotFound));
    assert_eq!(shelf.add_dir("/home/you/docs"), Err(UpdateErr::PathNotFound));
    assert_eq!(shelf.add_dir("/home"), Err(UpdateErr::PathNotFound));
    assert_eq!(shelf.add_file("/home/me", meta(0)), Err(UpdateErr::FileNotFound));
    assert_eq!(shelf.add_file("/home/me/x/f", meta(0)), Err(UpdateErr::PathNotFound));
    assert_eq!(shelf.add_file("/home/me/docs/f", meta(5)), Ok(FileRef { id: 0 }));
    assert_eq!(shelf.add_file("/home/me/docs/f", meta(6)), Ok(FileRef { id: 0 }));
    assert_eq!(shelf.add_file("home/me/docs//g", meta(7)), Ok(FileRef { id: 1 }));
    assert_eq!(shelf.dir_count(), 2);
    assert_eq!(shelf.file_count(), 2);
    assert_eq!(shelf.find("/home/me/docs/f"), Ok(FileRef { id: 0 }));
    assert_eq!(shelf.find("/home/me/docs/g"), Ok(FileRef { id: 1 }));
    assert_eq!(shelf.find("/home/me/docs/h"), Err(UpdateErr::FileNotFound));
    assert_eq!(shelf.find("/home/me/docs"), Err(UpdateErr::FileNotFound));
    let f = shelf.file(FileRef { id: 0 }).unwrap();
    assert_eq!(f.path(), "/home/me/docs/f");
    assert_eq!(f.name(), &b"f".to_vec());
    assert_eq!(f.metadata().size, 5);
    assert!(shelf.file(FileRef { id: 2 }).is_none());
    assert_eq!(sorted(&shelf.get_all()), vec![0, 1]);
}

#[test]
fn a_file_and_a_directory_may_share_a_name() {
    let mut shelf = Shelf::new("/r");
    assert_eq!(shelf.add_dir("/r/x"), Ok(true));
    assert_eq!(shelf.add_file("/r/x", meta(0)), Ok(FileRef { id: 0 }));
    assert_eq!(shelf.add_file("/r/x/y", meta(0)), Ok(FileRef { id: 1 }));
    assert_eq!(shelf.attach("/r/x", TagRef { id: 0 }), Ok(true));
    assert_eq!(shelf.attach_dtag("/r/x", TagRef { id: 0 }), Ok(true));
    assert_eq!(ids(&shelf, 0), vec![0, 1]);
}

#[test]
fn refresh_keeps_the_tags_of_what_is_still_there() {
    let mut shelf = deep();
    let (x, y, z) = (TagRef { id: 1 }, TagRef { id: 2 }, TagRef { id: 3 });
    shelf.attach("/r/f0", x).unwrap();
    shelf.attach("/r/A/B/f2", x).unwrap();
    shelf.attach("/r/A/B/f2", y).unwrap();
    shelf.attach("/r/A/D/f4", y).unwrap();
    shelf.attach("/r/E/f5", z).unwrap();
    shelf.attach_dtag("/r/A/B", z).unwrap();
    shelf.attach_dtag("/r/A/D", x).unwrap();
    shelf.attach_dtag("/r/E", y).unwrap();
    // the fresh scan: D and its file are gone, C has moved up, new files have come
    let mut scan = Shelf::new("/r");
    for dir in ["/r/E", "/r/A", "/r/A/C", "/r/A/B", "/r/N"] {
        assert_eq!(scan.add_dir(dir), Ok(true));
    }
    let files = ["/r/A/B/f2", "/r/N/f5", "/r/f0", "/r/A/C/f3", "/r/A/B/new", "/r/E/f5", "/r/f4"];
    for (i, path) in files.iter().enumerate() {
        assert_eq!(scan.add_file(path, meta(100 + i as u64)), Ok(FileRef { id: i as u64 }));
    }
    shelf.refresh(scan);
    assert_eq!(shelf.dir_count(), 6);
    assert_eq!(shelf.file_count(), 7);
    let has = |path: &str, tag: TagRef| {
        let f = shelf.file(shelf.find(path).unwrap()).unwrap();
        (f.has_tag(tag), f.has_dtag(tag))
    };
    // tags of the files that are still there
    assert_eq!(has("/r/f0", x), (true, false));
    assert_eq!(has("/r/A/B/f2", x), (true, false));
    assert_eq!(has("/r/A/B/f2", y), (true, false));
    assert_eq!(has("/r/E/f5", z), (true, false));
    // declarations of the directories that are still there
    assert_eq!(shelf.declares("/r/A/B", z), Ok(true));
    assert_eq!(shelf.declares("/r/E", y), Ok(true));
    assert_eq!(has("/r/A/B/f2", z), (false, true));
    assert_eq!(has("/r/A/B/new", z), (false, true));
    assert_eq!(has("/r/E/f5", y), (false, true));
    // what is gone is gone, and what is new has nothing
    assert_eq!(shelf.find("/r/A/D/f4"), Err(UpdateErr::PathNotFound));
    assert_eq!(shelf.declares("/r/A/D", x), Err(UpdateErr::PathNotFound));
    assert_eq!(has("/r/f4", y), (false, false));
    assert_eq!(has("/r/N/f5", z), (false, false));
    assert_eq!(has("/r/A/C/f3", z), (false, false));
    assert_eq!(ids(&shelf, 1), vec![2]);
    assert_eq!(ids(&shelf, 2), vec![5]);
    assert_eq!(ids(&shelf, 3), vec![0, 4]);
    assert_eq!(tagged(&shelf, "/r", 1), vec![2]);
    assert_eq!(tagged(&shelf, "/r/A/B", 1), vec![0]);
    assert_eq!(closure(&shelf, "/r/A", 3), vec![0, 4]);
    assert_eq!(shelf.file(FileRef { id: 0 }).unwrap().metadata().size, 100);
}

#[test]
fn refresh_with_the_same_tree_changes_no_tag() {
    let mut shelf = deep();
    shelf.attach("/r/A/f1", TagRef { id: 1 }).unwrap();
    shelf.attach("/r/E/f5", TagRef { id: 2 }).unwrap();
    shelf.attach_dtag("/r/A/B", TagRef { id: 2 }).unwrap();
    shelf.attach_dtag("/r", TagRef { id: 3 }).unwrap();
    let before = snapshot(&shelf, &DEEP_DIRS);
    shelf.refresh(deep());
    assert_eq!(snapshot(&shelf, &DEEP_DIRS), before);
    // a scan with tags of its own keeps them
    let mut scan = deep();
    scan.attach("/r/f0", TagRef { id: 4 }).unwrap();
    scan.attach_dtag("/r/E", TagRef { id: 5 }).unwrap();
    shelf.refresh(scan);
    assert_eq!(ids(&shelf, 4), vec![0]);
    assert_eq!(ids(&shelf, 5), vec![5]);
    assert_eq!(tagged(&shelf, "/r/A", 1), vec![1]);
    assert_eq!(tagged(&shelf, "/r/E", 2), vec![5]);
    assert_eq!(ids(&shelf, 2), vec![2, 3]);
    assert_eq!(ids(&shelf, 3), vec![0, 1, 2, 3, 4, 5]);
    // an empty scan retires everything
    shelf.refresh(Shelf::new("/r"));
    assert_eq!((shelf.dir_count(), shelf.file_count()), (1, 0));
    assert_eq!(ids(&shelf, 3), Vec::<u64>::new());
    assert_eq!(shelf.declares("/r", TagRef { id: 3 }), Ok(true));
    assert_eq!(shelf.add_file("/r/late", meta(1)), Ok(FileRef { id: 0 }));
    assert_eq!(ids(&shelf, 3), vec![0]);
}
