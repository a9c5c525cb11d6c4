use file_manager::query::engine::{
    MockCacheService, OrderedFileID, Query, QueryErr, DEFAULT_MAX_DEPTH,
};
use file_manager::query::formula::{BinaryOp, Formula, Proposition, UnaryOp};
use file_manager::query::order::{Name, Order, Size, Unordered};
use file_manager::shelf::file::{FileMetadata, FileRef};
use file_manager::shelf::shelf::Shelf;
use file_manager::tag::{TagManager, TagRef};

fn meta(size: u64) -> FileMetadata {
    FileMetadata {
        size,
        readonly: false,
        modified: None,
        accessed: None,
        created: None,
        unix: None,
        windows: None,
    }
}

fn sample() -> (Shelf, TagManager, TagRef, TagRef) {
    let mut shelf = Shelf::new("/r");
    shelf.add_file("/r/a.txt", meta(30)).unwrap();
    shelf.add_file("/r/b.txt", meta(20)).unwrap();
    shelf.add_dir("/r/sub").unwrap();
    shelf.add_file("/r/sub/c.txt", meta(10)).unwrap();
    let mut tags = TagManager::new();
    let x = tags.create("x", 1, None);
    let y = tags.create("y", 2, None);
    (shelf, tags, x, y)
}

fn paths(r: &[OrderedFileID]) -> Vec<String> {
    r.iter().map(|e| e.file_id.path.clone()).collect()
}

fn prop(id: u64) -> Formula {
    Formula::Proposition(Proposition { tag: Some(TagRef { id }) })
}

fn not(f: Formula) -> Formula {
    Formula::UnaryExpression(UnaryOp::NOT, Box::new(f))
}

fn bin(op: BinaryOp, a: Formula, b: Formula) -> Formula {
    Formula::BinaryExpression(op, Box::new(a), Box::new(b))
}

#[test]
fn or_of_two_tags_by_name() {
    let (mut shelf, tags, x, y) = sample();
    assert_eq!(shelf.attach("/r/a.txt", x), Ok(true));
    assert_eq!(shelf.attach("/r/b.txt", y), Ok(true));
    let cache = MockCacheService::with_shelf(shelf);
    let mut q = Query::new("\"x\" OR \"y\"", Name { order: Order::Ascending }, &tags).unwrap();
    let r = q.evaluate(&cache).unwrap();
    assert_eq!(paths(&r), vec!["/r/a.txt".to_string(), "/r/b.txt".to_string()]);
}

#[test]
fn not_of_a_tag_gives_the_rest() {
    let (mut shelf, tags, x, _y) = sample();
    assert_eq!(shelf.attach("/r/a.txt", x), Ok(true));
    let cache = MockCacheService::with_shelf(shelf);
    let mut q = Query::new("NOT \"x\"", Name { order: Order::Ascending }, &tags).unwrap();
    let r = q.evaluate(&cache).unwrap();
    assert_eq!(paths(&r), vec!["/r/b.txt".to_string(), "/r/sub/c.txt".to_string()]);
}

#[test]
fn descending_size_order() {
    let (shelf, tags, _x, _y) = sample();
    let cache = MockCacheService::with_shelf(shelf);
    let mut q = Query::new("NOT \"x\"", Size { order: Order::Descending }, &tags).unwrap();
    let r = q.evaluate(&cache).unwrap();
    assert_eq!(
        paths(&r),
        vec!["/r/a.txt".to_string(), "/r/b.txt".to_string(), "/r/sub/c.txt".to_string()]
    );
    let mut q = Query::new("NOT \"x\"", Size { order: Order::Ascending }, &tags).unwrap();
    let r = q.evaluate(&cache).unwrap();
    assert_eq!(
        paths(&r),
        vec!["/r/sub/c.txt".to_string(), "/r/b.txt".to_string(), "/r/a.txt".to_string()]
    );
}

#[test]
fn unordered_keeps_one_file() {
    let (shelf, tags, _x, _y) = sample();
    let cache = MockCacheService::with_shelf(shelf);
    let mut q = Query::new("NOT \"x\"", Unordered, &tags).unwrap();
    let r = q.evaluate(&cache).unwrap();
    assert_eq!(paths(&r), vec!["/r/a.txt".to_string()]);
}

#[test]
fn files_of_one_name_collapse() {
    let mut shelf = Shelf::new("/r");
    shelf.add_dir("/r/p").unwrap();
    shelf.add_dir("/r/q").unwrap();
    shelf.add_file("/r/p/same.txt", meta(1)).unwrap();
    shelf.add_file("/r/q/same.txt", meta(2)).unwrap();
    let mut tags = TagManager::new();
    let x = tags.create("x", 1, None);
    shelf.attach("/r/p/same.txt", x).unwrap();
    shelf.attach_dtag("/r/q", x).unwrap();
    let cache = MockCacheService::with_shelf(shelf);
    let r = cache.get_files(&Name { order: Order::Ascending }, x).unwrap();
    assert_eq!(paths(&r), vec!["/r/q/same.txt".to_string()]);
    let r = cache.get_files(&Size { order: Order::Ascending }, x).unwrap();
    assert_eq!(paths(&r), vec!["/r/q/same.txt".to_string()]);
    let all = cache.get_all(&Size { order: Order::Ascending }).unwrap();
    assert_eq!(paths(&all), vec!["/r/p/same.txt".to_string(), "/r/q/same.txt".to_string()]);
}

#[test]
fn unknown_name_is_a_key_error() {
    let (shelf, tags, _x, _y) = sample();
    let cache = MockCacheService::with_shelf(shelf);
    let mut q = Query::new("\"x\" AND \"nope\"", Name { order: Order::Ascending }, &tags).unwrap();
    let unknown = Formula::Proposition(Proposition { tag: None });
    assert_eq!(q.formula, bin(BinaryOp::AND, prop(0), unknown));
    assert_eq!(q.evaluate(&cache).err(), Some(QueryErr::KeyError));
}

#[test]
fn syntax_errors() {
    let tags = TagManager::new();
    let name = Name { order: Order::Ascending };
    let texts = [
        "",
        "\"\"",
        "\"a",
        "\"a\" AND",
        "AND \"a\"",
        "(\"a\"",
        "\"a\" and \"b\"",
        "\"a\" \"b\"",
        "NOT",
        "()",
        "\"a\" OR OR \"b\"",
        "(\"a\"))",
    ];
    for text in texts {
        assert!(
            matches!(Query::new(text, name, &tags), Err(QueryErr::SyntaxError)),
            "{:?}",
            text
        );
    }
}

#[test]
fn precedence_and_association() {
    let mut tags = TagManager::new();
    let a = tags.create("a", 1, None).id;
    let b = tags.create("b", 2, None).id;
    let c = tags.create("c", 3, None).id;
    let name = Name { order: Order::Ascending };
    let q = Query::new("\"a\" OR \"b\" AND \"c\"", name, &tags).unwrap();
    assert_eq!(q.formula, bin(BinaryOp::OR, prop(a), bin(BinaryOp::AND, prop(b), prop(c))));
    let q = Query::new("\"a\" AND \"b\" OR \"c\"", name, &tags).unwrap();
    assert_eq!(q.formula, bin(BinaryOp::OR, bin(BinaryOp::AND, prop(a), prop(b)), prop(c)));
    let q = Query::new("\"a\" XOR \"b\" XOR \"c\"", name, &tags).unwrap();
    assert_eq!(q.formula, bin(BinaryOp::XOR, bin(BinaryOp::XOR, prop(a), prop(b)), prop(c)));
    let q = Query::new("\"a\" OR \"b\" XOR \"c\"", name, &tags).unwrap();
    assert_eq!(q.formula, bin(BinaryOp::OR, prop(a), bin(BinaryOp::XOR, prop(b), prop(c))));
    let q = Query::new("NOT \"a\" AND \"b\"", name, &tags).unwrap();
    assert_eq!(q.formula, bin(BinaryOp::AND, not(prop(a)), prop(b)));
    let q = Query::new("NOT NOT\"a\"", name, &tags).unwrap();
    assert_eq!(q.formula, not(not(prop(a))));
    let q = Query::new(" \t(\n\"a\" OR \"b\" ) AND\"c\" \n", name, &tags).unwrap();
    assert_eq!(q.formula, bin(BinaryOp::AND, bin(BinaryOp::OR, prop(a), prop(b)), prop(c)));
}

#[test]
fn depth_limit() {
    let mut tags = TagManager::new();
    tags.create("a", 1, None);
    let name = Name { order: Order::Ascending };
    let taken = |text: &str, depth: usize| {
        match Query::with_max_depth(text, name, &tags, depth) {
            Ok(q) => {
                assert!(height(&q.formula) <= depth);
                true
            }
            Err(e) => {
                assert_eq!(e, QueryErr::SyntaxError);
                false
            }
        }
    };
    // a name is one level deep
    assert!(taken("\"a\"", 1));
    assert!(!taken("\"a\"", 0));
    // parentheses and negations add a level each
    assert!(taken("((\"a\"))", 3));
    assert!(!taken("((\"a\"))", 2));
    assert!(taken("NOT NOT \"a\"", 3));
    assert!(!taken("NOT NOT \"a\"", 2));
    // two operands joined are one level deeper than the deeper one
    assert!(taken("\"a\" AND \"a\"", 2));
    assert!(!taken("\"a\" AND \"a\"", 1));
    assert!(taken("NOT (\"a\" OR \"a\")", 4));
    assert!(!taken("NOT (\"a\" OR \"a\")", 3));
    assert!(taken("\"a\" OR \"a\" OR \"a\"", 3));
    assert!(!taken("\"a\" OR \"a\" OR \"a\"", 2));
    assert!(taken("\"a\" OR \"a\" AND \"a\" AND \"a\"", 4));
    assert!(!taken("\"a\" OR \"a\" AND \"a\" AND \"a\"", 3));
    // long texts are turned down without going down into them
    assert!(!taken(&"(".repeat(1_000_000), 256));
    assert!(!taken(&"NOT ".repeat(1_000_000), 256));
    let chain = format!("\"a\"{}", " OR \"a\"".repeat(300_000));
    assert!(!taken(&chain, 256));
}

fn height(f: &Formula) -> usize {
    match f {
        Formula::Proposition(_) => 1,
        Formula::UnaryExpression(_, x) => 1 + height(x),
        Formula::BinaryExpression(_, x, y) => 1 + height(x).max(height(y)),
    }
}

#[test]
fn simplifier_rewrites() {
    let a = || prop(0);
    let b = || prop(1);
    assert_eq!(Formula::recursive_simplify(not(not(a()))), (a(), true));
    assert_eq!(
        Formula::recursive_simplify(bin(BinaryOp::AND, not(a()), not(b()))),
        (not(bin(BinaryOp::OR, a(), b())), true)
    );
    assert_eq!(
        Formula::recursive_simplify(bin(BinaryOp::OR, not(a()), not(b()))),
        (not(bin(BinaryOp::AND, a(), b())), true)
    );
    assert_eq!(
        Formula::recursive_simplify(bin(BinaryOp::XOR, not(a()), not(b()))),
        (bin(BinaryOp::XOR, a(), b()), true)
    );
    assert_eq!(
        Formula::recursive_simplify(bin(BinaryOp::AND, not(a()), b())),
        (bin(BinaryOp::AND, not(a()), b()), false)
    );
    // a second pass is needed: NOT (NOT a AND NOT b) -> NOT NOT (a OR b) -> a OR b
    let f = not(bin(BinaryOp::AND, not(a()), not(b())));
    assert_eq!(Formula::simplify(f), bin(BinaryOp::OR, a(), b()));
}

fn retrieved(cache: &MockCacheService, tag: TagRef) -> Vec<String> {
    let shelf = cache.shelf();
    let set = shelf.retrieve(tag);
    let mut paths: Vec<String> = (0..set.len())
        .map(|i| shelf.file(FileRef { id: set.get(i) }).unwrap())
        .map(|f| f.path().clone())
        .collect();
    paths.sort();
    paths
}

#[test]
fn operators_are_the_set_operations() {
    // a: a.txt, b.txt; b: b.txt, c.txt (through the directory)
    let (mut shelf, mut tags, _x, _y) = sample();
    let a = tags.create("a", 3, None);
    let b = tags.create("b", 4, None);
    shelf.attach("/r/a.txt", a).unwrap();
    shelf.attach("/r/b.txt", a).unwrap();
    shelf.attach("/r/b.txt", b).unwrap();
    shelf.attach_dtag("/r/sub", b).unwrap();
    let cache = MockCacheService::with_shelf(shelf);
    let of_a = retrieved(&cache, a);
    let of_b = retrieved(&cache, b);
    assert_eq!(of_a, vec!["/r/a.txt", "/r/b.txt"]);
    assert_eq!(of_b, vec!["/r/b.txt", "/r/sub/c.txt"]);
    let all = paths(&cache.get_all(&Name { order: Order::Ascending }).unwrap());
    assert_eq!(all, vec!["/r/a.txt", "/r/b.txt", "/r/sub/c.txt"]);
    let run = |text: &str| {
        let mut q = Query::new(text, Name { order: Order::Ascending }, &tags).unwrap();
        paths(&q.evaluate(&cache).unwrap())
    };
    let both: Vec<String> = of_a.iter().filter(|p| of_b.contains(p)).cloned().collect();
    assert_eq!(run("\"a\" AND \"b\""), both);
    assert_eq!(run("\"a\" AND \"b\""), vec!["/r/b.txt"]);
    let mut either = of_a.clone();
    either.extend(of_b.iter().filter(|p| !of_a.contains(p)).cloned());
    assert_eq!(run("\"a\" OR \"b\""), either);
    let rest: Vec<String> = all.iter().filter(|p| !of_a.contains(p)).cloned().collect();
    assert_eq!(run("NOT \"a\""), rest);
    assert_eq!(run("NOT \"a\""), vec!["/r/sub/c.txt"]);
    assert_eq!(run("\"a\" XOR \"b\""), vec!["/r/a.txt", "/r/sub/c.txt"]);
    assert_eq!(run("\"a\" AND NOT \"b\""), vec!["/r/a.txt"]);
    assert_eq!(run("NOT \"a\" AND \"b\""), vec!["/r/sub/c.txt"]);
    assert_eq!(run("NOT \"a\" AND NOT \"b\""), Vec::<String>::new());
    assert_eq!(run("NOT (\"a\" OR \"b\")"), Vec::<String>::new());
    assert_eq!(run("NOT \"a\" OR NOT \"b\""), vec!["/r/a.txt", "/r/sub/c.txt"]);
    assert_eq!(run("NOT NOT \"a\""), of_a);
    assert_eq!(run("NOT \"a\" XOR NOT \"b\""), run("\"a\" XOR \"b\""));
    assert_eq!(run("\"x\""), Vec::<String>::new());
    assert_eq!(run("NOT \"x\""), all);
}

#[test]
fn simplified_queries_give_the_same_result() {
    let (mut shelf, mut tags, _x, _y) = sample();
    let a = tags.create("a", 3, None);
    let b = tags.create("b", 4, None);
    shelf.attach("/r/a.txt", a).unwrap();
    shelf.attach("/r/b.txt", b).unwrap();
    shelf.attach("/r/sub/c.txt", a).unwrap();
    let cache = MockCacheService::with_shelf(shelf);
    let cases = [
        ("NOT NOT \"a\"", "\"a\""),
        ("NOT \"a\" AND NOT \"b\"", "NOT (\"a\" OR \"b\")"),
        ("NOT \"a\" OR NOT \"b\"", "NOT (\"a\" AND \"b\")"),
        ("NOT \"a\" XOR NOT \"b\"", "\"a\" XOR \"b\""),
        ("NOT (NOT \"a\" AND NOT \"b\")", "\"a\" OR \"b\""),
    ];
    for (long, short) in cases {
        let name = Name { order: Order::Ascending };
        let mut q = Query::new(long, name, &tags).unwrap();
        let want = Query::new(short, name, &tags).unwrap().formula;
        let got = paths(&q.evaluate(&cache).unwrap());
        assert_eq!(q.formula, want, "{}", long);
        // evaluated as written, pass by pass
        let mut plain = Query::new(short, name, &tags).unwrap();
        assert_eq!(got, paths(&plain.evaluate(&cache).unwrap()), "{}", long);
    }
}

#[test]
fn default_depth() {
    let mut tags = TagManager::new();
    tags.create("a", 1, None);
    let name = Name { order: Order::Ascending };
    let mut text = String::new();
    for _ in 0..DEFAULT_MAX_DEPTH - 1 {
        text.push_str("NOT ");
    }
    text.push_str("\"a\"");
    assert!(Query::new(&text, name, &tags).is_ok());
    let deeper = format!("NOT {}", text);
    assert!(matches!(Query::new(&deeper, name, &tags), Err(QueryErr::SyntaxError)));
    assert!(Query::with_max_depth(&deeper, name, &tags, DEFAULT_MAX_DEPTH + 1).is_ok());
}

#[test]
fn the_shelf_can_be_taken_back_and_changed() {
    let (mut shelf, tags, x, _y) = sample();
    shelf.attach("/r/a.txt", x).unwrap();
    let cache = MockCacheService::with_shelf(shelf);
    let name = Name { order: Order::Descending };
    let mut q = Query::new("\"x\"", name, &tags).unwrap();
    assert_eq!(paths(&q.evaluate(&cache).unwrap()), vec!["/r/a.txt"]);
    let mut shelf = cache.into_shelf();
    shelf.attach_dtag("/r/sub", x).unwrap();
    let cache = MockCacheService::with_shelf(shelf);
    assert_eq!(paths(&q.evaluate(&cache).unwrap()), vec!["/r/sub/c.txt", "/r/a.txt"]);
    let empty = MockCacheService::new();
    assert_eq!(paths(&q.evaluate(&empty).unwrap()), Vec::<String>::new());
    assert_eq!(empty.shelf().file_count(), 0);
    assert_eq!(empty.shelf().dir_count(), 1);
}
