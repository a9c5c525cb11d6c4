//! Long runs of operations chosen by a small generator, held against plain
//! implementations written with the collections of the standard library.

use std::collections::{BTreeMap, BTreeSet, HashMap, HashSet};

use file_manager::idset::IdSet;
use file_manager::query::engine::{MockCacheService, OrderedFileID, Query, QueryErr};
use file_manager::query::formula::{BinaryOp, Formula, Proposition, UnaryOp};
use file_manager::query::order::{
    Accessed, Created, FileOrder, Modified, Name, Order, Size, Unordered,
};
use file_manager::shelf::file::{FileMetadata, FileRef, Timestamp};
use file_manager::shelf::model::UpdateErr;
use file_manager::shelf::shelf::Shelf;
use file_manager::tag::{TagManager, TagRef};

struct Gen(u64);

impl Gen {
    fn next(&mut self) -> u64 {
        self.0 = self.0.wrapping_mul(6364136223846793005).wrapping_add(1442695040888963407);
        self.0 >> 33
    }

    fn below(&mut self, n: usize) -> usize {
        (self.next() % n as u64) as usize
    }
}

/// A tree kept the plain way: every node with its own caches, changed by
/// walking down into the subdirectories.
#[derive(Default)]
struct PlainNode {
    path: String,
    parent: Option<usize>,
    children: Vec<usize>,
    files: Vec<u64>,
    tags: HashMap<u64, BTreeSet<u64>>,
    dtags: HashSet<u64>,
    dtag_files: HashMap<u64, BTreeSet<u64>>,
}

#[derive(Default)]
struct Plain {
    nodes: Vec<PlainNode>,
    file_paths: Vec<String>,
    file_dir: Vec<usize>,
    file_tags: Vec<BTreeSet<u64>>,
    file_dtags: Vec<BTreeSet<u64>>,
}

impl Plain {
    fn dir(&self, path: &str) -> Option<usize> {
        self.nodes.iter().position(|n| n.path == path)
    }

    fn file(&self, path: &str) -> Option<u64> {
        self.file_paths.iter().position(|p| p == path).map(|f| f as u64)
    }

    fn ancestors(&self, n: usize) -> Vec<usize> {
        let mut out = Vec::new();
        let mut cur = self.nodes[n].parent;
        while let Some(p) = cur {
            out.push(p);
            cur = self.nodes[p].parent;
        }
        out
    }

    fn attach(&mut self, path: &str, tag: u64) -> Option<bool> {
        let f = self.file(path)?;
        let fresh = self.file_tags[f as usize].insert(tag);
        if fresh {
            let dir = self.file_dir[f as usize];
            self.nodes[dir].tags.entry(tag).or_default().insert(f);
        }
        Some(fresh)
    }

    fn detach(&mut self, path: &str, tag: u64) -> Option<bool> {
        let f = self.file(path)?;
        let found = self.file_tags[f as usize].remove(&tag);
        if found {
            let dir = self.file_dir[f as usize];
            let set = self.nodes[dir].tags.get_mut(&tag).unwrap();
            set.remove(&f);
            if set.is_empty() {
                self.nodes[dir].tags.remove(&tag);
            }
        }
        Some(found)
    }

    fn detach_all(&mut self, tag: u64) -> bool {
        let mut found = false;
        for tags in self.file_tags.iter_mut() {
            found |= tags.remove(&tag);
        }
        for node in self.nodes.iter_mut() {
            node.tags.remove(&tag);
        }
        found
    }

    /// The closure at `n`: its files and, going down, those of every
    /// subdirectory that does not declare the tag. With `on`, every node on
    /// the way gets what was found below it; else it loses it.
    fn walk(&mut self, n: usize, tag: u64, on: bool) -> BTreeSet<u64> {
        let mut found: BTreeSet<u64> = self.nodes[n].files.iter().copied().collect();
        for c in self.nodes[n].children.clone() {
            if !self.nodes[c].dtags.contains(&tag) {
                found.extend(self.walk(c, tag, on));
            }
        }
        self.cache(n, tag, &found, on);
        found
    }

    fn cache(&mut self, n: usize, tag: u64, files: &BTreeSet<u64>, on: bool) {
        if on {
            if !files.is_empty() {
                self.nodes[n].dtag_files.entry(tag).or_default().extend(files.iter().copied());
            }
        } else if let Some(set) = self.nodes[n].dtag_files.get_mut(&tag) {
            for f in files {
                set.remove(f);
            }
            if set.is_empty() {
                self.nodes[n].dtag_files.remove(&tag);
            }
        }
    }

    fn change_dtag(&mut self, path: &str, tag: u64, on: bool) -> Option<bool> {
        let n = self.dir(path)?;
        let above = self.ancestors(n);
        let covered = above.iter().any(|&a| self.nodes[a].dtags.contains(&tag));
        let changed =
            if on { self.nodes[n].dtags.insert(tag) } else { self.nodes[n].dtags.remove(&tag) };
        if covered {
            return Some(changed);
        }
        let closure = self.walk(n, tag, on);
        for a in above {
            self.cache(a, tag, &closure, on);
        }
        for f in closure {
            if on {
                self.file_dtags[f as usize].insert(tag);
            } else {
                self.file_dtags[f as usize].remove(&tag);
            }
        }
        Some(changed)
    }

    fn retrieve(&self, tag: u64) -> Vec<u64> {
        let mut out: BTreeSet<u64> = self.nodes[0].tags.get(&tag).cloned().unwrap_or_default();
        out.extend(self.nodes[0].dtag_files.get(&tag).cloned().unwrap_or_default());
        out.into_iter().collect()
    }
}

fn sorted(set: &IdSet) -> Vec<u64> {
    let mut v: Vec<u64> = (0..set.len()).map(|i| set.get(i)).collect();
    v.sort();
    v
}

fn meta(g: &mut Gen) -> FileMetadata {
    let time = |g: &mut Gen| {
        if g.below(4) == 0 {
            None
        } else {
            Some(Timestamp { secs: g.below(3) as i64 - 1, nanos: g.below(2) as u32 })
        }
    };
    FileMetadata {
        size: g.below(4) as u64,
        readonly: false,
        modified: time(g),
        accessed: time(g),
        created: time(g),
        unix: None,
        windows: None,
    }
}

/// A tree of some directories and files under `/r`, in the shelf and in the
/// plain tree alike.
fn grow(g: &mut Gen, dirs: usize, files: usize) -> (Shelf, Plain) {
    let mut shelf = Shelf::new("/r");
    let mut plain = Plain::default();
    plain.nodes.push(PlainNode { path: "/r".to_string(), ..Default::default() });
    for i in 0..dirs {
        let parent = g.below(plain.nodes.len());
        let path = format!("{}/d{}", plain.nodes[parent].path, i);
        assert_eq!(shelf.add_dir(&path), Ok(true));
        let id = plain.nodes.len();
        plain.nodes[parent].children.push(id);
        plain.nodes.push(PlainNode { path, parent: Some(parent), ..Default::default() });
    }
    for i in 0..files {
        let dir = g.below(plain.nodes.len());
        // few names, so that files in different directories share one
        let path = format!("{}/f{}", plain.nodes[dir].path, g.below(4));
        if plain.file(&path).is_some() {
            continue;
        }
        let id = plain.file_paths.len() as u64;
        assert_eq!(shelf.add_file(&path, meta(g)), Ok(FileRef { id }), "{}", i);
        plain.nodes[dir].files.push(id);
        plain.file_paths.push(path);
        plain.file_dir.push(dir);
        plain.file_tags.push(BTreeSet::new());
        plain.file_dtags.push(BTreeSet::new());
    }
    (shelf, plain)
}

const TAGS: u64 = 3;

fn compare(shelf: &Shelf, plain: &Plain, step: usize) {
    for tag in 0..TAGS {
        let t = TagRef { id: tag };
        assert_eq!(sorted(&shelf.retrieve(t)), plain.retrieve(tag), "retrieve at step {}", step);
        for node in &plain.nodes {
            let want: Vec<u64> =
                node.tags.get(&tag).cloned().unwrap_or_default().into_iter().collect();
            assert_eq!(sorted(&shelf.tagged_in(&node.path, t).unwrap()), want);
            let want: Vec<u64> =
                node.dtag_files.get(&tag).cloned().unwrap_or_default().into_iter().collect();
            assert_eq!(
                sorted(&shelf.closure_in(&node.path, t).unwrap()),
                want,
                "closure of {} at {} at step {}",
                tag,
                node.path,
                step
            );
            assert_eq!(shelf.declares(&node.path, t), Ok(node.dtags.contains(&tag)));
        }
        for f in 0..plain.file_paths.len() {
            let file = shelf.file(FileRef { id: f as u64 }).unwrap();
            assert_eq!(file.has_tag(t), plain.file_tags[f].contains(&tag));
            assert_eq!(file.has_dtag(t), plain.file_dtags[f].contains(&tag), "mark at {}", step);
        }
    }
}

fn some_path(g: &mut Gen, plain: &Plain, file: bool) -> String {
    match g.below(8) {
        0 => "/r/none/f0".to_string(),
        1 => "/elsewhere".to_string(),
        _ if file && !plain.file_paths.is_empty() => {
            plain.file_paths[g.below(plain.file_paths.len())].clone()
        }
        _ => plain.nodes[g.below(plain.nodes.len())].path.clone(),
    }
}

#[test]
fn tag_operations_agree_with_the_plain_tree() {
    for seed in 0..12u64 {
        let mut g = Gen(seed * 7919 + 1);
        let (mut shelf, mut plain) = grow(&mut g, 7, 14);
        compare(&shelf, &plain, 0);
        for step in 1..120 {
            let tag = g.next() % TAGS;
            let t = TagRef { id: tag };
            match g.below(6) {
                0 => {
                    let path = some_path(&mut g, &plain, true);
                    assert_eq!(shelf.attach(&path, t).ok(), plain.attach(&path, tag));
                }
                1 => {
                    let path = some_path(&mut g, &plain, true);
                    assert_eq!(shelf.detach(Some(&path), t).ok(), plain.detach(&path, tag));
                }
                2 => {
                    if g.below(4) == 0 {
                        assert_eq!(shelf.detach(None, t), Ok(plain.detach_all(tag)));
                    }
                }
                3 | 4 => {
                    let path = some_path(&mut g, &plain, false);
                    let got = shelf.attach_dtag(&path, t);
                    assert_eq!(got.ok(), plain.change_dtag(&path, tag, true));
                    if got.is_err() {
                        assert_eq!(got, Err(UpdateErr::PathNotFound));
                    }
                }
                _ => {
                    let path = some_path(&mut g, &plain, false);
                    assert_eq!(
                        shelf.detach_dtag(&path, t).ok(),
                        plain.change_dtag(&path, tag, false)
                    );
                }
            }
            compare(&shelf, &plain, step);
        }
    }
}

/// The key of a file under an order, as a value that the standard library
/// orders the same way.
#[derive(Clone, Debug, PartialEq, Eq, PartialOrd, Ord)]
enum Key {
    Name(Vec<u8>),
    Size(u64),
    Time(Option<(i64, u32)>),
    Unit,
}

fn key_of(shelf: &Shelf, kind: usize, f: u64) -> Key {
    let file = shelf.file(FileRef { id: f }).unwrap();
    let m = file.metadata();
    let time = |t: Option<Timestamp>| Key::Time(t.map(|t| (t.secs, t.nanos)));
    match kind {
        0 => Key::Unit,
        1 => Key::Name(file.name().clone()),
        2 => Key::Size(m.size),
        3 => time(m.modified),
        4 => time(m.created),
        _ => time(m.accessed),
    }
}

/// A set ordered by a key that holds one file for each key.
type Keyed = BTreeMap<Key, u64>;

fn keyed(shelf: &Shelf, kind: usize, files: Vec<u64>) -> Keyed {
    let mut out = Keyed::new();
    for f in files {
        out.entry(key_of(shelf, kind, f)).or_insert(f);
    }
    out
}

fn plain_eval(shelf: &Shelf, kind: usize, f: &Formula) -> Option<Keyed> {
    let minus = |a: Keyed, b: &Keyed| -> Keyed {
        a.into_iter().filter(|(k, _)| !b.contains_key(k)).collect()
    };
    Some(match f {
        Formula::Proposition(p) => keyed(shelf, kind, sorted(&shelf.retrieve(p.tag?))),
        Formula::UnaryExpression(UnaryOp::NOT, x) => {
            let all = keyed(shelf, kind, sorted(&shelf.get_all()));
            let inner = plain_eval(shelf, kind, x)?;
            minus(all, &inner)
        }
        Formula::BinaryExpression(op, x, y) => match (op, &**x, &**y) {
            (BinaryOp::AND, _, Formula::UnaryExpression(_, b)) => {
                let a = plain_eval(shelf, kind, x)?;
                let b = plain_eval(shelf, kind, b)?;
                minus(a, &b)
            }
            (BinaryOp::AND, Formula::UnaryExpression(_, a), _) => {
                let a = plain_eval(shelf, kind, a)?;
                let b = plain_eval(shelf, kind, y)?;
                minus(b, &a)
            }
            _ => {
                let a = plain_eval(shelf, kind, x)?;
                let b = plain_eval(shelf, kind, y)?;
                match op {
                    BinaryOp::AND => a.into_iter().filter(|(k, _)| b.contains_key(k)).collect(),
                    BinaryOp::OR => {
                        let mut out = a;
                        for (k, f) in b {
                            out.entry(k).or_insert(f);
                        }
                        out
                    }
                    BinaryOp::XOR => {
                        let mut out = minus(a.clone(), &b);
                        out.extend(minus(b, &a));
                        out
                    }
                }
            }
        },
    })
}

fn formula(g: &mut Gen, depth: usize) -> Formula {
    if depth == 0 || g.below(4) == 0 {
        let tag = if g.below(12) == 0 { None } else { Some(TagRef { id: g.next() % TAGS }) };
        return Formula::Proposition(Proposition { tag });
    }
    match g.below(5) {
        0 | 1 => Formula::UnaryExpression(UnaryOp::NOT, Box::new(formula(g, depth - 1))),
        k => {
            let op = [BinaryOp::AND, BinaryOp::OR, BinaryOp::XOR][k - 2];
            let x = Box::new(formula(g, depth - 1));
            let y = Box::new(formula(g, depth - 1));
            Formula::BinaryExpression(op, x, y)
        }
    }
}

fn copy(f: &Formula) -> Formula {
    match f {
        Formula::Proposition(p) => Formula::Proposition(*p),
        Formula::UnaryExpression(op, x) => Formula::UnaryExpression(*op, Box::new(copy(x))),
        Formula::BinaryExpression(op, x, y) => {
            Formula::BinaryExpression(*op, Box::new(copy(x)), Box::new(copy(y)))
        }
    }
}

fn run<T: FileOrder + Clone>(
    cache: &MockCacheService,
    f: &Formula,
    order: T,
) -> Result<Vec<OrderedFileID>, QueryErr> {
    let mut q = Query { formula: copy(f), order };
    let r = q.evaluate(cache);
    assert_eq!(q.formula, Formula::simplify(copy(f)));
    r
}

fn evaluate(
    cache: &MockCacheService,
    f: &Formula,
    kind: usize,
    order: Order,
) -> Result<Vec<u64>, QueryErr> {
    let r = match kind {
        0 => run(cache, f, Unordered),
        1 => run(cache, f, Name { order }),
        2 => run(cache, f, Size { order }),
        3 => run(cache, f, Modified { order }),
        4 => run(cache, f, Created { order }),
        _ => run(cache, f, Accessed { order }),
    };
    r.map(|files| files.iter().map(|e| e.file_id.file.id).collect())
}

#[test]
fn evaluation_agrees_with_sets_of_the_standard_library() {
    let mut g = Gen(42);
    for _ in 0..6 {
        let (mut shelf, plain) = grow(&mut g, 5, 16);
        for _ in 0..12 {
            let t = TagRef { id: g.next() % TAGS };
            let path = some_path(&mut g, &plain, true);
            let _ = shelf.attach(&path, t);
            if g.below(5) == 0 {
                let _ = shelf.attach_dtag(&some_path(&mut g, &plain, false), t);
            }
        }
        let cache = MockCacheService::with_shelf(shelf);
        for _ in 0..60 {
            let f = formula(&mut g, 4);
            let kind = g.below(6);
            let simple = Formula::simplify(copy(&f));
            let want = plain_eval(cache.shelf(), kind, &simple);
            let up = evaluate(&cache, &f, kind, Order::Ascending);
            let down = evaluate(&cache, &f, kind, Order::Descending);
            match want {
                None => {
                    assert_eq!(up, Err(QueryErr::KeyError));
                    assert_eq!(down, Err(QueryErr::KeyError));
                }
                Some(set) => {
                    let ids: Vec<u64> = set.values().copied().collect();
                    assert_eq!(up.as_ref(), Ok(&ids), "{:?} by {}", f, kind);
                    if kind != 0 {
                        let mut back = ids.clone();
                        back.reverse();
                        assert_eq!(down, Ok(back));
                    }
                    // simplifying changes no key of the result
                    let plain = plain_eval(cache.shelf(), kind, &f).unwrap();
                    let keys: Vec<&Key> = plain.keys().collect();
                    assert_eq!(keys, set.keys().collect::<Vec<_>>(), "{:?} by {}", f, kind);
                }
            }
        }
    }
}

#[test]
fn texts_of_formulas_are_read_back() {
    fn text(f: &Formula, names: &[&str]) -> String {
        match f {
            Formula::Proposition(p) => format!("\"{}\"", names[p.tag.unwrap().id as usize]),
            Formula::UnaryExpression(_, x) => format!("NOT ({})", text(x, names)),
            Formula::BinaryExpression(op, x, y) => {
                let word = match op {
                    BinaryOp::AND => "AND",
                    BinaryOp::OR => "OR",
                    BinaryOp::XOR => "XOR",
                };
                format!("({}) {} ({})", text(x, names), word, text(y, names))
            }
        }
    }
    let names = ["red", "two words", "NOT"];
    let mut tags = TagManager::new();
    for (i, name) in names.iter().enumerate() {
        tags.create(name, i as u64, None);
    }
    let mut g = Gen(7);
    let mut done = 0;
    while done < 200 {
        let f = formula(&mut g, 5);
        if plain_resolved(&f) {
            let q = Query::with_max_depth(&text(&f, &names), Unordered, &tags, 12);
            assert_eq!(q.map(|q| q.formula).ok(), Some(f));
            done += 1;
        }
    }
}

fn plain_resolved(f: &Formula) -> bool {
    match f {
        Formula::Proposition(p) => p.tag.is_some(),
        Formula::UnaryExpression(_, x) => plain_resolved(x),
        Formula::BinaryExpression(_, x, y) => plain_resolved(x) && plain_resolved(y),
    }
}
