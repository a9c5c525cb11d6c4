use file_manager::idset::IdSet;
use file_manager::path::{same_bytes, split_path};
use file_manager::query::order::{rank_by, rank_names, rank_times, OrderKey, Rank};
use file_manager::rpc::{decode_header, Header, RequestCode, HEADER_LEN};
use file_manager::shelf::file::{File, FileMetadata, Timestamp};
use file_manager::shelf::node::Node;
use file_manager::shelf::file::FileRef;
use file_manager::tag::{TagManager, TagRef};

fn parts(path: &str) -> Vec<String> {
    split_path(path).into_iter().map(|p| String::from_utf8(p).unwrap()).collect()
}

#[test]
fn paths_split_at_separators() {
    assert_eq!(parts("/r/a.txt"), vec!["r", "a.txt"]);
    assert_eq!(parts("r/a.txt"), vec!["r", "a.txt"]);
    assert_eq!(parts("//r///sub//"), vec!["r", "sub"]);
    assert_eq!(parts("/"), Vec::<String>::new());
    assert_eq!(parts(""), Vec::<String>::new());
    assert_eq!(parts("one"), vec!["one"]);
    assert_eq!(parts("/a b/ç"), vec!["a b", "ç"]);
    assert!(same_bytes(b"abc", b"abc"));
    assert!(!same_bytes(b"abc", b"abd"));
    assert!(!same_bytes(b"abc", b"ab"));
    assert!(same_bytes(b"", b""));
}

#[test]
fn id_sets() {
    let mut s = IdSet::new();
    assert!(s.is_empty());
    assert!(s.insert(5));
    assert!(s.insert(3));
    assert!(!s.insert(5));
    assert_eq!(s.len(), 2);
    assert!(s.contains(3) && s.contains(5) && !s.contains(4));
    assert_eq!((s.get(0), s.get(1)), (5, 3));
    let mut t = s.copy();
    assert!(t.remove(5));
    assert!(!t.remove(5));
    assert_eq!(t.len(), 1);
    assert_eq!(s.len(), 2);
    let mut u = IdSet::below(3);
    assert_eq!(u.len(), 3);
    u.extend(&s);
    assert_eq!(u.len(), 5);
    assert!(u.contains(0) && u.contains(1) && u.contains(2) && u.contains(3) && u.contains(5));
    assert!(IdSet::below(0).is_empty());
}

#[test]
fn files_and_nodes_keep_their_sets() {
    let meta = FileMetadata::new(None);
    assert_eq!((meta.size, meta.readonly, meta.modified, meta.unix), (0, false, None, None));
    let known = FileMetadata { size: 4, ..meta };
    assert_eq!(FileMetadata::new(Some(known)), known);
    let mut f = File::new("/r/f".to_string(), b"f".to_vec(), 0, meta);
    let t = TagRef { id: 1 };
    assert!(f.attach(t));
    assert!(!f.attach(t));
    assert!(f.has_tag(t) && !f.has_dtag(t));
    assert!(f.attach_dtag(t));
    assert!(!f.attach_dtag(t));
    assert!(f.detach(t));
    assert!(!f.detach(t));
    assert!(f.detach_dtag(t));
    assert!(!f.detach_dtag(t));
    let mut n = Node::new(b"dir".to_vec(), 0);
    assert!(n.attach_dtag(t));
    assert!(!n.attach_dtag(t));
    assert!(n.detach_dtag(t));
    assert!(!n.detach_dtag(t));
    let (a, b) = (FileRef { id: 0 }, FileRef { id: 1 });
    assert!(n.attach(t, a));
    assert!(!n.attach(t, a));
    assert!(n.attach(t, b));
    assert!(n.detach(t, Some(a)));
    assert!(!n.detach(t, Some(a)));
    assert!(n.detach(t, None));
    assert!(!n.detach(t, None));
    assert!(!n.detach(t, Some(b)));
}

#[test]
fn tags_by_name_and_priority() {
    let mut tags = TagManager::new();
    assert_eq!(tags.retrieve_tag(b"x"), None);
    let x = tags.create("x", 10, None);
    let y = tags.create("y", 5, Some(x));
    let again = tags.create("x", 7, None);
    assert_eq!((x.id, y.id, again.id), (0, 1, 2));
    assert_eq!(tags.retrieve_tag(b"x"), Some(x));
    assert_eq!(tags.retrieve_tag(b"y"), Some(y));
    assert_eq!(tags.retrieve_tag(b"z"), None);
    assert_eq!(tags.retrieve_tag(b""), None);
    let t = tags.get(y).unwrap();
    assert_eq!((t.id, t.priority, t.name.as_str(), t.parent), (1, 5, "y", Some(x)));
    assert!(tags.get(TagRef { id: 3 }).is_none());
    assert_eq!(tags.precedes(y, x), Some(true));
    assert_eq!(tags.precedes(x, y), Some(false));
    assert_eq!(tags.precedes(x, x), Some(false));
    assert_eq!(tags.precedes(x, TagRef { id: 9 }), None);
}

#[test]
fn request_codes() {
    assert_eq!(RequestCode::try_from(1), Ok(RequestCode::Query));
    assert_eq!(RequestCode::try_from(42), Ok(RequestCode::Echo));
    assert_eq!(RequestCode::try_from(0), Err(()));
    assert_eq!(RequestCode::try_from(2), Err(()));
    assert_eq!(RequestCode::Query.to_u8(), 1);
    assert_eq!(RequestCode::Echo.to_u8(), 42);
    assert_eq!(HEADER_LEN, 9);
    assert_eq!(
        decode_header(&[42, 0x10, 0x02, 0, 0, 0, 0, 0, 0]),
        Some(Header { code: Some(RequestCode::Echo), size: 0x210 })
    );
    assert_eq!(
        decode_header(&[7, 0, 0, 0, 0, 0, 0, 0, 0x80]),
        Some(Header { code: None, size: 0x8000_0000_0000_0000 })
    );
    assert_eq!(decode_header(&[1, 0, 0]), None);
    assert_eq!(decode_header(&[1; 10]), None);
}

#[test]
fn names_in_the_order_of_the_dictionary() {
    assert_eq!(rank_names(b"a", b"b"), Rank::Before);
    assert_eq!(rank_names(b"b", b"a"), Rank::After);
    assert_eq!(rank_names(b"a", b"a"), Rank::Same);
    assert_eq!(rank_names(b"a", b"ab"), Rank::Before);
    assert_eq!(rank_names(b"ab", b"a"), Rank::After);
    assert_eq!(rank_names(b"", b""), Rank::Same);
    assert_eq!(rank_names(b"", b"a"), Rank::Before);
    assert_eq!(rank_names(b"Z", b"a"), Rank::Before);
    assert_eq!(rank_names(b"abc", b"abd"), Rank::Before);
    assert_eq!(rank_names(&[0xff], &[0x7f, 0x01]), Rank::After);
}

#[test]
fn times_with_the_unknown_first() {
    let t = |secs, nanos| Some(Timestamp { secs, nanos });
    assert_eq!(rank_times(None, None), Rank::Same);
    assert_eq!(rank_times(None, t(-5, 0)), Rank::Before);
    assert_eq!(rank_times(t(i64::MIN, 0), None), Rank::After);
    assert_eq!(rank_times(t(1, 5), t(1, 5)), Rank::Same);
    assert_eq!(rank_times(t(1, 5), t(1, 6)), Rank::Before);
    assert_eq!(rank_times(t(2, 0), t(1, 999_999_999)), Rank::After);
    assert_eq!(rank_times(t(-1, 0), t(0, 0)), Rank::Before);
}

#[test]
fn files_by_each_key() {
    let t = |secs| Some(Timestamp { secs, nanos: 0 });
    let a = FileMetadata {
        size: 10,
        readonly: false,
        modified: t(3),
        accessed: None,
        created: t(7),
        unix: None,
        windows: None,
    };
    let b = FileMetadata { size: 2, modified: t(3), accessed: t(1), created: t(6), ..a };
    assert_eq!(rank_by(OrderKey::Name, b"a", &a, b"b", &b), Rank::Before);
    assert_eq!(rank_by(OrderKey::Size, b"a", &a, b"b", &b), Rank::After);
    assert_eq!(rank_by(OrderKey::Modified, b"a", &a, b"b", &b), Rank::Same);
    assert_eq!(rank_by(OrderKey::Accessed, b"a", &a, b"b", &b), Rank::Before);
    assert_eq!(rank_by(OrderKey::Created, b"a", &a, b"b", &b), Rank::After);
    assert_eq!(rank_by(OrderKey::Unordered, b"a", &a, b"b", &b), Rank::Same);
    let big = FileMetadata { size: u64::MAX, ..a };
    assert_eq!(rank_by(OrderKey::Size, b"a", &a, b"b", &big), Rank::Before);
}
