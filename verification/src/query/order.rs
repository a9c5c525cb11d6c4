//! The orders in which the files of a result can stand.

use crate::shelf::file::{FileMetadata, Timestamp};
use vstd::prelude::*;

verus! {

/// The direction of an order.
#[derive(Clone, Copy, Debug, PartialEq, Eq, Structural)]
pub enum Order {
    Ascending,
    Descending,
}

/// What the files of a result are ordered by.
#[derive(Clone, Copy, Debug, PartialEq, Eq, Structural)]
pub enum OrderKey {
    Name,
    Size,
    Modified,
    Created,
    Accessed,
    Unordered,
}

/// An order of files: a key and a direction.
pub trait FileOrder {
    /// The key of the order.
    spec fn key(&self) -> OrderKey;

    /// The direction of the order.
    spec fn direction(&self) -> Order;

    fn order_key(&self) -> (k: OrderKey)
        ensures
            k == self.key(),
    ;

    fn order_direction(&self) -> (o: Order)
        ensures
            o == self.direction(),
    ;
}

/// By file name.
#[derive(Clone, Copy, Debug)]
pub struct Name {
    pub order: Order,
}

/// By size in bytes.
#[derive(Clone, Copy, Debug)]
pub struct Size {
    pub order: Order,
}

/// By the time of the last change.
#[derive(Clone, Copy, Debug)]
pub struct Modified {
    pub order: Order,
}

/// By the time of creation.
#[derive(Clone, Copy, Debug)]
pub struct Created {
    pub order: Order,
}

/// By the time of the last access.
#[derive(Clone, Copy, Debug)]
pub struct Accessed {
    pub order: Order,
}

/// In no order: all files count as equal.
#[derive(Clone, Copy, Debug)]
pub struct Unordered;

impl FileOrder for Name {
    open spec fn key(&self) -> OrderKey {
        OrderKey::Name
    }

    open spec fn direction(&self) -> Order {
        self.order
    }

    fn order_key(&self) -> (k: OrderKey) {
        OrderKey::Name
    }

    fn order_direction(&self) -> (o: Order) {
        self.order
    }
}

impl FileOrder for Size {
    open spec fn key(&self) -> OrderKey {
        OrderKey::Size
    }

    open spec fn direction(&self) -> Order {
        self.order
    }

    fn order_key(&self) -> (k: OrderKey) {
        OrderKey::Size
    }

    fn order_direction(&self) -> (o: Order) {
        self.order
    }
}

impl FileOrder for Modified {
    open spec fn key(&self) -> OrderKey {
        OrderKey::Modified
    }

    open spec fn direction(&self) -> Order {
        self.order
    }

    fn order_key(&self) -> (k: OrderKey) {
        OrderKey::Modified
    }

    fn order_direction(&self) -> (o: Order) {
        self.order
    }
}

impl FileOrder for Created {
    open spec fn key(&self) -> OrderKey {
        OrderKey::Created
    }

    open spec fn direction(&self) -> Order {
        self.order
    }

    fn order_key(&self) -> (k: OrderKey) {
        OrderKey::Created
    }

    fn order_direction(&self) -> (o: Order) {
        self.order
    }
}

impl FileOrder for Accessed {
    open spec fn key(&self) -> OrderKey {
        OrderKey::Accessed
    }

    open spec fn direction(&self) -> Order {
        self.order
    }

    fn order_key(&self) -> (k: OrderKey) {
        OrderKey::Accessed
    }

    fn order_direction(&self) -> (o: Order) {
        self.order
    }
}

impl FileOrder for Unordered {
    open spec fn key(&self) -> OrderKey {
        OrderKey::Unordered
    }

    open spec fn direction(&self) -> Order {
        Order::Ascending
    }

    fn order_key(&self) -> (k: OrderKey) {
        OrderKey::Unordered
    }

    fn order_direction(&self) -> (o: Order) {
        Order::Ascending
    }
}

/// How one key stands to another.
#[derive(Clone, Copy, Debug, PartialEq, Eq, Structural)]
pub enum Rank {
    Before,
    Same,
    After,
}

/// `a` comes before `b` in the order of the dictionary: at the first place
/// where they differ `a` is smaller, or `a` ends there and `b` goes on.
pub open spec fn lex_lt(a: Seq<i128>, b: Seq<i128>) -> bool
    decreases a.len(),
{
    if b.len() == 0 {
        false
    } else if a.len() == 0 {
        true
    } else if a[0] != b[0] {
        a[0] < b[0]
    } else {
        lex_lt(a.drop_first(), b.drop_first())
    }
}

/// How `a` stands to `b`.
pub open spec fn rank(a: Seq<i128>, b: Seq<i128>) -> Rank {
    if lex_lt(a, b) {
        Rank::Before
    } else if a == b {
        Rank::Same
    } else {
        Rank::After
    }
}

/// No key comes before itself.
pub proof fn lemma_lex_irreflexive(a: Seq<i128>)
    ensures
        !lex_lt(a, a),
    decreases a.len(),
{
    if a.len() > 0 {
        lemma_lex_irreflexive(a.drop_first());
    }
}

/// Of two keys that differ, one comes before the other, and never both.
pub proof fn lemma_lex_total(a: Seq<i128>, b: Seq<i128>)
    ensures
        a == b || lex_lt(a, b) || lex_lt(b, a),
        !(lex_lt(a, b) && lex_lt(b, a)),
    decreases a.len(),
{
    if a.len() > 0 && b.len() > 0 {
        lemma_lex_total(a.drop_first(), b.drop_first());
        if a[0] == b[0] && a.drop_first() == b.drop_first() {
            assert(a =~= seq![a[0]] + a.drop_first());
            assert(b =~= seq![b[0]] + b.drop_first());
        }
    } else if a.len() == 0 && b.len() == 0 {
        assert(a =~= b);
    }
}

/// Coming before is transitive.
pub proof fn lemma_lex_transitive(a: Seq<i128>, b: Seq<i128>, c: Seq<i128>)
    requires
        lex_lt(a, b),
        lex_lt(b, c),
    ensures
        lex_lt(a, c),
    decreases a.len(),
{
    if a.len() > 0 && b.len() > 0 && c.len() > 0 {
        if a[0] == b[0] && b[0] == c[0] {
            lemma_lex_transitive(a.drop_first(), b.drop_first(), c.drop_first());
        }
    }
}

/// The key of a time: nothing for a time that is not known, so that it
/// comes before every known time; else the seconds, then the nanoseconds.
pub open spec fn time_key(t: Option<Timestamp>) -> Seq<i128> {
    match t {
        None => Seq::empty(),
        Some(ts) => seq![ts.secs as i128, ts.nanos as i128],
    }
}

/// The key of a name: its bytes.
pub open spec fn name_key(name: Seq<u8>) -> Seq<i128> {
    Seq::new(name.len(), |i: int| name[i] as i128)
}

/// The key by which a file of the given name and metadata is ordered.
pub open spec fn sort_key(key: OrderKey, name: Seq<u8>, meta: FileMetadata) -> Seq<i128> {
    match key {
        OrderKey::Name => name_key(name),
        OrderKey::Size => seq![meta.size as i128],
        OrderKey::Modified => time_key(meta.modified),
        OrderKey::Created => time_key(meta.created),
        OrderKey::Accessed => time_key(meta.accessed),
        OrderKey::Unordered => Seq::empty(),
    }
}

/// How the name `a` stands to the name `b`.
pub fn rank_names(a: &[u8], b: &[u8]) -> (r: Rank)
    ensures
        r == rank(name_key(a@), name_key(b@)),
{
    let ghost ka = name_key(a@);
    let ghost kb = name_key(b@);
    let mut i: usize = 0;
    assert(ka.skip(0) =~= ka);
    assert(kb.skip(0) =~= kb);
    while i < a.len() && i < b.len()
        invariant
            ka == name_key(a@),
            kb == name_key(b@),
            i <= a@.len(),
            i <= b@.len(),
            forall|j: int| 0 <= j < i ==> a@[j] == b@[j],
            lex_lt(ka, kb) == lex_lt(ka.skip(i as int), kb.skip(i as int)),
            lex_lt(kb, ka) == lex_lt(kb.skip(i as int), ka.skip(i as int)),
        decreases a@.len() - i,
    {
        let ghost ra = ka.skip(i as int);
        let ghost rb = kb.skip(i as int);
        assert(ra[0] == a@[i as int] as i128);
        assert(rb[0] == b@[i as int] as i128);
        assert(ra.drop_first() =~= ka.skip(i + 1));
        assert(rb.drop_first() =~= kb.skip(i + 1));
        if a[i] < b[i] {
            proof {
                lemma_lex_total(ka, kb);
            }
            return Rank::Before;
        }
        if a[i] > b[i] {
            proof {
                lemma_lex_total(ka, kb);
                assert(ka[i as int] != kb[i as int]);
            }
            return Rank::After;
        }
        i += 1;
    }
    proof {
        lemma_lex_total(ka, kb);
    }
    if a.len() < b.len() {
        Rank::Before
    } else if a.len() > b.len() {
        assert(ka.len() != kb.len());
        Rank::After
    } else {
        assert(ka =~= kb);
        Rank::Same
    }
}

/// How the number `a` stands to the number `b`.
fn rank_numbers(a: i128, b: i128) -> (r: Rank)
    ensures
        r == rank(seq![a], seq![b]),
{
    proof {
        lemma_lex_total(seq![a], seq![b]);
        assert(seq![a][0] == a);
        assert(seq![b][0] == b);
        if a == b {
            assert(seq![a] =~= seq![b]);
        }
    }
    if a < b {
        Rank::Before
    } else if a > b {
        Rank::After
    } else {
        Rank::Same
    }
}

/// How the time `a` stands to the time `b`.
pub fn rank_times(a: Option<Timestamp>, b: Option<Timestamp>) -> (r: Rank)
    ensures
        r == rank(time_key(a), time_key(b)),
{
    proof {
        lemma_lex_total(time_key(a), time_key(b));
    }
    match (a, b) {
        (None, None) => Rank::Same,
        (None, Some(_)) => Rank::Before,
        (Some(_), None) => {
            assert(time_key(a).len() != time_key(b).len());
            Rank::After
        },
        (Some(x), Some(y)) => {
            let ghost ka = time_key(a);
            let ghost kb = time_key(b);
            proof {
                assert(ka[0] == x.secs as i128 && ka[1] == x.nanos as i128);
                assert(kb[0] == y.secs as i128 && kb[1] == y.nanos as i128);
                assert(ka.drop_first() =~= seq![x.nanos as i128]);
                assert(kb.drop_first() =~= seq![y.nanos as i128]);
                lemma_lex_total(seq![x.nanos as i128], seq![y.nanos as i128]);
                assert(seq![x.nanos as i128][0] == x.nanos as i128);
                assert(seq![y.nanos as i128][0] == y.nanos as i128);
                if x.secs == y.secs && x.nanos == y.nanos {
                    assert(ka =~= kb);
                }
            }
            if x.secs < y.secs {
                Rank::Before
            } else if x.secs > y.secs {
                Rank::After
            } else if x.nanos < y.nanos {
                Rank::Before
            } else if x.nanos > y.nanos {
                assert(ka[1] != kb[1]);
                Rank::After
            } else {
                Rank::Same
            }
        },
    }
}

/// How a file stands to another by the key `key`.
pub fn rank_by(
    key: OrderKey,
    name_a: &[u8],
    meta_a: &FileMetadata,
    name_b: &[u8],
    meta_b: &FileMetadata,
) -> (r: Rank)
    ensures
        r == rank(sort_key(key, name_a@, *meta_a), sort_key(key, name_b@, *meta_b)),
{
    match key {
        OrderKey::Name => rank_names(name_a, name_b),
        OrderKey::Size => rank_numbers(meta_a.size as i128, meta_b.size as i128),
        OrderKey::Modified => rank_times(meta_a.modified, meta_b.modified),
        OrderKey::Created => rank_times(meta_a.created, meta_b.created),
        OrderKey::Accessed => rank_times(meta_a.accessed, meta_b.accessed),
        OrderKey::Unordered => {
            proof {
                lemma_lex_irreflexive(Seq::<i128>::empty());
            }
            Rank::Same
        },
    }
}

} // verus!
