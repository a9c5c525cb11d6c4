//! Queries: a formula, an order, and the evaluation over a file cache.

use crate::query::eval::{
    collapse, exclusive, file_key, keep, listed, materialize, merge, universe,
};
use crate::query::formula::{BinaryOp, Formula, Proposition, UnaryOp};
use crate::path::components;
use crate::query::order::{lex_lt, FileOrder, Order, OrderKey};
use crate::query::parser::{parse, parse_query};
use crate::shelf::file::{FileMetadata, FileRef};
use crate::shelf::model::ShelfView;
use crate::shelf::shelf::Shelf;
use crate::tag::{TagManager, TagRef};
use vstd::prelude::*;
use vstd::string::StringSliceAdditionalSpecFns;

verus! {

/// Why a query gave no result.
#[derive(Clone, Copy, Debug, PartialEq, Eq, Structural)]
pub enum QueryErr {
    /// The text of the query is no formula.
    SyntaxError,
    /// The query names a tag that does not exist.
    KeyError,
}

/// A file of a result: its handle, its path and its metadata.
#[derive(Debug)]
pub struct FileID {
    pub file: FileRef,
    pub path: String,
    pub metadata: FileMetadata,
}

/// A file of a result, with the key by which the result is ordered.
#[derive(Debug)]
pub struct OrderedFileID {
    pub file_id: FileID,
    pub key: OrderKey,
}

/// The handles of the files of a result, in the order of the result.
pub open spec fn entry_ids(r: Seq<OrderedFileID>) -> Seq<u64> {
    Seq::new(r.len(), |i: int| r[i].file_id.file.id)
}

/// The entry is that of a file of the shelf, with its path and metadata.
pub open spec fn describes(v: ShelfView, key: OrderKey, e: OrderedFileID) -> bool {
    &&& e.file_id.file.id < v.files.len()
    &&& e.file_id.path@ == v.files[e.file_id.file.id as int].path
    &&& e.file_id.metadata == v.files[e.file_id.file.id as int].metadata
    &&& e.key == key
}

/// The keys of the files strictly rise (`Ascending`) or strictly fall
/// (`Descending`) along `ids`: no key stands twice.
pub open spec fn in_order(v: ShelfView, key: OrderKey, direction: Order, ids: Seq<u64>) -> bool {
    forall|i: int, j: int|
        0 <= i < j < ids.len() ==> match direction {
            Order::Ascending => lex_lt(
                file_key(v, key, #[trigger] ids[i]),
                file_key(v, key, #[trigger] ids[j]),
            ),
            Order::Descending => lex_lt(file_key(v, key, ids[j]), file_key(v, key, ids[i])),
        }
}

/// `r` is a result over the shelf: every entry is that of a file of the
/// shelf, and the entries stand in the order asked for.
pub open spec fn presents(
    v: ShelfView,
    key: OrderKey,
    direction: Order,
    r: Seq<OrderedFileID>,
) -> bool {
    &&& forall|i: int| 0 <= i < r.len() ==> describes(v, key, #[trigger] r[i])
    &&& in_order(v, key, direction, entry_ids(r))
}

/// A stand-in for the file cache: it answers from a shelf that it holds.
#[derive(Debug)]
pub struct MockCacheService {
    shelf: Shelf,
}

impl View for MockCacheService {
    type V = ShelfView;

    closed spec fn view(&self) -> ShelfView {
        self.shelf@
    }
}

impl MockCacheService {
    /// The shelf that the cache holds is in order.
    pub closed spec fn wf(&self) -> bool {
        self.shelf.wf()
    }

    /// A cache over an empty shelf whose root is the root of the file system.
    pub fn new() -> (cache: MockCacheService)
        ensures
            cache.wf(),
            cache@ == ShelfView::empty(components("/".spec_bytes())),
    {
        MockCacheService { shelf: Shelf::new("/") }
    }

    /// A cache over `shelf`.
    pub fn with_shelf(shelf: Shelf) -> (cache: MockCacheService)
        requires
            shelf.wf(),
        ensures
            cache.wf(),
            cache@ == shelf@,
    {
        MockCacheService { shelf }
    }

    /// The shelf that the cache holds.
    pub fn shelf(&self) -> (shelf: &Shelf)
        requires
            self.wf(),
        ensures
            shelf.wf(),
            shelf@ == self@,
    {
        &self.shelf
    }

    /// Gives the shelf back.
    pub fn into_shelf(self) -> (shelf: Shelf)
        requires
            self.wf(),
        ensures
            shelf.wf(),
            shelf@ == self@,
    {
        self.shelf
    }

    /// The files of the listing `ids` as entries of a result in the
    /// direction asked for.
    fn present(&self, key: OrderKey, direction: Order, ids: &Vec<u64>) -> (r: Vec<OrderedFileID>)
        requires
            self.wf(),
            listed(self@, key, ids@),
        ensures
            presents(self@, key, direction, r@),
            entry_ids(r@).to_set() == ids@.to_set(),
            entry_ids(r@) == match direction {
                Order::Ascending => ids@,
                Order::Descending => ids@.reverse(),
            },
    {
        let ghost v = self@;
        let n = ids.len();
        let mut r: Vec<OrderedFileID> = Vec::new();
        let mut i: usize = 0;
        while i < n
            invariant
                self.wf(),
                v == self@,
                listed(v, key, ids@),
                n == ids@.len(),
                i <= n,
                r@.len() == i,
                forall|j: int| 0 <= j < i ==> describes(v, key, #[trigger] r@[j]),
                forall|j: int|
                    0 <= j < i ==> (#[trigger] r@[j]).file_id.file.id == match direction {
                        Order::Ascending => ids@[j],
                        Order::Descending => ids@[n - 1 - j],
                    },
            decreases n - i,
        {
            let at = match direction {
                Order::Ascending => i,
                Order::Descending => n - 1 - i,
            };
            let id = ids[at];
            let file = self.shelf.file(FileRef { id }).unwrap();
            r.push(
                OrderedFileID {
                    file_id: FileID {
                        file: FileRef { id },
                        path: file.path.clone(),
                        metadata: file.metadata,
                    },
                    key,
                },
            );
            i += 1;
        }
        proof {
            let e = entry_ids(r@);
            let want = match direction {
                Order::Ascending => ids@,
                Order::Descending => ids@.reverse(),
            };
            assert(e =~= want);
            assert forall|x: u64| e.to_set().contains(x) == ids@.to_set().contains(x) by {
                if e.contains(x) {
                    let j = choose|j: int| 0 <= j < e.len() && e[j] == x;
                    match direction {
                        Order::Ascending => {
                            assert(ids@[j] == x);
                        },
                        Order::Descending => {
                            assert(ids@[n - 1 - j] == x);
                        },
                    }
                }
                if ids@.contains(x) {
                    let j = choose|j: int| 0 <= j < ids@.len() && ids@[j] == x;
                    match direction {
                        Order::Ascending => {
                            assert(e[j] == x);
                        },
                        Order::Descending => {
                            assert(e[n - 1 - j] == x);
                        },
                    }
                }
            }
            assert(e.to_set() =~= ids@.to_set());
            assert forall|a: int, b: int| 0 <= a < b < e.len() implies match direction {
                Order::Ascending => lex_lt(
                    file_key(v, key, #[trigger] e[a]),
                    file_key(v, key, #[trigger] e[b]),
                ),
                Order::Descending => lex_lt(file_key(v, key, e[b]), file_key(v, key, e[a])),
            } by {
                match direction {
                    Order::Ascending => {
                        assert(e[a] == ids@[a] && e[b] == ids@[b]);
                    },
                    Order::Descending => {
                        assert(e[a] == ids@[n - 1 - a] && e[b] == ids@[n - 1 - b]);
                    },
                }
            }
        }
        r
    }

    /// The listing of the files that carry `tag`.
    pub fn listing(&self, key: OrderKey, tag: TagRef) -> (ids: Vec<u64>)
        requires
            self.wf(),
        ensures
            listed(self@, key, ids@),
            ids@.to_set() == collapse(self@, key, self@.retrieve(tag.id)),
    {
        let files = self.shelf.retrieve(tag);
        materialize(&self.shelf, key, &files)
    }

    /// The listing of every file.
    pub fn listing_all(&self, key: OrderKey) -> (ids: Vec<u64>)
        requires
            self.wf(),
        ensures
            listed(self@, key, ids@),
            ids@.to_set() == universe(self@, key),
    {
        let files = self.shelf.get_all();
        materialize(&self.shelf, key, &files)
    }

    /// The files that carry `tag`, as a result in the order `order`.
    pub fn get_files<T: FileOrder>(&self, order: &T, tag: TagRef) -> (res: Result<
        Vec<OrderedFileID>,
        QueryErr,
    >)
        requires
            self.wf(),
        ensures
            res matches Ok(r) && presents(self@, order.key(), order.direction(), r@) && entry_ids(
                r@,
            ).to_set() == collapse(self@, order.key(), self@.retrieve(tag.id)),
    {
        let key = order.order_key();
        let ids = self.listing(key, tag);
        Ok(self.present(key, order.order_direction(), &ids))
    }

    /// Every file, as a result in the order `order`.
    pub fn get_all<T: FileOrder>(&self, order: &T) -> (res: Result<Vec<OrderedFileID>, QueryErr>)
        requires
            self.wf(),
        ensures
            res matches Ok(r) && presents(self@, order.key(), order.direction(), r@) && entry_ids(
                r@,
            ).to_set() == universe(self@, order.key()),
    {
        let key = order.order_key();
        let ids = self.listing_all(key);
        Ok(self.present(key, order.order_direction(), &ids))
    }
}

/// A query: a formula and the order of its result.
#[derive(Debug)]
pub struct Query<T: FileOrder + Clone> {
    pub formula: Formula,
    pub order: T,
}

/// The depth up to which `Query::new` takes a query.
pub const DEFAULT_MAX_DEPTH: usize = 256;

impl<T: FileOrder + Clone> Query<T> {
    /// The query that the text `query` is, with its result in the order
    /// `order`. The names in the text are looked up in `tags`. Fails with
    /// `SyntaxError` where the text is no formula, or one deeper than
    /// `DEFAULT_MAX_DEPTH`.
    pub fn new(query: &str, order: T, tags: &TagManager) -> (res: Result<Query<T>, QueryErr>)
        requires
            tags.wf(),
        ensures
            match parse_query(query.spec_bytes(), tags, DEFAULT_MAX_DEPTH as nat) {
                Some(f) => res == Ok::<Query<T>, QueryErr>(Query { formula: f, order })
                    && f.depth() <= DEFAULT_MAX_DEPTH,
                None => res == Err::<Query<T>, QueryErr>(QueryErr::SyntaxError),
            },
    {
        Self::with_max_depth(query, order, tags, DEFAULT_MAX_DEPTH)
    }

    /// As `new`, with the greatest depth that is taken given by `max_depth`.
    /// Reading the text and evaluating the query then go no deeper.
    pub fn with_max_depth(query: &str, order: T, tags: &TagManager, max_depth: usize) -> (res:
        Result<Query<T>, QueryErr>)
        requires
            tags.wf(),
        ensures
            match parse_query(query.spec_bytes(), tags, max_depth as nat) {
                Some(f) => res == Ok::<Query<T>, QueryErr>(Query { formula: f, order })
                    && f.depth() <= max_depth,
                None => res == Err::<Query<T>, QueryErr>(QueryErr::SyntaxError),
            },
    {
        match parse(query.as_bytes(), tags, max_depth) {
            None => Err(QueryErr::SyntaxError),
            Some(formula) => Ok(Query { formula, order }),
        }
    }

    /// The listing of the files that `formula` selects, or `KeyError` where
    /// a proposition of the formula names no tag.
    pub fn recursive_evaluate(formula: &Formula, cache: &MockCacheService, key: OrderKey) -> (res:
        Result<Vec<u64>, QueryErr>)
        requires
            cache.wf(),
        ensures
            match res {
                Ok(ids) => formula.resolved() && listed(cache@, key, ids@) && ids@.to_set()
                    == formula.eval(cache@, key),
                Err(e) => e == QueryErr::KeyError && !formula.resolved(),
            },
        decreases formula,
    {
        proof {
            reveal_with_fuel(Formula::resolved, 2);
            reveal_with_fuel(Formula::eval, 2);
        }
        match formula {
            Formula::Proposition(p) => match p.tag {
                Some(tag) => Ok(cache.listing(key, tag)),
                None => Err(QueryErr::KeyError),
            },
            Formula::BinaryExpression(BinaryOp::AND, x, y) => {
                match y.negated() {
                    Some(b) => {
                        let left = match Self::recursive_evaluate(x, cache, key) {
    Ok(ids) => ids,
    Err(e) => {
        return Err(e);
    },
};
                        let right = match Self::recursive_evaluate(b, cache, key) {
    Ok(ids) => ids,
    Err(e) => {
        return Err(e);
    },
};
                        Ok(keep(cache.shelf(), key, &left, &right, false))
                    },
                    None => match x.negated() {
                        Some(a) => {
                            let left = match Self::recursive_evaluate(a, cache, key) {
    Ok(ids) => ids,
    Err(e) => {
        return Err(e);
    },
};
                            let right = match Self::recursive_evaluate(y, cache, key) {
    Ok(ids) => ids,
    Err(e) => {
        return Err(e);
    },
};
                            Ok(keep(cache.shelf(), key, &right, &left, false))
                        },
                        None => {
                            let left = match Self::recursive_evaluate(x, cache, key) {
    Ok(ids) => ids,
    Err(e) => {
        return Err(e);
    },
};
                            let right = match Self::recursive_evaluate(y, cache, key) {
    Ok(ids) => ids,
    Err(e) => {
        return Err(e);
    },
};
                            Ok(keep(cache.shelf(), key, &left, &right, true))
                        },
                    },
                }
            },
            Formula::BinaryExpression(BinaryOp::OR, x, y) => {
                let left = match Self::recursive_evaluate(x, cache, key) {
    Ok(ids) => ids,
    Err(e) => {
        return Err(e);
    },
};
                let right = match Self::recursive_evaluate(y, cache, key) {
    Ok(ids) => ids,
    Err(e) => {
        return Err(e);
    },
};
                Ok(merge(cache.shelf(), key, left, &right))
            },
            Formula::BinaryExpression(BinaryOp::XOR, x, y) => {
                let left = match Self::recursive_evaluate(x, cache, key) {
    Ok(ids) => ids,
    Err(e) => {
        return Err(e);
    },
};
                let right = match Self::recursive_evaluate(y, cache, key) {
    Ok(ids) => ids,
    Err(e) => {
        return Err(e);
    },
};
                Ok(exclusive(cache.shelf(), key, &left, &right))
            },
            Formula::UnaryExpression(UnaryOp::NOT, x) => {
                let all = cache.listing_all(key);
                let inner = match Self::recursive_evaluate(x, cache, key) {
    Ok(ids) => ids,
    Err(e) => {
        return Err(e);
    },
};
                Ok(keep(cache.shelf(), key, &all, &inner, false))
            },
        }
    }

    /// Simplifies the formula of the query, pass after pass, until a pass
    /// changes nothing.
    pub fn simplify(&mut self)
        ensures
            final(self).formula == old(self).formula.simplified(),
            final(self).formula.is_simplified(),
            final(self).order == old(self).order,
    {
        let mut formula = Formula::Proposition(Proposition { tag: None });
        std::mem::swap(&mut self.formula, &mut formula);
        self.formula = Formula::simplify(formula);
    }

    /// Simplifies the formula, then evaluates it over the cache: the files
    /// that it selects, in the order of the query. Fails with `KeyError`
    /// where a proposition names no tag.
    pub fn evaluate(&mut self, cache: &MockCacheService) -> (res: Result<
        Vec<OrderedFileID>,
        QueryErr,
    >)
        requires
            cache.wf(),
        ensures
            final(self).formula == old(self).formula.simplified(),
            final(self).formula.is_simplified(),
            final(self).order == old(self).order,
            match res {
                Ok(r) => {
                    &&& final(self).formula.resolved()
                    &&& presents(cache@, old(self).order.key(), old(self).order.direction(), r@)
                    &&& entry_ids(r@).to_set() == final(self).formula.eval(
                        cache@,
                        old(self).order.key(),
                    )
                },
                Err(e) => e == QueryErr::KeyError && !final(self).formula.resolved(),
            },
    {
        self.simplify();
        let key = self.order.order_key();
        match Self::recursive_evaluate(&self.formula, cache, key) {
            Err(e) => Err(e),
            Ok(ids) => Ok(cache.present(key, self.order.order_direction(), &ids)),
        }
    }
}

} // verus!
