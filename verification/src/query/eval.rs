//! What a formula means over a shelf, and the set algebra that computes it.
//!
//! A result holds at most one file for each key of the order. So the sets
//! here are sets of files that are compared by their keys: a file is in the
//! intersection of two sets where it is in the first and the second holds a
//! file of the same key, and so on.

use crate::idset::IdSet;
use crate::query::formula::{BinaryOp, Formula, UnaryOp};
use crate::query::order::{
    lemma_lex_irreflexive, lemma_lex_total, lemma_lex_transitive, lex_lt, rank, rank_by, sort_key,
    OrderKey, Rank,
};
use crate::shelf::file::FileRef;
use crate::shelf::model::ShelfView;
use crate::shelf::shelf::Shelf;
use vstd::prelude::*;

verus! {

/// The key of file `f` of the shelf.
pub open spec fn file_key(v: ShelfView, key: OrderKey, f: u64) -> Seq<i128> {
    sort_key(key, v.files[f as int].name, v.files[f as int].metadata)
}

/// Whether `s` holds a file whose key is `k`.
pub open spec fn has_key(v: ShelfView, key: OrderKey, s: Set<u64>, k: Seq<i128>) -> bool {
    exists|g: u64| #[trigger] s.contains(g) && file_key(v, key, g) == k
}

/// What is left of `s` when it is brought into a result: of the files that
/// share a key, the one that stands first in the shelf.
pub open spec fn collapse(v: ShelfView, key: OrderKey, s: Set<u64>) -> Set<u64> {
    Set::new(
        |f: u64|
            s.contains(f) && forall|g: u64|
                #[trigger] s.contains(g) && file_key(v, key, g) == file_key(v, key, f) ==> f <= g,
    )
}

/// The files of `a` whose key `b` does not hold.
pub open spec fn files_minus(v: ShelfView, key: OrderKey, a: Set<u64>, b: Set<u64>) -> Set<u64> {
    Set::new(|f: u64| a.contains(f) && !has_key(v, key, b, file_key(v, key, f)))
}

/// The files of `a` whose key `b` holds too.
pub open spec fn files_and(v: ShelfView, key: OrderKey, a: Set<u64>, b: Set<u64>) -> Set<u64> {
    Set::new(|f: u64| a.contains(f) && has_key(v, key, b, file_key(v, key, f)))
}

/// The files of `a`, and those of `b` whose key `a` does not hold.
pub open spec fn files_or(v: ShelfView, key: OrderKey, a: Set<u64>, b: Set<u64>) -> Set<u64> {
    a.union(files_minus(v, key, b, a))
}

/// The files of either set whose key the other does not hold.
pub open spec fn files_xor(v: ShelfView, key: OrderKey, a: Set<u64>, b: Set<u64>) -> Set<u64> {
    files_minus(v, key, a, b).union(files_minus(v, key, b, a))
}

/// Every file of the shelf, brought into a result.
pub open spec fn universe(v: ShelfView, key: OrderKey) -> Set<u64> {
    collapse(v, key, v.all_files())
}

impl Formula {
    /// Every proposition of the formula names a tag.
    pub open spec fn resolved(self) -> bool
        decreases self,
    {
        match self {
            Formula::Proposition(p) => p.tag is Some,
            Formula::BinaryExpression(_, x, y) => x.resolved() && y.resolved(),
            Formula::UnaryExpression(_, x) => x.resolved(),
        }
    }

    /// The files that the formula selects from the shelf, under the order
    /// key `key`:
    ///
    /// - a proposition: what the shelf retrieves for its tag;
    /// - `x AND NOT y`: the files of `x` without those of `y`, and likewise
    ///   `NOT x AND y`; any other `x AND y`: the intersection;
    /// - `x OR y`: the union; `x XOR y`: the symmetric difference;
    /// - `NOT x`: every file of the shelf without those of `x`.
    pub open spec fn eval(self, v: ShelfView, key: OrderKey) -> Set<u64>
        decreases self,
    {
        match self {
            Formula::Proposition(p) => match p.tag {
                Some(t) => collapse(v, key, v.retrieve(t.id)),
                None => Set::empty(),
            },
            Formula::BinaryExpression(BinaryOp::AND, x, y) => {
                if y.is_negation() {
                    files_minus(v, key, x.eval(v, key), y.operand().eval(v, key))
                } else if x.is_negation() {
                    files_minus(v, key, y.eval(v, key), x.operand().eval(v, key))
                } else {
                    files_and(v, key, x.eval(v, key), y.eval(v, key))
                }
            },
            Formula::BinaryExpression(BinaryOp::OR, x, y) => files_or(
                v,
                key,
                x.eval(v, key),
                y.eval(v, key),
            ),
            Formula::BinaryExpression(BinaryOp::XOR, x, y) => files_xor(
                v,
                key,
                x.eval(v, key),
                y.eval(v, key),
            ),
            Formula::UnaryExpression(_, x) => files_minus(
                v,
                key,
                universe(v, key),
                x.eval(v, key),
            ),
        }
    }
}

/// `ids` lists files of the shelf in ascending order of their keys, each
/// key once.
pub open spec fn listed(v: ShelfView, key: OrderKey, ids: Seq<u64>) -> bool {
    &&& forall|i: int| 0 <= i < ids.len() ==> (#[trigger] ids[i]) < v.files.len()
    &&& forall|i: int, j: int|
        0 <= i < j < ids.len() ==> lex_lt(
            file_key(v, key, #[trigger] ids[i]),
            file_key(v, key, #[trigger] ids[j]),
        )
}

/// How file `a` stands to file `b` by the key `key`.
pub fn rank_files(shelf: &Shelf, key: OrderKey, a: u64, b: u64) -> (r: Rank)
    requires
        shelf.wf(),
        a < shelf@.files.len(),
        b < shelf@.files.len(),
    ensures
        r == rank(file_key(shelf@, key, a), file_key(shelf@, key, b)),
{
    let fa = shelf.file(FileRef { id: a }).unwrap();
    let fb = shelf.file(FileRef { id: b }).unwrap();
    rank_by(key, fa.name.as_slice(), &fa.metadata, fb.name.as_slice(), &fb.metadata)
}

/// Whether `ids` holds a file with the key of file `f`.
pub fn holds_key(shelf: &Shelf, key: OrderKey, ids: &Vec<u64>, f: u64) -> (b: bool)
    requires
        shelf.wf(),
        f < shelf@.files.len(),
        forall|i: int| 0 <= i < ids@.len() ==> (#[trigger] ids@[i]) < shelf@.files.len(),
    ensures
        b == has_key(shelf@, key, ids@.to_set(), file_key(shelf@, key, f)),
{
    let ghost v = shelf@;
    let ghost k = file_key(v, key, f);
    let mut i: usize = 0;
    while i < ids.len()
        invariant
            shelf.wf(),
            v == shelf@,
            k == file_key(v, key, f),
            f < v.files.len(),
            i <= ids@.len(),
            forall|j: int| 0 <= j < ids@.len() ==> (#[trigger] ids@[j]) < v.files.len(),
            forall|j: int| 0 <= j < i ==> file_key(v, key, #[trigger] ids@[j]) != k,
        decreases ids@.len() - i,
    {
        match rank_files(shelf, key, ids[i], f) {
            Rank::Same => {
                proof {
                    lemma_lex_irreflexive(k);
                    assert(ids@.contains(ids@[i as int]));
                    assert(ids@.to_set().contains(ids@[i as int]));
                }
                return true;
            },
            _ => {
                proof {
                    lemma_lex_irreflexive(k);
                }
            },
        }
        i += 1;
    }
    proof {
        if has_key(v, key, ids@.to_set(), k) {
            let g = choose|g: u64| #[trigger] ids@.to_set().contains(g) && file_key(v, key, g) == k;
            let j = choose|j: int| 0 <= j < ids@.len() && ids@[j] == g;
            assert(file_key(v, key, ids@[j]) != k);
        }
    }
    false
}

/// Puts file `f` into the listing at the place of its key, unless the
/// listing holds a file of that key already. Returns whether it went in.
pub fn insert_sorted(shelf: &Shelf, key: OrderKey, ids: &mut Vec<u64>, f: u64) -> (fresh: bool)
    requires
        shelf.wf(),
        f < shelf@.files.len(),
        listed(shelf@, key, old(ids)@),
    ensures
        listed(shelf@, key, final(ids)@),
        fresh == !has_key(shelf@, key, old(ids)@.to_set(), file_key(shelf@, key, f)),
        final(ids)@.to_set() == if fresh {
            old(ids)@.to_set().insert(f)
        } else {
            old(ids)@.to_set()
        },
{
    let ghost v = shelf@;
    let ghost k = file_key(v, key, f);
    let ghost before = ids@;
    let mut i: usize = 0;
    while i < ids.len()
        invariant
            shelf.wf(),
            v == shelf@,
            k == file_key(v, key, f),
            f < v.files.len(),
            ids@ == before,
            before == old(ids)@,
            listed(v, key, before),
            i <= before.len(),
            forall|j: int| 0 <= j < i ==> lex_lt(file_key(v, key, #[trigger] before[j]), k),
        decreases before.len() - i,
    {
        match rank_files(shelf, key, ids[i], f) {
            Rank::Before => {},
            Rank::Same => {
                proof {
                    assert(before.contains(before[i as int]));
                    assert(before.to_set().contains(before[i as int]));
                }
                return false;
            },
            Rank::After => {
                proof {
                    let ki = file_key(v, key, before[i as int]);
                    lemma_lex_total(ki, k);
                    assert(lex_lt(k, ki));
                    assert forall|j: int| i <= j < before.len() implies lex_lt(
                        k,
                        file_key(v, key, #[trigger] before[j]),
                    ) by {
                        if j > i {
                            lemma_lex_transitive(k, ki, file_key(v, key, before[j]));
                        }
                    }
                    lemma_absent(v, key, before, f, i as int);
                }
                ids.insert(i, f);
                proof {
                    let after = ids@;
                    assert(after == before.insert(i as int, f));
                    assert forall|a: int, b: int| 0 <= a < b < after.len() implies lex_lt(
                        file_key(v, key, #[trigger] after[a]),
                        file_key(v, key, #[trigger] after[b]),
                    ) by {
                        let x = if a < i { before[a] } else if a == i { f } else { before[a - 1] };
                        let y = if b < i { before[b] } else if b == i { f } else { before[b - 1] };
                        assert(after[a] == x);
                        assert(after[b] == y);
                    }
                    lemma_insert_set(before, i as int, f);
                }
                return true;
            },
        }
        i += 1;
    }
    proof {
        lemma_absent(v, key, before, f, before.len() as int);
    }
    ids.push(f);
    proof {
        let after = ids@;
        assert(after =~= before.insert(before.len() as int, f));
        lemma_insert_set(before, before.len() as int, f);
    }
    true
}

/// A key that lies strictly between the keys before place `i` and those
/// from `i` on is the key of no file of the listing.
proof fn lemma_absent(v: ShelfView, key: OrderKey, ids: Seq<u64>, f: u64, i: int)
    requires
        0 <= i <= ids.len(),
        forall|j: int| 0 <= j < i
            ==> lex_lt(file_key(v, key, #[trigger] ids[j]), file_key(v, key, f)),
        forall|j: int|
            i <= j < ids.len() ==> lex_lt(file_key(v, key, f), file_key(v, key, #[trigger] ids[j])),
    ensures
        !has_key(v, key, ids.to_set(), file_key(v, key, f)),
{
    let k = file_key(v, key, f);
    lemma_lex_irreflexive(k);
    if has_key(v, key, ids.to_set(), k) {
        let g = choose|g: u64| #[trigger] ids.to_set().contains(g) && file_key(v, key, g) == k;
        let j = choose|j: int| 0 <= j < ids.len() && ids[j] == g;
        if j < i {
            assert(lex_lt(file_key(v, key, ids[j]), k));
        } else {
            assert(lex_lt(k, file_key(v, key, ids[j])));
        }
    }
}

/// What a sequence holds after an insertion.
proof fn lemma_insert_set(s: Seq<u64>, i: int, f: u64)
    requires
        0 <= i <= s.len(),
    ensures
        s.insert(i, f).to_set() == s.to_set().insert(f),
{
    let t = s.insert(i, f);
    assert forall|x: u64| t.contains(x) == (s.contains(x) || x == f) by {
        if s.contains(x) {
            let j = choose|j: int| 0 <= j < s.len() && s[j] == x;
            if j < i {
                assert(t[j] == x);
            } else {
                assert(t[j + 1] == x);
            }
        }
        if x == f {
            assert(t[i] == x);
        }
        if t.contains(x) && x != f {
            let j = choose|j: int| 0 <= j < t.len() && t[j] == x;
            if j < i {
                assert(s[j] == x);
            } else {
                assert(s[j - 1] == x);
            }
        }
    }
    assert(t.to_set() =~= s.to_set().insert(f));
}

/// The files of `a` whose key `b` holds (`present`) or does not hold.
pub fn keep(shelf: &Shelf, key: OrderKey, a: &Vec<u64>, b: &Vec<u64>, present: bool) -> (out: Vec<
    u64,
>)
    requires
        shelf.wf(),
        listed(shelf@, key, a@),
        listed(shelf@, key, b@),
    ensures
        listed(shelf@, key, out@),
        out@.to_set() == if present {
            files_and(shelf@, key, a@.to_set(), b@.to_set())
        } else {
            files_minus(shelf@, key, a@.to_set(), b@.to_set())
        },
{
    let ghost v = shelf@;
    let mut out: Vec<u64> = Vec::new();
    let mut i: usize = 0;
    while i < a.len()
        invariant
            shelf.wf(),
            v == shelf@,
            listed(v, key, a@),
            listed(v, key, b@),
            listed(v, key, out@),
            i <= a@.len(),
            forall|j: int|
                0 <= j < out@.len() ==> exists|m: int| 0 <= m < i && a@[m] == #[trigger] out@[j],
            forall|m: int|
                0 <= m < i ==> (out@.contains(#[trigger] a@[m]) <==> (has_key(
                    v,
                    key,
                    b@.to_set(),
                    file_key(v, key, a@[m]),
                ) == present)),
        decreases a@.len() - i,
    {
        let x = a[i];
        let there = holds_key(shelf, key, b, x);
        let ghost before = out@;
        if there == present {
            out.push(x);
            proof {
                assert forall|p: int, q: int| 0 <= p < q < out@.len() implies lex_lt(
                    file_key(v, key, #[trigger] out@[p]),
                    file_key(v, key, #[trigger] out@[q]),
                ) by {
                    if q == before.len() {
                        let m = choose|m: int| 0 <= m < i && a@[m] == before[p];
                        assert(lex_lt(file_key(v, key, a@[m]), file_key(v, key, a@[i as int])));
                    } else {
                        assert(out@[p] == before[p] && out@[q] == before[q]);
                    }
                }
                assert forall|j: int| 0 <= j < out@.len() implies exists|m: int|
                    0 <= m < i + 1 && a@[m] == #[trigger] out@[j] by {
                    if j < before.len() {
                        let m = choose|m: int| 0 <= m < i && a@[m] == before[j];
                        assert(a@[m] == out@[j]);
                    } else {
                        assert(a@[i as int] == out@[j]);
                    }
                }
            }
        }
        proof {
            assert forall|m: int| 0 <= m < i + 1 implies (out@.contains(#[trigger] a@[m]) <==> (
            has_key(v, key, b@.to_set(), file_key(v, key, a@[m])) == present)) by {
                if m < i {
                    if before.contains(a@[m]) {
                        let j = choose|j: int| 0 <= j < before.len() && before[j] == a@[m];
                        assert(out@[j] == a@[m]);
                    }
                    if out@.contains(a@[m]) && !before.contains(a@[m]) {
                        let j = choose|j: int| 0 <= j < out@.len() && out@[j] == a@[m];
                        assert(j == before.len());
                        assert(a@[m] == a@[i as int]);
                        lemma_lex_irreflexive(file_key(v, key, a@[m]));
                    }
                } else {
                    if there == present {
                        assert(out@[before.len() as int] == x);
                    } else {
                        if out@.contains(x) {
                            let j = choose|j: int| 0 <= j < out@.len() && out@[j] == x;
                            let q = choose|q: int| 0 <= q < i && a@[q] == out@[j];
                            lemma_lex_irreflexive(file_key(v, key, x));
                        }
                    }
                }
            }
        }
        i += 1;
    }
    proof {
        let want = if present {
            files_and(v, key, a@.to_set(), b@.to_set())
        } else {
            files_minus(v, key, a@.to_set(), b@.to_set())
        };
        assert forall|x: u64| out@.to_set().contains(x) == want.contains(x) by {
            if out@.contains(x) {
                let j = choose|j: int| 0 <= j < out@.len() && out@[j] == x;
                let m = choose|m: int| 0 <= m < i && a@[m] == out@[j];
                assert(out@.contains(a@[m]));
                assert(a@.contains(x));
            }
            if a@.contains(x) {
                let m = choose|m: int| 0 <= m < a@.len() && a@[m] == x;
                assert(out@.contains(a@[m]) <==> (has_key(
                    v,
                    key,
                    b@.to_set(),
                    file_key(v, key, a@[m]),
                ) == present));
            }
        }
        assert(out@.to_set() =~= want);
    }
    out
}

/// File `x` is one of the first `i` files of `b`, and `first` does not hold
/// its key.
pub open spec fn brought(
    v: ShelfView,
    key: OrderKey,
    first: Set<u64>,
    b: Seq<u64>,
    i: int,
    x: u64,
) -> bool {
    !has_key(v, key, first, file_key(v, key, x)) && exists|m: int|
        0 <= m < i && m < b.len() && #[trigger] b[m] == x
}

/// The files of `a`, and those of `b` whose key `a` does not hold.
pub fn merge(shelf: &Shelf, key: OrderKey, a: Vec<u64>, b: &Vec<u64>) -> (out: Vec<u64>)
    requires
        shelf.wf(),
        listed(shelf@, key, a@),
        listed(shelf@, key, b@),
    ensures
        listed(shelf@, key, out@),
        out@.to_set() == files_or(shelf@, key, a@.to_set(), b@.to_set()),
{
    let ghost v = shelf@;
    let ghost first = a@.to_set();
    let mut out = a;
    let mut i: usize = 0;
    while i < b.len()
        invariant
            shelf.wf(),
            v == shelf@,
            listed(v, key, b@),
            listed(v, key, out@),
            i <= b@.len(),
            forall|x: u64|
                #[trigger] out@.to_set().contains(x) <==> (first.contains(x) || brought(
                    v,
                    key,
                    first,
                    b@,
                    i as int,
                    x,
                )),
        decreases b@.len() - i,
    {
        let y = b[i];
        let ghost before = out@.to_set();
        let ghost ky = file_key(v, key, y);
        let fresh = insert_sorted(shelf, key, &mut out, y);
        proof {
            // the listing holds the key of `y` exactly when `a` does
            if has_key(v, key, before, ky) && !has_key(v, key, first, ky) {
                let g = choose|g: u64| #[trigger] before.contains(g) && file_key(v, key, g) == ky;
                assert(!first.contains(g));
                assert(brought(v, key, first, b@, i as int, g));
                let m = choose|m: int| 0 <= m < i && m < b@.len() && #[trigger] b@[m] == g;
                assert(lex_lt(file_key(v, key, b@[m]), file_key(v, key, b@[i as int])));
                lemma_lex_irreflexive(ky);
            }
            if has_key(v, key, first, ky) {
                let g = choose|g: u64| #[trigger] first.contains(g) && file_key(v, key, g) == ky;
                assert(before.contains(g));
            }
            assert(fresh == !has_key(v, key, first, ky));
            assert forall|x: u64| #[trigger]
                out@.to_set().contains(x) <==> (first.contains(x) || brought(
                    v,
                    key,
                    first,
                    b@,
                    i + 1,
                    x,
                )) by {
                let was = before.contains(x);
                if brought(v, key, first, b@, i as int, x) {
                    let m = choose|m: int| 0 <= m < i && m < b@.len() && #[trigger] b@[m] == x;
                    assert(0 <= m < i + 1 && b@[m] == x);
                }
                if brought(v, key, first, b@, i + 1, x) {
                    let m = choose|m: int| 0 <= m < i + 1 && m < b@.len() && #[trigger] b@[m] == x;
                    if m < i {
                        assert(brought(v, key, first, b@, i as int, x));
                    }
                }
                if x == y && fresh {
                    assert(b@[i as int] == x);
                }
            }
        }
        i += 1;
    }
    proof {
        let want = files_or(v, key, first, b@.to_set());
        assert forall|x: u64| out@.to_set().contains(x) == want.contains(x) by {
            if brought(v, key, first, b@, i as int, x) {
                let m = choose|m: int| 0 <= m < i && m < b@.len() && #[trigger] b@[m] == x;
                assert(b@.contains(x));
            }
            if b@.contains(x) {
                let m = choose|m: int| 0 <= m < b@.len() && b@[m] == x;
                assert(0 <= m < i && b@[m] == x);
            }
        }
        assert(out@.to_set() =~= want);
    }
    out
}

/// The files of either listing whose key the other does not hold.
pub fn exclusive(shelf: &Shelf, key: OrderKey, a: &Vec<u64>, b: &Vec<u64>) -> (out: Vec<u64>)
    requires
        shelf.wf(),
        listed(shelf@, key, a@),
        listed(shelf@, key, b@),
    ensures
        listed(shelf@, key, out@),
        out@.to_set() == files_xor(shelf@, key, a@.to_set(), b@.to_set()),
{
    let ghost v = shelf@;
    let left = keep(shelf, key, a, b, false);
    let right = keep(shelf, key, b, a, false);
    let out = merge(shelf, key, left, &right);
    proof {
        // no file of `right` has a key that `left` holds
        let l = left@.to_set();
        let r = right@.to_set();
        assert forall|x: u64| files_minus(v, key, r, l).contains(x) == r.contains(x) by {
            if r.contains(x) && has_key(v, key, l, file_key(v, key, x)) {
                let g = choose|g: u64| #[trigger] l.contains(g)
                    && file_key(v, key, g) == file_key(v, key, x);
                assert(a@.to_set().contains(g));
            }
        }
        assert(files_minus(v, key, r, l) =~= r);
    }
    out
}

/// Brings a set of files of the shelf into a listing: of the files that
/// share a key, the one that stands first in the shelf stays.
pub fn materialize(shelf: &Shelf, key: OrderKey, files: &IdSet) -> (out: Vec<u64>)
    requires
        shelf.wf(),
        forall|f: u64| files@.contains(f) ==> f < shelf@.files.len(),
    ensures
        listed(shelf@, key, out@),
        out@.to_set() == collapse(shelf@, key, files@),
{
    let ghost v = shelf@;
    let ghost s = files@;
    let count = shelf.file_count() as u64;
    let mut out: Vec<u64> = Vec::new();
    let mut f: u64 = 0;
    while f < count
        invariant
            shelf.wf(),
            v == shelf@,
            s == files@,
            count == v.files.len(),
            f <= count,
            listed(v, key, out@),
            forall|r: u64|
                #[trigger] out@.to_set().contains(r) ==> s.contains(r) && r < f && forall|g: u64|
                    #[trigger] s.contains(g) && file_key(v, key, g) == file_key(v, key, r) ==> r
                        <= g,
            forall|g: u64|
                #[trigger] s.contains(g) && g < f ==> has_key(
                    v,
                    key,
                    out@.to_set(),
                    file_key(v, key, g),
                ),
        decreases count - f,
    {
        let ghost before = out@.to_set();
        if files.contains(f) {
            let fresh = insert_sorted(shelf, key, &mut out, f);
            proof {
                if fresh {
                    assert forall|g: u64|
                        #[trigger] s.contains(g) && file_key(v, key, g) == file_key(
                            v,
                            key,
                            f,
                        ) implies f <= g by {
                        if g < f {
                            assert(has_key(v, key, before, file_key(v, key, g)));
                        }
                    }
                }
                assert forall|g: u64| #[trigger] s.contains(g) && g < f + 1 implies has_key(
                    v,
                    key,
                    out@.to_set(),
                    file_key(v, key, g),
                ) by {
                    if g < f {
                        let r = choose|r: u64|
                            #[trigger] before.contains(r) && file_key(v, key, r) == file_key(
                                v,
                                key,
                                g,
                            );
                        assert(out@.to_set().contains(r));
                    } else {
                        if fresh {
                            assert(out@.to_set().contains(f));
                        } else {
                            let r = choose|r: u64|
                                #[trigger] before.contains(r) && file_key(v, key, r) == file_key(
                                    v,
                                    key,
                                    f,
                                );
                            assert(out@.to_set().contains(r));
                        }
                    }
                }
            }
        }
        f += 1;
    }
    proof {
        let want = collapse(v, key, s);
        assert forall|x: u64| out@.to_set().contains(x) == want.contains(x) by {
            if want.contains(x) {
                assert(s.contains(x));
                let r = choose|r: u64|
                    #[trigger] out@.to_set().contains(r) && file_key(v, key, r) == file_key(
                        v,
                        key,
                        x,
                    );
                assert(s.contains(r));
                assert(x <= r);
                assert(r <= x);
            }
        }
        assert(out@.to_set() =~= want);
    }
    out
}

} // verus!
