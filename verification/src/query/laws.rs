//! What holds of the evaluation of formulas, whatever the shelf.

use crate::query::eval::{
    collapse, file_key, files_and, files_minus, files_or, files_xor, has_key, universe,
};
use crate::query::formula::{BinaryOp, Formula, Proposition, UnaryOp};
use crate::query::engine::in_order;
use crate::query::order::{
    lemma_lex_irreflexive, lex_lt, name_key, sort_key, time_key, Order, OrderKey,
};
use crate::shelf::file::{FileMetadata, Timestamp};
use crate::shelf::model::ShelfView;
use crate::tag::TagRef;
use vstd::prelude::*;

verus! {

/// The proposition of a tag.
pub open spec fn tagged(tag: TagRef) -> Formula {
    Formula::Proposition(Proposition { tag: Some(tag) })
}

/// The keys of the files of `s`.
pub open spec fn key_set(v: ShelfView, key: OrderKey, s: Set<u64>) -> Set<Seq<i128>> {
    Set::new(|k: Seq<i128>| has_key(v, key, s, k))
}

impl Formula {
    /// The keys that the formula selects: conjunction, disjunction and
    /// negation of formulas are intersection, union and complement of their
    /// sets of keys, the complement taken in the keys of all files.
    pub open spec fn keys(self, v: ShelfView, key: OrderKey) -> Set<Seq<i128>>
        decreases self,
    {
        match self {
            Formula::Proposition(p) => match p.tag {
                Some(t) => key_set(v, key, v.retrieve(t.id)),
                None => Set::empty(),
            },
            Formula::BinaryExpression(BinaryOp::AND, x, y) => x.keys(v, key).intersect(
                y.keys(v, key),
            ),
            Formula::BinaryExpression(BinaryOp::OR, x, y) => x.keys(v, key).union(y.keys(v, key)),
            Formula::BinaryExpression(BinaryOp::XOR, x, y) => x.keys(v, key).difference(
                y.keys(v, key),
            ).union(y.keys(v, key).difference(x.keys(v, key))),
            Formula::UnaryExpression(_, x) => key_set(v, key, v.all_files()).difference(
                x.keys(v, key),
            ),
        }
    }
}

/// The conjunction of two tags gives the intersection of what is retrieved
/// for them.
pub proof fn law_and(v: ShelfView, key: OrderKey, a: TagRef, b: TagRef)
    ensures
        Formula::BinaryExpression(
            BinaryOp::AND,
            Box::new(tagged(a)),
            Box::new(tagged(b)),
        ).eval(v, key) == files_and(
            v,
            key,
            collapse(v, key, v.retrieve(a.id)),
            collapse(v, key, v.retrieve(b.id)),
        ),
{
    reveal_with_fuel(Formula::eval, 2);
}

/// The disjunction of two tags gives the union of what is retrieved for
/// them.
pub proof fn law_or(v: ShelfView, key: OrderKey, a: TagRef, b: TagRef)
    ensures
        Formula::BinaryExpression(BinaryOp::OR, Box::new(tagged(a)), Box::new(tagged(b))).eval(
            v,
            key,
        ) == files_or(
            v,
            key,
            collapse(v, key, v.retrieve(a.id)),
            collapse(v, key, v.retrieve(b.id)),
        ),
{
    reveal_with_fuel(Formula::eval, 2);
}

/// The negation of a tag gives every file without what is retrieved for
/// the tag.
pub proof fn law_not(v: ShelfView, key: OrderKey, a: TagRef)
    ensures
        Formula::UnaryExpression(UnaryOp::NOT, Box::new(tagged(a))).eval(v, key) == files_minus(
            v,
            key,
            universe(v, key),
            collapse(v, key, v.retrieve(a.id)),
        ),
{
    reveal_with_fuel(Formula::eval, 2);
}

/// Of the files of `s` that share the key of `f`, one stands first.
pub proof fn lemma_first_of_key(v: ShelfView, key: OrderKey, s: Set<u64>, f: u64)
    requires
        s.contains(f),
    ensures
        has_key(v, key, collapse(v, key, s), file_key(v, key, f)),
    decreases f,
{
    let k = file_key(v, key, f);
    if forall|g: u64| #[trigger] s.contains(g) && file_key(v, key, g) == k ==> f <= g {
        assert(collapse(v, key, s).contains(f));
    } else {
        let g = choose|g: u64| #[trigger] s.contains(g) && file_key(v, key, g) == k && !(f <= g);
        lemma_first_of_key(v, key, s, g);
    }
}

/// Bringing a set into a result loses no key.
pub proof fn lemma_collapse_keys(v: ShelfView, key: OrderKey, s: Set<u64>)
    ensures
        key_set(v, key, collapse(v, key, s)) == key_set(v, key, s),
{
    let a = key_set(v, key, collapse(v, key, s));
    let b = key_set(v, key, s);
    assert forall|k: Seq<i128>| a.contains(k) == b.contains(k) by {
        if a.contains(k) {
            let g = choose|g: u64| #[trigger]
                collapse(v, key, s).contains(g) && file_key(v, key, g) == k;
            assert(s.contains(g));
        }
        if b.contains(k) {
            let g = choose|g: u64| #[trigger] s.contains(g) && file_key(v, key, g) == k;
            lemma_first_of_key(v, key, s, g);
        }
    }
    assert(a =~= b);
}

/// The keys of a difference, an intersection, a union and a symmetric
/// difference of sets of files are those of their sets of keys.
pub proof fn lemma_algebra_keys(v: ShelfView, key: OrderKey, a: Set<u64>, b: Set<u64>)
    ensures
        key_set(v, key, files_minus(v, key, a, b)) == key_set(v, key, a).difference(
            key_set(v, key, b),
        ),
        key_set(v, key, files_and(v, key, a, b)) == key_set(v, key, a).intersect(
            key_set(v, key, b),
        ),
        key_set(v, key, files_or(v, key, a, b)) == key_set(v, key, a).union(key_set(v, key, b)),
        key_set(v, key, files_xor(v, key, a, b)) == key_set(v, key, a).difference(
            key_set(v, key, b),
        ).union(key_set(v, key, b).difference(key_set(v, key, a))),
{
    let ka = key_set(v, key, a);
    let kb = key_set(v, key, b);
    lemma_minus_keys(v, key, a, b);
    lemma_minus_keys(v, key, b, a);
    let m = files_and(v, key, a, b);
    assert forall|k: Seq<i128>| key_set(v, key, m).contains(k) == ka.intersect(kb).contains(
        k,
    ) by {
        if key_set(v, key, m).contains(k) {
            let g = choose|g: u64| #[trigger] m.contains(g) && file_key(v, key, g) == k;
            assert(a.contains(g));
        }
        if ka.contains(k) && kb.contains(k) {
            let g = choose|g: u64| #[trigger] a.contains(g) && file_key(v, key, g) == k;
            assert(m.contains(g));
        }
    }
    assert(key_set(v, key, m) =~= ka.intersect(kb));
    lemma_union_keys(v, key, a, files_minus(v, key, b, a));
    assert(key_set(v, key, files_or(v, key, a, b)) =~= ka.union(kb));
    lemma_union_keys(v, key, files_minus(v, key, a, b), files_minus(v, key, b, a));
    assert(key_set(v, key, files_xor(v, key, a, b)) =~= ka.difference(kb).union(
        kb.difference(ka),
    ));
}

proof fn lemma_minus_keys(v: ShelfView, key: OrderKey, a: Set<u64>, b: Set<u64>)
    ensures
        key_set(v, key, files_minus(v, key, a, b)) == key_set(v, key, a).difference(
            key_set(v, key, b),
        ),
{
    let ka = key_set(v, key, a);
    let kb = key_set(v, key, b);
    let m = files_minus(v, key, a, b);
    assert forall|k: Seq<i128>| key_set(v, key, m).contains(k) == ka.difference(kb).contains(
        k,
    ) by {
        if key_set(v, key, m).contains(k) {
            let g = choose|g: u64| #[trigger] m.contains(g) && file_key(v, key, g) == k;
            assert(a.contains(g));
        }
        if ka.contains(k) && !kb.contains(k) {
            let g = choose|g: u64| #[trigger] a.contains(g) && file_key(v, key, g) == k;
            assert(m.contains(g));
        }
    }
    assert(key_set(v, key, m) =~= ka.difference(kb));
}

proof fn lemma_union_keys(v: ShelfView, key: OrderKey, a: Set<u64>, b: Set<u64>)
    ensures
        key_set(v, key, a.union(b)) == key_set(v, key, a).union(key_set(v, key, b)),
{
    let ka = key_set(v, key, a);
    let kb = key_set(v, key, b);
    let u = a.union(b);
    assert forall|k: Seq<i128>| key_set(v, key, u).contains(k) == ka.union(kb).contains(k) by {
        if key_set(v, key, u).contains(k) {
            let g = choose|g: u64| #[trigger] u.contains(g) && file_key(v, key, g) == k;
            if a.contains(g) {
                assert(ka.contains(k));
            } else {
                assert(b.contains(g));
                assert(kb.contains(k));
            }
        }
        if ka.contains(k) {
            let g = choose|g: u64| #[trigger] a.contains(g) && file_key(v, key, g) == k;
            assert(u.contains(g));
        }
        if kb.contains(k) {
            let g = choose|g: u64| #[trigger] b.contains(g) && file_key(v, key, g) == k;
            assert(u.contains(g));
        }
    }
    assert(key_set(v, key, u) =~= ka.union(kb));
}

impl Formula {
    /// The keys that a formula selects are keys of files of the shelf.
    pub proof fn lemma_keys_of_files(self, v: ShelfView, key: OrderKey)
        ensures
            self.keys(v, key).subset_of(key_set(v, key, v.all_files())),
        decreases self,
    {
        match self {
            Formula::Proposition(p) => {
                if let Some(t) = p.tag {
                    assert forall|k: Seq<i128>|
                        key_set(v, key, v.retrieve(t.id)).contains(k) implies key_set(
                        v,
                        key,
                        v.all_files(),
                    ).contains(k) by {
                        let g = choose|g: u64| #[trigger]
                            v.retrieve(t.id).contains(g) && file_key(v, key, g) == k;
                        assert(v.all_files().contains(g));
                    }
                }
            },
            Formula::BinaryExpression(_, x, y) => {
                x.lemma_keys_of_files(v, key);
                y.lemma_keys_of_files(v, key);
            },
            Formula::UnaryExpression(_, x) => {},
        }
    }

    /// The files that a formula selects have the keys that it selects.
    pub proof fn lemma_eval_keys(self, v: ShelfView, key: OrderKey)
        ensures
            key_set(v, key, self.eval(v, key)) == self.keys(v, key),
        decreases self,
    {
        reveal_with_fuel(Formula::keys, 2);
        let all = key_set(v, key, v.all_files());
        match self {
            Formula::Proposition(p) => {
                match p.tag {
                    Some(t) => {
                        lemma_collapse_keys(v, key, v.retrieve(t.id));
                    },
                    None => {
                        assert(key_set(v, key, Set::<u64>::empty()) =~= Set::<Seq<i128>>::empty());
                    },
                }
            },
            Formula::BinaryExpression(BinaryOp::AND, x, y) => {
                x.lemma_eval_keys(v, key);
                y.lemma_eval_keys(v, key);
                x.lemma_keys_of_files(v, key);
                y.lemma_keys_of_files(v, key);
                if y.is_negation() {
                    y.operand().lemma_eval_keys(v, key);
                    lemma_algebra_keys(v, key, x.eval(v, key), y.operand().eval(v, key));
                    assert(x.keys(v, key).difference(y.operand().keys(v, key)) =~= x.keys(
                        v,
                        key,
                    ).intersect(all.difference(y.operand().keys(v, key))));
                } else if x.is_negation() {
                    x.operand().lemma_eval_keys(v, key);
                    lemma_algebra_keys(v, key, y.eval(v, key), x.operand().eval(v, key));
                    assert(y.keys(v, key).difference(x.operand().keys(v, key)) =~= all.difference(
                        x.operand().keys(v, key),
                    ).intersect(y.keys(v, key)));
                } else {
                    lemma_algebra_keys(v, key, x.eval(v, key), y.eval(v, key));
                }
            },
            Formula::BinaryExpression(_, x, y) => {
                x.lemma_eval_keys(v, key);
                y.lemma_eval_keys(v, key);
                lemma_algebra_keys(v, key, x.eval(v, key), y.eval(v, key));
            },
            Formula::UnaryExpression(_, x) => {
                x.lemma_eval_keys(v, key);
                lemma_collapse_keys(v, key, v.all_files());
                lemma_algebra_keys(v, key, universe(v, key), x.eval(v, key));
            },
        }
    }

    /// A pass of the simplifier changes neither the keys that the formula
    /// selects nor whether its propositions all name tags.
    pub proof fn lemma_pass_keeps_keys(self, v: ShelfView, key: OrderKey)
        ensures
            self.simplify_pass().keys(v, key) == self.keys(v, key),
            self.simplify_pass().resolved() == self.resolved(),
        decreases self,
    {
        reveal_with_fuel(Formula::keys, 3);
        reveal_with_fuel(Formula::resolved, 3);
        let all = key_set(v, key, v.all_files());
        match self {
            Formula::Proposition(_) => {},
            Formula::BinaryExpression(op, x, y) => {
                if x.is_negation() && y.is_negation() {
                    let a = x.operand();
                    let b = y.operand();
                    a.lemma_pass_keeps_keys(v, key);
                    b.lemma_pass_keeps_keys(v, key);
                    a.lemma_keys_of_files(v, key);
                    b.lemma_keys_of_files(v, key);
                    let ka = a.keys(v, key);
                    let kb = b.keys(v, key);
                    match op {
                        BinaryOp::AND => {
                            assert(all.difference(ka).intersect(all.difference(kb))
                                =~= all.difference(ka.union(kb)));
                        },
                        BinaryOp::OR => {
                            assert(all.difference(ka).union(all.difference(kb))
                                =~= all.difference(ka.intersect(kb)));
                        },
                        BinaryOp::XOR => {
                            assert(all.difference(ka).difference(all.difference(kb)).union(
                                all.difference(kb).difference(all.difference(ka)),
                            ) =~= ka.difference(kb).union(kb.difference(ka)));
                        },
                    }
                } else {
                    x.lemma_pass_keeps_keys(v, key);
                    y.lemma_pass_keeps_keys(v, key);
                }
            },
            Formula::UnaryExpression(op, x) => {
                if x.is_negation() {
                    let a = x.operand();
                    a.lemma_pass_keeps_keys(v, key);
                    a.lemma_keys_of_files(v, key);
                    let ka = a.keys(v, key);
                    assert(all.difference(all.difference(ka)) =~= ka);
                } else {
                    x.lemma_pass_keeps_keys(v, key);
                }
            },
        }
    }

    /// Simplifying to the end changes neither the keys that the formula
    /// selects nor whether its propositions all name tags.
    pub proof fn lemma_simplified_keeps_keys(self, v: ShelfView, key: OrderKey)
        ensures
            self.simplified().keys(v, key) == self.keys(v, key),
            self.simplified().resolved() == self.resolved(),
        decreases self.negations(),
    {
        if !self.is_simplified() {
            self.lemma_pass_removes_negations();
            self.lemma_pass_keeps_keys(v, key);
            self.simplify_pass().lemma_simplified_keeps_keys(v, key);
        }
    }
}

/// Simplifying a formula does not change what it evaluates to: the
/// simplified formula fails where the formula fails, and selects files of
/// the same keys. (A result holds one file for each key, and is compared by
/// its keys.)
pub proof fn law_simplify_keeps_result(f: Formula, v: ShelfView, key: OrderKey)
    ensures
        f.simplified().resolved() == f.resolved(),
        key_set(v, key, f.simplified().eval(v, key)) == key_set(v, key, f.eval(v, key)),
{
    f.lemma_simplified_keeps_keys(v, key);
    f.lemma_eval_keys(v, key);
    f.simplified().lemma_eval_keys(v, key);
}

impl Formula {
    /// The files that a formula selects are files of the shelf.
    pub proof fn lemma_eval_of_files(self, v: ShelfView, key: OrderKey)
        ensures
            self.eval(v, key).subset_of(v.all_files()),
        decreases self,
    {
        match self {
            Formula::Proposition(p) => {},
            Formula::BinaryExpression(_, x, y) => {
                x.lemma_eval_of_files(v, key);
                y.lemma_eval_of_files(v, key);
            },
            Formula::UnaryExpression(_, x) => {},
        }
    }
}

/// No two files of the shelf have the same key.
pub open spec fn distinct_keys(v: ShelfView, key: OrderKey) -> bool {
    forall|f: u64, g: u64|
        f < v.files.len() && g < v.files.len() && f != g ==> #[trigger] file_key(v, key, f)
            != #[trigger] file_key(v, key, g)
}

/// Where no two files of the shelf have the same key, simplifying a
/// formula does not change the files that it selects.
pub proof fn law_simplify_keeps_files(f: Formula, v: ShelfView, key: OrderKey)
    requires
        distinct_keys(v, key),
    ensures
        f.simplified().eval(v, key) == f.eval(v, key),
{
    law_simplify_keeps_result(f, v, key);
    f.lemma_eval_of_files(v, key);
    f.simplified().lemma_eval_of_files(v, key);
    let a = f.simplified().eval(v, key);
    let b = f.eval(v, key);
    assert forall|x: u64| a.contains(x) == b.contains(x) by {
        let k = file_key(v, key, x);
        if a.contains(x) {
            assert(v.all_files().contains(x));
            assert(key_set(v, key, a).contains(k));
            assert(key_set(v, key, b).contains(k));
            let g = choose|g: u64| #[trigger] b.contains(g) && file_key(v, key, g) == k;
            assert(v.all_files().contains(g));
        }
        if b.contains(x) {
            assert(v.all_files().contains(x));
            assert(key_set(v, key, b).contains(k));
            assert(key_set(v, key, a).contains(k));
            let g = choose|g: u64| #[trigger] a.contains(g) && file_key(v, key, g) == k;
            assert(v.all_files().contains(g));
        }
    }
    assert(a =~= b);
}

/// In a result no key stands twice, and so no file: files that share a key
/// collapse to one.
pub proof fn law_one_file_per_key(
    v: ShelfView,
    key: OrderKey,
    direction: Order,
    ids: Seq<u64>,
    i: int,
    j: int,
)
    requires
        in_order(v, key, direction, ids),
        0 <= i < ids.len(),
        0 <= j < ids.len(),
        i != j,
    ensures
        file_key(v, key, ids[i]) != file_key(v, key, ids[j]),
        ids[i] != ids[j],
{
    lemma_lex_irreflexive(file_key(v, key, ids[i]));
    if i < j {
        assert(lex_lt(file_key(v, key, ids[i]), file_key(v, key, ids[j])) || lex_lt(
            file_key(v, key, ids[j]),
            file_key(v, key, ids[i]),
        ));
    } else {
        assert(lex_lt(file_key(v, key, ids[j]), file_key(v, key, ids[i])) || lex_lt(
            file_key(v, key, ids[i]),
            file_key(v, key, ids[j]),
        ));
    }
}

/// Of the files of a set that share a key, bringing the set into a result
/// keeps one.
pub proof fn law_collapse(v: ShelfView, key: OrderKey, s: Set<u64>, f: u64, g: u64)
    requires
        collapse(v, key, s).contains(f),
        collapse(v, key, s).contains(g),
        file_key(v, key, f) == file_key(v, key, g),
    ensures
        f == g,
{
    assert(s.contains(f) && s.contains(g));
}

/// By size, a file comes before another exactly when it has fewer bytes,
/// and two files share a key exactly when they have the same size.
pub proof fn law_size_order(a: FileMetadata, b: FileMetadata, name_a: Seq<u8>, name_b: Seq<u8>)
    ensures
        lex_lt(sort_key(OrderKey::Size, name_a, a), sort_key(OrderKey::Size, name_b, b)) == (a.size
            < b.size),
        (sort_key(OrderKey::Size, name_a, a) == sort_key(OrderKey::Size, name_b, b)) == (a.size
            == b.size),
{
    let ka = sort_key(OrderKey::Size, name_a, a);
    let kb = sort_key(OrderKey::Size, name_b, b);
    assert(ka[0] == a.size as i128);
    assert(kb[0] == b.size as i128);
    assert(ka.drop_first() =~= Seq::<i128>::empty());
    assert(kb.drop_first() =~= Seq::<i128>::empty());
    if a.size == b.size {
        assert(ka =~= kb);
        lemma_lex_irreflexive(ka);
    }
}

/// By a time, a file whose time is not known comes before every file whose
/// time is known; of two known times the earlier comes first, by seconds
/// and then by nanoseconds; and two files share a key exactly when their
/// times are the same.
pub proof fn law_time_order(a: Option<Timestamp>, b: Option<Timestamp>)
    ensures
        lex_lt(time_key(a), time_key(b)) == match (a, b) {
            (_, None) => false,
            (None, Some(_)) => true,
            (Some(x), Some(y)) => x.secs < y.secs || (x.secs == y.secs && x.nanos < y.nanos),
        },
        (time_key(a) == time_key(b)) == (a == b),
{
    reveal_with_fuel(lex_lt, 3);
    let ka = time_key(a);
    let kb = time_key(b);
    match (a, b) {
        (Some(x), Some(y)) => {
            assert(ka[0] == x.secs as i128 && ka[1] == x.nanos as i128);
            assert(kb[0] == y.secs as i128 && kb[1] == y.nanos as i128);
            let ta = ka.drop_first();
            let tb = kb.drop_first();
            assert(ta =~= seq![x.nanos as i128]);
            assert(tb =~= seq![y.nanos as i128]);
            assert(ta[0] == x.nanos as i128 && tb[0] == y.nanos as i128);
            assert(ta.drop_first() =~= Seq::<i128>::empty());
            assert(tb.drop_first() =~= Seq::<i128>::empty());
            if x.secs == y.secs && x.nanos == y.nanos {
                assert(ka =~= kb);
                lemma_lex_irreflexive(ka);
            }
        },
        (None, Some(y)) => {
            assert(kb.len() == 2);
        },
        (Some(x), None) => {
            assert(ka.len() == 2);
        },
        (None, None) => {},
    }
}

/// The name `a` comes before the name `b` in the order of the dictionary:
/// up to some place they agree, and there `a` ends while `b` goes on, or
/// `a` has the smaller byte.
pub open spec fn name_before(a: Seq<u8>, b: Seq<u8>) -> bool {
    exists|i: int| differ_at(a, b, i)
}

pub open spec fn differ_at(a: Seq<u8>, b: Seq<u8>, i: int) -> bool {
    &&& 0 <= i <= a.len()
    &&& i <= b.len()
    &&& a.take(i) == b.take(i)
    &&& (i == a.len() && i < b.len()) || (i < a.len() && i < b.len() && a[i] < b[i])
}

/// By name, a file comes before another exactly when its name comes before
/// the other's in the order of the dictionary, and two files share a key
/// exactly when they have the same name.
pub proof fn law_name_order(a: Seq<u8>, b: Seq<u8>)
    ensures
        lex_lt(name_key(a), name_key(b)) == name_before(a, b),
        (name_key(a) == name_key(b)) == (a == b),
    decreases a.len(),
{
    let ka = name_key(a);
    let kb = name_key(b);
    if name_key(a) == name_key(b) {
        assert(a.len() == b.len());
        assert forall|i: int| 0 <= i < a.len() implies a[i] == b[i] by {
            assert(ka[i] == a[i] as i128);
            assert(kb[i] == b[i] as i128);
        }
        assert(a =~= b);
    }
    if b.len() == 0 {
        assert forall|i: int| !differ_at(a, b, i) by {}
    } else if a.len() == 0 {
        assert(a.take(0) =~= b.take(0));
        assert(differ_at(a, b, 0));
    } else {
        let ta = a.drop_first();
        let tb = b.drop_first();
        assert(ka[0] == a[0] as i128 && kb[0] == b[0] as i128);
        assert(ka.drop_first() =~= name_key(ta));
        assert(kb.drop_first() =~= name_key(tb));
        law_name_order(ta, tb);
        if a[0] != b[0] {
            if a[0] < b[0] {
                assert(a.take(0) =~= b.take(0));
                assert(differ_at(a, b, 0));
            } else {
                assert forall|i: int| !differ_at(a, b, i) by {
                    if differ_at(a, b, i) && i > 0 {
                        assert(a.take(i)[0] == b.take(i)[0]);
                    }
                }
            }
        } else {
            if name_before(ta, tb) {
                let i = choose|i: int| differ_at(ta, tb, i);
                assert(a.take(i + 1) =~= seq![a[0]] + ta.take(i));
                assert(b.take(i + 1) =~= seq![b[0]] + tb.take(i));
                assert(differ_at(a, b, i + 1));
            }
            if name_before(a, b) {
                let i = choose|i: int| differ_at(a, b, i);
                assert(i > 0);
                assert(ta.take(i - 1) =~= a.take(i).drop_first());
                assert(tb.take(i - 1) =~= b.take(i).drop_first());
                assert(differ_at(ta, tb, i - 1));
            }
        }
    }
}

} // verus!
