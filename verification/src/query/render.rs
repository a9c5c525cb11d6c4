//! Writing a formula out as text, and reading it back.

use crate::query::formula::{BinaryOp, Formula, Proposition, UnaryOp};
use crate::query::parser::{
    advanced, is_space, keyword, level_op, name_end, not_keyword, parse_level, parse_not,
    parse_primary, parse_query, parse_tail, skip_spaces, word_at, Parsed, CLOSE, OPEN, QUOTE,
};
use crate::tag::{TagManager, TagRef};
use vstd::prelude::*;

verus! {

/// The level of the grammar of a binary operator.
pub open spec fn op_level(op: BinaryOp) -> int {
    match op {
        BinaryOp::OR => 0,
        BinaryOp::XOR => 1,
        BinaryOp::AND => 2,
    }
}

/// The text of a formula: every tag by its name in quotes, every operand
/// of an operator in parentheses.
pub open spec fn render(f: Formula, tags: &TagManager) -> Seq<u8>
    decreases f,
{
    match f {
        Formula::Proposition(p) => match p.tag {
            Some(t) => seq![QUOTE] + tags.names()[t.id as int] + seq![QUOTE],
            None => seq![QUOTE, QUOTE],
        },
        Formula::BinaryExpression(op, x, y) => seq![OPEN] + render(*x, tags) + seq![CLOSE, 32u8]
            + keyword(op) + seq![32u8, OPEN] + render(*y, tags) + seq![CLOSE],
        Formula::UnaryExpression(_, x) => not_keyword() + seq![32u8, OPEN] + render(*x, tags)
            + seq![CLOSE],
    }
}

/// A tag can be written by its name: the name is not empty, holds no
/// quote, and is the name of no tag before it.
pub open spec fn writable(t: TagRef, tags: &TagManager) -> bool {
    &&& t.id < tags.count()
    &&& tags.names()[t.id as int].len() > 0
    &&& !tags.names()[t.id as int].contains(QUOTE)
    &&& tags.lookup(tags.names()[t.id as int]) == Some(t)
}

/// Every proposition of the formula names a tag that can be written.
/// The depth of the text of a formula: one level for a name, and one more
/// for every pair of parentheses and for every `NOT` above it, counted
/// along the deepest way down.
pub open spec fn nesting(f: Formula) -> nat
    decreases f,
{
    match f {
        Formula::Proposition(_) => 1,
        Formula::BinaryExpression(_, x, y) => 1 + if nesting(*x) >= nesting(*y) {
            nesting(*x)
        } else {
            nesting(*y)
        },
        Formula::UnaryExpression(_, x) => 2 + nesting(*x),
    }
}

pub open spec fn printable(f: Formula, tags: &TagManager) -> bool
    decreases f,
{
    match f {
        Formula::Proposition(p) => p.tag matches Some(t) && writable(t, tags),
        Formula::BinaryExpression(_, x, y) => printable(*x, tags) && printable(*y, tags),
        Formula::UnaryExpression(_, x) => printable(*x, tags),
    }
}

/// No operator of level `level` follows at `pos`.
pub open spec fn no_operator(s: Seq<u8>, pos: int, level: int) -> bool {
    !word_at(s, skip_spaces(s, pos), keyword(level_op(level)))
}

/// The text ends at `pos`, or a closing parenthesis stands there.
pub open spec fn closes(s: Seq<u8>, pos: int) -> bool {
    pos == s.len() || (0 <= pos < s.len() && s[pos] == CLOSE)
}

/// The text of a formula is at least as deep as the formula.
pub proof fn lemma_nesting(f: Formula)
    ensures
        f.depth() <= nesting(f),
    decreases f,
{
    match f {
        Formula::Proposition(_) => {},
        Formula::BinaryExpression(_, x, y) => {
            lemma_nesting(*x);
            lemma_nesting(*y);
        },
        Formula::UnaryExpression(_, x) => {
            lemma_nesting(*x);
        },
    }
}

proof fn lemma_render_head(f: Formula, tags: &TagManager)
    ensures
        render(f, tags).len() >= 2,
        !is_space(render(f, tags)[0]),
        render(f, tags)[0] == QUOTE || render(f, tags)[0] == OPEN || render(f, tags)[0] == 78,
{
    match f {
        Formula::Proposition(p) => {},
        Formula::BinaryExpression(op, x, y) => {},
        Formula::UnaryExpression(_, x) => {
            assert(not_keyword()[0] == 78);
        },
    }
}

proof fn lemma_keyword(op: BinaryOp)
    ensures
        keyword(op).len() == if op == BinaryOp::OR {
            2int
        } else {
            3int
        },
        keyword(op)[0] == match op {
            BinaryOp::OR => 79u8,
            BinaryOp::XOR => 88u8,
            BinaryOp::AND => 65u8,
        },
        !is_space(keyword(op)[0]),
        level_op(op_level(op)) == op,
{
}

proof fn lemma_no_word(s: Seq<u8>, pos: int, word: Seq<u8>)
    requires
        word.len() > 0,
        pos < 0 || pos >= s.len() || s[pos] != word[0],
    ensures
        !word_at(s, pos, word),
{
    if 0 <= pos && pos + word.len() <= s.len() {
        assert(s.subrange(pos, pos + word.len())[0] == s[pos]);
    }
}

proof fn lemma_name_end(s: Seq<u8>, pos: int, n: int)
    requires
        0 <= pos,
        0 <= n,
        pos + n < s.len(),
        forall|i: int| pos <= i < pos + n ==> s[i] != QUOTE,
        s[pos + n] == QUOTE,
    ensures
        name_end(s, pos) == pos + n,
    decreases n,
{
    if n > 0 {
        lemma_name_end(s, pos + 1, n - 1);
    }
}

/// Where nothing but a closing parenthesis or the end follows, no operator
/// follows.
proof fn lemma_closes(s: Seq<u8>, pos: int, level: int)
    requires
        closes(s, pos),
    ensures
        no_operator(s, pos, level),
{
    lemma_keyword(level_op(level));
    lemma_no_word(s, pos, keyword(level_op(level)));
}

/// An operand after which no operator of its level follows stands alone.
proof fn lemma_tail_ends(s: Seq<u8>, tags: &TagManager, level: int, left: Parsed, depth: nat)
    requires
        no_operator(s, left.end, level),
    ensures
        parse_tail(s, tags, level, left, depth) == left,
{
}

/// What is read at level `from` is what is read at level `to` below it,
/// where no operator of the levels between follows.
proof fn lemma_levels(
    s: Seq<u8>,
    tags: &TagManager,
    from: int,
    to: int,
    pos: int,
    r: Parsed,
    depth: nat,
)
    requires
        0 <= to <= from <= 3,
        parse_level(s, tags, from, pos, depth) == Some(r),
        pos < r.end <= s.len(),
        forall|lv: int| to <= lv < from ==> no_operator(s, r.end, lv),
    ensures
        parse_level(s, tags, to, pos, depth) == Some(r),
    decreases from - to,
{
    if to < from {
        lemma_levels(s, tags, from, to + 1, pos, r, depth);
        lemma_tail_ends(s, tags, to, r, depth);
    }
}

/// An expression in parentheses is read as a primary.
proof fn lemma_paren(s: Seq<u8>, tags: &TagManager, x: Formula, start: int, n: int, depth: nat)
    requires
        depth > 0,
        0 <= start,
        n > 0,
        start + n + 1 < s.len(),
        s[start] == OPEN,
        !is_space(s[start + 1]),
        s[start + 1 + n] == CLOSE,
        parse_level(s, tags, 0, start + 1, (depth - 1) as nat) == Some(
            Parsed { formula: x, end: start + 1 + n },
        ),
    ensures
        parse_level(s, tags, 3, start, depth) == Some(Parsed { formula: x, end: start + n + 2 }),
{
    assert(skip_spaces(s, start + 1) == start + 1);
    assert(skip_spaces(s, start + 1 + n) == start + 1 + n);
    lemma_no_word(s, start, not_keyword());
    assert(parse_primary(s, tags, start, depth) == Some(
        Parsed { formula: x, end: start + n + 2 },
    ));
    assert(parse_not(s, tags, start, depth) == parse_primary(s, tags, start, depth));
}

/// A quoted name is read as the proposition of its tag.
proof fn lemma_quoted(s: Seq<u8>, tags: &TagManager, a: int, n: int, depth: nat)
    requires
        depth > 0,
        0 <= a,
        n > 0,
        a + n + 1 < s.len(),
        s[a] == QUOTE,
        forall|i: int| a + 1 <= i < a + 1 + n ==> s[i] != QUOTE,
        s[a + 1 + n] == QUOTE,
        closes(s, a + n + 2),
    ensures
        parse_level(s, tags, 0, a, depth) == Some(
            Parsed {
                formula: Formula::Proposition(
                    Proposition { tag: tags.lookup(s.subrange(a + 1, a + 1 + n)) },
                ),
                end: a + n + 2,
            },
        ),
{
    let e = a + n + 2;
    let f = Formula::Proposition(Proposition { tag: tags.lookup(s.subrange(a + 1, a + 1 + n)) });
    lemma_name_end(s, a + 1, n);
    lemma_no_word(s, a, not_keyword());
    assert(parse_primary(s, tags, a, depth) == Some(Parsed { formula: f, end: e }));
    assert(parse_not(s, tags, a, depth) == parse_primary(s, tags, a, depth));
    assert forall|lv: int| no_operator(s, e, lv) by {
        lemma_closes(s, e, lv);
    }
    lemma_levels(s, tags, 3, 0, a, Parsed { formula: f, end: e }, depth);
}

/// `NOT`, a space and an expression in parentheses are read as the negation
/// of the expression.
proof fn lemma_negated(s: Seq<u8>, tags: &TagManager, x: Formula, a: int, n: int, depth: nat)
    requires
        depth >= 2,
        0 <= a,
        n > 0,
        a + n + 5 < s.len(),
        word_at(s, a, not_keyword()),
        s[a + 3] == 32u8,
        s[a + 4] == OPEN,
        !is_space(s[a + 5]),
        s[a + 5 + n] == CLOSE,
        closes(s, a + n + 6),
        parse_level(s, tags, 0, a + 5, (depth - 2) as nat) == Some(
            Parsed { formula: x, end: a + 5 + n },
        ),
    ensures
        parse_level(s, tags, 0, a, depth) == Some(
            Parsed {
                formula: Formula::UnaryExpression(UnaryOp::NOT, Box::new(x)),
                end: a + n + 6,
            },
        ),
{
    let e = a + n + 6;
    let f = Formula::UnaryExpression(UnaryOp::NOT, Box::new(x));
    let inner = (depth - 1) as nat;
    lemma_paren(s, tags, x, a + 4, n, inner);
    assert(skip_spaces(s, a + 4) == a + 4);
    assert(skip_spaces(s, a + 3) == a + 4);
    lemma_no_word(s, a + 4, not_keyword());
    assert(parse_not(s, tags, a + 4, inner) == Some(Parsed { formula: x, end: e }));
    assert(parse_not(s, tags, a, depth) == Some(Parsed { formula: f, end: e }));
    assert forall|lv: int| no_operator(s, e, lv) by {
        lemma_closes(s, e, lv);
    }
    lemma_levels(s, tags, 3, 0, a, Parsed { formula: f, end: e }, depth);
}

/// Two expressions in parentheses with an operator between them, a space
/// on either side of it, are read as the two joined by the operator.
proof fn lemma_joined(
    s: Seq<u8>,
    tags: &TagManager,
    op: BinaryOp,
    x: Formula,
    y: Formula,
    a: int,
    n: int,
    m: int,
    depth: nat,
)
    requires
        depth > 0,
        x.depth() < depth,
        y.depth() < depth,
        0 <= a,
        n > 0,
        m > 0,
        a + n + keyword(op).len() + m + 5 < s.len(),
        s[a] == OPEN,
        !is_space(s[a + 1]),
        s[a + 1 + n] == CLOSE,
        s[a + n + 2] == 32u8,
        word_at(s, a + n + 3, keyword(op)),
        s[a + n + 3 + keyword(op).len()] == 32u8,
        s[a + n + 4 + keyword(op).len()] == OPEN,
        !is_space(s[a + n + 5 + keyword(op).len()]),
        s[a + n + 5 + keyword(op).len() + m] == CLOSE,
        closes(s, a + n + keyword(op).len() + m + 6),
        parse_level(s, tags, 0, a + 1, (depth - 1) as nat) == Some(
            Parsed { formula: x, end: a + 1 + n },
        ),
        parse_level(s, tags, 0, a + n + 5 + keyword(op).len(), (depth - 1) as nat) == Some(
            Parsed { formula: y, end: a + n + 5 + keyword(op).len() + m },
        ),
    ensures
        parse_level(s, tags, 0, a, depth) == Some(
            Parsed {
                formula: Formula::BinaryExpression(op, Box::new(x), Box::new(y)),
                end: a + n + keyword(op).len() + m + 6,
            },
        ),
{
    let kw = keyword(op);
    let k = kw.len() as int;
    let lv = op_level(op);
    let e = a + n + k + m + 6;
    let f = Formula::BinaryExpression(op, Box::new(x), Box::new(y));
    lemma_keyword(op);
    // the left operand
    lemma_paren(s, tags, x, a, n, depth);
    let e1 = a + n + 2;
    let left = Parsed { formula: x, end: e1 };
    // the operator
    let p = e1 + 1;
    assert(s.subrange(p, p + k)[0] == s[p]);
    assert(skip_spaces(s, p) == p);
    assert(skip_spaces(s, e1) == p);
    assert forall|l: int| lv < l < 3 implies no_operator(s, e1, l) by {
        lemma_keyword(level_op(l));
        lemma_no_word(s, p, keyword(level_op(l)));
    }
    lemma_levels(s, tags, 3, lv + 1, a, left, depth);
    // the right operand
    let q = p + k + 1;
    assert(skip_spaces(s, q) == q);
    assert(skip_spaces(s, p + k) == q);
    lemma_paren(s, tags, y, q, m, depth);
    let right = Parsed { formula: y, end: e };
    assert forall|l: int| no_operator(s, e, l) by {
        lemma_closes(s, e, l);
    }
    lemma_levels(s, tags, 3, lv + 1, q, right, depth);
    // the two joined
    let whole = Parsed { formula: f, end: e };
    lemma_tail_ends(s, tags, lv, whole, depth);
    assert(parse_tail(s, tags, lv, left, depth) == whole);
    assert(parse_level(s, tags, lv, a, depth) == Some(whole));
    lemma_levels(s, tags, lv, 0, a, whole, depth);
}

/// The text of a formula, with anything before it and with the end or a
/// closing parenthesis after it, is read as the formula, where the reading
/// may go as deep as the text.
pub proof fn lemma_parse_rendered(
    f: Formula,
    tags: &TagManager,
    pre: Seq<u8>,
    post: Seq<u8>,
    depth: nat,
)
    requires
        printable(f, tags),
        post.len() == 0 || post[0] == CLOSE,
        depth >= nesting(f),
    ensures
        parse_level(pre + render(f, tags) + post, tags, 0, pre.len() as int, depth) == Some(
            Parsed { formula: f, end: (pre.len() + render(f, tags).len()) as int },
        ),
    decreases f,
{
    let s = pre + render(f, tags) + post;
    let a = pre.len() as int;
    match f {
        Formula::Proposition(p) => {
            let name = tags.names()[p.tag->0.id as int];
            lemma_quoted_text(s, pre, name, post);
            lemma_quoted(s, tags, a, name.len() as int, depth);
        },
        Formula::UnaryExpression(op, x) => {
            let rx = render(*x, tags);
            lemma_render_head(*x, tags);
            lemma_negated_text(s, pre, rx, post);
            lemma_parse_rendered(
                *x,
                tags,
                pre + not_keyword() + seq![32u8, OPEN],
                seq![CLOSE] + post,
                (depth - 2) as nat,
            );
            lemma_negated(s, tags, *x, a, rx.len() as int, depth);
        },
        Formula::BinaryExpression(op, x, y) => {
            let rx = render(*x, tags);
            let ry = render(*y, tags);
            let kw = keyword(op);
            lemma_render_head(*x, tags);
            lemma_render_head(*y, tags);
            lemma_joined_text(s, pre, rx, kw, ry, post);
            lemma_parse_rendered(
                *x,
                tags,
                pre + seq![OPEN],
                seq![CLOSE, 32u8] + kw + seq![32u8, OPEN] + ry + seq![CLOSE] + post,
                (depth - 1) as nat,
            );
            lemma_parse_rendered(
                *y,
                tags,
                pre + seq![OPEN] + rx + seq![CLOSE, 32u8] + kw + seq![32u8, OPEN],
                seq![CLOSE] + post,
                (depth - 1) as nat,
            );
            lemma_nesting(*x);
            lemma_nesting(*y);
            lemma_joined(s, tags, op, *x, *y, a, rx.len() as int, ry.len() as int, depth);
        },
    }
}

/// Where the bytes of a quoted name stand.
proof fn lemma_quoted_text(s: Seq<u8>, pre: Seq<u8>, name: Seq<u8>, post: Seq<u8>)
    requires
        s == pre + (seq![QUOTE] + name + seq![QUOTE]) + post,
        !name.contains(QUOTE),
        post.len() == 0 || post[0] == CLOSE,
    ensures
        ({
            let a = pre.len() as int;
            let n = name.len() as int;
            &&& a + n + 1 < s.len()
            &&& s[a] == QUOTE
            &&& forall|i: int| a + 1 <= i < a + 1 + n ==> s[i] != QUOTE
            &&& s[a + 1 + n] == QUOTE
            &&& s.subrange(a + 1, a + 1 + n) == name
            &&& closes(s, a + n + 2)
        }),
{
    let a = pre.len() as int;
    let n = name.len() as int;
    let t = seq![QUOTE] + name + seq![QUOTE];
    assert(t.len() == n + 2);
    assert(t[0] == QUOTE);
    assert(t[n + 1] == QUOTE);
    assert forall|i: int| a + 1 <= i < a + 1 + n implies s[i] != QUOTE by {
        assert(s[i] == t[i - a]);
        assert(t[i - a] == name[i - a - 1]);
        assert(name.contains(name[i - a - 1]));
    }
    assert(s.subrange(a + 1, a + 1 + n) =~= name);
    if post.len() > 0 {
        assert(s[a + n + 2] == post[0]);
    }
}

/// Where the bytes of the text of a negation stand.
proof fn lemma_negated_text(s: Seq<u8>, pre: Seq<u8>, rx: Seq<u8>, post: Seq<u8>)
    requires
        s == pre + (not_keyword() + seq![32u8, OPEN] + rx + seq![CLOSE]) + post,
        rx.len() > 0,
        post.len() == 0 || post[0] == CLOSE,
    ensures
        s == (pre + not_keyword() + seq![32u8, OPEN]) + rx + (seq![CLOSE] + post),
        (pre + not_keyword() + seq![32u8, OPEN]).len() == pre.len() + 5,
        ({
            let a = pre.len() as int;
            let n = rx.len() as int;
            &&& a + n + 5 < s.len()
            &&& word_at(s, a, not_keyword())
            &&& s[a + 3] == 32u8
            &&& s[a + 4] == OPEN
            &&& s[a + 5] == rx[0]
            &&& s[a + 5 + n] == CLOSE
            &&& closes(s, a + n + 6)
        }),
{
    let a = pre.len() as int;
    let n = rx.len() as int;
    let t = not_keyword() + seq![32u8, OPEN] + rx + seq![CLOSE];
    assert(t.len() == n + 6);
    assert(t.subrange(0, 3) =~= not_keyword());
    assert(s.subrange(a, a + 3) =~= t.subrange(0, 3));
    assert(t[3] == 32u8);
    assert(t[4] == OPEN);
    assert(t[5] == rx[0]);
    assert(t[5 + n] == CLOSE);
    assert(s =~= (pre + not_keyword() + seq![32u8, OPEN]) + rx + (seq![CLOSE] + post));
    if post.len() > 0 {
        assert(s[a + n + 6] == post[0]);
    }
}

/// Where the bytes of the text of a binary expression stand.
proof fn lemma_joined_text(
    s: Seq<u8>,
    pre: Seq<u8>,
    rx: Seq<u8>,
    kw: Seq<u8>,
    ry: Seq<u8>,
    post: Seq<u8>,
)
    requires
        s == pre + (seq![OPEN] + rx + seq![CLOSE, 32u8] + kw + seq![32u8, OPEN] + ry + seq![
            CLOSE,
        ]) + post,
        rx.len() > 0,
        ry.len() > 0,
        post.len() == 0 || post[0] == CLOSE,
    ensures
        s == (pre + seq![OPEN]) + rx + (seq![CLOSE, 32u8] + kw + seq![32u8, OPEN] + ry + seq![
            CLOSE,
        ] + post),
        s == (pre + seq![OPEN] + rx + seq![CLOSE, 32u8] + kw + seq![32u8, OPEN]) + ry + (seq![
            CLOSE,
        ] + post),
        (pre + seq![OPEN]).len() == pre.len() + 1,
        (pre + seq![OPEN] + rx + seq![CLOSE, 32u8] + kw + seq![32u8, OPEN]).len() == pre.len()
            + rx.len() + kw.len() + 5,
        ({
            let a = pre.len() as int;
            let n = rx.len() as int;
            let k = kw.len() as int;
            let m = ry.len() as int;
            &&& a + n + k + m + 5 < s.len()
            &&& s[a] == OPEN
            &&& s[a + 1] == rx[0]
            &&& s[a + 1 + n] == CLOSE
            &&& s[a + n + 2] == 32u8
            &&& word_at(s, a + n + 3, kw)
            &&& s[a + n + 3 + k] == 32u8
            &&& s[a + n + 4 + k] == OPEN
            &&& s[a + n + 5 + k] == ry[0]
            &&& s[a + n + 5 + k + m] == CLOSE
            &&& closes(s, a + n + k + m + 6)
        }),
{
    let a = pre.len() as int;
    let n = rx.len() as int;
    let k = kw.len() as int;
    let m = ry.len() as int;
    let t1 = seq![OPEN] + rx;
    let t2 = t1 + seq![CLOSE, 32u8];
    let t3 = t2 + kw;
    let t4 = t3 + seq![32u8, OPEN];
    let t5 = t4 + ry;
    let t6 = t5 + seq![CLOSE];
    assert(s == pre + t6 + post);
    assert(t6.len() == n + k + m + 6);
    assert(t6[0] == OPEN);
    assert(t6[1] == rx[0]);
    assert(t6[1 + n] == CLOSE);
    assert(t6[n + 2] == 32u8);
    assert(t6.subrange(n + 3, n + 3 + k) =~= kw);
    assert(t6[n + 3 + k] == 32u8);
    assert(t6[n + 4 + k] == OPEN);
    assert(t6[n + 5 + k] == ry[0]);
    assert(t6[n + 5 + k + m] == CLOSE);
    assert(s.subrange(a + n + 3, a + n + 3 + k) =~= t6.subrange(n + 3, n + 3 + k));
    assert(s =~= (pre + seq![OPEN]) + rx + (seq![CLOSE, 32u8] + kw + seq![32u8, OPEN] + ry + seq![
        CLOSE,
    ] + post));
    assert(s =~= (pre + seq![OPEN] + rx + seq![CLOSE, 32u8] + kw + seq![32u8, OPEN]) + ry + (seq![
        CLOSE,
    ] + post));
    if post.len() > 0 {
        assert(s[a + n + k + m + 6] == post[0]);
    }
}

/// Reading the text of a formula gives the formula back, where the reading
/// may go as deep as the text.
pub proof fn law_parse_render(f: Formula, tags: &TagManager, depth: nat)
    requires
        printable(f, tags),
        depth >= nesting(f),
    ensures
        parse_query(render(f, tags), tags, depth) == Some(f),
{
    let r = render(f, tags);
    lemma_render_head(f, tags);
    lemma_parse_rendered(f, tags, Seq::empty(), Seq::empty(), depth);
    assert(Seq::<u8>::empty() + r + Seq::<u8>::empty() =~= r);
    assert(skip_spaces(r, 0) == 0);
    assert(skip_spaces(r, r.len() as int) == r.len());
}

} // verus!
