//! The grammar of queries.
//!
//! ```text
//! query   := _ or _
//! or      := xor ( _ "OR"  _ xor )*
//! xor     := and ( _ "XOR" _ and )*
//! and     := not ( _ "AND" _ not )*
//! not     := "NOT" _ not | primary
//! primary := '"' name '"' | "(" _ or _ ")"
//! name    := one or more bytes other than '"'
//! _       := spaces, tabs and newlines, as many as there are
//! ```
//!
//! The binary operators associate to the left. The keywords are written in
//! capitals. A name stands for the first tag of that name, and is kept as
//! a proposition without a tag where there is none.
//!
//! A text is read only down to a given depth. A name is one level deep, a
//! pair of parentheses and a `NOT` each add a level to what they hold, and
//! two operands joined by an operator are one level deeper than the deeper
//! of the two. What goes deeper is no formula.

use crate::query::formula::{BinaryOp, Formula, Proposition, UnaryOp};
use crate::tag::TagManager;
use vstd::prelude::*;
use vstd::slice::slice_subrange;

verus! {

pub const QUOTE: u8 = 34;

pub const OPEN: u8 = 40;

pub const CLOSE: u8 = 41;

/// A formula read from a text, and the place where the reading ended.
pub struct Parsed {
    pub formula: Formula,
    pub end: int,
}

/// Space, tab and newline.
pub open spec fn is_space(b: u8) -> bool {
    b == 32 || b == 9 || b == 10
}

/// The first place at or after `pos` that holds no white space.
pub open spec fn skip_spaces(s: Seq<u8>, pos: int) -> int
    decreases s.len() - pos,
{
    if 0 <= pos < s.len() && is_space(s[pos]) {
        skip_spaces(s, pos + 1)
    } else {
        pos
    }
}

/// The first place at or after `pos` that holds a quote, or the end.
pub open spec fn name_end(s: Seq<u8>, pos: int) -> int
    decreases s.len() - pos,
{
    if 0 <= pos < s.len() && s[pos] != QUOTE {
        name_end(s, pos + 1)
    } else {
        pos
    }
}

/// The keyword of a binary operator.
pub open spec fn keyword(op: BinaryOp) -> Seq<u8> {
    match op {
        BinaryOp::OR => seq![79u8, 82u8],
        BinaryOp::XOR => seq![88u8, 79u8, 82u8],
        BinaryOp::AND => seq![65u8, 78u8, 68u8],
    }
}

/// The keyword of the negation.
pub open spec fn not_keyword() -> Seq<u8> {
    seq![78u8, 79u8, 84u8]
}

/// `word` stands in `s` at `pos`.
pub open spec fn word_at(s: Seq<u8>, pos: int, word: Seq<u8>) -> bool {
    0 <= pos && pos + word.len() <= s.len() && s.subrange(pos, pos + word.len()) == word
}

/// The operator of a level of the grammar: `OR` binds least, then `XOR`,
/// then `AND`.
pub open spec fn level_op(level: int) -> BinaryOp {
    if level <= 0 {
        BinaryOp::OR
    } else if level == 1 {
        BinaryOp::XOR
    } else {
        BinaryOp::AND
    }
}

/// What was read, if the reading began at `pos`, took at least one byte and
/// stayed within the text.
pub open spec fn advanced(s: Seq<u8>, pos: int, p: Option<Parsed>) -> bool {
    p matches Some(r) && pos < r.end <= s.len()
}

/// A primary at `pos`, no deeper than `depth`: a quoted name, or an
/// expression in parentheses, which is a level less deep.
pub open spec fn parse_primary(s: Seq<u8>, tags: &TagManager, pos: int, depth: nat) -> Option<
    Parsed,
>
    decreases s.len() - pos, 0int,
{
    if !(0 <= pos < s.len()) {
        None
    } else if s[pos] == QUOTE {
        let e = name_end(s, pos + 1);
        if depth > 0 && pos + 1 < e < s.len() {
            Some(
                Parsed {
                    formula: Formula::Proposition(
                        Proposition { tag: tags.lookup(s.subrange(pos + 1, e)) },
                    ),
                    end: e + 1,
                },
            )
        } else {
            None
        }
    } else if s[pos] == OPEN {
        let q = skip_spaces(s, pos + 1);
        if depth > 0 && pos < q <= s.len() {
            let inner = parse_level(s, tags, 0, q, (depth - 1) as nat);
            if advanced(s, q, inner) {
                let c = skip_spaces(s, inner->0.end);
                if 0 <= c < s.len() && s[c] == CLOSE {
                    Some(Parsed { formula: inner->0.formula, end: c + 1 })
                } else {
                    None
                }
            } else {
                None
            }
        } else {
            None
        }
    } else {
        None
    }
}

/// A negation at `pos`, no deeper than `depth`, or else a primary. What is
/// negated is a level less deep.
pub open spec fn parse_not(s: Seq<u8>, tags: &TagManager, pos: int, depth: nat) -> Option<Parsed>
    decreases s.len() - pos, 1int,
{
    if word_at(s, pos, not_keyword()) {
        let q = skip_spaces(s, pos + 3);
        if depth > 0 && pos < q <= s.len() {
            let x = parse_not(s, tags, q, (depth - 1) as nat);
            if advanced(s, q, x) {
                Some(
                    Parsed {
                        formula: Formula::UnaryExpression(UnaryOp::NOT, Box::new(x->0.formula)),
                        end: x->0.end,
                    },
                )
            } else {
                None
            }
        } else {
            None
        }
    } else {
        parse_primary(s, tags, pos, depth)
    }
}

/// An expression of level `level` at `pos`, no deeper than `depth`:
/// operands of the next level, joined by the operator of this one.
pub open spec fn parse_level(
    s: Seq<u8>,
    tags: &TagManager,
    level: int,
    pos: int,
    depth: nat,
) -> Option<Parsed>
    decreases s.len() - pos, (if 0 <= level < 3 {
            5 - level
        } else {
            2
        }),
{
    if level < 0 || level >= 3 {
        parse_not(s, tags, pos, depth)
    } else {
        let first = parse_level(s, tags, level + 1, pos, depth);
        if advanced(s, pos, first) {
            Some(parse_tail(s, tags, level, first->0, depth))
        } else {
            None
        }
    }
}

/// What follows the operand `left` at level `level`: as long as the
/// operator of the level and another operand follow, and the two joined are
/// no deeper than `depth`, they are joined to what was read, to the left.
pub open spec fn parse_tail(
    s: Seq<u8>,
    tags: &TagManager,
    level: int,
    left: Parsed,
    depth: nat,
) -> Parsed
    decreases s.len() - left.end, 0int,
{
    let p = skip_spaces(s, left.end);
    if 0 <= level < 3 && left.end <= p && word_at(s, p, keyword(level_op(level))) {
        let q = skip_spaces(s, p + keyword(level_op(level)).len());
        if p < q <= s.len() {
            let right = parse_level(s, tags, level + 1, q, depth);
            if advanced(s, q, right) && left.formula.depth() < depth && right->0.formula.depth()
                < depth {
                parse_tail(
                    s,
                    tags,
                    level,
                    Parsed {
                        formula: Formula::BinaryExpression(
                            level_op(level),
                            Box::new(left.formula),
                            Box::new(right->0.formula),
                        ),
                        end: right->0.end,
                    },
                    depth,
                )
            } else {
                left
            }
        } else {
            left
        }
    } else {
        left
    }
}

/// The formula that the text `s` is: an expression with white space
/// around it, and nothing else, no deeper than `depth`.
pub open spec fn parse_query(s: Seq<u8>, tags: &TagManager, depth: nat) -> Option<Formula> {
    let start = skip_spaces(s, 0);
    let whole = parse_level(s, tags, 0, start, depth);
    if advanced(s, start, whole) && skip_spaces(s, whole->0.end) == s.len() {
        Some(whole->0.formula)
    } else {
        None
    }
}

fn skip(s: &[u8], pos: usize) -> (r: usize)
    requires
        pos <= s@.len(),
    ensures
        r == skip_spaces(s@, pos as int),
        pos <= r <= s@.len(),
{
    let mut i = pos;
    while i < s.len() && (s[i] == 32 || s[i] == 9 || s[i] == 10)
        invariant
            pos <= i <= s@.len(),
            skip_spaces(s@, pos as int) == skip_spaces(s@, i as int),
        decreases s@.len() - i,
    {
        i += 1;
    }
    i
}

fn find_quote(s: &[u8], pos: usize) -> (r: usize)
    requires
        pos <= s@.len(),
    ensures
        r == name_end(s@, pos as int),
        pos <= r <= s@.len(),
{
    let mut i = pos;
    while i < s.len() && s[i] != QUOTE
        invariant
            pos <= i <= s@.len(),
            name_end(s@, pos as int) == name_end(s@, i as int),
        decreases s@.len() - i,
    {
        i += 1;
    }
    i
}

fn at_word3(s: &[u8], pos: usize, a: u8, b: u8, c: u8) -> (r: bool)
    requires
        pos <= s@.len(),
    ensures
        r == word_at(s@, pos as int, seq![a, b, c]),
        r ==> pos + 3 <= s@.len() <= usize::MAX,
{
    if s.len() - pos < 3 {
        return false;
    }
    let r = s[pos] == a && s[pos + 1] == b && s[pos + 2] == c;
    proof {
        let w = s@.subrange(pos as int, pos + 3);
        assert(w[0] == s@[pos as int] && w[1] == s@[pos + 1] && w[2] == s@[pos + 2]);
        let lit = seq![a, b, c];
        assert(lit[0] == a && lit[1] == b && lit[2] == c);
        if r {
            assert(w =~= lit);
        }
    }
    r
}

fn at_word2(s: &[u8], pos: usize, a: u8, b: u8) -> (r: bool)
    requires
        pos <= s@.len(),
    ensures
        r == word_at(s@, pos as int, seq![a, b]),
        r ==> pos + 2 <= s@.len() <= usize::MAX,
{
    if s.len() - pos < 2 {
        return false;
    }
    let r = s[pos] == a && s[pos + 1] == b;
    proof {
        let w = s@.subrange(pos as int, pos + 2);
        assert(w[0] == s@[pos as int] && w[1] == s@[pos + 1]);
        let lit = seq![a, b];
        assert(lit[0] == a && lit[1] == b);
        if r {
            assert(w =~= lit);
        }
    }
    r
}

/// Whether the keyword of the operator of `level` stands at `pos`; with it
/// the operator and the length of the keyword.
fn at_operator(s: &[u8], pos: usize, level: u8) -> (r: (bool, BinaryOp, usize))
    requires
        pos <= s@.len(),
        level < 3,
    ensures
        r.0 == word_at(s@, pos as int, keyword(level_op(level as int))),
        r.1 == level_op(level as int),
        r.2 == keyword(level_op(level as int)).len(),
        r.0 ==> pos + r.2 <= s@.len() <= usize::MAX,
{
    if level == 0 {
        (at_word2(s, pos, 79, 82), BinaryOp::OR, 2)
    } else if level == 1 {
        (at_word3(s, pos, 88, 79, 82), BinaryOp::XOR, 3)
    } else {
        (at_word3(s, pos, 65, 78, 68), BinaryOp::AND, 3)
    }
}

/// What is read: the formula, the place where the reading ended, and the
/// depth of the formula.
pub struct Read {
    pub formula: Formula,
    pub end: usize,
    pub height: usize,
}

impl Read {
    /// What is read is `p`, it ends in the text after `pos`, and it is no
    /// deeper than `depth`.
    pub open spec fn agrees(self, s: Seq<u8>, pos: int, depth: nat, p: Option<Parsed>) -> bool {
        &&& p == Some(Parsed { formula: self.formula, end: self.end as int })
        &&& pos < self.end <= s.len()
        &&& self.height == self.formula.depth()
        &&& self.height <= depth
    }
}

fn primary(s: &[u8], tags: &TagManager, pos: usize, depth: usize) -> (r: Option<Read>)
    requires
        tags.wf(),
        pos <= s@.len(),
    ensures
        match r {
            Some(read) => read.agrees(
                s@,
                pos as int,
                depth as nat,
                parse_primary(s@, tags, pos as int, depth as nat),
            ),
            None => parse_primary(s@, tags, pos as int, depth as nat) is None,
        },
    decreases s@.len() - pos, 0int,
{
    if pos >= s.len() {
        return None;
    }
    if depth == 0 {
        return None;
    }
    if s[pos] == QUOTE {
        let e = find_quote(s, pos + 1);
        if pos + 1 < e && e < s.len() {
            let name = slice_subrange(s, pos + 1, e);
            let tag = tags.retrieve_tag(name);
            Some(Read { formula: Formula::Proposition(Proposition { tag }), end: e + 1, height: 1 })
        } else {
            None
        }
    } else if s[pos] == OPEN {
        let q = skip(s, pos + 1);
        match level(s, tags, 0, q, depth - 1) {
            None => None,
            Some(inner) => {
                let c = skip(s, inner.end);
                if c < s.len() && s[c] == CLOSE {
                    Some(Read { formula: inner.formula, end: c + 1, height: inner.height })
                } else {
                    None
                }
            },
        }
    } else {
        None
    }
}

fn negation(s: &[u8], tags: &TagManager, pos: usize, depth: usize) -> (r: Option<Read>)
    requires
        tags.wf(),
        pos <= s@.len(),
    ensures
        match r {
            Some(read) => read.agrees(
                s@,
                pos as int,
                depth as nat,
                parse_not(s@, tags, pos as int, depth as nat),
            ),
            None => parse_not(s@, tags, pos as int, depth as nat) is None,
        },
    decreases s@.len() - pos, 1int,
{
    if at_word3(s, pos, 78, 79, 84) {
        if depth == 0 {
            return None;
        }
        let q = skip(s, pos + 3);
        match negation(s, tags, q, depth - 1) {
            None => None,
            Some(inner) => Some(
                Read {
                    formula: Formula::UnaryExpression(UnaryOp::NOT, Box::new(inner.formula)),
                    end: inner.end,
                    height: inner.height + 1,
                },
            ),
        }
    } else {
        primary(s, tags, pos, depth)
    }
}

fn level(s: &[u8], tags: &TagManager, lv: u8, pos: usize, depth: usize) -> (r: Option<Read>)
    requires
        tags.wf(),
        pos <= s@.len(),
    ensures
        match r {
            Some(read) => read.agrees(
                s@,
                pos as int,
                depth as nat,
                parse_level(s@, tags, lv as int, pos as int, depth as nat),
            ),
            None => parse_level(s@, tags, lv as int, pos as int, depth as nat) is None,
        },
    decreases s@.len() - pos, (if lv < 3 {
            5 - lv
        } else {
            2
        }),
{
    if lv >= 3 {
        return negation(s, tags, pos, depth);
    }
    let first = match level(s, tags, lv + 1, pos, depth) {
        None => {
            return None;
        },
        Some(first) => first,
    };
    let ghost start = Parsed { formula: first.formula, end: first.end as int };
    let mut left = first.formula;
    let mut end = first.end;
    let mut height = first.height;
    loop
        invariant
            tags.wf(),
            lv < 3,
            pos < end <= s@.len(),
            height == left.depth(),
            height <= depth,
            parse_tail(s@, tags, lv as int, start, depth as nat) == parse_tail(
                s@,
                tags,
                lv as int,
                Parsed { formula: left, end: end as int },
                depth as nat,
            ),
        ensures
            parse_tail(s@, tags, lv as int, start, depth as nat) == (Parsed {
                formula: left,
                end: end as int,
            }),
            pos < end <= s@.len(),
            height == left.depth(),
            height <= depth,
        decreases s@.len() - end,
    {
        let p = skip(s, end);
        let (found, op, len) = at_operator(s, p, lv);
        if !found {
            break ;
        }
        let q = skip(s, p + len);
        match level(s, tags, lv + 1, q, depth) {
            None => {
                break ;
            },
            Some(right) => {
                if height >= depth || right.height >= depth {
                    break ;
                }
                height = if height >= right.height {
                    height + 1
                } else {
                    right.height + 1
                };
                left = Formula::BinaryExpression(op, Box::new(left), Box::new(right.formula));
                end = right.end;
            },
        }
    }
    Some(Read { formula: left, end, height })
}

/// Reads a query that is no deeper than `depth`.
pub fn parse(s: &[u8], tags: &TagManager, depth: usize) -> (r: Option<Formula>)
    requires
        tags.wf(),
    ensures
        r == parse_query(s@, tags, depth as nat),
        r matches Some(f) ==> f.depth() <= depth,
{
    let start = skip(s, 0);
    match level(s, tags, 0, start, depth) {
        None => None,
        Some(whole) => {
            if skip(s, whole.end) == s.len() {
                Some(whole.formula)
            } else {
                None
            }
        },
    }
}

} // verus!
