//! The formula of a query and its simplifier.

use crate::tag::TagRef;
use vstd::prelude::*;

verus! {

#[derive(Clone, Copy, Debug, PartialEq, Eq, Structural)]
pub enum BinaryOp {
    AND,
    OR,
    XOR,
}

#[derive(Clone, Copy, Debug, PartialEq, Eq, Structural)]
pub enum UnaryOp {
    NOT,
}

/// A leaf of a formula. `tag` is `None` where the name written in the query
/// is not the name of any known tag.
#[derive(Clone, Copy, Debug, PartialEq, Eq, Structural, Hash)]
pub struct Proposition {
    pub tag: Option<TagRef>,
}

#[derive(Debug, PartialEq, Eq)]
pub enum Formula {
    Proposition(Proposition),
    BinaryExpression(BinaryOp, Box<Formula>, Box<Formula>),
    UnaryExpression(UnaryOp, Box<Formula>),
}

/// The operator that takes the place of `op` when a negation is pulled out
/// of both operands: `AND` and `OR` trade places.
pub open spec fn dual(op: BinaryOp) -> BinaryOp {
    match op {
        BinaryOp::AND => BinaryOp::OR,
        BinaryOp::OR => BinaryOp::AND,
        BinaryOp::XOR => BinaryOp::XOR,
    }
}

impl Formula {
    /// The number of negations in the formula.
    pub open spec fn negations(self) -> nat
        decreases self,
    {
        match self {
            Formula::Proposition(_) => 0,
            Formula::BinaryExpression(_, x, y) => x.negations() + y.negations(),
            Formula::UnaryExpression(_, x) => 1 + x.negations(),
        }
    }

    /// The nesting depth of the formula: 1 for a proposition.
    pub open spec fn depth(self) -> nat
        decreases self,
    {
        match self {
            Formula::Proposition(_) => 1,
            Formula::BinaryExpression(_, x, y) => 1 + if x.depth() >= y.depth() {
                x.depth()
            } else {
                y.depth()
            },
            Formula::UnaryExpression(_, x) => 1 + x.depth(),
        }
    }

    /// Whether the formula is a negation.
    pub open spec fn is_negation(self) -> bool {
        self is UnaryExpression
    }

    /// The operand of a negation.
    pub open spec fn operand(self) -> Formula
        recommends
            self.is_negation(),
    {
        *self->UnaryExpression_1
    }

    /// Whether a rewrite applies at the root: a double negation, or a binary
    /// operator both of whose operands are negations.
    pub open spec fn is_redex(self) -> bool {
        match self {
            Formula::Proposition(_) => false,
            Formula::BinaryExpression(_, x, y) => x.is_negation() && y.is_negation(),
            Formula::UnaryExpression(_, x) => x.is_negation(),
        }
    }

    /// Whether no rewrite applies anywhere in the formula.
    pub open spec fn is_simplified(self) -> bool
        decreases self,
    {
        !self.is_redex() && match self {
            Formula::Proposition(_) => true,
            Formula::BinaryExpression(_, x, y) => x.is_simplified() && y.is_simplified(),
            Formula::UnaryExpression(_, x) => x.is_simplified(),
        }
    }

    /// One pass of the simplifier. At each node, from the root down:
    ///
    /// | pattern               | rewrite          |
    /// |-----------------------|------------------|
    /// | `NOT NOT a`           | `a`              |
    /// | `NOT a AND NOT b`     | `NOT (a OR b)`   |
    /// | `NOT a OR NOT b`      | `NOT (a AND b)`  |
    /// | `NOT a XOR NOT b`     | `a XOR b`        |
    ///
    /// and the pass goes on into the operands that are left.
    pub open spec fn simplify_pass(self) -> Formula
        decreases self,
    {
        match self {
            Formula::Proposition(p) => self,
            Formula::BinaryExpression(op, x, y) => {
                if x.is_negation() && y.is_negation() {
                    let a = x.operand().simplify_pass();
                    let b = y.operand().simplify_pass();
                    match op {
                        BinaryOp::XOR => Formula::BinaryExpression(
                            BinaryOp::XOR,
                            Box::new(a),
                            Box::new(b),
                        ),
                        _ => Formula::UnaryExpression(
                            UnaryOp::NOT,
                            Box::new(
                                Formula::BinaryExpression(dual(op), Box::new(a), Box::new(b)),
                            ),
                        ),
                    }
                } else {
                    Formula::BinaryExpression(
                        op,
                        Box::new(x.simplify_pass()),
                        Box::new(y.simplify_pass()),
                    )
                }
            },
            Formula::UnaryExpression(op, x) => {
                if x.is_negation() {
                    x.operand().simplify_pass()
                } else {
                    Formula::UnaryExpression(op, Box::new(x.simplify_pass()))
                }
            },
        }
    }

    /// The formula that repeated passes end in: the first one that a pass
    /// leaves as it is.
    pub open spec fn simplified(self) -> Formula
        decreases self.negations(),
        via Self::simplified_decreases
    {
        if self.is_simplified() {
            self
        } else {
            self.simplify_pass().simplified()
        }
    }

    #[via_fn]
    proof fn simplified_decreases(self) {
        if !self.is_simplified() {
            self.lemma_pass_removes_negations();
        }
    }

    /// A pass over a formula in which some rewrite applies leaves fewer
    /// negations; a pass never adds one.
    pub proof fn lemma_pass_removes_negations(self)
        ensures
            self.simplify_pass().negations() <= self.negations(),
            !self.is_simplified() ==> self.simplify_pass().negations() < self.negations(),
        decreases self,
    {
        reveal_with_fuel(Formula::negations, 3);
        match self {
            Formula::Proposition(_) => {},
            Formula::BinaryExpression(op, x, y) => {
                if x.is_negation() && y.is_negation() {
                    x.operand().lemma_pass_removes_negations();
                    y.operand().lemma_pass_removes_negations();
                } else {
                    x.lemma_pass_removes_negations();
                    y.lemma_pass_removes_negations();
                }
            },
            Formula::UnaryExpression(op, x) => {
                if x.is_negation() {
                    x.operand().lemma_pass_removes_negations();
                } else {
                    x.lemma_pass_removes_negations();
                }
            },
        }
    }

    /// One pass of the simplifier over `formula`: the rewritten formula, and
    /// whether any rewrite was applied.
    pub fn recursive_simplify(formula: Formula) -> (res: (Formula, bool))
        ensures
            res.0 == formula.simplify_pass(),
            res.1 == !formula.is_simplified(),
        decreases formula,
    {
        match formula {
            Formula::Proposition(p) => (Formula::Proposition(p), false),
            Formula::BinaryExpression(op, x, y) => {
                match (*x, *y) {
                    (
                        Formula::UnaryExpression(UnaryOp::NOT, a),
                        Formula::UnaryExpression(UnaryOp::NOT, b),
                    ) => {
                        let sa = Formula::recursive_simplify(*a);
                        let sb = Formula::recursive_simplify(*b);
                        let rewritten = match op {
                            BinaryOp::AND => Formula::UnaryExpression(
                                UnaryOp::NOT,
                                Box::new(
                                    Formula::BinaryExpression(
                                        BinaryOp::OR,
                                        Box::new(sa.0),
                                        Box::new(sb.0),
                                    ),
                                ),
                            ),
                            BinaryOp::OR => Formula::UnaryExpression(
                                UnaryOp::NOT,
                                Box::new(
                                    Formula::BinaryExpression(
                                        BinaryOp::AND,
                                        Box::new(sa.0),
                                        Box::new(sb.0),
                                    ),
                                ),
                            ),
                            BinaryOp::XOR => Formula::BinaryExpression(
                                BinaryOp::XOR,
                                Box::new(sa.0),
                                Box::new(sb.0),
                            ),
                        };
                        (rewritten, true)
                    },
                    (x, y) => {
                        let sx = Formula::recursive_simplify(x);
                        let sy = Formula::recursive_simplify(y);
                        (
                            Formula::BinaryExpression(op, Box::new(sx.0), Box::new(sy.0)),
                            sx.1 || sy.1,
                        )
                    },
                }
            },
            Formula::UnaryExpression(UnaryOp::NOT, x) => {
                match *x {
                    Formula::UnaryExpression(UnaryOp::NOT, y) => {
                        let sy = Formula::recursive_simplify(*y);
                        (sy.0, true)
                    },
                    x => {
                        let sx = Formula::recursive_simplify(x);
                        (Formula::UnaryExpression(UnaryOp::NOT, Box::new(sx.0)), sx.1)
                    },
                }
            },
        }
    }

    /// A pass leaves a formula in which no rewrite applies as it is.
    pub proof fn lemma_pass_fixes_simplified(self)
        requires
            self.is_simplified(),
        ensures
            self.simplify_pass() == self,
        decreases self,
    {
        match self {
            Formula::Proposition(_) => {},
            Formula::BinaryExpression(op, x, y) => {
                x.lemma_pass_fixes_simplified();
                y.lemma_pass_fixes_simplified();
            },
            Formula::UnaryExpression(op, x) => {
                x.lemma_pass_fixes_simplified();
            },
        }
    }

    /// In the formula that repeated passes end in, no rewrite applies.
    pub proof fn lemma_simplified_is_simplified(self)
        ensures
            self.simplified().is_simplified(),
        decreases self.negations(),
    {
        if !self.is_simplified() {
            self.lemma_pass_removes_negations();
            self.simplify_pass().lemma_simplified_is_simplified();
        }
    }

    /// The operand of a negation.
    pub fn negated(&self) -> (r: Option<&Formula>)
        ensures
            r is Some == self.is_negation(),
            r matches Some(x) ==> *x == self.operand(),
    {
        match self {
            Formula::UnaryExpression(_, x) => Some(&**x),
            _ => None,
        }
    }

    /// Passes of the simplifier until one changes nothing.
    pub fn simplify(formula: Formula) -> (res: Formula)
        ensures
            res == formula.simplified(),
            res.is_simplified(),
    {
        proof {
            formula.lemma_simplified_is_simplified();
        }
        let ghost start = formula;
        let mut cur = formula;
        loop
            invariant
                start == formula,
                cur.simplified() == start.simplified(),
            decreases cur.negations(),
        {
            let ghost before = cur;
            let (next, changed) = Formula::recursive_simplify(cur);
            proof {
                before.lemma_pass_removes_negations();
                if !changed {
                    before.lemma_pass_fixes_simplified();
                }
            }
            cur = next;
            if !changed {
                return cur;
            }
        }
    }
}

} // verus!
