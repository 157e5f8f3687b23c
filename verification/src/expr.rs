//! The unindexed expression tree of the front end.
//!
//! Before lowering into the arena representation, expressions are held as
//! owned trees.  [`ExprIter`] walks such a tree without recursion, with an
//! explicit stack of borrowed sub-trees; the traversal visits every node of
//! the tree exactly once, children after the node that owns them.

use vstd::prelude::*;

use crate::aexpr::Operator;
use crate::aexpr::LiteralValue;
use crate::schema::DataType;

verus! {

/// Aggregations over one owned sub-tree.
#[derive(Debug)]
pub enum AggExpr {
    Min(Box<Expr>),
    Max(Box<Expr>),
    Median(Box<Expr>),
    NUnique(Box<Expr>),
    First(Box<Expr>),
    Last(Box<Expr>),
    Mean(Box<Expr>),
    List(Box<Expr>),
    Count(Box<Expr>),
    Quantile(Box<Expr>),
    Sum(Box<Expr>),
    Std(Box<Expr>),
    Var(Box<Expr>),
    AggGroups(Box<Expr>),
}

impl AggExpr {
    /// The sub-tree the aggregation is applied to.
    pub open spec fn spec_input(&self) -> Expr {
        match self {
            AggExpr::Min(e) => **e,
            AggExpr::Max(e) => **e,
            AggExpr::Median(e) => **e,
            AggExpr::NUnique(e) => **e,
            AggExpr::First(e) => **e,
            AggExpr::Last(e) => **e,
            AggExpr::Mean(e) => **e,
            AggExpr::List(e) => **e,
            AggExpr::Count(e) => **e,
            AggExpr::Quantile(e) => **e,
            AggExpr::Sum(e) => **e,
            AggExpr::Std(e) => **e,
            AggExpr::Var(e) => **e,
            AggExpr::AggGroups(e) => **e,
        }
    }

    pub fn input(&self) -> (r: &Expr)
        ensures
            *r == self.spec_input(),
    {
        match self {
            AggExpr::Min(e) => e,
            AggExpr::Max(e) => e,
            AggExpr::Median(e) => e,
            AggExpr::NUnique(e) => e,
            AggExpr::First(e) => e,
            AggExpr::Last(e) => e,
            AggExpr::Mean(e) => e,
            AggExpr::List(e) => e,
            AggExpr::Count(e) => e,
            AggExpr::Quantile(e) => e,
            AggExpr::Sum(e) => e,
            AggExpr::Std(e) => e,
            AggExpr::Var(e) => e,
            AggExpr::AggGroups(e) => e,
        }
    }
}

/// An owned expression tree node, the pre-lowering counterpart of the
/// arena-indexed expression node.
#[derive(Debug)]
pub enum Expr {
    Alias(Box<Expr>, String),
    Column(String),
    Literal(LiteralValue),
    BinaryExpr { left: Box<Expr>, op: Operator, right: Box<Expr> },
    Not(Box<Expr>),
    IsNotNull(Box<Expr>),
    IsNull(Box<Expr>),
    Cast { expr: Box<Expr>, data_type: DataType },
    Sort { expr: Box<Expr>, reverse: bool },
    SortBy { expr: Box<Expr>, by: Box<Expr> },
    Filter { input: Box<Expr>, by: Box<Expr> },
    Agg(AggExpr),
    Ternary { predicate: Box<Expr>, truthy: Box<Expr>, falsy: Box<Expr> },
    Shift { input: Box<Expr>, periods: i64 },
    Window { function: Box<Expr>, partition_by: Box<Expr>, order_by: Option<Box<Expr>> },
    Slice { input: Box<Expr>, offset: i64, length: usize },
    Reverse(Box<Expr>),
    Duplicated(Box<Expr>),
    IsUnique(Box<Expr>),
    Explode(Box<Expr>),
    BinaryFunction { input_a: Box<Expr>, input_b: Box<Expr> },
    Except(Box<Expr>),
    Wildcard,
}

/// The immediate child sub-trees of an expression, in the order the
/// iterator pushes them onto its stack.
pub open spec fn expr_children(e: Expr) -> Seq<Expr> {
    match e {
        Expr::Column(_) | Expr::Literal(_) | Expr::Wildcard => Seq::empty(),
        Expr::Alias(c, _) => seq![*c],
        Expr::Not(c) => seq![*c],
        Expr::BinaryExpr { left, op: _, right } => seq![*left, *right],
        Expr::IsNull(c) => seq![*c],
        Expr::IsNotNull(c) => seq![*c],
        Expr::Cast { expr, .. } => seq![*expr],
        Expr::Sort { expr, .. } => seq![*expr],
        Expr::Filter { input, by } => seq![*input, *by],
        Expr::SortBy { expr, by } => seq![*expr, *by],
        Expr::Agg(a) => seq![a.spec_input()],
        Expr::Ternary { predicate, truthy, falsy } => seq![*truthy, *falsy, *predicate],
        Expr::Shift { input, .. } => seq![*input],
        Expr::Window { function, partition_by, order_by } => match order_by {
            Some(o) => seq![*function, *partition_by, *o],
            None => seq![*function, *partition_by],
        },
        Expr::Slice { input, .. } => seq![*input],
        Expr::Reverse(c) => seq![*c],
        Expr::Duplicated(c) => seq![*c],
        Expr::IsUnique(c) => seq![*c],
        Expr::Explode(c) => seq![*c],
        Expr::BinaryFunction { input_a, input_b } => seq![*input_a, *input_b],
        Expr::Except(c) => seq![*c],
    }
}

/// The tree values behind a stack of borrowed sub-trees.
pub open spec fn stack_values(s: Seq<&Expr>) -> Seq<Expr> {
    Seq::new(s.len(), |i: int| *s[i])
}

/// Explicit-stack depth-first traversal over an owned expression tree.
/// Each [`ExprIter::next`] pops one sub-tree, pushes its children, and
/// hands the sub-tree out.
pub struct ExprIter<'a> {
    stack: Vec<&'a Expr>,
}

impl<'a> ExprIter<'a> {
    /// The tree values currently waiting on the stack, bottom first.
    pub closed spec fn pending(&self) -> Seq<Expr> {
        stack_values(self.stack@)
    }

    /// Starts a traversal at the root of `e`.
    pub fn new(e: &'a Expr) -> (r: ExprIter<'a>)
        ensures
            r.pending() == seq![*e],
    {
        let mut stack: Vec<&'a Expr> = Vec::new();
        stack.push(e);
        let r = ExprIter { stack };
        proof {
            assert(r.pending() =~= seq![*e]);
        }
        r
    }

    /// Pops the next sub-tree and pushes its immediate children.
    pub fn next(&mut self) -> (r: Option<&'a Expr>)
        ensures
            match r {
                None => old(self).pending().len() == 0 && final (self).pending() == old(
                    self,
                ).pending(),
                Some(e) => old(self).pending().len() > 0 && *e == old(self).pending().last()
                    && final (self).pending() == old(self).pending().drop_last() + expr_children(
                    *e,
                ),
            },
    {
        let popped = self.stack.pop();
        match popped {
            None => {
                proof {
                    assert(self.pending() =~= old(self).pending());
                }
                None
            }
            Some(current) => {
                match current {
                    Expr::Column(_) | Expr::Literal(_) | Expr::Wildcard => {}
                    Expr::Alias(c, _) => self.stack.push(&**c),
                    Expr::Not(c) => self.stack.push(&**c),
                    Expr::BinaryExpr { left, op: _, right } => {
                        self.stack.push(&**left);
                        self.stack.push(&**right);
                    }
                    Expr::IsNull(c) => self.stack.push(&**c),
                    Expr::IsNotNull(c) => self.stack.push(&**c),
                    Expr::Cast { expr, .. } => self.stack.push(&**expr),
                    Expr::Sort { expr, .. } => self.stack.push(&**expr),
                    Expr::Filter { input, by } => {
                        self.stack.push(&**input);
                        self.stack.push(&**by);
                    }
                    Expr::SortBy { expr, by } => {
                        self.stack.push(&**expr);
                        self.stack.push(&**by);
                    }
                    Expr::Agg(a) => self.stack.push(a.input()),
                    Expr::Ternary { predicate, truthy, falsy } => {
                        self.stack.push(&**truthy);
                        self.stack.push(&**falsy);
                        self.stack.push(&**predicate);
                    }
                    Expr::Shift { input, .. } => self.stack.push(&**input),
                    Expr::Window { function, partition_by, order_by } => {
                        self.stack.push(&**function);
                        self.stack.push(&**partition_by);
                        if let Some(o) = order_by {
                            self.stack.push(&**o);
                        }
                    }
                    Expr::Slice { input, .. } => self.stack.push(&**input),
                    Expr::Reverse(c) => self.stack.push(&**c),
                    Expr::Duplicated(c) => self.stack.push(&**c),
                    Expr::IsUnique(c) => self.stack.push(&**c),
                    Expr::Explode(c) => self.stack.push(&**c),
                    Expr::BinaryFunction { input_a, input_b } => {
                        self.stack.push(&**input_a);
                        self.stack.push(&**input_b);
                    }
                    Expr::Except(c) => self.stack.push(&**c),
                }
                proof {
                    assert(self.pending() =~= old(self).pending().drop_last() + expr_children(
                        *current,
                    ));
                }
                Some(current)
            }
        }
    }
}

} // verus!
