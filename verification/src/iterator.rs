//! Explicit-stack traversals over the arena-indexed graphs.
//!
//! Both iterators follow the same pattern: a stack is seeded with a root
//! handle, each step pops one handle, looks it up, pushes the node's
//! immediate children, and hands back the (handle, node) pair.  Traversal
//! order is the stack order, not guaranteed left-to-right; what holds is
//! that every node reachable from the root is reached through its parent.

use vstd::prelude::*;

use crate::aexpr::children_of;
use crate::aexpr::expr_node_ok;
use crate::aexpr::expr_wf;
use crate::aexpr::AExpr;
use crate::alp::inputs_of;
use crate::alp::plan_node_ok;
use crate::alp::plan_slot_ok;
use crate::alp::plan_wf;
use crate::alp::ALogicalPlan;
use crate::arena::Arena;
use crate::arena::Node;

verus! {

/// Depth-first traversal over the expression arena, yielding each node of
/// the sub-graph rooted at the seed handle together with its handle.
pub struct AExprIter<'a> {
    stack: Vec<Node>,
    arena: &'a Arena<AExpr>,
}

impl<'a> AExprIter<'a> {
    /// The handles waiting on the stack, bottom first.
    pub closed spec fn pending(&self) -> Seq<Node> {
        self.stack@
    }

    pub closed spec fn spec_arena(&self) -> &'a Arena<AExpr> {
        self.arena
    }

    /// All pending handles point at present slots of a well-formed arena.
    pub open spec fn wf(&self) -> bool {
        &&& expr_wf(self.spec_arena().view())
        &&& forall|k: int|
            0 <= k < self.pending().len() ==> expr_node_ok(
                self.spec_arena().view(),
                #[trigger] self.pending()[k],
            )
    }

    /// Starts a traversal of the expression graph rooted at `root`.
    pub fn new(arena: &'a Arena<AExpr>, root: Node) -> (r: AExprIter<'a>)
        requires
            expr_wf(arena.view()),
            expr_node_ok(arena.view(), root),
        ensures
            r.wf(),
            r.spec_arena() == arena,
            r.pending() == seq![root],
    {
        let mut stack: Vec<Node> = Vec::new();
        stack.push(root);
        let r = AExprIter { stack, arena };
        proof {
            assert(r.pending() =~= seq![root]);
        }
        r
    }

    /// Pops the next handle, pushes the children of its node, and returns
    /// the (handle, node) pair.
    pub fn next(&mut self) -> (r: Option<(Node, &'a AExpr)>)
        requires
            old(self).wf(),
        ensures
            final (self).wf(),
            final (self).spec_arena() == old(self).spec_arena(),
            match r {
                None => old(self).pending().len() == 0 && final (self).pending() == old(
                    self,
                ).pending(),
                Some((n, e)) => {
                    &&& old(self).pending().len() > 0
                    &&& n == old(self).pending().last()
                    &&& Some(*e) == old(self).spec_arena().view()[n.0 as int]
                    &&& final (self).pending() == old(self).pending().drop_last() + children_of(*e)
                },
            },
    {
        let popped = self.stack.pop();
        match popped {
            None => None,
            Some(node) => {
                let arena = self.arena;
                proof {
                    assert(crate::aexpr::expr_slot_ok(arena.view(), node.0 as int));
                }
                let current = arena.get(node);
                current.nodes(&mut self.stack);
                Some((node, current))
            }
        }
    }
}

/// Depth-first traversal over the plan arena, yielding each operator of
/// the plan rooted at the seed handle together with its handle.
pub struct AlpIter<'a> {
    stack: Vec<Node>,
    arena: &'a Arena<ALogicalPlan>,
}

impl<'a> AlpIter<'a> {
    /// The handles waiting on the stack, bottom first.
    pub closed spec fn pending(&self) -> Seq<Node> {
        self.stack@
    }

    pub closed spec fn spec_arena(&self) -> &'a Arena<ALogicalPlan> {
        self.arena
    }

    /// All pending handles point at present slots of a well-formed arena.
    pub open spec fn wf(&self) -> bool {
        &&& plan_wf(self.spec_arena().view())
        &&& forall|k: int|
            0 <= k < self.pending().len() ==> plan_node_ok(
                self.spec_arena().view(),
                #[trigger] self.pending()[k],
            )
    }

    /// Starts a traversal of the plan rooted at `root`.
    pub fn new(arena: &'a Arena<ALogicalPlan>, root: Node) -> (r: AlpIter<'a>)
        requires
            plan_wf(arena.view()),
            plan_node_ok(arena.view(), root),
        ensures
            r.wf(),
            r.spec_arena() == arena,
            r.pending() == seq![root],
    {
        let mut stack: Vec<Node> = Vec::new();
        stack.push(root);
        let r = AlpIter { stack, arena };
        proof {
            assert(r.pending() =~= seq![root]);
        }
        r
    }

    /// Pops the next handle, pushes the operator's inputs, and returns the
    /// (handle, operator) pair.
    pub fn next(&mut self) -> (r: Option<(Node, &'a ALogicalPlan)>)
        requires
            old(self).wf(),
        ensures
            final (self).wf(),
            final (self).spec_arena() == old(self).spec_arena(),
            match r {
                None => old(self).pending().len() == 0 && final (self).pending() == old(
                    self,
                ).pending(),
                Some((n, lp)) => {
                    &&& old(self).pending().len() > 0
                    &&& n == old(self).pending().last()
                    &&& Some(*lp) == old(self).spec_arena().view()[n.0 as int]
                    &&& final (self).pending() == old(self).pending().drop_last() + inputs_of(*lp)
                },
            },
    {
        let popped = self.stack.pop();
        match popped {
            None => None,
            Some(node) => {
                let arena = self.arena;
                proof {
                    assert(plan_slot_ok(arena.view(), node.0 as int));
                }
                let lp = arena.get(node);
                lp.copy_inputs(&mut self.stack);
                Some((node, lp))
            }
        }
    }
}

} // verus!
