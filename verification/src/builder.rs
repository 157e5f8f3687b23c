//! Fluent construction of arena-indexed plans.
//!
//! The builder owns both arenas and a current root handle.  Every step
//! resolves the new operator's output schema against the current root's
//! schema, appends the operator, and returns a builder rooted at the fresh
//! handle.  An empty projection is deliberately not materialized: it stands
//! for "select all columns".

use vstd::prelude::*;

use crate::aexpr::expr_wf;
use crate::aexpr::AExpr;
use crate::alp::inputs_of;
use crate::alp::lemma_plan_schema_some;
use crate::alp::lemma_plan_wf_push;
use crate::alp::lemma_schema_of_plan_bound;
use crate::alp::plan_node_ok;
use crate::alp::plan_slot_ok;
use crate::alp::plan_wf;
use crate::alp::spec_schema_of;
use crate::alp::ALogicalPlan;
use crate::alp::UdfHandle;
use crate::alp::JoinType;
use crate::arena::Arena;
use crate::arena::Node;
use crate::infer::abs_fields;
use crate::infer::all_exprs_typed;
use crate::infer::det_melt_schema;
use crate::infer::expr_nodes_ok;
use crate::infer::exprs_to_schema;
use crate::infer::groupby_schema;
use crate::infer::hstack_pairs;
use crate::infer::hstack_schema;
use crate::infer::join_keys_ok;
use crate::infer::join_right_pairs;
use crate::infer::join_schema;
use crate::infer::key_name_set;
use crate::infer::key_names;
use crate::infer::melt_kept_fields;
use crate::infer::melt_value_dtype;
use crate::infer::merge_pairs;
use crate::infer::projected_fields;
use crate::schema::DataType;
use crate::schema::Field;
use crate::schema::Schema;

verus! {

/// The output schema of the plan stored at `node`, as an owned value.
pub fn node_schema(arena: &Arena<ALogicalPlan>, node: Node) -> (r: Schema)
    requires
        plan_wf(arena.view()),
        plan_node_ok(arena.view(), node),
    ensures
        Some(r.spec_fields()) == spec_schema_of(arena.view(), node.0 as int),
{
    proof {
        assert(plan_slot_ok(arena.view(), node.0 as int));
    }
    let p = arena.get(node);
    let s = p.schema(arena);
    proof {
        lemma_schema_of_plan_bound(
            arena.view(),
            *p,
            node.0 as int,
            arena.view().len() as int,
        );
    }
    let r = s.clone();
    proof {
        assert(Some(r.spec_fields()) =~= spec_schema_of(arena.view(), node.0 as int));
    }
    r
}

/// Transient cursor for building a plan: the current root handle together
/// with the two arenas it points into.
pub struct ALogicalPlanBuilder {
    root: Node,
    expr_arena: Arena<AExpr>,
    lp_arena: Arena<ALogicalPlan>,
}

impl ALogicalPlanBuilder {
    pub closed spec fn spec_root(&self) -> Node {
        self.root
    }

    pub closed spec fn spec_lp(&self) -> Seq<Option<ALogicalPlan>> {
        self.lp_arena.view()
    }

    pub closed spec fn spec_expr(&self) -> Seq<Option<AExpr>> {
        self.expr_arena.view()
    }

    /// Both arenas are well-formed and the root is present.
    pub open spec fn wf(&self) -> bool {
        &&& plan_wf(self.spec_lp())
        &&& expr_wf(self.spec_expr())
        &&& plan_node_ok(self.spec_lp(), self.spec_root())
    }

    /// The output schema of the current root, as its field list.
    pub open spec fn current_schema(&self) -> Seq<Field> {
        spec_schema_of(self.spec_lp(), self.spec_root().0 as int)->Some_0
    }

    /// Everything below the appended node is untouched, the expression
    /// arena is untouched, and the new root is the appended slot.
    pub open spec fn appended(&self, new: &Self) -> bool {
        &&& new.spec_expr() == self.spec_expr()
        &&& new.spec_lp().len() == self.spec_lp().len() + 1
        &&& forall|i: int| 0 <= i < self.spec_lp().len() ==> new.spec_lp()[i] == self.spec_lp()[i]
        &&& new.spec_root().0 == self.spec_lp().len()
        &&& new.spec_lp()[new.spec_root().0 as int] is Some
    }

    /// The operator at the new root.
    pub open spec fn appended_plan(new: &Self) -> ALogicalPlan {
        new.spec_lp()[new.spec_root().0 as int]->Some_0
    }

    pub fn new(root: Node, expr_arena: Arena<AExpr>, lp_arena: Arena<ALogicalPlan>) -> (r:
        ALogicalPlanBuilder)
        requires
            plan_wf(lp_arena.view()),
            expr_wf(expr_arena.view()),
            plan_node_ok(lp_arena.view(), root),
        ensures
            r.wf(),
            r.spec_root() == root,
            r.spec_lp() == lp_arena.view(),
            r.spec_expr() == expr_arena.view(),
    {
        ALogicalPlanBuilder { root, expr_arena, lp_arena }
    }

    /// The current root handle.
    pub fn into_node(&self) -> (r: Node)
        ensures
            r == self.spec_root(),
    {
        self.root
    }

    /// Gives the root handle and both arenas back.
    pub fn into_parts(self) -> (r: (Node, Arena<AExpr>, Arena<ALogicalPlan>))
        ensures
            r.0 == self.spec_root(),
            r.1.view() == self.spec_expr(),
            r.2.view() == self.spec_lp(),
    {
        (self.root, self.expr_arena, self.lp_arena)
    }

    /// Moves the root operator out of the arena and hands it back together
    /// with both arenas; the root's slot is left empty.
    pub fn build(self) -> (r: (ALogicalPlan, Arena<AExpr>, Arena<ALogicalPlan>))
        requires
            self.wf(),
        ensures
            Some(r.0) == self.spec_lp()[self.spec_root().0 as int],
            r.1.view() == self.spec_expr(),
            r.2.view() == self.spec_lp().update(self.spec_root().0 as int, None),
    {
        let ALogicalPlanBuilder { root, expr_arena, mut lp_arena } = self;
        let lp = lp_arena.take(root);
        (lp, expr_arena, lp_arena)
    }

    /// The output schema of the current root.
    pub fn schema(&self) -> (r: Schema)
        requires
            self.wf(),
        ensures
            Some(r.spec_fields()) == spec_schema_of(self.spec_lp(), self.spec_root().0 as int),
    {
        node_schema(&self.lp_arena, self.root)
    }

    /// Appends `lp`, whose inputs must already sit in the plan arena, and
    /// roots the builder at it.
    fn append(self, lp: ALogicalPlan) -> (r: ALogicalPlanBuilder)
        requires
            self.wf(),
            forall|k: int|
                0 <= k < inputs_of(lp).len() ==> plan_node_ok(
                    self.spec_lp(),
                    #[trigger] inputs_of(lp)[k],
                ),
        ensures
            r.wf(),
            self.appended(&r),
            Self::appended_plan(&r) == lp,
    {
        let ALogicalPlanBuilder { root: _, expr_arena, mut lp_arena } = self;
        proof {
            lemma_plan_wf_push(lp_arena.view(), lp);
        }
        let node = lp_arena.add(lp);
        ALogicalPlanBuilder { root: node, expr_arena, lp_arena }
    }

    /// Adds a projection of `exprs`, or returns the builder unchanged when
    /// `exprs` is empty: selecting nothing means selecting every column.
    pub fn project(self, exprs: Vec<Node>) -> (r: ALogicalPlanBuilder)
        requires
            self.wf(),
            expr_nodes_ok(self.spec_expr(), exprs@),
            all_exprs_typed(self.spec_expr(), self.current_schema(), exprs@),
        ensures
            r.wf(),
            exprs@.len() == 0 ==> r == self,
            exprs@.len() > 0 ==> self.appended(&r) && (Self::appended_plan(&r) matches
                ALogicalPlan::Projection { expr, input, schema } && expr@ == exprs@ && input
                == self.spec_root() && abs_fields(schema.spec_fields()) == projected_fields(
                self.spec_expr(),
                self.current_schema(),
                exprs@,
            )),
    {
        if exprs.len() == 0 {
            return self;
        }
        let input_schema = self.schema();
        let schema = match exprs_to_schema(&exprs, &input_schema, &self.expr_arena) {
            Ok(s) => s,
            Err(_) => {
                proof {
                    assert(false);
                }
                Schema::new(Vec::new())
            }
        };
        let input = self.root;
        self.append(ALogicalPlan::Projection { expr: exprs, input, schema })
    }

    /// Adds a local projection of `exprs`, or returns the builder
    /// unchanged when `exprs` is empty.
    pub fn project_local(self, exprs: Vec<Node>) -> (r: ALogicalPlanBuilder)
        requires
            self.wf(),
            expr_nodes_ok(self.spec_expr(), exprs@),
            all_exprs_typed(self.spec_expr(), self.current_schema(), exprs@),
        ensures
            r.wf(),
            exprs@.len() == 0 ==> r == self,
            exprs@.len() > 0 ==> self.appended(&r) && (Self::appended_plan(&r) matches
                ALogicalPlan::LocalProjection { expr, input, schema } && expr@ == exprs@ && input
                == self.spec_root() && abs_fields(schema.spec_fields()) == projected_fields(
                self.spec_expr(),
                self.current_schema(),
                exprs@,
            )),
    {
        if exprs.len() == 0 {
            return self;
        }
        let input_schema = self.schema();
        let schema = match exprs_to_schema(&exprs, &input_schema, &self.expr_arena) {
            Ok(s) => s,
            Err(_) => {
                proof {
                    assert(false);
                }
                Schema::new(Vec::new())
            }
        };
        let input = self.root;
        self.append(ALogicalPlan::LocalProjection { expr: exprs, input, schema })
    }

    /// Adds a melt of the current root over `value_vars`, keeping
    /// `id_vars`.
    pub fn melt(self, id_vars: Vec<String>, value_vars: Vec<String>) -> (r: ALogicalPlanBuilder)
        requires
            self.wf(),
        ensures
            r.wf(),
            self.appended(&r),
            Self::appended_plan(&r) matches ALogicalPlan::Melt {
                input,
                id_vars: iv,
                value_vars: vv,
                schema,
            } && input == self.spec_root() && iv@ == id_vars@ && vv@ == value_vars@ && abs_fields(
                schema.spec_fields(),
            ) == melt_kept_fields(self.current_schema(), value_vars@, 0) + seq![
                ("variable"@, DataType::Utf8),
                ("value"@, melt_value_dtype(self.current_schema(), value_vars@)),
            ],
    {
        let input_schema = self.schema();
        let schema = det_melt_schema(&value_vars, &input_schema);
        let input = self.root;
        self.append(ALogicalPlan::Melt { input, id_vars, value_vars, schema })
    }

    /// Adds a horizontal stack of `exprs`: each expression's column
    /// replaces its namesake in the current schema or is appended to it.
    pub fn with_columns(self, exprs: Vec<Node>) -> (r: ALogicalPlanBuilder)
        requires
            self.wf(),
            expr_nodes_ok(self.spec_expr(), exprs@),
            all_exprs_typed(self.spec_expr(), self.current_schema(), exprs@),
        ensures
            r.wf(),
            self.appended(&r),
            Self::appended_plan(&r) matches ALogicalPlan::HStack { input, exprs: e2, schema }
                && input == self.spec_root() && e2@ == exprs@ && abs_fields(schema.spec_fields()) == hstack_pairs(
                self.spec_expr(),
                self.current_schema(),
                abs_fields(self.current_schema()),
                exprs@,
                0,
            ),
    {
        let input_schema = self.schema();
        let schema = match hstack_schema(&exprs, &input_schema, &self.expr_arena) {
            Ok(s) => s,
            Err(_) => {
                proof {
                    assert(false);
                }
                Schema::new(Vec::new())
            }
        };
        let input = self.root;
        self.append(ALogicalPlan::HStack { input, exprs, schema })
    }

    /// Adds an aggregation over `keys`, computing `aggs` per group.  The
    /// resulting schema merges the key fields with the aggregation fields;
    /// the merge must not carry one name with two types.
    pub fn groupby(self, keys: Vec<Node>, aggs: Vec<Node>, apply: Option<UdfHandle>) -> (r:
        ALogicalPlanBuilder)
        requires
            self.wf(),
            expr_nodes_ok(self.spec_expr(), keys@),
            expr_nodes_ok(self.spec_expr(), aggs@),
            all_exprs_typed(self.spec_expr(), self.current_schema(), keys@),
            all_exprs_typed(self.spec_expr(), self.current_schema(), aggs@),
            merge_pairs(
                Seq::empty(),
                projected_fields(self.spec_expr(), self.current_schema(), keys@),
                0,
            ) matches Some(a1) && merge_pairs(
                a1,
                projected_fields(self.spec_expr(), self.current_schema(), aggs@),
                0,
            ) is Some,
        ensures
            r.wf(),
            self.appended(&r),
            Self::appended_plan(&r) matches ALogicalPlan::Aggregate {
                input,
                keys: k2,
                aggs: a2,
                schema,
                apply: ap2,
            } && input == self.spec_root() && k2@ == keys@ && a2@ == aggs@ && ap2 == apply
                && merge_pairs(
                merge_pairs(
                    Seq::empty(),
                    projected_fields(self.spec_expr(), self.current_schema(), keys@),
                    0,
                )->Some_0,
                projected_fields(self.spec_expr(), self.current_schema(), aggs@),
                0,
            ) == Some(abs_fields(schema.spec_fields())),
    {
        let input_schema = self.schema();
        let schema = match groupby_schema(&keys, &aggs, &input_schema, &self.expr_arena) {
            Ok(s) => s,
            Err(_) => {
                proof {
                    assert(false);
                }
                Schema::new(Vec::new())
            }
        };
        let input = self.root;
        self.append(ALogicalPlan::Aggregate { input, keys, aggs, schema, apply })
    }

    /// Adds a join of the current root with the plan rooted at `other`.
    /// Join keys must resolve to a column name or alias; the right side's
    /// non-key columns whose names collide with the left side are suffixed
    /// `_right` in the resulting schema.
    pub fn join(
        self,
        other: Node,
        how: JoinType,
        left_on: Vec<Node>,
        right_on: Vec<Node>,
        allow_par: bool,
        force_par: bool,
    ) -> (r: ALogicalPlanBuilder)
        requires
            self.wf(),
            plan_node_ok(self.spec_lp(), other),
            join_keys_ok(self.spec_expr(), right_on@),
        ensures
            r.wf(),
            self.appended(&r),
            Self::appended_plan(&r) matches ALogicalPlan::Join {
                input_left,
                input_right,
                schema,
                how: h2,
                left_on: l2,
                right_on: r2,
                allow_par: ap2,
                force_par: fp2,
            } && input_left == self.spec_root() && input_right == other && h2 == how && l2@
                == left_on@ && r2@ == right_on@ && ap2 == allow_par && fp2 == force_par
                && abs_fields(schema.spec_fields()) == abs_fields(self.current_schema()) + join_right_pairs(
                self.current_schema(),
                spec_schema_of(self.spec_lp(), other.0 as int)->Some_0,
                key_name_set(self.spec_expr(), right_on@),
                0,
            ),
    {
        let schema_left = self.schema();
        proof {
            lemma_plan_schema_some(self.spec_lp(), other.0 as int);
        }
        let schema_right = node_schema(&self.lp_arena, other);
        let right_names = key_names(&right_on, &self.expr_arena);
        let schema = join_schema(&schema_left, &schema_right, &right_names);
        let input_left = self.root;
        self.append(
            ALogicalPlan::Join {
                input_left,
                input_right: other,
                schema,
                how,
                left_on,
                right_on,
                allow_par,
                force_par,
            },
        )
    }
}

} // verus!
