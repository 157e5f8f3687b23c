//! Arena-indexed logical-plan operators.
//!
//! A relational operator is a tagged variant stored in an
//! [`Arena<ALogicalPlan>`]; input plans and embedded expressions are
//! referenced by [`Node`] handle.  Operators that determine their own output
//! columns store a [`Schema`] eagerly; schema-preserving operators derive
//! theirs from their single input on demand.

use vstd::prelude::*;

use crate::aexpr::AExpr;
use crate::arena::Arena;
use crate::arena::Node;
use crate::schema::Field;
use crate::schema::Schema;

verus! {

/// How two plans are joined.
#[derive(Clone, Copy, PartialEq, Eq, Structural, Debug)]
pub enum JoinType {
    Inner,
    Left,
    Outer,
}

/// Opaque token standing for a user-supplied frame transform registered
/// with the execution layer.  This planning layer never invokes the
/// function; it only carries the token and respects its pushdown flags.
#[derive(Clone, Copy, PartialEq, Eq, Structural, Debug)]
pub struct UdfHandle(pub usize);

/// A logical-plan operator.  `input` handles point into the plan arena,
/// expression handles (predicates, projections, keys) into the expression
/// arena.
#[derive(Debug)]
pub enum ALogicalPlan {
    Melt {
        input: Node,
        id_vars: Vec<String>,
        value_vars: Vec<String>,
        schema: Schema,
    },
    Slice {
        input: Node,
        offset: i64,
        len: usize,
    },
    Selection {
        input: Node,
        predicate: Node,
    },
    CsvScan {
        path: String,
        schema: Schema,
        has_header: bool,
        delimiter: u8,
        ignore_errors: bool,
        skip_rows: usize,
        stop_after_n_rows: Option<usize>,
        with_columns: Option<Vec<String>>,
        predicate: Option<Node>,
        aggregate: Vec<Node>,
        cache: bool,
    },
    ParquetScan {
        path: String,
        schema: Schema,
        with_columns: Option<Vec<String>>,
        predicate: Option<Node>,
        aggregate: Vec<Node>,
        stop_after_n_rows: Option<usize>,
        cache: bool,
    },
    DataFrameScan {
        schema: Schema,
        projection: Option<Vec<Node>>,
        selection: Option<Node>,
    },
    Projection {
        expr: Vec<Node>,
        input: Node,
        schema: Schema,
    },
    LocalProjection {
        expr: Vec<Node>,
        input: Node,
        schema: Schema,
    },
    Sort {
        input: Node,
        by_column: String,
        reverse: bool,
    },
    Explode {
        input: Node,
        columns: Vec<String>,
    },
    Cache {
        input: Node,
    },
    Aggregate {
        input: Node,
        keys: Vec<Node>,
        aggs: Vec<Node>,
        schema: Schema,
        apply: Option<UdfHandle>,
    },
    Join {
        input_left: Node,
        input_right: Node,
        schema: Schema,
        how: JoinType,
        left_on: Vec<Node>,
        right_on: Vec<Node>,
        allow_par: bool,
        force_par: bool,
    },
    HStack {
        input: Node,
        exprs: Vec<Node>,
        schema: Schema,
    },
    Distinct {
        input: Node,
        maintain_order: bool,
        subset: Option<Vec<String>>,
    },
    Udf {
        input: Node,
        function: UdfHandle,
        predicate_pd: bool,
        projection_pd: bool,
        schema: Option<Schema>,
    },
}

/// The input plans of an operator, in the order the traversal machinery
/// pushes them.  A join has two, a scan none, every other operator one.
pub open spec fn inputs_of(p: ALogicalPlan) -> Seq<Node> {
    match p {
        ALogicalPlan::Melt { input, .. } => seq![input],
        ALogicalPlan::Slice { input, .. } => seq![input],
        ALogicalPlan::Selection { input, .. } => seq![input],
        ALogicalPlan::CsvScan { .. } => Seq::empty(),
        ALogicalPlan::ParquetScan { .. } => Seq::empty(),
        ALogicalPlan::DataFrameScan { .. } => Seq::empty(),
        ALogicalPlan::Projection { input, .. } => seq![input],
        ALogicalPlan::LocalProjection { input, .. } => seq![input],
        ALogicalPlan::Sort { input, .. } => seq![input],
        ALogicalPlan::Explode { input, .. } => seq![input],
        ALogicalPlan::Cache { input } => seq![input],
        ALogicalPlan::Aggregate { input, .. } => seq![input],
        ALogicalPlan::Join { input_left, input_right, .. } => seq![input_left, input_right],
        ALogicalPlan::HStack { input, .. } => seq![input],
        ALogicalPlan::Distinct { input, .. } => seq![input],
        ALogicalPlan::Udf { input, .. } => seq![input],
    }
}

/// The expression handles held by an operator, in the order the rebuild
/// machinery expects them back.
pub open spec fn exprs_of(p: ALogicalPlan) -> Seq<Node> {
    match p {
        ALogicalPlan::Melt { .. }
        | ALogicalPlan::Slice { .. }
        | ALogicalPlan::Sort { .. }
        | ALogicalPlan::Explode { .. }
        | ALogicalPlan::Cache { .. }
        | ALogicalPlan::Distinct { .. }
        | ALogicalPlan::Udf { .. } => Seq::empty(),
        ALogicalPlan::Selection { predicate, .. } => seq![predicate],
        ALogicalPlan::Projection { expr, .. } => expr@,
        ALogicalPlan::LocalProjection { expr, .. } => expr@,
        ALogicalPlan::Aggregate { keys, aggs, .. } => keys@ + aggs@,
        ALogicalPlan::Join { left_on, right_on, .. } => left_on@ + right_on@,
        ALogicalPlan::HStack { exprs, .. } => exprs@,
        ALogicalPlan::CsvScan { predicate, aggregate, .. } => aggregate@ + (match predicate {
            Some(n) => seq![n],
            None => Seq::empty(),
        }),
        ALogicalPlan::ParquetScan { predicate, aggregate, .. } => aggregate@ + (match predicate {
            Some(n) => seq![n],
            None => Seq::empty(),
        }),
        ALogicalPlan::DataFrameScan { projection, selection, .. } => (match projection {
            Some(v) => v@,
            None => Seq::empty(),
        }) + (match selection {
            Some(n) => seq![n],
            None => Seq::empty(),
        }),
    }
}

/// Whether slot `i` of the plan arena is either empty or holds an operator
/// whose inputs all sit strictly below `i` and are present.
pub open spec fn plan_slot_ok(a: Seq<Option<ALogicalPlan>>, i: int) -> bool {
    a[i] matches Some(p) ==> forall|k: int|
        0 <= k < inputs_of(p).len() ==> (#[trigger] inputs_of(p)[k]).0 < i && a[inputs_of(
            p,
        )[k].0 as int] is Some
}

/// A well-formed plan arena: inputs sit strictly below the operator that
/// references them and are present.  Plans lowered from a front-end tree
/// have this shape, because a node can only be added after its inputs.
pub open spec fn plan_wf(a: Seq<Option<ALogicalPlan>>) -> bool {
    forall|i: int| 0 <= i < a.len() ==> plan_slot_ok(a, i)
}

/// A handle that points at a present slot of the plan arena.
pub open spec fn plan_node_ok(a: Seq<Option<ALogicalPlan>>, n: Node) -> bool {
    n.0 < a.len() && a[n.0 as int] is Some
}

/// All inputs of the plan value `p` point at present slots of `a`.
pub open spec fn plan_inputs_ok(a: Seq<Option<ALogicalPlan>>, p: ALogicalPlan) -> bool {
    forall|k: int| 0 <= k < inputs_of(p).len() ==> plan_node_ok(a, #[trigger] inputs_of(p)[k])
}

/// One more than the largest input handle of `p`; what the schema
/// recursion descends on.
pub open spec fn input_bound(p: ALogicalPlan) -> int {
    match p {
        ALogicalPlan::Join { input_left, input_right, .. } => if input_left.0 >= input_right.0 {
            input_left.0 + 1
        } else {
            input_right.0 + 1
        },
        _ => if inputs_of(p).len() == 1 {
            inputs_of(p)[0].0 + 1
        } else {
            0
        },
    }
}

/// The output schema of the operator value `p` against arena `a`, with all
/// of `p`'s inputs known to sit strictly below `bound`.  Operators holding
/// a schema report it; schema-preserving operators defer to their input; a
/// user-defined-function node without an explicit schema falls back to its
/// input's.
pub open spec fn spec_schema_of_plan(
    a: Seq<Option<ALogicalPlan>>,
    p: ALogicalPlan,
    bound: int,
) -> Option<Seq<Field>>
    decreases bound, 0int when 0 <= bound
{
    match p {
        ALogicalPlan::Melt { schema, .. } => Some(schema.spec_fields()),
        ALogicalPlan::CsvScan { schema, .. } => Some(schema.spec_fields()),
        ALogicalPlan::ParquetScan { schema, .. } => Some(schema.spec_fields()),
        ALogicalPlan::DataFrameScan { schema, .. } => Some(schema.spec_fields()),
        ALogicalPlan::Projection { schema, .. } => Some(schema.spec_fields()),
        ALogicalPlan::LocalProjection { schema, .. } => Some(schema.spec_fields()),
        ALogicalPlan::Aggregate { schema, .. } => Some(schema.spec_fields()),
        ALogicalPlan::Join { schema, .. } => Some(schema.spec_fields()),
        ALogicalPlan::HStack { schema, .. } => Some(schema.spec_fields()),
        ALogicalPlan::Slice { input, .. }
        | ALogicalPlan::Selection { input, .. }
        | ALogicalPlan::Sort { input, .. }
        | ALogicalPlan::Explode { input, .. }
        | ALogicalPlan::Cache { input }
        | ALogicalPlan::Distinct { input, .. } => if input.0 < bound {
            spec_schema_of(a, input.0 as int)
        } else {
            None
        },
        ALogicalPlan::Udf { input, schema, .. } => match schema {
            Some(s) => Some(s.spec_fields()),
            None => if input.0 < bound {
                spec_schema_of(a, input.0 as int)
            } else {
                None
            },
        },
    }
}

/// The output schema of the plan stored at slot `i`.
pub open spec fn spec_schema_of(a: Seq<Option<ALogicalPlan>>, i: int) -> Option<Seq<Field>>
    decreases i, 1int when 0 <= i
{
    if 0 <= i < a.len() {
        match a[i] {
            Some(p) => spec_schema_of_plan(a, p, i),
            None => None,
        }
    } else {
        None
    }
}

/// The bound handed to [`spec_schema_of_plan`] does not matter, as long as
/// the plan's inputs sit below it.
pub proof fn lemma_schema_of_plan_bound(
    a: Seq<Option<ALogicalPlan>>,
    p: ALogicalPlan,
    b1: int,
    b2: int,
)
    requires
        0 <= b1,
        0 <= b2,
        forall|k: int| 0 <= k < inputs_of(p).len() ==> (#[trigger] inputs_of(p)[k]).0 < b1,
        forall|k: int| 0 <= k < inputs_of(p).len() ==> (#[trigger] inputs_of(p)[k]).0 < b2,
    ensures
        spec_schema_of_plan(a, p, b1) == spec_schema_of_plan(a, p, b2),
{
    match p {
        ALogicalPlan::Slice { input, .. }
        | ALogicalPlan::Selection { input, .. }
        | ALogicalPlan::Sort { input, .. }
        | ALogicalPlan::Explode { input, .. }
        | ALogicalPlan::Cache { input }
        | ALogicalPlan::Distinct { input, .. }
        | ALogicalPlan::Udf { input, .. } => {
            assert(inputs_of(p)[0] == input);
        }
        _ => {}
    }
}

/// The slot indices reachable from slot `i`, itself included.
pub open spec fn subtree(a: Seq<Option<ALogicalPlan>>, i: int) -> Set<int>
    decreases i, 0int when 0 <= i
{
    let base = Set::empty().insert(i);
    if 0 <= i < a.len() && a[i] is Some {
        let ins = inputs_of(a[i]->Some_0);
        base.union(
            if ins.len() >= 1 && ins[0].0 < i {
                subtree(a, ins[0].0 as int)
            } else {
                Set::empty()
            },
        ).union(
            if ins.len() >= 2 && ins[1].0 < i {
                subtree(a, ins[1].0 as int)
            } else {
                Set::empty()
            },
        )
    } else {
        base
    }
}

/// A slot's subtree contains the slot itself and every input's subtree,
/// and never reaches above the slot.
pub proof fn lemma_subtree(a: Seq<Option<ALogicalPlan>>, i: int)
    requires
        plan_wf(a),
        0 <= i < a.len(),
    ensures
        subtree(a, i).contains(i),
        forall|j: int| subtree(a, i).contains(j) ==> 0 <= j <= i,
        a[i] is Some ==> forall|k: int|
            0 <= k < inputs_of(a[i]->Some_0).len() ==> subtree(
                a,
                (#[trigger] inputs_of(a[i]->Some_0)[k]).0 as int,
            ).subset_of(subtree(a, i)),
    decreases i,
{
    assert(plan_slot_ok(a, i));
    if a[i] is Some {
        let ins = inputs_of(a[i]->Some_0);
        if ins.len() >= 1 {
            assert(ins[0].0 < i);
            lemma_subtree(a, ins[0].0 as int);
        }
        if ins.len() >= 2 {
            assert(ins[1].0 < i);
            lemma_subtree(a, ins[1].0 as int);
        }
        assert forall|k: int| 0 <= k < ins.len() implies subtree(
            a,
            (#[trigger] ins[k]).0 as int,
        ).subset_of(subtree(a, i)) by {
            assert(ins.len() <= 2);
            if k == 0 {
                assert(subtree(a, ins[0].0 as int).subset_of(subtree(a, i)));
            } else {
                assert(k == 1);
                assert(subtree(a, ins[1].0 as int).subset_of(subtree(a, i)));
            }
        }
    }
}

/// Sibling sub-plans never share a node: the two inputs of a join own
/// disjoint subtrees.  Plans lowered from an owned front-end tree have
/// this shape.
pub open spec fn tree_ok(a: Seq<Option<ALogicalPlan>>) -> bool {
    forall|i: int|
        0 <= i < a.len() && a[i] is Some && inputs_of(#[trigger] a[i]->Some_0).len() == 2 ==> {
            let ins = inputs_of(a[i]->Some_0);
            ins[0] != ins[1] && subtree(a, ins[0].0 as int).disjoint(subtree(a, ins[1].0 as int))
        }
}

/// Every expression handle of `p` points at a present slot of `e`.
pub open spec fn plan_exprs_ok(e: Seq<Option<crate::aexpr::AExpr>>, p: ALogicalPlan) -> bool {
    forall|k: int|
        0 <= k < exprs_of(p).len() ==> (#[trigger] exprs_of(p)[k]).0 < e.len() && e[exprs_of(
            p,
        )[k].0 as int] is Some
}

/// Under [`plan_wf`], schema resolution always reaches a stored schema.
pub proof fn lemma_plan_schema_some(a: Seq<Option<ALogicalPlan>>, i: int)
    requires
        plan_wf(a),
        0 <= i < a.len(),
        a[i] is Some,
    ensures
        spec_schema_of(a, i) is Some,
    decreases i,
{
    assert(plan_slot_ok(a, i));
    match a[i]->Some_0 {
        ALogicalPlan::Slice { input, .. }
        | ALogicalPlan::Selection { input, .. }
        | ALogicalPlan::Sort { input, .. }
        | ALogicalPlan::Explode { input, .. }
        | ALogicalPlan::Cache { input }
        | ALogicalPlan::Distinct { input, .. } => {
            assert(inputs_of(a[i]->Some_0)[0] == input);
            lemma_plan_schema_some(a, input.0 as int);
        }
        ALogicalPlan::Udf { input, schema, .. } => {
            if schema is None {
                assert(inputs_of(a[i]->Some_0)[0] == input);
                lemma_plan_schema_some(a, input.0 as int);
            }
        }
        _ => {}
    }
}

/// Appending a node whose inputs already sit in the arena keeps it
/// well-formed.
pub proof fn lemma_plan_wf_push(a: Seq<Option<ALogicalPlan>>, p: ALogicalPlan)
    requires
        plan_wf(a),
        forall|k: int|
            0 <= k < inputs_of(p).len() ==> (#[trigger] inputs_of(p)[k]).0 < a.len() && a[inputs_of(
                p,
            )[k].0 as int] is Some,
    ensures
        plan_wf(a.push(Some(p))),
{
    let a2 = a.push(Some(p));
    assert forall|i: int| 0 <= i < a2.len() implies plan_slot_ok(a2, i) by {
        if i < a.len() {
            assert(plan_slot_ok(a, i));
            assert(a2[i] == a[i]);
            if a2[i] is Some {
                assert forall|k: int|
                    0 <= k < inputs_of(a2[i]->Some_0).len() implies (#[trigger] inputs_of(
                    a2[i]->Some_0,
                )[k]).0 < i && a2[inputs_of(a2[i]->Some_0)[k].0 as int] is Some by {
                    assert(inputs_of(a[i]->Some_0)[k].0 < i);
                    assert(a[inputs_of(a[i]->Some_0)[k].0 as int] is Some);
                }
            }
        } else {
            assert(a2[i] == Some(p));
        }
    }
}

/// Appends every element of `src` to `dst`.
pub fn push_all(dst: &mut Vec<Node>, src: &Vec<Node>)
    ensures
        final (dst)@ == old(dst)@ + src@,
{
    let n = src.len();
    let mut i: usize = 0;
    while i < n
        invariant
            i <= n,
            n == src@.len(),
            dst@ == old(dst)@ + src@.subrange(0, i as int),
        decreases n - i,
    {
        dst.push(src[i]);
        proof {
            assert(dst@ =~= old(dst)@ + src@.subrange(0, i + 1 as int));
        }
        i += 1;
    }
    proof {
        assert(final (dst)@ =~= old(dst)@ + src@);
    }
}

/// Clones a vector of column names.
pub fn clone_names(src: &Vec<String>) -> (r: Vec<String>)
    ensures
        r@.len() == src@.len(),
        forall|i: int| 0 <= i < src@.len() ==> r@[i] == src@[i],
{
    let n = src.len();
    let mut out: Vec<String> = Vec::new();
    let mut i: usize = 0;
    while i < n
        invariant
            i <= n,
            n == src@.len(),
            out@.len() == i,
            forall|j: int| 0 <= j < i ==> out@[j] == src@[j],
        decreases n - i,
    {
        out.push(src[i].clone());
        i += 1;
    }
    out
}

/// Splits a handle list at `at`.
pub fn split_nodes_at(v: &Vec<Node>, at: usize) -> (r: (Vec<Node>, Vec<Node>))
    requires
        at <= v@.len(),
    ensures
        r.0@ == v@.subrange(0, at as int),
        r.1@ == v@.subrange(at as int, v@.len() as int),
{
    let mut first: Vec<Node> = Vec::new();
    let mut i: usize = 0;
    while i < at
        invariant
            i <= at,
            at <= v@.len(),
            first@ == v@.subrange(0, i as int),
        decreases at - i,
    {
        first.push(v[i]);
        proof {
            assert(first@ =~= v@.subrange(0, i + 1 as int));
        }
        i += 1;
    }
    let n = v.len();
    let mut second: Vec<Node> = Vec::new();
    let mut j: usize = at;
    while j < n
        invariant
            at <= j <= n,
            n == v@.len(),
            second@ == v@.subrange(at as int, j as int),
        decreases n - j,
    {
        second.push(v[j]);
        proof {
            assert(second@ =~= v@.subrange(at as int, j + 1 as int));
        }
        j += 1;
    }
    (first, second)
}

/// Clones an optional list of column names.
pub fn clone_opt_names(src: &Option<Vec<String>>) -> (r: Option<Vec<String>>)
    ensures
        match src {
            Some(v) => r matches Some(v2) && v2@.len() == v@.len() && forall|i: int|
                0 <= i < v@.len() ==> v2@[i] == v@[i],
            None => r is None,
        },
{
    match src {
        Some(v) => Some(clone_names(v)),
        None => None,
    }
}

impl ALogicalPlan {
    /// Pushes this operator's input handles onto `container`.  Most
    /// operators have one input; a join has two and a scan none.
    pub fn copy_inputs(&self, container: &mut Vec<Node>)
        ensures
            final (container)@ == old(container)@ + inputs_of(*self),
    {
        let input = match self {
            ALogicalPlan::Melt { input, .. } => *input,
            ALogicalPlan::Slice { input, .. } => *input,
            ALogicalPlan::Selection { input, .. } => *input,
            ALogicalPlan::Projection { input, .. } => *input,
            ALogicalPlan::LocalProjection { input, .. } => *input,
            ALogicalPlan::Sort { input, .. } => *input,
            ALogicalPlan::Explode { input, .. } => *input,
            ALogicalPlan::Cache { input } => *input,
            ALogicalPlan::Aggregate { input, .. } => *input,
            ALogicalPlan::Join { input_left, input_right, .. } => {
                container.push(*input_left);
                container.push(*input_right);
                proof {
                    assert(final (container)@ =~= old(container)@ + inputs_of(*self));
                }
                return ;
            }
            ALogicalPlan::HStack { input, .. } => *input,
            ALogicalPlan::Distinct { input, .. } => *input,
            ALogicalPlan::Udf { input, .. } => *input,
            ALogicalPlan::CsvScan { .. }
            | ALogicalPlan::ParquetScan { .. }
            | ALogicalPlan::DataFrameScan { .. } => {
                proof {
                    assert(final (container)@ =~= old(container)@ + inputs_of(*self));
                }
                return ;
            }
        };
        container.push(input);
        proof {
            assert(final (container)@ =~= old(container)@ + inputs_of(*self));
        }
    }

    /// This operator's input handles as a fresh vector.
    pub fn get_inputs(&self) -> (r: Vec<Node>)
        ensures
            r@ == inputs_of(*self),
    {
        let mut inputs = Vec::new();
        self.copy_inputs(&mut inputs);
        proof {
            assert(inputs@ =~= inputs_of(*self));
        }
        inputs
    }

    /// Pushes this operator's expression handles onto `container`.
    pub fn copy_exprs(&self, container: &mut Vec<Node>)
        ensures
            final (container)@ == old(container)@ + exprs_of(*self),
    {
        match self {
            ALogicalPlan::Melt { .. }
            | ALogicalPlan::Slice { .. }
            | ALogicalPlan::Sort { .. }
            | ALogicalPlan::Explode { .. }
            | ALogicalPlan::Cache { .. }
            | ALogicalPlan::Distinct { .. }
            | ALogicalPlan::Udf { .. } => {}
            ALogicalPlan::Selection { predicate, .. } => container.push(*predicate),
            ALogicalPlan::Projection { expr, .. } => push_all(container, expr),
            ALogicalPlan::LocalProjection { expr, .. } => push_all(container, expr),
            ALogicalPlan::Aggregate { keys, aggs, .. } => {
                push_all(container, keys);
                push_all(container, aggs);
            }
            ALogicalPlan::Join { left_on, right_on, .. } => {
                push_all(container, left_on);
                push_all(container, right_on);
            }
            ALogicalPlan::HStack { exprs, .. } => push_all(container, exprs),
            ALogicalPlan::CsvScan { predicate, aggregate, .. }
            | ALogicalPlan::ParquetScan { predicate, aggregate, .. } => {
                push_all(container, aggregate);
                if let Some(node) = predicate {
                    container.push(*node);
                }
            }
            ALogicalPlan::DataFrameScan { projection, selection, .. } => {
                if let Some(expr) = projection {
                    push_all(container, expr);
                }
                if let Some(expr) = selection {
                    container.push(*expr);
                }
            }
        }
        proof {
            assert(final (container)@ =~= old(container)@ + exprs_of(*self));
        }
    }

    /// This operator's expression handles as a fresh vector.
    pub fn get_exprs(&self) -> (r: Vec<Node>)
        ensures
            r@ == exprs_of(*self),
    {
        let mut exprs = Vec::new();
        self.copy_exprs(&mut exprs);
        proof {
            assert(exprs@ =~= exprs_of(*self));
        }
        exprs
    }

    /// Rebuilds this operator over fresh expression and input handles:
    /// the same variant with the same payload, its inputs taken from
    /// `inputs` and its expressions from `exprs`, in the order
    /// [`ALogicalPlan::get_exprs`] hands them out.
    pub fn from_exprs_and_input(&self, exprs: Vec<Node>, inputs: Vec<Node>) -> (r: ALogicalPlan)
        requires
            inputs@.len() >= inputs_of(*self).len(),
            exprs@.len() >= exprs_of(*self).len(),
            self matches ALogicalPlan::Aggregate { .. } ==> exprs@.len() >= (match self {
                ALogicalPlan::Aggregate { keys, .. } => keys@.len(),
                _ => 0,
            }),
        ensures
            match *self {
                ALogicalPlan::Melt { id_vars, value_vars, schema, .. } => r matches
                    ALogicalPlan::Melt { input: i2, id_vars: iv2, value_vars: vv2, schema: s2 }
                    && i2 == inputs@[0] && iv2@ == id_vars@ && vv2@ == value_vars@
                    && s2.spec_fields() == schema.spec_fields(),
                ALogicalPlan::Slice { offset, len, .. } => r == ALogicalPlan::Slice {
                    input: inputs@[0],
                    offset,
                    len,
                },
                ALogicalPlan::Selection { .. } => r == ALogicalPlan::Selection {
                    input: inputs@[0],
                    predicate: exprs@[0],
                },
                ALogicalPlan::LocalProjection { schema, .. } => r matches
                    ALogicalPlan::LocalProjection { expr: e2, input: i2, schema: s2 } && e2@
                    == exprs@ && i2 == inputs@[0] && s2.spec_fields() == schema.spec_fields(),
                ALogicalPlan::Projection { schema, .. } => r matches ALogicalPlan::Projection {
                    expr: e2,
                    input: i2,
                    schema: s2,
                } && e2@ == exprs@ && i2 == inputs@[0] && s2.spec_fields()
                    == schema.spec_fields(),
                ALogicalPlan::Aggregate { keys, schema, apply, .. } => r matches
                    ALogicalPlan::Aggregate {
                    input: i2,
                    keys: k2,
                    aggs: a2,
                    schema: s2,
                    apply: ap2,
                } && i2 == inputs@[0] && k2@ == exprs@.subrange(0, keys@.len() as int) && a2@
                    == exprs@.subrange(keys@.len() as int, exprs@.len() as int) && s2.spec_fields()
                    == schema.spec_fields() && ap2 == apply,
                ALogicalPlan::Join { schema, how, left_on, allow_par, force_par, .. } => r matches
                    ALogicalPlan::Join {
                    input_left: il2,
                    input_right: ir2,
                    schema: s2,
                    how: h2,
                    left_on: l2,
                    right_on: r2x,
                    allow_par: ap2,
                    force_par: fp2,
                } && il2 == inputs@[0] && ir2 == inputs@[1] && s2.spec_fields()
                    == schema.spec_fields() && h2 == how && l2@ == exprs@.subrange(
                    0,
                    left_on@.len() as int,
                ) && r2x@ == exprs@.subrange(left_on@.len() as int, exprs@.len() as int) && ap2
                    == allow_par && fp2 == force_par,
                ALogicalPlan::Sort { by_column, reverse, .. } => r matches ALogicalPlan::Sort {
                    input: i2,
                    by_column: b2,
                    reverse: rv2,
                } && i2 == inputs@[0] && b2 == by_column && rv2 == reverse,
                ALogicalPlan::Explode { columns, .. } => r matches ALogicalPlan::Explode {
                    input: i2,
                    columns: c2,
                } && i2 == inputs@[0] && c2@ == columns@,
                ALogicalPlan::Cache { .. } => r == ALogicalPlan::Cache { input: inputs@[0] },
                ALogicalPlan::Distinct { maintain_order, subset, .. } => r matches
                    ALogicalPlan::Distinct { input: i2, maintain_order: m2, subset: sub2 } && i2
                    == inputs@[0] && m2 == maintain_order && (match subset {
                    Some(v) => sub2 matches Some(v2) && v2@ == v@,
                    None => sub2 is None,
                }),
                ALogicalPlan::HStack { schema, .. } => r matches ALogicalPlan::HStack {
                    input: i2,
                    exprs: e2,
                    schema: s2,
                } && i2 == inputs@[0] && e2@ == exprs@ && s2.spec_fields()
                    == schema.spec_fields(),
                ALogicalPlan::ParquetScan { path, schema, with_columns, predicate, stop_after_n_rows, cache, .. } => r
                     matches ALogicalPlan::ParquetScan {
                    path: p2,
                    schema: s2,
                    with_columns: wc2,
                    predicate: pr2,
                    aggregate: ag2,
                    stop_after_n_rows: st2,
                    cache: c2,
                } && p2 == path && s2.spec_fields() == schema.spec_fields() && (match with_columns {
                    Some(v) => wc2 matches Some(v2) && v2@ == v@,
                    None => wc2 is None,
                }) && (if predicate is Some {
                    pr2 == Some(exprs@.last()) && ag2@ == exprs@.drop_last()
                } else {
                    pr2 is None && ag2@ == exprs@
                }) && st2 == stop_after_n_rows && c2 == cache,
                ALogicalPlan::CsvScan {
                    path,
                    schema,
                    has_header,
                    delimiter,
                    ignore_errors,
                    skip_rows,
                    stop_after_n_rows,
                    with_columns,
                    predicate,
                    cache,
                    ..
                } => r matches ALogicalPlan::CsvScan {
                    path: p2,
                    schema: s2,
                    has_header: hh2,
                    delimiter: d2,
                    ignore_errors: ie2,
                    skip_rows: sr2,
                    stop_after_n_rows: st2,
                    with_columns: wc2,
                    predicate: pr2,
                    aggregate: ag2,
                    cache: c2,
                } && p2 == path && s2.spec_fields() == schema.spec_fields() && hh2 == has_header
                    && d2 == delimiter && ie2 == ignore_errors && sr2 == skip_rows && st2
                    == stop_after_n_rows && (match with_columns {
                    Some(v) => wc2 matches Some(v2) && v2@ == v@,
                    None => wc2 is None,
                }) && (if predicate is Some {
                    pr2 == Some(exprs@.last()) && ag2@ == exprs@.drop_last()
                } else {
                    pr2 is None && ag2@ == exprs@
                }) && c2 == cache,
                ALogicalPlan::DataFrameScan { schema, projection, selection } => r matches
                    ALogicalPlan::DataFrameScan { schema: s2, projection: pr2, selection: sel2 }
                    && s2.spec_fields() == schema.spec_fields() && (if selection is Some {
                    sel2 == Some(exprs@.last()) && (if projection is Some {
                        pr2 matches Some(v2) && v2@ == exprs@.drop_last()
                    } else {
                        pr2 is None
                    })
                } else {
                    sel2 is None && (if projection is Some {
                        pr2 matches Some(v2) && v2@ == exprs@
                    } else {
                        pr2 is None
                    })
                }),
                ALogicalPlan::Udf { function, predicate_pd, projection_pd, schema, .. } => r
                     matches ALogicalPlan::Udf {
                    input: i2,
                    function: f2,
                    predicate_pd: ppd2,
                    projection_pd: pjd2,
                    schema: s2,
                } && i2 == inputs@[0] && f2 == function && ppd2 == predicate_pd && pjd2
                    == projection_pd && (match schema {
                    Some(sc) => s2 matches Some(sc2) && sc2.spec_fields() == sc.spec_fields(),
                    None => s2 is None,
                }),
            },
    {
        let mut exprs = exprs;
        match self {
            ALogicalPlan::Melt { id_vars, value_vars, schema, .. } => ALogicalPlan::Melt {
                input: inputs[0],
                id_vars: clone_names(id_vars),
                value_vars: clone_names(value_vars),
                schema: schema.clone(),
            },
            ALogicalPlan::Slice { offset, len, .. } => ALogicalPlan::Slice {
                input: inputs[0],
                offset: *offset,
                len: *len,
            },
            ALogicalPlan::Selection { .. } => ALogicalPlan::Selection {
                input: inputs[0],
                predicate: exprs[0],
            },
            ALogicalPlan::LocalProjection { schema, .. } => ALogicalPlan::LocalProjection {
                input: inputs[0],
                expr: exprs,
                schema: schema.clone(),
            },
            ALogicalPlan::Projection { schema, .. } => ALogicalPlan::Projection {
                input: inputs[0],
                expr: exprs,
                schema: schema.clone(),
            },
            ALogicalPlan::Aggregate { keys, schema, apply, .. } => {
                let (ks, ags) = split_nodes_at(&exprs, keys.len());
                ALogicalPlan::Aggregate {
                    input: inputs[0],
                    keys: ks,
                    aggs: ags,
                    schema: schema.clone(),
                    apply: *apply,
                }
            }
            ALogicalPlan::Join { schema, how, left_on, allow_par, force_par, .. } => {
                let (ls, rs) = split_nodes_at(&exprs, left_on.len());
                ALogicalPlan::Join {
                    input_left: inputs[0],
                    input_right: inputs[1],
                    schema: schema.clone(),
                    how: *how,
                    left_on: ls,
                    right_on: rs,
                    allow_par: *allow_par,
                    force_par: *force_par,
                }
            }
            ALogicalPlan::Sort { by_column, reverse, .. } => ALogicalPlan::Sort {
                input: inputs[0],
                by_column: by_column.clone(),
                reverse: *reverse,
            },
            ALogicalPlan::Explode { columns, .. } => ALogicalPlan::Explode {
                input: inputs[0],
                columns: clone_names(columns),
            },
            ALogicalPlan::Cache { .. } => ALogicalPlan::Cache { input: inputs[0] },
            ALogicalPlan::Distinct { maintain_order, subset, .. } => ALogicalPlan::Distinct {
                input: inputs[0],
                maintain_order: *maintain_order,
                subset: clone_opt_names(subset),
            },
            ALogicalPlan::HStack { schema, .. } => ALogicalPlan::HStack {
                input: inputs[0],
                exprs,
                schema: schema.clone(),
            },
            ALogicalPlan::ParquetScan {
                path,
                schema,
                with_columns,
                predicate,
                stop_after_n_rows,
                cache,
                ..
            } => {
                let mut new_predicate: Option<Node> = None;
                if predicate.is_some() {
                    new_predicate = exprs.pop();
                }
                ALogicalPlan::ParquetScan {
                    path: path.clone(),
                    schema: schema.clone(),
                    with_columns: clone_opt_names(with_columns),
                    predicate: new_predicate,
                    aggregate: exprs,
                    stop_after_n_rows: *stop_after_n_rows,
                    cache: *cache,
                }
            }
            ALogicalPlan::CsvScan {
                path,
                schema,
                has_header,
                delimiter,
                ignore_errors,
                skip_rows,
                stop_after_n_rows,
                with_columns,
                predicate,
                cache,
                ..
            } => {
                let mut new_predicate: Option<Node> = None;
                if predicate.is_some() {
                    new_predicate = exprs.pop();
                }
                ALogicalPlan::CsvScan {
                    path: path.clone(),
                    schema: schema.clone(),
                    has_header: *has_header,
                    delimiter: *delimiter,
                    ignore_errors: *ignore_errors,
                    skip_rows: *skip_rows,
                    stop_after_n_rows: *stop_after_n_rows,
                    with_columns: clone_opt_names(with_columns),
                    predicate: new_predicate,
                    aggregate: exprs,
                    cache: *cache,
                }
            }
            ALogicalPlan::DataFrameScan { schema, projection, selection } => {
                let mut new_selection: Option<Node> = None;
                if selection.is_some() {
                    new_selection = exprs.pop();
                }
                let mut new_projection: Option<Vec<Node>> = None;
                if projection.is_some() {
                    new_projection = Some(exprs);
                }
                ALogicalPlan::DataFrameScan {
                    schema: schema.clone(),
                    projection: new_projection,
                    selection: new_selection,
                }
            }
            ALogicalPlan::Udf { function, predicate_pd, projection_pd, schema, .. } => {
                let new_schema: Option<Schema> = match schema {
                    Some(sc) => Some(sc.clone()),
                    None => None,
                };
                ALogicalPlan::Udf {
                    input: inputs[0],
                    function: *function,
                    predicate_pd: *predicate_pd,
                    projection_pd: *projection_pd,
                    schema: new_schema,
                }
            }
        }
    }

    /// The output schema of this operator against `arena`.
    pub fn schema<'a>(&'a self, arena: &'a Arena<ALogicalPlan>) -> (r: &'a Schema)
        requires
            plan_wf(arena.view()),
            plan_inputs_ok(arena.view(), *self),
        ensures
            spec_schema_of_plan(arena.view(), *self, arena.view().len() as int) == Some(
                r.spec_fields(),
            ),
        decreases input_bound(*self),
    {
        match self {
            ALogicalPlan::Melt { schema, .. } => schema,
            ALogicalPlan::CsvScan { schema, .. } => schema,
            ALogicalPlan::ParquetScan { schema, .. } => schema,
            ALogicalPlan::DataFrameScan { schema, .. } => schema,
            ALogicalPlan::Projection { schema, .. } => schema,
            ALogicalPlan::LocalProjection { schema, .. } => schema,
            ALogicalPlan::Aggregate { schema, .. } => schema,
            ALogicalPlan::Join { schema, .. } => schema,
            ALogicalPlan::HStack { schema, .. } => schema,
            ALogicalPlan::Slice { input, .. }
            | ALogicalPlan::Selection { input, .. }
            | ALogicalPlan::Sort { input, .. }
            | ALogicalPlan::Explode { input, .. }
            | ALogicalPlan::Cache { input }
            | ALogicalPlan::Distinct { input, .. } => {
                proof {
                    assert(inputs_of(*self)[0] == *input);
                    assert(plan_slot_ok(arena.view(), input.0 as int));
                }
                let child = arena.get(*input);
                let r = child.schema(arena);
                proof {
                    lemma_schema_of_plan_bound(
                        arena.view(),
                        *child,
                        input.0 as int,
                        arena.view().len() as int,
                    );
                }
                r
            }
            ALogicalPlan::Udf { input, schema, .. } => match schema {
                Some(s) => s,
                None => {
                    proof {
                        assert(inputs_of(*self)[0] == *input);
                        assert(plan_slot_ok(arena.view(), input.0 as int));
                    }
                    let child = arena.get(*input);
                    let r = child.schema(arena);
                    proof {
                        lemma_schema_of_plan_bound(
                            arena.view(),
                            *child,
                            input.0 as int,
                            arena.view().len() as int,
                        );
                    }
                    r
                }
            },
        }
    }
}

} // verus!
