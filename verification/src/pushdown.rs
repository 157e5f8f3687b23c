//! Projection pushdown.
//!
//! The optimizer walks the plan top-down, carrying the list of projection
//! expressions demanded by everything already visited above
//! (`acc_projections`) together with the set of their root column names
//! (`projected_names`, kept to avoid accumulating one column twice).  Each
//! operator pushes the demand through according to its own rule and is
//! rebuilt over its rewritten inputs; at a file scan the accumulated
//! demand becomes the scan's column request, which is where unneeded
//! columns stop being read.
//!
//! The accumulation rules themselves are stated as contracts: per-name and
//! per-expression force-adds on [`add_str_to_accumulated`] and
//! [`add_expr_to_accumulated`] (the `accumulate` fold), alias shadowing on
//! `drop_projections_of_name` (`drop_rooted_at`), the pushable/local split
//! on [`split_acc_projections`] (`split_kept`/`split_local`), join routing
//! on `join_push_down` (`route_roots`), and the local rebuild on
//! [`ProjectionPushDown::finish_node`].  The rewrite itself pins every
//! scan's request exactly, carries the filter, sort, explode and distinct
//! demands down to a directly scanned input, preserves reported schemas
//! over scan and schema-preserving chains, and owes success on such
//! chains, bare or under one projection.

use vstd::prelude::*;

use crate::aexpr::check_down_node;
use crate::aexpr::collect_root_names;
use crate::aexpr::collect_roots;
use crate::aexpr::expr_node_ok;
use crate::aexpr::expr_slot_ok;
use crate::aexpr::expr_wf;
use crate::aexpr::lemma_root_nodes_shape;
use crate::aexpr::names_of;
use crate::aexpr::spec_root_names;
use crate::aexpr::spec_root_nodes;
use crate::aexpr::AExpr;
use crate::alp::inputs_of;
use crate::alp::lemma_subtree;
use crate::alp::plan_exprs_ok;
use crate::alp::plan_slot_ok;
use crate::alp::plan_wf;
use crate::alp::spec_schema_of;
use crate::alp::subtree;
use crate::alp::tree_ok;
use crate::alp::ALogicalPlan;
use crate::arena::Arena;
use crate::arena::Node;
use crate::error::PlanError;
use crate::infer::expr_nodes_ok;
use crate::infer::exprs_to_schema;
use crate::infer::join_keys_ok;
use crate::names::NameSet;
use crate::schema::Field;
use crate::schema::Schema;

verus! {

/// The concatenated root column names of the accumulated projections
/// `acc[k..]`.
pub open spec fn root_names_of_exprs(e: Seq<Option<AExpr>>, acc: Seq<Node>, k: int) -> Seq<
    Seq<char>,
>
    decreases e.len(), 2int, acc.len() - k,
{
    if k < 0 || k >= acc.len() {
        Seq::empty()
    } else if acc[k].0 < e.len() {
        spec_root_names(e, acc[k].0 as int) + root_names_of_exprs(e, acc, k + 1)
    } else {
        root_names_of_exprs(e, acc, k + 1)
    }
}

/// The column request a scan derives from the accumulated projections: no
/// request (read everything) when nothing was accumulated, the root names
/// of the accumulation otherwise.
pub open spec fn scan_columns(e: Seq<Option<AExpr>>, acc: Seq<Node>) -> Option<Seq<Seq<char>>> {
    if acc.len() == 0 {
        None
    } else {
        Some(root_names_of_exprs(e, acc, 0))
    }
}

/// The names of the columns needed in the projection at scan level.
pub fn get_scan_columns(acc_projections: &Vec<Node>, expr_arena: &Arena<AExpr>) -> (r: Option<
    Vec<String>,
>)
    requires
        expr_wf(expr_arena.view()),
        expr_nodes_ok(expr_arena.view(), acc_projections@),
    ensures
        match r {
            None => acc_projections@.len() == 0 && scan_columns(
                expr_arena.view(),
                acc_projections@,
            ) is None,
            Some(v) => acc_projections@.len() > 0 && scan_columns(
                expr_arena.view(),
                acc_projections@,
            ) == Some(names_of(v@)),
        },
{
    if acc_projections.len() == 0 {
        return None;
    }
    let mut out: Vec<String> = Vec::new();
    let n = acc_projections.len();
    let mut k: usize = 0;
    while k < n
        invariant
            k <= n,
            n == acc_projections@.len(),
            expr_wf(expr_arena.view()),
            expr_nodes_ok(expr_arena.view(), acc_projections@),
            names_of(out@) + root_names_of_exprs(expr_arena.view(), acc_projections@, k as int)
                == root_names_of_exprs(expr_arena.view(), acc_projections@, 0),
        decreases n - k,
    {
        proof {
            assert(expr_node_ok(expr_arena.view(), acc_projections@[k as int]));
        }
        let ghost before = names_of(out@);
        collect_root_names(expr_arena, acc_projections[k], &mut out);
        proof {
            assert(names_of(out@) + root_names_of_exprs(
                expr_arena.view(),
                acc_projections@,
                k as int + 1,
            ) =~= before + root_names_of_exprs(expr_arena.view(), acc_projections@, k as int));
        }
        k += 1;
    }
    proof {
        assert(names_of(out@) =~= root_names_of_exprs(expr_arena.view(), acc_projections@, 0));
    }
    Some(out)
}

/// One step of accumulation per root column reference: a column whose name
/// is new joins the accumulation, a repeated or nameless root does not.
pub open spec fn accumulate(
    e: Seq<Option<AExpr>>,
    roots: Seq<Node>,
    k: int,
    acc: Seq<Node>,
    names: Set<Seq<char>>,
) -> (Seq<Node>, Set<Seq<char>>)
    decreases roots.len() - k,
{
    if k < 0 || k >= roots.len() {
        (acc, names)
    } else {
        let r = roots[k];
        if 0 <= r.0 < e.len() && (e[r.0 as int] matches Some(AExpr::Column(nm))
            && !names.contains(nm@)) {
            accumulate(
                e,
                roots,
                k + 1,
                acc.push(r),
                names.insert(e[r.0 as int]->Some_0->Column_0@),
            )
        } else {
            accumulate(e, roots, k + 1, acc, names)
        }
    }
}

/// Adds the root column references of `expr` to the accumulated
/// projections, deduplicated by name.
pub fn add_expr_to_accumulated(
    expr: Node,
    acc_projections: &mut Vec<Node>,
    projected_names: &mut NameSet,
    expr_arena: &Arena<AExpr>,
)
    requires
        expr_wf(expr_arena.view()),
        expr_node_ok(expr_arena.view(), expr),
        expr_nodes_ok(expr_arena.view(), old(acc_projections)@),
        old(projected_names).distinct(),
    ensures
        final (projected_names).distinct(),
        expr_nodes_ok(expr_arena.view(), final (acc_projections)@),
        (final (acc_projections)@, final (projected_names).spec_names()) == accumulate(
            expr_arena.view(),
            spec_root_nodes(expr_arena.view(), expr.0 as int),
            0,
            old(acc_projections)@,
            old(projected_names).spec_names(),
        ),
{
    // the arena sits in memory, so its observable length bounds the view
    let _ = expr_arena.len();
    let mut roots: Vec<Node> = Vec::new();
    collect_roots(expr_arena, expr, &mut roots);
    proof {
        lemma_root_nodes_shape(expr_arena.view(), expr.0 as int);
        assert(roots@ =~= spec_root_nodes(expr_arena.view(), expr.0 as int));
    }
    let n = roots.len();
    let mut k: usize = 0;
    while k < n
        invariant
            k <= n,
            n == roots@.len(),
            expr_wf(expr_arena.view()),
            roots@ == spec_root_nodes(expr_arena.view(), expr.0 as int),
            forall|j: int| 0 <= j < roots@.len() ==> (#[trigger] roots@[j]).0
                < expr_arena.view().len() && expr_arena.view()[roots@[j].0 as int] is Some,
            projected_names.distinct(),
            expr_nodes_ok(expr_arena.view(), acc_projections@),
            accumulate(
                expr_arena.view(),
                roots@,
                k as int,
                acc_projections@,
                projected_names.spec_names(),
            ) == accumulate(
                expr_arena.view(),
                roots@,
                0,
                old(acc_projections)@,
                old(projected_names).spec_names(),
            ),
        decreases n - k,
    {
        let r = roots[k];
        let ghost acc0 = acc_projections@;
        match expr_arena.get(r) {
            AExpr::Column(nm) => {
                let inserted = projected_names.insert(nm.clone());
                if inserted {
                    acc_projections.push(r);
                    proof {
                        assert(expr_nodes_ok(expr_arena.view(), acc_projections@)) by {
                            assert(forall|j: int|
                                0 <= j < acc0.len() ==> acc_projections@[j] == acc0[j]);
                        }
                    }
                }
            }
            _ => {}
        }
        k += 1;
    }
}

/// Adds the column `name` to the accumulation, unless nothing is
/// accumulated: an empty accumulation means every column is already kept.
/// A fresh column-reference node is created for a name not yet projected.
pub fn add_str_to_accumulated(
    name: &String,
    acc_projections: &mut Vec<Node>,
    projected_names: &mut NameSet,
    expr_arena: &mut Arena<AExpr>,
)
    requires
        expr_wf(old(expr_arena).view()),
        expr_nodes_ok(old(expr_arena).view(), old(acc_projections)@),
        old(projected_names).distinct(),
    ensures
        final (projected_names).distinct(),
        expr_wf(final (expr_arena).view()),
        final (expr_arena).view().len() >= old(expr_arena).view().len(),
        forall|i: int|
            0 <= i < old(expr_arena).view().len() ==> final (expr_arena).view()[i] == old(
                expr_arena,
            ).view()[i],
        expr_nodes_ok(final (expr_arena).view(), final (acc_projections)@),
        if old(acc_projections)@.len() == 0 {
            final (acc_projections)@ == old(acc_projections)@ && final (
            projected_names).spec_names() == old(projected_names).spec_names() && final (
            expr_arena).view() == old(expr_arena).view()
        } else if old(projected_names).spec_names().contains(name@) {
            final (acc_projections)@ == old(acc_projections)@ && final (
            projected_names).spec_names() == old(projected_names).spec_names() && final (
            expr_arena).view() == old(expr_arena).view().push(Some(AExpr::Column(*name)))
        } else {
            final (acc_projections)@ == old(acc_projections)@.push(
                Node(old(expr_arena).view().len() as usize),
            ) && (final (expr_arena).view()[final (acc_projections)@.last().0 as int] matches Some(
                AExpr::Column(nm),
            ) && nm@ == name@) && final (expr_arena).view() == old(expr_arena).view().push(
                Some(AExpr::Column(*name)),
            ) && final (projected_names).spec_names() == old(
                projected_names,
            ).spec_names().insert(name@)
        },
{
    if acc_projections.len() == 0 {
        return ;
    }
    let ghost e0 = expr_arena.view();
    let node = expr_arena.add(AExpr::Column(name.clone()));
    proof {
        assert forall|i: int| 0 <= i < expr_arena.view().len() implies expr_slot_ok(
            expr_arena.view(),
            i,
        ) by {
            if i < e0.len() {
                assert(expr_slot_ok(e0, i));
            }
        }
        assert(expr_nodes_ok(expr_arena.view(), acc_projections@));
    }
    let inserted = projected_names.insert(name.clone());
    if inserted {
        acc_projections.push(node);
        proof {
            assert(expr_nodes_ok(expr_arena.view(), acc_projections@)) by {
                assert(forall|j: int|
                    0 <= j < old(acc_projections)@.len() ==> acc_projections@[j] == old(
                        acc_projections,
                    )@[j]);
            }
        }
    }
}


/// The fixed pre-pass snapshot of the plan arena is well-formed: ordered,
/// sibling-disjoint, with every stored operator's expressions present and
/// every join's keys resolvable.
pub open spec fn snapshot_ok(g: Seq<Option<ALogicalPlan>>, e: Seq<Option<AExpr>>) -> bool {
    &&& plan_wf(g)
    &&& tree_ok(g)
    &&& forall|i: int|
        0 <= i < g.len() && g[i] is Some ==> plan_exprs_ok(e, #[trigger] g[i]->Some_0)
    &&& forall|i: int|
        0 <= i < g.len() ==> ((#[trigger] g[i]) matches Some(
            ALogicalPlan::Join { right_on, .. },
        ) ==> join_keys_ok(e, right_on@))
}

/// Every slot of the snapshot subtree rooted at `i` still holds its
/// snapshot content in the live arena.
pub open spec fn subtree_intact(
    a: Seq<Option<ALogicalPlan>>,
    g: Seq<Option<ALogicalPlan>>,
    i: int,
) -> bool {
    forall|j: int| subtree(g, i).contains(j) ==> 0 <= j < a.len() && a[j] == g[j]
}

/// A plan made of file or frame scans and schema-preserving operators
/// alone: the shape on which pushdown provably does not change the
/// reported schema.
pub open spec fn plain_chain(g: Seq<Option<ALogicalPlan>>, p: ALogicalPlan, bound: int) -> bool
    decreases bound, 0int when 0 <= bound
{
    match p {
        ALogicalPlan::CsvScan { .. }
        | ALogicalPlan::ParquetScan { .. }
        | ALogicalPlan::DataFrameScan { .. } => true,
        ALogicalPlan::Selection { input, .. }
        | ALogicalPlan::Sort { input, .. }
        | ALogicalPlan::Explode { input, .. }
        | ALogicalPlan::Cache { input }
        | ALogicalPlan::Distinct { input, .. }
        | ALogicalPlan::Slice { input, .. } => input.0 < bound && plain_chain_at(
            g,
            input.0 as int,
        ),
        _ => false,
    }
}

/// The slot at `i` holds a plain chain.
pub open spec fn plain_chain_at(g: Seq<Option<ALogicalPlan>>, i: int) -> bool
    decreases i, 1int when 0 <= i
{
    0 <= i < g.len() && g[i] is Some && plain_chain(g, g[i]->Some_0, i)
}

/// The bound handed to `plain_chain` does not matter once the plan's
/// inputs sit below it.
pub proof fn lemma_plain_chain_bound(
    g: Seq<Option<ALogicalPlan>>,
    p: ALogicalPlan,
    b1: int,
    b2: int,
)
    requires
        0 <= b1,
        0 <= b2,
        forall|k: int| 0 <= k < inputs_of(p).len() ==> (#[trigger] inputs_of(p)[k]).0 < b1,
        forall|k: int| 0 <= k < inputs_of(p).len() ==> (#[trigger] inputs_of(p)[k]).0 < b2,
    ensures
        plain_chain(g, p, b1) == plain_chain(g, p, b2),
{
    match p {
        ALogicalPlan::Selection { input, .. }
        | ALogicalPlan::Sort { input, .. }
        | ALogicalPlan::Explode { input, .. }
        | ALogicalPlan::Cache { input }
        | ALogicalPlan::Distinct { input, .. }
        | ALogicalPlan::Slice { input, .. } => {
            assert(inputs_of(p)[0] == input);
        }
        _ => {}
    }
}

/// A grown expression arena keeps the snapshot well-formed.
pub proof fn lemma_snapshot_mono(
    g: Seq<Option<ALogicalPlan>>,
    e1: Seq<Option<AExpr>>,
    e2: Seq<Option<AExpr>>,
)
    requires
        snapshot_ok(g, e1),
        e1.len() <= e2.len(),
        forall|i: int| 0 <= i < e1.len() ==> e2[i] == e1[i],
    ensures
        snapshot_ok(g, e2),
{
    assert forall|i: int| 0 <= i < g.len() && g[i] is Some implies plan_exprs_ok(
        e2,
        #[trigger] g[i]->Some_0,
    ) by {
        assert(plan_exprs_ok(e1, g[i]->Some_0));
        assert forall|k: int|
            0 <= k < crate::alp::exprs_of(g[i]->Some_0).len() implies (#[trigger] crate::alp::exprs_of(
            g[i]->Some_0,
        )[k]).0 < e2.len() && e2[crate::alp::exprs_of(g[i]->Some_0)[k].0 as int] is Some by {
            assert(crate::alp::exprs_of(g[i]->Some_0)[k].0 < e1.len());
        }
    }
    assert forall|i: int| 0 <= i < g.len() implies ((#[trigger] g[i]) matches Some(
        ALogicalPlan::Join { right_on, .. },
    ) ==> join_keys_ok(e2, right_on@)) by {
        match g[i] {
            Some(ALogicalPlan::Join { right_on: ro, .. }) => {
                assert(join_keys_ok(e1, ro@));
                assert forall|k: int|
                    0 <= k < ro@.len() implies crate::infer::spec_key_name(
                    e2,
                    #[trigger] ro@[k],
                ) is Some by {
                    assert(crate::infer::spec_key_name(e1, ro@[k]) is Some);
                    assert(ro@[k].0 < e1.len());
                }
            }
            _ => {}
        }
    }
}

/// Resolves the schema of the snapshot plan at `node`, reading the live
/// arena only inside the still-intact snapshot subtree.
fn snapshot_schema(
    lp_arena: &Arena<ALogicalPlan>,
    node: Node,
    Ghost(g): Ghost<Seq<Option<ALogicalPlan>>>,
) -> (r: Schema)
    requires
        plan_wf(g),
        node.0 < g.len(),
        g[node.0 as int] is Some,
        subtree_intact(lp_arena.view(), g, node.0 as int),
    ensures
        Some(r.spec_fields()) == spec_schema_of(g, node.0 as int),
    decreases node.0,
{
    proof {
        lemma_subtree(g, node.0 as int);
        assert(subtree(g, node.0 as int).contains(node.0 as int));
        assert(plan_slot_ok(g, node.0 as int));
    }
    let p = lp_arena.get(node);
    match p {
        ALogicalPlan::Melt { schema, .. } => schema.clone(),
        ALogicalPlan::CsvScan { schema, .. } => schema.clone(),
        ALogicalPlan::ParquetScan { schema, .. } => schema.clone(),
        ALogicalPlan::DataFrameScan { schema, .. } => schema.clone(),
        ALogicalPlan::Projection { schema, .. } => schema.clone(),
        ALogicalPlan::LocalProjection { schema, .. } => schema.clone(),
        ALogicalPlan::Aggregate { schema, .. } => schema.clone(),
        ALogicalPlan::Join { schema, .. } => schema.clone(),
        ALogicalPlan::HStack { schema, .. } => schema.clone(),
        ALogicalPlan::Slice { input, .. }
        | ALogicalPlan::Selection { input, .. }
        | ALogicalPlan::Sort { input, .. }
        | ALogicalPlan::Explode { input, .. }
        | ALogicalPlan::Cache { input }
        | ALogicalPlan::Distinct { input, .. } => {
            proof {
                assert(inputs_of(g[node.0 as int]->Some_0)[0] == *input);
                assert forall|j: int| subtree(g, input.0 as int).contains(j) implies 0 <= j
                    < lp_arena.view().len() && lp_arena.view()[j] == g[j] by {
                    assert(subtree(g, node.0 as int).contains(j));
                }
            }
            snapshot_schema(lp_arena, *input, Ghost(g))
        }
        ALogicalPlan::Udf { input, schema, .. } => match schema {
            Some(s) => s.clone(),
            None => {
                proof {
                    assert(inputs_of(g[node.0 as int]->Some_0)[0] == *input);
                    assert forall|j: int| subtree(g, input.0 as int).contains(j) implies 0 <= j
                        < lp_arena.view().len() && lp_arena.view()[j] == g[j] by {
                        assert(subtree(g, node.0 as int).contains(j));
                    }
                }
                snapshot_schema(lp_arena, *input, Ghost(g))
            }
        },
    }
}

/// The accumulated projections whose root columns all resolve against the
/// fields `s`, from index `k` on, in order.
pub open spec fn split_kept(
    e: Seq<Option<AExpr>>,
    s: Seq<Field>,
    acc: Seq<Node>,
    k: int,
) -> Seq<Node>
    decreases acc.len() - k,
{
    if k < 0 || k >= acc.len() {
        Seq::empty()
    } else {
        (if crate::aexpr::spec_roots_resolve(e, s, acc[k].0 as int) {
            seq![acc[k]]
        } else {
            Seq::empty()
        }) + split_kept(e, s, acc, k + 1)
    }
}

/// The accumulated projections some root column of which does not resolve
/// against the fields `s`, from index `k` on, in order.
pub open spec fn split_local(
    e: Seq<Option<AExpr>>,
    s: Seq<Field>,
    acc: Seq<Node>,
    k: int,
) -> Seq<Node>
    decreases acc.len() - k,
{
    if k < 0 || k >= acc.len() {
        Seq::empty()
    } else {
        (if crate::aexpr::spec_roots_resolve(e, s, acc[k].0 as int) {
            Seq::empty()
        } else {
            seq![acc[k]]
        }) + split_local(e, s, acc, k + 1)
    }
}

/// Splits the accumulated projections into the part that can be pushed
/// below a node with output `down_schema` and the part that must stay
/// local, together with the root names of the pushed part.  When the node
/// below carries as many columns as the accumulation demands, nothing is
/// pushed.
pub fn split_acc_projections(
    acc_projections: Vec<Node>,
    down_schema: &Schema,
    expr_arena: &Arena<AExpr>,
) -> (r: (Vec<Node>, Vec<Node>, NameSet))
    requires
        expr_wf(expr_arena.view()),
        expr_nodes_ok(expr_arena.view(), acc_projections@),
    ensures
        expr_nodes_ok(expr_arena.view(), r.0@),
        expr_nodes_ok(expr_arena.view(), r.1@),
        r.2.distinct(),
        if down_schema.spec_len() == acc_projections@.len() {
            r.0@.len() == 0 && r.1@ == acc_projections@ && r.2.spec_names() == Set::<
                Seq<char>,
            >::empty()
        } else {
            r.0@ == split_kept(
                expr_arena.view(),
                down_schema.spec_fields(),
                acc_projections@,
                0,
            ) && r.1@ == split_local(
                expr_arena.view(),
                down_schema.spec_fields(),
                acc_projections@,
                0,
            ) && forall|nm: Seq<char>|
                r.2.spec_names().contains(nm) == exists|q: int|
                    0 <= q < r.0@.len() && spec_root_names(
                        expr_arena.view(),
                        (#[trigger] r.0@[q]).0 as int,
                    ).contains(nm)
        },
{
    if down_schema.len() == acc_projections.len() {
        return (Vec::new(), acc_projections, NameSet::new());
    }
    let mut kept: Vec<Node> = Vec::new();
    let mut local: Vec<Node> = Vec::new();
    let mut names = NameSet::new();
    let n = acc_projections.len();
    let mut k: usize = 0;
    while k < n
        invariant
            k <= n,
            n == acc_projections@.len(),
            expr_wf(expr_arena.view()),
            expr_nodes_ok(expr_arena.view(), acc_projections@),
            expr_nodes_ok(expr_arena.view(), kept@),
            expr_nodes_ok(expr_arena.view(), local@),
            names.distinct(),
            kept@ + split_kept(
                expr_arena.view(),
                down_schema.spec_fields(),
                acc_projections@,
                k as int,
            ) == split_kept(
                expr_arena.view(),
                down_schema.spec_fields(),
                acc_projections@,
                0,
            ),
            local@ + split_local(
                expr_arena.view(),
                down_schema.spec_fields(),
                acc_projections@,
                k as int,
            ) == split_local(
                expr_arena.view(),
                down_schema.spec_fields(),
                acc_projections@,
                0,
            ),
            forall|nm: Seq<char>|
                names.spec_names().contains(nm) == exists|q: int|
                    0 <= q < kept@.len() && spec_root_names(
                        expr_arena.view(),
                        (#[trigger] kept@[q]).0 as int,
                    ).contains(nm),
        decreases n - k,
    {
        let e = acc_projections[k];
        proof {
            assert(expr_node_ok(expr_arena.view(), acc_projections@[k as int]));
        }
        let ghost kept0 = kept@;
        let ghost local0 = local@;
        if check_down_node(expr_arena, e, down_schema) {
            kept.push(e);
            let mut tmp: Vec<String> = Vec::new();
            collect_root_names(expr_arena, e, &mut tmp);
            proof {
                assert(names_of(tmp@) == spec_root_names(expr_arena.view(), e.0 as int));
            }
            let m = tmp.len();
            let mut j: usize = 0;
            while j < m
                invariant
                    j <= m,
                    m == tmp@.len(),
                    names.distinct(),
                    kept@ == kept0.push(e),
                    names_of(tmp@) == spec_root_names(expr_arena.view(), e.0 as int),
                    forall|nm: Seq<char>|
                        names.spec_names().contains(nm) == ((exists|q: int|
                            0 <= q < kept0.len() && spec_root_names(
                                expr_arena.view(),
                                (#[trigger] kept0[q]).0 as int,
                            ).contains(nm)) || exists|q: int|
                            0 <= q < j && tmp@[q]@ == nm),
                decreases m - j,
            {
                let nm = tmp[j].clone();
                names.insert(nm);
                proof {
                    assert(tmp@[j as int]@ == tmp@[j as int]@);
                }
                j += 1;
            }
            proof {
                assert(expr_nodes_ok(expr_arena.view(), kept@)) by {
                    assert(forall|q: int| 0 <= q < kept0.len() ==> kept@[q] == kept0[q]);
                }
                assert forall|nm: Seq<char>|
                    names.spec_names().contains(nm) == exists|q: int|
                        0 <= q < kept@.len() && spec_root_names(
                            expr_arena.view(),
                            (#[trigger] kept@[q]).0 as int,
                        ).contains(nm) by {
                    if names.spec_names().contains(nm) {
                        if exists|q: int|
                            0 <= q < kept0.len() && spec_root_names(
                                expr_arena.view(),
                                (#[trigger] kept0[q]).0 as int,
                            ).contains(nm) {
                            let q = choose|q: int|
                                0 <= q < kept0.len() && spec_root_names(
                                    expr_arena.view(),
                                    (#[trigger] kept0[q]).0 as int,
                                ).contains(nm);
                            assert(kept@[q] == kept0[q]);
                            assert(spec_root_names(
                                expr_arena.view(),
                                kept@[q].0 as int,
                            ).contains(nm));
                        } else {
                            let q = choose|q: int| 0 <= q < tmp@.len() && tmp@[q]@ == nm;
                            assert(names_of(tmp@)[q] == nm);
                            assert(spec_root_names(expr_arena.view(), e.0 as int).contains(nm));
                            assert(kept@.last() == e);
                        }
                    }
                    if exists|q: int|
                        0 <= q < kept@.len() && spec_root_names(
                            expr_arena.view(),
                            (#[trigger] kept@[q]).0 as int,
                        ).contains(nm) {
                        let q = choose|q: int|
                            0 <= q < kept@.len() && spec_root_names(
                                expr_arena.view(),
                                (#[trigger] kept@[q]).0 as int,
                            ).contains(nm);
                        if q < kept0.len() {
                            assert(kept0[q] == kept@[q]);
                        } else {
                            assert(kept@[q] == e);
                            let w = choose|w: int|
                                0 <= w < spec_root_names(expr_arena.view(), e.0 as int).len()
                                    && spec_root_names(expr_arena.view(), e.0 as int)[w] == nm;
                            assert(names_of(tmp@)[w] == nm);
                            assert(tmp@[w]@ == nm);
                        }
                    }
                }
            }
        } else {
            local.push(e);
            proof {
                assert(expr_nodes_ok(expr_arena.view(), local@)) by {
                    assert(forall|q: int| 0 <= q < local0.len() ==> local@[q] == local0[q]);
                }
            }
        }
        proof {
            assert(kept@ + split_kept(
                expr_arena.view(),
                down_schema.spec_fields(),
                acc_projections@,
                k + 1,
            ) =~= split_kept(
                expr_arena.view(),
                down_schema.spec_fields(),
                acc_projections@,
                0,
            ));
            assert(local@ + split_local(
                expr_arena.view(),
                down_schema.spec_fields(),
                acc_projections@,
                k + 1,
            ) =~= split_local(
                expr_arena.view(),
                down_schema.spec_fields(),
                acc_projections@,
                0,
            ));
        }
        k += 1;
    }
    proof {
        assert(kept@ =~= split_kept(
            expr_arena.view(),
            down_schema.spec_fields(),
            acc_projections@,
            0,
        ));
        assert(local@ =~= split_local(
            expr_arena.view(),
            down_schema.spec_fields(),
            acc_projections@,
            0,
        ));
    }
    (kept, local, names)
}


/// The demand a filter pushes into its input: with an empty accumulation
/// every column flows anyway; otherwise the predicate's root columns join
/// the accumulation, deduplicated by name.
pub open spec fn selection_demand(
    e: Seq<Option<AExpr>>,
    predicate: Node,
    acc: Seq<Node>,
    names: Set<Seq<char>>,
) -> Seq<Node> {
    if acc.len() == 0 {
        acc
    } else {
        accumulate(e, spec_root_nodes(e, predicate.0 as int), 0, acc, names).0
    }
}

/// The expression arena as a sort leaves it for its input: unchanged when
/// nothing is accumulated, extended by a reference to the sort key
/// otherwise.
pub open spec fn sort_key_arena(
    e: Seq<Option<AExpr>>,
    acc: Seq<Node>,
    by: String,
) -> Seq<Option<AExpr>> {
    if acc.len() == 0 {
        e
    } else {
        e.push(Some(AExpr::Column(by)))
    }
}

/// The demand a sort pushes into its input: the sort key is force-added
/// to a non-empty accumulation unless its name is already projected, so
/// the key survives pruning even when not otherwise selected.
pub open spec fn sort_demand(
    e: Seq<Option<AExpr>>,
    acc: Seq<Node>,
    names: Set<Seq<char>>,
    by: String,
) -> Seq<Node> {
    if acc.len() == 0 {
        acc
    } else if names.contains(by@) {
        acc
    } else {
        acc.push(Node(e.len() as usize))
    }
}

/// One [`add_str_to_accumulated`] step per listed column name, from index
/// `j` on: what an explode or distinct operator leaves of the expression
/// arena, the accumulation, and the projected-name set after force-adding
/// its column list.
pub open spec fn names_demand(
    e: Seq<Option<AExpr>>,
    cols: Seq<String>,
    j: int,
    acc: Seq<Node>,
    names: Set<Seq<char>>,
) -> (Seq<Option<AExpr>>, Seq<Node>, Set<Seq<char>>)
    decreases cols.len() - j,
{
    if j < 0 || j >= cols.len() {
        (e, acc, names)
    } else if acc.len() == 0 {
        names_demand(e, cols, j + 1, acc, names)
    } else if names.contains(cols[j]@) {
        names_demand(e.push(Some(AExpr::Column(cols[j]))), cols, j + 1, acc, names)
    } else {
        names_demand(
            e.push(Some(AExpr::Column(cols[j]))),
            cols,
            j + 1,
            acc.push(Node(e.len() as usize)),
            names.insert(cols[j]@),
        )
    }
}

/// Whether slot `i` lies in the snapshot subtree of one of `lp`'s inputs:
/// the region a pushdown step is allowed to rewrite.
pub open spec fn touched(g: Seq<Option<ALogicalPlan>>, lp: ALogicalPlan, i: int) -> bool {
    exists|k: int|
        0 <= k < inputs_of(lp).len() && subtree(
            g,
            (#[trigger] inputs_of(lp)[k]).0 as int,
        ).contains(i)
}

/// The accumulated projections left once every projection rooted at
/// `name` is dropped, from index `k` on, in order.
pub open spec fn drop_rooted_at(
    e: Seq<Option<AExpr>>,
    acc: Seq<Node>,
    k: int,
    name: Seq<char>,
) -> Seq<Node>
    decreases acc.len() - k,
{
    if k < 0 || k >= acc.len() {
        Seq::empty()
    } else {
        (if spec_root_names(e, acc[k].0 as int).contains(name) {
            Seq::empty()
        } else {
            seq![acc[k]]
        }) + drop_rooted_at(e, acc, k + 1, name)
    }
}

/// Removes from the accumulation every projection one of whose root
/// columns is called `name`: a re-selected alias shadows the column it was
/// derived from.
fn drop_projections_of_name(
    acc_projections: &mut Vec<Node>,
    name: &String,
    expr_arena: &Arena<AExpr>,
)
    requires
        expr_wf(expr_arena.view()),
        expr_nodes_ok(expr_arena.view(), old(acc_projections)@),
    ensures
        expr_nodes_ok(expr_arena.view(), final (acc_projections)@),
        final (acc_projections)@ == drop_rooted_at(
            expr_arena.view(),
            old(acc_projections)@,
            0,
            name@,
        ),
{
    let n = acc_projections.len();
    let mut out: Vec<Node> = Vec::new();
    let mut k: usize = 0;
    while k < n
        invariant
            k <= n,
            n == acc_projections@.len(),
            acc_projections@ == old(acc_projections)@,
            expr_wf(expr_arena.view()),
            expr_nodes_ok(expr_arena.view(), acc_projections@),
            expr_nodes_ok(expr_arena.view(), out@),
            out@ + drop_rooted_at(expr_arena.view(), acc_projections@, k as int, name@)
                == drop_rooted_at(expr_arena.view(), acc_projections@, 0, name@),
        decreases n - k,
    {
        let e = acc_projections[k];
        proof {
            assert(expr_node_ok(expr_arena.view(), acc_projections@[k as int]));
        }
        let mut tmp: Vec<String> = Vec::new();
        collect_root_names(expr_arena, e, &mut tmp);
        let mut found = false;
        let m = tmp.len();
        let mut j: usize = 0;
        while j < m
            invariant
                j <= m,
                m == tmp@.len(),
                found == exists|q: int| 0 <= q < j && tmp@[q]@ == name@,
            decreases m - j,
        {
            if tmp[j].eq(name) {
                found = true;
                proof {
                    assert(tmp@[j as int]@ == name@);
                }
            }
            j += 1;
        }
        proof {
            assert(names_of(tmp@) == spec_root_names(expr_arena.view(), e.0 as int));
            if found {
                let q = choose|q: int| 0 <= q < tmp@.len() && tmp@[q]@ == name@;
                assert(names_of(tmp@)[q] == name@);
                assert(spec_root_names(expr_arena.view(), e.0 as int).contains(name@));
            } else {
                if spec_root_names(expr_arena.view(), e.0 as int).contains(name@) {
                    let q = choose|q: int|
                        0 <= q < names_of(tmp@).len() && names_of(tmp@)[q] == name@;
                    assert(tmp@[q]@ == name@);
                    assert(false);
                }
            }
        }
        let ghost before = out@;
        if !found {
            out.push(e);
            proof {
                assert(expr_nodes_ok(expr_arena.view(), out@)) by {
                    assert(forall|q: int| 0 <= q < before.len() ==> out@[q] == before[q]);
                }
            }
        }
        proof {
            assert(drop_rooted_at(expr_arena.view(), acc_projections@, k as int, name@)
                == (if spec_root_names(expr_arena.view(), acc_projections@[k as int].0 as int).contains(
                name@,
            ) {
                Seq::<Node>::empty()
            } else {
                seq![acc_projections@[k as int]]
            }) + drop_rooted_at(expr_arena.view(), acc_projections@, k + 1, name@));
            assert(out@ + drop_rooted_at(expr_arena.view(), acc_projections@, k + 1, name@)
                =~= drop_rooted_at(expr_arena.view(), acc_projections@, 0, name@));
        }
        k += 1;
    }
    proof {
        assert(out@ =~= drop_rooted_at(expr_arena.view(), acc_projections@, 0, name@));
    }
    *acc_projections = out;
}

/// Whether the character sequence ends in the join collision marker.
pub open spec fn has_right_suffix(s: Seq<char>) -> bool {
    s.len() >= 6 && s.subrange(s.len() - 6, s.len() as int) == "_right"@
}

/// Tests for the `_right` suffix that a join appends to colliding names.
fn ends_with_right(s: &String) -> (r: bool)
    ensures
        r == has_right_suffix(s@),
{
    proof {
        reveal_strlit("_right");
    }
    let l = s.as_str().unicode_len();
    if l < 6 {
        return false;
    }
    let tail = s.as_str().substring_char(l - 6, l);
    let t = tail.to_owned();
    let marker = String::from_str("_right");
    t.eq(&marker)
}

/// How a join routes one accumulated projection: each of its root column
/// references is tested against the left and the right input schema, and
/// the projection joins a side's pushdown list when the name resolves
/// there and was not already pushed to that side.  The result carries the
/// two pushdown lists, the two per-side name sets, and whether the
/// projection was pushed anywhere.
pub open spec fn route_roots(
    e: Seq<Option<AExpr>>,
    sl: Seq<Field>,
    sr: Seq<Field>,
    proj: Node,
    roots: Seq<Node>,
    k: int,
    pl: Seq<Node>,
    pr: Seq<Node>,
    nl: Set<Seq<char>>,
    nr: Set<Seq<char>>,
    pushed: bool,
) -> (Seq<Node>, Seq<Node>, Set<Seq<char>>, Set<Seq<char>>, bool)
    decreases roots.len() - k,
{
    if k < 0 || k >= roots.len() {
        (pl, pr, nl, nr, pushed)
    } else {
        let i = roots[k].0 as int;
        if 0 <= i < e.len() && e[i] matches Some(AExpr::Column(_)) {
            let nm = e[i]->Some_0->Column_0@;
            let hit_l = crate::schema::fields_have_name(sl, nm) && !nl.contains(nm);
            let hit_r = crate::schema::fields_have_name(sr, nm) && !nr.contains(nm);
            route_roots(
                e,
                sl,
                sr,
                proj,
                roots,
                k + 1,
                if hit_l {
                    pl.push(proj)
                } else {
                    pl
                },
                if hit_r {
                    pr.push(proj)
                } else {
                    pr
                },
                if hit_l {
                    nl.insert(nm)
                } else {
                    nl
                },
                if hit_r {
                    nr.insert(nm)
                } else {
                    nr
                },
                pushed || hit_l || hit_r,
            )
        } else {
            route_roots(e, sl, sr, proj, roots, k + 1, pl, pr, nl, nr, pushed)
        }
    }
}

/// The pushdown optimizer: one full top-down rewrite of a plan.
pub struct ProjectionPushDown {}

impl ProjectionPushDown {
    /// Re-establishes column order and aliases above `input`: an empty
    /// local selection takes the input's operator as it stands, a
    /// non-empty one wraps it in a projection of exactly those
    /// expressions.
    pub fn finish_node(
        &self,
        local_projections: Vec<Node>,
        input: Node,
        input_schema: &Schema,
        lp_arena: &mut Arena<ALogicalPlan>,
        expr_arena: &Arena<AExpr>,
    ) -> (r: Result<(ALogicalPlan, Schema), PlanError>)
        requires
            expr_wf(expr_arena.view()),
            expr_nodes_ok(expr_arena.view(), local_projections@),
            crate::alp::plan_node_ok(old(lp_arena).view(), input),
        ensures
            r is Err <==> !crate::infer::all_exprs_typed(
                expr_arena.view(),
                input_schema.spec_fields(),
                local_projections@,
            ),
            match r {
                Ok(p2) => if local_projections@.len() == 0 {
                    final (lp_arena).view() == old(lp_arena).view().update(input.0 as int, None)
                        && p2.0 == old(lp_arena).view()[input.0 as int]->Some_0 && p2.1.spec_fields()
                        == input_schema.spec_fields()
                } else {
                    final (lp_arena).view() == old(lp_arena).view() && (p2.0 matches
                        ALogicalPlan::Projection { expr, input: i2, schema } && expr@
                        == local_projections@ && i2 == input && crate::infer::abs_fields(
                        schema.spec_fields(),
                    ) == crate::infer::projected_fields(
                        expr_arena.view(),
                        input_schema.spec_fields(),
                        local_projections@,
                    ) && p2.1.spec_fields() == schema.spec_fields())
                },
                Err(e) => final (lp_arena).view() == old(lp_arena).view() && (e is FieldNotFound
                    || e is InvalidOperation),
            },
    {
        if local_projections.len() == 0 {
            let lp = lp_arena.take(input);
            let sch = input_schema.clone();
            return Ok((lp, sch));
        }
        let schema = match exprs_to_schema(&local_projections, input_schema, expr_arena) {
            Ok(s) => s,
            Err(e) => {
                return Err(e);
            }
        };
        let sch = schema.clone();
        Ok((ALogicalPlan::Projection { expr: local_projections, input, schema }, sch))
    }

    /// Wraps `inner` (not yet stored) in a projection of the local
    /// expressions, or hands it back untouched when there are none.
    fn wrap_local(
        &self,
        local_projections: Vec<Node>,
        inner: ALogicalPlan,
        inner_schema: Schema,
        lp_arena: &mut Arena<ALogicalPlan>,
        expr_arena: &Arena<AExpr>,
    ) -> (r: Result<(ALogicalPlan, Schema), PlanError>)
        requires
            expr_wf(expr_arena.view()),
            expr_nodes_ok(expr_arena.view(), local_projections@),
        ensures
            r is Err <==> !crate::infer::all_exprs_typed(
                expr_arena.view(),
                inner_schema.spec_fields(),
                local_projections@,
            ),
            match r {
                Ok(p2) => if local_projections@.len() == 0 {
                    final (lp_arena).view() == old(lp_arena).view() && p2.0 == inner
                        && p2.1.spec_fields() == inner_schema.spec_fields()
                } else {
                    final (lp_arena).view() == old(lp_arena).view().push(Some(inner)) && (p2.0
                         matches ALogicalPlan::Projection { expr, input: i2, schema } && expr@
                        == local_projections@ && i2.0 == old(lp_arena).view().len()
                        && crate::infer::abs_fields(schema.spec_fields())
                        == crate::infer::projected_fields(
                        expr_arena.view(),
                        inner_schema.spec_fields(),
                        local_projections@,
                    ) && p2.1.spec_fields() == schema.spec_fields())
                },
                Err(e) => final (lp_arena).view() == old(lp_arena).view() && (e is FieldNotFound
                    || e is InvalidOperation),
            },
    {
        if local_projections.len() == 0 {
            return Ok((inner, inner_schema));
        }
        let schema = match exprs_to_schema(&local_projections, &inner_schema, expr_arena) {
            Ok(s) => s,
            Err(e) => {
                return Err(e);
            }
        };
        let node = lp_arena.add(inner);
        let sch = schema.clone();
        Ok((ALogicalPlan::Projection { expr: local_projections, input: node, schema }, sch))
    }

    /// Routes one accumulated projection to the join sides its root
    /// columns resolve against, deduplicated per side by name.  Returns
    /// whether it was pushed to at least one side.
    fn join_push_down(
        &self,
        schema_left: &Schema,
        schema_right: &Schema,
        proj: Node,
        pushdown_left: &mut Vec<Node>,
        pushdown_right: &mut Vec<Node>,
        names_left: &mut NameSet,
        names_right: &mut NameSet,
        expr_arena: &Arena<AExpr>,
    ) -> (r: bool)
        requires
            expr_wf(expr_arena.view()),
            expr_node_ok(expr_arena.view(), proj),
            expr_nodes_ok(expr_arena.view(), old(pushdown_left)@),
            expr_nodes_ok(expr_arena.view(), old(pushdown_right)@),
            old(names_left).distinct(),
            old(names_right).distinct(),
        ensures
            final (names_left).distinct(),
            final (names_right).distinct(),
            expr_nodes_ok(expr_arena.view(), final (pushdown_left)@),
            expr_nodes_ok(expr_arena.view(), final (pushdown_right)@),
            (
                final (pushdown_left)@,
                final (pushdown_right)@,
                final (names_left).spec_names(),
                final (names_right).spec_names(),
                r,
            ) == route_roots(
                expr_arena.view(),
                schema_left.spec_fields(),
                schema_right.spec_fields(),
                proj,
                spec_root_nodes(expr_arena.view(), proj.0 as int),
                0,
                old(pushdown_left)@,
                old(pushdown_right)@,
                old(names_left).spec_names(),
                old(names_right).spec_names(),
                false,
            ),
    {
        let mut pushed = false;
        // the arena sits in memory, so its observable length bounds the view
        let _ = expr_arena.len();
        let mut roots: Vec<Node> = Vec::new();
        collect_roots(expr_arena, proj, &mut roots);
        proof {
            lemma_root_nodes_shape(expr_arena.view(), proj.0 as int);
            assert(roots@ =~= spec_root_nodes(expr_arena.view(), proj.0 as int));
        }
        let n = roots.len();
        let mut k: usize = 0;
        while k < n
            invariant
                k <= n,
                n == roots@.len(),
                expr_wf(expr_arena.view()),
                forall|j: int| 0 <= j < roots@.len() ==> (#[trigger] roots@[j]).0
                    < expr_arena.view().len() && expr_arena.view()[roots@[j].0 as int] is Some,
                names_left.distinct(),
                names_right.distinct(),
                expr_node_ok(expr_arena.view(), proj),
                expr_nodes_ok(expr_arena.view(), pushdown_left@),
                expr_nodes_ok(expr_arena.view(), pushdown_right@),
                roots@ == spec_root_nodes(expr_arena.view(), proj.0 as int),
                route_roots(
                    expr_arena.view(),
                    schema_left.spec_fields(),
                    schema_right.spec_fields(),
                    proj,
                    roots@,
                    k as int,
                    pushdown_left@,
                    pushdown_right@,
                    names_left.spec_names(),
                    names_right.spec_names(),
                    pushed,
                ) == route_roots(
                    expr_arena.view(),
                    schema_left.spec_fields(),
                    schema_right.spec_fields(),
                    proj,
                    roots@,
                    0,
                    old(pushdown_left)@,
                    old(pushdown_right)@,
                    old(names_left).spec_names(),
                    old(names_right).spec_names(),
                    false,
                ),
            decreases n - k,
        {
            let root = roots[k];
            match expr_arena.get(root) {
                AExpr::Column(nm) => {
                    if schema_left.index_of(nm).is_some() {
                        let was_new = names_left.insert(nm.clone());
                        if was_new {
                            let ghost pl0 = pushdown_left@;
                            pushdown_left.push(proj);
                            pushed = true;
                            proof {
                                assert(expr_nodes_ok(expr_arena.view(), pushdown_left@)) by {
                                    assert(forall|q: int|
                                        0 <= q < pl0.len() ==> pushdown_left@[q] == pl0[q]);
                                }
                            }
                        }
                    }
                    if schema_right.index_of(nm).is_some() {
                        let was_new = names_right.insert(nm.clone());
                        if was_new {
                            let ghost pr0 = pushdown_right@;
                            pushdown_right.push(proj);
                            pushed = true;
                            proof {
                                assert(expr_nodes_ok(expr_arena.view(), pushdown_right@)) by {
                                    assert(forall|q: int|
                                        0 <= q < pr0.len() ==> pushdown_right@[q] == pr0[q]);
                                }
                            }
                        }
                    }
                }
                _ => {}
            }
            k += 1;
        }
        pushed
    }

    /// The per-operator pushdown rewrite.  Carries the accumulated demand
    /// down, rewrites every reachable scan to request exactly what is
    /// demanded of it, and rebuilds each operator over its rewritten
    /// inputs.  Returns the rewritten operator for the caller's position
    /// together with its output schema.
    #[verifier::rlimit(100)]
    fn push_down(
        &self,
        logical_plan: ALogicalPlan,
        acc_projections: Vec<Node>,
        projected_names: NameSet,
        projections_seen: usize,
        lp_arena: &mut Arena<ALogicalPlan>,
        expr_arena: &mut Arena<AExpr>,
        Ghost(g): Ghost<Seq<Option<ALogicalPlan>>>,
    ) -> (r: Result<(ALogicalPlan, Schema), PlanError>)
        requires
            snapshot_ok(g, old(expr_arena).view()),
            expr_wf(old(expr_arena).view()),
            expr_nodes_ok(old(expr_arena).view(), acc_projections@),
            projected_names.distinct(),
            plan_exprs_ok(old(expr_arena).view(), logical_plan),
            logical_plan matches ALogicalPlan::Join { right_on, .. } ==> join_keys_ok(
                old(expr_arena).view(),
                right_on@,
            ),
            forall|k: int|
                0 <= k < inputs_of(logical_plan).len() ==> (#[trigger] inputs_of(
                    logical_plan,
                )[k]).0 < g.len() && g[inputs_of(logical_plan)[k].0 as int] is Some
                    && subtree_intact(
                    old(lp_arena).view(),
                    g,
                    inputs_of(logical_plan)[k].0 as int,
                ),
            inputs_of(logical_plan).len() == 2 ==> inputs_of(logical_plan)[0] != inputs_of(
                logical_plan,
            )[1] && subtree(g, inputs_of(logical_plan)[0].0 as int).disjoint(
                subtree(g, inputs_of(logical_plan)[1].0 as int),
            ),
        ensures
            expr_wf(final (expr_arena).view()),
            final (expr_arena).view().len() >= old(expr_arena).view().len(),
            forall|i: int|
                0 <= i < old(expr_arena).view().len() ==> final (expr_arena).view()[i] == old(
                    expr_arena,
                ).view()[i],
            final (lp_arena).view().len() >= old(lp_arena).view().len(),
            match r {
                Ok(p2) => {
                    &&& forall|i: int|
                        0 <= i < old(lp_arena).view().len() && !touched(g, logical_plan, i)
                            ==> final (lp_arena).view()[i] == old(lp_arena).view()[i]
                    &&& crate::alp::plan_inputs_ok(final (lp_arena).view(), p2.0)
                    &&& plan_exprs_ok(final (expr_arena).view(), p2.0)
                    &&& forall|k: int|
                        0 <= k < inputs_of(p2.0).len() ==> (#[trigger] inputs_of(p2.0)[k]).0
                            >= old(lp_arena).view().len() || touched(
                            g,
                            logical_plan,
                            inputs_of(p2.0)[k].0 as int,
                        )
                    &&& (plain_chain(g, logical_plan, g.len() as int) ==> Some(
                        p2.1.spec_fields(),
                    ) == crate::alp::spec_schema_of_plan(g, logical_plan, g.len() as int))
                    &&& match logical_plan {
                        ALogicalPlan::Selection { predicate, input } => p2.0 == logical_plan && (
                        crate::agg_scan::is_file_scan(g[input.0 as int]->Some_0)
                            ==> crate::agg_scan::scan_rebuilt(
                            final (lp_arena).view()[input.0 as int]->Some_0,
                            g[input.0 as int]->Some_0,
                            scan_columns(
                                old(expr_arena).view(),
                                selection_demand(
                                    old(expr_arena).view(),
                                    predicate,
                                    acc_projections@,
                                    projected_names.spec_names(),
                                ),
                            ),
                        )),
                        ALogicalPlan::Sort { input, by_column, .. } => p2.0 == logical_plan && (
                        crate::agg_scan::is_file_scan(g[input.0 as int]->Some_0)
                            ==> crate::agg_scan::scan_rebuilt(
                            final (lp_arena).view()[input.0 as int]->Some_0,
                            g[input.0 as int]->Some_0,
                            scan_columns(
                                sort_key_arena(
                                    old(expr_arena).view(),
                                    acc_projections@,
                                    by_column,
                                ),
                                sort_demand(
                                    old(expr_arena).view(),
                                    acc_projections@,
                                    projected_names.spec_names(),
                                    by_column,
                                ),
                            ),
                        )),
                        ALogicalPlan::Explode { input, columns } => p2.0 == logical_plan && (
                        crate::agg_scan::is_file_scan(g[input.0 as int]->Some_0)
                            ==> crate::agg_scan::scan_rebuilt(
                            final (lp_arena).view()[input.0 as int]->Some_0,
                            g[input.0 as int]->Some_0,
                            scan_columns(
                                names_demand(
                                    old(expr_arena).view(),
                                    columns@,
                                    0,
                                    acc_projections@,
                                    projected_names.spec_names(),
                                ).0,
                                names_demand(
                                    old(expr_arena).view(),
                                    columns@,
                                    0,
                                    acc_projections@,
                                    projected_names.spec_names(),
                                ).1,
                            ),
                        )),
                        ALogicalPlan::Distinct { input, subset, .. } => p2.0 == logical_plan && (
                        (crate::agg_scan::is_file_scan(g[input.0 as int]->Some_0) && subset
                             is Some) ==> crate::agg_scan::scan_rebuilt(
                            final (lp_arena).view()[input.0 as int]->Some_0,
                            g[input.0 as int]->Some_0,
                            scan_columns(
                                names_demand(
                                    old(expr_arena).view(),
                                    (subset->Some_0)@,
                                    0,
                                    acc_projections@,
                                    projected_names.spec_names(),
                                ).0,
                                names_demand(
                                    old(expr_arena).view(),
                                    (subset->Some_0)@,
                                    0,
                                    acc_projections@,
                                    projected_names.spec_names(),
                                ).1,
                            ),
                        )),
                        ALogicalPlan::Udf { input, projection_pd, .. } => p2.0 == logical_plan
                            && (!projection_pd ==> final (lp_arena).view()[input.0 as int]
                            == g[input.0 as int]) && ((projection_pd
                            && crate::agg_scan::is_file_scan(g[input.0 as int]->Some_0))
                            ==> crate::agg_scan::scan_rebuilt(
                            final (lp_arena).view()[input.0 as int]->Some_0,
                            g[input.0 as int]->Some_0,
                            scan_columns(old(expr_arena).view(), acc_projections@),
                        )),
                        ALogicalPlan::Cache { .. } | ALogicalPlan::Slice { .. } => p2.0
                            == logical_plan,
                        ALogicalPlan::CsvScan { .. } | ALogicalPlan::ParquetScan { .. } => crate::agg_scan::scan_rebuilt(
                            p2.0,
                            logical_plan,
                            scan_columns(old(expr_arena).view(), acc_projections@),
                        ),
                        ALogicalPlan::DataFrameScan { schema, selection, .. } => p2.0 matches
                            ALogicalPlan::DataFrameScan {
                            schema: s2,
                            projection: pr2,
                            selection: sel2,
                        } && s2 == schema && sel2 == selection && (if acc_projections@.len()
                            == 0 {
                            pr2 is None
                        } else {
                            pr2 matches Some(v) && v@ == acc_projections@
                        }),
                        _ => true,
                    }
                },
                Err(e) => e is FieldNotFound || e is InvalidOperation || e is ShapeMismatch,
            },
            plain_chain(g, logical_plan, g.len() as int) ==> r is Ok,
            (projections_seen == 0 && (logical_plan matches ALogicalPlan::Projection {
                input,
                ..
            } && plain_chain_at(g, input.0 as int))) ==> r is Ok,
        decreases crate::alp::input_bound(logical_plan), 1int,
    {
        let mut acc_projections = acc_projections;
        let mut projected_names = projected_names;
        match logical_plan {
            ALogicalPlan::Projection { expr, input, schema: _ } => {
                proof {
                    assert(inputs_of(
                        ALogicalPlan::Projection {
                            expr: expr,
                            input: input,
                            schema: arbitrary(),
                        },
                    )[0] == input);
                }
                let ghost e_entry = expr_arena.view();
                let n = expr.len();
                let mut j: usize = 0;
                while j < n
                    invariant
                        j <= n,
                        n == expr@.len(),
                        expr_wf(expr_arena.view()),
                        expr_arena.view() == e_entry,
                        forall|q: int|
                            0 <= q < expr@.len() ==> expr_node_ok(
                                expr_arena.view(),
                                #[trigger] expr@[q],
                            ),
                        expr_nodes_ok(expr_arena.view(), acc_projections@),
                        projected_names.distinct(),
                    decreases n - j,
                {
                    let enode = expr[j];
                    if acc_projections.len() > 0 {
                        let mut alias_name: Option<String> = None;
                        match expr_arena.get(enode) {
                            AExpr::Alias(_, nm) => {
                                alias_name = Some(nm.clone());
                            }
                            _ => {}
                        }
                        if let Some(nm) = alias_name {
                            if projected_names.remove(&nm) {
                                drop_projections_of_name(&mut acc_projections, &nm, expr_arena);
                            }
                        }
                    }
                    add_expr_to_accumulated(
                        enode,
                        &mut acc_projections,
                        &mut projected_names,
                        expr_arena,
                    );
                    j += 1;
                }
                let child_schema = match self.pushdown_and_assign(
                    input,
                    acc_projections,
                    projected_names,
                    projections_seen,
                    lp_arena,
                    expr_arena,
                    Ghost(g),
                ) {
                    Ok(s) => s,
                    Err(e) => {
                        return Err(e);
                    }
                };
                let mut local_projection: Vec<Node> = Vec::new();
                let m = expr.len();
                let mut j2: usize = 0;
                while j2 < m
                    invariant
                        j2 <= m,
                        m == expr@.len(),
                        expr_wf(expr_arena.view()),
                        forall|q: int|
                            0 <= q < expr@.len() ==> expr_node_ok(
                                expr_arena.view(),
                                #[trigger] expr@[q],
                            ),
                        expr_nodes_ok(expr_arena.view(), local_projection@),
                        projections_seen == 0 ==> crate::infer::all_exprs_typed(
                            expr_arena.view(),
                            child_schema.spec_fields(),
                            local_projection@,
                        ),
                    decreases m - j2,
                {
                    let enode = expr[j2];
                    // the whole pass runs with zero projections seen, so every
                    // projection re-establishes column order and aliases itself;
                    // the alias-only path serves a driver that seeds the count
                    // to mark inner projections
                    let keep = if projections_seen == 0 {
                        crate::aexpr::to_field(expr_arena, enode, &child_schema).is_ok()
                    } else {
                        crate::aexpr::expr_has_alias(expr_arena, enode)
                    };
                    if keep {
                        let ghost l0 = local_projection@;
                        local_projection.push(enode);
                        proof {
                            assert(expr_nodes_ok(expr_arena.view(), local_projection@)) by {
                                assert(forall|q: int|
                                    0 <= q < l0.len() ==> local_projection@[q] == l0[q]);
                            }
                            if projections_seen == 0 {
                                assert(crate::infer::all_exprs_typed(
                                    expr_arena.view(),
                                    child_schema.spec_fields(),
                                    local_projection@,
                                )) by {
                                    assert(forall|q: int|
                                        0 <= q < l0.len() ==> local_projection@[q] == l0[q]);
                                    assert(local_projection@.last() == enode);
                                }
                            }
                        }
                    }
                    j2 += 1;
                }
                let ghost a_pre = lp_arena.view();
                let res = self.finish_node(
                    local_projection,
                    input,
                    &child_schema,
                    lp_arena,
                    expr_arena,
                );
                proof {
                    if projections_seen == 0 {
                        assert(res is Ok);
                    }
                    assert(inputs_of(logical_plan)[0] == input);
                    lemma_subtree(g, input.0 as int);
                    assert(touched(g, logical_plan, input.0 as int));
                    assert forall|i: int|
                        0 <= i < old(lp_arena).view().len() && !touched(g, logical_plan, i)
                        implies lp_arena.view()[i] == old(lp_arena).view()[i] by {
                        if subtree(g, input.0 as int).contains(i) {
                            assert(touched(g, logical_plan, i));
                        } else {
                            assert(a_pre[i] == old(lp_arena).view()[i]);
                            assert(i != input.0 as int);
                        }
                    }
                    if local_projection@.len() == 0 {
                        assert(res matches Ok(p2) ==> p2.0 == a_pre[input.0 as int]->Some_0);
                        assert(res matches Ok(p2) ==> crate::alp::plan_inputs_ok(
                            lp_arena.view(),
                            p2.0,
                        )) by {
                            if res is Ok {
                                let content = a_pre[input.0 as int]->Some_0;
                                assert forall|k: int|
                                    0 <= k < inputs_of(content).len() implies crate::alp::plan_node_ok(
                                    lp_arena.view(),
                                    #[trigger] inputs_of(content)[k],
                                ) by {
                                    assert(crate::alp::plan_node_ok(a_pre, inputs_of(content)[k]));
                                    assert(inputs_of(content)[k].0 != input.0);
                                }
                            }
                        }
                        assert(res matches Ok(p2) ==> forall|k: int|
                            0 <= k < inputs_of(p2.0).len() ==> (#[trigger] inputs_of(p2.0)[k]).0
                                >= old(lp_arena).view().len() || touched(
                                g,
                                logical_plan,
                                inputs_of(p2.0)[k].0 as int,
                            ));
                    }
                }
                res
            }
            ALogicalPlan::LocalProjection { expr, input, schema: _ } => {
                proof {
                    assert(inputs_of(
                        ALogicalPlan::LocalProjection {
                            expr: expr,
                            input: input,
                            schema: arbitrary(),
                        },
                    )[0] == input);
                }
                let child_schema = match self.pushdown_and_assign(
                    input,
                    acc_projections,
                    projected_names,
                    projections_seen,
                    lp_arena,
                    expr_arena,
                    Ghost(g),
                ) {
                    Ok(s) => s,
                    Err(e) => {
                        return Err(e);
                    }
                };
                let mut proj: Vec<Node> = Vec::new();
                let m = expr.len();
                let mut j: usize = 0;
                while j < m
                    invariant
                        j <= m,
                        m == expr@.len(),
                        expr_wf(expr_arena.view()),
                        forall|q: int|
                            0 <= q < expr@.len() ==> expr_node_ok(
                                expr_arena.view(),
                                #[trigger] expr@[q],
                            ),
                        expr_nodes_ok(expr_arena.view(), proj@),
                    decreases m - j,
                {
                    let enode = expr[j];
                    if check_down_node(expr_arena, enode, &child_schema) {
                        let ghost p0 = proj@;
                        proj.push(enode);
                        proof {
                            assert(expr_nodes_ok(expr_arena.view(), proj@)) by {
                                assert(forall|q: int| 0 <= q < p0.len() ==> proj@[q] == p0[q]);
                            }
                        }
                    }
                    j += 1;
                }
                let ghost a_pre = lp_arena.view();
                if proj.len() == 0 {
                    let lp2 = lp_arena.take(input);
                    proof {
                        assert(inputs_of(logical_plan)[0] == input);
                        lemma_subtree(g, input.0 as int);
                        assert(touched(g, logical_plan, input.0 as int));
                        assert forall|i: int|
                            0 <= i < old(lp_arena).view().len() && !touched(g, logical_plan, i)
                            implies lp_arena.view()[i] == old(lp_arena).view()[i] by {
                            if subtree(g, input.0 as int).contains(i) {
                                assert(touched(g, logical_plan, i));
                            } else {
                                assert(a_pre[i] == old(lp_arena).view()[i]);
                                assert(i != input.0 as int);
                            }
                        }
                        assert(crate::alp::plan_inputs_ok(lp_arena.view(), lp2)) by {
                            assert forall|k: int|
                                0 <= k < inputs_of(lp2).len() implies crate::alp::plan_node_ok(
                                lp_arena.view(),
                                #[trigger] inputs_of(lp2)[k],
                            ) by {
                                assert(crate::alp::plan_node_ok(a_pre, inputs_of(lp2)[k]));
                                assert(inputs_of(lp2)[k].0 != input.0);
                            }
                        }
                    }
                    return Ok((lp2, child_schema));
                }
                let schema = match exprs_to_schema(&proj, &child_schema, expr_arena) {
                    Ok(s) => s,
                    Err(e) => {
                        return Err(e);
                    }
                };
                let sch = schema.clone();
                proof {
                    assert(inputs_of(logical_plan)[0] == input);
                    lemma_subtree(g, input.0 as int);
                    assert(touched(g, logical_plan, input.0 as int));
                    assert forall|i: int|
                        0 <= i < old(lp_arena).view().len() && !touched(g, logical_plan, i)
                        implies lp_arena.view()[i] == old(lp_arena).view()[i] by {
                        if subtree(g, input.0 as int).contains(i) {
                            assert(touched(g, logical_plan, i));
                        }
                    }
                }
                Ok((ALogicalPlan::LocalProjection { expr: proj, input, schema }, sch))
            }
            ALogicalPlan::DataFrameScan { schema, projection: _, selection } => {
                let sch = schema.clone();
                proof {
                    match selection {
                        Some(sel) => {
                            assert(crate::alp::exprs_of(logical_plan).last() == sel);
                            assert(expr_node_ok(expr_arena.view(), sel));
                        }
                        None => {}
                    }
                }
                let projection = if acc_projections.len() > 0 {
                    Some(acc_projections)
                } else {
                    None
                };
                Ok((ALogicalPlan::DataFrameScan { schema, projection, selection }, sch))
            }
            ALogicalPlan::CsvScan {
                path,
                schema,
                has_header,
                delimiter,
                ignore_errors,
                skip_rows,
                stop_after_n_rows,
                with_columns: _,
                predicate,
                aggregate,
                cache,
            } => {
                let with_columns = get_scan_columns(&acc_projections, expr_arena);
                let sch = schema.clone();
                Ok(
                    (
                        ALogicalPlan::CsvScan {
                            path,
                            schema,
                            has_header,
                            delimiter,
                            ignore_errors,
                            skip_rows,
                            stop_after_n_rows,
                            with_columns,
                            predicate,
                            aggregate,
                            cache,
                        },
                        sch,
                    ),
                )
            }
            ALogicalPlan::ParquetScan {
                path,
                schema,
                with_columns: _,
                predicate,
                aggregate,
                stop_after_n_rows,
                cache,
            } => {
                let with_columns = get_scan_columns(&acc_projections, expr_arena);
                let sch = schema.clone();
                Ok(
                    (
                        ALogicalPlan::ParquetScan {
                            path,
                            schema,
                            with_columns,
                            predicate,
                            aggregate,
                            stop_after_n_rows,
                            cache,
                        },
                        sch,
                    ),
                )
            }
            ALogicalPlan::Sort { input, by_column, reverse } => {
                proof {
                    assert(inputs_of(
                        ALogicalPlan::Sort { input: input, by_column: by_column, reverse: reverse },
                    )[0] == input);
                }
                let ghost acc0 = acc_projections@;
                let ghost names0 = projected_names.spec_names();
                add_str_to_accumulated(
                    &by_column,
                    &mut acc_projections,
                    &mut projected_names,
                    expr_arena,
                );
                proof {
                    lemma_snapshot_mono(g, old(expr_arena).view(), expr_arena.view());
                    assert(expr_arena.view() == sort_key_arena(
                        old(expr_arena).view(),
                        acc0,
                        by_column,
                    ));
                    assert(acc_projections@ == sort_demand(
                        old(expr_arena).view(),
                        acc0,
                        names0,
                        by_column,
                    ));
                }
                let sch = match self.pushdown_and_assign(
                    input,
                    acc_projections,
                    projected_names,
                    projections_seen,
                    lp_arena,
                    expr_arena,
                    Ghost(g),
                ) {
                    Ok(s) => s,
                    Err(e) => {
                        return Err(e);
                    }
                };
                proof {
                    assert(inputs_of(logical_plan)[0] == input);
                    lemma_subtree(g, input.0 as int);
                    assert forall|i: int|
                        0 <= i < old(lp_arena).view().len() && !touched(g, logical_plan, i)
                        implies lp_arena.view()[i] == old(lp_arena).view()[i] by {
                        if subtree(g, input.0 as int).contains(i) {
                            assert(touched(g, logical_plan, i));
                        }
                    }
                    assert(touched(g, logical_plan, input.0 as int));
                    assert forall|k: int|
                        0 <= k < crate::alp::exprs_of(logical_plan).len() implies (
                    #[trigger] crate::alp::exprs_of(logical_plan)[k]).0 < expr_arena.view().len()
                        && expr_arena.view()[crate::alp::exprs_of(logical_plan)[k].0 as int]
                        is Some by {
                        assert(crate::alp::exprs_of(logical_plan)[k].0 < old(
                            expr_arena,
                        ).view().len());
                    }
                }
                Ok((ALogicalPlan::Sort { input, by_column, reverse }, sch))
            }
            ALogicalPlan::Explode { input, columns } => {
                proof {
                    assert(inputs_of(ALogicalPlan::Explode { input: input, columns: columns })[0]
                        == input);
                }
                let ghost acc0 = acc_projections@;
                let ghost names0 = projected_names.spec_names();
                let n = columns.len();
                let mut j: usize = 0;
                while j < n
                    invariant
                        j <= n,
                        n == columns@.len(),
                        expr_wf(expr_arena.view()),
                        expr_arena.view().len() >= old(expr_arena).view().len(),
                        forall|i: int|
                            0 <= i < old(expr_arena).view().len() ==> expr_arena.view()[i] == old(
                                expr_arena,
                            ).view()[i],
                        expr_nodes_ok(expr_arena.view(), acc_projections@),
                        projected_names.distinct(),
                        names_demand(
                            expr_arena.view(),
                            columns@,
                            j as int,
                            acc_projections@,
                            projected_names.spec_names(),
                        ) == names_demand(old(expr_arena).view(), columns@, 0, acc0, names0),
                    decreases n - j,
                {
                    let nm = columns[j].clone();
                    proof {
                        assert(columns@[j as int] == nm);
                    }
                    add_str_to_accumulated(
                        &nm,
                        &mut acc_projections,
                        &mut projected_names,
                        expr_arena,
                    );
                    j += 1;
                }
                proof {
                    lemma_snapshot_mono(g, old(expr_arena).view(), expr_arena.view());
                    assert((expr_arena.view(), acc_projections@, projected_names.spec_names())
                        == names_demand(old(expr_arena).view(), columns@, 0, acc0, names0));
                }
                let sch = match self.pushdown_and_assign(
                    input,
                    acc_projections,
                    projected_names,
                    projections_seen,
                    lp_arena,
                    expr_arena,
                    Ghost(g),
                ) {
                    Ok(s) => s,
                    Err(e) => {
                        return Err(e);
                    }
                };
                proof {
                    assert(inputs_of(logical_plan)[0] == input);
                    lemma_subtree(g, input.0 as int);
                    assert forall|i: int|
                        0 <= i < old(lp_arena).view().len() && !touched(g, logical_plan, i)
                        implies lp_arena.view()[i] == old(lp_arena).view()[i] by {
                        if subtree(g, input.0 as int).contains(i) {
                            assert(touched(g, logical_plan, i));
                        }
                    }
                    assert(touched(g, logical_plan, input.0 as int));
                    assert forall|k: int|
                        0 <= k < crate::alp::exprs_of(logical_plan).len() implies (
                    #[trigger] crate::alp::exprs_of(logical_plan)[k]).0 < expr_arena.view().len()
                        && expr_arena.view()[crate::alp::exprs_of(logical_plan)[k].0 as int]
                        is Some by {
                        assert(crate::alp::exprs_of(logical_plan)[k].0 < old(
                            expr_arena,
                        ).view().len());
                    }
                }
                Ok((ALogicalPlan::Explode { input, columns }, sch))
            }
            ALogicalPlan::Distinct { input, maintain_order, subset } => {
                proof {
                    assert(inputs_of(
                        ALogicalPlan::Distinct {
                            input: input,
                            maintain_order: maintain_order,
                            subset: subset,
                        },
                    )[0] == input);
                }
                let ghost acc0 = acc_projections@;
                let ghost names0 = projected_names.spec_names();
                match &subset {
                    Some(sub) => {
                        let n = sub.len();
                        let mut j: usize = 0;
                        while j < n
                            invariant
                                j <= n,
                                n == sub@.len(),
                                expr_wf(expr_arena.view()),
                                expr_arena.view().len() >= old(expr_arena).view().len(),
                                forall|i: int|
                                    0 <= i < old(expr_arena).view().len() ==> expr_arena.view()[i]
                                        == old(expr_arena).view()[i],
                                expr_nodes_ok(expr_arena.view(), acc_projections@),
                                projected_names.distinct(),
                                names_demand(
                                    expr_arena.view(),
                                    sub@,
                                    j as int,
                                    acc_projections@,
                                    projected_names.spec_names(),
                                ) == names_demand(
                                    old(expr_arena).view(),
                                    sub@,
                                    0,
                                    acc0,
                                    names0,
                                ),
                            decreases n - j,
                        {
                            let nm = sub[j].clone();
                            proof {
                                assert(sub@[j as int] == nm);
                            }
                            add_str_to_accumulated(
                                &nm,
                                &mut acc_projections,
                                &mut projected_names,
                                expr_arena,
                            );
                            j += 1;
                        }
                        proof {
                            assert((
                                expr_arena.view(),
                                acc_projections@,
                                projected_names.spec_names(),
                            ) == names_demand(old(expr_arena).view(), sub@, 0, acc0, names0));
                        }
                    }
                    None => {}
                }
                proof {
                    lemma_snapshot_mono(g, old(expr_arena).view(), expr_arena.view());
                }
                let sch = match self.pushdown_and_assign(
                    input,
                    acc_projections,
                    projected_names,
                    projections_seen,
                    lp_arena,
                    expr_arena,
                    Ghost(g),
                ) {
                    Ok(s) => s,
                    Err(e) => {
                        return Err(e);
                    }
                };
                proof {
                    assert(inputs_of(logical_plan)[0] == input);
                    lemma_subtree(g, input.0 as int);
                    assert forall|i: int|
                        0 <= i < old(lp_arena).view().len() && !touched(g, logical_plan, i)
                        implies lp_arena.view()[i] == old(lp_arena).view()[i] by {
                        if subtree(g, input.0 as int).contains(i) {
                            assert(touched(g, logical_plan, i));
                        }
                    }
                    assert(touched(g, logical_plan, input.0 as int));
                    assert forall|k: int|
                        0 <= k < crate::alp::exprs_of(logical_plan).len() implies (
                    #[trigger] crate::alp::exprs_of(logical_plan)[k]).0 < expr_arena.view().len()
                        && expr_arena.view()[crate::alp::exprs_of(logical_plan)[k].0 as int]
                        is Some by {
                        assert(crate::alp::exprs_of(logical_plan)[k].0 < old(
                            expr_arena,
                        ).view().len());
                    }
                }
                Ok((ALogicalPlan::Distinct { input, maintain_order, subset }, sch))
            }
            ALogicalPlan::Selection { predicate, input } => {
                proof {
                    assert(inputs_of(
                        ALogicalPlan::Selection { input: input, predicate: predicate },
                    )[0] == input);
                    assert(crate::alp::exprs_of(
                        ALogicalPlan::Selection { input: input, predicate: predicate },
                    )[0] == predicate);
                }
                let ghost acc0 = acc_projections@;
                let ghost names0 = projected_names.spec_names();
                if acc_projections.len() > 0 {
                    add_expr_to_accumulated(
                        predicate,
                        &mut acc_projections,
                        &mut projected_names,
                        expr_arena,
                    );
                }
                proof {
                    assert(acc_projections@ == selection_demand(
                        expr_arena.view(),
                        predicate,
                        acc0,
                        names0,
                    ));
                }
                let sch = match self.pushdown_and_assign(
                    input,
                    acc_projections,
                    projected_names,
                    projections_seen,
                    lp_arena,
                    expr_arena,
                    Ghost(g),
                ) {
                    Ok(s) => s,
                    Err(e) => {
                        return Err(e);
                    }
                };
                proof {
                    assert(inputs_of(logical_plan)[0] == input);
                    lemma_subtree(g, input.0 as int);
                    assert forall|i: int|
                        0 <= i < old(lp_arena).view().len() && !touched(g, logical_plan, i)
                        implies lp_arena.view()[i] == old(lp_arena).view()[i] by {
                        if subtree(g, input.0 as int).contains(i) {
                            assert(touched(g, logical_plan, i));
                        }
                    }
                    assert(touched(g, logical_plan, input.0 as int));
                    assert forall|k: int|
                        0 <= k < crate::alp::exprs_of(logical_plan).len() implies (
                    #[trigger] crate::alp::exprs_of(logical_plan)[k]).0 < expr_arena.view().len()
                        && expr_arena.view()[crate::alp::exprs_of(logical_plan)[k].0 as int]
                        is Some by {
                        assert(crate::alp::exprs_of(logical_plan)[k].0 < old(
                            expr_arena,
                        ).view().len());
                    }
                }
                Ok((ALogicalPlan::Selection { predicate, input }, sch))
            }
            ALogicalPlan::Slice { input, offset, len } => {
                proof {
                    assert(inputs_of(
                        ALogicalPlan::Slice { input: input, offset: offset, len: len },
                    )[0] == input);
                }
                let sch = match self.pushdown_and_assign(
                    input,
                    acc_projections,
                    projected_names,
                    projections_seen,
                    lp_arena,
                    expr_arena,
                    Ghost(g),
                ) {
                    Ok(s) => s,
                    Err(e) => {
                        return Err(e);
                    }
                };
                proof {
                    assert(inputs_of(logical_plan)[0] == input);
                    lemma_subtree(g, input.0 as int);
                    assert forall|i: int|
                        0 <= i < old(lp_arena).view().len() && !touched(g, logical_plan, i)
                        implies lp_arena.view()[i] == old(lp_arena).view()[i] by {
                        if subtree(g, input.0 as int).contains(i) {
                            assert(touched(g, logical_plan, i));
                        }
                    }
                    assert(touched(g, logical_plan, input.0 as int));
                    assert forall|k: int|
                        0 <= k < crate::alp::exprs_of(logical_plan).len() implies (
                    #[trigger] crate::alp::exprs_of(logical_plan)[k]).0 < expr_arena.view().len()
                        && expr_arena.view()[crate::alp::exprs_of(logical_plan)[k].0 as int]
                        is Some by {
                        assert(crate::alp::exprs_of(logical_plan)[k].0 < old(
                            expr_arena,
                        ).view().len());
                    }
                }
                Ok((ALogicalPlan::Slice { input, offset, len }, sch))
            }
            ALogicalPlan::Cache { input } => {
                proof {
                    assert(inputs_of(ALogicalPlan::Cache { input: input })[0] == input);
                }
                let sch = match self.pushdown_and_assign(
                    input,
                    acc_projections,
                    projected_names,
                    projections_seen,
                    lp_arena,
                    expr_arena,
                    Ghost(g),
                ) {
                    Ok(s) => s,
                    Err(e) => {
                        return Err(e);
                    }
                };
                proof {
                    assert(inputs_of(logical_plan)[0] == input);
                    lemma_subtree(g, input.0 as int);
                    assert forall|i: int|
                        0 <= i < old(lp_arena).view().len() && !touched(g, logical_plan, i)
                        implies lp_arena.view()[i] == old(lp_arena).view()[i] by {
                        if subtree(g, input.0 as int).contains(i) {
                            assert(touched(g, logical_plan, i));
                        }
                    }
                    assert(touched(g, logical_plan, input.0 as int));
                    assert forall|k: int|
                        0 <= k < crate::alp::exprs_of(logical_plan).len() implies (
                    #[trigger] crate::alp::exprs_of(logical_plan)[k]).0 < expr_arena.view().len()
                        && expr_arena.view()[crate::alp::exprs_of(logical_plan)[k].0 as int]
                        is Some by {
                        assert(crate::alp::exprs_of(logical_plan)[k].0 < old(
                            expr_arena,
                        ).view().len());
                    }
                }
                Ok((ALogicalPlan::Cache { input }, sch))
            }
            ALogicalPlan::Udf { input, function, predicate_pd, projection_pd, schema } => {
                proof {
                    assert(inputs_of(
                        ALogicalPlan::Udf {
                            input: input,
                            function: function,
                            predicate_pd: predicate_pd,
                            projection_pd: projection_pd,
                            schema: schema,
                        },
                    )[0] == input);
                }
                let mut child_schema: Option<Schema> = None;
                if projection_pd {
                    match self.pushdown_and_assign(
                        input,
                        acc_projections,
                        projected_names,
                        projections_seen,
                        lp_arena,
                        expr_arena,
                        Ghost(g),
                    ) {
                        Ok(s) => {
                            child_schema = Some(s);
                        }
                        Err(e) => {
                            return Err(e);
                        }
                    }
                }
                let sch = match (&schema, child_schema) {
                    (Some(s), _) => s.clone(),
                    (None, Some(cs)) => cs,
                    (None, None) => snapshot_schema(lp_arena, input, Ghost(g)),
                };
                proof {
                    assert(inputs_of(logical_plan)[0] == input);
                    lemma_subtree(g, input.0 as int);
                    if !projection_pd {
                        assert(subtree(g, input.0 as int).contains(input.0 as int));
                        assert(lp_arena.view()[input.0 as int] == g[input.0 as int]);
                    }
                    assert forall|i: int|
                        0 <= i < old(lp_arena).view().len() && !touched(g, logical_plan, i)
                        implies lp_arena.view()[i] == old(lp_arena).view()[i] by {
                        if subtree(g, input.0 as int).contains(i) {
                            assert(touched(g, logical_plan, i));
                        }
                    }
                    assert(touched(g, logical_plan, input.0 as int));
                    assert forall|k: int|
                        0 <= k < crate::alp::exprs_of(logical_plan).len() implies (
                    #[trigger] crate::alp::exprs_of(logical_plan)[k]).0 < expr_arena.view().len()
                        && expr_arena.view()[crate::alp::exprs_of(logical_plan)[k].0 as int]
                        is Some by {
                        assert(crate::alp::exprs_of(logical_plan)[k].0 < old(
                            expr_arena,
                        ).view().len());
                    }
                }
                Ok((ALogicalPlan::Udf { input, function, predicate_pd, projection_pd, schema }, sch))
            }
            ALogicalPlan::Melt { input, id_vars, value_vars, schema: _ } => {
                proof {
                    assert(inputs_of(
                        ALogicalPlan::Melt {
                            input: input,
                            id_vars: id_vars,
                            value_vars: value_vars,
                            schema: arbitrary(),
                        },
                    )[0] == input);
                }
                let input_schema = snapshot_schema(lp_arena, input, Ghost(g));
                let (acc2, mut local_projections, names2) = split_acc_projections(
                    acc_projections,
                    &input_schema,
                    expr_arena,
                );
                let mut acc_projections = acc2;
                let mut projected_names = names2;
                if local_projections.len() > 0 {
                    crate::alp::push_all(&mut local_projections, &acc_projections);
                    proof {
                        assert(expr_nodes_ok(expr_arena.view(), local_projections@));
                    }
                }
                let n = id_vars.len();
                let mut j: usize = 0;
                while j < n
                    invariant
                        j <= n,
                        n == id_vars@.len(),
                        expr_wf(expr_arena.view()),
                        expr_arena.view().len() >= old(expr_arena).view().len(),
                        forall|i: int|
                            0 <= i < old(expr_arena).view().len() ==> expr_arena.view()[i] == old(
                                expr_arena,
                            ).view()[i],
                        expr_nodes_ok(expr_arena.view(), acc_projections@),
                        expr_nodes_ok(expr_arena.view(), local_projections@),
                        projected_names.distinct(),
                    decreases n - j,
                {
                    let nm = id_vars[j].clone();
                    add_str_to_accumulated(
                        &nm,
                        &mut acc_projections,
                        &mut projected_names,
                        expr_arena,
                    );
                    j += 1;
                }
                let n2 = value_vars.len();
                let mut j3: usize = 0;
                while j3 < n2
                    invariant
                        j3 <= n2,
                        n2 == value_vars@.len(),
                        expr_wf(expr_arena.view()),
                        expr_arena.view().len() >= old(expr_arena).view().len(),
                        forall|i: int|
                            0 <= i < old(expr_arena).view().len() ==> expr_arena.view()[i] == old(
                                expr_arena,
                            ).view()[i],
                        expr_nodes_ok(expr_arena.view(), acc_projections@),
                        expr_nodes_ok(expr_arena.view(), local_projections@),
                        projected_names.distinct(),
                    decreases n2 - j3,
                {
                    let nm = value_vars[j3].clone();
                    add_str_to_accumulated(
                        &nm,
                        &mut acc_projections,
                        &mut projected_names,
                        expr_arena,
                    );
                    j3 += 1;
                }
                proof {
                    lemma_snapshot_mono(g, old(expr_arena).view(), expr_arena.view());
                }
                let child_schema = match self.pushdown_and_assign(
                    input,
                    acc_projections,
                    projected_names,
                    projections_seen,
                    lp_arena,
                    expr_arena,
                    Ghost(g),
                ) {
                    Ok(s) => s,
                    Err(e) => {
                        return Err(e);
                    }
                };
                let melt_schema = crate::infer::det_melt_schema(&value_vars, &child_schema);
                let msch = melt_schema.clone();
                let melt = ALogicalPlan::Melt { input, id_vars, value_vars, schema: melt_schema };
                let ghost a_pre = lp_arena.view();
                let res = self.wrap_local(local_projections, melt, msch, lp_arena, expr_arena);
                proof {
                    assert(inputs_of(logical_plan)[0] == input);
                    assert(inputs_of(melt)[0] == input);
                    lemma_subtree(g, input.0 as int);
                    assert(touched(g, logical_plan, input.0 as int));
                    assert forall|i: int|
                        0 <= i < old(lp_arena).view().len() && !touched(g, logical_plan, i)
                        implies lp_arena.view()[i] == old(lp_arena).view()[i] by {
                        if subtree(g, input.0 as int).contains(i) {
                            assert(touched(g, logical_plan, i));
                        } else {
                            assert(a_pre[i] == old(lp_arena).view()[i]);
                        }
                    }
                    assert(a_pre[input.0 as int] is Some);
                }
                res
            }
            ALogicalPlan::Aggregate { input, keys, aggs, schema, apply } => {
                proof {
                    assert(inputs_of(
                        ALogicalPlan::Aggregate {
                            input: input,
                            keys: keys,
                            aggs: aggs,
                            schema: arbitrary(),
                            apply: apply,
                        },
                    )[0] == input);
                }
                if apply.is_some() {
                    let sch = schema.clone();
                    let agg = ALogicalPlan::Aggregate { input, keys, aggs, schema, apply };
                    let ghost a_pre = lp_arena.view();
                    let res = self.wrap_local(acc_projections, agg, sch, lp_arena, expr_arena);
                    proof {
                        assert(inputs_of(logical_plan)[0] == input);
                        assert(inputs_of(agg)[0] == input);
                        lemma_subtree(g, input.0 as int);
                        assert(touched(g, logical_plan, input.0 as int));
                        assert(subtree(g, input.0 as int).contains(input.0 as int));
                        assert(a_pre[input.0 as int] == g[input.0 as int]);
                        assert(a_pre[input.0 as int] is Some);
                        assert forall|k: int|
                            0 <= k < crate::alp::exprs_of(agg).len() implies (
                        #[trigger] crate::alp::exprs_of(agg)[k]).0 < expr_arena.view().len()
                            && expr_arena.view()[crate::alp::exprs_of(agg)[k].0 as int] is Some by {
                            assert(crate::alp::exprs_of(logical_plan)[k] == crate::alp::exprs_of(
                                agg,
                            )[k]);
                            assert(crate::alp::exprs_of(logical_plan)[k].0 < old(
                                expr_arena,
                            ).view().len());
                        }
                    }
                    return res;
                }
                let input_schema = snapshot_schema(lp_arena, input, Ghost(g));
                let (acc2, _local_projections, names2) = split_acc_projections(
                    acc_projections,
                    &input_schema,
                    expr_arena,
                );
                let mut acc_projections = acc2;
                let mut projected_names = names2;
                proof {
                    assert forall|q: int| 0 <= q < keys@.len() implies expr_node_ok(
                        expr_arena.view(),
                        #[trigger] keys@[q],
                    ) by {
                        assert(crate::alp::exprs_of(logical_plan)[q] == keys@[q]);
                    }
                    assert forall|q: int| 0 <= q < aggs@.len() implies expr_node_ok(
                        expr_arena.view(),
                        #[trigger] aggs@[q],
                    ) by {
                        assert(crate::alp::exprs_of(logical_plan)[keys@.len() + q] == aggs@[q]);
                    }
                }
                let na = aggs.len();
                let mut j: usize = 0;
                while j < na
                    invariant
                        j <= na,
                        na == aggs@.len(),
                        expr_wf(expr_arena.view()),
                        forall|q: int|
                            0 <= q < aggs@.len() ==> expr_node_ok(
                                expr_arena.view(),
                                #[trigger] aggs@[q],
                            ),
                        expr_nodes_ok(expr_arena.view(), acc_projections@),
                        projected_names.distinct(),
                    decreases na - j,
                {
                    add_expr_to_accumulated(
                        aggs[j],
                        &mut acc_projections,
                        &mut projected_names,
                        expr_arena,
                    );
                    j += 1;
                }
                let nk = keys.len();
                let mut j2: usize = 0;
                while j2 < nk
                    invariant
                        j2 <= nk,
                        nk == keys@.len(),
                        expr_wf(expr_arena.view()),
                        forall|q: int|
                            0 <= q < keys@.len() ==> expr_node_ok(
                                expr_arena.view(),
                                #[trigger] keys@[q],
                            ),
                        expr_nodes_ok(expr_arena.view(), acc_projections@),
                        projected_names.distinct(),
                    decreases nk - j2,
                {
                    add_expr_to_accumulated(
                        keys[j2],
                        &mut acc_projections,
                        &mut projected_names,
                        expr_arena,
                    );
                    j2 += 1;
                }
                let child_schema = match self.pushdown_and_assign(
                    input,
                    acc_projections,
                    projected_names,
                    projections_seen,
                    lp_arena,
                    expr_arena,
                    Ghost(g),
                ) {
                    Ok(s) => s,
                    Err(e) => {
                        return Err(e);
                    }
                };
                let schema2 = match crate::infer::groupby_schema(
                    &keys,
                    &aggs,
                    &child_schema,
                    expr_arena,
                ) {
                    Ok(s) => s,
                    Err(e) => {
                        return Err(e);
                    }
                };
                let sch = schema2.clone();
                proof {
                    assert(inputs_of(logical_plan)[0] == input);
                    lemma_subtree(g, input.0 as int);
                    assert(touched(g, logical_plan, input.0 as int));
                    assert forall|i: int|
                        0 <= i < old(lp_arena).view().len() && !touched(g, logical_plan, i)
                        implies lp_arena.view()[i] == old(lp_arena).view()[i] by {
                        if subtree(g, input.0 as int).contains(i) {
                            assert(touched(g, logical_plan, i));
                        }
                    }
                    let result = ALogicalPlan::Aggregate {
                        input: input,
                        keys: keys,
                        aggs: aggs,
                        schema: arbitrary(),
                        apply: None,
                    };
                    assert forall|k: int|
                        0 <= k < crate::alp::exprs_of(result).len() implies (
                    #[trigger] crate::alp::exprs_of(result)[k]).0 < expr_arena.view().len()
                        && expr_arena.view()[crate::alp::exprs_of(result)[k].0 as int] is Some by {
                        if k < keys@.len() {
                            assert(crate::alp::exprs_of(result)[k] == keys@[k]);
                            assert(expr_node_ok(expr_arena.view(), keys@[k]));
                        } else {
                            assert(crate::alp::exprs_of(result)[k] == aggs@[k - keys@.len()]);
                            assert(expr_node_ok(expr_arena.view(), aggs@[k - keys@.len()]));
                        }
                    }
                }
                Ok(
                    (
                        ALogicalPlan::Aggregate {
                            input,
                            keys,
                            aggs,
                            schema: schema2,
                            apply: None,
                        },
                        sch,
                    ),
                )
            }
            ALogicalPlan::HStack { input, exprs, schema: _ } => {
                proof {
                    assert(inputs_of(
                        ALogicalPlan::HStack {
                            input: input,
                            exprs: exprs,
                            schema: arbitrary(),
                        },
                    )[0] == input);
                    assert forall|q: int| 0 <= q < exprs@.len() implies expr_node_ok(
                        expr_arena.view(),
                        #[trigger] exprs@[q],
                    ) by {
                        assert(crate::alp::exprs_of(logical_plan)[q] == exprs@[q]);
                    }
                }
                if acc_projections.len() > 0 {
                    let n = exprs.len();
                    let mut j: usize = 0;
                    while j < n
                        invariant
                            j <= n,
                            n == exprs@.len(),
                            expr_wf(expr_arena.view()),
                            forall|q: int|
                                0 <= q < exprs@.len() ==> expr_node_ok(
                                    expr_arena.view(),
                                    #[trigger] exprs@[q],
                                ),
                            expr_nodes_ok(expr_arena.view(), acc_projections@),
                            projected_names.distinct(),
                        decreases n - j,
                    {
                        add_expr_to_accumulated(
                            exprs[j],
                            &mut acc_projections,
                            &mut projected_names,
                            expr_arena,
                        );
                        j += 1;
                    }
                }
                let input_schema = snapshot_schema(lp_arena, input, Ghost(g));
                let (acc2, _local, names2) = split_acc_projections(
                    acc_projections,
                    &input_schema,
                    expr_arena,
                );
                let child_schema = match self.pushdown_and_assign(
                    input,
                    acc2,
                    names2,
                    projections_seen,
                    lp_arena,
                    expr_arena,
                    Ghost(g),
                ) {
                    Ok(s) => s,
                    Err(e) => {
                        return Err(e);
                    }
                };
                let schema2 = match crate::infer::hstack_schema(&exprs, &child_schema, expr_arena) {
                    Ok(s) => s,
                    Err(e) => {
                        return Err(e);
                    }
                };
                let sch = schema2.clone();
                proof {
                    assert(inputs_of(logical_plan)[0] == input);
                    lemma_subtree(g, input.0 as int);
                    assert(touched(g, logical_plan, input.0 as int));
                    assert forall|i: int|
                        0 <= i < old(lp_arena).view().len() && !touched(g, logical_plan, i)
                        implies lp_arena.view()[i] == old(lp_arena).view()[i] by {
                        if subtree(g, input.0 as int).contains(i) {
                            assert(touched(g, logical_plan, i));
                        }
                    }
                    let result = ALogicalPlan::HStack {
                        input: input,
                        exprs: exprs,
                        schema: arbitrary(),
                    };
                    assert forall|k: int|
                        0 <= k < crate::alp::exprs_of(result).len() implies (
                    #[trigger] crate::alp::exprs_of(result)[k]).0 < expr_arena.view().len()
                        && expr_arena.view()[crate::alp::exprs_of(result)[k].0 as int] is Some by {
                        assert(crate::alp::exprs_of(result)[k] == exprs@[k]);
                        assert(expr_node_ok(expr_arena.view(), exprs@[k]));
                    }
                }
                Ok((ALogicalPlan::HStack { input, exprs, schema: schema2 }, sch))
            }
            ALogicalPlan::Join {
                input_left,
                input_right,
                schema: _,
                how,
                left_on,
                right_on,
                allow_par,
                force_par,
            } => {
                proof {
                    assert(inputs_of(logical_plan)[0] == input_left);
                    assert(inputs_of(logical_plan)[1] == input_right);
                    assert forall|q: int| 0 <= q < left_on@.len() implies expr_node_ok(
                        expr_arena.view(),
                        #[trigger] left_on@[q],
                    ) by {
                        assert(crate::alp::exprs_of(logical_plan)[q] == left_on@[q]);
                    }
                    assert forall|q: int| 0 <= q < right_on@.len() implies expr_node_ok(
                        expr_arena.view(),
                        #[trigger] right_on@[q],
                    ) by {
                        assert(crate::alp::exprs_of(logical_plan)[left_on@.len() + q]
                            == right_on@[q]);
                    }
                }
                let mut pushdown_left: Vec<Node> = Vec::new();
                let mut pushdown_right: Vec<Node> = Vec::new();
                let mut names_left = NameSet::new();
                let mut names_right = NameSet::new();
                let mut local_projection: Vec<Node> = Vec::new();
                if acc_projections.len() > 0 {
                    let schema_left = snapshot_schema(lp_arena, input_left, Ghost(g));
                    let schema_right = snapshot_schema(lp_arena, input_right, Ghost(g));
                    crate::alp::push_all(&mut pushdown_left, &left_on);
                    crate::alp::push_all(&mut pushdown_right, &right_on);
                    proof {
                        assert(expr_nodes_ok(expr_arena.view(), pushdown_left@));
                        assert(expr_nodes_ok(expr_arena.view(), pushdown_right@));
                    }
                    let n = acc_projections.len();
                    let mut k: usize = 0;
                    while k < n
                        invariant
                            k <= n,
                            n == acc_projections@.len(),
                            expr_wf(expr_arena.view()),
                            expr_arena.view().len() >= old(expr_arena).view().len(),
                            forall|i: int|
                                0 <= i < old(expr_arena).view().len() ==> expr_arena.view()[i]
                                    == old(expr_arena).view()[i],
                            expr_nodes_ok(expr_arena.view(), acc_projections@),
                            expr_nodes_ok(expr_arena.view(), pushdown_left@),
                            expr_nodes_ok(expr_arena.view(), pushdown_right@),
                            expr_nodes_ok(expr_arena.view(), local_projection@),
                            names_left.distinct(),
                            names_right.distinct(),
                        decreases n - k,
                    {
                        let proj = acc_projections[k];
                        proof {
                            assert(expr_node_ok(expr_arena.view(), acc_projections@[k as int]));
                        }
                        let mut add_local = true;
                        let mut alias_info: Option<(Node, String)> = None;
                        match expr_arena.get(proj) {
                            AExpr::Alias(inner, nm) => {
                                alias_info = Some((*inner, nm.clone()));
                            }
                            _ => {}
                        }
                        if let Some((inner, nm)) = alias_info {
                            proof {
                                assert(expr_slot_ok(expr_arena.view(), proj.0 as int));
                                assert(crate::aexpr::children_of(
                                    expr_arena.view()[proj.0 as int]->Some_0,
                                )[0] == inner);
                            }
                            let mut tmp: Vec<String> = Vec::new();
                            collect_root_names(expr_arena, inner, &mut tmp);
                            let m = tmp.len();
                            let mut q: usize = 0;
                            while q < m
                                invariant
                                    q <= m,
                                    m == tmp@.len(),
                                    expr_wf(expr_arena.view()),
                                    expr_arena.view().len() >= old(expr_arena).view().len(),
                                    forall|i: int|
                                        0 <= i < old(expr_arena).view().len() ==> expr_arena.view()[i]
                                            == old(expr_arena).view()[i],
                                    expr_nodes_ok(expr_arena.view(), acc_projections@),
                                    expr_nodes_ok(expr_arena.view(), pushdown_left@),
                                    expr_nodes_ok(expr_arena.view(), pushdown_right@),
                                    expr_nodes_ok(expr_arena.view(), local_projection@),
                                decreases m - q,
                            {
                                let rn = tmp[q].clone();
                                let ghost e0 = expr_arena.view();
                                let cnode = expr_arena.add(AExpr::Column(rn));
                                proof {
                                    assert forall|i: int|
                                        0 <= i < expr_arena.view().len() implies expr_slot_ok(
                                        expr_arena.view(),
                                        i,
                                    ) by {
                                        if i < e0.len() {
                                            assert(expr_slot_ok(e0, i));
                                        }
                                    }
                                }
                                let ghost e1 = expr_arena.view();
                                let anode = expr_arena.add(AExpr::Alias(cnode, nm.clone()));
                                proof {
                                    assert forall|i: int|
                                        0 <= i < expr_arena.view().len() implies expr_slot_ok(
                                        expr_arena.view(),
                                        i,
                                    ) by {
                                        if i < e1.len() {
                                            assert(expr_slot_ok(e1, i));
                                        } else {
                                            assert(crate::aexpr::children_of(
                                                AExpr::Alias(cnode, nm),
                                            ) =~= seq![cnode]);
                                        }
                                    }
                                    assert(expr_nodes_ok(expr_arena.view(), acc_projections@));
                                    assert(expr_nodes_ok(expr_arena.view(), pushdown_left@));
                                    assert(expr_nodes_ok(expr_arena.view(), pushdown_right@));
                                }
                                let ghost l0 = local_projection@;
                                local_projection.push(anode);
                                proof {
                                    assert(expr_nodes_ok(expr_arena.view(), local_projection@))
                                        by {
                                        assert(forall|z: int|
                                            0 <= z < l0.len() ==> local_projection@[z] == l0[z]);
                                    }
                                }
                                q += 1;
                            }
                            add_local = false;
                        }
                        let pushed = self.join_push_down(
                            &schema_left,
                            &schema_right,
                            proj,
                            &mut pushdown_left,
                            &mut pushdown_right,
                            &mut names_left,
                            &mut names_right,
                            expr_arena,
                        );
                        if !pushed {
                            // A projection that resolves against neither side is
                            // assumed to name a column the join renamed: the
                            // `_right` suffix is stripped, the bare name is pushed
                            // to the right side, and the suffixed name is restored
                            // locally with an alias.  A user column whose own name
                            // happens to end in the marker is resolved the same
                            // way; that ambiguity is inherent in suffix renaming.
                            // A projection with no column root at all is kept out
                            // of the pushdown altogether.
                            let mut tmp: Vec<String> = Vec::new();
                            collect_root_names(expr_arena, proj, &mut tmp);
                            if tmp.len() > 0 {
                                let root_column_name = tmp[tmp.len() - 1].clone();
                                if ends_with_right(&root_column_name) {
                                    let l = root_column_name.as_str().unicode_len();
                                    let downwards = root_column_name.as_str().substring_char(
                                        0,
                                        l - 6,
                                    ).to_owned();
                                    let ghost e0 = expr_arena.view();
                                    let dn_col = expr_arena.add(
                                        AExpr::Column(downwards.clone()),
                                    );
                                    proof {
                                        assert forall|i: int|
                                            0 <= i < expr_arena.view().len() implies expr_slot_ok(
                                            expr_arena.view(),
                                            i,
                                        ) by {
                                            if i < e0.len() {
                                                assert(expr_slot_ok(e0, i));
                                            }
                                        }
                                        assert(expr_nodes_ok(
                                            expr_arena.view(),
                                            acc_projections@,
                                        ));
                                        assert(expr_nodes_ok(expr_arena.view(), pushdown_left@));
                                        assert(expr_nodes_ok(expr_arena.view(), pushdown_right@));
                                        assert(expr_nodes_ok(
                                            expr_arena.view(),
                                            local_projection@,
                                        ));
                                    }
                                    let was_new = names_right.insert(downwards.clone());
                                    if was_new {
                                        let ghost pr0 = pushdown_right@;
                                        pushdown_right.push(dn_col);
                                        proof {
                                            assert(expr_nodes_ok(
                                                expr_arena.view(),
                                                pushdown_right@,
                                            )) by {
                                                assert(forall|z: int|
                                                    0 <= z < pr0.len() ==> pushdown_right@[z]
                                                        == pr0[z]);
                                            }
                                        }
                                    }
                                    let alias_name = downwards.concat("_right");
                                    let ghost e1 = expr_arena.view();
                                    let projection = expr_arena.add(
                                        AExpr::Alias(dn_col, alias_name),
                                    );
                                    proof {
                                        assert forall|i: int|
                                            0 <= i < expr_arena.view().len() implies expr_slot_ok(
                                            expr_arena.view(),
                                            i,
                                        ) by {
                                            if i < e1.len() {
                                                assert(expr_slot_ok(e1, i));
                                            } else {
                                                assert(crate::aexpr::children_of(
                                                    expr_arena.view()[i]->Some_0,
                                                ) =~= seq![dn_col]);
                                            }
                                        }
                                        assert(expr_nodes_ok(
                                            expr_arena.view(),
                                            acc_projections@,
                                        ));
                                        assert(expr_nodes_ok(expr_arena.view(), pushdown_left@));
                                        assert(expr_nodes_ok(expr_arena.view(), pushdown_right@));
                                    }
                                    let ghost l0 = local_projection@;
                                    local_projection.push(projection);
                                    proof {
                                        assert(expr_nodes_ok(
                                            expr_arena.view(),
                                            local_projection@,
                                        )) by {
                                            assert(forall|z: int|
                                                0 <= z < l0.len() ==> local_projection@[z]
                                                    == l0[z]);
                                        }
                                    }
                                }
                            }
                        } else if add_local {
                            let ghost l0 = local_projection@;
                            local_projection.push(proj);
                            proof {
                                assert(expr_nodes_ok(expr_arena.view(), local_projection@)) by {
                                    assert(forall|z: int|
                                        0 <= z < l0.len() ==> local_projection@[z] == l0[z]);
                                }
                            }
                        }
                        k += 1;
                    }
                }
                proof {
                    lemma_snapshot_mono(g, old(expr_arena).view(), expr_arena.view());
                }
                let ghost a_before_left = lp_arena.view();
                let ghost e_mid = expr_arena.view();
                let sl2 = match self.pushdown_and_assign(
                    input_left,
                    pushdown_left,
                    names_left,
                    projections_seen,
                    lp_arena,
                    expr_arena,
                    Ghost(g),
                ) {
                    Ok(s) => s,
                    Err(e) => {
                        return Err(e);
                    }
                };
                proof {
                    lemma_snapshot_mono(g, old(expr_arena).view(), expr_arena.view());
                    assert(subtree_intact(lp_arena.view(), g, input_right.0 as int)) by {
                        assert forall|j: int| #![trigger subtree(g, input_right.0 as int).contains(j)]
                            subtree(g, input_right.0 as int).contains(j) implies 0 <= j
                            < lp_arena.view().len() && lp_arena.view()[j] == g[j] by {
                            lemma_subtree(g, input_right.0 as int);
                            assert(subtree(g, input_left.0 as int).disjoint(
                                subtree(g, input_right.0 as int),
                            ));
                            assert(!subtree(g, input_left.0 as int).contains(j));
                            assert(0 <= j < a_before_left.len());
                            assert(a_before_left[j] == g[j]);
                            assert(lp_arena.view()[j] == a_before_left[j]);
                        }
                    }
                    assert forall|q: int| 0 <= q < pushdown_right@.len() implies expr_node_ok(
                        expr_arena.view(),
                        #[trigger] pushdown_right@[q],
                    ) by {
                        assert(expr_node_ok(e_mid, pushdown_right@[q]));
                        assert(pushdown_right@[q].0 < e_mid.len());
                    }
                }
                let sr2 = match self.pushdown_and_assign(
                    input_right,
                    pushdown_right,
                    names_right,
                    projections_seen,
                    lp_arena,
                    expr_arena,
                    Ghost(g),
                ) {
                    Ok(s) => s,
                    Err(e) => {
                        return Err(e);
                    }
                };
                proof {
                    assert(join_keys_ok(expr_arena.view(), right_on@));
                }
                let right_names = crate::infer::key_names(&right_on, expr_arena);
                let jschema = crate::infer::join_schema(&sl2, &sr2, &right_names);
                let jsch = jschema.clone();
                let join_value = ALogicalPlan::Join {
                    input_left,
                    input_right,
                    schema: jschema,
                    how,
                    left_on,
                    right_on,
                    allow_par,
                    force_par,
                };
                let ghost a_pre = lp_arena.view();
                let res = self.wrap_local(local_projection, join_value, jsch, lp_arena, expr_arena);
                proof {
                    assert(inputs_of(logical_plan)[0] == input_left);
                    assert(inputs_of(logical_plan)[1] == input_right);
                    assert(inputs_of(join_value)[0] == input_left);
                    assert(inputs_of(join_value)[1] == input_right);
                    lemma_subtree(g, input_left.0 as int);
                    lemma_subtree(g, input_right.0 as int);
                    assert(touched(g, logical_plan, input_left.0 as int));
                    assert(touched(g, logical_plan, input_right.0 as int));
                    assert forall|i: int|
                        0 <= i < old(lp_arena).view().len() && !touched(g, logical_plan, i)
                        implies lp_arena.view()[i] == old(lp_arena).view()[i] by {
                        if subtree(g, input_left.0 as int).contains(i) {
                            assert(touched(g, logical_plan, i));
                        } else if subtree(g, input_right.0 as int).contains(i) {
                            assert(touched(g, logical_plan, i));
                        } else {
                            assert(a_before_left[i] == old(lp_arena).view()[i]);
                            assert(a_pre[i] == a_before_left[i]);
                        }
                    }
                    assert(a_pre[input_left.0 as int] is Some) by {
                        assert(!subtree(g, input_right.0 as int).contains(input_left.0 as int));
                    }
                    assert(a_pre[input_right.0 as int] is Some);
                    assert forall|k: int|
                        0 <= k < crate::alp::exprs_of(join_value).len() implies (
                    #[trigger] crate::alp::exprs_of(join_value)[k]).0 < expr_arena.view().len()
                        && expr_arena.view()[crate::alp::exprs_of(join_value)[k].0 as int]
                        is Some by {
                        assert(crate::alp::exprs_of(logical_plan)[k] == crate::alp::exprs_of(
                            join_value,
                        )[k]);
                        assert(crate::alp::exprs_of(logical_plan)[k].0 < old(
                            expr_arena,
                        ).view().len());
                    }
                }
                res
            }
        }
    }

    /// /// Pushes the accumulated demand into the sub-plan at `input` and puts
    /// the rewritten operator back into its slot.  Returns the rewritten
    /// sub-plan's output schema.
    #[verifier::rlimit(50)]
    fn pushdown_and_assign(
        &self,
        input: Node,
        acc_projections: Vec<Node>,
        names: NameSet,
        projections_seen: usize,
        lp_arena: &mut Arena<ALogicalPlan>,
        expr_arena: &mut Arena<AExpr>,
        Ghost(g): Ghost<Seq<Option<ALogicalPlan>>>,
    ) -> (r: Result<Schema, PlanError>)
        requires
            snapshot_ok(g, old(expr_arena).view()),
            expr_wf(old(expr_arena).view()),
            expr_nodes_ok(old(expr_arena).view(), acc_projections@),
            names.distinct(),
            input.0 < g.len(),
            g[input.0 as int] is Some,
            subtree_intact(old(lp_arena).view(), g, input.0 as int),
        ensures
            expr_wf(final (expr_arena).view()),
            final (expr_arena).view().len() >= old(expr_arena).view().len(),
            forall|i: int|
                0 <= i < old(expr_arena).view().len() ==> final (expr_arena).view()[i] == old(
                    expr_arena,
                ).view()[i],
            final (lp_arena).view().len() >= old(lp_arena).view().len(),
            match r {
                Ok(_) => {
                    &&& forall|i: int|
                        0 <= i < old(lp_arena).view().len() && !subtree(
                            g,
                            input.0 as int,
                        ).contains(i) ==> final (lp_arena).view()[i] == old(lp_arena).view()[i]
                    &&& final (lp_arena).view()[input.0 as int] is Some
                    &&& crate::alp::plan_inputs_ok(
                        final (lp_arena).view(),
                        final (lp_arena).view()[input.0 as int]->Some_0,
                    )
                    &&& plan_exprs_ok(
                        final (expr_arena).view(),
                        final (lp_arena).view()[input.0 as int]->Some_0,
                    )
                    &&& (plain_chain_at(g, input.0 as int) ==> Some(
                        r->Ok_0.spec_fields(),
                    ) == spec_schema_of(g, input.0 as int))
                    &&& match g[input.0 as int]->Some_0 {
                        ALogicalPlan::Selection { .. }
                        | ALogicalPlan::Sort { .. }
                        | ALogicalPlan::Explode { .. }
                        | ALogicalPlan::Cache { .. }
                        | ALogicalPlan::Distinct { .. }
                        | ALogicalPlan::Udf { .. }
                        | ALogicalPlan::Slice { .. } => final (lp_arena).view()[input.0 as int]
                            == g[input.0 as int],
                        ALogicalPlan::CsvScan { .. } | ALogicalPlan::ParquetScan { .. } => crate::agg_scan::scan_rebuilt(
                            final (lp_arena).view()[input.0 as int]->Some_0,
                            g[input.0 as int]->Some_0,
                            scan_columns(old(expr_arena).view(), acc_projections@),
                        ),
                        ALogicalPlan::DataFrameScan { schema, selection, .. } => final (
                        lp_arena).view()[input.0 as int]->Some_0 matches ALogicalPlan::DataFrameScan {
                            schema: s2,
                            projection: pr2,
                            selection: sel2,
                        } && s2 == schema && sel2 == selection && (if acc_projections@.len()
                            == 0 {
                            pr2 is None
                        } else {
                            pr2 matches Some(v) && v@ == acc_projections@
                        }),
                        _ => true,
                    }
                    &&& forall|k: int|
                        0 <= k < inputs_of(
                            final (lp_arena).view()[input.0 as int]->Some_0,
                        ).len() ==> (#[trigger] inputs_of(
                            final (lp_arena).view()[input.0 as int]->Some_0,
                        )[k]).0 >= old(lp_arena).view().len() || (subtree(
                            g,
                            input.0 as int,
                        ).contains(
                            inputs_of(final (lp_arena).view()[input.0 as int]->Some_0)[k].0 as int,
                        ) && inputs_of(final (lp_arena).view()[input.0 as int]->Some_0)[k].0
                            < input.0)
                },
                Err(e) => e is FieldNotFound || e is InvalidOperation || e is ShapeMismatch,
            },
            plain_chain_at(g, input.0 as int) ==> r is Ok,
        decreases input.0, 2int,
    {
        proof {
            lemma_subtree(g, input.0 as int);
            assert(subtree(g, input.0 as int).contains(input.0 as int));
            assert(plan_slot_ok(g, input.0 as int));
        }
        let alp = lp_arena.take(input);
        let ghost a_taken = lp_arena.view();
        proof {
            let child = g[input.0 as int]->Some_0;
            assert forall|k: int| 0 <= k < inputs_of(child).len() implies {
                let m = (#[trigger] inputs_of(child)[k]).0 as int;
                &&& inputs_of(child)[k].0 < g.len()
                &&& g[m] is Some
                &&& subtree_intact(a_taken, g, m)
            } by {
                let m = inputs_of(child)[k].0 as int;
                assert(inputs_of(child)[k].0 < input.0);
                lemma_subtree(g, m);
                assert(subtree(g, m).subset_of(subtree(g, input.0 as int)));
                assert forall|j: int| subtree(g, m).contains(j) implies 0 <= j < a_taken.len()
                    && a_taken[j] == g[j] by {
                    assert(subtree(g, input.0 as int).contains(j));
                    assert(0 <= j <= m);
                    assert(j != input.0 as int);
                }
            }
            if inputs_of(child).len() == 2 {
                assert(tree_ok(g));
            }
            assert(plan_exprs_ok(old(expr_arena).view(), child));
            assert(crate::alp::input_bound(child) <= input.0) by {
                if inputs_of(child).len() == 2 {
                    assert(inputs_of(child)[0].0 < input.0);
                    assert(inputs_of(child)[1].0 < input.0);
                } else if inputs_of(child).len() == 1 {
                    assert(inputs_of(child)[0].0 < input.0);
                }
            }
            if plain_chain_at(g, input.0 as int) {
                assert(plain_chain(g, child, input.0 as int));
                lemma_plain_chain_bound(g, child, input.0 as int, g.len() as int);
            }
        }
        let result = self.push_down(
            alp,
            acc_projections,
            names,
            projections_seen,
            lp_arena,
            expr_arena,
            Ghost(g),
        );
        match result {
            Ok((lp2, sch)) => {
                lp_arena.replace(input, lp2);
                proof {
                    let child = g[input.0 as int]->Some_0;
                    assert forall|i: int|
                        0 <= i < old(lp_arena).view().len() && !subtree(
                            g,
                            input.0 as int,
                        ).contains(i) implies lp_arena.view()[i] == old(lp_arena).view()[i] by {
                        assert(i != input.0 as int);
                        assert forall|k: int|
                            0 <= k < inputs_of(child).len() implies !subtree(
                            g,
                            (#[trigger] inputs_of(child)[k]).0 as int,
                        ).contains(i) by {
                            lemma_subtree(g, inputs_of(child)[k].0 as int);
                            assert(inputs_of(child)[k].0 < input.0);
                            if subtree(g, inputs_of(child)[k].0 as int).contains(i) {
                                assert(subtree(g, input.0 as int).contains(i));
                            }
                        }
                        assert(!touched(g, child, i));
                    }
                    if plain_chain_at(g, input.0 as int) {
                        let child2 = g[input.0 as int]->Some_0;
                        assert(plain_chain(g, child2, input.0 as int));
                        assert forall|k: int|
                            0 <= k < inputs_of(child2).len() implies (#[trigger] inputs_of(
                            child2,
                        )[k]).0 < input.0 by {}
                        lemma_plain_chain_bound(g, child2, input.0 as int, g.len() as int);
                        crate::alp::lemma_schema_of_plan_bound(
                            g,
                            child2,
                            input.0 as int,
                            g.len() as int,
                        );
                    }
                    assert forall|k: int|
                        0 <= k < inputs_of(lp2).len() implies (#[trigger] inputs_of(lp2)[k]).0
                        >= a_taken.len() || (subtree(g, input.0 as int).contains(
                        inputs_of(lp2)[k].0 as int,
                    ) && inputs_of(lp2)[k].0 < input.0) by {
                        let h = inputs_of(lp2)[k].0 as int;
                        if inputs_of(lp2)[k].0 < a_taken.len() {
                            assert(touched(g, child, h));
                            let kk = choose|kk: int|
                                0 <= kk < inputs_of(child).len() && subtree(
                                    g,
                                    (#[trigger] inputs_of(child)[kk]).0 as int,
                                ).contains(h);
                            lemma_subtree(g, inputs_of(child)[kk].0 as int);
                            assert(h <= inputs_of(child)[kk].0 < input.0);
                            assert(subtree(g, inputs_of(child)[kk].0 as int).subset_of(
                                subtree(g, input.0 as int),
                            ));
                        }
                    }
                }
                Ok(sch)
            }
            Err(e) => Err(e),
        }
    }
}


impl ProjectionPushDown {
    /// Runs projection pushdown over the whole plan: one top-down
    /// traversal starting with nothing accumulated.  The plan value is the
    /// root operator; its inputs point into `lp_arena`, which must hold
    /// the plan as lowered from the front end (inputs strictly below their
    /// operator, sibling subtrees disjoint).  On success the rewritten
    /// root operator is returned; scans reachable from it now request
    /// exactly the columns the plan demands of them.
    pub fn optimize(
        &self,
        logical_plan: ALogicalPlan,
        lp_arena: &mut Arena<ALogicalPlan>,
        expr_arena: &mut Arena<AExpr>,
    ) -> (r: Result<ALogicalPlan, PlanError>)
        requires
            snapshot_ok(old(lp_arena).view(), old(expr_arena).view()),
            expr_wf(old(expr_arena).view()),
            plan_exprs_ok(old(expr_arena).view(), logical_plan),
            logical_plan matches ALogicalPlan::Join { right_on, .. } ==> join_keys_ok(
                old(expr_arena).view(),
                right_on@,
            ),
            crate::alp::plan_inputs_ok(old(lp_arena).view(), logical_plan),
            inputs_of(logical_plan).len() == 2 ==> inputs_of(logical_plan)[0] != inputs_of(
                logical_plan,
            )[1] && subtree(old(lp_arena).view(), inputs_of(logical_plan)[0].0 as int).disjoint(
                subtree(old(lp_arena).view(), inputs_of(logical_plan)[1].0 as int),
            ),
        ensures
            expr_wf(final (expr_arena).view()),
            final (expr_arena).view().len() >= old(expr_arena).view().len(),
            forall|i: int|
                0 <= i < old(expr_arena).view().len() ==> final (expr_arena).view()[i] == old(
                    expr_arena,
                ).view()[i],
            final (lp_arena).view().len() >= old(lp_arena).view().len(),
            match r {
                Ok(p2) => {
                    &&& crate::alp::plan_inputs_ok(final (lp_arena).view(), p2)
                    &&& plan_exprs_ok(final (expr_arena).view(), p2)
                    &&& match logical_plan {
                        ALogicalPlan::Selection { .. }
                        | ALogicalPlan::Sort { .. }
                        | ALogicalPlan::Explode { .. }
                        | ALogicalPlan::Cache { .. }
                        | ALogicalPlan::Distinct { .. }
                        | ALogicalPlan::Udf { .. }
                        | ALogicalPlan::Slice { .. } => p2 == logical_plan,
                        ALogicalPlan::CsvScan { .. } | ALogicalPlan::ParquetScan { .. } => crate::agg_scan::scan_rebuilt(
                            p2,
                            logical_plan,
                            None,
                        ),
                        ALogicalPlan::DataFrameScan { schema, selection, .. } => p2 matches
                            ALogicalPlan::DataFrameScan {
                            schema: s2,
                            projection: pr2,
                            selection: sel2,
                        } && s2 == schema && sel2 == selection && pr2 is None,
                        _ => true,
                    }
                },
                Err(e) => e is FieldNotFound || e is InvalidOperation || e is ShapeMismatch,
            },
            plain_chain(
                old(lp_arena).view(),
                logical_plan,
                old(lp_arena).view().len() as int,
            ) ==> r is Ok,
            (logical_plan matches ALogicalPlan::Projection { input, .. } && plain_chain_at(
                old(lp_arena).view(),
                input.0 as int,
            )) ==> r is Ok,
    {
        let ghost g = lp_arena.view();
        proof {
            assert forall|k: int| 0 <= k < inputs_of(logical_plan).len() implies (
            #[trigger] inputs_of(logical_plan)[k]).0 < g.len() && g[inputs_of(
                logical_plan,
            )[k].0 as int] is Some && subtree_intact(
                lp_arena.view(),
                g,
                inputs_of(logical_plan)[k].0 as int,
            ) by {
                assert(crate::alp::plan_node_ok(g, inputs_of(logical_plan)[k]));
                lemma_subtree(g, inputs_of(logical_plan)[k].0 as int);
            }
        }
        let acc_projections: Vec<Node> = Vec::new();
        let names = NameSet::new();
        let res = self.push_down(
            logical_plan,
            acc_projections,
            names,
            0,
            lp_arena,
            expr_arena,
            Ghost(g),
        );
        match res {
            Ok((lp2, _schema)) => Ok(lp2),
            Err(e) => Err(e),
        }
    }
}

} // verus!
