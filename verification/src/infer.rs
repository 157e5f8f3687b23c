//! Schema computation for plan construction.
//!
//! Every plan-building step resolves the result type of its expressions
//! against the current input schema.  The functions here do that work; the
//! fluent [`crate::builder::ALogicalPlanBuilder`] and the pushdown
//! optimizer both build on them.

use vstd::prelude::*;

use crate::aexpr::expr_node_ok;
use crate::aexpr::expr_wf;
use crate::aexpr::spec_to_field;
use crate::aexpr::to_field;
use crate::aexpr::AExpr;
use crate::arena::Arena;
use crate::arena::Node;
use crate::error::PlanError;
use crate::schema::DataType;
use crate::schema::Field;
use crate::schema::Schema;

verus! {

use vstd::string::StringExecFns;

/// The (name, type) pairs of a field list, in order.
pub open spec fn abs_fields(s: Seq<Field>) -> Seq<(Seq<char>, DataType)> {
    Seq::new(s.len(), |i: int| (s[i].name@, s[i].dtype))
}

/// Whether every expression of `exprs` resolves to a field against `s`.
pub open spec fn all_exprs_typed(e: Seq<Option<AExpr>>, s: Seq<Field>, exprs: Seq<Node>) -> bool {
    forall|j: int|
        0 <= j < exprs.len() ==> spec_to_field(e, s, (#[trigger] exprs[j]).0 as int) is Some
}

/// The fields the expressions of `exprs` resolve to against `s`.
pub open spec fn projected_fields(e: Seq<Option<AExpr>>, s: Seq<Field>, exprs: Seq<Node>) -> Seq<
    (Seq<char>, DataType),
> {
    Seq::new(exprs.len(), |j: int| spec_to_field(e, s, exprs[j].0 as int)->Some_0)
}

/// All expression handles of `exprs` point at present slots of `e`.
pub open spec fn expr_nodes_ok(e: Seq<Option<AExpr>>, exprs: Seq<Node>) -> bool {
    forall|j: int| 0 <= j < exprs.len() ==> expr_node_ok(e, #[trigger] exprs[j])
}

/// Resolves every expression of `exprs` against `input_schema` and builds
/// the schema of their output fields, in expression order.  Fails exactly
/// when some expression does not resolve, with that expression's error.
pub fn exprs_to_schema(
    exprs: &Vec<Node>,
    input_schema: &Schema,
    expr_arena: &Arena<AExpr>,
) -> (r: Result<Schema, PlanError>)
    requires
        expr_wf(expr_arena.view()),
        expr_nodes_ok(expr_arena.view(), exprs@),
    ensures
        match r {
            Ok(s2) => all_exprs_typed(expr_arena.view(), input_schema.spec_fields(), exprs@) && abs_fields(s2.spec_fields())
                == projected_fields(expr_arena.view(), input_schema.spec_fields(), exprs@),
            Err(e) => !all_exprs_typed(expr_arena.view(), input_schema.spec_fields(), exprs@) && (e
                is FieldNotFound || e is InvalidOperation) && (e matches PlanError::FieldNotFound(
                nm,
            ) ==> crate::schema::fields_lookup(input_schema.spec_fields(), nm@) is None),
        },
{
    let n = exprs.len();
    let mut out: Vec<Field> = Vec::new();
    let mut j: usize = 0;
    while j < n
        invariant
            j <= n,
            n == exprs@.len(),
            expr_wf(expr_arena.view()),
            expr_nodes_ok(expr_arena.view(), exprs@),
            out@.len() == j,
            forall|k: int|
                0 <= k < j ==> spec_to_field(expr_arena.view(), input_schema.spec_fields(), (
                #[trigger] exprs@[k]).0 as int) == Some((out@[k].name@, out@[k].dtype)),
        decreases n - j,
    {
        proof {
            assert(expr_node_ok(expr_arena.view(), exprs@[j as int]));
        }
        match to_field(expr_arena, exprs[j], input_schema) {
            Ok(f) => out.push(f),
            Err(er) => {
                return Err(er);
            }
        }
        j += 1;
    }
    let s2 = Schema::new(out);
    proof {
        assert(abs_fields(s2.spec_fields()) =~= projected_fields(expr_arena.view(), input_schema.spec_fields(), exprs@));
    }
    Ok(s2)
}

/// Whether `name` occurs in the name list `vars`.
pub open spec fn name_listed(vars: Seq<String>, name: Seq<char>) -> bool {
    exists|i: int| 0 <= i < vars.len() && vars[i]@ == name
}

pub fn contains_name(vars: &Vec<String>, name: &String) -> (r: bool)
    ensures
        r == name_listed(vars@, name@),
{
    let n = vars.len();
    let mut i: usize = 0;
    while i < n
        invariant
            i <= n,
            n == vars@.len(),
            forall|j: int| 0 <= j < i ==> vars@[j]@ != name@,
        decreases n - i,
    {
        if vars[i].eq(name) {
            return true;
        }
        i += 1;
    }
    false
}

/// The fields of `s` that are not listed as value variables, from index `i`
/// on, in order.
pub open spec fn melt_kept_fields(s: Seq<Field>, value_vars: Seq<String>, i: int) -> Seq<
    (Seq<char>, DataType),
>
    decreases s.len() - i,
{
    if i < 0 || i >= s.len() {
        Seq::empty()
    } else {
        (if name_listed(value_vars, s[i].name@) {
            Seq::empty()
        } else {
            seq![abs_fields(s)[i]]
        }) + melt_kept_fields(s, value_vars, i + 1)
    }
}

/// The type of the melted `value` column: the type of the first value
/// variable where it resolves, `Utf8` otherwise.
pub open spec fn melt_value_dtype(s: Seq<Field>, value_vars: Seq<String>) -> DataType {
    if value_vars.len() > 0 {
        match crate::schema::fields_lookup(s, value_vars[0]@) {
            Some(dt) => dt,
            None => DataType::Utf8,
        }
    } else {
        DataType::Utf8
    }
}

/// The schema of a melt of `input_schema` over `value_vars`: the fields
/// not melted away, then a `variable` name column and a `value` column.
pub fn det_melt_schema(value_vars: &Vec<String>, input_schema: &Schema) -> (r: Schema)
    ensures
        abs_fields(r.spec_fields()) == melt_kept_fields(input_schema.spec_fields(), value_vars@, 0) + seq![
            ("variable"@, DataType::Utf8),
            ("value"@, melt_value_dtype(input_schema.spec_fields(), value_vars@)),
        ],
{
    let n = input_schema.len();
    let mut out: Vec<Field> = Vec::new();
    let mut i: usize = 0;
    while i < n
        invariant
            i <= n,
            n == input_schema.spec_fields().len(),
            Seq::new(out@.len(), |k: int| (out@[k].name@, out@[k].dtype)) + melt_kept_fields(
                input_schema.spec_fields(),
                value_vars@,
                i as int,
            ) == melt_kept_fields(input_schema.spec_fields(), value_vars@, 0),
        decreases n - i,
    {
        let f = &input_schema.fields()[i];
        let ghost before = Seq::new(out@.len(), |k: int| (out@[k].name@, out@[k].dtype));
        if !contains_name(value_vars, &f.name) {
            out.push(f.clone());
            proof {
                assert(Seq::new(out@.len(), |k: int| (out@[k].name@, out@[k].dtype)) =~= before
                    + seq![abs_fields(input_schema.spec_fields())[i as int]]);
            }
        }
        proof {
            assert(melt_kept_fields(input_schema.spec_fields(), value_vars@, i as int) == (if name_listed(
                value_vars@,
                input_schema.spec_fields()[i as int].name@,
            ) {
                Seq::<(Seq<char>, DataType)>::empty()
            } else {
                seq![abs_fields(input_schema.spec_fields())[i as int]]
            }) + melt_kept_fields(input_schema.spec_fields(), value_vars@, i + 1));
            assert(Seq::new(out@.len(), |k: int| (out@[k].name@, out@[k].dtype))
                + melt_kept_fields(input_schema.spec_fields(), value_vars@, i + 1) =~= melt_kept_fields(
                input_schema.spec_fields(),
                value_vars@,
                0,
            ));
        }
        i += 1;
    }
    let value_dtype = if value_vars.len() > 0 {
        match input_schema.field_with_name(&value_vars[0]) {
            Some(f) => {
                proof {
                    crate::schema::lemma_first_with_name(
                        input_schema.spec_fields(),
                        value_vars@[0]@,
                        0,
                    );
                }
                f.data_type()
            }
            None => DataType::Utf8,
        }
    } else {
        DataType::Utf8
    };
    out.push(Field::new("variable", DataType::Utf8));
    out.push(Field::new("value", value_dtype));
    let r = Schema::new(out);
    proof {
        assert(abs_fields(r.spec_fields()) =~= melt_kept_fields(input_schema.spec_fields(), value_vars@, 0) + seq![
            ("variable"@, DataType::Utf8),
            ("value"@, melt_value_dtype(input_schema.spec_fields(), value_vars@)),
        ]);
    }
    r
}

/// The fields of a horizontal stack from index `j` on: each expression's
/// field either replaces the first field of the same name or is appended.
/// The fold carries the (name, type) pairs accumulated so far.
pub open spec fn hstack_pairs(
    e: Seq<Option<AExpr>>,
    s: Seq<Field>,
    acc: Seq<(Seq<char>, DataType)>,
    exprs: Seq<Node>,
    j: int,
) -> Seq<(Seq<char>, DataType)>
    decreases exprs.len() - j,
{
    if j < 0 || j >= exprs.len() {
        acc
    } else {
        let f = spec_to_field(e, s, exprs[j].0 as int)->Some_0;
        let acc2 = match first_pair_idx(acc, f.0, 0) {
            Some(i) => acc.update(i, f),
            None => acc.push(f),
        };
        hstack_pairs(e, s, acc2, exprs, j + 1)
    }
}

/// The first index at or after `i` of a pair carrying `name`.
pub open spec fn first_pair_idx(
    ps: Seq<(Seq<char>, DataType)>,
    name: Seq<char>,
    i: int,
) -> Option<int>
    decreases ps.len() - i,
{
    if i < 0 || i >= ps.len() {
        None
    } else if ps[i].0 == name {
        Some(i)
    } else {
        first_pair_idx(ps, name, i + 1)
    }
}

/// Builds the schema of a horizontal stack: the input schema's fields,
/// with each expression's field replacing its namesake or appended.
/// Fails exactly when some expression does not resolve.
pub fn hstack_schema(
    exprs: &Vec<Node>,
    input_schema: &Schema,
    expr_arena: &Arena<AExpr>,
) -> (r: Result<Schema, PlanError>)
    requires
        expr_wf(expr_arena.view()),
        expr_nodes_ok(expr_arena.view(), exprs@),
    ensures
        match r {
            Ok(s2) => all_exprs_typed(expr_arena.view(), input_schema.spec_fields(), exprs@) && abs_fields(s2.spec_fields())
                == hstack_pairs(
                expr_arena.view(),
                input_schema.spec_fields(),
                abs_fields(input_schema.spec_fields()),
                exprs@,
                0,
            ),
            Err(e) => !all_exprs_typed(expr_arena.view(), input_schema.spec_fields(), exprs@) && (e
                is FieldNotFound || e is InvalidOperation),
        },
{
    let mut out: Vec<Field> = clone_fields(input_schema.fields());
    proof {
        assert(Seq::new(out@.len(), |k: int| (out@[k].name@, out@[k].dtype)) =~= abs_fields(
            input_schema.spec_fields(),
        ));
    }
    let n = exprs.len();
    let mut j: usize = 0;
    while j < n
        invariant
            j <= n,
            n == exprs@.len(),
            expr_wf(expr_arena.view()),
            expr_nodes_ok(expr_arena.view(), exprs@),
            forall|k: int|
                0 <= k < j ==> spec_to_field(expr_arena.view(), input_schema.spec_fields(), (
                #[trigger] exprs@[k]).0 as int) is Some,
            hstack_pairs(
                expr_arena.view(),
                input_schema.spec_fields(),
                Seq::new(out@.len(), |k: int| (out@[k].name@, out@[k].dtype)),
                exprs@,
                j as int,
            ) == hstack_pairs(
                expr_arena.view(),
                input_schema.spec_fields(),
                abs_fields(input_schema.spec_fields()),
                exprs@,
                0,
            ),
        decreases n - j,
    {
        proof {
            assert(expr_node_ok(expr_arena.view(), exprs@[j as int]));
        }
        let ghost acc = Seq::new(out@.len(), |k: int| (out@[k].name@, out@[k].dtype));
        let f = match to_field(expr_arena, exprs[j], input_schema) {
            Ok(f) => f,
            Err(er) => {
                return Err(er);
            }
        };
        match index_of_pair(&out, &f.name) {
            Some(i) => {
                out.set(i, f);
                proof {
                    assert(Seq::new(out@.len(), |k: int| (out@[k].name@, out@[k].dtype))
                        =~= acc.update(i as int, spec_to_field(
                        expr_arena.view(),
                        input_schema.spec_fields(),
                        exprs@[j as int].0 as int,
                    )->Some_0));
                }
            }
            None => {
                out.push(f);
                proof {
                    assert(Seq::new(out@.len(), |k: int| (out@[k].name@, out@[k].dtype))
                        =~= acc.push(spec_to_field(
                        expr_arena.view(),
                        input_schema.spec_fields(),
                        exprs@[j as int].0 as int,
                    )->Some_0));
                }
            }
        }
        j += 1;
    }
    let s2 = Schema::new(out);
    proof {
        assert(abs_fields(s2.spec_fields()) =~= Seq::new(
            s2.spec_fields().len(),
            |k: int| (s2.spec_fields()[k].name@, s2.spec_fields()[k].dtype),
        ));
    }
    Ok(s2)
}

/// The first index of a field named `name` in `fields`, by the pair view.
fn index_of_pair(fields: &Vec<Field>, name: &String) -> (r: Option<usize>)
    ensures
        match r {
            Some(i) => first_pair_idx(
                Seq::new(fields@.len(), |k: int| (fields@[k].name@, fields@[k].dtype)),
                name@,
                0,
            ) == Some(i as int) && i < fields@.len(),
            None => first_pair_idx(
                Seq::new(fields@.len(), |k: int| (fields@[k].name@, fields@[k].dtype)),
                name@,
                0,
            ) is None,
        },
{
    let n = fields.len();
    let ghost ps = Seq::new(fields@.len(), |k: int| (fields@[k].name@, fields@[k].dtype));
    let mut i: usize = 0;
    while i < n
        invariant
            i <= n,
            n == fields@.len(),
            ps == Seq::new(fields@.len(), |k: int| (fields@[k].name@, fields@[k].dtype)),
            first_pair_idx(ps, name@, 0) == first_pair_idx(ps, name@, i as int),
        decreases n - i,
    {
        if fields[i].name.eq(name) {
            return Some(i);
        }
        i += 1;
    }
    None
}

/// Merging one (name, type) pair into an accumulated pair list: a fresh
/// name is appended, a repeated name must carry the same type, and a
/// repeated name with a different type refuses the merge.
pub open spec fn merge_pair(
    acc: Seq<(Seq<char>, DataType)>,
    p: (Seq<char>, DataType),
) -> Option<Seq<(Seq<char>, DataType)>> {
    match first_pair_idx(acc, p.0, 0) {
        None => Some(acc.push(p)),
        Some(i) => if acc[i].1 == p.1 {
            Some(acc)
        } else {
            None
        },
    }
}

/// Folds [`merge_pair`] over `ps` from index `j` on.
pub open spec fn merge_pairs(
    acc: Seq<(Seq<char>, DataType)>,
    ps: Seq<(Seq<char>, DataType)>,
    j: int,
) -> Option<Seq<(Seq<char>, DataType)>>
    decreases ps.len() - j,
{
    if j < 0 || j >= ps.len() {
        Some(acc)
    } else {
        match merge_pair(acc, ps[j]) {
            None => None,
            Some(a) => merge_pairs(a, ps, j + 1),
        }
    }
}

/// Merges the fields of `fs` into `acc`, pair by pair.
fn merge_fields_into(acc: &mut Vec<Field>, fs: &Vec<Field>) -> (r: Result<(), PlanError>)
    ensures
        match r {
            Ok(()) => merge_pairs(
                Seq::new(old(acc)@.len(), |k: int| (old(acc)@[k].name@, old(acc)@[k].dtype)),
                Seq::new(fs@.len(), |k: int| (fs@[k].name@, fs@[k].dtype)),
                0,
            ) == Some(Seq::new(final (acc)@.len(), |k: int| (final (acc)@[k].name@, final (acc)@[k].dtype))),
            Err(e) => merge_pairs(
                Seq::new(old(acc)@.len(), |k: int| (old(acc)@[k].name@, old(acc)@[k].dtype)),
                Seq::new(fs@.len(), |k: int| (fs@[k].name@, fs@[k].dtype)),
                0,
            ) is None && e is ShapeMismatch,
        },
{
    let ghost ps = Seq::new(fs@.len(), |k: int| (fs@[k].name@, fs@[k].dtype));
    let n = fs.len();
    let mut j: usize = 0;
    while j < n
        invariant
            j <= n,
            n == fs@.len(),
            ps == Seq::new(fs@.len(), |k: int| (fs@[k].name@, fs@[k].dtype)),
            merge_pairs(
                Seq::new(acc@.len(), |k: int| (acc@[k].name@, acc@[k].dtype)),
                ps,
                j as int,
            ) == merge_pairs(
                Seq::new(old(acc)@.len(), |k: int| (old(acc)@[k].name@, old(acc)@[k].dtype)),
                ps,
                0,
            ),
        decreases n - j,
    {
        let ghost before = Seq::new(acc@.len(), |k: int| (acc@[k].name@, acc@[k].dtype));
        let f = &fs[j];
        proof {
            assert(ps[j as int] == (f.name@, f.dtype));
        }
        match index_of_pair(acc, &f.name) {
            Some(i) => {
                if !(acc[i].data_type() == f.data_type()) {
                    proof {
                        assert(merge_pair(before, ps[j as int]) is None);
                    }
                    return Err(
                        PlanError::ShapeMismatch(
                            String::from_str("cannot merge fields of one name but two types"),
                        ),
                    );
                }
                proof {
                    assert(merge_pair(before, ps[j as int]) == Some(before));
                }
            }
            None => {
                acc.push(f.clone());
                proof {
                    assert(Seq::new(acc@.len(), |k: int| (acc@[k].name@, acc@[k].dtype))
                        =~= before.push(ps[j as int]));
                    assert(merge_pair(before, ps[j as int]) == Some(before.push(ps[j as int])));
                }
            }
        }
        j += 1;
    }
    Ok(())
}

/// Builds the schema of an aggregation: the key fields merged with the
/// aggregation output fields, erring on a name carried with two types.
pub fn groupby_schema(
    keys: &Vec<Node>,
    aggs: &Vec<Node>,
    input_schema: &Schema,
    expr_arena: &Arena<AExpr>,
) -> (r: Result<Schema, PlanError>)
    requires
        expr_wf(expr_arena.view()),
        expr_nodes_ok(expr_arena.view(), keys@),
        expr_nodes_ok(expr_arena.view(), aggs@),
    ensures
        match r {
            Ok(s2) => {
                &&& all_exprs_typed(expr_arena.view(), input_schema.spec_fields(), keys@)
                &&& all_exprs_typed(expr_arena.view(), input_schema.spec_fields(), aggs@)
                &&& match merge_pairs(
                    Seq::empty(),
                    projected_fields(expr_arena.view(), input_schema.spec_fields(), keys@),
                    0,
                ) {
                    Some(a1) => merge_pairs(
                        a1,
                        projected_fields(expr_arena.view(), input_schema.spec_fields(), aggs@),
                        0,
                    ) == Some(abs_fields(s2.spec_fields())),
                    None => false,
                }
            },
            Err(e) => (e is FieldNotFound || e is InvalidOperation || e is ShapeMismatch) && !({
                &&& all_exprs_typed(expr_arena.view(), input_schema.spec_fields(), keys@)
                &&& all_exprs_typed(expr_arena.view(), input_schema.spec_fields(), aggs@)
                &&& (merge_pairs(
                    Seq::empty(),
                    projected_fields(expr_arena.view(), input_schema.spec_fields(), keys@),
                    0,
                ) matches Some(a1) && merge_pairs(
                    a1,
                    projected_fields(expr_arena.view(), input_schema.spec_fields(), aggs@),
                    0,
                ) is Some)
            }),
        },
{
    let ks = match exprs_to_schema(keys, input_schema, expr_arena) {
        Ok(s) => s,
        Err(e) => {
            return Err(e);
        }
    };
    let ags = match exprs_to_schema(aggs, input_schema, expr_arena) {
        Ok(s) => s,
        Err(e) => {
            return Err(e);
        }
    };
    let mut out: Vec<Field> = Vec::new();
    proof {
        assert(Seq::new(out@.len(), |k: int| (out@[k].name@, out@[k].dtype)) =~= Seq::<
            (Seq<char>, DataType),
        >::empty());
        assert(Seq::new(
            ks.spec_fields().len(),
            |k: int| (ks.spec_fields()[k].name@, ks.spec_fields()[k].dtype),
        ) =~= abs_fields(ks.spec_fields()));
    }
    match merge_fields_into(&mut out, ks.fields()) {
        Ok(()) => {}
        Err(e) => {
            return Err(e);
        }
    }
    proof {
        assert(Seq::new(
            ags.spec_fields().len(),
            |k: int| (ags.spec_fields()[k].name@, ags.spec_fields()[k].dtype),
        ) =~= abs_fields(ags.spec_fields()));
    }
    match merge_fields_into(&mut out, ags.fields()) {
        Ok(()) => {}
        Err(e) => {
            return Err(e);
        }
    }
    let s2 = Schema::new(out);
    proof {
        assert(abs_fields(s2.spec_fields()) =~= Seq::new(
            s2.spec_fields().len(),
            |k: int| (s2.spec_fields()[k].name@, s2.spec_fields()[k].dtype),
        ));
    }
    Ok(s2)
}

/// The column name a join key expression resolves to: the alias name of an
/// alias, the column name of a column reference.
pub open spec fn spec_key_name(e: Seq<Option<AExpr>>, n: Node) -> Option<Seq<char>> {
    if n.0 < e.len() {
        match e[n.0 as int] {
            Some(AExpr::Alias(_, name)) => Some(name@),
            Some(AExpr::Column(name)) => Some(name@),
            _ => None,
        }
    } else {
        None
    }
}

/// Every join key resolves to a column name or alias.  A key that does not
/// is a fatal construction error, not a recoverable condition.
pub open spec fn join_keys_ok(e: Seq<Option<AExpr>>, keys: Seq<Node>) -> bool {
    forall|j: int| 0 <= j < keys.len() ==> spec_key_name(e, #[trigger] keys[j]) is Some
}

/// The set of names the join keys resolve to.
pub open spec fn key_name_set(e: Seq<Option<AExpr>>, keys: Seq<Node>) -> Set<Seq<char>> {
    Set::new(|nm: Seq<char>| exists|j: int| 0 <= j < keys.len() && spec_key_name(e, keys[j]) == Some(nm))
}

/// Collects the names the join keys resolve to.
pub fn key_names(keys: &Vec<Node>, expr_arena: &Arena<AExpr>) -> (r: crate::names::NameSet)
    requires
        join_keys_ok(expr_arena.view(), keys@),
    ensures
        r.spec_names() == key_name_set(expr_arena.view(), keys@),
        r.distinct(),
{
    let mut out = crate::names::NameSet::new();
    let n = keys.len();
    let mut j: usize = 0;
    while j < n
        invariant
            j <= n,
            n == keys@.len(),
            join_keys_ok(expr_arena.view(), keys@),
            out.distinct(),
            forall|nm: Seq<char>|
                out.spec_names().contains(nm) == exists|k: int|
                    0 <= k < j && spec_key_name(expr_arena.view(), keys@[k]) == Some(nm),
        decreases n - j,
    {
        proof {
            assert(spec_key_name(expr_arena.view(), keys@[j as int]) is Some);
        }
        let node = keys[j];
        let name: String = match expr_arena.get(node) {
            AExpr::Alias(_, name) => name.clone(),
            AExpr::Column(name) => name.clone(),
            _ => {
                proof {
                    assert(false);
                }
                String::new()
            }
        };
        out.insert(name);
        j += 1;
    }
    proof {
        assert(out.spec_names() =~= key_name_set(expr_arena.view(), keys@));
    }
    out
}

/// The right-side fields a join keeps, from index `j` on: key columns are
/// dropped, a name colliding with the left side is suffixed `_right`, and
/// everything else is carried as is.
pub open spec fn join_right_pairs(
    sl: Seq<Field>,
    sr: Seq<Field>,
    rkeys: Set<Seq<char>>,
    j: int,
) -> Seq<(Seq<char>, DataType)>
    decreases sr.len() - j,
{
    if j < 0 || j >= sr.len() {
        Seq::empty()
    } else {
        (if rkeys.contains(sr[j].name@) {
            Seq::empty()
        } else if crate::schema::fields_have_name(sl, sr[j].name@) {
            seq![(sr[j].name@ + "_right"@, sr[j].dtype)]
        } else {
            seq![abs_fields(sr)[j]]
        }) + join_right_pairs(sl, sr, rkeys, j + 1)
    }
}

/// Builds the schema of a join: the left schema's fields, then the right
/// schema's fields that are not join keys, with colliding names suffixed
/// `_right`.
pub fn join_schema(
    schema_left: &Schema,
    schema_right: &Schema,
    right_names: &crate::names::NameSet,
) -> (r: Schema)
    ensures
        abs_fields(r.spec_fields()) == abs_fields(schema_left.spec_fields()) + join_right_pairs(
            schema_left.spec_fields(),
            schema_right.spec_fields(),
            right_names.spec_names(),
            0,
        ),
{
    let mut out: Vec<Field> = clone_fields(schema_left.fields());
    proof {
        assert(Seq::new(out@.len(), |k: int| (out@[k].name@, out@[k].dtype)) =~= abs_fields(
            schema_left.spec_fields(),
        ));
    }
    let n = schema_right.len();
    let mut j: usize = 0;
    while j < n
        invariant
            j <= n,
            n == schema_right.spec_fields().len(),
            Seq::new(out@.len(), |k: int| (out@[k].name@, out@[k].dtype)) + join_right_pairs(
                schema_left.spec_fields(),
                schema_right.spec_fields(),
                right_names.spec_names(),
                j as int,
            ) == abs_fields(schema_left.spec_fields()) + join_right_pairs(
                schema_left.spec_fields(),
                schema_right.spec_fields(),
                right_names.spec_names(),
                0,
            ),
        decreases n - j,
    {
        let ghost before = Seq::new(out@.len(), |k: int| (out@[k].name@, out@[k].dtype));
        let f = &schema_right.fields()[j];
        if right_names.contains(&f.name) {
        } else {
            match schema_left.index_of(&f.name) {
                Some(_) => {
                    let new_name = f.name.clone().concat("_right");
                    out.push(Field { name: new_name, dtype: f.data_type() });
                    proof {
                        assert(Seq::new(out@.len(), |k: int| (out@[k].name@, out@[k].dtype))
                            =~= before + seq![
                            (
                                schema_right.spec_fields()[j as int].name@ + "_right"@,
                                schema_right.spec_fields()[j as int].dtype,
                            ),
                        ]);
                    }
                }
                None => {
                    out.push(f.clone());
                    proof {
                        assert(Seq::new(out@.len(), |k: int| (out@[k].name@, out@[k].dtype))
                            =~= before + seq![abs_fields(schema_right.spec_fields())[j as int]]);
                    }
                }
            }
        }
        proof {
            assert(join_right_pairs(
                schema_left.spec_fields(),
                schema_right.spec_fields(),
                right_names.spec_names(),
                j as int,
            ) == (if right_names.spec_names().contains(
                schema_right.spec_fields()[j as int].name@,
            ) {
                Seq::<(Seq<char>, DataType)>::empty()
            } else if crate::schema::fields_have_name(
                schema_left.spec_fields(),
                schema_right.spec_fields()[j as int].name@,
            ) {
                seq![
                    (
                        schema_right.spec_fields()[j as int].name@ + "_right"@,
                        schema_right.spec_fields()[j as int].dtype,
                    ),
                ]
            } else {
                seq![abs_fields(schema_right.spec_fields())[j as int]]
            }) + join_right_pairs(
                schema_left.spec_fields(),
                schema_right.spec_fields(),
                right_names.spec_names(),
                j + 1,
            ));
            assert(Seq::new(out@.len(), |k: int| (out@[k].name@, out@[k].dtype))
                + join_right_pairs(
                schema_left.spec_fields(),
                schema_right.spec_fields(),
                right_names.spec_names(),
                j + 1,
            ) =~= abs_fields(schema_left.spec_fields()) + join_right_pairs(
                schema_left.spec_fields(),
                schema_right.spec_fields(),
                right_names.spec_names(),
                0,
            ));
        }
        j += 1;
    }
    let r = Schema::new(out);
    proof {
        assert(abs_fields(r.spec_fields()) =~= abs_fields(schema_left.spec_fields()) + join_right_pairs(
            schema_left.spec_fields(),
            schema_right.spec_fields(),
            right_names.spec_names(),
            0,
        ));
        assert(join_right_pairs(
            schema_left.spec_fields(),
            schema_right.spec_fields(),
            right_names.spec_names(),
            n as int,
        ) =~= Seq::<(Seq<char>, DataType)>::empty());
    }
    r
}

/// Clones a field vector.
pub fn clone_fields(src: &Vec<Field>) -> (r: Vec<Field>)
    ensures
        r@ == src@,
{
    let n = src.len();
    let mut out: Vec<Field> = Vec::new();
    let mut i: usize = 0;
    while i < n
        invariant
            i <= n,
            n == src@.len(),
            out@.len() == i,
            forall|j: int| 0 <= j < i ==> out@[j] == src@[j],
        decreases n - i,
    {
        out.push(src[i].clone());
        i += 1;
    }
    proof {
        assert(out@ =~= src@);
    }
    out
}

} // verus!
