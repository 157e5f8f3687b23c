use lazyplan::aexpr::AAggExpr;
use lazyplan::aexpr::AExpr;
use lazyplan::alp::ALogicalPlan;
use lazyplan::arena::Arena;
use lazyplan::builder::ALogicalPlanBuilder;
use lazyplan::chunked::UInt32Chunked;
use lazyplan::expr::Expr;
use lazyplan::expr::ExprIter;
use lazyplan::iterator::AExprIter;
use lazyplan::iterator::AlpIter;
use lazyplan::schema::DataType;
use lazyplan::schema::Field;
use lazyplan::schema::Schema;

fn df_scan(fields: Vec<Field>) -> ALogicalPlan {
    ALogicalPlan::DataFrameScan {
        schema: Schema::new(fields),
        projection: None,
        selection: None,
    }
}

/// A plan built as sort, then group-by over one key aggregating the key's
/// first value, holds exactly three operators, and the plan iterator
/// visits each of them exactly once, parents before their inputs.
#[test]
fn test_lp_iter() {
    let mut lp_arena: Arena<ALogicalPlan> = Arena::new();
    let mut expr_arena: Arena<AExpr> = Arena::new();

    let scan = lp_arena.add(df_scan(vec![Field::new("a", DataType::Int32)]));
    let sort = lp_arena.add(ALogicalPlan::Sort {
        input: scan,
        by_column: "a".to_string(),
        reverse: false,
    });
    let key = expr_arena.add(AExpr::Column("a".to_string()));
    let first_in = expr_arena.add(AExpr::Column("a".to_string()));
    let agg = expr_arena.add(AExpr::Agg(AAggExpr::First(first_in)));

    let builder = ALogicalPlanBuilder::new(sort, expr_arena, lp_arena);
    let builder = builder.groupby(vec![key], vec![agg], None);
    let (root, _expr_arena, lp_arena) = builder.into_parts();

    let mut iter = AlpIter::new(&lp_arena, root);
    let mut cnt = 0;
    while let Some(_pair) = iter.next() {
        cnt += 1;
    }
    assert_eq!(cnt, 3);
}

/// Every node of the three-operator plan is yielded exactly once, and the
/// root comes before its input, which comes before the scan.
#[test]
fn traversal_is_complete_and_ordered() {
    let mut lp_arena: Arena<ALogicalPlan> = Arena::new();
    let mut expr_arena: Arena<AExpr> = Arena::new();

    let scan = lp_arena.add(df_scan(vec![Field::new("k", DataType::Int64)]));
    let sort = lp_arena.add(ALogicalPlan::Sort {
        input: scan,
        by_column: "k".to_string(),
        reverse: false,
    });
    let key = expr_arena.add(AExpr::Column("k".to_string()));
    let first_in = expr_arena.add(AExpr::Column("k".to_string()));
    let agg = expr_arena.add(AExpr::Agg(AAggExpr::First(first_in)));
    let builder = ALogicalPlanBuilder::new(sort, expr_arena, lp_arena);
    let builder = builder.groupby(vec![key], vec![agg], None);
    let (root, _e, lp_arena) = builder.into_parts();

    let mut iter = AlpIter::new(&lp_arena, root);
    let mut visited = Vec::new();
    while let Some((node, _lp)) = iter.next() {
        visited.push(node.0);
    }
    assert_eq!(visited, vec![root.0, sort.0, scan.0]);
}

/// Appending one chunked column to another keeps all values, in order,
/// across the chunk boundary.
#[test]
fn out_of_bounds() {
    let mut a = UInt32Chunked::new_from_slice("a", &[1, 2, 3]);
    let b = UInt32Chunked::new_from_slice("a", &[1, 2, 3]);
    a.append(&b);

    let v = a.to_options();
    assert_eq!(vec![Some(1u32), Some(2), Some(3), Some(1), Some(2), Some(3)], v);
    assert_eq!(a.len(), 6);
}

/// The expression-tree iterator yields every node of an owned tree once:
/// the root first, then the children in stack order.
#[test]
fn expr_iter_walks_whole_tree() {
    let e = Expr::BinaryExpr {
        left: Box::new(Expr::Column("a".to_string())),
        op: lazyplan::aexpr::Operator::Plus,
        right: Box::new(Expr::Column("b".to_string())),
    };
    let mut it = ExprIter::new(&e);
    let mut seen = Vec::new();
    while let Some(sub) = it.next() {
        seen.push(match sub {
            Expr::BinaryExpr { .. } => "binary".to_string(),
            Expr::Column(n) => n.clone(),
            _ => "other".to_string(),
        });
    }
    assert_eq!(seen, vec!["binary".to_string(), "b".to_string(), "a".to_string()]);
}

/// The arena-expression iterator visits the sub-graph below a handle
/// exactly once per node.
#[test]
fn aexpr_iter_counts_nodes() {
    let mut expr_arena: Arena<AExpr> = Arena::new();
    let a = expr_arena.add(AExpr::Column("a".to_string()));
    let b = expr_arena.add(AExpr::Column("b".to_string()));
    let sum = expr_arena.add(AExpr::BinaryExpr {
        left: a,
        op: lazyplan::aexpr::Operator::Plus,
        right: b,
    });
    let mut it = AExprIter::new(&expr_arena, sum);
    let mut cnt = 0;
    while let Some(_x) = it.next() {
        cnt += 1;
    }
    assert_eq!(cnt, 3);
}

/// Taking a slot moves its operator out; replacing it puts one back.
#[test]
fn arena_take_and_replace() {
    let mut arena: Arena<ALogicalPlan> = Arena::new();
    let n = arena.add(df_scan(vec![Field::new("x", DataType::Utf8)]));
    let taken = arena.take(n);
    match &taken {
        ALogicalPlan::DataFrameScan { schema, .. } => {
            assert_eq!(schema.fields().len(), 1);
        }
        _ => panic!("expected the scan that was stored"),
    }
    arena.replace(n, taken);
    match arena.get(n) {
        ALogicalPlan::DataFrameScan { .. } => {}
        _ => panic!("expected the scan again"),
    }
}

/// The group-by builder merges key fields with aggregation output fields,
/// and the aggregation's type follows its kind.
#[test]
fn groupby_schema_merges_keys_and_aggs() {
    let mut lp_arena: Arena<ALogicalPlan> = Arena::new();
    let mut expr_arena: Arena<AExpr> = Arena::new();
    let scan = lp_arena.add(df_scan(vec![
        Field::new("k", DataType::Utf8),
        Field::new("v", DataType::Int64),
    ]));
    let key = expr_arena.add(AExpr::Column("k".to_string()));
    let v = expr_arena.add(AExpr::Column("v".to_string()));
    let mean = expr_arena.add(AExpr::Agg(AAggExpr::Mean(v)));
    let builder = ALogicalPlanBuilder::new(scan, expr_arena, lp_arena);
    let builder = builder.groupby(vec![key], vec![mean], None);
    let (root, _e, lp_arena) = builder.into_parts();
    match lp_arena.get(root) {
        ALogicalPlan::Aggregate { schema, .. } => {
            let fs = schema.fields();
            assert_eq!(fs.len(), 2);
            assert_eq!(fs[0].name(), "k");
            assert_eq!(fs[0].data_type(), DataType::Utf8);
            assert_eq!(fs[1].name(), "v");
            assert_eq!(fs[1].data_type(), DataType::Float64);
        }
        _ => panic!("expected an aggregation at the root"),
    }
}

/// The melt builder keeps the identifier columns and appends the
/// `variable` and `value` columns, typed after the first value variable.
#[test]
fn melt_builder_schema() {
    let mut lp_arena: Arena<ALogicalPlan> = Arena::new();
    let expr_arena: Arena<AExpr> = Arena::new();
    let scan = lp_arena.add(df_scan(vec![
        Field::new("A", DataType::Utf8),
        Field::new("B", DataType::Int64),
        Field::new("C", DataType::Int64),
    ]));
    let builder = ALogicalPlanBuilder::new(scan, expr_arena, lp_arena);
    let builder = builder.melt(vec!["A".to_string(), "B".to_string()], vec!["C".to_string()]);
    let (root, _e, lp_arena) = builder.into_parts();
    match lp_arena.get(root) {
        ALogicalPlan::Melt { schema, .. } => {
            let fs = schema.fields();
            assert_eq!(fs.len(), 4);
            assert_eq!(fs[0].name(), "A");
            assert_eq!(fs[1].name(), "B");
            assert_eq!(fs[2].name(), "variable");
            assert_eq!(fs[2].data_type(), DataType::Utf8);
            assert_eq!(fs[3].name(), "value");
            assert_eq!(fs[3].data_type(), DataType::Int64);
        }
        _ => panic!("expected a melt at the root"),
    }
}

/// A join suffixes the right side's colliding non-key columns.
#[test]
fn join_builder_suffixes_collisions() {
    let mut lp_arena: Arena<ALogicalPlan> = Arena::new();
    let mut expr_arena: Arena<AExpr> = Arena::new();
    let left = lp_arena.add(df_scan(vec![
        Field::new("days", DataType::Int64),
        Field::new("x", DataType::Int64),
    ]));
    let right = lp_arena.add(df_scan(vec![
        Field::new("days", DataType::Int64),
        Field::new("x", DataType::Utf8),
    ]));
    let kl = expr_arena.add(AExpr::Column("days".to_string()));
    let kr = expr_arena.add(AExpr::Column("days".to_string()));
    let builder = ALogicalPlanBuilder::new(left, expr_arena, lp_arena);
    let builder = builder.join(right, lazyplan::alp::JoinType::Inner, vec![kl], vec![kr], true, false);
    let (root, _e, lp_arena) = builder.into_parts();
    match lp_arena.get(root) {
        ALogicalPlan::Join { schema, .. } => {
            let fs = schema.fields();
            assert_eq!(fs.len(), 3);
            assert_eq!(fs[0].name(), "days");
            assert_eq!(fs[1].name(), "x");
            assert_eq!(fs[2].name(), "x_right");
            assert_eq!(fs[2].data_type(), DataType::Utf8);
        }
        _ => panic!("expected a join at the root"),
    }
}

/// Rebuilding an operator from fresh expressions and inputs keeps its
/// payload and takes the handles handed in.
#[test]
fn from_exprs_and_input_rebuilds() {
    let mut lp_arena: Arena<ALogicalPlan> = Arena::new();
    let mut expr_arena: Arena<AExpr> = Arena::new();
    let scan = lp_arena.add(df_scan(vec![Field::new("a", DataType::Int64)]));
    let pred = expr_arena.add(AExpr::Column("a".to_string()));
    let sel = ALogicalPlan::Selection { input: scan, predicate: pred };

    let scan2 = lp_arena.add(df_scan(vec![Field::new("a", DataType::Int64)]));
    let pred2 = expr_arena.add(AExpr::Column("a".to_string()));
    let rebuilt = sel.from_exprs_and_input(vec![pred2], vec![scan2]);
    match rebuilt {
        ALogicalPlan::Selection { input, predicate } => {
            assert_eq!(input.0, scan2.0);
            assert_eq!(predicate.0, pred2.0);
        }
        _ => panic!("expected a selection"),
    }

    let exprs = sel.get_exprs();
    assert_eq!(exprs.len(), 1);
    assert_eq!(exprs[0].0, pred.0);
    let inputs = sel.get_inputs();
    assert_eq!(inputs.len(), 1);
    assert_eq!(inputs[0].0, scan.0);
}
