use lazyplan::aexpr::AExpr;
use lazyplan::aexpr::LiteralValue;
use lazyplan::aexpr::Operator;
use lazyplan::alp::ALogicalPlan;
use lazyplan::alp::JoinType;
use lazyplan::arena::Arena;
use lazyplan::arena::Node;
use lazyplan::builder::ALogicalPlanBuilder;
use lazyplan::error::PlanError;
use lazyplan::pushdown::ProjectionPushDown;
use lazyplan::schema::DataType;
use lazyplan::schema::Field;
use lazyplan::schema::Schema;

fn csv_scan(path: &str, fields: Vec<Field>) -> ALogicalPlan {
    ALogicalPlan::CsvScan {
        path: path.to_string(),
        schema: Schema::new(fields),
        has_header: true,
        delimiter: b',',
        ignore_errors: false,
        skip_rows: 0,
        stop_after_n_rows: None,
        with_columns: None,
        predicate: None,
        aggregate: Vec::new(),
        cache: false,
    }
}

fn field_names(s: &Schema) -> Vec<String> {
    s.fields().iter().map(|f| f.name().clone()).collect()
}

fn scan_with_columns(lp_arena: &Arena<ALogicalPlan>, node: Node) -> Option<Vec<String>> {
    match lp_arena.get(node) {
        ALogicalPlan::CsvScan { with_columns, .. } => with_columns.clone(),
        other => panic!("expected a scan, found {:?}", other),
    }
}

/// Builds: scan {A,B} from CSV, filter B > 0, project [A].  Returns the
/// optimized root operator together with the arenas and the scan handle.
fn filtered_projected_plan() -> (ALogicalPlan, Arena<ALogicalPlan>, Arena<AExpr>, Node) {
    let mut lp_arena: Arena<ALogicalPlan> = Arena::new();
    let mut expr_arena: Arena<AExpr> = Arena::new();
    let scan = lp_arena.add(csv_scan(
        "cells.csv",
        vec![Field::new("A", DataType::Int64), Field::new("B", DataType::Int64)],
    ));
    let col_b = expr_arena.add(AExpr::Column("B".to_string()));
    let zero = expr_arena.add(AExpr::Literal(LiteralValue::Int64(0)));
    let pred = expr_arena.add(AExpr::BinaryExpr { left: col_b, op: Operator::Gt, right: zero });
    let filtered = lp_arena.add(ALogicalPlan::Selection { input: scan, predicate: pred });
    let col_a = expr_arena.add(AExpr::Column("A".to_string()));
    let builder = ALogicalPlanBuilder::new(filtered, expr_arena, lp_arena);
    let builder = builder.project(vec![col_a]);
    let (root, mut expr_arena, mut lp_arena) = builder.into_parts();
    let root_plan = lp_arena.take(root);
    let opt = ProjectionPushDown {};
    let rewritten = opt.optimize(root_plan, &mut lp_arena, &mut expr_arena).unwrap();
    (rewritten, lp_arena, expr_arena, scan)
}

/// Scanning {A,B}, filtering on B and projecting A must leave the scan
/// requesting exactly {A,B}: A for the projection, B for the filter.  The
/// final output schema holds only A.
#[test]
fn filter_and_project_request_exactly_their_columns() {
    let (root_plan, lp_arena, _expr_arena, scan) = filtered_projected_plan();

    let wc = scan_with_columns(&lp_arena, scan).expect("the scan must now carry a request");
    assert_eq!(wc, vec!["A".to_string(), "B".to_string()]);

    match &root_plan {
        ALogicalPlan::Projection { schema, .. } => {
            assert_eq!(field_names(schema), vec!["A".to_string()]);
        }
        other => panic!("expected the re-ordering projection at the root, found {:?}", other),
    }
}

/// Pushdown must not change what the plan returns: the root's schema
/// before and after optimization is the same.
#[test]
fn pushdown_preserves_root_schema() {
    let mut lp_arena: Arena<ALogicalPlan> = Arena::new();
    let mut expr_arena: Arena<AExpr> = Arena::new();
    let scan = lp_arena.add(csv_scan(
        "t.csv",
        vec![Field::new("A", DataType::Int64), Field::new("B", DataType::Utf8)],
    ));
    let sort = lp_arena.add(ALogicalPlan::Sort {
        input: scan,
        by_column: "A".to_string(),
        reverse: false,
    });
    let col_b = expr_arena.add(AExpr::Column("B".to_string()));
    let builder = ALogicalPlanBuilder::new(sort, expr_arena, lp_arena);
    let builder = builder.project(vec![col_b]);
    let before = field_names(&builder.schema());
    let (root, mut expr_arena, mut lp_arena) = builder.into_parts();
    let root_plan = lp_arena.take(root);
    let opt = ProjectionPushDown {};
    let rewritten = opt.optimize(root_plan, &mut lp_arena, &mut expr_arena).unwrap();
    match &rewritten {
        ALogicalPlan::Projection { schema, .. } => {
            assert_eq!(field_names(schema), before);
            assert_eq!(before, vec!["B".to_string()]);
        }
        other => panic!("expected a projection at the root, found {:?}", other),
    }
}

/// Running the pushdown pass a second time on an already-optimized plan
/// changes no scan column list: the fixed point is reached in one pass.
#[test]
fn pushdown_is_idempotent_on_scan_lists() {
    let (root_plan, mut lp_arena, mut expr_arena, scan) = filtered_projected_plan();
    let first = scan_with_columns(&lp_arena, scan);

    let opt = ProjectionPushDown {};
    let again = opt.optimize(root_plan, &mut lp_arena, &mut expr_arena).unwrap();
    let second = scan_with_columns(&lp_arena, scan);
    assert_eq!(first, second);
    match &again {
        ALogicalPlan::Projection { schema, .. } => {
            assert_eq!(field_names(schema), vec!["A".to_string()]);
        }
        other => panic!("expected a projection at the root, found {:?}", other),
    }
}

/// Joining two sources that share the column name `x`, then selecting `x`
/// and `x_right`, resolves `x` to the left table and `x_right` to the
/// right table: both sides' scans are asked for their own `x`, and the
/// output schema still reads [x, x_right].
#[test]
fn join_suffix_round_trip() {
    let mut lp_arena: Arena<ALogicalPlan> = Arena::new();
    let mut expr_arena: Arena<AExpr> = Arena::new();
    let left = lp_arena.add(csv_scan(
        "left.csv",
        vec![Field::new("days", DataType::Int64), Field::new("x", DataType::Int64)],
    ));
    let right = lp_arena.add(csv_scan(
        "right.csv",
        vec![Field::new("days", DataType::Int64), Field::new("x", DataType::Int64)],
    ));
    let kl = expr_arena.add(AExpr::Column("days".to_string()));
    let kr = expr_arena.add(AExpr::Column("days".to_string()));
    let builder = ALogicalPlanBuilder::new(left, expr_arena, lp_arena);
    let builder = builder.join(right, JoinType::Inner, vec![kl], vec![kr], true, false);
    let (_join_root, mut expr_arena, mut lp_arena) = builder.into_parts();

    let col_x = expr_arena.add(AExpr::Column("x".to_string()));
    let col_xr = expr_arena.add(AExpr::Column("x_right".to_string()));
    let join_node = _join_root;
    let builder = ALogicalPlanBuilder::new(join_node, expr_arena, lp_arena);
    let builder = builder.project(vec![col_x, col_xr]);
    let (root, mut expr_arena, mut lp_arena) = builder.into_parts();

    let root_plan = lp_arena.take(root);
    let opt = ProjectionPushDown {};
    let rewritten = opt.optimize(root_plan, &mut lp_arena, &mut expr_arena).unwrap();

    let wl = scan_with_columns(&lp_arena, left).expect("left scan must carry a request");
    let wr = scan_with_columns(&lp_arena, right).expect("right scan must carry a request");
    assert_eq!(wl, vec!["days".to_string(), "x".to_string()]);
    assert_eq!(wr, vec!["days".to_string(), "x".to_string()]);

    match &rewritten {
        ALogicalPlan::Projection { schema, .. } => {
            assert_eq!(field_names(schema), vec!["x".to_string(), "x_right".to_string()]);
        }
        other => panic!("expected a projection at the root, found {:?}", other),
    }
}

/// An in-memory frame scan takes the accumulated demand as its handle
/// list; with nothing demanded it keeps reading everything.
#[test]
fn frame_scan_takes_demand_by_handle() {
    let mut lp_arena: Arena<ALogicalPlan> = Arena::new();
    let mut expr_arena: Arena<AExpr> = Arena::new();
    let scan = lp_arena.add(ALogicalPlan::DataFrameScan {
        schema: Schema::new(vec![
            Field::new("a", DataType::Int64),
            Field::new("b", DataType::Int64),
        ]),
        projection: None,
        selection: None,
    });
    let col_a = expr_arena.add(AExpr::Column("a".to_string()));
    let builder = ALogicalPlanBuilder::new(scan, expr_arena, lp_arena);
    let builder = builder.project(vec![col_a]);
    let (root, mut expr_arena, mut lp_arena) = builder.into_parts();
    let root_plan = lp_arena.take(root);
    let opt = ProjectionPushDown {};
    let rewritten = opt.optimize(root_plan, &mut lp_arena, &mut expr_arena).unwrap();
    match &rewritten {
        ALogicalPlan::Projection { input, .. } => match lp_arena.get(*input) {
            ALogicalPlan::DataFrameScan { projection, .. } => {
                let p = projection.as_ref().expect("demand must be recorded");
                assert_eq!(p.len(), 1);
            }
            other => panic!("expected the frame scan below, found {:?}", other),
        },
        other => panic!("expected a projection at the root, found {:?}", other),
    }
}

/// A column reference that resolves against no field reports the missing
/// name, unchanged.
#[test]
fn missing_column_is_reported_by_name() {
    let mut expr_arena: Arena<AExpr> = Arena::new();
    let ghostly = expr_arena.add(AExpr::Column("z".to_string()));
    let schema = Schema::new(vec![Field::new("a", DataType::Int64)]);
    match lazyplan::aexpr::to_field(&expr_arena, ghostly, &schema) {
        Err(PlanError::FieldNotFound(name)) => assert_eq!(name, "z"),
        other => panic!("expected the missing field's name, found {:?}", other),
    }
}

/// A wildcard cannot be resolved to a single field.
#[test]
fn wildcard_has_no_field() {
    let mut expr_arena: Arena<AExpr> = Arena::new();
    let star = expr_arena.add(AExpr::Wildcard);
    let schema = Schema::new(vec![Field::new("a", DataType::Int64)]);
    match lazyplan::aexpr::to_field(&expr_arena, star, &schema) {
        Err(PlanError::InvalidOperation(_)) => {}
        other => panic!("expected the wildcard to be refused, found {:?}", other),
    }
}

/// Merging schemas that carry one name with two types is refused as a
/// shape mismatch.
#[test]
fn schema_merge_refuses_conflicting_types() {
    let s1 = Schema::new(vec![Field::new("a", DataType::Int64)]);
    let s2 = Schema::new(vec![Field::new("a", DataType::Utf8)]);
    match Schema::try_merge(&[s1, s2]) {
        Err(PlanError::ShapeMismatch(_)) => {}
        other => panic!("expected a shape mismatch, found {:?}", other),
    }
    let s3 = Schema::new(vec![Field::new("a", DataType::Int64)]);
    let s4 = Schema::new(vec![Field::new("b", DataType::Utf8)]);
    let merged = Schema::try_merge(&[s3, s4]).unwrap();
    assert_eq!(field_names(&merged), vec!["a".to_string(), "b".to_string()]);
}

/// Selecting nothing means selecting everything: an empty projection is
/// deliberately not materialized, and a plan without projections leaves
/// every scan reading all columns.
#[test]
fn empty_projection_is_select_all() {
    let mut lp_arena: Arena<ALogicalPlan> = Arena::new();
    let expr_arena: Arena<AExpr> = Arena::new();
    let scan = lp_arena.add(csv_scan(
        "all.csv",
        vec![Field::new("A", DataType::Int64), Field::new("B", DataType::Int64)],
    ));
    let builder = ALogicalPlanBuilder::new(scan, expr_arena, lp_arena);
    let builder = builder.project(Vec::new());
    assert_eq!(builder.into_node().0, scan.0);
    let (root, mut expr_arena, mut lp_arena) = builder.into_parts();

    let root_plan = lp_arena.take(root);
    let opt = ProjectionPushDown {};
    let rewritten = opt.optimize(root_plan, &mut lp_arena, &mut expr_arena).unwrap();
    match &rewritten {
        ALogicalPlan::CsvScan { with_columns, .. } => assert!(with_columns.is_none()),
        other => panic!("expected the scan itself, found {:?}", other),
    }
}

/// A user-defined-function node that forbids projection pushdown stops
/// the demand: the scan below it keeps reading everything.
#[test]
fn udf_flag_stops_pushdown() {
    let mut lp_arena: Arena<ALogicalPlan> = Arena::new();
    let mut expr_arena: Arena<AExpr> = Arena::new();
    let scan = lp_arena.add(csv_scan(
        "u.csv",
        vec![Field::new("A", DataType::Int64), Field::new("B", DataType::Int64)],
    ));
    let udf = lp_arena.add(ALogicalPlan::Udf {
        input: scan,
        function: lazyplan::alp::UdfHandle(7),
        predicate_pd: true,
        projection_pd: false,
        schema: None,
    });
    let col_a = expr_arena.add(AExpr::Column("A".to_string()));
    let builder = ALogicalPlanBuilder::new(udf, expr_arena, lp_arena);
    let builder = builder.project(vec![col_a]);
    let (root, mut expr_arena, mut lp_arena) = builder.into_parts();
    let root_plan = lp_arena.take(root);
    let opt = ProjectionPushDown {};
    opt.optimize(root_plan, &mut lp_arena, &mut expr_arena).unwrap();
    assert!(scan_with_columns(&lp_arena, scan).is_none());
}

/// A horizontal stack forces the columns its expressions read into the
/// demand, and its own schema replaces a namesake column in place.
#[test]
fn hstack_keeps_inputs_and_demands_columns() {
    let mut lp_arena: Arena<ALogicalPlan> = Arena::new();
    let mut expr_arena: Arena<AExpr> = Arena::new();
    let scan = lp_arena.add(csv_scan(
        "h.csv",
        vec![
            Field::new("A", DataType::Int64),
            Field::new("B", DataType::Int64),
            Field::new("C", DataType::Int64),
        ],
    ));
    let col_b = expr_arena.add(AExpr::Column("B".to_string()));
    let doubled = expr_arena.add(AExpr::Alias(col_b, "twice".to_string()));
    let builder = ALogicalPlanBuilder::new(scan, expr_arena, lp_arena);
    let builder = builder.with_columns(vec![doubled]);
    let (root, mut expr_arena, mut lp_arena) = builder.into_parts();
    match lp_arena.get(root) {
        ALogicalPlan::HStack { schema, .. } => {
            assert_eq!(
                field_names(schema),
                vec![
                    "A".to_string(),
                    "B".to_string(),
                    "C".to_string(),
                    "twice".to_string(),
                ]
            );
        }
        other => panic!("expected the stack at the root, found {:?}", other),
    }

    let col_twice = expr_arena.add(AExpr::Column("twice".to_string()));
    let builder = ALogicalPlanBuilder::new(root, expr_arena, lp_arena);
    let builder = builder.project(vec![col_twice]);
    let (root2, mut expr_arena, mut lp_arena) = builder.into_parts();
    let root_plan = lp_arena.take(root2);
    let opt = ProjectionPushDown {};
    opt.optimize(root_plan, &mut lp_arena, &mut expr_arena).unwrap();
    let wc = scan_with_columns(&lp_arena, scan).expect("the stack's source column is demanded");
    assert_eq!(wc, vec!["B".to_string()]);
}

/// Two group keys carrying one name and one type are merged into one
/// output column.
#[test]
fn groupby_merges_equal_keys() {
    let mut lp_arena: Arena<ALogicalPlan> = Arena::new();
    let mut expr_arena: Arena<AExpr> = Arena::new();
    let scan = lp_arena.add(ALogicalPlan::DataFrameScan {
        schema: Schema::new(vec![Field::new("k", DataType::Int64)]),
        projection: None,
        selection: None,
    });
    let k1 = expr_arena.add(AExpr::Column("k".to_string()));
    let k2 = expr_arena.add(AExpr::Column("k".to_string()));
    let builder = ALogicalPlanBuilder::new(scan, expr_arena, lp_arena);
    let builder = builder.groupby(vec![k1, k2], Vec::new(), None);
    let (root, _e, lp_arena) = builder.into_parts();
    match lp_arena.get(root) {
        ALogicalPlan::Aggregate { schema, .. } => {
            assert_eq!(field_names(schema), vec!["k".to_string()]);
        }
        other => panic!("expected an aggregation, found {:?}", other),
    }
}
