use lazyplan::agg_scan::agg_projection;
use lazyplan::agg_scan::AggScanProjection;
use lazyplan::agg_scan::PathColumns;
use lazyplan::aexpr::AExpr;
use lazyplan::alp::ALogicalPlan;
use lazyplan::alp::JoinType;
use lazyplan::arena::Arena;
use lazyplan::arena::Node;
use lazyplan::schema::DataType;
use lazyplan::schema::Field;
use lazyplan::schema::Schema;

fn csv_scan_with(path: &str, fields: Vec<Field>, wc: Option<Vec<String>>) -> ALogicalPlan {
    ALogicalPlan::CsvScan {
        path: path.to_string(),
        schema: Schema::new(fields),
        has_header: true,
        delimiter: b',',
        ignore_errors: false,
        skip_rows: 0,
        stop_after_n_rows: None,
        with_columns: wc,
        predicate: None,
        aggregate: Vec::new(),
        cache: false,
    }
}

fn store_fields() -> Vec<Field> {
    vec![
        Field::new("a", DataType::Int64),
        Field::new("b", DataType::Int64),
        Field::new("c", DataType::Int64),
    ]
}

/// Two scans of one source path with different column subsets, joined:
/// a self-join shape.  Returns the arenas, the join root, and the scans.
fn self_join_plan() -> (Arena<ALogicalPlan>, Arena<AExpr>, Node, Node, Node) {
    let mut lp_arena: Arena<ALogicalPlan> = Arena::new();
    let mut expr_arena: Arena<AExpr> = Arena::new();
    let s1 = lp_arena.add(csv_scan_with(
        "store.csv",
        store_fields(),
        Some(vec!["a".to_string()]),
    ));
    let s2 = lp_arena.add(csv_scan_with(
        "store.csv",
        store_fields(),
        Some(vec!["b".to_string(), "a".to_string()]),
    ));
    let kl = expr_arena.add(AExpr::Column("a".to_string()));
    let kr = expr_arena.add(AExpr::Column("a".to_string()));
    let join = lp_arena.add(ALogicalPlan::Join {
        input_left: s1,
        input_right: s2,
        schema: Schema::new(store_fields()),
        how: JoinType::Inner,
        left_on: vec![kl],
        right_on: vec![kr],
        allow_par: true,
        force_par: false,
    });
    (lp_arena, expr_arena, join, s1, s2)
}

/// Scanning one path twice with two different column subsets: after
/// aggregation, the source's record is the union of both requests, and
/// after the rewrite both occurrences read that union while each branch
/// narrows back to its own request with a projection.
#[test]
fn scan_sharing_unions_and_narrows() {
    let (mut lp_arena, mut expr_arena, join, s1, s2) = self_join_plan();

    let mut columns = PathColumns::new();
    agg_projection(join, &mut columns, &lp_arena);
    let union = columns.get(&"store.csv".to_string()).expect("the path must be recorded");
    let recorded: Vec<String> = union.items().clone();
    assert_eq!(recorded, vec!["a".to_string(), "b".to_string()]);

    let rule = AggScanProjection { columns };
    rule.optimize(join, &mut lp_arena, &mut expr_arena).unwrap();

    // The first occurrence asked for {a} alone: it now reads the union and
    // narrows back to {a} with a projection above the widened scan.
    match lp_arena.get(s1) {
        ALogicalPlan::Projection { expr, input, schema } => {
            assert_eq!(schema.fields().len(), 1);
            assert_eq!(schema.fields()[0].name(), "a");
            assert_eq!(expr.len(), 1);
            match lp_arena.get(*input) {
                ALogicalPlan::CsvScan { with_columns, .. } => {
                    assert_eq!(
                        with_columns.clone().unwrap(),
                        vec!["a".to_string(), "b".to_string()]
                    );
                }
                other => panic!("expected the widened scan below, found {:?}", other),
            }
        }
        other => panic!("expected a narrowing projection, found {:?}", other),
    }

    // The second occurrence asked for {b,a}, the whole union: it is
    // rewritten to the union's recorded order without a projection.
    match lp_arena.get(s2) {
        ALogicalPlan::CsvScan { with_columns, .. } => {
            assert_eq!(with_columns.clone().unwrap(), vec!["a".to_string(), "b".to_string()]);
        }
        other => panic!("expected the widened scan in place, found {:?}", other),
    }
}

/// Running the scan-sharing rewrite twice changes nothing the second
/// time: re-aggregating the widened scans records the same unions, and
/// every scan already carries its union.
#[test]
fn scan_sharing_rewrite_is_idempotent() {
    let (mut lp_arena, mut expr_arena, join, _s1, s2) = self_join_plan();

    let mut columns = PathColumns::new();
    agg_projection(join, &mut columns, &lp_arena);
    let rule = AggScanProjection { columns };
    rule.optimize(join, &mut lp_arena, &mut expr_arena).unwrap();
    let after_first = match lp_arena.get(s2) {
        ALogicalPlan::CsvScan { with_columns, .. } => with_columns.clone(),
        other => panic!("expected a scan, found {:?}", other),
    };

    let mut columns2 = PathColumns::new();
    agg_projection(join, &mut columns2, &lp_arena);
    let recorded: Vec<String> =
        columns2.get(&"store.csv".to_string()).expect("still recorded").items().clone();
    assert_eq!(Some(recorded), after_first);

    let rule2 = AggScanProjection { columns: columns2 };
    rule2.optimize(join, &mut lp_arena, &mut expr_arena).unwrap();
    let after_second = match lp_arena.get(s2) {
        ALogicalPlan::CsvScan { with_columns, .. } => with_columns.clone(),
        other => panic!("expected a scan, found {:?}", other),
    };
    assert_eq!(after_first, after_second);
}

/// A scan that requests all columns (no list) records nothing for its
/// path.
#[test]
fn open_request_records_no_constraint() {
    let mut lp_arena: Arena<ALogicalPlan> = Arena::new();
    let scan = lp_arena.add(csv_scan_with("open.csv", store_fields(), None));
    let mut columns = PathColumns::new();
    agg_projection(scan, &mut columns, &lp_arena);
    assert!(columns.get(&"open.csv".to_string()).is_none());
}

/// The per-source record keeps first-demand order and drops duplicates.
#[test]
fn path_columns_union_order() {
    let mut columns = PathColumns::new();
    columns.extend(
        &"p.csv".to_string(),
        &vec!["x".to_string(), "y".to_string()],
    );
    columns.extend(
        &"p.csv".to_string(),
        &vec!["y".to_string(), "z".to_string()],
    );
    let recorded: Vec<String> = columns.get(&"p.csv".to_string()).unwrap().items().clone();
    assert_eq!(recorded, vec!["x".to_string(), "y".to_string(), "z".to_string()]);
}

/// The whole pipeline on a self-join: pushdown leaves the two occurrences
/// of one source with different requests; aggregation records their
/// union; the rewrite widens both scans to the union and narrows the
/// smaller branch back with a projection.  Each branch still sees its own
/// columns; the source is read consistently.
#[test]
fn self_join_pipeline_shares_the_scan() {
    let mut lp_arena: Arena<ALogicalPlan> = Arena::new();
    let mut expr_arena: Arena<AExpr> = Arena::new();
    let s1 = lp_arena.add(csv_scan_with("store.csv", store_fields(), None));
    let s2 = lp_arena.add(csv_scan_with("store.csv", store_fields(), None));
    let kl = expr_arena.add(AExpr::Column("a".to_string()));
    let kr = expr_arena.add(AExpr::Column("a".to_string()));
    let builder =
        lazyplan::builder::ALogicalPlanBuilder::new(s1, expr_arena, lp_arena);
    let builder = builder.join(s2, JoinType::Inner, vec![kl], vec![kr], true, false);
    let (join, mut expr_arena, mut lp_arena) = builder.into_parts();

    let col_b = expr_arena.add(AExpr::Column("b".to_string()));
    let col_cr = expr_arena.add(AExpr::Column("c_right".to_string()));
    let builder =
        lazyplan::builder::ALogicalPlanBuilder::new(join, expr_arena, lp_arena);
    let builder = builder.project(vec![col_b, col_cr]);
    let (root, mut expr_arena, mut lp_arena) = builder.into_parts();
    let root_plan = lp_arena.take(root);
    let pushed = lazyplan::pushdown::ProjectionPushDown {}
        .optimize(root_plan, &mut lp_arena, &mut expr_arena)
        .unwrap();
    let new_root = lp_arena.add(pushed);

    // pushdown left the two occurrences with different requests
    let w1 = match lp_arena.get(s1) {
        ALogicalPlan::CsvScan { with_columns, .. } => with_columns.clone().unwrap(),
        other => panic!("expected a scan, found {:?}", other),
    };
    let w2 = match lp_arena.get(s2) {
        ALogicalPlan::CsvScan { with_columns, .. } => with_columns.clone().unwrap(),
        other => panic!("expected a scan, found {:?}", other),
    };
    assert_eq!(w1, vec!["a".to_string(), "b".to_string()]);
    assert_eq!(w2, vec!["a".to_string(), "b".to_string(), "c".to_string()]);

    // aggregation records the union of both requests
    let mut columns = PathColumns::new();
    agg_projection(new_root, &mut columns, &lp_arena);
    let union: Vec<String> =
        columns.get(&"store.csv".to_string()).unwrap().items().clone();
    assert_eq!(union, vec!["a".to_string(), "b".to_string(), "c".to_string()]);

    // the rewrite widens both occurrences to the union; the narrower
    // branch gets a projection back down to its own request
    let rule = AggScanProjection { columns };
    rule.optimize(new_root, &mut lp_arena, &mut expr_arena).unwrap();
    match lp_arena.get(s1) {
        ALogicalPlan::Projection { input, schema, .. } => {
            let names: Vec<String> =
                schema.fields().iter().map(|f| f.name().clone()).collect();
            assert_eq!(names, vec!["a".to_string(), "b".to_string()]);
            match lp_arena.get(*input) {
                ALogicalPlan::CsvScan { with_columns, .. } => {
                    assert_eq!(with_columns.clone().unwrap(), union);
                }
                other => panic!("expected the widened scan below, found {:?}", other),
            }
        }
        other => panic!("expected a narrowing projection, found {:?}", other),
    }
    match lp_arena.get(s2) {
        ALogicalPlan::CsvScan { with_columns, .. } => {
            assert_eq!(with_columns.clone().unwrap(), union);
        }
        other => panic!("expected the widened scan in place, found {:?}", other),
    }
}

/// The rewrite fails exactly when a scan must be narrowed back to a
/// request naming a column its own schema does not have.
#[test]
fn narrowing_to_unknown_column_fails() {
    let mut lp_arena: Arena<ALogicalPlan> = Arena::new();
    let mut expr_arena: Arena<AExpr> = Arena::new();
    // the request names "ghost", which the schema lacks; a second larger
    // request widens the record past it so narrowing is attempted
    let s1 = lp_arena.add(csv_scan_with(
        "bad.csv",
        store_fields(),
        Some(vec!["ghost".to_string()]),
    ));
    let s2 = lp_arena.add(csv_scan_with(
        "bad.csv",
        store_fields(),
        Some(vec!["a".to_string(), "b".to_string()]),
    ));
    let kl = expr_arena.add(AExpr::Column("a".to_string()));
    let kr = expr_arena.add(AExpr::Column("a".to_string()));
    let join = lp_arena.add(ALogicalPlan::Join {
        input_left: s1,
        input_right: s2,
        schema: Schema::new(store_fields()),
        how: JoinType::Inner,
        left_on: vec![kl],
        right_on: vec![kr],
        allow_par: true,
        force_par: false,
    });
    let mut columns = PathColumns::new();
    agg_projection(join, &mut columns, &lp_arena);
    let rule = AggScanProjection { columns };
    match rule.optimize(join, &mut lp_arena, &mut expr_arena) {
        Err(lazyplan::error::PlanError::FieldNotFound(name)) => assert_eq!(name, "ghost"),
        other => panic!("expected the unknown column to be reported, found {:?}", other),
    }
}
