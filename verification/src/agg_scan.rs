//! Scan-projection aggregation.
//!
//! A source may be scanned more than once within one plan (a self-join, or
//! two independent references to one table).  This pass walks the whole
//! plan and, for every file scan, unions the requested column lists per
//! source path, so that the eventual read of each source carries every
//! column any occurrence needs.  A later rewrite widens each scan to that
//! union and narrows back with a projection where the scan's own request
//! was smaller.

use vstd::prelude::*;

use crate::aexpr::expr_wf;
use crate::aexpr::AExpr;
use crate::alp::inputs_of;
use crate::alp::plan_node_ok;
use crate::alp::plan_slot_ok;
use crate::alp::plan_wf;
use crate::alp::ALogicalPlan;
use crate::arena::Arena;
use crate::arena::Node;
use crate::error::PlanError;
use crate::infer::exprs_to_schema;
use crate::names::names_view;
use crate::names::NameSet;
use crate::schema::Schema;

verus! {

/// Adds `w` to `cols` unless it is already listed.
pub open spec fn ins_name(cols: Seq<Seq<char>>, w: Seq<char>) -> Seq<Seq<char>> {
    if cols.contains(w) {
        cols
    } else {
        cols.push(w)
    }
}

/// Folds [`ins_name`] over `ws` from index `j` on.
pub open spec fn extend_cols(cols: Seq<Seq<char>>, ws: Seq<Seq<char>>, j: int) -> Seq<Seq<char>>
    decreases ws.len() - j,
{
    if j < 0 || j >= ws.len() {
        cols
    } else {
        extend_cols(ins_name(cols, ws[j]), ws, j + 1)
    }
}

/// Unions `ws` into the column list recorded for `path`.
pub open spec fn map_extend(
    m: Map<Seq<char>, Seq<Seq<char>>>,
    path: Seq<char>,
    ws: Seq<Seq<char>>,
) -> Map<Seq<char>, Seq<Seq<char>>> {
    let cols = if m.dom().contains(path) {
        m[path]
    } else {
        Seq::empty()
    };
    m.insert(path, extend_cols(cols, ws, 0))
}

/// What one plan node contributes to the per-source column map: a file
/// scan with a column request unions that request in under its path;
/// everything else contributes what its inputs contribute.
pub open spec fn agg_spec(
    a: Seq<Option<ALogicalPlan>>,
    i: int,
    m: Map<Seq<char>, Seq<Seq<char>>>,
) -> Map<Seq<char>, Seq<Seq<char>>>
    decreases i, 1int, 0int when 0 <= i
{
    if 0 <= i < a.len() {
        match a[i] {
            Some(ALogicalPlan::CsvScan { path, with_columns, .. }) => match with_columns {
                Some(wc) => map_extend(m, path@, names_view(wc@)),
                None => m,
            },
            Some(ALogicalPlan::ParquetScan { path, with_columns, .. }) => match with_columns {
                Some(wc) => map_extend(m, path@, names_view(wc@)),
                None => m,
            },
            Some(ALogicalPlan::DataFrameScan { .. }) => m,
            Some(p) => agg_inputs(a, inputs_of(p), 0, m, i),
            None => m,
        }
    } else {
        m
    }
}

/// Folds [`agg_spec`] over the input handles `ins[k..]`, all of which must
/// sit strictly below `bound`.
pub open spec fn agg_inputs(
    a: Seq<Option<ALogicalPlan>>,
    ins: Seq<Node>,
    k: int,
    m: Map<Seq<char>, Seq<Seq<char>>>,
    bound: int,
) -> Map<Seq<char>, Seq<Seq<char>>>
    decreases bound, 0int, ins.len() - k when 0 <= bound
{
    if k < 0 || k >= ins.len() || ins[k].0 >= bound {
        m
    } else {
        agg_inputs(a, ins, k + 1, agg_spec(a, ins[k].0 as int, m), bound)
    }
}

/// One source path together with the union of the columns requested of it.
pub struct PathEntry {
    pub path: String,
    pub cols: NameSet,
}

/// The first index at or after `i` whose entry records `path`.
pub open spec fn entry_idx(entries: Seq<PathEntry>, path: Seq<char>, i: int) -> Option<int>
    decreases entries.len() - i,
{
    if i < 0 || i >= entries.len() {
        None
    } else if entries[i].path@ == path {
        Some(i)
    } else {
        entry_idx(entries, path, i + 1)
    }
}

/// What an `entry_idx` result means, spelled out.
pub proof fn lemma_entry_idx(entries: Seq<PathEntry>, path: Seq<char>, i: int)
    requires
        0 <= i,
    ensures
        match entry_idx(entries, path, i) {
            Some(j) => i <= j < entries.len() && entries[j].path@ == path && forall|k: int|
                i <= k < j ==> entries[k].path@ != path,
            None => forall|k: int| i <= k < entries.len() ==> entries[k].path@ != path,
        },
    decreases entries.len() - i,
{
    if i < 0 || i >= entries.len() {
    } else if entries[i].path@ == path {
    } else {
        lemma_entry_idx(entries, path, i + 1);
        match entry_idx(entries, path, i + 1) {
            Some(j) => {
                assert forall|k: int| i <= k < j implies entries[k].path@ != path by {
                    if k != i {
                        assert(entries[k].path@ != path);
                    }
                }
            }
            None => {
                assert forall|k: int| i <= k < entries.len() implies entries[k].path@ != path by {
                    if k != i {
                        assert(entries[k].path@ != path);
                    }
                }
            }
        }
    }
}

/// The per-source column map: source path to the union, in first-demand
/// order, of every column list requested of that source.
pub struct PathColumns {
    entries: Vec<PathEntry>,
}

impl PathColumns {
    pub closed spec fn spec_entries(&self) -> Seq<PathEntry> {
        self.entries@
    }

    /// Paths are unique and each column set is duplicate-free.
    pub open spec fn wf(&self) -> bool {
        &&& forall|i: int, j: int|
            0 <= i < j < self.spec_entries().len() ==> self.spec_entries()[i].path@
                != self.spec_entries()[j].path@
        &&& forall|i: int|
            0 <= i < self.spec_entries().len() ==> (
            #[trigger] self.spec_entries()[i]).cols.distinct()
    }

    /// The abstract map: path to recorded column list.
    pub open spec fn abs(&self) -> Map<Seq<char>, Seq<Seq<char>>> {
        Map::new(
            |p: Seq<char>| entry_idx(self.spec_entries(), p, 0) is Some,
            |p: Seq<char>|
                names_view(
                    self.spec_entries()[entry_idx(self.spec_entries(), p, 0)->Some_0].cols.spec_items(),
                ),
        )
    }

    pub fn new() -> (r: PathColumns)
        ensures
            r.wf(),
            r.abs() == Map::<Seq<char>, Seq<Seq<char>>>::empty(),
    {
        let r = PathColumns { entries: Vec::new() };
        proof {
            assert(r.abs() =~= Map::<Seq<char>, Seq<Seq<char>>>::empty());
        }
        r
    }

    /// The index of the entry for `path`, if one exists.
    fn find(&self, path: &String) -> (r: Option<usize>)
        ensures
            match r {
                Some(i) => entry_idx(self.spec_entries(), path@, 0) == Some(i as int),
                None => entry_idx(self.spec_entries(), path@, 0) is None,
            },
    {
        let n = self.entries.len();
        let mut i: usize = 0;
        while i < n
            invariant
                i <= n,
                n == self.spec_entries().len(),
                entry_idx(self.spec_entries(), path@, 0) == entry_idx(
                    self.spec_entries(),
                    path@,
                    i as int,
                ),
            decreases n - i,
        {
            if self.entries[i].path.eq(path) {
                return Some(i);
            }
            i += 1;
        }
        None
    }

    /// The recorded column set for `path`, if any.
    pub fn get(&self, path: &String) -> (r: Option<&NameSet>)
        requires
            self.wf(),
        ensures
            match r {
                Some(ns) => self.abs().dom().contains(path@) && names_view(ns.spec_items())
                    == self.abs()[path@] && ns.distinct(),
                None => !self.abs().dom().contains(path@),
            },
    {
        match self.find(path) {
            Some(i) => {
                proof {
                    lemma_entry_idx(self.spec_entries(), path@, 0);
                }
                Some(&self.entries[i].cols)
            }
            None => None,
        }
    }

    /// Unions the names of `ws` into the column list recorded for `path`,
    /// keeping first-demand order.
    pub fn extend(&mut self, path: &String, ws: &Vec<String>)
        requires
            old(self).wf(),
        ensures
            final (self).wf(),
            final (self).abs() == map_extend(old(self).abs(), path@, names_view(ws@)),
    {
        let found = self.find(path);
        let at: usize = match found {
            Some(i) => i,
            None => {
                let path2 = path.clone();
                self.entries.push(PathEntry { path: path2, cols: NameSet::new() });
                self.entries.len() - 1
            }
        };
        proof {
            lemma_entry_idx(old(self).spec_entries(), path@, 0);
            if found is None {
                assert(self.spec_entries() =~= old(self).spec_entries().push(
                    self.spec_entries().last(),
                ));
            }
            assert(at < self.spec_entries().len());
            assert(self.spec_entries()[at as int].path@ == path@);
        }
        let ghost base = self.spec_entries();
        let mut cols = self.entries[at].cols.clone();
        let ghost cols0 = names_view(cols.spec_items());
        let n = ws.len();
        let mut j: usize = 0;
        while j < n
            invariant
                j <= n,
                n == ws@.len(),
                cols.distinct(),
                extend_cols(names_view(cols.spec_items()), names_view(ws@), j as int)
                    == extend_cols(cols0, names_view(ws@), 0),
            decreases n - j,
        {
            let ghost before = names_view(cols.spec_items());
            let ghost items_before = cols.spec_items();
            let w = ws[j].clone();
            let inserted = cols.insert(w);
            proof {
                let wv = ws@[j as int]@;
                if inserted {
                    assert(names_view(cols.spec_items()) =~= before.push(wv));
                    if before.contains(wv) {
                        let k = choose|k: int| 0 <= k < before.len() && before[k] == wv;
                        assert(items_before[k]@ == wv);
                        assert(false);
                    }
                } else {
                    assert(cols.spec_items() == items_before);
                    let k = choose|k: int| 0 <= k < items_before.len() && items_before[k]@ == wv;
                    assert(before[k] == wv);
                    assert(before.contains(wv));
                }
                assert(names_view(ws@)[j as int] == wv);
                assert(names_view(cols.spec_items()) == ins_name(before, wv));
            }
            j += 1;
        }
        let path3 = self.entries[at].path.clone();
        self.entries.set(at, PathEntry { path: path3, cols });
        proof {
            let oldes = old(self).spec_entries();
            let newes = self.spec_entries();
            let wsv = names_view(ws@);
            assert(newes == base.update(at as int, newes[at as int]));
            assert(newes[at as int].path@ == path@);
            assert(names_view(newes[at as int].cols.spec_items()) == extend_cols(cols0, wsv, 0));
            // the entry layout: everything but the touched entry is as it
            // was before the call, and the touched entry records `path`
            assert forall|i: int| 0 <= i < newes.len() && i != at implies newes[i] == (if i
                < oldes.len() {
                oldes[i]
            } else {
                newes[i]
            }) && (i >= oldes.len() ==> newes[i].path@ == path@) by {
                if i < oldes.len() {
                    assert(base[i] == oldes[i]);
                }
            }
            assert(self.wf()) by {
                assert forall|i: int, k: int|
                    0 <= i < k < newes.len() implies newes[i].path@ != newes[k].path@ by {
                    if i != at && k != at {
                        if k < oldes.len() {
                            assert(oldes[i].path@ != oldes[k].path@);
                        } else {
                            assert(newes[i] == oldes[i]);
                            assert(entry_idx(oldes, path@, 0) is None);
                            lemma_entry_idx(oldes, path@, 0);
                        }
                    } else {
                        if found is Some {
                            lemma_entry_idx(oldes, path@, 0);
                            assert(forall|q: int|
                                0 <= q < oldes.len() && q != at ==> oldes[q].path@ != path@);
                        } else {
                            lemma_entry_idx(oldes, path@, 0);
                        }
                    }
                }
            }
            if found is Some {
                assert(entry_idx(oldes, path@, 0) == Some(at as int));
                assert(old(self).abs().dom().contains(path@));
                assert(cols0 == old(self).abs()[path@]);
            } else {
                assert(!old(self).abs().dom().contains(path@));
                assert(cols0 =~= Seq::<Seq<char>>::empty());
            }
            assert(map_extend(old(self).abs(), path@, wsv)[path@] == extend_cols(cols0, wsv, 0));
            assert forall|p: Seq<char>| true implies #[trigger] self.abs().dom().contains(
                p,
            ) == map_extend(old(self).abs(), path@, wsv).dom().contains(p) && (self.abs().dom().contains(
                p,
            ) ==> self.abs()[p] == map_extend(
                old(self).abs(),
                path@,
                wsv,
            )[p]) by {
                lemma_entry_idx(newes, p, 0);
                lemma_entry_idx(oldes, p, 0);
                if p == path@ {
                    assert(newes[at as int].path@ == p);
                    assert(entry_idx(newes, p, 0) is Some);
                    let i = entry_idx(newes, p, 0)->Some_0;
                    assert(i == at) by {
                        if i != at {
                            assert(newes[i].path@ != path@);
                        }
                    }
                } else {
                    match entry_idx(newes, p, 0) {
                        Some(i) => {
                            assert(i != at);
                            assert(i < oldes.len());
                            assert(newes[i] == oldes[i]);
                            assert(entry_idx(oldes, p, 0) is Some);
                            let i2 = entry_idx(oldes, p, 0)->Some_0;
                            assert(oldes[i2].path@ == p);
                            assert(i2 == i) by {
                                if i2 < i {
                                    assert(newes[i2].path@ != p);
                                    assert(i2 != at);
                                    assert(newes[i2] == oldes[i2]);
                                } else if i < i2 {
                                    assert(oldes[i].path@ != p);
                                }
                            }
                        }
                        None => {
                            match entry_idx(oldes, p, 0) {
                                Some(i2) => {
                                    assert(oldes[i2].path@ == p);
                                    assert(i2 != at || found is None);
                                    if found is Some {
                                        assert(newes[i2] == oldes[i2]);
                                        assert(newes[i2].path@ != p);
                                        assert(false);
                                    } else {
                                        assert(i2 < oldes.len());
                                        assert(newes[i2] == oldes[i2]);
                                        assert(newes[i2].path@ != p);
                                        assert(false);
                                    }
                                }
                                None => {}
                            }
                        }
                    }
                }
            }
            assert(self.abs() =~= map_extend(old(self).abs(), path@, wsv));
        }
    }
}


/// Records one scan's column request under its source path: a request is
/// unioned in, an absent request (read all columns) leaves the map as is.
pub fn process_with_columns(
    path: &String,
    with_columns: &Option<Vec<String>>,
    columns: &mut PathColumns,
)
    requires
        old(columns).wf(),
    ensures
        final (columns).wf(),
        final (columns).abs() == match with_columns {
            Some(wc) => map_extend(old(columns).abs(), path@, names_view(wc@)),
            None => old(columns).abs(),
        },
{
    if let Some(wc) = with_columns {
        columns.extend(path, wc);
    }
}

/// Aggregates the column requests of every file scan reachable from
/// `root` into `columns`, keyed by source path.
pub fn agg_projection(
    root: Node,
    columns: &mut PathColumns,
    lp_arena: &Arena<ALogicalPlan>,
)
    requires
        old(columns).wf(),
        plan_wf(lp_arena.view()),
        plan_node_ok(lp_arena.view(), root),
    ensures
        final (columns).wf(),
        final (columns).abs() == agg_spec(lp_arena.view(), root.0 as int, old(columns).abs()),
    decreases root.0,
{
    let lp = lp_arena.get(root);
    proof {
        assert(plan_slot_ok(lp_arena.view(), root.0 as int));
    }
    match lp {
        ALogicalPlan::CsvScan { path, with_columns, .. } => {
            process_with_columns(path, with_columns, columns);
        }
        ALogicalPlan::ParquetScan { path, with_columns, .. } => {
            process_with_columns(path, with_columns, columns);
        }
        ALogicalPlan::DataFrameScan { .. } => {}
        _ => {
            let inputs = lp.get_inputs();
            let n = inputs.len();
            let mut k: usize = 0;
            while k < n
                invariant
                    k <= n,
                    n == inputs@.len(),
                    old(columns).wf(),
                    columns.wf(),
                    plan_wf(lp_arena.view()),
                    root.0 < lp_arena.view().len(),
                    inputs@ == inputs_of(lp_arena.view()[root.0 as int]->Some_0),
                    forall|j: int| 0 <= j < inputs@.len() ==> (#[trigger] inputs@[j]).0 < root.0
                        && lp_arena.view()[inputs@[j].0 as int] is Some,
                    agg_inputs(lp_arena.view(), inputs@, k as int, columns.abs(), root.0 as int)
                        == agg_inputs(
                        lp_arena.view(),
                        inputs@,
                        0,
                        old(columns).abs(),
                        root.0 as int,
                    ),
                decreases n - k,
            {
                agg_projection(inputs[k], columns, lp_arena);
                k += 1;
            }
        }
    }
}

/// Whether `p` is a file scan (CSV or Parquet).
pub open spec fn is_file_scan(p: ALogicalPlan) -> bool {
    p is CsvScan || p is ParquetScan
}

/// The source path of a file scan.
pub open spec fn scan_path(p: ALogicalPlan) -> Seq<char> {
    match p {
        ALogicalPlan::CsvScan { path, .. } => path@,
        ALogicalPlan::ParquetScan { path, .. } => path@,
        _ => Seq::empty(),
    }
}

/// The column request of a file scan, as name views.
pub open spec fn scan_wc(p: ALogicalPlan) -> Option<Seq<Seq<char>>> {
    match p {
        ALogicalPlan::CsvScan { with_columns, .. } => match with_columns {
            Some(v) => Some(names_view(v@)),
            None => None,
        },
        ALogicalPlan::ParquetScan { with_columns, .. } => match with_columns {
            Some(v) => Some(names_view(v@)),
            None => None,
        },
        _ => None,
    }
}

/// The stored schema of a file scan.
pub open spec fn scan_schema(p: ALogicalPlan) -> Schema {
    match p {
        ALogicalPlan::CsvScan { schema, .. } => schema,
        ALogicalPlan::ParquetScan { schema, .. } => schema,
        _ => arbitrary(),
    }
}

/// What the map records for `path`, in the shape of a column request.
pub open spec fn map_wc(m: Map<Seq<char>, Seq<Seq<char>>>, path: Seq<char>) -> Option<
    Seq<Seq<char>>,
> {
    if m.dom().contains(path) {
        Some(m[path])
    } else {
        None
    }
}

/// A file scan whose own request cannot be narrowed back after widening:
/// it asks for fewer columns than its source's record, yet some requested
/// name is missing from the scan's own schema.  This is the one condition
/// under which the rewrite fails.
pub open spec fn scan_request_unresolvable(
    p: ALogicalPlan,
    m: Map<Seq<char>, Seq<Seq<char>>>,
) -> bool {
    &&& is_file_scan(p)
    &&& scan_wc(p) is Some
    &&& m.dom().contains(scan_path(p))
    &&& scan_wc(p)->Some_0.len() < m[scan_path(p)].len()
    &&& exists|j: int|
        0 <= j < scan_wc(p)->Some_0.len() && crate::schema::fields_lookup(
            scan_schema(p).spec_fields(),
            #[trigger] scan_wc(p)->Some_0[j],
        ) is None
}

/// A file scan already requesting exactly what the map records for its
/// source: the rewrite's fixed point.
pub open spec fn scan_at_record(p: ALogicalPlan, m: Map<Seq<char>, Seq<Seq<char>>>) -> bool {
    is_file_scan(p) && scan_wc(p) == map_wc(m, scan_path(p))
}

/// Slot `n` of the arena is settled by the rewrite: it holds either a
/// narrowing projection whose input is a scan at its source's record, or
/// such a scan directly.
pub open spec fn scan_settled(
    a: Seq<Option<ALogicalPlan>>,
    n: int,
    m: Map<Seq<char>, Seq<Seq<char>>>,
) -> bool {
    a[n] matches Some(c) && ((c matches ALogicalPlan::Projection { input, .. } && input.0
        < a.len() && (a[input.0 as int] matches Some(s2) && scan_at_record(s2, m)))
        || scan_at_record(c, m))
}

/// `p2` is `p1` with its column request replaced: every other payload of
/// the scan is carried over unchanged.
pub open spec fn scan_rebuilt(p2: ALogicalPlan, p1: ALogicalPlan, wc2: Option<Seq<Seq<char>>>) -> bool {
    match p1 {
        ALogicalPlan::CsvScan {
            path,
            schema,
            has_header,
            delimiter,
            ignore_errors,
            skip_rows,
            stop_after_n_rows,
            with_columns: _,
            predicate,
            aggregate,
            cache,
        } => p2 matches ALogicalPlan::CsvScan {
            path: path2,
            schema: schema2,
            has_header: hh2,
            delimiter: d2,
            ignore_errors: ie2,
            skip_rows: sr2,
            stop_after_n_rows: st2,
            with_columns: wc,
            predicate: pr2,
            aggregate: ag2,
            cache: c2,
        } && path2 == path && schema2 == schema && hh2 == has_header && d2 == delimiter && ie2
            == ignore_errors && sr2 == skip_rows && st2 == stop_after_n_rows && pr2 == predicate
            && ag2 == aggregate && c2 == cache && (match wc {
            Some(v) => wc2 == Some(names_view(v@)),
            None => wc2 is None,
        }),
        ALogicalPlan::ParquetScan {
            path,
            schema,
            with_columns: _,
            predicate,
            aggregate,
            stop_after_n_rows,
            cache,
        } => p2 matches ALogicalPlan::ParquetScan {
            path: path2,
            schema: schema2,
            with_columns: wc,
            predicate: pr2,
            aggregate: ag2,
            stop_after_n_rows: st2,
            cache: c2,
        } && path2 == path && schema2 == schema && pr2 == predicate && ag2 == aggregate && st2
            == stop_after_n_rows && c2 == cache && (match wc {
            Some(v) => wc2 == Some(names_view(v@)),
            None => wc2 is None,
        }),
        _ => false,
    }
}

/// Compares two column lists by their texts.
fn names_eq(a: &Vec<String>, b: &Vec<String>) -> (r: bool)
    ensures
        r == (names_view(a@) == names_view(b@)),
{
    let n = a.len();
    if n != b.len() {
        proof {
            assert(names_view(a@).len() != names_view(b@).len());
        }
        return false;
    }
    let mut i: usize = 0;
    while i < n
        invariant
            i <= n,
            n == a@.len(),
            n == b@.len(),
            forall|j: int| 0 <= j < i ==> a@[j]@ == b@[j]@,
        decreases n - i,
    {
        if !a[i].eq(&b[i]) {
            proof {
                assert(names_view(a@)[i as int] != names_view(b@)[i as int]);
            }
            return false;
        }
        i += 1;
    }
    proof {
        assert(names_view(a@) =~= names_view(b@));
    }
    true
}

/// The scan-sharing rewrite: after [`agg_projection`] has filled in the
/// per-source unions, every file scan is widened to read its source's
/// whole union, and a projection narrowing back to the scan's own request
/// is placed above it where that request was smaller.
pub struct AggScanProjection {
    pub columns: PathColumns,
}

impl AggScanProjection {
    /// Wraps the rewritten scan `lp` in a narrowing projection when its
    /// own request `with_columns` asked for fewer columns than the
    /// source's union; the projection re-selects exactly the requested
    /// columns.  Fails when a requested column is missing from the scan's
    /// schema.
    fn finish_rewrite(
        &self,
        lp: ALogicalPlan,
        expr_arena: &mut Arena<AExpr>,
        lp_arena: &mut Arena<ALogicalPlan>,
        path: &String,
        with_columns: Option<Vec<String>>,
    ) -> (r: Result<ALogicalPlan, PlanError>)
        requires
            self.columns.wf(),
            expr_wf(old(expr_arena).view()),
            is_file_scan(lp),
        ensures
            expr_wf(final (expr_arena).view()),
            final (expr_arena).view().len() >= old(expr_arena).view().len(),
            forall|i: int|
                0 <= i < old(expr_arena).view().len() ==> final (expr_arena).view()[i] == old(
                    expr_arena,
                ).view()[i],
            match r {
                Ok(lp2) => {
                    if with_columns matches Some(w) && self.columns.abs().dom().contains(path@)
                        && names_view(w@).len() < self.columns.abs()[path@].len() {
                        &&& final (lp_arena).view() == old(lp_arena).view().push(Some(lp))
                        &&& lp2 matches ALogicalPlan::Projection { expr, input, schema } && input.0
                            == old(lp_arena).view().len() && expr@.len() == (
                        with_columns->Some_0)@.len() && (forall|j: int|
                            0 <= j < expr@.len() ==> (#[trigger] expr@[j]).0 < final(expr_arena).view().len() && (final(expr_arena).view()[expr@[j].0 as int] matches Some(
                                AExpr::Column(nm),
                            ) && nm@ == (with_columns->Some_0)@[j]@)) && crate::infer::abs_fields(
                            schema.spec_fields(),
                        ) == Seq::new(
                            (with_columns->Some_0)@.len() as nat,
                            |j: int|
                                (
                                    (with_columns->Some_0)@[j]@,
                                    crate::schema::fields_lookup(
                                        scan_schema(lp).spec_fields(),
                                        (with_columns->Some_0)@[j]@,
                                    )->Some_0,
                                ),
                        )
                    } else {
                        lp2 == lp && final (lp_arena).view() == old(lp_arena).view() && final(expr_arena).view() == old(expr_arena).view()
                    }
                },
                Err(e) => e is FieldNotFound || e is InvalidOperation,
            },
            r is Err <==> (with_columns matches Some(w) && self.columns.abs().dom().contains(
                path@,
            ) && names_view(w@).len() < self.columns.abs()[path@].len() && exists|j: int|
                0 <= j < w@.len() && crate::schema::fields_lookup(
                    scan_schema(lp).spec_fields(),
                    (#[trigger] w@[j])@,
                ) is None),
    {
        if let Some(w) = with_columns {
            let agg = self.columns.get(path);
            if let Some(agg_cols) = agg {
                if w.len() < agg_cols.len() {
                    let scan_sch = match &lp {
                        ALogicalPlan::CsvScan { schema, .. } => schema.clone(),
                        ALogicalPlan::ParquetScan { schema, .. } => schema.clone(),
                        _ => {
                            proof {
                                assert(false);
                            }
                            Schema::new(Vec::new())
                        }
                    };
                    let node = lp_arena.add(lp);
                    let mut projections: Vec<Node> = Vec::new();
                    let m = w.len();
                    let mut j: usize = 0;
                    while j < m
                        invariant
                            j <= m,
                            m == w@.len(),
                            expr_wf(expr_arena.view()),
                            projections@.len() == j,
                            expr_arena.view().len() >= old(expr_arena).view().len(),
                            forall|i: int|
                                0 <= i < old(expr_arena).view().len() ==> expr_arena.view()[i]
                                    == old(expr_arena).view()[i],
                            forall|q: int|
                                0 <= q < j ==> (#[trigger] projections@[q]).0
                                    < expr_arena.view().len() && (expr_arena.view()[projections@[q].0 as int]
                                     matches Some(AExpr::Column(nm)) && nm@ == w@[q]@),
                        decreases m - j,
                    {
                        let name = w[j].clone();
                        let ghost e0 = expr_arena.view();
                        let en = expr_arena.add(AExpr::Column(name));
                        proof {
                            assert forall|i: int|
                                0 <= i < expr_arena.view().len() implies crate::aexpr::expr_slot_ok(
                                expr_arena.view(),
                                i,
                            ) by {
                                if i < e0.len() {
                                    assert(crate::aexpr::expr_slot_ok(e0, i));
                                }
                            }
                        }
                        projections.push(en);
                        j += 1;
                    }
                    let schema = match exprs_to_schema(&projections, &scan_sch, expr_arena) {
                        Ok(s) => s,
                        Err(e) => {
                            proof {
                                assert(!crate::infer::all_exprs_typed(
                                    expr_arena.view(),
                                    scan_sch.spec_fields(),
                                    projections@,
                                ));
                                let j = choose|j: int|
                                    0 <= j < projections@.len() && crate::aexpr::spec_to_field(
                                        expr_arena.view(),
                                        scan_sch.spec_fields(),
                                        (#[trigger] projections@[j]).0 as int,
                                    ) is None;
                                assert(crate::schema::fields_lookup(
                                    scan_sch.spec_fields(),
                                    w@[j]@,
                                ) is None);
                                assert(scan_sch.spec_fields() == scan_schema(lp).spec_fields());
                                assert(names_view(w@).len() == w@.len());
                            }
                            return Err(e);
                        }
                    };
                    proof {
                        assert forall|j: int| 0 <= j < w@.len() implies crate::schema::fields_lookup(
                            scan_schema(lp).spec_fields(),
                            (#[trigger] w@[j])@,
                        ) is Some by {
                            assert(crate::aexpr::spec_to_field(
                                expr_arena.view(),
                                scan_sch.spec_fields(),
                                projections@[j].0 as int,
                            ) is Some);
                        }
                        assert(scan_sch.spec_fields() == scan_schema(lp).spec_fields());
                        assert forall|j: int| 0 <= j < projections@.len() implies crate::aexpr::spec_to_field(
                            expr_arena.view(),
                            scan_sch.spec_fields(),
                            (#[trigger] projections@[j]).0 as int,
                        ) == Some(
                            (
                                w@[j]@,
                                crate::schema::fields_lookup(scan_sch.spec_fields(), w@[j]@)->Some_0,
                            ),
                        ) by {
                            assert(crate::aexpr::spec_to_field(
                                expr_arena.view(),
                                scan_sch.spec_fields(),
                                projections@[j].0 as int,
                            ) is Some);
                        }
                        assert(crate::infer::abs_fields(schema.spec_fields()) =~= Seq::new(
                            w@.len() as nat,
                            |j: int|
                                (
                                    w@[j]@,
                                    crate::schema::fields_lookup(
                                        scan_schema(lp).spec_fields(),
                                        w@[j]@,
                                    )->Some_0,
                                ),
                        ));
                    }
                    return Ok(ALogicalPlan::Projection { expr: projections, input: node, schema });
                }
            }
            return Ok(lp);
        }
        Ok(lp)
    }
}

impl AggScanProjection {
    /// Applies the rule to the node at `node`: a file scan whose request
    /// already equals its source's recorded union is left as it is
    /// (`None`, the fixed point); any other file scan is widened to the
    /// union, narrowed back by [`AggScanProjection::finish_rewrite`], and
    /// the rewritten operator for this position is handed back for the
    /// caller to put in place.  Non-scan operators are left untouched.
    pub fn optimize_plan(
        &self,
        lp_arena: &mut Arena<ALogicalPlan>,
        expr_arena: &mut Arena<AExpr>,
        node: Node,
    ) -> (r: Result<Option<ALogicalPlan>, PlanError>)
        requires
            self.columns.wf(),
            plan_node_ok(old(lp_arena).view(), node),
            expr_wf(old(expr_arena).view()),
        ensures
            expr_wf(final(expr_arena).view()),
            final(expr_arena).view().len() >= old(expr_arena).view().len(),
            forall|i: int|
                0 <= i < old(expr_arena).view().len() ==> final(expr_arena).view()[i] == old(
                    expr_arena,
                ).view()[i],
            match r {
                Ok(ro) => match ro {
                    None => final(lp_arena).view() == old(lp_arena).view() && final(expr_arena).view() == old(expr_arena).view() && (is_file_scan(
                        old(lp_arena).view()[node.0 as int]->Some_0,
                    ) ==> scan_wc(old(lp_arena).view()[node.0 as int]->Some_0) == map_wc(
                        self.columns.abs(),
                        scan_path(old(lp_arena).view()[node.0 as int]->Some_0),
                    )),
                    Some(lp2) => {
                        let p = old(lp_arena).view()[node.0 as int]->Some_0;
                        let target = map_wc(self.columns.abs(), scan_path(p));
                        &&& is_file_scan(p)
                        &&& scan_wc(p) != target
                        &&& if scan_wc(p) matches Some(w0) && self.columns.abs().dom().contains(
                            scan_path(p),
                        ) && w0.len() < self.columns.abs()[scan_path(p)].len() {
                            &&& final(lp_arena).view().len() == old(lp_arena).view().len() + 1
                            &&& forall|i: int|
                                0 <= i < old(lp_arena).view().len() && i != node.0 ==> final(lp_arena).view()[i] == old(lp_arena).view()[i]
                            &&& final(lp_arena).view()[node.0 as int] is None
                            &&& (final(lp_arena).view().last() matches Some(s2) && scan_rebuilt(
                                s2,
                                p,
                                target,
                            ))
                            &&& (lp2 matches ALogicalPlan::Projection { expr, input, .. } && input.0
                                == old(lp_arena).view().len() && expr@.len() == scan_wc(p)->Some_0.len() && (
                            forall|j: int|
                                0 <= j < expr@.len() ==> (#[trigger] expr@[j]).0 < final(expr_arena).view().len() && (final(expr_arena).view()[expr@[j].0 as int]
                                     matches Some(AExpr::Column(nm)) && nm@ == scan_wc(p)->Some_0[j])))
                        } else {
                            &&& final(lp_arena).view() == old(lp_arena).view().update(
                                node.0 as int,
                                None,
                            )
                            &&& scan_rebuilt(lp2, p, target)
                        }
                    },
                },
                Err(e) => e is FieldNotFound || e is InvalidOperation,
            },
            r is Err <==> {
                let p = old(lp_arena).view()[node.0 as int]->Some_0;
                &&& is_file_scan(p)
                &&& scan_wc(p) is Some
                &&& self.columns.abs().dom().contains(scan_path(p))
                &&& scan_wc(p)->Some_0.len() < self.columns.abs()[scan_path(p)].len()
                &&& exists|j: int|
                    0 <= j < scan_wc(p)->Some_0.len() && crate::schema::fields_lookup(
                        scan_schema(p).spec_fields(),
                        #[trigger] scan_wc(p)->Some_0[j],
                    ) is None
            },
    {
        {
            let lp = lp_arena.get(node);
            match lp {
                ALogicalPlan::CsvScan { .. } | ALogicalPlan::ParquetScan { .. } => {}
                _ => {
                    return Ok(None);
                }
            }
        }
        let lp = lp_arena.take(node);
        match lp {
            ALogicalPlan::CsvScan {
                path,
                schema,
                has_header,
                delimiter,
                ignore_errors,
                skip_rows,
                stop_after_n_rows,
                with_columns,
                predicate,
                aggregate,
                cache,
            } => {
                let new_with_columns: Option<Vec<String>> = match self.columns.get(&path) {
                    Some(ns) => Some(crate::alp::clone_names(ns.items())),
                    None => None,
                };
                proof {
                    match &new_with_columns {
                        Some(b) => {
                            assert(names_view(b@) =~= self.columns.abs()[path@]);
                        }
                        None => {}
                    }
                    match &with_columns {
                        Some(a) => {
                            assert(names_view(a@) == scan_wc(
                                old(lp_arena).view()[node.0 as int]->Some_0,
                            )->Some_0);
                        }
                        None => {}
                    }
                }
                let equal = match (&with_columns, &new_with_columns) {
                    (None, None) => true,
                    (Some(a), Some(b)) => names_eq(a, b),
                    _ => false,
                };
                if equal {
                    proof {
                        let p = old(lp_arena).view()[node.0 as int]->Some_0;
                        match &with_columns {
                            Some(a) => {
                                assert(scan_wc(p) == Some(names_view(a@)));
                                assert(scan_wc(p)->Some_0.len()
                                    == self.columns.abs()[scan_path(p)].len());
                            }
                            None => {
                                assert(scan_wc(p) is None);
                            }
                        }
                    }
                    let lp2 = ALogicalPlan::CsvScan {
                        path,
                        schema,
                        has_header,
                        delimiter,
                        ignore_errors,
                        skip_rows,
                        stop_after_n_rows,
                        with_columns,
                        predicate,
                        aggregate,
                        cache,
                    };
                    lp_arena.replace(node, lp2);
                    proof {
                        assert(lp_arena.view() =~= old(lp_arena).view());
                    }
                    return Ok(None);
                }
                let path2 = path.clone();
                let scan2 = ALogicalPlan::CsvScan {
                    path: path2,
                    schema,
                    has_header,
                    delimiter,
                    ignore_errors,
                    skip_rows,
                    stop_after_n_rows,
                    with_columns: new_with_columns,
                    predicate,
                    aggregate,
                    cache,
                };
                let ghost scan2g = scan2;
                let ghost wc0 = with_columns;
                let res = self.finish_rewrite(scan2, expr_arena, lp_arena, &path, with_columns);
                proof {
                    let p = old(lp_arena).view()[node.0 as int]->Some_0;
                    assert(scan_path(p) == path@);
                    assert(scan_schema(scan2g).spec_fields() == scan_schema(p).spec_fields());
                    match wc0 {
                        Some(a) => {
                            assert(scan_wc(p) == Some(names_view(a@)));
                            assert(scan_wc(p)->Some_0.len() == a@.len());
                            if res is Err {
                                let j = choose|j: int|
                                    0 <= j < a@.len() && crate::schema::fields_lookup(
                                        scan_schema(scan2g).spec_fields(),
                                        (#[trigger] a@[j])@,
                                    ) is None;
                                assert(scan_wc(p)->Some_0[j] == a@[j]@);
                                assert(crate::schema::fields_lookup(
                                    scan_schema(p).spec_fields(),
                                    scan_wc(p)->Some_0[j],
                                ) is None);
                            } else {
                                if exists|j: int|
                                    0 <= j < scan_wc(p)->Some_0.len()
                                        && crate::schema::fields_lookup(
                                        scan_schema(p).spec_fields(),
                                        #[trigger] scan_wc(p)->Some_0[j],
                                    ) is None {
                                    let j = choose|j: int|
                                        0 <= j < scan_wc(p)->Some_0.len()
                                            && crate::schema::fields_lookup(
                                            scan_schema(p).spec_fields(),
                                            #[trigger] scan_wc(p)->Some_0[j],
                                        ) is None;
                                    assert(a@[j]@ == scan_wc(p)->Some_0[j]);
                                    if self.columns.abs().dom().contains(path@)
                                        && names_view(a@).len()
                                        < self.columns.abs()[path@].len() {
                                        assert(res is Err);
                                    }
                                }
                            }
                        }
                        None => {
                            assert(scan_wc(p) is None);
                        }
                    }
                }
                match res {
                    Ok(lp2) => Ok(Some(lp2)),
                    Err(e) => Err(e),
                }
            }
            ALogicalPlan::ParquetScan {
                path,
                schema,
                with_columns,
                predicate,
                aggregate,
                stop_after_n_rows,
                cache,
            } => {
                let new_with_columns: Option<Vec<String>> = match self.columns.get(&path) {
                    Some(ns) => Some(crate::alp::clone_names(ns.items())),
                    None => None,
                };
                proof {
                    match &new_with_columns {
                        Some(b) => {
                            assert(names_view(b@) =~= self.columns.abs()[path@]);
                        }
                        None => {}
                    }
                    match &with_columns {
                        Some(a) => {
                            assert(names_view(a@) == scan_wc(
                                old(lp_arena).view()[node.0 as int]->Some_0,
                            )->Some_0);
                        }
                        None => {}
                    }
                }
                let equal = match (&with_columns, &new_with_columns) {
                    (None, None) => true,
                    (Some(a), Some(b)) => names_eq(a, b),
                    _ => false,
                };
                if equal {
                    proof {
                        let p = old(lp_arena).view()[node.0 as int]->Some_0;
                        match &with_columns {
                            Some(a) => {
                                assert(scan_wc(p) == Some(names_view(a@)));
                                assert(scan_wc(p)->Some_0.len()
                                    == self.columns.abs()[scan_path(p)].len());
                            }
                            None => {
                                assert(scan_wc(p) is None);
                            }
                        }
                    }
                    let lp2 = ALogicalPlan::ParquetScan {
                        path,
                        schema,
                        with_columns,
                        predicate,
                        aggregate,
                        stop_after_n_rows,
                        cache,
                    };
                    lp_arena.replace(node, lp2);
                    proof {
                        assert(lp_arena.view() =~= old(lp_arena).view());
                    }
                    return Ok(None);
                }
                let path2 = path.clone();
                let scan2 = ALogicalPlan::ParquetScan {
                    path: path2,
                    schema,
                    with_columns: new_with_columns,
                    predicate,
                    aggregate,
                    stop_after_n_rows,
                    cache,
                };
                let ghost scan2g = scan2;
                let ghost wc0 = with_columns;
                let res = self.finish_rewrite(scan2, expr_arena, lp_arena, &path, with_columns);
                proof {
                    let p = old(lp_arena).view()[node.0 as int]->Some_0;
                    assert(scan_path(p) == path@);
                    assert(scan_schema(scan2g).spec_fields() == scan_schema(p).spec_fields());
                    match wc0 {
                        Some(a) => {
                            assert(scan_wc(p) == Some(names_view(a@)));
                            assert(scan_wc(p)->Some_0.len() == a@.len());
                            if res is Err {
                                let j = choose|j: int|
                                    0 <= j < a@.len() && crate::schema::fields_lookup(
                                        scan_schema(scan2g).spec_fields(),
                                        (#[trigger] a@[j])@,
                                    ) is None;
                                assert(scan_wc(p)->Some_0[j] == a@[j]@);
                                assert(crate::schema::fields_lookup(
                                    scan_schema(p).spec_fields(),
                                    scan_wc(p)->Some_0[j],
                                ) is None);
                            } else {
                                if exists|j: int|
                                    0 <= j < scan_wc(p)->Some_0.len()
                                        && crate::schema::fields_lookup(
                                        scan_schema(p).spec_fields(),
                                        #[trigger] scan_wc(p)->Some_0[j],
                                    ) is None {
                                    let j = choose|j: int|
                                        0 <= j < scan_wc(p)->Some_0.len()
                                            && crate::schema::fields_lookup(
                                            scan_schema(p).spec_fields(),
                                            #[trigger] scan_wc(p)->Some_0[j],
                                        ) is None;
                                    assert(a@[j]@ == scan_wc(p)->Some_0[j]);
                                    if self.columns.abs().dom().contains(path@)
                                        && names_view(a@).len()
                                        < self.columns.abs()[path@].len() {
                                        assert(res is Err);
                                    }
                                }
                            }
                        }
                        None => {
                            assert(scan_wc(p) is None);
                        }
                    }
                }
                match res {
                    Ok(lp2) => Ok(Some(lp2)),
                    Err(e) => Err(e),
                }
            }
            _ => {
                proof {
                    assert(false);
                }
                Ok(None)
            }
        }
    }

    /// Collects the handles of every file scan reachable from `root`.
    fn collect_file_scans(
        &self,
        root: Node,
        lp_arena: &Arena<ALogicalPlan>,
        out: &mut Vec<Node>,
    )
        requires
            plan_wf(lp_arena.view()),
            plan_node_ok(lp_arena.view(), root),
        ensures
            final(out)@.len() >= old(out)@.len(),
            forall|k: int| 0 <= k < old(out)@.len() ==> final(out)@[k] == old(out)@[k],
            forall|k: int|
                old(out)@.len() <= k < final(out)@.len() ==> plan_node_ok(
                    lp_arena.view(),
                    #[trigger] final(out)@[k],
                ) && is_file_scan(lp_arena.view()[final(out)@[k].0 as int]->Some_0),
            forall|n: int|
                crate::alp::subtree(lp_arena.view(), root.0 as int).contains(n)
                    && lp_arena.view()[n] is Some && is_file_scan(lp_arena.view()[n]->Some_0)
                    ==> exists|k: int| 0 <= k < final(out)@.len() && (#[trigger] final(out)@[k]).0 == n,
        decreases root.0,
    {
        let lp = lp_arena.get(root);
        proof {
            assert(plan_slot_ok(lp_arena.view(), root.0 as int));
            crate::alp::lemma_subtree(lp_arena.view(), root.0 as int);
        }
        match lp {
            ALogicalPlan::CsvScan { .. } | ALogicalPlan::ParquetScan { .. } => {
                out.push(root);
                proof {
                    assert(inputs_of(lp_arena.view()[root.0 as int]->Some_0).len() == 0);
                    assert forall|n: int|
                        crate::alp::subtree(lp_arena.view(), root.0 as int).contains(n)
                            && lp_arena.view()[n] is Some && is_file_scan(
                            lp_arena.view()[n]->Some_0,
                        ) implies exists|k: int|
                        0 <= k < out@.len() && (#[trigger] out@[k]).0 == n by {
                        assert(n == root.0 as int);
                        assert(out@[out@.len() - 1].0 == n);
                    }
                }
            }
            _ => {
                let inputs = lp.get_inputs();
                let n = inputs.len();
                let mut k: usize = 0;
                while k < n
                    invariant
                        k <= n,
                        n == inputs@.len(),
                        plan_wf(lp_arena.view()),
                        root.0 < lp_arena.view().len(),
                        inputs@ == inputs_of(lp_arena.view()[root.0 as int]->Some_0),
                        forall|j: int| 0 <= j < inputs@.len() ==> (#[trigger] inputs@[j]).0
                            < root.0 && lp_arena.view()[inputs@[j].0 as int] is Some,
                        out@.len() >= old(out)@.len(),
                        forall|q: int| 0 <= q < old(out)@.len() ==> out@[q] == old(out)@[q],
                        forall|q: int|
                            old(out)@.len() <= q < out@.len() ==> plan_node_ok(
                                lp_arena.view(),
                                #[trigger] out@[q],
                            ) && is_file_scan(lp_arena.view()[out@[q].0 as int]->Some_0),
                        forall|m: int|
                            (exists|q: int|
                                0 <= q < k && crate::alp::subtree(
                                    lp_arena.view(),
                                    (#[trigger] inputs@[q]).0 as int,
                                ).contains(m)) && lp_arena.view()[m] is Some && is_file_scan(
                                lp_arena.view()[m]->Some_0,
                            ) ==> exists|w: int| 0 <= w < out@.len() && out@[w].0 == m,
                    decreases n - k,
                {
                    let ghost out_mid = out@;
                    self.collect_file_scans(inputs[k], lp_arena, out);
                    proof {
                        assert forall|m: int|
                            (exists|q: int|
                                0 <= q < k + 1 && crate::alp::subtree(
                                    lp_arena.view(),
                                    (#[trigger] inputs@[q]).0 as int,
                                ).contains(m)) && lp_arena.view()[m] is Some && is_file_scan(
                                lp_arena.view()[m]->Some_0,
                            ) implies exists|w: int| 0 <= w < out@.len() && out@[w].0 == m by {
                            let q = choose|q: int|
                                0 <= q < k + 1 && crate::alp::subtree(
                                    lp_arena.view(),
                                    (#[trigger] inputs@[q]).0 as int,
                                ).contains(m);
                            if q < k {
                                let w = choose|w: int|
                                    0 <= w < out_mid.len() && out_mid[w].0 == m;
                                assert(out@[w] == out_mid[w]);
                            } else {
                                let w = choose|w: int|
                                    0 <= w < out@.len() && (#[trigger] out@[w]).0 == m;
                                assert(out@[w].0 == m);
                            }
                        }
                    }
                    k += 1;
                }
                proof {
                    assert forall|m: int|
                        crate::alp::subtree(lp_arena.view(), root.0 as int).contains(m)
                            && lp_arena.view()[m] is Some && is_file_scan(
                            lp_arena.view()[m]->Some_0,
                        ) implies exists|w: int|
                        0 <= w < out@.len() && (#[trigger] out@[w]).0 == m by {
                        if m == root.0 as int {
                            assert(false);
                        } else {
                            if inputs@.len() >= 1 && crate::alp::subtree(
                                lp_arena.view(),
                                inputs@[0].0 as int,
                            ).contains(m) {
                                assert(exists|q: int|
                                    0 <= q < n && crate::alp::subtree(
                                        lp_arena.view(),
                                        (#[trigger] inputs@[q]).0 as int,
                                    ).contains(m));
                            } else {
                                assert(inputs@.len() >= 2 && crate::alp::subtree(
                                    lp_arena.view(),
                                    inputs@[1].0 as int,
                                ).contains(m));
                                assert(exists|q: int|
                                    0 <= q < n && crate::alp::subtree(
                                        lp_arena.view(),
                                        (#[trigger] inputs@[q]).0 as int,
                                    ).contains(m));
                            }
                        }
                    }
                }
            }
        }
    }

    /// Applies the rule to every file scan reachable from `root`.  On
    /// success every such scan is settled: it either sits at its source's
    /// recorded union, or has been replaced by a narrowing projection over
    /// a widened scan at that union.  The rewrite fails exactly on a scan
    /// whose own smaller request names a column its schema does not have,
    /// and the failure names that scan's condition.
    pub fn optimize(
        &self,
        root: Node,
        lp_arena: &mut Arena<ALogicalPlan>,
        expr_arena: &mut Arena<AExpr>,
    ) -> (r: Result<(), PlanError>)
        requires
            self.columns.wf(),
            plan_wf(old(lp_arena).view()),
            plan_node_ok(old(lp_arena).view(), root),
            expr_wf(old(expr_arena).view()),
        ensures
            expr_wf(final(expr_arena).view()),
            final(expr_arena).view().len() >= old(expr_arena).view().len(),
            forall|i: int|
                0 <= i < old(expr_arena).view().len() ==> final(expr_arena).view()[i] == old(
                    expr_arena,
                ).view()[i],
            r is Ok ==> final(lp_arena).view().len() >= old(lp_arena).view().len(),
            r is Ok ==> forall|i: int|
                0 <= i < old(lp_arena).view().len() && old(lp_arena).view()[i] is Some ==> final(lp_arena).view()[i] is Some,
            r is Ok ==> forall|m: int|
                crate::alp::subtree(old(lp_arena).view(), root.0 as int).contains(m) && old(
                    lp_arena,
                ).view()[m] is Some && is_file_scan(#[trigger] old(lp_arena).view()[m]->Some_0)
                    ==> scan_settled(final(lp_arena).view(), m, self.columns.abs()),
            r is Err ==> exists|m: int|
                0 <= m < old(lp_arena).view().len() && old(lp_arena).view()[m] is Some
                    && scan_request_unresolvable(
                    #[trigger] old(lp_arena).view()[m]->Some_0,
                    self.columns.abs(),
                ),
    {
        let mut scans: Vec<Node> = Vec::new();
        self.collect_file_scans(root, lp_arena, &mut scans);
        let n = scans.len();
        let mut k: usize = 0;
        while k < n
            invariant
                k <= n,
                n == scans@.len(),
                self.columns.wf(),
                expr_wf(expr_arena.view()),
                expr_arena.view().len() >= old(expr_arena).view().len(),
                forall|i: int|
                    0 <= i < old(expr_arena).view().len() ==> expr_arena.view()[i] == old(
                        expr_arena,
                    ).view()[i],
                lp_arena.view().len() >= old(lp_arena).view().len(),
                forall|i: int|
                    0 <= i < old(lp_arena).view().len() && old(lp_arena).view()[i] is Some
                        ==> lp_arena.view()[i] is Some,
                forall|q: int|
                    0 <= q < scans@.len() ==> (#[trigger] scans@[q]).0 < old(
                        lp_arena,
                    ).view().len() && old(lp_arena).view()[scans@[q].0 as int] is Some
                        && is_file_scan(old(lp_arena).view()[scans@[q].0 as int]->Some_0),
                forall|q: int|
                    0 <= q < k ==> scan_settled(
                        lp_arena.view(),
                        (#[trigger] scans@[q]).0 as int,
                        self.columns.abs(),
                    ),
                forall|q: int|
                    k <= q < n ==> lp_arena.view()[(#[trigger] scans@[q]).0 as int] == old(
                        lp_arena,
                    ).view()[scans@[q].0 as int] || scan_settled(
                        lp_arena.view(),
                        scans@[q].0 as int,
                        self.columns.abs(),
                    ),
            decreases n - k,
        {
            let node = scans[k];
            let ghost a_before = lp_arena.view();
            let res = self.optimize_plan(lp_arena, expr_arena, node);
            match res {
                Ok(None) => {
                    proof {
                        assert(lp_arena.view() == a_before);
                        if a_before[node.0 as int] == old(lp_arena).view()[node.0 as int] {
                            assert(scan_at_record(
                                lp_arena.view()[node.0 as int]->Some_0,
                                self.columns.abs(),
                            ));
                        }
                        assert(scan_settled(
                            lp_arena.view(),
                            node.0 as int,
                            self.columns.abs(),
                        ));
                    }
                }
                Ok(Some(lp2)) => {
                    lp_arena.replace(node, lp2);
                    proof {
                        let m = self.columns.abs();
                        let p = a_before[node.0 as int]->Some_0;
                        if scan_wc(p) matches Some(w0) && m.dom().contains(scan_path(p))
                            && w0.len() < m[scan_path(p)].len() {
                            let s2 = lp_arena.view()[lp_arena.view().len() - 1]->Some_0;
                            assert(scan_path(s2) == scan_path(p));
                            assert(scan_at_record(s2, m));
                        } else {
                            assert(scan_at_record(lp2, m)) by {
                                assert(scan_path(lp2) == scan_path(p));
                            }
                        }
                        assert(scan_settled(lp_arena.view(), node.0 as int, m));
                        assert forall|q: int| 0 <= q < k implies scan_settled(
                            lp_arena.view(),
                            (#[trigger] scans@[q]).0 as int,
                            m,
                        ) by {
                            let sq = scans@[q].0 as int;
                            assert(scan_settled(a_before, sq, m));
                            if sq != node.0 as int {
                                assert(lp_arena.view()[sq] == a_before[sq]);
                                match a_before[sq]->Some_0 {
                                    ALogicalPlan::Projection { input, .. } => {
                                        assert(lp_arena.view()[input.0 as int]
                                            == a_before[input.0 as int]);
                                    }
                                    _ => {}
                                }
                            }
                        }
                        assert forall|q: int| k + 1 <= q < n implies lp_arena.view()[(
                        #[trigger] scans@[q]).0 as int] == old(lp_arena).view()[scans@[q].0 as int]
                            || scan_settled(lp_arena.view(), scans@[q].0 as int, m) by {
                            let sq = scans@[q].0 as int;
                            if sq != node.0 as int {
                                assert(lp_arena.view()[sq] == a_before[sq]);
                                if !(a_before[sq] == old(lp_arena).view()[sq]) {
                                    assert(scan_settled(a_before, sq, m));
                                    match a_before[sq]->Some_0 {
                                        ALogicalPlan::Projection { input, .. } => {
                                            assert(lp_arena.view()[input.0 as int]
                                                == a_before[input.0 as int]);
                                        }
                                        _ => {}
                                    }
                                }
                            }
                        }
                    }
                }
                Err(e) => {
                    proof {
                        let m = self.columns.abs();
                        let p = a_before[node.0 as int]->Some_0;
                        if a_before[node.0 as int] == old(lp_arena).view()[node.0 as int] {
                            assert(scan_request_unresolvable(
                                old(lp_arena).view()[node.0 as int]->Some_0,
                                m,
                            ));
                        } else {
                            assert(scan_settled(a_before, node.0 as int, m));
                            assert(false);
                        }
                    }
                    return Err(e);
                }
            }
            k += 1;
        }
        proof {
            assert forall|m: int|
                crate::alp::subtree(old(lp_arena).view(), root.0 as int).contains(m) && old(
                    lp_arena,
                ).view()[m] is Some && is_file_scan(#[trigger] old(lp_arena).view()[m]->Some_0)
                implies scan_settled(lp_arena.view(), m, self.columns.abs()) by {
                let w = choose|w: int| 0 <= w < scans@.len() && (#[trigger] scans@[w]).0 == m;
                assert(scan_settled(lp_arena.view(), scans@[w].0 as int, self.columns.abs()));
            }
        }
        Ok(())
    }
}


/// Growing a column list with `ins_name` keeps everything it held.
proof fn lemma_extend_keeps(cols: Seq<Seq<char>>, ws: Seq<Seq<char>>, j: int, c: Seq<char>)
    requires
        cols.contains(c),
    ensures
        extend_cols(cols, ws, j).contains(c),
    decreases ws.len() - j,
{
    if j < 0 || j >= ws.len() {
    } else {
        if !cols.contains(ws[j]) {
            assert(ins_name(cols, ws[j]).contains(c)) by {
                let i = choose|i: int| 0 <= i < cols.len() && cols[i] == c;
                assert(cols.push(ws[j])[i] == c);
            }
        }
        lemma_extend_keeps(ins_name(cols, ws[j]), ws, j + 1, c);
    }
}

/// Growing a column list with `ws` makes it hold every name of `ws`.
proof fn lemma_extend_adds(cols: Seq<Seq<char>>, ws: Seq<Seq<char>>, j: int, q: int)
    requires
        0 <= j <= q < ws.len(),
    ensures
        extend_cols(cols, ws, j).contains(ws[q]),
    decreases ws.len() - j,
{
    if j == q {
        assert(ins_name(cols, ws[j]).contains(ws[j])) by {
            if !cols.contains(ws[j]) {
                assert(cols.push(ws[j]).last() == ws[j]);
            }
        }
        lemma_extend_keeps(ins_name(cols, ws[j]), ws, j + 1, ws[q]);
    } else {
        lemma_extend_adds(ins_name(cols, ws[j]), ws, j + 1, q);
    }
}

/// What one aggregation step records is kept by every later step: a path
/// in the map stays, and its recorded names stay.
proof fn lemma_agg_spec_monotone(
    a: Seq<Option<ALogicalPlan>>,
    i: int,
    m: Map<Seq<char>, Seq<Seq<char>>>,
    p: Seq<char>,
    c: Seq<char>,
)
    requires
        0 <= i,
        m.dom().contains(p),
        m[p].contains(c),
    ensures
        agg_spec(a, i, m).dom().contains(p),
        agg_spec(a, i, m)[p].contains(c),
    decreases i, 1int, 0int,
{
    if 0 <= i < a.len() {
        match a[i] {
            Some(ALogicalPlan::CsvScan { path, with_columns, .. }) => match with_columns {
                Some(wc) => {
                    if path@ == p {
                        lemma_extend_keeps(m[p], names_view(wc@), 0, c);
                    }
                }
                None => {}
            },
            Some(ALogicalPlan::ParquetScan { path, with_columns, .. }) => match with_columns {
                Some(wc) => {
                    if path@ == p {
                        lemma_extend_keeps(m[p], names_view(wc@), 0, c);
                    }
                }
                None => {}
            },
            Some(ALogicalPlan::DataFrameScan { .. }) => {}
            Some(pl) => {
                lemma_agg_inputs_monotone(a, inputs_of(pl), 0, m, i, p, c);
            }
            None => {}
        }
    }
}

proof fn lemma_agg_inputs_monotone(
    a: Seq<Option<ALogicalPlan>>,
    ins: Seq<Node>,
    k: int,
    m: Map<Seq<char>, Seq<Seq<char>>>,
    bound: int,
    p: Seq<char>,
    c: Seq<char>,
)
    requires
        0 <= bound,
        m.dom().contains(p),
        m[p].contains(c),
    ensures
        agg_inputs(a, ins, k, m, bound).dom().contains(p),
        agg_inputs(a, ins, k, m, bound)[p].contains(c),
    decreases bound, 0int, ins.len() - k,
{
    if k < 0 || k >= ins.len() || ins[k].0 >= bound {
    } else {
        lemma_agg_spec_monotone(a, ins[k].0 as int, m, p, c);
        lemma_agg_inputs_monotone(a, ins, k + 1, agg_spec(a, ins[k].0 as int, m), bound, p, c);
    }
}

/// Scan-sharing safety, the aggregation side: after aggregating the plan
/// rooted at `root`, every file scan in that plan finds its own column
/// request contained in the union recorded for its source path.  Two
/// occurrences of one path therefore both end up reading a superset of
/// either request once the rewrite widens them to the recorded union.
pub proof fn lemma_scan_sharing_superset(
    a: Seq<Option<ALogicalPlan>>,
    root: int,
    m: Map<Seq<char>, Seq<Seq<char>>>,
    j: int,
    q: int,
)
    requires
        plan_wf(a),
        0 <= root < a.len(),
        crate::alp::subtree(a, root).contains(j),
        a[j] is Some,
        is_file_scan(a[j]->Some_0),
        scan_wc(a[j]->Some_0) is Some,
        0 <= q < scan_wc(a[j]->Some_0)->Some_0.len(),
    ensures
        agg_spec(a, root, m).dom().contains(scan_path(a[j]->Some_0)),
        agg_spec(a, root, m)[scan_path(a[j]->Some_0)].contains(scan_wc(a[j]->Some_0)->Some_0[q]),
    decreases root, 1int, 0int,
{
    crate::alp::lemma_subtree(a, root);
    assert(crate::alp::plan_slot_ok(a, root));
    let pl = a[root]->Some_0;
    if a[root] is Some {
        if inputs_of(pl).len() >= 1 {
            assert(inputs_of(pl)[0].0 < root && a[inputs_of(pl)[0].0 as int] is Some);
        }
        if inputs_of(pl).len() >= 2 {
            assert(inputs_of(pl)[1].0 < root && a[inputs_of(pl)[1].0 as int] is Some);
        }
    }
    if j == root {
        match pl {
            ALogicalPlan::CsvScan { path, with_columns, .. } => {
                let wc = with_columns->Some_0;
                lemma_extend_adds(
                    if m.dom().contains(path@) {
                        m[path@]
                    } else {
                        Seq::empty()
                    },
                    names_view(wc@),
                    0,
                    q,
                );
                assert(agg_spec(a, root, m) == map_extend(m, path@, names_view(wc@)));
                assert(scan_path(pl) == path@);
                assert(scan_wc(pl) == Some(names_view(wc@)));
                assert(agg_spec(a, root, m).dom().contains(path@));
                assert(agg_spec(a, root, m)[path@].contains(names_view(wc@)[q]));
            }
            ALogicalPlan::ParquetScan { path, with_columns, .. } => {
                let wc = with_columns->Some_0;
                lemma_extend_adds(
                    if m.dom().contains(path@) {
                        m[path@]
                    } else {
                        Seq::empty()
                    },
                    names_view(wc@),
                    0,
                    q,
                );
                assert(agg_spec(a, root, m) == map_extend(m, path@, names_view(wc@)));
                assert(agg_spec(a, root, m).dom().contains(path@));
                assert(agg_spec(a, root, m)[path@].contains(names_view(wc@)[q]));
            }
            _ => {
                assert(is_file_scan(a[j]->Some_0) && j == root);
                assert(false);
            }
        }
    } else {
        match pl {
            ALogicalPlan::CsvScan { .. }
            | ALogicalPlan::ParquetScan { .. }
            | ALogicalPlan::DataFrameScan { .. } => {
                assert(inputs_of(pl).len() == 0);
                assert(false);
            }
            _ => {
                let ins = inputs_of(pl);
                let p0 = scan_path(a[j]->Some_0);
                let c0 = scan_wc(a[j]->Some_0)->Some_0[q];
                if ins.len() >= 1 && ins[0].0 < root && crate::alp::subtree(
                    a,
                    ins[0].0 as int,
                ).contains(j) {
                    lemma_scan_sharing_superset(a, ins[0].0 as int, m, j, q);
                    assert(agg_spec(a, ins[0].0 as int, m).dom().contains(p0));
                    if ins.len() >= 2 && ins[1].0 < root {
                        lemma_agg_spec_monotone(
                            a,
                            ins[1].0 as int,
                            agg_spec(a, ins[0].0 as int, m),
                            p0,
                            c0,
                        );
                        assert(agg_inputs(a, ins, 2, agg_spec(
                            a,
                            ins[1].0 as int,
                            agg_spec(a, ins[0].0 as int, m),
                        ), root) == agg_spec(a, ins[1].0 as int, agg_spec(a, ins[0].0 as int, m)));
                        assert(agg_inputs(a, ins, 0, m, root) == agg_inputs(
                            a,
                            ins,
                            1,
                            agg_spec(a, ins[0].0 as int, m),
                            root,
                        ));
                        assert(agg_inputs(a, ins, 1, agg_spec(a, ins[0].0 as int, m), root)
                            == agg_inputs(a, ins, 2, agg_spec(
                            a,
                            ins[1].0 as int,
                            agg_spec(a, ins[0].0 as int, m),
                        ), root));
                    } else {
                        assert(ins.len() == 1);
                        assert(agg_inputs(a, ins, 1, agg_spec(a, ins[0].0 as int, m), root)
                            == agg_spec(a, ins[0].0 as int, m));
                        assert(agg_inputs(a, ins, 0, m, root) == agg_inputs(
                            a,
                            ins,
                            1,
                            agg_spec(a, ins[0].0 as int, m),
                            root,
                        ));
                    }
                    assert(agg_spec(a, root, m) == agg_inputs(a, ins, 0, m, root));
                    assert(agg_spec(a, root, m).dom().contains(p0));
                    assert(agg_spec(a, root, m)[p0].contains(c0));
                } else {
                    assert(ins.len() == 2 && ins[1].0 < root && crate::alp::subtree(
                        a,
                        ins[1].0 as int,
                    ).contains(j));
                    lemma_scan_sharing_superset(a, ins[1].0 as int, agg_spec(a, ins[0].0 as int, m), j, q);
                    assert(agg_inputs(a, ins, 2, agg_spec(
                        a,
                        ins[1].0 as int,
                        agg_spec(a, ins[0].0 as int, m),
                    ), root) == agg_spec(a, ins[1].0 as int, agg_spec(a, ins[0].0 as int, m)));
                        assert(agg_inputs(a, ins, 0, m, root) == agg_inputs(
                            a,
                            ins,
                            1,
                            agg_spec(a, ins[0].0 as int, m),
                            root,
                        ));
                        assert(agg_inputs(a, ins, 1, agg_spec(a, ins[0].0 as int, m), root)
                            == agg_inputs(a, ins, 2, agg_spec(
                            a,
                            ins[1].0 as int,
                            agg_spec(a, ins[0].0 as int, m),
                        ), root));
                    assert(agg_spec(a, root, m) == agg_inputs(a, ins, 0, m, root));
                    assert(agg_spec(a, root, m).dom().contains(p0));
                    assert(agg_spec(a, root, m)[p0].contains(c0));
                }
            }
        }
    }
}

/// Idempotence of the aggregation record: unioning in a duplicate-free
/// request that already equals the source's record changes nothing.  With
/// the rewrite rule's own fixed-point check, a second run of the pass over
/// an already-rewritten scan therefore leaves it untouched.
pub proof fn lemma_agg_record_idempotent(
    m: Map<Seq<char>, Seq<Seq<char>>>,
    path: Seq<char>,
    ws: Seq<Seq<char>>,
)
    requires
        m.dom().contains(path),
        m[path] == ws,
        forall|x: int, y: int| 0 <= x < y < ws.len() ==> ws[x] != ws[y],
    ensures
        map_extend(m, path, ws) == m,
{
    lemma_extend_absorbed(ws, ws, 0);
    assert(extend_cols(ws, ws, 0) == ws);
    assert(map_extend(m, path, ws) =~= m);
}

/// A column list absorbs a second pass over names it already holds.
proof fn lemma_extend_absorbed(cols: Seq<Seq<char>>, ws: Seq<Seq<char>>, j: int)
    requires
        forall|q: int| 0 <= q < ws.len() ==> cols.contains(#[trigger] ws[q]),
    ensures
        extend_cols(cols, ws, j) == cols,
    decreases ws.len() - j,
{
    if j < 0 || j >= ws.len() {
    } else {
        assert(cols.contains(ws[j]));
        assert(ins_name(cols, ws[j]) == cols);
        lemma_extend_absorbed(cols, ws, j + 1);
    }
}

} // verus!
