//! One table: fixed-schema records with tombstone deletion.
//!
//! A table holds its records in order of insertion.  A record is a liveness
//! flag and one value per column, in schema order; deleting only clears the
//! flag, and updating appends the new version and clears the old one, so the
//! record list only ever grows within one session.  The byte form of the
//! record list is the table's file, written back by the surrounding
//! application.

use crate::schema::{find_index, has_key, Columns, ColumnsView};
use crate::types::{
    spec_coerce, spec_encode, spec_read, ColumnSet, ColumnSetView, DataType, DbError, ErrorView,
    TypedValue, ValueView,
};
use vstd::prelude::*;

verus! {

/// One stored row: a liveness flag and a value for each column.
#[derive(Debug)]
pub struct Record {
    pub live: bool,
    pub values: Vec<TypedValue>,
}

/// Model of a stored row.
#[verifier::ext_equal]
pub struct RecordView {
    pub live: bool,
    pub values: Seq<ValueView>,
}

impl View for Record {
    type V = RecordView;

    open spec fn view(&self) -> RecordView {
        RecordView { live: self.live, values: self.values.deep_view() }
    }
}

impl DeepView for Record {
    type V = RecordView;

    open spec fn deep_view(&self) -> RecordView {
        self.view()
    }
}

/// One table with its schema and all its records.
#[derive(Debug)]
pub struct Table {
    pub name: String,
    pub columns: Columns,
    pub records: Vec<Record>,
}

/// Model of a table.
#[verifier::ext_equal]
pub struct TableView {
    pub name: Seq<char>,
    pub columns: ColumnsView,
    pub records: Seq<RecordView>,
}

impl View for Table {
    type V = TableView;

    open spec fn view(&self) -> TableView {
        TableView {
            name: self.name@,
            columns: self.columns.deep_view(),
            records: self.records.deep_view(),
        }
    }
}

/// A record shaped by the schema: one value per column, each of the declared
/// type.
pub open spec fn wf_record(cols: ColumnsView, r: RecordView) -> bool {
    r.values.len() == cols.len() && (forall|i: int|
        0 <= i < cols.len() ==> (#[trigger] r.values[i]).data_type() == cols[i].1)
}

/// Every record of the table is shaped by its schema.
pub open spec fn wf_table(tv: TableView) -> bool {
    forall|i: int| 0 <= i < tv.records.len() ==> wf_record(tv.columns, #[trigger] tv.records[i])
}

/// The row a record denotes: each column name with the record's value for
/// it, in schema order.
pub open spec fn record_row(cols: ColumnsView, r: RecordView) -> ColumnSetView {
    Seq::new(cols.len(), |i: int| (cols[i].0, r.values[i]))
}

/// Coercing a caller's column set against the schema: every key must name a
/// column, and every value is converted to the column's declared type.
pub open spec fn spec_coerce_set(
    cols: ColumnsView,
    set: ColumnSetView,
    table: Seq<char>,
) -> Result<ColumnSetView, ErrorView>
    decreases set.len(),
{
    if set.len() == 0 {
        Ok(Seq::empty())
    } else {
        let j = find_index(cols, set[0].0);
        if j >= cols.len() {
            Err(ErrorView::ColumnNotFound(set[0].0, table))
        } else {
            match spec_coerce(set[0].1, cols[j].1) {
                Ok(w) => match spec_coerce_set(cols, set.drop_first(), table) {
                    Ok(rest) => Ok(seq![(set[0].0, w)] + rest),
                    Err(e) => Err(e),
                },
                Err(e) => Err(e),
            }
        }
    }
}

/// Whether a record satisfies an equality predicate: for every pair the
/// named column exists and holds exactly that value.
pub open spec fn spec_matches(cols: ColumnsView, r: RecordView, conds: ColumnSetView) -> bool {
    forall|i: int|
        0 <= i < conds.len() ==> {
            let j = find_index(cols, (#[trigger] conds[i]).0);
            j < cols.len() && r.values[j] == conds[i].1
        }
}

/// The first projected name that is not a column, or the projection's length.
pub open spec fn first_missing(cols: ColumnsView, proj: Seq<Seq<char>>) -> int
    decreases proj.len(),
{
    if proj.len() == 0 {
        0
    } else if !has_key(cols, proj[0]) {
        0
    } else {
        1 + first_missing(cols, proj.drop_first())
    }
}

/// The pairs of `row` whose names are projected, keeping their order.
pub open spec fn project_row(row: ColumnSetView, proj: Seq<Seq<char>>) -> ColumnSetView
    decreases row.len(),
{
    if row.len() == 0 {
        row
    } else {
        let rest = project_row(row.drop_first(), proj);
        if proj.contains(row[0].0) {
            seq![row[0]] + rest
        } else {
            rest
        }
    }
}

/// The row a record denotes under a projection: all columns for the empty
/// projection, otherwise only the projected ones, still in schema order.
pub open spec fn spec_project(
    cols: ColumnsView,
    r: RecordView,
    proj: Seq<Seq<char>>,
) -> ColumnSetView {
    if proj.len() == 0 {
        record_row(cols, r)
    } else {
        project_row(record_row(cols, r), proj)
    }
}

/// The rows of the live records satisfying the (already coerced) predicate,
/// projected, in storage order.  A projected name that is no column of the
/// first such record is an error.
pub open spec fn select_rows(
    cols: ColumnsView,
    recs: Seq<RecordView>,
    proj: Seq<Seq<char>>,
    conds: ColumnSetView,
    table: Seq<char>,
) -> Result<Seq<ColumnSetView>, ErrorView>
    decreases recs.len(),
{
    if recs.len() == 0 {
        Ok(Seq::empty())
    } else if recs[0].live && spec_matches(cols, recs[0], conds) {
        if proj.len() > 0 && first_missing(cols, proj) < proj.len() {
            Err(ErrorView::ColumnNotFound(proj[first_missing(cols, proj)], table))
        } else {
            match select_rows(cols, recs.drop_first(), proj, conds, table) {
                Ok(rest) => Ok(seq![spec_project(cols, recs[0], proj)] + rest),
                Err(e) => Err(e),
            }
        }
    } else {
        select_rows(cols, recs.drop_first(), proj, conds, table)
    }
}

/// What a select returns: the projected rows of the live records that match
/// the coerced predicate, in storage order.
pub open spec fn spec_select(
    tv: TableView,
    proj: Seq<Seq<char>>,
    conds: ColumnSetView,
) -> Result<Seq<ColumnSetView>, ErrorView> {
    match spec_coerce_set(tv.columns, conds, tv.name) {
        Ok(cs) => select_rows(tv.columns, tv.records, proj, cs, tv.name),
        Err(e) => Err(e),
    }
}

impl Table {
    /// Coerces a caller's column set, exactly as `spec_coerce_set` says.
    #[verifier::loop_isolation(false)]
    fn coerce(&self, set: ColumnSet) -> (r: Result<ColumnSet, DbError>)
        ensures
            match r {
                Ok(cs) => spec_coerce_set(self@.columns, set.deep_view(), self@.name) == Ok::<
                    ColumnSetView,
                    ErrorView,
                >(cs.deep_view()),
                Err(e) => spec_coerce_set(self@.columns, set.deep_view(), self@.name) == Err::<
                    ColumnSetView,
                    ErrorView,
                >(e@),
            },
    {
        let ghost setv = set.deep_view();
        let mut out: ColumnSet = Vec::new();
        let mut set = set;
        let mut i: usize = 0;
        let n = set.len();
        proof {
            assert(setv.skip(0) =~= setv);
            assert(out.deep_view() =~= Seq::<(Seq<char>, ValueView)>::empty());
            if spec_coerce_set(self@.columns, setv, self@.name) is Ok {
                assert(out.deep_view() + spec_coerce_set_ok(self@.columns, setv, self@.name)
                    =~= spec_coerce_set_ok(self@.columns, setv, self@.name));
            }
        }
        while i < n
            invariant
                0 <= i <= n,
                n == set@.len(),
                set.deep_view() == setv,
                spec_coerce_set(self@.columns, setv, self@.name) == (match spec_coerce_set(
                    self@.columns,
                    setv.skip(i as int),
                    self@.name,
                ) {
                    Ok(rest) => Ok::<ColumnSetView, ErrorView>(out.deep_view() + rest),
                    Err(e) => Err::<ColumnSetView, ErrorView>(e),
                }),
            decreases n - i,
        {
            let ghost rem = setv.skip(i as int);
            proof {
                assert(rem[0] == setv[i as int]);
                assert(rem[0].0 == set@[i as int].0@);
                assert(rem[0].1 == set@[i as int].1@);
                assert(rem.drop_first() =~= setv.skip(i as int + 1));
            }
            let key = set[i].0.clone();
            let value = set[i].1.dup();
            let j = crate::schema::find_key_x(&self.columns, &key);
            if j >= self.columns.len() {
                return Err(DbError::ColumnNotFound(key, self.name.clone()));
            }
            let target = self.columns[j].1;
            proof {
                assert(self@.columns[j as int].1 == target);
            }
            let ghost out0 = out.deep_view();
            match value.coerce(target) {
                Ok(w) => {
                    let ghost tail = spec_coerce_set_ok(
                        self@.columns,
                        rem.drop_first(),
                        self@.name,
                    );
                    out.push((key, w));
                    proof {
                        assert(out.deep_view() =~= out0 + seq![(rem[0].0, w@)]);
                        assert((out0 + seq![(rem[0].0, w@)]) + tail =~= out0 + (seq![
                            (rem[0].0, w@),
                        ] + tail));
                    }
                }
                Err(e) => {
                    return Err(e);
                }
            }
            i = i + 1;
        }
        proof {
            assert(setv.skip(n as int).len() == 0);
            assert(out.deep_view() + Seq::<(Seq<char>, ValueView)>::empty() =~= out.deep_view());
        }
        Ok(out)
    }
}

/// The value of a successful coercion, for stating intermediate equalities.
pub open spec fn spec_coerce_set_ok(
    cols: ColumnsView,
    set: ColumnSetView,
    table: Seq<char>,
) -> ColumnSetView {
    match spec_coerce_set(cols, set, table) {
        Ok(cs) => cs,
        Err(_) => Seq::empty(),
    }
}


/// An identical copy of a value vector.
fn dup_values(v: &Vec<TypedValue>) -> (r: Vec<TypedValue>)
    ensures
        r.deep_view() == v.deep_view(),
    decreases v@.len(),
{
    let mut out: Vec<TypedValue> = Vec::new();
    let n = v.len();
    let mut i: usize = 0;
    while i < n
        invariant
            0 <= i <= n,
            n == v@.len(),
            out.deep_view().len() == i,
            forall|k: int| 0 <= k < i ==> out.deep_view()[k] == v.deep_view()[k],
        decreases n - i,
    {
        out.push(v[i].dup());
        i = i + 1;
    }
    proof {
        assert(out.deep_view() =~= v.deep_view());
    }
    out
}

/// The row of a record: every column name paired with the record's value.
fn row_of(cols: &Columns, vals: &Vec<TypedValue>) -> (r: ColumnSet)
    requires
        vals.deep_view().len() == cols.deep_view().len(),
    ensures
        r.deep_view() == record_row(
            cols.deep_view(),
            RecordView { live: true, values: vals.deep_view() },
        ),
{
    let mut out: ColumnSet = Vec::new();
    let n = cols.len();
    let mut i: usize = 0;
    proof {
        assert(out.deep_view() =~= record_row(
            cols.deep_view(),
            RecordView { live: true, values: vals.deep_view() },
        ).subrange(0, 0));
    }
    while i < n
        invariant
            0 <= i <= n,
            n == cols@.len(),
            vals.deep_view().len() == cols.deep_view().len(),
            out@.len() == i,
            out.deep_view() == record_row(
                cols.deep_view(),
                RecordView { live: true, values: vals.deep_view() },
            ).subrange(0, i as int),
        decreases n - i,
    {
        proof {
            assert(cols.deep_view()[i as int].0 == cols@[i as int].0@);
            assert(vals.deep_view()[i as int] == vals@[i as int]@);
        }
        let pair = (cols[i].0.clone(), vals[i].dup());
        let ghost pv = (pair.0@, pair.1@);
        let ghost oi = i as int;
        let ghost rr = record_row(
            cols.deep_view(),
            RecordView { live: true, values: vals.deep_view() },
        );
        out.push(pair);
        proof {
            assert(out.deep_view()[oi] == pv);
            assert(pv == (cols.deep_view()[oi].0, vals.deep_view()[oi]));
            assert(out.deep_view() =~= rr.subrange(0, oi + 1));
        }
        i = i + 1;
    }
    proof {
        let rr = record_row(
            cols.deep_view(),
            RecordView { live: true, values: vals.deep_view() },
        );
        assert(rr.subrange(0, n as int) =~= rr);
    }
    out
}

/// Whether a record satisfies a predicate, exactly as `spec_matches` says.
#[verifier::loop_isolation(false)]
fn matches_x(cols: &Columns, vals: &Vec<TypedValue>, conds: &ColumnSet) -> (r: bool)
    requires
        vals.deep_view().len() == cols.deep_view().len(),
    ensures
        r == spec_matches(
            cols.deep_view(),
            RecordView { live: true, values: vals.deep_view() },
            conds.deep_view(),
        ),
{
    let ghost rv = RecordView { live: true, values: vals.deep_view() };
    let n = conds.len();
    let mut i: usize = 0;
    while i < n
        invariant
            0 <= i <= n,
            forall|k: int|
                0 <= k < i ==> {
                    let j = find_index(cols.deep_view(), (#[trigger] conds.deep_view()[k]).0);
                    j < cols.deep_view().len() && rv.values[j] == conds.deep_view()[k].1
                },
        decreases n - i,
    {
        proof {
            assert(conds.deep_view()[i as int].0 == conds@[i as int].0@);
            assert(conds.deep_view()[i as int].1 == conds@[i as int].1@);
        }
        let j = crate::schema::find_key_x(cols, &conds[i].0);
        if j >= cols.len() {
            return false;
        }
        if !vals[j].eq(&conds[i].1) {
            return false;
        }
        i = i + 1;
    }
    true
}

/// The first projected name that is no column, exactly as `first_missing`
/// says.
#[verifier::loop_isolation(false)]
fn first_missing_x(cols: &Columns, proj: &Vec<String>) -> (r: usize)
    ensures
        r <= proj@.len(),
        r as int == first_missing(cols.deep_view(), proj.deep_view()),
{
    let n = proj.len();
    let mut i: usize = 0;
    while i < n
        invariant
            0 <= i <= n,
            forall|k: int| 0 <= k < i ==> has_key(cols.deep_view(), proj.deep_view()[k]),
        decreases n - i,
    {
        proof {
            assert(proj.deep_view()[i as int] == proj@[i as int]@);
        }
        let j = crate::schema::find_key_x(cols, &proj[i]);
        if j >= cols.len() {
            proof {
                lemma_first_missing_char(cols.deep_view(), proj.deep_view(), i as int);
            }
            return i;
        }
        i = i + 1;
    }
    proof {
        lemma_first_missing_char(cols.deep_view(), proj.deep_view(), n as int);
    }
    n
}

/// `first_missing` is pinned down by what it finds.
pub proof fn lemma_first_missing_char(cols: ColumnsView, proj: Seq<Seq<char>>, j: int)
    requires
        0 <= j <= proj.len(),
        forall|i: int| 0 <= i < j ==> has_key(cols, #[trigger] proj[i]),
        j < proj.len() ==> !has_key(cols, proj[j]),
    ensures
        first_missing(cols, proj) == j,
    decreases proj.len(),
{
    if proj.len() > 0 && has_key(cols, proj[0]) {
        let rest = proj.drop_first();
        assert(forall|i: int| 0 <= i < j - 1 ==> rest[i] == proj[i + 1]);
        lemma_first_missing_char(cols, rest, j - 1);
    }
}

/// Whether `name` occurs in the list.
fn contains_name(list: &Vec<String>, name: &String) -> (r: bool)
    ensures
        r == list.deep_view().contains(name@),
{
    let n = list.len();
    let mut i: usize = 0;
    while i < n
        invariant
            0 <= i <= n,
            n == list@.len(),
            forall|k: int| 0 <= k < i ==> list.deep_view()[k] != name@,
        decreases n - i,
    {
        if list[i].eq(name) {
            proof {
                assert(list.deep_view()[i as int] == list@[i as int]@);
                assert(list.deep_view().contains(name@));
            }
            return true;
        }
        proof {
            assert(list.deep_view()[i as int] == list@[i as int]@);
        }
        i = i + 1;
    }
    proof {
        if list.deep_view().contains(name@) {
            let w = choose|w: int| 0 <= w < list.deep_view().len() && list.deep_view()[w] == name@;
            assert(false);
        }
    }
    false
}

/// The projection of a row, exactly as `project_row` says.
#[verifier::loop_isolation(false)]
fn project_x(row: ColumnSet, proj: &Vec<String>) -> (r: ColumnSet)
    ensures
        r.deep_view() == project_row(row.deep_view(), proj.deep_view()),
{
    let ghost rowv = row.deep_view();
    let mut out: ColumnSet = Vec::new();
    let n = row.len();
    let mut i: usize = 0;
    let mut row = row;
    proof {
        assert(rowv.skip(0) =~= rowv);
        assert(out.deep_view() =~= Seq::<(Seq<char>, ValueView)>::empty());
        assert(out.deep_view() + project_row(rowv, proj.deep_view()) =~= project_row(
            rowv,
            proj.deep_view(),
        ));
    }
    while i < n
        invariant
            0 <= i <= n,
            n == row@.len(),
            row.deep_view() == rowv,
            project_row(rowv, proj.deep_view()) == out.deep_view() + project_row(
                rowv.skip(i as int),
                proj.deep_view(),
            ),
        decreases n - i,
    {
        let ghost rem = rowv.skip(i as int);
        proof {
            assert(rem[0] == rowv[i as int]);
            assert(rem[0].0 == row@[i as int].0@);
            assert(rem[0].1 == row@[i as int].1@);
            assert(rem.drop_first() =~= rowv.skip(i as int + 1));
        }
        let ghost out0 = out.deep_view();
        if contains_name(proj, &row[i].0) {
            out.push((row[i].0.clone(), row[i].1.dup()));
            proof {
                assert(out.deep_view() =~= out0.push(rem[0]));
                assert(out0.push(rem[0]) + project_row(rem.drop_first(), proj.deep_view())
                    =~= out0 + (seq![rem[0]] + project_row(rem.drop_first(), proj.deep_view())));
            }
        }
        i = i + 1;
    }
    proof {
        assert(rowv.skip(n as int).len() == 0);
        assert(out.deep_view() + Seq::<(Seq<char>, ValueView)>::empty() =~= out.deep_view());
    }
    out
}


/// No two columns share a name.
pub open spec fn unique_cols(cols: ColumnsView) -> bool {
    forall|i: int, j: int| 0 <= i < j < cols.len() ==> (#[trigger] cols[i]).0 != (#[trigger] cols[j]).0
}

/// The first schema column that the set leaves out, or the column count.
pub open spec fn first_missing_col(cols: ColumnsView, cs: ColumnSetView) -> int
    decreases cols.len(),
{
    if cols.len() == 0 {
        0
    } else if !has_key(cs, cols[0].0) {
        0
    } else {
        1 + first_missing_col(cols.drop_first(), cs)
    }
}

/// `first_missing_col` is pinned down by what it finds.
pub proof fn lemma_first_missing_col_char(cols: ColumnsView, cs: ColumnSetView, j: int)
    requires
        0 <= j <= cols.len(),
        forall|i: int| 0 <= i < j ==> has_key(cs, (#[trigger] cols[i]).0),
        j < cols.len() ==> !has_key(cs, cols[j].0),
    ensures
        first_missing_col(cols, cs) == j,
    decreases cols.len(),
{
    if cols.len() > 0 && has_key(cs, cols[0].0) {
        let rest = cols.drop_first();
        assert(forall|i: int| 0 <= i < j - 1 ==> rest[i] == cols[i + 1]);
        lemma_first_missing_col_char(rest, cs, j - 1);
    }
}

/// One value per column, each drawn from the set under the column's name.
pub open spec fn build_values(cols: ColumnsView, cs: ColumnSetView) -> Seq<ValueView> {
    Seq::new(cols.len(), |i: int| cs[find_index(cs, cols[i].0)].1)
}

/// The record values with the set's values written over the named columns.
pub open spec fn overlay(cols: ColumnsView, values: Seq<ValueView>, cs: ColumnSetView) -> Seq<
    ValueView,
> {
    Seq::new(
        cols.len(),
        |i: int|
            if has_key(cs, cols[i].0) {
                cs[find_index(cs, cols[i].0)].1
            } else {
                values[i]
            },
    )
}

/// What an insert does: the coerced values, which must cover every column,
/// are appended as a live record, and the new row is returned.
pub open spec fn spec_insert(tv: TableView, values: ColumnSetView) -> Result<
    (TableView, ColumnSetView),
    ErrorView,
> {
    match spec_coerce_set(tv.columns, values, tv.name) {
        Err(e) => Err(e),
        Ok(cs) => {
            let m = first_missing_col(tv.columns, cs);
            if m < tv.columns.len() {
                Err(ErrorView::IncompleteData(tv.columns[m].0, tv.name))
            } else {
                let rec = RecordView { live: true, values: build_values(tv.columns, cs) };
                Ok(
                    (
                        TableView {
                            name: tv.name,
                            columns: tv.columns,
                            records: tv.records.push(rec),
                        },
                        record_row(tv.columns, rec),
                    ),
                )
            }
        },
    }
}

/// Walks the records present when the update began: every live one matching
/// the predicate whose overlay actually changes it is cleared and its new
/// version appended, and the new rows are collected in walk order.
pub open spec fn update_walk(
    cols: ColumnsView,
    recs: Seq<RecordView>,
    i: int,
    n0: int,
    cs_set: ColumnSetView,
    cs_conds: ColumnSetView,
    rows: Seq<ColumnSetView>,
) -> (Seq<RecordView>, Seq<ColumnSetView>)
    decreases n0 - i
        when 0 <= i <= n0 <= recs.len()
{
    if i >= n0 {
        (recs, rows)
    } else {
        let r = recs[i];
        if r.live && spec_matches(cols, r, cs_conds) {
            let nv = overlay(cols, r.values, cs_set);
            if nv == r.values {
                update_walk(cols, recs, i + 1, n0, cs_set, cs_conds, rows)
            } else {
                let newrec = RecordView { live: true, values: nv };
                update_walk(
                    cols,
                    recs.update(i, RecordView { live: false, values: r.values }).push(newrec),
                    i + 1,
                    n0,
                    cs_set,
                    cs_conds,
                    rows.push(record_row(cols, newrec)),
                )
            }
        } else {
            update_walk(cols, recs, i + 1, n0, cs_set, cs_conds, rows)
        }
    }
}

/// What an update does: both sets are coerced, then the records present at
/// the start are walked as `update_walk` says.
pub open spec fn spec_update(tv: TableView, set: ColumnSetView, conds: ColumnSetView) -> Result<
    (TableView, Seq<ColumnSetView>),
    ErrorView,
> {
    match spec_coerce_set(tv.columns, set, tv.name) {
        Err(e) => Err(e),
        Ok(cs_set) => match spec_coerce_set(tv.columns, conds, tv.name) {
            Err(e) => Err(e),
            Ok(cs_conds) => {
                let wr = update_walk(
                    tv.columns,
                    tv.records,
                    0,
                    tv.records.len() as int,
                    cs_set,
                    cs_conds,
                    Seq::empty(),
                );
                Ok((TableView { name: tv.name, columns: tv.columns, records: wr.0 }, wr.1))
            },
        },
    }
}

/// Walks all records: every live one matching the predicate is cleared and
/// its row collected in walk order.
pub open spec fn delete_walk(
    cols: ColumnsView,
    recs: Seq<RecordView>,
    i: int,
    cs: ColumnSetView,
    rows: Seq<ColumnSetView>,
) -> (Seq<RecordView>, Seq<ColumnSetView>)
    decreases recs.len() - i
        when 0 <= i <= recs.len()
{
    if i >= recs.len() {
        (recs, rows)
    } else if recs[i].live && spec_matches(cols, recs[i], cs) {
        delete_walk(
            cols,
            recs.update(i, RecordView { live: false, values: recs[i].values }),
            i + 1,
            cs,
            rows.push(record_row(cols, recs[i])),
        )
    } else {
        delete_walk(cols, recs, i + 1, cs, rows)
    }
}

/// What a delete does: the predicate is coerced, then every live matching
/// record is cleared and its row returned.
pub open spec fn spec_delete(tv: TableView, conds: ColumnSetView) -> Result<
    (TableView, Seq<ColumnSetView>),
    ErrorView,
> {
    match spec_coerce_set(tv.columns, conds, tv.name) {
        Err(e) => Err(e),
        Ok(cs) => {
            let wr = delete_walk(tv.columns, tv.records, 0, cs, Seq::empty());
            Ok((TableView { name: tv.name, columns: tv.columns, records: wr.0 }, wr.1))
        },
    }
}

/// A coerced set names only schema columns and its values carry the
/// declared types.
pub proof fn lemma_coerce_set_types(cols: ColumnsView, set: ColumnSetView, table: Seq<char>)
    ensures
        spec_coerce_set(cols, set, table) matches Ok(cs) ==> {
            &&& cs.len() == set.len()
            &&& forall|i: int|
                0 <= i < cs.len() ==> {
                    let j = find_index(cols, (#[trigger] cs[i]).0);
                    j < cols.len() && cs[i].1.data_type() == cols[j].1
                }
        },
    decreases set.len(),
{
    if set.len() > 0 {
        lemma_coerce_set_types(cols, set.drop_first(), table);
        let j = find_index(cols, set[0].0);
        if j < cols.len() {
            crate::types::lemma_coerce_type(set[0].1, cols[j].1);
        }
    }
}


/// Whether two value vectors hold the same values.
fn values_eq(a: &Vec<TypedValue>, b: &Vec<TypedValue>) -> (r: bool)
    ensures
        r == (a.deep_view() == b.deep_view()),
{
    let n = a.len();
    if n != b.len() {
        proof {
            assert(a.deep_view().len() != b.deep_view().len());
        }
        return false;
    }
    let mut i: usize = 0;
    while i < n
        invariant
            0 <= i <= n,
            n == a@.len(),
            n == b@.len(),
            forall|k: int| 0 <= k < i ==> a.deep_view()[k] == b.deep_view()[k],
        decreases n - i,
    {
        proof {
            assert(a.deep_view()[i as int] == a@[i as int]@);
            assert(b.deep_view()[i as int] == b@[i as int]@);
        }
        if !a[i].eq(&b[i]) {
            proof {
                assert(a.deep_view()[i as int] != b.deep_view()[i as int]);
            }
            return false;
        }
        i = i + 1;
    }
    proof {
        assert(a.deep_view() =~= b.deep_view());
    }
    true
}

/// The overlay of a coerced set on a record, exactly as `overlay` says.
#[verifier::loop_isolation(false)]
fn overlay_x(cols: &Columns, vals: &Vec<TypedValue>, cs: &ColumnSet) -> (r: Vec<TypedValue>)
    requires
        vals.deep_view().len() == cols.deep_view().len(),
    ensures
        r.deep_view() == overlay(cols.deep_view(), vals.deep_view(), cs.deep_view()),
{
    let ghost ov = overlay(cols.deep_view(), vals.deep_view(), cs.deep_view());
    let mut out: Vec<TypedValue> = Vec::new();
    let n = cols.len();
    let mut i: usize = 0;
    proof {
        assert(out.deep_view() =~= ov.subrange(0, 0));
    }
    while i < n
        invariant
            0 <= i <= n,
            out@.len() == i,
            out.deep_view() == ov.subrange(0, i as int),
        decreases n - i,
    {
        proof {
            assert(cols.deep_view()[i as int].0 == cols@[i as int].0@);
            assert(vals.deep_view()[i as int] == vals@[i as int]@);
        }
        let ghost oi = i as int;
        let j = crate::schema::find_key_x(cs, &cols[i].0);
        if j < cs.len() {
            proof {
                assert(cs.deep_view()[j as int].1 == cs@[j as int].1@);
            }
            out.push(cs[j].1.dup());
        } else {
            out.push(vals[i].dup());
        }
        proof {
            assert(out.deep_view() =~= ov.subrange(0, oi + 1));
        }
        i = i + 1;
    }
    proof {
        assert(ov.subrange(0, n as int) =~= ov);
    }
    out
}

impl Table {
    /// Reads rows: the live records matching the predicate, projected,
    /// exactly as `spec_select` says.
    #[verifier::loop_isolation(false)]
    pub fn select(&self, columns: Vec<String>, conditions: ColumnSet) -> (r: Result<
        Vec<ColumnSet>,
        DbError,
    >)
        requires
            wf_table(self@),
        ensures
            match r {
                Ok(rows) => spec_select(self@, columns.deep_view(), conditions.deep_view())
                    == Ok::<Seq<ColumnSetView>, ErrorView>(rows.deep_view()),
                Err(e) => spec_select(self@, columns.deep_view(), conditions.deep_view())
                    == Err::<Seq<ColumnSetView>, ErrorView>(e@),
            },
    {
        let cs = match self.coerce(conditions) {
            Ok(cs) => cs,
            Err(e) => {
                return Err(e);
            }
        };
        let ghost csv = cs.deep_view();
        let ghost colsv = self@.columns;
        let ghost recsv = self@.records;
        let ghost projv = columns.deep_view();
        let mut out: Vec<ColumnSet> = Vec::new();
        let n = self.records.len();
        let mut i: usize = 0;
        proof {
            assert(recsv.skip(0) =~= recsv);
            if select_rows(colsv, recsv, projv, csv, self@.name) is Ok {
                assert(out.deep_view() + select_rows_ok(colsv, recsv, projv, csv, self@.name)
                    =~= select_rows_ok(colsv, recsv, projv, csv, self@.name));
            }
        }
        while i < n
            invariant
                0 <= i <= n,
                n == self.records@.len(),
                select_rows(colsv, recsv, projv, csv, self@.name) == (
                match select_rows(colsv, recsv.skip(i as int), projv, csv, self@.name) {
                    Ok(rest) => Ok::<Seq<ColumnSetView>, ErrorView>(out.deep_view() + rest),
                    Err(e) => Err::<Seq<ColumnSetView>, ErrorView>(e),
                }),
            decreases n - i,
        {
            let ghost rem = recsv.skip(i as int);
            proof {
                assert(rem[0] == recsv[i as int]);
                assert(recsv[i as int] == self.records@[i as int]@);
                assert(rem.drop_first() =~= recsv.skip(i as int + 1));
                assert(wf_record(colsv, recsv[i as int]));
            }
            if self.records[i].live && matches_x(&self.columns, &self.records[i].values, &cs) {
                if columns.len() > 0 {
                    let fm = first_missing_x(&self.columns, &columns);
                    if fm < columns.len() {
                        proof {
                            assert(projv[fm as int] == columns@[fm as int]@);
                        }
                        return Err(DbError::ColumnNotFound(columns[fm].clone(), self.name.clone()));
                    }
                }
                let row = row_of(&self.columns, &self.records[i].values);
                let prow = if columns.len() > 0 {
                    project_x(row, &columns)
                } else {
                    row
                };
                let ghost out0 = out.deep_view();
                out.push(prow);
                proof {
                    assert(out.deep_view() =~= out0.push(spec_project(colsv, rem[0], projv)));
                    if select_rows(colsv, rem.drop_first(), projv, csv, self@.name) is Ok {
                        let tail = select_rows_ok(colsv, rem.drop_first(), projv, csv, self@.name);
                        assert(out0.push(spec_project(colsv, rem[0], projv)) + tail =~= out0 + (
                        seq![spec_project(colsv, rem[0], projv)] + tail));
                    }
                }
            }
            i = i + 1;
        }
        proof {
            assert(recsv.skip(n as int).len() == 0);
            assert(out.deep_view() + Seq::<ColumnSetView>::empty() =~= out.deep_view());
        }
        Ok(out)
    }
}

/// The value of a successful selection, for stating intermediate equalities.
pub open spec fn select_rows_ok(
    cols: ColumnsView,
    recs: Seq<RecordView>,
    proj: Seq<Seq<char>>,
    conds: ColumnSetView,
    table: Seq<char>,
) -> Seq<ColumnSetView> {
    match select_rows(cols, recs, proj, conds, table) {
        Ok(rows) => rows,
        Err(_) => Seq::empty(),
    }
}


impl Table {
    /// Appends a row: the coerced values must cover every column, exactly as
    /// `spec_insert` says.  The inserted row is returned.
    #[verifier::loop_isolation(false)]
    pub fn insert(&mut self, values: ColumnSet) -> (r: Result<ColumnSet, DbError>)
        requires
            wf_table(old(self)@),
            unique_cols(old(self)@.columns),
        ensures
            match r {
                Ok(row) => spec_insert(old(self)@, values.deep_view()) == Ok::<
                    (TableView, ColumnSetView),
                    ErrorView,
                >((final(self)@, row.deep_view())) && wf_table(final(self)@)
                    && final(self)@.columns == old(self)@.columns
                    && final(self)@.name == old(self)@.name,
                Err(e) => spec_insert(old(self)@, values.deep_view()) == Err::<
                    (TableView, ColumnSetView),
                    ErrorView,
                >(e@) && final(self)@ == old(self)@,
            },
    {
        let ghost valuesv = values.deep_view();
        let cs = match self.coerce(values) {
            Ok(cs) => cs,
            Err(e) => {
                return Err(e);
            }
        };
        let ghost csv = cs.deep_view();
        let ghost colsv = self@.columns;
        proof {
            lemma_coerce_set_types(colsv, valuesv, self@.name);
        }
        let ncols = self.columns.len();
        let mut m: usize = 0;
        while m < ncols
            invariant
                0 <= m <= ncols,
                ncols == self.columns@.len(),
                forall|k: int| 0 <= k < m ==> has_key(csv, (#[trigger] colsv[k]).0),
            decreases ncols - m,
        {
            proof {
                assert(colsv[m as int].0 == self.columns@[m as int].0@);
            }
            let j = crate::schema::find_key_x(&cs, &self.columns[m].0);
            if j >= cs.len() {
                proof {
                    lemma_first_missing_col_char(colsv, csv, m as int);
                }
                return Err(
                    DbError::IncompleteData(self.columns[m].0.clone(), self.name.clone()),
                );
            }
            m = m + 1;
        }
        proof {
            lemma_first_missing_col_char(colsv, csv, ncols as int);
        }
        let ghost bv = build_values(colsv, csv);
        let mut vals: Vec<TypedValue> = Vec::new();
        let mut i: usize = 0;
        proof {
            assert(vals.deep_view() =~= bv.subrange(0, 0));
        }
        while i < ncols
            invariant
                0 <= i <= ncols,
                ncols == self.columns@.len(),
                vals@.len() == i,
                vals.deep_view() == bv.subrange(0, i as int),
            decreases ncols - i,
        {
            proof {
                assert(colsv[i as int].0 == self.columns@[i as int].0@);
                assert(has_key(csv, colsv[i as int].0));
            }
            let ghost oi = i as int;
            let j = crate::schema::find_key_x(&cs, &self.columns[i].0);
            proof {
                assert(csv[j as int].1 == cs@[j as int].1@);
            }
            vals.push(cs[j].1.dup());
            proof {
                assert(vals.deep_view() =~= bv.subrange(0, oi + 1));
            }
            i = i + 1;
        }
        proof {
            assert(bv.subrange(0, ncols as int) =~= bv);
        }
        let row = row_of(&self.columns, &vals);
        let ghost rec = RecordView { live: true, values: bv };
        proof {
            assert(row.deep_view() =~= record_row(colsv, rec));
        }
        self.records.push(Record { live: true, values: vals });
        proof {
            assert(self@.records =~= old(self)@.records.push(rec));
            assert forall|k: int| 0 <= k < colsv.len() implies (#[trigger] bv[k]).data_type()
                == colsv[k].1 by {
                let j = find_index(csv, colsv[k].0);
                crate::schema::lemma_find_index_found(csv, colsv[k].0);
                crate::schema::lemma_find_index_char(colsv, colsv[k].0, k);
            }
            assert(wf_record(colsv, rec));
            assert(wf_table(self@));
        }
        Ok(row)
    }
}


/// Overlaying a coerced set on a well-shaped record keeps it well-shaped.
pub proof fn lemma_overlay_wf(
    cols: ColumnsView,
    r: RecordView,
    cs: ColumnSetView,
    set: ColumnSetView,
    table: Seq<char>,
)
    requires
        wf_record(cols, r),
        unique_cols(cols),
        spec_coerce_set(cols, set, table) == Ok::<ColumnSetView, ErrorView>(cs),
    ensures
        wf_record(cols, RecordView { live: true, values: overlay(cols, r.values, cs) }),
        wf_record(cols, RecordView { live: false, values: r.values }),
{
    lemma_coerce_set_types(cols, set, table);
    let ov = overlay(cols, r.values, cs);
    assert forall|k: int| 0 <= k < cols.len() implies (#[trigger] ov[k]).data_type()
        == cols[k].1 by {
        if has_key(cs, cols[k].0) {
            let j = find_index(cs, cols[k].0);
            crate::schema::lemma_find_index_found(cs, cols[k].0);
            crate::schema::lemma_find_index_char(cols, cols[k].0, k);
        }
    }
}

impl Table {
    /// Rewrites rows: every live record matching the predicate whose overlay
    /// changes it is cleared and its new version appended, exactly as
    /// `spec_update` says.  The changed rows are returned.
    #[verifier::loop_isolation(false)]
    pub fn update(&mut self, set: ColumnSet, conditions: ColumnSet) -> (r: Result<
        Vec<ColumnSet>,
        DbError,
    >)
        requires
            wf_table(old(self)@),
            unique_cols(old(self)@.columns),
        ensures
            match r {
                Ok(rows) => spec_update(old(self)@, set.deep_view(), conditions.deep_view())
                    == Ok::<(TableView, Seq<ColumnSetView>), ErrorView>(
                    (final(self)@, rows.deep_view()),
                ) && wf_table(final(self)@) && final(self)@.columns == old(self)@.columns
                    && final(self)@.name == old(self)@.name,
                Err(e) => spec_update(old(self)@, set.deep_view(), conditions.deep_view())
                    == Err::<(TableView, Seq<ColumnSetView>), ErrorView>(e@) && final(self)@
                    == old(self)@,
            },
    {
        let ghost setv = set.deep_view();
        let ghost condsv = conditions.deep_view();
        let cs_set = match self.coerce(set) {
            Ok(cs) => cs,
            Err(e) => {
                return Err(e);
            }
        };
        let cs_conds = match self.coerce(conditions) {
            Ok(cs) => cs,
            Err(e) => {
                return Err(e);
            }
        };
        let ghost css = cs_set.deep_view();
        let ghost csc = cs_conds.deep_view();
        let ghost colsv = self@.columns;
        let ghost recs0 = self@.records;
        let n0 = self.records.len();
        let mut out: Vec<ColumnSet> = Vec::new();
        let mut i: usize = 0;
        proof {
            assert(out.deep_view() =~= Seq::<ColumnSetView>::empty());
        }
        while i < n0
            invariant
                0 <= i <= n0,
                n0 <= self.records@.len(),
                self@.columns == colsv,
                self@.name == old(self)@.name,
                wf_table(self@),
                update_walk(colsv, recs0, 0, n0 as int, css, csc, Seq::empty()) == update_walk(
                    colsv,
                    self@.records,
                    i as int,
                    n0 as int,
                    css,
                    csc,
                    out.deep_view(),
                ),
            decreases n0 - i,
        {
            proof {
                assert(self@.records[i as int] == self.records@[i as int]@);
                assert(wf_record(colsv, self@.records[i as int]));
            }
            let ghost rv = self@.records[i as int];
            let is_live = self.records[i].live;
            if is_live && matches_x(&self.columns, &self.records[i].values, &cs_conds) {
                let nv = overlay_x(&self.columns, &self.records[i].values, &cs_set);
                let ghost nvv = nv.deep_view();
                if !values_eq(&nv, &self.records[i].values) {
                    let row = row_of(&self.columns, &nv);
                    let dead_vals = dup_values(&self.records[i].values);
                    let ghost recs_cur = self@.records;
                    let ghost out0 = out.deep_view();
                    self.records.remove(i);
                    self.records.insert(i, Record { live: false, values: dead_vals });
                    self.records.push(Record { live: true, values: nv });
                    out.push(row);
                    proof {
                        lemma_overlay_wf(colsv, rv, css, setv, self@.name);
                        let deadr = RecordView { live: false, values: rv.values };
                        let newr = RecordView { live: true, values: nvv };
                        assert(self@.records =~= recs_cur.update(i as int, deadr).push(newr));
                        assert(out.deep_view() =~= out0.push(record_row(colsv, newr)));
                        assert(wf_table(self@));
                    }
                }
            }
            i = i + 1;
        }
        Ok(out)
    }

    /// Clears rows: every live record matching the predicate is cleared,
    /// exactly as `spec_delete` says.  The deleted rows are returned.
    #[verifier::loop_isolation(false)]
    pub fn delete(&mut self, conditions: ColumnSet) -> (r: Result<Vec<ColumnSet>, DbError>)
        requires
            wf_table(old(self)@),
        ensures
            match r {
                Ok(rows) => spec_delete(old(self)@, conditions.deep_view()) == Ok::<
                    (TableView, Seq<ColumnSetView>),
                    ErrorView,
                >((final(self)@, rows.deep_view())) && wf_table(final(self)@)
                    && final(self)@.columns == old(self)@.columns
                    && final(self)@.name == old(self)@.name,
                Err(e) => spec_delete(old(self)@, conditions.deep_view()) == Err::<
                    (TableView, Seq<ColumnSetView>),
                    ErrorView,
                >(e@) && final(self)@ == old(self)@,
            },
    {
        let cs = match self.coerce(conditions) {
            Ok(cs) => cs,
            Err(e) => {
                return Err(e);
            }
        };
        let ghost csv = cs.deep_view();
        let ghost colsv = self@.columns;
        let ghost recs0 = self@.records;
        let n = self.records.len();
        let mut out: Vec<ColumnSet> = Vec::new();
        let mut i: usize = 0;
        proof {
            assert(out.deep_view() =~= Seq::<ColumnSetView>::empty());
        }
        while i < n
            invariant
                0 <= i <= n,
                n == self.records@.len(),
                self@.columns == colsv,
                self@.name == old(self)@.name,
                wf_table(self@),
                delete_walk(colsv, recs0, 0, csv, Seq::empty()) == delete_walk(
                    colsv,
                    self@.records,
                    i as int,
                    csv,
                    out.deep_view(),
                ),
            decreases n - i,
        {
            proof {
                assert(self@.records[i as int] == self.records@[i as int]@);
                assert(wf_record(colsv, self@.records[i as int]));
            }
            let ghost rv = self@.records[i as int];
            let is_live = self.records[i].live;
            if is_live && matches_x(&self.columns, &self.records[i].values, &cs) {
                let row = row_of(&self.columns, &self.records[i].values);
                let dead_vals = dup_values(&self.records[i].values);
                let ghost recs_cur = self@.records;
                let ghost out0 = out.deep_view();
                self.records.remove(i);
                self.records.insert(i, Record { live: false, values: dead_vals });
                out.push(row);
                proof {
                    let deadr = RecordView { live: false, values: rv.values };
                    assert(self@.records =~= recs_cur.update(i as int, deadr));
                    assert(out.deep_view() =~= out0.push(record_row(colsv, rv)));
                    assert(wf_table(self@));
                }
            }
            i = i + 1;
        }
        Ok(out)
    }

    /// Discards every record; the file behind the table is to be truncated.
    pub fn drop(&mut self) -> (r: Result<(), DbError>)
        ensures
            r is Ok,
            final(self)@.records.len() == 0,
            final(self)@.columns == old(self)@.columns,
            final(self)@.name == old(self)@.name,
    {
        self.records.clear();
        Ok(())
    }
}


/// The byte form of a value sequence: each cell's encoding, concatenated.
pub open spec fn spec_encode_cells(vals: Seq<ValueView>) -> Seq<u8>
    decreases vals.len(),
{
    if vals.len() == 0 {
        Seq::empty()
    } else {
        spec_encode(vals[0]) + spec_encode_cells(vals.drop_first())
    }
}

/// The byte form of one record: the tombstone byte, then the cells in
/// schema order.
pub open spec fn spec_encode_record(r: RecordView) -> Seq<u8> {
    seq![
        if r.live {
            0u8
        } else {
            1u8
        },
    ] + spec_encode_cells(r.values)
}

/// The byte form of a whole table file: the records, concatenated.
pub open spec fn spec_encode_table(recs: Seq<RecordView>) -> Seq<u8>
    decreases recs.len(),
{
    if recs.len() == 0 {
        Seq::empty()
    } else {
        spec_encode_record(recs[0]) + spec_encode_table(recs.drop_first())
    }
}

/// Reads the cells of one record from byte offset `pos`, column `i` onward.
pub open spec fn spec_read_cells(cols: ColumnsView, b: Seq<u8>, pos: int, i: int) -> Option<
    (Seq<ValueView>, int),
>
    decreases cols.len() - i
        when 0 <= i <= cols.len()
{
    if i >= cols.len() {
        Some((Seq::empty(), pos))
    } else {
        match spec_read(cols[i].1, b, pos) {
            Some(vp) => match spec_read_cells(cols, b, vp.1, i + 1) {
                Some(rest) => Some((seq![vp.0] + rest.0, rest.1)),
                None => None,
            },
            None => None,
        }
    }
}

/// Whether a failed cell read, starting at column `i` and byte offset
/// `pos`, failed because the bytes ran out (rather than on bad content).
pub open spec fn spec_cells_short(cols: ColumnsView, b: Seq<u8>, pos: int, i: int) -> bool
    decreases cols.len() - i
        when 0 <= i <= cols.len()
{
    if i >= cols.len() {
        false
    } else {
        match spec_read(cols[i].1, b, pos) {
            Some(vp) => spec_cells_short(cols, b, vp.1, i + 1),
            None => crate::types::spec_read_is_short(cols[i].1, b, pos),
        }
    }
}

/// Reads records from byte offset `pos` until the bytes run out.  A record
/// cut short by the end of the data — the remains of an interrupted append —
/// is dropped, so every complete record before it survives a reopen; a
/// record that fails on bad content is an error.
pub open spec fn spec_parse_records(cols: ColumnsView, b: Seq<u8>, pos: int) -> Result<
    Seq<RecordView>,
    (),
>
    decreases b.len() - pos
        when 0 <= pos <= b.len()
{
    if pos >= b.len() {
        Ok(Seq::empty())
    } else {
        let live = b[pos] == 0;
        match spec_read_cells(cols, b, pos + 1, 0) {
            None => if spec_cells_short(cols, b, pos + 1, 0) {
                Ok(Seq::empty())
            } else {
                Err(())
            },
            Some(vp) => if pos + 1 <= vp.1 <= b.len() {
                match spec_parse_records(cols, b, vp.1) {
                    Ok(rest) => Ok(seq![RecordView { live, values: vp.0 }] + rest),
                    Err(e) => Err(e),
                }
            } else {
                Err(())
            },
        }
    }
}

/// A cell read back from bytes carries the type it was read at, and ends in
/// bounds past its start.
pub proof fn lemma_spec_read_shape(t: DataType, b: Seq<u8>, pos: int)
    requires
        0 <= pos <= b.len(),
    ensures
        spec_read(t, b, pos) matches Some(vp) ==> vp.0.data_type() == t && pos < vp.1 <= b.len(),
{
}

/// Cells read back from bytes have the declared types, and reading ends in
/// bounds.
pub proof fn lemma_spec_read_cells_shape(cols: ColumnsView, b: Seq<u8>, pos: int, i: int)
    requires
        0 <= i <= cols.len(),
        0 <= pos <= b.len(),
    ensures
        spec_read_cells(cols, b, pos, i) matches Some(vp) ==> {
            &&& vp.0.len() == cols.len() - i
            &&& pos <= vp.1 <= b.len()
            &&& forall|k: int|
                0 <= k < vp.0.len() ==> (#[trigger] vp.0[k]).data_type() == cols[i + k].1
        },
    decreases cols.len() - i,
{
    if i < cols.len() {
        lemma_spec_read_shape(cols[i].1, b, pos);
        match spec_read(cols[i].1, b, pos) {
            Some(vp) => {
                lemma_spec_read_cells_shape(cols, b, vp.1, i + 1);
            },
            None => {},
        }
    }
}

impl Table {
    /// A table read back from the byte form of its file.  The records must
    /// decode against the schema; a trailing record cut short by the end of
    /// the bytes — an interrupted append — is dropped, so a clean start is
    /// always possible after a crash, while bad content is an error.
    #[verifier::loop_isolation(false)]
    pub fn open(name: String, columns: Columns, data: &[u8]) -> (r: Result<Table, DbError>)
        ensures
            match r {
                Ok(t) => spec_parse_records(columns.deep_view(), data@, 0) == Ok::<
                    Seq<RecordView>,
                    (),
                >(t@.records) && t@.name == name@ && t@.columns == columns.deep_view()
                    && wf_table(t@),
                Err(e) => spec_parse_records(columns.deep_view(), data@, 0) is Err && e@
                    == ErrorView::IoError,
            },
    {
        let ghost colsv = columns.deep_view();
        let ghost bv = data@;
        let n = data.len();
        let ncols = columns.len();
        let mut recs: Vec<Record> = Vec::new();
        let mut pos: usize = 0;
        proof {
            assert(recs.deep_view() =~= Seq::<RecordView>::empty());
            if spec_parse_records(colsv, bv, 0) is Ok {
                assert(recs.deep_view() + parse_records_ok(colsv, bv, 0) =~= parse_records_ok(
                    colsv,
                    bv,
                    0,
                ));
            }
        }
        while pos < n
            invariant
                0 <= pos <= n,
                n == data@.len(),
                wf_table(
                    TableView { name: name@, columns: colsv, records: recs.deep_view() },
                ),
                spec_parse_records(colsv, bv, 0) == (match spec_parse_records(
                    colsv,
                    bv,
                    pos as int,
                ) {
                    Ok(rest) => Ok::<Seq<RecordView>, ()>(recs.deep_view() + rest),
                    Err(e) => Err::<Seq<RecordView>, ()>(e),
                }),
            decreases n - pos,
        {
            let tomb = *vstd::slice::slice_index_get(data, pos);
            let live = tomb == 0;
            let ghost startpos = pos as int;
            let mut vals: Vec<TypedValue> = Vec::new();
            let mut cur: usize = pos + 1;
            let mut c: usize = 0;
            proof {
                assert(vals.deep_view() =~= Seq::<ValueView>::empty());
                lemma_spec_read_cells_shape(colsv, bv, startpos + 1, 0);
            }
            while c < ncols
                invariant
                    0 <= c <= ncols,
                    ncols == columns@.len(),
                    startpos + 1 <= cur <= n,
                    vals@.len() == c,
                    forall|k: int|
                        0 <= k < c ==> (#[trigger] vals.deep_view()[k]).data_type()
                            == colsv[k].1,
                    spec_read_cells(colsv, bv, startpos + 1, 0) == (match spec_read_cells(
                        colsv,
                        bv,
                        cur as int,
                        c as int,
                    ) {
                        Some(rest) => Some::<(Seq<ValueView>, int)>(
                            (vals.deep_view() + rest.0, rest.1),
                        ),
                        None => None::<(Seq<ValueView>, int)>,
                    }),
                    spec_cells_short(colsv, bv, startpos + 1, 0) == spec_cells_short(
                        colsv,
                        bv,
                        cur as int,
                        c as int,
                    ),
                decreases ncols - c,
            {
                proof {
                    assert(colsv[c as int].1 == columns@[c as int].1);
                }
                let dt = columns[c].1;
                match TypedValue::read(dt, data, cur) {
                    Ok(vp) => {
                        proof {
                            lemma_spec_read_shape(dt, bv, cur as int);
                            lemma_spec_read_cells_shape(colsv, bv, vp.1 as int, c as int + 1);
                        }
                        let ghost vals0 = vals.deep_view();
                        let ghost rd = spec_read(dt, bv, cur as int);
                        vals.push(vp.0);
                        cur = vp.1;
                        proof {
                            assert(vals.deep_view() =~= vals0.push(rd.unwrap().0));
                            if spec_read_cells(colsv, bv, cur as int, c as int + 1) is Some {
                                let rest = spec_read_cells(
                                    colsv,
                                    bv,
                                    cur as int,
                                    c as int + 1,
                                ).unwrap();
                                assert(vals0.push(rd.unwrap().0) + rest.0 =~= vals0 + (seq![
                                    rd.unwrap().0,
                                ] + rest.0));
                            }
                        }
                    }
                    Err(e) => {
                        if crate::types::read_is_short(dt, data, cur) {
                            // the record was cut off by the end of the
                            // data: drop it and keep everything before it
                            proof {
                                assert(spec_cells_short(colsv, bv, startpos + 1, 0));
                                assert(spec_read_cells(colsv, bv, startpos + 1, 0)
                                    is None);
                                assert(spec_parse_records(colsv, bv, startpos) == Ok::<
                                    Seq<RecordView>,
                                    (),
                                >(Seq::empty()));
                                assert(recs.deep_view() + Seq::<RecordView>::empty()
                                    =~= recs.deep_view());
                            }
                            return Ok(Table { name, columns, records: recs });
                        }
                        return Err(e);
                    }
                }
                c = c + 1;
            }
            let ghost recs0 = recs.deep_view();
            let ghost newrec = RecordView { live: live, values: vals.deep_view() };
            recs.push(Record { live, values: vals });
            pos = cur;
            proof {
                assert(recs.deep_view() =~= recs0.push(newrec));
                if spec_parse_records(colsv, bv, pos as int) is Ok {
                    let rest = parse_records_ok(colsv, bv, pos as int);
                    assert(recs0.push(newrec) + rest =~= recs0 + (seq![newrec] + rest));
                }
                assert(newrec.values.len() == colsv.len());
                assert(wf_record(colsv, newrec));
                assert forall|k: int| 0 <= k < recs.deep_view().len() implies wf_record(
                    colsv,
                    #[trigger] recs.deep_view()[k],
                ) by {
                    if k < recs0.len() {
                        let tv0 = TableView { name: name@, columns: colsv, records: recs0 };
                        assert(wf_table(tv0));
                        assert(tv0.records[k] == recs0[k]);
                        assert(wf_record(colsv, tv0.records[k]));
                        assert(recs.deep_view()[k] == recs0[k]);
                    } else {
                        assert(recs.deep_view()[k] == newrec);
                    }
                }
            }
        }
        Ok(Table { name, columns, records: recs })
    }

    /// The byte form of this table's file.
    #[verifier::loop_isolation(false)]
    pub fn to_bytes(&self) -> (r: Vec<u8>)
        ensures
            r@ == spec_encode_table(self@.records),
    {
        let ghost recsv = self@.records;
        let mut out: Vec<u8> = Vec::new();
        let n = self.records.len();
        let mut i: usize = 0;
        proof {
            assert(recsv.skip(0) =~= recsv);
            assert(out@ + spec_encode_table(recsv) =~= spec_encode_table(recsv));
        }
        while i < n
            invariant
                0 <= i <= n,
                n == self.records@.len(),
                spec_encode_table(recsv) == out@ + spec_encode_table(recsv.skip(i as int)),
            decreases n - i,
        {
            let ghost rem = recsv.skip(i as int);
            proof {
                assert(rem[0] == recsv[i as int]);
                assert(recsv[i as int] == self.records@[i as int]@);
                assert(rem.drop_first() =~= recsv.skip(i as int + 1));
            }
            let ghost out0 = out@;
            if self.records[i].live {
                out.push(0u8);
            } else {
                out.push(1u8);
            }
            let nvals = self.records[i].values.len();
            let mut c: usize = 0;
            let ghost valsv = recsv[i as int].values;
            proof {
                assert(out@ =~= out0 + seq![
                    if rem[0].live {
                        0u8
                    } else {
                        1u8
                    },
                ]);
                assert(valsv.skip(0) =~= valsv);
                assert(out@ + spec_encode_cells(valsv) =~= out0 + (seq![
                    if rem[0].live {
                        0u8
                    } else {
                        1u8
                    },
                ] + spec_encode_cells(valsv)));
            }
            let ghost outmark = out@;
            proof {
                assert(outmark + spec_encode_cells(valsv.skip(0)) =~= outmark
                    + spec_encode_cells(valsv));
            }
            while c < nvals
                invariant
                    0 <= c <= nvals,
                    i < self.records@.len(),
                    nvals == self.records@[i as int].values@.len(),
                    valsv == self.records@[i as int]@.values,
                    outmark + spec_encode_cells(valsv) == out@ + spec_encode_cells(
                        valsv.skip(c as int),
                    ),
                decreases nvals - c,
            {
                let ghost vrem = valsv.skip(c as int);
                proof {
                    assert(vrem[0] == valsv[c as int]);
                    assert(valsv[c as int] == self.records@[i as int].values@[c as int]@);
                    assert(vrem.drop_first() =~= valsv.skip(c as int + 1));
                }
                let ghost outc = out@;
                let mut bytes = self.records[i].values[c].dup().into_bytes();
                out.append(&mut bytes);
                proof {
                    assert(out@ =~= outc + spec_encode(vrem[0]));
                    assert((outc + spec_encode(vrem[0])) + spec_encode_cells(vrem.drop_first())
                        =~= outc + (spec_encode(vrem[0]) + spec_encode_cells(vrem.drop_first())));
                }
                c = c + 1;
            }
            proof {
                assert(valsv.skip(nvals as int).len() == 0);
                assert(out@ + Seq::<u8>::empty() =~= out@);
                assert(out@ =~= outmark + spec_encode_cells(valsv));
                assert(out@ =~= out0 + spec_encode_record(rem[0]));
                assert((out0 + spec_encode_record(rem[0])) + spec_encode_table(
                    recsv.skip(i as int + 1),
                ) =~= out0 + (spec_encode_record(rem[0]) + spec_encode_table(
                    recsv.skip(i as int + 1),
                )));
            }
            i = i + 1;
        }
        proof {
            assert(recsv.skip(n as int).len() == 0);
            assert(out@ + Seq::<u8>::empty() =~= out@);
        }
        out
    }
}

/// The value of a successful record parse, for stating intermediate
/// equalities.
pub open spec fn parse_records_ok(cols: ColumnsView, b: Seq<u8>, pos: int) -> Seq<RecordView> {
    match spec_parse_records(cols, b, pos) {
        Ok(recs) => recs,
        Err(_) => Seq::empty(),
    }
}


/// In a row of a table with distinct column names, a name looks up the same
/// position as in the schema.
pub proof fn lemma_record_row_lookup(cols: ColumnsView, r: RecordView, k: Seq<char>)
    requires
        r.values.len() == cols.len(),
    ensures
        find_index(record_row(cols, r), k) == find_index(cols, k),
    decreases cols.len(),
{
    let row = record_row(cols, r);
    if cols.len() > 0 {
        let cols2 = cols.drop_first();
        let r2 = RecordView { live: r.live, values: r.values.drop_first() };
        lemma_record_row_lookup(cols2, r2, k);
        assert(record_row(cols2, r2) =~= row.drop_first()) by {
            assert(forall|i: int|
                0 <= i < cols2.len() ==> record_row(cols2, r2)[i] == (
                cols[i + 1].0,
                r.values[i + 1],
            ));
        }
    }
}

/// A pair kept by a projection keeps its value: looking a name up in the
/// projected row gives what the full row held, provided the row's names are
/// pairwise distinct.
pub proof fn lemma_project_row_lookup(row: ColumnSetView, proj: Seq<Seq<char>>, k: Seq<char>)
    requires
        forall|i: int, j: int|
            0 <= i < j < row.len() ==> (#[trigger] row[i]).0 != (#[trigger] row[j]).0,
    ensures
        has_key(project_row(row, proj), k) ==> {
            &&& has_key(row, k)
            &&& project_row(row, proj)[find_index(project_row(row, proj), k)].1 == row[find_index(
                row,
                k,
            )].1
        },
    decreases row.len(),
{
    let out = project_row(row, proj);
    if row.len() > 0 {
        let row2 = row.drop_first();
        lemma_project_row_lookup(row2, proj, k);
        crate::schema::lemma_find_index_found(out, k);
        crate::schema::lemma_find_index_found(row2, k);
        crate::schema::lemma_find_index_found(row, k);
        let rest = project_row(row2, proj);
        if proj.contains(row[0].0) {
            assert(out =~= seq![row[0]] + rest);
            if has_key(out, k) {
                if row[0].0 == k {
                    assert(out[0] == row[0]);
                    crate::schema::lemma_find_index_char(out, k, 0);
                    crate::schema::lemma_find_index_char(row, k, 0);
                } else {
                    assert(out[0].0 != k);
                    assert(forall|i: int| 0 <= i < rest.len() ==> out[i + 1] == rest[i]);
                    assert(has_key(rest, k)) by {
                        let fo = find_index(out, k);
                        assert(out[fo].0 == k);
                        assert(fo >= 1);
                        assert(rest[fo - 1] == out[fo]);
                        crate::schema::lemma_find_index_found(rest, k);
                        crate::schema::lemma_find_index_not_found(rest, k);
                    }
                    assert(has_key(row2, k));
                    let fr = find_index(rest, k);
                    crate::schema::lemma_find_index_found(rest, k);
                    crate::schema::lemma_find_index_prefix(rest, k);
                    assert forall|i: int| 0 <= i < fr + 1 implies out[i].0 != k by {
                        if i > 0 {
                            assert(out[i] == rest[i - 1]);
                        }
                    }
                    crate::schema::lemma_find_index_char(out, k, fr + 1);
                    let f2 = find_index(row2, k);
                    assert(row2[f2] == row[f2 + 1]);
                    crate::schema::lemma_find_index_char(row, k, f2 + 1);
                }
            }
        } else {
            assert(out == rest);
            if has_key(out, k) {
                assert(has_key(row2, k));
                let f2 = find_index(row2, k);
                assert(row2[f2] == row[f2 + 1]);
                assert(row[0].0 != k) by {
                    if row[0].0 == k {
                        crate::schema::lemma_find_index_found(row2, k);
                        assert(row2[f2].0 == row[f2 + 1].0);
                    }
                }
                crate::schema::lemma_find_index_char(row, k, f2 + 1);
            }
        }
    }
}

/// Predicate soundness: every row a select returns satisfies the coerced
/// predicate.  Wherever the projection kept a condition's column, the row
/// holds exactly the condition's value; the empty projection keeps them all.
pub proof fn lemma_select_sound(
    cols: ColumnsView,
    recs: Seq<RecordView>,
    proj: Seq<Seq<char>>,
    cs: ColumnSetView,
    table: Seq<char>,
)
    requires
        unique_cols(cols),
        forall|k: int| 0 <= k < recs.len() ==> wf_record(cols, #[trigger] recs[k]),
    ensures
        select_rows(cols, recs, proj, cs, table) matches Ok(rows) ==> forall|a: int, b: int|
            0 <= a < rows.len() && 0 <= b < cs.len() ==> {
                let row = #[trigger] rows[a];
                let cond = #[trigger] cs[b];
                &&& (proj.len() == 0 ==> has_key(row, cond.0))
                &&& (has_key(row, cond.0) ==> row[find_index(row, cond.0)].1 == cond.1)
            },
    decreases recs.len(),
{
    if recs.len() > 0 {
        assert(forall|k: int|
            0 <= k < recs.drop_first().len() ==> recs.drop_first()[k] == recs[k + 1]);
        lemma_select_sound(cols, recs.drop_first(), proj, cs, table);
        if recs[0].live && spec_matches(cols, recs[0], cs) && !(proj.len() > 0 && first_missing(
            cols,
            proj,
        ) < proj.len()) {
            match select_rows(cols, recs.drop_first(), proj, cs, table) {
                Ok(rest) => {
                    let row0 = spec_project(cols, recs[0], proj);
                    let rows = seq![row0] + rest;
                    assert forall|b: int| 0 <= b < cs.len() implies {
                        let cond = #[trigger] cs[b];
                        &&& (proj.len() == 0 ==> has_key(row0, cond.0))
                        &&& (has_key(row0, cond.0) ==> row0[find_index(row0, cond.0)].1 == cond.1)
                    } by {
                        let cond = cs[b];
                        let j = find_index(cols, cond.0);
                        crate::schema::lemma_find_index_found(cols, cond.0);
                        assert(j < cols.len() && recs[0].values[j] == cond.1);
                        let full = record_row(cols, recs[0]);
                        lemma_record_row_lookup(cols, recs[0], cond.0);
                        assert(full[j] == (cols[j].0, recs[0].values[j]));
                        if proj.len() == 0 {
                            assert(row0 == full);
                            assert(has_key(full, cond.0));
                            assert(row0[find_index(row0, cond.0)].1 == cond.1);
                        } else {
                            assert(forall|x: int, y: int|
                                0 <= x < y < full.len() ==> (#[trigger] full[x]).0 != (
                                #[trigger] full[y]).0);
                            lemma_project_row_lookup(full, proj, cond.0);
                            if has_key(row0, cond.0) {
                                assert(row0[find_index(row0, cond.0)].1 == full[find_index(
                                    full,
                                    cond.0,
                                )].1);
                            }
                        }
                    }
                    assert(forall|a: int| 1 <= a < rows.len() ==> rows[a] == rest[a - 1]);
                },
                Err(_) => {},
            }
        }
    }
}

/// After a delete, no record both lives and matches the predicate that
/// deleted.
pub proof fn lemma_delete_walk_clears(
    cols: ColumnsView,
    recs: Seq<RecordView>,
    i: int,
    cs: ColumnSetView,
    rows: Seq<ColumnSetView>,
)
    requires
        0 <= i <= recs.len(),
        forall|k: int|
            0 <= k < i ==> !((#[trigger] recs[k]).live && spec_matches(cols, recs[k], cs)),
    ensures
        ({
            let recs2 = delete_walk(cols, recs, i, cs, rows).0;
            &&& recs2.len() == recs.len()
            &&& forall|k: int|
                0 <= k < recs2.len() ==> !((#[trigger] recs2[k]).live && spec_matches(
                    cols,
                    recs2[k],
                    cs,
                ))
        }),
    decreases recs.len() - i,
{
    if i < recs.len() {
        if recs[i].live && spec_matches(cols, recs[i], cs) {
            let dead = RecordView { live: false, values: recs[i].values };
            let recs1 = recs.update(i, dead);
            assert(forall|k: int| 0 <= k < i ==> recs1[k] == recs[k]);
            lemma_delete_walk_clears(cols, recs1, i + 1, cs, rows.push(record_row(cols, recs[i])));
        } else {
            lemma_delete_walk_clears(cols, recs, i + 1, cs, rows);
        }
    }
}

/// A select over records none of which both lives and matches returns no
/// rows.
pub proof fn lemma_select_none(
    cols: ColumnsView,
    recs: Seq<RecordView>,
    proj: Seq<Seq<char>>,
    cs: ColumnSetView,
    table: Seq<char>,
)
    requires
        forall|k: int|
            0 <= k < recs.len() ==> !((#[trigger] recs[k]).live && spec_matches(cols, recs[k], cs)),
    ensures
        select_rows(cols, recs, proj, cs, table) == Ok::<Seq<ColumnSetView>, ErrorView>(
            Seq::empty(),
        ),
    decreases recs.len(),
{
    if recs.len() > 0 {
        let rest = recs.drop_first();
        assert(forall|k: int| 0 <= k < rest.len() ==> rest[k] == recs[k + 1]);
        lemma_select_none(cols, rest, proj, cs, table);
    }
}

/// Delete then select: after deleting with a predicate, a select with the
/// same predicate returns nothing, whatever the projection.
pub proof fn lemma_delete_then_select(tv: TableView, conds: ColumnSetView, proj: Seq<Seq<char>>)
    ensures
        spec_delete(tv, conds) matches Ok(tr) ==> spec_select(tr.0, proj, conds) == Ok::<
            Seq<ColumnSetView>,
            ErrorView,
        >(Seq::empty()),
{
    match spec_coerce_set(tv.columns, conds, tv.name) {
        Ok(cs) => {
            lemma_delete_walk_clears(tv.columns, tv.records, 0, cs, Seq::empty());
            let tv2 = TableView {
                name: tv.name,
                columns: tv.columns,
                records: delete_walk(tv.columns, tv.records, 0, cs, Seq::empty()).0,
            };
            lemma_select_none(tv2.columns, tv2.records, proj, cs, tv2.name);
        },
        Err(_) => {},
    }
}

/// A select with no conditions and no projection returns the row of every
/// live record, in order.
pub proof fn lemma_select_all_rows(cols: ColumnsView, recs: Seq<RecordView>, table: Seq<char>)
    ensures
        select_rows(cols, recs, Seq::empty(), Seq::empty(), table) is Ok,
        ({
            let rows = select_rows_ok(cols, recs, Seq::empty(), Seq::empty(), table);
            recs.len() > 0 && recs.last().live ==> rows.len() > 0 && rows.last() == record_row(
                cols,
                recs.last(),
            )
        }),
    decreases recs.len(),
{
    let proj = Seq::<Seq<char>>::empty();
    let cs = Seq::<(Seq<char>, ValueView)>::empty();
    if recs.len() > 0 {
        let rest = recs.drop_first();
        lemma_select_all_rows(cols, rest, table);
        assert(spec_matches(cols, recs[0], cs));
        if recs.len() == 1 {
            assert(rest.len() == 0);
            if recs[0].live {
                assert(select_rows_ok(cols, recs, proj, cs, table) =~= seq![
                    spec_project(cols, recs[0], proj),
                ]);
            }
        } else {
            assert(rest.last() == recs.last());
        }
    }
}

/// Insert then select: after a successful insert, a select of everything
/// contains the inserted row, as its last row.
pub proof fn lemma_insert_then_select(tv: TableView, values: ColumnSetView)
    ensures
        spec_insert(tv, values) matches Ok(tr) ==> {
            let sel = spec_select(tr.0, Seq::empty(), Seq::empty());
            &&& sel is Ok
            &&& sel matches Ok(rows) ==> rows.len() > 0 && rows.last() == tr.1
        },
{
    match spec_insert(tv, values) {
        Ok(tr) => {
            assert(spec_coerce_set(tr.0.columns, Seq::empty(), tr.0.name) == Ok::<
                ColumnSetView,
                ErrorView,
            >(Seq::empty()));
            lemma_select_all_rows(tr.0.columns, tr.0.records, tr.0.name);
            assert(tr.0.records.last().live);
        },
        Err(_) => {},
    }
}

/// An update whose overlays change nothing changes nothing and reports no
/// rows.
pub proof fn lemma_update_walk_noop(
    cols: ColumnsView,
    recs: Seq<RecordView>,
    i: int,
    n0: int,
    cs_set: ColumnSetView,
    cs_conds: ColumnSetView,
    rows: Seq<ColumnSetView>,
)
    requires
        0 <= i <= n0 <= recs.len(),
        forall|k: int|
            i <= k < n0 && (#[trigger] recs[k]).live && spec_matches(cols, recs[k], cs_conds)
                ==> overlay(cols, recs[k].values, cs_set) == recs[k].values,
    ensures
        update_walk(cols, recs, i, n0, cs_set, cs_conds, rows) == (recs, rows),
    decreases n0 - i,
{
    if i < n0 {
        lemma_update_walk_noop(cols, recs, i + 1, n0, cs_set, cs_conds, rows);
    }
}

/// Update idempotence: when every matched live record already carries the
/// set's values, the update leaves the records untouched and returns no
/// rows.
pub proof fn lemma_update_noop(tv: TableView, set: ColumnSetView, conds: ColumnSetView)
    requires
        ({
            match (
                spec_coerce_set(tv.columns, set, tv.name),
                spec_coerce_set(tv.columns, conds, tv.name),
            ) {
                (Ok(cs_set), Ok(cs_conds)) => forall|k: int|
                    0 <= k < tv.records.len() && (#[trigger] tv.records[k]).live && spec_matches(
                        tv.columns,
                        tv.records[k],
                        cs_conds,
                    ) ==> overlay(tv.columns, tv.records[k].values, cs_set) == tv.records[k].values,
                _ => true,
            }
        }),
    ensures
        spec_update(tv, set, conds) matches Ok(tr) ==> tr.0 =~= tv && tr.1 == Seq::<
            ColumnSetView,
        >::empty(),
{
    match (
        spec_coerce_set(tv.columns, set, tv.name),
        spec_coerce_set(tv.columns, conds, tv.name),
    ) {
        (Ok(cs_set), Ok(cs_conds)) => {
            lemma_update_walk_noop(
                tv.columns,
                tv.records,
                0,
                tv.records.len() as int,
                cs_set,
                cs_conds,
                Seq::empty(),
            );
        },
        _ => {},
    }
}


/// Every cell of the record can survive the byte form: a `Char` fits its
/// single byte and a `Str` its length prefix.
pub open spec fn encodable_record(r: RecordView) -> bool {
    forall|i: int| 0 <= i < r.values.len() ==> crate::types::encodable(#[trigger] r.values[i])
}

/// Cells written and read back are the same cells.
pub proof fn lemma_read_cells_round_trip(
    cols: ColumnsView,
    vals: Seq<ValueView>,
    prefix: Seq<u8>,
    suffix: Seq<u8>,
    i: int,
)
    requires
        0 <= i <= cols.len(),
        vals.len() == cols.len(),
        forall|k: int|
            i <= k < vals.len() ==> (#[trigger] vals[k]).data_type() == cols[k].1
                && crate::types::encodable(vals[k]),
    ensures
        spec_read_cells(
            cols,
            prefix + spec_encode_cells(vals.skip(i)) + suffix,
            prefix.len() as int,
            i,
        ) == Some::<(Seq<ValueView>, int)>(
            (vals.skip(i), prefix.len() + spec_encode_cells(vals.skip(i)).len() as int),
        ),
    decreases cols.len() - i,
{
    let enc_tail = spec_encode_cells(vals.skip(i));
    let b = prefix + enc_tail + suffix;
    if i == cols.len() {
        assert(vals.skip(i) =~= Seq::<ValueView>::empty());
        assert(enc_tail =~= Seq::<u8>::empty());
        assert(prefix + enc_tail + suffix =~= prefix + suffix);
    } else {
        let v = vals[i];
        let enc_i = spec_encode(v);
        assert(vals.skip(i)[0] == v);
        assert(vals.skip(i).drop_first() =~= vals.skip(i + 1));
        let rest_enc = spec_encode_cells(vals.skip(i + 1));
        assert(enc_tail =~= enc_i + rest_enc);
        crate::types::lemma_read_round_trip(v, prefix, rest_enc + suffix);
        assert(prefix + enc_i + (rest_enc + suffix) =~= b);
        lemma_read_cells_round_trip(cols, vals, prefix + enc_i, suffix, i + 1);
        assert((prefix + enc_i) + spec_encode_cells(vals.skip(i + 1)) + suffix =~= b);
        assert(seq![v] + vals.skip(i + 1) =~= vals.skip(i));
    }
}

/// Records written and read back are the same records.
pub proof fn lemma_parse_records_round_trip(
    cols: ColumnsView,
    recs: Seq<RecordView>,
    prefix: Seq<u8>,
)
    requires
        forall|k: int| 0 <= k < recs.len() ==> wf_record(cols, #[trigger] recs[k]),
        forall|k: int| 0 <= k < recs.len() ==> encodable_record(#[trigger] recs[k]),
    ensures
        spec_parse_records(cols, prefix + spec_encode_table(recs), prefix.len() as int) == Ok::<
            Seq<RecordView>,
            (),
        >(recs),
    decreases recs.len(),
{
    let b = prefix + spec_encode_table(recs);
    let pos = prefix.len() as int;
    if recs.len() == 0 {
        assert(spec_encode_table(recs) =~= Seq::<u8>::empty());
        assert(b =~= prefix);
        assert(recs =~= Seq::<RecordView>::empty());
    } else {
        let r0 = recs[0];
        let tomb: u8 = if r0.live {
            0u8
        } else {
            1u8
        };
        let cells_enc = spec_encode_cells(r0.values);
        let encr = spec_encode_record(r0);
        let rest_enc = spec_encode_table(recs.drop_first());
        assert(recs.drop_first().len() == recs.len() - 1);
        assert(forall|k: int| 0 <= k < recs.drop_first().len() ==> recs.drop_first()[k] == recs[k
            + 1]);
        assert(encr =~= seq![tomb] + cells_enc);
        assert(spec_encode_table(recs) =~= encr + rest_enc);
        assert(b[pos] == tomb) by {
            assert(b[pos] == spec_encode_table(recs)[0]);
            assert(spec_encode_table(recs)[0] == encr[0]);
        }
        assert(r0.values.skip(0) =~= r0.values);
        lemma_read_cells_round_trip(cols, r0.values, prefix + seq![tomb], rest_enc, 0);
        assert((prefix + seq![tomb]) + spec_encode_cells(r0.values.skip(0)) + rest_enc =~= b);
        assert(spec_read_cells(cols, b, pos + 1, 0) == Some::<(Seq<ValueView>, int)>(
            (r0.values, pos + 1 + cells_enc.len()),
        ));
        let pos2 = pos + 1 + cells_enc.len() as int;
        lemma_parse_records_round_trip(cols, recs.drop_first(), prefix + encr);
        assert((prefix + encr) + spec_encode_table(recs.drop_first()) =~= b);
        assert(pos2 == (prefix + encr).len());
        assert(RecordView { live: b[pos] == 0, values: r0.values } =~= r0);
        assert(seq![r0] + recs.drop_first() =~= recs);
    }
}

/// The persistence round trip: the byte form of a table's records reads
/// back as exactly those records.  This is what makes a reopen after a
/// shutdown see the table as it was left.
pub proof fn lemma_table_file_round_trip(tv: TableView)
    requires
        wf_table(tv),
        forall|k: int| 0 <= k < tv.records.len() ==> encodable_record(#[trigger] tv.records[k]),
    ensures
        spec_parse_records(tv.columns, spec_encode_table(tv.records), 0) == Ok::<
            Seq<RecordView>,
            (),
        >(tv.records),
{
    lemma_parse_records_round_trip(tv.columns, tv.records, Seq::empty());
    assert(Seq::<u8>::empty() + spec_encode_table(tv.records) =~= spec_encode_table(tv.records));
}


/// Predicate soundness at the table's own boundary: every row a select
/// returns satisfies the coerced predicate, as `lemma_select_sound` states
/// it for the record walk.
pub proof fn lemma_select_satisfies_where(
    tv: TableView,
    proj: Seq<Seq<char>>,
    conds: ColumnSetView,
)
    requires
        wf_table(tv),
        unique_cols(tv.columns),
    ensures
        spec_select(tv, proj, conds) matches Ok(rows) ==> match spec_coerce_set(
            tv.columns,
            conds,
            tv.name,
        ) {
            Ok(cs) => forall|a: int, b: int|
                0 <= a < rows.len() && 0 <= b < cs.len() ==> {
                    let row = #[trigger] rows[a];
                    let cond = #[trigger] cs[b];
                    &&& (proj.len() == 0 ==> has_key(row, cond.0))
                    &&& (has_key(row, cond.0) ==> row[find_index(row, cond.0)].1 == cond.1)
                },
            Err(_) => false,
        },
{
    match spec_coerce_set(tv.columns, conds, tv.name) {
        Ok(cs) => {
            lemma_select_sound(tv.columns, tv.records, proj, cs, tv.name);
        },
        Err(_) => {},
    }
}


/// Whether two column lists are the same, name for name and type for type.
pub fn columns_eq(a: &Columns, b: &Columns) -> (r: bool)
    ensures
        r == (a.deep_view() == b.deep_view()),
{
    let n = a.len();
    if n != b.len() {
        proof {
            assert(a.deep_view().len() != b.deep_view().len());
        }
        return false;
    }
    let mut i: usize = 0;
    while i < n
        invariant
            0 <= i <= n,
            n == a@.len(),
            n == b@.len(),
            forall|k: int| 0 <= k < i ==> a.deep_view()[k] == b.deep_view()[k],
        decreases n - i,
    {
        proof {
            assert(a.deep_view()[i as int] == (a@[i as int].0@, a@[i as int].1));
            assert(b.deep_view()[i as int] == (b@[i as int].0@, b@[i as int].1));
        }
        if !a[i].0.eq(&b[i].0) || a[i].1 != b[i].1 {
            proof {
                assert(a.deep_view()[i as int] != b.deep_view()[i as int]);
            }
            return false;
        }
        i = i + 1;
    }
    proof {
        assert(a.deep_view() =~= b.deep_view());
    }
    true
}

/// Whether no two columns share a name, exactly as `unique_cols` says.
pub fn check_unique_cols(c: &Columns) -> (r: bool)
    ensures
        r == unique_cols(c.deep_view()),
{
    let n = c.len();
    let mut i: usize = 0;
    while i < n
        invariant
            0 <= i <= n,
            n == c@.len(),
            forall|x: int, y: int|
                0 <= x < y < i ==> (#[trigger] c.deep_view()[x]).0 != (
                #[trigger] c.deep_view()[y]).0,
        decreases n - i,
    {
        let mut j: usize = 0;
        while j < i
            invariant
                0 <= j <= i < n,
                n == c@.len(),
                forall|x: int, y: int|
                    0 <= x < y < i ==> (#[trigger] c.deep_view()[x]).0 != (
                    #[trigger] c.deep_view()[y]).0,
                forall|x: int|
                    0 <= x < j ==> (#[trigger] c.deep_view()[x]).0
                        != c.deep_view()[i as int].0,
            decreases i - j,
        {
            proof {
                assert(c.deep_view()[j as int].0 == c@[j as int].0@);
                assert(c.deep_view()[i as int].0 == c@[i as int].0@);
            }
            if c[j].0.eq(&c[i].0) {
                return false;
            }
            j = j + 1;
        }
        i = i + 1;
    }
    true
}

impl Table {
    /// Whether every record is shaped by the schema, exactly as `wf_table`
    /// says.
    pub fn check_shape(&self) -> (r: bool)
        ensures
            r == wf_table(self@),
    {
        let ncols = self.columns.len();
        let nrecs = self.records.len();
        let mut i: usize = 0;
        while i < nrecs
            invariant
                0 <= i <= nrecs,
                nrecs == self.records@.len(),
                ncols == self.columns@.len(),
                forall|k: int| 0 <= k < i ==> wf_record(self@.columns, #[trigger] self@.records[k]),
            decreases nrecs - i,
        {
            proof {
                assert(self@.records[i as int] == self.records@[i as int]@);
            }
            if self.records[i].values.len() != ncols {
                proof {
                    assert(!wf_record(self@.columns, self@.records[i as int]));
                }
                return false;
            }
            let mut j: usize = 0;
            while j < ncols
                invariant
                    0 <= j <= ncols,
                    i < nrecs,
                    nrecs == self.records@.len(),
                    ncols == self.columns@.len(),
                    self@.records[i as int].values.len() == ncols,
                    forall|k: int|
                        0 <= k < j ==> (#[trigger] self@.records[i as int].values[k]).data_type()
                            == self@.columns[k].1,
                decreases ncols - j,
            {
                proof {
                    assert(self@.records[i as int].values[j as int]
                        == self.records@[i as int].values@[j as int]@);
                    assert(self@.columns[j as int].1 == self.columns@[j as int].1);
                }
                let dt = self.records[i].values[j].data_type();
                if dt != self.columns[j].1 {
                    proof {
                        assert(!wf_record(self@.columns, self@.records[i as int]));
                    }
                    return false;
                }
                j = j + 1;
            }
            proof {
                assert(wf_record(self@.columns, self@.records[i as int]));
            }
            i = i + 1;
        }
        true
    }
}

} // verus!
