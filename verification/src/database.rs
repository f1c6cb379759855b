//! The engine: a catalog and the tables it names, driven by queries.
//!
//! The engine owns the catalog together with one in-memory table per catalog
//! entry, aligned index for index.  `execute` dispatches a query to the
//! right table or catalog operation.  The surrounding application loads the
//! table files into this state when the database is opened and writes the
//! byte forms back out afterwards.

use crate::schema::{
    find_index, lemma_apply_renames_shape, lemma_create_columns_unique, lemma_find_index_found,
    spec_alter_table, spec_create_table, sort_columns, Columns, ColumnsView, Schema, SchemaView,
};
use crate::table::{
    spec_delete, spec_insert, spec_select, spec_update, unique_cols, wf_table, Table, TableView,
};
use crate::types::{ColumnSet, ColumnSetView, DbError, ErrorView, Query, QueryView};
use vstd::prelude::*;

verus! {

/// One database: its catalog and its tables.
#[derive(Debug)]
pub struct Database {
    pub schema: Schema,
    pub tables: Vec<Table>,
}

/// Model of a database.
#[verifier::ext_equal]
pub struct DatabaseView {
    pub schema: SchemaView,
    pub tables: Seq<TableView>,
}

impl View for Database {
    type V = DatabaseView;

    open spec fn view(&self) -> DatabaseView {
        DatabaseView { schema: self.schema@, tables: self.tables.deep_view() }
    }
}

impl DeepView for Table {
    type V = TableView;

    open spec fn deep_view(&self) -> TableView {
        self.view()
    }
}

/// The engine invariant: tables line up with the catalog, entry for entry,
/// every table is shaped by its schema, and no table has two columns of one
/// name.
pub open spec fn wf_database(d: DatabaseView) -> bool {
    &&& d.tables.len() == d.schema.tables.len()
    &&& crate::schema::unique_keys(d.schema.tables)
    &&& forall|i: int|
        0 <= i < d.tables.len() ==> {
            &&& (#[trigger] d.tables[i]).name == d.schema.tables[i].0
            &&& d.tables[i].columns == d.schema.tables[i].1
            &&& wf_table(d.tables[i])
            &&& unique_cols(d.tables[i].columns)
        }
}

/// What executing a query does: the next state of the database, and the
/// rows or error returned.
pub open spec fn spec_execute(d: DatabaseView, q: QueryView) -> (
    DatabaseView,
    Result<Seq<ColumnSetView>, ErrorView>,
) {
    match q {
        QueryView::Select { from, columns, conditions } => {
            let i = find_index(d.schema.tables, from);
            if i >= d.schema.tables.len() {
                (d, Err(ErrorView::TableNotFound(from)))
            } else {
                match spec_select(d.tables[i], columns, conditions) {
                    Ok(rows) => (d, Ok(rows)),
                    Err(e) => (d, Err(e)),
                }
            }
        },
        QueryView::Insert { into, values } => {
            let i = find_index(d.schema.tables, into);
            if i >= d.schema.tables.len() {
                (d, Err(ErrorView::TableNotFound(into)))
            } else {
                match spec_insert(d.tables[i], values) {
                    Ok(tr) => (
                        DatabaseView { schema: d.schema, tables: d.tables.update(i, tr.0) },
                        Ok(seq![tr.1]),
                    ),
                    Err(e) => (d, Err(e)),
                }
            }
        },
        QueryView::Update { table, set, conditions } => {
            let i = find_index(d.schema.tables, table);
            if i >= d.schema.tables.len() {
                (d, Err(ErrorView::TableNotFound(table)))
            } else {
                match spec_update(d.tables[i], set, conditions) {
                    Ok(tr) => (
                        DatabaseView { schema: d.schema, tables: d.tables.update(i, tr.0) },
                        Ok(tr.1),
                    ),
                    Err(e) => (d, Err(e)),
                }
            }
        },
        QueryView::Delete { from, conditions } => {
            let i = find_index(d.schema.tables, from);
            if i >= d.schema.tables.len() {
                (d, Err(ErrorView::TableNotFound(from)))
            } else {
                match spec_delete(d.tables[i], conditions) {
                    Ok(tr) => (
                        DatabaseView { schema: d.schema, tables: d.tables.update(i, tr.0) },
                        Ok(tr.1),
                    ),
                    Err(e) => (d, Err(e)),
                }
            }
        },
        QueryView::Create { table, columns } => {
            match spec_create_table(d.schema, table, columns) {
                Ok(sv) => (
                    DatabaseView {
                        schema: sv,
                        tables: d.tables.push(
                            TableView {
                                name: table,
                                columns: sort_columns(columns),
                                records: Seq::empty(),
                            },
                        ),
                    },
                    Ok(Seq::empty()),
                ),
                Err(e) => (d, Err(e)),
            }
        },
        QueryView::Drop { table } => {
            let i = find_index(d.schema.tables, table);
            if i >= d.schema.tables.len() {
                (d, Err(ErrorView::TableNotFound(table)))
            } else {
                (
                    DatabaseView {
                        schema: SchemaView {
                            tables: d.schema.tables.remove(i),
                            name: d.schema.name,
                        },
                        tables: d.tables.remove(i),
                    },
                    Ok(Seq::empty()),
                )
            }
        },
        QueryView::Alter { table, rename } => {
            match spec_alter_table(d.schema, table, rename) {
                Ok(sv) => {
                    let i = find_index(d.schema.tables, table);
                    (
                        DatabaseView {
                            schema: sv,
                            tables: d.tables.update(
                                i,
                                TableView {
                                    name: table,
                                    columns: sv.tables[i].1,
                                    records: d.tables[i].records,
                                },
                            ),
                        },
                        Ok(Seq::empty()),
                    )
                },
                Err(e) => (d, Err(e)),
            }
        },
    }
}

/// A placeholder for a caller's session with the engine; the engine itself
/// keeps no per-connection state.
pub struct Connection;

impl Database {
    /// A fresh, empty database with the given display name.
    pub fn create(name: String) -> (d: Database)
        ensures
            d@.schema.tables.len() == 0,
            d@.schema.name == name@,
            d@.tables.len() == 0,
            wf_database(d@),
    {
        Database { schema: Schema::new(name), tables: Vec::new() }
    }

    /// The name of the table a query addresses, or nothing for a catalog
    /// operation that needs no table data.
    pub fn target_table(query: &Query) -> (r: Option<&String>)
        ensures
            match r {
                Some(n) => match query@ {
                    QueryView::Select { from, .. } => n@ == from,
                    QueryView::Insert { into, .. } => n@ == into,
                    QueryView::Update { table, .. } => n@ == table,
                    QueryView::Delete { from, .. } => n@ == from,
                    QueryView::Create { .. } => false,
                    QueryView::Drop { table, .. } => n@ == table,
                    QueryView::Alter { table, .. } => n@ == table,
                },
                None => query@ is Create || query@ is Alter,
            },
    {
        match query {
            Query::Select { from, .. } => Some(from),
            Query::Insert { into, .. } => Some(into),
            Query::Update { table, .. } => Some(table),
            Query::Delete { from, .. } => Some(from),
            Query::Create { .. } => None,
            Query::Drop { table } => Some(table),
            Query::Alter { .. } => None,
        }
    }
}


/// Replacing one table with a well-shaped one of the same name and columns
/// keeps the engine invariant.
pub proof fn lemma_wf_update(d: DatabaseView, i: int, t2: TableView)
    requires
        wf_database(d),
        0 <= i < d.tables.len(),
        t2.name == d.tables[i].name,
        t2.columns == d.tables[i].columns,
        wf_table(t2),
    ensures
        wf_database(DatabaseView { schema: d.schema, tables: d.tables.update(i, t2) }),
{
    let d2 = DatabaseView { schema: d.schema, tables: d.tables.update(i, t2) };
    assert forall|k: int|
        0 <= k < d2.tables.len() implies {
        &&& (#[trigger] d2.tables[k]).name == d2.schema.tables[k].0
        &&& d2.tables[k].columns == d2.schema.tables[k].1
        &&& wf_table(d2.tables[k])
        &&& unique_cols(d2.tables[k].columns)
    } by {
        if k != i {
            assert(d2.tables[k] == d.tables[k]);
        } else {
            assert(d.tables[i].name == d.schema.tables[i].0);
        }
    }
}

/// Removing a table and its catalog entry together keeps the engine
/// invariant.
pub proof fn lemma_wf_remove(d: DatabaseView, i: int)
    requires
        wf_database(d),
        0 <= i < d.tables.len(),
    ensures
        wf_database(
            DatabaseView {
                schema: SchemaView { tables: d.schema.tables.remove(i), name: d.schema.name },
                tables: d.tables.remove(i),
            },
        ),
{
    let d2 = DatabaseView {
        schema: SchemaView { tables: d.schema.tables.remove(i), name: d.schema.name },
        tables: d.tables.remove(i),
    };
    assert forall|k: int|
        0 <= k < d2.tables.len() implies {
        &&& (#[trigger] d2.tables[k]).name == d2.schema.tables[k].0
        &&& d2.tables[k].columns == d2.schema.tables[k].1
        &&& wf_table(d2.tables[k])
        &&& unique_cols(d2.tables[k].columns)
    } by {
        if k < i {
            assert(d2.tables[k] == d.tables[k]);
            assert(d2.schema.tables[k] == d.schema.tables[k]);
        } else {
            assert(d2.tables[k] == d.tables[k + 1]);
            assert(d2.schema.tables[k] == d.schema.tables[k + 1]);
        }
    }
}

impl Database {
    /// Executes one query against the database, exactly as `spec_execute`
    /// says: the query's rows come back and the state moves to the spec's
    /// next state.
    /// One step of `execute`.
    #[verifier::rlimit(60)]
    fn exec_select(&mut self, from_t: String, columns: Vec<String>, conditions: ColumnSet) -> (r: Result<Vec<ColumnSet>, DbError>)
        requires
            wf_database(old(self)@),
        ensures
            ({
                let q = QueryView::Select { from: from_t@, columns: columns.deep_view(), conditions: conditions.deep_view() };
                &&& final(self)@ == spec_execute(old(self)@, q).0
                &&& wf_database(final(self)@)
                &&& match r {
                    Ok(rows) => spec_execute(old(self)@, q).1 == Ok::<
                        Seq<ColumnSetView>,
                        ErrorView,
                    >(rows.deep_view()),
                    Err(e) => spec_execute(old(self)@, q).1 == Err::<
                        Seq<ColumnSetView>,
                        ErrorView,
                    >(e@),
                }
            }),
    {
        let ghost d0 = self@;
        let ghost query_v = QueryView::Select { from: from_t@, columns: columns.deep_view(), conditions: conditions.deep_view() };
                let i = crate::schema::find_key_x(&self.schema.tables, &from_t);
                if i >= self.schema.tables.len() {
                    return Err(DbError::TableNotFound(from_t));
                }
                proof {
                    assert(d0.tables[i as int] == self.tables@[i as int]@);
                }
                let t = self.tables.remove(i);
                let res = t.select(columns, conditions);
                self.tables.insert(i, t);
                proof {
                    assert(self@.tables =~= d0.tables);
                    assert(self@ =~= d0);
                }
                match res {
                    Ok(rows) => Ok(rows),
                    Err(e) => Err(e),
                }
            
    }

    /// One step of `execute`.
    #[verifier::rlimit(60)]
    fn exec_insert(&mut self, into: String, values: ColumnSet) -> (r: Result<Vec<ColumnSet>, DbError>)
        requires
            wf_database(old(self)@),
        ensures
            ({
                let q = QueryView::Insert { into: into@, values: values.deep_view() };
                &&& final(self)@ == spec_execute(old(self)@, q).0
                &&& wf_database(final(self)@)
                &&& match r {
                    Ok(rows) => spec_execute(old(self)@, q).1 == Ok::<
                        Seq<ColumnSetView>,
                        ErrorView,
                    >(rows.deep_view()),
                    Err(e) => spec_execute(old(self)@, q).1 == Err::<
                        Seq<ColumnSetView>,
                        ErrorView,
                    >(e@),
                }
            }),
    {
        let ghost d0 = self@;
        let ghost query_v = QueryView::Insert { into: into@, values: values.deep_view() };
                let i = crate::schema::find_key_x(&self.schema.tables, &into);
                if i >= self.schema.tables.len() {
                    return Err(DbError::TableNotFound(into));
                }
                proof {
                    assert(d0.tables[i as int] == self.tables@[i as int]@);
                }
                let mut t = self.tables.remove(i);
                let res = t.insert(values);
                let ghost t2 = t@;
                self.tables.insert(i, t);
                match res {
                    Ok(row) => {
                        let mut rows: Vec<ColumnSet> = Vec::new();
                        rows.push(row);
                        proof {
                            assert(self@.tables =~= d0.tables.update(i as int, t2));
                            lemma_wf_update(d0, i as int, t2);
                            assert(self@ =~= spec_execute(d0, query_v).0);
                            assert(rows.deep_view() =~= seq![row.deep_view()]);
                        }
                        Ok(rows)
                    }
                    Err(e) => {
                        proof {
                            assert(self@.tables =~= d0.tables);
                            assert(self@ =~= d0);
                        }
                        Err(e)
                    }
                }
            
    }

    /// One step of `execute`.
    #[verifier::rlimit(60)]
    fn exec_update(&mut self, table: String, set: ColumnSet, conditions: ColumnSet) -> (r: Result<Vec<ColumnSet>, DbError>)
        requires
            wf_database(old(self)@),
        ensures
            ({
                let q = QueryView::Update { table: table@, set: set.deep_view(), conditions: conditions.deep_view() };
                &&& final(self)@ == spec_execute(old(self)@, q).0
                &&& wf_database(final(self)@)
                &&& match r {
                    Ok(rows) => spec_execute(old(self)@, q).1 == Ok::<
                        Seq<ColumnSetView>,
                        ErrorView,
                    >(rows.deep_view()),
                    Err(e) => spec_execute(old(self)@, q).1 == Err::<
                        Seq<ColumnSetView>,
                        ErrorView,
                    >(e@),
                }
            }),
    {
        let ghost d0 = self@;
        let ghost query_v = QueryView::Update { table: table@, set: set.deep_view(), conditions: conditions.deep_view() };
                let i = crate::schema::find_key_x(&self.schema.tables, &table);
                if i >= self.schema.tables.len() {
                    return Err(DbError::TableNotFound(table));
                }
                proof {
                    assert(d0.tables[i as int] == self.tables@[i as int]@);
                }
                let mut t = self.tables.remove(i);
                let res = t.update(set, conditions);
                let ghost t2 = t@;
                self.tables.insert(i, t);
                match res {
                    Ok(rows) => {
                        proof {
                            assert(self@.tables =~= d0.tables.update(i as int, t2));
                            lemma_wf_update(d0, i as int, t2);
                            assert(self@ =~= spec_execute(d0, query_v).0);
                        }
                        Ok(rows)
                    }
                    Err(e) => {
                        proof {
                            assert(self@.tables =~= d0.tables);
                            assert(self@ =~= d0);
                        }
                        Err(e)
                    }
                }
            
    }

    /// One step of `execute`.
    #[verifier::rlimit(60)]
    fn exec_delete(&mut self, from_t: String, conditions: ColumnSet) -> (r: Result<Vec<ColumnSet>, DbError>)
        requires
            wf_database(old(self)@),
        ensures
            ({
                let q = QueryView::Delete { from: from_t@, conditions: conditions.deep_view() };
                &&& final(self)@ == spec_execute(old(self)@, q).0
                &&& wf_database(final(self)@)
                &&& match r {
                    Ok(rows) => spec_execute(old(self)@, q).1 == Ok::<
                        Seq<ColumnSetView>,
                        ErrorView,
                    >(rows.deep_view()),
                    Err(e) => spec_execute(old(self)@, q).1 == Err::<
                        Seq<ColumnSetView>,
                        ErrorView,
                    >(e@),
                }
            }),
    {
        let ghost d0 = self@;
        let ghost query_v = QueryView::Delete { from: from_t@, conditions: conditions.deep_view() };
                let i = crate::schema::find_key_x(&self.schema.tables, &from_t);
                if i >= self.schema.tables.len() {
                    return Err(DbError::TableNotFound(from_t));
                }
                proof {
                    assert(d0.tables[i as int] == self.tables@[i as int]@);
                }
                let mut t = self.tables.remove(i);
                let res = t.delete(conditions);
                let ghost t2 = t@;
                self.tables.insert(i, t);
                match res {
                    Ok(rows) => {
                        proof {
                            assert(self@.tables =~= d0.tables.update(i as int, t2));
                            lemma_wf_update(d0, i as int, t2);
                            assert(self@ =~= spec_execute(d0, query_v).0);
                        }
                        Ok(rows)
                    }
                    Err(e) => {
                        proof {
                            assert(self@.tables =~= d0.tables);
                            assert(self@ =~= d0);
                        }
                        Err(e)
                    }
                }
            
    }

    /// One step of `execute`.
    #[verifier::rlimit(60)]
    fn exec_create(&mut self, table: String, columns: Columns) -> (r: Result<Vec<ColumnSet>, DbError>)
        requires
            wf_database(old(self)@),
        ensures
            ({
                let q = QueryView::Create { table: table@, columns: columns.deep_view() };
                &&& final(self)@ == spec_execute(old(self)@, q).0
                &&& wf_database(final(self)@)
                &&& match r {
                    Ok(rows) => spec_execute(old(self)@, q).1 == Ok::<
                        Seq<ColumnSetView>,
                        ErrorView,
                    >(rows.deep_view()),
                    Err(e) => spec_execute(old(self)@, q).1 == Err::<
                        Seq<ColumnSetView>,
                        ErrorView,
                    >(e@),
                }
            }),
    {
        let ghost d0 = self@;
        let ghost query_v = QueryView::Create { table: table@, columns: columns.deep_view() };
                let tname = table.clone();
                let ghost colsv = columns.deep_view();
                match self.schema.create_table(table, columns) {
                    Ok(_) => {
                        proof {
                            assert(self.schema@.tables =~= d0.schema.tables.push(
                                (tname@, sort_columns(colsv)),
                            ));
                            assert(self.schema.tables@.len() == d0.schema.tables.len() + 1);
                        }
                        let idx = self.schema.tables.len() - 1;
                        let cols2 = crate::schema::clone_columns(&self.schema.tables[idx].1);
                        proof {
                            assert(self.schema@.tables =~= d0.schema.tables.push(
                                (tname@, sort_columns(colsv)),
                            ));
                            assert(self.schema@.tables[idx as int]
                                == self.schema.tables@[idx as int].deep_view());
                            assert(cols2.deep_view() == sort_columns(colsv));
                        }
                        self.tables.push(
                            Table { name: tname, columns: cols2, records: Vec::new() },
                        );
                        proof {
                            let newt = TableView {
                                name: tname@,
                                columns: sort_columns(colsv),
                                records: Seq::empty(),
                            };
                            assert(self@.tables =~~= d0.tables.push(newt));
                            lemma_create_columns_unique(colsv, tname@);
                            assert(wf_table(newt));
                            assert(self@ =~= spec_execute(d0, query_v).0);
                            lemma_find_index_found(d0.schema.tables, tname@);
                            crate::schema::lemma_find_index_not_found(d0.schema.tables, tname@);
                            assert(forall|x: int|
                                0 <= x < d0.schema.tables.len() ==> (
                                #[trigger] d0.schema.tables[x]).0 != tname@);
                            assert(crate::schema::unique_keys(self@.schema.tables)) by {
                                assert forall|x: int, y: int|
                                    0 <= x < y < self@.schema.tables.len() implies (
                                #[trigger] self@.schema.tables[x]).0 != (
                                #[trigger] self@.schema.tables[y]).0 by {
                                    if y < d0.schema.tables.len() {
                                        assert(self@.schema.tables[x] == d0.schema.tables[x]);
                                        assert(self@.schema.tables[y] == d0.schema.tables[y]);
                                    } else {
                                        assert(self@.schema.tables[x] == d0.schema.tables[x]);
                                        assert(self@.schema.tables[y].0 == tname@);
                                    }
                                }
                            }
                            let d2 = self@;
                            assert forall|k: int|
                                0 <= k < d2.tables.len() implies {
                                &&& (#[trigger] d2.tables[k]).name == d2.schema.tables[k].0
                                &&& d2.tables[k].columns == d2.schema.tables[k].1
                                &&& wf_table(d2.tables[k])
                                &&& unique_cols(d2.tables[k].columns)
                            } by {
                                if k < d0.tables.len() {
                                    assert(d2.tables[k] == d0.tables[k]);
                                    assert(d2.schema.tables[k] == d0.schema.tables[k]);
                                } else {
                                    assert(d2.tables[k] == newt);
                                }
                            }
                        }
                        let rows: Vec<ColumnSet> = Vec::new();
                        proof {
                            assert(rows.deep_view() =~= Seq::<ColumnSetView>::empty());
                        }
                        Ok(rows)
                    }
                    Err(e) => {
                        proof {
                            assert(self@ =~= d0);
                        }
                        Err(e)
                    }
                }
            
    }

    /// One step of `execute`.
    #[verifier::rlimit(60)]
    fn exec_drop(&mut self, table: String) -> (r: Result<Vec<ColumnSet>, DbError>)
        requires
            wf_database(old(self)@),
        ensures
            ({
                let q = QueryView::Drop { table: table@ };
                &&& final(self)@ == spec_execute(old(self)@, q).0
                &&& wf_database(final(self)@)
                &&& match r {
                    Ok(rows) => spec_execute(old(self)@, q).1 == Ok::<
                        Seq<ColumnSetView>,
                        ErrorView,
                    >(rows.deep_view()),
                    Err(e) => spec_execute(old(self)@, q).1 == Err::<
                        Seq<ColumnSetView>,
                        ErrorView,
                    >(e@),
                }
            }),
    {
        let ghost d0 = self@;
        let ghost query_v = QueryView::Drop { table: table@ };
                let i = crate::schema::find_key_x(&self.schema.tables, &table);
                if i >= self.schema.tables.len() {
                    return Err(DbError::TableNotFound(table));
                }
                self.tables.remove(i);
                match self.schema.drop_table(table) {
                    Ok(_) => {
                        proof {
                            assert(self@.tables =~= d0.tables.remove(i as int));
                            assert(self@.schema.tables =~= d0.schema.tables.remove(i as int));
                            lemma_wf_remove(d0, i as int);
                            assert(self@ =~= spec_execute(d0, query_v).0);
                        }
                        let rows: Vec<ColumnSet> = Vec::new();
                        proof {
                            assert(rows.deep_view() =~= Seq::<ColumnSetView>::empty());
                        }
                        Ok(rows)
                    }
                    Err(e) => {
                        proof {
                            assert(false);
                        }
                        Err(e)
                    }
                }
            
    }

    /// One step of `execute`.
    #[verifier::rlimit(60)]
    fn exec_alter(&mut self, table: String, rename: Vec<(String, String)>) -> (r: Result<Vec<ColumnSet>, DbError>)
        requires
            wf_database(old(self)@),
        ensures
            ({
                let q = QueryView::Alter { table: table@, rename: rename.deep_view() };
                &&& final(self)@ == spec_execute(old(self)@, q).0
                &&& wf_database(final(self)@)
                &&& match r {
                    Ok(rows) => spec_execute(old(self)@, q).1 == Ok::<
                        Seq<ColumnSetView>,
                        ErrorView,
                    >(rows.deep_view()),
                    Err(e) => spec_execute(old(self)@, q).1 == Err::<
                        Seq<ColumnSetView>,
                        ErrorView,
                    >(e@),
                }
            }),
    {
        let ghost d0 = self@;
        let ghost query_v = QueryView::Alter { table: table@, rename: rename.deep_view() };
                let tname = table.clone();
                let ghost renv = rename.deep_view();
                let i = crate::schema::find_key_x(&self.schema.tables, &tname);
                match self.schema.alter_table(table, rename) {
                    Ok(_) => {
                        proof {
                            assert(i < d0.schema.tables.len());
                            lemma_find_index_found(d0.schema.tables, tname@);
                            assert(d0.tables[i as int] == self.tables@[i as int]@);
                            assert(self.schema@.tables =~~= d0.schema.tables.update(
                                i as int,
                                (tname@, self.schema@.tables[i as int].1),
                            ));
                            assert(self.schema@.tables.len() == d0.schema.tables.len());
                            assert(self.schema.tables@.len() == self.schema@.tables.len());
                        }
                        let cols2 = crate::schema::clone_columns(&self.schema.tables[i].1);
                        let t = self.tables.remove(i);
                        let trecords = t.records;
                        let tn2 = t.name;
                        self.tables.insert(i, Table { name: tn2, columns: cols2, records: trecords });
                        proof {
                            let donecols = self.schema@.tables[i as int].1;
                            let newt = TableView {
                                name: tname@,
                                columns: donecols,
                                records: d0.tables[i as int].records,
                            };
                            assert(self@.tables =~= d0.tables.update(i as int, newt));
                            assert(self@ =~= spec_execute(d0, query_v).0);
                            lemma_apply_renames_shape(
                                d0.schema.tables[i as int].1,
                                renv,
                                Seq::empty(),
                                tname@,
                            );
                            assert(wf_table(newt));
                            lemma_wf_update_alter(d0, i as int, newt);
                        }
                        let rows: Vec<ColumnSet> = Vec::new();
                        proof {
                            assert(rows.deep_view() =~= Seq::<ColumnSetView>::empty());
                        }
                        Ok(rows)
                    }
                    Err(e) => {
                        proof {
                            assert(self@ =~= d0);
                        }
                        Err(e)
                    }
                }
            
    }

    /// Executes one query against the database, exactly as `spec_execute`
    /// says: the query's rows come back and the state moves to the spec's
    /// next state.
    pub fn execute(&mut self, query: Query) -> (r: Result<Vec<ColumnSet>, DbError>)
        requires
            wf_database(old(self)@),
        ensures
            final(self)@ == spec_execute(old(self)@, query@).0,
            wf_database(final(self)@),
            match r {
                Ok(rows) => spec_execute(old(self)@, query@).1 == Ok::<
                    Seq<ColumnSetView>,
                    ErrorView,
                >(rows.deep_view()),
                Err(e) => spec_execute(old(self)@, query@).1 == Err::<
                    Seq<ColumnSetView>,
                    ErrorView,
                >(e@),
            },
    {
        match query {
            Query::Select { from, columns, conditions } => self.exec_select(
                from,
                columns,
                conditions,
            ),
            Query::Insert { into, values } => self.exec_insert(into, values),
            Query::Update { table, set, conditions } => self.exec_update(table, set, conditions),
            Query::Delete { from, conditions } => self.exec_delete(from, conditions),
            Query::Create { table, columns } => self.exec_create(table, columns),
            Query::Drop { table } => self.exec_drop(table),
            Query::Alter { table, rename } => self.exec_alter(table, rename),
        }
    }
}

/// Renaming columns keeps the engine invariant: the schema entry and the
/// cached table change together, and the records keep their shape because
/// only names changed.
pub proof fn lemma_wf_update_alter(d: DatabaseView, i: int, t2: TableView)
    requires
        wf_database(d),
        0 <= i < d.tables.len(),
        t2.name == d.tables[i].name,
        t2.records == d.tables[i].records,
        t2.columns.len() == d.tables[i].columns.len(),
        forall|k: int|
            0 <= k < t2.columns.len() ==> (#[trigger] t2.columns[k]).1 == d.tables[i].columns[k].1,
        unique_cols(t2.columns),
    ensures
        wf_database(
            DatabaseView {
                schema: SchemaView {
                    tables: d.schema.tables.update(i, (t2.name, t2.columns)),
                    name: d.schema.name,
                },
                tables: d.tables.update(i, t2),
            },
        ),
{
    let d2 = DatabaseView {
        schema: SchemaView {
            tables: d.schema.tables.update(i, (t2.name, t2.columns)),
            name: d.schema.name,
        },
        tables: d.tables.update(i, t2),
    };
    assert(wf_table(t2)) by {
        assert forall|k: int| 0 <= k < t2.records.len() implies crate::table::wf_record(
            t2.columns,
            #[trigger] t2.records[k],
        ) by {
            assert(t2.records[k] == d.tables[i].records[k]);
            assert(crate::table::wf_record(d.tables[i].columns, d.tables[i].records[k]));
        }
    }
    assert forall|k: int|
        0 <= k < d2.tables.len() implies {
        &&& (#[trigger] d2.tables[k]).name == d2.schema.tables[k].0
        &&& d2.tables[k].columns == d2.schema.tables[k].1
        &&& wf_table(d2.tables[k])
        &&& unique_cols(d2.tables[k].columns)
    } by {
        if k != i {
            assert(d2.tables[k] == d.tables[k]);
            assert(d2.schema.tables[k] == d.schema.tables[k]);
        }
    }
}


impl Database {
    /// Assembles an engine from a loaded catalog and its tables, accepting
    /// exactly the states that satisfy the engine invariant: one table per
    /// catalog entry, under the entry's name and columns, every record
    /// shaped by its schema, and no table with two columns of one name.
    pub fn open(schema: Schema, tables: Vec<Table>) -> (r: Result<Database, DbError>)
        ensures
            ({
                let dv = DatabaseView { schema: schema@, tables: tables.deep_view() };
                match r {
                    Ok(d) => d@ == dv && wf_database(dv),
                    Err(e) => !wf_database(dv) && e@ == ErrorView::IoError,
                }
            }),
    {
        let ghost dv = DatabaseView { schema: schema@, tables: tables.deep_view() };
        let n = tables.len();
        if n != schema.tables.len() {
            return Err(DbError::IoError(String::from_str("tables do not match the catalog")));
        }
        if !crate::schema::check_unique_keys(&schema.tables) {
            return Err(DbError::IoError(String::from_str("tables do not match the catalog")));
        }
        let mut i: usize = 0;
        while i < n
            invariant
                0 <= i <= n,
                n == tables@.len(),
                n == schema.tables@.len(),
                dv == (DatabaseView { schema: schema@, tables: tables.deep_view() }),
                forall|k: int|
                    0 <= k < i ==> {
                        &&& (#[trigger] dv.tables[k]).name == dv.schema.tables[k].0
                        &&& dv.tables[k].columns == dv.schema.tables[k].1
                        &&& wf_table(dv.tables[k])
                        &&& unique_cols(dv.tables[k].columns)
                    },
            decreases n - i,
        {
            proof {
                assert(dv.tables[i as int] == tables@[i as int]@);
                assert(dv.schema.tables[i as int] == (
                    schema.tables@[i as int].0@,
                    schema.tables@[i as int].1.deep_view(),
                ));
            }
            if !tables[i].name.eq(&schema.tables[i].0) {
                proof {
                    assert(!wf_database(dv));
                }
                return Err(
                    DbError::IoError(String::from_str("tables do not match the catalog")),
                );
            }
            if !crate::table::columns_eq(&tables[i].columns, &schema.tables[i].1) {
                proof {
                    assert(!wf_database(dv));
                }
                return Err(
                    DbError::IoError(String::from_str("tables do not match the catalog")),
                );
            }
            if !crate::table::check_unique_cols(&tables[i].columns) {
                proof {
                    assert(!wf_database(dv));
                }
                return Err(
                    DbError::IoError(String::from_str("tables do not match the catalog")),
                );
            }
            if !tables[i].check_shape() {
                proof {
                    assert(!wf_database(dv));
                }
                return Err(
                    DbError::IoError(String::from_str("tables do not match the catalog")),
                );
            }
            i = i + 1;
        }
        Ok(Database { schema, tables })
    }
}


impl Database {
    /// The table called `name`, when the catalog names one.
    pub fn table(&self, name: &String) -> (r: Result<&Table, DbError>)
        requires
            wf_database(self@),
        ensures
            match r {
                Ok(t) => find_index(self@.schema.tables, name@) < self@.schema.tables.len() && t@
                    == self@.tables[find_index(self@.schema.tables, name@)],
                Err(e) => find_index(self@.schema.tables, name@) >= self@.schema.tables.len() && e@
                    == ErrorView::TableNotFound(name@),
            },
    {
        let i = crate::schema::find_key_x(&self.schema.tables, name);
        if i < self.schema.tables.len() {
            proof {
                assert(self@.tables[i as int] == self.tables@[i as int]@);
            }
            Ok(&self.tables[i])
        } else {
            Err(DbError::TableNotFound(name.clone()))
        }
    }
}

} // verus!
