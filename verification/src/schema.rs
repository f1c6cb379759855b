//! The catalog: named tables with ordered, typed columns.
//!
//! The catalog maps table names to column lists and carries a display name
//! for the whole database.  Table and column names are non-empty words over
//! ASCII letters, digits and underscore; columns are kept sorted by name so
//! the row layout on disk is the same across runs.  `dump` and `load` move
//! the catalog to and from its line-oriented text form.

use crate::text::{char_eq, is_digit};
use crate::types::{DataType, DbError, ErrorView};
use vstd::prelude::*;

verus! {

/// A column list: names with their types, in serialization order.
pub type Columns = Vec<(String, DataType)>;

/// Model of a column list.
pub type ColumnsView = Seq<(Seq<char>, DataType)>;

/// The catalog of one database.
#[derive(Debug, Clone)]
pub struct Schema {
    pub tables: Vec<(String, Columns)>,
    pub name: String,
}

/// Model of a catalog.
#[verifier::ext_equal]
pub struct SchemaView {
    pub tables: Seq<(Seq<char>, ColumnsView)>,
    pub name: Seq<char>,
}

impl View for Schema {
    type V = SchemaView;

    open spec fn view(&self) -> SchemaView {
        SchemaView { tables: self.tables.deep_view(), name: self.name@ }
    }
}

/// Whether `c` may appear in a table or column name.
pub open spec fn is_name_char(c: char) -> bool {
    ||| is_digit(c)
    ||| 65 <= (c as u32) && (c as u32) <= 90
    ||| 97 <= (c as u32) && (c as u32) <= 122
    ||| (c as u32) == 95
}

/// A usable name: non-empty, every character a letter, digit or underscore.
pub open spec fn valid_name(s: Seq<char>) -> bool {
    s.len() > 0 && (forall|i: int| 0 <= i < s.len() ==> is_name_char(#[trigger] s[i]))
}

/// Lexicographic order on character sequences by code point, the order in
/// which a column list is kept.
pub open spec fn lex_le(a: Seq<char>, b: Seq<char>) -> bool
    decreases a.len(),
{
    if a.len() == 0 {
        true
    } else if b.len() == 0 {
        false
    } else if (a[0] as u32) < (b[0] as u32) {
        true
    } else if (a[0] as u32) > (b[0] as u32) {
        false
    } else {
        lex_le(a.drop_first(), b.drop_first())
    }
}

/// Inserts a column into a list sorted by name, after any equal names.
pub open spec fn insert_sorted(col: (Seq<char>, DataType), sorted: ColumnsView) -> ColumnsView
    decreases sorted.len(),
{
    if sorted.len() == 0 {
        seq![col]
    } else if lex_le(sorted.last().0, col.0) {
        sorted.push(col)
    } else {
        insert_sorted(col, sorted.drop_last()).push(sorted.last())
    }
}

/// The column list sorted by name, equal names keeping their given order.
pub open spec fn sort_columns(cols: ColumnsView) -> ColumnsView
    decreases cols.len(),
{
    if cols.len() == 0 {
        cols
    } else {
        insert_sorted(cols.last(), sort_columns(cols.drop_last()))
    }
}

/// The first index of `name` in an association list, or its length.
pub open spec fn find_index<T>(list: Seq<(Seq<char>, T)>, name: Seq<char>) -> int
    decreases list.len(),
{
    if list.len() == 0 {
        0
    } else if list[0].0 == name {
        0
    } else {
        1 + find_index(list.drop_first(), name)
    }
}

/// Whether an association list has an entry under `name`.
pub open spec fn has_key<T>(list: Seq<(Seq<char>, T)>, name: Seq<char>) -> bool {
    find_index(list, name) < list.len()
}

/// `find_index` is pinned down by what it finds.
pub proof fn lemma_find_index_char<T>(list: Seq<(Seq<char>, T)>, name: Seq<char>, j: int)
    requires
        0 <= j <= list.len(),
        forall|i: int| 0 <= i < j ==> list[i].0 != name,
        j < list.len() ==> list[j].0 == name,
    ensures
        find_index(list, name) == j,
    decreases list.len(),
{
    if list.len() > 0 && list[0].0 != name {
        let rest = list.drop_first();
        assert(forall|i: int| 0 <= i < j - 1 ==> rest[i] == list[i + 1]);
        lemma_find_index_char(rest, name, j - 1);
    }
}

/// A found index names what was searched for.
pub proof fn lemma_find_index_found<T>(list: Seq<(Seq<char>, T)>, name: Seq<char>)
    ensures
        find_index(list, name) < list.len() ==> list[find_index(list, name)].0 == name,
        0 <= find_index(list, name) <= list.len(),
    decreases list.len(),
{
    if list.len() > 0 && list[0].0 != name {
        lemma_find_index_found(list.drop_first(), name);
        assert(list.drop_first() =~= list.subrange(1, list.len() as int));
    }
}

/// Validating a name, exactly as `valid_name` says.
pub fn validate_name_str(name: &str) -> (r: bool)
    ensures
        r == valid_name(name@),
{
    let n = name.unicode_len();
    if n == 0 {
        return false;
    }
    let mut i: usize = 0;
    while i < n
        invariant
            0 <= i <= n,
            n == name@.len(),
            forall|k: int| 0 <= k < i ==> is_name_char(#[trigger] name@[k]),
        decreases n - i,
    {
        let c = name.get_char(i);
        let u = c as u32;
        let ok = (48 <= u && u <= 57) || (65 <= u && u <= 90) || (97 <= u && u <= 122) || u == 95;
        if !ok {
            proof {
                assert(!is_name_char(name@[i as int]));
            }
            return false;
        }
        i = i + 1;
    }
    true
}

/// Lexicographic comparison of two names, exactly as `lex_le` says.
fn str_le(a: &str, b: &str) -> (r: bool)
    ensures
        r == lex_le(a@, b@),
    decreases a@.len(),
{
    let an = a.unicode_len();
    let bn = b.unicode_len();
    let mut i: usize = 0;
    proof {
        assert(a@.subrange(0, an as int) =~= a@);
        assert(b@.subrange(0, bn as int) =~= b@);
    }
    loop
        invariant
            0 <= i <= an,
            i <= bn,
            an == a@.len(),
            bn == b@.len(),
            lex_le(a@, b@) == lex_le(
                a@.subrange(i as int, an as int),
                b@.subrange(i as int, bn as int),
            ),
        decreases an - i,
    {
        proof {
            let ra = a@.subrange(i as int, an as int);
            let rb = b@.subrange(i as int, bn as int);
            if i < an && i < bn {
                assert(ra[0] == a@[i as int]);
                assert(rb[0] == b@[i as int]);
                assert(ra.drop_first() =~= a@.subrange(i as int + 1, an as int));
                assert(rb.drop_first() =~= b@.subrange(i as int + 1, bn as int));
            }
        }
        if i == an {
            proof {
                assert(a@.subrange(i as int, an as int).len() == 0);
            }
            return true;
        }
        if i == bn {
            proof {
                assert(b@.subrange(i as int, bn as int).len() == 0);
                assert(a@.subrange(i as int, an as int).len() > 0);
            }
            return false;
        }
        let ca = a.get_char(i) as u32;
        let cb = b.get_char(i) as u32;
        if ca < cb {
            return true;
        }
        if ca > cb {
            return false;
        }
        i = i + 1;
    }
}

/// Inserting into a sorted column list, exactly as `insert_sorted` says.
fn insert_sorted_x(col: (String, DataType), sorted: Columns) -> (r: Columns)
    ensures
        r.deep_view() == insert_sorted(col.deep_view(), sorted.deep_view()),
    decreases sorted.len(),
{
    let mut sorted = sorted;
    let ghost sv = sorted.deep_view();
    match sorted.pop() {
        None => {
            proof {
                assert(sv.len() == 0);
            }
            let mut r: Columns = Vec::new();
            r.push(col);
            proof {
                assert(r.deep_view() =~= insert_sorted(col.deep_view(), sv));
            }
            r
        }
        Some(last) => {
            proof {
                assert(sorted.deep_view() =~= sv.drop_last());
                assert(last.deep_view() == sv.last());
            }
            if str_le(last.0.as_str(), col.0.as_str()) {
                sorted.push(last);
                sorted.push(col);
                proof {
                    assert(sorted.deep_view() =~= insert_sorted(col.deep_view(), sv));
                }
                sorted
            } else {
                let mut r = insert_sorted_x(col, sorted);
                r.push(last);
                proof {
                    assert(r.deep_view() =~= insert_sorted(col.deep_view(), sv));
                }
                r
            }
        }
    }
}

/// Sorting a column list by name, exactly as `sort_columns` says.
fn sort_columns_x(cols: Columns) -> (r: Columns)
    ensures
        r.deep_view() == sort_columns(cols.deep_view()),
    decreases cols.len(),
{
    let mut cols = cols;
    let ghost cv = cols.deep_view();
    match cols.pop() {
        None => {
            proof {
                assert(cv.len() == 0);
                assert(cols.deep_view() =~= cv);
            }
            cols
        }
        Some(last) => {
            proof {
                assert(cols.deep_view() =~= cv.drop_last());
                assert(last.deep_view() == cv.last());
            }
            let s = sort_columns_x(cols);
            insert_sorted_x(last, s)
        }
    }
}


/// The first error in a sorted column list: an unusable name, or two equal
/// adjacent names.
pub open spec fn check_columns_from(sorted: ColumnsView, table: Seq<char>, i: int) -> Option<
    ErrorView,
>
    decreases sorted.len() - i
        when 0 <= i <= sorted.len()
{
    if i >= sorted.len() {
        None
    } else if !valid_name(sorted[i].0) {
        Some(ErrorView::InvalidName(sorted[i].0))
    } else if i > 0 && sorted[i].0 == sorted[i - 1].0 {
        Some(ErrorView::ColumnAlreadyExists(sorted[i].0, table))
    } else {
        check_columns_from(sorted, table, i + 1)
    }
}

/// What creating a table does to the catalog: the named table is added with
/// its columns sorted by name, or the first failed check is reported.
pub open spec fn spec_create_table(
    sv: SchemaView,
    name: Seq<char>,
    columns: ColumnsView,
) -> Result<SchemaView, ErrorView> {
    if !valid_name(name) {
        Err(ErrorView::InvalidName(name))
    } else if columns.len() == 0 {
        Err(ErrorView::NoColumns)
    } else {
        let sorted = sort_columns(columns);
        match check_columns_from(sorted, name, 0) {
            Some(e) => Err(e),
            None => if has_key(sv.tables, name) {
                Err(ErrorView::TableAlreadyExists(name))
            } else {
                Ok(SchemaView { tables: sv.tables.push((name, sorted)), name: sv.name })
            },
        }
    }
}

/// What dropping a table does to the catalog.
pub open spec fn spec_drop_table(sv: SchemaView, name: Seq<char>) -> Result<
    SchemaView,
    ErrorView,
> {
    let i = find_index(sv.tables, name);
    if i < sv.tables.len() {
        Ok(SchemaView { tables: sv.tables.remove(i), name: sv.name })
    } else {
        Err(ErrorView::TableNotFound(name))
    }
}

/// Walks the columns applying renames: each renamed column takes its new
/// name after validation, every resulting name must be new among those
/// already walked, and each rename entry is consumed when used.
pub open spec fn spec_apply_renames(
    cols: ColumnsView,
    ren: Seq<(Seq<char>, Seq<char>)>,
    done: ColumnsView,
    table: Seq<char>,
) -> Result<(ColumnsView, Seq<(Seq<char>, Seq<char>)>), ErrorView>
    decreases cols.len(),
{
    if cols.len() == 0 {
        Ok((done, ren))
    } else {
        let j = find_index(ren, cols[0].0);
        if j < ren.len() {
            let newname = ren[j].1;
            if !valid_name(newname) {
                Err(ErrorView::InvalidName(newname))
            } else if has_key(done, newname) {
                Err(ErrorView::ColumnAlreadyExists(newname, table))
            } else {
                spec_apply_renames(
                    cols.drop_first(),
                    ren.remove(j),
                    done.push((newname, cols[0].1)),
                    table,
                )
            }
        } else {
            if has_key(done, cols[0].0) {
                Err(ErrorView::ColumnAlreadyExists(cols[0].0, table))
            } else {
                spec_apply_renames(cols.drop_first(), ren, done.push(cols[0]), table)
            }
        }
    }
}

/// What renaming columns does to the catalog: all-or-nothing, with a rename
/// entry that matched no column reported as a missing column.
pub open spec fn spec_alter_table(
    sv: SchemaView,
    table: Seq<char>,
    ren: Seq<(Seq<char>, Seq<char>)>,
) -> Result<SchemaView, ErrorView> {
    let i = find_index(sv.tables, table);
    if i < sv.tables.len() {
        match spec_apply_renames(sv.tables[i].1, ren, Seq::empty(), table) {
            Ok(done_left) => if done_left.1.len() > 0 {
                Err(ErrorView::ColumnNotFound(done_left.1[0].0, table))
            } else {
                Ok(
                    SchemaView {
                        tables: sv.tables.update(i as int, (table, done_left.0)),
                        name: sv.name,
                    },
                )
            },
            Err(e) => Err(e),
        }
    } else {
        Err(ErrorView::TableNotFound(table))
    }
}

/// The first position of `name` among the keys of `list`, or its length.
pub(crate) fn find_key_x<T: DeepView>(list: &Vec<(String, T)>, name: &String) -> (r: usize)
    ensures
        r <= list@.len(),
        r as int == find_index(list.deep_view(), name@),
{
    let n = list.len();
    let mut j: usize = 0;
    while j < n
        invariant
            0 <= j <= n,
            n == list@.len(),
            forall|i: int| 0 <= i < j ==> list.deep_view()[i].0 != name@,
        decreases n - j,
    {
        if list[j].0.eq(name) {
            proof {
                assert(list.deep_view()[j as int].0 == list@[j as int].0@);
                lemma_find_index_char(list.deep_view(), name@, j as int);
            }
            return j;
        }
        proof {
            assert(list.deep_view()[j as int].0 == list@[j as int].0@);
        }
        j = j + 1;
    }
    proof {
        lemma_find_index_char(list.deep_view(), name@, n as int);
    }
    n
}

impl Schema {
    /// A fresh catalog with no tables, for a database called `name`.
    pub fn new(name: String) -> (s: Schema)
        ensures
            s@.tables.len() == 0,
            s@.name == name@,
    {
        Schema { tables: Vec::new(), name }
    }

    /// Whether `name` may name a table or a column: non-empty, every
    /// character a letter, a digit or an underscore.
    pub fn validate_name(name: &str) -> (r: Result<(), DbError>)
        ensures
            r is Ok <==> valid_name(name@),
            r matches Err(e) ==> e@ == ErrorView::InvalidName(name@),
    {
        if validate_name_str(name) {
            Ok(())
        } else {
            Err(DbError::InvalidName(String::from_str(name)))
        }
    }

    /// Adds a table, exactly as `spec_create_table` says.
    #[verifier::loop_isolation(false)]
    pub fn create_table(&mut self, name: String, columns: Columns) -> (r: Result<(), DbError>)
        ensures
            match r {
                Ok(_) => spec_create_table(old(self)@, name@, columns.deep_view()) == Ok::<
                    SchemaView,
                    ErrorView,
                >(final(self)@),
                Err(e) => spec_create_table(old(self)@, name@, columns.deep_view()) == Err::<
                    SchemaView,
                    ErrorView,
                >(e@) && final(self)@ == old(self)@,
            },
    {
        if !validate_name_str(name.as_str()) {
            return Err(DbError::InvalidName(name));
        }
        if columns.len() == 0 {
            return Err(DbError::NoColumns);
        }
        let ghost colsv = columns.deep_view();
        let sorted = sort_columns_x(columns);
        let ghost sortedv = sort_columns(colsv);
        let n = sorted.len();
        let mut i: usize = 0;
        while i < n
            invariant
                0 <= i <= n,
                n == sorted@.len(),
                sorted.deep_view() == sortedv,
                check_columns_from(sortedv, name@, 0) == check_columns_from(
                    sortedv,
                    name@,
                    i as int,
                ),
            decreases n - i,
        {
            proof {
                assert(sortedv[i as int].0 == sorted@[i as int].0@);
                if i > 0 {
                    assert(sortedv[i as int - 1].0 == sorted@[i as int - 1].0@);
                }
            }
            if !validate_name_str(sorted[i].0.as_str()) {
                return Err(DbError::InvalidName(sorted[i].0.clone()));
            }
            if i > 0 && sorted[i].0.eq(&sorted[i - 1].0) {
                return Err(DbError::ColumnAlreadyExists(sorted[i].0.clone(), name));
            }
            i = i + 1;
        }
        let t = find_key_x(&self.tables, &name);
        if t < self.tables.len() {
            return Err(DbError::TableAlreadyExists(name));
        }
        self.tables.push((name, sorted));
        proof {
            assert(self@.tables =~= old(self)@.tables.push((name@, sortedv)));
        }
        Ok(())
    }

    /// Removes a table, exactly as `spec_drop_table` says.
    pub fn drop_table(&mut self, name: String) -> (r: Result<(), DbError>)
        ensures
            match r {
                Ok(_) => spec_drop_table(old(self)@, name@) == Ok::<SchemaView, ErrorView>(
                    final(self)@,
                ),
                Err(e) => spec_drop_table(old(self)@, name@) == Err::<SchemaView, ErrorView>(e@)
                    && final(self)@ == old(self)@,
            },
    {
        let t = find_key_x(&self.tables, &name);
        if t < self.tables.len() {
            self.tables.remove(t);
            proof {
                assert(self@.tables =~= old(self)@.tables.remove(t as int));
            }
            Ok(())
        } else {
            Err(DbError::TableNotFound(name))
        }
    }

    /// Renames columns of a table, exactly as `spec_alter_table` says.
    #[verifier::loop_isolation(false)]
    pub fn alter_table(&mut self, table: String, rename: Vec<(String, String)>) -> (r: Result<
        (),
        DbError,
    >)
        ensures
            match r {
                Ok(_) => spec_alter_table(old(self)@, table@, rename.deep_view()) == Ok::<
                    SchemaView,
                    ErrorView,
                >(final(self)@),
                Err(e) => spec_alter_table(old(self)@, table@, rename.deep_view()) == Err::<
                    SchemaView,
                    ErrorView,
                >(e@) && final(self)@ == old(self)@,
            },
    {
        let ghost ren0 = rename.deep_view();
        let ti = find_key_x(&self.tables, &table);
        if ti >= self.tables.len() {
            return Err(DbError::TableNotFound(table));
        }
        let ghost cols0 = self.tables.deep_view()[ti as int].1;
        let mut ren = rename;
        let mut done: Columns = Vec::new();
        let ncols = self.tables[ti].1.len();
        let mut c: usize = 0;
        proof {
            assert(cols0.skip(0) =~= cols0);
            assert(done.deep_view() =~= Seq::<(Seq<char>, DataType)>::empty());
        }
        while c < ncols
            invariant
                0 <= c <= ncols,
                ti < self.tables@.len(),
                self == old(self),
                ncols == self.tables@[ti as int].1@.len(),
                spec_apply_renames(cols0, ren0, Seq::empty(), table@) == spec_apply_renames(
                    cols0.skip(c as int),
                    ren.deep_view(),
                    done.deep_view(),
                    table@,
                ),
            decreases ncols - c,
        {
            let ghost colsr = cols0.skip(c as int);
            proof {
                assert(cols0 == self.tables.deep_view()[ti as int].1);
                assert(cols0[c as int] == self.tables@[ti as int].1.deep_view()[c as int]);
                assert(cols0[c as int].0 == self.tables@[ti as int].1@[c as int].0@);
                assert(cols0[c as int].1 == self.tables@[ti as int].1@[c as int].1);
                assert(colsr[0] == cols0[c as int]);
                assert(colsr.drop_first() =~= cols0.skip(c as int + 1));
            }
            let cname = self.tables[ti].1[c].0.clone();
            let ctype = self.tables[ti].1[c].1;
            let j = find_key_x(&ren, &cname);
            let ghost renv = ren.deep_view();
            if j < ren.len() {
                let pair = ren.remove(j);
                let newname = pair.1;
                proof {
                    assert(pair.deep_view() == renv[j as int]);
                    assert(ren.deep_view() =~= renv.remove(j as int));
                }
                if !validate_name_str(newname.as_str()) {
                    return Err(DbError::InvalidName(newname));
                }
                let d = find_key_x(&done, &newname);
                if d < done.len() {
                    return Err(DbError::ColumnAlreadyExists(newname, table));
                }
                let ghost done0 = done.deep_view();
                done.push((newname, ctype));
                proof {
                    assert(done.deep_view() =~= done0.push((renv[j as int].1, cols0[c as int].1)));
                }
            } else {
                let d = find_key_x(&done, &cname);
                if d < done.len() {
                    return Err(DbError::ColumnAlreadyExists(cname, table));
                }
                let ghost done0 = done.deep_view();
                done.push((cname, ctype));
                proof {
                    assert(done.deep_view() =~= done0.push(cols0[c as int]));
                }
            }
            c = c + 1;
        }
        proof {
            assert(cols0.skip(ncols as int).len() == 0);
        }
        if ren.len() > 0 {
            let key = ren[0].0.clone();
            proof {
                assert(ren.deep_view()[0].0 == ren@[0].0@);
            }
            return Err(DbError::ColumnNotFound(key, table));
        }
        let pair = self.tables.remove(ti);
        self.tables.insert(ti, (pair.0, done));
        proof {
            lemma_find_index_found(old(self)@.tables, table@);
            assert(pair.0@ == table@);
            assert(self@.tables =~= old(self)@.tables.update(
                ti as int,
                (table@, done.deep_view()),
            ));
        }
        Ok(())
    }
}


/// `lex_le` holds one way or the other.
pub proof fn lemma_lex_le_total(a: Seq<char>, b: Seq<char>)
    ensures
        lex_le(a, b) || lex_le(b, a),
    decreases a.len(),
{
    if a.len() > 0 && b.len() > 0 && (a[0] as u32) == (b[0] as u32) {
        lemma_lex_le_total(a.drop_first(), b.drop_first());
    }
}

/// `lex_le` both ways only on equal sequences.
pub proof fn lemma_lex_le_antisymmetric(a: Seq<char>, b: Seq<char>)
    requires
        lex_le(a, b),
        lex_le(b, a),
    ensures
        a == b,
    decreases a.len(),
{
    if a.len() > 0 && b.len() > 0 {
        vstd::utf8::char_u32_cast(a[0], a[0] as u32);
        vstd::utf8::char_u32_cast(b[0], b[0] as u32);
        lemma_lex_le_antisymmetric(a.drop_first(), b.drop_first());
        assert(a =~= seq![a[0]] + a.drop_first());
        assert(b =~= seq![b[0]] + b.drop_first());
    }
}

/// `lex_le` chains.
pub proof fn lemma_lex_le_transitive(a: Seq<char>, b: Seq<char>, c: Seq<char>)
    requires
        lex_le(a, b),
        lex_le(b, c),
    ensures
        lex_le(a, c),
    decreases a.len(),
{
    if a.len() > 0 && b.len() > 0 && c.len() > 0 && (a[0] as u32) == (b[0] as u32) && (b[0] as u32)
        == (c[0] as u32) {
        lemma_lex_le_transitive(a.drop_first(), b.drop_first(), c.drop_first());
    }
}

/// A column list in sorted order: each name at most the next.
pub open spec fn ordered_cols(cols: ColumnsView) -> bool {
    forall|i: int| 0 <= i < cols.len() - 1 ==> lex_le((#[trigger] cols[i]).0, cols[i + 1].0)
}

/// Inserting into a sorted column list keeps it sorted and only adds the
/// new column.
pub proof fn lemma_insert_sorted_ordered(col: (Seq<char>, DataType), sorted: ColumnsView)
    requires
        ordered_cols(sorted),
    ensures
        ordered_cols(insert_sorted(col, sorted)),
        insert_sorted(col, sorted).len() == sorted.len() + 1,
        forall|i: int|
            0 <= i < insert_sorted(col, sorted).len() ==> (#[trigger] insert_sorted(
                col,
                sorted,
            )[i]) == col || sorted.contains(insert_sorted(col, sorted)[i]),
    decreases sorted.len(),
{
    let out = insert_sorted(col, sorted);
    if sorted.len() == 0 {
    } else if lex_le(sorted.last().0, col.0) {
        assert forall|i: int| 0 <= i < out.len() - 1 implies lex_le(
            (#[trigger] out[i]).0,
            out[i + 1].0,
        ) by {
            if i < sorted.len() - 1 {
                assert(out[i] == sorted[i]);
                assert(out[i + 1] == sorted[i + 1]);
            } else {
                assert(out[i] == sorted.last());
                assert(out[i + 1] == col);
            }
        }
        assert forall|i: int| 0 <= i < out.len() implies (#[trigger] out[i]) == col
            || sorted.contains(out[i]) by {
            if i < sorted.len() {
                assert(out[i] == sorted[i]);
            }
        }
    } else {
        let head = sorted.drop_last();
        assert(ordered_cols(head)) by {
            assert(forall|i: int| 0 <= i < head.len() ==> head[i] == sorted[i]);
        }
        lemma_insert_sorted_ordered(col, head);
        let inner = insert_sorted(col, head);
        lemma_lex_le_total(sorted.last().0, col.0);
        assert(lex_le(col.0, sorted.last().0));
        assert forall|i: int| 0 <= i < out.len() - 1 implies lex_le(
            (#[trigger] out[i]).0,
            out[i + 1].0,
        ) by {
            if i < inner.len() - 1 {
                assert(out[i] == inner[i]);
                assert(out[i + 1] == inner[i + 1]);
            } else {
                assert(out[i] == inner.last());
                assert(out[i + 1] == sorted.last());
                assert(inner.last() == col || head.contains(inner.last()));
                if inner.last() == col {
                } else {
                    let w = choose|w: int| 0 <= w < head.len() && head[w] == inner.last();
                    assert(sorted[w] == inner.last());
                    lemma_ordered_le(sorted, w, sorted.len() - 1);
                }
            }
        }
        assert forall|i: int| 0 <= i < out.len() implies (#[trigger] out[i]) == col
            || sorted.contains(out[i]) by {
            if i < inner.len() {
                assert(out[i] == inner[i]);
                if inner[i] == col {
                } else {
                    assert(head.contains(inner[i]));
                    let w = choose|w: int| 0 <= w < head.len() && head[w] == inner[i];
                    assert(sorted[w] == inner[i]);
                }
            } else {
                assert(out[i] == sorted.last());
            }
        }
    }
}

/// In a sorted list every earlier name is at most every later one.
pub proof fn lemma_ordered_le(cols: ColumnsView, i: int, j: int)
    requires
        ordered_cols(cols),
        0 <= i <= j < cols.len(),
    ensures
        lex_le(cols[i].0, cols[j].0),
    decreases j - i,
{
    if i == j {
        lemma_lex_le_total(cols[i].0, cols[i].0);
    } else {
        lemma_ordered_le(cols, i, j - 1);
        lemma_lex_le_transitive(cols[i].0, cols[j - 1].0, cols[j].0);
    }
}

/// Sorting the columns orders them.
pub proof fn lemma_sort_columns_ordered(cols: ColumnsView)
    ensures
        ordered_cols(sort_columns(cols)),
        sort_columns(cols).len() == cols.len(),
    decreases cols.len(),
{
    if cols.len() > 0 {
        lemma_sort_columns_ordered(cols.drop_last());
        lemma_insert_sorted_ordered(cols.last(), sort_columns(cols.drop_last()));
    }
}

/// A sorted list whose adjacent names all differ has pairwise distinct
/// names.
pub proof fn lemma_ordered_distinct(cols: ColumnsView)
    requires
        ordered_cols(cols),
        forall|i: int| 0 < i < cols.len() ==> (#[trigger] cols[i]).0 != cols[i - 1].0,
    ensures
        crate::table::unique_cols(cols),
{
    assert forall|i: int, j: int|
        0 <= i < j < cols.len() implies (#[trigger] cols[i]).0 != (#[trigger] cols[j]).0 by {
        if cols[i].0 == cols[j].0 {
            lemma_ordered_le(cols, i, j - 1);
            lemma_ordered_le(cols, j - 1, j - 1);
            assert(lex_le(cols[j - 1].0, cols[j].0));
            lemma_ordered_le(cols, i, j - 1);
            assert(lex_le(cols[j].0, cols[i].0)) by {
                lemma_lex_le_total(cols[j].0, cols[i].0);
            }
            lemma_lex_le_transitive(cols[j].0, cols[i].0, cols[j - 1].0);
            lemma_lex_le_antisymmetric(cols[j - 1].0, cols[j].0);
        }
    }
}

/// A created table's columns pass their checks: sorted with distinct
/// adjacent names means pairwise distinct.
pub proof fn lemma_create_columns_unique(columns: ColumnsView, name: Seq<char>)
    requires
        check_columns_from(sort_columns(columns), name, 0) is None,
    ensures
        crate::table::unique_cols(sort_columns(columns)),
{
    let sorted = sort_columns(columns);
    lemma_sort_columns_ordered(columns);
    lemma_check_columns_clean(sorted, name, 0);
    lemma_ordered_distinct(sorted);
}

/// A clean column check means every name is valid and no adjacent pair is
/// equal.
pub proof fn lemma_check_columns_clean(sorted: ColumnsView, table: Seq<char>, i: int)
    requires
        0 <= i <= sorted.len(),
        check_columns_from(sorted, table, i) is None,
    ensures
        forall|k: int| i <= k < sorted.len() ==> valid_name((#[trigger] sorted[k]).0),
        forall|k: int|
            i < k < sorted.len() && k > 0 ==> (#[trigger] sorted[k]).0 != sorted[k - 1].0,
        i > 0 && i < sorted.len() ==> sorted[i].0 != sorted[i - 1].0,
    decreases sorted.len() - i,
{
    if i < sorted.len() {
        lemma_check_columns_clean(sorted, table, i + 1);
    }
}


/// A successful rename walk keeps what was already walked, keeps every
/// column's type in place, and yields pairwise distinct names when the
/// walked part had them.
pub proof fn lemma_apply_renames_shape(
    cols: ColumnsView,
    ren: Seq<(Seq<char>, Seq<char>)>,
    done: ColumnsView,
    table: Seq<char>,
)
    requires
        crate::table::unique_cols(done),
    ensures
        spec_apply_renames(cols, ren, done, table) matches Ok(dl) ==> dl.0.len() == done.len()
            + cols.len(),
        spec_apply_renames(cols, ren, done, table) matches Ok(dl) ==> forall|k: int|
            0 <= k < done.len() ==> dl.0[k] == done[k],
        spec_apply_renames(cols, ren, done, table) matches Ok(dl) ==> forall|k: int|
            done.len() <= k < dl.0.len() ==> (#[trigger] dl.0[k]).1 == cols[k - done.len()].1,
        spec_apply_renames(cols, ren, done, table) matches Ok(dl)
            ==> crate::table::unique_cols(dl.0),
    decreases cols.len(),
{
    if cols.len() > 0 {
        let j = find_index(ren, cols[0].0);
        if j < ren.len() {
            let newname = ren[j].1;
            if valid_name(newname) && !has_key(done, newname) {
                let done2 = done.push((newname, cols[0].1));
                assert(crate::table::unique_cols(done2)) by {
                    lemma_unique_push(done, (newname, cols[0].1));
                }
                lemma_apply_renames_shape(cols.drop_first(), ren.remove(j), done2, table);
                assert(forall|m: int|
                    0 <= m < cols.drop_first().len() ==> cols.drop_first()[m] == cols[m + 1]);
                match spec_apply_renames(cols.drop_first(), ren.remove(j), done2, table) {
                    Ok(dl) => {
                        assert(dl.0[done.len() as int] == done2[done.len() as int]);
                        assert forall|k: int| 0 <= k < done.len() implies dl.0[k] == done[k] by {
                            assert(dl.0[k] == done2[k]);
                            assert(done2[k] == done[k]);
                        }
                        assert forall|k: int|
                            done.len() <= k < dl.0.len() implies (#[trigger] dl.0[k]).1
                            == cols[k - done.len()].1 by {
                            if k == done.len() {
                            } else {
                                assert(dl.0[k].1 == cols.drop_first()[k - done2.len()].1);
                            }
                        }
                    },
                    Err(_) => {},
                }
            }
        } else {
            if !has_key(done, cols[0].0) {
                let done2 = done.push(cols[0]);
                assert(crate::table::unique_cols(done2)) by {
                    lemma_unique_push(done, cols[0]);
                }
                lemma_apply_renames_shape(cols.drop_first(), ren, done2, table);
                assert(forall|m: int|
                    0 <= m < cols.drop_first().len() ==> cols.drop_first()[m] == cols[m + 1]);
                match spec_apply_renames(cols.drop_first(), ren, done2, table) {
                    Ok(dl) => {
                        assert(dl.0[done.len() as int] == done2[done.len() as int]);
                        assert forall|k: int| 0 <= k < done.len() implies dl.0[k] == done[k] by {
                            assert(dl.0[k] == done2[k]);
                            assert(done2[k] == done[k]);
                        }
                        assert forall|k: int|
                            done.len() <= k < dl.0.len() implies (#[trigger] dl.0[k]).1
                            == cols[k - done.len()].1 by {
                            if k == done.len() {
                            } else {
                                assert(dl.0[k].1 == cols.drop_first()[k - done2.len()].1);
                            }
                        }
                    },
                    Err(_) => {},
                }
            }
        }
    }
}

/// Pushing a fresh name keeps the names pairwise distinct.
pub proof fn lemma_unique_push(done: ColumnsView, col: (Seq<char>, DataType))
    requires
        crate::table::unique_cols(done),
        !has_key(done, col.0),
    ensures
        crate::table::unique_cols(done.push(col)),
{
    lemma_find_index_found(done, col.0);
    assert forall|i: int, j: int|
        0 <= i < j < done.push(col).len() implies (#[trigger] done.push(col)[i]).0 != (
        #[trigger] done.push(col)[j]).0 by {
        if j < done.len() {
            assert(done.push(col)[i] == done[i]);
            assert(done.push(col)[j] == done[j]);
        } else {
            assert(done.push(col)[j] == col);
            assert(done.push(col)[i] == done[i]);
            lemma_find_index_not_found(done, col.0);
        }
    }
}

/// An index equal to the length means the name is nowhere in the list.
pub proof fn lemma_find_index_not_found<T>(list: Seq<(Seq<char>, T)>, name: Seq<char>)
    ensures
        find_index(list, name) == list.len() ==> forall|i: int|
            0 <= i < list.len() ==> (#[trigger] list[i]).0 != name,
    decreases list.len(),
{
    if list.len() > 0 && list[0].0 != name {
        lemma_find_index_not_found(list.drop_first(), name);
        if find_index(list, name) == list.len() {
            assert forall|i: int| 0 <= i < list.len() implies (#[trigger] list[i]).0 != name by {
                if i > 0 {
                    assert(list.drop_first()[i - 1] == list[i]);
                }
            }
        }
    }
}


/// An identical copy of a column list.
pub(crate) fn clone_columns(c: &Columns) -> (r: Columns)
    ensures
        r.deep_view() == c.deep_view(),
{
    let mut out: Columns = Vec::new();
    let n = c.len();
    let mut i: usize = 0;
    while i < n
        invariant
            0 <= i <= n,
            n == c@.len(),
            out@.len() == i,
            forall|k: int| 0 <= k < i ==> out.deep_view()[k] == c.deep_view()[k],
        decreases n - i,
    {
        proof {
            assert(c.deep_view()[i as int] == (c@[i as int].0@, c@[i as int].1));
        }
        let ghost oi = i as int;
        out.push((c[i].0.clone(), c[i].1));
        proof {
            assert(out.deep_view()[oi] == c.deep_view()[oi]);
            assert(forall|k: int| 0 <= k < oi ==> out.deep_view()[k] == c.deep_view()[k]);
        }
        i = i + 1;
    }
    proof {
        assert(out.deep_view() =~= c.deep_view());
    }
    out
}


/// The text of one column list: `name:type`, comma-separated.
pub open spec fn spec_dump_cols(cols: ColumnsView) -> Seq<char>
    decreases cols.len(),
{
    if cols.len() == 0 {
        Seq::empty()
    } else if cols.len() == 1 {
        cols[0].0 + seq![':'] + cols[0].1.text()
    } else {
        cols[0].0 + seq![':'] + cols[0].1.text() + seq![','] + spec_dump_cols(cols.drop_first())
    }
}

/// The text of the table lines: `table#columns`, one line each.
pub open spec fn spec_dump_tables(tables: Seq<(Seq<char>, ColumnsView)>) -> Seq<char>
    decreases tables.len(),
{
    if tables.len() == 0 {
        Seq::empty()
    } else {
        tables[0].0 + seq!['#'] + spec_dump_cols(tables[0].1) + seq!['\n'] + spec_dump_tables(
            tables.drop_first(),
        )
    }
}

/// The catalog text: the display name line, then one line per table.
pub open spec fn spec_dump(sv: SchemaView) -> Seq<char> {
    sv.name + seq!['\n'] + spec_dump_tables(sv.tables)
}

/// The first position of `ch` in `t`, or the length.
pub open spec fn find_from(t: Seq<char>, ch: char) -> int
    decreases t.len(),
{
    if t.len() == 0 {
        0
    } else if t[0] == ch {
        0
    } else {
        1 + find_from(t.subrange(1, t.len() as int), ch)
    }
}

/// `find_from` is pinned down by its two properties.
pub proof fn lemma_find_from_char(t: Seq<char>, ch: char, j: int)
    requires
        0 <= j <= t.len(),
        forall|i: int| 0 <= i < j ==> t[i] != ch,
        j < t.len() ==> t[j] == ch,
    ensures
        find_from(t, ch) == j,
    decreases t.len(),
{
    if t.len() == 0 {
    } else if t[0] == ch {
    } else {
        let rest = t.subrange(1, t.len() as int);
        assert(forall|i: int| 0 <= i < j - 1 ==> rest[i] == t[i + 1]);
        lemma_find_from_char(rest, ch, j - 1);
    }
}

/// The type a textual form names.
pub open spec fn spec_parse_type(t: Seq<char>) -> Result<DataType, ErrorView> {
    if t == "int"@ {
        Ok(DataType::Int)
    } else if t == "float"@ {
        Ok(DataType::Float)
    } else if t == "char"@ {
        Ok(DataType::Char)
    } else if t == "string"@ {
        Ok(DataType::String)
    } else {
        Err(ErrorView::InvalidDataType(t))
    }
}

/// One `name:type` field.
pub open spec fn spec_parse_col(f: Seq<char>) -> Result<(Seq<char>, DataType), ErrorView> {
    let c = find_from(f, ':');
    if c == f.len() {
        Err(ErrorView::IoError)
    } else {
        match spec_parse_type(f.subrange(c + 1, f.len() as int)) {
            Ok(t) => Ok((f.subrange(0, c), t)),
            Err(e) => Err(e),
        }
    }
}

/// A comma-separated, non-empty column list.
pub open spec fn spec_parse_cols(t: Seq<char>) -> Result<ColumnsView, ErrorView>
    decreases t.len(),
{
    let c = find_from(t, ',');
    if !(0 <= c < t.len()) {
        match spec_parse_col(t) {
            Ok(col) => Ok(seq![col]),
            Err(e) => Err(e),
        }
    } else {
        match spec_parse_col(t.subrange(0, c)) {
            Ok(col) => match spec_parse_cols(t.subrange(c + 1, t.len() as int)) {
                Ok(rest) => Ok(seq![col] + rest),
                Err(e) => Err(e),
            },
            Err(e) => Err(e),
        }
    }
}

/// One `table#columns` line.
pub open spec fn spec_parse_line(line: Seq<char>) -> Result<(Seq<char>, ColumnsView), ErrorView> {
    let h = find_from(line, '#');
    if h == line.len() {
        Err(ErrorView::IoError)
    } else {
        match spec_parse_cols(line.subrange(h + 1, line.len() as int)) {
            Ok(cols) => Ok((line.subrange(0, h), cols)),
            Err(e) => Err(e),
        }
    }
}

/// The table lines of the catalog text, one table per line.
pub open spec fn spec_parse_lines(text: Seq<char>) -> Result<
    Seq<(Seq<char>, ColumnsView)>,
    ErrorView,
>
    decreases text.len(),
{
    if text.len() == 0 {
        Ok(Seq::empty())
    } else {
        let nl = find_from(text, '\n');
        let line = if 0 <= nl <= text.len() {
            text.subrange(0, nl)
        } else {
            text
        };
        let rest = if 0 <= nl < text.len() {
            text.subrange(nl + 1, text.len() as int)
        } else {
            Seq::empty()
        };
        match spec_parse_line(line) {
            Ok(tb) => match spec_parse_lines(rest) {
                Ok(r) => Ok(seq![tb] + r),
                Err(e) => Err(e),
            },
            Err(e) => Err(e),
        }
    }
}

/// The catalog a text denotes: the first line is the display name, every
/// further line one table.  Empty text denotes nothing at all.
pub open spec fn spec_load(text: Seq<char>) -> Result<SchemaView, ErrorView> {
    if text.len() == 0 {
        Err(ErrorView::IoError)
    } else {
        let nl = find_from(text, '\n');
        let name = if 0 <= nl <= text.len() {
            text.subrange(0, nl)
        } else {
            text
        };
        let rest = if 0 <= nl < text.len() {
            text.subrange(nl + 1, text.len() as int)
        } else {
            Seq::empty()
        };
        match spec_parse_lines(rest) {
            Ok(tables) => Ok(SchemaView { tables, name }),
            Err(e) => Err(e),
        }
    }
}


/// Whether two strings hold the same characters.
pub fn str_eq(a: &str, b: &str) -> (r: bool)
    ensures
        r == (a@ == b@),
{
    let an = a.unicode_len();
    let bn = b.unicode_len();
    if an != bn {
        proof {
            assert(a@ != b@);
        }
        return false;
    }
    let mut i: usize = 0;
    while i < an
        invariant
            0 <= i <= an,
            an == a@.len(),
            an == b@.len(),
            forall|k: int| 0 <= k < i ==> a@[k] == b@[k],
        decreases an - i,
    {
        if !crate::text::char_eq(a.get_char(i), b.get_char(i)) {
            return false;
        }
        i = i + 1;
    }
    proof {
        assert(a@ =~= b@);
    }
    true
}

/// The first position of `ch` in `s`, exactly as `find_from` says.
fn find_char_x(s: &str, ch: char) -> (r: usize)
    ensures
        r <= s@.len(),
        r as int == find_from(s@, ch),
        r < s@.len() ==> s@[r as int] == ch,
{
    let n = s.unicode_len();
    let mut j: usize = 0;
    while j < n
        invariant
            0 <= j <= n,
            n == s@.len(),
            forall|i: int| 0 <= i < j ==> s@[i] != ch,
        decreases n - j,
    {
        if crate::text::char_eq(s.get_char(j), ch) {
            proof {
                lemma_find_from_char(s@, ch, j as int);
            }
            return j;
        }
        j = j + 1;
    }
    proof {
        lemma_find_from_char(s@, ch, n as int);
    }
    n
}

/// Reads a type's textual form, exactly as `spec_parse_type` says.
fn parse_type_x(t: &str) -> (r: Result<DataType, DbError>)
    ensures
        match r {
            Ok(dt) => spec_parse_type(t@) == Ok::<DataType, ErrorView>(dt),
            Err(e) => spec_parse_type(t@) == Err::<DataType, ErrorView>(e@),
        },
{
    if str_eq(t, "int") {
        Ok(DataType::Int)
    } else if str_eq(t, "float") {
        Ok(DataType::Float)
    } else if str_eq(t, "char") {
        Ok(DataType::Char)
    } else if str_eq(t, "string") {
        Ok(DataType::String)
    } else {
        Err(DbError::InvalidDataType(String::from_str(t)))
    }
}

/// Reads one `name:type` field, exactly as `spec_parse_col` says.
fn parse_col_x(f: &str) -> (r: Result<(String, DataType), DbError>)
    ensures
        match r {
            Ok(p) => spec_parse_col(f@) == Ok::<(Seq<char>, DataType), ErrorView>((p.0@, p.1)),
            Err(e) => spec_parse_col(f@) == Err::<(Seq<char>, DataType), ErrorView>(e@),
        },
{
    let n = f.unicode_len();
    let c = find_char_x(f, ':');
    if c == n {
        return Err(DbError::IoError(String::from_str("schema text corrupted")));
    }
    let namepart = f.substring_char(0, c).to_owned();
    let tpart = f.substring_char(c + 1, n);
    match parse_type_x(tpart) {
        Ok(dt) => Ok((namepart, dt)),
        Err(e) => Err(e),
    }
}

/// Reads a comma-separated column list, exactly as `spec_parse_cols` says.
fn parse_cols_x(t: &str) -> (r: Result<Columns, DbError>)
    ensures
        match r {
            Ok(v) => spec_parse_cols(t@) == Ok::<ColumnsView, ErrorView>(v.deep_view()),
            Err(e) => spec_parse_cols(t@) == Err::<ColumnsView, ErrorView>(e@),
        },
    decreases t@.len(),
{
    let n = t.unicode_len();
    let c = find_char_x(t, ',');
    if c == n {
        match parse_col_x(t) {
            Ok(col) => {
                let ghost colv = (col.0@, col.1);
                let mut v: Columns = Vec::new();
                v.push(col);
                proof {
                    assert(v.deep_view() =~= seq![colv]);
                }
                Ok(v)
            }
            Err(e) => Err(e),
        }
    } else {
        let fld = t.substring_char(0, c);
        match parse_col_x(fld) {
            Ok(col) => {
                let rest_s = t.substring_char(c + 1, n);
                match parse_cols_x(rest_s) {
                    Ok(mut rest) => {
                        let ghost colv = (col.0@, col.1);
                        let ghost restv = rest.deep_view();
                        let mut v: Columns = Vec::new();
                        v.push(col);
                        v.append(&mut rest);
                        proof {
                            assert(v.deep_view() =~= seq![colv] + restv);
                        }
                        Ok(v)
                    }
                    Err(e) => Err(e),
                }
            }
            Err(e) => Err(e),
        }
    }
}

/// Reads one `table#columns` line, exactly as `spec_parse_line` says.
fn parse_line_x(line: &str) -> (r: Result<(String, Columns), DbError>)
    ensures
        match r {
            Ok(p) => spec_parse_line(line@) == Ok::<(Seq<char>, ColumnsView), ErrorView>(
                (p.0@, p.1.deep_view()),
            ),
            Err(e) => spec_parse_line(line@) == Err::<(Seq<char>, ColumnsView), ErrorView>(e@),
        },
{
    let n = line.unicode_len();
    let h = find_char_x(line, '#');
    if h == n {
        return Err(DbError::IoError(String::from_str("schema text corrupted")));
    }
    let tname = line.substring_char(0, h).to_owned();
    let colstext = line.substring_char(h + 1, n);
    match parse_cols_x(colstext) {
        Ok(cols) => Ok((tname, cols)),
        Err(e) => Err(e),
    }
}

/// Reads the table lines, exactly as `spec_parse_lines` says.
fn parse_lines_x(text: &str) -> (r: Result<Vec<(String, Columns)>, DbError>)
    ensures
        match r {
            Ok(v) => spec_parse_lines(text@) == Ok::<Seq<(Seq<char>, ColumnsView)>, ErrorView>(
                v.deep_view(),
            ),
            Err(e) => spec_parse_lines(text@) == Err::<
                Seq<(Seq<char>, ColumnsView)>,
                ErrorView,
            >(e@),
        },
    decreases text@.len(),
{
    let n = text.unicode_len();
    if n == 0 {
        let v: Vec<(String, Columns)> = Vec::new();
        proof {
            assert(v.deep_view() =~= Seq::<(Seq<char>, ColumnsView)>::empty());
        }
        return Ok(v);
    }
    let nl = find_char_x(text, '\n');
    let line = text.substring_char(0, nl);
    match parse_line_x(line) {
        Ok(tb) => {
            let rest_s = if nl < n {
                text.substring_char(nl + 1, n)
            } else {
                text.substring_char(n, n)
            };
            proof {
                if nl >= n {
                    assert(rest_s@ =~= Seq::<char>::empty());
                }
            }
            match parse_lines_x(rest_s) {
                Ok(mut rest) => {
                    let ghost tbv = (tb.0@, tb.1.deep_view());
                    let ghost restv = rest.deep_view();
                    let mut v: Vec<(String, Columns)> = Vec::new();
                    v.push(tb);
                    v.append(&mut rest);
                    proof {
                        assert(v.deep_view() =~= seq![tbv] + restv);
                    }
                    Ok(v)
                }
                Err(e) => Err(e),
            }
        }
        Err(e) => Err(e),
    }
}

impl Schema {
    /// The catalog's text form: the display name line, then one line per
    /// table, `table#col:type,...` with the columns in their stored order.
    #[verifier::loop_isolation(false)]
    pub fn dump(&self) -> (r: String)
        ensures
            r@ == spec_dump(self@),
    {
        let ghost tablesv = self@.tables;
        let mut out = String::new();
        out.append(self.name.as_str());
        out.append("\n");
        proof {
            reveal_strlit("\n");
            reveal_strlit("#");
            reveal_strlit(":");
            reveal_strlit(",");
            assert(out@ =~= self@.name + seq!['\n']);
            assert(tablesv.skip(0) =~= tablesv);
        }
        let nt = self.tables.len();
        let mut t: usize = 0;
        while t < nt
            invariant
                0 <= t <= nt,
                nt == self.tables@.len(),
                spec_dump(self@) == out@ + spec_dump_tables(tablesv.skip(t as int)),
            decreases nt - t,
        {
            let ghost trem = tablesv.skip(t as int);
            proof {
                assert(trem[0] == tablesv[t as int]);
                assert(tablesv[t as int].0 == self.tables@[t as int].0@);
                assert(tablesv[t as int].1 == self.tables@[t as int].1.deep_view());
                assert(trem.drop_first() =~= tablesv.skip(t as int + 1));
            }
            out.append(self.tables[t].0.as_str());
            out.append("#");
            let ghost colsv = tablesv[t as int].1;
            let ghost outmark = out@;
            let nc = self.tables[t].1.len();
            let mut c: usize = 0;
            proof {
                reveal_strlit("#");
                assert(colsv.skip(0) =~= colsv);
            }
            while c < nc
                invariant
                    0 <= c <= nc,
                    t < self.tables@.len(),
                    nc == self.tables@[t as int].1@.len(),
                    colsv == self.tables@[t as int].1.deep_view(),
                    outmark + spec_dump_cols(colsv) == out@ + spec_dump_cols(
                        colsv.skip(c as int),
                    ),
                decreases nc - c,
            {
                let ghost crem = colsv.skip(c as int);
                proof {
                    assert(crem[0] == colsv[c as int]);
                    assert(colsv[c as int].0 == self.tables@[t as int].1@[c as int].0@);
                    assert(colsv[c as int].1 == self.tables@[t as int].1@[c as int].1);
                    assert(crem.drop_first() =~= colsv.skip(c as int + 1));
                }
                let ghost outc = out@;
                out.append(self.tables[t].1[c].0.as_str());
                out.append(":");
                let dt = self.tables[t].1[c].1;
                out.append(dt.as_str());
                proof {
                    reveal_strlit(":");
                    reveal_strlit(",");
                    assert(out@ =~= outc + (crem[0].0 + seq![':'] + crem[0].1.text()));
                }
                if c + 1 < nc {
                    out.append(",");
                    proof {
                        reveal_strlit(",");
                        assert(crem.len() > 1);
                        assert(out@ + spec_dump_cols(crem.drop_first()) =~= outc
                            + spec_dump_cols(crem));
                    }
                } else {
                    proof {
                        assert(crem.len() == 1);
                        assert(out@ =~= outc + spec_dump_cols(crem));
                        assert(spec_dump_cols(crem.drop_first()) =~= Seq::<char>::empty());
                        assert(out@ + spec_dump_cols(crem.drop_first()) =~= outc
                            + spec_dump_cols(crem));
                    }
                }
                c = c + 1;
            }
            out.append("\n");
            proof {
                reveal_strlit("\n");
                assert(colsv.skip(nc as int).len() == 0);
                assert(spec_dump_cols(colsv.skip(nc as int)) =~= Seq::<char>::empty());
                assert(out@ =~= outmark + spec_dump_cols(colsv) + seq!['\n']);
                assert(out@ + spec_dump_tables(trem.drop_first()) =~= (outmark.subrange(
                    0,
                    outmark.len() as int,
                ) + spec_dump_cols(colsv) + seq!['\n']) + spec_dump_tables(trem.drop_first()));
            }
            t = t + 1;
        }
        proof {
            assert(tablesv.skip(nt as int).len() == 0);
            assert(spec_dump_tables(tablesv.skip(nt as int)) =~= Seq::<char>::empty());
            assert(out@ + Seq::<char>::empty() =~= out@);
        }
        out
    }

    /// A catalog read back from its text form, exactly as `spec_load` says.
    pub fn load(text: &str) -> (r: Result<Schema, DbError>)
        ensures
            match r {
                Ok(s) => spec_load(text@) == Ok::<SchemaView, ErrorView>(s@),
                Err(e) => spec_load(text@) == Err::<SchemaView, ErrorView>(e@),
            },
    {
        let n = text.unicode_len();
        if n == 0 {
            return Err(DbError::IoError(String::from_str("schema text is empty")));
        }
        let nl = find_char_x(text, '\n');
        let name = text.substring_char(0, nl).to_owned();
        let rest_s = if nl < n {
            text.substring_char(nl + 1, n)
        } else {
            text.substring_char(n, n)
        };
        proof {
            if nl >= n {
                assert(rest_s@ =~= Seq::<char>::empty());
            }
        }
        match parse_lines_x(rest_s) {
            Ok(tables) => Ok(Schema { tables, name }),
            Err(e) => Err(e),
        }
    }
}


/// No character of `s` is `ch`.
pub open spec fn no_char(s: Seq<char>, ch: char) -> bool {
    forall|i: int| 0 <= i < s.len() ==> s[i] != ch
}

/// A valid name contains none of the catalog text's separators.
pub proof fn lemma_valid_name_no_seps(s: Seq<char>)
    requires
        valid_name(s),
    ensures
        no_char(s, '\n'),
        no_char(s, '#'),
        no_char(s, ':'),
        no_char(s, ','),
{
    assert forall|i: int| 0 <= i < s.len() implies s[i] != '\n' && s[i] != '#' && s[i] != ':'
        && s[i] != ',' by {
        assert(is_name_char(s[i]));
    }
}

/// A type's textual form contains no separators either.
pub proof fn lemma_type_text_no_seps(dt: DataType)
    ensures
        no_char(dt.text(), '\n'),
        no_char(dt.text(), '#'),
        no_char(dt.text(), ','),
{
    reveal_strlit("int");
    reveal_strlit("float");
    reveal_strlit("char");
    reveal_strlit("string");
}

/// A dumped column list contains no newline and no hash mark.
pub proof fn lemma_dump_cols_no_seps(cols: ColumnsView)
    requires
        forall|j: int| 0 <= j < cols.len() ==> valid_name((#[trigger] cols[j]).0),
    ensures
        no_char(spec_dump_cols(cols), '\n'),
        no_char(spec_dump_cols(cols), '#'),
    decreases cols.len(),
{
    if cols.len() > 0 {
        lemma_valid_name_no_seps(cols[0].0);
        lemma_type_text_no_seps(cols[0].1);
        if cols.len() > 1 {
            let rest = cols.drop_first();
            assert(forall|j: int| 0 <= j < rest.len() ==> rest[j] == cols[j + 1]);
            lemma_dump_cols_no_seps(rest);
        }
    }
}

/// The textual forms of the four types read back as themselves.
pub proof fn lemma_parse_type_round_trip(dt: DataType)
    ensures
        spec_parse_type(dt.text()) == Ok::<DataType, ErrorView>(dt),
{
    reveal_strlit("int");
    reveal_strlit("float");
    reveal_strlit("char");
    reveal_strlit("string");
    assert(("int"@).len() == 3);
    assert(("float"@).len() == 5);
    assert(("char"@).len() == 4);
    assert(("string"@).len() == 6);
}

/// A dumped column list reads back as itself.
pub proof fn lemma_parse_cols_round_trip(cols: ColumnsView)
    requires
        cols.len() > 0,
        forall|j: int| 0 <= j < cols.len() ==> valid_name((#[trigger] cols[j]).0),
    ensures
        spec_parse_cols(spec_dump_cols(cols)) == Ok::<ColumnsView, ErrorView>(cols),
    decreases cols.len(),
{
    let name = cols[0].0;
    let ttext = cols[0].1.text();
    let field = name + seq![':'] + ttext;
    lemma_valid_name_no_seps(name);
    lemma_type_text_no_seps(cols[0].1);
    lemma_parse_type_round_trip(cols[0].1);
    assert(no_char(field, ',')) by {
        assert forall|i: int| 0 <= i < field.len() implies field[i] != ',' by {
            if i < name.len() {
                assert(field[i] == name[i]);
            } else if i == name.len() {
                assert(field[i] == ':');
            } else {
                assert(field[i] == ttext[i - name.len() - 1]);
            }
        }
    }
    assert(find_from(field, ':') == name.len()) by {
        assert(forall|i: int| 0 <= i < name.len() ==> field[i] == name[i]);
        assert(field[name.len() as int] == ':');
        lemma_find_from_char(field, ':', name.len() as int);
    }
    assert(field.subrange(0, name.len() as int) =~= name);
    assert(field.subrange(name.len() as int + 1, field.len() as int) =~= ttext);
    assert(spec_parse_col(field) == Ok::<(Seq<char>, DataType), ErrorView>(cols[0]));
    if cols.len() == 1 {
        let t = spec_dump_cols(cols);
        assert(t == field);
        lemma_find_from_char(t, ',', t.len() as int);
        assert(seq![cols[0]] =~= cols);
    } else {
        let rest = cols.drop_first();
        assert(forall|j: int| 0 <= j < rest.len() ==> rest[j] == cols[j + 1]);
        lemma_parse_cols_round_trip(rest);
        lemma_dump_cols_no_seps(cols);
        let t = spec_dump_cols(cols);
        let resttext = spec_dump_cols(rest);
        assert(t =~= field + seq![','] + resttext);
        assert(find_from(t, ',') == field.len()) by {
            assert(forall|i: int| 0 <= i < field.len() ==> t[i] == field[i]);
            assert(t[field.len() as int] == ',');
            lemma_find_from_char(t, ',', field.len() as int);
        }
        assert(t.subrange(0, field.len() as int) =~= field);
        assert(t.subrange(field.len() as int + 1, t.len() as int) =~= resttext);
        assert(seq![cols[0]] + rest =~= cols);
    }
}

/// A dumped table line reads back as its table.
pub proof fn lemma_parse_line_round_trip(tname: Seq<char>, cols: ColumnsView)
    requires
        valid_name(tname),
        cols.len() > 0,
        forall|j: int| 0 <= j < cols.len() ==> valid_name((#[trigger] cols[j]).0),
    ensures
        spec_parse_line(tname + seq!['#'] + spec_dump_cols(cols)) == Ok::<
            (Seq<char>, ColumnsView),
            ErrorView,
        >((tname, cols)),
{
    let colstext = spec_dump_cols(cols);
    let line = tname + seq!['#'] + colstext;
    lemma_valid_name_no_seps(tname);
    assert(find_from(line, '#') == tname.len()) by {
        assert(forall|i: int| 0 <= i < tname.len() ==> line[i] == tname[i]);
        assert(line[tname.len() as int] == '#');
        lemma_find_from_char(line, '#', tname.len() as int);
    }
    assert(line.subrange(0, tname.len() as int) =~= tname);
    assert(line.subrange(tname.len() as int + 1, line.len() as int) =~= colstext);
    lemma_parse_cols_round_trip(cols);
}

/// Dumped table lines read back as their tables.
pub proof fn lemma_parse_lines_round_trip(tables: Seq<(Seq<char>, ColumnsView)>)
    requires
        forall|i: int|
            0 <= i < tables.len() ==> valid_name((#[trigger] tables[i]).0) && tables[i].1.len() > 0
                && (forall|j: int|
                0 <= j < tables[i].1.len() ==> valid_name((#[trigger] tables[i].1[j]).0)),
    ensures
        spec_parse_lines(spec_dump_tables(tables)) == Ok::<
            Seq<(Seq<char>, ColumnsView)>,
            ErrorView,
        >(tables),
    decreases tables.len(),
{
    if tables.len() == 0 {
        assert(spec_dump_tables(tables) =~= Seq::<char>::empty());
        assert(tables =~= Seq::<(Seq<char>, ColumnsView)>::empty());
    } else {
        let tname = tables[0].0;
        let cols = tables[0].1;
        let line = tname + seq!['#'] + spec_dump_cols(cols);
        let rest = tables.drop_first();
        assert(forall|i: int| 0 <= i < rest.len() ==> rest[i] == tables[i + 1]);
        lemma_parse_lines_round_trip(rest);
        let resttext = spec_dump_tables(rest);
        let text = spec_dump_tables(tables);
        assert(text =~= line + seq!['\n'] + resttext);
        assert(no_char(line, '\n')) by {
            lemma_valid_name_no_seps(tname);
            lemma_dump_cols_no_seps(cols);
            assert forall|i: int| 0 <= i < line.len() implies line[i] != '\n' by {
                if i < tname.len() {
                    assert(line[i] == tname[i]);
                } else if i == tname.len() {
                    assert(line[i] == '#');
                } else {
                    assert(line[i] == spec_dump_cols(cols)[i - tname.len() - 1]);
                }
            }
        }
        assert(find_from(text, '\n') == line.len()) by {
            assert(forall|i: int| 0 <= i < line.len() ==> text[i] == line[i]);
            assert(text[line.len() as int] == '\n');
            lemma_find_from_char(text, '\n', line.len() as int);
        }
        assert(text.subrange(0, line.len() as int) =~= line);
        assert(text.subrange(line.len() as int + 1, text.len() as int) =~= resttext);
        lemma_parse_line_round_trip(tname, cols);
        assert(text.len() > 0);
        assert((tname, cols) == tables[0]);
        assert(seq![tables[0]] + rest =~= tables);
    }
}

/// A valid catalog: the display name has no line break, and every table has
/// a valid name, at least one column, valid column names, no two columns
/// alike, and no two tables alike.
pub open spec fn wf_schema(sv: SchemaView) -> bool {
    &&& no_char(sv.name, '\n')
    &&& forall|i: int|
        0 <= i < sv.tables.len() ==> valid_name((#[trigger] sv.tables[i]).0) && sv.tables[i].1.len()
            > 0 && (forall|j: int|
            0 <= j < sv.tables[i].1.len() ==> valid_name((#[trigger] sv.tables[i].1[j]).0))
            && crate::table::unique_cols(sv.tables[i].1)
    &&& forall|i: int, j: int|
        0 <= i < j < sv.tables.len() ==> (#[trigger] sv.tables[i]).0 != (
        #[trigger] sv.tables[j]).0
}

/// Loading a dumped catalog gives the catalog back.
pub proof fn lemma_schema_round_trip(sv: SchemaView)
    requires
        wf_schema(sv),
    ensures
        spec_load(spec_dump(sv)) == Ok::<SchemaView, ErrorView>(sv),
{
    let text = spec_dump(sv);
    let tablestext = spec_dump_tables(sv.tables);
    assert(text =~= sv.name + seq!['\n'] + tablestext);
    assert(find_from(text, '\n') == sv.name.len()) by {
        assert(forall|i: int| 0 <= i < sv.name.len() ==> text[i] == sv.name[i]);
        assert(text[sv.name.len() as int] == '\n');
        lemma_find_from_char(text, '\n', sv.name.len() as int);
    }
    assert(text.subrange(0, sv.name.len() as int) =~= sv.name);
    assert(text.subrange(sv.name.len() as int + 1, text.len() as int) =~= tablestext);
    lemma_parse_lines_round_trip(sv.tables);
    assert(SchemaView { tables: sv.tables, name: sv.name } =~= sv);
}


/// Nothing before a found index holds the name.
pub proof fn lemma_find_index_prefix<T>(list: Seq<(Seq<char>, T)>, name: Seq<char>)
    ensures
        forall|i: int| 0 <= i < find_index(list, name) ==> (#[trigger] list[i]).0 != name,
    decreases list.len(),
{
    if list.len() > 0 && list[0].0 != name {
        lemma_find_index_prefix(list.drop_first(), name);
        lemma_find_index_found(list, name);
        assert forall|i: int| 0 <= i < find_index(list, name) implies (#[trigger] list[i]).0
            != name by {
            if i > 0 {
                assert(list.drop_first()[i - 1] == list[i]);
            }
        }
    }
}


/// Alter uniqueness, first half: a successful rename leaves every table's
/// column names pairwise distinct, so an alter that would produce a
/// duplicate cannot succeed.  (Its failure leaves the catalog untouched, by
/// `alter_table`'s contract.)
pub proof fn lemma_alter_unique(
    sv: SchemaView,
    table: Seq<char>,
    ren: Seq<(Seq<char>, Seq<char>)>,
)
    requires
        forall|k: int|
            0 <= k < sv.tables.len() ==> crate::table::unique_cols((#[trigger] sv.tables[k]).1),
    ensures
        spec_alter_table(sv, table, ren) matches Ok(sv2) ==> forall|k: int|
            0 <= k < sv2.tables.len() ==> crate::table::unique_cols((#[trigger] sv2.tables[k]).1),
{
    let i = find_index(sv.tables, table);
    lemma_find_index_found(sv.tables, table);
    if i < sv.tables.len() {
        assert(crate::table::unique_cols(Seq::<(Seq<char>, DataType)>::empty()));
        lemma_apply_renames_shape(sv.tables[i].1, ren, Seq::empty(), table);
        match spec_alter_table(sv, table, ren) {
            Ok(sv2) => {
                match spec_apply_renames(sv.tables[i].1, ren, Seq::empty(), table) {
                    Ok(dl) => {
                        assert(crate::table::unique_cols(dl.0));
                        assert(sv2.tables == sv.tables.update(i, (table, dl.0)));
                        assert forall|k: int|
                            0 <= k < sv2.tables.len() implies crate::table::unique_cols(
                            (#[trigger] sv2.tables[k]).1,
                        ) by {
                            if k != i {
                                assert(sv2.tables[k] == sv.tables[k]);
                            } else {
                                assert(sv2.tables[k].1 == dl.0);
                            }
                        }
                    },
                    Err(_) => {
                        assert(false);
                    },
                }
            },
            Err(_) => {},
        }
    }
}

/// Alter uniqueness, second half: when every new name is well-formed, a
/// failure inside the rename walk is precisely a duplicate, reported as
/// `ColumnAlreadyExists`.
pub proof fn lemma_apply_renames_dup_error(
    cols: ColumnsView,
    ren: Seq<(Seq<char>, Seq<char>)>,
    done: ColumnsView,
    table: Seq<char>,
)
    requires
        forall|j: int| 0 <= j < ren.len() ==> valid_name((#[trigger] ren[j]).1),
    ensures
        spec_apply_renames(cols, ren, done, table) matches Err(e) ==> e matches
            ErrorView::ColumnAlreadyExists(_, t) && t == table,
    decreases cols.len(),
{
    if cols.len() > 0 {
        let j = find_index(ren, cols[0].0);
        if j < ren.len() {
            lemma_find_index_found(ren, cols[0].0);
            if valid_name(ren[j].1) && !has_key(done, ren[j].1) {
                assert(forall|m: int|
                    0 <= m < ren.remove(j).len() ==> ren.remove(j)[m] == (if m < j {
                        ren[m]
                    } else {
                        ren[m + 1]
                    }));
                lemma_apply_renames_dup_error(
                    cols.drop_first(),
                    ren.remove(j),
                    done.push((ren[j].1, cols[0].1)),
                    table,
                );
            }
        } else {
            if !has_key(done, cols[0].0) {
                lemma_apply_renames_dup_error(cols.drop_first(), ren, done.push(cols[0]), table);
            }
        }
    }
}


/// No two entries of an association list share a key.
pub open spec fn unique_keys<T>(list: Seq<(Seq<char>, T)>) -> bool {
    forall|i: int, j: int|
        0 <= i < j < list.len() ==> (#[trigger] list[i]).0 != (#[trigger] list[j]).0
}

/// Whether no two entries share a key, exactly as `unique_keys` says.
pub fn check_unique_keys<T: DeepView>(list: &Vec<(String, T)>) -> (r: bool)
    ensures
        r == unique_keys(list.deep_view()),
{
    let n = list.len();
    let mut i: usize = 0;
    while i < n
        invariant
            0 <= i <= n,
            n == list@.len(),
            forall|x: int, y: int|
                0 <= x < y < i ==> (#[trigger] list.deep_view()[x]).0 != (
                #[trigger] list.deep_view()[y]).0,
        decreases n - i,
    {
        let mut j: usize = 0;
        while j < i
            invariant
                0 <= j <= i < n,
                n == list@.len(),
                forall|x: int, y: int|
                    0 <= x < y < i ==> (#[trigger] list.deep_view()[x]).0 != (
                    #[trigger] list.deep_view()[y]).0,
                forall|x: int|
                    0 <= x < j ==> (#[trigger] list.deep_view()[x]).0
                        != list.deep_view()[i as int].0,
            decreases i - j,
        {
            proof {
                assert(list.deep_view()[j as int].0 == list@[j as int].0@);
                assert(list.deep_view()[i as int].0 == list@[i as int].0@);
            }
            if list[j].0.eq(&list[i].0) {
                return false;
            }
            j = j + 1;
        }
        i = i + 1;
    }
    true
}

} // verus!
