use vstd::prelude::*;

use crate::btree::{last_of, rows_view, scan_tree, Row, RowModel, MAX_DEPTH};
use crate::error::DbError;
use crate::pager::Pager;
use crate::record::Value;

verus! {

/// A declared column: its name and its declared type (empty when none).
pub struct Column {
    pub name: Vec<u8>,
    pub ctype: Vec<u8>,
}

/// What a `Column` stands for.
pub type ColumnModel = (Seq<u8>, Seq<u8>);

impl View for Column {
    type V = ColumnModel;

    open spec fn view(&self) -> ColumnModel {
        (self.name@, self.ctype@)
    }
}

impl Column {
    pub fn new(name: &[u8], ctype: &[u8]) -> (r: Column)
        ensures
            r.name@ == name@,
            r.ctype@ == ctype@,
    {
        Column { name: vstd::slice::slice_to_vec(name), ctype: vstd::slice::slice_to_vec(ctype) }
    }
}

/// A schema entry: a table, or an index on table `tbl_name`.
pub struct Table {
    pub name: Vec<u8>,
    pub tbl_name: Vec<u8>,
    pub rootpage: u32,
    pub columns: Vec<Column>,
}

/// What a `Table` stands for: name, table name, root page, columns.
pub type TableModel = (Seq<u8>, Seq<u8>, u32, Seq<ColumnModel>);

pub open spec fn columns_view(c: Seq<Column>) -> Seq<ColumnModel> {
    c.map_values(|x: Column| x@)
}

pub open spec fn tables_view(t: Seq<Table>) -> Seq<TableModel> {
    t.map_values(|x: Table| x@)
}

impl View for Table {
    type V = TableModel;

    open spec fn view(&self) -> TableModel {
        (self.name@, self.tbl_name@, self.rootpage, columns_view(self.columns@))
    }
}

impl Table {
    pub fn new(name: &[u8], tbl_name: &[u8], rootpage: u32, columns: Vec<Column>) -> (r: Table)
        ensures
            r.name@ == name@,
            r.tbl_name@ == tbl_name@,
            r.rootpage == rootpage,
            r.columns@ == columns@,
    {
        Table {
            name: vstd::slice::slice_to_vec(name),
            tbl_name: vstd::slice::slice_to_vec(tbl_name),
            rootpage,
            columns,
        }
    }
}

pub open spec fn is_space(b: u8) -> bool {
    b == 32 || b == 9 || b == 10 || b == 13
}

/// Where the column-list tokenizer stands: the columns so far, the first two
/// words of the current comma-separated part, how many words it has had, and
/// the word being read.
pub struct ListState {
    pub cols: Seq<ColumnModel>,
    pub first: Seq<u8>,
    pub second: Seq<u8>,
    pub words: nat,
    pub cur: Seq<u8>,
}

/// Ends the word being read.
pub open spec fn end_word(st: ListState) -> ListState {
    if st.cur.len() == 0 {
        st
    } else if st.words == 0 {
        ListState { first: st.cur, words: 1, cur: seq![], ..st }
    } else if st.words == 1 {
        ListState { second: st.cur, words: 2, cur: seq![], ..st }
    } else {
        ListState { words: st.words + 1, cur: seq![], ..st }
    }
}

/// Ends the current part: one with a word gives a column named by its first
/// word, typed by its second.
pub open spec fn end_part(st: ListState) -> ListState {
    let w = end_word(st);
    ListState {
        cols: if w.words == 0 {
            w.cols
        } else {
            w.cols.push((w.first, w.second))
        },
        first: seq![],
        second: seq![],
        words: 0,
        cur: seq![],
    }
}

pub open spec fn list_step(st: ListState, b: u8) -> ListState {
    if b == 44 {
        end_part(st)
    } else if is_space(b) {
        end_word(st)
    } else {
        ListState { cur: st.cur.push(b), ..st }
    }
}

pub open spec fn list_start() -> ListState {
    ListState { cols: seq![], first: seq![], second: seq![], words: 0, cur: seq![] }
}

/// The tokenizer's state after the first `i` bytes of `s`.
pub open spec fn list_state(s: Seq<u8>, i: nat) -> ListState
    decreases i,
{
    if i == 0 || i > s.len() {
        list_start()
    } else {
        list_step(list_state(s, (i - 1) as nat), s[i - 1])
    }
}

/// The columns of a comma-separated list: for each part that holds a word,
/// its first word and its second (empty when there is none); words are
/// separated by spaces, tabs and line breaks.
pub open spec fn column_list(s: Seq<u8>) -> Seq<ColumnModel> {
    end_part(list_state(s, s.len())).cols
}

/// The text between the first `(` of `sql` and the last `)` after it.
pub open spec fn paren_tail(sql: Seq<u8>) -> Option<Seq<u8>> {
    if exists|o: int, c: int|
        0 <= o < c < sql.len() && sql[o] == 40 && sql[c] == 41 && (forall|j: int| 0 <= j < o ==> sql[j] != 40)
            && (forall|j: int| c < j < sql.len() ==> sql[j] != 41) {
        let (o, c) = choose|o: int, c: int|
            0 <= o < c < sql.len() && sql[o] == 40 && sql[c] == 41 && (forall|j: int| 0 <= j < o ==> sql[j] != 40)
                && (forall|j: int| c < j < sql.len() ==> sql[j] != 41);
        Some(sql.subrange(o + 1, c))
    } else {
        None
    }
}

/// The declared columns of a `CREATE TABLE` or `CREATE INDEX` text: the
/// column list of its parenthesised tail, none when it has no such tail.
pub open spec fn declared_columns(sql: Seq<u8>) -> Seq<ColumnModel> {
    match paren_tail(sql) {
        Some(t) => column_list(t),
        None => seq![],
    }
}

/// The tokenizer's state held in executable values.
struct ListCursor {
    cols: Vec<Column>,
    first: Vec<u8>,
    second: Vec<u8>,
    words: usize,
    cur: Vec<u8>,
}

impl ListCursor {
    spec fn model(&self) -> ListState {
        ListState {
            cols: columns_view(self.cols@),
            first: self.first@,
            second: self.second@,
            words: self.words as nat,
            cur: self.cur@,
        }
    }

    fn end_word(&mut self)
        requires
            old(self).words + old(self).cur@.len() <= usize::MAX,
        ensures
            final(self).model() == end_word(old(self).model()),
            final(self).words + final(self).cur@.len() <= old(self).words + old(self).cur@.len(),
    {
        if self.cur.len() == 0 {
            return;
        }
        let mut w: Vec<u8> = Vec::new();
        core::mem::swap(&mut w, &mut self.cur);
        if self.words == 0 {
            self.first = w;
        } else if self.words == 1 {
            self.second = w;
        }
        self.words = self.words + 1;
    }

    fn end_part(&mut self)
        requires
            old(self).words + old(self).cur@.len() <= usize::MAX,
        ensures
            final(self).model() == end_part(old(self).model()),
            final(self).words == 0,
    {
        self.end_word();
        if self.words > 0 {
            let mut first: Vec<u8> = Vec::new();
            core::mem::swap(&mut first, &mut self.first);
            let mut second: Vec<u8> = Vec::new();
            core::mem::swap(&mut second, &mut self.second);
            let ghost before = columns_view(self.cols@);
            self.cols.push(Column { name: first, ctype: second });
            assert(columns_view(self.cols@) =~= before.push((first@, second@)));
        } else {
            self.first = Vec::new();
            self.second = Vec::new();
        }
        self.words = 0;
        assert(self.first@ =~= seq![] && self.second@ =~= seq![] && self.cur@ =~= seq![]);
    }
}

/// Splits a column list (see `column_list`).
fn split_columns(t: &[u8]) -> (r: Vec<Column>)
    ensures
        columns_view(r@) == column_list(t@),
{
    let mut st = ListCursor { cols: Vec::new(), first: Vec::new(), second: Vec::new(), words: 0, cur: Vec::new() };
    assert(st.model().cols =~= seq![] && st.model().first =~= seq![] && st.model().second =~= seq![] && st.model().cur =~= seq![]);
    let mut i: usize = 0;
    while i < t.len()
        invariant
            i <= t@.len(),
            st.words + st.cur@.len() <= i,
            st.model() == list_state(t@, i as nat),
        decreases t@.len() - i,
    {
        let b = t[i];
        if b == 44 {
            st.end_part();
        } else if b == 32 || b == 9 || b == 10 || b == 13 {
            st.end_word();
        } else {
            let ghost before = st.cur@;
            st.cur.push(b);
            assert(st.model() =~= ListState { cur: before.push(b), ..list_state(t@, i as nat) });
        }
        i = i + 1;
    }
    st.end_part();
    st.cols
}

/// The columns that a `CREATE TABLE` or `CREATE INDEX` text declares (see
/// `declared_columns`).
pub fn parse_columns(sql: &[u8]) -> (r: Vec<Column>)
    ensures
        columns_view(r@) == declared_columns(sql@),
{
    let n = sql.len();
    let mut o: usize = 0;
    while o < n && sql[o] != 40
        invariant
            o <= n,
            n == sql@.len(),
            forall|j: int| 0 <= j < o ==> sql@[j] != 40,
        decreases n - o,
    {
        o = o + 1;
    }
    let mut c: usize = n;
    while c > 0 && c - 1 > o && sql[c - 1] != 41
        invariant
            o < c <= n || (o == n && c == n),
            n == sql@.len(),
            forall|j: int| c <= j < n ==> sql@[j] != 41,
        decreases c,
    {
        c = c - 1;
    }
    if o >= n || c - 1 <= o {
        assert(paren_tail(sql@) is None) by {
            if exists|o2: int, c2: int|
                0 <= o2 < c2 < sql@.len() && sql@[o2] == 40 && sql@[c2] == 41 && (forall|j: int| 0 <= j < o2 ==> sql@[j] != 40)
                    && (forall|j: int| c2 < j < sql@.len() ==> sql@[j] != 41) {
                let (o2, c2) = choose|o2: int, c2: int|
                    0 <= o2 < c2 < sql@.len() && sql@[o2] == 40 && sql@[c2] == 41 && (forall|j: int| 0 <= j < o2 ==> sql@[j] != 40)
                        && (forall|j: int| c2 < j < sql@.len() ==> sql@[j] != 41);
                if o2 < o {
                } else if o2 > o {
                    assert(sql@[o as int] != 40);
                } else {
                    assert(sql@[c2] != 41);
                }
            }
        }
        return Vec::new();
    }
    let ghost cc = (c - 1) as int;
    assert(sql@[o as int] == 40 && sql@[cc] == 41);
    assert(forall|j: int| cc < j < sql@.len() ==> sql@[j] != 41);
    let t = vstd::slice::slice_subrange(sql, o + 1, c - 1);
    proof {
        let (o2, c2) = choose|o2: int, c2: int|
            0 <= o2 < c2 < sql@.len() && sql@[o2] == 40 && sql@[c2] == 41 && (forall|j: int| 0 <= j < o2 ==> sql@[j] != 40)
                && (forall|j: int| c2 < j < sql@.len() ==> sql@[j] != 41);
        if o2 < o {
            assert(sql@[o2] != 40);
        } else if o2 > o {
            assert(sql@[o as int] != 40);
        }
        if c2 < cc {
            assert(sql@[cc] != 41);
        } else if c2 > cc {
            assert(sql@[c2] != 41);
        }
    }
    split_columns(t)
}

/// The word `table`.
pub open spec fn word_table() -> Seq<u8> {
    seq![116u8, 97, 98, 108, 101]
}

/// The word `index`.
pub open spec fn word_index() -> Seq<u8> {
    seq![105u8, 110, 100, 101, 120]
}

/// The name `sqlite_sequence`.
pub open spec fn word_sequence() -> Seq<u8> {
    seq![115u8, 113, 108, 105, 116, 101, 95, 115, 101, 113, 117, 101, 110, 99, 101]
}

/// The schema entry that a row of the schema table holds (type, name,
/// tbl_name, rootpage, sql), with whether it is a table; `None` for a row of
/// another type and for the table `sqlite_sequence`. A table or index row
/// whose fields are not of the expected kinds is a corrupt page.
pub open spec fn schema_entry(row: RowModel) -> Result<Option<(bool, TableModel)>, DbError> {
    let v = row.1;
    if v.len() != 5 {
        Err(DbError::CorruptPage)
    } else if !(v[0] is Text && (v[0]->Text_0 == word_table() || v[0]->Text_0 == word_index())) {
        Ok(None)
    } else if !(v[1] is Text && v[2] is Text && v[3] is Integer && 0 <= v[3]->Integer_0 <= u32::MAX
        && (v[4] is Text || v[4] is Null)) {
        Err(DbError::CorruptPage)
    } else {
        let is_table = v[0]->Text_0 == word_table();
        let name = v[1]->Text_0;
        if is_table && name == word_sequence() {
            Ok(None)
        } else {
            let cols = if v[4] is Text {
                declared_columns(v[4]->Text_0)
            } else {
                seq![]
            };
            Ok(Some((is_table, (name, v[2]->Text_0, v[3]->Integer_0 as u32, cols))))
        }
    }
}

/// The tables (`want_tables`) or the indices that the schema rows describe, in row order.
pub open spec fn schema_list(rows: Seq<RowModel>, want_tables: bool) -> Result<Seq<TableModel>, DbError>
    decreases rows.len(),
{
    if rows.len() == 0 {
        Ok(seq![])
    } else {
        match schema_list(rows.drop_last(), want_tables) {
            Err(e) => Err(e),
            Ok(ts) => match schema_entry(rows.last()) {
                Err(e) => Err(e),
                Ok(Some((is_table, t))) => if is_table == want_tables {
                    Ok(ts.push(t))
                } else {
                    Ok(ts)
                },
                Ok(None) => Ok(ts),
            },
        }
    }
}

/// The tables and indices of the database file `s`, whose schema table is
/// rooted at page 1.
pub open spec fn schema_of(s: Seq<u8>, ps: nat) -> Result<(Seq<TableModel>, Seq<TableModel>), DbError> {
    match scan_tree(s, ps, 1, MAX_DEPTH as nat, 5, None) {
        Err(e) => Err(e),
        Ok(rows) => match schema_list(rows, true) {
            Err(e) => Err(e),
            Ok(tables) => match schema_list(rows, false) {
                Err(e) => Err(e),
                Ok(indices) => Ok((tables, indices)),
            },
        },
    }
}

/// Byte-wise equality.
pub fn bytes_eq(a: &[u8], b: &[u8]) -> (r: bool)
    ensures
        r == (a@ == b@),
{
    if a.len() != b.len() {
        return false;
    }
    let mut i: usize = 0;
    while i < a.len()
        invariant
            a@.len() == b@.len(),
            i <= a@.len(),
            forall|j: int| 0 <= j < i ==> a@[j] == b@[j],
        decreases a@.len() - i,
    {
        if a[i] != b[i] {
            return false;
        }
        i = i + 1;
    }
    assert(a@ =~= b@);
    true
}

fn text_is(v: &Value, w: &[u8]) -> (r: bool)
    ensures
        r == (v@ is Text && v@->Text_0 == w@),
{
    match v {
        Value::Text(t) => bytes_eq(t.as_slice(), w),
        _ => false,
    }
}

fn read_schema_entry(row: &Row) -> (r: Result<Option<(bool, Table)>, DbError>)
    ensures
        match schema_entry(row@) {
            Ok(Some((is_table, t))) => r is Ok && r->Ok_0 is Some && r->Ok_0->Some_0.0 == is_table
                && r->Ok_0->Some_0.1@ == t,
            Ok(None) => r is Ok && r->Ok_0 is None,
            Err(e) => r == Err::<Option<(bool, Table)>, DbError>(e),
        },
{
    let v = &row.values;
    if v.len() != 5 {
        return Err(DbError::CorruptPage);
    }
    let table_word: [u8; 5] = [116, 97, 98, 108, 101];
    let index_word: [u8; 5] = [105, 110, 100, 101, 120];
    let sequence_word: [u8; 15] = [115, 113, 108, 105, 116, 101, 95, 115, 101, 113, 117, 101, 110, 99, 101];
    assert(table_word@ =~= word_table());
    assert(index_word@ =~= word_index());
    assert(sequence_word@ =~= word_sequence());
    assert(v@[0]@ == row@.1[0] && v@[1]@ == row@.1[1] && v@[2]@ == row@.1[2]);
    assert(v@[3]@ == row@.1[3] && v@[4]@ == row@.1[4]);
    let is_table = text_is(&v[0], table_word.as_slice());
    if !is_table && !text_is(&v[0], index_word.as_slice()) {
        return Ok(None);
    }
    let name = match &v[1] {
        Value::Text(t) => t,
        _ => {
            return Err(DbError::CorruptPage);
        },
    };
    let tbl_name = match &v[2] {
        Value::Text(t) => t,
        _ => {
            return Err(DbError::CorruptPage);
        },
    };
    let root = match &v[3] {
        Value::Integer(r) => *r,
        _ => {
            return Err(DbError::CorruptPage);
        },
    };
    if root < 0 || root > 0xffff_ffff {
        return Err(DbError::CorruptPage);
    }
    let cols = match &v[4] {
        Value::Text(sql) => parse_columns(sql.as_slice()),
        Value::Null => {
            let c: Vec<Column> = Vec::new();
            assert(columns_view(c@) =~= seq![]);
            c
        },
        _ => {
            return Err(DbError::CorruptPage);
        },
    };
    if is_table && bytes_eq(name.as_slice(), sequence_word.as_slice()) {
        return Ok(None);
    }
    Ok(Some((is_table, Table::new(name.as_slice(), tbl_name.as_slice(), root as u32, cols))))
}

/// The tables and the indices that the schema table on page 1 lists, in
/// file order (see `schema_of`).
pub fn get_table_info(pager: &Pager) -> (r: Result<(Vec<Table>, Vec<Table>), DbError>)
    requires
        pager.wf(),
    ensures
        match schema_of(pager.file(), pager.page_size as nat) {
            Ok((tables, indices)) => r is Ok && tables_view(r->Ok_0.0@) == tables && tables_view(r->Ok_0.1@) == indices,
            Err(e) => r == Err::<(Vec<Table>, Vec<Table>), DbError>(e),
        },
{
    let mut rows: Vec<Row> = Vec::new();
    assert(rows_view(rows@) =~= seq![]);
    assert(last_of(rows_view(rows@)) == None::<i64>);
    match pager.scan_table(1, MAX_DEPTH, 5, &mut rows) {
        Err(e) => {
            return Err(e);
        },
        Ok(()) => {},
    }
    let ghost all = rows_view(rows@);
    proof {
        match scan_tree(pager.file(), pager.page_size as nat, 1, MAX_DEPTH as nat, 5, None) {
            Ok(rs) => {
                assert(seq![] + rs =~= rs);
                assert(rs =~= all);
            },
            Err(_) => {},
        }
    }
    let mut tables: Vec<Table> = Vec::new();
    let mut indices: Vec<Table> = Vec::new();
    let mut i: usize = 0;
    assert(all.subrange(0, 0) =~= seq![]);
    assert(tables_view(tables@) =~= seq![]);
    assert(tables_view(indices@) =~= seq![]);
    while i < rows.len()
        invariant
            all == rows_view(rows@),
            scan_tree(pager.file(), pager.page_size as nat, 1, MAX_DEPTH as nat, 5, None) == Ok::<Seq<RowModel>, DbError>(all),
            i <= rows@.len(),
            schema_list(all.subrange(0, i as int), true) == Ok::<Seq<TableModel>, DbError>(tables_view(tables@)),
            schema_list(all.subrange(0, i as int), false) == Ok::<Seq<TableModel>, DbError>(tables_view(indices@)),
        decreases rows@.len() - i,
    {
        let ghost pre = all.subrange(0, i + 1);
        assert(pre.drop_last() =~= all.subrange(0, i as int));
        assert(pre.last() == rows@[i as int]@);
        match read_schema_entry(&rows[i]) {
            Err(e) => {
                proof {
                    lemma_schema_list_err(all, (i + 1) as nat, e);
                }
                return Err(e);
            },
            Ok(None) => {},
            Ok(Some((is_table, t))) => {
                if is_table {
                    let ghost before = tables_view(tables@);
                    tables.push(t);
                    assert(tables_view(tables@) =~= before.push(t@));
                } else {
                    let ghost before = tables_view(indices@);
                    indices.push(t);
                    assert(tables_view(indices@) =~= before.push(t@));
                }
            },
        }
        i = i + 1;
    }
    assert(all.subrange(0, i as int) =~= all);
    Ok((tables, indices))
}

/// An entry that fails makes the whole list fail, whatever follows it.
proof fn lemma_schema_list_err(rows: Seq<RowModel>, n: nat, e: DbError)
    requires
        1 <= n <= rows.len(),
        schema_list(rows.subrange(0, n as int - 1), true) is Ok,
        schema_list(rows.subrange(0, n as int - 1), false) is Ok,
        schema_entry(rows[n - 1]) == Err::<Option<(bool, TableModel)>, DbError>(e),
    ensures
        schema_list(rows, true) == Err::<Seq<TableModel>, DbError>(e),
        schema_list(rows, false) == Err::<Seq<TableModel>, DbError>(e),
    decreases rows.len() - n,
{
    let pre = rows.subrange(0, n as int);
    assert(pre.drop_last() =~= rows.subrange(0, n as int - 1));
    if n == rows.len() {
        assert(pre =~= rows);
    } else {
        lemma_schema_list_err_ext(rows, n, e);
    }
}

proof fn lemma_schema_list_err_ext(rows: Seq<RowModel>, n: nat, e: DbError)
    requires
        1 <= n <= rows.len(),
        schema_list(rows.subrange(0, n as int), true) == Err::<Seq<TableModel>, DbError>(e),
        schema_list(rows.subrange(0, n as int), false) == Err::<Seq<TableModel>, DbError>(e),
    ensures
        schema_list(rows, true) == Err::<Seq<TableModel>, DbError>(e),
        schema_list(rows, false) == Err::<Seq<TableModel>, DbError>(e),
    decreases rows.len() - n,
{
    if n == rows.len() {
        assert(rows.subrange(0, n as int) =~= rows);
    } else {
        let next = rows.subrange(0, n as int + 1);
        assert(next.drop_last() =~= rows.subrange(0, n as int));
        lemma_schema_list_err_ext(rows, n + 1, e);
    }
}

} // verus!
