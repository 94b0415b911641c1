use vstd::prelude::*;

use crate::ast::{ExprModel, Literal, LiteralModel, SelectItem, SelectItemModel, SelectStatement, Expr};
use crate::btree::{lookup_tree, rows_view, scan_tree, Row, RowModel, MAX_DEPTH};
use crate::error::DbError;
use crate::index::index_tree;
use crate::pager::Pager;
use crate::record::{values_view, Value, ValueModel};
use crate::schema::{bytes_eq, columns_view, tables_view, ColumnModel, Table, TableModel};

verus! {

/// The column name `id`, which stands for the rowid.
pub open spec fn word_id() -> Seq<u8> {
    seq![105u8, 100]
}

/// Position of the first table named `name`, from `k` on.
pub open spec fn find_table(tables: Seq<TableModel>, name: Seq<u8>, k: int) -> Option<int>
    decreases tables.len() - k,
{
    if k < 0 || k >= tables.len() {
        None
    } else if tables[k].0 == name {
        Some(k)
    } else {
        find_table(tables, name, k + 1)
    }
}

/// Position of the first column named `name`, from `k` on.
pub open spec fn column_pos(cols: Seq<ColumnModel>, name: Seq<u8>, k: int) -> Option<int>
    decreases cols.len() - k,
{
    if k < 0 || k >= cols.len() {
        None
    } else if cols[k].0 == name {
        Some(k)
    } else {
        column_pos(cols, name, k + 1)
    }
}

/// Position of the first index on table `table` whose first column is `col`, from `k` on.
pub open spec fn index_for(indices: Seq<TableModel>, table: Seq<u8>, col: Seq<u8>, k: int) -> Option<int>
    decreases indices.len() - k,
{
    if k < 0 || k >= indices.len() {
        None
    } else if indices[k].1 == table && indices[k].3.len() > 0 && indices[k].3[0].0 == col {
        Some(k)
    } else {
        index_for(indices, table, col, k + 1)
    }
}

/// The column positions that the select list projects: every column for
/// `*`, the named column for an identifier; `COUNT(*)` and other literals
/// add none.
pub open spec fn projection(items: Seq<SelectItemModel>, cols: Seq<ColumnModel>) -> Result<Seq<int>, DbError>
    decreases items.len(),
{
    if items.len() == 0 {
        Ok(seq![])
    } else {
        match projection(items.drop_last(), cols) {
            Err(e) => Err(e),
            Ok(idx) => match items.last() {
                SelectItemModel::Star => Ok(idx + Seq::new(cols.len(), |j: int| j)),
                SelectItemModel::Literal(LiteralModel::Ident(n)) => match column_pos(cols, n, 0) {
                    Some(j) => Ok(idx.push(j)),
                    None => Err(DbError::UnknownColumn),
                },
                _ => Ok(idx),
            },
        }
    }
}

/// The select list asks for `COUNT(*)`.
pub open spec fn has_count(items: Seq<SelectItemModel>) -> bool {
    exists|j: int| 0 <= j < items.len() && items[j] is Count
}

/// The `WHERE` clause as a column position and a literal to compare with.
pub open spec fn predicate(w: Option<ExprModel>, cols: Seq<ColumnModel>) -> Result<Option<(int, LiteralModel)>, DbError> {
    match w {
        None => Ok(None),
        Some(ExprModel::Equality { column: LiteralModel::Ident(c), condition }) => match column_pos(cols, c, 0) {
            Some(j) => Ok(Some((j, condition))),
            None => Err(DbError::UnknownColumn),
        },
        Some(_) => Err(DbError::Unsupported),
    }
}

/// A column value equals a literal: integers by value, text byte for byte;
/// nothing else is ever equal (NULL included).
pub open spec fn value_matches(v: ValueModel, lit: LiteralModel) -> bool {
    match (v, lit) {
        (ValueModel::Integer(a), LiteralModel::IntegerLiteral(b)) => a == b,
        (ValueModel::Text(a), LiteralModel::StringLiteral(b)) => a == b,
        _ => false,
    }
}

/// The index key that a literal searches for, if it can be one.
pub open spec fn literal_key(lit: LiteralModel) -> Option<ValueModel> {
    match lit {
        LiteralModel::IntegerLiteral(n) => Some(ValueModel::Integer(n)),
        LiteralModel::StringLiteral(t) => Some(ValueModel::Text(t)),
        _ => None,
    }
}

/// The values of a row with each column named `id` holding the rowid.
pub open spec fn with_alias(vals: Seq<ValueModel>, cols: Seq<ColumnModel>, rowid: i64) -> Seq<ValueModel> {
    Seq::new(vals.len(), |k: int| if k < cols.len() && cols[k].0 == word_id() { ValueModel::Integer(rowid) } else { vals[k] })
}

/// The rows (values with the rowid alias filled in) that pass the predicate.
pub open spec fn keep_rows(rows: Seq<RowModel>, cols: Seq<ColumnModel>, pred: Option<(int, LiteralModel)>) -> Seq<Seq<ValueModel>>
    decreases rows.len(),
{
    if rows.len() == 0 {
        seq![]
    } else {
        let kept = keep_rows(rows.drop_last(), cols, pred);
        let r = with_alias(rows.last().1, cols, rows.last().0);
        match pred {
            None => kept.push(r),
            Some((k, lit)) => if 0 <= k < r.len() && value_matches(r[k], lit) {
                kept.push(r)
            } else {
                kept
            },
        }
    }
}

/// The rows of the table B-tree rooted at `root` with the rowids `ids`, in
/// that order; a rowid with no row gives none.
pub open spec fn fetch_rows(s: Seq<u8>, ps: nat, root: int, ncols: nat, ids: Seq<i64>) -> Result<Seq<RowModel>, DbError>
    decreases ids.len(),
{
    if ids.len() == 0 {
        Ok(seq![])
    } else {
        match fetch_rows(s, ps, root, ncols, ids.drop_last()) {
            Err(e) => Err(e),
            Ok(rows) => match lookup_tree(s, ps, root, MAX_DEPTH as nat, ncols, ids.last()) {
                Err(e) => Err(e),
                Ok(Some(row)) => Ok(rows.push(row)),
                Ok(None) => Ok(rows),
            },
        }
    }
}

/// The rows a plan visits: through the index whose first column is the
/// predicate's when there is one and the literal can be a key, else a full scan.
pub open spec fn candidate_rows(s: Seq<u8>, ps: nat, t: TableModel, indices: Seq<TableModel>, pred: Option<(int, LiteralModel)>) -> Result<Seq<RowModel>, DbError> {
    let ncols = t.3.len();
    match pred {
        Some((k, lit)) => if 0 <= k < ncols && index_for(indices, t.0, t.3[k].0, 0) is Some && literal_key(lit) is Some {
            let ix = indices[index_for(indices, t.0, t.3[k].0, 0)->Some_0];
            match index_tree(s, ps, ix.2 as int, MAX_DEPTH as nat, ix.3.len(), literal_key(lit)->Some_0) {
                Err(e) => Err(e),
                Ok(ids) => fetch_rows(s, ps, t.2 as int, ncols, ids),
            }
        } else {
            scan_tree(s, ps, t.2 as int, MAX_DEPTH as nat, ncols, None)
        },
        None => scan_tree(s, ps, t.2 as int, MAX_DEPTH as nat, ncols, None),
    }
}

/// The values at positions `idx` (NULL for a position past the end).
pub open spec fn project(vals: Seq<ValueModel>, idx: Seq<int>) -> Seq<ValueModel> {
    Seq::new(idx.len(), |j: int| if 0 <= idx[j] < vals.len() { vals[idx[j]] } else { ValueModel::Null })
}

/// What a `SELECT` gives on database `s`: one value list per output line.
pub open spec fn select_result(s: Seq<u8>, ps: nat, tables: Seq<TableModel>, indices: Seq<TableModel>, stmt: crate::ast::SelectModel) -> Result<Seq<Seq<ValueModel>>, DbError> {
    match find_table(tables, stmt.table, 0) {
        None => Err(DbError::UnknownTable),
        Some(ti) => {
            let t = tables[ti];
            if t.2 <= 1 {
                Err(DbError::UnknownTable)
            } else {
                match projection(stmt.columns, t.3) {
                    Err(e) => Err(e),
                    Ok(idx) => match predicate(stmt.where_expr, t.3) {
                        Err(e) => Err(e),
                        Ok(pred) => match candidate_rows(s, ps, t, indices, pred) {
                            Err(e) => Err(e),
                            Ok(rows) => {
                                let kept = keep_rows(rows, t.3, pred);
                                if has_count(stmt.columns) {
                                    Ok(seq![seq![ValueModel::Integer(kept.len() as i64)]])
                                } else {
                                    Ok(Seq::new(kept.len(), |j: int| project(kept[j], idx)))
                                }
                            },
                        },
                    },
                }
            }
        },
    }
}

/// The models of a list of output lines.
pub open spec fn lines_view(v: Seq<Vec<Value>>) -> Seq<Seq<ValueModel>> {
    v.map_values(|r: Vec<Value>| values_view(r@))
}

fn find_table_exec(tables: &Vec<Table>, name: &[u8]) -> (r: Option<usize>)
    ensures
        r is Some ==> r->Some_0 < tables@.len(),
        match find_table(tables_view(tables@), name@, 0) {
            Some(k) => r is Some && r->Some_0 as int == k,
            None => r is None,
        },
{
    let ghost tv = tables_view(tables@);
    let mut k: usize = 0;
    while k < tables.len()
        invariant
            tv == tables_view(tables@),
            k <= tables@.len(),
            find_table(tv, name@, 0) == find_table(tv, name@, k as int),
        decreases tables@.len() - k,
    {
        if bytes_eq(tables[k].name.as_slice(), name) {
            return Some(k);
        }
        k = k + 1;
    }
    None
}

fn column_pos_exec(cols: &Vec<crate::schema::Column>, name: &[u8]) -> (r: Option<usize>)
    ensures
        r is Some ==> r->Some_0 < cols@.len(),
        match column_pos(columns_view(cols@), name@, 0) {
            Some(k) => r is Some && r->Some_0 as int == k,
            None => r is None,
        },
{
    let ghost cv = columns_view(cols@);
    let mut k: usize = 0;
    while k < cols.len()
        invariant
            cv == columns_view(cols@),
            k <= cols@.len(),
            column_pos(cv, name@, 0) == column_pos(cv, name@, k as int),
        decreases cols@.len() - k,
    {
        if bytes_eq(cols[k].name.as_slice(), name) {
            return Some(k);
        }
        k = k + 1;
    }
    None
}

fn index_for_exec(indices: &Vec<Table>, table: &[u8], col: &[u8]) -> (r: Option<usize>)
    ensures
        r is Some ==> r->Some_0 < indices@.len(),
        match index_for(tables_view(indices@), table@, col@, 0) {
            Some(k) => r is Some && r->Some_0 as int == k,
            None => r is None,
        },
{
    let ghost iv = tables_view(indices@);
    let mut k: usize = 0;
    while k < indices.len()
        invariant
            iv == tables_view(indices@),
            k <= indices@.len(),
            index_for(iv, table@, col@, 0) == index_for(iv, table@, col@, k as int),
        decreases indices@.len() - k,
    {
        let ix = &indices[k];
        if bytes_eq(ix.tbl_name.as_slice(), table) && ix.columns.len() > 0 && bytes_eq(ix.columns[0].name.as_slice(), col) {
            return Some(k);
        }
        k = k + 1;
    }
    None
}

pub open spec fn positions_view(v: Seq<usize>) -> Seq<int> {
    v.map_values(|x: usize| x as int)
}

/// Appends the positions `0..n` to `idx`.
fn push_all_columns(idx: &mut Vec<usize>, n: usize)
    ensures
        positions_view(final(idx)@) == positions_view(old(idx)@) + Seq::new(n as nat, |m: int| m),
        forall|m: int| 0 <= m < final(idx)@.len() ==> (#[trigger] final(idx)@[m] < n || (m < old(idx)@.len() && final(idx)@[m] == old(idx)@[m])),
{
    let ghost before = positions_view(idx@);
    let ghost old_idx = idx@;
    let mut j: usize = 0;
    assert(before + Seq::new(0, |m: int| m) =~= before);
    while j < n
        invariant
            j <= n,
            old_idx.len() <= idx@.len(),
            positions_view(idx@) == before + Seq::new(j as nat, |m: int| m),
            forall|m: int| 0 <= m < idx@.len() ==> (#[trigger] idx@[m] < n || (m < old_idx.len() && idx@[m] == old_idx[m])),
        decreases n - j,
    {
        let ghost prev = positions_view(idx@);
        idx.push(j);
        assert(positions_view(idx@) =~= prev.push(j as int));
        assert(before + Seq::new((j + 1) as nat, |m: int| m) =~= (before + Seq::new(j as nat, |m: int| m)).push(j as int));
        j = j + 1;
    }
}

fn projection_exec(items: &Vec<SelectItem>, cols: &Vec<crate::schema::Column>) -> (r: Result<Vec<usize>, DbError>)
    ensures
        match projection(crate::ast::items_view(items@), columns_view(cols@)) {
            Ok(idx) => r is Ok && positions_view(r->Ok_0@) == idx && (forall|j: int| 0 <= j < idx.len() ==> 0 <= #[trigger] idx[j] < cols@.len()),
            Err(e) => r == Err::<Vec<usize>, DbError>(e),
        },
{
    let ghost iv = crate::ast::items_view(items@);
    let ghost cv = columns_view(cols@);
    let mut idx: Vec<usize> = Vec::new();
    let mut i: usize = 0;
    assert(iv.subrange(0, 0) =~= seq![]);
    assert(positions_view(idx@) =~= seq![]);
    while i < items.len()
        invariant
            iv == crate::ast::items_view(items@),
            cv == columns_view(cols@),
            i <= items@.len(),
            projection(iv.subrange(0, i as int), cv) == Ok::<Seq<int>, DbError>(positions_view(idx@)),
            forall|j: int| 0 <= j < idx@.len() ==> #[trigger] idx@[j] < cols@.len(),
        decreases items@.len() - i,
    {
        let ghost pre = iv.subrange(0, i + 1);
        assert(pre.drop_last() =~= iv.subrange(0, i as int));
        assert(pre.last() == items@[i as int]@);
        let ghost before = positions_view(idx@);
        match &items[i] {
            SelectItem::Star => {
                push_all_columns(&mut idx, cols.len());
                assert(cv.len() == cols@.len());
                assert(projection(pre, cv) == Ok::<Seq<int>, DbError>(positions_view(idx@)));
            },
            SelectItem::Count => {
                assert(projection(pre, cv) == Ok::<Seq<int>, DbError>(positions_view(idx@)));
            },
            SelectItem::Literal(Literal::Ident(n)) => {
                match column_pos_exec(cols, n.as_slice()) {
                    None => {
                        proof {
                            assert(projection(pre, cv) == Err::<Seq<int>, DbError>(DbError::UnknownColumn));
                            lemma_projection_err(iv, cv, (i + 1) as nat);
                        }
                        return Err(DbError::UnknownColumn);
                    },
                    Some(j) => {
                        proof {
                            lemma_column_pos_bound(cv, n@, 0);
                        }
                        assert(pre.last() == SelectItemModel::Literal(LiteralModel::Ident(n@)));
                        assert(column_pos(cv, n@, 0) == Some(j as int));
                        idx.push(j);
                        assert(positions_view(idx@) =~= before.push(j as int));
                        assert(projection(pre, cv) == Ok::<Seq<int>, DbError>(positions_view(idx@)));
                    },
                }
            },
            SelectItem::Literal(_) => {
                assert(projection(pre, cv) == Ok::<Seq<int>, DbError>(positions_view(idx@)));
            },
        }
        i = i + 1;
    }
    assert(iv.subrange(0, i as int) =~= iv);
    Ok(idx)
}

proof fn lemma_column_pos_bound(cols: Seq<ColumnModel>, name: Seq<u8>, k: int)
    ensures
        column_pos(cols, name, k) is Some ==> 0 <= column_pos(cols, name, k)->Some_0 < cols.len()
            && cols[column_pos(cols, name, k)->Some_0].0 == name,
    decreases cols.len() - k,
{
    if 0 <= k < cols.len() && cols[k].0 != name {
        lemma_column_pos_bound(cols, name, k + 1);
    }
}

/// A failing item makes the whole projection fail.
proof fn lemma_projection_err(items: Seq<SelectItemModel>, cols: Seq<ColumnModel>, n: nat)
    requires
        1 <= n <= items.len(),
        projection(items.subrange(0, n as int), cols) == Err::<Seq<int>, DbError>(DbError::UnknownColumn),
    ensures
        projection(items, cols) == Err::<Seq<int>, DbError>(DbError::UnknownColumn),
    decreases items.len() - n,
{
    let pre = items.subrange(0, n as int);
    if n == items.len() {
        assert(pre =~= items);
    } else {
        let next = items.subrange(0, n as int + 1);
        assert(next.drop_last() =~= pre);
        lemma_projection_err(items, cols, n + 1);
    }
}

fn has_count_exec(items: &Vec<SelectItem>) -> (r: bool)
    ensures
        r == has_count(crate::ast::items_view(items@)),
{
    let ghost iv = crate::ast::items_view(items@);
    let mut i: usize = 0;
    while i < items.len()
        invariant
            iv == crate::ast::items_view(items@),
            i <= items@.len(),
            forall|j: int| 0 <= j < i ==> !(#[trigger] iv[j] is Count),
        decreases items@.len() - i,
    {
        if let SelectItem::Count = &items[i] {
            assert(iv[i as int] is Count);
            return true;
        }
        i = i + 1;
    }
    false
}

fn value_matches_exec(v: &Value, lit: &Literal) -> (r: bool)
    ensures
        r == value_matches(v@, lit@),
{
    match (v, lit) {
        (Value::Integer(a), Literal::IntegerLiteral(b)) => *a == *b,
        (Value::Text(a), Literal::StringLiteral(b)) => bytes_eq(a.as_slice(), b.as_slice()),
        _ => false,
    }
}

fn literal_key_exec(lit: &Literal) -> (r: Option<Value>)
    ensures
        match literal_key(lit@) {
            Some(k) => r is Some && r->Some_0@ == k,
            None => r is None,
        },
{
    match lit {
        Literal::IntegerLiteral(n) => Some(Value::Integer(*n)),
        Literal::StringLiteral(t) => Some(Value::Text(vstd::slice::slice_to_vec(t.as_slice()))),
        _ => None,
    }
}

fn copy_value(v: &Value) -> (r: Value)
    ensures
        r@ == v@,
{
    match v {
        Value::Null => Value::Null,
        Value::Integer(i) => Value::Integer(*i),
        Value::Real(b) => Value::Real(*b),
        Value::Text(t) => Value::Text(vstd::slice::slice_to_vec(t.as_slice())),
        Value::Blob(b) => Value::Blob(vstd::slice::slice_to_vec(b.as_slice())),
    }
}

/// The values of a row with its rowid alias columns filled in.
fn alias_row(row: &Row, cols: &Vec<crate::schema::Column>) -> (r: Vec<Value>)
    ensures
        values_view(r@) == with_alias(row@.1, columns_view(cols@), row.rowid),
{
    let ghost cv = columns_view(cols@);
    let ghost want = with_alias(row@.1, cv, row.rowid);
    let id_word: [u8; 2] = [105, 100];
    assert(id_word@ =~= word_id());
    let mut out: Vec<Value> = Vec::new();
    let mut k: usize = 0;
    while k < row.values.len()
        invariant
            cv == columns_view(cols@),
            want == with_alias(row@.1, cv, row.rowid),
            id_word@ == word_id(),
            k <= row.values@.len(),
            values_view(out@) == want.subrange(0, k as int),
        decreases row.values@.len() - k,
    {
        let is_id = k < cols.len() && bytes_eq(cols[k].name.as_slice(), id_word.as_slice());
        let v = if is_id {
            Value::Integer(row.rowid)
        } else {
            copy_value(&row.values[k])
        };
        let ghost prev = values_view(out@);
        out.push(v);
        proof {
            assert(is_id == (k < cv.len() && cv[k as int].0 == word_id()));
            assert(values_view(out@) =~= prev.push(v@));
            assert(want.subrange(0, k + 1) =~= want.subrange(0, k as int).push(want[k as int]));
        }
        k = k + 1;
    }
    assert(want.subrange(0, k as int) =~= want);
    out
}

fn predicate_exec<'a>(w: &'a Option<Expr>, cols: &Vec<crate::schema::Column>) -> (r: Result<Option<(usize, &'a Literal)>, DbError>)
    ensures
        match predicate(
            match w {
                Some(e) => Some(e@),
                None => None,
            },
            columns_view(cols@),
        ) {
            Ok(Some((k, lit))) => r is Ok && r->Ok_0 is Some && r->Ok_0->Some_0.0 as int == k && r->Ok_0->Some_0.1@ == lit,
            Ok(None) => r is Ok && r->Ok_0 is None,
            Err(e) => r == Err::<Option<(usize, &Literal)>, DbError>(e),
        },
{
    match w {
        None => Ok(None),
        Some(Expr::Equality { column: Literal::Ident(c), condition }) => match column_pos_exec(cols, c.as_slice()) {
            Some(k) => Ok(Some((k, condition))),
            None => Err(DbError::UnknownColumn),
        },
        Some(_) => Err(DbError::Unsupported),
    }
}

impl Pager {
    fn fetch_rows_exec(&self, root: u32, ncols: usize, ids: &Vec<i64>) -> (r: Result<Vec<Row>, DbError>)
        requires
            self.wf(),
        ensures
            match fetch_rows(self.file(), self.page_size as nat, root as int, ncols as nat, ids@) {
                Ok(rows) => r is Ok && rows_view(r->Ok_0@) == rows,
                Err(e) => r == Err::<Vec<Row>, DbError>(e),
            },
    {
        let ghost s = self.file();
        let ghost ps = self.page_size as nat;
        let mut rows: Vec<Row> = Vec::new();
        let mut i: usize = 0;
        assert(ids@.subrange(0, 0) =~= seq![]);
        assert(rows_view(rows@) =~= seq![]);
        while i < ids.len()
            invariant
                self.wf(),
                s == self.file(),
                ps == self.page_size as nat,
                i <= ids@.len(),
                fetch_rows(s, ps, root as int, ncols as nat, ids@.subrange(0, i as int)) == Ok::<Seq<RowModel>, DbError>(rows_view(rows@)),
            decreases ids@.len() - i,
        {
            let ghost pre = ids@.subrange(0, i + 1);
            assert(pre.drop_last() =~= ids@.subrange(0, i as int));
            match self.lookup_table(root, MAX_DEPTH, ncols, ids[i]) {
                Err(e) => {
                    proof {
                        lemma_fetch_err(s, ps, root as int, ncols as nat, ids@, (i + 1) as nat, e);
                    }
                    return Err(e);
                },
                Ok(None) => {},
                Ok(Some(row)) => {
                    let ghost prev = rows_view(rows@);
                    rows.push(row);
                    assert(rows_view(rows@) =~= prev.push(row@));
                },
            }
            i = i + 1;
        }
        assert(ids@.subrange(0, i as int) =~= ids@);
        Ok(rows)
    }
}

proof fn lemma_fetch_err(s: Seq<u8>, ps: nat, root: int, ncols: nat, ids: Seq<i64>, n: nat, e: DbError)
    requires
        1 <= n <= ids.len(),
        fetch_rows(s, ps, root, ncols, ids.subrange(0, n as int)) == Err::<Seq<RowModel>, DbError>(e),
    ensures
        fetch_rows(s, ps, root, ncols, ids) == Err::<Seq<RowModel>, DbError>(e),
    decreases ids.len() - n,
{
    if n == ids.len() {
        assert(ids.subrange(0, n as int) =~= ids);
    } else {
        let next = ids.subrange(0, n as int + 1);
        assert(next.drop_last() =~= ids.subrange(0, n as int));
        lemma_fetch_err(s, ps, root, ncols, ids, n + 1, e);
    }
}

/// Keeps the rows that pass the predicate, with their rowid alias filled in.
fn keep_rows_exec(rows: &Vec<Row>, cols: &Vec<crate::schema::Column>, pred: Option<(usize, &Literal)>) -> (r: Vec<Vec<Value>>)
    ensures
        lines_view(r@) == keep_rows(rows_view(rows@), columns_view(cols@), match pred {
            Some((k, lit)) => Some((k as int, lit@)),
            None => None,
        }),
{
    let ghost rv = rows_view(rows@);
    let ghost cv = columns_view(cols@);
    let ghost pm = match pred {
        Some((k, lit)) => Some((k as int, lit@)),
        None => None,
    };
    let mut out: Vec<Vec<Value>> = Vec::new();
    let mut i: usize = 0;
    assert(rv.subrange(0, 0) =~= seq![]);
    assert(lines_view(out@) =~= seq![]);
    while i < rows.len()
        invariant
            rv == rows_view(rows@),
            cv == columns_view(cols@),
            pm == (match pred {
                Some((k, lit)) => Some((k as int, lit@)),
                None => None,
            }),
            i <= rows@.len(),
            lines_view(out@) == keep_rows(rv.subrange(0, i as int), cv, pm),
        decreases rows@.len() - i,
    {
        let ghost pre = rv.subrange(0, i + 1);
        assert(pre.drop_last() =~= rv.subrange(0, i as int));
        assert(pre.last() == rows@[i as int]@);
        let vals = alias_row(&rows[i], cols);
        let keep = match pred {
            None => true,
            Some((k, lit)) => k < vals.len() && value_matches_exec(&vals[k], lit),
        };
        if keep {
            let ghost prev = lines_view(out@);
            let ghost vm = values_view(vals@);
            out.push(vals);
            assert(lines_view(out@) =~= prev.push(vm));
        }
        i = i + 1;
    }
    assert(rv.subrange(0, i as int) =~= rv);
    out
}

/// The values of a line at the positions `idx`.
fn project_line(vals: &Vec<Value>, idx: &Vec<usize>) -> (r: Vec<Value>)
    ensures
        values_view(r@) == project(values_view(vals@), positions_view(idx@)),
{
    let mut out: Vec<Value> = Vec::new();
    let mut j: usize = 0;
    while j < idx.len()
        invariant
            j <= idx@.len(),
            values_view(out@) == project(values_view(vals@), positions_view(idx@)).subrange(0, j as int),
        decreases idx@.len() - j,
    {
        let ghost prev = values_view(out@);
        let v = if idx[j] < vals.len() {
            copy_value(&vals[idx[j]])
        } else {
            Value::Null
        };
        out.push(v);
        proof {
            let want = project(values_view(vals@), positions_view(idx@));
            assert(positions_view(idx@)[j as int] == idx@[j as int] as int);
            assert(v@ == want[j as int]);
            assert(values_view(out@) =~= prev.push(v@));
            assert(want.subrange(0, j + 1) =~= want.subrange(0, j as int).push(want[j as int]));
        }
        j = j + 1;
    }
    assert(project(values_view(vals@), positions_view(idx@)).subrange(0, j as int) =~= project(values_view(vals@), positions_view(idx@)));
    out
}

impl Pager {
    /// The rows a plan visits (see `candidate_rows`).
    fn candidates(&self, t: &Table, indices: &Vec<Table>, pred: Option<(usize, &Literal)>) -> (r: Result<Vec<Row>, DbError>)
        requires
            self.wf(),
        ensures
            match candidate_rows(self.file(), self.page_size as nat, t@, tables_view(indices@), match pred {
                Some((k, lit)) => Some((k as int, lit@)),
                None => None,
            }) {
                Ok(rows) => r is Ok && rows_view(r->Ok_0@) == rows,
                Err(e) => r == Err::<Vec<Row>, DbError>(e),
            },
    {
        let ncols = t.columns.len();
        assert(columns_view(t.columns@).len() == ncols);
        if let Some((k, lit)) = pred {
            if k < ncols {
                if let Some(ii) = index_for_exec(indices, t.name.as_slice(), t.columns[k].name.as_slice()) {
                    if let Some(key) = literal_key_exec(lit) {
                        let ix = &indices[ii];
                        assert(tables_view(indices@)[ii as int] == ix@);
                        let nkey = ix.columns.len();
                        assert(columns_view(ix.columns@).len() == nkey);
                        let ids = match crate::index::read_index(self, ix.rootpage, nkey, &key) {
                            Err(e) => {
                                return Err(e);
                            },
                            Ok(ids) => ids,
                        };
                        return self.fetch_rows_exec(t.rootpage, ncols, &ids);
                    }
                }
            }
        }
        crate::btree::read_page(self, t.rootpage, ncols, None)
    }

    /// Runs a `SELECT` against the schema `tables` / `indices`: one value list
    /// per output line (see `select_result`).
    pub fn run_select(&self, tables: &Vec<Table>, indices: &Vec<Table>, stmt: &SelectStatement) -> (r: Result<Vec<Vec<Value>>, DbError>)
        requires
            self.wf(),
        ensures
            match select_result(self.file(), self.page_size as nat, tables_view(tables@), tables_view(indices@), stmt@) {
                Ok(lines) => r is Ok && lines_view(r->Ok_0@) == lines,
                Err(e) => r == Err::<Vec<Vec<Value>>, DbError>(e),
            },
    {
        let ti = match find_table_exec(tables, stmt.table.as_slice()) {
            None => {
                return Err(DbError::UnknownTable);
            },
            Some(ti) => ti,
        };
        let t = &tables[ti];
        assert(tables_view(tables@)[ti as int] == t@);
        if t.rootpage <= 1 {
            return Err(DbError::UnknownTable);
        }
        let idx = match projection_exec(&stmt.columns, &t.columns) {
            Err(e) => {
                return Err(e);
            },
            Ok(idx) => idx,
        };
        let pred = match predicate_exec(&stmt.where_expr, &t.columns) {
            Err(e) => {
                return Err(e);
            },
            Ok(p) => p,
        };
        let rows = match self.candidates(t, indices, pred) {
            Err(e) => {
                return Err(e);
            },
            Ok(rows) => rows,
        };
        let kept = keep_rows_exec(&rows, &t.columns, pred);
        let ghost km = lines_view(kept@);
        let mut out: Vec<Vec<Value>> = Vec::new();
        if has_count_exec(&stmt.columns) {
            let n = kept.len() as i64;
            let mut line: Vec<Value> = Vec::new();
            line.push(Value::Integer(n));
            assert(values_view(line@) =~= seq![ValueModel::Integer(km.len() as i64)]);
            out.push(line);
            assert(lines_view(out@) =~= seq![seq![ValueModel::Integer(km.len() as i64)]]);
            return Ok(out);
        }
        let mut j: usize = 0;
        let ghost want = Seq::new(km.len(), |m: int| project(km[m], positions_view(idx@)));
        assert(lines_view(out@) =~= want.subrange(0, 0));
        while j < kept.len()
            invariant
                km == lines_view(kept@),
                want == Seq::new(km.len(), |m: int| project(km[m], positions_view(idx@))),
                j <= kept@.len(),
                lines_view(out@) == want.subrange(0, j as int),
            decreases kept@.len() - j,
        {
            let line = project_line(&kept[j], &idx);
            let ghost prev = lines_view(out@);
            let ghost lm = values_view(line@);
            out.push(line);
            proof {
                assert(km[j as int] == values_view(kept@[j as int]@));
                assert(lines_view(out@) =~= prev.push(lm));
                assert(want.subrange(0, j + 1) =~= want.subrange(0, j as int).push(want[j as int]));
            }
            j = j + 1;
        }
        assert(want.subrange(0, j as int) =~= want);
        Ok(out)
    }
}

/// Every line holds a value equal to `lit` at position `k`.
pub open spec fn all_match(lines: Seq<Seq<ValueModel>>, k: int, lit: LiteralModel) -> bool {
    forall|j: int| 0 <= j < lines.len() ==> 0 <= k < (#[trigger] lines[j]).len() && value_matches(lines[j][k], lit)
}

/// Every line that an equality predicate keeps holds the searched value in
/// the predicate's column: in particular each row that an index lookup
/// yields and the table lookup fetches has that value.
pub proof fn lemma_kept_rows_match(rows: Seq<RowModel>, cols: Seq<ColumnModel>, k: int, lit: LiteralModel)
    ensures
        all_match(keep_rows(rows, cols, Some((k, lit))), k, lit),
    decreases rows.len(),
{
    let all = keep_rows(rows, cols, Some((k, lit)));
    if rows.len() > 0 {
        lemma_kept_rows_match(rows.drop_last(), cols, k, lit);
        let kept = keep_rows(rows.drop_last(), cols, Some((k, lit)));
        let r = with_alias(rows.last().1, cols, rows.last().0);
        if 0 <= k < r.len() && value_matches(r[k], lit) {
            assert(all == kept.push(r));
        } else {
            assert(all == kept);
        }
        assert forall|j: int| 0 <= j < all.len() implies 0 <= k < (#[trigger] all[j]).len() && value_matches(all[j][k], lit) by {
            if j < kept.len() {
                assert(all[j] == kept[j]);
            }
        }
    } else {
        assert(all.len() == 0);
    }
}

/// Over rows in strictly increasing rowid order, the predicate `id = key`
/// on the rowid alias column keeps exactly the row whose rowid is `key`
/// when there is one, and nothing otherwise: never more than one line.
pub proof fn lemma_id_predicate_unique(rows: Seq<RowModel>, cols: Seq<ColumnModel>, k: int, key: i64)
    requires
        crate::btree::increasing(rows),
        0 <= k < cols.len(),
        cols[k].0 == word_id(),
        forall|j: int| 0 <= j < rows.len() ==> k < (#[trigger] rows[j]).1.len(),
    ensures
        keep_rows(rows, cols, Some((k, LiteralModel::IntegerLiteral(key)))).len() <= 1,
        (forall|j: int| 0 <= j < rows.len() ==> (#[trigger] rows[j]).0 != key) ==> keep_rows(
            rows,
            cols,
            Some((k, LiteralModel::IntegerLiteral(key))),
        ) == Seq::<Seq<ValueModel>>::empty(),
        forall|j: int|
            0 <= j < rows.len() && (#[trigger] rows[j]).0 == key ==> keep_rows(
                rows,
                cols,
                Some((k, LiteralModel::IntegerLiteral(key))),
            ) == seq![with_alias(rows[j].1, cols, key)],
    decreases rows.len(),
{
    let pred = Some((k, LiteralModel::IntegerLiteral(key)));
    if rows.len() > 0 {
        let pre = rows.drop_last();
        let last = rows.last();
        reveal(crate::btree::increasing);
        assert(crate::btree::increasing(pre)) by {
            reveal(crate::btree::increasing);
        }
        lemma_id_predicate_unique(pre, cols, k, key);
        let r = with_alias(last.1, cols, last.0);
        assert(r[k] == ValueModel::Integer(last.0));
        let kept = keep_rows(pre, cols, pred);
        if last.0 == key {
            assert forall|j: int| 0 <= j < pre.len() implies (#[trigger] pre[j]).0 != key by {
                assert(rows[j].0 < rows[rows.len() - 1].0);
            }
            assert(keep_rows(rows, cols, pred) == kept.push(r));
            assert(kept.push(r) =~= seq![r]);
            assert forall|j: int| 0 <= j < rows.len() && (#[trigger] rows[j]).0 == key implies keep_rows(rows, cols, pred)
                == seq![with_alias(rows[j].1, cols, key)] by {
                if j < rows.len() - 1 {
                    assert(rows[j].0 < rows[rows.len() - 1].0);
                }
            }
        } else {
            assert(keep_rows(rows, cols, pred) == kept);
            assert forall|j: int| 0 <= j < rows.len() && (#[trigger] rows[j]).0 == key implies keep_rows(rows, cols, pred)
                == seq![with_alias(rows[j].1, cols, key)] by {
                assert(pre[j] == rows[j]);
            }
            if forall|j: int| 0 <= j < rows.len() ==> (#[trigger] rows[j]).0 != key {
                assert forall|j: int| 0 <= j < pre.len() implies (#[trigger] pre[j]).0 != key by {
                    assert(pre[j] == rows[j]);
                }
            }
        }
    }
}

} // verus!
