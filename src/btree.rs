use vstd::prelude::*;

use crate::codec::{be_uint, get_u64_from_size_n, get_varint, varint};
use crate::error::DbError;
use crate::pager::{header_offset, page_at, Pager};
use crate::record::{decode_record, record, values_view, Value, ValueModel};

verus! {

/// How deep a B-tree may go before it is taken for a cycle.
pub const MAX_DEPTH: usize = 64;

/// A table row: its rowid and its column values.
pub struct Row {
    pub rowid: i64,
    pub values: Vec<Value>,
}

/// What a `Row` stands for.
pub type RowModel = (i64, Seq<ValueModel>);

impl View for Row {
    type V = RowModel;

    open spec fn view(&self) -> RowModel {
        (self.rowid, values_view(self.values@))
    }
}

/// The models of a sequence of rows.
pub open spec fn rows_view(v: Seq<Row>) -> Seq<RowModel> {
    v.map_values(|r: Row| r@)
}

/// Rowids strictly increase along `rows`.
#[verifier::opaque]
pub open spec fn increasing(rows: Seq<RowModel>) -> bool {
    forall|i: int, j: int| 0 <= i < j < rows.len() ==> #[trigger] rows[i].0 < #[trigger] rows[j].0
}

/// The rowid of the last row, or `last` when there is none.
pub open spec fn last_after(rows: Seq<RowModel>, last: Option<i64>) -> Option<i64> {
    if rows.len() == 0 {
        last
    } else {
        Some(rows.last().0)
    }
}

/// Puts `pre` in front of a successful result.
pub open spec fn prepend_seq<T>(pre: Seq<T>, r: Result<Seq<T>, DbError>) -> Result<Seq<T>, DbError> {
    match r {
        Ok(a) => Ok(pre + a),
        Err(e) => Err(e),
    }
}

/// Where a page's cell-pointer array starts, past its header: 12 bytes on
/// interior pages, 8 on leaves.
pub open spec fn pointers_base(kind: u8) -> int {
    if kind == 2 || kind == 5 {
        12
    } else {
        8
    }
}

pub open spec fn cell_count(p: Seq<u8>, h: int) -> nat {
    be_uint(p.subrange(h + 3, h + 5))
}

pub open spec fn right_child(p: Seq<u8>, h: int) -> nat {
    be_uint(p.subrange(h + 8, h + 12))
}

/// The page header and its whole cell-pointer array lie inside the page.
pub open spec fn header_ok(p: Seq<u8>, h: int) -> bool {
    0 <= h && h + 12 <= p.len() && h + pointers_base(p[h]) + 2 * cell_count(p, h) <= p.len()
}

/// Offset of cell `i` from the start of the page.
pub open spec fn cell_ptr(p: Seq<u8>, h: int, i: int) -> int {
    let a = h + pointers_base(p[h]) + 2 * i;
    be_uint(p.subrange(a, a + 2)) as int
}

/// The child page number stored in the first four bytes of an interior cell.
pub open spec fn cell_child(p: Seq<u8>, off: int) -> Result<int, DbError> {
    if off + 4 > p.len() {
        Err(DbError::CorruptPage)
    } else {
        Ok(be_uint(p.subrange(off, off + 4)) as int)
    }
}

/// The rowid of a table leaf cell (after its payload-size varint) and where
/// its record starts. A payload larger than a page's local share (its size
/// less 35) would continue on overflow pages, which are not supported.
pub open spec fn leaf_rowid(p: Seq<u8>, off: int) -> Result<(i64, int), DbError> {
    match varint(p, off) {
        None => Err(DbError::MalformedVarint),
        Some((size, n1)) => if size < 0 {
            Err(DbError::MalformedRecord)
        } else if size > p.len() - 35 {
            Err(DbError::Unsupported)
        } else {
            match varint(p, off + n1) {
                None => Err(DbError::MalformedVarint),
                Some((rid, n2)) => Ok((rid, off + n1 + n2)),
            }
        },
    }
}

/// The row held by a table leaf cell.
pub open spec fn leaf_row(p: Seq<u8>, off: int, ncols: nat) -> Result<RowModel, DbError> {
    match leaf_rowid(p, off) {
        Err(e) => Err(e),
        Ok((rid, at)) => match record(p, at, ncols) {
            Err(e) => Err(e),
            Ok((vals, _)) => Ok((rid, vals)),
        },
    }
}

/// The rows of a full scan of the table B-tree rooted at page `pg`, in the
/// order the cells lie. Each row must have a rowid above the one before it
/// (`last` for the first): a tree out of order is a corrupt page.
pub open spec fn scan_tree(s: Seq<u8>, ps: nat, pg: int, depth: nat, ncols: nat, last: Option<i64>) -> Result<Seq<RowModel>, DbError>
    decreases depth, 1nat, 0nat,
{
    if depth == 0 {
        Err(DbError::CorruptPage)
    } else {
        match page_at(s, ps, pg) {
            Err(e) => Err(e),
            Ok(p) => {
                let h = header_offset(pg);
                if !header_ok(p, h) {
                    Err(DbError::CorruptPage)
                } else if p[h] == 13 {
                    scan_leaf(p, h, ncols, cell_count(p, h), last)
                } else if p[h] == 5 {
                    scan_interior(s, ps, p, h, depth, ncols, cell_count(p, h), last)
                } else {
                    Err(DbError::CorruptPage)
                }
            },
        }
    }
}

/// The rows of the last `rem` cells of a table leaf page.
#[verifier::opaque]
pub open spec fn scan_leaf(p: Seq<u8>, h: int, ncols: nat, rem: nat, last: Option<i64>) -> Result<Seq<RowModel>, DbError>
    decreases rem,
{
    let count = cell_count(p, h);
    if rem == 0 || rem > count {
        Ok(seq![])
    } else {
        match leaf_row(p, cell_ptr(p, h, count - rem), ncols) {
            Err(e) => Err(e),
            Ok(row) => if last is Some && row.0 <= last->Some_0 {
                Err(DbError::CorruptPage)
            } else {
                prepend_seq(seq![row], scan_leaf(p, h, ncols, (rem - 1) as nat, Some(row.0)))
            },
        }
    }
}

/// The rows under the last `rem` cells of a table interior page, then under
/// its rightmost child.
pub open spec fn scan_interior(s: Seq<u8>, ps: nat, p: Seq<u8>, h: int, depth: nat, ncols: nat, rem: nat, last: Option<i64>) -> Result<Seq<RowModel>, DbError>
    decreases depth, 0nat, rem,
{
    let count = cell_count(p, h);
    if depth == 0 || rem > count {
        Err(DbError::CorruptPage)
    } else if rem == 0 {
        scan_tree(s, ps, right_child(p, h) as int, (depth - 1) as nat, ncols, last)
    } else {
        match cell_child(p, cell_ptr(p, h, count - rem)) {
            Err(e) => Err(e),
            Ok(child) => match scan_tree(s, ps, child, (depth - 1) as nat, ncols, last) {
                Err(e) => Err(e),
                Ok(rows) => prepend_seq(
                    rows,
                    scan_interior(s, ps, p, h, depth, ncols, (rem - 1) as nat, last_after(rows, last)),
                ),
            },
        }
    }
}

proof fn lemma_scan_leaf_step(p: Seq<u8>, h: int, ncols: nat, rem: nat, last: Option<i64>)
    requires
        0 < rem <= cell_count(p, h),
    ensures
        scan_leaf(p, h, ncols, rem, last) == match leaf_row(p, cell_ptr(p, h, cell_count(p, h) - rem), ncols) {
            Err(e) => Err(e),
            Ok(row) => if last is Some && row.0 <= last->Some_0 {
                Err(DbError::CorruptPage)
            } else {
                prepend_seq(seq![row], scan_leaf(p, h, ncols, (rem - 1) as nat, Some(row.0)))
            },
        },
{
    reveal(scan_leaf);
}

proof fn lemma_scan_leaf_end(p: Seq<u8>, h: int, ncols: nat, last: Option<i64>)
    ensures
        scan_leaf(p, h, ncols, 0, last) == Ok::<Seq<RowModel>, DbError>(seq![]),
{
    reveal(scan_leaf);
}

proof fn lemma_scan_interior_step(s: Seq<u8>, ps: nat, p: Seq<u8>, h: int, depth: nat, ncols: nat, rem: nat, last: Option<i64>)
    requires
        depth > 0,
        rem <= cell_count(p, h),
    ensures
        rem == 0 ==> scan_interior(s, ps, p, h, depth, ncols, rem, last) == scan_tree(s, ps, right_child(p, h) as int, (depth - 1) as nat, ncols, last),
        rem > 0 ==> scan_interior(s, ps, p, h, depth, ncols, rem, last) == match cell_child(p, cell_ptr(p, h, cell_count(p, h) - rem)) {
            Err(e) => Err(e),
            Ok(child) => match scan_tree(s, ps, child, (depth - 1) as nat, ncols, last) {
                Err(e) => Err(e),
                Ok(rows) => prepend_seq(
                    rows,
                    scan_interior(s, ps, p, h, depth, ncols, (rem - 1) as nat, last_after(rows, last)),
                ),
            },
        },
{
    let count = cell_count(p, h);
    if rem == 0 {
        assert(!(depth == 0 || rem > count));
    }
}

/// The header of the record at `pos` declares exactly the bytes that its
/// size varint and its `c` serial-type varints take.
pub open spec fn header_consistent(s: Seq<u8>, pos: int, c: nat) -> bool {
    match varint(s, pos) {
        Some((h, n)) => match crate::record::serial_types(s, pos + n, c) {
            Ok((_, end)) => end == pos + h,
            Err(_) => false,
        },
        None => false,
    }
}

/// A record decodes only when its declared header size is what its header
/// takes.
pub proof fn lemma_record_header_consistent(s: Seq<u8>, pos: int, c: nat)
    ensures
        record(s, pos, c) is Ok ==> header_consistent(s, pos, c),
{
}

/// Every cell of a table leaf page from position `from` on has a record
/// whose header is consistent (see `header_consistent`).
pub open spec fn leaf_headers_consistent(p: Seq<u8>, h: int, ncols: nat, from: int) -> bool {
    forall|j: int|
        from <= j < cell_count(p, h) ==> (#[trigger] leaf_rowid(p, cell_ptr(p, h, j))) is Ok && header_consistent(
            p,
            leaf_rowid(p, cell_ptr(p, h, j))->Ok_0.1,
            ncols,
        )
}

/// On a table leaf page that decodes, every cell's record declares a header
/// size equal to the bytes its serial-type list takes; so the declared sizes
/// summed over the page equal the bytes consumed.
pub proof fn lemma_leaf_headers_consistent(p: Seq<u8>, h: int, ncols: nat, rem: nat, last: Option<i64>)
    requires
        rem <= cell_count(p, h),
    ensures
        scan_leaf(p, h, ncols, rem, last) is Ok ==> leaf_headers_consistent(p, h, ncols, cell_count(p, h) - rem),
    decreases rem,
{
    let count = cell_count(p, h);
    if rem > 0 && scan_leaf(p, h, ncols, rem, last) is Ok {
        lemma_scan_leaf_step(p, h, ncols, rem, last);
        let j0 = count - rem;
        let row = leaf_row(p, cell_ptr(p, h, j0), ncols)->Ok_0;
        assert(leaf_row(p, cell_ptr(p, h, j0), ncols) is Ok);
        assert(scan_leaf(p, h, ncols, (rem - 1) as nat, Some(row.0)) is Ok);
        lemma_leaf_headers_consistent(p, h, ncols, (rem - 1) as nat, Some(row.0));
        let at = leaf_rowid(p, cell_ptr(p, h, j0))->Ok_0.1;
        lemma_record_header_consistent(p, at, ncols);
        assert forall|j: int| j0 <= j < count implies (#[trigger] leaf_rowid(p, cell_ptr(p, h, j))) is Ok
            && header_consistent(p, leaf_rowid(p, cell_ptr(p, h, j))->Ok_0.1, ncols) by {
            if j > j0 {
                assert(count - (rem - 1) <= j);
            }
        }
    }
}

/// The header fields of a B-tree page.
pub struct PageHeader {
    pub kind: u8,
    pub cells: u16,
    pub right: u32,
}

/// Reads the page header at `h`; fails with `CorruptPage` when it or its
/// cell-pointer array does not fit in the page.
pub fn read_header(p: &[u8], h: usize) -> (r: Result<PageHeader, DbError>)
    ensures
        header_ok(p@, h as int) ==> r is Ok && r->Ok_0.kind == p@[h as int] && r->Ok_0.cells as nat
            == cell_count(p@, h as int) && r->Ok_0.right as nat == right_child(p@, h as int),
        !header_ok(p@, h as int) ==> r == Err::<PageHeader, DbError>(DbError::CorruptPage),
{
    if h > p.len() || p.len() - h < 12 {
        return Err(DbError::CorruptPage);
    }
    let kind = p[h];
    let c = get_u64_from_size_n(vstd::slice::slice_subrange(p, h + 3, h + 5), 2);
    let right = get_u64_from_size_n(vstd::slice::slice_subrange(p, h + 8, h + 12), 4);
    proof {
        assert(p@.subrange(h + 3, h + 5).subrange(0, 2) == p@.subrange(h + 3, h + 5));
        assert(p@.subrange(h + 8, h + 12).subrange(0, 4) == p@.subrange(h + 8, h + 12));
        crate::codec::lemma_pow256_small();
    }
    let base: usize = if kind == 2 || kind == 5 {
        12
    } else {
        8
    };
    if (p.len() - h - base) / 2 < c as usize {
        return Err(DbError::CorruptPage);
    }
    Ok(PageHeader { kind, cells: c as u16, right: right as u32 })
}

/// Offset of cell `i`, read from the cell-pointer array.
pub(crate) fn read_cell_ptr(p: &[u8], h: usize, i: usize) -> (r: usize)
    requires
        header_ok(p@, h as int),
        i < cell_count(p@, h as int),
    ensures
        r as int == cell_ptr(p@, h as int, i as int),
{
    let base: usize = if p[h] == 2 || p[h] == 5 {
        12
    } else {
        8
    };
    let a = h + base + 2 * i;
    let v = get_u64_from_size_n(vstd::slice::slice_subrange(p, a, a + 2), 2);
    proof {
        assert(p@.subrange(a as int, a + 2).subrange(0, 2) == p@.subrange(a as int, a + 2));
        crate::codec::lemma_pow256_small();
    }
    v as usize
}

/// The child page number at the start of an interior cell.
pub(crate) fn read_child(p: &[u8], off: usize) -> (r: Result<u32, DbError>)
    ensures
        match cell_child(p@, off as int) {
            Ok(c) => r is Ok && r->Ok_0 as int == c,
            Err(e) => r == Err::<u32, DbError>(e),
        },
{
    if off > p.len() || p.len() - off < 4 {
        return Err(DbError::CorruptPage);
    }
    let v = get_u64_from_size_n(vstd::slice::slice_subrange(p, off, off + 4), 4);
    proof {
        assert(p@.subrange(off as int, off + 4).subrange(0, 4) == p@.subrange(off as int, off + 4));
        crate::codec::lemma_pow256_small();
    }
    Ok(v as u32)
}

/// Reads the payload size and the rowid of a table leaf cell.
fn read_leaf_rowid(p: &[u8], off: usize) -> (r: Result<(i64, usize), DbError>)
    ensures
        match leaf_rowid(p@, off as int) {
            Ok((rid, at)) => r is Ok && r->Ok_0.0 == rid && r->Ok_0.1 as int == at,
            Err(e) => r == Err::<(i64, usize), DbError>(e),
        },
{
    let mut cur = off;
    let size = match get_varint(p, &mut cur) {
        Err(e) => {
            return Err(e);
        },
        Ok(size) => size,
    };
    if size < 0 {
        return Err(DbError::MalformedRecord);
    }
    if p.len() < 35 || size as u64 > (p.len() - 35) as u64 {
        return Err(DbError::Unsupported);
    }
    match get_varint(p, &mut cur) {
        Err(e) => Err(e),
        Ok(rid) => Ok((rid, cur)),
    }
}

/// Decodes the row of a table leaf cell.
fn read_leaf_row(p: &[u8], off: usize, ncols: usize) -> (r: Result<Row, DbError>)
    ensures
        match leaf_row(p@, off as int, ncols as nat) {
            Ok(row) => r is Ok && r->Ok_0@ == row,
            Err(e) => r == Err::<Row, DbError>(e),
        },
{
    match read_leaf_rowid(p, off) {
        Err(e) => Err(e),
        Ok((rid, at)) => match decode_record(p, at, ncols) {
            Err(e) => Err(e),
            Ok((values, _)) => Ok(Row { rowid: rid, values }),
        },
    }
}

/// The rowid of the last row, if any.
pub open spec fn last_of(rows: Seq<RowModel>) -> Option<i64> {
    last_after(rows, None)
}

proof fn lemma_push_increasing(rows: Seq<RowModel>, row: RowModel)
    requires
        increasing(rows),
        rows.len() > 0 ==> rows.last().0 < row.0,
    ensures
        increasing(rows.push(row)),
{
    reveal(increasing);
    let r2 = rows.push(row);
    assert forall|i: int, j: int| 0 <= i < j < r2.len() implies #[trigger] r2[i].0 < #[trigger] r2[j].0 by {
        if j == rows.len() {
            if i < rows.len() - 1 {
                assert(rows[i].0 < rows[rows.len() - 1].0);
            }
        }
    }
}

/// Appends to `out` the rows of the cells of a table leaf page, as
/// `scan_leaf` gives them.
#[verifier::rlimit(50)]
fn scan_leaf_cells(p: &[u8], h: usize, count: usize, ncols: usize, out: &mut Vec<Row>) -> (r: Result<(), DbError>)
    requires
        header_ok(p@, h as int),
        count == cell_count(p@, h as int),
    ensures
        match scan_leaf(p@, h as int, ncols as nat, count as nat, last_of(rows_view(old(out)@))) {
            Ok(rows) => r is Ok && rows_view(final(out)@) == rows_view(old(out)@) + rows,
            Err(e) => r == Err::<(), DbError>(e),
        },
        increasing(rows_view(old(out)@)) ==> increasing(rows_view(final(out)@)),
{
    let ghost out0 = rows_view(out@);
    let mut i: usize = 0;
    proof {
        assert(rows_view(out@).subrange(out0.len() as int, rows_view(out@).len() as int) =~= seq![]);
        assert(rows_view(out@).subrange(0, out0.len() as int) =~= out0);
        match scan_leaf(p@, h as int, ncols as nat, count as nat, last_of(out0)) {
            Ok(a) => {
                assert(Seq::<RowModel>::empty() + a =~= a);
            },
            Err(_) => {},
        }
    }
    while i < count
        invariant
            header_ok(p@, h as int),
            count == cell_count(p@, h as int),
            i <= count,
            out0 == rows_view(old(out)@),
            rows_view(out@).len() >= out0.len(),
            rows_view(out@).subrange(0, out0.len() as int) == out0,
            increasing(out0) ==> increasing(rows_view(out@)),
            scan_leaf(p@, h as int, ncols as nat, count as nat, last_of(out0)) == prepend_seq(
                rows_view(out@).subrange(out0.len() as int, rows_view(out@).len() as int),
                scan_leaf(p@, h as int, ncols as nat, (count - i) as nat, last_of(rows_view(out@))),
            ),
        decreases count - i,
    {
        let off = read_cell_ptr(p, h, i);
        let ghost before = rows_view(out@);
        proof {
            assert(count - (count - i) == i);
            lemma_scan_leaf_step(p@, h as int, ncols as nat, (count - i) as nat, last_of(before));
        }
        let row = match read_leaf_row(p, off, ncols) {
            Err(e) => {
                return Err(e);
            },
            Ok(row) => row,
        };
        if out.len() > 0 && row.rowid <= out[out.len() - 1].rowid {
            assert(before.last().0 == out@[out@.len() - 1].rowid);
            return Err(DbError::CorruptPage);
        }
        proof {
            if before.len() > 0 {
                assert(before.last().0 == out@[out@.len() - 1].rowid);
            }
            if increasing(before) {
                lemma_push_increasing(before, row@);
            }
        }
        out.push(row);
        proof {
            let after = rows_view(out@);
            assert(after =~= before.push(row@));
            assert(after.subrange(0, out0.len() as int) =~= before.subrange(0, out0.len() as int));
            let pre = before.subrange(out0.len() as int, before.len() as int);
            assert(after.subrange(out0.len() as int, after.len() as int) =~= pre.push(row@));
            match scan_leaf(p@, h as int, ncols as nat, (count - i - 1) as nat, Some(row.rowid)) {
                Ok(a) => {
                    assert(pre.push(row@) + a =~= pre + (seq![row@] + a));
                },
                Err(_) => {},
            }
        }
        i = i + 1;
    }
    proof {
        lemma_scan_leaf_end(p@, h as int, ncols as nat, last_of(rows_view(out@)));
        let all = rows_view(out@);
        let tail = all.subrange(out0.len() as int, all.len() as int);
        assert(all =~= out0 + tail);
        assert(tail + seq![] =~= tail);
    }
    Ok(())
}

impl Pager {
    /// Appends to `out` the rows of the table B-tree rooted at page `pg`, as
    /// `scan_tree` gives them; the rowids go on rising from the last row
    /// already in `out`.
    pub fn scan_table(&self, pg: u32, depth: usize, ncols: usize, out: &mut Vec<Row>) -> (r: Result<(), DbError>)
        requires
            self.wf(),
        ensures
            match scan_tree(self.file(), self.page_size as nat, pg as int, depth as nat, ncols as nat, last_of(rows_view(old(out)@))) {
                Ok(rows) => r is Ok && rows_view(final(out)@) == rows_view(old(out)@) + rows,
                Err(e) => r == Err::<(), DbError>(e),
            },
            increasing(rows_view(old(out)@)) ==> increasing(rows_view(final(out)@)),
        decreases depth, 1nat,
    {
        if depth == 0 {
            return Err(DbError::CorruptPage);
        }
        let p = match self.page(pg) {
            Err(e) => {
                return Err(e);
            },
            Ok(p) => p,
        };
        let h: usize = if pg == 1 {
            100
        } else {
            0
        };
        let hdr = match read_header(p, h) {
            Err(e) => {
                return Err(e);
            },
            Ok(hdr) => hdr,
        };
        if hdr.kind == 13 {
            scan_leaf_cells(p, h, hdr.cells as usize, ncols, out)
        } else if hdr.kind == 5 {
            self.scan_interior_cells(p, pg, h, hdr.cells as usize, hdr.right, depth, ncols, out)
        } else {
            Err(DbError::CorruptPage)
        }
    }

    /// Appends to `out` the rows under the children of a table interior page,
    /// as `scan_interior` gives them.
    #[verifier::rlimit(50)]
    fn scan_interior_cells(&self, p: &[u8], pg: u32, h: usize, count: usize, right: u32, depth: usize, ncols: usize, out: &mut Vec<Row>) -> (r: Result<(), DbError>)
        requires
            self.wf(),
            depth > 0,
            header_ok(p@, h as int),
            count == cell_count(p@, h as int),
            right as nat == right_child(p@, h as int),
        ensures
            match scan_interior(self.file(), self.page_size as nat, p@, h as int, depth as nat, ncols as nat, count as nat, last_of(rows_view(old(out)@))) {
                Ok(rows) => r is Ok && rows_view(final(out)@) == rows_view(old(out)@) + rows,
                Err(e) => r == Err::<(), DbError>(e),
            },
            increasing(rows_view(old(out)@)) ==> increasing(rows_view(final(out)@)),
        decreases depth, 0nat,
    {
        let ghost s = self.file();
        let ghost ps = self.page_size as nat;
        let ghost out0 = rows_view(out@);
        let mut i: usize = 0;
        proof {
            assert(rows_view(out@).subrange(out0.len() as int, rows_view(out@).len() as int) =~= seq![]);
            assert(rows_view(out@).subrange(0, out0.len() as int) =~= out0);
            match scan_interior(s, ps, p@, h as int, depth as nat, ncols as nat, count as nat, last_of(out0)) {
                Ok(a) => {
                    assert(Seq::<RowModel>::empty() + a =~= a);
                },
                Err(_) => {},
            }
        }
        while i < count
            invariant
                self.wf(),
                s == self.file(),
                ps == self.page_size as nat,
                depth > 0,
                header_ok(p@, h as int),
                count == cell_count(p@, h as int),
                right as nat == right_child(p@, h as int),
                i <= count,
                out0 == rows_view(old(out)@),
            rows_view(out@).len() >= out0.len(),
                rows_view(out@).subrange(0, out0.len() as int) == out0,
                increasing(out0) ==> increasing(rows_view(out@)),
                scan_interior(s, ps, p@, h as int, depth as nat, ncols as nat, count as nat, last_of(out0)) == prepend_seq(
                    rows_view(out@).subrange(out0.len() as int, rows_view(out@).len() as int),
                    scan_interior(s, ps, p@, h as int, depth as nat, ncols as nat, (count - i) as nat, last_of(rows_view(out@))),
                ),
            decreases count - i,
        {
            let off = read_cell_ptr(p, h, i);
            proof {
                assert(count - (count - i) == i);
                lemma_scan_interior_step(s, ps, p@, h as int, depth as nat, ncols as nat, (count - i) as nat, last_of(rows_view(out@)));
            }
            let child = match read_child(p, off) {
                Err(e) => {
                    return Err(e);
                },
                Ok(c) => c,
            };
            let ghost before = rows_view(out@);
            match self.scan_table(child, depth - 1, ncols, out) {
                Err(e) => {
                    return Err(e);
                },
                Ok(()) => {},
            }
            proof {
                let after = rows_view(out@);
                let rows = after.subrange(before.len() as int, after.len() as int);
                match scan_tree(s, ps, child as int, (depth - 1) as nat, ncols as nat, last_of(before)) {
                    Ok(rs) => {
                        assert(rs =~= rows);
                    },
                    Err(_) => {},
                }
                assert(after =~= before + rows);
                assert(last_of(after) == last_after(rows, last_of(before)));
                assert(after.subrange(0, out0.len() as int) =~= before.subrange(0, out0.len() as int));
                let pre = before.subrange(out0.len() as int, before.len() as int);
                assert(after.subrange(out0.len() as int, after.len() as int) =~= pre + rows);
                match scan_interior(s, ps, p@, h as int, depth as nat, ncols as nat, (count - i - 1) as nat, last_of(after)) {
                    Ok(a) => {
                        assert((pre + rows) + a =~= pre + (rows + a));
                    },
                    Err(_) => {},
                }
            }
            i = i + 1;
        }
        let ghost before = rows_view(out@);
        proof {
            lemma_scan_interior_step(s, ps, p@, h as int, depth as nat, ncols as nat, 0, last_of(before));
        }
        match self.scan_table(right, depth - 1, ncols, out) {
            Err(e) => {
                return Err(e);
            },
            Ok(()) => {},
        }
        proof {
            let after = rows_view(out@);
            let rows = after.subrange(before.len() as int, after.len() as int);
            assert(after =~= before + rows);
            let pre = before.subrange(out0.len() as int, before.len() as int);
            assert(after.subrange(out0.len() as int, after.len() as int) =~= pre + rows);
            assert(after =~= out0 + (pre + rows));
        }
        Ok(())
    }
}

/// The child of a table interior page to descend into when looking for
/// rowid `target`: that of the first of the last `rem` cells whose key is at
/// least `target`, else the rightmost child.
pub open spec fn descend_child(p: Seq<u8>, h: int, rem: nat, target: i64) -> Result<int, DbError>
    decreases rem,
{
    let count = cell_count(p, h);
    if rem == 0 || rem > count {
        Ok(right_child(p, h) as int)
    } else {
        let off = cell_ptr(p, h, count - rem);
        match cell_child(p, off) {
            Err(e) => Err(e),
            Ok(child) => match varint(p, off + 4) {
                None => Err(DbError::MalformedVarint),
                Some((key, _)) => if key >= target {
                    Ok(child)
                } else {
                    descend_child(p, h, (rem - 1) as nat, target)
                },
            },
        }
    }
}

/// The row with rowid `target` of a table leaf page, looked for among its
/// last `rem` cells: smaller rowids are passed over, a larger one ends the search.
pub open spec fn lookup_leaf(p: Seq<u8>, h: int, ncols: nat, rem: nat, target: i64) -> Result<Option<RowModel>, DbError>
    decreases rem,
{
    let count = cell_count(p, h);
    if rem == 0 || rem > count {
        Ok(None)
    } else {
        match leaf_rowid(p, cell_ptr(p, h, count - rem)) {
            Err(e) => Err(e),
            Ok((rid, at)) => if rid < target {
                lookup_leaf(p, h, ncols, (rem - 1) as nat, target)
            } else if rid > target {
                Ok(None)
            } else {
                match record(p, at, ncols) {
                    Err(e) => Err(e),
                    Ok((vals, _)) => Ok(Some((rid, vals))),
                }
            },
        }
    }
}

/// The row with rowid `target` in the table B-tree rooted at page `pg`, if any.
pub open spec fn lookup_tree(s: Seq<u8>, ps: nat, pg: int, depth: nat, ncols: nat, target: i64) -> Result<Option<RowModel>, DbError>
    decreases depth,
{
    if depth == 0 {
        Err(DbError::CorruptPage)
    } else {
        match page_at(s, ps, pg) {
            Err(e) => Err(e),
            Ok(p) => {
                let h = header_offset(pg);
                if !header_ok(p, h) {
                    Err(DbError::CorruptPage)
                } else if p[h] == 13 {
                    lookup_leaf(p, h, ncols, cell_count(p, h), target)
                } else if p[h] == 5 {
                    match descend_child(p, h, cell_count(p, h), target) {
                        Err(e) => Err(e),
                        Ok(child) => lookup_tree(s, ps, child, (depth - 1) as nat, ncols, target),
                    }
                } else {
                    Err(DbError::CorruptPage)
                }
            },
        }
    }
}

fn find_child(p: &[u8], h: usize, count: usize, right: u32, target: i64) -> (r: Result<u32, DbError>)
    requires
        header_ok(p@, h as int),
        count == cell_count(p@, h as int),
        right as nat == right_child(p@, h as int),
    ensures
        match descend_child(p@, h as int, count as nat, target) {
            Ok(c) => r is Ok && r->Ok_0 as int == c,
            Err(e) => r == Err::<u32, DbError>(e),
        },
{
    let mut i: usize = 0;
    while i < count
        invariant
            header_ok(p@, h as int),
            count == cell_count(p@, h as int),
            right as nat == right_child(p@, h as int),
            i <= count,
            descend_child(p@, h as int, count as nat, target) == descend_child(p@, h as int, (count - i) as nat, target),
        decreases count - i,
    {
        let off = read_cell_ptr(p, h, i);
        assert(count - (count - i) == i);
        let child = match read_child(p, off) {
            Err(e) => {
                return Err(e);
            },
            Ok(c) => c,
        };
        let len = p.len();
        assert(off + 4 <= len);
        let mut cur = off + 4;
        let key = match get_varint(p, &mut cur) {
            Err(e) => {
                return Err(e);
            },
            Ok(k) => k,
        };
        if key >= target {
            return Ok(child);
        }
        i = i + 1;
    }
    Ok(right)
}

fn find_in_leaf(p: &[u8], h: usize, count: usize, ncols: usize, target: i64) -> (r: Result<Option<Row>, DbError>)
    requires
        header_ok(p@, h as int),
        count == cell_count(p@, h as int),
    ensures
        match lookup_leaf(p@, h as int, ncols as nat, count as nat, target) {
            Ok(Some(row)) => r is Ok && r->Ok_0 is Some && r->Ok_0->Some_0@ == row,
            Ok(None) => r is Ok && r->Ok_0 is None,
            Err(e) => r == Err::<Option<Row>, DbError>(e),
        },
{
    let mut i: usize = 0;
    while i < count
        invariant
            header_ok(p@, h as int),
            count == cell_count(p@, h as int),
            i <= count,
            lookup_leaf(p@, h as int, ncols as nat, count as nat, target) == lookup_leaf(p@, h as int, ncols as nat, (count - i) as nat, target),
        decreases count - i,
    {
        let off = read_cell_ptr(p, h, i);
        assert(count - (count - i) == i);
        let (rid, at) = match read_leaf_rowid(p, off) {
            Err(e) => {
                return Err(e);
            },
            Ok(x) => x,
        };
        if rid > target {
            return Ok(None);
        }
        if rid == target {
            return match decode_record(p, at, ncols) {
                Err(e) => Err(e),
                Ok((values, _)) => Ok(Some(Row { rowid: rid, values })),
            };
        }
        i = i + 1;
    }
    Ok(None)
}

impl Pager {
    /// The row with rowid `target` in the table B-tree rooted at page `pg`:
    /// each interior page sends the search to one child, so at most one row
    /// comes back, and only one with that rowid.
    pub fn lookup_table(&self, pg: u32, depth: usize, ncols: usize, target: i64) -> (r: Result<Option<Row>, DbError>)
        requires
            self.wf(),
        ensures
            match lookup_tree(self.file(), self.page_size as nat, pg as int, depth as nat, ncols as nat, target) {
                Ok(Some(row)) => r is Ok && r->Ok_0 is Some && r->Ok_0->Some_0@ == row,
                Ok(None) => r is Ok && r->Ok_0 is None,
                Err(e) => r == Err::<Option<Row>, DbError>(e),
            },
            r is Ok && r->Ok_0 is Some ==> r->Ok_0->Some_0.rowid == target,
        decreases depth,
    {
        if depth == 0 {
            return Err(DbError::CorruptPage);
        }
        let p = match self.page(pg) {
            Err(e) => {
                return Err(e);
            },
            Ok(p) => p,
        };
        let h: usize = if pg == 1 {
            100
        } else {
            0
        };
        let hdr = match read_header(p, h) {
            Err(e) => {
                return Err(e);
            },
            Ok(hdr) => hdr,
        };
        if hdr.kind == 13 {
            let r = find_in_leaf(p, h, hdr.cells as usize, ncols, target);
            proof {
                lemma_lookup_leaf_rowid(p@, h as int, ncols as nat, hdr.cells as nat, target);
            }
            r
        } else if hdr.kind == 5 {
            match find_child(p, h, hdr.cells as usize, hdr.right, target) {
                Err(e) => Err(e),
                Ok(child) => self.lookup_table(child, depth - 1, ncols, target),
            }
        } else {
            Err(DbError::CorruptPage)
        }
    }
}

proof fn lemma_lookup_leaf_rowid(p: Seq<u8>, h: int, ncols: nat, rem: nat, target: i64)
    ensures
        lookup_leaf(p, h, ncols, rem, target) matches Ok(Some(row)) ==> row.0 == target,
    decreases rem,
{
    if rem > 0 {
        lemma_lookup_leaf_rowid(p, h, ncols, (rem - 1) as nat, target);
    }
}

/// Walks the table B-tree rooted at page `page_num`: with no `search_rowid`,
/// every row in rowid order (see `scan_tree`); with one, the row with that
/// rowid if the tree holds it (see `lookup_tree`).
pub fn read_page(pager: &Pager, page_num: u32, ncols: usize, search_rowid: Option<i64>) -> (r: Result<Vec<Row>, DbError>)
    requires
        pager.wf(),
    ensures
        search_rowid is None ==> match scan_tree(pager.file(), pager.page_size as nat, page_num as int, MAX_DEPTH as nat, ncols as nat, None) {
            Ok(rows) => r is Ok && rows_view(r->Ok_0@) == rows,
            Err(e) => r == Err::<Vec<Row>, DbError>(e),
        },
        search_rowid is Some ==> match lookup_tree(pager.file(), pager.page_size as nat, page_num as int, MAX_DEPTH as nat, ncols as nat, search_rowid->Some_0) {
            Ok(Some(row)) => r is Ok && rows_view(r->Ok_0@) == seq![row],
            Ok(None) => r is Ok && r->Ok_0@.len() == 0,
            Err(e) => r == Err::<Vec<Row>, DbError>(e),
        },
        r is Ok ==> increasing(rows_view(r->Ok_0@)),
{
    let mut rows: Vec<Row> = Vec::new();
    assert(rows_view(rows@) =~= seq![]);
    proof {
        reveal(increasing);
    }
    match search_rowid {
        None => {
            assert(last_of(rows_view(rows@)) == None::<i64>);
            match pager.scan_table(page_num, MAX_DEPTH, ncols, &mut rows) {
                Err(e) => Err(e),
                Ok(()) => {
                    proof {
                        match scan_tree(pager.file(), pager.page_size as nat, page_num as int, MAX_DEPTH as nat, ncols as nat, None) {
                            Ok(a) => {
                                assert(seq![] + a =~= a);
                            },
                            Err(_) => {},
                        }
                    }
                    Ok(rows)
                },
            }
        },
        Some(target) => match pager.lookup_table(page_num, MAX_DEPTH, ncols, target) {
            Err(e) => Err(e),
            Ok(None) => Ok(rows),
            Ok(Some(row)) => {
                let ghost rm = row@;
                rows.push(row);
                assert(rows_view(rows@) =~= seq![rm]);
                Ok(rows)
            },
        },
    }
}

} // verus!
