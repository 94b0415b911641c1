use vstd::prelude::*;

use crate::btree::{
    cell_child,
    cell_count,
    cell_ptr,
    header_ok,
    prepend_seq,
    read_cell_ptr,
    read_child,
    read_header,
    right_child,
};
use crate::codec::{get_varint, varint};
use crate::error::DbError;
use crate::pager::{header_offset, page_at, Pager};
use crate::record::{decode_record, record, Value, ValueModel};

verus! {

/// Storage-class rank in index order: NULL, then numbers, then text, then blobs.
pub open spec fn class_rank(v: ValueModel) -> int {
    match v {
        ValueModel::Null => 0,
        ValueModel::Integer(_) => 1,
        ValueModel::Real(_) => 1,
        ValueModel::Text(_) => 2,
        ValueModel::Blob(_) => 3,
    }
}

/// Byte-wise order of two byte strings: -1, 0 or 1.
pub open spec fn lex_cmp(a: Seq<u8>, b: Seq<u8>) -> int
    decreases a.len(),
{
    if a.len() == 0 {
        if b.len() == 0 {
            0
        } else {
            -1
        }
    } else if b.len() == 0 {
        1
    } else if a[0] < b[0] {
        -1
    } else if a[0] > b[0] {
        1
    } else {
        lex_cmp(a.drop_first(), b.drop_first())
    }
}

/// Index order of two values: -1, 0 or 1; `None` where a real takes part,
/// which this engine does not compare.
pub open spec fn compare(a: ValueModel, b: ValueModel) -> Option<int> {
    if a is Real || b is Real {
        None
    } else if class_rank(a) != class_rank(b) {
        Some(if class_rank(a) < class_rank(b) { -1 } else { 1 })
    } else {
        match (a, b) {
            (ValueModel::Integer(x), ValueModel::Integer(y)) => Some(
                if x < y {
                    -1
                } else if x > y {
                    1
                } else {
                    0
                },
            ),
            (ValueModel::Text(x), ValueModel::Text(y)) => Some(lex_cmp(x, y)),
            (ValueModel::Blob(x), ValueModel::Blob(y)) => Some(lex_cmp(x, y)),
            _ => Some(0),
        }
    }
}

fn rank(v: &Value) -> (r: u8)
    ensures
        r as int == class_rank(v@),
{
    match v {
        Value::Null => 0,
        Value::Integer(_) => 1,
        Value::Real(_) => 1,
        Value::Text(_) => 2,
        Value::Blob(_) => 3,
    }
}

fn compare_bytes(a: &Vec<u8>, b: &Vec<u8>) -> (r: i8)
    ensures
        r as int == lex_cmp(a@, b@),
{
    let mut i: usize = 0;
    assert(a@.subrange(0, a@.len() as int) =~= a@);
    assert(b@.subrange(0, b@.len() as int) =~= b@);
    while i < a.len() && i < b.len()
        invariant
            i <= a@.len(),
            i <= b@.len(),
            lex_cmp(a@, b@) == lex_cmp(a@.subrange(i as int, a@.len() as int), b@.subrange(i as int, b@.len() as int)),
        decreases a@.len() - i,
    {
        let ghost sa = a@.subrange(i as int, a@.len() as int);
        let ghost sb = b@.subrange(i as int, b@.len() as int);
        assert(sa[0] == a@[i as int] && sb[0] == b@[i as int]);
        if a[i] < b[i] {
            return -1;
        }
        if a[i] > b[i] {
            return 1;
        }
        assert(sa.drop_first() =~= a@.subrange(i + 1, a@.len() as int));
        assert(sb.drop_first() =~= b@.subrange(i + 1, b@.len() as int));
        i = i + 1;
    }
    if i < a.len() {
        1
    } else if i < b.len() {
        -1
    } else {
        0
    }
}

/// Compares two values in index order (see `compare`).
pub fn compare_values(a: &Value, b: &Value) -> (r: Option<i8>)
    ensures
        match compare(a@, b@) {
            Some(c) => r is Some && r->Some_0 as int == c,
            None => r is None,
        },
{
    if let Value::Real(_) = a {
        return None;
    }
    if let Value::Real(_) = b {
        return None;
    }
    let ra = rank(a);
    let rb = rank(b);
    if ra != rb {
        return Some(if ra < rb { -1 } else { 1 });
    }
    match (a, b) {
        (Value::Integer(x), Value::Integer(y)) => Some(
            if *x < *y {
                -1
            } else if *x > *y {
                1
            } else {
                0
            },
        ),
        (Value::Text(x), Value::Text(y)) => Some(compare_bytes(x, y)),
        (Value::Blob(x), Value::Blob(y)) => Some(compare_bytes(x, y)),
        _ => Some(0),
    }
}

/// The largest payload an index cell keeps on a page of `len` bytes.
pub open spec fn index_local_max(len: int) -> int {
    (len - 12) * 64 / 255 - 23
}

/// The key (first column) and rowid (column `nkey`, which must be an
/// integer) of the index record whose payload-size varint is at `at`. A
/// payload above the page's local share would continue on overflow pages,
/// which are not supported.
pub open spec fn index_entry(p: Seq<u8>, at: int, nkey: nat) -> Result<(ValueModel, i64), DbError> {
    if nkey >= usize::MAX {
        Err(DbError::Unsupported)
    } else {
    match varint(p, at) {
        None => Err(DbError::MalformedVarint),
        Some((size, n)) => if size < 0 {
            Err(DbError::MalformedRecord)
        } else if p.len() < 12 || size > index_local_max(p.len() as int) {
            Err(DbError::Unsupported)
        } else {
        match record(p, at + n, nkey + 1) {
            Err(e) => Err(e),
            Ok((vals, _)) => if vals.len() == nkey + 1 && vals[nkey as int] is Integer {
                Ok((vals[0], vals[nkey as int]->Integer_0))
            } else {
                Err(DbError::CorruptPage)
            },
        }
        },
    }
    }
}

/// The rowids that the index B-tree rooted at `pg` holds under a first key
/// column equal to `key`, in the order the walk meets them.
pub open spec fn index_tree(s: Seq<u8>, ps: nat, pg: int, depth: nat, nkey: nat, key: ValueModel) -> Result<Seq<i64>, DbError>
    decreases depth, 1nat, 0nat,
{
    if depth == 0 {
        Err(DbError::CorruptPage)
    } else {
        match page_at(s, ps, pg) {
            Err(e) => Err(e),
            Ok(p) => {
                let h = header_offset(pg);
                if !header_ok(p, h) {
                    Err(DbError::CorruptPage)
                } else if p[h] == 10 {
                    index_leaf(p, h, nkey, key, cell_count(p, h))
                } else if p[h] == 2 {
                    index_interior(s, ps, p, h, depth, nkey, key, cell_count(p, h))
                } else {
                    Err(DbError::CorruptPage)
                }
            },
        }
    }
}

/// The matching rowids among the last `rem` cells of an index leaf page; a
/// key above the one searched ends the walk of the page.
pub open spec fn index_leaf(p: Seq<u8>, h: int, nkey: nat, key: ValueModel, rem: nat) -> Result<Seq<i64>, DbError>
    decreases rem,
{
    let count = cell_count(p, h);
    if rem == 0 || rem > count {
        Ok(seq![])
    } else {
        match index_entry(p, cell_ptr(p, h, count - rem), nkey) {
            Err(e) => Err(e),
            Ok((k, rid)) => match compare(key, k) {
                None => Err(DbError::Unsupported),
                Some(c) => if c < 0 {
                    Ok(seq![])
                } else if c == 0 {
                    prepend_seq(seq![rid], index_leaf(p, h, nkey, key, (rem - 1) as nat))
                } else {
                    index_leaf(p, h, nkey, key, (rem - 1) as nat)
                },
            },
        }
    }
}

/// The matching rowids under the last `rem` cells of an index interior page
/// and then its rightmost child. A cell whose key is above the one searched
/// sends the walk into its left child and ends it there, unless that key is
/// NULL; an equal key gives the cell's own rowid, then its left child's, and
/// the walk goes on.
pub open spec fn index_interior(s: Seq<u8>, ps: nat, p: Seq<u8>, h: int, depth: nat, nkey: nat, key: ValueModel, rem: nat) -> Result<Seq<i64>, DbError>
    decreases depth, 0nat, rem,
{
    let count = cell_count(p, h);
    if depth == 0 || rem > count {
        Err(DbError::CorruptPage)
    } else if rem == 0 {
        index_tree(s, ps, right_child(p, h) as int, (depth - 1) as nat, nkey, key)
    } else {
        let off = cell_ptr(p, h, count - rem);
        match cell_child(p, off) {
            Err(e) => Err(e),
            Ok(child) => match index_entry(p, off + 4, nkey) {
                Err(e) => Err(e),
                Ok((k, rid)) => match compare(key, k) {
                    None => Err(DbError::Unsupported),
                    Some(c) => if c < 0 {
                        match index_tree(s, ps, child, (depth - 1) as nat, nkey, key) {
                            Err(e) => Err(e),
                            Ok(ids) => if k is Null {
                                prepend_seq(ids, index_interior(s, ps, p, h, depth, nkey, key, (rem - 1) as nat))
                            } else {
                                Ok(ids)
                            },
                        }
                    } else if c == 0 {
                        match index_tree(s, ps, child, (depth - 1) as nat, nkey, key) {
                            Err(e) => Err(e),
                            Ok(ids) => prepend_seq(
                                seq![rid] + ids,
                                index_interior(s, ps, p, h, depth, nkey, key, (rem - 1) as nat),
                            ),
                        }
                    } else {
                        index_interior(s, ps, p, h, depth, nkey, key, (rem - 1) as nat)
                    },
                },
            },
        }
    }
}

/// Reads the key and rowid of the index record whose payload-size varint is at `at`.
fn read_index_entry(p: &[u8], at: usize, nkey: usize) -> (r: Result<(Value, i64), DbError>)
    ensures
        match index_entry(p@, at as int, nkey as nat) {
            Ok((k, rid)) => r is Ok && r->Ok_0.0@ == k && r->Ok_0.1 == rid,
            Err(e) => r == Err::<(Value, i64), DbError>(e),
        },
{
    if nkey == usize::MAX {
        return Err(DbError::Unsupported);
    }
    let mut cur = at;
    let size = match get_varint(p, &mut cur) {
        Err(e) => {
            return Err(e);
        },
        Ok(size) => size,
    };
    if size < 0 {
        return Err(DbError::MalformedRecord);
    }
    if p.len() < 12 {
        return Err(DbError::Unsupported);
    }
    let local = (((p.len() - 12) as u128) * 64 / 255) as i128 - 23;
    if size as i128 > local {
        return Err(DbError::Unsupported);
    }
    let (mut vals, _) = match decode_record(p, cur, nkey + 1) {
        Err(e) => {
            return Err(e);
        },
        Ok(x) => x,
    };
    let rid = match &vals[nkey] {
        Value::Integer(r) => *r,
        _ => {
            return Err(DbError::CorruptPage);
        },
    };
    let k = vals.swap_remove(0);
    Ok((k, rid))
}

proof fn lemma_index_interior_step(s: Seq<u8>, ps: nat, p: Seq<u8>, h: int, depth: nat, nkey: nat, key: ValueModel, rem: nat)
    requires
        depth > 0,
        rem <= cell_count(p, h),
    ensures
        rem == 0 ==> index_interior(s, ps, p, h, depth, nkey, key, rem) == index_tree(s, ps, right_child(p, h) as int, (depth - 1) as nat, nkey, key),
{
}

/// Appends to `out` the matching rowids of an index leaf page, as `index_leaf` gives them.
fn index_leaf_cells(p: &[u8], h: usize, count: usize, nkey: usize, key: &Value, out: &mut Vec<i64>) -> (r: Result<(), DbError>)
    requires
        header_ok(p@, h as int),
        count == cell_count(p@, h as int),
    ensures
        match index_leaf(p@, h as int, nkey as nat, key@, count as nat) {
            Ok(ids) => r is Ok && final(out)@ == old(out)@ + ids,
            Err(e) => r == Err::<(), DbError>(e),
        },
{
    let ghost out0 = out@;
    let mut i: usize = 0;
    proof {
        match index_leaf(p@, h as int, nkey as nat, key@, count as nat) {
            Ok(a) => {
                assert(Seq::<i64>::empty() + a =~= a);
            },
            Err(_) => {},
        }
        assert(out@.subrange(out0.len() as int, out@.len() as int) =~= seq![]);
    }
    while i < count
        invariant
            header_ok(p@, h as int),
            count == cell_count(p@, h as int),
            i <= count,
            out0 == old(out)@,
            out@.len() >= out0.len(),
            out@.subrange(0, out0.len() as int) == out0,
            index_leaf(p@, h as int, nkey as nat, key@, count as nat) == prepend_seq(
                out@.subrange(out0.len() as int, out@.len() as int),
                index_leaf(p@, h as int, nkey as nat, key@, (count - i) as nat),
            ),
        decreases count - i,
    {
        let off = read_cell_ptr(p, h, i);
        assert(count - (count - i) == i);
        let (k, rid) = match read_index_entry(p, off, nkey) {
            Err(e) => {
                return Err(e);
            },
            Ok(x) => x,
        };
        let c = match compare_values(key, &k) {
            None => {
                return Err(DbError::Unsupported);
            },
            Some(c) => c,
        };
        if c < 0 {
            proof {
                let pre = out@.subrange(out0.len() as int, out@.len() as int);
                assert(pre + seq![] =~= pre);
                assert(out@ =~= out0 + pre);
            }
            return Ok(());
        }
        if c == 0 {
            let ghost before = out@;
            out.push(rid);
            proof {
                let pre = before.subrange(out0.len() as int, before.len() as int);
                assert(out@.subrange(0, out0.len() as int) =~= out0);
                assert(out@.subrange(out0.len() as int, out@.len() as int) =~= pre.push(rid));
                match index_leaf(p@, h as int, nkey as nat, key@, (count - i - 1) as nat) {
                    Ok(a) => {
                        assert(pre.push(rid) + a =~= pre + (seq![rid] + a));
                    },
                    Err(_) => {},
                }
            }
        }
        i = i + 1;
    }
    proof {
        let pre = out@.subrange(out0.len() as int, out@.len() as int);
        assert(pre + seq![] =~= pre);
        assert(out@ =~= out0 + pre);
    }
    Ok(())
}

impl Pager {
    /// Appends to `out` the rowids that the index B-tree rooted at page `pg`
    /// holds under a first key column equal to `key`, as `index_tree` gives them.
    pub fn index_walk(&self, pg: u32, depth: usize, nkey: usize, key: &Value, out: &mut Vec<i64>) -> (r: Result<(), DbError>)
        requires
            self.wf(),
        ensures
            match index_tree(self.file(), self.page_size as nat, pg as int, depth as nat, nkey as nat, key@) {
                Ok(ids) => r is Ok && final(out)@ == old(out)@ + ids,
                Err(e) => r == Err::<(), DbError>(e),
            },
        decreases depth, 1nat,
    {
        if depth == 0 {
            return Err(DbError::CorruptPage);
        }
        let p = match self.page(pg) {
            Err(e) => {
                return Err(e);
            },
            Ok(p) => p,
        };
        let h: usize = if pg == 1 {
            100
        } else {
            0
        };
        let hdr = match read_header(p, h) {
            Err(e) => {
                return Err(e);
            },
            Ok(hdr) => hdr,
        };
        if hdr.kind == 10 {
            index_leaf_cells(p, h, hdr.cells as usize, nkey, key, out)
        } else if hdr.kind == 2 {
            self.index_interior_cells(p, pg, h, hdr.cells as usize, hdr.right, depth, nkey, key, out)
        } else {
            Err(DbError::CorruptPage)
        }
    }

    /// Appends to `out` the matching rowids under an index interior page, as
    /// `index_interior` gives them.
    #[verifier::rlimit(50)]
    fn index_interior_cells(&self, p: &[u8], pg: u32, h: usize, count: usize, right: u32, depth: usize, nkey: usize, key: &Value, out: &mut Vec<i64>) -> (r: Result<(), DbError>)
        requires
            self.wf(),
            depth > 0,
            header_ok(p@, h as int),
            count == cell_count(p@, h as int),
            right as nat == right_child(p@, h as int),
        ensures
            match index_interior(self.file(), self.page_size as nat, p@, h as int, depth as nat, nkey as nat, key@, count as nat) {
                Ok(ids) => r is Ok && final(out)@ == old(out)@ + ids,
                Err(e) => r == Err::<(), DbError>(e),
            },
        decreases depth, 0nat,
    {
        let ghost s = self.file();
        let ghost ps = self.page_size as nat;
        let ghost out0 = out@;
        let mut i: usize = 0;
        proof {
            match index_interior(s, ps, p@, h as int, depth as nat, nkey as nat, key@, count as nat) {
                Ok(a) => {
                    assert(Seq::<i64>::empty() + a =~= a);
                },
                Err(_) => {},
            }
            assert(out@.subrange(out0.len() as int, out@.len() as int) =~= seq![]);
        }
        while i < count
            invariant
                self.wf(),
                s == self.file(),
                ps == self.page_size as nat,
                depth > 0,
                    header_ok(p@, h as int),
                count == cell_count(p@, h as int),
                right as nat == right_child(p@, h as int),
                i <= count,
                out0 == old(out)@,
                out@.len() >= out0.len(),
                out@.subrange(0, out0.len() as int) == out0,
                index_interior(s, ps, p@, h as int, depth as nat, nkey as nat, key@, count as nat) == prepend_seq(
                    out@.subrange(out0.len() as int, out@.len() as int),
                    index_interior(s, ps, p@, h as int, depth as nat, nkey as nat, key@, (count - i) as nat),
                ),
            decreases count - i,
        {
            let off = read_cell_ptr(p, h, i);
            assert(count - (count - i) == i);
            let child = match read_child(p, off) {
                Err(e) => {
                    return Err(e);
                },
                Ok(c) => c,
            };
            let len = p.len();
            assert(off + 4 <= len);
            let (k, rid) = match read_index_entry(p, off + 4, nkey) {
                Err(e) => {
                    return Err(e);
                },
                Ok(x) => x,
            };
            let c = match compare_values(key, &k) {
                None => {
                    return Err(DbError::Unsupported);
                },
                Some(c) => c,
            };
            let ghost before = out@;
            let ghost pre = before.subrange(out0.len() as int, before.len() as int);
            if c < 0 {
                match self.index_walk(child, depth - 1, nkey, key, out) {
                    Err(e) => {
                        return Err(e);
                    },
                    Ok(()) => {},
                }
                let ghost ids = out@.subrange(before.len() as int, out@.len() as int);
                proof {
                    match index_tree(s, ps, child as int, (depth - 1) as nat, nkey as nat, key@) {
                        Ok(a) => {
                            assert(a =~= ids);
                        },
                        Err(_) => {},
                    }
                    assert(out@.subrange(0, out0.len() as int) =~= out0);
                    assert(out@.subrange(out0.len() as int, out@.len() as int) =~= pre + ids);
                    match index_interior(s, ps, p@, h as int, depth as nat, nkey as nat, key@, (count - i - 1) as nat) {
                        Ok(a) => {
                            assert((pre + ids) + a =~= pre + (ids + a));
                        },
                        Err(_) => {},
                    }
                }
                let is_null = match k {
                    Value::Null => true,
                    _ => false,
                };
                if !is_null {
                    proof {
                        assert((pre + ids) + seq![] =~= pre + ids);
                        assert(out@ =~= out0 + (pre + ids));
                    }
                    return Ok(());
                }
            } else if c == 0 {
                out.push(rid);
                let ghost mid = out@;
                match self.index_walk(child, depth - 1, nkey, key, out) {
                    Err(e) => {
                        return Err(e);
                    },
                    Ok(()) => {},
                }
                let ghost ids = out@.subrange(mid.len() as int, out@.len() as int);
                proof {
                    match index_tree(s, ps, child as int, (depth - 1) as nat, nkey as nat, key@) {
                        Ok(a) => {
                            assert(a =~= ids);
                        },
                        Err(_) => {},
                    }
                    assert(out@.subrange(0, out0.len() as int) =~= out0);
                    assert(out@.subrange(out0.len() as int, out@.len() as int) =~= pre + (seq![rid] + ids));
                    match index_interior(s, ps, p@, h as int, depth as nat, nkey as nat, key@, (count - i - 1) as nat) {
                        Ok(a) => {
                            assert((pre + (seq![rid] + ids)) + a =~= pre + ((seq![rid] + ids) + a));
                        },
                        Err(_) => {},
                    }
                }
            }
            i = i + 1;
        }
        let ghost before = out@;
        proof {
            lemma_index_interior_step(s, ps, p@, h as int, depth as nat, nkey as nat, key@, 0);
        }
        match self.index_walk(right, depth - 1, nkey, key, out) {
            Err(e) => {
                return Err(e);
            },
            Ok(()) => {},
        }
        proof {
            let ids = out@.subrange(before.len() as int, out@.len() as int);
            let pre = before.subrange(out0.len() as int, before.len() as int);
            assert(out@ =~= before + ids);
            assert(out@ =~= out0 + (pre + ids));
        }
        Ok(())
    }
}

/// The rowids that the index B-tree rooted at page `page_num` holds under a
/// first key column equal to `key` (see `index_tree`).
pub fn read_index(pager: &Pager, page_num: u32, nkey: usize, key: &Value) -> (r: Result<Vec<i64>, DbError>)
    requires
        pager.wf(),
    ensures
        match index_tree(pager.file(), pager.page_size as nat, page_num as int, crate::btree::MAX_DEPTH as nat, nkey as nat, key@) {
            Ok(ids) => r is Ok && r->Ok_0@ == ids,
            Err(e) => r == Err::<Vec<i64>, DbError>(e),
        },
{
    let mut ids: Vec<i64> = Vec::new();
    match pager.index_walk(page_num, crate::btree::MAX_DEPTH, nkey, key, &mut ids) {
        Err(e) => Err(e),
        Ok(()) => {
            assert(seq![] + ids@ =~= ids@);
            Ok(ids)
        },
    }
}

} // verus!
