use vstd::prelude::*;

use crate::codec::{
    be_int,
    be_uint,
    get_column_size,
    get_column_type,
    get_u64_from_size_n,
    get_varint,
    read_be_int,
    serial_size,
    varint,
};
use crate::error::DbError;

verus! {

/// One column value of a record. A real is kept as its IEEE-754 bit pattern.
#[derive(Debug, Clone, PartialEq)]
pub enum Value {
    Null,
    Integer(i64),
    Real(u64),
    Text(Vec<u8>),
    Blob(Vec<u8>),
}

/// What a `Value` stands for.
pub enum ValueModel {
    Null,
    Integer(i64),
    Real(u64),
    Text(Seq<u8>),
    Blob(Seq<u8>),
}

impl View for Value {
    type V = ValueModel;

    open spec fn view(&self) -> ValueModel {
        match self {
            Value::Null => ValueModel::Null,
            Value::Integer(i) => ValueModel::Integer(*i),
            Value::Real(b) => ValueModel::Real(*b),
            Value::Text(t) => ValueModel::Text(t@),
            Value::Blob(b) => ValueModel::Blob(b@),
        }
    }
}

/// The models of a sequence of values.
pub open spec fn values_view(v: Seq<Value>) -> Seq<ValueModel> {
    v.map_values(|x: Value| x@)
}

/// The serial types of `c` columns, read as varints from `pos` on, and the
/// offset just past them.
pub open spec fn serial_types(s: Seq<u8>, pos: int, c: nat) -> Result<(Seq<i64>, int), DbError>
    decreases c,
{
    if c == 0 {
        Ok((seq![], pos))
    } else {
        match varint(s, pos) {
            None => Err(DbError::MalformedVarint),
            Some((t, n)) => match serial_types(s, pos + n, (c - 1) as nat) {
                Err(e) => Err(e),
                Ok((ts, e)) => Ok((seq![t] + ts, e)),
            },
        }
    }
}

/// The value whose body of serial type `t` starts at `pos`.
pub open spec fn column_value(s: Seq<u8>, pos: int, t: int) -> Result<ValueModel, DbError> {
    if t < 0 || t == 10 || t == 11 {
        Err(DbError::Unsupported)
    } else if pos < 0 || pos + serial_size(t) > s.len() {
        Err(DbError::MalformedRecord)
    } else {
        let b = s.subrange(pos, pos + serial_size(t));
        Ok(if t == 0 {
            ValueModel::Null
        } else if t <= 6 {
            ValueModel::Integer(be_int(b) as i64)
        } else if t == 7 {
            ValueModel::Real(be_uint(b) as u64)
        } else if t == 8 {
            ValueModel::Integer(0)
        } else if t == 9 {
            ValueModel::Integer(1)
        } else if t % 2 == 0 {
            ValueModel::Blob(b)
        } else {
            ValueModel::Text(b)
        })
    }
}

/// The values of the bodies of serial types `ts`, laid end to end from `pos`,
/// and the offset just past them.
pub open spec fn column_values(s: Seq<u8>, pos: int, ts: Seq<i64>) -> Result<(Seq<ValueModel>, int), DbError>
    decreases ts.len(),
{
    if ts.len() == 0 {
        Ok((seq![], pos))
    } else {
        match column_value(s, pos, ts[0] as int) {
            Err(e) => Err(e),
            Ok(v) => match column_values(s, pos + serial_size(ts[0] as int), ts.drop_first()) {
                Err(e) => Err(e),
                Ok((vs, end)) => Ok((seq![v] + vs, end)),
            },
        }
    }
}

/// The record of `c` columns at `pos`: a header-size varint, `c` serial-type
/// varints that must end exactly where the header size says, then the bodies.
pub open spec fn record(s: Seq<u8>, pos: int, c: nat) -> Result<(Seq<ValueModel>, int), DbError> {
    match varint(s, pos) {
        None => Err(DbError::MalformedVarint),
        Some((h, n)) => match serial_types(s, pos + n, c) {
            Err(e) => Err(e),
            Ok((ts, end)) => if end != pos + h {
                Err(DbError::MalformedRecord)
            } else {
                column_values(s, end, ts)
            },
        },
    }
}

/// Puts `pre` in front of the items of a result.
pub open spec fn prepend<T>(pre: Seq<T>, r: Result<(Seq<T>, int), DbError>) -> Result<(Seq<T>, int), DbError> {
    match r {
        Ok((a, e)) => Ok((pre + a, e)),
        Err(e) => Err(e),
    }
}

proof fn lemma_serial_types_len(s: Seq<u8>, pos: int, c: nat)
    ensures
        serial_types(s, pos, c) is Ok ==> serial_types(s, pos, c)->Ok_0.0.len() == c,
    decreases c,
{
    if c > 0 {
        if let Some((t, n)) = varint(s, pos) {
            lemma_serial_types_len(s, pos + n, (c - 1) as nat);
        }
    }
}

fn read_serial_types(page: &[u8], pos: &mut usize, c: usize) -> (r: Result<Vec<i64>, DbError>)
    ensures
        r is Ok ==> *final(pos) >= *old(pos),
        match serial_types(page@, *old(pos) as int, c as nat) {
            Ok((ts, end)) => r is Ok && r->Ok_0@ == ts && *final(pos) as int == end,
            Err(e) => r == Err::<Vec<i64>, DbError>(e),
        },
{
    let ghost start = *pos as int;
    let mut ts: Vec<i64> = Vec::new();
    let mut i: usize = 0;
    while i < c
        invariant
            i <= c,
            ts@.len() == i,
            *pos >= start,
            start == *old(pos) as int,
            serial_types(page@, start, c as nat) == prepend(ts@, serial_types(page@, *pos as int, (c - i) as nat)),
        decreases c - i,
    {
        let ghost before = *pos as int;
        let t = get_varint(page, pos);
        match t {
            Err(e) => {
                assert(serial_types(page@, before, (c - i) as nat) == Err::<(Seq<i64>, int), DbError>(e));
                return Err(e);
            },
            Ok(t) => {
                proof {
                    let rest = serial_types(page@, *pos as int, (c - i - 1) as nat);
                    match rest {
                        Ok((a, e)) => {
                            assert(ts@.push(t) + a == ts@ + (seq![t] + a));
                        },
                        Err(_) => {},
                    }
                }
                ts.push(t);
            },
        }
        i = i + 1;
    }
    assert(ts@ + seq![] == ts@);
    Ok(ts)
}

/// Decodes the body of one column of serial type `t` at `*pos` and moves past it.
fn read_column(page: &[u8], pos: &mut usize, t: i64) -> (r: Result<Value, DbError>)
    ensures
        match column_value(page@, *old(pos) as int, t as int) {
            Ok(v) => r is Ok && r->Ok_0@ == v && *final(pos) as int == *old(pos) + serial_size(t as int),
            Err(e) => r == Err::<Value, DbError>(e),
        },
{
    if t < 0 || t == 10 || t == 11 {
        return Err(DbError::Unsupported);
    }
    let start = *pos;
    if t >= 12 && ((t - 12) / 2) as u64 > page.len() as u64 {
        return Err(DbError::MalformedRecord);
    }
    let size = get_column_size(t);
    if start > page.len() || size > page.len() - start {
        return Err(DbError::MalformedRecord);
    }
    let body = vstd::slice::slice_subrange(page, start, start + size);
    let class = get_column_type(t);
    let v = if t == 0 {
        Value::Null
    } else if t <= 6 {
        Value::Integer(read_be_int(body, size))
    } else if t == 7 {
        Value::Real(get_u64_from_size_n(body, 8))
    } else if t == 8 {
        Value::Integer(0)
    } else if t == 9 {
        Value::Integer(1)
    } else if class == 12 {
        Value::Blob(vstd::slice::slice_to_vec(body))
    } else {
        Value::Text(vstd::slice::slice_to_vec(body))
    };
    assert(body@.subrange(0, size as int) == body@);
    *pos = start + size;
    Ok(v)
}

/// Decodes a record of `c` columns that starts at `pos` in `page`; returns the
/// values and the offset just past the record.
pub fn decode_record(page: &[u8], pos: usize, c: usize) -> (r: Result<(Vec<Value>, usize), DbError>)
    ensures
        match record(page@, pos as int, c as nat) {
            Ok((vs, end)) => r is Ok && values_view(r->Ok_0.0@) == vs && r->Ok_0.1 as int == end,
            Err(e) => r == Err::<(Vec<Value>, usize), DbError>(e),
        },
        r is Ok ==> r->Ok_0.0@.len() == c,
{
    let mut cur = pos;
    let h = get_varint(page, &mut cur);
    let h = match h {
        Err(e) => {
            return Err(e);
        },
        Ok(h) => h,
    };
    let ghost types_start = cur as int;
    let ts = read_serial_types(page, &mut cur, c);
    let ts = match ts {
        Err(e) => {
            return Err(e);
        },
        Ok(ts) => ts,
    };
    proof {
        lemma_serial_types_len(page@, types_start, c as nat);
    }
    if h < 0 || (cur - pos) as u64 != h as u64 {
        return Err(DbError::MalformedRecord);
    }
    let ghost body_start = cur as int;
    let mut vals: Vec<Value> = Vec::new();
    let mut i: usize = 0;
    proof {
        assert(ts@.subrange(0, ts@.len() as int) == ts@);
        assert(values_view(vals@) == Seq::<ValueModel>::empty());
        match column_values(page@, body_start, ts@) {
            Ok((a, e)) => {
                assert(Seq::<ValueModel>::empty() + a == a);
            },
            Err(_) => {},
        }
    }
    while i < ts.len()
        invariant
            i <= ts@.len(),
            vals@.len() == i,
            ts@.len() == c,
            record(page@, pos as int, c as nat) == column_values(page@, body_start, ts@),
            column_values(page@, body_start, ts@) == prepend(
                values_view(vals@),
                column_values(page@, cur as int, ts@.subrange(i as int, ts@.len() as int)),
            ),
        decreases ts@.len() - i,
    {
        let ghost before = cur as int;
        proof {
            assert(ts@.subrange(i as int, ts@.len() as int).drop_first() == ts@.subrange(i + 1, ts@.len() as int));
        }
        let v = read_column(page, &mut cur, ts[i]);
        assert(ts@.subrange(i as int, ts@.len() as int)[0] == ts@[i as int]);
        match v {
            Err(e) => {
                return Err(e);
            },
            Ok(v) => {
                proof {
                    let rest = column_values(page@, cur as int, ts@.subrange(i + 1, ts@.len() as int));
                    assert(values_view(vals@.push(v)) == values_view(vals@).push(v@));
                    match rest {
                        Ok((a, e)) => {
                            assert(values_view(vals@).push(v@) + a == values_view(vals@) + (seq![v@] + a));
                        },
                        Err(_) => {},
                    }
                }
                vals.push(v);
            },
        }
        i = i + 1;
    }
    proof {
        assert(ts@.subrange(i as int, ts@.len() as int).len() == 0);
        assert(values_view(vals@) + seq![] == values_view(vals@));
        assert(values_view(vals@).len() == vals@.len());
    }
    Ok((vals, cur))
}

} // verus!
