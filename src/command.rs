use vstd::prelude::*;

use crate::ast::SelectStatement;
use crate::btree::{cell_count, header_ok, read_header};
use crate::error::DbError;
use crate::pager::{page_at, Pager};
use crate::parser::{parse_statement, statement};
use crate::record::{Value, ValueModel};
use crate::schema::{bytes_eq, tables_view, Table, TableModel};

verus! {

/// What the command-line argument asks for.
pub enum Command {
    DbInfo,
    Tables,
    Select(SelectStatement),
}

/// `.dbinfo`
pub open spec fn word_dbinfo() -> Seq<u8> {
    seq![46u8, 100, 98, 105, 110, 102, 111]
}

/// `.tables`
pub open spec fn word_tables() -> Seq<u8> {
    seq![46u8, 116, 97, 98, 108, 101, 115]
}

/// Reads a command: `.dbinfo`, `.tables`, another word starting with `.`
/// (an unknown command), or a statement of the SQL subset.
pub fn parse_command(cmd: &[u8]) -> (r: Result<Command, DbError>)
    ensures
        cmd@ == word_dbinfo() ==> r matches Ok(Command::DbInfo),
        cmd@ == word_tables() ==> r matches Ok(Command::Tables),
        cmd@.len() > 0 && cmd@[0] == 46 && cmd@ != word_dbinfo() && cmd@ != word_tables() ==> r
            == Err::<Command, DbError>(DbError::UnknownCommand),
        !(cmd@.len() > 0 && cmd@[0] == 46) ==> match statement(cmd@) {
            Some(m) => r matches Ok(Command::Select(st)) && st@ == m,
            None => r == Err::<Command, DbError>(DbError::ParseError),
        },
{
    let dbinfo: [u8; 7] = [46, 100, 98, 105, 110, 102, 111];
    let tables: [u8; 7] = [46, 116, 97, 98, 108, 101, 115];
    assert(dbinfo@ =~= word_dbinfo());
    assert(tables@ =~= word_tables());
    if cmd.len() > 0 && cmd[0] == 46 {
        if bytes_eq(cmd, dbinfo.as_slice()) {
            Ok(Command::DbInfo)
        } else if bytes_eq(cmd, tables.as_slice()) {
            Ok(Command::Tables)
        } else {
            Err(DbError::UnknownCommand)
        }
    } else {
        match parse_statement(cmd) {
            Ok(st) => Ok(Command::Select(st)),
            Err(e) => Err(e),
        }
    }
}

/// Decimal digits of `n`.
pub open spec fn nat_text(n: nat) -> Seq<u8>
    decreases n,
{
    if n < 10 {
        seq![(48 + n) as u8]
    } else {
        nat_text(n / 10).push((48 + n % 10) as u8)
    }
}

/// Decimal text of `v`, with a leading `-` when negative.
pub open spec fn int_text(v: int) -> Seq<u8> {
    if v < 0 {
        seq![45u8] + nat_text((-v) as nat)
    } else {
        nat_text(v as nat)
    }
}

/// Appends the decimal digits of `n` to `out`.
fn push_digits(n: u64, out: &mut Vec<u8>)
    ensures
        final(out)@ == old(out)@ + nat_text(n as nat),
    decreases n,
{
    if n >= 10 {
        push_digits(n / 10, out);
    }
    let ghost before = out@;
    out.push((48 + n % 10) as u8);
    proof {
        if n >= 10 {
            assert(out@ =~= old(out)@ + nat_text(n as nat));
        } else {
            assert(out@ =~= old(out)@ + nat_text(n as nat));
        }
    }
}

/// Appends the decimal text of `v` to `out`.
pub fn push_int(v: i64, out: &mut Vec<u8>)
    ensures
        final(out)@ == old(out)@ + int_text(v as int),
{
    if v < 0 {
        out.push(45);
        let mag: u64 = if v == i64::MIN {
            0x8000_0000_0000_0000
        } else {
            (-v) as u64
        };
        let ghost mid = out@;
        push_digits(mag, out);
        assert(out@ =~= old(out)@ + int_text(v as int));
    } else {
        push_digits(v as u64, out);
    }
}

pub open spec fn is_cont(b: u8) -> bool {
    0x80 <= b <= 0xbf
}

/// The bytes of `s` from `i` on are well-formed UTF-8: no overlong forms, no
/// surrogates, nothing above U+10FFFF.
pub open spec fn utf8_from(s: Seq<u8>, i: int) -> bool
    decreases s.len() - i,
{
    if i < 0 || i >= s.len() {
        i == s.len()
    } else {
        let b = s[i];
        if b < 0x80 {
            utf8_from(s, i + 1)
        } else if 0xc2 <= b <= 0xdf {
            i + 1 < s.len() && is_cont(s[i + 1]) && utf8_from(s, i + 2)
        } else if 0xe0 <= b <= 0xef {
            i + 2 < s.len() && (if b == 0xe0 {
                0xa0 <= s[i + 1] <= 0xbf
            } else if b == 0xed {
                0x80 <= s[i + 1] <= 0x9f
            } else {
                is_cont(s[i + 1])
            }) && is_cont(s[i + 2]) && utf8_from(s, i + 3)
        } else if 0xf0 <= b <= 0xf4 {
            i + 3 < s.len() && (if b == 0xf0 {
                0x90 <= s[i + 1] <= 0xbf
            } else if b == 0xf4 {
                0x80 <= s[i + 1] <= 0x8f
            } else {
                is_cont(s[i + 1])
            }) && is_cont(s[i + 2]) && is_cont(s[i + 3]) && utf8_from(s, i + 4)
        } else {
            false
        }
    }
}

/// Length of the well-formed UTF-8 sequence that starts at `i`, or 0.
fn utf8_step(s: &[u8], i: usize) -> (r: usize)
    requires
        i < s@.len(),
    ensures
        r == 0 ==> !utf8_from(s@, i as int),
        r > 0 ==> i + r <= s@.len() && r <= 4 && utf8_from(s@, i as int) == utf8_from(s@, i + r),
{
    let n = s.len();
    let b = s[i];
    if b < 0x80 {
        return 1;
    }
    if 0xc2 <= b && b <= 0xdf {
        if n - i > 1 && 0x80 <= s[i + 1] && s[i + 1] <= 0xbf {
            return 2;
        }
        return 0;
    }
    if 0xe0 <= b && b <= 0xef {
        if n - i > 2 {
            let c1 = s[i + 1];
            let ok1 = if b == 0xe0 {
                0xa0 <= c1 && c1 <= 0xbf
            } else if b == 0xed {
                0x80 <= c1 && c1 <= 0x9f
            } else {
                0x80 <= c1 && c1 <= 0xbf
            };
            if ok1 && 0x80 <= s[i + 2] && s[i + 2] <= 0xbf {
                return 3;
            }
        }
        return 0;
    }
    if 0xf0 <= b && b <= 0xf4 {
        if n - i > 3 {
            let c1 = s[i + 1];
            let ok1 = if b == 0xf0 {
                0x90 <= c1 && c1 <= 0xbf
            } else if b == 0xf4 {
                0x80 <= c1 && c1 <= 0x8f
            } else {
                0x80 <= c1 && c1 <= 0xbf
            };
            if ok1 && 0x80 <= s[i + 2] && s[i + 2] <= 0xbf && 0x80 <= s[i + 3] && s[i + 3] <= 0xbf {
                return 4;
            }
        }
        return 0;
    }
    0
}

/// Whether `s` is well-formed UTF-8 (see `utf8_from`).
pub fn is_utf8(s: &[u8]) -> (r: bool)
    ensures
        r == utf8_from(s@, 0),
{
    let mut i: usize = 0;
    while i < s.len()
        invariant
            i <= s@.len(),
            utf8_from(s@, 0) == utf8_from(s@, i as int),
        decreases s@.len() - i,
    {
        let k = utf8_step(s, i);
        if k == 0 {
            return false;
        }
        i = i + k;
    }
    true
}

/// The text of one value in an output line: `null`, an integer in decimal,
/// or text as its bytes, which must be well-formed UTF-8 (else `Encoding`).
/// A blob is `Unsupported`; a real is left to the caller, which formats
/// floating point, and is `Unsupported` here too.
pub open spec fn value_text(v: ValueModel) -> Result<Seq<u8>, DbError> {
    match v {
        ValueModel::Null => Ok(seq![110u8, 117, 108, 108]),
        ValueModel::Integer(i) => Ok(int_text(i as int)),
        ValueModel::Text(t) => if utf8_from(t, 0) {
            Ok(t)
        } else {
            Err(DbError::Encoding)
        },
        _ => Err(DbError::Unsupported),
    }
}

/// Renders a value for output (see `value_text`).
pub fn render_value(v: &Value) -> (r: Result<Vec<u8>, DbError>)
    ensures
        match value_text(v@) {
            Ok(t) => r is Ok && r->Ok_0@ == t,
            Err(e) => r == Err::<Vec<u8>, DbError>(e),
        },
{
    match v {
        Value::Null => {
            let mut out: Vec<u8> = Vec::new();
            out.push(110);
            out.push(117);
            out.push(108);
            out.push(108);
            assert(out@ =~= seq![110u8, 117, 108, 108]);
            Ok(out)
        },
        Value::Integer(i) => {
            let mut out: Vec<u8> = Vec::new();
            push_int(*i, &mut out);
            assert(out@ =~= int_text(*i as int));
            Ok(out)
        },
        Value::Text(t) => if is_utf8(t.as_slice()) {
            Ok(vstd::slice::slice_to_vec(t.as_slice()))
        } else {
            Err(DbError::Encoding)
        },
        _ => Err(DbError::Unsupported),
    }
}

/// Each table name followed by a space.
pub open spec fn names_text(tables: Seq<TableModel>) -> Seq<u8>
    decreases tables.len(),
{
    if tables.len() == 0 {
        seq![]
    } else {
        names_text(tables.drop_last()) + tables.last().0 + seq![32u8]
    }
}

/// The `.tables` line: each table name followed by a space, then a newline.
pub open spec fn tables_text(tables: Seq<TableModel>) -> Seq<u8> {
    names_text(tables) + seq![10u8]
}

/// Writes the `.tables` line (see `tables_text`).
pub fn tables_line(tables: &Vec<Table>) -> (r: Vec<u8>)
    ensures
        r@ == tables_text(tables_view(tables@)),
{
    let ghost tv = tables_view(tables@);
    let mut out: Vec<u8> = Vec::new();
    let mut i: usize = 0;
    assert(tv.subrange(0, 0) =~= seq![]);
    while i < tables.len()
        invariant
            tv == tables_view(tables@),
            i <= tables@.len(),
            out@ == names_text(tv.subrange(0, i as int)),
        decreases tables@.len() - i,
    {
        let ghost before = out@;
        let name = &tables[i].name;
        let mut k: usize = 0;
        while k < name.len()
            invariant
                k <= name@.len(),
                out@ == before + name@.subrange(0, k as int),
            decreases name@.len() - k,
        {
            out.push(name[k]);
            assert(out@ =~= before + name@.subrange(0, k + 1));
            k = k + 1;
        }
        out.push(32);
        proof {
            let pre = tv.subrange(0, i + 1);
            assert(pre.drop_last() =~= tv.subrange(0, i as int));
            assert(pre.last().0 == name@);
            assert(out@ =~= before + name@ + seq![32u8]);
        }
        i = i + 1;
    }
    assert(tv.subrange(0, i as int) =~= tv);
    out.push(10);
    out
}

/// The `.dbinfo` text for a page size and a schema-page cell count.
pub open spec fn dbinfo_text(page_size: nat, cells: nat) -> Seq<u8> {
    seq![100u8, 97, 116, 97, 98, 97, 115, 101, 32, 112, 97, 103, 101, 32, 115, 105, 122, 101, 58, 32]
        + nat_text(page_size) + seq![10u8] + seq![110u8, 117, 109, 98, 101, 114, 32, 111, 102, 32, 116, 97,
        98, 108, 101, 115, 58, 32] + nat_text(cells) + seq![10u8]
}

impl Pager {
    /// The number of cells on page 1, the schema table's root.
    pub fn schema_cells(&self) -> (r: Result<u16, DbError>)
        requires
            self.wf(),
        ensures
            match page_at(self.file(), self.page_size as nat, 1) {
                Ok(p) => if header_ok(p, 100) {
                    r is Ok && r->Ok_0 as nat == cell_count(p, 100)
                } else {
                    r == Err::<u16, DbError>(DbError::CorruptPage)
                },
                Err(e) => r == Err::<u16, DbError>(e),
            },
    {
        let p = match self.page(1) {
            Err(e) => {
                return Err(e);
            },
            Ok(p) => p,
        };
        match read_header(p, 100) {
            Err(e) => Err(e),
            Ok(h) => Ok(h.cells),
        }
    }

    /// The `.dbinfo` text: the page size and the number of cells on page 1.
    pub fn dbinfo(&self) -> (r: Result<Vec<u8>, DbError>)
        requires
            self.wf(),
        ensures
            match page_at(self.file(), self.page_size as nat, 1) {
                Ok(p) => if header_ok(p, 100) {
                    r is Ok && r->Ok_0@ == dbinfo_text(self.page_size as nat, cell_count(p, 100))
                } else {
                    r == Err::<Vec<u8>, DbError>(DbError::CorruptPage)
                },
                Err(e) => r == Err::<Vec<u8>, DbError>(e),
            },
    {
        let cells = match self.schema_cells() {
            Err(e) => {
                return Err(e);
            },
            Ok(c) => c,
        };
        let head: [u8; 20] = [100, 97, 116, 97, 98, 97, 115, 101, 32, 112, 97, 103, 101, 32, 115, 105, 122, 101, 58, 32];
        let mid: [u8; 18] = [110, 117, 109, 98, 101, 114, 32, 111, 102, 32, 116, 97, 98, 108, 101, 115, 58, 32];
        let mut out: Vec<u8> = vstd::slice::slice_to_vec(head.as_slice());
        push_digits(self.page_size as u64, &mut out);
        out.push(10);
        let ghost a = out@;
        let mut tail: Vec<u8> = vstd::slice::slice_to_vec(mid.as_slice());
        push_digits(cells as u64, &mut tail);
        tail.push(10);
        let mut k: usize = 0;
        while k < tail.len()
            invariant
                k <= tail@.len(),
                out@ == a + tail@.subrange(0, k as int),
            decreases tail@.len() - k,
        {
            out.push(tail[k]);
            assert(out@ =~= a + tail@.subrange(0, k + 1));
            k = k + 1;
        }
        assert(tail@.subrange(0, k as int) =~= tail@);
        assert(out@ =~= dbinfo_text(self.page_size as nat, cells as nat));
        Ok(out)
    }
}

} // verus!
