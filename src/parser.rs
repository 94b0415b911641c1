use vstd::prelude::*;

use crate::ast::{
    items_view,
    Expr,
    ExprModel,
    Literal,
    LiteralModel,
    SelectItem,
    SelectItemModel,
    SelectModel,
    SelectStatement,
};
use crate::error::DbError;

verus! {

/// Byte classes of the grammar: 0 whitespace, 1 identifier characters after
/// the first, 2 digits, 3 anything but a single quote.
pub open spec fn in_class(b: u8, class: u8) -> bool {
    if class == 0 {
        b == 32 || b == 9 || b == 10 || b == 13
    } else if class == 1 {
        (65 <= b <= 90) || (97 <= b <= 122) || b == 95 || (48 <= b <= 57)
    } else if class == 2 {
        48 <= b <= 57
    } else {
        b != 39
    }
}

/// A letter or `_`: what an identifier starts with.
pub open spec fn ident_start(b: u8) -> bool {
    (65 <= b <= 90) || (97 <= b <= 122) || b == 95
}

/// The end of the longest run of bytes of `class` that starts at `i`.
pub open spec fn run_end(s: Seq<u8>, i: int, class: u8) -> int
    decreases s.len() - i,
{
    if 0 <= i < s.len() && in_class(s[i], class) {
        run_end(s, i + 1, class)
    } else {
        i
    }
}

pub open spec fn skip_ws(s: Seq<u8>, i: int) -> int {
    run_end(s, i, 0)
}

/// `w` (upper-case letters) stands at `i`, in any mix of cases.
pub open spec fn keyword_at(s: Seq<u8>, i: int, w: Seq<u8>) -> bool {
    0 <= i && i + w.len() <= s.len() && forall|k: int| 0 <= k < w.len() ==> (#[trigger] s[i + k] == w[k] || s[i + k] == w[k] + 32)
}

pub open spec fn kw_select() -> Seq<u8> {
    seq![83u8, 69, 76, 69, 67, 84]
}

pub open spec fn kw_from() -> Seq<u8> {
    seq![70u8, 82, 79, 77]
}

pub open spec fn kw_count() -> Seq<u8> {
    seq![67u8, 79, 85, 78, 84]
}

pub open spec fn kw_where() -> Seq<u8> {
    seq![87u8, 72, 69, 82, 69]
}

/// Value of a string of decimal digits.
pub open spec fn digits_value(d: Seq<u8>) -> nat
    decreases d.len(),
{
    if d.len() == 0 {
        0
    } else {
        digits_value(d.drop_last()) * 10 + (d.last() - 48) as nat
    }
}

/// The end of the identifier at `i`, if one starts there.
pub open spec fn ident_at(s: Seq<u8>, i: int) -> Option<int> {
    if 0 <= i < s.len() && ident_start(s[i]) {
        Some(run_end(s, i + 1, 1))
    } else {
        None
    }
}

/// The literal at `i` and its end: an identifier, a single-quoted string, or
/// a number (digits, with an optional fraction of digits).
pub open spec fn literal_at(s: Seq<u8>, i: int) -> Option<(LiteralModel, int)> {
    if !(0 <= i < s.len()) {
        None
    } else if ident_start(s[i]) {
        let e = run_end(s, i + 1, 1);
        Some((LiteralModel::Ident(s.subrange(i, e)), e))
    } else if s[i] == 39 {
        let e = run_end(s, i + 1, 3);
        if e < s.len() {
            Some((LiteralModel::StringLiteral(s.subrange(i + 1, e)), e + 1))
        } else {
            None
        }
    } else if in_class(s[i], 2) {
        let d = run_end(s, i, 2);
        if d + 1 < s.len() && s[d] == 46 && in_class(s[d + 1], 2) {
            let f = run_end(s, d + 1, 2);
            Some((LiteralModel::DecimalLiteral(s.subrange(i, f)), f))
        } else if digits_value(s.subrange(i, d)) <= i64::MAX {
            Some((LiteralModel::IntegerLiteral(digits_value(s.subrange(i, d)) as i64), d))
        } else {
            Some((LiteralModel::DecimalLiteral(s.subrange(i, d)), d))
        }
    } else {
        None
    }
}

/// Further `, item` entries of a select list after `k`, added to `acc`.
pub open spec fn items_tail(s: Seq<u8>, k: int, acc: Seq<SelectItemModel>) -> (Seq<SelectItemModel>, int)
    decreases s.len() - k,
{
    let j = skip_ws(s, k);
    if 0 <= j < s.len() && s[j] == 44 {
        match literal_at(s, skip_ws(s, j + 1)) {
            Some((l, e)) => if k < e <= s.len() {
                items_tail(s, e, acc.push(SelectItemModel::Literal(l)))
            } else {
                (acc, k)
            },
            None => (acc, k),
        }
    } else {
        (acc, k)
    }
}

/// The select list at `i`: `*`, `COUNT(*)`, or literals separated by commas.
pub open spec fn select_list_at(s: Seq<u8>, i: int) -> Option<(Seq<SelectItemModel>, int)> {
    if 0 <= i < s.len() && s[i] == 42 {
        Some((seq![SelectItemModel::Star], i + 1))
    } else if keyword_at(s, i, kw_count()) && i + 8 <= s.len() && s[i + 5] == 40 && s[i + 6] == 42
        && s[i + 7] == 41 {
        Some((seq![SelectItemModel::Count], i + 8))
    } else {
        match literal_at(s, i) {
            Some((l, e)) => Some(items_tail(s, e, seq![SelectItemModel::Literal(l)])),
            None => None,
        }
    }
}

/// The expression at `i`: `literal = literal`, or else one literal.
pub open spec fn expr_at(s: Seq<u8>, i: int) -> Option<(ExprModel, int)> {
    match literal_at(s, i) {
        None => None,
        Some((l1, e1)) => {
            let j = skip_ws(s, e1);
            if 0 <= j < s.len() && s[j] == 61 {
                match literal_at(s, skip_ws(s, j + 1)) {
                    Some((l2, e2)) => Some((ExprModel::Equality { column: l1, condition: l2 }, e2)),
                    None => Some((ExprModel::Literal(l1), e1)),
                }
            } else {
                Some((ExprModel::Literal(l1), e1))
            }
        },
    }
}

/// The statement that the whole of `s` spells:
/// `SELECT list FROM table [WHERE expr] [;]`, with whitespace around the parts.
pub open spec fn statement(s: Seq<u8>) -> Option<SelectModel> {
    let i0 = skip_ws(s, 0);
    if !keyword_at(s, i0, kw_select()) {
        None
    } else {
        match select_list_at(s, skip_ws(s, i0 + 6)) {
            None => None,
            Some((cols, i2)) => {
                let i3 = skip_ws(s, i2);
                if !keyword_at(s, i3, kw_from()) {
                    None
                } else {
                    let i4 = skip_ws(s, i3 + 4);
                    match ident_at(s, i4) {
                        None => None,
                        Some(e) => {
                            let i5 = skip_ws(s, e);
                            let (w, p) = if keyword_at(s, i5, kw_where()) {
                                match expr_at(s, skip_ws(s, i5 + 5)) {
                                    Some((x, q)) => (Some(x), q),
                                    None => (None, e),
                                }
                            } else {
                                (None, e)
                            };
                            let p2 = skip_ws(s, p);
                            let p3 = if 0 <= p2 < s.len() && s[p2] == 59 {
                                p2 + 1
                            } else {
                                p2
                            };
                            if skip_ws(s, p3) == s.len() {
                                Some(SelectModel { columns: cols, table: s.subrange(i4, e), where_expr: w })
                            } else {
                                None
                            }
                        },
                    }
                }
            },
        }
    }
}

proof fn lemma_run_bounds(s: Seq<u8>, i: int, class: u8)
    requires
        0 <= i <= s.len(),
    ensures
        i <= run_end(s, i, class) <= s.len(),
        forall|k: int| i <= k < run_end(s, i, class) ==> in_class(#[trigger] s[k], class),
    decreases s.len() - i,
{
    if i < s.len() && in_class(s[i], class) {
        lemma_run_bounds(s, i + 1, class);
    }
}

fn byte_in_class(b: u8, class: u8) -> (r: bool)
    ensures
        r == in_class(b, class),
{
    if class == 0 {
        b == 32 || b == 9 || b == 10 || b == 13
    } else if class == 1 {
        (65 <= b && b <= 90) || (97 <= b && b <= 122) || b == 95 || (48 <= b && b <= 57)
    } else if class == 2 {
        48 <= b && b <= 57
    } else {
        b != 39
    }
}

/// The end of the run of bytes of `class` from `i` (see `run_end`).
fn run(s: &[u8], i: usize, class: u8) -> (r: usize)
    requires
        i <= s@.len(),
    ensures
        r as int == run_end(s@, i as int, class),
        i <= r <= s@.len(),
{
    proof {
        lemma_run_bounds(s@, i as int, class);
    }
    let mut j = i;
    while j < s.len() && byte_in_class(s[j], class)
        invariant
            i <= j <= s@.len(),
            run_end(s@, i as int, class) == run_end(s@, j as int, class),
        decreases s@.len() - j,
    {
        j = j + 1;
    }
    j
}

fn keyword(s: &[u8], i: usize, w: &[u8]) -> (r: bool)
    ensures
        r == keyword_at(s@, i as int, w@),
{
    if i > s.len() || s.len() - i < w.len() {
        return false;
    }
    let mut k: usize = 0;
    let n = s.len();
    while k < w.len()
        invariant
            n == s@.len(),
            i + w@.len() <= n,
            k <= w@.len(),
            forall|m: int| 0 <= m < k ==> (#[trigger] s@[i + m] == w@[m] || s@[i + m] == w@[m] + 32),
        decreases w@.len() - k,
    {
        let c = s[i + k];
        if !(c == w[k] || (w[k] < 224 && c == w[k] + 32)) {
            assert(!(s@[i + k] == w@[k as int] || s@[i + k] == w@[k as int] + 32));
            return false;
        }
        k = k + 1;
    }
    true
}

proof fn lemma_digits_prefix(d: Seq<u8>, k: nat)
    requires
        k <= d.len(),
        forall|m: int| 0 <= m < d.len() ==> in_class(#[trigger] d[m], 2),
    ensures
        digits_value(d.subrange(0, k as int)) <= digits_value(d),
    decreases d.len() - k,
{
    if k < d.len() {
        lemma_digits_prefix(d, k + 1);
        let p = d.subrange(0, k as int + 1);
        assert(p.drop_last() =~= d.subrange(0, k as int));
    } else {
        assert(d.subrange(0, k as int) =~= d);
    }
}

/// Value of a string of digits, when it fits in an `i64`.
fn digits_to_int(d: &[u8]) -> (r: Option<i64>)
    requires
        forall|m: int| 0 <= m < d@.len() ==> in_class(#[trigger] d@[m], 2),
    ensures
        digits_value(d@) <= i64::MAX ==> r == Some(digits_value(d@) as i64),
        digits_value(d@) > i64::MAX ==> r is None,
{
    let mut v: i64 = 0;
    let mut k: usize = 0;
    assert(d@.subrange(0, 0).len() == 0);
    while k < d.len()
        invariant
            k <= d@.len(),
            forall|m: int| 0 <= m < d@.len() ==> in_class(#[trigger] d@[m], 2),
            v as int == digits_value(d@.subrange(0, k as int)),
            v >= 0,
        decreases d@.len() - k,
    {
        let dig = (d[k] - 48) as i64;
        let ghost p = d@.subrange(0, k as int + 1);
        assert(p.drop_last() =~= d@.subrange(0, k as int));
        if v > (0x7fff_ffff_ffff_ffff - dig) / 10 {
            proof {
                lemma_digits_prefix(d@, (k + 1) as nat);
            }
            return None;
        }
        v = v * 10 + dig;
        k = k + 1;
    }
    assert(d@.subrange(0, k as int) =~= d@);
    Some(v)
}

fn copy_range(s: &[u8], a: usize, b: usize) -> (r: Vec<u8>)
    requires
        a <= b <= s@.len(),
    ensures
        r@ == s@.subrange(a as int, b as int),
{
    vstd::slice::slice_to_vec(vstd::slice::slice_subrange(s, a, b))
}

/// The literal at `i` (see `literal_at`).
fn literal(s: &[u8], i: usize) -> (r: Option<(Literal, usize)>)
    ensures
        match literal_at(s@, i as int) {
            Some((l, e)) => r is Some && r->Some_0.0@ == l && r->Some_0.1 as int == e,
            None => r is None,
        },
        r is Some ==> i < r->Some_0.1 <= s@.len(),
{
    if i >= s.len() {
        return None;
    }
    let c = s[i];
    if (65 <= c && c <= 90) || (97 <= c && c <= 122) || c == 95 {
        let e = run(s, i + 1, 1);
        return Some((Literal::Ident(copy_range(s, i, e)), e));
    }
    if c == 39 {
        let e = run(s, i + 1, 3);
        if e < s.len() {
            return Some((Literal::StringLiteral(copy_range(s, i + 1, e)), e + 1));
        }
        return None;
    }
    if 48 <= c && c <= 57 {
        proof {
            lemma_run_bounds(s@, i as int + 1, 2);
        }
        let d = run(s, i, 2);
        assert(d > i);
        if s.len() - d > 1 && s[d] == 46 && 48 <= s[d + 1] && s[d + 1] <= 57 {
            let f = run(s, d + 1, 2);
            return Some((Literal::DecimalLiteral(copy_range(s, i, f)), f));
        }
        proof {
            lemma_run_bounds(s@, i as int, 2);
        }
        let digits = vstd::slice::slice_subrange(s, i, d);
        assert forall|m: int| 0 <= m < digits@.len() implies in_class(#[trigger] digits@[m], 2) by {
            assert(digits@[m] == s@[i + m]);
        }
        return match digits_to_int(digits) {
            Some(v) => Some((Literal::IntegerLiteral(v), d)),
            None => Some((Literal::DecimalLiteral(copy_range(s, i, d)), d)),
        };
    }
    None
}

/// The select list at `i` (see `select_list_at`).
fn select_list(s: &[u8], i: usize) -> (r: Option<(Vec<SelectItem>, usize)>)
    ensures
        match select_list_at(s@, i as int) {
            Some((items, e)) => r is Some && items_view(r->Some_0.0@) == items && r->Some_0.1 as int == e,
            None => r is None,
        },
{
    if i < s.len() && s[i] == 42 {
        let mut v: Vec<SelectItem> = Vec::new();
        v.push(SelectItem::Star);
        assert(items_view(v@) =~= seq![SelectItemModel::Star]);
        return Some((v, i + 1));
    }
    let count_word: [u8; 5] = [67, 79, 85, 78, 84];
    assert(count_word@ =~= kw_count());
    if keyword(s, i, count_word.as_slice()) && s.len() - i >= 8 && s[i + 5] == 40 && s[i + 6] == 42
        && s[i + 7] == 41 {
        let mut v: Vec<SelectItem> = Vec::new();
        v.push(SelectItem::Count);
        assert(items_view(v@) =~= seq![SelectItemModel::Count]);
        return Some((v, i + 8));
    }
    let (l, e) = match literal(s, i) {
        None => {
            return None;
        },
        Some(x) => x,
    };
    let mut v: Vec<SelectItem> = Vec::new();
    let ghost lm = l@;
    v.push(SelectItem::Literal(l));
    assert(items_view(v@) =~= seq![SelectItemModel::Literal(lm)]);
    let mut k = e;
    loop
        invariant
            k <= s@.len(),
            select_list_at(s@, i as int) == Some(items_tail(s@, e as int, seq![SelectItemModel::Literal(lm)])),
            items_tail(s@, e as int, seq![SelectItemModel::Literal(lm)]) == items_tail(s@, k as int, items_view(v@)),
        decreases s@.len() - k,
    {
        let j = run(s, k, 0);
        if !(j < s.len() && s[j] == 44) {
            return Some((v, k));
        }
        let j2 = run(s, j + 1, 0);
        match literal(s, j2) {
            None => {
                return Some((v, k));
            },
            Some((l2, e2)) => {
                if !(k < e2 && e2 <= s.len()) {
                    return Some((v, k));
                }
                let ghost before = items_view(v@);
                let ghost l2m = l2@;
                v.push(SelectItem::Literal(l2));
                assert(items_view(v@) =~= before.push(SelectItemModel::Literal(l2m)));
                k = e2;
            },
        }
    }
}

/// The expression at `i` (see `expr_at`).
fn expr(s: &[u8], i: usize) -> (r: Option<(Expr, usize)>)
    ensures
        match expr_at(s@, i as int) {
            Some((x, e)) => r is Some && r->Some_0.0@ == x && r->Some_0.1 as int == e,
            None => r is None,
        },
{
    let (l1, e1) = match literal(s, i) {
        None => {
            return None;
        },
        Some(x) => x,
    };
    let j = run(s, e1, 0);
    if j < s.len() && s[j] == 61 {
        let j2 = run(s, j + 1, 0);
        match literal(s, j2) {
            Some((l2, e2)) => {
                return Some((Expr::Equality { column: l1, condition: l2 }, e2));
            },
            None => {},
        }
    }
    Some((Expr::Literal(l1), e1))
}

/// Parses a statement of the SQL subset (see `statement`); anything else is
/// a `ParseError`.
pub fn parse_statement(sql: &[u8]) -> (r: Result<SelectStatement, DbError>)
    ensures
        match statement(sql@) {
            Some(m) => r is Ok && r->Ok_0@ == m,
            None => r == Err::<SelectStatement, DbError>(DbError::ParseError),
        },
{
    let s = sql;
    let select_word: [u8; 6] = [83, 69, 76, 69, 67, 84];
    let from_word: [u8; 4] = [70, 82, 79, 77];
    let where_word: [u8; 5] = [87, 72, 69, 82, 69];
    assert(select_word@ =~= kw_select());
    assert(from_word@ =~= kw_from());
    assert(where_word@ =~= kw_where());
    let n = s.len();
    let i0 = run(s, 0, 0);
    if !keyword(s, i0, select_word.as_slice()) {
        return Err(DbError::ParseError);
    }
    assert(i0 + 6 <= n);
    let i1 = run(s, i0 + 6, 0);
    let (columns, i2) = match select_list(s, i1) {
        None => {
            return Err(DbError::ParseError);
        },
        Some(x) => x,
    };
    if i2 > s.len() {
        return Err(DbError::ParseError);
    }
    let i3 = run(s, i2, 0);
    if !keyword(s, i3, from_word.as_slice()) {
        return Err(DbError::ParseError);
    }
    let i4 = run(s, i3 + 4, 0);
    if !(i4 < s.len() && ((65 <= s[i4] && s[i4] <= 90) || (97 <= s[i4] && s[i4] <= 122) || s[i4] == 95)) {
        return Err(DbError::ParseError);
    }
    let e = run(s, i4 + 1, 1);
    let table = copy_range(s, i4, e);
    let i5 = run(s, e, 0);
    let mut where_expr: Option<Expr> = None;
    let mut p = e;
    if keyword(s, i5, where_word.as_slice()) {
        let i6 = run(s, i5 + 5, 0);
        match expr(s, i6) {
            Some((x, q)) => {
                where_expr = Some(x);
                p = q;
            },
            None => {},
        }
    }
    if p > s.len() {
        return Err(DbError::ParseError);
    }
    let p2 = run(s, p, 0);
    let p3 = if p2 < s.len() && s[p2] == 59 {
        p2 + 1
    } else {
        p2
    };
    let p4 = run(s, p3, 0);
    if p4 != s.len() {
        return Err(DbError::ParseError);
    }
    Ok(SelectStatement { columns, table, where_expr })
}

} // verus!
