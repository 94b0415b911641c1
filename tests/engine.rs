use sqlite_lite::ast::{Expr, Literal, SelectItem};
use sqlite_lite::btree::Row;
use sqlite_lite::codec::{get_column_size, get_column_type, get_u64_from_size_n, get_varint, read_be_int};
use sqlite_lite::command::{parse_command, render_value, tables_line, Command};
use sqlite_lite::error::DbError;
use sqlite_lite::pager::Pager;
use sqlite_lite::parser::parse_statement;
use sqlite_lite::record::{decode_record, Value};
use sqlite_lite::schema::{get_table_info, parse_columns, Column, Table};

#[derive(Clone)]
enum TV {
    Null,
    Int(i64),
    Text(String),
}

fn varint(v: u64) -> Vec<u8> {
    if v > 0x00ff_ffff_ffff_ffff {
        let mut out = Vec::new();
        let hi = v >> 8;
        for k in (0..8).rev() {
            out.push(0x80 | ((hi >> (7 * k)) & 0x7f) as u8);
        }
        out.push((v & 0xff) as u8);
        return out;
    }
    let mut groups = vec![(v & 0x7f) as u8];
    let mut rest = v >> 7;
    while rest > 0 {
        groups.push(0x80 | (rest & 0x7f) as u8);
        rest >>= 7;
    }
    groups.reverse();
    groups
}

fn record(vals: &[TV]) -> Vec<u8> {
    let mut types: Vec<u8> = Vec::new();
    let mut body: Vec<u8> = Vec::new();
    for v in vals {
        match v {
            TV::Null => types.extend(varint(0)),
            TV::Int(n) => {
                let (t, len) = if *n >= -128 && *n <= 127 {
                    (1, 1)
                } else if *n >= -32768 && *n <= 32767 {
                    (2, 2)
                } else if *n >= -(1 << 31) && *n < (1 << 31) {
                    (4, 4)
                } else {
                    (6, 8)
                };
                types.extend(varint(t));
                body.extend(&n.to_be_bytes()[8 - len..]);
            }
            TV::Text(s) => {
                types.extend(varint(13 + 2 * s.len() as u64));
                body.extend(s.as_bytes());
            }
        }
    }
    let mut h = types.len() + 1;
    if varint(h as u64).len() > 1 {
        h += 1;
    }
    let mut out = varint(h as u64);
    out.extend(types);
    out.extend(body);
    out
}

fn page(ps: usize, hdr: usize, kind: u8, right: Option<u32>, cells: &[Vec<u8>]) -> Vec<u8> {
    let mut p = vec![0u8; ps];
    p[hdr] = kind;
    p[hdr + 3..hdr + 5].copy_from_slice(&(cells.len() as u16).to_be_bytes());
    let base = if let Some(r) = right {
        p[hdr + 8..hdr + 12].copy_from_slice(&r.to_be_bytes());
        hdr + 12
    } else {
        hdr + 8
    };
    let mut end = ps;
    for (i, c) in cells.iter().enumerate() {
        end -= c.len();
        p[end..end + c.len()].copy_from_slice(c);
        p[base + 2 * i..base + 2 * i + 2].copy_from_slice(&(end as u16).to_be_bytes());
    }
    p
}

fn table_leaf_cell(rowid: i64, vals: &[TV]) -> Vec<u8> {
    let rec = record(vals);
    let mut c = varint(rec.len() as u64);
    c.extend(varint(rowid as u64));
    c.extend(rec);
    c
}

fn table_interior_cell(child: u32, key: i64) -> Vec<u8> {
    let mut c = child.to_be_bytes().to_vec();
    c.extend(varint(key as u64));
    c
}

fn index_leaf_cell(key: &str, rowid: i64) -> Vec<u8> {
    let rec = record(&[TV::Text(key.to_string()), TV::Int(rowid)]);
    let mut c = varint(rec.len() as u64);
    c.extend(rec);
    c
}

fn index_interior_cell(child: u32, key: &str, rowid: i64) -> Vec<u8> {
    let mut c = child.to_be_bytes().to_vec();
    c.extend(index_leaf_cell(key, rowid));
    c
}

const APPLES_SQL: &str = "CREATE TABLE apples\n(\n\tid integer primary key autoincrement,\n\tname text,\n\tcolor text\n)";
const INDEX_SQL: &str = "CREATE INDEX idx_color\n\ton apples (color)";

fn apples() -> Vec<(i64, &'static str, &'static str)> {
    vec![
        (1, "Granny Smith", "Light Green"),
        (2, "Fuji", "Red"),
        (3, "Honeycrisp", "Blush Red"),
        (4, "Golden Delicious", "Yellow"),
    ]
}

fn apple_cell(id: i64, name: &str, color: &str) -> Vec<u8> {
    table_leaf_cell(id, &[TV::Null, TV::Text(name.into()), TV::Text(color.into())])
}

fn schema_page(ps: usize, table_root: i64, index_root: i64) -> Vec<u8> {
    let t = table_leaf_cell(
        1,
        &[
            TV::Text("table".into()),
            TV::Text("apples".into()),
            TV::Text("apples".into()),
            TV::Int(table_root),
            TV::Text(APPLES_SQL.into()),
        ],
    );
    let i = table_leaf_cell(
        2,
        &[
            TV::Text("index".into()),
            TV::Text("idx_color".into()),
            TV::Text("apples".into()),
            TV::Int(index_root),
            TV::Text(INDEX_SQL.into()),
        ],
    );
    let mut p = page(ps, 100, 13, None, &[t, i]);
    p[..16].copy_from_slice(b"SQLite format 3\0");
    let stored: u16 = if ps == 65536 { 1 } else { ps as u16 };
    p[16..18].copy_from_slice(&stored.to_be_bytes());
    p
}

fn index_page(ps: usize, entries: &[(&str, i64)]) -> Vec<u8> {
    let cells: Vec<Vec<u8>> = entries.iter().map(|(k, r)| index_leaf_cell(k, *r)).collect();
    page(ps, 0, 10, None, &cells)
}

fn sample_db(ps: usize) -> Vec<u8> {
    let mut db = schema_page(ps, 2, 3);
    let cells: Vec<Vec<u8>> = apples().iter().map(|(i, n, c)| apple_cell(*i, n, c)).collect();
    db.extend(page(ps, 0, 13, None, &cells));
    db.extend(index_page(ps, &[("Blush Red", 3), ("Light Green", 1), ("Red", 2), ("Yellow", 4)]));
    db
}

fn text_of(v: &Value) -> String {
    String::from_utf8(render_value(v).unwrap()).unwrap()
}

fn run(db: Vec<u8>, sql: &str) -> Result<Vec<String>, DbError> {
    let pager = Pager::new(db)?;
    let (tables, indices) = get_table_info(&pager)?;
    let stmt = parse_statement(sql.as_bytes())?;
    let lines = pager.run_select(&tables, &indices, &stmt)?;
    Ok(lines.iter().map(|l| l.iter().map(text_of).collect::<Vec<_>>().join("|")).collect())
}

#[test]
fn dbinfo_reports_page_size_and_schema_cells() {
    let pager = Pager::new(sample_db(4096)).unwrap();
    assert!(matches!(parse_command(b".dbinfo"), Ok(Command::DbInfo)));
    let out = pager.dbinfo().unwrap();
    assert_eq!(String::from_utf8(out).unwrap(), "database page size: 4096\nnumber of tables: 2\n");
}

#[test]
fn tables_lists_table_names() {
    let pager = Pager::new(sample_db(4096)).unwrap();
    assert!(matches!(parse_command(b".tables"), Ok(Command::Tables)));
    let (tables, indices) = get_table_info(&pager).unwrap();
    assert_eq!(String::from_utf8(tables_line(&tables)).unwrap(), "apples \n");
    assert_eq!(indices.len(), 1);
    assert_eq!(indices[0].name, b"idx_color".to_vec());
    assert_eq!(indices[0].tbl_name, b"apples".to_vec());
    assert_eq!(indices[0].rootpage, 3);
    assert_eq!(indices[0].columns.len(), 1);
    assert_eq!(indices[0].columns[0].name, b"color".to_vec());
    assert_eq!(tables[0].columns.len(), 3);
    assert_eq!(tables[0].columns[1].name, b"name".to_vec());
    assert_eq!(tables[0].columns[1].ctype, b"text".to_vec());
}

#[test]
fn count_star_counts_rows() {
    assert_eq!(run(sample_db(4096), "SELECT COUNT(*) FROM apples").unwrap(), vec!["4"]);
}

#[test]
fn select_names_in_rowid_order() {
    assert_eq!(
        run(sample_db(4096), "SELECT name FROM apples").unwrap(),
        vec!["Granny Smith", "Fuji", "Honeycrisp", "Golden Delicious"]
    );
}

#[test]
fn where_on_indexed_color_uses_index() {
    assert_eq!(
        run(sample_db(4096), "SELECT id, name FROM apples WHERE color = 'Red'").unwrap(),
        vec!["2|Fuji"]
    );
    // Row 4's record is broken: a full scan meets it, the index plan does not.
    let mut db = sample_db(4096);
    let page2 = 4096;
    let cell4 = apple_cell(4, "Golden Delicious", "Yellow");
    let at = (page2..page2 + 4096).find(|&i| db[i..i + cell4.len()] == cell4[..]).unwrap();
    db[at + 4] = 10;
    assert_eq!(run(db.clone(), "SELECT id, name FROM apples WHERE color = 'Red'").unwrap(), vec!["2|Fuji"]);
    assert_eq!(run(db, "SELECT name FROM apples").unwrap_err(), DbError::Unsupported);
}

#[test]
fn where_id_returns_that_row() {
    assert_eq!(
        run(sample_db(4096), "SELECT name, color FROM apples WHERE id = 3").unwrap(),
        vec!["Honeycrisp|Blush Red"]
    );
    assert_eq!(run(sample_db(4096), "SELECT name FROM apples WHERE id = 9").unwrap(), Vec::<String>::new());
}

#[test]
fn small_and_large_page_sizes() {
    for ps in [512usize, 65536] {
        assert_eq!(run(sample_db(ps), "SELECT COUNT(*) FROM apples").unwrap(), vec!["4"]);
        assert_eq!(
            run(sample_db(ps), "SELECT id, name FROM apples WHERE color = 'Red'").unwrap(),
            vec!["2|Fuji"]
        );
        let pager = Pager::new(sample_db(ps)).unwrap();
        assert_eq!(pager.page_size, ps);
    }
}

fn many_rows(n: i64) -> Vec<(i64, String, String)> {
    (1..=n).map(|i| (i, format!("n{}", i), if i % 3 == 0 { "x".to_string() } else { format!("c{}", i) })).collect()
}

fn deep_db() -> Vec<u8> {
    // Page 2: interior root over pages 3 and 4, both interior over leaves 5..8.
    let ps = 512;
    let rows = many_rows(12);
    let mut db = schema_page(ps, 2, 9);
    db.extend(page(ps, 0, 5, Some(4), &[table_interior_cell(3, 6)]));
    db.extend(page(ps, 0, 5, Some(6), &[table_interior_cell(5, 3)]));
    db.extend(page(ps, 0, 5, Some(8), &[table_interior_cell(7, 9)]));
    for chunk in rows.chunks(3) {
        let cells: Vec<Vec<u8>> = chunk.iter().map(|(i, n, c)| apple_cell(*i, n, c)).collect();
        db.extend(page(ps, 0, 13, None, &cells));
    }
    let mut idx: Vec<(String, i64)> = rows.iter().map(|(i, _, c)| (c.clone(), *i)).collect();
    idx.sort();
    let entries: Vec<(&str, i64)> = idx.iter().map(|(c, i)| (c.as_str(), *i)).collect();
    db.extend(index_page(ps, &entries));
    db
}

fn flat_db() -> Vec<u8> {
    let ps = 4096;
    let rows = many_rows(12);
    let mut db = schema_page(ps, 2, 3);
    let cells: Vec<Vec<u8>> = rows.iter().map(|(i, n, c)| apple_cell(*i, n, c)).collect();
    db.extend(page(ps, 0, 13, None, &cells));
    db.extend(index_page(ps, &[]));
    db
}

#[test]
fn deep_and_flat_tables_enumerate_same_rows() {
    let deep = run(deep_db(), "SELECT * FROM apples").unwrap();
    let flat = run(flat_db(), "SELECT * FROM apples").unwrap();
    assert_eq!(deep.len(), 12);
    assert_eq!(deep, flat);
    assert_eq!(run(deep_db(), "SELECT name FROM apples WHERE id = 8").unwrap(), vec!["n8"]);
    assert_eq!(run(deep_db(), "SELECT COUNT(*) FROM apples").unwrap(), vec!["12"]);
}

#[test]
fn scan_rowids_strictly_increase() {
    let pager = Pager::new(deep_db()).unwrap();
    let mut rows: Vec<Row> = Vec::new();
    pager.scan_table(2, 64, 3, &mut rows).unwrap();
    let ids: Vec<i64> = rows.iter().map(|r| r.rowid).collect();
    assert_eq!(ids, (1..=12).collect::<Vec<_>>());
    // A leaf whose rowids go down is a corrupt page.
    let ps = 4096;
    let mut db = schema_page(ps, 2, 3);
    db.extend(page(ps, 0, 13, None, &[apple_cell(5, "a", "b"), apple_cell(4, "c", "d")]));
    db.extend(index_page(ps, &[]));
    assert_eq!(run(db, "SELECT name FROM apples").unwrap_err(), DbError::CorruptPage);
}

fn index_tree_db() -> Vec<u8> {
    // Index on color whose duplicates of "m" span two children of the root.
    let ps = 512;
    let rows: Vec<(i64, &str)> = vec![(1, "a"), (2, "m"), (3, "m"), (4, "m"), (5, "z"), (6, "m"), (7, "b")];
    let mut db = schema_page(ps, 2, 3);
    let cells: Vec<Vec<u8>> = rows.iter().map(|(i, c)| apple_cell(*i, &format!("n{}", i), c)).collect();
    db.extend(page(ps, 0, 13, None, &cells));
    db.extend(page(ps, 0, 2, Some(5), &[index_interior_cell(4, "m", 3)]));
    db.extend(index_page(ps, &[("a", 1), ("b", 7), ("m", 2)]));
    db.extend(index_page(ps, &[("m", 4), ("m", 6), ("z", 5)]));
    db
}

#[test]
fn index_lookup_zero_one_many() {
    let db = index_tree_db();
    assert_eq!(run(db.clone(), "SELECT id FROM apples WHERE color = 'q'").unwrap(), Vec::<String>::new());
    assert_eq!(run(db.clone(), "SELECT id FROM apples WHERE color = 'b'").unwrap(), vec!["7"]);
    let mut many = run(db.clone(), "SELECT id FROM apples WHERE color = 'm'").unwrap();
    many.sort();
    assert_eq!(many, vec!["2", "3", "4", "6"]);
    let pager = Pager::new(db).unwrap();
    let mut ids: Vec<i64> = Vec::new();
    pager.index_walk(3, 64, 1, &Value::Text(b"m".to_vec()), &mut ids).unwrap();
    assert_eq!(ids, vec![3, 2, 4, 6]);
}

#[test]
fn where_on_unindexed_column_scans() {
    assert_eq!(run(sample_db(4096), "SELECT id FROM apples WHERE name = 'Fuji'").unwrap(), vec!["2"]);
    assert_eq!(run(sample_db(4096), "select * from apples where id = 1;").unwrap(), vec!["1|Granny Smith|Light Green"]);
}

#[test]
fn name_errors() {
    assert_eq!(run(sample_db(4096), "SELECT name FROM pears").unwrap_err(), DbError::UnknownTable);
    assert_eq!(run(sample_db(4096), "SELECT size FROM apples").unwrap_err(), DbError::UnknownColumn);
    assert_eq!(run(sample_db(4096), "SELECT name FROM apples WHERE size = 1").unwrap_err(), DbError::UnknownColumn);
    assert_eq!(run(sample_db(4096), "SELECT name apples").unwrap_err(), DbError::ParseError);
    assert!(matches!(parse_command(b".schema"), Err(DbError::UnknownCommand)));
}

#[test]
fn file_errors() {
    assert!(matches!(Pager::new(vec![0u8; 50]), Err(DbError::Io)));
    let mut db = sample_db(4096);
    db[16] = 0;
    db[17] = 100;
    assert!(matches!(Pager::new(db), Err(DbError::CorruptPage)));
    let mut db = sample_db(4096);
    db.truncate(4096 * 2);
    assert_eq!(run(db, "SELECT id FROM apples WHERE color = 'Red'").unwrap_err(), DbError::Io);
    let mut db = sample_db(4096);
    db[4096] = 7;
    assert_eq!(run(db, "SELECT name FROM apples").unwrap_err(), DbError::CorruptPage);
}

#[test]
fn varints_decode() {
    let mut at = 0usize;
    assert_eq!(get_varint(&[0x05], &mut at), Ok(5));
    assert_eq!(at, 1);
    let mut at = 0usize;
    assert_eq!(get_varint(&[0x81, 0x00], &mut at), Ok(128));
    assert_eq!(at, 2);
    let mut at = 1usize;
    assert_eq!(get_varint(&[0xff, 0x82, 0x2c], &mut at), Ok(300));
    assert_eq!(at, 3);
    let nine = [0xffu8; 9];
    let mut at = 0usize;
    assert_eq!(get_varint(&nine, &mut at), Ok(-1));
    assert_eq!(at, 9);
    let mut at = 0usize;
    assert_eq!(get_varint(&[0x80, 0x80], &mut at), Err(DbError::MalformedVarint));
    assert_eq!(at, 0);
    for n in [0i64, 1, 127, 128, 16383, 16384, 1 << 40, i64::MAX, -1, i64::MIN, -12345] {
        let enc = varint(n as u64);
        let mut at = 0usize;
        assert_eq!(get_varint(&enc, &mut at), Ok(n));
        assert_eq!(at, enc.len());
    }
}

#[test]
fn serial_type_sizes_and_classes() {
    for t in [0i64, 8, 9, 12, 13] {
        assert_eq!(get_column_size(t), 0);
    }
    assert_eq!(get_column_size(1), 1);
    assert_eq!(get_column_size(3), 3);
    assert_eq!(get_column_size(5), 6);
    assert_eq!(get_column_size(6), 8);
    assert_eq!(get_column_size(7), 8);
    assert_eq!(get_column_size(20), 4);
    assert_eq!(get_column_size(21), 4);
    assert_eq!(get_column_type(4), 4);
    assert_eq!(get_column_type(30), 12);
    assert_eq!(get_column_type(31), 13);
}

#[test]
fn big_endian_reads() {
    assert_eq!(get_u64_from_size_n(&[0x01, 0x02, 0x03], 2), 0x0102);
    assert_eq!(read_be_int(&[0xff], 1), -1);
    assert_eq!(read_be_int(&[0x80, 0x00], 2), -32768);
    assert_eq!(read_be_int(&[0x00, 0x01, 0x00], 3), 256);
    assert_eq!(read_be_int(&[0xff, 0xff, 0xff, 0xff, 0xff, 0xfe], 6), -2);
    assert_eq!(read_be_int(&[0x7f, 0xff, 0xff, 0xff, 0xff, 0xff, 0xff, 0xff], 8), i64::MAX);
}

#[test]
fn records_decode_to_column_count() {
    let rec = record(&[TV::Null, TV::Int(-300), TV::Text("hi".into())]);
    let (vals, end) = decode_record(&rec, 0, 3).unwrap();
    assert_eq!(vals.len(), 3);
    assert_eq!(end, rec.len());
    assert_eq!(vals[0], Value::Null);
    assert_eq!(vals[1], Value::Integer(-300));
    assert_eq!(vals[2], Value::Text(b"hi".to_vec()));
    // A header size that disagrees with the serial types.
    let mut bad = rec.clone();
    bad[0] += 1;
    assert_eq!(decode_record(&bad, 0, 3).unwrap_err(), DbError::MalformedRecord);
    // A reserved serial type.
    let reserved = vec![2u8, 10];
    assert_eq!(decode_record(&reserved, 0, 1).unwrap_err(), DbError::Unsupported);
    // A body that runs past the end.
    let short = vec![2u8, 23, b'a'];
    assert_eq!(decode_record(&short, 0, 1).unwrap_err(), DbError::MalformedRecord);
    // Constants, a real and a blob.
    let mixed = vec![5u8, 8, 9, 7, 16, 0x3f, 0xf0, 0, 0, 0, 0, 0, 0, 0xab, 0xcd];
    let (vals, _) = decode_record(&mixed, 0, 4).unwrap();
    assert_eq!(vals[0], Value::Integer(0));
    assert_eq!(vals[1], Value::Integer(1));
    assert_eq!(vals[2], Value::Real(0x3ff0_0000_0000_0000));
    assert_eq!(vals[3], Value::Blob(vec![0xab, 0xcd]));
}

#[test]
fn values_render() {
    assert_eq!(text_of(&Value::Null), "null");
    assert_eq!(text_of(&Value::Integer(-42)), "-42");
    assert_eq!(text_of(&Value::Integer(i64::MIN)), "-9223372036854775808");
    assert_eq!(text_of(&Value::Text(b"Fuji".to_vec())), "Fuji");
    assert_eq!(render_value(&Value::Blob(vec![1])).unwrap_err(), DbError::Unsupported);
}

#[test]
fn statements_parse() {
    let st = parse_statement(b"  select Name, color FROM apples WhErE id = 12 ; ").unwrap();
    assert_eq!(st.table, b"apples".to_vec());
    assert_eq!(st.columns.len(), 2);
    assert!(matches!(&st.columns[0], SelectItem::Literal(Literal::Ident(n)) if n == b"Name"));
    match st.where_expr.as_ref().unwrap().get_equality() {
        Some((c, v)) => {
            assert_eq!(c.get_ident().unwrap(), &b"id".to_vec());
            assert!(matches!(v, Literal::IntegerLiteral(12)));
        }
        None => panic!("not an equality"),
    }
    let st = parse_statement(b"SELECT count(*) FROM t").unwrap();
    assert!(matches!(st.columns[0], SelectItem::Count));
    let st = parse_statement(b"SELECT * FROM t WHERE x = 'a b'").unwrap();
    assert!(matches!(st.columns[0], SelectItem::Star));
    assert!(matches!(&st.where_expr, Some(Expr::Equality { condition: Literal::StringLiteral(s), .. }) if s == b"a b"));
    let st = parse_statement(b"SELECT a FROM t WHERE x = 1.5").unwrap();
    assert!(matches!(&st.where_expr, Some(Expr::Equality { condition: Literal::DecimalLiteral(s), .. }) if s == b"1.5"));
    assert_eq!(parse_statement(b"SELECT a FROM t extra").unwrap_err(), DbError::ParseError);
    assert_eq!(parse_statement(b"DELETE FROM t").unwrap_err(), DbError::ParseError);
}

#[test]
fn column_lists_parse() {
    let cols = parse_columns(APPLES_SQL.as_bytes());
    let names: Vec<Vec<u8>> = cols.iter().map(|c| c.name.clone()).collect();
    assert_eq!(names, vec![b"id".to_vec(), b"name".to_vec(), b"color".to_vec()]);
    assert_eq!(cols[0].ctype, b"integer".to_vec());
    assert!(parse_columns(b"no parens").is_empty());
    let c = Column::new(b"a", b"int");
    let t = Table::new(b"t", b"t", 2, vec![c]);
    assert_eq!(t.rootpage, 2);
    assert_eq!(t.columns[0].ctype, b"int".to_vec());
}

#[test]
fn walker_entry_points() {
    let pager = Pager::new(deep_db()).unwrap();
    let all = sqlite_lite::btree::read_page(&pager, 2, 3, None).unwrap();
    assert_eq!(all.len(), 12);
    let one = sqlite_lite::btree::read_page(&pager, 2, 3, Some(7)).unwrap();
    assert_eq!(one.len(), 1);
    assert_eq!(one[0].rowid, 7);
    assert_eq!(one[0].values[1], Value::Text(b"n7".to_vec()));
    assert!(sqlite_lite::btree::read_page(&pager, 2, 3, Some(40)).unwrap().is_empty());
    let pager = Pager::new(sample_db(4096)).unwrap();
    let ids = sqlite_lite::index::read_index(&pager, 3, 1, &Value::Text(b"Yellow".to_vec())).unwrap();
    assert_eq!(ids, vec![4]);
    assert!(sqlite_lite::index::read_index(&pager, 3, 1, &Value::Integer(5)).unwrap().is_empty());
    assert_eq!(sqlite_lite::index::read_index(&pager, 0, 1, &Value::Null).unwrap_err(), DbError::CorruptPage);
}

#[test]
fn index_rows_carry_the_key() {
    let lines = run(index_tree_db(), "SELECT color, name FROM apples WHERE color = 'm'").unwrap();
    assert_eq!(lines.len(), 4);
    for l in &lines {
        assert!(l.starts_with("m|"));
    }
}

#[test]
fn overflow_payloads_are_unsupported() {
    let ps = 512;
    let mut db = schema_page(ps, 2, 3);
    let mut cell = varint(700);
    cell.extend(varint(1));
    cell.extend(record(&[TV::Null, TV::Text("x".into()), TV::Text("y".into())]));
    db.extend(page(ps, 0, 13, None, &[cell]));
    db.extend(index_page(ps, &[]));
    assert_eq!(run(db, "SELECT name FROM apples").unwrap_err(), DbError::Unsupported);
}

#[test]
fn invalid_text_is_an_encoding_error() {
    assert_eq!(render_value(&Value::Text(vec![0xff, 0x41])).unwrap_err(), DbError::Encoding);
    assert_eq!(render_value(&Value::Text(vec![0xc3, 0xa9])).unwrap(), vec![0xc3, 0xa9]);
    assert_eq!(render_value(&Value::Text(vec![0xed, 0xa0, 0x80])).unwrap_err(), DbError::Encoding);
    assert_eq!(render_value(&Value::Text(vec![0xf0, 0x9f, 0x8d, 0x8e])).unwrap(), vec![0xf0, 0x9f, 0x8d, 0x8e]);
}

#[test]
fn null_index_keys_are_passed_over() {
    // The interior cell's key is NULL, which sorts first: the search goes on
    // to the cells after it and the rightmost child.
    let ps = 512;
    let mut db = schema_page(ps, 2, 3);
    let rows: Vec<(i64, &str)> = vec![(1, "k"), (2, "m"), (3, "m")];
    let cells: Vec<Vec<u8>> = rows.iter().map(|(i, c)| apple_cell(*i, &format!("n{}", i), c)).collect();
    db.extend(page(ps, 0, 13, None, &cells));
    let rec = record(&[TV::Null, TV::Int(9)]);
    let mut null_cell = 4u32.to_be_bytes().to_vec();
    null_cell.extend(varint(rec.len() as u64));
    null_cell.extend(rec);
    db.extend(page(ps, 0, 2, Some(5), &[null_cell]));
    db.extend(index_page(ps, &[]));
    db.extend(index_page(ps, &[("k", 1), ("m", 2), ("m", 3)]));
    assert_eq!(run(db, "SELECT id FROM apples WHERE color = 'm'").unwrap(), vec!["2", "3"]);
}
