//! System catalog.
//!
//! The catalog stores table and column metadata in two system tables,
//! `_tables` and `_columns`, each persisted as its own heap file:
//!
//! - `_tables`:  `(table_id, name, root_page)`
//! - `_columns`: `(table_id, column_id, name, type, nullable)`
//!
//! This module holds the catalog's logic: the rows written when a table is
//! created, how rows are laid into pages and read back, and how the schemas
//! are rebuilt from the rows of both system tables.
use vstd::prelude::*;
use vstd::string::*;

use super::page::{Page, PageId};
use super::row::{deserialize, values_view, Value, ValueV};
use super::row::{decode_row, is_row_encoding, lemma_row_roundtrip, row_fault_message, RowFault};
use super::slotted_page::{
    consistent, free_end_of, free_start_of, header_fault, header_fault_message, inserted_bytes,
    lemma_inserted_bytes, lemma_insert_consistent, lemma_insert_header, lemma_insert_records,
    num_slots_of, record_fault_message, record_lookup, records, slot_entry, HeaderFault,
    RecordFault, SlottedPage, HEADER_SIZE, LENGTH_PREFIX_SIZE, SLOT_SIZE,
};
use super::page::PAGE_SIZE;
use crate::error::Error;
use crate::text::{str_eq, text};
use crate::Result;

verus! {

/// Supported column types.
#[derive(Debug, Clone, Copy, PartialEq, Eq, Structural)]
pub enum ColumnType {
    Integer,
    Varchar,
    Boolean,
}

/// The type name stored in the catalog for `t`.
pub open spec fn column_type_name(t: ColumnType) -> Seq<char> {
    match t {
        ColumnType::Integer => "INTEGER"@,
        ColumnType::Varchar => "VARCHAR"@,
        ColumnType::Boolean => "BOOLEAN"@,
    }
}

/// The column type whose catalog name is `s`, if any.
pub open spec fn type_from_name(s: Seq<char>) -> Option<ColumnType> {
    if s == "INTEGER"@ {
        Some(ColumnType::Integer)
    } else if s == "VARCHAR"@ {
        Some(ColumnType::Varchar)
    } else if s == "BOOLEAN"@ {
        Some(ColumnType::Boolean)
    } else {
        None
    }
}

impl ColumnType {
    /// The type name stored in the catalog.
    pub fn name(self) -> (r: &'static str)
        ensures
            r@ == column_type_name(self),
    {
        match self {
            ColumnType::Integer => "INTEGER",
            ColumnType::Varchar => "VARCHAR",
            ColumnType::Boolean => "BOOLEAN",
        }
    }

    /// Resolves a type name stored in the catalog.
    pub fn from_name(name: &str) -> (r: Option<Self>)
        ensures
            r == type_from_name(name@),
    {
        if str_eq(name, "INTEGER") {
            Some(ColumnType::Integer)
        } else if str_eq(name, "VARCHAR") {
            Some(ColumnType::Varchar)
        } else if str_eq(name, "BOOLEAN") {
            Some(ColumnType::Boolean)
        } else {
            None
        }
    }
}

/// Every type's name resolves back to the type.
pub proof fn lemma_type_name_roundtrip(t: ColumnType)
    ensures
        type_from_name(column_type_name(t)) == Some(t),
{
    reveal_strlit("INTEGER");
    reveal_strlit("VARCHAR");
    reveal_strlit("BOOLEAN");
    assert("INTEGER"@ != "VARCHAR"@) by {
        assert("INTEGER"@[0] != "VARCHAR"@[0]);
    }
    assert("INTEGER"@ != "BOOLEAN"@) by {
        assert("INTEGER"@[0] != "BOOLEAN"@[0]);
    }
    assert("VARCHAR"@ != "BOOLEAN"@) by {
        assert("VARCHAR"@[0] != "BOOLEAN"@[0]);
    }
}

/// Description of a column given by the user when creating a table.
#[derive(Debug, Clone)]
pub struct ColumnDef {
    pub name: String,
    pub column_type: ColumnType,
    pub nullable: bool,
}

impl ColumnDef {
    pub fn new(name: &str, column_type: ColumnType, nullable: bool) -> (r: Self)
        ensures
            r.name@ == name@,
            r.column_type == column_type,
            r.nullable == nullable,
    {
        ColumnDef { name: text(name), column_type, nullable }
    }
}

/// Catalog metadata of a single column.
#[derive(Debug, Clone)]
pub struct ColumnSchema {
    pub table_id: u32,
    /// 1-based position of the column within its table.
    pub column_id: u32,
    pub name: String,
    pub column_type: ColumnType,
    pub nullable: bool,
}

/// Catalog metadata of a single table.
#[derive(Debug, Clone)]
pub struct TableSchema {
    pub table_id: u32,
    pub name: String,
    /// First page of the table's heap file.
    pub root_page: PageId,
    pub columns: Vec<ColumnSchema>,
}

/// The mathematical value of a [`ColumnSchema`].
pub struct ColumnSchemaV {
    pub table_id: u32,
    pub column_id: u32,
    pub name: Seq<char>,
    pub column_type: ColumnType,
    pub nullable: bool,
}

/// The mathematical value of a [`TableSchema`].
pub struct TableSchemaV {
    pub table_id: u32,
    pub name: Seq<char>,
    pub root_page: PageId,
    pub columns: Seq<ColumnSchemaV>,
}

impl View for ColumnSchema {
    type V = ColumnSchemaV;

    open spec fn view(&self) -> ColumnSchemaV {
        ColumnSchemaV {
            table_id: self.table_id,
            column_id: self.column_id,
            name: self.name@,
            column_type: self.column_type,
            nullable: self.nullable,
        }
    }
}

/// The columns of a table.
pub open spec fn columns_view(cs: Seq<ColumnSchema>) -> Seq<ColumnSchemaV> {
    Seq::new(cs.len(), |i: int| cs[i]@)
}

impl View for TableSchema {
    type V = TableSchemaV;

    open spec fn view(&self) -> TableSchemaV {
        TableSchemaV {
            table_id: self.table_id,
            name: self.name@,
            root_page: self.root_page,
            columns: columns_view(self.columns@),
        }
    }
}

/// The tables of a catalog.
pub open spec fn tables_view(ts: Seq<TableSchema>) -> Seq<TableSchemaV> {
    Seq::new(ts.len(), |i: int| ts[i]@)
}

/// The rows of a system table.
pub open spec fn rows_view(rows: Seq<Vec<Value>>) -> Seq<Seq<ValueV>> {
    Seq::new(rows.len(), |i: int| values_view(rows[i]@))
}

/// Why the rows of the system tables do not describe a catalog.
pub enum CatalogFault {
    MalformedTables,
    MalformedColumns,
    UnknownColumnType(Seq<char>),
}

/// The message of the corruption error reported for `fault`.
pub open spec fn catalog_fault_message(fault: CatalogFault) -> Seq<char> {
    match fault {
        CatalogFault::MalformedTables => "malformed `_tables` row"@,
        CatalogFault::MalformedColumns => "malformed `_columns` row"@,
        CatalogFault::UnknownColumnType(t) => "unknown column type `"@ + t + "`"@,
    }
}

/// The `(name, table_id, root_page)` of a `_tables` row, if it has that shape.
pub open spec fn table_entry(r: Seq<ValueV>) -> Option<(Seq<char>, u32, u32)> {
    if r.len() == 3 {
        match (r[0], r[1], r[2]) {
            (ValueV::Integer(id), ValueV::Varchar(name), ValueV::Integer(root)) => Some(
                (name, id as u32, root as u32),
            ),
            _ => None,
        }
    } else {
        None
    }
}

/// The entries of all `_tables` rows, or `None` if one is malformed.
pub open spec fn table_entries(rows: Seq<Seq<ValueV>>) -> Option<Seq<(Seq<char>, u32, u32)>>
    decreases rows.len(),
{
    if rows.len() == 0 {
        Some(Seq::empty())
    } else {
        match (table_entries(rows.drop_last()), table_entry(rows.last())) {
            (Some(es), Some(e)) => Some(es.push(e)),
            _ => None,
        }
    }
}

/// The column described by a `_columns` row.
pub open spec fn column_entry(r: Seq<ValueV>) -> core::result::Result<ColumnSchemaV, CatalogFault> {
    if r.len() == 5 {
        match (r[0], r[1], r[2], r[3], r[4]) {
            (
                ValueV::Integer(tid),
                ValueV::Integer(cid),
                ValueV::Varchar(name),
                ValueV::Varchar(tn),
                ValueV::Boolean(nullable),
            ) => match type_from_name(tn) {
                Some(t) => Ok(
                    ColumnSchemaV {
                        table_id: tid as u32,
                        column_id: cid as u32,
                        name,
                        column_type: t,
                        nullable,
                    },
                ),
                None => Err(CatalogFault::UnknownColumnType(tn)),
            },
            _ => Err(CatalogFault::MalformedColumns),
        }
    } else {
        Err(CatalogFault::MalformedColumns)
    }
}

/// The columns described by all `_columns` rows, or the first fault.
pub open spec fn column_entries(rows: Seq<Seq<ValueV>>) -> core::result::Result<
    Seq<ColumnSchemaV>,
    CatalogFault,
>
    decreases rows.len(),
{
    if rows.len() == 0 {
        Ok(Seq::empty())
    } else {
        match column_entries(rows.drop_last()) {
            Err(e) => Err(e),
            Ok(cs) => match column_entry(rows.last()) {
                Ok(c) => Ok(cs.push(c)),
                Err(e) => Err(e),
            },
        }
    }
}

/// Inserts `c` into the column list `s` (sorted by column id) after every
/// column whose id is not greater: a step of a stable insertion sort.
pub open spec fn insert_by_column_id(s: Seq<ColumnSchemaV>, c: ColumnSchemaV) -> Seq<ColumnSchemaV>
    decreases s.len(),
{
    if s.len() == 0 {
        seq![c]
    } else if s.last().column_id <= c.column_id {
        s.push(c)
    } else {
        insert_by_column_id(s.drop_last(), c).push(s.last())
    }
}

/// The columns of table `id` among `cs`, stably sorted by column id.
pub open spec fn columns_of_table(cs: Seq<ColumnSchemaV>, id: u32) -> Seq<ColumnSchemaV>
    decreases cs.len(),
{
    if cs.len() == 0 {
        Seq::empty()
    } else if cs.last().table_id == id {
        insert_by_column_id(columns_of_table(cs.drop_last(), id), cs.last())
    } else {
        columns_of_table(cs.drop_last(), id)
    }
}

/// Whether an earlier `_tables` entry than the `i`-th has the same table id.
pub open spec fn id_seen_before(ts: Seq<(Seq<char>, u32, u32)>, i: int) -> bool {
    exists|j: int| 0 <= j < i && ts[j].1 == ts[i].1
}

/// The schemas rebuilt from the `_tables` entries `ts` and the columns `cs`: the
/// first table with a given id gets that id's columns, a later one gets none.
pub open spec fn assemble_schemas(ts: Seq<(Seq<char>, u32, u32)>, cs: Seq<ColumnSchemaV>) -> Seq<
    TableSchemaV,
> {
    Seq::new(
        ts.len(),
        |i: int|
            TableSchemaV {
                table_id: ts[i].1,
                name: ts[i].0,
                root_page: PageId(ts[i].2),
                columns: if id_seen_before(ts, i) {
                    Seq::empty()
                } else {
                    columns_of_table(cs, ts[i].1)
                },
            },
    )
}

/// The schemas of every table described by the system-table rows.
pub open spec fn catalog_schemas(table_rows: Seq<Seq<ValueV>>, column_rows: Seq<Seq<ValueV>>) -> core::result::Result<
    Seq<TableSchemaV>,
    CatalogFault,
> {
    match column_entries(column_rows) {
        Err(e) => Err(e),
        Ok(cs) => match table_entries(table_rows) {
            None => Err(CatalogFault::MalformedTables),
            Some(ts) => Ok(assemble_schemas(ts, cs)),
        },
    }
}

/// The corruption error for a malformed `_tables` row.
fn malformed_tables_error() -> (e: Error)
    ensures
        e matches Error::Corrupt(m) && m@ == catalog_fault_message(CatalogFault::MalformedTables),
{
    Error::Corrupt(text("malformed `_tables` row"))
}

/// The corruption error for a malformed `_columns` row.
fn malformed_columns_error() -> (e: Error)
    ensures
        e matches Error::Corrupt(m) && m@ == catalog_fault_message(CatalogFault::MalformedColumns),
{
    Error::Corrupt(text("malformed `_columns` row"))
}

/// The corruption error for an unknown column type name.
fn unknown_type_error(name: &str) -> (e: Error)
    ensures
        e matches Error::Corrupt(m) && m@ == catalog_fault_message(
            CatalogFault::UnknownColumnType(name@),
        ),
{
    let mut m = text("unknown column type `");
    m.append(name);
    m.append("`");
    Error::Corrupt(m)
}

/// The `_tables` entries, as values.
pub open spec fn entries_view(es: Seq<(String, u32, u32)>) -> Seq<(Seq<char>, u32, u32)> {
    Seq::new(es.len(), |i: int| (es[i].0@, es[i].1, es[i].2))
}

/// A copy of `s`.
fn copy_string(s: &String) -> (r: String)
    ensures
        r@ == s@,
{
    s.clone()
}

/// A copy of `c`.
fn copy_column(c: &ColumnSchema) -> (r: ColumnSchema)
    ensures
        r@ == c@,
{
    ColumnSchema {
        table_id: c.table_id,
        column_id: c.column_id,
        name: copy_string(&c.name),
        column_type: c.column_type,
        nullable: c.nullable,
    }
}

/// The `(name, table_id, root_page)` of a `_tables` row.
fn table_entry_of(row: &Vec<Value>) -> (r: Option<(String, u32, u32)>)
    ensures
        match table_entry(values_view(row@)) {
            Some(e) => r matches Some(x) && x.0@ == e.0 && x.1 == e.1 && x.2 == e.2,
            None => r is None,
        },
{
    if row.len() != 3 {
        return None;
    }
    match (&row[0], &row[1], &row[2]) {
        (Value::Integer(id), Value::Varchar(name), Value::Integer(root)) => Some(
            (copy_string(name), *id as u32, *root as u32),
        ),
        _ => None,
    }
}

/// The column described by a `_columns` row.
fn column_entry_of(row: &Vec<Value>) -> (r: Result<ColumnSchema>)
    ensures
        match column_entry(values_view(row@)) {
            Ok(c) => r matches Ok(x) && x@ == c,
            Err(f) => r matches Err(Error::Corrupt(m)) && m@ == catalog_fault_message(f),
        },
{
    if row.len() != 5 {
        return Err(malformed_columns_error());
    }
    match (&row[0], &row[1], &row[2], &row[3], &row[4]) {
        (
            Value::Integer(table_id),
            Value::Integer(column_id),
            Value::Varchar(name),
            Value::Varchar(type_text),
            Value::Boolean(nullable),
        ) => {
            match ColumnType::from_name(type_text.as_str()) {
                Some(column_type) => Ok(
                    ColumnSchema {
                        table_id: *table_id as u32,
                        column_id: *column_id as u32,
                        name: copy_string(name),
                        column_type,
                        nullable: *nullable,
                    },
                ),
                None => Err(unknown_type_error(type_text.as_str())),
            }
        },
        _ => Err(malformed_columns_error()),
    }
}

/// Reads `(name, table_id, root_page)` from every `_tables` row.
pub fn read_tables(rows: &[Vec<Value>]) -> (r: Result<Vec<(String, u32, u32)>>)
    ensures
        match table_entries(rows_view(rows@)) {
            Some(es) => r matches Ok(v) && entries_view(v@) == es,
            None => r matches Err(Error::Corrupt(m)) && m@ == catalog_fault_message(
                CatalogFault::MalformedTables,
            ),
        },
{
    let ghost rv = rows_view(rows@);
    let mut out: Vec<(String, u32, u32)> = Vec::new();
    let mut i: usize = 0;
    while i < rows.len()
        invariant
            rv == rows_view(rows@),
            0 <= i <= rows@.len(),
            table_entries(rv.subrange(0, i as int)) == Some(entries_view(out@)),
        decreases rows@.len() - i,
    {
        assert(rv.subrange(0, i + 1).drop_last() =~= rv.subrange(0, i as int));
        match table_entry_of(&rows[i]) {
            Some(e) => {
                let ghost prev = out@;
                out.push(e);
                assert(entries_view(out@) =~= entries_view(prev).push(
                    (out@.last().0@, out@.last().1, out@.last().2),
                ));
            },
            None => {
                proof {
                    lemma_table_entries_prefix_fails(rv, i as int);
                }
                return Err(malformed_tables_error());
            },
        }
        i = i + 1;
    }
    assert(rv.subrange(0, rows@.len() as int) =~= rv);
    Ok(out)
}

/// Once a prefix of the `_tables` rows has a malformed row, so do all the rows.
proof fn lemma_table_entries_prefix_fails(rv: Seq<Seq<ValueV>>, i: int)
    requires
        0 <= i < rv.len(),
        table_entry(rv[i]) is None,
    ensures
        table_entries(rv) is None,
    decreases rv.len(),
{
    if rv.len() - 1 == i {
        assert(rv.last() == rv[i]);
    } else {
        lemma_table_entries_prefix_fails(rv.drop_last(), i);
    }
}

/// Once a prefix of the `_columns` rows fails, all the rows fail with the same fault.
proof fn lemma_column_entries_prefix_fails(rv: Seq<Seq<ValueV>>, i: int)
    requires
        0 <= i <= rv.len(),
        column_entries(rv.subrange(0, i)) is Err,
    ensures
        column_entries(rv) == column_entries(rv.subrange(0, i)),
    decreases rv.len(),
{
    if rv.len() == i {
        assert(rv.subrange(0, i) =~= rv);
    } else {
        assert(rv.drop_last().subrange(0, i) =~= rv.subrange(0, i));
        lemma_column_entries_prefix_fails(rv.drop_last(), i);
    }
}

/// Reads the columns described by every `_columns` row.
pub fn read_columns(rows: &[Vec<Value>]) -> (r: Result<Vec<ColumnSchema>>)
    ensures
        match column_entries(rows_view(rows@)) {
            Ok(cs) => r matches Ok(v) && columns_view(v@) == cs,
            Err(f) => r matches Err(Error::Corrupt(m)) && m@ == catalog_fault_message(f),
        },
{
    let ghost rv = rows_view(rows@);
    let mut out: Vec<ColumnSchema> = Vec::new();
    let mut i: usize = 0;
    assert(rv.subrange(0, 0) =~= Seq::<Seq<ValueV>>::empty());
    assert(columns_view(out@) =~= Seq::<ColumnSchemaV>::empty());
    while i < rows.len()
        invariant
            rv == rows_view(rows@),
            0 <= i <= rows@.len(),
            column_entries(rv.subrange(0, i as int)) == Ok::<_, CatalogFault>(columns_view(out@)),
        decreases rows@.len() - i,
    {
        assert(rv.subrange(0, i + 1).drop_last() =~= rv.subrange(0, i as int));
        let c = column_entry_of(&rows[i]);
        match c {
            Ok(c) => {
                let ghost prev = out@;
                out.push(c);
                assert(columns_view(out@) =~= columns_view(prev).push(out@.last()@));
            },
            Err(e) => {
                proof {
                    lemma_column_entries_prefix_fails(rv, i + 1);
                }
                return Err(e);
            },
        }
        i = i + 1;
    }
    assert(rv.subrange(0, rows@.len() as int) =~= rv);
    Ok(out)
}

/// The columns of table `id` among `cols`, stably sorted by column id.
///
/// The catalog groups columns by table with one scan of `cols` per table
/// rather than through a map keyed by table id: a map would only group them,
/// and each table's columns come out the same, in the order that
/// [`columns_of_table`] states. The scan keeps that statement next to the
/// code that meets it.
fn columns_for_table(cols: &[ColumnSchema], id: u32) -> (r: Vec<ColumnSchema>)
    ensures
        columns_view(r@) == columns_of_table(columns_view(cols@), id),
{
    let ghost cv = columns_view(cols@);
    let mut out: Vec<ColumnSchema> = Vec::new();
    let mut i: usize = 0;
    while i < cols.len()
        invariant
            cv == columns_view(cols@),
            0 <= i <= cols@.len(),
            columns_view(out@) == columns_of_table(cv.subrange(0, i as int), id),
        decreases cols@.len() - i,
    {
        assert(cv.subrange(0, i + 1).drop_last() =~= cv.subrange(0, i as int));
        if cols[i].table_id == id {
            let c = copy_column(&cols[i]);
            let ghost ov = columns_view(out@);
            let mut k = out.len();
            assert(ov.subrange(0, k as int) =~= ov);
            assert(ov.subrange(k as int, ov.len() as int) =~= Seq::<ColumnSchemaV>::empty());
            while k > 0 && out[k - 1].column_id > c.column_id
                invariant
                    ov == columns_view(out@),
                    0 <= k <= ov.len(),
                    insert_by_column_id(ov, c@) == insert_by_column_id(ov.subrange(0, k as int), c@)
                        + ov.subrange(k as int, ov.len() as int),
                decreases k,
            {
                assert(ov.subrange(0, k as int).drop_last() =~= ov.subrange(0, k - 1));
                assert(ov.subrange(0, k as int).last() == ov[k - 1]);
                assert(insert_by_column_id(ov.subrange(0, k - 1), c@).push(ov[k - 1]) + ov.subrange(
                    k as int,
                    ov.len() as int,
                ) =~= insert_by_column_id(ov.subrange(0, k - 1), c@) + ov.subrange(
                    k - 1,
                    ov.len() as int,
                ));
                k = k - 1;
            }
            proof {
                if k > 0 {
                    assert(ov.subrange(0, k as int).last() == ov[k - 1]);
                }
                assert(ov.subrange(0, 0) =~= Seq::<ColumnSchemaV>::empty());
            }
            out.insert(k, c);
            assert(columns_view(out@) =~= ov.insert(k as int, c@));
            assert(ov.insert(k as int, c@) =~= insert_by_column_id(ov.subrange(0, k as int), c@)
                + ov.subrange(k as int, ov.len() as int));
            assert(ov.subrange(0, ov.len() as int) =~= ov);
        }
        i = i + 1;
    }
    assert(cv.subrange(0, cols@.len() as int) =~= cv);
    out
}

/// The schemas of every table, rebuilt from the rows of `_tables` and `_columns`.
pub fn tables_from_rows(table_rows: &[Vec<Value>], column_rows: &[Vec<Value>]) -> (r: Result<
    Vec<TableSchema>,
>)
    ensures
        match catalog_schemas(rows_view(table_rows@), rows_view(column_rows@)) {
            Ok(ts) => r matches Ok(v) && tables_view(v@) == ts,
            Err(f) => r matches Err(Error::Corrupt(m)) && m@ == catalog_fault_message(f),
        },
{
    let cols = read_columns(column_rows)?;
    let entries = read_tables(table_rows)?;
    let ghost ev = entries_view(entries@);
    let ghost cv = columns_view(cols@);
    let mut tables: Vec<TableSchema> = Vec::new();
    let mut i: usize = 0;
    while i < entries.len()
        invariant
            ev == entries_view(entries@),
            cv == columns_view(cols@),
            0 <= i <= entries@.len(),
            tables_view(tables@) == assemble_schemas(ev, cv).subrange(0, i as int),
        decreases entries@.len() - i,
    {
        let id = entries[i].1;
        let mut seen = false;
        let mut j: usize = 0;
        while j < i
            invariant
                ev == entries_view(entries@),
                0 <= j <= i < entries@.len(),
                id == ev[i as int].1,
                seen == exists|k: int| 0 <= k < j && ev[k].1 == id,
            decreases i - j,
        {
            if entries[j].1 == id {
                seen = true;
                assert(ev[j as int].1 == id);
            } else {
                assert(ev[j as int].1 != id);
            }
            j = j + 1;
        }
        let columns = if seen {
            Vec::new()
        } else {
            columns_for_table(cols.as_slice(), id)
        };
        let t = TableSchema {
            table_id: id,
            name: copy_string(&entries[i].0),
            root_page: PageId(entries[i].2),
            columns,
        };
        let ghost prev = tables@;
        tables.push(t);
        assert(tables_view(tables@) =~= assemble_schemas(ev, cv).subrange(0, i + 1)) by {
            assert(tables_view(tables@) =~= tables_view(prev).push(tables@.last()@));
            assert(seen == id_seen_before(ev, i as int));
            let want = assemble_schemas(ev, cv)[i as int];
            let got = tables@.last()@;
            assert(got.table_id == want.table_id);
            assert(got.name == want.name);
            assert(got.root_page == want.root_page);
            assert(got.columns =~= want.columns);
        }
        i = i + 1;
    }
    Ok(tables)
}

/// The mathematical value of a [`ColumnDef`].
pub struct ColumnDefV {
    pub name: Seq<char>,
    pub column_type: ColumnType,
    pub nullable: bool,
}

impl View for ColumnDef {
    type V = ColumnDefV;

    open spec fn view(&self) -> ColumnDefV {
        ColumnDefV { name: self.name@, column_type: self.column_type, nullable: self.nullable }
    }
}

/// The column definitions given for a new table.
pub open spec fn defs_view(ds: Seq<ColumnDef>) -> Seq<ColumnDefV> {
    Seq::new(ds.len(), |i: int| ds[i]@)
}

/// The largest table id among the entries (0 when there are none).
pub open spec fn max_table_id(es: Seq<(Seq<char>, u32, u32)>) -> nat
    decreases es.len(),
{
    if es.len() == 0 {
        0
    } else {
        let m = max_table_id(es.drop_last());
        if es.last().1 > m {
            es.last().1 as nat
        } else {
            m
        }
    }
}

/// Whether a table named `name` is among the entries.
pub open spec fn has_table_named(es: Seq<(Seq<char>, u32, u32)>, name: Seq<char>) -> bool {
    exists|j: int| 0 <= j < es.len() && es[j].0 == name
}

/// The `_tables` row of a new table.
pub open spec fn new_table_row(id: u32, name: Seq<char>) -> Seq<ValueV> {
    seq![ValueV::Integer(id as i64), ValueV::Varchar(name), ValueV::Integer(0)]
}

/// The `_columns` row of the `i`-th column of a new table.
pub open spec fn new_column_row(id: u32, i: int, d: ColumnDefV) -> Seq<ValueV> {
    seq![
        ValueV::Integer(id as i64),
        ValueV::Integer((i + 1) as i64),
        ValueV::Varchar(d.name),
        ValueV::Varchar(column_type_name(d.column_type)),
        ValueV::Boolean(d.nullable),
    ]
}

/// The `_columns` rows of a new table with columns `ds`.
pub open spec fn new_column_rows(id: u32, ds: Seq<ColumnDefV>) -> Seq<Seq<ValueV>> {
    Seq::new(ds.len(), |i: int| new_column_row(id, i, ds[i]))
}

/// The columns of a new table, numbered from 1 in order.
pub open spec fn new_column_schemas(id: u32, ds: Seq<ColumnDefV>) -> Seq<ColumnSchemaV> {
    Seq::new(
        ds.len(),
        |i: int|
            ColumnSchemaV {
                table_id: id,
                column_id: (i + 1) as u32,
                name: ds[i].name,
                column_type: ds[i].column_type,
                nullable: ds[i].nullable,
            },
    )
}

/// The schema of a new table.
pub open spec fn new_table_schema(id: u32, name: Seq<char>, ds: Seq<ColumnDefV>) -> TableSchemaV {
    TableSchemaV { table_id: id, name, root_page: PageId(0), columns: new_column_schemas(id, ds) }
}

/// The message of the error reported when a table named `name` already exists.
pub open spec fn duplicate_table_message(name: Seq<char>) -> Seq<char> {
    "table `"@ + name + "` already exists"@
}

/// The catalog rows to write for a new table, and its schema.
pub struct NewTable {
    /// The row for `_tables`.
    pub table_row: Vec<Value>,
    /// The rows for `_columns`, one per column, in order.
    pub column_rows: Vec<Vec<Value>>,
    /// The schema of the new table.
    pub schema: TableSchema,
}

/// Plans the creation of table `name`: refuses a name that `existing` already
/// holds (whatever the ids), and otherwise gives the table the next id (one more than the largest
/// existing id), and builds its catalog rows and schema.
pub fn plan_create_table(existing: &[(String, u32, u32)], name: &str, columns: &[ColumnDef]) -> (r:
    Result<NewTable>)
    requires
        !has_table_named(entries_view(existing@), name@) ==> max_table_id(entries_view(existing@))
            < u32::MAX && columns@.len() < u32::MAX,
    ensures
        ({
            let es = entries_view(existing@);
            if has_table_named(es, name@) {
                r matches Err(Error::Duplicate(m)) && m@ == duplicate_table_message(name@)
            } else {
                let id = (max_table_id(es) + 1) as u32;
                &&& r matches Ok(t)
                &&& values_view(t.table_row@) == new_table_row(id, name@)
                &&& rows_view(t.column_rows@) == new_column_rows(id, defs_view(columns@))
                &&& t.schema@ == new_table_schema(id, name@, defs_view(columns@))
            }
        }),
{
    let ghost es = entries_view(existing@);
    let mut max_id: u32 = 0;
    let mut i: usize = 0;
    while i < existing.len()
        invariant
            es == entries_view(existing@),
            0 <= i <= existing@.len(),
            max_id == max_table_id(es.subrange(0, i as int)),
            !has_table_named(es.subrange(0, i as int), name@),
        decreases existing@.len() - i,
    {
        assert(es.subrange(0, i + 1).drop_last() =~= es.subrange(0, i as int));
        if str_eq(existing[i].0.as_str(), name) {
            assert(es[i as int].0 == name@);
            let mut m = text("table `");
            m.append(name);
            m.append("` already exists");
            return Err(Error::Duplicate(m));
        }
        if existing[i].1 > max_id {
            max_id = existing[i].1;
        }
        i = i + 1;
        assert(!has_table_named(es.subrange(0, i as int), name@)) by {
            if has_table_named(es.subrange(0, i as int), name@) {
                let j = choose|j: int|
                    0 <= j < i && #[trigger] es.subrange(0, i as int)[j].0 == name@;
                if j < i - 1 {
                    assert(es.subrange(0, i - 1)[j] == es.subrange(0, i as int)[j]);
                }
            }
        }
    }
    assert(es.subrange(0, existing@.len() as int) =~= es);
    let table_id = max_id + 1;
    let root_page = PageId(0);
    let table_row = vec![
        Value::Integer(table_id as i64),
        Value::Varchar(text(name)),
        Value::Integer(root_page.0 as i64),
    ];
    assert(values_view(table_row@) =~= new_table_row(table_id, name@));
    let mut column_rows: Vec<Vec<Value>> = Vec::new();
    let mut schema_columns: Vec<ColumnSchema> = Vec::new();
    let mut index: usize = 0;
    while index < columns.len()
        invariant
            0 <= index <= columns@.len(),
            columns@.len() < u32::MAX,
            rows_view(column_rows@) == Seq::new(
                index as nat,
                |i: int| new_column_row(table_id, i, columns@[i]@),
            ),
            columns_view(schema_columns@) == new_table_schema(
                table_id,
                name@,
                defs_view(columns@),
            ).columns.subrange(0, index as int),
        decreases columns@.len() - index,
    {
        let column = &columns[index];
        let row = vec![
            Value::Integer(table_id as i64),
            Value::Integer(index as i64 + 1),
            Value::Varchar(copy_string(&column.name)),
            Value::Varchar(text(column.column_type.name())),
            Value::Boolean(column.nullable),
        ];
        let ghost prev_rows = column_rows@;
        let ghost prev_cols = schema_columns@;
        assert(values_view(row@) =~= new_column_row(table_id, index as int, columns@[index as int]@));
        column_rows.push(row);
        schema_columns.push(
            ColumnSchema {
                table_id,
                column_id: index as u32 + 1,
                name: copy_string(&column.name),
                column_type: column.column_type,
                nullable: column.nullable,
            },
        );
        index = index + 1;
        assert(rows_view(column_rows@) =~= Seq::new(
            index as nat,
            |i: int| new_column_row(table_id, i, columns@[i]@),
        )) by {
            assert(rows_view(column_rows@) =~= rows_view(prev_rows).push(values_view(row@)));
        }
        assert(columns_view(schema_columns@) =~= new_table_schema(
            table_id,
            name@,
            defs_view(columns@),
        ).columns.subrange(0, index as int)) by {
            assert(columns_view(schema_columns@) =~= columns_view(prev_cols).push(
                schema_columns@.last()@,
            ));
        }
    }
    let schema = TableSchema { table_id, name: text(name), root_page, columns: schema_columns };
    assert(schema@.columns =~= new_table_schema(table_id, name@, defs_view(columns@)).columns);
    assert(rows_view(column_rows@) =~= new_column_rows(table_id, defs_view(columns@)));
    Ok(NewTable { table_row, column_rows, schema })
}

/// The position of the first table named `name`, if any.
pub open spec fn first_table_named(ts: Seq<TableSchemaV>, name: Seq<char>) -> Option<int>
    decreases ts.len(),
{
    if ts.len() == 0 {
        None
    } else {
        match first_table_named(ts.drop_last(), name) {
            Some(i) => Some(i),
            None => if ts.last().name == name {
                Some(ts.len() - 1)
            } else {
                None
            },
        }
    }
}

/// Once a prefix holds a table named `name`, the first such table is in that prefix.
proof fn lemma_first_table_named_prefix(ts: Seq<TableSchemaV>, k: int, name: Seq<char>)
    requires
        0 <= k <= ts.len(),
        first_table_named(ts.subrange(0, k), name) is Some,
    ensures
        first_table_named(ts, name) == first_table_named(ts.subrange(0, k), name),
    decreases ts.len(),
{
    if ts.len() == k {
        assert(ts.subrange(0, k) =~= ts);
    } else {
        assert(ts.drop_last().subrange(0, k) =~= ts.subrange(0, k));
        lemma_first_table_named_prefix(ts.drop_last(), k, name);
    }
}

/// A copy of `t`.
fn copy_table(t: &TableSchema) -> (r: TableSchema)
    ensures
        r@ == t@,
{
    let mut columns: Vec<ColumnSchema> = Vec::new();
    let mut i: usize = 0;
    while i < t.columns.len()
        invariant
            0 <= i <= t.columns@.len(),
            columns_view(columns@) == columns_view(t.columns@).subrange(0, i as int),
        decreases t.columns@.len() - i,
    {
        let ghost prev = columns@;
        columns.push(copy_column(&t.columns[i]));
        i = i + 1;
        assert(columns_view(columns@) =~= columns_view(prev).push(columns@.last()@));
        assert(columns_view(columns@) =~= columns_view(t.columns@).subrange(0, i as int));
    }
    assert(columns_view(t.columns@).subrange(0, i as int) =~= columns_view(t.columns@));
    TableSchema {
        table_id: t.table_id,
        name: copy_string(&t.name),
        root_page: t.root_page,
        columns,
    }
}

/// Returns the schema of the first table named `name` among `tables`.
pub fn find_table(tables: &[TableSchema], name: &str) -> (r: Result<TableSchema>)
    ensures
        match first_table_named(tables_view(tables@), name@) {
            Some(i) => r matches Ok(t) && t@ == tables_view(tables@)[i],
            None => r matches Err(Error::NotFound(m)) && m@ == "table `"@ + name@ + "`"@,
        },
{
    let ghost tv = tables_view(tables@);
    let mut i: usize = 0;
    while i < tables.len()
        invariant
            tv == tables_view(tables@),
            0 <= i <= tables@.len(),
            first_table_named(tv.subrange(0, i as int), name@) is None,
        decreases tables@.len() - i,
    {
        assert(tv.subrange(0, i + 1).drop_last() =~= tv.subrange(0, i as int));
        if str_eq(tables[i].name.as_str(), name) {
            assert(first_table_named(tv.subrange(0, i + 1), name@) == Some(i as int));
            proof {
                lemma_first_table_named_prefix(tv, i + 1, name@);
            }
            return Ok(copy_table(&tables[i]));
        }
        i = i + 1;
    }
    assert(tv.subrange(0, tv.len() as int) =~= tv);
    let mut m = text("table `");
    m.append(name);
    m.append("`");
    Err(Error::NotFound(m))
}

/// Whether a page was never initialized: all its bytes are zero.
pub open spec fn blank_page(b: Seq<u8>) -> bool {
    forall|i: int| 0 <= i < b.len() ==> #[trigger] b[i] == 0
}

/// Places a serialized row into an existing page of a heap file: a blank page
/// is skipped (`Ok(None)`), a page whose header fails validation is an error, a
/// page without room is skipped, and otherwise the row is inserted and the
/// updated page is returned.
pub fn place_row_in_page(page: Page, encoded: &[u8]) -> (r: Result<Option<Page>>)
    requires
        page.wf(),
        encoded@.len() + LENGTH_PREFIX_SIZE + SLOT_SIZE <= usize::MAX,
    ensures
        if blank_page(page.data@) {
            r matches Ok(None)
        } else {
            match header_fault(page.data@, page.id.0) {
                Some(f) => r matches Err(Error::Corrupt(m)) && m@ == header_fault_message(
                    page.id.0,
                    f,
                ),
                None => if encoded@.len() + LENGTH_PREFIX_SIZE + SLOT_SIZE <= free_end_of(page.data@)
                    - free_start_of(page.data@) {
                    &&& r matches Ok(Some(p))
                    &&& p.wf()
                    &&& p.id == page.id
                    &&& p.data@ == inserted_bytes(page.data@, encoded@)
                    &&& header_fault(p.data@, p.id.0) is None
                    &&& consistent(page.data@) ==> consistent(p.data@) && records(p.data@)
                        == records(page.data@).push(Some(encoded@))
                } else {
                    r matches Ok(None)
                },
            }
        },
{
    if SlottedPage::is_empty_page(&page) {
        return Ok(None);
    }
    let mut slotted = SlottedPage::from_page(page)?;
    if slotted.has_space_for(encoded.len()) {
        slotted.insert_record(encoded)?;
        return Ok(Some(slotted.into_page()));
    }
    Ok(None)
}

/// What to do next while placing a row in a heap file: its pages are tried in
/// order, and the file grows by one page when none has room.
pub enum Placement {
    /// Write this page back: it now holds the row.
    Write(Page),
    /// Read this page and try it next.
    Try(PageId),
    /// No page has room: allocate a page and place the row in it.
    Allocate,
}

/// The first step of placing a row in a heap file of `page_count` pages.
pub fn first_placement(page_count: u32) -> (r: Placement)
    ensures
        page_count > 0 ==> r == Placement::Try(PageId(0)),
        page_count == 0 ==> r is Allocate,
{
    if page_count > 0 {
        Placement::Try(PageId(0))
    } else {
        Placement::Allocate
    }
}

/// The page to try after page `id` of a heap file of `page_count` pages, or a
/// new page past the last.
pub open spec fn placement_after(id: u32, page_count: u32) -> Placement {
    if id + 1 < page_count {
        Placement::Try(PageId((id + 1) as u32))
    } else {
        Placement::Allocate
    }
}

/// The step after `page`, one of the `page_count` pages of a heap file, was
/// read: write it back with the row when it has room (as
/// [`place_row_in_page`] does), else go on to the next page, or grow the file.
pub fn next_placement(page: Page, page_count: u32, encoded: &[u8]) -> (r: Result<Placement>)
    requires
        page.wf(),
        page.id.0 < page_count,
        encoded@.len() + LENGTH_PREFIX_SIZE + SLOT_SIZE <= usize::MAX,
    ensures
        if blank_page(page.data@) {
            r matches Ok(x) && x == placement_after(page.id.0, page_count)
        } else {
            match header_fault(page.data@, page.id.0) {
                Some(f) => r matches Err(Error::Corrupt(m)) && m@ == header_fault_message(
                    page.id.0,
                    f,
                ),
                None => if encoded@.len() + LENGTH_PREFIX_SIZE + SLOT_SIZE <= free_end_of(page.data@)
                    - free_start_of(page.data@) {
                    &&& r matches Ok(Placement::Write(p))
                    &&& p.wf()
                    &&& p.id == page.id
                    &&& p.data@ == inserted_bytes(page.data@, encoded@)
                    &&& header_fault(p.data@, p.id.0) is None
                    &&& consistent(page.data@) ==> consistent(p.data@) && records(p.data@)
                        == records(page.data@).push(Some(encoded@))
                } else {
                    r matches Ok(x) && x == placement_after(page.id.0, page_count)
                },
            }
        },
{
    let id = page.id.0;
    match place_row_in_page(page, encoded) {
        Err(e) => Err(e),
        Ok(Some(p)) => Ok(Placement::Write(p)),
        Ok(None) => if id + 1 < page_count {
            Ok(Placement::Try(PageId(id + 1)))
        } else {
            Ok(Placement::Allocate)
        },
    }
}

/// Places a serialized row into a freshly allocated page.
pub fn place_row_in_new_page(page: Page, encoded: &[u8]) -> (r: Result<Page>)
    requires
        page.wf(),
        encoded@.len() + LENGTH_PREFIX_SIZE + SLOT_SIZE <= usize::MAX,
    ensures
        if encoded@.len() + LENGTH_PREFIX_SIZE + SLOT_SIZE <= PAGE_SIZE - HEADER_SIZE {
            &&& r matches Ok(p)
            &&& p.wf()
            &&& p.id == page.id
            &&& header_fault(p.data@, p.id.0) is None
            &&& consistent(p.data@)
            &&& records(p.data@) == seq![Some(encoded@)]
        } else {
            &&& r matches Err(Error::PageFull { needed: n, free: f })
            &&& n == encoded@.len() + LENGTH_PREFIX_SIZE + SLOT_SIZE
            &&& f == PAGE_SIZE - HEADER_SIZE
        },
{
    let mut slotted = SlottedPage::new(page);
    slotted.insert_record(encoded)?;
    assert(Seq::<Option<Seq<u8>>>::empty().push(Some(encoded@)) =~= seq![Some(encoded@)]);
    Ok(slotted.into_page())
}

/// Why the rows of a page cannot be read.
pub enum PageRowsFault {
    Header(HeaderFault),
    Record(u16, RecordFault),
    /// The record `rec` does not decode as a row.
    Row(Seq<u8>, RowFault),
}

/// The values of a stored record.
#[verifier::opaque]
pub open spec fn record_values(rec: Seq<u8>) -> core::result::Result<Seq<ValueV>, RowFault> {
    decode_row(rec)
}

/// The rows held by the first `n` slots of page `b`, skipping deleted slots.
pub open spec fn slot_rows(b: Seq<u8>, n: nat) -> core::result::Result<Seq<Seq<ValueV>>, PageRowsFault>
    decreases n,
{
    if n == 0 {
        Ok(Seq::empty())
    } else {
        match slot_rows(b, (n - 1) as nat) {
            Err(e) => Err(e),
            Ok(rows) => {
                let s = n - 1;
                if slot_entry(b, s) == 0 {
                    Ok(rows)
                } else {
                    match record_lookup(b, s) {
                        Err(f) => Err(PageRowsFault::Record(s as u16, f)),
                        Ok(rec) => match record_values(rec) {
                            Err(f) => Err(PageRowsFault::Row(rec, f)),
                            Ok(vs) => Ok(rows.push(vs)),
                        },
                    }
                }
            },
        }
    }
}

/// The rows held by page `b` with id `id`: none for a blank page.
pub open spec fn page_rows_of(b: Seq<u8>, id: u32) -> core::result::Result<Seq<Seq<ValueV>>, PageRowsFault> {
    if blank_page(b) {
        Ok(Seq::empty())
    } else {
        match header_fault(b, id) {
            Some(f) => Err(PageRowsFault::Header(f)),
            None => slot_rows(b, num_slots_of(b) as nat),
        }
    }
}

/// The error reported for `fault` while reading the rows of page `id`.
pub open spec fn page_rows_error_ok(e: Error, id: u32, fault: PageRowsFault) -> bool {
    match fault {
        PageRowsFault::Header(f) => e matches Error::Corrupt(m) && m@ == header_fault_message(
            id,
            f,
        ),
        PageRowsFault::Record(s, f) => e matches Error::Corrupt(m) && m@ == record_fault_message(
            id,
            s,
            f,
        ),
        PageRowsFault::Row(rec, f) => e matches Error::Deserialize(m) && m@ == row_fault_message(rec, f),
    }
}

/// Reads every non-deleted row stored in a page of a heap file.
#[verifier::loop_isolation(false)]
pub fn page_rows(page: Page) -> (r: Result<Vec<Vec<Value>>>)
    requires
        page.wf(),
    ensures
        match page_rows_of(page.data@, page.id.0) {
            Ok(rows) => r matches Ok(v) && rows_view(v@) == rows,
            Err(f) => r matches Err(e) && page_rows_error_ok(e, page.id.0, f),
        },
{
    let mut rows: Vec<Vec<Value>> = Vec::new();
    if SlottedPage::is_empty_page(&page) {
        assert(rows_view(rows@) =~= Seq::<Seq<ValueV>>::empty());
        return Ok(rows);
    }
    let ghost b = page.data@;
    let ghost id = page.id.0;
    let slotted = SlottedPage::from_page(page)?;
    let n = slotted.num_slots();
    let mut slot: u16 = 0;
    assert(rows_view(rows@) =~= Seq::<Seq<ValueV>>::empty());
    while slot < n
        invariant
            slotted.wf(),
            slotted.bytes() == b,
            slotted.id().0 == id,
            n == num_slots_of(b),
            0 <= slot <= n,
            slot_rows(b, slot as nat) == Ok::<_, PageRowsFault>(rows_view(rows@)),
        decreases n - slot,
    {
        let step = read_slot_into(&slotted, slot, &mut rows);
        match step {
            Ok(()) => {},
            Err(e) => {
                proof {
                    assert(slot_rows(b, (slot + 1) as nat) is Err);
                    lemma_slot_rows_prefix_fails(b, n as nat, (slot + 1) as nat);
                    assert(!blank_page(b));
                    assert(header_fault(b, id) is None);
                    assert(page_rows_of(b, id) == slot_rows(b, (slot + 1) as nat));
                    assert(match slot_rows(b, (slot + 1) as nat) {
                        Ok(_) => false,
                        Err(f) => page_rows_error_ok(e, id, f),
                    });
                }
                return Err(e);
            },
        }
        slot = slot + 1;
    }
    Ok(rows)
}

/// The row stored in a live slot.
fn read_slot_row(sp: &SlottedPage, slot: u16) -> (r: Result<Vec<Value>>)
    requires
        sp.wf(),
        (slot as int) < num_slots_of(sp.bytes()),
        slot_entry(sp.bytes(), slot as int) != 0,
    ensures
        match record_lookup(sp.bytes(), slot as int) {
            Err(f) => r matches Err(e) && page_rows_error_ok(
                e,
                sp.id().0,
                PageRowsFault::Record(slot, f),
            ),
            Ok(rec) => match record_values(rec) {
                Err(f) => r matches Err(e) && page_rows_error_ok(e, sp.id().0, PageRowsFault::Row(rec, f)),
                Ok(vs) => r matches Ok(v) && values_view(v@) == vs,
            },
        },
{
    let record = sp.get_record(slot)?;
    proof {
        reveal(record_values);
    }
    deserialize(record)
}

/// Appends the row of `slot`, if it is live, to the rows of the earlier slots.
fn read_slot_into(sp: &SlottedPage, slot: u16, rows: &mut Vec<Vec<Value>>) -> (r: Result<()>)
    requires
        sp.wf(),
        (slot as int) < num_slots_of(sp.bytes()),
        slot_rows(sp.bytes(), slot as nat) == Ok::<_, PageRowsFault>(rows_view(old(rows)@)),
    ensures
        match slot_rows(sp.bytes(), (slot + 1) as nat) {
            Ok(rs) => r is Ok && rows_view(final(rows)@) == rs,
            Err(f) => r matches Err(e) && page_rows_error_ok(e, sp.id().0, f),
        },
{
    let ghost b = sp.bytes();
    let ghost prev_rows = rows_view(rows@);
    if sp.is_deleted(slot) {
        assert(slot_rows(b, (slot + 1) as nat) == slot_rows(b, slot as nat));
        return Ok(());
    }
    let values = read_slot_row(sp, slot)?;
    let ghost vv = values_view(values@);
    rows.push(values);
    assert(rows_view(rows@) =~= prev_rows.push(vv));
    Ok(())
}

/// Once the rows of the first `k` slots fail, the rows of the first `n` fail the same way.
proof fn lemma_slot_rows_prefix_fails(b: Seq<u8>, n: nat, k: nat)
    requires
        k <= n,
        slot_rows(b, k) is Err,
    ensures
        slot_rows(b, n) == slot_rows(b, k),
    decreases n,
{
    if n > k {
        lemma_slot_rows_prefix_fails(b, (n - 1) as nat, k);
    }
}

/// Whether the columns are in nondecreasing column-id order.
pub open spec fn sorted_by_column_id(s: Seq<ColumnSchemaV>) -> bool {
    forall|i: int, j: int| 0 <= i < j < s.len() ==> s[i].column_id <= s[j].column_id
}

/// Inserting into a sorted column list keeps it sorted and adds exactly that column.
proof fn lemma_insert_by_column_id_sorted(s: Seq<ColumnSchemaV>, c: ColumnSchemaV)
    requires
        sorted_by_column_id(s),
    ensures
        sorted_by_column_id(insert_by_column_id(s, c)),
        insert_by_column_id(s, c).len() == s.len() + 1,
        insert_by_column_id(s, c).to_multiset() == s.to_multiset().insert(c),
    decreases s.len(),
{
    broadcast use vstd::seq_lib::group_to_multiset_ensures;

    if s.len() == 0 {
        assert(seq![c] =~= s.push(c));
    } else if s.last().column_id <= c.column_id {
    } else {
        let t = s.drop_last();
        assert(sorted_by_column_id(t));
        lemma_insert_by_column_id_sorted(t, c);
        let u = insert_by_column_id(t, c);
        assert forall|k: int| 0 <= k < u.len() implies #[trigger] u[k].column_id <= s.last().column_id by {
            assert(u.to_multiset().count(u[k]) > 0);
            assert(t.to_multiset().insert(c).count(u[k]) > 0);
            if u[k] != c {
                assert(t.to_multiset().count(u[k]) > 0);
                let w = choose|w: int| 0 <= w < t.len() && t[w] == u[k];
                assert(s[w] == t[w]);
            }
        }
        assert(s =~= t.push(s.last()));
    }
}

/// The columns of a table, as rebuilt from the catalog, are sorted by column id and
/// are exactly the columns that carry the table's id.
pub proof fn lemma_columns_of_table(cs: Seq<ColumnSchemaV>, id: u32)
    ensures
        sorted_by_column_id(columns_of_table(cs, id)),
        columns_of_table(cs, id).to_multiset() == cs.filter(|c: ColumnSchemaV| c.table_id == id).to_multiset(),
    decreases cs.len(),
{
    broadcast use vstd::seq_lib::group_to_multiset_ensures;

    reveal(Seq::filter);
    if cs.len() == 0 {
        assert(cs.filter(|c: ColumnSchemaV| c.table_id == id) =~= Seq::<ColumnSchemaV>::empty());
    } else {
        lemma_columns_of_table(cs.drop_last(), id);
        let f = |c: ColumnSchemaV| c.table_id == id;
        assert(cs =~= cs.drop_last().push(cs.last()));
        reveal(Seq::filter);
        if cs.last().table_id == id {
            lemma_insert_by_column_id_sorted(columns_of_table(cs.drop_last(), id), cs.last());
        }
    }
}

/// A record that passes validation and decodes extends the rows read so far.
proof fn lemma_slot_rows_step(b: Seq<u8>, k: nat, rec: Seq<u8>, vs: Seq<ValueV>)
    requires
        slot_rows(b, k) is Ok,
        slot_entry(b, k as int) != 0,
        record_lookup(b, k as int) == Ok::<Seq<u8>, RecordFault>(rec),
        record_values(rec) == Ok::<Seq<ValueV>, RowFault>(vs),
    ensures
        slot_rows(b, k + 1) == Ok::<_, PageRowsFault>(slot_rows(b, k)->Ok_0.push(vs)),
{
}

/// A page with a valid header is not blank.
proof fn lemma_valid_header_not_blank(b: Seq<u8>, id: u32)
    requires
        b.len() == PAGE_SIZE,
        header_fault(b, id) is None,
    ensures
        !blank_page(b),
        page_rows_of(b, id) == slot_rows(b, num_slots_of(b) as nat),
{
    if blank_page(b) {
        assert(b[0] == 0 && b[1] == 0 && b[2] == 0 && b[3] == 0);
    }
}

/// A row placed into a page with room for it is read back after the rows the page
/// already held (for a page whose slots all point into its record region).
pub proof fn lemma_placed_row_is_read_back(b: Seq<u8>, id: u32, e: Seq<u8>, vs: Seq<ValueV>)
    requires
        b.len() == PAGE_SIZE,
        header_fault(b, id) is None,
        consistent(b),
        e.len() + LENGTH_PREFIX_SIZE + SLOT_SIZE <= free_end_of(b) - free_start_of(b),
        is_row_encoding(e, vs),
        vs.len() <= u16::MAX,
    ensures
        page_rows_of(b, id) is Ok ==> page_rows_of(inserted_bytes(b, e), id) == Ok::<_, PageRowsFault>(
            page_rows_of(b, id)->Ok_0.push(vs),
        ),
{
    let n = inserted_bytes(b, e);
    let ns = num_slots_of(b);
    assert(n.len() == PAGE_SIZE && slot_entry(n, ns) != 0 && num_slots_of(n) == ns + 1) by {
        lemma_inserted_bytes(b, e);
    }
    assert(header_fault(n, id) is None) by {
        lemma_insert_header(b, id, e);
    }
    assert(consistent(n)) by {
        lemma_insert_consistent(b, id, e);
    }
    assert(records(n) == records(b).push(Some(e))) by {
        lemma_insert_records(b, id, e);
    }
    assert(record_values(e) == Ok::<Seq<ValueV>, RowFault>(vs)) by {
        lemma_row_roundtrip(e, vs);
        reveal(record_values);
    }
    assert(record_lookup(n, ns) == Ok::<Seq<u8>, RecordFault>(e)) by {
        assert(records(n)[ns] == Some(e));
    }
    lemma_valid_header_not_blank(b, id);
    lemma_valid_header_not_blank(n, id);
    assert(slot_rows(n, ns as nat) == slot_rows(b, ns as nat)) by {
        assert forall|s: int| 0 <= s < ns implies #[trigger] records(n)[s] == records(b)[s] by {
            assert(records(b).push(Some(e))[s] == records(b)[s]);
        }
        lemma_slot_rows_same_records(b, n, id, ns as nat);
    }
    if page_rows_of(b, id) is Ok {
        lemma_slot_rows_step(n, ns as nat, e, vs);
    }
}

/// On well laid out pages, the rows of the first `k` slots only depend on the records.
proof fn lemma_slot_rows_same_records(b1: Seq<u8>, b2: Seq<u8>, id: u32, k: nat)
    requires
        b1.len() == PAGE_SIZE,
        b2.len() == PAGE_SIZE,
        header_fault(b1, id) is None,
        header_fault(b2, id) is None,
        consistent(b1),
        consistent(b2),
        k <= num_slots_of(b1),
        k <= num_slots_of(b2),
        forall|s: int| 0 <= s < k ==> #[trigger] records(b1)[s] == records(b2)[s],
    ensures
        slot_rows(b1, k) == slot_rows(b2, k),
    decreases k,
{
    if k > 0 {
        let s = k - 1;
        lemma_slot_rows_same_records(b1, b2, id, (k - 1) as nat);
        assert(records(b1)[s] == records(b2)[s]);
        assert(slot_entry(b1, s) == 0 <==> records(b1)[s] is None);
        assert(slot_entry(b2, s) == 0 <==> records(b2)[s] is None);
    }
}

/// Every table id among the entries is at most the largest one.
proof fn lemma_max_table_id_bound(es: Seq<(Seq<char>, u32, u32)>)
    ensures
        forall|j: int| 0 <= j < es.len() ==> (#[trigger] es[j]).1 <= max_table_id(es),
    decreases es.len(),
{
    if es.len() > 0 {
        lemma_max_table_id_bound(es.drop_last());
        assert forall|j: int| 0 <= j < es.len() implies (#[trigger] es[j]).1 <= max_table_id(es) by {
            if j < es.len() - 1 {
                assert(es[j] == es.drop_last()[j]);
            }
        }
    }
}

/// No table of `ts` is named `name`, so none is found under it.
proof fn lemma_first_table_named_none(ts: Seq<TableSchemaV>, name: Seq<char>)
    requires
        forall|j: int| 0 <= j < ts.len() ==> (#[trigger] ts[j]).name != name,
    ensures
        first_table_named(ts, name) is None,
    decreases ts.len(),
{
    if ts.len() > 0 {
        assert forall|j: int| 0 <= j < ts.drop_last().len() implies (#[trigger] ts.drop_last()[j]).name
            != name by {
            assert(ts.drop_last()[j] == ts[j]);
        }
        lemma_first_table_named_none(ts.drop_last(), name);
    }
}

/// The number of `true` entries of `sel`.
pub open spec fn count_true(sel: Seq<bool>) -> nat
    decreases sel.len(),
{
    if sel.len() == 0 {
        0
    } else {
        count_true(sel.drop_last()) + if sel.last() {
            1nat
        } else {
            0nat
        }
    }
}

/// `a` and `b` merged, each kept in order: `sel` tells, element by element,
/// whether the next one comes from `b` (`true`) or from `a` (`false`).
pub open spec fn interleave<T>(a: Seq<T>, b: Seq<T>, sel: Seq<bool>) -> Seq<T>
    decreases sel.len(),
{
    if sel.len() == 0 {
        Seq::empty()
    } else if sel.last() {
        interleave(a, b.drop_last(), sel.drop_last()).push(b.last())
    } else {
        interleave(a.drop_last(), b, sel.drop_last()).push(a.last())
    }
}

/// `sel` has no more `true` entries than entries.
proof fn lemma_count_true_bound(sel: Seq<bool>)
    ensures
        count_true(sel) <= sel.len(),
    decreases sel.len(),
{
    if sel.len() > 0 {
        lemma_count_true_bound(sel.drop_last());
    }
}

/// `sel` merges all of `a` and all of `b`.
pub open spec fn merges(a_len: nat, b_len: nat, sel: Seq<bool>) -> bool {
    count_true(sel) == b_len && sel.len() == a_len + b_len
}

/// `true` entries of a prefix of `sel` are no more than those of all of it.
proof fn lemma_count_true_prefix(sel: Seq<bool>, p: int)
    requires
        0 <= p <= sel.len(),
    ensures
        count_true(sel.take(p)) <= count_true(sel),
    decreases sel.len(),
{
    if p < sel.len() {
        lemma_count_true_prefix(sel.drop_last(), p);
        assert(sel.drop_last().take(p) =~= sel.take(p));
    } else {
        assert(sel.take(p) =~= sel);
    }
}

/// One more `true` entry, anywhere, counts one more.
proof fn lemma_count_true_insert(sel: Seq<bool>, p: int)
    requires
        0 <= p <= sel.len(),
    ensures
        count_true(sel.insert(p, true)) == count_true(sel) + 1,
    decreases sel.len(),
{
    let s2 = sel.insert(p, true);
    if p == sel.len() {
        assert(s2.drop_last() =~= sel);
    } else {
        lemma_count_true_insert(sel.drop_last(), p);
        assert(s2.drop_last() =~= sel.drop_last().insert(p, true));
        assert(s2.last() == sel.last());
    }
}

/// Rows merged among others, with no row of their own yet: the others alone.
pub proof fn lemma_merge_of_nothing<T>(a: Seq<T>)
    ensures
        merges(a.len(), 0, Seq::new(a.len(), |i: int| false)),
        interleave(a, Seq::<T>::empty(), Seq::new(a.len(), |i: int| false)) == a,
    decreases a.len(),
{
    let sel = Seq::new(a.len(), |i: int| false);
    if a.len() > 0 {
        lemma_merge_of_nothing(a.drop_last());
        assert(sel.drop_last() =~= Seq::new(a.drop_last().len(), |i: int| false));
        assert(a.drop_last().push(a.last()) =~= a);
    } else {
        assert(interleave(a, Seq::<T>::empty(), sel) =~= a);
    }
}

/// Putting one more row `x` at any position `p` of merged rows merges it in
/// turn: the others keep their order, and `x` joins the merged-in rows, after
/// those that came before position `p`. So rows placed one at a time, each
/// anywhere, among rows that stay in order, are those rows merged with the
/// placed ones, in some order (the form [`lemma_created_table_is_read_back`]
/// reads the catalog in).
pub proof fn lemma_insert_into_merge<T>(a: Seq<T>, b: Seq<T>, sel: Seq<bool>, p: int, x: T)
    requires
        merges(a.len(), b.len(), sel),
        0 <= p <= sel.len(),
    ensures
        ({
            let q = count_true(sel.take(p)) as int;
            &&& merges(a.len(), b.len() + 1, sel.insert(p, true))
            &&& interleave(a, b, sel).insert(p, x) == interleave(a, b.insert(q, x), sel.insert(p, true))
            &&& b.insert(q, x).to_multiset() == b.to_multiset().insert(x)
        }),
    decreases sel.len(),
{
    broadcast use vstd::seq_lib::group_to_multiset_ensures;

    let q = count_true(sel.take(p)) as int;
    let s2 = sel.insert(p, true);
    lemma_count_true_insert(sel, p);
    lemma_count_true_prefix(sel, p);
    lemma_count_true_bound(sel);
    let m = interleave(a, b, sel);
    if p == sel.len() {
        assert(sel.take(p) =~= sel);
        assert(s2.drop_last() =~= sel);
        assert(b.insert(q, x) =~= b.push(x));
        assert(b.push(x).drop_last() =~= b);
        assert(m.insert(p, x) =~= m.push(x)) by {
            lemma_interleave_len(a, b, sel);
        }
    } else {
        let sd = sel.drop_last();
        lemma_count_true_bound(sd);
        assert(sd.take(p) =~= sel.take(p));
        lemma_count_true_prefix(sd, p);
        assert(s2.drop_last() =~= sd.insert(p, true));
        assert(s2.last() == sel.last());
        lemma_interleave_len(a, b, sel);
        if sel.last() {
            let bd = b.drop_last();
            lemma_insert_into_merge(a, bd, sd, p, x);
            assert(b.insert(q, x).drop_last() =~= bd.insert(q, x));
            assert(b.insert(q, x).last() == b.last());
            assert(m.insert(p, x) =~= interleave(a, bd, sd).insert(p, x).push(b.last()));
        } else {
            let ad = a.drop_last();
            lemma_insert_into_merge(ad, b, sd, p, x);
            assert(m.insert(p, x) =~= interleave(ad, b, sd).insert(p, x).push(a.last()));
        }
    }
}

/// Merged rows are as many as the rows merged.
proof fn lemma_interleave_len<T>(a: Seq<T>, b: Seq<T>, sel: Seq<bool>)
    requires
        merges(a.len(), b.len(), sel),
    ensures
        interleave(a, b, sel).len() == sel.len(),
    decreases sel.len(),
{
    lemma_count_true_bound(sel);
    if sel.len() > 0 {
        lemma_count_true_bound(sel.drop_last());
        if sel.last() {
            lemma_interleave_len(a, b.drop_last(), sel.drop_last());
        } else {
            lemma_interleave_len(a.drop_last(), b, sel.drop_last());
        }
    }
}

/// Decoding merged `_columns` rows gives the merged columns.
proof fn lemma_column_entries_interleave(
    cr: Seq<Seq<ValueV>>,
    nr: Seq<Seq<ValueV>>,
    sel: Seq<bool>,
)
    requires
        column_entries(cr) is Ok,
        column_entries(nr) is Ok,
        merges(cr.len(), nr.len(), sel),
    ensures
        column_entries(interleave(cr, nr, sel)) == Ok::<_, CatalogFault>(
            interleave(column_entries(cr)->Ok_0, column_entries(nr)->Ok_0, sel),
        ),
    decreases sel.len(),
{
    lemma_count_true_bound(sel.drop_last());
    if sel.len() > 0 {
        let x = interleave(cr, nr, sel);
        if sel.last() {
            let ns = column_entries(nr)->Ok_0;
            assert(ns.drop_last() =~= column_entries(nr.drop_last())->Ok_0);
            lemma_column_entries_interleave(cr, nr.drop_last(), sel.drop_last());
            assert(x.drop_last() =~= interleave(cr, nr.drop_last(), sel.drop_last()));
        } else {
            let cs = column_entries(cr)->Ok_0;
            assert(cs.drop_last() =~= column_entries(cr.drop_last())->Ok_0);
            lemma_column_entries_interleave(cr.drop_last(), nr, sel.drop_last());
            assert(x.drop_last() =~= interleave(cr.drop_last(), nr, sel.drop_last()));
        }
    }
}

/// Merged-in columns of other tables leave the columns of table `t` as they were.
proof fn lemma_columns_of_other_tables(
    cs: Seq<ColumnSchemaV>,
    extra: Seq<ColumnSchemaV>,
    sel: Seq<bool>,
    t: u32,
)
    requires
        forall|j: int| 0 <= j < extra.len() ==> (#[trigger] extra[j]).table_id != t,
        merges(cs.len(), extra.len(), sel),
    ensures
        columns_of_table(interleave(cs, extra, sel), t) == columns_of_table(cs, t),
    decreases sel.len(),
{
    lemma_count_true_bound(sel);
    if sel.len() > 0 {
        lemma_count_true_bound(sel.drop_last());
        let x = interleave(cs, extra, sel);
        if sel.last() {
            assert(extra.last().table_id != t);
            assert forall|j: int| 0 <= j < extra.drop_last().len() implies (
            #[trigger] extra.drop_last()[j]).table_id != t by {
                assert(extra.drop_last()[j] == extra[j]);
            }
            lemma_columns_of_other_tables(cs, extra.drop_last(), sel.drop_last(), t);
            assert(x.drop_last() =~= interleave(cs, extra.drop_last(), sel.drop_last()));
        } else {
            lemma_columns_of_other_tables(cs.drop_last(), extra, sel.drop_last(), t);
            assert(x.drop_last() =~= interleave(cs.drop_last(), extra, sel.drop_last()));
        }
    } else {
        assert(cs.len() == 0);
        assert(cs =~= Seq::<ColumnSchemaV>::empty());
    }
}

/// Merged among columns none of which belongs to table `id`, the columns `b`
/// give table `id` what they give alone.
proof fn lemma_columns_among_others(
    cs: Seq<ColumnSchemaV>,
    b: Seq<ColumnSchemaV>,
    sel: Seq<bool>,
    id: u32,
)
    requires
        forall|j: int| 0 <= j < cs.len() ==> (#[trigger] cs[j]).table_id != id,
        merges(cs.len(), b.len(), sel),
    ensures
        columns_of_table(interleave(cs, b, sel), id) == columns_of_table(b, id),
    decreases sel.len(),
{
    lemma_count_true_bound(sel);
    if sel.len() == 0 {
        assert(b =~= Seq::<ColumnSchemaV>::empty());
    } else {
        lemma_count_true_bound(sel.drop_last());
        let x = interleave(cs, b, sel);
        if sel.last() {
            lemma_columns_among_others(cs, b.drop_last(), sel.drop_last(), id);
            assert(x.drop_last() =~= interleave(cs, b.drop_last(), sel.drop_last()));
        } else {
            assert forall|j: int| 0 <= j < cs.drop_last().len() implies (
            #[trigger] cs.drop_last()[j]).table_id != id by {
                assert(cs.drop_last()[j] == cs[j]);
            }
            assert(cs.last() == cs[cs.len() - 1]);
            lemma_columns_among_others(cs.drop_last(), b, sel.drop_last(), id);
            assert(x.drop_last() =~= interleave(cs.drop_last(), b, sel.drop_last()));
        }
    }
}

/// Sorting the columns of one table keeps them all and puts them in
/// column-id order.
proof fn lemma_columns_of_one_table(b: Seq<ColumnSchemaV>, id: u32)
    requires
        forall|j: int| 0 <= j < b.len() ==> (#[trigger] b[j]).table_id == id,
    ensures
        sorted_by_column_id(columns_of_table(b, id)),
        columns_of_table(b, id).to_multiset() == b.to_multiset(),
    decreases b.len(),
{
    broadcast use vstd::seq_lib::group_to_multiset_ensures;

    if b.len() == 0 {
        assert(b =~= Seq::<ColumnSchemaV>::empty());
    } else {
        assert forall|j: int| 0 <= j < b.drop_last().len() implies (
        #[trigger] b.drop_last()[j]).table_id == id by {
            assert(b.drop_last()[j] == b[j]);
        }
        lemma_columns_of_one_table(b.drop_last(), id);
        assert(b[b.len() - 1].table_id == id);
        lemma_insert_by_column_id_sorted(columns_of_table(b.drop_last(), id), b.last());
        assert(b.drop_last().push(b.last()) =~= b);
    }
}

/// A list sorted by column id that holds the same columns as a list whose
/// column ids increase is that list.
proof fn lemma_sorted_columns_unique(x: Seq<ColumnSchemaV>, y: Seq<ColumnSchemaV>)
    requires
        sorted_by_column_id(x),
        forall|i: int, j: int| 0 <= i < j < y.len() ==> y[i].column_id < y[j].column_id,
        x.to_multiset() == y.to_multiset(),
    ensures
        x == y,
    decreases x.len(),
{
    broadcast use vstd::seq_lib::group_to_multiset_ensures;

    assert(x.len() == x.to_multiset().len() && y.len() == y.to_multiset().len());
    if x.len() > 0 {
        assert(x.contains(x[0]));
        assert(y.to_multiset().count(x[0]) > 0);
        assert(y.contains(x[0]));
        let j = choose|j: int| 0 <= j < y.len() && y[j] == x[0];
        assert(y.contains(y[0]));
        assert(x.to_multiset().count(y[0]) > 0);
        assert(x.contains(y[0]));
        let i = choose|i: int| 0 <= i < x.len() && x[i] == y[0];
        if j > 0 {
            assert(x[0].column_id <= x[i].column_id);
            assert(y[0].column_id < y[j].column_id);
        }
        assert(x.remove(0) =~= x.drop_first());
        assert(y.remove(0) =~= y.drop_first());
        assert(x.remove(0).to_multiset() == x.to_multiset().remove(x[0]));
        assert(y.remove(0).to_multiset() == y.to_multiset().remove(y[0]));
        assert forall|a: int, c: int| 0 <= a < c < x.drop_first().len() implies x.drop_first()[a].column_id
            <= x.drop_first()[c].column_id by {
            assert(x.drop_first()[a] == x[a + 1]);
            assert(x.drop_first()[c] == x[c + 1]);
        }
        assert forall|a: int, c: int| 0 <= a < c < y.drop_first().len() implies y.drop_first()[a].column_id
            < y.drop_first()[c].column_id by {
            assert(y.drop_first()[a] == y[a + 1]);
            assert(y.drop_first()[c] == y[c + 1]);
        }
        lemma_sorted_columns_unique(x.drop_first(), y.drop_first());
        assert forall|a: int| 0 <= a < x.len() implies x[a] == y[a] by {
            if a > 0 {
                assert(x[a] == x.drop_first()[a - 1]);
                assert(y[a] == y.drop_first()[a - 1]);
            }
        }
        assert(x =~= y);
    }
}

/// Reordering a sequence reorders its image the same way.
proof fn lemma_map_values_to_multiset<A, B>(s: Seq<A>, t: Seq<A>, f: spec_fn(A) -> B)
    requires
        s.to_multiset() == t.to_multiset(),
    ensures
        s.map_values(f).to_multiset() == t.map_values(f).to_multiset(),
    decreases s.len(),
{
    broadcast use vstd::seq_lib::group_to_multiset_ensures;
    broadcast use vstd::multiset::group_multiset_axioms;

    assert(s.len() == s.to_multiset().len() && t.len() == t.to_multiset().len());
    if s.len() == 0 {
        assert(s.map_values(f) =~= Seq::<B>::empty());
        assert(t.map_values(f) =~= Seq::<B>::empty());
    } else {
        let a = s.last();
        assert(s.contains(a)) by {
            assert(s[s.len() - 1] == a);
        }
        assert(t.to_multiset().count(a) > 0);
        assert(t.contains(a));
        let i = choose|i: int| 0 <= i < t.len() && t[i] == a;
        let t2 = t.remove(i);
        assert(s.drop_last().push(a) =~= s);
        assert(s.to_multiset() == s.drop_last().to_multiset().insert(a));
        assert(t2.to_multiset() == t.to_multiset().remove(a));
        assert(s.drop_last().to_multiset() =~= t2.to_multiset());
        lemma_map_values_to_multiset(s.drop_last(), t2, f);
        assert(s.map_values(f) =~= s.drop_last().map_values(f).push(f(a)));
        assert(t.map_values(f) =~= t2.map_values(f).insert(i, f(a)));
        assert(t2.map_values(f).insert(i, f(a)).to_multiset() == t2.map_values(f).to_multiset().insert(
            f(a),
        ));
    }
}

/// `_columns` rows that each decode decode together, in order.
proof fn lemma_column_entries_each(rows: Seq<Seq<ValueV>>, s: Seq<ColumnSchemaV>)
    requires
        s.len() == rows.len(),
        forall|i: int|
            0 <= i < rows.len() ==> column_entry(#[trigger] rows[i]) == Ok::<_, CatalogFault>(s[i]),
    ensures
        column_entries(rows) == Ok::<_, CatalogFault>(s),
    decreases rows.len(),
{
    if rows.len() > 0 {
        assert forall|i: int| 0 <= i < rows.drop_last().len() implies column_entry(
            #[trigger] rows.drop_last()[i],
        ) == Ok::<_, CatalogFault>(s.drop_last()[i]) by {
            assert(rows.drop_last()[i] == rows[i]);
        }
        lemma_column_entries_each(rows.drop_last(), s.drop_last());
        assert(column_entry(rows[rows.len() - 1]) == Ok::<_, CatalogFault>(s[s.len() - 1]));
        assert(s.drop_last().push(s.last()) =~= s);
    } else {
        assert(s =~= Seq::<ColumnSchemaV>::empty());
    }
}

/// The `i`-th `_columns` row of a new table decodes as its `i`-th column.
proof fn lemma_new_column_entry(id: u32, ds: Seq<ColumnDefV>, i: int)
    requires
        0 <= i < ds.len(),
        ds.len() < u32::MAX,
    ensures
        column_entry(new_column_rows(id, ds)[i]) == Ok::<_, CatalogFault>(
            new_column_schemas(id, ds)[i],
        ),
{
    lemma_type_name_roundtrip(ds[i].column_type);
    assert(new_column_rows(id, ds)[i] == new_column_row(id, i, ds[i]));
}

/// Every `_tables` row gives one entry.
proof fn lemma_table_entries_len(tr: Seq<Seq<ValueV>>)
    requires
        table_entries(tr) is Some,
    ensures
        table_entries(tr)->Some_0.len() == tr.len(),
    decreases tr.len(),
{
    if tr.len() > 0 {
        lemma_table_entries_len(tr.drop_last());
    }
}

/// The `_tables` rows with a row inserted at `k` decode as the entries with its
/// entry inserted at `k`.
proof fn lemma_table_entries_insert(tr: Seq<Seq<ValueV>>, k: int, r: Seq<ValueV>)
    requires
        table_entries(tr) is Some,
        table_entry(r) is Some,
        0 <= k <= tr.len(),
    ensures
        table_entries(tr.insert(k, r)) == Some(
            table_entries(tr)->Some_0.insert(k, table_entry(r)->Some_0),
        ),
    decreases tr.len(),
{
    let es = table_entries(tr)->Some_0;
    let e = table_entry(r)->Some_0;
    lemma_table_entries_len(tr);
    if k == tr.len() {
        assert(tr.insert(k, r).drop_last() =~= tr);
        assert(es.insert(k, e) =~= es.push(e));
    } else {
        lemma_table_entries_insert(tr.drop_last(), k, r);
        lemma_table_entries_len(tr.drop_last());
        assert(es.drop_last() =~= table_entries(tr.drop_last())->Some_0);
        assert(tr.insert(k, r).drop_last() =~= tr.drop_last().insert(k, r));
        assert(tr.insert(k, r).last() == tr.last());
        assert(es.insert(k, e) =~= table_entries(tr.drop_last())->Some_0.insert(k, e).push(
            es.last(),
        ));
    }
}

/// The largest table id is 0 or the id of some entry.
proof fn lemma_max_table_id_attained(es: Seq<(Seq<char>, u32, u32)>)
    ensures
        max_table_id(es) == 0 || exists|j: int| 0 <= j < es.len() && es[j].1 == max_table_id(es),
    decreases es.len(),
{
    if es.len() > 0 {
        lemma_max_table_id_attained(es.drop_last());
        if max_table_id(es) != 0 && max_table_id(es) == max_table_id(es.drop_last()) {
            let j = choose|j: int|
                0 <= j < es.drop_last().len() && es.drop_last()[j].1 == max_table_id(
                    es.drop_last(),
                );
            assert(es[j] == es.drop_last()[j]);
        }
        if max_table_id(es) != max_table_id(es.drop_last()) {
            assert(es[es.len() - 1].1 == max_table_id(es));
        }
    }
}

/// `ts` has a table named `name` at `k` and none before it, so the lookup finds `k`.
proof fn lemma_first_table_named_at(ts: Seq<TableSchemaV>, name: Seq<char>, k: int)
    requires
        0 <= k < ts.len(),
        ts[k].name == name,
        forall|j: int| 0 <= j < k ==> (#[trigger] ts[j]).name != name,
    ensures
        first_table_named(ts, name) == Some(k),
    decreases ts.len(),
{
    if k < ts.len() - 1 {
        assert(ts.drop_last()[k] == ts[k]);
        assert forall|j: int| 0 <= j < k implies (#[trigger] ts.drop_last()[j]).name != name by {
            assert(ts.drop_last()[j] == ts[j]);
        }
        lemma_first_table_named_at(ts.drop_last(), name, k);
    } else {
        assert forall|j: int| 0 <= j < ts.drop_last().len() implies (
        #[trigger] ts.drop_last()[j]).name != name by {
            assert(ts.drop_last()[j] == ts[j]);
        }
        lemma_first_table_named_none(ts.drop_last(), name);
    }
}

/// Every `_columns` row gives one column.
proof fn lemma_column_entries_len(cr: Seq<Seq<ValueV>>)
    requires
        column_entries(cr) is Ok,
    ensures
        column_entries(cr)->Ok_0.len() == cr.len(),
    decreases cr.len(),
{
    if cr.len() > 0 {
        lemma_column_entries_len(cr.drop_last());
    }
}

/// What holds of every element of `a` and of `b` holds of every element merged
/// from them.
proof fn lemma_interleave_all<T>(a: Seq<T>, b: Seq<T>, sel: Seq<bool>, p: spec_fn(T) -> bool)
    requires
        merges(a.len(), b.len(), sel),
        forall|j: int| 0 <= j < a.len() ==> p(#[trigger] a[j]),
        forall|j: int| 0 <= j < b.len() ==> p(#[trigger] b[j]),
    ensures
        interleave(a, b, sel).len() == sel.len(),
        forall|j: int| 0 <= j < sel.len() ==> p(#[trigger] interleave(a, b, sel)[j]),
    decreases sel.len(),
{
    lemma_count_true_bound(sel);
    if sel.len() > 0 {
        lemma_count_true_bound(sel.drop_last());
        let x = interleave(a, b, sel);
        if sel.last() {
            assert forall|j: int| 0 <= j < b.drop_last().len() implies p(
                #[trigger] b.drop_last()[j],
            ) by {
                assert(b.drop_last()[j] == b[j]);
            }
            assert(p(b[b.len() - 1]));
            lemma_interleave_all(a, b.drop_last(), sel.drop_last(), p);
        } else {
            assert forall|j: int| 0 <= j < a.drop_last().len() implies p(
                #[trigger] a.drop_last()[j],
            ) by {
                assert(a.drop_last()[j] == a[j]);
            }
            assert(p(a[a.len() - 1]));
            lemma_interleave_all(a.drop_last(), b, sel.drop_last(), p);
        }
    }
}

/// The system-table rows describe a catalog in which every column belongs to a
/// table id no larger than the largest table id. The empty catalog has this
/// shape ([`lemma_empty_catalog_rows_ok`]) and creating a table keeps it
/// ([`lemma_created_table_is_read_back`]).
pub open spec fn catalog_rows_ok(tr: Seq<Seq<ValueV>>, cr: Seq<Seq<ValueV>>) -> bool {
    &&& catalog_schemas(tr, cr) is Ok
    &&& forall|j: int|
        0 <= j < column_entries(cr)->Ok_0.len() ==> (#[trigger] column_entries(cr)->Ok_0[j]).table_id
            <= max_table_id(table_entries(tr)->Some_0)
}

/// Empty system tables describe an empty catalog of the right shape.
pub proof fn lemma_empty_catalog_rows_ok()
    ensures
        catalog_rows_ok(Seq::empty(), Seq::empty()),
        catalog_schemas(Seq::empty(), Seq::empty()) == Ok::<_, CatalogFault>(
            Seq::<TableSchemaV>::empty(),
        ),
{
    assert(assemble_schemas(Seq::empty(), Seq::empty()) =~= Seq::<TableSchemaV>::empty());
}

/// Creating a table, then reading the catalog back. Take system tables that
/// describe a catalog of the right shape, and a name that no table has. Insert
/// the `_tables` row that [`plan_create_table`] gives the new table at any
/// position `k` among the `_tables` rows, and merge its `_columns` rows, in any
/// order (`nb`), anywhere among the `_columns` rows, whose own order is kept (as
/// placing rows, one by one, in the first page with room may do). Then the
/// catalog read from the rows is the old one with the new table's schema at
/// position `k`; looking the name up finds it there; and the rows keep the right
/// shape, so the law applies again to the next table created.
pub proof fn lemma_created_table_is_read_back(
    tr: Seq<Seq<ValueV>>,
    cr: Seq<Seq<ValueV>>,
    name: Seq<char>,
    ds: Seq<ColumnDefV>,
    k: int,
    nb: Seq<Seq<ValueV>>,
    sel: Seq<bool>,
)
    requires
        catalog_rows_ok(tr, cr),
        !has_table_named(table_entries(tr)->Some_0, name),
        max_table_id(table_entries(tr)->Some_0) < u32::MAX,
        ds.len() < u32::MAX,
        0 <= k <= tr.len(),
        nb.to_multiset() == new_column_rows(
            (max_table_id(table_entries(tr)->Some_0) + 1) as u32,
            ds,
        ).to_multiset(),
        merges(cr.len(), ds.len(), sel),
    ensures
        ({
            let id = (max_table_id(table_entries(tr)->Some_0) + 1) as u32;
            let tr2 = tr.insert(k, new_table_row(id, name));
            let cr2 = interleave(cr, nb, sel);
            let ts2 = catalog_schemas(tr, cr)->Ok_0.insert(k, new_table_schema(id, name, ds));
            &&& catalog_schemas(tr2, cr2) == Ok::<_, CatalogFault>(ts2)
            &&& first_table_named(ts2, name) == Some(k)
            &&& catalog_rows_ok(tr2, cr2)
        }),
{
    broadcast use vstd::seq_lib::group_to_multiset_ensures;

    let es = table_entries(tr)->Some_0;
    let cs = column_entries(cr)->Ok_0;
    let id = (max_table_id(es) + 1) as u32;
    let e = (name, id, 0u32);
    let ncs = new_column_schemas(id, ds);
    let nr = new_column_rows(id, ds);
    // The new rows decode as the new entry and the new columns, in their order.
    assert(table_entry(new_table_row(id, name)) == Some(e));
    lemma_table_entries_len(tr);
    lemma_table_entries_insert(tr, k, new_table_row(id, name));
    let es2 = es.insert(k, e);
    let dec = |r: Seq<ValueV>| column_entry(r)->Ok_0;
    assert forall|i: int| 0 <= i < nr.len() implies #[trigger] ncs[i] == dec(nr[i]) by {
        lemma_new_column_entry(id, ds, i);
    }
    assert(ncs =~= nr.map_values(dec));
    lemma_map_values_to_multiset(nb, nr, dec);
    let nbs = nb.map_values(dec);
    assert(nb.len() == nb.to_multiset().len() && nr.len() == nr.to_multiset().len());
    assert forall|i: int| 0 <= i < nb.len() implies column_entry(#[trigger] nb[i])
        == Ok::<_, CatalogFault>(nbs[i]) && nbs[i].table_id == id by {
        assert(nb.contains(nb[i]));
        assert(nr.to_multiset().count(nb[i]) > 0);
        assert(nr.contains(nb[i]));
        let j = choose|j: int| 0 <= j < nr.len() && nr[j] == nb[i];
        lemma_new_column_entry(id, ds, j);
    }
    lemma_column_entries_each(nb, nbs);
    lemma_column_entries_len(cr);
    lemma_column_entries_interleave(cr, nb, sel);
    let cs2 = interleave(cs, nbs, sel);
    // Every old table id, and so every old column's table id, is below the new id.
    lemma_max_table_id_bound(es);
    assert forall|j: int| 0 <= j < cs.len() implies (#[trigger] cs[j]).table_id != id by {}
    // The new table's columns come out sorted, as planned.
    lemma_columns_among_others(cs, nbs, sel, id);
    assert forall|j: int| 0 <= j < nbs.len() implies (#[trigger] nbs[j]).table_id == id by {
        assert(column_entry(nb[j]) == Ok::<_, CatalogFault>(nbs[j]));
    }
    lemma_columns_of_one_table(nbs, id);
    lemma_sorted_columns_unique(columns_of_table(nbs, id), ncs);
    let old_schemas = assemble_schemas(es, cs);
    let new_schemas = assemble_schemas(es2, cs2);
    let ts2 = old_schemas.insert(k, new_table_schema(id, name, ds));
    assert forall|i: int| 0 <= i < es2.len() implies #[trigger] new_schemas[i] == ts2[i] by {
        if i == k {
            assert(!id_seen_before(es2, i)) by {
                if id_seen_before(es2, i) {
                    let j = choose|j: int| 0 <= j < i && #[trigger] es2[j].1 == es2[i].1;
                    assert(es2[j] == es[j]);
                    assert(es[j].1 <= max_table_id(es));
                }
            }
        } else {
            let o = if i < k {
                i
            } else {
                i - 1
            };
            assert(es2[i] == es[o]);
            assert(ts2[i] == old_schemas[o]);
            assert(id_seen_before(es2, i) == id_seen_before(es, o)) by {
                if id_seen_before(es2, i) {
                    let j = choose|j: int| 0 <= j < i && #[trigger] es2[j].1 == es2[i].1;
                    if j < k {
                        assert(es2[j] == es[j]);
                    } else if j == k {
                        assert(es[o].1 <= max_table_id(es));
                    } else {
                        assert(es2[j] == es[j - 1]);
                    }
                }
                if id_seen_before(es, o) {
                    let j = choose|j: int| 0 <= j < o && #[trigger] es[j].1 == es[o].1;
                    if j < k {
                        assert(es2[j] == es[j]);
                    } else {
                        assert(es2[j + 1] == es[j]);
                    }
                }
            }
            assert(es[o].1 <= max_table_id(es));
            assert forall|j: int| 0 <= j < nbs.len() implies (#[trigger] nbs[j]).table_id != es[o].1 by {
                assert(column_entry(nb[j]) == Ok::<_, CatalogFault>(nbs[j]));
            }
            lemma_columns_of_other_tables(cs, nbs, sel, es[o].1);
        }
    }
    assert(new_schemas =~= ts2);
    // The lookup finds the new table at `k`.
    assert forall|j: int| 0 <= j < k implies (#[trigger] ts2[j]).name != name by {
        assert(ts2[j] == old_schemas[j]);
        assert(old_schemas[j].name == es[j].0);
    }
    lemma_first_table_named_at(ts2, name, k);
    // The shape is kept: every column's table id is at most the new largest id.
    lemma_max_table_id_bound(es2);
    assert(es2[k] == e);
    let top = max_table_id(es2);
    assert(max_table_id(es) <= top) by {
        lemma_max_table_id_attained(es);
        if max_table_id(es) != 0 {
            let j = choose|j: int| 0 <= j < es.len() && es[j].1 == max_table_id(es);
            if j < k {
                assert(es2[j] == es[j]);
            } else {
                assert(es2[j + 1] == es[j]);
            }
        }
    }
    let within = |c: ColumnSchemaV| c.table_id <= top;
    assert forall|j: int| 0 <= j < cs.len() implies within(#[trigger] cs[j]) by {}
    assert forall|j: int| 0 <= j < nbs.len() implies within(#[trigger] nbs[j]) by {
        assert(column_entry(nb[j]) == Ok::<_, CatalogFault>(nbs[j]));
    }
    lemma_interleave_all(cs, nbs, sel, within);
}

/// The rows of one page of a heap file (kept folded in the heap-level proofs).
#[verifier::opaque]
pub open spec fn rows_of_page(b: Seq<u8>, id: u32) -> core::result::Result<
    Seq<Seq<ValueV>>,
    PageRowsFault,
> {
    page_rows_of(b, id)
}

/// The rows of the pages of a heap file, page after page; each page is given
/// by its bytes and its id.
pub open spec fn heap_rows(pages: Seq<(Seq<u8>, u32)>) -> core::result::Result<
    Seq<Seq<ValueV>>,
    PageRowsFault,
>
    decreases pages.len(),
{
    if pages.len() == 0 {
        Ok(Seq::empty())
    } else {
        match heap_rows(pages.drop_last()) {
            Err(f) => Err(f),
            Ok(rs) => match rows_of_page(pages.last().0, pages.last().1) {
                Err(f) => Err(f),
                Ok(r) => Ok(rs + r),
            },
        }
    }
}

/// A row placed in page `j` of a heap file is read back among the rows of the
/// heap, right after the rows that page `j` and the pages before it held.
pub proof fn lemma_row_placed_in_heap(
    pages: Seq<(Seq<u8>, u32)>,
    j: int,
    e: Seq<u8>,
    vs: Seq<ValueV>,
)
    requires
        0 <= j < pages.len(),
        heap_rows(pages) is Ok,
        pages[j].0.len() == PAGE_SIZE,
        header_fault(pages[j].0, pages[j].1) is None,
        consistent(pages[j].0),
        e.len() + LENGTH_PREFIX_SIZE + SLOT_SIZE <= free_end_of(pages[j].0) - free_start_of(
            pages[j].0,
        ),
        is_row_encoding(e, vs),
        vs.len() <= u16::MAX,
    ensures
        heap_rows(pages.subrange(0, j + 1)) is Ok,
        heap_rows(pages.update(j, (inserted_bytes(pages[j].0, e), pages[j].1))) == Ok::<
            _,
            PageRowsFault,
        >(
            heap_rows(pages)->Ok_0.insert(heap_rows(pages.subrange(0, j + 1))->Ok_0.len() as int, vs),
        ),
    decreases pages.len(),
{
    let ps2 = pages.update(j, (inserted_bytes(pages[j].0, e), pages[j].1));
    let rs = heap_rows(pages.drop_last())->Ok_0;
    if j == pages.len() - 1 {
        assert(pages.subrange(0, j + 1) =~= pages);
        assert(ps2.drop_last() =~= pages.drop_last());
        let r = rows_of_page(pages[j].0, pages[j].1)->Ok_0;
        assert(rows_of_page(inserted_bytes(pages[j].0, e), pages[j].1) == Ok::<_, PageRowsFault>(
            r.push(vs),
        )) by {
            reveal(rows_of_page);
            lemma_placed_row_is_read_back(pages[j].0, pages[j].1, e, vs);
        }
        assert(rs + r.push(vs) =~= (rs + r).insert((rs + r).len() as int, vs));
    } else {
        assert(ps2.drop_last() =~= pages.drop_last().update(
            j,
            (inserted_bytes(pages[j].0, e), pages[j].1),
        ));
        assert(pages.drop_last()[j] == pages[j]);
        lemma_row_placed_in_heap(pages.drop_last(), j, e, vs);
        assert(pages.drop_last().subrange(0, j + 1) =~= pages.subrange(0, j + 1));
        lemma_heap_rows_prefix_len(pages.drop_last(), j + 1);
        let pos = heap_rows(pages.subrange(0, j + 1))->Ok_0.len() as int;
        let r = rows_of_page(pages.last().0, pages.last().1)->Ok_0;
        assert(ps2.last() == pages.last());
        assert(rs.insert(pos, vs) + r =~= (rs + r).insert(pos, vs));
    }
}

/// The rows of a prefix of the pages are no more than the rows of all of them.
proof fn lemma_heap_rows_prefix_len(pages: Seq<(Seq<u8>, u32)>, n: int)
    requires
        0 <= n <= pages.len(),
        heap_rows(pages) is Ok,
    ensures
        heap_rows(pages.subrange(0, n)) is Ok,
        heap_rows(pages.subrange(0, n))->Ok_0.len() <= heap_rows(pages)->Ok_0.len(),
    decreases pages.len(),
{
    if n == pages.len() {
        assert(pages.subrange(0, n) =~= pages);
    } else {
        lemma_heap_rows_prefix_len(pages.drop_last(), n);
        assert(pages.drop_last().subrange(0, n) =~= pages.subrange(0, n));
    }
}

/// A page that holds one record, the encoding of `vs`, holds the one row `vs`.
#[verifier::spinoff_prover]
#[verifier::rlimit(40)]
proof fn lemma_single_record_page_rows(p: Seq<u8>, id: u32, e: Seq<u8>, vs: Seq<ValueV>)
    requires
        p.len() == PAGE_SIZE,
        header_fault(p, id) is None,
        records(p) == seq![Some(e)],
        is_row_encoding(e, vs),
        vs.len() <= u16::MAX,
    ensures
        page_rows_of(p, id) == Ok::<_, PageRowsFault>(seq![vs]),
{
    lemma_valid_header_not_blank(p, id);
    assert(records(p).len() == 1);
    assert(num_slots_of(p) == 1);
    assert(records(p)[0] == Some(e));
    assert(record_lookup(p, 0) == Ok::<Seq<u8>, RecordFault>(e));
    assert(record_values(e) == Ok::<Seq<ValueV>, RowFault>(vs)) by {
        lemma_row_roundtrip(e, vs);
        reveal(record_values);
    }
    assert(slot_rows(p, 0) == Ok::<_, PageRowsFault>(Seq::<Seq<ValueV>>::empty()));
    lemma_slot_rows_step(p, 0, e, vs);
    assert(Seq::<Seq<ValueV>>::empty().push(vs) =~= seq![vs]);
}

/// A row placed in a new page appended to a heap file is read back last.
pub proof fn lemma_row_placed_in_new_page(
    pages: Seq<(Seq<u8>, u32)>,
    p: Seq<u8>,
    id: u32,
    e: Seq<u8>,
    vs: Seq<ValueV>,
)
    requires
        heap_rows(pages) is Ok,
        p.len() == PAGE_SIZE,
        header_fault(p, id) is None,
        records(p) == seq![Some(e)],
        is_row_encoding(e, vs),
        vs.len() <= u16::MAX,
    ensures
        heap_rows(pages.push((p, id))) == Ok::<_, PageRowsFault>(heap_rows(pages)->Ok_0.push(vs)),
{
    assert(pages.push((p, id)).drop_last() =~= pages);
    assert(rows_of_page(p, id) == Ok::<_, PageRowsFault>(seq![vs])) by {
        reveal(rows_of_page);
        lemma_single_record_page_rows(p, id, e, vs);
    }
    assert(heap_rows(pages)->Ok_0 + seq![vs] =~= heap_rows(pages)->Ok_0.push(vs));
}


/// One step of reading a heap file page after page: the rows of `page`, the
/// next page, follow the rows read so far (so reading pages `0..n` in turn
/// gives [`heap_rows`] of them).
pub fn append_page_rows(rows: &mut Vec<Vec<Value>>, page: Page) -> (r: Result<()>)
    requires
        page.wf(),
    ensures
        match page_rows_of(page.data@, page.id.0) {
            Ok(more) => r is Ok && rows_view(final(rows)@) == rows_view(old(rows)@) + more,
            Err(f) => r matches Err(e) && page_rows_error_ok(e, page.id.0, f) && final(rows)@
                == old(rows)@,
        },
{
    let mut more = page_rows(page)?;
    let ghost before = rows@;
    let ghost added = more@;
    rows.append(&mut more);
    assert(rows_view(rows@) =~= rows_view(before) + rows_view(added));
    Ok(())
}

/// Reading the pages of a heap file one after another with
/// [`append_page_rows`] gives the rows of the heap: the rows of the first
/// `n + 1` pages are those of the first `n` followed by those of page `n`.
pub proof fn lemma_heap_rows_step(pages: Seq<(Seq<u8>, u32)>, n: int)
    requires
        0 <= n < pages.len(),
        heap_rows(pages.subrange(0, n)) is Ok,
        page_rows_of(pages[n].0, pages[n].1) is Ok,
    ensures
        heap_rows(pages.subrange(0, n + 1)) == Ok::<_, PageRowsFault>(
            heap_rows(pages.subrange(0, n))->Ok_0 + page_rows_of(pages[n].0, pages[n].1)->Ok_0,
        ),
{
    reveal(rows_of_page);
    assert(pages.subrange(0, n + 1).drop_last() =~= pages.subrange(0, n));
    assert(pages.subrange(0, n + 1).last() == pages[n]);
}

/// A new table's schema keeps the definitions it was made from: column `i`
/// has the `i`-th definition's name, type and nullability, column id `i + 1`
/// and the table's id, and the table keeps its id and name.
pub proof fn lemma_new_schema_keeps_definitions(id: u32, name: Seq<char>, ds: Seq<ColumnDefV>)
    requires
        ds.len() < u32::MAX,
    ensures
        ({
            let t = new_table_schema(id, name, ds);
            &&& t.table_id == id
            &&& t.name == name
            &&& t.columns.len() == ds.len()
            &&& forall|i: int|
                0 <= i < ds.len() ==> {
                    let c = #[trigger] t.columns[i];
                    &&& c.name == ds[i].name
                    &&& c.column_type == ds[i].column_type
                    &&& c.nullable == ds[i].nullable
                    &&& c.column_id == i + 1
                    &&& c.table_id == id
                }
        }),
{
}

/// A `_columns` row is read as the column it spells out: a row that decodes
/// has five fields, the third is the column's name and the fifth is
/// `Boolean(nullable)` with the column's nullability; the first two are the
/// table id and column id. And the row written for a new table's column is
/// read back with the definition's name, type and nullability.
pub proof fn lemma_column_row_is_read_as_written(r: Seq<ValueV>, id: u32, i: int, d: ColumnDefV)
    requires
        0 <= i < u32::MAX - 1,
    ensures
        column_entry(r) matches Ok(c) ==> {
            &&& r.len() == 5
            &&& r[0] matches ValueV::Integer(x) && x as u32 == c.table_id
            &&& r[1] matches ValueV::Integer(x) && x as u32 == c.column_id
            &&& r[2] == ValueV::Varchar(c.name)
            &&& r[3] matches ValueV::Varchar(tn) && type_from_name(tn) == Some(c.column_type)
            &&& r[4] == ValueV::Boolean(c.nullable)
        },
        column_entry(new_column_row(id, i, d)) == Ok::<_, CatalogFault>(
            ColumnSchemaV {
                table_id: id,
                column_id: (i + 1) as u32,
                name: d.name,
                column_type: d.column_type,
                nullable: d.nullable,
            },
        ),
{
    lemma_type_name_roundtrip(d.column_type);
}
} // verus!
