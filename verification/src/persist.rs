//! The typed insert path: coercing generated values onto a live
//! schema's column types and building the insert statement.
//!
//! Values are coerced by the *destination column's* declared type, not
//! by the generator's output shape.  Temporal, UUID and textual columns
//! are bound as text, with an explicit cast in the statement so the
//! storage engine performs the final parse.  The statement text and the
//! bind list are both pinned exactly by spec functions.

use vstd::prelude::*;
use crate::error::SeedError;
use crate::rows::Row;
use crate::schema::{ColumnSchema, TableSchema};
use crate::value::{
    Value, ValSpec, coerce_bool_spec, coerce_int_spec, coerce_bool, coerce_int, dec_digits,
    usize_to_string,
};

verus! {

// ---------------------------------------------------------------------
// Column-type classification.
// ---------------------------------------------------------------------

pub open spec fn is_int_type(t: Seq<char>) -> bool {
    t == "integer"@ || t == "bigint"@ || t == "smallint"@ || t == "int4"@
}

pub open spec fn is_bool_type(t: Seq<char>) -> bool {
    t == "boolean"@
}

/// Types bound as text, with the storage engine doing the final parse.
pub open spec fn is_text_bind_type(t: Seq<char>) -> bool {
    t == "character varying"@ || t == "text"@ || t == "varchar"@ || t == "uuid"@
        || t == "timestamp with time zone"@ || t == "timestamp without time zone"@
        || t == "date"@
}

/// The explicit cast a placeholder carries for this column type.
pub open spec fn cast_suffix(t: Seq<char>) -> Seq<char> {
    if t == "timestamp with time zone"@ || t == "timestamp without time zone"@ {
        "::timestamp"@
    } else if t == "date"@ {
        "::date"@
    } else if t == "uuid"@ {
        "::uuid"@
    } else {
        Seq::<char>::empty()
    }
}

/// The declared type of a named column, if the table has the column.
pub open spec fn col_type_of(cols: Seq<ColumnSchema>, name: Seq<char>) -> Option<Seq<char>>
    decreases cols.len(),
{
    if cols.len() == 0 {
        None
    } else if cols[0].name@ == name {
        Some(cols[0].data_type@)
    } else {
        col_type_of(cols.skip(1), name)
    }
}

// ---------------------------------------------------------------------
// A bind value.
// ---------------------------------------------------------------------

/// One value as bound to a placeholder, already coerced to the
/// destination column's storage shape.
#[derive(Debug, Clone)]
pub enum BindValue {
    Int(i64),
    Bool(bool),
    Text(String),
    /// No special rule for the column's type (or no such column): the
    /// value is bound as a generic structured value.
    Other(Value),
}

pub enum BindV {
    Int(int),
    Bool(bool),
    Text(Seq<char>),
    Other(ValSpec),
}

impl View for BindValue {
    type V = BindV;

    open spec fn view(&self) -> BindV {
        match self {
            BindValue::Int(i) => BindV::Int(*i as int),
            BindValue::Bool(b) => BindV::Bool(*b),
            BindValue::Text(s) => BindV::Text(s@),
            BindValue::Other(v) => BindV::Other(v@),
        }
    }
}

/// How a value reads as bound text: strings verbatim, anything else as
/// empty text (the cast in the statement rejects what the engine cannot
/// read).
pub open spec fn text_of(v: ValSpec) -> Seq<char> {
    match v {
        ValSpec::Str(s) => s,
        _ => Seq::<char>::empty(),
    }
}

/// The coercion rule, keyed by the destination column's declared type.
pub open spec fn coerce_spec(t: Seq<char>, v: ValSpec) -> BindV {
    if is_int_type(t) {
        BindV::Int(coerce_int_spec(v))
    } else if is_bool_type(t) {
        BindV::Bool(coerce_bool_spec(v))
    } else if is_text_bind_type(t) {
        BindV::Text(text_of(v))
    } else {
        BindV::Other(v)
    }
}

/// What is bound for a column: the coercion when the table declares the
/// column, the raw value otherwise.
pub open spec fn bind_spec(cols: Seq<ColumnSchema>, name: Seq<char>, v: ValSpec) -> BindV {
    match col_type_of(cols, name) {
        Some(t) => coerce_spec(t, v),
        None => BindV::Other(v),
    }
}

fn find_col_type<'a>(cols: &'a Vec<ColumnSchema>, name: &String) -> (r: Option<&'a String>)
    ensures
        match r {
            Some(t) => col_type_of(cols@, name@) == Some(t@),
            None => col_type_of(cols@, name@) is None,
        },
{
    let n = cols.len();
    proof {
        assert(cols@.skip(0) =~= cols@);
    }
    let mut i: usize = 0;
    while i < n
        invariant
            i <= n,
            n == cols@.len(),
            col_type_of(cols@, name@) == col_type_of(cols@.skip(i as int), name@),
        decreases n - i,
    {
        proof {
            assert(cols@.skip(i as int)[0] == cols@[i as int]);
            assert(cols@.skip(i as int).skip(1) =~= cols@.skip(i as int + 1));
        }
        if cols[i].name == *name {
            return Some(&cols[i].data_type);
        }
        i += 1;
    }
    proof {
        assert(cols@.skip(n as int).len() == 0);
    }
    None
}

/// Coerce one value by the column's declared type.
fn coerce_value(t: &String, v: &Value) -> (r: BindValue)
    ensures
        r@ == coerce_spec(t@, v@),
{
    if *t == String::from_str("integer") || *t == String::from_str("bigint") || *t
        == String::from_str("smallint") || *t == String::from_str("int4") {
        BindValue::Int(coerce_int(v))
    } else if *t == String::from_str("boolean") {
        BindValue::Bool(coerce_bool(v))
    } else if *t == String::from_str("character varying") || *t == String::from_str("text") || *t
        == String::from_str("varchar") || *t == String::from_str("uuid") || *t
        == String::from_str("timestamp with time zone") || *t == String::from_str(
        "timestamp without time zone",
    ) || *t == String::from_str("date") {
        match v {
            Value::Str(s) => BindValue::Text(s.clone()),
            _ => BindValue::Text(String::new()),
        }
    } else {
        BindValue::Other(v.duplicate())
    }
}

// ---------------------------------------------------------------------
// The statement text.
// ---------------------------------------------------------------------

/// A column name in double quotes.
pub open spec fn quoted(c: Seq<char>) -> Seq<char> {
    seq!['"'] + c + seq!['"']
}

/// The quoted column list, comma-separated, in row order.
pub open spec fn cols_sql(row: Seq<(Seq<char>, ValSpec)>) -> Seq<char>
    decreases row.len(),
{
    if row.len() == 0 {
        Seq::<char>::empty()
    } else if row.len() == 1 {
        quoted(row[0].0)
    } else {
        cols_sql(row.drop_last()) + ", "@ + quoted(row.last().0)
    }
}

/// One placeholder: `$i`, with the column's cast when the table
/// declares the column.
pub open spec fn placeholder(cols: Seq<ColumnSchema>, name: Seq<char>, idx: nat) -> Seq<char> {
    seq!['$'] + dec_digits(idx) + (match col_type_of(cols, name) {
        Some(t) => cast_suffix(t),
        None => Seq::<char>::empty(),
    })
}

/// The placeholder list, comma-separated, numbered from one.
pub open spec fn phs_sql(row: Seq<(Seq<char>, ValSpec)>, cols: Seq<ColumnSchema>) -> Seq<char>
    decreases row.len(),
{
    if row.len() == 0 {
        Seq::<char>::empty()
    } else if row.len() == 1 {
        placeholder(cols, row[0].0, 1)
    } else {
        phs_sql(row.drop_last(), cols) + ", "@ + placeholder(cols, row.last().0, row.len())
    }
}

/// The full statement text.
pub open spec fn insert_sql(
    table: Seq<char>,
    row: Seq<(Seq<char>, ValSpec)>,
    cols: Seq<ColumnSchema>,
    pk: Option<Seq<char>>,
) -> Seq<char> {
    let base = "INSERT INTO \""@ + table + "\" ("@ + cols_sql(row) + ") VALUES ("@ + phs_sql(
        row,
        cols,
    ) + ")"@;
    match pk {
        Some(p) => base + " RETURNING \""@ + p + "\""@,
        None => base,
    }
}

// ---------------------------------------------------------------------
// Primary-key read-back.
// ---------------------------------------------------------------------

/// How the returned primary key is read, by the key column's declared
/// type.
#[derive(Debug, Clone, PartialEq, Eq, Copy)]
pub enum PkKind {
    /// character varying, text, varchar, uuid: read as text.
    Text,
    /// integer, smallint: read as a 32-bit integer.
    Int32,
    /// bigint: read as a 64-bit integer.
    Int64,
}

/// The read-back rule for a primary-key column type, if any.
pub open spec fn pk_kind_of(t: Seq<char>) -> Option<PkKind> {
    if t == "character varying"@ || t == "text"@ || t == "varchar"@ || t == "uuid"@ {
        Some(PkKind::Text)
    } else if t == "integer"@ || t == "smallint"@ {
        Some(PkKind::Int32)
    } else if t == "bigint"@ {
        Some(PkKind::Int64)
    } else {
        None
    }
}

/// One insert, ready to execute: the statement text, the bind values in
/// placeholder order, and how to read the returned key, if one is
/// returned.
#[derive(Debug, Clone)]
pub struct InsertStmt {
    pub sql: String,
    pub binds: Vec<BindValue>,
    pub pk: Option<(String, PkKind)>,
}

/// What `build_insert` guarantees of a built statement: the text equals
/// `insert_sql`, each bind is the row value coerced by its column, and
/// the primary-key read-back rule matches the key column's type.
pub open spec fn built_ok(table: TableSchema, row: Seq<(Seq<char>, ValSpec)>, stmt: InsertStmt) -> bool {
    &&& stmt.binds@.len() == row.len()
    &&& forall|i: int| 0 <= i < row.len()
        ==> (#[trigger] stmt.binds@[i])@ == bind_spec(table.columns@, row[i].0, row[i].1)
    &&& match table.primary_key_column {
        Some(p) => {
            &&& stmt.sql@ == insert_sql(table.name@, row, table.columns@, Some(p@))
            &&& stmt.pk matches Some((name, kind)) && name@ == p@ && (col_type_of(
                table.columns@,
                p@,
            ) matches Some(t) && pk_kind_of(t) == Some(kind))
        },
        None => {
            &&& stmt.sql@ == insert_sql(table.name@, row, table.columns@, None)
            &&& stmt.pk is None
        },
    }
}

/// Build the insert for one generated row against its table.
///
/// The statement text equals `insert_sql` exactly; each bind value is
/// the row value coerced by its destination column's declared type, in
/// row order; a recognized single-column primary key adds a RETURNING
/// clause and the read-back rule for its type.  The one error: the
/// table declares a primary-key column whose type has no read-back rule
/// (or which is not among the table's columns).
pub fn build_insert(table: &TableSchema, row: &Row) -> (r: Result<InsertStmt, SeedError>)
    ensures
        match r {
            Ok(stmt) => built_ok(*table, row@, stmt),
            Err(e) => {
                &&& table.primary_key_column matches Some(p) && (match col_type_of(
                    table.columns@,
                    p@,
                ) {
                    Some(t) => pk_kind_of(t) is None,
                    None => true,
                })
                &&& e@ matches crate::error::ErrV::UnsupportedPkType(_)
            },
        },
{
    // the read-back rule first: nothing is built for an unsupported key
    let pk: Option<(String, PkKind)> = match &table.primary_key_column {
        Some(p) => {
            match find_col_type(&table.columns, p) {
                Some(t) => {
                    if *t == String::from_str("character varying") || *t == String::from_str(
                        "text",
                    ) || *t == String::from_str("varchar") || *t == String::from_str("uuid") {
                        Some((p.clone(), PkKind::Text))
                    } else if *t == String::from_str("integer") || *t == String::from_str(
                        "smallint",
                    ) {
                        Some((p.clone(), PkKind::Int32))
                    } else if *t == String::from_str("bigint") {
                        Some((p.clone(), PkKind::Int64))
                    } else {
                        return Err(SeedError::UnsupportedPkType(t.clone()));
                    }
                },
                None => {
                    return Err(SeedError::UnsupportedPkType(p.clone()));
                },
            }
        },
        None => None,
    };
    // binds, in row order
    let mut binds: Vec<BindValue> = Vec::new();
    let n = row.len();
    let mut i: usize = 0;
    while i < n
        invariant
            i <= n,
            n == row@.len(),
            binds@.len() == i,
            forall|k: int| 0 <= k < i ==> (#[trigger] binds@[k])@ == bind_spec(
                table.columns@,
                row@[k].0,
                row@[k].1,
            ),
        decreases n - i,
    {
        let b = match find_col_type(&table.columns, row.col_at(i)) {
            Some(t) => coerce_value(t, row.val_at(i)),
            None => BindValue::Other(row.val_at(i).duplicate()),
        };
        binds.push(b);
        i += 1;
    }
    // the statement text
    let mut sql = String::from_str("INSERT INTO \"");
    sql.append(table.name.as_str());
    sql.append("\" (");
    let mut i2: usize = 0;
    while i2 < n
        invariant
            i2 <= n,
            n == row@.len(),
            sql@ == "INSERT INTO \""@ + table.name@ + "\" ("@ + cols_sql(
                row@.subrange(0, i2 as int),
            ),
        decreases n - i2,
    {
        proof {
            let pre = row@.subrange(0, i2 as int);
            let post = row@.subrange(0, i2 as int + 1);
            assert(post.drop_last() =~= pre);
            assert(post.last() == row@[i2 as int]);
            reveal_strlit("\"");
            assert("\""@ =~= seq!['"']);
        }
        if i2 > 0 {
            sql.append(", ");
        }
        sql.append("\"");
        sql.append(row.col_at(i2).as_str());
        sql.append("\"");
        proof {
            let post = row@.subrange(0, i2 as int + 1);
            if i2 == 0 {
                assert(cols_sql(post) == quoted(post[0].0));
                assert(sql@ =~= "INSERT INTO \""@ + table.name@ + "\" ("@ + cols_sql(post));
            } else {
                assert(sql@ =~= "INSERT INTO \""@ + table.name@ + "\" ("@ + cols_sql(post));
            }
        }
        i2 += 1;
    }
    proof {
        assert(row@.subrange(0, n as int) =~= row@);
    }
    sql.append(") VALUES (");
    let ghost mid = "INSERT INTO \""@ + table.name@ + "\" ("@ + cols_sql(row@) + ") VALUES ("@;
    proof {
        assert(sql@ =~= mid);
    }
    let mut i3: usize = 0;
    while i3 < n
        invariant
            i3 <= n,
            n == row@.len(),
            mid == "INSERT INTO \""@ + table.name@ + "\" ("@ + cols_sql(row@) + ") VALUES ("@,
            sql@ == mid + phs_sql(row@.subrange(0, i3 as int), table.columns@),
        decreases n - i3,
    {
        proof {
            let pre = row@.subrange(0, i3 as int);
            let post = row@.subrange(0, i3 as int + 1);
            assert(post.drop_last() =~= pre);
            assert(post.last() == row@[i3 as int]);
            reveal_strlit("$");
            assert("$"@ =~= seq!['$']);
        }
        if i3 > 0 {
            sql.append(", ");
        }
        sql.append("$");
        let num = usize_to_string(i3 + 1);
        sql.append(num.as_str());
        match find_col_type(&table.columns, row.col_at(i3)) {
            Some(t) => {
                if *t == String::from_str("timestamp with time zone") || *t == String::from_str(
                    "timestamp without time zone",
                ) {
                    sql.append("::timestamp");
                } else if *t == String::from_str("date") {
                    sql.append("::date");
                } else if *t == String::from_str("uuid") {
                    sql.append("::uuid");
                }
            },
            None => {},
        }
        proof {
            let post = row@.subrange(0, i3 as int + 1);
            assert(sql@ =~= mid + phs_sql(post, table.columns@));
        }
        i3 += 1;
    }
    proof {
        assert(row@.subrange(0, n as int) =~= row@);
    }
    sql.append(")");
    match &pk {
        Some((p, _)) => {
            sql.append(" RETURNING \"");
            sql.append(p.as_str());
            sql.append("\"");
            proof {
                assert(sql@ =~= insert_sql(
                    table.name@,
                    row@,
                    table.columns@,
                    Some(table.primary_key_column->Some_0@),
                ));
            }
        },
        None => {
            proof {
                assert(sql@ =~= insert_sql(table.name@, row@, table.columns@, None));
            }
        },
    }
    Ok(InsertStmt { sql, binds, pk })
}

/// The column-type tags the coercion rules compare against are pairwise
/// distinct texts.
proof fn lemma_type_tags_distinct()
    ensures
        "integer"@ != "boolean"@ && "integer"@ != "varchar"@ && "boolean"@ != "varchar"@,
        "int4"@ != "text"@ && "int4"@ != "uuid"@ && "int4"@ != "date"@,
        "text"@ != "uuid"@ && "text"@ != "date"@ && "uuid"@ != "date"@,
        "integer"@.len() == 7 && "bigint"@.len() == 6 && "smallint"@.len() == 8
            && "int4"@.len() == 4 && "boolean"@.len() == 7 && "text"@.len() == 4
            && "varchar"@.len() == 7 && "uuid"@.len() == 4 && "date"@.len() == 4
            && "character varying"@.len() == 17 && "timestamp with time zone"@.len() == 24
            && "timestamp without time zone"@.len() == 27,
{
    reveal_strlit("integer");
    reveal_strlit("bigint");
    reveal_strlit("smallint");
    reveal_strlit("int4");
    reveal_strlit("boolean");
    reveal_strlit("character varying");
    reveal_strlit("text");
    reveal_strlit("varchar");
    reveal_strlit("uuid");
    reveal_strlit("timestamp with time zone");
    reveal_strlit("timestamp without time zone");
    reveal_strlit("date");
    assert("integer"@[0] != "boolean"@[0]);
    assert("integer"@[0] != "varchar"@[0]);
    assert("boolean"@[0] != "varchar"@[0]);
    assert("int4"@[0] != "text"@[0]);
    assert("int4"@[0] != "uuid"@[0]);
    assert("int4"@[0] != "date"@[0]);
    assert("text"@[0] != "uuid"@[0]);
    assert("text"@[0] != "date"@[0]);
    assert("uuid"@[0] != "date"@[0]);
}

/// Primary-key round-trip: a string value destined for a textual,
/// varchar or uuid column is bound verbatim, and the key of such a
/// column is read back as text — so the string that was generated is
/// the string that returns.
pub proof fn lemma_text_pk_roundtrip(t: Seq<char>, s: Seq<char>)
    requires
        t == "character varying"@ || t == "text"@ || t == "varchar"@ || t == "uuid"@,
    ensures
        coerce_spec(t, ValSpec::Str(s)) == BindV::Text(s),
        pk_kind_of(t) == Some(PkKind::Text),
{
    lemma_type_tags_distinct();
}


} // verus!
