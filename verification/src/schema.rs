//! The relational schema the run targets: tables, columns, foreign keys.
//!
//! The catalog is fetched once by the unverified database layer and
//! handed over as plain data; everything here reads it immutably.
//! Table and column collections are association lists with unique names,
//! so lookups have exact contracts.

use vstd::prelude::*;

verus! {

/// One column of a table, as read from the catalog.
#[derive(Debug, Clone)]
pub struct ColumnSchema {
    pub name: String,
    pub data_type: String,
    pub is_nullable: bool,
    pub column_default: Option<String>,
}

/// One declared foreign-key constraint: child column to parent column.
#[derive(Debug, Clone)]
pub struct ForeignKey {
    pub from_table: String,
    pub from_column: String,
    pub to_table: String,
    pub to_column: String,
}

/// One table: its columns in catalog order and its recognized
/// single-column primary key, if any (composite keys degrade to none).
#[derive(Debug, Clone)]
pub struct TableSchema {
    pub name: String,
    pub columns: Vec<ColumnSchema>,
    pub primary_key_column: Option<String>,
}

/// The whole catalog: every table plus every foreign-key edge.
/// Built once per run, never mutated afterwards.
pub struct DbSchema {
    pub tables: Vec<TableSchema>,
    pub foreign_keys: Vec<ForeignKey>,
}

impl TableSchema {
    /// Column names are unique within a table.
    pub open spec fn wf(&self) -> bool {
        forall|i: int, j: int|
            0 <= i < j < self.columns@.len()
                ==> (#[trigger] self.columns@[i]).name@ != (#[trigger] self.columns@[j]).name@
    }

    pub open spec fn has_column(&self, name: Seq<char>) -> bool {
        exists|k: int| 0 <= k < self.columns@.len() && (#[trigger] self.columns@[k]).name@ == name
    }

    /// The column of the given name, when the table has one.
    pub fn find_column(&self, name: &String) -> (r: Option<&ColumnSchema>)
        ensures
            match r {
                Some(c) => c.name@ == name@ && exists|k: int|
                    0 <= k < self.columns@.len() && self.columns@[k] == *c,
                None => !self.has_column(name@),
            },
    {
        let mut i: usize = 0;
        while i < self.columns.len()
            invariant
                i <= self.columns@.len(),
                forall|k: int| 0 <= k < i ==> (#[trigger] self.columns@[k]).name@ != name@,
            decreases self.columns@.len() - i,
        {
            if self.columns[i].name == *name {
                return Some(&self.columns[i]);
            }
            i += 1;
        }
        None
    }
}

impl DbSchema {
    /// Table names are unique, and each table is itself well formed.
    pub open spec fn wf(&self) -> bool {
        &&& forall|i: int, j: int|
            0 <= i < j < self.tables@.len()
                ==> (#[trigger] self.tables@[i]).name@ != (#[trigger] self.tables@[j]).name@
        &&& forall|i: int| 0 <= i < self.tables@.len() ==> (#[trigger] self.tables@[i]).wf()
    }

    pub open spec fn has_table(&self, name: Seq<char>) -> bool {
        exists|k: int| 0 <= k < self.tables@.len() && (#[trigger] self.tables@[k]).name@ == name
    }

    /// The table whose name matches in full, when the schema has one.
    pub open spec fn table_at(&self, name: Seq<char>) -> TableSchema
        recommends
            self.has_table(name),
    {
        self.tables@[choose|k: int|
            0 <= k < self.tables@.len() && (#[trigger] self.tables@[k]).name@ == name]
    }

    pub fn find_table(&self, name: &String) -> (r: Option<&TableSchema>)
        requires
            self.wf(),
        ensures
            match r {
                Some(t) => t.name@ == name@ && self.has_table(name@) && *t == self.table_at(name@),
                None => !self.has_table(name@),
            },
    {
        let mut i: usize = 0;
        while i < self.tables.len()
            invariant
                self.wf(),
                i <= self.tables@.len(),
                forall|k: int| 0 <= k < i ==> (#[trigger] self.tables@[k]).name@ != name@,
            decreases self.tables@.len() - i,
        {
            if self.tables[i].name == *name {
                proof {
                    let k = choose|k: int|
                        0 <= k < self.tables@.len() && (#[trigger] self.tables@[k]).name@ == name@;
                    assert(k == i as int);
                }
                return Some(&self.tables[i]);
            }
            i += 1;
        }
        None
    }

    /// Whether the named table has a recognized single-column primary key.
    pub fn table_has_pk(&self, name: &String) -> (r: bool)
        requires
            self.wf(),
        ensures
            r == (self.has_table(name@) && self.table_at(name@).primary_key_column is Some),
    {
        match self.find_table(name) {
            Some(t) => t.primary_key_column.is_some(),
            None => false,
        }
    }
}

} // verus!
