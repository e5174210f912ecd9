//! What a schema declares: tables, columns, indexes, and the trees they are in.

use vstd::prelude::*;

use crate::values::Collation;

verus! {

/// What a column's declared type leans toward.
#[derive(Clone, Copy, Debug, PartialEq, Eq, Structural)]
pub enum Affinity {
    /// Whole numbers.
    Integer,
    /// Binary64 numbers.
    Real,
    /// Text.
    Text,
    /// Nothing: the value as it was written.
    Blob,
    /// Numbers of either kind.
    Numeric,
    /// Numbers of either kind, from a declaration that said so loosely.
    FlexNum,
}

/// How a tree lays out the values of one of its columns.
#[derive(Clone, Copy, Debug, PartialEq, Eq, Structural)]
pub enum PhysicalType {
    /// Eight-byte integers.
    Int64,
    /// Binary64 numbers.
    Float64,
    /// Text.
    Text,
    /// Bytes.
    Blob,
    /// Any value.
    Any,
}

/// What an expression over a column may count on.
#[derive(Clone, Copy, Debug, PartialEq, Eq, Structural)]
pub enum StaticType {
    /// An integer.
    Int,
    /// A binary64 number.
    Real,
    /// Text.
    Text,
    /// Nothing.
    Unknown,
}

/// One column of a tree.
#[derive(Clone, Copy, Debug, PartialEq, Eq, Structural)]
pub struct ColumnSpec {
    /// How its values are laid out.
    pub physical: PhysicalType,
    /// Whether it is part of the tree's key.
    pub key: bool,
    /// The collation it is ordered under.
    pub collation: Collation,
    /// Whether it is ordered descending.
    pub descending: bool,
}

/// One declared column.
#[derive(Debug)]
pub struct ColumnInfo {
    /// The column's name.
    pub name: Vec<u8>,
    /// What its declared type leans toward.
    pub affinity: Affinity,
    /// Its declared collation's name, empty for none.
    pub collation: Vec<u8>,
    /// Its place in the primary key, when it is part of one.
    pub primary_key_position: Option<u16>,
    /// Whether an expression generates it.
    pub generated: bool,
    /// Whether what was generated is written down.
    pub stored: bool,
}

/// One key column of an index.
#[derive(Debug)]
pub struct IndexColumn {
    /// The declared column it indexes, none for an expression.
    pub column: Option<u16>,
    /// The collation the index declared for it, empty for none.
    pub collation: Vec<u8>,
    /// Whether it is ordered descending.
    pub descending: bool,
    /// The expression's text, when it is one.
    pub expr_sql: Option<Vec<u8>>,
}

/// One index.
#[derive(Debug)]
pub struct IndexInfo {
    /// The index's name.
    pub name: Vec<u8>,
    /// The name, folded.
    pub folded: Vec<u8>,
    /// The handle its tree is registered under, zero for none.
    pub root: u32,
    /// Whether two rows may not share a key.
    pub unique: bool,
    /// Its key columns.
    pub columns: Vec<IndexColumn>,
    /// The predicate of a partial index, when it is one.
    pub partial_sql: Option<Vec<u8>>,
}

/// One foreign key.
#[derive(Debug)]
pub struct ForeignKeyInfo {
    /// Its place among its table's keys.
    pub id: u64,
    /// The parent table's folded name.
    pub parent_folded: Vec<u8>,
    /// Whether it is checked at the commit.
    pub deferred: bool,
    /// Whether it can lead back to the table that declares it.
    pub cyclic: bool,
}

/// What kind of thing a name in a `FROM` clause is.
#[derive(Clone, Copy, Debug, PartialEq, Eq, Structural)]
pub enum TableKind {
    /// A table with a tree.
    Table,
    /// A query under a name.
    View,
    /// A table a module answers for.
    Virtual,
    /// A subquery of the statement itself.
    Subquery,
}

/// One table, view or virtual table.
#[derive(Debug)]
pub struct TableInfo {
    /// The name as it was declared.
    pub name: Vec<u8>,
    /// The name, folded.
    pub folded: Vec<u8>,
    /// What kind of thing it is.
    pub kind: TableKind,
    /// The handle its tree is registered under, zero for none.
    pub root: u32,
    /// Whether its rows are keyed by its primary key.
    pub without_rowid: bool,
    /// The declared column that is another name for the rowid.
    pub rowid_alias: Option<u16>,
    /// Its columns, in declared order.
    pub columns: Vec<ColumnInfo>,
    /// Its indexes.
    pub indexes: Vec<IndexInfo>,
    /// Its foreign keys.
    pub foreign_keys: Vec<ForeignKeyInfo>,
    /// The names of its triggers, the one that fires first first.
    pub triggers: Vec<Vec<u8>>,
    /// The statement that declared it.
    pub create_sql: Vec<u8>,
}

/// How a tree's columns map onto the columns a query sees.
#[derive(Debug)]
pub struct SourceLayout {
    /// The handle the tree is registered under.
    pub tree_key: u32,
    /// For each declared column, the tree column that carries it.
    pub slots: Vec<Option<usize>>,
    /// The tree column that holds the rowid, when there is one.
    pub rowid: Option<usize>,
    /// The tree columns that identify the table's row.
    pub identity: Vec<usize>,
    /// What each tree column may be counted on to hold.
    pub types: Vec<StaticType>,
    /// How many columns the tree has.
    pub width: usize,
    /// The tree columns a walk is in ascending order of, empty when it is in no
    /// order a query can use.
    pub key_columns: Vec<usize>,
}

/// What kind of object a catalog row describes.
#[derive(Clone, Copy, Debug, PartialEq, Eq, Structural)]
pub enum ObjectKind {
    /// A table.
    Table,
    /// An index.
    Index,
    /// A view.
    View,
    /// A trigger.
    Trigger,
}

/// What a built tree looked like when it was last written down.
#[derive(Clone, Copy, Debug, PartialEq, Eq, Structural)]
pub struct TreeStats {
    /// The page of its first leaf.
    pub first_leaf: u64,
    /// How many leaves it has.
    pub leaf_count: u64,
    /// How many rows it has.
    pub row_count: u64,
}

/// One row of the catalog.
#[derive(Debug)]
pub struct SchemaEntry {
    /// What it describes.
    pub kind: ObjectKind,
    /// The object's name.
    pub name: Vec<u8>,
    /// The table the object belongs to.
    pub table: Vec<u8>,
    /// The page its tree is rooted at, zero for none.
    pub root: u64,
    /// The statement that declared it, empty for an automatic index.
    pub sql: Vec<u8>,
    /// What its tree looked like.
    pub stats: TreeStats,
    /// The identifier the file knows its tree by, zero for none.
    pub tree_id: u64,
}

/// What one row of the catalog says.
#[verifier::ext_equal]
pub struct CatalogRow {
    /// What it describes.
    pub kind: ObjectKind,
    /// The object's name.
    pub name: Seq<u8>,
    /// The table the object belongs to.
    pub table: Seq<u8>,
    /// The page its tree is rooted at, zero for none.
    pub root: u64,
    /// The statement that declared it, empty for an automatic index.
    pub sql: Seq<u8>,
    /// What its tree looked like.
    pub stats: TreeStats,
    /// The identifier the file knows its tree by, zero for none.
    pub tree_id: u64,
}

impl View for SchemaEntry {
    type V = CatalogRow;

    open spec fn view(&self) -> CatalogRow {
        CatalogRow {
            kind: self.kind,
            name: self.name@,
            table: self.table@,
            root: self.root,
            sql: self.sql@,
            stats: self.stats,
            tree_id: self.tree_id,
        }
    }
}

/// What each row of a catalog says.
pub open spec fn catalog_rows(entries: Seq<SchemaEntry>) -> Seq<CatalogRow> {
    entries.map_values(|entry: SchemaEntry| entry@)
}

/// Reports whether two catalog rows say the same.
pub fn same_entry(left: &SchemaEntry, right: &SchemaEntry) -> (equal: bool)
    ensures
        equal == (left@ == right@),
        equal <==> left.kind == right.kind && left.name@ == right.name@ && left.table@
            == right.table@ && left.root == right.root && left.sql@ == right.sql@ && left.stats
            == right.stats && left.tree_id == right.tree_id,
{
    left.kind == right.kind && crate::text::same(left.name.as_slice(), right.name.as_slice())
        && crate::text::same(left.table.as_slice(), right.table.as_slice()) && left.root
        == right.root && crate::text::same(left.sql.as_slice(), right.sql.as_slice()) && left.stats
        == right.stats && left.tree_id == right.tree_id
}

/// Reports whether two catalogs say the same, row by row.
pub fn same_entries(left: &[SchemaEntry], right: &[SchemaEntry]) -> (equal: bool)
    ensures
        equal == (catalog_rows(left@) == catalog_rows(right@)),
{
    if left.len() != right.len() {
        assert(catalog_rows(left@).len() != catalog_rows(right@).len());
        return false;
    }
    for at in 0..left.len()
        invariant
            left.len() == right.len(),
            forall|i: int| 0 <= i < at ==> (#[trigger] left@[i])@ == right@[i]@,
    {
        if !same_entry(&left[at], &right[at]) {
            assert(catalog_rows(left@)[at as int] != catalog_rows(right@)[at as int]);
            return false;
        }
    }
    assert(catalog_rows(left@) =~= catalog_rows(right@));
    true
}

/// One catalog row, with the handle of the tree it describes.
///
/// The row is what the file holds and the handle is what this connection names
/// the tree by, so a rename can change the one without the other moving.
#[derive(Debug)]
pub struct Recorded {
    /// The rowid the catalog stores it under.
    pub rowid: i64,
    /// The handle its tree is registered under, zero when it has no tree.
    pub root: u32,
    /// The row itself.
    pub entry: SchemaEntry,
}

/// The shape of one built tree, by which it is found again after a reopen.
#[derive(Debug)]
pub struct TreeShape {
    /// The page it is rooted at.
    pub root: u64,
    /// Its columns.
    pub columns: Vec<ColumnSpec>,
    /// How many of those are its key.
    pub key_columns: usize,
    /// The page of its first leaf.
    pub first_leaf: u64,
    /// How many leaves it has.
    pub leaf_count: u64,
    /// How many rows it has.
    pub row_count: u64,
}

/// Returns a built tree's shape as the catalog records it.
pub fn stats_of(shape: &TreeShape) -> (stats: TreeStats)
    ensures
        stats == (TreeStats {
            first_leaf: shape.first_leaf,
            leaf_count: shape.leaf_count,
            row_count: shape.row_count,
        }),
{
    TreeStats {
        first_leaf: shape.first_leaf,
        leaf_count: shape.leaf_count,
        row_count: shape.row_count,
    }
}

} // verus!
