//! A database built out of another engine's file, phase by phase.
//!
//! Reading the file and building the trees are done elsewhere. What is decided
//! here is which objects are carried and in which order, what rows each tree is
//! built from, and what the new file's catalog says of it all. The catalog is
//! read back once the file is closed and opened again, and has to be the one
//! that was written.

use std::collections::HashMap;

use vstd::prelude::*;
use vstd::std_specs::iter::IteratorSpec;

use crate::numbers::as_real;
use crate::reattach::names_of;
use crate::refusals::Refusal;
use crate::rowshape::{
    a_rowid_row_keeps_its_values, covers_every_row, identifying, identifying_in_range, identity_columns, index_shape,
    index_width, keyed_fields, keyed_table_shape, logical, primary_key, read_as, rowid_row,
    rowid_table_rows, shapes_index, shapes_keyed, shapes_table, table_shape, ShapeRefusal,
};
use crate::schema::{
    catalog_rows, same_entries, stats_of, CatalogRow, ColumnSpec, IndexInfo, ObjectKind, Recorded,
    SchemaEntry, SourceLayout, StaticType, TableInfo, TableKind, TreeShape, TreeStats,
};
use crate::sorting::{by_weight, weighed};
use crate::tables::{
    as_ints, is_shadow_of, recorded_positions, shadow_of, stored_positions,
};
use crate::text::{ascii, begins, begins_with, copied, fold, folded, same, same_folded, show, shown};
use crate::values::{owned_row, owned_rows, OwnedDatum, Value};
use crate::write::{arranged, evenly_keyed, in_key_order};

verus! {

broadcast use vstd::std_specs::hash::group_hash_axioms;

/// The smallest pool a file is built or opened in.
pub const FEWEST_FRAMES: usize = 64;

/// The table that holds the highest key each table has assigned.
pub const SEQUENCE_TABLE: &'static str = "sqlite_sequence";

/// The table that holds what was measured of each index.
pub const STAT1: &'static str = "sqlite_stat1";

/// A tree that is about to be built.
#[derive(Debug)]
pub struct TreeToBuild {
    /// The identifier its records are logged under.
    pub tree_id: u64,
    /// Its columns.
    pub columns: Vec<ColumnSpec>,
    /// How many of those are its key.
    pub key_columns: usize,
    /// Its rows, in key order.
    pub rows: Vec<Vec<OwnedDatum>>,
    /// How its columns map onto the columns a query sees.
    pub layout: SourceLayout,
}

/// Returns how many fields a rowid table's record holds.
pub fn table_fields(info: &TableInfo) -> (fields: usize)
    ensures
        fields == recorded_positions(*info, info.columns@.len() as int).len(),
{
    let positions = stored_positions(info);
    let fields: usize = positions.len();
    assert(as_ints(positions@).len() == fields);
    fields
}

/// Returns the tree a rowid table is carried as, from its rows as they were
/// read: the rowid, and then the record's fields.
///
/// The rows arrive in rowid order, which is the tree's.
pub fn import_table(info: &TableInfo, raw: &[Vec<OwnedDatum>]) -> (tree: TreeToBuild)
    requires
        info.columns@.len() < usize::MAX,
    ensures
        tree.tree_id == info.root,
        tree.key_columns == 1,
        shapes_table(*info, tree.columns@, tree.layout),
        owned_rows(tree.rows@) == owned_rows(raw@).map_values(
            |row: Seq<Value>| rowid_row(*info, row),
        ),
{
    let (columns, layout) = table_shape(info);
    let rows = rowid_table_rows(info, raw);
    TreeToBuild { tree_id: info.root as u64, columns, key_columns: 1, rows, layout }
}

/// Returns the tree a `WITHOUT ROWID` table is carried as, from its rows as they
/// were read, sorted into the tree's own order.
pub fn import_keyed_table(info: &TableInfo, raw: Vec<Vec<OwnedDatum>>) -> (tree: Result<
    TreeToBuild,
    ShapeRefusal,
>)
    requires
        evenly_keyed(owned_rows(raw@), primary_key(*info).len() as int),
    ensures
        tree is Err <==> primary_key(*info).len() == 0,
        tree matches Ok(made) ==> {
            &&& made.tree_id == info.root
            &&& shapes_keyed(*info, made.columns@, made.key_columns as int, made.layout)
            &&& exists|places: Seq<usize>| #[trigger]
                arranged(
                    owned_rows(raw@),
                    owned_rows(made.rows@),
                    made.columns@,
                    made.key_columns as int,
                    places,
                )
        },
{
    match keyed_table_shape(info) {
        Err(refusal) => Err(refusal),
        Ok((columns, key_columns, layout)) => {
            let ghost before = owned_rows(raw@);
            let rows = in_key_order(raw, columns.as_slice(), key_columns);
            let tree = TreeToBuild {
                tree_id: info.root as u64,
                columns,
                key_columns,
                rows,
                layout,
            };
            proof {
                let places = choose|places: Seq<usize>| #[trigger]
                    arranged(
                        before,
                        owned_rows(rows@),
                        columns@,
                        key_columns as int,
                        places,
                    );
                assert(arranged(
                    before,
                    owned_rows(tree.rows@),
                    tree.columns@,
                    tree.key_columns as int,
                    places,
                ));
            }
            Ok(tree)
        },
    }
}

/// Returns how many fields an index's entry is read as: its columns, and then
/// whatever identifies the table's row.
pub fn index_fields(table: &TableInfo, index: &IndexInfo) -> (fields: usize)
    requires
        index.columns@.len() + table.columns@.len() < usize::MAX,
    ensures
        fields == index_width(*table, *index),
        !table.without_rowid ==> fields == index.columns@.len() + 1,
        table.without_rowid && primary_key(*table).len() > 0 ==> fields == index.columns@.len()
            + primary_key(*table).len(),
{
    let trailing = identity_columns(table);
    proof {
        identifying_in_range(*table);
        assert(as_ints(trailing@) == identifying(*table));
    }
    if trailing.len() == 0 {
        index.columns.len() + 1
    } else {
        index.columns.len() + trailing.len()
    }
}

/// Returns the tree an index is carried as, from its entries as they were read,
/// sorted into the tree's own order.
///
/// An entry is the indexed columns and then whatever identifies the row, which is
/// the rowid or the columns of a `WITHOUT ROWID` table's primary key. All of it is
/// the tree's key.
///
/// A descending index is carried descending: the order is the tree's own, and
/// its direction is part of it.
pub fn import_index(
    table: &TableInfo,
    index: &IndexInfo,
    root: u32,
    raw: Vec<Vec<OwnedDatum>>,
) -> (tree: TreeToBuild)
    requires
        index.columns@.len() + table.columns@.len() < usize::MAX,
        evenly_keyed(owned_rows(raw@), index_width(*table, *index)),
    ensures
        tree.tree_id == root,
        tree.key_columns == tree.columns@.len(),
        tree.key_columns == index_width(*table, *index),
        shapes_index(*table, *index, root, tree.columns@, tree.layout),
        exists|places: Seq<usize>| #[trigger]
            arranged(
                owned_rows(raw@),
                owned_rows(tree.rows@),
                tree.columns@,
                tree.key_columns as int,
                places,
            ),
{
    let (columns, layout) = index_shape(table, index, root);
    let key_columns: usize = columns.len();
    let ghost before = owned_rows(raw@);
    let rows = in_key_order(raw, columns.as_slice(), key_columns);
    let tree = TreeToBuild { tree_id: root as u64, columns, key_columns, rows, layout };
    proof {
        let places = choose|places: Seq<usize>| #[trigger]
            arranged(before, owned_rows(rows@), columns@, key_columns as int, places);
        assert(arranged(
            before,
            owned_rows(tree.rows@),
            tree.columns@,
            tree.key_columns as int,
            places,
        ));
    }
    tree
}

/// The folded names of the virtual tables among the first of a source's tables.
pub open spec fn modules_of(tables: Seq<TableInfo>, upto: int) -> Seq<Seq<u8>>
    decreases upto,
{
    if upto <= 0 {
        Seq::empty()
    } else if tables[upto - 1].kind is Virtual {
        modules_of(tables, upto - 1).push(tables[upto - 1].folded@)
    } else {
        modules_of(tables, upto - 1)
    }
}

/// Whether some virtual table owns a table of a name.
pub open spec fn owned_by_a_module(tables: Seq<TableInfo>, name: Seq<u8>) -> bool {
    let modules = modules_of(tables, tables.len() as int);
    exists|i: int| 0 <= i < modules.len() && shadow_of(#[trigger] modules[i], name)
}

/// Whether a name is one the engine keeps for itself and derives again.
///
/// The highest key each table has assigned cannot be derived, nor can what
/// somebody measured, so those two are carried under their own names.
pub open spec fn derived_again(name: Seq<u8>) -> bool {
    begins(name, ascii("sqlite_")) && folded(name) != folded(ascii(SEQUENCE_TABLE)) && folded(name)
        != folded(ascii(STAT1))
}

/// Whether a table of the source is carried.
pub open spec fn carries(tables: Seq<TableInfo>, at: int) -> bool {
    &&& tables[at].root != 0
    &&& !owned_by_a_module(tables, tables[at].folded@)
    &&& !derived_again(tables[at].name@)
}

/// Whether an index of a carried table is carried.
///
/// A `WITHOUT ROWID` table's primary-key index is the table: there is one tree,
/// and it is reported at the table's own root.
pub open spec fn carries_index(info: TableInfo, at: int) -> bool {
    info.indexes@[at].root != 0 && !(info.without_rowid && info.indexes@[at].root == info.root)
}

/// A tree of the source: a table's own, or one of its indexes'.
pub open spec fn index_trees(info: TableInfo, table: int, upto: int) -> Seq<(int, Option<int>)>
    decreases upto,
{
    if upto <= 0 {
        Seq::empty()
    } else if carries_index(info, upto - 1) {
        index_trees(info, table, upto - 1).push((table, Some(upto - 1)))
    } else {
        index_trees(info, table, upto - 1)
    }
}

/// The trees carried of the first tables of the source, each table's own before
/// its indexes'.
pub open spec fn trees_of(tables: Seq<TableInfo>, upto: int) -> Seq<(int, Option<int>)>
    decreases upto,
{
    if upto <= 0 {
        Seq::empty()
    } else if carries(tables, upto - 1) {
        trees_of(tables, upto - 1).push((upto - 1, None)) + index_trees(
            tables[upto - 1],
            upto - 1,
            tables[upto - 1].indexes@.len() as int,
        )
    } else {
        trees_of(tables, upto - 1)
    }
}

/// What a list of trees is, as integers.
pub open spec fn trees_view(trees: Seq<(usize, Option<usize>)>) -> Seq<(int, Option<int>)> {
    trees.map_values(
        |tree: (usize, Option<usize>)|
            (
                tree.0 as int,
                match tree.1 {
                    Some(at) => Some(at as int),
                    None => None,
                },
            ),
    )
}

/// Whether every tree of a list is one the tables have.
pub open spec fn trees_stand(tables: Seq<TableInfo>, trees: Seq<(int, Option<int>)>) -> bool {
    forall|k: int|
        0 <= k < trees.len() ==> {
            &&& 0 <= (#[trigger] trees[k]).0 < tables.len()
            &&& trees[k].1 matches Some(at) ==> 0 <= at < tables[trees[k].0].indexes@.len()
        }
}

/// Returns the trees carried of a source's tables, each table's own before its
/// indexes'.
pub fn trees_to_carry(tables: &[TableInfo]) -> (trees: Vec<(usize, Option<usize>)>)
    ensures
        trees_view(trees@) == trees_of(tables@, tables@.len() as int),
        trees_stand(tables@, trees_view(trees@)),
{
    let mut owners: Vec<Vec<u8>> = Vec::new();
    for at in 0..tables.len()
        invariant
            names_of(owners@) =~= modules_of(tables@, at as int),
    {
        let module: bool = match tables[at].kind {
            TableKind::Virtual => true,
            _ => false,
        };
        if module {
            let ghost before = owners@;
            owners.push(copied(tables[at].folded.as_slice()));
            assert(names_of(owners@) =~= names_of(before).push(tables@[at as int].folded@));
        }
    }
    let mut trees: Vec<(usize, Option<usize>)> = Vec::new();
    for at in 0..tables.len()
        invariant
            names_of(owners@) == modules_of(tables@, tables@.len() as int),
            trees_view(trees@) =~= trees_of(tables@, at as int),
            trees_stand(tables@, trees_view(trees@)),
    {
        let info = &tables[at];
        let skipped: bool = info.root == 0 || is_shadow_of(
            owners.as_slice(),
            info.folded.as_slice(),
        ) || (begins_with(info.name.as_slice(), "sqlite_".as_bytes()) && !same_folded(
            info.name.as_slice(),
            SEQUENCE_TABLE.as_bytes(),
        ) && !same_folded(info.name.as_slice(), STAT1.as_bytes()));
        proof {
            let modules = names_of(owners@);
            if exists|i: int|
                0 <= i < owners@.len() && shadow_of(#[trigger] owners@[i]@, info.folded@) {
                let i = choose|i: int|
                    0 <= i < owners@.len() && shadow_of(#[trigger] owners@[i]@, info.folded@);
                assert(shadow_of(modules[i], info.folded@));
            }
            if owned_by_a_module(tables@, info.folded@) {
                let i = choose|i: int|
                    0 <= i < modules.len() && shadow_of(#[trigger] modules[i], info.folded@);
                assert(shadow_of(owners@[i]@, info.folded@));
            }
        }
        if !skipped {
            let ghost before = trees@;
            trees.push((at, None));
            let ghost base = trees_view(trees@);
            assert(base =~= trees_view(before).push((at as int, None)));
            for nth in 0..info.indexes.len()
                invariant
                    at < tables@.len(),
                    *info == tables@[at as int],
                    trees_view(trees@) =~= base + index_trees(*info, at as int, nth as int),
                    trees_stand(tables@, trees_view(trees@)),
            {
                let ghost so_far = trees@;
                if info.indexes[nth].root != 0 && !(info.without_rowid && info.indexes[nth].root
                    == info.root) {
                    trees.push((at, Some(nth)));
                    assert(trees_view(trees@) =~= trees_view(so_far).push(
                        (at as int, Some(nth as int)),
                    ));
                }
            }
        }
    }
    trees
}

/// One declaration the source stored, word for word.
#[derive(Debug)]
pub struct Declaration {
    /// What it declares.
    pub kind: ObjectKind,
    /// The declared name, folded.
    pub folded: Vec<u8>,
    /// The statement.
    pub sql: Vec<u8>,
}

/// The statement that declares an object of a name, the last one stored.
pub open spec fn declared_sql(
    declarations: Seq<Declaration>,
    kind: ObjectKind,
    name: Seq<u8>,
) -> Option<Seq<u8>>
    decreases declarations.len(),
{
    if declarations.len() == 0 {
        None
    } else if declarations.last().kind == kind && declarations.last().folded@ == folded(
        shown(name),
    ) {
        Some(declarations.last().sql@)
    } else {
        declared_sql(declarations.drop_last(), kind, name)
    }
}

/// Returns the statement that declares an object of a name.
fn declaration_of(declarations: &[Declaration], kind: ObjectKind, name: &[u8]) -> (sql: Option<
    Vec<u8>,
>)
    ensures
        match sql {
            Some(sql) => declared_sql(declarations@, kind, name@) == Some(sql@),
            None => declared_sql(declarations@, kind, name@) is None,
        },
{
    let readable = show(name);
    let wanted = fold(readable.as_slice());
    let mut at: usize = declarations.len();
    assert(declarations@.take(declarations@.len() as int) =~= declarations@);
    while at > 0
        invariant
            at <= declarations@.len(),
            wanted@ == folded(shown(name@)),
            declared_sql(declarations@, kind, name@) == declared_sql(
                declarations@.take(at as int),
                kind,
                name@,
            ),
        decreases at,
    {
        let ghost some = declarations@.take(at as int);
        at = at - 1;
        assert(some.last() == declarations@[at as int]);
        if declarations[at].kind == kind && same(
            declarations[at].folded.as_slice(),
            wanted.as_slice(),
        ) {
            return Some(copied(declarations[at].sql.as_slice()));
        }
        assert(some.drop_last() =~= declarations@.take(at as int));
    }
    None
}

/// What an import has carried so far.
#[verifier::ext_equal]
pub struct Cargo {
    /// The source's tables and views, by their place in its list.
    pub tables: Seq<int>,
    /// How each tree's columns map onto a record, by identifier.
    pub layouts: Map<u32, SourceLayout>,
    /// The indexes that cover every row of a table, by the table's identifier.
    pub covering: Map<u32, Seq<u32>>,
    /// Each built tree's shape, by identifier.
    pub shapes: Map<u32, TreeShape>,
    /// What could not be carried.
    pub skipped: Seq<Seq<u8>>,
    /// The new file's catalog.
    pub entries: Seq<CatalogRow>,
    /// The identifier of each catalog row's tree.
    pub identifiers: Seq<u32>,
}

/// What an import has carried so far.
pub struct Carried {
    /// The source's tables and views, by their place in its list.
    pub tables: Vec<usize>,
    /// How each tree's columns map onto a record, by identifier.
    pub layouts: HashMap<u32, SourceLayout>,
    /// The indexes that cover every row of a table, by the table's identifier.
    pub covering: HashMap<u32, Vec<u32>>,
    /// Each built tree's shape, by identifier.
    pub shapes: HashMap<u32, TreeShape>,
    /// What could not be carried.
    pub skipped: Vec<Vec<u8>>,
    /// The new file's catalog.
    pub entries: Vec<SchemaEntry>,
    /// The identifier of each catalog row's tree.
    pub identifiers: Vec<u32>,
}

/// What each list of a map of lists is.
pub open spec fn lists_of(lists: Map<u32, Vec<u32>>) -> Map<u32, Seq<u32>> {
    lists.map_values(|list: Vec<u32>| list@)
}

impl View for Carried {
    type V = Cargo;

    open spec fn view(&self) -> Cargo {
        Cargo {
            tables: as_ints(self.tables@),
            layouts: self.layouts@,
            covering: lists_of(self.covering@),
            shapes: self.shapes@,
            skipped: names_of(self.skipped@),
            entries: catalog_rows(self.entries@),
            identifiers: self.identifiers@,
        }
    }
}

/// The identifier a carried tree is known by: its root in the source.
pub open spec fn identifier_of(tables: Seq<TableInfo>, tree: (int, Option<int>)) -> u32 {
    match tree.1 {
        None => tables[tree.0].root,
        Some(at) => tables[tree.0].indexes@[at].root,
    }
}

/// What a tree looked like once built.
pub open spec fn stats_for(shape: TreeShape) -> TreeStats {
    TreeStats {
        first_leaf: shape.first_leaf,
        leaf_count: shape.leaf_count,
        row_count: shape.row_count,
    }
}

/// What the catalog says of a carried tree.
///
/// An index a constraint made has no statement of its own in the source either.
pub open spec fn row_for(
    tables: Seq<TableInfo>,
    declarations: Seq<Declaration>,
    tree: (int, Option<int>),
    shape: TreeShape,
) -> CatalogRow {
    let info = tables[tree.0];
    match tree.1 {
        None => CatalogRow {
            kind: ObjectKind::Table,
            name: info.name@,
            table: info.name@,
            root: shape.root,
            sql: info.create_sql@,
            stats: stats_for(shape),
            tree_id: info.root as u64,
        },
        Some(at) => CatalogRow {
            kind: ObjectKind::Index,
            name: info.indexes@[at].name@,
            table: info.name@,
            root: shape.root,
            sql: match declared_sql(declarations, ObjectKind::Index, info.indexes@[at].name@) {
                Some(sql) => sql,
                None => Seq::empty(),
            },
            stats: stats_for(shape),
            tree_id: info.indexes@[at].root as u64,
        },
    }
}

/// The indexes a table is covered by, one more when a carried tree is one that
/// covers every row.
pub open spec fn covered_by(
    covering: Map<u32, Seq<u32>>,
    tables: Seq<TableInfo>,
    tree: (int, Option<int>),
) -> Map<u32, Seq<u32>> {
    let info = tables[tree.0];
    match tree.1 {
        Some(at) => if info.indexes@[at].partial_sql is None {
            let held = if covering.contains_key(info.root) {
                covering[info.root]
            } else {
                Seq::empty()
            };
            covering.insert(info.root, held.push(info.indexes@[at].root))
        } else {
            covering
        },
        None => covering,
    }
}

/// What an import has carried once one tree more is built.
pub open spec fn with_tree(
    cargo: Cargo,
    tables: Seq<TableInfo>,
    declarations: Seq<Declaration>,
    tree: (int, Option<int>),
    built: (TreeShape, SourceLayout),
) -> Cargo {
    let identifier = identifier_of(tables, tree);
    Cargo {
        tables: if tree.1 is None {
            cargo.tables.push(tree.0)
        } else {
            cargo.tables
        },
        layouts: cargo.layouts.insert(identifier, built.1),
        covering: covered_by(cargo.covering, tables, tree),
        shapes: cargo.shapes.insert(identifier, built.0),
        skipped: cargo.skipped,
        entries: cargo.entries.push(row_for(tables, declarations, tree, built.0)),
        identifiers: cargo.identifiers.push(identifier),
    }
}

/// What an import has carried once some trees are built, in order.
pub open spec fn with_trees(
    cargo: Cargo,
    tables: Seq<TableInfo>,
    declarations: Seq<Declaration>,
    trees: Seq<(int, Option<int>)>,
    built: Seq<(TreeShape, SourceLayout)>,
    upto: int,
) -> Cargo
    decreases upto,
{
    if upto <= 0 {
        cargo
    } else {
        with_tree(
            with_trees(cargo, tables, declarations, trees, built, upto - 1),
            tables,
            declarations,
            trees[upto - 1],
            built[upto - 1],
        )
    }
}

/// What the catalog says of an object that has no tree.
pub open spec fn treeless_row(
    kind: ObjectKind,
    name: Seq<u8>,
    table: Seq<u8>,
    sql: Seq<u8>,
) -> CatalogRow {
    CatalogRow {
        kind,
        name,
        table,
        root: 0,
        sql,
        stats: TreeStats { first_leaf: 0, leaf_count: 0, row_count: 0 },
        tree_id: 0,
    }
}

/// What an import has carried once the views among the first tables are.
pub open spec fn with_views(cargo: Cargo, tables: Seq<TableInfo>, upto: int) -> Cargo
    decreases upto,
{
    if upto <= 0 {
        cargo
    } else {
        let before = with_views(cargo, tables, upto - 1);
        let info = tables[upto - 1];
        if info.kind is View {
            Cargo {
                tables: before.tables.push(upto - 1),
                entries: before.entries.push(
                    treeless_row(ObjectKind::View, info.name@, info.name@, info.create_sql@),
                ),
                identifiers: before.identifiers.push(0),
                ..before
            }
        } else {
            before
        }
    }
}

/// What an import has carried once the first triggers of a table are.
///
/// A trigger whose statement the source did not store is named among what could
/// not be carried.
pub open spec fn with_triggers_of(
    cargo: Cargo,
    info: TableInfo,
    declarations: Seq<Declaration>,
    upto: int,
) -> Cargo
    decreases upto,
{
    if upto <= 0 {
        cargo
    } else {
        let before = with_triggers_of(cargo, info, declarations, upto - 1);
        let name = info.triggers@[upto - 1]@;
        match declared_sql(declarations, ObjectKind::Trigger, name) {
            Some(sql) => Cargo {
                entries: before.entries.push(
                    treeless_row(ObjectKind::Trigger, name, info.name@, sql),
                ),
                identifiers: before.identifiers.push(0),
                ..before
            },
            None => Cargo { skipped: before.skipped.push(shown(name)), ..before },
        }
    }
}

/// What an import has carried once the triggers of the first tables are.
pub open spec fn with_triggers(
    cargo: Cargo,
    tables: Seq<TableInfo>,
    declarations: Seq<Declaration>,
    upto: int,
) -> Cargo
    decreases upto,
{
    if upto <= 0 {
        cargo
    } else {
        with_triggers_of(
            with_triggers(cargo, tables, declarations, upto - 1),
            tables[upto - 1],
            declarations,
            tables[upto - 1].triggers@.len() as int,
        )
    }
}

impl Carried {
    /// Returns what an import has carried before it starts.
    pub fn new() -> (carried: Carried)
        ensures
            carried@ == (Cargo {
                tables: Seq::empty(),
                layouts: Map::empty(),
                covering: Map::empty(),
                shapes: Map::empty(),
                skipped: Seq::empty(),
                entries: Seq::empty(),
                identifiers: Seq::empty(),
            }),
    {
        Carried {
            tables: Vec::new(),
            layouts: HashMap::new(),
            covering: HashMap::new(),
            shapes: HashMap::new(),
            skipped: Vec::new(),
            entries: Vec::new(),
            identifiers: Vec::new(),
        }
    }

    /// Offers an index as one that covers every row of a table.
    fn cover(&mut self, table: u32, index: u32)
        ensures
            final(self)@ == (Cargo {
                covering: old(self)@.covering.insert(
                    table,
                    (if old(self)@.covering.contains_key(table) {
                        old(self)@.covering[table]
                    } else {
                        Seq::empty()
                    }).push(index),
                ),
                ..old(self)@
            }),
    {
        let mut list: Vec<u32> = match self.covering.remove(&table) {
            Some(list) => list,
            None => Vec::new(),
        };
        list.push(index);
        let ghost held = list@;
        self.covering.insert(table, list);
        assert(lists_of(self.covering@) =~= lists_of(old(self).covering@).insert(table, held));
    }

    /// Carries one built tree.
    fn carry_tree(
        &mut self,
        tables: &[TableInfo],
        declarations: &[Declaration],
        tree: (usize, Option<usize>),
        built: (TreeShape, SourceLayout),
    )
        requires
            tree.0 < tables@.len(),
            tree.1 matches Some(at) ==> at < tables@[tree.0 as int].indexes@.len(),
        ensures
            final(self)@ == with_tree(
                old(self)@,
                tables@,
                declarations@,
                trees_view(seq![tree])[0],
                built,
            ),
    {
        let (shape, layout) = built;
        let info = &tables[tree.0];
        let ghost before = self@;
        let ghost which = trees_view(seq![tree])[0];
        let entry = match tree.1 {
            None => SchemaEntry {
                kind: ObjectKind::Table,
                name: copied(info.name.as_slice()),
                table: copied(info.name.as_slice()),
                root: shape.root,
                sql: copied(info.create_sql.as_slice()),
                stats: stats_of(&shape),
                tree_id: info.root as u64,
            },
            Some(at) => {
                let index = &info.indexes[at];
                let sql = match declaration_of(
                    declarations,
                    ObjectKind::Index,
                    index.name.as_slice(),
                ) {
                    Some(sql) => sql,
                    None => Vec::new(),
                };
                assert(sql@ =~= row_for(tables@, declarations@, which, shape).sql);
                SchemaEntry {
                    kind: ObjectKind::Index,
                    name: copied(index.name.as_slice()),
                    table: copied(info.name.as_slice()),
                    root: shape.root,
                    sql,
                    stats: stats_of(&shape),
                    tree_id: index.root as u64,
                }
            },
        };
        assert(entry@ =~= row_for(tables@, declarations@, which, shape));
        let identifier: u32 = match tree.1 {
            None => info.root,
            Some(at) => info.indexes[at].root,
        };
        let ghost entries_before = self.entries@;
        self.entries.push(entry);
        assert(catalog_rows(self.entries@) =~= catalog_rows(entries_before).push(entry@));
        self.identifiers.push(identifier);
        self.shapes.insert(identifier, shape);
        self.layouts.insert(identifier, layout);
        match tree.1 {
            None => {
                let ghost tables_before = self.tables@;
                self.tables.push(tree.0);
                assert(as_ints(self.tables@) =~= as_ints(tables_before).push(tree.0 as int));
            },
            Some(at) => {
                let index = &info.indexes[at];
                if covers_every_row(index) {
                    self.cover(info.root, index.root);
                }
            },
        }
    }

    /// Carries every tree of a source's tables, once they are built.
    pub fn carry_tables(
        &mut self,
        tables: &[TableInfo],
        declarations: &[Declaration],
        built: Vec<(TreeShape, SourceLayout)>,
    )
        requires
            built@.len() == trees_of(tables@, tables@.len() as int).len(),
        ensures
            final(self)@ == with_trees(
                old(self)@,
                tables@,
                declarations@,
                trees_of(tables@, tables@.len() as int),
                built@,
                built@.len() as int,
            ),
    {
        let trees = trees_to_carry(tables);
        let ghost list = trees_view(trees@);
        let ghost all = built@;
        let ghost before = self@;
        let mut nth: usize = 0;
        let many: usize = trees.len();
        for pair in it: built
            invariant
                it.seq() == all,
                many == trees@.len(),
                nth == it.index(),
                all.len() == list.len(),
                list == trees_view(trees@),
                list == trees_of(tables@, tables@.len() as int),
                trees_stand(tables@, list),
                self@ == with_trees(
                    before,
                    tables@,
                    declarations@,
                    list,
                    all,
                    nth as int,
                ),
        {
            assert(list[nth as int] == trees_view(seq![trees@[nth as int]])[0]);
            self.carry_tree(tables, declarations, trees[nth], pair);
            nth = nth + 1;
        }
    }

    /// Carries the objects of a source that have no tree: its views, and then
    /// its tables' triggers.
    pub fn carry_treeless(&mut self, tables: &[TableInfo], declarations: &[Declaration])
        ensures
            final(self)@ == with_triggers(
                with_views(old(self)@, tables@, tables@.len() as int),
                tables@,
                declarations@,
                tables@.len() as int,
            ),
    {
        let ghost before = self@;
        for at in 0..tables.len()
            invariant
                self@ == with_views(before, tables@, at as int),
        {
            let info = &tables[at];
            let view: bool = match info.kind {
                TableKind::View => true,
                _ => false,
            };
            if view {
                self.carry_row(
                    ObjectKind::View,
                    info.name.as_slice(),
                    info.name.as_slice(),
                    copied(info.create_sql.as_slice()),
                );
                let ghost so_far = self.tables@;
                self.tables.push(at);
                assert(as_ints(self.tables@) =~= as_ints(so_far).push(at as int));
            }
        }
        let ghost viewed = self@;
        for at in 0..tables.len()
            invariant
                self@ == with_triggers(viewed, tables@, declarations@, at as int),
        {
            let info = &tables[at];
            let ghost base = self@;
            for nth in 0..info.triggers.len()
                invariant
                    self@ == with_triggers_of(base, *info, declarations@, nth as int),
            {
                let name = info.triggers[nth].as_slice();
                match declaration_of(declarations, ObjectKind::Trigger, name) {
                    Some(sql) => self.carry_row(
                        ObjectKind::Trigger,
                        name,
                        info.name.as_slice(),
                        sql,
                    ),
                    None => {
                        let ghost so_far = self.skipped@;
                        self.skipped.push(show(name));
                        assert(names_of(self.skipped@) =~= names_of(so_far).push(shown(name@)));
                    },
                }
            }
        }
    }

    /// Carries one object that has no tree.
    fn carry_row(&mut self, kind: ObjectKind, name: &[u8], table: &[u8], sql: Vec<u8>)
        ensures
            final(self)@ == (Cargo {
                entries: old(self)@.entries.push(treeless_row(kind, name@, table@, sql@)),
                identifiers: old(self)@.identifiers.push(0),
                ..old(self)@
            }),
    {
        let entry = SchemaEntry {
            kind,
            name: copied(name),
            table: copied(table),
            root: 0,
            sql,
            stats: TreeStats { first_leaf: 0, leaf_count: 0, row_count: 0 },
            tree_id: 0,
        };
        assert(entry@ =~= treeless_row(kind, name@, table@, sql@));
        let ghost before = self.entries@;
        self.entries.push(entry);
        assert(catalog_rows(self.entries@) =~= catalog_rows(before).push(entry@));
        self.identifiers.push(0);
    }

    /// Reports whether a catalog read back from the file is the one written to
    /// it.
    pub fn verify(&self, stored: &[SchemaEntry]) -> (answer: Result<(), Refusal>)
        ensures
            answer == (if catalog_rows(stored@) == self@.entries {
                Ok::<(), Refusal>(())
            } else {
                Err::<(), Refusal>(Refusal::CatalogReadBack)
            }),
    {
        if same_entries(stored, self.entries.as_slice()) {
            Ok(())
        } else {
            Err(Refusal::CatalogReadBack)
        }
    }

    /// Sorts each table's covering indexes, the smallest tree first.
    pub fn smallest_first(&mut self, sizes: &HashMap<u32, usize>)
        ensures
            final(self)@ == (Cargo { covering: final(self)@.covering, ..old(self)@ }),
            sorted_by_size(old(self)@.covering, final(self)@.covering, sizes@),
    {
        smallest_trees_first(&mut self.covering, sizes);
    }

    /// Returns the catalog rows as the new file numbers them, from one, each
    /// with the identifier of its tree.
    pub fn recorded(self) -> (rows: Vec<Recorded>)
        requires
            self@.entries.len() == self@.identifiers.len(),
            self@.entries.len() < i64::MAX,
        ensures
            rows@.len() == self@.entries.len(),
            forall|i: int|
                0 <= i < rows@.len() ==> {
                    &&& (#[trigger] rows@[i]).rowid == i + 1
                    &&& rows@[i].root == self@.identifiers[i]
                    &&& rows@[i].entry@ == self@.entries[i]
                },
    {
        let ghost all = self.entries@;
        let identifiers = self.identifiers;
        let mut rows: Vec<Recorded> = Vec::with_capacity(identifiers.len());
        let mut nth: usize = 0;
        let many: usize = identifiers.len();
        for entry in it: self.entries
            invariant
                it.seq() == all,
                many == identifiers@.len(),
                nth == it.index(),
                all.len() == identifiers@.len(),
                all.len() < i64::MAX,
                rows@.len() == nth,
                forall|i: int|
                    0 <= i < rows@.len() ==> {
                        &&& (#[trigger] rows@[i]).rowid == i + 1
                        &&& rows@[i].root == identifiers@[i]
                        &&& rows@[i].entry == all[i]
                    },
        {
            rows.push(Recorded { rowid: nth as i64 + 1, root: identifiers[nth], entry });
            nth = nth + 1;
        }
        rows
    }
}

/// What a tree weighs among the ones that could stand in for a scan.
pub open spec fn weight_of(sizes: Map<u32, usize>, root: u32) -> usize {
    if sizes.contains_key(root) {
        sizes[root]
    } else {
        usize::MAX
    }
}

/// What each tree of a list weighs.
pub open spec fn weights_of(list: Seq<u32>, sizes: Map<u32, usize>) -> Seq<usize> {
    list.map_values(|root: u32| weight_of(sizes, root))
}

/// Whether a list is another with the smallest trees first.
pub open spec fn smallest_come_first(
    before: Seq<u32>,
    after: Seq<u32>,
    sizes: Map<u32, usize>,
) -> bool {
    exists|places: Seq<usize>| #[trigger]
        weighed(weights_of(before, sizes), places) && after == Seq::new(
            before.len(),
            |i: int| before[places[i] as int],
        )
}

/// Returns the tables that are covered, in no order.
fn covered_tables(covering: &HashMap<u32, Vec<u32>>) -> (tables: Vec<u32>)
    ensures
        tables@.no_duplicates(),
        forall|table: u32| #[trigger]
            tables@.contains(table) <==> covering@.contains_key(table),
{
    let mut tables: Vec<u32> = Vec::new();
    for pair in it: covering.iter()
        invariant
            it.seq() == vstd::std_specs::hash::spec_hash_map_iter(covering).remaining(),
            it.seq().no_duplicates(),
            tables@.len() == it.index(),
            forall|i: int| 0 <= i < it.index() ==> #[trigger] tables@[i] == *it.seq()[i].0,
    {
        tables.push(*pair.0);
    }
    proof {
        let pairs = vstd::std_specs::hash::spec_hash_map_iter(covering).remaining();
        assert forall|i: int, j: int|
            0 <= i < tables@.len() && 0 <= j < tables@.len() && i != j implies tables@[i]
            != tables@[j] by {
            assert(covering@.contains_key(*pairs[i].0) && covering@[*pairs[i].0] == *pairs[i].1);
            assert(covering@.contains_key(*pairs[j].0) && covering@[*pairs[j].0] == *pairs[j].1);
            assert(pairs[i] != pairs[j]);
        }
        assert forall|table: u32| #[trigger]
            tables@.contains(table) <==> covering@.contains_key(table) by {
            if tables@.contains(table) {
                let i = choose|i: int| 0 <= i < tables@.len() && tables@[i] == table;
                assert(covering@.contains_key(*pairs[i].0));
            }
            if covering@.contains_key(table) {
                assert(pairs.contains((&table, &covering@[table])));
                let i = choose|i: int|
                    0 <= i < pairs.len() && pairs[i] == (&table, &covering@[table]);
                assert(tables@[i] == table);
            }
        }
    }
    tables
}

/// Returns a list with the smallest trees first.
fn smallest(list: &Vec<u32>, sizes: &HashMap<u32, usize>) -> (sorted: Vec<u32>)
    ensures
        smallest_come_first(list@, sorted@, sizes@),
{
    let mut weights: Vec<usize> = Vec::with_capacity(list.len());
    for at in 0..list.len()
        invariant
            weights@ =~= weights_of(list@, sizes@).take(at as int),
    {
        let weight: usize = match sizes.get(&list[at]) {
            Some(size) => *size,
            None => usize::MAX,
        };
        weights.push(weight);
    }
    assert(weights@ =~= weights_of(list@, sizes@));
    let places = by_weight(weights.as_slice());
    let mut sorted: Vec<u32> = Vec::with_capacity(list.len());
    for at in 0..places.len()
        invariant
            weighed(weights_of(list@, sizes@), places@),
            sorted@ =~= Seq::new(at as nat, |i: int| list@[places@[i] as int]),
    {
        sorted.push(list[places[at]]);
    }
    assert(weighed(weights_of(list@, sizes@), places@));
    sorted
}

/// Whether lists of covering indexes are others with the smallest trees first.
pub open spec fn sorted_by_size(
    before: Map<u32, Seq<u32>>,
    after: Map<u32, Seq<u32>>,
    sizes: Map<u32, usize>,
) -> bool {
    &&& after.dom() == before.dom()
    &&& forall|table: u32| #[trigger]
        before.contains_key(table) ==> smallest_come_first(before[table], after[table], sizes)
}

/// Sorts each table's covering indexes, the smallest tree first.
///
/// A tree nobody can size comes last, and trees of one size stay in the order
/// they were offered in.
pub fn smallest_trees_first(covering: &mut HashMap<u32, Vec<u32>>, sizes: &HashMap<u32, usize>)
    ensures
        sorted_by_size(lists_of(old(covering)@), lists_of(final(covering)@), sizes@),
{
    let tables = covered_tables(covering);
    let ghost before = lists_of(covering@);
    for nth in 0..tables.len()
        invariant
            tables@.no_duplicates(),
            lists_of(covering@).dom() == before.dom(),
            forall|table: u32| #[trigger]
                before.contains_key(table) ==> if tables@.take(nth as int).contains(table) {
                    smallest_come_first(before[table], lists_of(covering@)[table], sizes@)
                } else {
                    lists_of(covering@)[table] == before[table]
                },
    {
        let table: u32 = tables[nth];
        let ghost so_far = lists_of(covering@);
        let ghost some = tables@.take(nth as int);
        let ghost more = tables@.take(nth + 1);
        assert(more =~= some.push(table));
        assert(!some.contains(table)) by {
            if some.contains(table) {
                let i = choose|i: int| 0 <= i < some.len() && some[i] == table;
                assert(tables@[i] == tables@[nth as int]);
            }
        }
        match covering.remove(&table) {
            Some(list) => {
                let sorted = smallest(&list, sizes);
                let ghost held = sorted@;
                covering.insert(table, sorted);
                assert(lists_of(covering@) =~= so_far.insert(table, held));
                assert(so_far[table] == list@);
                assert(so_far.insert(table, held).dom() =~= so_far.dom());
            },
            None => {
                assert(lists_of(covering@) =~= so_far);
            },
        }
        assert forall|other: u32| #[trigger] before.contains_key(other) implies if more.contains(
            other,
        ) {
            smallest_come_first(before[other], lists_of(covering@)[other], sizes@)
        } else {
            lists_of(covering@)[other] == before[other]
        } by {
            assert(more.contains(other) <==> (some.contains(other) || other == table)) by {
                if some.contains(other) {
                    let i = choose|i: int| 0 <= i < some.len() && some[i] == other;
                    assert(more[i] == other);
                }
                assert(more[nth as int] == table);
            }
            assert(so_far.contains_key(other));
        }
    }
    assert(tables@.take(tables@.len() as int) =~= tables@);
    assert forall|table: u32| #[trigger] before.contains_key(table) implies tables@.contains(
        table,
    ) by {
        assert(lists_of(old(covering)@).contains_key(table));
        assert(old(covering)@.contains_key(table));
    }
}

/// Whether a layout is the one the catalog is read through: the rowid, and then
/// the five columns of its declaration.
pub open spec fn catalog_layout(layout: SourceLayout, root: u32) -> bool {
    &&& layout.tree_key == root
    &&& layout.slots@ == Seq::new(5, |i: int| Some((i + 1) as usize))
    &&& layout.rowid == Some(0usize)
    &&& layout.identity@ == seq![0usize]
    &&& layout.types@ == seq![
        StaticType::Int,
        StaticType::Text,
        StaticType::Text,
        StaticType::Text,
        StaticType::Int,
        StaticType::Text,
    ]
    &&& layout.width == 6
    &&& layout.key_columns@ == seq![0usize]
}

/// Returns the layout the catalog is read through.
pub fn schema_view_layout(root: u32) -> (layout: SourceLayout)
    ensures
        catalog_layout(layout, root),
        layout.tree_key == root && layout.width == 6 && layout.rowid == Some(0usize),
        layout.slots@.len() == 5,
        forall|i: int| 0 <= i < 5 ==> #[trigger] layout.slots@[i] == Some((i + 1) as usize),
        layout.identity@.len() == 1 && layout.identity@[0] == 0,
        layout.key_columns@.len() == 1 && layout.key_columns@[0] == 0,
        layout.types@.len() == 6 && layout.types@[0] is Int && layout.types@[4] is Int,
        layout.types@[1] is Text && layout.types@[2] is Text && layout.types@[3] is Text
            && layout.types@[5] is Text,
{
    let layout = SourceLayout {
        tree_key: root,
        slots: vec![Some(1), Some(2), Some(3), Some(4), Some(5)],
        rowid: Some(0),
        identity: vec![0],
        types: vec![
            StaticType::Int,
            StaticType::Text,
            StaticType::Text,
            StaticType::Text,
            StaticType::Int,
            StaticType::Text,
        ],
        width: 6,
        key_columns: vec![0],
    };
    assert(layout.slots@ =~= Seq::new(5, |i: int| Some((i + 1) as usize)));
    assert(layout.identity@ =~= seq![0usize]);
    assert(layout.key_columns@ =~= seq![0usize]);
    assert(layout.types@ =~= seq![
        StaticType::Int,
        StaticType::Text,
        StaticType::Text,
        StaticType::Text,
        StaticType::Int,
        StaticType::Text,
    ]);
    layout
}

/// Every row of the new catalog has a tree's identifier beside it, zero for one
/// that has none.
pub proof fn every_row_is_identified(
    cargo: Cargo,
    tables: Seq<TableInfo>,
    declarations: Seq<Declaration>,
    built: Seq<(TreeShape, SourceLayout)>,
)
    requires
        cargo.entries.len() == cargo.identifiers.len(),
    ensures
        ({
            let trees = trees_of(tables, tables.len() as int);
            let treed = with_trees(
                cargo,
                tables,
                declarations,
                trees,
                built,
                built.len() as int,
            );
            let all = with_triggers(
                with_views(treed, tables, tables.len() as int),
                tables,
                declarations,
                tables.len() as int,
            );
            all.entries.len() == all.identifiers.len()
        }),
{
    let trees = trees_of(tables, tables.len() as int);
    trees_identified(cargo, tables, declarations, trees, built, built.len() as int);
    let treed = with_trees(cargo, tables, declarations, trees, built, built.len() as int);
    views_identified(treed, tables, tables.len() as int);
    let viewed = with_views(treed, tables, tables.len() as int);
    triggers_identified(viewed, tables, declarations, tables.len() as int);
}

/// Carrying a tree adds one row and one identifier.
proof fn trees_identified(
    cargo: Cargo,
    tables: Seq<TableInfo>,
    declarations: Seq<Declaration>,
    trees: Seq<(int, Option<int>)>,
    built: Seq<(TreeShape, SourceLayout)>,
    upto: int,
)
    requires
        cargo.entries.len() == cargo.identifiers.len(),
    ensures
        ({
            let all = with_trees(cargo, tables, declarations, trees, built, upto);
            all.entries.len() == all.identifiers.len()
        }),
    decreases upto,
{
    if upto > 0 {
        trees_identified(cargo, tables, declarations, trees, built, upto - 1);
    }
}

/// Carrying a view adds one row and one identifier.
proof fn views_identified(cargo: Cargo, tables: Seq<TableInfo>, upto: int)
    requires
        cargo.entries.len() == cargo.identifiers.len(),
    ensures
        with_views(cargo, tables, upto).entries.len() == with_views(
            cargo,
            tables,
            upto,
        ).identifiers.len(),
    decreases upto,
{
    if upto > 0 {
        views_identified(cargo, tables, upto - 1);
    }
}

/// Carrying a trigger adds one row and one identifier, or neither.
proof fn triggers_identified(
    cargo: Cargo,
    tables: Seq<TableInfo>,
    declarations: Seq<Declaration>,
    upto: int,
)
    requires
        cargo.entries.len() == cargo.identifiers.len(),
    ensures
        ({
            let all = with_triggers(cargo, tables, declarations, upto);
            all.entries.len() == all.identifiers.len()
        }),
    decreases upto,
{
    if upto > 0 {
        triggers_identified(cargo, tables, declarations, upto - 1);
        triggers_of_identified(
            with_triggers(cargo, tables, declarations, upto - 1),
            tables[upto - 1],
            declarations,
            tables[upto - 1].triggers@.len() as int,
        );
    }
}

/// Carrying one table's triggers adds as many rows as identifiers.
proof fn triggers_of_identified(
    cargo: Cargo,
    info: TableInfo,
    declarations: Seq<Declaration>,
    upto: int,
)
    requires
        cargo.entries.len() == cargo.identifiers.len(),
    ensures
        ({
            let all = with_triggers_of(cargo, info, declarations, upto);
            all.entries.len() == all.identifiers.len()
        }),
    decreases upto,
{
    if upto > 0 {
        triggers_of_identified(cargo, info, declarations, upto - 1);
    }
}

/// What a table's tree is built from: its shape, and its rows as they were read.
pub open spec fn table_built(info: TableInfo, raw: Seq<Seq<Value>>, tree: TreeToBuild) -> bool {
    &&& tree.tree_id == info.root
    &&& if info.without_rowid {
        &&& shapes_keyed(info, tree.columns@, tree.key_columns as int, tree.layout)
        &&& exists|places: Seq<usize>| #[trigger]
            arranged(
                raw,
                owned_rows(tree.rows@),
                tree.columns@,
                tree.key_columns as int,
                places,
            )
    } else {
        &&& tree.key_columns == 1
        &&& shapes_table(info, tree.columns@, tree.layout)
        &&& owned_rows(tree.rows@) == raw.map_values(|row: Seq<Value>| rowid_row(info, row))
    }
}

/// Whether every tree carried of a source's tables was built: each table's own
/// from what was read of the table.
pub open spec fn source_built(
    tables: Seq<TableInfo>,
    raw: Seq<Seq<Seq<Value>>>,
    built: Seq<TreeToBuild>,
) -> bool {
    let trees = trees_of(tables, tables.len() as int);
    &&& raw.len() == trees.len()
    &&& built.len() == trees.len()
    &&& forall|k: int|
        0 <= k < trees.len() && (#[trigger] trees[k]).1 is None ==> table_built(
            tables[trees[k].0],
            raw[k],
            built[k],
        )
}

/// The rows a `SELECT *` of a built table produces.
pub open spec fn rows_read(info: TableInfo, tree: TreeToBuild) -> Seq<Seq<Value>> {
    owned_rows(tree.rows@).map_values(
        |row: Seq<Value>| read_as(info, tree.layout.slots@, row),
    )
}

/// The rows a source stores of a table, as a `SELECT *` of it produces them
/// through a layout.
pub open spec fn rows_stored(
    info: TableInfo,
    layout: SourceLayout,
    raw: Seq<Seq<Value>>,
) -> Seq<Seq<Value>> {
    raw.map_values(|row: Seq<Value>| logical(info, layout.slots@, row))
}

/// Whether a layout is the one a table's tree is read through.
pub open spec fn lays_out(info: TableInfo, layout: SourceLayout) -> bool {
    if info.without_rowid {
        exists|columns: Seq<ColumnSpec>, key: int| #[trigger]
            shapes_keyed(info, columns, key, layout)
    } else {
        exists|columns: Seq<ColumnSpec>| #[trigger] shapes_table(info, columns, layout)
    }
}

/// Rows put in another order are the same rows.
proof fn arranging_keeps_the_rows<A>(before: Seq<A>, after: Seq<A>, places: Seq<int>)
    requires
        after.len() == before.len(),
        places.len() == before.len(),
        places.no_duplicates(),
        forall|i: int| 0 <= i < places.len() ==> 0 <= #[trigger] places[i] < before.len(),
        forall|i: int| 0 <= i < after.len() ==> #[trigger] after[i] == before[places[i]],
    ensures
        after.to_multiset() == before.to_multiset(),
    decreases before.len(),
{
    if before.len() == 0 {
        assert(after =~= before);
    } else {
        let last = after.len() - 1;
        let taken = places[last];
        let fewer = before.remove(taken);
        let rest = Seq::new(
            last as nat,
            |i: int|
                if places[i] > taken {
                    places[i] - 1
                } else {
                    places[i]
                },
        );
        assert forall|i: int, j: int| 0 <= i < j < rest.len() implies rest[i] != rest[j] by {
            assert(places[i] != places[j]);
            assert(places[i] != places[last]);
            assert(places[j] != places[last]);
        }
        assert forall|i: int| 0 <= i < rest.len() implies 0 <= #[trigger] rest[i] < fewer.len()
            && after.drop_last()[i] == fewer[rest[i]] by {
            assert(places[i] != places[last]);
            assert(after[i] == before[places[i]]);
        }
        arranging_keeps_the_rows(fewer, after.drop_last(), rest);
        vstd::seq_lib::to_multiset_remove(before, taken);
        vstd::seq_lib::to_multiset_build(after.drop_last(), after[last]);
        assert(after.drop_last().push(after[last]) =~= after);
        before.to_multiset_ensures();
        assert(before.contains(before[taken]));
        assert(before.to_multiset().count(before[taken]) > 0);
        assert(before.to_multiset().remove(before[taken]).insert(before[taken])
            =~= before.to_multiset());
    }
}

/// A table is imported whole: what a `SELECT *` of the built table produces is
/// what the source stores of it, each row as often, whichever layout of the table
/// the stored rows are read through.
pub proof fn a_table_is_imported_whole(
    info: TableInfo,
    raw: Seq<Seq<Value>>,
    tree: TreeToBuild,
    layout: SourceLayout,
)
    requires
        table_built(info, raw, tree),
        lays_out(info, layout),
    ensures
        rows_read(info, tree).to_multiset() == rows_stored(info, layout, raw).to_multiset(),
{
    let stored = rows_stored(info, layout, raw);
    let read = rows_read(info, tree);
    if info.without_rowid {
        let (columns, key) = choose|columns: Seq<ColumnSpec>, key: int| #[trigger]
            shapes_keyed(info, columns, key, layout);
        assert(shapes_keyed(info, columns, key, layout));
        assert(tree.layout.slots@ =~= layout.slots@) by {
            let fields = keyed_fields(info);
            assert forall|declared: int| 0 <= declared < info.columns@.len() implies #[trigger]
            tree.layout.slots@[declared] == layout.slots@[declared] by {
                if fields.contains(declared) {
                    let i = choose|i: int| 0 <= i < fields.len() && fields[i] == declared;
                    assert(layout.slots@[fields[i]] == Some(i as usize));
                    assert(tree.layout.slots@[fields[i]] == Some(i as usize));
                }
            }
        }
        let rows = owned_rows(tree.rows@);
        let places = choose|places: Seq<usize>| #[trigger]
            arranged(raw, rows, tree.columns@, tree.key_columns as int, places);
        let order = places.map_values(|place: usize| place as int);
        assert forall|i: int, j: int| 0 <= i < j < order.len() implies order[i] != order[j] by {
            assert(places[i] != places[j]);
        }
        assert forall|i: int| 0 <= i < read.len() implies #[trigger] read[i]
            == stored[order[i]] by {
            assert(rows[i] == raw[places[i] as int]);
        }
        assert forall|i: int| 0 <= i < order.len() implies 0 <= #[trigger] order[i]
            < stored.len() by {
            assert(places[i] < raw.len());
        }
        arranging_keeps_the_rows(stored, read, order);
    } else {
        assert(read =~= stored);
    }
}

/// The trees of the first tables are among the trees of more of them, in their
/// places.
proof fn trees_go_on(tables: Seq<TableInfo>, some: int, more: int)
    requires
        0 <= some <= more,
    ensures
        trees_of(tables, some).len() <= trees_of(tables, more).len(),
        forall|k: int|
            0 <= k < trees_of(tables, some).len() ==> #[trigger] trees_of(tables, some)[k]
                == trees_of(tables, more)[k],
    decreases more,
{
    if some < more {
        trees_go_on(tables, some, more - 1);
        assert forall|k: int|
            0 <= k < trees_of(tables, some).len() implies #[trigger] trees_of(tables, some)[k]
            == trees_of(tables, more)[k] by {
            assert(trees_of(tables, some)[k] == trees_of(tables, more - 1)[k]);
        }
    }
}

/// The trees of a table's indexes are no table's own.
proof fn index_trees_are_of_indexes(info: TableInfo, table: int, upto: int)
    ensures
        forall|k: int|
            0 <= k < index_trees(info, table, upto).len() ==> (#[trigger] index_trees(
                info,
                table,
                upto,
            )[k]).1 is Some,
    decreases upto,
{
    if upto > 0 {
        index_trees_are_of_indexes(info, table, upto - 1);
    }
}

/// The own tree of a table is one of the trees once where the table is carried,
/// and nowhere else.
proof fn each_table_has_one_tree(tables: Seq<TableInfo>, upto: int)
    requires
        0 <= upto <= tables.len(),
    ensures
        forall|k: int|
            0 <= k < trees_of(tables, upto).len() && (#[trigger] trees_of(tables, upto)[k]).1
                is None ==> 0 <= trees_of(tables, upto)[k].0 < upto && carries(
                tables,
                trees_of(tables, upto)[k].0,
            ),
        forall|k: int, m: int|
            0 <= k < m < trees_of(tables, upto).len() && (#[trigger] trees_of(tables, upto)[k]).1
                is None && (#[trigger] trees_of(tables, upto)[m]).1 is None ==> trees_of(
                tables,
                upto,
            )[k].0 != trees_of(tables, upto)[m].0,
    decreases upto,
{
    if upto > 0 {
        each_table_has_one_tree(tables, upto - 1);
        if carries(tables, upto - 1) {
            let before = trees_of(tables, upto - 1);
            let info = tables[upto - 1];
            let indexes = index_trees(info, upto - 1, info.indexes@.len() as int);
            index_trees_are_of_indexes(info, upto - 1, info.indexes@.len() as int);
            let all = trees_of(tables, upto);
            assert(all == before.push((upto - 1, None)) + indexes);
            assert forall|k: int| 0 <= k < all.len() && (#[trigger] all[k]).1 is None implies k
                <= before.len() && (k < before.len() ==> all[k] == before[k]) && (k == before.len()
                ==> all[k].0 == upto - 1) by {
                if k > before.len() {
                    assert(all[k] == indexes[k - before.len() - 1]);
                }
            }
        }
    }
}

/// A source is imported whole: every table that is carried is built, once, under
/// the number its source knows it by, and a `SELECT *` of it produces what the
/// source stores of it, each row as often.
pub proof fn a_source_is_imported_whole(
    tables: Seq<TableInfo>,
    raw: Seq<Seq<Seq<Value>>>,
    built: Seq<TreeToBuild>,
    at: int,
    layout: SourceLayout,
) -> (place: int)
    requires
        source_built(tables, raw, built),
        0 <= at < tables.len(),
        carries(tables, at),
        lays_out(tables[at], layout),
    ensures
        0 <= place < built.len(),
        trees_of(tables, tables.len() as int)[place] == (at, None::<int>),
        forall|other: int|
            0 <= other < built.len() && #[trigger] trees_of(tables, tables.len() as int)[other] == (
                at,
                None::<int>,
            ) ==> other == place,
        built[place].tree_id == tables[at].root,
        rows_read(tables[at], built[place]).to_multiset() == rows_stored(
            tables[at],
            layout,
            raw[place],
        ).to_multiset(),
{
    let trees = trees_of(tables, tables.len() as int);
    let place = trees_of(tables, at).len() as int;
    trees_go_on(tables, at + 1, tables.len() as int);
    assert(trees_of(tables, at + 1)[place] == (at, None::<int>));
    assert(trees[place] == (at, None::<int>));
    each_table_has_one_tree(tables, tables.len() as int);
    assert forall|other: int|
        0 <= other < built.len() && #[trigger] trees[other] == (at, None::<int>) implies other
        == place by {
        if other < place {
            assert(trees[other].0 != trees[place].0);
        } else if place < other {
            assert(trees[place].0 != trees[other].0);
        }
    }
    assert(table_built(tables[at], raw[place], built[place]));
    a_table_is_imported_whole(tables[at], raw[place], built[place], layout);
    place
}

/// An imported rowid table holds its source's values: a row for each row that was
/// read, in the order they were read in, with the rowid first and in the slot of each
/// stored column the very value of that column's field. Read back through its layout
/// each column is that value, but for an integer of a `REAL` column, which is the
/// number nearest to it.
pub proof fn a_rowid_table_keeps_its_values(
    info: TableInfo,
    raw: Seq<Seq<Value>>,
    tree: TreeToBuild,
    row: int,
    fields: Seq<int>,
    field: int,
) -> (slot: int)
    requires
        table_built(info, raw, tree),
        !info.without_rowid,
        info.columns@.len() < usize::MAX,
        0 <= row < raw.len(),
        raw[row].len() == 1 + fields.len(),
        forall|i: int, j: int|
            0 <= i < j < fields.len() ==> #[trigger] fields[i] < #[trigger] fields[j],
        forall|i: int|
            0 <= i < fields.len() ==> 0 <= #[trigger] fields[i] < info.columns@.len() && !(
            info.columns@[fields[i]].generated && !info.columns@[fields[i]].stored),
        forall|declared: int|
            0 <= declared < info.columns@.len() && !((#[trigger] info.columns@[declared]).generated
                && !info.columns@[declared].stored) ==> fields.contains(declared),
        0 <= field < fields.len(),
    ensures
        tree.rows@.len() == raw.len(),
        tree.rows@[row]@.len() == tree.columns@.len(),
        tree.rows@[row]@[0]@ == raw[row][0],
        tree.layout.slots@[fields[field]] is Some,
        tree.layout.slots@[fields[field]]->Some_0 == slot,
        0 <= slot < tree.columns@.len(),
        tree.rows@[row]@[slot]@ == (if info.rowid_alias is Some && info.rowid_alias->Some_0
            == fields[field] {
            raw[row][0]
        } else {
            raw[row][1 + field]
        }),
        rows_read(info, tree).len() == raw.len(),
        rows_read(info, tree)[row][fields[field]] == ({
            let held = if info.rowid_alias is Some && info.rowid_alias->Some_0 == fields[field] {
                raw[row][0]
            } else {
                raw[row][1 + field]
            };
            if info.columns@[fields[field]].affinity is Real && held is Int {
                Value::Real(as_real(held->Int_0))
            } else {
                held
            }
        }),
{
    let slot = a_rowid_row_keeps_its_values(
        info,
        tree.columns@,
        tree.layout,
        raw[row],
        fields,
        field,
    );
    let rows = owned_rows(tree.rows@);
    assert(rows.len() == raw.len()) by {
        assert(rows == raw.map_values(|row: Seq<Value>| rowid_row(info, row)));
    }
    assert(rows[row] == rowid_row(info, raw[row]));
    assert(rows[row] == owned_row(tree.rows@[row]@));
    assert(rows[row][0] == tree.rows@[row]@[0]@);
    assert(rows[row][slot] == tree.rows@[row]@[slot]@);
    assert(rows_read(info, tree)[row] == read_as(info, tree.layout.slots@, rows[row]));
    slot
}

/// An imported `WITHOUT ROWID` table holds its source's rows, each once and as it was
/// read: the order alone is another. Read back through its layout each column is the
/// value of its field, but for an integer of a `REAL` column, which is the number
/// nearest to it.
pub proof fn a_keyed_table_keeps_its_rows(
    info: TableInfo,
    raw: Seq<Seq<Value>>,
    tree: TreeToBuild,
    declared: int,
) -> (places: Seq<usize>)
    requires
        table_built(info, raw, tree),
        info.without_rowid,
        info.columns@.len() < usize::MAX,
        0 <= declared < info.columns@.len(),
    ensures
        tree.rows@.len() == raw.len(),
        places.len() == raw.len(),
        places.no_duplicates(),
        forall|row: int|
            0 <= row < raw.len() ==> #[trigger] places[row] < raw.len()
                && tree.rows@[row]@.len() == raw[places[row] as int].len() && (forall|column: int|
                0 <= column < raw[places[row] as int].len()
                    ==> #[trigger] tree.rows@[row]@[column]@ == raw[places[row] as int][column]),
        forall|row: int|
            0 <= row < raw.len() ==> {
                let read = (#[trigger] rows_read(info, tree)[row])[declared];
                match tree.layout.slots@[declared] {
                    Some(slot) => {
                        &&& slot >= raw[places[row] as int].len() ==> read is Null
                        &&& slot < raw[places[row] as int].len() ==> {
                            let held = raw[places[row] as int][slot as int];
                            read == (if info.columns@[declared].affinity is Real && held is Int {
                                Value::Real(as_real(held->Int_0))
                            } else {
                                held
                            })
                        }
                    },
                    None => read is Null,
                }
            },
{
    let rows = owned_rows(tree.rows@);
    let places = choose|places: Seq<usize>| #[trigger]
        arranged(raw, rows, tree.columns@, tree.key_columns as int, places);
    assert forall|row: int| 0 <= row < raw.len() implies #[trigger] places[row] < raw.len()
        && tree.rows@[row]@.len() == raw[places[row] as int].len() && (forall|column: int|
        0 <= column < raw[places[row] as int].len() ==> #[trigger] tree.rows@[row]@[column]@
            == raw[places[row] as int][column]) by {
        assert(rows[row] == raw[places[row] as int]);
        assert(rows[row] == owned_row(tree.rows@[row]@));
        assert forall|column: int|
            0 <= column < raw[places[row] as int].len() implies #[trigger] tree.rows@[row]@[column]@
            == raw[places[row] as int][column] by {
            assert(rows[row][column] == tree.rows@[row]@[column]@);
        }
    }
    assert forall|row: int| 0 <= row < raw.len() implies {
        let read = (#[trigger] rows_read(info, tree)[row])[declared];
        match tree.layout.slots@[declared] {
            Some(slot) => {
                &&& slot >= raw[places[row] as int].len() ==> read is Null
                &&& slot < raw[places[row] as int].len() ==> {
                    let held = raw[places[row] as int][slot as int];
                    read == (if info.columns@[declared].affinity is Real && held is Int {
                        Value::Real(as_real(held->Int_0))
                    } else {
                        held
                    })
                }
            },
            None => read is Null,
        }
    } by {
        assert(rows[row] == raw[places[row] as int]);
        assert(rows_read(info, tree)[row] == read_as(info, tree.layout.slots@, rows[row]));
    }
    places
}

/// A table is carried where it has a tree, is none that a module keeps for itself, and is
/// none the engine derives again: of the names the engine keeps, the counters of keys and
/// what was measured of indexes are carried.
pub proof fn a_table_is_carried_where_it_is_its_own(tables: Seq<TableInfo>, at: int)
    requires
        0 <= at < tables.len(),
    ensures
        carries(tables, at) <==> {
            &&& tables[at].root != 0
            &&& !(exists|module: int|
                0 <= module < tables.len() && (#[trigger] tables[module]).kind is Virtual
                    && tables[at].folded@.len() >= tables[module].folded@.len() + 2
                    && tables[at].folded@.take(tables[module].folded@.len() as int)
                    == tables[module].folded@
                        && tables[at].folded@[tables[module].folded@.len() as int]
                    == 95)
            &&& !begins(tables[at].name@, ascii("sqlite_")) || folded(tables[at].name@) == folded(
                ascii("sqlite_sequence"),
            ) || folded(tables[at].name@) == folded(ascii("sqlite_stat1"))
        },
{
    let name = tables[at].folded@;
    let many = tables.len() as int;
    let modules = modules_of(tables, many);
    if owned_by_a_module(tables, name) {
        let i = choose|i: int| 0 <= i < modules.len() && shadow_of(#[trigger] modules[i], name);
        let module = a_module_is_a_table(tables, many, i);
        assert(tables[module].folded@ == modules[i]);
    }
    if exists|module: int|
        0 <= module < tables.len() && (#[trigger] tables[module]).kind is Virtual && name.len()
            >= tables[module].folded@.len() + 2 && name.take(
            tables[module].folded@.len() as int,
        ) == tables[module].folded@ && name[tables[module].folded@.len() as int] == 95 {
        let module = choose|module: int|
            0 <= module < tables.len() && (#[trigger] tables[module]).kind is Virtual && name.len()
                >= tables[module].folded@.len() + 2 && name.take(
                tables[module].folded@.len() as int,
            ) == tables[module].folded@ && name[tables[module].folded@.len() as int] == 95;
        let i = a_module_is_listed(tables, many, module);
        assert(shadow_of(modules[i], name));
    }
}

/// A module listed is a table.
proof fn a_module_is_a_table(tables: Seq<TableInfo>, upto: int, at: int) -> (module: int)
    requires
        0 <= upto <= tables.len(),
        0 <= at < modules_of(tables, upto).len(),
    ensures
        0 <= module < upto,
        tables[module].kind is Virtual,
        tables[module].folded@ == modules_of(tables, upto)[at],
    decreases upto,
{
    if at < modules_of(tables, upto - 1).len() {
        a_module_is_a_table(tables, upto - 1, at)
    } else {
        upto - 1
    }
}

/// A table that is a module's is listed.
proof fn a_module_is_listed(tables: Seq<TableInfo>, upto: int, module: int) -> (at: int)
    requires
        0 <= module < upto <= tables.len(),
        tables[module].kind is Virtual,
    ensures
        0 <= at < modules_of(tables, upto).len(),
        modules_of(tables, upto)[at] == tables[module].folded@,
    decreases upto,
{
    if module == upto - 1 {
        modules_of(tables, upto).len() - 1
    } else {
        a_module_is_listed(tables, upto - 1, module)
    }
}

/// What is carried of a source comes table by table: of each that is carried its own tree
/// first, and then those of its indexes that have one of their own.
pub proof fn trees_come_table_by_table(tables: Seq<TableInfo>, at: int, index: int)
    requires
        0 <= at < tables.len(),
        0 <= index < tables[at].indexes@.len(),
    ensures
        trees_of(tables, 0).len() == 0,
        !carries(tables, at) ==> trees_of(tables, at + 1) == trees_of(tables, at),
        carries(tables, at) ==> trees_of(tables, at + 1) == trees_of(tables, at) + seq![
            (at, None::<int>),
        ] + index_trees(tables[at], at, tables[at].indexes@.len() as int),
        index_trees(tables[at], at, 0).len() == 0,
        tables[at].indexes@[index].root != 0 && !(tables[at].without_rowid
            && tables[at].indexes@[index].root == tables[at].root) ==> index_trees(
            tables[at],
            at,
            index + 1,
        ) == index_trees(tables[at], at, index) + seq![(at, Some(index))],
        tables[at].indexes@[index].root == 0 || (tables[at].without_rowid
            && tables[at].indexes@[index].root == tables[at].root) ==> index_trees(
            tables[at],
            at,
            index + 1,
        ) == index_trees(tables[at], at, index),
{
    if carries(tables, at) {
        assert(trees_of(tables, at + 1) =~= trees_of(tables, at) + seq![(at, None::<int>)]
            + index_trees(tables[at], at, tables[at].indexes@.len() as int));
    }
    if carries_index(tables[at], index) {
        assert(index_trees(tables[at], at, index + 1) =~= index_trees(tables[at], at, index)
            + seq![(at, Some(index))]);
    }
}

/// The statement of an object is the last one declared of its kind and name.
pub proof fn the_last_declaration_counts(
    declarations: Seq<Declaration>,
    kind: ObjectKind,
    name: Seq<u8>,
    at: int,
)
    requires
        0 <= at <= declarations.len(),
        at < declarations.len() ==> declarations[at].kind == kind && declarations[at].folded@
            == folded(shown(name)),
        forall|i: int|
            #![trigger declarations[i]]
            0 <= i < declarations.len() && (at == declarations.len() || i > at) ==> !(
            declarations[i].kind == kind && declarations[i].folded@ == folded(shown(name))),
    ensures
        at < declarations.len() ==> declared_sql(declarations, kind, name) == Some(
            declarations[at].sql@,
        ),
        at == declarations.len() ==> declared_sql(declarations, kind, name) is None,
    decreases declarations.len(),
{
    if declarations.len() > 0 && at != declarations.len() - 1 {
        let fewer = declarations.drop_last();
        let last = declarations[declarations.len() - 1];
        assert(!(last.kind == kind && last.folded@ == folded(shown(name))));
        assert forall|i: int|
            #![trigger fewer[i]]
            0 <= i < fewer.len() && (at == declarations.len() || i > at) implies !(fewer[i].kind
            == kind && fewer[i].folded@ == folded(shown(name))) by {
            assert(fewer[i] == declarations[i]);
        }
        if at == declarations.len() {
            the_last_declaration_counts(fewer, kind, name, fewer.len() as int);
        } else {
            assert(fewer[at] == declarations[at]);
            the_last_declaration_counts(fewer, kind, name, at);
        }
    }
}

/// Every tree that is carried has its row of the catalog, after those before it: what it
/// is, its name and its table's, the statement that declares it, where its tree was built
/// and how great, and the identifier it had.
pub proof fn a_carried_tree_has_its_row(
    cargo: Cargo,
    tables: Seq<TableInfo>,
    declarations: Seq<Declaration>,
    trees: Seq<(int, Option<int>)>,
    built: Seq<(TreeShape, SourceLayout)>,
    upto: int,
    at: int,
)
    requires
        0 <= at < upto,
        cargo.identifiers.len() == cargo.entries.len(),
    ensures
        ({
            let all = with_trees(cargo, tables, declarations, trees, built, upto);
            let row = all.entries[cargo.entries.len() + at];
            let info = tables[trees[at].0];
            let shape = built[at].0;
            &&& all.entries.len() == cargo.entries.len() + upto
            &&& all.identifiers.len() == cargo.entries.len() + upto
            &&& all.skipped == cargo.skipped
            &&& row.table == info.name@
            &&& row.root == shape.root
            &&& row.stats.first_leaf == shape.first_leaf
            &&& row.stats.leaf_count == shape.leaf_count
            &&& row.stats.row_count == shape.row_count
            &&& trees[at].1 is None ==> row.kind is Table && row.name == info.name@ && row.sql
                == info.create_sql@ && row.tree_id == info.root
                    && all.identifiers[cargo.entries.len()
                + at] == info.root
            &&& trees[at].1 is Some ==> {
                let index = info.indexes@[trees[at].1->Some_0];
                &&& row.kind is Index
                &&& row.name == index.name@
                &&& row.tree_id == index.root
                &&& all.identifiers[cargo.entries.len() + at] == index.root
                &&& declared_sql(declarations, ObjectKind::Index, index.name@) is Some ==> row.sql
                    == declared_sql(declarations, ObjectKind::Index, index.name@)->Some_0
                &&& declared_sql(declarations, ObjectKind::Index, index.name@) is None
                    ==> row.sql.len() == 0
            }
        }),
    decreases upto,
{
    if at < upto - 1 {
        a_carried_tree_has_its_row(cargo, tables, declarations, trees, built, upto - 1, at);
    } else {
        carried_trees_count(cargo, tables, declarations, trees, built, upto - 1);
    }
}

/// As many rows are added as trees are carried.
proof fn carried_trees_count(
    cargo: Cargo,
    tables: Seq<TableInfo>,
    declarations: Seq<Declaration>,
    trees: Seq<(int, Option<int>)>,
    built: Seq<(TreeShape, SourceLayout)>,
    upto: int,
)
    requires
        0 <= upto,
        cargo.identifiers.len() == cargo.entries.len(),
    ensures
        ({
            let all = with_trees(cargo, tables, declarations, trees, built, upto);
            &&& all.entries.len() == cargo.entries.len() + upto
            &&& all.identifiers.len() == cargo.entries.len() + upto
            &&& all.skipped == cargo.skipped
        }),
    decreases upto,
{
    if upto > 0 {
        carried_trees_count(cargo, tables, declarations, trees, built, upto - 1);
    }
}

/// What one tree more adds: the layout it was built with and its shape, under its
/// identifier; the table, where it is a table's own; and an index that holds every row of
/// its table to those offered in the table's place.
pub proof fn a_tree_more_is_known_by_its_identifier(
    cargo: Cargo,
    tables: Seq<TableInfo>,
    declarations: Seq<Declaration>,
    table: int,
    index: Option<int>,
    built: (TreeShape, SourceLayout),
)
    ensures
        ({
            let after = with_tree(cargo, tables, declarations, (table, index), built);
            let info = tables[table];
            &&& index is None ==> after.tables == cargo.tables + seq![table] && after.covering
                == cargo.covering && after.layouts == cargo.layouts.insert(info.root, built.1)
                && after.shapes == cargo.shapes.insert(info.root, built.0)
            &&& index matches Some(at) ==> {
                let made = info.indexes@[at];
                &&& after.tables == cargo.tables
                &&& after.layouts == cargo.layouts.insert(made.root, built.1)
                &&& after.shapes == cargo.shapes.insert(made.root, built.0)
                &&& made.partial_sql is Some ==> after.covering == cargo.covering
                &&& made.partial_sql is None ==> after.covering == cargo.covering.insert(
                    info.root,
                    (if cargo.covering.contains_key(info.root) {
                        cargo.covering[info.root]
                    } else {
                        Seq::empty()
                    }) + seq![made.root],
                )
            }
        }),
{
    let after = with_tree(cargo, tables, declarations, (table, index), built);
    if index is None {
        assert(after.tables =~= cargo.tables + seq![table]);
    } else {
        let made = tables[table].indexes@[index->Some_0];
        let held = if cargo.covering.contains_key(tables[table].root) {
            cargo.covering[tables[table].root]
        } else {
            Seq::empty()
        };
        assert(held.push(made.root) =~= held + seq![made.root]);
    }
}

/// A view is carried with no tree, after the views before it, and nothing but a view is.
pub proof fn a_view_is_carried(cargo: Cargo, tables: Seq<TableInfo>, at: int)
    requires
        0 <= at < tables.len(),
    ensures
        ({
            let before = with_views(cargo, tables, at);
            let after = with_views(cargo, tables, at + 1);
            let row = after.entries.last();
            &&& with_views(cargo, tables, 0) == cargo
            &&& !(tables[at].kind is View) ==> after == before
            &&& tables[at].kind is View ==> {
                &&& after.tables == before.tables + seq![at]
                &&& after.entries.len() == before.entries.len() + 1
                &&& after.entries.drop_last() == before.entries
                &&& row.kind is View && row.name == tables[at].name@ && row.table
                    == tables[at].name@ && row.sql == tables[at].create_sql@
                &&& row.root == 0 && row.tree_id == 0 && row.stats.first_leaf == 0
                    && row.stats.leaf_count == 0 && row.stats.row_count == 0
                &&& after.identifiers == before.identifiers + seq![0u32]
                &&& after.skipped == before.skipped && after.layouts == before.layouts
                    && after.covering == before.covering && after.shapes == before.shapes
            }
        }),
{
    let before = with_views(cargo, tables, at);
    let after = with_views(cargo, tables, at + 1);
    if tables[at].kind is View {
        assert(after.tables =~= before.tables + seq![at]);
        assert(after.entries.drop_last() =~= before.entries);
        assert(after.identifiers =~= before.identifiers + seq![0u32]);
    }
}

/// A trigger is carried with the statement that declares it, and one that no statement
/// declares is named among what was left behind.
pub proof fn a_trigger_is_carried(
    cargo: Cargo,
    info: TableInfo,
    declarations: Seq<Declaration>,
    at: int,
)
    requires
        0 <= at < info.triggers@.len(),
    ensures
        ({
            let before = with_triggers_of(cargo, info, declarations, at);
            let after = with_triggers_of(cargo, info, declarations, at + 1);
            let name = info.triggers@[at]@;
            let sql = declared_sql(declarations, ObjectKind::Trigger, name);
            let row = after.entries.last();
            &&& with_triggers_of(cargo, info, declarations, 0) == cargo
            &&& sql is None ==> after.entries == before.entries && after.identifiers
                == before.identifiers && after.skipped == before.skipped + seq![shown(name)]
            &&& sql is Some ==> {
                &&& after.skipped == before.skipped
                &&& after.entries.len() == before.entries.len() + 1
                &&& after.entries.drop_last() == before.entries
                &&& row.kind is Trigger && row.name == name && row.table == info.name@ && row.sql
                    == sql->Some_0
                &&& row.root == 0 && row.tree_id == 0 && row.stats.first_leaf == 0
                    && row.stats.leaf_count == 0 && row.stats.row_count == 0
                &&& after.identifiers == before.identifiers + seq![0u32]
            }
            &&& after.tables == before.tables && after.layouts == before.layouts && after.covering
                == before.covering && after.shapes == before.shapes
        }),
{
    let before = with_triggers_of(cargo, info, declarations, at);
    let after = with_triggers_of(cargo, info, declarations, at + 1);
    let name = info.triggers@[at]@;
    match declared_sql(declarations, ObjectKind::Trigger, name) {
        Some(sql) => {
            assert(after.entries.drop_last() =~= before.entries);
            assert(after.identifiers =~= before.identifiers + seq![0u32]);
        },
        None => {
            assert(after.skipped =~= before.skipped + seq![shown(name)]);
        },
    }
}

/// The triggers of every table are carried, table by table.
pub proof fn every_tables_triggers_are_carried(
    cargo: Cargo,
    tables: Seq<TableInfo>,
    declarations: Seq<Declaration>,
    at: int,
)
    requires
        0 <= at < tables.len(),
    ensures
        with_triggers(cargo, tables, declarations, 0) == cargo,
        with_triggers(cargo, tables, declarations, at + 1) == with_triggers_of(
            with_triggers(cargo, tables, declarations, at),
            tables[at],
            declarations,
            tables[at].triggers@.len() as int,
        ),
{
}

/// Trees put by size are the same trees, and no later one is smaller; one of no known size
/// comes after any that has one.
pub proof fn smaller_trees_come_first(
    before: Seq<u32>,
    after: Seq<u32>,
    sizes: Map<u32, usize>,
    one: int,
    two: int,
)
    requires
        smallest_come_first(before, after, sizes),
        0 <= one < two < after.len(),
    ensures
        after.len() == before.len(),
        before.contains(after[one]),
        sizes.contains_key(after[one]) && sizes.contains_key(after[two]) ==> sizes[after[one]]
            <= sizes[after[two]],
        !sizes.contains_key(after[one]) && sizes.contains_key(after[two]) ==> sizes[after[two]]
            == usize::MAX,
{
    let places = choose|places: Seq<usize>| #[trigger]
        weighed(weights_of(before, sizes), places) && after == Seq::new(
            before.len(),
            |i: int| before[places[i] as int],
        );
    let weights = weights_of(before, sizes);
    assert(after[one] == before[places[one] as int]);
    assert(after[two] == before[places[two] as int]);
    assert(weights[places[one] as int] == weight_of(sizes, after[one]));
    assert(weights[places[two] as int] == weight_of(sizes, after[two]));
    assert(places[one] < weights.len() && places[two] < weights.len());
}

/// No tree is lost in putting them by size.
pub proof fn every_tree_is_kept_by_size(
    before: Seq<u32>,
    after: Seq<u32>,
    sizes: Map<u32, usize>,
)
    requires
        smallest_come_first(before, after, sizes),
    ensures
        after.to_multiset() == before.to_multiset(),
{
    let places = choose|places: Seq<usize>| #[trigger]
        weighed(weights_of(before, sizes), places) && after == Seq::new(
            before.len(),
            |i: int| before[places[i] as int],
        );
    let order = places.map_values(|place: usize| place as int);
    assert forall|i: int, j: int| 0 <= i < j < order.len() implies order[i] != order[j] by {
        assert(places[i] != places[j]);
    }
    assert forall|i: int| 0 <= i < order.len() implies 0 <= #[trigger] order[i] < before.len() by {
        assert(places[i] < weights_of(before, sizes).len());
    }
    arranging_keeps_the_rows(before, after, order);
}

} // verus!
