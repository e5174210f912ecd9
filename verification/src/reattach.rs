//! The catalog read again, and the trees its rows name found again.
//!
//! Undoing a `DROP` puts a row back into the catalog whose tree is no longer
//! attached. The row still says where the tree is and what shape it has, so the
//! tree can be attached as it was.

use std::collections::HashMap;
use std::collections::HashSet;

use vstd::prelude::*;

use crate::handles::handle_in;
use crate::import::lists_of;
use crate::rowshape::{
    covers_every_row, index_shape, keyed_table_shape, primary_key, shapes_index, shapes_keyed,
    shapes_table, table_shape,
};
use crate::schema::{
    ColumnSpec, IndexInfo, ObjectKind, Recorded, SchemaEntry, SourceLayout, TableInfo,
};
use crate::sessions::SessionState;
use crate::text::{fold, folded, same, same_folded, show, shown};

verus! {

broadcast use vstd::std_specs::hash::group_hash_axioms;

/// The handle of the tree a catalog row describes, zero when it has none.
pub open spec fn handle_or_zero(state: SessionState, at: int, tree_id: u64) -> u32 {
    match handle_in(state, at, tree_id) {
        Some(handle) => handle,
        None => 0,
    }
}

/// Returns catalog rows with the handles of the trees they describe.
pub fn recorded_rows(state: &SessionState, at: usize, stored: Vec<(i64, SchemaEntry)>) -> (rows: Vec<
    Recorded,
>)
    ensures
        rows@.len() == stored@.len(),
        forall|i: int|
            0 <= i < rows@.len() ==> {
                &&& (#[trigger] rows@[i]).rowid == stored@[i].0
                &&& rows@[i].entry == stored@[i].1
                &&& rows@[i].root == handle_or_zero(*state, at as int, stored@[i].1.tree_id)
            },
{
    let mut rows: Vec<Recorded> = Vec::with_capacity(stored.len());
    let ghost all = stored@;
    for pair in it: stored
        invariant
            it.seq() == all,
            rows@.len() == it.index(),
            forall|i: int|
                0 <= i < rows@.len() ==> {
                    &&& (#[trigger] rows@[i]).rowid == all[i].0
                    &&& rows@[i].entry == all[i].1
                    &&& rows@[i].root == handle_or_zero(*state, at as int, all[i].1.tree_id)
                },
    {
        let (rowid, entry) = pair;
        let root: u32 = match state.handle_of(at, entry.tree_id) {
            Some(handle) => handle,
            None => 0,
        };
        rows.push(Recorded { rowid, root, entry });
    }
    rows
}

/// The handle a catalog row's tree is to be attached under, when it has a tree
/// and the tree is not attached.
pub open spec fn wanting(
    state: SessionState,
    trees: Set<u32>,
    at: int,
    entry: SchemaEntry,
) -> Option<u32> {
    match handle_in(state, at, entry.tree_id) {
        Some(root) => if entry.tree_id != 0 && root != 0 && !trees.contains(root) {
            Some(root)
        } else {
            None
        },
        None => None,
    }
}

/// Returns the handle a catalog row's tree is to be attached under.
pub fn tree_wanted(
    state: &SessionState,
    trees: &HashSet<u32>,
    at: usize,
    entry: &SchemaEntry,
) -> (wanted: Option<u32>)
    ensures
        wanted == wanting(*state, trees@, at as int, *entry),
        entry.tree_id == 0 ==> wanted is None,
        wanted matches Some(root) ==> root != 0 && !trees@.contains(root),
        at == 0 && 0 < entry.tree_id <= u32::MAX ==> wanted == (if trees@.contains(
            entry.tree_id as u32,
        ) {
            None::<u32>
        } else {
            Some(entry.tree_id as u32)
        }),
        at >= 2 && at - 2 < state.attached@.len() && entry.tree_id != 0 ==> {
            let held = state.attached@[at - 2].handles@;
            &&& !held.contains_key(entry.tree_id) ==> wanted is None
            &&& held.contains_key(entry.tree_id) && held[entry.tree_id] != 0 && !trees@.contains(
                held[entry.tree_id],
            ) ==> wanted == Some(held[entry.tree_id])
            &&& held.contains_key(entry.tree_id) && trees@.contains(held[entry.tree_id])
                ==> wanted is None
        },
{
    if entry.tree_id == 0 {
        return None;
    }
    match state.handle_of(at, entry.tree_id) {
        Some(root) => if root != 0 && !trees.contains(&root) {
            Some(root)
        } else {
            None
        },
        None => None,
    }
}

/// Whether a catalog row declares the table of a name, in either case.
pub open spec fn declares_table(entry: SchemaEntry, name: Seq<u8>) -> bool {
    entry.kind is Table && folded(entry.name@) == folded(name)
}

/// Whether a catalog row is the first to declare the table of a name.
pub open spec fn first_to_declare(entries: Seq<Recorded>, name: Seq<u8>, at: int) -> bool {
    &&& 0 <= at < entries.len()
    &&& declares_table(entries[at].entry, name)
    &&& forall|i: int| 0 <= i < at ==> !declares_table((#[trigger] entries[i]).entry, name)
}

/// Returns which catalog row declares the table of a name.
pub fn table_declared(entries: &[Recorded], name: &[u8]) -> (found: Option<usize>)
    ensures
        match found {
            Some(at) => first_to_declare(entries@, name@, at as int),
            None => forall|i: int|
                0 <= i < entries@.len() ==> !declares_table((#[trigger] entries@[i]).entry, name@),
        },
        match found {
            Some(at) => at < entries@.len() && entries@[at as int].entry.kind is Table && folded(
                entries@[at as int].entry.name@,
            ) == folded(name@) && forall|i: int|
                0 <= i < at ==> !((#[trigger] entries@[i]).entry.kind is Table && folded(
                    entries@[i].entry.name@,
                ) == folded(name@)),
            None => forall|i: int|
                0 <= i < entries@.len() ==> !((#[trigger] entries@[i]).entry.kind is Table && folded(
                    entries@[i].entry.name@,
                ) == folded(name@)),
        },
{
    for at in 0..entries.len()
        invariant
            forall|i: int|
                0 <= i < at ==> !declares_table((#[trigger] entries@[i]).entry, name@),
            forall|i: int|
                0 <= i < at ==> !((#[trigger] entries@[i]).entry.kind is Table && folded(
                    entries@[i].entry.name@,
                ) == folded(name@)),
    {
        let table: bool = match entries[at].entry.kind {
            ObjectKind::Table => true,
            _ => false,
        };
        if table && same_folded(entries[at].entry.name.as_slice(), name) {
            return Some(at);
        }
    }
    None
}

/// Returns the handle of the table of a name, when a catalog row declares it and
/// it has one.
pub fn root_of_named(
    state: &SessionState,
    entries: &[Recorded],
    at: usize,
    name: &[u8],
) -> (root: Option<u32>)
    ensures
        match root {
            Some(root) => exists|i: int| #[trigger]
                first_to_declare(entries@, name@, i) && handle_in(
                    *state,
                    at as int,
                    entries@[i].entry.tree_id,
                ) == Some(root),
            None => forall|i: int| #[trigger]
                first_to_declare(entries@, name@, i) ==> handle_in(
                    *state,
                    at as int,
                    entries@[i].entry.tree_id,
                ) is None,
        },
{
    match table_declared(entries, name) {
        Some(which) => {
            assert forall|i: int| #[trigger] first_to_declare(entries@, name@, i) implies i
                == which by {
                if i < which {
                    assert(!declares_table(entries@[i].entry, name@));
                } else if i > which {
                    assert(!declares_table(entries@[which as int].entry, name@));
                }
            }
            state.handle_of(at, entries[which].entry.tree_id)
        },
        None => None,
    }
}

/// Whether an index is the first of a table's to have a folded name.
pub open spec fn first_index(table: TableInfo, name: Seq<u8>, at: int) -> bool {
    &&& 0 <= at < table.indexes@.len()
    &&& table.indexes@[at].folded@ == folded(name)
    &&& forall|i: int| 0 <= i < at ==> (#[trigger] table.indexes@[i]).folded@ != folded(name)
}

/// Whether a catalog row's index is one: an index with no statement of its own
/// is the one its table declares under that name, and any other is the one its
/// statement declares.
pub open spec fn index_of_row(
    entry: SchemaEntry,
    table: TableInfo,
    declared: Option<IndexInfo>,
    index: IndexInfo,
) -> bool {
    if entry.sql@.len() == 0 {
        exists|at: int| #[trigger] first_index(table, entry.name@, at) && table.indexes@[at]
            == index
    } else {
        declared == Some(index)
    }
}

/// Whether a shape is the one of the tree a catalog row describes.
pub open spec fn shape_of_row(
    entry: SchemaEntry,
    table: TableInfo,
    declared: Option<IndexInfo>,
    root: u32,
    columns: Seq<ColumnSpec>,
    key: int,
    layout: SourceLayout,
) -> bool {
    match entry.kind {
        ObjectKind::Table => if table.without_rowid {
            shapes_keyed(table, columns, key, layout)
        } else {
            shapes_table(table, columns, layout) && key == 1
        },
        ObjectKind::Index => key == columns.len() && exists|index: IndexInfo| #[trigger]
            index_of_row(entry, table, declared, index) && shapes_index(
                table,
                index,
                root,
                columns,
                layout,
            ),
        _ => false,
    }
}

/// Whether the tree a catalog row describes has a shape.
pub open spec fn has_shape(
    entry: SchemaEntry,
    table: Option<TableInfo>,
    declared: Option<IndexInfo>,
) -> bool {
    match table {
        None => false,
        Some(table) => match entry.kind {
            ObjectKind::Table => !table.without_rowid || primary_key(table).len() > 0,
            ObjectKind::Index => exists|index: IndexInfo| #[trigger]
                index_of_row(entry, table, declared, index),
            _ => false,
        },
    }
}

/// What a borrowed declaration is.
pub open spec fn lent<T>(held: Option<&T>) -> Option<T> {
    match held {
        Some(inside) => Some(*inside),
        None => None,
    }
}

/// Returns the shape of the tree a catalog row describes, from the table it
/// belongs to and the index its statement declares.
pub fn shape_of_entry(
    entry: &SchemaEntry,
    table: Option<&TableInfo>,
    declared: Option<&IndexInfo>,
    root: u32,
) -> (shape: Option<(Vec<ColumnSpec>, usize, SourceLayout)>)
    requires
        table matches Some(info) ==> info.columns@.len() < usize::MAX && (forall|i: int|
            0 <= i < info.indexes@.len() ==> (#[trigger] info.indexes@[i]).columns@.len()
                + info.columns@.len() < usize::MAX) && (declared matches Some(index)
            ==> index.columns@.len() + info.columns@.len() < usize::MAX),
    ensures
        shape is Some <==> has_shape(*entry, lent(table), lent(declared)),
        shape matches Some(made) ==> table matches Some(info) && shape_of_row(
            *entry,
            *info,
            lent(declared),
            root,
            made.0@,
            made.1 as int,
            made.2,
        ),
{
    let info = match table {
        Some(info) => info,
        None => return None,
    };
    match entry.kind {
        ObjectKind::Table => if info.without_rowid {
            match keyed_table_shape(info) {
                Ok(made) => Some(made),
                Err(_) => None,
            }
        } else {
            let (columns, layout) = table_shape(info);
            Some((columns, 1, layout))
        },
        ObjectKind::Index => {
            if entry.sql.len() == 0 {
                let wanted = fold(entry.name.as_slice());
                for at in 0..info.indexes.len()
                    invariant
                        wanted@ == folded(entry.name@),
                        entry.sql@.len() == 0,
                        entry.kind is Index,
                        lent(table) == Some(*info),
                        forall|i: int|
                            0 <= i < info.indexes@.len() ==> (
                            #[trigger] info.indexes@[i]).columns@.len() + info.columns@.len()
                                < usize::MAX,
                        forall|i: int|
                            0 <= i < at ==> (#[trigger] info.indexes@[i]).folded@ != folded(
                                entry.name@,
                            ),
                {
                    if same(info.indexes[at].folded.as_slice(), wanted.as_slice()) {
                        let (columns, layout) = index_shape(info, &info.indexes[at], root);
                        let key: usize = columns.len();
                        assert(first_index(*info, entry.name@, at as int));
                        assert(index_of_row(
                            *entry,
                            *info,
                            lent(declared),
                            info.indexes@[at as int],
                        ));
                        return Some((columns, key, layout));
                    }
                }
                return None;
            }
            match declared {
                Some(index) => {
                    let (columns, layout) = index_shape(info, index, root);
                    let key: usize = columns.len();
                    assert(index_of_row(*entry, *info, lent(declared), *index));
                    Some((columns, key, layout))
                },
                None => None,
            }
        },
        _ => None,
    }
}

/// Gives catalog rows the handles their trees were attached again under.
pub fn with_restored(rows: Vec<Recorded>, restored: &HashMap<i64, u32>) -> (given: Vec<Recorded>)
    ensures
        given@.len() == rows@.len(),
        forall|i: int|
            0 <= i < given@.len() ==> (#[trigger] given@[i]) == (Recorded {
                root: if restored@.contains_key(rows@[i].rowid) {
                    restored@[rows@[i].rowid]
                } else {
                    rows@[i].root
                },
                ..rows@[i]
            }),
{
    let mut given: Vec<Recorded> = Vec::with_capacity(rows.len());
    let ghost all = rows@;
    for row in it: rows
        invariant
            it.seq() == all,
            given@.len() == it.index(),
            forall|i: int|
                0 <= i < given@.len() ==> (#[trigger] given@[i]) == (Recorded {
                    root: if restored@.contains_key(all[i].rowid) {
                        restored@[all[i].rowid]
                    } else {
                        all[i].root
                    },
                    ..all[i]
                }),
    {
        let Recorded { rowid, root, entry } = row;
        let root: u32 = match restored.get(&rowid) {
            Some(root) => *root,
            None => root,
        };
        given.push(Recorded { rowid, root, entry });
    }
    given
}

/// The names of the catalog rows that have a tree nobody attached.
pub open spec fn lost(rows: Seq<Recorded>, trees: Set<u32>) -> Seq<Seq<u8>>
    decreases rows.len(),
{
    if rows.len() == 0 {
        Seq::empty()
    } else if rows.last().entry.tree_id != 0 && !trees.contains(rows.last().root) {
        lost(rows.drop_last(), trees).push(shown(rows.last().entry.name@))
    } else {
        lost(rows.drop_last(), trees)
    }
}

/// What each name of a list is.
pub open spec fn names_of(names: Seq<Vec<u8>>) -> Seq<Seq<u8>> {
    names.map_values(|name: Vec<u8>| name@)
}

/// Adds the names of the catalog rows that have a tree nobody attached.
pub fn note_missing(rows: &[Recorded], trees: &HashSet<u32>, missing: &mut Vec<Vec<u8>>)
    ensures
        names_of(final(missing)@) == names_of(old(missing)@) + lost(rows@, trees@),
{
    let ghost before = names_of(missing@);
    assert(before + lost(rows@.take(0), trees@) =~= before);
    for at in 0..rows.len()
        invariant
            names_of(missing@) =~= before + lost(rows@.take(at as int), trees@),
    {
        let ghost more = rows@.take(at + 1);
        assert(more.drop_last() =~= rows@.take(at as int));
        assert(more.last() == rows@[at as int]);
        if rows[at].entry.tree_id != 0 && !trees.contains(&rows[at].root) {
            let ghost so_far = missing@;
            missing.push(show(rows[at].entry.name.as_slice()));
            assert(names_of(missing@) =~= names_of(so_far).push(
                shown(rows@[at as int].entry.name@),
            ));
        }
    }
    assert(rows@.take(rows@.len() as int) =~= rows@);
}

/// The table and index of a catalog row whose tree was attached again and may
/// stand in for a scan of the table.
///
/// An index with no statement of its own has nothing to show that it is not
/// partial, and is not offered.
pub open spec fn offering(
    entry: SchemaEntry,
    restored: Option<u32>,
    table_root: Option<u32>,
    declared: Option<IndexInfo>,
) -> Option<(u32, u32)> {
    match (entry.kind, restored, table_root, declared) {
        (ObjectKind::Index, Some(index), Some(table), Some(declared)) => {
            if declared.partial_sql is None {
                Some((table, index))
            } else {
                None
            }
        },
        _ => None,
    }
}

/// Returns the table and index of a catalog row that may stand in for a scan.
pub fn offered(
    entry: &SchemaEntry,
    restored: Option<u32>,
    table_root: Option<u32>,
    declared: Option<&IndexInfo>,
) -> (offered: Option<(u32, u32)>)
    ensures
        offered == offering(*entry, restored, table_root, lent(declared)),
        offered is Some <==> entry.kind is Index && restored is Some && table_root is Some
            && declared is Some && declared->Some_0.partial_sql is None,
        offered is Some ==> offered->Some_0 == (table_root->Some_0, restored->Some_0),
{
    match (entry.kind, restored, table_root, declared) {
        (ObjectKind::Index, Some(index), Some(table), Some(declared)) => {
            if covers_every_row(declared) {
                Some((table, index))
            } else {
                None
            }
        },
        _ => None,
    }
}

/// Offers an index as a stand-in for a scan of its table, once.
pub fn offer(candidates: &mut Vec<u32>, index: u32)
    ensures
        final(candidates)@ == if old(candidates)@.contains(index) {
            old(candidates)@
        } else {
            old(candidates)@.push(index)
        },
{
    for at in 0..candidates.len()
        invariant
            candidates@ == old(candidates)@,
            forall|i: int| 0 <= i < at ==> candidates@[i] != index,
    {
        if candidates[at] == index {
            assert(candidates@.contains(index));
            return;
        }
    }
    candidates.push(index);
}

/// What the statement of a catalog row declares.
#[derive(Debug)]
pub struct Declares {
    /// The table it belongs to, when that table's declaration could be read.
    pub table: Option<TableInfo>,
    /// The index its own statement declares.
    pub index: Option<IndexInfo>,
}

/// Whether the trees catalog rows describe are narrow enough to be attached.
pub open spec fn narrow(declared: Seq<Declares>) -> bool {
    forall|i: int|
        0 <= i < declared.len() ==> match (#[trigger] declared[i]).table {
            Some(info) => {
                &&& info.columns@.len() < usize::MAX
                &&& forall|at: int|
                    0 <= at < info.indexes@.len() ==> (#[trigger] info.indexes@[at]).columns@.len()
                        + info.columns@.len() < usize::MAX
                &&& declared[i].index matches Some(index) ==> index.columns@.len()
                    + info.columns@.len() < usize::MAX
            },
            None => true,
        }
}

/// A tree to be attached again, and how it is read.
#[derive(Debug)]
pub struct Attachment {
    /// The catalog row that describes it, by its place.
    pub row: usize,
    /// The handle it is attached under.
    pub root: u32,
    /// Its columns.
    pub columns: Vec<ColumnSpec>,
    /// How many of them are its key.
    pub key_columns: usize,
    /// How its columns map onto a record.
    pub layout: SourceLayout,
}

/// The handles of some trees that were attached again.
pub open spec fn handles_among(pairs: Seq<(int, u32)>) -> Set<u32> {
    Set::new(|root: u32| exists|i: int| 0 <= i < pairs.len() && (#[trigger] pairs[i]).1 == root)
}

/// The rows among the first of a catalog whose trees are attached again, and the
/// handles they are attached under.
///
/// A tree that two rows describe is attached for the first.
pub open spec fn attached_again(
    state: SessionState,
    trees: Set<u32>,
    at: int,
    entries: Seq<Recorded>,
    declared: Seq<Declares>,
    upto: int,
) -> Seq<(int, u32)>
    decreases upto,
{
    if upto <= 0 {
        Seq::empty()
    } else {
        let before = attached_again(state, trees, at, entries, declared, upto - 1);
        let entry = entries[upto - 1].entry;
        match wanting(state, trees.union(handles_among(before)), at, entry) {
            Some(root) => if has_shape(
                entry,
                declared[upto - 1].table,
                declared[upto - 1].index,
            ) {
                before.push((upto - 1, root))
            } else {
                before
            },
            None => before,
        }
    }
}

/// The row and the handle of each attachment.
pub open spec fn places_of(attachments: Seq<Attachment>) -> Seq<(int, u32)> {
    attachments.map_values(|tree: Attachment| (tree.row as int, tree.root))
}

/// Whether an attachment has the shape its catalog row describes.
pub open spec fn is_shaped(
    entries: Seq<Recorded>,
    declared: Seq<Declares>,
    tree: Attachment,
) -> bool {
    &&& tree.row < entries.len()
    &&& declared[tree.row as int].table matches Some(info)
    &&& shape_of_row(
        entries[tree.row as int].entry,
        info,
        declared[tree.row as int].index,
        tree.root,
        tree.columns@,
        tree.key_columns as int,
        tree.layout,
    )
}

/// One more handle among others.
proof fn one_more_handle(pairs: Seq<(int, u32)>, more: (int, u32))
    ensures
        handles_among(pairs.push(more)) == handles_among(pairs).insert(more.1),
{
    let all = pairs.push(more);
    assert forall|root: u32| handles_among(all).contains(root) <==> handles_among(pairs).insert(
        more.1,
    ).contains(root) by {
        if handles_among(all).contains(root) {
            let i = choose|i: int| 0 <= i < all.len() && (#[trigger] all[i]).1 == root;
            if i < pairs.len() {
                assert(pairs[i].1 == root);
            }
        }
        if handles_among(pairs).contains(root) {
            let i = choose|i: int| 0 <= i < pairs.len() && (#[trigger] pairs[i]).1 == root;
            assert(all[i].1 == root);
        }
        if root == more.1 {
            assert(all[pairs.len() as int].1 == root);
        }
    }
    assert(handles_among(all) =~= handles_among(pairs).insert(more.1));
}

/// What is attached again for the first rows stays attached for more of them.
proof fn attachments_stay(
    state: SessionState,
    trees: Set<u32>,
    at: int,
    entries: Seq<Recorded>,
    declared: Seq<Declares>,
    few: int,
    more: int,
)
    requires
        few <= more,
    ensures
        handles_among(attached_again(state, trees, at, entries, declared, few)).subset_of(
            handles_among(attached_again(state, trees, at, entries, declared, more)),
        ),
    decreases more,
{
    if few < more && more > 0 {
        attachments_stay(state, trees, at, entries, declared, few, more - 1);
        let before = attached_again(state, trees, at, entries, declared, more - 1);
        let after = attached_again(state, trees, at, entries, declared, more);
        if after != before {
            one_more_handle(before, after.last());
            assert(after =~= before.push(after.last()));
        }
    }
}

/// No tree is attached twice: once a catalog's trees were attached again, reading
/// the same catalog attaches none.
pub proof fn nothing_is_attached_twice(
    state: SessionState,
    trees: Set<u32>,
    at: int,
    entries: Seq<Recorded>,
    declared: Seq<Declares>,
    upto: int,
)
    requires
        0 <= upto <= entries.len(),
    ensures
        ({
            let all = entries.len() as int;
            let first = attached_again(state, trees, at, entries, declared, all);
            attached_again(
                state,
                trees.union(handles_among(first)),
                at,
                entries,
                declared,
                upto,
            ) == Seq::<(int, u32)>::empty()
        }),
    decreases upto,
{
    if upto > 0 {
        nothing_is_attached_twice(state, trees, at, entries, declared, upto - 1);
        let all = entries.len() as int;
        let first = attached_again(state, trees, at, entries, declared, all);
        let then = trees.union(handles_among(first));
        let entry = entries[upto - 1].entry;
        let none = Seq::<(int, u32)>::empty();
        assert(then.union(handles_among(none)) =~= then);
        if wanting(state, then, at, entry) is Some && has_shape(
            entry,
            declared[upto - 1].table,
            declared[upto - 1].index,
        ) {
            let root = wanting(state, then, at, entry)->Some_0;
            let before = attached_again(state, trees, at, entries, declared, upto - 1);
            attachments_stay(state, trees, at, entries, declared, upto - 1, all);
            attachments_stay(state, trees, at, entries, declared, upto, all);
            assert(!trees.union(handles_among(before)).contains(root));
            let after = attached_again(state, trees, at, entries, declared, upto);
            assert(after == before.push((upto - 1, root)));
            one_more_handle(before, (upto - 1, root));
            assert(handles_among(after).contains(root));
            assert(false);
        }
    }
}

/// Returns the trees of a schema that are to be attached again, in the order of
/// the catalog, and counts them among those that are attached.
///
/// A row whose tree is attached, or that has none, is passed over, and so is one
/// that says too little to give its tree a shape.
pub fn reattach_entries(
    state: &SessionState,
    trees: &mut HashSet<u32>,
    at: usize,
    entries: &[Recorded],
    declared: &[Declares],
) -> (attachments: Vec<Attachment>)
    requires
        entries@.len() == declared@.len(),
        narrow(declared@),
    ensures
        places_of(attachments@) == attached_again(
            *state,
            old(trees)@,
            at as int,
            entries@,
            declared@,
            entries@.len() as int,
        ),
        forall|i: int|
            0 <= i < attachments@.len() ==> is_shaped(
                entries@,
                declared@,
                #[trigger] attachments@[i],
            ),
        final(trees)@ == old(trees)@.union(handles_among(places_of(attachments@))),
{
    let ghost held = trees@;
    let mut attachments: Vec<Attachment> = Vec::new();
    assert(held.union(handles_among(places_of(attachments@))) =~= held);
    for row in 0..entries.len()
        invariant
            entries@.len() == declared@.len(),
            narrow(declared@),
            places_of(attachments@) =~= attached_again(
                *state,
                held,
                at as int,
                entries@,
                declared@,
                row as int,
            ),
            forall|i: int|
                0 <= i < attachments@.len() ==> is_shaped(
                    entries@,
                    declared@,
                    #[trigger] attachments@[i],
                ),
            trees@ == held.union(handles_among(places_of(attachments@))),
    {
        let ghost before = attachments@;
        assert(match declared@[row as int].table {
            Some(info) => info.columns@.len() < usize::MAX,
            None => true,
        });
        let entry: &SchemaEntry = &entries[row].entry;
        if let Some(root) = tree_wanted(state, trees, at, entry) {
            let table: Option<&TableInfo> = declared[row].table.as_ref();
            let index: Option<&IndexInfo> = declared[row].index.as_ref();
            if let Some((columns, key_columns, layout)) = shape_of_entry(
                entry,
                table,
                index,
                root,
            ) {
                trees.insert(root);
                attachments.push(Attachment { row, root, columns, key_columns, layout });
                proof {
                    assert(places_of(attachments@) =~= places_of(before).push((row as int, root)));
                    one_more_handle(places_of(before), (row as int, root));
                    assert(trees@ =~= held.union(handles_among(places_of(attachments@))));
                }
            }
        }
    }
    attachments
}

/// The handle of the table of a name, when a catalog row declares it and it has
/// one.
pub open spec fn root_named(
    state: SessionState,
    entries: Seq<Recorded>,
    at: int,
    name: Seq<u8>,
) -> Option<u32> {
    if exists|i: int| first_to_declare(entries, name, i) {
        handle_in(
            state,
            at,
            entries[choose|i: int| first_to_declare(entries, name, i)].entry.tree_id,
        )
    } else {
        None
    }
}

/// Only one row is the first to declare a table.
proof fn one_is_first(entries: Seq<Recorded>, name: Seq<u8>, one: int, two: int)
    requires
        first_to_declare(entries, name, one),
        first_to_declare(entries, name, two),
    ensures
        one == two,
{
    if one < two {
        assert(!declares_table(entries[one].entry, name));
    } else if two < one {
        assert(!declares_table(entries[two].entry, name));
    }
}

/// The handle a row's tree was attached again under, when it was.
pub open spec fn restored_at(pairs: Seq<(int, u32)>, row: int) -> Option<u32>
    decreases pairs.len(),
{
    if pairs.len() == 0 {
        None
    } else if pairs.last().0 == row {
        Some(pairs.last().1)
    } else {
        restored_at(pairs.drop_last(), row)
    }
}

/// The lists of covering indexes with one more offered, once.
pub open spec fn with_offer(covering: Map<u32, Seq<u32>>, link: Option<(u32, u32)>) -> Map<
    u32,
    Seq<u32>,
> {
    match link {
        None => covering,
        Some((table, index)) => {
            let held = if covering.contains_key(table) {
                covering[table]
            } else {
                Seq::empty()
            };
            covering.insert(
                table,
                if held.contains(index) {
                    held
                } else {
                    held.push(index)
                },
            )
        },
    }
}

/// The lists of covering indexes once the first of a catalog's rows have offered
/// the trees that were attached again.
pub open spec fn rejoined(
    covering: Map<u32, Seq<u32>>,
    state: SessionState,
    at: int,
    entries: Seq<Recorded>,
    declared: Seq<Declares>,
    pairs: Seq<(int, u32)>,
    upto: int,
) -> Map<u32, Seq<u32>>
    decreases upto,
{
    if upto <= 0 {
        covering
    } else {
        with_offer(
            rejoined(covering, state, at, entries, declared, pairs, upto - 1),
            offering(
                entries[upto - 1].entry,
                restored_at(pairs, upto - 1),
                root_named(state, entries, at, entries[upto - 1].entry.table@),
                declared[upto - 1].index,
            ),
        )
    }
}

/// Returns the handle a row's tree was attached again under.
fn find_restored(attachments: &[Attachment], row: usize) -> (root: Option<u32>)
    ensures
        root == restored_at(places_of(attachments@), row as int),
{
    let ghost all = places_of(attachments@);
    let mut at: usize = attachments.len();
    assert(all.take(all.len() as int) =~= all);
    while at > 0
        invariant
            at <= attachments@.len(),
            all == places_of(attachments@),
            restored_at(all, row as int) == restored_at(all.take(at as int), row as int),
        decreases at,
    {
        let ghost some = all.take(at as int);
        at = at - 1;
        assert(some.last() == all[at as int]);
        assert(some.drop_last() =~= all.take(at as int));
        if attachments[at].row == row {
            return Some(attachments[at].root);
        }
    }
    None
}

/// Offers the indexes whose trees were attached again as stand-ins for scans of
/// their tables, each on the terms it was one before.
pub fn rejoin_covering(
    covering: &mut HashMap<u32, Vec<u32>>,
    state: &SessionState,
    at: usize,
    entries: &[Recorded],
    declared: &[Declares],
    attachments: &[Attachment],
)
    requires
        entries@.len() == declared@.len(),
    ensures
        lists_of(final(covering)@) == rejoined(
            lists_of(old(covering)@),
            *state,
            at as int,
            entries@,
            declared@,
            places_of(attachments@),
            entries@.len() as int,
        ),
{
    let ghost before = lists_of(covering@);
    for row in 0..entries.len()
        invariant
            entries@.len() == declared@.len(),
            lists_of(covering@) =~= rejoined(
                before,
                *state,
                at as int,
                entries@,
                declared@,
                places_of(attachments@),
                row as int,
            ),
    {
        let ghost so_far = lists_of(covering@);
        let entry: &SchemaEntry = &entries[row].entry;
        let restored: Option<u32> = find_restored(attachments, row);
        let name: &[u8] = entry.table.as_slice();
        let table_root: Option<u32> = root_of_named(state, entries, at, name);
        proof {
            if exists|i: int| first_to_declare(entries@, name@, i) {
                let chosen = choose|i: int| first_to_declare(entries@, name@, i);
                assert forall|i: int| #[trigger] first_to_declare(entries@, name@, i) implies i
                    == chosen by {
                    one_is_first(entries@, name@, i, chosen);
                }
                assert(first_to_declare(entries@, name@, chosen));
            }
            assert(table_root == root_named(*state, entries@, at as int, name@));
        }
        let link: Option<(u32, u32)> = offered(
            entry,
            restored,
            table_root,
            declared[row].index.as_ref(),
        );
        if let Some((table, index)) = link {
            let mut list: Vec<u32> = match covering.remove(&table) {
                Some(list) => list,
                None => Vec::new(),
            };
            offer(&mut list, index);
            let ghost held = list@;
            covering.insert(table, list);
            assert(lists_of(covering@) =~= so_far.insert(table, held));
        }
        assert(lists_of(covering@) =~= with_offer(so_far, link));
    }
}

/// A row has a shape where its table is there: a table's own, with a rowid or some column
/// in its key; an index's, where its own statement declares it, or where it has none and
/// its table declares one of its name. No other row has one.
pub proof fn a_row_has_its_declarations_shape(
    entry: SchemaEntry,
    table: Option<TableInfo>,
    declared: Option<IndexInfo>,
)
    ensures
        table is None ==> !has_shape(entry, table, declared),
        entry.kind is View || entry.kind is Trigger ==> !has_shape(entry, table, declared),
        entry.kind is Table && table is Some ==> (has_shape(entry, table, declared)
            <==> !table->Some_0.without_rowid || exists|column: int|
            0 <= column < table->Some_0.columns@.len() && (
            #[trigger] table->Some_0.columns@[column]).primary_key_position is Some),
        entry.kind is Index && table is Some && entry.sql@.len() > 0 ==> (has_shape(
            entry,
            table,
            declared,
        ) <==> declared is Some),
        entry.kind is Index && table is Some && entry.sql@.len() == 0 ==> (has_shape(
            entry,
            table,
            declared,
        ) <==> exists|i: int|
            0 <= i < table->Some_0.indexes@.len() && (
            #[trigger] table->Some_0.indexes@[i]).folded@ == folded(entry.name@)),
{
    if table is Some {
        let info = table->Some_0;
        if entry.kind is Table && info.without_rowid {
            let key = primary_key(info);
            if key.len() > 0 {
                crate::rowshape::a_key_holds_its_columns(info, info.columns@.len() as int);
                let keyed = crate::rowshape::keyed_columns(info, info.columns@.len() as int);
                assert(keyed.contains(keyed[0]));
                assert(info.columns@[keyed[0].1].primary_key_position is Some);
            }
            if exists|column: int|
                0 <= column < info.columns@.len() && (
                #[trigger] info.columns@[column]).primary_key_position is Some {
                let column = choose|column: int|
                    0 <= column < info.columns@.len() && (
                    #[trigger] info.columns@[column]).primary_key_position is Some;
                crate::rowshape::a_key_has_every_column(info, column);
                assert(key.contains(column));
            }
        }
        if entry.kind is Index {
            if entry.sql@.len() > 0 {
                if declared is Some {
                    assert(index_of_row(entry, info, declared, declared->Some_0));
                }
            } else if exists|i: int|
                0 <= i < info.indexes@.len() && (#[trigger] info.indexes@[i]).folded@ == folded(
                    entry.name@,
                ) {
                let i = choose|i: int|
                    0 <= i < info.indexes@.len() && (#[trigger] info.indexes@[i]).folded@ == folded(
                        entry.name@,
                    );
                let first = first_of_its_name(info, entry.name@, i);
                assert(index_of_row(entry, info, declared, info.indexes@[first]));
            }
        }
    }
}

/// Where one index of a name is, there is a first.
proof fn first_of_its_name(info: TableInfo, name: Seq<u8>, at: int) -> (first: int)
    requires
        0 <= at < info.indexes@.len(),
        info.indexes@[at].folded@ == folded(name),
    ensures
        first_index(info, name, first),
    decreases at,
{
    if forall|i: int| 0 <= i < at ==> (#[trigger] info.indexes@[i]).folded@ != folded(name) {
        at
    } else {
        let i = choose|i: int|
            0 <= i < at && (#[trigger] info.indexes@[i]).folded@ == folded(name);
        first_of_its_name(info, name, i)
    }
}

/// The index of a row with a statement is the one declared, and of a row without one the
/// first its table declares by its name.
pub proof fn a_rows_index_is_the_one_of_its_name(
    entry: SchemaEntry,
    table: TableInfo,
    declared: Option<IndexInfo>,
    index: IndexInfo,
    at: int,
)
    ensures
        entry.sql@.len() > 0 ==> (index_of_row(entry, table, declared, index) <==> declared == Some(
            index,
        )),
        entry.sql@.len() == 0 && 0 <= at < table.indexes@.len() && table.indexes@[at].folded@
            == folded(entry.name@) && (forall|i: int|
            0 <= i < at ==> (#[trigger] table.indexes@[i]).folded@ != folded(entry.name@)) ==> (
        index_of_row(entry, table, declared, index) <==> index == table.indexes@[at]),
{
    if entry.sql@.len() == 0 && 0 <= at < table.indexes@.len() && table.indexes@[at].folded@
        == folded(entry.name@) && (forall|i: int|
        0 <= i < at ==> (#[trigger] table.indexes@[i]).folded@ != folded(entry.name@)) {
        assert(first_index(table, entry.name@, at));
        if index_of_row(entry, table, declared, index) {
            let other = choose|other: int| #[trigger]
                first_index(table, entry.name@, other) && table.indexes@[other] == index;
            if other < at {
                assert(table.indexes@[other].folded@ != folded(entry.name@));
            } else if other > at {
                assert(table.indexes@[at].folded@ != folded(entry.name@));
            }
        }
    }
}

/// The rows whose trees are missing are named in their order: those that have a tree which
/// is not among those attached, and no others.
pub proof fn a_missing_tree_is_named(
    before: Seq<Recorded>,
    row: Recorded,
    after: Seq<Recorded>,
    trees: Set<u32>,
)
    ensures
        lost(Seq::empty(), trees).len() == 0,
        row.entry.tree_id != 0 && !trees.contains(row.root) ==> lost(before.push(row) + after, trees)
            == lost(before, trees) + seq![shown(row.entry.name@)] + lost(after, trees),
        row.entry.tree_id == 0 || trees.contains(row.root) ==> lost(before.push(row) + after, trees)
            == lost(before, trees) + lost(after, trees),
    decreases after.len(),
{
    let first = before.push(row);
    if after.len() == 0 {
        assert(first + after =~= first);
        assert(first.drop_last() =~= before);
        assert(lost(before, trees) + lost(after, trees) =~= lost(before, trees));
        if row.entry.tree_id != 0 && !trees.contains(row.root) {
            assert(lost(first, trees) =~= lost(before, trees) + seq![shown(row.entry.name@)]
                + lost(after, trees));
        }
    } else {
        let whole = first + after;
        assert(whole.drop_last() =~= first + after.drop_last());
        assert(whole.last() == after.last());
        a_missing_tree_is_named(before, row, after.drop_last(), trees);
        if row.entry.tree_id != 0 && !trees.contains(row.root) {
            assert(lost(whole, trees) =~= lost(before, trees) + seq![shown(row.entry.name@)]
                + lost(after, trees));
        } else {
            assert(lost(whole, trees) =~= lost(before, trees) + lost(after, trees));
        }
    }
}

/// What is attached again is what was missing: a tree of a row of the catalog that has
/// one, that no tree attached before is, and whose shape the row's declaration gives. The
/// trees come in the order of their rows.
pub proof fn only_missing_trees_are_attached(
    state: SessionState,
    trees: Set<u32>,
    at: int,
    entries: Seq<Recorded>,
    declared: Seq<Declares>,
    upto: int,
    one: int,
    two: int,
)
    requires
        0 <= upto <= entries.len(),
        0 <= one <= two < attached_again(state, trees, at, entries, declared, upto).len(),
    ensures
        ({
            let (row, root) = attached_again(state, trees, at, entries, declared, upto)[one];
            let (later, other) = attached_again(state, trees, at, entries, declared, upto)[two];
            &&& 0 <= row < upto
            &&& 0 <= later < upto
            &&& entries[row].entry.tree_id != 0
            &&& root != 0
            &&& !trees.contains(root)
            &&& handle_in(state, at, entries[row].entry.tree_id) == Some(root)
            &&& has_shape(entries[row].entry, declared[row].table, declared[row].index)
            &&& one < two ==> row < later && root != other
        }),
    decreases upto,
{
    if upto > 0 {
        let before = attached_again(state, trees, at, entries, declared, upto - 1);
        if two < before.len() {
            only_missing_trees_are_attached(
                state,
                trees,
                at,
                entries,
                declared,
                upto - 1,
                one,
                two,
            );
        } else if one < before.len() {
            only_missing_trees_are_attached(
                state,
                trees,
                at,
                entries,
                declared,
                upto - 1,
                one,
                one,
            );
            assert(handles_among(before).contains(before[one].1));
        }
    }
}

/// Every missing tree whose shape is known is attached.
pub proof fn every_missing_tree_is_attached(
    state: SessionState,
    trees: Set<u32>,
    at: int,
    entries: Seq<Recorded>,
    declared: Seq<Declares>,
    row: int,
    root: u32,
)
    requires
        0 <= row < entries.len(),
        entries[row].entry.tree_id != 0,
        root != 0,
        !trees.contains(root),
        handle_in(state, at, entries[row].entry.tree_id) == Some(root),
        has_shape(entries[row].entry, declared[row].table, declared[row].index),
    ensures
        exists|i: int|
            0 <= i < attached_again(
                state,
                trees,
                at,
                entries,
                declared,
                entries.len() as int,
            ).len() && (#[trigger] attached_again(
                state,
                trees,
                at,
                entries,
                declared,
                entries.len() as int,
            )[i]).1 == root,
{
    let before = attached_again(state, trees, at, entries, declared, row);
    let now = attached_again(state, trees, at, entries, declared, row + 1);
    attachments_stay(state, trees, at, entries, declared, row, entries.len() as int);
    attachments_stay(state, trees, at, entries, declared, row + 1, entries.len() as int);
    if !handles_among(before).contains(root) {
        assert(now == before.push((row, root)));
        assert(now[before.len() as int].1 == root);
        assert(handles_among(now).contains(root));
    }
    assert(handles_among(
        attached_again(state, trees, at, entries, declared, entries.len() as int),
    ).contains(root));
}

/// An index offered in its table's place is offered once, after those offered before, and
/// what other tables are offered stays.
pub proof fn an_offer_is_made_once(
    covering: Map<u32, Seq<u32>>,
    table: u32,
    index: u32,
    other: u32,
)
    ensures
        with_offer(covering, None) == covering,
        ({
            let after = with_offer(covering, Some((table, index)));
            let held = if covering.contains_key(table) {
                covering[table]
            } else {
                Seq::empty()
            };
            &&& after.contains_key(table)
            &&& after[table].contains(index)
            &&& held.contains(index) ==> after[table] == held
            &&& !held.contains(index) ==> after[table] == held + seq![index]
            &&& other != table ==> after.contains_key(other) == covering.contains_key(other)
                && after[other] == covering[other]
            &&& with_offer(after, Some((table, index))) == after
        }),
{
    let after = with_offer(covering, Some((table, index)));
    let held = if covering.contains_key(table) {
        covering[table]
    } else {
        Seq::empty()
    };
    if !held.contains(index) {
        assert(held.push(index)[held.len() as int] == index);
        assert(held.push(index) =~= held + seq![index]);
    }
    assert(with_offer(after, Some((table, index))) =~= after);
}

/// A row's tree is the one attached last for it.
pub proof fn a_row_is_restored_to_its_tree(pairs: Seq<(int, u32)>, row: int, at: int)
    requires
        0 <= at <= pairs.len(),
        at < pairs.len() ==> pairs[at].0 == row,
        forall|i: int|
            #![trigger pairs[i]]
            0 <= i < pairs.len() && (at == pairs.len() || i > at) ==> pairs[i].0 != row,
    ensures
        at < pairs.len() ==> restored_at(pairs, row) == Some(pairs[at].1),
        at == pairs.len() ==> restored_at(pairs, row) is None,
    decreases pairs.len(),
{
    if pairs.len() > 0 && at != pairs.len() - 1 {
        let fewer = pairs.drop_last();
        assert(pairs[pairs.len() - 1].0 != row);
        assert forall|i: int|
            #![trigger fewer[i]]
            0 <= i < fewer.len() && (at == pairs.len() || i > at) implies fewer[i].0 != row by {
            assert(fewer[i] == pairs[i]);
        }
        if at == pairs.len() {
            a_row_is_restored_to_its_tree(fewer, row, fewer.len() as int);
        } else {
            assert(fewer[at] == pairs[at]);
            a_row_is_restored_to_its_tree(fewer, row, at);
        }
    }
}

/// A row's tree is shaped by what the row is: a table's by its columns, with the row
/// number alone for a key where it has one; an index's by its columns, every one of them
/// in the key. Nothing else has a shape.
pub proof fn a_restored_tree_is_as_declared(
    entry: SchemaEntry,
    table: TableInfo,
    declared: Option<IndexInfo>,
    root: u32,
    columns: Seq<ColumnSpec>,
    key: int,
    layout: SourceLayout,
    index: IndexInfo,
)
    requires
        shape_of_row(entry, table, declared, root, columns, key, layout),
    ensures
        entry.kind is Table || entry.kind is Index,
        entry.kind is Table && !table.without_rowid ==> key == 1 && shapes_table(
            table,
            columns,
            layout,
        ),
        entry.kind is Table && table.without_rowid ==> shapes_keyed(table, columns, key, layout),
        entry.kind is Index ==> key == columns.len(),
        entry.kind is Index && entry.sql@.len() > 0 && declared == Some(index) ==> shapes_index(
            table,
            index,
            root,
            columns,
            layout,
        ),
{
}

/// What was offered in the place of a table stays, in its order and before what comes
/// again.
pub proof fn earlier_offers_stay(
    covering: Map<u32, Seq<u32>>,
    state: SessionState,
    at: int,
    entries: Seq<Recorded>,
    declared: Seq<Declares>,
    pairs: Seq<(int, u32)>,
    upto: int,
    table: u32,
)
    requires
        covering.contains_key(table),
    ensures
        ({
            let after = rejoined(covering, state, at, entries, declared, pairs, upto);
            &&& after.contains_key(table)
            &&& covering[table].len() <= after[table].len()
            &&& forall|i: int|
                0 <= i < covering[table].len() ==> #[trigger] after[table][i] == covering[table][i]
        }),
    decreases upto,
{
    if upto > 0 {
        earlier_offers_stay(covering, state, at, entries, declared, pairs, upto - 1, table);
    }
}

/// An index that holds every row of its table, and whose tree is attached again, is
/// offered again in the place of the tree of the first table of that name.
pub proof fn a_restored_index_is_offered(
    covering: Map<u32, Seq<u32>>,
    state: SessionState,
    at: int,
    entries: Seq<Recorded>,
    declared: Seq<Declares>,
    pairs: Seq<(int, u32)>,
    upto: int,
    row: int,
    owner: int,
    table: u32,
    index: u32,
)
    requires
        0 <= row < upto <= entries.len(),
        entries[row].entry.kind is Index,
        restored_at(pairs, row) == Some(index),
        declared[row].index is Some,
        declared[row].index->Some_0.partial_sql is None,
        first_to_declare(entries, entries[row].entry.table@, owner),
        handle_in(state, at, entries[owner].entry.tree_id) == Some(table),
    ensures
        ({
            let after = rejoined(covering, state, at, entries, declared, pairs, upto);
            after.contains_key(table) && after[table].contains(index)
        }),
    decreases upto,
{
    let before = rejoined(covering, state, at, entries, declared, pairs, upto - 1);
    let name = entries[row].entry.table@;
    let chosen = choose|i: int| first_to_declare(entries, name, i);
    one_is_first(entries, name, owner, chosen);
    let link = offering(
        entries[upto - 1].entry,
        restored_at(pairs, upto - 1),
        root_named(state, entries, at, entries[upto - 1].entry.table@),
        declared[upto - 1].index,
    );
    if row == upto - 1 {
        assert(link == Some((table, index)));
        an_offer_is_made_once(before, table, index, table);
    } else {
        a_restored_index_is_offered(
            covering,
            state,
            at,
            entries,
            declared,
            pairs,
            upto - 1,
            row,
            owner,
            table,
            index,
        );
        if link is Some {
            an_offer_is_made_once(before, link->Some_0.0, link->Some_0.1, table);
            let i = before[table].index_of(index);
            if link->Some_0.0 == table {
                let after = with_offer(before, link);
                assert(after[table][i] == index);
            }
        }
    }
}

/// Nothing else is offered: what was not offered before is an index that holds every row
/// of its table, whose tree is attached again, and the tree is that of its table.
pub proof fn only_restored_indexes_are_offered(
    covering: Map<u32, Seq<u32>>,
    state: SessionState,
    at: int,
    entries: Seq<Recorded>,
    declared: Seq<Declares>,
    pairs: Seq<(int, u32)>,
    upto: int,
    table: u32,
    index: u32,
) -> (found: (int, int))
    requires
        upto <= entries.len(),
        rejoined(covering, state, at, entries, declared, pairs, upto).contains_key(table),
        rejoined(covering, state, at, entries, declared, pairs, upto)[table].contains(index),
        !(covering.contains_key(table) && covering[table].contains(index)),
    ensures
        ({
            let (row, owner) = found;
            &&& 0 <= row < upto
            &&& entries[row].entry.kind is Index
            &&& restored_at(pairs, row) == Some(index)
            &&& declared[row].index is Some
            &&& declared[row].index->Some_0.partial_sql is None
            &&& first_to_declare(entries, entries[row].entry.table@, owner)
            &&& handle_in(state, at, entries[owner].entry.tree_id) == Some(table)
        }),
    decreases upto,
{
    if upto <= 0 {
        (0, 0)
    } else {
        let before = rejoined(covering, state, at, entries, declared, pairs, upto - 1);
        let link = offering(
            entries[upto - 1].entry,
            restored_at(pairs, upto - 1),
            root_named(state, entries, at, entries[upto - 1].entry.table@),
            declared[upto - 1].index,
        );
        if before.contains_key(table) && before[table].contains(index) {
            only_restored_indexes_are_offered(
                covering,
                state,
                at,
                entries,
                declared,
                pairs,
                upto - 1,
                table,
                index,
            )
        } else {
            let after = with_offer(before, link);
            if link is Some {
                an_offer_is_made_once(before, link->Some_0.0, link->Some_0.1, table);
                let held = if before.contains_key(table) {
                    before[table]
                } else {
                    Seq::empty()
                };
                let i = after[table].index_of(index);
                assert(after[table][i] == index);
                assert(i < held.len() ==> held.contains(held[i]));
            }
            let name = entries[upto - 1].entry.table@;
            (upto - 1, choose|i: int| first_to_declare(entries, name, i))
        }
    }
}

} // verus!
