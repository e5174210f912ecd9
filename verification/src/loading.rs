//! A schema loaded out of the rows of a file's catalog.
//!
//! The tables are loaded first, then the indexes onto them, then the views, then
//! the triggers, because each needs what came before. Every statement was parsed
//! elsewhere; what is decided here is which rows are kept, which are named among
//! what could not be loaded, and which tree each kept row has.

use std::collections::HashMap;

use vstd::prelude::*;

use crate::reattach::{first_index, lent};
use crate::rowshape::{covers_every_row, identity_columns, primary_key};
use crate::schema::{IndexInfo, ObjectKind, Recorded, SchemaEntry, TableInfo};
use crate::sorting::{sorted, Ranking};
use crate::tables::as_ints;
use crate::text::{copied, fold, folded, same, same_folded, show, shown};
use crate::values::{byte_order, compare_bytes, Order};

verus! {

broadcast use vstd::std_specs::hash::group_hash_axioms;

/// What a catalog row's statement declares.
#[derive(Debug)]
pub enum Declared {
    /// Nothing that could be read.
    Unreadable,
    /// A virtual table.
    Virtual,
    /// A table.
    Table(TableInfo),
    /// An index.
    Index(IndexInfo),
    /// A trigger, by its name.
    Trigger(Vec<u8>),
}

/// One row of a file's catalog, and what its statement declares.
#[derive(Debug)]
pub struct Stored {
    /// The rowid it is stored under.
    pub rowid: i64,
    /// The row.
    pub entry: SchemaEntry,
    /// What its statement declares.
    pub declared: Declared,
    /// The identifier of its tree, none when the row names none that a tree can
    /// have.
    pub local: Option<u32>,
}

/// The table a catalog row loads, when it loads one: a table whose tree has a
/// shape.
pub open spec fn loads_table(row: Stored) -> Option<TableInfo> {
    match (row.entry.kind, row.declared) {
        (ObjectKind::Table, Declared::Table(info)) => {
            if !info.without_rowid || primary_key(info).len() > 0 {
                Some(info)
            } else {
                None
            }
        },
        _ => None,
    }
}

/// Whether a catalog row declares a virtual table, which has no tree.
pub open spec fn loads_module(row: Stored) -> bool {
    row.entry.kind is Table && row.declared is Virtual
}

/// Which of the first catalog rows loads the table of a folded name, the last
/// one that does.
pub open spec fn loaded_as(rows: Seq<Stored>, name: Seq<u8>, upto: int) -> Option<int>
    decreases upto,
{
    if upto <= 0 {
        None
    } else {
        match loads_table(rows[upto - 1]) {
            Some(info) => if info.folded@ == name {
                Some(upto - 1)
            } else {
                loaded_as(rows, name, upto - 1)
            },
            None => loaded_as(rows, name, upto - 1),
        }
    }
}

/// Which catalog row loads the table another row belongs to.
pub open spec fn owner(rows: Seq<Stored>, at: int) -> Option<int> {
    loaded_as(rows, folded(rows[at].entry.table@), rows.len() as int)
}

/// A row that loads a table is one of the rows, and loads that table.
pub proof fn an_owner_is_loaded(rows: Seq<Stored>, name: Seq<u8>, upto: int)
    requires
        upto <= rows.len(),
    ensures
        loaded_as(rows, name, upto) matches Some(at) ==> 0 <= at < upto && loads_table(
            rows[at],
        ) is Some && loads_table(rows[at])->Some_0.folded@ == name,
    decreases upto,
{
    if upto > 0 {
        an_owner_is_loaded(rows, name, upto - 1);
    }
}

/// Whether a table declares an index of a folded name itself.
pub open spec fn declares_index(info: TableInfo, name: Seq<u8>) -> bool {
    exists|i: int| 0 <= i < info.indexes@.len() && (#[trigger] info.indexes@[i]).folded@ == name
}

/// Whether an earlier row's statement gave a row's table an index of the row's
/// own name.
pub open spec fn gave_index(rows: Seq<Stored>, at: int, earlier: int) -> bool {
    &&& 0 <= earlier < at
    &&& rows[earlier].entry.kind is Index
    &&& rows[earlier].entry.sql@.len() > 0
    &&& owner(rows, earlier) == owner(rows, at)
    &&& rows[earlier].declared matches Declared::Index(index)
    &&& index.folded@ == folded(rows[at].entry.name@)
}

/// Whether a row is the first to have given a row's table an index of the row's
/// own name.
pub open spec fn first_to_give(rows: Seq<Stored>, at: int, earlier: int) -> bool {
    gave_index(rows, at, earlier) && forall|i: int|
        0 <= i < earlier ==> !(#[trigger] gave_index(rows, at, i))
}

/// Whether an index is the one a row without a statement stands for: the one its
/// table declares itself under that name, or one an earlier row gave the table.
pub open spec fn stands_for_index(rows: Seq<Stored>, at: int, index: IndexInfo) -> bool {
    match owner(rows, at) {
        Some(table) => match loads_table(rows[table]) {
            Some(info) => if declares_index(info, folded(rows[at].entry.name@)) {
                exists|i: int| #[trigger]
                    first_index(info, rows[at].entry.name@, i) && info.indexes@[i] == index
            } else {
                exists|earlier: int| #[trigger]
                    first_to_give(rows, at, earlier) && rows[earlier].declared == Declared::Index(
                        index,
                    )
            },
            None => false,
        },
        None => false,
    }
}

/// Whether an index is the one a catalog row loads onto its table.
pub open spec fn index_loaded(rows: Seq<Stored>, at: int, index: IndexInfo) -> bool {
    rows[at].entry.kind is Index && owner(rows, at) is Some && if rows[at].entry.sql@.len() == 0 {
        stands_for_index(rows, at, index)
    } else {
        rows[at].declared == Declared::Index(index)
    }
}

/// Whether a catalog row loads an index onto a table.
pub open spec fn loads_index(rows: Seq<Stored>, at: int) -> bool {
    exists|index: IndexInfo| #[trigger] index_loaded(rows, at, index)
}

/// Whether a catalog row takes an identifier for a tree.
pub open spec fn takes_a_tree(rows: Seq<Stored>, at: int) -> bool {
    match rows[at].entry.kind {
        ObjectKind::Table => !loads_module(rows[at]),
        ObjectKind::Index => owner(rows, at) is Some,
        _ => false,
    }
}

/// Whether a catalog row declares the view another row belongs to.
pub open spec fn is_view_of(rows: Seq<Stored>, at: int, view: int) -> bool {
    &&& 0 <= view < rows.len()
    &&& rows[view].entry.kind is View
    &&& folded(rows[view].entry.name@) == folded(rows[at].entry.table@)
}

/// Whether a catalog row belongs to something that is loaded: a table, or a view,
/// whose rows a trigger may stand in front of.
pub open spec fn belongs(rows: Seq<Stored>, at: int) -> bool {
    owner(rows, at) is Some || exists|view: int| #[trigger] is_view_of(rows, at, view)
}

/// Whether a catalog row is kept.
pub open spec fn kept(rows: Seq<Stored>, at: int) -> bool {
    match rows[at].entry.kind {
        ObjectKind::Table => loads_module(rows[at]) || loads_table(rows[at]) is Some,
        ObjectKind::Index => loads_index(rows, at),
        ObjectKind::View => true,
        ObjectKind::Trigger => belongs(rows, at),
    }
}

/// Whether a catalog row is named among what could not be loaded.
///
/// A trigger whose statement cannot be read is named and kept all the same: its
/// row is still the file's.
pub open spec fn passed_over(rows: Seq<Stored>, at: int) -> bool {
    match rows[at].entry.kind {
        ObjectKind::Table => !kept(rows, at),
        ObjectKind::Index => !kept(rows, at),
        ObjectKind::View => false,
        ObjectKind::Trigger => !belongs(rows, at) || !(rows[at].declared is Trigger),
    }
}

/// Nothing of a catalog is lost in silence: a row that is not kept is named among
/// what could not be loaded.
pub proof fn what_is_not_kept_is_named(rows: Seq<Stored>, at: int)
    requires
        0 <= at < rows.len(),
    ensures
        kept(rows, at) || passed_over(rows, at),
        passed_over(rows, at) && kept(rows, at) ==> rows[at].entry.kind is Trigger,
{
}

/// The handle of a kept row's tree, zero when it has none.
pub open spec fn tree_of(rows: Seq<Stored>, at: int) -> u32 {
    match rows[at].local {
        Some(local) => if takes_a_tree(rows, at) {
            local
        } else {
            0
        },
        None => 0,
    }
}

/// A question asked of every catalog row.
#[derive(Clone, Copy, Debug, PartialEq, Eq, Structural)]
pub enum Question {
    /// Whether it is kept.
    Kept,
    /// Whether it is named among what could not be loaded.
    PassedOver,
    /// Whether its tree is attached.
    Attached,
    /// Whether it takes a tree and names none.
    Nameless,
}

/// The answer to a question about a catalog row.
pub open spec fn answer_of(rows: Seq<Stored>, question: Question, at: int) -> bool {
    match question {
        Question::Kept => kept(rows, at),
        Question::PassedOver => passed_over(rows, at),
        Question::Attached => kept(rows, at) && takes_a_tree(rows, at),
        Question::Nameless => takes_a_tree(rows, at) && rows[at].local is None,
    }
}

/// The rows of one kind that a question is answered with yes for, among the
/// first of a catalog.
pub open spec fn chosen(
    rows: Seq<Stored>,
    kind: ObjectKind,
    question: Question,
    upto: int,
) -> Seq<int>
    decreases upto,
{
    if upto <= 0 {
        Seq::empty()
    } else if rows[upto - 1].entry.kind == kind && answer_of(rows, question, upto - 1) {
        chosen(rows, kind, question, upto - 1).push(upto - 1)
    } else {
        chosen(rows, kind, question, upto - 1)
    }
}

/// The rows that a question is answered with yes for, the tables first and then
/// the indexes, the views and the triggers.
pub open spec fn in_passes(rows: Seq<Stored>, question: Question) -> Seq<int> {
    chosen(rows, ObjectKind::Table, question, rows.len() as int) + chosen(
        rows,
        ObjectKind::Index,
        question,
        rows.len() as int,
    ) + chosen(rows, ObjectKind::View, question, rows.len() as int) + chosen(
        rows,
        ObjectKind::Trigger,
        question,
        rows.len() as int,
    )
}

/// Returns the table a catalog row loads, when it loads one.
fn table_of(row: &Stored) -> (loaded: Option<&TableInfo>)
    ensures
        lent(loaded) == loads_table(*row),
{
    match (row.entry.kind, &row.declared) {
        (ObjectKind::Table, Declared::Table(info)) => {
            if !info.without_rowid {
                return Some(info);
            }
            if has_primary_key(info) {
                Some(info)
            } else {
                None
            }
        },
        _ => None,
    }
}

/// Reports whether a `WITHOUT ROWID` table has a primary key.
fn has_primary_key(info: &TableInfo) -> (answer: bool)
    requires
        info.without_rowid,
    ensures
        answer == (primary_key(*info).len() > 0),
{
    let columns = identity_columns(info);
    let many: usize = columns.len();
    assert(as_ints(columns@).len() == many);
    many > 0
}

/// Returns which catalog row loads the table another row belongs to.
fn owner_of(rows: &[Stored], at: usize) -> (found: Option<usize>)
    requires
        at < rows@.len(),
    ensures
        match found {
            Some(table) => owner(rows@, at as int) == Some(table as int) && table < rows@.len()
                && loads_table(rows@[table as int]) is Some,
            None => owner(rows@, at as int) is None,
        },
{
    let name = fold(rows[at].entry.table.as_slice());
    let mut upto: usize = rows.len();
    while upto > 0
        invariant
            at < rows@.len(),
            upto <= rows@.len(),
            name@ == folded(rows@[at as int].entry.table@),
            owner(rows@, at as int) == loaded_as(rows@, name@, upto as int),
        decreases upto,
    {
        upto = upto - 1;
        match table_of(&rows[upto]) {
            Some(info) => if same(info.folded.as_slice(), name.as_slice()) {
                return Some(upto);
            },
            None => {},
        }
    }
    None
}

/// Returns the index a catalog row loads onto its table, when it loads one.
fn index_of<'a>(rows: &'a [Stored], at: usize) -> (loaded: Option<&'a IndexInfo>)
    requires
        at < rows@.len(),
        rows@[at as int].entry.kind is Index,
    ensures
        match loaded {
            Some(index) => index_loaded(rows@, at as int, *index),
            None => !loads_index(rows@, at as int),
        },
{
    let table: usize = match owner_of(rows, at) {
        Some(table) => table,
        None => return None,
    };
    if rows[at].entry.sql.len() > 0 {
        return match &rows[at].declared {
            Declared::Index(index) => Some(index),
            _ => None,
        };
    }
    let info: &TableInfo = match table_of(&rows[table]) {
        Some(info) => info,
        None => return None,
    };
    let wanted = fold(rows[at].entry.name.as_slice());
    for nth in 0..info.indexes.len()
        invariant
            wanted@ == folded(rows@[at as int].entry.name@),
            at < rows@.len(),
            table < rows@.len(),
            owner(rows@, at as int) == Some(table as int),
            rows@[at as int].entry.kind is Index,
            rows@[at as int].entry.sql@.len() == 0,
            loads_table(rows@[table as int]) == Some(*info),
            forall|i: int| 0 <= i < nth ==> (#[trigger] info.indexes@[i]).folded@ != wanted@,
    {
        if same(info.indexes[nth].folded.as_slice(), wanted.as_slice()) {
            assert(first_index(*info, rows@[at as int].entry.name@, nth as int));
            assert(index_loaded(rows@, at as int, info.indexes@[nth as int]));
            return Some(&info.indexes[nth]);
        }
    }
    assert(!declares_index(*info, wanted@));
    for earlier in 0..at
        invariant
            wanted@ == folded(rows@[at as int].entry.name@),
            at < rows@.len(),
            table < rows@.len(),
            owner(rows@, at as int) == Some(table as int),
            rows@[at as int].entry.kind is Index,
            rows@[at as int].entry.sql@.len() == 0,
            loads_table(rows@[table as int]) == Some(*info),
            !declares_index(*info, wanted@),
            forall|i: int| 0 <= i < earlier ==> !(#[trigger] gave_index(rows@, at as int, i)),
    {
        let candidate = &rows[earlier];
        let index_row: bool = match candidate.entry.kind {
            ObjectKind::Index => true,
            _ => false,
        };
        if index_row && candidate.entry.sql.len() > 0 {
            let shared: bool = match owner_of(rows, earlier) {
                Some(other) => other == table,
                None => false,
            };
            if shared {
                match &candidate.declared {
                    Declared::Index(index) => if same(
                        index.folded.as_slice(),
                        wanted.as_slice(),
                    ) {
                        assert(first_to_give(rows@, at as int, earlier as int));
                        assert(index_loaded(rows@, at as int, *index));
                        return Some(index);
                    },
                    _ => {},
                }
            }
        }
    }
    assert forall|index: IndexInfo| !(#[trigger] index_loaded(rows@, at as int, index)) by {
        if index_loaded(rows@, at as int, index) {
            let earlier = choose|earlier: int| #[trigger]
                first_to_give(rows@, at as int, earlier) && rows@[earlier].declared
                    == Declared::Index(index);
            assert(gave_index(rows@, at as int, earlier));
        }
    }
    None
}

/// Reports whether a catalog row belongs to something that is loaded.
fn has_owner(rows: &[Stored], at: usize) -> (answer: bool)
    requires
        at < rows@.len(),
    ensures
        answer == belongs(rows@, at as int),
{
    if owner_of(rows, at).is_some() {
        return true;
    }
    for view in 0..rows.len()
        invariant
            at < rows@.len(),
            owner(rows@, at as int) is None,
            forall|i: int| 0 <= i < view ==> !(#[trigger] is_view_of(rows@, at as int, i)),
    {
        let declares_view: bool = match rows[view].entry.kind {
            ObjectKind::View => true,
            _ => false,
        };
        if declares_view && same_folded(
            rows[view].entry.name.as_slice(),
            rows[at].entry.table.as_slice(),
        ) {
            assert(is_view_of(rows@, at as int, view as int));
            return true;
        }
    }
    false
}

/// Reports whether a catalog row is kept.
pub fn is_kept(rows: &[Stored], at: usize) -> (answer: bool)
    requires
        at < rows@.len(),
    ensures
        answer == kept(rows@, at as int),
{
    match rows[at].entry.kind {
        ObjectKind::Table => match rows[at].declared {
            Declared::Virtual => true,
            _ => table_of(&rows[at]).is_some(),
        },
        ObjectKind::Index => index_of(rows, at).is_some(),
        ObjectKind::View => true,
        ObjectKind::Trigger => has_owner(rows, at),
    }
}

/// Reports whether a catalog row is named among what could not be loaded.
pub fn is_passed_over(rows: &[Stored], at: usize) -> (answer: bool)
    requires
        at < rows@.len(),
    ensures
        answer == passed_over(rows@, at as int),
{
    match rows[at].entry.kind {
        ObjectKind::Table => !is_kept(rows, at),
        ObjectKind::Index => !is_kept(rows, at),
        ObjectKind::View => false,
        ObjectKind::Trigger => {
            let readable: bool = match rows[at].declared {
                Declared::Trigger(_) => true,
                _ => false,
            };
            !readable || !has_owner(rows, at)
        },
    }
}

/// Reports whether a catalog row takes an identifier for a tree.
fn takes(rows: &[Stored], at: usize) -> (answer: bool)
    requires
        at < rows@.len(),
    ensures
        answer == takes_a_tree(rows@, at as int),
{
    match rows[at].entry.kind {
        ObjectKind::Table => match rows[at].declared {
            Declared::Virtual => false,
            _ => true,
        },
        ObjectKind::Index => owner_of(rows, at).is_some(),
        _ => false,
    }
}

/// A schema loaded out of a catalog.
pub struct LoadedSchema {
    /// The rows that were kept, in the order they were loaded in.
    pub entries: Vec<Recorded>,
    /// The names of the rows that could not be loaded.
    pub skipped: Vec<Vec<u8>>,
    /// The rows whose trees are to be attached, in the order they were loaded
    /// in.
    pub attach: Vec<usize>,
    /// The indexes that cover every row of a table, by the table's handle.
    pub covering: HashMap<u32, Vec<u32>>,
    /// The highest identifier any row took.
    pub highest_identifier: u32,
}

/// The highest identifier the first rows take.
pub open spec fn highest_of(rows: Seq<Stored>, upto: int) -> u32
    decreases upto,
{
    if upto <= 0 {
        0
    } else {
        let before = highest_of(rows, upto - 1);
        if takes_a_tree(rows, upto - 1) && tree_of(rows, upto - 1) > before {
            tree_of(rows, upto - 1)
        } else {
            before
        }
    }
}

/// Whether a kept index covers every row of its table: it is not partial.
pub open spec fn stands_in(rows: Seq<Stored>, at: int) -> bool {
    exists|index: IndexInfo| #[trigger]
        index_loaded(rows, at, index) && index.partial_sql is None
}

/// The indexes that cover every row of a table, among the first rows.
pub open spec fn covering_of(rows: Seq<Stored>, table: u32, upto: int) -> Seq<u32>
    decreases upto,
{
    if upto <= 0 {
        Seq::empty()
    } else if rows[upto - 1].entry.kind is Index && stands_in(rows, upto - 1) && (owner(
        rows,
        upto - 1,
    ) matches Some(at) && tree_of(rows, at) == table) {
        covering_of(rows, table, upto - 1).push(tree_of(rows, upto - 1))
    } else {
        covering_of(rows, table, upto - 1)
    }
}

/// Whether a loaded row is a kept one: the row itself, under the rowid it is
/// stored under, with its tree's handle.
pub open spec fn records(rows: Seq<Stored>, at: int, recorded: Recorded) -> bool {
    &&& recorded.entry@ == rows[at].entry@
    &&& recorded.root == tree_of(rows, at)
    &&& recorded.rowid == rows[at].rowid
}

/// Returns a second catalog row that says the same.
pub fn duplicate_entry(entry: &SchemaEntry) -> (held: SchemaEntry)
    ensures
        held@ == entry@,
{
    let held = SchemaEntry {
        kind: entry.kind,
        name: copied(entry.name.as_slice()),
        table: copied(entry.table.as_slice()),
        root: entry.root,
        sql: copied(entry.sql.as_slice()),
        stats: entry.stats,
        tree_id: entry.tree_id,
    };
    assert(held@ =~= entry@);
    held
}

/// A catalog row loads one index.
pub proof fn one_index_is_loaded(rows: Seq<Stored>, at: int, one: IndexInfo, two: IndexInfo)
    requires
        index_loaded(rows, at, one),
        index_loaded(rows, at, two),
    ensures
        one == two,
{
    if rows[at].entry.sql@.len() == 0 {
        let table = owner(rows, at)->Some_0;
        let info = loads_table(rows[table])->Some_0;
        let name = rows[at].entry.name@;
        if declares_index(info, folded(name)) {
            let i = choose|i: int| #[trigger]
                first_index(info, name, i) && info.indexes@[i] == one;
            let j = choose|j: int| #[trigger]
                first_index(info, name, j) && info.indexes@[j] == two;
            if i < j {
                assert(info.indexes@[i].folded@ != folded(name));
            } else if j < i {
                assert(info.indexes@[j].folded@ != folded(name));
            }
        } else {
            let i = choose|i: int| #[trigger]
                first_to_give(rows, at, i) && rows[i].declared == Declared::Index(one);
            let j = choose|j: int| #[trigger]
                first_to_give(rows, at, j) && rows[j].declared == Declared::Index(two);
            if i < j {
                assert(!gave_index(rows, at, i));
            } else if j < i {
                assert(!gave_index(rows, at, j));
            }
        }
    }
}

/// Answers a question about a catalog row.
fn answers(rows: &[Stored], question: Question, at: usize) -> (answer: bool)
    requires
        at < rows@.len(),
    ensures
        answer == answer_of(rows@, question, at as int),
{
    match question {
        Question::Kept => is_kept(rows, at),
        Question::PassedOver => is_passed_over(rows, at),
        Question::Attached => is_kept(rows, at) && takes(rows, at),
        Question::Nameless => rows[at].local.is_none() && takes(rows, at),
    }
}

/// Adds the rows of one kind that a question is answered with yes for.
fn pass(rows: &[Stored], kind: ObjectKind, question: Question, picked: &mut Vec<usize>)
    ensures
        as_ints(final(picked)@) == as_ints(old(picked)@) + chosen(
            rows@,
            kind,
            question,
            rows@.len() as int,
        ),
        (forall|i: int| 0 <= i < old(picked)@.len() ==> #[trigger] old(picked)@[i] < rows@.len())
            ==> (forall|i: int|
            0 <= i < final(picked)@.len() ==> #[trigger] final(picked)@[i] < rows@.len()),
{
    let ghost before = as_ints(picked@);
    assert(before + chosen(rows@, kind, question, 0) =~= before);
    for at in 0..rows.len()
        invariant
            as_ints(picked@) =~= before + chosen(rows@, kind, question, at as int),
            (forall|i: int|
                0 <= i < old(picked)@.len() ==> #[trigger] old(picked)@[i] < rows@.len()) ==> (
            forall|i: int| 0 <= i < picked@.len() ==> #[trigger] picked@[i] < rows@.len()),
    {
        if rows[at].entry.kind == kind && answers(rows, question, at) {
            let ghost so_far = picked@;
            picked.push(at);
            assert(as_ints(picked@) =~= as_ints(so_far).push(at as int));
        }
    }
}

/// Returns the rows that a question is answered with yes for, in the order they
/// are loaded in.
fn passes(rows: &[Stored], question: Question) -> (picked: Vec<usize>)
    ensures
        as_ints(picked@) == in_passes(rows@, question),
        forall|i: int| 0 <= i < picked@.len() ==> #[trigger] picked@[i] < rows@.len(),
{
    let mut picked: Vec<usize> = Vec::new();
    pass(rows, ObjectKind::Table, question, &mut picked);
    pass(rows, ObjectKind::Index, question, &mut picked);
    pass(rows, ObjectKind::View, question, &mut picked);
    pass(rows, ObjectKind::Trigger, question, &mut picked);
    assert(as_ints(picked@) =~= in_passes(rows@, question));
    picked
}

/// What each row of a list is named, as it is shown.
pub open spec fn named(rows: Seq<Stored>, picked: Seq<int>) -> Seq<Seq<u8>> {
    picked.map_values(|at: int| shown(rows[at].entry.name@))
}

/// Returns the handle of a row's tree.
fn handle(rows: &[Stored], at: usize) -> (root: u32)
    requires
        at < rows@.len(),
    ensures
        root == tree_of(rows@, at as int),
{
    match rows[at].local {
        Some(local) => if takes(rows, at) {
            local
        } else {
            0
        },
        None => 0,
    }
}

/// What a map of lists holds for each table: what the rows offer it.
pub open spec fn offers(rows: Seq<Stored>, covering: Map<u32, Vec<u32>>, upto: int) -> bool {
    forall|table: u32|
        {
            &&& #[trigger] covering.contains_key(table) <==> covering_of(rows, table, upto).len()
                > 0
            &&& covering.contains_key(table) ==> covering[table]@ == covering_of(
                rows,
                table,
                upto,
            )
        }
}

/// Returns the indexes that cover every row of each table, by the table's
/// handle.
fn coverings(rows: &[Stored]) -> (covering: HashMap<u32, Vec<u32>>)
    ensures
        offers(rows@, covering@, rows@.len() as int),
{
    let mut covering: HashMap<u32, Vec<u32>> = HashMap::new();
    for at in 0..rows.len()
        invariant
            offers(rows@, covering@, at as int),
    {
        let index_row: bool = match rows[at].entry.kind {
            ObjectKind::Index => true,
            _ => false,
        };
        let ghost before = covering@;
        let mut offered: Option<u32> = None;
        if index_row {
            match (owner_of(rows, at), index_of(rows, at)) {
                (Some(table), Some(index)) => {
                    if covers_every_row(index) {
                        assert(stands_in(rows@, at as int));
                        offered = Some(handle(rows, table));
                    } else {
                        assert(!stands_in(rows@, at as int)) by {
                            if stands_in(rows@, at as int) {
                                let other = choose|other: IndexInfo| #[trigger]
                                    index_loaded(rows@, at as int, other)
                                        && other.partial_sql is None;
                                one_index_is_loaded(rows@, at as int, *index, other);
                            }
                        }
                    }
                },
                _ => {
                    assert(!stands_in(rows@, at as int));
                },
            }
        }
        if let Some(table) = offered {
            let mut list: Vec<u32> = match covering.remove(&table) {
                Some(list) => list,
                None => Vec::new(),
            };
            list.push(handle(rows, at));
            let ghost held = list;
            covering.insert(table, list);
            assert(covering@ =~= before.insert(table, held));
            assert(held@ =~= covering_of(rows@, table, at + 1)) by {
                assert(before.contains_key(table) <==> covering_of(rows@, table, at as int).len()
                    > 0);
            }
        }
        assert forall|table: u32|
            {
                &&& #[trigger] covering@.contains_key(table) <==> covering_of(
                    rows@,
                    table,
                    at + 1,
                ).len() > 0
                &&& covering@.contains_key(table) ==> covering@[table]@ == covering_of(
                    rows@,
                    table,
                    at + 1,
                )
            } by {
            assert(before.contains_key(table) <==> covering_of(rows@, table, at as int).len() > 0);
        }
    }
    covering
}

/// Loads a schema out of a catalog's rows, or returns the first row that takes a
/// tree and names none.
pub fn load_schema(rows: &[Stored]) -> (loaded: Result<LoadedSchema, usize>)
    ensures
        match loaded {
            Err(at) => {
                &&& in_passes(rows@, Question::Nameless).len() > 0
                &&& at == in_passes(rows@, Question::Nameless)[0]
            },
            Ok(schema) => {
                &&& in_passes(rows@, Question::Nameless).len() == 0
                &&& schema.entries@.len() == in_passes(rows@, Question::Kept).len()
                &&& forall|i: int|
                    0 <= i < schema.entries@.len() ==> records(
                        rows@,
                        in_passes(rows@, Question::Kept)[i],
                        #[trigger] schema.entries@[i],
                    )
                &&& forall|i: int|
                    0 <= i < schema.entries@.len() ==> {
                        let at = in_passes(rows@, Question::Kept)[i];
                        &&& (#[trigger] schema.entries@[i]).entry@ == rows@[at].entry@
                        &&& schema.entries@[i].rowid == rows@[at].rowid
                        &&& schema.entries@[i].root == tree_of(rows@, at)
                    }
                &&& crate::reattach::names_of(schema.skipped@) == named(
                    rows@,
                    in_passes(rows@, Question::PassedOver),
                )
                &&& schema.skipped@.len() == in_passes(rows@, Question::PassedOver).len()
                &&& forall|i: int|
                    0 <= i < schema.skipped@.len() ==> (#[trigger] schema.skipped@[i])@ == shown(
                        rows@[in_passes(rows@, Question::PassedOver)[i]].entry.name@,
                    )
                &&& as_ints(schema.attach@) == in_passes(rows@, Question::Attached)
                &&& offers(rows@, schema.covering@, rows@.len() as int)
                &&& schema.highest_identifier == highest_of(rows@, rows@.len() as int)
            },
        },
{
    let nameless = passes(rows, Question::Nameless);
    if nameless.len() > 0 {
        assert(as_ints(nameless@)[0] == nameless@[0]);
        return Err(nameless[0]);
    }
    assert(as_ints(nameless@).len() == 0);
    let keeping = passes(rows, Question::Kept);
    let ghost kept_rows = in_passes(rows@, Question::Kept);
    assert(kept_rows.len() == keeping@.len());
    let mut entries: Vec<Recorded> = Vec::with_capacity(keeping.len());
    for nth in 0..keeping.len()
        invariant
            as_ints(keeping@) == kept_rows,
            kept_rows.len() == keeping@.len(),
            forall|i: int| 0 <= i < keeping@.len() ==> #[trigger] keeping@[i] < rows@.len(),
            entries@.len() == nth,
            forall|i: int|
                0 <= i < nth ==> records(rows@, kept_rows[i], #[trigger] entries@[i]),
    {
        let at: usize = keeping[nth];
        let rowid: i64 = rows[at].rowid;
        let root: u32 = handle(rows, at);
        let entry = duplicate_entry(&rows[at].entry);
        let made = Recorded { rowid, root, entry };
        assert(kept_rows[nth as int] == at);
        assert(records(rows@, at as int, made));
        entries.push(made);
    }
    let passing = passes(rows, Question::PassedOver);
    let ghost over = in_passes(rows@, Question::PassedOver);
    assert(over.len() == passing@.len());
    let mut skipped: Vec<Vec<u8>> = Vec::with_capacity(passing.len());
    for nth in 0..passing.len()
        invariant
            as_ints(passing@) == over,
            over.len() == passing@.len(),
            forall|i: int| 0 <= i < passing@.len() ==> #[trigger] passing@[i] < rows@.len(),
            crate::reattach::names_of(skipped@) =~= named(rows@, over.take(nth as int)),
    {
        let at: usize = passing[nth];
        let ghost so_far = skipped@;
        skipped.push(show(rows[at].entry.name.as_slice()));
        assert(over[nth as int] == at);
        assert(crate::reattach::names_of(skipped@) =~= crate::reattach::names_of(so_far).push(
            shown(rows@[at as int].entry.name@),
        ));
        assert(named(rows@, over.take(nth + 1)) =~= named(rows@, over.take(nth as int)).push(
            shown(rows@[at as int].entry.name@),
        ));
    }
    assert(over.take(over.len() as int) =~= over);
    proof {
        let told = crate::reattach::names_of(skipped@);
        assert(told.len() == skipped@.len());
        assert forall|i: int| 0 <= i < skipped@.len() implies (#[trigger] skipped@[i])@ == shown(
            rows@[over[i]].entry.name@,
        ) by {
            assert(told[i] == skipped@[i]@);
            assert(told[i] == named(rows@, over)[i]);
        }
        assert forall|i: int| 0 <= i < entries@.len() implies {
            let at = kept_rows[i];
            &&& (#[trigger] entries@[i]).entry@ == rows@[at].entry@
            &&& entries@[i].rowid == rows@[at].rowid
            &&& entries@[i].root == tree_of(rows@, at)
        } by {
            assert(records(rows@, kept_rows[i], entries@[i]));
        }
    }
    let attach = passes(rows, Question::Attached);
    let covering = coverings(rows);
    let mut highest_identifier: u32 = 0;
    for at in 0..rows.len()
        invariant
            highest_identifier == highest_of(rows@, at as int),
    {
        if takes(rows, at) {
            let root: u32 = handle(rows, at);
            if root > highest_identifier {
                highest_identifier = root;
            }
        }
    }
    Ok(LoadedSchema { entries, skipped, attach, covering, highest_identifier })
}

/// Whether a row loads the table its name is known by: no later row loads one of
/// the same name.
pub open spec fn is_known(rows: Seq<Stored>, at: int) -> bool {
    loads_table(rows[at]) matches Some(info) && loaded_as(
        rows,
        info.folded@,
        rows.len() as int,
    ) == Some(at)
}

/// Whether a list is the rows that load tables, in the order of the tables' names.
pub open spec fn by_name(rows: Seq<Stored>, order: Seq<usize>) -> bool {
    &&& forall|at: usize| #[trigger]
        order.contains(at) <==> at < rows.len() && is_known(rows, at as int)
    &&& forall|i: int, j: int|
        0 <= i < j < order.len() ==> byte_order(
            name_loaded(rows, #[trigger] order[i] as int),
            name_loaded(rows, #[trigger] order[j] as int),
        ) is Less
}

/// The tables of a catalog, and the order their names put them in.
struct ByName<'a> {
    rows: &'a [Stored],
}

/// The folded name of the table a row loads.
pub open spec fn name_loaded(rows: Seq<Stored>, at: int) -> Seq<u8> {
    loads_table(rows[at])->Some_0.folded@
}

impl<'a> Ranking<usize> for ByName<'a> {
    closed spec fn ranks(&self, position: usize) -> bool {
        position < self.rows@.len() && is_known(self.rows@, position as int)
    }

    closed spec fn precedes(&self, left: usize, right: usize) -> bool {
        byte_order(
            name_loaded(self.rows@, left as int),
            name_loaded(self.rows@, right as int),
        ) is Less
    }

    proof fn irreflexive(&self, position: usize) {
        let name = name_loaded(self.rows@, position as int);
        same_bytes_are_equal(name);
    }

    proof fn transitive(&self, left: usize, middle: usize, right: usize) {
        crate::codes::byte_order_carries(
            name_loaded(self.rows@, left as int),
            name_loaded(self.rows@, middle as int),
            name_loaded(self.rows@, right as int),
        );
    }

    proof fn total(&self, left: usize, right: usize) {
        let one = name_loaded(self.rows@, left as int);
        let two = name_loaded(self.rows@, right as int);
        crate::codes::byte_order_reversed(one, two);
        if byte_order(one, two) is Equal {
            equal_bytes_are_same(one, two);
        }
    }

    fn before(&self, left: usize, right: usize) -> (answer: bool) {
        match (table_of(&self.rows[left]), table_of(&self.rows[right])) {
            (Some(one), Some(two)) => {
                compare_bytes(one.folded.as_slice(), two.folded.as_slice()) == Order::Less
            },
            _ => false,
        }
    }
}

/// Bytes are in no order with themselves.
proof fn same_bytes_are_equal(bytes: Seq<u8>)
    ensures
        byte_order(bytes, bytes) is Equal,
    decreases bytes.len(),
{
    if bytes.len() > 0 {
        same_bytes_are_equal(bytes.drop_first());
    }
}

/// Bytes that are in no order are the same bytes.
pub proof fn equal_bytes_are_same(one: Seq<u8>, two: Seq<u8>)
    requires
        byte_order(one, two) is Equal,
    ensures
        one == two,
    decreases one.len(),
{
    if one.len() > 0 && two.len() > 0 {
        equal_bytes_are_same(one.drop_first(), two.drop_first());
        assert(one =~= seq![one[0]] + one.drop_first());
        assert(two =~= seq![two[0]] + two.drop_first());
    } else {
        assert(one =~= two);
    }
}

/// Returns the rows that load the tables of a catalog, in the order of the
/// tables' names.
pub fn tables_by_name(rows: &[Stored]) -> (tables: Vec<usize>)
    ensures
        by_name(rows@, tables@),
        forall|at: usize| #[trigger]
            tables@.contains(at) <==> at < rows@.len() && is_known(rows@, at as int),
        forall|i: int, j: int|
            0 <= i < j < tables@.len() ==> byte_order(
                name_loaded(rows@, #[trigger] tables@[i] as int),
                name_loaded(rows@, #[trigger] tables@[j] as int),
            ) is Less,
{
    let mut positions: Vec<usize> = Vec::new();
    for at in 0..rows.len()
        invariant
            forall|i: int|
                0 <= i < positions@.len() ==> #[trigger] positions@[i] < at && is_known(
                    rows@,
                    positions@[i] as int,
                ),
            forall|i: int, j: int|
                0 <= i < j < positions@.len() ==> positions@[i] < positions@[j],
            forall|p: usize| p < at && is_known(rows@, p as int) ==> #[trigger] positions@.contains(
                p,
            ),
    {
        let ghost before = positions@;
        let mut known: bool = false;
        if let Some(info) = table_of(&rows[at]) {
            let mut upto: usize = rows.len();
            let mut later: bool = false;
            while upto > at + 1
                invariant_except_break
                    !later,
                    loaded_as(rows@, info.folded@, rows@.len() as int) == loaded_as(
                        rows@,
                        info.folded@,
                        upto as int,
                    ),
                invariant
                    at < upto <= rows@.len(),
                    loads_table(rows@[at as int]) == Some(*info),
                ensures
                    later ==> loaded_as(rows@, info.folded@, rows@.len() as int) != Some(
                        at as int,
                    ),
                    !later ==> loaded_as(rows@, info.folded@, rows@.len() as int) == loaded_as(
                        rows@,
                        info.folded@,
                        at + 1,
                    ),
                decreases upto,
            {
                upto = upto - 1;
                if let Some(other) = table_of(&rows[upto]) {
                    if same(other.folded.as_slice(), info.folded.as_slice()) {
                        later = true;
                        break;
                    }
                }
            }
            known = !later;
        }
        assert(known == is_known(rows@, at as int));
        if known {
            positions.push(at);
            assert forall|p: usize| p < at + 1 && is_known(rows@, p as int) implies #[trigger]
            positions@.contains(p) by {
                if p < at {
                    assert(before.contains(p));
                    let i = choose|i: int| 0 <= i < before.len() && before[i] == p;
                    assert(positions@[i] == p);
                } else {
                    assert(positions@[before.len() as int] == p);
                }
            }
        }
    }
    let ranking = ByName { rows };
    assert forall|i: int| 0 <= i < positions@.len() implies ranking.ranks(
        #[trigger] positions@[i],
    ) by {}
    let tables = sorted(&ranking, &positions);
    proof {
        assert forall|at: usize| #[trigger] tables@.contains(at) <==> at < rows@.len() && is_known(
            rows@,
            at as int,
        ) by {
            if tables@.contains(at) {
                let i = choose|i: int| 0 <= i < tables@.len() && tables@[i] == at;
                assert(ranking.ranks(tables@[i]));
            }
            if at < rows@.len() && is_known(rows@, at as int) {
                assert(positions@.contains(at));
                let i = choose|i: int| 0 <= i < positions@.len() && positions@[i] == at;
                crate::sorting::same_holdings(positions@, tables@, i);
            }
        }
        assert forall|i: int, j: int| 0 <= i < j < tables@.len() implies byte_order(
            name_loaded(rows@, #[trigger] tables@[i] as int),
            name_loaded(rows@, #[trigger] tables@[j] as int),
        ) is Less by {
            assert(ranking.precedes(tables@[i], tables@[j]));
        }
    }
    tables
}

/// Where an index of a folded name first stands among the first of a list.
pub open spec fn called_at(indexes: Seq<IndexInfo>, name: Seq<u8>, upto: int) -> Option<int>
    decreases upto,
{
    if upto <= 0 {
        None
    } else {
        match called_at(indexes, name, upto - 1) {
            Some(at) => Some(at),
            None => if indexes[upto - 1].folded@ == name {
                Some(upto - 1)
            } else {
                None
            },
        }
    }
}

/// A table's indexes once the tree of one is known by a handle: the one the table
/// declares under that name is told the handle, and one it does not declare is
/// added.
pub open spec fn with_index(
    indexes: Seq<IndexInfo>,
    name: Seq<u8>,
    index: Option<IndexInfo>,
    root: u32,
) -> Seq<IndexInfo> {
    match called_at(indexes, name, indexes.len() as int) {
        Some(at) => indexes.update(at, (IndexInfo { root, ..indexes[at] })),
        None => match index {
            Some(index) => indexes.push((IndexInfo { root, ..index })),
            None => indexes,
        },
    }
}

/// A name found among the first of a list is found at the same place among more of
/// it.
proof fn called_stays(indexes: Seq<IndexInfo>, name: Seq<u8>, few: int, more: int)
    requires
        0 <= few <= more,
        called_at(indexes, name, few) is Some,
    ensures
        called_at(indexes, name, more) == called_at(indexes, name, few),
    decreases more,
{
    if few < more {
        called_stays(indexes, name, few, more - 1);
    }
}

/// Gives a table an index whose tree is known by a handle.
pub fn give_index(info: &mut TableInfo, name: &[u8], index: Option<IndexInfo>, root: u32)
    ensures
        *final(info) == (TableInfo { indexes: final(info).indexes, ..*old(info) }),
        final(info).indexes@ == with_index(old(info).indexes@, name@, index, root),
        forall|at: int|
            0 <= at < old(info).indexes@.len() && (#[trigger] old(info).indexes@[at]).folded@
                == name@ && (forall|i: int|
                0 <= i < at ==> (#[trigger] old(info).indexes@[i]).folded@ != name@)
                    ==> final(info).indexes@ == old(info).indexes@.update(
                at,
                (IndexInfo { root, ..old(info).indexes@[at] }),
            ),
        (forall|i: int|
            0 <= i < old(info).indexes@.len() ==> (#[trigger] old(info).indexes@[i]).folded@
                != name@) ==> final(info).indexes@ == (match index {
            Some(given) => old(info).indexes@.push((IndexInfo { root, ..given })),
            None => old(info).indexes@,
        }),
{
    proof {
        an_index_takes_its_place(info.indexes@, name@, index, root);
    }
    let many: usize = info.indexes.len();
    for at in 0..many
        invariant
            many == info.indexes@.len(),
            *info == *old(info),
            called_at(info.indexes@, name@, at as int) is None,
    {
        if same(info.indexes[at].folded.as_slice(), name) {
            proof {
                called_stays(info.indexes@, name@, at + 1, many as int);
                an_index_takes_its_place(info.indexes@, name@, index, root);
            }
            let held = &mut info.indexes[at];
            held.root = root;
            return;
        }
    }
    if let Some(given) = index {
        let mut made = given;
        made.root = root;
        info.indexes.push(made);
    }
}

/// Gives a table a trigger, ahead of those it has.
pub fn give_trigger(info: &mut TableInfo, name: Vec<u8>)
    ensures
        *final(info) == (TableInfo { triggers: final(info).triggers, ..*old(info) }),
        final(info).triggers@ == old(info).triggers@.insert(0, name),
{
    info.triggers.insert(0, name);
}

/// The folded name the index a catalog row loads goes by.
pub open spec fn name_given(row: Stored) -> Seq<u8> {
    if row.entry.sql@.len() == 0 {
        folded(row.entry.name@)
    } else {
        match row.declared {
            Declared::Index(index) => index.folded@,
            _ => Seq::empty(),
        }
    }
}

/// The index a catalog row's own statement declares.
pub open spec fn index_given(row: Stored) -> Option<IndexInfo> {
    if row.entry.sql@.len() == 0 {
        None
    } else {
        match row.declared {
            Declared::Index(index) => Some(index),
            _ => None,
        }
    }
}

/// Whether a catalog row gives a table an index.
pub open spec fn gives_index_to(rows: Seq<Stored>, at: int, table: int) -> bool {
    rows[at].entry.kind is Index && owner(rows, at) == Some(table) && loads_index(rows, at)
}

/// Whether a catalog row gives a table a trigger.
pub open spec fn gives_trigger_to(rows: Seq<Stored>, at: int, table: int) -> bool {
    rows[at].entry.kind is Trigger && owner(rows, at) == Some(table) && rows[at].declared is Trigger
}

/// The indexes of a loaded table, once the first of the catalog's rows gave theirs.
pub open spec fn indexes_given(rows: Seq<Stored>, table: int, upto: int) -> Seq<IndexInfo>
    decreases upto,
{
    if upto <= 0 {
        loads_table(rows[table])->Some_0.indexes@
    } else if gives_index_to(rows, upto - 1, table) {
        with_index(
            indexes_given(rows, table, upto - 1),
            name_given(rows[upto - 1]),
            index_given(rows[upto - 1]),
            tree_of(rows, upto - 1),
        )
    } else {
        indexes_given(rows, table, upto - 1)
    }
}

/// The triggers of a loaded table, once the first of the catalog's rows gave
/// theirs, the newest first.
pub open spec fn triggers_given(rows: Seq<Stored>, table: int, upto: int) -> Seq<Vec<u8>>
    decreases upto,
{
    if upto <= 0 {
        loads_table(rows[table])->Some_0.triggers@
    } else if gives_trigger_to(rows, upto - 1, table) {
        triggers_given(rows, table, upto - 1).insert(0, rows[upto - 1].declared->Trigger_0)
    } else {
        triggers_given(rows, table, upto - 1)
    }
}

/// Whether a table is one a catalog row loads, with what the first of the rows
/// gave it.
pub open spec fn loaded_upto(rows: Seq<Stored>, table: int, info: TableInfo, upto: int) -> bool {
    &&& info == (TableInfo {
        root: tree_of(rows, table),
        indexes: info.indexes,
        triggers: info.triggers,
        ..loads_table(rows[table])->Some_0
    })
    &&& info.indexes@ == indexes_given(rows, table, upto)
    &&& info.triggers@ == triggers_given(rows, table, upto)
}

/// Whether tables are the ones a catalog loads, in the order of their names, each
/// with its indexes and its triggers.
pub open spec fn tables_of(rows: Seq<Stored>, order: Seq<usize>, tables: Seq<TableInfo>) -> bool {
    &&& by_name(rows, order)
    &&& tables.len() == order.len()
    &&& forall|i: int|
        0 <= i < tables.len() ==> loaded_upto(
            rows,
            order[i] as int,
            #[trigger] tables[i],
            rows.len() as int,
        )
}

/// Whether a slot holds the table a catalog row loads, with what the first of the
/// rows gave it.
spec fn holds_loaded(
    rows: Seq<Stored>,
    table: int,
    slot: Option<TableInfo>,
    upto: int,
) -> bool {
    slot is Some && loaded_upto(rows, table, slot->Some_0, upto)
}

/// What a catalog row gives a table.
enum Gift {
    /// Nothing.
    Nothing,
    /// An index, by its folded name, and the handle of its tree.
    Index(usize, Vec<u8>, Option<IndexInfo>, u32),
    /// A trigger.
    Trigger(usize, Vec<u8>),
}

/// Whether a gift is what a catalog row gives.
spec fn is_gift(rows: Seq<Stored>, at: int, gift: Gift) -> bool {
    match gift {
        Gift::Nothing => gives_nothing(rows, at),
        Gift::Index(table, name, index, root) => {
            &&& gives_index_to(rows, at, table as int)
            &&& table < rows.len()
            &&& loads_table(rows[table as int]) is Some
            &&& name@ == name_given(rows[at])
            &&& index == index_given(rows[at])
            &&& root == tree_of(rows, at)
        },
        Gift::Trigger(table, name) => {
            &&& gives_trigger_to(rows, at, table as int)
            &&& table < rows.len()
            &&& loads_table(rows[table as int]) is Some
            &&& name == rows[at].declared->Trigger_0
        },
    }
}

/// Whether a catalog row gives no table anything.
spec fn gives_nothing(rows: Seq<Stored>, at: int) -> bool {
    &&& forall|table: int| !(#[trigger] gives_index_to(rows, at, table))
    &&& forall|table: int| !(#[trigger] gives_trigger_to(rows, at, table))
}

/// Whether a table, if any, is the one a catalog row gives something to, and it is
/// told whether that is an index.
spec fn receives(rows: Seq<Stored>, at: int, found: Option<(usize, bool)>) -> bool {
    match found {
        Some((table, index)) => {
            &&& table < rows.len()
            &&& loads_table(rows[table as int]) is Some
            &&& index ==> gives_index_to(rows, at, table as int)
            &&& !index ==> gives_trigger_to(rows, at, table as int)
        },
        None => gives_nothing(rows, at),
    }
}

/// Returns the table a catalog row gives something to, and whether that is an
/// index.
fn receiver(rows: &[Stored], at: usize) -> (found: Option<(usize, bool)>)
    requires
        at < rows@.len(),
    ensures
        receives(rows@, at as int, found),
{
    match rows[at].entry.kind {
        ObjectKind::Index => match owner_of(rows, at) {
            Some(table) => match index_of(rows, at) {
                Some(index) => {
                    assert(index_loaded(rows@, at as int, *index));
                    Some((table, true))
                },
                None => None,
            },
            None => None,
        },
        ObjectKind::Trigger => match owner_of(rows, at) {
            Some(table) => match rows[at].declared {
                Declared::Trigger(_) => Some((table, false)),
                _ => None,
            },
            None => None,
        },
        _ => None,
    }
}

/// Returns the folded name the index a catalog row loads goes by.
fn given_name(row: &Stored) -> (name: Vec<u8>)
    ensures
        name@ == name_given(*row),
{
    if row.entry.sql.len() == 0 {
        return fold(row.entry.name.as_slice());
    }
    match &row.declared {
        Declared::Index(index) => copied(index.folded.as_slice()),
        _ => Vec::new(),
    }
}

/// Returns the tables a catalog declares, in the order of their names, each with
/// the handles of its trees and with its triggers, the newest first.
///
/// A table that two rows declare is the last one's.
pub fn loaded_tables(rows: Vec<Stored>) -> (tables: Vec<TableInfo>)
    ensures
        exists|order: Seq<usize>| #[trigger] tables_of(rows@, order, tables@),
{
    let ghost all = rows@;
    let order = tables_by_name(rows.as_slice());
    let mut receivers: Vec<Option<(usize, bool)>> = Vec::with_capacity(rows.len());
    let mut roots: Vec<u32> = Vec::with_capacity(rows.len());
    for at in 0..rows.len()
        invariant
            rows@ == all,
            receivers@.len() == at,
            roots@.len() == at,
            forall|i: int| 0 <= i < at ==> #[trigger] roots@[i] == tree_of(all, i),
            forall|i: int| 0 <= i < at ==> receives(all, i, #[trigger] receivers@[i]),
    {
        let found: Option<(usize, bool)> = receiver(rows.as_slice(), at);
        receivers.push(found);
        let root: u32 = handle(rows.as_slice(), at);
        roots.push(root);
    }
    let mut infos: Vec<Option<TableInfo>> = Vec::with_capacity(rows.len());
    let mut gifts: Vec<Gift> = Vec::with_capacity(rows.len());
    let many: usize = rows.len();
    for row in it: rows
        invariant
            it.seq() == all,
            many == all.len(),
            receivers@.len() == many,
            roots@.len() == many,
            infos@.len() == it.index(),
            gifts@.len() == it.index(),
            forall|i: int| 0 <= i < many ==> #[trigger] roots@[i] == tree_of(all, i),
            forall|i: int| 0 <= i < many ==> receives(all, i, #[trigger] receivers@[i]),
            forall|i: int|
                0 <= i < it.index() && loads_table(#[trigger] all[i]) is Some ==> holds_loaded(
                    all,
                    i,
                    infos@[i],
                    0,
                ),
            forall|i: int| 0 <= i < it.index() ==> is_gift(all, i, #[trigger] gifts@[i]),
    {
        let at: usize = infos.len();
        assert(row == all[at as int]);
        let receiving: Option<(usize, bool)> = receivers[at];
        let name = given_name(&row);
        let own: bool = row.entry.sql.len() > 0;
        let mut declared: Option<TableInfo> = None;
        let mut index: Option<IndexInfo> = None;
        let mut trigger: Option<Vec<u8>> = None;
        match row.declared {
            Declared::Table(info) => {
                let mut made = info;
                made.root = roots[at];
                declared = Some(made);
            },
            Declared::Index(info) => {
                if own {
                    index = Some(info);
                }
            },
            Declared::Trigger(name) => {
                trigger = Some(name);
            },
            _ => {},
        }
        infos.push(declared);
        let gift = match receiving {
            Some((table, true)) => Gift::Index(table, name, index, roots[at]),
            Some((table, false)) => match trigger {
                Some(name) => Gift::Trigger(table, name),
                None => Gift::Nothing,
            },
            None => Gift::Nothing,
        };
        gifts.push(gift);
        assert(is_gift(all, at as int, gifts@[at as int]));
    }
    let ghost given = gifts@;
    for gift in it: gifts
        invariant
            it.seq() == given,
            given.len() == all.len(),
            infos@.len() == all.len(),
            forall|i: int| 0 <= i < given.len() ==> is_gift(all, i, #[trigger] given[i]),
            forall|i: int|
                0 <= i < all.len() && loads_table(#[trigger] all[i]) is Some ==> holds_loaded(
                    all,
                    i,
                    infos@[i],
                    it.index() as int,
                ),
    {
        let ghost at = it.index() as int;
        let ghost before = infos@;
        assert(is_gift(all, at, given[at]));
        match gift {
            Gift::Nothing => {},
            Gift::Index(table, name, index, root) => {
                assert(loads_table(all[table as int]) is Some);
                let slot = &mut infos[table];
                match slot {
                    Some(info) => {
                        give_index(info, name.as_slice(), index, root);
                    },
                    None => {},
                }
            },
            Gift::Trigger(table, name) => {
                assert(loads_table(all[table as int]) is Some);
                let slot = &mut infos[table];
                match slot {
                    Some(info) => {
                        give_trigger(info, name);
                    },
                    None => {},
                }
            },
        }
        assert forall|i: int| 0 <= i < all.len() && loads_table(#[trigger] all[i]) is Some implies
            holds_loaded(all, i, infos@[i], at + 1) by {
            assert(holds_loaded(all, i, before[i], at));
        }
    }
    let mut tables: Vec<TableInfo> = Vec::with_capacity(order.len());
    proof {
        assert forall|i: int, j: int| 0 <= i < j < order@.len() implies order@[i] != order@[j] by {
            if order@[i] == order@[j] {
                let name = name_loaded(all, order@[i] as int);
                crate::codes::byte_order_reversed(name, name);
                assert(byte_order(
                    name_loaded(all, order@[i] as int),
                    name_loaded(all, order@[j] as int),
                ) is Less);
            }
        }
    }
    assert forall|i: int| 0 <= i < order@.len() implies holds_loaded(
        all,
        #[trigger] order@[i] as int,
        infos@[order@[i] as int],
        all.len() as int,
    ) by {
        assert(order@.contains(order@[i]));
        assert(loads_table(all[order@[i] as int]) is Some);
    }
    for nth in 0..order.len()
        invariant
            by_name(all, order@),
            infos@.len() == all.len(),
            forall|i: int, j: int| 0 <= i < j < order@.len() ==> order@[i] != order@[j],
            tables@.len() == nth,
            forall|i: int|
                0 <= i < nth ==> loaded_upto(
                    all,
                    order@[i] as int,
                    #[trigger] tables@[i],
                    all.len() as int,
                ),
            forall|i: int|
                nth <= i < order@.len() ==> holds_loaded(
                    all,
                    #[trigger] order@[i] as int,
                    infos@[order@[i] as int],
                    all.len() as int,
                ),
    {
        let at: usize = order[nth];
        assert(order@.contains(at));
        let ghost before = infos@;
        let mut held: Option<TableInfo> = None;
        std::mem::swap(&mut held, &mut infos[at]);
        if let Some(info) = held {
            tables.push(info);
        }
        assert forall|i: int| nth < i < order@.len() implies holds_loaded(
            all,
            #[trigger] order@[i] as int,
            infos@[order@[i] as int],
            all.len() as int,
        ) by {
            assert(order@.contains(order@[i]));
            assert(order@[nth as int] != order@[i]);
            assert(infos@[order@[i] as int] == before[order@[i] as int]);
        }
    }
    assert(tables_of(all, order@, tables@));
    tables
}

/// A table is loaded from a row that declares one: any with a rowid, and one without where
/// some column of it has a place in its key.
pub proof fn a_table_is_loaded_as_declared(row: Stored)
    ensures
        loads_table(row) is Some <==> row.entry.kind is Table && row.declared is Table && (
        !row.declared->Table_0.without_rowid || exists|column: int|
            0 <= column < row.declared->Table_0.columns@.len() && (
            #[trigger] row.declared->Table_0.columns@[column]).primary_key_position is Some),
        loads_table(row) is Some ==> loads_table(row)->Some_0 == row.declared->Table_0,
{
    if row.entry.kind is Table && row.declared is Table && row.declared->Table_0.without_rowid {
        let info = row.declared->Table_0;
        let key = primary_key(info);
        if key.len() > 0 {
            let column = key[0];
            crate::rowshape::a_key_holds_its_columns(info, info.columns@.len() as int);
            let keyed = crate::rowshape::keyed_columns(info, info.columns@.len() as int);
            assert(keyed.contains(keyed[0]));
            assert(info.columns@[keyed[0].1].primary_key_position is Some);
        }
        if exists|column: int|
            0 <= column < info.columns@.len() && (
            #[trigger] info.columns@[column]).primary_key_position is Some {
            let column = choose|column: int|
                0 <= column < info.columns@.len() && (
                #[trigger] info.columns@[column]).primary_key_position is Some;
            crate::rowshape::a_key_has_every_column(info, column);
            assert(key.contains(column));
        }
    }
}

/// A name is that of the last table loaded under it.
pub proof fn a_name_is_the_last_tables(rows: Seq<Stored>, name: Seq<u8>, upto: int, at: int)
    requires
        0 <= at < upto <= rows.len(),
        loads_table(rows[at]) is Some,
        loads_table(rows[at])->Some_0.folded@ == name,
        forall|later: int|
            at < later < upto && loads_table(#[trigger] rows[later]) is Some ==> loads_table(
                rows[later],
            )->Some_0.folded@ != name,
    ensures
        loaded_as(rows, name, upto) == Some(at),
        upto == rows.len() && folded(rows[at].entry.table@) == name ==> owner(rows, at) == Some(at),
    decreases upto,
{
    if at < upto - 1 {
        let _ = rows[upto - 1];
        a_name_is_the_last_tables(rows, name, upto - 1, at);
    }
}

/// A name that no table was loaded under is nobody's.
pub proof fn a_name_may_be_nobodys(rows: Seq<Stored>, name: Seq<u8>, upto: int)
    requires
        0 <= upto <= rows.len(),
        forall|i: int|
            0 <= i < upto && loads_table(#[trigger] rows[i]) is Some ==> loads_table(
                rows[i],
            )->Some_0.folded@ != name,
    ensures
        loaded_as(rows, name, upto) is None,
    decreases upto,
{
    if upto > 0 {
        let _ = rows[upto - 1];
        a_name_may_be_nobodys(rows, name, upto - 1);
    }
}

/// What is kept of a catalog: every table that is loaded or a module's, every view, every
/// trigger of a table or a view that is there, and every index of a table that is there
/// whose own statement could be read, or, where it has none, that its table declares or
/// an index of that name was given to before. What is not kept is named, and so is a
/// trigger that could not be read.
pub proof fn a_row_is_kept_where_it_belongs(rows: Seq<Stored>, at: int)
    requires
        0 <= at < rows.len(),
    ensures
        ({
            let row = rows[at];
            let name = folded(row.entry.name@);
            let table = loaded_as(rows, folded(row.entry.table@), rows.len() as int);
            &&& row.entry.kind is Table ==> (kept(rows, at) <==> row.declared is Virtual
                || loads_table(row) is Some)
            &&& row.entry.kind is View ==> kept(rows, at) && !passed_over(rows, at)
            &&& row.entry.kind is Trigger ==> (kept(rows, at) <==> table is Some || exists|
                view: int,
            |
                0 <= view < rows.len() && (#[trigger] rows[view]).entry.kind is View && folded(
                    rows[view].entry.name@,
                ) == folded(row.entry.table@))
            &&& row.entry.kind is Index && row.entry.sql@.len() > 0 ==> (kept(rows, at) <==> table
                is Some && row.declared is Index)
            &&& row.entry.kind is Index && row.entry.sql@.len() == 0 ==> (kept(rows, at) <==> table
                is Some && ((exists|i: int|
                0 <= i < loads_table(rows[table->Some_0])->Some_0.indexes@.len() && (
                #[trigger] loads_table(rows[table->Some_0])->Some_0.indexes@[i]).folded@ == name)
                || (exists|earlier: int|
                0 <= earlier < at && (#[trigger] rows[earlier]).entry.kind is Index
                    && rows[earlier].entry.sql@.len() > 0 && loaded_as(
                    rows,
                    folded(rows[earlier].entry.table@),
                    rows.len() as int,
                ) == table && rows[earlier].declared is Index
                    && rows[earlier].declared->Index_0.folded@ == name)))
            &&& row.entry.kind is Trigger ==> (passed_over(rows, at) <==> !kept(rows, at)
                || !(row.declared is Trigger))
            &&& !(row.entry.kind is Trigger) ==> (passed_over(rows, at) <==> !kept(rows, at))
        }),
{
    let row = rows[at];
    let name = folded(row.entry.name@);
    an_owner_is_loaded(rows, folded(row.entry.table@), rows.len() as int);
    if row.entry.kind is Trigger {
        if exists|view: int|
            0 <= view < rows.len() && (#[trigger] rows[view]).entry.kind is View && folded(
                rows[view].entry.name@,
            ) == folded(row.entry.table@) {
            let view = choose|view: int|
                0 <= view < rows.len() && (#[trigger] rows[view]).entry.kind is View && folded(
                    rows[view].entry.name@,
                ) == folded(row.entry.table@);
            assert(is_view_of(rows, at, view));
        }
    }
    if row.entry.kind is Index {
        if row.entry.sql@.len() > 0 {
            if owner(rows, at) is Some && row.declared is Index {
                assert(index_loaded(rows, at, row.declared->Index_0));
            }
        } else if owner(rows, at) is Some {
            let table = owner(rows, at)->Some_0;
            let info = loads_table(rows[table])->Some_0;
            if declares_index(info, name) {
                let i = choose|i: int|
                    0 <= i < info.indexes@.len() && (#[trigger] info.indexes@[i]).folded@ == name;
                let first = the_first_index(info, row.entry.name@, i);
                assert(index_loaded(rows, at, info.indexes@[first]));
            } else {
                if loads_index(rows, at) {
                    let index = choose|index: IndexInfo| #[trigger] index_loaded(rows, at, index);
                    let earlier = choose|earlier: int| #[trigger]
                        first_to_give(rows, at, earlier) && rows[earlier].declared
                            == Declared::Index(index);
                    assert(gave_index(rows, at, earlier));
                    assert(rows[earlier].entry.kind is Index);
                }
                if exists|earlier: int|
                    0 <= earlier < at && (#[trigger] rows[earlier]).entry.kind is Index
                        && rows[earlier].entry.sql@.len() > 0 && loaded_as(
                        rows,
                        folded(rows[earlier].entry.table@),
                        rows.len() as int,
                    ) == owner(rows, at) && rows[earlier].declared is Index
                        && rows[earlier].declared->Index_0.folded@ == name {
                    let earlier = choose|earlier: int|
                        0 <= earlier < at && (#[trigger] rows[earlier]).entry.kind is Index
                            && rows[earlier].entry.sql@.len() > 0 && loaded_as(
                            rows,
                            folded(rows[earlier].entry.table@),
                            rows.len() as int,
                        ) == owner(rows, at) && rows[earlier].declared is Index
                            && rows[earlier].declared->Index_0.folded@ == name;
                    assert(gave_index(rows, at, earlier));
                    let first = the_first_to_give(rows, at, earlier);
                    assert(first_to_give(rows, at, first));
                    assert(gave_index(rows, at, first));
                    assert(index_loaded(rows, at, rows[first].declared->Index_0));
                }
            }
        }
    }
}

/// Where one index of a name is, there is a first.
proof fn the_first_index(info: TableInfo, name: Seq<u8>, at: int) -> (first: int)
    requires
        0 <= at < info.indexes@.len(),
        info.indexes@[at].folded@ == folded(name),
    ensures
        first_index(info, name, first),
    decreases at,
{
    if forall|i: int| 0 <= i < at ==> (#[trigger] info.indexes@[i]).folded@ != folded(name) {
        at
    } else {
        let i = choose|i: int|
            0 <= i < at && (#[trigger] info.indexes@[i]).folded@ == folded(name);
        the_first_index(info, name, i)
    }
}

/// Where one row gave an index, there is a first that did.
proof fn the_first_to_give(rows: Seq<Stored>, at: int, earlier: int) -> (first: int)
    requires
        gave_index(rows, at, earlier),
    ensures
        first_to_give(rows, at, first),
    decreases earlier,
{
    if forall|i: int| 0 <= i < earlier ==> !(#[trigger] gave_index(rows, at, i)) {
        earlier
    } else {
        let i = choose|i: int| 0 <= i < earlier && #[trigger] gave_index(rows, at, i);
        the_first_to_give(rows, at, i)
    }
}

/// A row has a tree where it is a table that is no module's or an index of a table that is
/// there, and the tree is the one its own file gave it.
pub proof fn a_rows_tree_is_its_files(rows: Seq<Stored>, at: int)
    requires
        0 <= at < rows.len(),
    ensures
        ({
            let row = rows[at];
            let treed = (row.entry.kind is Table && !(row.declared is Virtual)) || (row.entry.kind
                is Index && loaded_as(rows, folded(row.entry.table@), rows.len() as int) is Some);
            &&& takes_a_tree(rows, at) <==> treed
            &&& treed && row.local is Some ==> tree_of(rows, at) == row.local->Some_0
            &&& !treed || row.local is None ==> tree_of(rows, at) == 0
        }),
{
}

/// The rows that are picked are those that pass, each kind after the one before and each
/// kind in the order of the catalog.
pub proof fn rows_are_picked_in_passes(rows: Seq<Stored>, question: Question, at: int)
    requires
        0 <= at < rows.len(),
    ensures
        in_passes(rows, question).contains(at) <==> answer_of(rows, question, at),
        in_passes(rows, question) == chosen(rows, ObjectKind::Table, question, rows.len() as int)
            + chosen(rows, ObjectKind::Index, question, rows.len() as int) + chosen(
            rows,
            ObjectKind::View,
            question,
            rows.len() as int,
        ) + chosen(rows, ObjectKind::Trigger, question, rows.len() as int),
        question is Kept ==> (answer_of(rows, question, at) <==> kept(rows, at)),
        question is PassedOver ==> (answer_of(rows, question, at) <==> passed_over(rows, at)),
        question is Attached ==> (answer_of(rows, question, at) <==> kept(rows, at)
            && takes_a_tree(rows, at)),
        question is Nameless ==> (answer_of(rows, question, at) <==> takes_a_tree(rows, at)
            && rows[at].local is None),
{
    let many = rows.len() as int;
    let a = chosen(rows, ObjectKind::Table, question, many);
    let b = chosen(rows, ObjectKind::Index, question, many);
    let c = chosen(rows, ObjectKind::View, question, many);
    let d = chosen(rows, ObjectKind::Trigger, question, many);
    let all = in_passes(rows, question);
    rows_of_a_kind_are_picked(rows, ObjectKind::Table, question, many, at);
    rows_of_a_kind_are_picked(rows, ObjectKind::Index, question, many, at);
    rows_of_a_kind_are_picked(rows, ObjectKind::View, question, many, at);
    rows_of_a_kind_are_picked(rows, ObjectKind::Trigger, question, many, at);
    if all.contains(at) {
        let i = choose|i: int| 0 <= i < all.len() && all[i] == at;
        if i < a.len() {
            assert(a[i] == at);
        } else if i < a.len() + b.len() {
            assert(b[i - a.len()] == at);
        } else if i < a.len() + b.len() + c.len() {
            assert(c[i - a.len() - b.len()] == at);
        } else {
            assert(d[i - a.len() - b.len() - c.len()] == at);
        }
    }
    if answer_of(rows, question, at) {
        match rows[at].entry.kind {
            ObjectKind::Table => {
                let i = choose|i: int| 0 <= i < a.len() && a[i] == at;
                assert(all[i] == at);
            },
            ObjectKind::Index => {
                let i = choose|i: int| 0 <= i < b.len() && b[i] == at;
                assert(all[a.len() + i] == at);
            },
            ObjectKind::View => {
                let i = choose|i: int| 0 <= i < c.len() && c[i] == at;
                assert(all[a.len() + b.len() + i] == at);
            },
            ObjectKind::Trigger => {
                let i = choose|i: int| 0 <= i < d.len() && d[i] == at;
                assert(all[a.len() + b.len() + c.len() + i] == at);
            },
        }
    }
}

/// The rows picked of one kind are those of the kind that pass, in the order of the
/// catalog.
pub proof fn rows_of_a_kind_are_picked(
    rows: Seq<Stored>,
    kind: ObjectKind,
    question: Question,
    upto: int,
    at: int,
)
    requires
        0 <= upto <= rows.len(),
    ensures
        chosen(rows, kind, question, upto).contains(at) <==> 0 <= at < upto && rows[at].entry.kind
            == kind && answer_of(rows, question, at),
        forall|i: int, j: int|
            0 <= i < j < chosen(rows, kind, question, upto).len() ==> #[trigger] chosen(
                rows,
                kind,
                question,
                upto,
            )[i] < #[trigger] chosen(rows, kind, question, upto)[j],
        forall|i: int|
            0 <= i < chosen(rows, kind, question, upto).len() ==> 0 <= #[trigger] chosen(
                rows,
                kind,
                question,
                upto,
            )[i] < upto,
    decreases upto,
{
    if upto > 0 {
        rows_of_a_kind_are_picked(rows, kind, question, upto - 1, at);
        let less = chosen(rows, kind, question, upto - 1);
        let all = chosen(rows, kind, question, upto);
        if less.contains(at) {
            let i = choose|i: int| 0 <= i < less.len() && less[i] == at;
            assert(all[i] == at);
        }
        if all.len() > less.len() {
            assert(all[all.len() - 1] == upto - 1);
        }
        if all.contains(at) && at != upto - 1 {
            let i = choose|i: int| 0 <= i < all.len() && all[i] == at;
            assert(less[i] == at);
        }
    }
}

/// The highest identifier is that of a tree, and no tree's is higher.
pub proof fn no_tree_is_higher(rows: Seq<Stored>, upto: int, at: int) -> (highest: Option<int>)
    requires
        0 <= upto <= rows.len(),
    ensures
        0 <= at < upto && takes_a_tree(rows, at) ==> tree_of(rows, at) <= highest_of(rows, upto),
        highest is None ==> highest_of(rows, upto) == 0,
        highest matches Some(which) ==> 0 <= which < upto && takes_a_tree(rows, which) && tree_of(
            rows,
            which,
        ) == highest_of(rows, upto),
    decreases upto,
{
    if upto > 0 {
        let before = no_tree_is_higher(rows, upto - 1, at);
        if takes_a_tree(rows, upto - 1) && tree_of(rows, upto - 1) > highest_of(rows, upto - 1) {
            Some(upto - 1)
        } else {
            before
        }
    } else {
        None
    }
}

/// An index that holds every row of its table is offered in its place, after those before
/// it; one that holds only some of them, or another table's, is not.
pub proof fn a_whole_index_is_offered(
    rows: Seq<Stored>,
    table: u32,
    at: int,
    owning: int,
    index: IndexInfo,
)
    requires
        0 <= at < rows.len(),
        rows[at].entry.kind is Index,
        owner(rows, at) == Some(owning),
        index_loaded(rows, at, index),
    ensures
        index.partial_sql is None && tree_of(rows, owning) == table ==> covering_of(
            rows,
            table,
            at + 1,
        ) == covering_of(rows, table, at) + seq![tree_of(rows, at)],
        index.partial_sql is Some || tree_of(rows, owning) != table ==> covering_of(
            rows,
            table,
            at + 1,
        ) == covering_of(rows, table, at),
        covering_of(rows, table, 0).len() == 0,
{
    if stands_in(rows, at) {
        let other = choose|other: IndexInfo| #[trigger]
            index_loaded(rows, at, other) && other.partial_sql is None;
        one_index_is_loaded(rows, at, index, other);
    }
    if index.partial_sql is None {
        assert(stands_in(rows, at));
    }
    if index.partial_sql is None && tree_of(rows, owning) == table {
        assert(covering_of(rows, table, at + 1) =~= covering_of(rows, table, at) + seq![
            tree_of(rows, at),
        ]);
    }
}

/// An index given to a table takes its tree's root: the first of its name keeps all else
/// it is, and one of a new name comes last.
pub proof fn an_index_takes_its_place(
    indexes: Seq<IndexInfo>,
    name: Seq<u8>,
    index: Option<IndexInfo>,
    root: u32,
)
    ensures
        forall|at: int|
            0 <= at < indexes.len() && (#[trigger] indexes[at]).folded@ == name && (forall|i: int|
                0 <= i < at ==> (#[trigger] indexes[i]).folded@ != name) ==> with_index(
                indexes,
                name,
                index,
                root,
            ) == indexes.update(at, (IndexInfo { root, ..indexes[at] })),
        (forall|i: int| 0 <= i < indexes.len() ==> (#[trigger] indexes[i]).folded@ != name)
            ==> with_index(indexes, name, index, root) == (match index {
            Some(given) => indexes.push((IndexInfo { root, ..given })),
            None => indexes,
        }),
{
    assert forall|at: int|
        0 <= at < indexes.len() && (#[trigger] indexes[at]).folded@ == name && (forall|i: int|
            0 <= i < at ==> (#[trigger] indexes[i]).folded@ != name) implies with_index(
        indexes,
        name,
        index,
        root,
    ) == indexes.update(at, (IndexInfo { root, ..indexes[at] })) by {
        nothing_is_called(indexes, name, at);
        called_stays(indexes, name, at + 1, indexes.len() as int);
    }
    if forall|i: int| 0 <= i < indexes.len() ==> (#[trigger] indexes[i]).folded@ != name {
        nothing_is_called(indexes, name, indexes.len() as int);
    }
}

/// No index is found by a name that none has.
proof fn nothing_is_called(indexes: Seq<IndexInfo>, name: Seq<u8>, upto: int)
    requires
        0 <= upto <= indexes.len(),
        forall|i: int| 0 <= i < upto ==> (#[trigger] indexes[i]).folded@ != name,
    ensures
        called_at(indexes, name, upto) is None,
    decreases upto,
{
    if upto > 0 {
        nothing_is_called(indexes, name, upto - 1);
        assert(indexes[upto - 1].folded@ != name);
    }
}

/// An index is given under its own name: the one its statement declares, or its row's
/// where it has no statement; what its table has of that name is not declared again.
pub proof fn an_index_is_given_under_its_name(row: Stored)
    ensures
        row.entry.sql@.len() == 0 ==> name_given(row) == folded(row.entry.name@) && index_given(row)
            is None,
        row.entry.sql@.len() > 0 && row.declared is Index ==> name_given(row)
            == row.declared->Index_0.folded@ && index_given(row) == Some(row.declared->Index_0),
{
}

/// A trigger of a table that could be read comes before those given before it.
pub proof fn a_trigger_comes_first(rows: Seq<Stored>, table: int, at: int)
    requires
        0 <= at < rows.len(),
    ensures
        rows[at].entry.kind is Trigger && owner(rows, at) == Some(table) && rows[at].declared
            is Trigger ==> triggers_given(rows, table, at + 1) == seq![
            rows[at].declared->Trigger_0,
        ] + triggers_given(rows, table, at),
        !(rows[at].entry.kind is Trigger && owner(rows, at) == Some(table) && rows[at].declared
            is Trigger) ==> triggers_given(rows, table, at + 1) == triggers_given(rows, table, at),
{
    if rows[at].entry.kind is Trigger && owner(rows, at) == Some(table) && rows[at].declared
        is Trigger {
        assert(triggers_given(rows, table, at + 1) =~= seq![rows[at].declared->Trigger_0]
            + triggers_given(rows, table, at));
    }
}

} // verus!
