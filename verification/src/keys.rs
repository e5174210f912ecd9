//! Foreign keys: which ones are swept, which ones are checked, and when a sweep
//! has come to rest.
//!
//! The statements themselves are written elsewhere; what is decided here is
//! which keys get one.

use vstd::prelude::*;

use crate::schema::{ForeignKeyInfo, TableInfo, TableKind};
use crate::text::{
    append, append_shown, ascii, begins, begins_with, decimal, same, shown, write_decimal,
};

verus! {

/// How many passes a sweep makes before it is given up.
pub const MAX_SWEEP_PASSES: usize = 1_000_000;

/// Whether a foreign key can lead back to the table that declares it, somewhere
/// in a schema.
pub open spec fn some_cyclic(tables: Seq<TableInfo>) -> bool {
    exists|t: int, k: int|
        0 <= t < tables.len() && 0 <= k < (#[trigger] tables[t]).foreign_keys@.len() && (
        #[trigger] tables[t].foreign_keys@[k]).cyclic
}

/// Whether a foreign key is checked at the commit, somewhere in a schema.
pub open spec fn some_deferred(tables: Seq<TableInfo>) -> bool {
    exists|t: int, k: int|
        0 <= t < tables.len() && 0 <= k < (#[trigger] tables[t]).foreign_keys@.len() && (
        #[trigger] tables[t].foreign_keys@[k]).deferred
}

/// Reports whether a schema has a foreign key that can lead back to the table
/// that declares it.
pub fn has_cyclic_foreign_keys(tables: &[TableInfo]) -> (answer: bool)
    ensures
        answer == some_cyclic(tables@),
        forall|t: int, k: int|
            0 <= t < tables@.len() && 0 <= k < tables@[t].foreign_keys@.len() && (
            #[trigger] tables@[t].foreign_keys@[k]).cyclic ==> answer,
        answer ==> exists|t: int, k: int|
            0 <= t < tables@.len() && 0 <= k < tables@[t].foreign_keys@.len() && (
            #[trigger] tables@[t].foreign_keys@[k]).cyclic,
{
    for t in 0..tables.len()
        invariant
            forall|i: int, k: int|
                0 <= i < t && 0 <= k < (#[trigger] tables@[i]).foreign_keys@.len() ==> !(
                #[trigger] tables@[i].foreign_keys@[k]).cyclic,
    {
        let keys = &tables[t].foreign_keys;
        for k in 0..keys.len()
            invariant
                t < tables@.len(),
                *keys == tables@[t as int].foreign_keys,
                forall|i: int| 0 <= i < k ==> !(#[trigger] keys@[i]).cyclic,
        {
            if keys[k].cyclic {
                assert(tables@[t as int].foreign_keys@[k as int].cyclic);
                return true;
            }
        }
        assert forall|i: int, k: int|
            0 <= i < t + 1 && 0 <= k < (#[trigger] tables@[i]).foreign_keys@.len() implies !(
        #[trigger] tables@[i].foreign_keys@[k]).cyclic by {
            if i == t {
                assert(!keys@[k].cyclic);
            }
        }
    }
    false
}

/// Reports whether a connection has foreign keys to check at the commit: it was
/// told to leave them all until then, or the schema leaves one.
pub fn has_deferred_foreign_keys(tables: &[TableInfo], defer: bool) -> (answer: bool)
    ensures
        answer == (defer || some_deferred(tables@)),
        defer ==> answer,
        forall|t: int, k: int|
            0 <= t < tables@.len() && 0 <= k < tables@[t].foreign_keys@.len() && (
            #[trigger] tables@[t].foreign_keys@[k]).deferred ==> answer,
        answer && !defer ==> exists|t: int, k: int|
            0 <= t < tables@.len() && 0 <= k < tables@[t].foreign_keys@.len() && (
            #[trigger] tables@[t].foreign_keys@[k]).deferred,
{
    if defer {
        return true;
    }
    for t in 0..tables.len()
        invariant
            !defer,
            forall|i: int, k: int|
                0 <= i < t && 0 <= k < (#[trigger] tables@[i]).foreign_keys@.len() ==> !(
                #[trigger] tables@[i].foreign_keys@[k]).deferred,
    {
        let keys = &tables[t].foreign_keys;
        for k in 0..keys.len()
            invariant
                t < tables@.len(),
                *keys == tables@[t as int].foreign_keys,
                forall|i: int| 0 <= i < k ==> !(#[trigger] keys@[i]).deferred,
        {
            if keys[k].deferred {
                assert(tables@[t as int].foreign_keys@[k as int].deferred);
                return true;
            }
        }
        assert forall|i: int, k: int|
            0 <= i < t + 1 && 0 <= k < (#[trigger] tables@[i]).foreign_keys@.len() implies !(
        #[trigger] tables@[i].foreign_keys@[k]).deferred by {
            if i == t {
                assert(!keys@[k].deferred);
            }
        }
    }
    false
}

/// Where the first table of a folded name stands.
pub open spec fn parent_at(tables: Seq<TableInfo>, name: Seq<u8>, from: int) -> Option<int>
    decreases tables.len() - from,
{
    if from < 0 || from >= tables.len() {
        None
    } else if tables[from].folded@ == name {
        Some(from)
    } else {
        parent_at(tables, name, from + 1)
    }
}

/// Returns where the first table of a folded name stands.
fn find_parent(tables: &[TableInfo], name: &[u8]) -> (found: Option<usize>)
    ensures
        match found {
            Some(at) => parent_at(tables@, name@, 0) == Some(at as int) && at < tables@.len(),
            None => parent_at(tables@, name@, 0) is None,
        },
{
    for at in 0..tables.len()
        invariant
            parent_at(tables@, name@, 0) == parent_at(tables@, name@, at as int),
    {
        if same(tables[at].folded.as_slice(), name) {
            return Some(at);
        }
    }
    None
}

/// Which of a table's foreign keys a walk is after.
#[derive(Clone, Copy, Debug, PartialEq, Eq, Structural)]
pub enum Wanted {
    /// The ones that can lead back to the table.
    Cyclic,
    /// The ones that are checked at the commit.
    Deferred,
    /// All of them.
    Every,
}

/// One foreign key, by the places of its child, its parent and itself.
#[derive(Clone, Copy, Debug, PartialEq, Eq, Structural)]
pub struct KeyPlace {
    /// The child table.
    pub child: usize,
    /// The key among the child's.
    pub key: usize,
    /// The parent table.
    pub parent: usize,
}

/// Whether a walk is after a foreign key.
pub open spec fn is_wanted(key: ForeignKeyInfo, wanted: Wanted) -> bool {
    match wanted {
        Wanted::Cyclic => key.cyclic,
        Wanted::Deferred => key.deferred,
        Wanted::Every => true,
    }
}

/// The wanted keys among the first of one table's whose parents are there.
pub open spec fn keys_in(
    tables: Seq<TableInfo>,
    child: int,
    wanted: Wanted,
    upto: int,
) -> Seq<KeyPlace>
    decreases upto,
{
    if upto <= 0 {
        Seq::empty()
    } else {
        let key = tables[child].foreign_keys@[upto - 1];
        let before = keys_in(tables, child, wanted, upto - 1);
        match parent_at(tables, key.parent_folded@, 0) {
            Some(parent) => if is_wanted(key, wanted) {
                before.push(
                    KeyPlace {
                        child: child as usize,
                        key: (upto - 1) as usize,
                        parent: parent as usize,
                    },
                )
            } else {
                before
            },
            None => before,
        }
    }
}

/// Whether a table's foreign keys are swept.
pub open spec fn swept(tables: Seq<TableInfo>, child: int) -> bool {
    tables[child].kind is Table
}

/// Whether a table's foreign keys are checked: it is a table, it is not one of
/// the engine's own, and it is the one asked about when one is.
pub open spec fn checked(tables: Seq<TableInfo>, child: int, only: Option<Seq<u8>>) -> bool {
    &&& tables[child].kind is Table
    &&& !begins(tables[child].folded@, ascii("sqlite_"))
    &&& only matches Some(name) ==> tables[child].folded@ == name
}

/// The keys swept in the first of some tables.
pub open spec fn sweeps_of(tables: Seq<TableInfo>, upto: int) -> Seq<KeyPlace>
    decreases upto,
{
    if upto <= 0 {
        Seq::empty()
    } else if swept(tables, upto - 1) {
        sweeps_of(tables, upto - 1) + keys_in(
            tables,
            upto - 1,
            Wanted::Cyclic,
            tables[upto - 1].foreign_keys@.len() as int,
        )
    } else {
        sweeps_of(tables, upto - 1)
    }
}

/// The wanted keys checked in the first of some tables.
pub open spec fn checks_of(
    tables: Seq<TableInfo>,
    only: Option<Seq<u8>>,
    wanted: Wanted,
    upto: int,
) -> Seq<KeyPlace>
    decreases upto,
{
    if upto <= 0 {
        Seq::empty()
    } else if checked(tables, upto - 1, only) {
        checks_of(tables, only, wanted, upto - 1) + keys_in(
            tables,
            upto - 1,
            wanted,
            tables[upto - 1].foreign_keys@.len() as int,
        )
    } else {
        checks_of(tables, only, wanted, upto - 1)
    }
}

/// Adds the wanted keys of one table.
fn add_keys(tables: &[TableInfo], child: usize, wanted: Wanted, places: &mut Vec<KeyPlace>)
    requires
        child < tables@.len(),
    ensures
        final(places)@ == old(places)@ + keys_in(
            tables@,
            child as int,
            wanted,
            tables@[child as int].foreign_keys@.len() as int,
        ),
{
    let keys = &tables[child].foreign_keys;
    let ghost before = places@;
    assert(before + keys_in(tables@, child as int, wanted, 0) =~= before);
    for k in 0..keys.len()
        invariant
            child < tables@.len(),
            *keys == tables@[child as int].foreign_keys,
            places@ =~= before + keys_in(tables@, child as int, wanted, k as int),
    {
        let meant: bool = match wanted {
            Wanted::Cyclic => keys[k].cyclic,
            Wanted::Deferred => keys[k].deferred,
            Wanted::Every => true,
        };
        if meant {
            match find_parent(tables, keys[k].parent_folded.as_slice()) {
                Some(parent) => places.push(KeyPlace { child, key: k, parent }),
                None => {},
            }
        }
    }
}

/// Returns the keys a sweep runs a statement for, in order.
///
/// None when foreign keys are not enforced, or when none can lead back to its
/// own table.
pub fn sweeps(tables: &[TableInfo], enforced: bool) -> (places: Vec<KeyPlace>)
    ensures
        places@ == if enforced && some_cyclic(tables@) {
            sweeps_of(tables@, tables@.len() as int)
        } else {
            Seq::empty()
        },
{
    let mut places: Vec<KeyPlace> = Vec::new();
    if !enforced || !has_cyclic_foreign_keys(tables) {
        return places;
    }
    for t in 0..tables.len()
        invariant
            places@ == sweeps_of(tables@, t as int),
    {
        let table: bool = match tables[t].kind {
            TableKind::Table => true,
            _ => false,
        };
        if table {
            add_keys(tables, t, Wanted::Cyclic, &mut places);
        }
    }
    places
}

/// Returns the wanted keys whose rows are looked at for parents that are not
/// there, in order.
fn checks(tables: &[TableInfo], only: Option<&[u8]>, wanted: Wanted) -> (places: Vec<KeyPlace>)
    ensures
        places@ == checks_of(
            tables@,
            match only {
                Some(name) => Some(name@),
                None => None,
            },
            wanted,
            tables@.len() as int,
        ),
{
    let mut places: Vec<KeyPlace> = Vec::new();
    let ghost asked = match only {
        Some(name) => Some(name@),
        None => None,
    };
    for t in 0..tables.len()
        invariant
            asked == (match only {
                Some(name) => Some(name@),
                None => None,
            }),
            places@ == checks_of(tables@, asked, wanted, t as int),
    {
        let table: bool = match tables[t].kind {
            TableKind::Table => true,
            _ => false,
        };
        let meant: bool = match only {
            Some(name) => same(tables[t].folded.as_slice(), name),
            None => true,
        };
        if table && meant && !begins_with(tables[t].folded.as_slice(), "sqlite_".as_bytes()) {
            add_keys(tables, t, wanted, &mut places);
        }
    }
    places
}

/// Returns the keys whose rows are looked at for parents that are not there, in
/// order: every one, or one table's.
pub fn violation_queries(tables: &[TableInfo], only: Option<&[u8]>) -> (places: Vec<KeyPlace>)
    ensures
        places@ == checks_of(
            tables@,
            match only {
                Some(name) => Some(name@),
                None => None,
            },
            Wanted::Every,
            tables@.len() as int,
        ),
{
    checks(tables, only, Wanted::Every)
}

/// Returns the keys that are checked at a commit, in order.
///
/// None where foreign keys are not enforced, every one where the transaction
/// left them all until then, and otherwise the ones the schema leaves.
pub fn check_deferred_foreign_keys(tables: &[TableInfo], enforced: bool, defer: bool) -> (places:
    Vec<KeyPlace>)
    ensures
        places@ == (if !enforced {
            Seq::empty()
        } else if defer {
            checks_of(tables@, None, Wanted::Every, tables@.len() as int)
        } else {
            checks_of(tables@, None, Wanted::Deferred, tables@.len() as int)
        }),
{
    if !enforced {
        return Vec::new();
    }
    if defer {
        checks(tables, None, Wanted::Every)
    } else {
        checks(tables, None, Wanted::Deferred)
    }
}

/// Nothing is checked at a commit unless something was left until then.
pub proof fn nothing_deferred_is_checked(tables: Seq<TableInfo>, upto: int)
    requires
        !some_deferred(tables),
        0 <= upto <= tables.len(),
    ensures
        checks_of(tables, None, Wanted::Deferred, upto).len() == 0,
    decreases upto,
{
    if upto > 0 {
        nothing_deferred_is_checked(tables, upto - 1);
        no_deferred_key(tables, upto - 1, tables[upto - 1].foreign_keys@.len() as int);
    }
}

/// A table of a schema that leaves no key until the commit has none to check.
proof fn no_deferred_key(tables: Seq<TableInfo>, child: int, upto: int)
    requires
        !some_deferred(tables),
        0 <= child < tables.len(),
        0 <= upto <= tables[child].foreign_keys@.len(),
    ensures
        keys_in(tables, child, Wanted::Deferred, upto).len() == 0,
    decreases upto,
{
    if upto > 0 {
        no_deferred_key(tables, child, upto - 1);
        assert(!tables[child].foreign_keys@[upto - 1].deferred);
    }
}

/// The number a foreign key is reported by, zero for one past what a number can
/// be.
pub open spec fn key_number(key: ForeignKeyInfo) -> u16 {
    if key.id <= u16::MAX {
        key.id as u16
    } else {
        0
    }
}

/// Returns the number a foreign key is reported by.
pub fn reported_key(key: &ForeignKeyInfo) -> (number: u16)
    ensures
        number == key_number(*key),
        key.id <= u16::MAX ==> number == key.id,
        key.id > u16::MAX ==> number == 0,
{
    if key.id <= 0xFFFF {
        key.id as u16
    } else {
        0
    }
}

/// What is said of a key whose parent row is not there at the commit.
pub open spec fn deferred_said(key: u16, child: Seq<u8>) -> Seq<u8> {
    ascii("deferred key ") + decimal(key as nat) + ascii(" of ") + shown(child)
}

/// Returns what is said of a key whose parent row is not there at the commit.
pub fn deferred_detail(key: u16, child: &[u8]) -> (said: Vec<u8>)
    ensures
        said@ == deferred_said(key, child@),
        said@ == ascii("deferred key ") + decimal(key as nat) + ascii(" of ") + shown(child@),
{
    let mut said: Vec<u8> = Vec::new();
    append(&mut said, "deferred key ".as_bytes());
    write_decimal(key as u64, &mut said);
    append(&mut said, " of ".as_bytes());
    append_shown(&mut said, child);
    assert(said@ =~= deferred_said(key, child@));
    said
}

/// Refuses a commit when one of the checked keys found a row whose parent is not
/// there, and returns which was the first.
pub fn check_deferred(found: &[bool]) -> (answer: Result<(), usize>)
    ensures
        match answer {
            Ok(_) => forall|i: int| 0 <= i < found@.len() ==> !(#[trigger] found@[i]),
            Err(at) => at < found@.len() && found@[at as int] && forall|i: int|
                0 <= i < at ==> !(#[trigger] found@[i]),
        },
{
    for at in 0..found.len()
        invariant
            forall|i: int| 0 <= i < at ==> !(#[trigger] found@[i]),
    {
        if found[at] {
            return Err(at);
        }
    }
    Ok(())
}

/// What a sweep does after a pass.
#[derive(Clone, Copy, Debug, PartialEq, Eq, Structural)]
pub enum Sweep {
    /// It makes another pass.
    Again,
    /// It is done: the pass changed nothing.
    Settled,
    /// It is given up.
    Unsettled,
}

/// Returns what a sweep does after a pass, the running total of changed rows
/// being what it was before the pass and after it.
pub fn after_pass(passes: usize, before: i64, after: i64) -> (next: Sweep)
    ensures
        next == (if before == after {
            Sweep::Settled
        } else if passes + 1 >= MAX_SWEEP_PASSES {
            Sweep::Unsettled
        } else {
            Sweep::Again
        }),
        next is Settled <==> before == after,
        next is Unsettled <==> before != after && passes >= 999_999,
{
    if before == after {
        Sweep::Settled
    } else if passes >= MAX_SWEEP_PASSES - 1 {
        Sweep::Unsettled
    } else {
        Sweep::Again
    }
}

/// Every key a sweep runs for can lead back to the table that declares it, and
/// its parent is the table it names.
pub proof fn a_sweep_is_of_cyclic_keys(tables: Seq<TableInfo>, upto: int, at: int)
    requires
        0 <= upto <= tables.len() <= usize::MAX,
        forall|t: int|
            0 <= t < tables.len() ==> (#[trigger] tables[t]).foreign_keys@.len() <= usize::MAX,
        0 <= at < sweeps_of(tables, upto).len(),
    ensures
        ({
            let place = sweeps_of(tables, upto)[at];
            let key = tables[place.child as int].foreign_keys@[place.key as int];
            &&& place.child < tables.len()
            &&& tables[place.child as int].kind is Table
            &&& place.key < tables[place.child as int].foreign_keys@.len()
            &&& key.cyclic
            &&& parent_at(tables, key.parent_folded@, 0) == Some(place.parent as int)
        }),
    decreases upto,
{
    if upto > 0 {
        let before = sweeps_of(tables, upto - 1);
        if at < before.len() {
            a_sweep_is_of_cyclic_keys(tables, upto - 1, at);
        } else {
            keys_are_the_tables_own(
                tables,
                upto - 1,
                Wanted::Cyclic,
                tables[upto - 1].foreign_keys@.len() as int,
                at - before.len(),
            );
        }
    }
}

/// A wanted key of a table is one of its own, and its parent is there.
proof fn keys_are_the_tables_own(
    tables: Seq<TableInfo>,
    child: int,
    wanted: Wanted,
    upto: int,
    at: int,
)
    requires
        0 <= child < tables.len() <= usize::MAX,
        0 <= upto <= tables[child].foreign_keys@.len() <= usize::MAX,
        0 <= at < keys_in(tables, child, wanted, upto).len(),
    ensures
        ({
            let place = keys_in(tables, child, wanted, upto)[at];
            let key = tables[child].foreign_keys@[place.key as int];
            &&& place.child == child
            &&& place.key < upto
            &&& wanted is Cyclic ==> key.cyclic
            &&& parent_at(tables, key.parent_folded@, 0) == Some(place.parent as int)
        }),
    decreases upto,
{
    let before = keys_in(tables, child, wanted, upto - 1);
    if upto > 0 {
        if at < before.len() {
            keys_are_the_tables_own(tables, child, wanted, upto - 1, at);
        } else {
            parent_stands(tables, tables[child].foreign_keys@[upto - 1].parent_folded@, 0);
        }
    }
}

/// The first table of a name is one of the tables.
proof fn parent_stands(tables: Seq<TableInfo>, name: Seq<u8>, from: int)
    requires
        0 <= from,
    ensures
        parent_at(tables, name, from) matches Some(at) ==> from <= at < tables.len(),
    decreases tables.len() - from,
{
    if from < tables.len() {
        parent_stands(tables, name, from + 1);
    }
}

/// The parent found for a name is the first table of that name.
proof fn parent_is_the_first(tables: Seq<TableInfo>, name: Seq<u8>, from: int, at: int)
    requires
        0 <= from <= at < tables.len(),
        tables[at].folded@ == name,
        forall|i: int| from <= i < at ==> (#[trigger] tables[i]).folded@ != name,
    ensures
        parent_at(tables, name, from) == Some(at),
    decreases at - from,
{
    if from < at {
        assert(tables[from].folded@ != name);
        parent_is_the_first(tables, name, from + 1, at);
    }
}

/// No table before the parent found for a name has that name.
proof fn parent_found_is_the_first(tables: Seq<TableInfo>, name: Seq<u8>, from: int)
    requires
        0 <= from,
    ensures
        parent_at(tables, name, from) matches Some(at) ==> from <= at < tables.len()
            && tables[at].folded@ == name && forall|i: int|
            from <= i < at ==> (#[trigger] tables[i]).folded@ != name,
    decreases tables.len() - from,
{
    if from < tables.len() {
        parent_found_is_the_first(tables, name, from + 1);
    }
}

/// Where a key stands among those of its table that are meant.
proof fn a_key_is_listed(
    tables: Seq<TableInfo>,
    child: int,
    wanted: Wanted,
    upto: int,
    key: int,
    parent: int,
) -> (at: int)
    requires
        0 <= child < tables.len() <= usize::MAX,
        0 <= key < upto <= tables[child].foreign_keys@.len() <= usize::MAX,
        is_wanted(tables[child].foreign_keys@[key], wanted),
        parent_at(tables, tables[child].foreign_keys@[key].parent_folded@, 0) == Some(parent),
    ensures
        0 <= at < keys_in(tables, child, wanted, upto).len(),
        keys_in(tables, child, wanted, upto)[at] == (KeyPlace {
            child: child as usize,
            key: key as usize,
            parent: parent as usize,
        }),
    decreases upto,
{
    if key == upto - 1 {
        keys_in(tables, child, wanted, upto).len() - 1
    } else {
        a_key_is_listed(tables, child, wanted, upto - 1, key, parent)
    }
}

/// A key that a check is asked for is checked: one of an ordinary table that is not the
/// engine's own, of the table asked for where one was, that is meant, and whose parent
/// is there.
pub proof fn a_wanted_key_is_checked(
    tables: Seq<TableInfo>,
    only: Option<Seq<u8>>,
    wanted: Wanted,
    upto: int,
    child: int,
    key: int,
    parent: int,
) -> (at: int)
    requires
        0 <= child < upto <= tables.len() <= usize::MAX,
        0 <= key < tables[child].foreign_keys@.len() <= usize::MAX,
        tables[child].kind is Table,
        !begins(tables[child].folded@, ascii("sqlite_")),
        only is Some ==> tables[child].folded@ == only->Some_0,
        wanted is Cyclic ==> tables[child].foreign_keys@[key].cyclic,
        wanted is Deferred ==> tables[child].foreign_keys@[key].deferred,
        0 <= parent < tables.len(),
        tables[parent].folded@ == tables[child].foreign_keys@[key].parent_folded@,
        forall|i: int|
            0 <= i < parent ==> (#[trigger] tables[i]).folded@
                != tables[child].foreign_keys@[key].parent_folded@,
    ensures
        0 <= at < checks_of(tables, only, wanted, upto).len(),
        checks_of(tables, only, wanted, upto)[at].child == child,
        checks_of(tables, only, wanted, upto)[at].key == key,
        checks_of(tables, only, wanted, upto)[at].parent == parent,
    decreases upto,
{
    let name = tables[child].foreign_keys@[key].parent_folded@;
    parent_is_the_first(tables, name, 0, parent);
    if child == upto - 1 {
        let many = tables[child].foreign_keys@.len() as int;
        let inner = a_key_is_listed(tables, child, wanted, many, key, parent);
        let before = checks_of(tables, only, wanted, upto - 1);
        let at = before.len() + inner;
        assert(checks_of(tables, only, wanted, upto)[at] == keys_in(
            tables,
            child,
            wanted,
            many,
        )[inner]);
        at
    } else {
        let at = a_wanted_key_is_checked(tables, only, wanted, upto - 1, child, key, parent);
        assert(checks_of(tables, only, wanted, upto)[at] == checks_of(
            tables,
            only,
            wanted,
            upto - 1,
        )[at]);
        at
    }
}

/// Nothing but such a key is checked, and the keys come in the order of their tables and
/// of the keys of each.
pub proof fn only_wanted_keys_are_checked(
    tables: Seq<TableInfo>,
    only: Option<Seq<u8>>,
    wanted: Wanted,
    upto: int,
    at: int,
    later: int,
)
    requires
        0 <= upto <= tables.len() <= usize::MAX,
        forall|t: int|
            0 <= t < tables.len() ==> (#[trigger] tables[t]).foreign_keys@.len() <= usize::MAX,
        0 <= at <= later < checks_of(tables, only, wanted, upto).len(),
    ensures
        ({
            let place = checks_of(tables, only, wanted, upto)[at];
            let next = checks_of(tables, only, wanted, upto)[later];
            let key = tables[place.child as int].foreign_keys@[place.key as int];
            &&& place.child < upto
            &&& place.key < tables[place.child as int].foreign_keys@.len()
            &&& tables[place.child as int].kind is Table
            &&& !begins(tables[place.child as int].folded@, ascii("sqlite_"))
            &&& only is Some ==> tables[place.child as int].folded@ == only->Some_0
            &&& wanted is Cyclic ==> key.cyclic
            &&& wanted is Deferred ==> key.deferred
            &&& place.parent < tables.len()
            &&& tables[place.parent as int].folded@ == key.parent_folded@
            &&& forall|i: int|
                0 <= i < place.parent ==> (#[trigger] tables[i]).folded@ != key.parent_folded@
            &&& next.child < upto
            &&& at < later ==> place.child < next.child || (place.child == next.child && place.key
                < next.key)
        }),
    decreases upto,
{
    let before = checks_of(tables, only, wanted, upto - 1);
    if upto > 0 {
        let many = tables[upto - 1].foreign_keys@.len() as int;
        if later < before.len() {
            only_wanted_keys_are_checked(tables, only, wanted, upto - 1, at, later);
        } else if at < before.len() {
            only_wanted_keys_are_checked(tables, only, wanted, upto - 1, at, at);
            keys_are_in_order(
                tables,
                upto - 1,
                wanted,
                many,
                later - before.len(),
                later - before.len(),
            );
        } else {
            keys_are_in_order(
                tables,
                upto - 1,
                wanted,
                many,
                at - before.len(),
                later - before.len(),
            );
        }
    }
}

/// The keys of one table that are meant come in their order, each with its parent.
proof fn keys_are_in_order(
    tables: Seq<TableInfo>,
    child: int,
    wanted: Wanted,
    upto: int,
    at: int,
    later: int,
)
    requires
        0 <= child < tables.len() <= usize::MAX,
        0 <= upto <= tables[child].foreign_keys@.len() <= usize::MAX,
        0 <= at <= later < keys_in(tables, child, wanted, upto).len(),
    ensures
        ({
            let place = keys_in(tables, child, wanted, upto)[at];
            let next = keys_in(tables, child, wanted, upto)[later];
            let key = tables[child].foreign_keys@[place.key as int];
            &&& place.child == child && next.child == child
            &&& place.key < upto && next.key < upto
            &&& wanted is Cyclic ==> key.cyclic
            &&& wanted is Deferred ==> key.deferred
            &&& place.parent < tables.len()
            &&& tables[place.parent as int].folded@ == key.parent_folded@
            &&& forall|i: int|
                0 <= i < place.parent ==> (#[trigger] tables[i]).folded@ != key.parent_folded@
            &&& at < later ==> place.key < next.key
        }),
    decreases upto,
{
    let before = keys_in(tables, child, wanted, upto - 1);
    if upto > 0 {
        let name = tables[child].foreign_keys@[upto - 1].parent_folded@;
        parent_found_is_the_first(tables, name, 0);
        if later < before.len() {
            keys_are_in_order(tables, child, wanted, upto - 1, at, later);
        } else if at < before.len() {
            keys_are_in_order(tables, child, wanted, upto - 1, at, at);
        }
    }
}

/// A key that goes round is swept: one of an ordinary table whose parent is there.
pub proof fn a_cyclic_key_is_swept(
    tables: Seq<TableInfo>,
    upto: int,
    child: int,
    key: int,
    parent: int,
) -> (at: int)
    requires
        0 <= child < upto <= tables.len() <= usize::MAX,
        0 <= key < tables[child].foreign_keys@.len() <= usize::MAX,
        tables[child].kind is Table,
        tables[child].foreign_keys@[key].cyclic,
        0 <= parent < tables.len(),
        tables[parent].folded@ == tables[child].foreign_keys@[key].parent_folded@,
        forall|i: int|
            0 <= i < parent ==> (#[trigger] tables[i]).folded@
                != tables[child].foreign_keys@[key].parent_folded@,
    ensures
        0 <= at < sweeps_of(tables, upto).len(),
        sweeps_of(tables, upto)[at].child == child,
        sweeps_of(tables, upto)[at].key == key,
        sweeps_of(tables, upto)[at].parent == parent,
    decreases upto,
{
    let name = tables[child].foreign_keys@[key].parent_folded@;
    parent_is_the_first(tables, name, 0, parent);
    if child == upto - 1 {
        let many = tables[child].foreign_keys@.len() as int;
        let inner = a_key_is_listed(tables, child, Wanted::Cyclic, many, key, parent);
        let before = sweeps_of(tables, upto - 1);
        let at = before.len() + inner;
        assert(sweeps_of(tables, upto)[at] == keys_in(
            tables,
            child,
            Wanted::Cyclic,
            many,
        )[inner]);
        at
    } else {
        let at = a_cyclic_key_is_swept(tables, upto - 1, child, key, parent);
        assert(sweeps_of(tables, upto)[at] == sweeps_of(tables, upto - 1)[at]);
        at
    }
}

} // verus!
