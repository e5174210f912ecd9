//! What a table's rows look like in a tree.
//!
//! A shape is decided by the declaration alone, so the tree a statement creates,
//! the tree an import fills and the tree a later open finds are described in the
//! same words, and a plan and a cursor cannot disagree about which column is
//! which.

use vstd::prelude::*;

use crate::numbers::{as_real, real_from_int};
use crate::schema::{
    Affinity, ColumnInfo, ColumnSpec, IndexColumn, IndexInfo, PhysicalType, SourceLayout,
    StaticType, TableInfo,
};
use crate::tables::{
    as_ints, computed_on_read, is_virtual_column, recorded_positions, stored_positions,
};
use crate::text::{ascii, raise, raised, same};
use crate::values::{owned_row, owned_rows, Collation, OwnedDatum, Value};

verus! {

/// Why a table cannot be given a shape.
#[derive(Clone, Copy, Debug, PartialEq, Eq, Structural)]
pub enum ShapeRefusal {
    /// A `WITHOUT ROWID` table with no primary key cannot be keyed.
    NoPrimaryKey,
}

/// The collation a name refers to, folded or not.
pub open spec fn collation_named(name: Seq<u8>) -> Collation {
    if raised(name) == ascii("NOCASE") {
        Collation::NoCase
    } else if raised(name) == ascii("RTRIM") {
        Collation::RTrim
    } else {
        Collation::Binary
    }
}

/// Returns the collation a name refers to.
///
/// A collation an application defined is `Binary` here: a tree cannot be ordered
/// by a call back into the connection that registered it.
pub fn collation_of(name: &[u8]) -> (collation: Collation)
    ensures
        collation == collation_named(name@),
{
    let upper = raise(name);
    if same(&upper, "NOCASE".as_bytes()) {
        Collation::NoCase
    } else if same(&upper, "RTRIM".as_bytes()) {
        Collation::RTrim
    } else {
        Collation::Binary
    }
}

/// Whether a name asks for the order of the bytes: no name at all, or `BINARY`.
pub open spec fn plain_order(name: Seq<u8>) -> bool {
    name.len() == 0 || raised(name) == ascii("BINARY")
}

/// Returns whether a name asks for the order of the bytes.
///
/// One an application defined does not, though a tree has no other order to put
/// its columns in.
fn is_plain_order(name: &[u8]) -> (plain: bool)
    ensures
        plain == plain_order(name@),
{
    if name.len() == 0 {
        return true;
    }
    let upper = raise(name);
    same(&upper, "BINARY".as_bytes())
}

/// How a tree lays out a column of an affinity.
pub open spec fn layout_for(affinity: Affinity) -> PhysicalType {
    match affinity {
        Affinity::Integer => PhysicalType::Int64,
        Affinity::Real => PhysicalType::Float64,
        Affinity::Text => PhysicalType::Text,
        Affinity::Blob => PhysicalType::Any,
        Affinity::Numeric => PhysicalType::Any,
        Affinity::FlexNum => PhysicalType::Any,
    }
}

/// What an expression over a column of an affinity may count on.
pub open spec fn type_for(affinity: Affinity) -> StaticType {
    match affinity {
        Affinity::Integer => StaticType::Int,
        Affinity::Real => StaticType::Real,
        Affinity::Text => StaticType::Text,
        _ => StaticType::Unknown,
    }
}

/// Chooses how a tree lays out a column of an affinity.
///
/// A column with no affinity has no type to lay it out by, and a numeric one
/// holds integers and reals alike, so both take any value.
///
/// A column declared `INTEGER` may hold a string, so this is a claim a leaf can
/// make an exception to and not a promise.
pub fn physical_for(affinity: Affinity) -> (chosen: (PhysicalType, StaticType))
    ensures
        chosen.0 == layout_for(affinity),
        chosen.1 == type_for(affinity),
{
    match affinity {
        Affinity::Integer => (PhysicalType::Int64, StaticType::Int),
        Affinity::Real => (PhysicalType::Float64, StaticType::Real),
        Affinity::Text => (PhysicalType::Text, StaticType::Text),
        Affinity::Blob => (PhysicalType::Any, StaticType::Unknown),
        Affinity::Numeric => (PhysicalType::Any, StaticType::Unknown),
        Affinity::FlexNum => (PhysicalType::Any, StaticType::Unknown),
    }
}

/// The tree column a declared column becomes.
pub open spec fn spec_of(column: ColumnInfo, key: bool) -> ColumnSpec {
    ColumnSpec {
        physical: layout_for(column.affinity),
        key,
        collation: collation_named(column.collation@),
        descending: false,
    }
}

/// A key column holding a rowid.
pub open spec fn rowid_spec() -> ColumnSpec {
    ColumnSpec {
        physical: PhysicalType::Int64,
        key: true,
        collation: Collation::Binary,
        descending: false,
    }
}

/// Returns the tree column a declared column becomes.
fn make_spec(column: &ColumnInfo, key: bool) -> (made: ColumnSpec)
    ensures
        made == spec_of(*column, key),
{
    ColumnSpec {
        physical: physical_for(column.affinity).0,
        key,
        collation: collation_of(&column.collation),
        descending: false,
    }
}

/// Whether a declared position is the one a table's rowid goes by.
pub open spec fn is_alias(info: TableInfo, declared: int) -> bool {
    info.rowid_alias matches Some(alias) && alias == declared
}

/// The first stored positions that are not another name for the rowid.
pub open spec fn carried(info: TableInfo, upto: int) -> Seq<int>
    decreases upto,
{
    if upto <= 0 {
        Seq::empty()
    } else if computed_on_read(info, upto - 1) || is_alias(info, upto - 1) {
        carried(info, upto - 1)
    } else {
        carried(info, upto - 1).push(upto - 1)
    }
}

/// The carried positions are stored ones, each once and in declared order.
pub proof fn carried_in_order(info: TableInfo, upto: int)
    ensures
        forall|i: int|
            0 <= i < carried(info, upto).len() ==> 0 <= #[trigger] carried(info, upto)[i] < upto
                && !computed_on_read(info, carried(info, upto)[i]) && !is_alias(
                info,
                carried(info, upto)[i],
            ),
        forall|i: int, j: int|
            0 <= i < j < carried(info, upto).len() ==> carried(info, upto)[i] < carried(
                info,
                upto,
            )[j],
        carried(info, upto).len() <= if upto > 0 {
            upto
        } else {
            0
        },
    decreases upto,
{
    if upto > 0 {
        carried_in_order(info, upto - 1);
    }
}

/// A position that is stored and not the rowid's is carried.
pub proof fn carried_holds(info: TableInfo, upto: int, declared: int) -> (at: int)
    requires
        0 <= declared < upto,
        !computed_on_read(info, declared),
        !is_alias(info, declared),
    ensures
        0 <= at < carried(info, upto).len(),
        carried(info, upto)[at] == declared,
    decreases upto,
{
    if declared == upto - 1 {
        carried(info, upto).len() - 1
    } else {
        carried_holds(info, upto - 1, declared)
    }
}

/// Where a rowid table's tree carries a declared column.
pub open spec fn table_slot(info: TableInfo, declared: int) -> Option<usize> {
    if computed_on_read(info, declared) {
        None
    } else if is_alias(info, declared) {
        Some(0usize)
    } else {
        Some((1 + carried(info, declared).len()) as usize)
    }
}

/// Whether a column directory and a layout are a rowid table's.
pub open spec fn shapes_table(
    info: TableInfo,
    columns: Seq<ColumnSpec>,
    layout: SourceLayout,
) -> bool {
    let held = carried(info, info.columns@.len() as int);
    &&& columns == seq![rowid_spec()] + held.map_values(
        |declared: int| spec_of(info.columns@[declared], false),
    )
    &&& layout.types@ == seq![StaticType::Int] + held.map_values(
        |declared: int| type_for(info.columns@[declared].affinity),
    )
    &&& layout.slots@ == Seq::new(
        info.columns@.len(),
        |declared: int| table_slot(info, declared),
    )
    &&& layout.tree_key == info.root
    &&& layout.width == 1 + held.len()
    &&& layout.rowid == Some(0usize)
    &&& layout.identity@ == seq![0usize]
    &&& layout.key_columns@ == seq![0usize]
}

/// Returns the column directory and the layout a rowid table's tree has.
///
/// The rowid is the tree's first column and its key. A column computed on read
/// takes no tree column, so every column declared after one sits that many
/// places earlier.
pub fn table_shape(info: &TableInfo) -> (shape: (Vec<ColumnSpec>, SourceLayout))
    requires
        info.columns@.len() < usize::MAX,
    ensures
        shapes_table(*info, shape.0@, shape.1),
{
    let count: usize = info.columns.len();
    let mut slots: Vec<Option<usize>> = Vec::with_capacity(count);
    let mut columns: Vec<ColumnSpec> = Vec::new();
    let mut types: Vec<StaticType> = Vec::new();
    columns.push(
        ColumnSpec {
            physical: PhysicalType::Int64,
            key: true,
            collation: Collation::Binary,
            descending: false,
        },
    );
    types.push(StaticType::Int);
    let ghost held = carried(*info, 0);
    assert(columns@ =~= seq![rowid_spec()] + held.map_values(
        |declared: int| spec_of(info.columns@[declared], false),
    ));
    assert(types@ =~= seq![StaticType::Int] + held.map_values(
        |declared: int| type_for(info.columns@[declared].affinity),
    ));
    for declared in 0..count
        invariant
            count == info.columns@.len(),
            count < usize::MAX,
            held == carried(*info, declared as int),
            held.len() <= declared,
            columns@ =~= seq![rowid_spec()] + held.map_values(
                |at: int| spec_of(info.columns@[at], false),
            ),
            types@ =~= seq![StaticType::Int] + held.map_values(
                |at: int| type_for(info.columns@[at].affinity),
            ),
            slots@ =~= Seq::new(declared as nat, |at: int| table_slot(*info, at)),
    {
        let alias: bool = match info.rowid_alias {
            Some(position) => position as usize == declared,
            None => false,
        };
        let ghost before = held;
        if is_virtual_column(info, declared) {
            slots.push(None);
        } else if alias {
            slots.push(Some(0));
        } else {
            let column = &info.columns[declared];
            slots.push(Some(columns.len()));
            columns.push(make_spec(column, false));
            types.push(physical_for(column.affinity).1);
        }
        proof {
            held = carried(*info, declared + 1);
            if !computed_on_read(*info, declared as int) && !is_alias(*info, declared as int) {
                assert(held.map_values(|at: int| spec_of(info.columns@[at], false))
                    =~= before.map_values(|at: int| spec_of(info.columns@[at], false)).push(
                    spec_of(info.columns@[declared as int], false),
                ));
                assert(held.map_values(|at: int| type_for(info.columns@[at].affinity))
                    =~= before.map_values(|at: int| type_for(info.columns@[at].affinity)).push(
                    type_for(info.columns@[declared as int].affinity),
                ));
            }
        }
    }
    let width: usize = columns.len();
    let mut identity: Vec<usize> = Vec::new();
    identity.push(0);
    let mut key_columns: Vec<usize> = Vec::new();
    key_columns.push(0);
    let layout = SourceLayout {
        tree_key: info.root,
        slots,
        rowid: Some(0),
        identity,
        types,
        width,
        key_columns,
    };
    proof {
        assert(layout.identity@ =~= seq![0usize]);
        assert(layout.key_columns@ =~= seq![0usize]);
    }
    (columns, layout)
}

/// A list of key columns with one more put in its place.
pub open spec fn placed(keyed: Seq<(u16, int)>, more: (u16, int)) -> Seq<(u16, int)>
    decreases keyed.len(),
{
    if keyed.len() == 0 || keyed.last().0 <= more.0 {
        keyed.push(more)
    } else {
        placed(keyed.drop_last(), more).push(keyed.last())
    }
}

/// The first declared columns of a primary key, by their place in it.
pub open spec fn keyed_columns(info: TableInfo, upto: int) -> Seq<(u16, int)>
    decreases upto,
{
    if upto <= 0 {
        Seq::empty()
    } else {
        match info.columns@[upto - 1].primary_key_position {
            Some(at) => placed(keyed_columns(info, upto - 1), (at, upto - 1)),
            None => keyed_columns(info, upto - 1),
        }
    }
}

/// The declared columns of a table's primary key, in key order.
pub open spec fn primary_key(info: TableInfo) -> Seq<int> {
    keyed_columns(info, info.columns@.len() as int).map_values(|held: (u16, int)| held.1)
}

/// Putting one more in its place keeps a list sorted and holds what it held.
proof fn placing_sorts(keyed: Seq<(u16, int)>, more: (u16, int))
    requires
        forall|i: int, j: int| 0 <= i < j < keyed.len() ==> in_key_order_pair(keyed[i], keyed[j]),
        forall|i: int| 0 <= i < keyed.len() ==> (#[trigger] keyed[i]).1 < more.1,
    ensures
        placed(keyed, more).len() == keyed.len() + 1,
        forall|i: int, j: int|
            0 <= i < j < placed(keyed, more).len() ==> in_key_order_pair(
                placed(keyed, more)[i],
                placed(keyed, more)[j],
            ),
        forall|x: (u16, int)|
            #[trigger] placed(keyed, more).contains(x) <==> (x == more || keyed.contains(x)),
    decreases keyed.len(),
{
    let all = placed(keyed, more);
    if keyed.len() == 0 || keyed.last().0 <= more.0 {
        assert forall|i: int, j: int| 0 <= i < j < all.len() implies in_key_order_pair(
            all[i],
            all[j],
        ) by {
            if j == keyed.len() {
                assert(keyed[i].1 < more.1);
                if i < keyed.len() - 1 {
                    assert(in_key_order_pair(keyed[i], keyed[keyed.len() - 1]));
                }
            } else {
                assert(in_key_order_pair(keyed[i], keyed[j]));
            }
        }
        assert forall|x: (u16, int)| all.contains(x) <==> (x == more || keyed.contains(x)) by {
            if x == more {
                assert(all[all.len() - 1] == x);
            } else if keyed.contains(x) {
                let i = choose|i: int| 0 <= i < keyed.len() && keyed[i] == x;
                assert(all[i] == x);
            }
            if all.contains(x) {
                let i = choose|i: int| 0 <= i < all.len() && all[i] == x;
                if i < keyed.len() {
                    assert(keyed[i] == x);
                }
            }
        }
    } else {
        let less = keyed.drop_last();
        let last = keyed.last();
        assert forall|i: int, j: int| 0 <= i < j < less.len() implies in_key_order_pair(
            less[i],
            less[j],
        ) by {
            assert(in_key_order_pair(keyed[i], keyed[j]));
        }
        assert forall|i: int| 0 <= i < less.len() implies (#[trigger] less[i]).1 < more.1 by {
            assert(keyed[i].1 < more.1);
        }
        placing_sorts(less, more);
        let inner = placed(less, more);
        assert(all == inner.push(last));
        assert forall|i: int, j: int| 0 <= i < j < all.len() implies in_key_order_pair(
            all[i],
            all[j],
        ) by {
            if j == inner.len() {
                assert(inner.contains(inner[i]));
                if inner[i] != more {
                    let k = choose|k: int| 0 <= k < less.len() && less[k] == inner[i];
                    assert(in_key_order_pair(keyed[k], keyed[keyed.len() - 1]));
                }
            } else {
                assert(in_key_order_pair(inner[i], inner[j]));
            }
        }
        assert forall|x: (u16, int)| all.contains(x) <==> (x == more || keyed.contains(x)) by {
            if x == last {
                assert(all[all.len() - 1] == x);
                assert(keyed[keyed.len() - 1] == x);
            }
            if inner.contains(x) {
                let i = choose|i: int| 0 <= i < inner.len() && inner[i] == x;
                assert(all[i] == x);
            }
            if less.contains(x) {
                let i = choose|i: int| 0 <= i < less.len() && less[i] == x;
                assert(keyed[i] == x);
            }
            if keyed.contains(x) {
                let i = choose|i: int| 0 <= i < keyed.len() && keyed[i] == x;
                if i < less.len() {
                    assert(less[i] == x);
                }
            }
            if all.contains(x) {
                let i = choose|i: int| 0 <= i < all.len() && all[i] == x;
                if i < inner.len() {
                    assert(inner[i] == x);
                }
            }
        }
    }
}

/// Whether one key column comes before another: by its place in the key, then by
/// where it was declared.
pub open spec fn in_key_order_pair(left: (u16, int), right: (u16, int)) -> bool {
    left.0 < right.0 || (left.0 == right.0 && left.1 < right.1)
}

/// The key columns are exactly the declared ones with a place in the key, in key
/// order.
pub proof fn a_key_holds_its_columns(info: TableInfo, upto: int)
    requires
        0 <= upto <= info.columns@.len(),
    ensures
        forall|i: int, j: int|
            0 <= i < j < keyed_columns(info, upto).len() ==> in_key_order_pair(
                keyed_columns(info, upto)[i],
                keyed_columns(info, upto)[j],
            ),
        forall|x: (u16, int)|
            #[trigger] keyed_columns(info, upto).contains(x) <==> (0 <= x.1 < upto
                && info.columns@[x.1].primary_key_position == Some(x.0)),
        keyed_columns(info, upto).len() <= upto,
    decreases upto,
{
    if upto > 0 {
        a_key_holds_its_columns(info, upto - 1);
        let less = keyed_columns(info, upto - 1);
        if info.columns@[upto - 1].primary_key_position is Some {
            let more = (info.columns@[upto - 1].primary_key_position->Some_0, upto - 1);
            assert forall|i: int| 0 <= i < less.len() implies (#[trigger] less[i]).1 < more.1 by {
                assert(less.contains(less[i]));
            }
            placing_sorts(less, more);
            assert forall|x: (u16, int)| #[trigger] keyed_columns(info, upto).contains(x) <==> (0
                <= x.1 < upto && info.columns@[x.1].primary_key_position == Some(x.0)) by {
                assert(placed(less, more).contains(x) <==> (x == more || less.contains(x)));
            }
        }
    }
}

/// No declared column is in a key twice.
pub proof fn key_columns_differ(info: TableInfo, upto: int, i: int, j: int)
    requires
        0 <= upto <= info.columns@.len(),
        0 <= i < keyed_columns(info, upto).len(),
        0 <= j < keyed_columns(info, upto).len(),
        i != j,
    ensures
        keyed_columns(info, upto)[i].1 != keyed_columns(info, upto)[j].1,
        0 <= keyed_columns(info, upto)[i].1 < upto,
{
    a_key_holds_its_columns(info, upto);
    let keyed = keyed_columns(info, upto);
    assert(keyed.contains(keyed[i]));
    assert(keyed.contains(keyed[j]));
    if i < j {
        assert(in_key_order_pair(keyed[i], keyed[j]));
    } else {
        assert(in_key_order_pair(keyed[j], keyed[i]));
    }
}

/// What an executable list of key columns is.
spec fn keyed_view(keyed: Seq<(u16, usize)>) -> Seq<(u16, int)> {
    keyed.map_values(|held: (u16, usize)| (held.0, held.1 as int))
}

/// Puts one more key column in its place.
fn place_column(keyed: &mut Vec<(u16, usize)>, at: u16, slot: usize)
    ensures
        keyed_view(final(keyed)@) == placed(keyed_view(old(keyed)@), (at, slot as int)),
{
    let ghost before = keyed@;
    let mut spot: usize = keyed.len();
    assert(before.take(before.len() as int) =~= before);
    while spot > 0 && keyed[spot - 1].0 > at
        invariant
            spot <= before.len(),
            keyed@ == before,
            placed(keyed_view(before), (at, slot as int)) == placed(
                keyed_view(before.take(spot as int)),
                (at, slot as int),
            ) + keyed_view(before.subrange(spot as int, before.len() as int)),
        decreases spot,
    {
        proof {
            let here = before.take(spot as int);
            assert(keyed_view(here).drop_last() =~= keyed_view(before.take(spot - 1)));
            assert(keyed_view(here).last() == (before[spot - 1].0, before[spot - 1].1 as int));
            assert(keyed_view(before.subrange(spot - 1, before.len() as int)) =~= seq![
                (before[spot - 1].0, before[spot - 1].1 as int),
            ] + keyed_view(before.subrange(spot as int, before.len() as int)));
            assert(placed(keyed_view(before.take(spot - 1)), (at, slot as int)).push(
                (before[spot - 1].0, before[spot - 1].1 as int),
            ) + keyed_view(before.subrange(spot as int, before.len() as int)) =~= placed(
                keyed_view(before.take(spot - 1)),
                (at, slot as int),
            ) + keyed_view(before.subrange(spot - 1, before.len() as int)));
        }
        spot -= 1;
    }
    proof {
        let here = before.take(spot as int);
        if spot > 0 {
            assert(keyed_view(here).last() == (before[spot - 1].0, before[spot - 1].1 as int));
        }
        assert(placed(keyed_view(here), (at, slot as int)) == keyed_view(here).push(
            (at, slot as int),
        ));
    }
    keyed.insert(spot, (at, slot));
    assert(keyed_view(keyed@) =~= keyed_view(before.take(spot as int)).push((at, slot as int))
        + keyed_view(before.subrange(spot as int, before.len() as int)));
}

/// Returns a table's key columns with their places, in key order.
fn key_of(info: &TableInfo) -> (keyed: Vec<(u16, usize)>)
    ensures
        keyed_view(keyed@) == keyed_columns(*info, info.columns@.len() as int),
{
    let mut keyed: Vec<(u16, usize)> = Vec::new();
    for slot in 0..info.columns.len()
        invariant
            keyed_view(keyed@) =~= keyed_columns(*info, slot as int),
    {
        match info.columns[slot].primary_key_position {
            Some(at) => {
                place_column(&mut keyed, at, slot);
            },
            None => {},
        }
    }
    keyed
}

/// The declared columns that identify one of a table's rows.
pub open spec fn identifying(info: TableInfo) -> Seq<int> {
    if info.without_rowid {
        primary_key(info)
    } else {
        Seq::empty()
    }
}

/// Returns the declared columns that identify one of a table's rows.
///
/// None of a rowid table's do, because its rows go by a rowid; a `WITHOUT ROWID`
/// table's rows go by its primary key, in key order.
pub fn identity_columns(table: &TableInfo) -> (columns: Vec<usize>)
    ensures
        as_ints(columns@) == identifying(*table),
        !table.without_rowid ==> columns@.len() == 0,
        table.without_rowid ==> as_ints(columns@) == primary_key(*table),
{
    let mut columns: Vec<usize> = Vec::new();
    if !table.without_rowid {
        assert(as_ints(columns@) =~= Seq::<int>::empty());
        return columns;
    }
    let keyed = key_of(table);
    for at in 0..keyed.len()
        invariant
            as_ints(columns@) =~= keyed_view(keyed@).take(at as int).map_values(
                |held: (u16, int)| held.1,
            ),
    {
        let ghost before = columns@;
        columns.push(keyed[at].1);
        assert(as_ints(columns@) =~= as_ints(before).push(keyed@[at as int].1 as int));
    }
    assert(keyed_view(keyed@).take(keyed@.len() as int) =~= keyed_view(keyed@));
    columns
}

/// The first declared columns outside the primary key that a record holds.
pub open spec fn unkeyed(info: TableInfo, upto: int) -> Seq<int>
    decreases upto,
{
    if upto <= 0 {
        Seq::empty()
    } else if info.columns@[upto - 1].primary_key_position is None && !computed_on_read(
        info,
        upto - 1,
    ) {
        unkeyed(info, upto - 1).push(upto - 1)
    } else {
        unkeyed(info, upto - 1)
    }
}

/// The fields of a `WITHOUT ROWID` table's record: its primary key in key order,
/// then every other stored column in declared order.
pub open spec fn keyed_fields(info: TableInfo) -> Seq<int> {
    primary_key(info) + unkeyed(info, info.columns@.len() as int)
}

/// The columns outside the key are stored ones outside the key, in order.
proof fn unkeyed_in_order(info: TableInfo, upto: int)
    ensures
        forall|i: int|
            0 <= i < unkeyed(info, upto).len() ==> 0 <= #[trigger] unkeyed(info, upto)[i] < upto
                && info.columns@[unkeyed(info, upto)[i]].primary_key_position is None,
        forall|i: int, j: int|
            0 <= i < j < unkeyed(info, upto).len() ==> unkeyed(info, upto)[i] < unkeyed(
                info,
                upto,
            )[j],
    decreases upto,
{
    if upto > 0 {
        unkeyed_in_order(info, upto - 1);
    }
}

/// No declared column is two fields of a record, and every field is declared.
pub proof fn a_keyed_record_holds_each_once(info: TableInfo)
    ensures
        keyed_fields(info).no_duplicates(),
        forall|i: int|
            0 <= i < keyed_fields(info).len() ==> 0 <= #[trigger] keyed_fields(info)[i]
                < info.columns@.len(),
{
    let count = info.columns@.len() as int;
    let keyed = keyed_columns(info, count);
    let key = primary_key(info);
    let rest = unkeyed(info, count);
    let all = keyed_fields(info);
    a_key_holds_its_columns(info, count);
    unkeyed_in_order(info, count);
    assert forall|i: int| 0 <= i < all.len() implies 0 <= #[trigger] all[i] < count by {
        if i < key.len() {
            assert(keyed.contains(keyed[i]));
            assert(all[i] == keyed[i].1);
        } else {
            assert(all[i] == rest[i - key.len()]);
        }
    }
    assert forall|i: int, j: int| 0 <= i < all.len() && 0 <= j < all.len() && i != j implies all[i]
        != all[j] by {
        if i < key.len() && j < key.len() {
            key_columns_differ(info, count, i, j);
        } else if i < key.len() {
            assert(keyed.contains(keyed[i]));
            assert(all[j] == rest[j - key.len()]);
        } else if j < key.len() {
            assert(keyed.contains(keyed[j]));
            assert(all[i] == rest[i - key.len()]);
        } else {
            let a = i - key.len();
            let b = j - key.len();
            if a < b {
                assert(rest[a] < rest[b]);
            } else {
                assert(rest[b] < rest[a]);
            }
        }
    }
}

/// The counting numbers below a bound.
pub open spec fn counting(from: int, to: int) -> Seq<usize> {
    Seq::new(
        (if from <= to {
            to - from
        } else {
            0
        }) as nat,
        |i: int| (from + i) as usize,
    )
}

/// Returns the counting numbers from one up to another.
fn count_up(from: usize, to: usize) -> (numbers: Vec<usize>)
    requires
        from <= to,
    ensures
        numbers@ == counting(from as int, to as int),
{
    let mut numbers: Vec<usize> = Vec::with_capacity(to - from);
    for at in from..to
        invariant
            from <= to,
            numbers@ =~= counting(from as int, at as int),
    {
        numbers.push(at);
    }
    numbers
}

/// Whether the first fields of a record are in the order of their bytes.
pub open spec fn plain_fields(info: TableInfo, fields: Seq<int>, upto: int) -> bool {
    forall|i: int|
        0 <= i < upto ==> plain_order(info.columns@[#[trigger] fields[i]].collation@)
}

/// Whether a column directory, a key and a layout are a `WITHOUT ROWID` table's.
pub open spec fn shapes_keyed(
    info: TableInfo,
    columns: Seq<ColumnSpec>,
    key: int,
    layout: SourceLayout,
) -> bool {
    let fields = keyed_fields(info);
    &&& key == primary_key(info).len()
    &&& columns == Seq::new(fields.len(), |i: int| spec_of(info.columns@[fields[i]], i < key))
    &&& layout.types@ == Seq::new(
        fields.len(),
        |i: int| type_for(info.columns@[fields[i]].affinity),
    )
    &&& layout.slots@.len() == info.columns@.len()
    &&& forall|i: int|
        0 <= i < fields.len() ==> layout.slots@[#[trigger] fields[i]] == Some(i as usize)
    &&& forall|declared: int|
        0 <= declared < info.columns@.len() && !fields.contains(declared)
            ==> #[trigger] layout.slots@[declared] is None
    &&& layout.tree_key == info.root
    &&& layout.width == fields.len()
    &&& layout.rowid is None
    &&& layout.identity@ == counting(0, key)
    &&& layout.key_columns@ == if plain_fields(info, fields, key) {
        counting(0, key)
    } else {
        Seq::empty()
    }
}

/// Returns the column directory, key width and layout of a `WITHOUT ROWID`
/// table's tree.
///
/// The field order is the record's and not the declaration's: for
/// `CREATE TABLE t(a, b, PRIMARY KEY(b))` the record is `(b, a)`. A key under a
/// collation other than `Binary`, an application's own among them, can be searched
/// but is not in an order a query that named no collation asked for, so the layout
/// does not offer it as one.
pub fn keyed_table_shape(info: &TableInfo) -> (shape: Result<
    (Vec<ColumnSpec>, usize, SourceLayout),
    ShapeRefusal,
>)
    ensures
        shape is Err <==> primary_key(*info).len() == 0,
        shape matches Ok(made) ==> shapes_keyed(*info, made.0@, made.1 as int, made.2),
{
    let width: usize = info.columns.len();
    let keyed = key_of(info);
    let key: usize = keyed.len();
    if key == 0 {
        return Err(ShapeRefusal::NoPrimaryKey);
    }
    let ghost fields = keyed_fields(*info);
    proof {
        a_keyed_record_holds_each_once(*info);
        a_key_holds_its_columns(*info, width as int);
    }
    let mut order: Vec<usize> = Vec::with_capacity(width);
    for at in 0..key
        invariant
            key == keyed@.len(),
            as_ints(order@) =~= keyed_view(keyed@).take(at as int).map_values(
                |held: (u16, int)| held.1,
            ),
    {
        let ghost before = order@;
        order.push(keyed[at].1);
        assert(as_ints(order@) =~= as_ints(before).push(keyed@[at as int].1 as int));
    }
    assert(keyed_view(keyed@).take(key as int) =~= keyed_view(keyed@));
    for slot in 0..width
        invariant
            width == info.columns@.len(),
            as_ints(order@) =~= primary_key(*info) + unkeyed(*info, slot as int),
    {
        let outside: bool = match info.columns[slot].primary_key_position {
            Some(_) => false,
            None => true,
        };
        if outside && !is_virtual_column(info, slot) {
            let ghost before = order@;
            order.push(slot);
            assert(as_ints(order@) =~= as_ints(before).push(slot as int));
        }
    }
    let ghost positions = order@;
    assert(as_ints(positions) == fields);
    let mut columns: Vec<ColumnSpec> = Vec::with_capacity(order.len());
    let mut types: Vec<StaticType> = Vec::with_capacity(order.len());
    let mut slots: Vec<Option<usize>> = Vec::with_capacity(width);
    for _declared in 0..width
        invariant
            slots@.len() == _declared,
            forall|d: int| 0 <= d < slots@.len() ==> #[trigger] slots@[d] is None,
    {
        slots.push(None);
    }
    let mut ordered: bool = true;
    for position in 0..order.len()
        invariant
            width == info.columns@.len(),
            order@ == positions,
            as_ints(positions) == fields,
            fields.no_duplicates(),
            forall|i: int| 0 <= i < fields.len() ==> 0 <= #[trigger] fields[i] < width,
            columns@ =~= Seq::new(
                position as nat,
                |i: int| spec_of(info.columns@[fields[i]], i < key),
            ),
            types@ =~= Seq::new(
                position as nat,
                |i: int| type_for(info.columns@[fields[i]].affinity),
            ),
            slots@.len() == width,
            forall|i: int|
                0 <= i < position ==> slots@[#[trigger] fields[i]] == Some(i as usize),
            forall|d: int|
                0 <= d < width && !fields.take(position as int).contains(d)
                    ==> #[trigger] slots@[d] is None,
            ordered == plain_fields(
                *info,
                fields,
                if position < key {
                    position as int
                } else {
                    key as int
                },
            ),
    {
        let declared: usize = order[position];
        assert(fields[position as int] == declared);
        let column = &info.columns[declared];
        let made = make_spec(column, position < key);
        columns.push(made);
        types.push(physical_for(column.affinity).1);
        if position < key && !is_plain_order(&column.collation) {
            ordered = false;
        }
        slots.set(declared, Some(position));
        proof {
            assert forall|i: int| 0 <= i < position + 1 implies slots@[#[trigger] fields[i]]
                == Some(i as usize) by {
                if i < position {
                    assert(fields[i] != fields[position as int]);
                }
            }
            assert forall|d: int|
                0 <= d < width && !fields.take(position + 1).contains(d) implies (
            #[trigger] slots@[d]) is None by {
                if fields.take(position as int).contains(d) {
                    let i = choose|i: int|
                        0 <= i < position && fields.take(position as int)[i] == d;
                    assert(fields.take(position + 1)[i] == d);
                }
                if d == declared {
                    assert(fields.take(position + 1)[position as int] == d);
                }
            }
        }
    }
    assert(fields.take(fields.len() as int) =~= fields);
    let stored: usize = order.len();
    let identity = count_up(0, key);
    let key_columns = if ordered {
        count_up(0, key)
    } else {
        Vec::new()
    };
    let layout = SourceLayout {
        tree_key: info.root,
        slots,
        rowid: None,
        identity,
        types,
        width: stored,
        key_columns,
    };
    Ok((columns, key, layout))
}

/// The collation an index column is ordered under: the one the index declared,
/// and the table column's own where it declared none.
pub open spec fn index_collation(table: TableInfo, column: IndexColumn) -> Collation {
    if column.collation@.len() > 0 {
        collation_named(column.collation@)
    } else if column.column is Some && column.column->Some_0 < table.columns@.len() {
        collation_named(table.columns@[column.column->Some_0 as int].collation@)
    } else {
        Collation::Binary
    }
}

/// The tree column an index column becomes.
pub open spec fn index_spec(table: TableInfo, column: IndexColumn) -> ColumnSpec {
    match column.column {
        None => ColumnSpec {
            physical: PhysicalType::Any,
            key: true,
            collation: Collation::Binary,
            descending: column.descending,
        },
        Some(declared) => ColumnSpec {
            physical: if declared < table.columns@.len() {
                layout_for(table.columns@[declared as int].affinity)
            } else {
                PhysicalType::Any
            },
            key: true,
            collation: index_collation(table, column),
            descending: column.descending,
        },
    }
}

/// What an expression over an index column may count on.
pub open spec fn index_type(table: TableInfo, column: IndexColumn) -> StaticType {
    match column.column {
        None => StaticType::Unknown,
        Some(declared) => if declared < table.columns@.len() {
            type_for(table.columns@[declared as int].affinity)
        } else {
            StaticType::Unknown
        },
    }
}

/// Whether an index column leaves a walk in an order a query can use.
pub open spec fn index_orders(table: TableInfo, column: IndexColumn) -> bool {
    !column.descending && match column.column {
        None => true,
        Some(declared) => if column.collation@.len() > 0 {
            plain_order(column.collation@)
        } else if declared < table.columns@.len() {
            plain_order(table.columns@[declared as int].collation@)
        } else {
            true
        },
    }
}

/// Where an index's first columns carry a declared column: the last of them that
/// index it.
pub open spec fn indexed_at(index: IndexInfo, declared: int, upto: int) -> Option<usize>
    decreases upto,
{
    if upto <= 0 {
        None
    } else if index.columns@[upto - 1].column matches Some(held) && held == declared {
        Some((upto - 1) as usize)
    } else {
        indexed_at(index, declared, upto - 1)
    }
}

/// Where a list of declared columns first names one, past a number of others.
pub open spec fn named_at(columns: Seq<int>, declared: int, past: int, upto: int) -> Option<usize>
    decreases upto,
{
    if upto <= 0 {
        None
    } else if named_at(columns, declared, past, upto - 1) is Some {
        named_at(columns, declared, past, upto - 1)
    } else if columns[upto - 1] == declared {
        Some((past + upto - 1) as usize)
    } else {
        None
    }
}

/// Where an index's tree carries a declared column.
///
/// A column that is both indexed and part of the row's identity is read where it
/// is indexed, except the rowid's own column, which is read where the rowid is.
pub open spec fn index_slot(table: TableInfo, index: IndexInfo, declared: int) -> Option<usize> {
    let indexed = index.columns@.len() as int;
    let trailing = identifying(table);
    let own = indexed_at(index, declared, indexed);
    if trailing.len() == 0 {
        if is_alias(table, declared) {
            Some(indexed as usize)
        } else {
            own
        }
    } else if own is Some {
        own
    } else {
        named_at(trailing, declared, indexed, trailing.len() as int)
    }
}

/// How many columns an index's tree has: the indexed ones and whatever
/// identifies the row.
pub open spec fn index_width(table: TableInfo, index: IndexInfo) -> int {
    index.columns@.len() + if identifying(table).len() == 0 {
        1
    } else {
        identifying(table).len() as int
    }
}

/// The tree columns at the end of an index entry that identify the row.
pub open spec fn trailing_specs(table: TableInfo) -> Seq<ColumnSpec> {
    if identifying(table).len() == 0 {
        seq![rowid_spec()]
    } else {
        identifying(table).map_values(|declared: int| spec_of(table.columns@[declared], true))
    }
}

/// What expressions over those columns may count on.
pub open spec fn trailing_types(table: TableInfo) -> Seq<StaticType> {
    if identifying(table).len() == 0 {
        seq![StaticType::Int]
    } else {
        identifying(table).map_values(|declared: int| type_for(table.columns@[declared].affinity))
    }
}

/// Whether a walk of an index is in an order a query can use.
pub open spec fn index_ordered(table: TableInfo, index: IndexInfo) -> bool {
    &&& forall|i: int|
        0 <= i < index.columns@.len() ==> index_orders(table, #[trigger] index.columns@[i])
    &&& forall|i: int|
        0 <= i < identifying(table).len() ==> plain_order(
            table.columns@[#[trigger] identifying(table)[i]].collation@,
        )
}

/// Whether a column directory and a layout are an index's.
pub open spec fn shapes_index(
    table: TableInfo,
    index: IndexInfo,
    root: u32,
    columns: Seq<ColumnSpec>,
    layout: SourceLayout,
) -> bool {
    let indexed = index.columns@.len() as int;
    let width = index_width(table, index);
    &&& columns == index.columns@.map_values(|column: IndexColumn| index_spec(table, column))
        + trailing_specs(table)
    &&& layout.types@ == index.columns@.map_values(
        |column: IndexColumn| index_type(table, column),
    ) + trailing_types(table)
    &&& layout.slots@ == Seq::new(
        table.columns@.len(),
        |declared: int| index_slot(table, index, declared),
    )
    &&& layout.tree_key == root
    &&& layout.width == width
    &&& layout.rowid == if identifying(table).len() == 0 {
        Some(indexed as usize)
    } else {
        None
    }
    &&& layout.identity@ == counting(indexed, width)
    &&& layout.key_columns@ == if index_ordered(table, index) {
        counting(0, width)
    } else {
        Seq::empty()
    }
}

/// Identifying columns are declared ones, and each is named once.
pub proof fn identifying_in_range(table: TableInfo)
    ensures
        forall|i: int|
            0 <= i < identifying(table).len() ==> 0 <= #[trigger] identifying(table)[i]
                < table.columns@.len(),
        identifying(table).len() <= table.columns@.len(),
{
    let count = table.columns@.len() as int;
    a_key_holds_its_columns(table, count);
    let keyed = keyed_columns(table, count);
    assert forall|i: int| 0 <= i < identifying(table).len() implies 0 <= #[trigger] identifying(
        table,
    )[i] < count by {
        assert(keyed.contains(keyed[i]));
    }
}

/// Returns the column directory and the layout an index's tree has.
///
/// What follows the indexed columns is whatever identifies the table's row: its
/// rowid, or the primary key's columns where it has none. An index on an
/// expression maps no declared column onto it, so a query that reads the column
/// is refused the tree rather than given the expression. A descending column is
/// stored descending, and it or a collation other than `Binary`, an application's
/// own among them, keeps the layout from offering the walk as an order.
pub fn index_shape(table: &TableInfo, index: &IndexInfo, root: u32) -> (shape: (
    Vec<ColumnSpec>,
    SourceLayout,
))
    requires
        index.columns@.len() + table.columns@.len() < usize::MAX,
    ensures
        shapes_index(*table, *index, root, shape.0@, shape.1),
{
    let trailing = identity_columns(table);
    let ghost identity_of = identifying(*table);
    let declared_count: usize = table.columns.len();
    let indexed: usize = index.columns.len();
    proof {
        identifying_in_range(*table);
        assert(as_ints(trailing@) == identity_of);
    }
    let mut columns: Vec<ColumnSpec> = Vec::new();
    let mut types: Vec<StaticType> = Vec::new();
    let mut slots: Vec<Option<usize>> = Vec::with_capacity(declared_count);
    for _declared in 0..declared_count
        invariant
            slots@.len() == _declared,
            forall|d: int| 0 <= d < slots@.len() ==> #[trigger] slots@[d] is None,
    {
        slots.push(None);
    }
    let mut ordered: bool = true;
    for position in 0..indexed
        invariant
            indexed == index.columns@.len(),
            declared_count == table.columns@.len(),
            columns@ =~= index.columns@.take(position as int).map_values(
                |column: IndexColumn| index_spec(*table, column),
            ),
            types@ =~= index.columns@.take(position as int).map_values(
                |column: IndexColumn| index_type(*table, column),
            ),
            slots@.len() == declared_count,
            forall|d: int|
                0 <= d < declared_count ==> #[trigger] slots@[d] == indexed_at(
                    *index,
                    d,
                    position as int,
                ),
            ordered == (forall|i: int|
                0 <= i < position ==> index_orders(*table, #[trigger] index.columns@[i])),
    {
        let column = &index.columns[position];
        let ghost some = index.columns@.take(position as int);
        assert(index.columns@.take(position + 1) =~= some.push(*column));
        if column.descending {
            ordered = false;
        }
        match column.column {
            None => {
                columns.push(
                    ColumnSpec {
                        physical: PhysicalType::Any,
                        key: true,
                        collation: Collation::Binary,
                        descending: column.descending,
                    },
                );
                types.push(StaticType::Unknown);
            },
            Some(number) => {
                let declared: usize = number as usize;
                let (physical, static_type) = if declared < declared_count {
                    physical_for(table.columns[declared].affinity)
                } else {
                    (PhysicalType::Any, StaticType::Unknown)
                };
                let (collation, plain) = if column.collation.len() > 0 {
                    (collation_of(&column.collation), is_plain_order(&column.collation))
                } else if declared < declared_count {
                    let name = &table.columns[declared].collation;
                    (collation_of(name), is_plain_order(name))
                } else {
                    (Collation::Binary, true)
                };
                if !plain {
                    ordered = false;
                }
                columns.push(
                    ColumnSpec { physical, key: true, collation, descending: column.descending },
                );
                types.push(static_type);
                if declared < declared_count {
                    slots.set(declared, Some(position));
                }
            },
        }
        proof {
            assert(index_orders(*table, index.columns@[position as int]) || !ordered);
        }
    }
    assert(index.columns@.take(indexed as int) =~= index.columns@);
    let mut identity: Vec<usize> = Vec::new();
    if trailing.len() == 0 {
        columns.push(
            ColumnSpec {
                physical: PhysicalType::Int64,
                key: true,
                collation: Collation::Binary,
                descending: false,
            },
        );
        types.push(StaticType::Int);
        match table.rowid_alias {
            Some(alias) => {
                if (alias as usize) < declared_count {
                    slots.set(alias as usize, Some(indexed));
                }
            },
            None => {},
        }
        assert(identity_of.len() == 0);
        assert(columns@ =~= index.columns@.map_values(
            |column: IndexColumn| index_spec(*table, column),
        ) + trailing_specs(*table));
        assert(types@ =~= index.columns@.map_values(
            |column: IndexColumn| index_type(*table, column),
        ) + trailing_types(*table));
    } else {
        for offset in 0..trailing.len()
            invariant
                indexed == index.columns@.len(),
                declared_count == table.columns@.len(),
                indexed + declared_count < usize::MAX,
                as_ints(trailing@) == identity_of,
                identity_of == identifying(*table),
                identity_of.len() <= declared_count,
                forall|i: int|
                    0 <= i < identity_of.len() ==> 0 <= #[trigger] identity_of[i] < declared_count,
                columns@ =~= index.columns@.map_values(
                    |column: IndexColumn| index_spec(*table, column),
                ) + identity_of.take(offset as int).map_values(
                    |declared: int| spec_of(table.columns@[declared], true),
                ),
                types@ =~= index.columns@.map_values(
                    |column: IndexColumn| index_type(*table, column),
                ) + identity_of.take(offset as int).map_values(
                    |declared: int| type_for(table.columns@[declared].affinity),
                ),
                slots@.len() == declared_count,
                forall|d: int|
                    0 <= d < declared_count ==> #[trigger] slots@[d] == if indexed_at(
                        *index,
                        d,
                        indexed as int,
                    ) is Some {
                        indexed_at(*index, d, indexed as int)
                    } else {
                        named_at(identity_of, d, indexed as int, offset as int)
                    },
                ordered == ((forall|i: int|
                    0 <= i < indexed ==> index_orders(*table, #[trigger] index.columns@[i])) && (
                forall|i: int|
                    0 <= i < offset ==> plain_order(
                        table.columns@[#[trigger] identity_of[i]].collation@,
                    ))),
        {
            let declared: usize = trailing[offset];
            assert(identity_of[offset as int] == declared);
            let column = &table.columns[declared];
            let made = make_spec(column, true);
            if !is_plain_order(&column.collation) {
                ordered = false;
            }
            columns.push(made);
            types.push(physical_for(column.affinity).1);
            assert(identity_of.take(offset + 1) =~= identity_of.take(offset as int).push(
                declared as int,
            ));
            if slots[declared].is_none() {
                slots.set(declared, Some(indexed + offset));
            }
        }
        assert(identity_of.take(identity_of.len() as int) =~= identity_of);
    }
    let width: usize = columns.len();
    assert(width == index_width(*table, *index));
    identity = count_up(indexed, width);
    let key_columns = if ordered {
        count_up(0, width)
    } else {
        Vec::new()
    };
    let rowid: Option<usize> = if trailing.len() == 0 {
        Some(indexed)
    } else {
        None
    };
    let layout = SourceLayout { tree_key: root, slots, rowid, identity, types, width, key_columns };
    assert(layout.slots@ =~= Seq::new(
        table.columns@.len(),
        |declared: int| index_slot(*table, *index, declared),
    ));
    (columns, layout)
}

/// A name that asks for the order of the bytes names no other collation.
proof fn a_plain_order_is_binary(name: Seq<u8>)
    requires
        plain_order(name),
    ensures
        collation_named(name) is Binary,
{
    reveal_strlit("BINARY");
    reveal_strlit("NOCASE");
    reveal_strlit("RTRIM");
    vstd::utf8::is_ascii_chars_encode_utf8("BINARY"@);
    vstd::utf8::is_ascii_chars_encode_utf8("NOCASE"@);
    vstd::utf8::is_ascii_chars_encode_utf8("RTRIM"@);
    assert(ascii("BINARY")[0] == 66);
    assert(ascii("NOCASE")[0] == 78);
    assert(ascii("RTRIM")[0] == 82);
    assert(raised(name).len() == name.len());
}

/// A walk of an index is offered as an order only where it is one: every column
/// ascending, in the order of its bytes.
pub proof fn an_offered_order_is_plain(
    table: TableInfo,
    index: IndexInfo,
    root: u32,
    columns: Seq<ColumnSpec>,
    layout: SourceLayout,
    at: int,
)
    requires
        shapes_index(table, index, root, columns, layout),
        layout.key_columns@.len() > 0,
        0 <= at < columns.len(),
    ensures
        columns[at].collation is Binary,
        !columns[at].descending,
{
    let indexed = index.columns@.len() as int;
    assert(index_ordered(table, index));
    if at < indexed {
        let column = index.columns@[at];
        assert(index_orders(table, column));
        assert(columns[at] == index_spec(table, column));
        if column.column is Some {
            if column.collation@.len() > 0 {
                a_plain_order_is_binary(column.collation@);
            } else if column.column->Some_0 < table.columns@.len() {
                a_plain_order_is_binary(table.columns@[column.column->Some_0 as int].collation@);
            }
        }
    } else {
        assert(columns[at] == trailing_specs(table)[at - indexed]);
        if identifying(table).len() > 0 {
            let declared = identifying(table)[at - indexed];
            a_plain_order_is_binary(table.columns@[declared].collation@);
        }
    }
}

/// Reports whether an index's tree may stand in for a scan of its table.
///
/// A partial index holds only the rows its predicate accepted, so it may not. An
/// index on an expression holds an entry for every row, so it may.
pub fn covers_every_row(index: &IndexInfo) -> (answer: bool)
    ensures
        answer == (index.partial_sql is None),
{
    index.partial_sql.is_none()
}

/// Returns how a table's stored rows map onto the columns a query sees.
pub fn source_layout_of(info: &TableInfo) -> (layout: Result<SourceLayout, ShapeRefusal>)
    requires
        info.columns@.len() < usize::MAX,
    ensures
        layout is Err <==> info.without_rowid && primary_key(*info).len() == 0,
        layout matches Ok(made) ==> (if info.without_rowid {
            exists|columns: Seq<ColumnSpec>, key: int| #[trigger]
                shapes_keyed(*info, columns, key, made)
        } else {
            exists|columns: Seq<ColumnSpec>| #[trigger] shapes_table(*info, columns, made)
        }),
{
    if info.without_rowid {
        match keyed_table_shape(info) {
            Ok((columns, key, layout)) => {
                assert(shapes_keyed(*info, columns@, key as int, layout));
                Ok(layout)
            },
            Err(refusal) => Err(refusal),
        }
    } else {
        let (columns, layout) = table_shape(info);
        assert(shapes_table(*info, columns@, layout));
        Ok(layout)
    }
}

/// What a column of a layout hands back for a value put into it.
pub open spec fn kept_as(physical: PhysicalType, value: Value) -> Value {
    if physical is Float64 && value is Int {
        Value::Real(as_real(value->Int_0))
    } else {
        value
    }
}

/// Returns what a column of a layout hands back for a value put into it.
///
/// The one conversion is the dialect's: an integer in a column whose affinity is
/// `REAL` is stored as the number nearest to it.
pub fn stored_as(physical: PhysicalType, value: OwnedDatum) -> (kept: OwnedDatum)
    ensures
        kept@ == kept_as(physical, value@),
{
    match (physical, &value) {
        (PhysicalType::Float64, OwnedDatum::Int(number)) => OwnedDatum::Real(
            real_from_int(*number),
        ),
        _ => value,
    }
}

/// A value of a row, NULL past its end.
pub open spec fn value_at(row: Seq<Value>, at: int) -> Value {
    if 0 <= at < row.len() {
        row[at]
    } else {
        Value::Null
    }
}

/// The first fields of a record as tree columns: every one but the rowid's own,
/// whose field a record leaves empty.
pub open spec fn record_columns(
    info: TableInfo,
    positions: Seq<int>,
    stored: Seq<Value>,
    upto: int,
) -> Seq<Value>
    decreases upto,
{
    if upto <= 0 {
        Seq::empty()
    } else if is_alias(info, positions[upto - 1]) {
        record_columns(info, positions, stored, upto - 1)
    } else {
        record_columns(info, positions, stored, upto - 1).push(value_at(stored, upto))
    }
}

/// A rowid table's row as its tree holds it.
pub open spec fn rowid_row(info: TableInfo, stored: Seq<Value>) -> Seq<Value> {
    let positions = recorded_positions(info, info.columns@.len() as int);
    seq![value_at(stored, 0)] + record_columns(info, positions, stored, positions.len() as int)
}

/// A table's row as its tree holds it.
pub open spec fn tree_row(info: TableInfo, stored: Seq<Value>) -> Seq<Value> {
    if info.without_rowid {
        stored
    } else {
        rowid_row(info, stored)
    }
}

/// Returns a copy of a row's value, NULL past its end.
fn value_or_null(row: &[OwnedDatum], at: usize) -> (value: OwnedDatum)
    ensures
        value@ == value_at(owned_row(row@), at as int),
{
    if at < row.len() {
        row[at].duplicate()
    } else {
        OwnedDatum::Null
    }
}

/// Returns a rowid table's stored row as its tree holds it.
///
/// A stored row is the rowid and then the record's fields. The record leaves the
/// field of the rowid's own column empty, so that field is dropped and the rowid
/// stands for it.
pub fn rowid_table_row(info: &TableInfo, stored: &[OwnedDatum]) -> (row: Vec<OwnedDatum>)
    requires
        info.columns@.len() < usize::MAX,
    ensures
        owned_row(row@) == rowid_row(*info, owned_row(stored@)),
{
    let positions = stored_positions(info);
    let ghost fields = recorded_positions(*info, info.columns@.len() as int);
    let mut row: Vec<OwnedDatum> = Vec::new();
    row.push(value_or_null(stored, 0));
    assert(owned_row(row@) =~= seq![value_at(owned_row(stored@), 0)] + record_columns(
        *info,
        fields,
        owned_row(stored@),
        0,
    ));
    proof {
        positions_bounded(*info, info.columns@.len() as int);
    }
    for field in 0..positions.len()
        invariant
            as_ints(positions@) == fields,
            positions@.len() < usize::MAX,
            owned_row(row@) =~= seq![value_at(owned_row(stored@), 0)] + record_columns(
                *info,
                fields,
                owned_row(stored@),
                field as int,
            ),
    {
        let declared: usize = positions[field];
        assert(fields[field as int] == declared);
        let alias: bool = match info.rowid_alias {
            Some(position) => position as usize == declared,
            None => false,
        };
        if !alias {
            let ghost before = row@;
            let value = value_or_null(stored, field + 1);
            row.push(value);
            assert(owned_row(row@) =~= owned_row(before).push(
                value_at(owned_row(stored@), field + 1),
            ));
        }
    }
    row
}

/// A record has no more fields than the table has columns.
proof fn positions_bounded(info: TableInfo, upto: int)
    requires
        0 <= upto,
    ensures
        recorded_positions(info, upto).len() <= upto,
    decreases upto,
{
    if upto > 0 {
        positions_bounded(info, upto - 1);
    }
}

/// Returns a rowid table's stored rows as its tree holds them.
pub fn rowid_table_rows(info: &TableInfo, stored: &[Vec<OwnedDatum>]) -> (rows: Vec<
    Vec<OwnedDatum>,
>)
    requires
        info.columns@.len() < usize::MAX,
    ensures
        owned_rows(rows@) == owned_rows(stored@).map_values(
            |row: Seq<Value>| rowid_row(*info, row),
        ),
{
    let mut rows: Vec<Vec<OwnedDatum>> = Vec::with_capacity(stored.len());
    for at in 0..stored.len()
        invariant
            info.columns@.len() < usize::MAX,
            owned_rows(rows@) =~= owned_rows(stored@.take(at as int)).map_values(
                |row: Seq<Value>| rowid_row(*info, row),
            ),
    {
        let ghost before = rows@;
        let row = rowid_table_row(info, &stored[at]);
        rows.push(row);
        assert(owned_rows(rows@) =~= owned_rows(before).push(owned_row(row@)));
        assert(owned_rows(stored@.take(at + 1)) =~= owned_rows(stored@.take(at as int)).push(
            owned_row(stored@[at as int]@),
        ));
    }
    assert(stored@.take(stored@.len() as int) =~= stored@);
    rows
}

/// One row of a tree as the columns a `SELECT *` produces.
pub open spec fn read_as(
    info: TableInfo,
    slots: Seq<Option<usize>>,
    row: Seq<Value>,
) -> Seq<Value> {
    Seq::new(
        slots.len(),
        |declared: int|
            kept_as(
                if declared < info.columns@.len() {
                    layout_for(info.columns@[declared].affinity)
                } else {
                    PhysicalType::Any
                },
                match slots[declared] {
                    Some(slot) => value_at(row, slot as int),
                    None => Value::Null,
                },
            ),
    )
}

/// One stored row as the columns a `SELECT *` produces.
pub open spec fn logical(
    info: TableInfo,
    slots: Seq<Option<usize>>,
    stored: Seq<Value>,
) -> Seq<Value> {
    read_as(info, slots, tree_row(info, stored))
}

/// Returns one stored row as the columns a `SELECT *` produces.
///
/// The row becomes a tree's row first and is then read through the layout, which
/// is the map a query reads a column through.
pub fn logical_row(info: &TableInfo, layout: &SourceLayout, stored: &[OwnedDatum]) -> (row: Vec<
    OwnedDatum,
>)
    requires
        info.columns@.len() < usize::MAX,
    ensures
        owned_row(row@) == logical(*info, layout.slots@, owned_row(stored@)),
{
    let tree: Vec<OwnedDatum> = if info.without_rowid {
        crate::values::duplicate_row(stored)
    } else {
        rowid_table_row(info, stored)
    };
    assert(owned_row(tree@) == tree_row(*info, owned_row(stored@)));
    let mut row: Vec<OwnedDatum> = Vec::with_capacity(layout.slots.len());
    for declared in 0..layout.slots.len()
        invariant
            owned_row(tree@) == tree_row(*info, owned_row(stored@)),
            owned_row(row@) =~= logical(*info, layout.slots@, owned_row(stored@)).take(
                declared as int,
            ),
    {
        let value = match layout.slots[declared] {
            Some(slot) => value_or_null(&tree, slot),
            None => OwnedDatum::Null,
        };
        let physical = if declared < info.columns.len() {
            physical_for(info.columns[declared].affinity).0
        } else {
            PhysicalType::Any
        };
        let ghost before = row@;
        let kept = stored_as(physical, value);
        row.push(kept);
        assert(owned_row(row@) =~= owned_row(before).push(
            logical(*info, layout.slots@, owned_row(stored@))[declared as int],
        ));
    }
    assert(logical(*info, layout.slots@, owned_row(stored@)).take(layout.slots@.len() as int)
        =~= logical(*info, layout.slots@, owned_row(stored@)));
    row
}

/// Where a record holds a declared column: after the stored ones before it.
pub open spec fn field_of(info: TableInfo, declared: int) -> int {
    recorded_positions(info, declared).len() as int
}

/// A record's first fields are where the first declared columns are.
proof fn fields_begin(info: TableInfo, some: int, more: int)
    requires
        0 <= some <= more,
    ensures
        recorded_positions(info, some).len() <= recorded_positions(info, more).len(),
        forall|i: int|
            0 <= i < recorded_positions(info, some).len() ==> recorded_positions(info, some)[i]
                == recorded_positions(info, more)[i],
    decreases more,
{
    if some < more {
        fields_begin(info, some, more - 1);
    }
}

/// More fields make more tree columns, beginning with the same ones.
proof fn columns_begin(
    info: TableInfo,
    positions: Seq<int>,
    stored: Seq<Value>,
    some: int,
    more: int,
)
    requires
        0 <= some <= more,
    ensures
        record_columns(info, positions, stored, some).len() <= record_columns(
            info,
            positions,
            stored,
            more,
        ).len(),
        forall|i: int|
            0 <= i < record_columns(info, positions, stored, some).len() ==> record_columns(
                info,
                positions,
                stored,
                some,
            )[i] == record_columns(info, positions, stored, more)[i],
    decreases more,
{
    if some < more {
        columns_begin(info, positions, stored, some, more - 1);
    }
}

/// As many tree columns come before a declared column as carried columns do.
proof fn columns_before(info: TableInfo, stored: Seq<Value>, declared: int)
    requires
        0 <= declared <= info.columns@.len(),
    ensures
        record_columns(
            info,
            recorded_positions(info, info.columns@.len() as int),
            stored,
            field_of(info, declared),
        ).len() == carried(info, declared).len(),
    decreases declared,
{
    if declared > 0 {
        columns_before(info, stored, declared - 1);
        if !computed_on_read(info, declared - 1) {
            fields_begin(info, declared, info.columns@.len() as int);
            assert(recorded_positions(info, declared)[field_of(info, declared - 1)] == declared
                - 1);
        }
    }
}

/// Reading a rowid table's stored row back gives every declared column its own
/// field: a stored column the field it was written in, the rowid's own column
/// the rowid, and a column computed on read nothing.
pub proof fn a_column_reads_its_own_field(
    info: TableInfo,
    columns: Seq<ColumnSpec>,
    layout: SourceLayout,
    stored: Seq<Value>,
    declared: int,
)
    requires
        !info.without_rowid,
        info.columns@.len() < usize::MAX,
        shapes_table(info, columns, layout),
        0 <= declared < info.columns@.len(),
    ensures
        logical(info, layout.slots@, stored)[declared] == kept_as(
            layout_for(info.columns@[declared].affinity),
            if computed_on_read(info, declared) {
                Value::Null
            } else if is_alias(info, declared) {
                value_at(stored, 0)
            } else {
                value_at(stored, 1 + field_of(info, declared))
            },
        ),
{
    let count = info.columns@.len() as int;
    let positions = recorded_positions(info, count);
    let field = field_of(info, declared);
    if !computed_on_read(info, declared) && !is_alias(info, declared) {
        fields_begin(info, declared + 1, count);
        assert(recorded_positions(info, declared + 1)[field] == declared);
        assert(positions[field] == declared);
        columns_before(info, stored, declared);
        columns_begin(info, positions, stored, field + 1, positions.len() as int);
        carried_in_order(info, declared);
        let before = record_columns(info, positions, stored, field);
        let here = record_columns(info, positions, stored, field + 1);
        assert(here == before.push(value_at(stored, field + 1)));
        let all = record_columns(info, positions, stored, positions.len() as int);
        let at = carried(info, declared).len() as int;
        assert(all[at] == here[before.len() as int]);
        assert(rowid_row(info, stored)[1 + at] == all[at]);
    }
}

/// Reading a `WITHOUT ROWID` table's stored row back gives every declared column
/// the field of the record that holds it.
pub proof fn a_keyed_column_reads_its_own_field(
    info: TableInfo,
    columns: Seq<ColumnSpec>,
    key: int,
    layout: SourceLayout,
    stored: Seq<Value>,
    field: int,
)
    requires
        info.without_rowid,
        info.columns@.len() < usize::MAX,
        shapes_keyed(info, columns, key, layout),
        0 <= field < keyed_fields(info).len(),
    ensures
        logical(info, layout.slots@, stored)[keyed_fields(info)[field]] == kept_as(
            layout_for(info.columns@[keyed_fields(info)[field]].affinity),
            value_at(stored, field),
        ),
{
    a_keyed_record_holds_each_once(info);
    assert(layout.slots@[keyed_fields(info)[field]] == Some(field as usize));
}

/// What an index column reads of a table's row.
pub open spec fn indexed_value(
    column: IndexColumn,
    layout: SourceLayout,
    row: Seq<Value>,
) -> Value {
    match column.column {
        Some(declared) => if declared < layout.slots@.len() {
            match layout.slots@[declared as int] {
                Some(slot) => value_at(row, slot as int),
                None => Value::Null,
            }
        } else {
            Value::Null
        },
        None => Value::Null,
    }
}

/// The columns of a table's row an index entry ends with.
pub open spec fn identity_slots(layout: SourceLayout) -> Seq<Option<usize>> {
    if layout.identity@.len() == 0 {
        seq![layout.rowid]
    } else {
        layout.identity@.map_values(|slot: usize| Some(slot))
    }
}

/// The entry an index of plain columns holds for a table's row.
pub open spec fn plain_entry(
    index: IndexInfo,
    layout: SourceLayout,
    row: Seq<Value>,
) -> Seq<Value> {
    index.columns@.map_values(|column: IndexColumn| indexed_value(column, layout, row))
        + identity_slots(layout).map_values(
        |slot: Option<usize>|
            match slot {
                Some(at) => value_at(row, at as int),
                None => Value::Null,
            },
    )
}

/// Every entry of an index has the same number of columns.
pub proof fn entry_width(index: IndexInfo, layout: SourceLayout, row: Seq<Value>)
    ensures
        plain_entry(index, layout, row).len() == index.columns@.len() + identity_slots(
            layout,
        ).len(),
{
}

/// Builds the entry an index should hold for one table row.
///
/// Only for an index whose keys are plain columns: a computed key would have to
/// be evaluated.
pub fn plain_index_entry(index: &IndexInfo, layout: &SourceLayout, row: &[OwnedDatum]) -> (entry:
    Vec<OwnedDatum>)
    ensures
        owned_row(entry@) == plain_entry(*index, *layout, owned_row(row@)),
{
    let mut entry: Vec<OwnedDatum> = Vec::with_capacity(index.columns.len());
    let ghost values = owned_row(row@);
    let ghost keys = index.columns@.map_values(
        |column: IndexColumn| indexed_value(column, *layout, values),
    );
    for at in 0..index.columns.len()
        invariant
            values == owned_row(row@),
            keys == index.columns@.map_values(
                |column: IndexColumn| indexed_value(column, *layout, values),
            ),
            owned_row(entry@) =~= keys.take(at as int),
    {
        let value = match index.columns[at].column {
            Some(declared) => if (declared as usize) < layout.slots.len() {
                match layout.slots[declared as usize] {
                    Some(slot) => value_or_null(row, slot),
                    None => OwnedDatum::Null,
                }
            } else {
                OwnedDatum::Null
            },
            None => OwnedDatum::Null,
        };
        let ghost before = entry@;
        entry.push(value);
        assert(owned_row(entry@) =~= owned_row(before).push(keys[at as int]));
    }
    assert(keys.take(index.columns@.len() as int) =~= keys);
    let ghost last = identity_slots(*layout).map_values(
        |slot: Option<usize>|
            match slot {
                Some(at) => value_at(values, at as int),
                None => Value::Null,
            },
    );
    if layout.identity.len() == 0 {
        let value = match layout.rowid {
            Some(slot) => value_or_null(row, slot),
            None => OwnedDatum::Null,
        };
        let ghost before = entry@;
        entry.push(value);
        assert(owned_row(entry@) =~= owned_row(before) + last);
        return entry;
    }
    for at in 0..layout.identity.len()
        invariant
            values == owned_row(row@),
            layout.identity@.len() > 0,
            last == identity_slots(*layout).map_values(
                |slot: Option<usize>|
                    match slot {
                        Some(at) => value_at(values, at as int),
                        None => Value::Null,
                    },
            ),
            owned_row(entry@) =~= keys + last.take(at as int),
    {
        let ghost before = entry@;
        let value = value_or_null(row, layout.identity[at]);
        entry.push(value);
        assert(owned_row(entry@) =~= owned_row(before).push(last[at as int]));
    }
    assert(last.take(layout.identity@.len() as int) =~= last);
    entry
}

/// The collations a tree can be ordered under go by their names, in letters of either
/// case; every other name, and no name, is the order of the bytes.
pub proof fn collations_go_by_their_names(name: Seq<u8>)
    ensures
        collation_named(name) is NoCase <==> name.len() == 6 && (name[0] == 78 || name[0] == 110)
            && (name[1] == 79 || name[1] == 111) && (name[2] == 67 || name[2] == 99) && (name[3]
            == 65 || name[3] == 97) && (name[4] == 83 || name[4] == 115) && (name[5] == 69
            || name[5] == 101),
        collation_named(name) is RTrim <==> name.len() == 5 && (name[0] == 82 || name[0] == 114)
            && (name[1] == 84 || name[1] == 116) && (name[2] == 82 || name[2] == 114) && (name[3]
            == 73 || name[3] == 105) && (name[4] == 77 || name[4] == 109),
        plain_order(name) <==> name.len() == 0 || (name.len() == 6 && (name[0] == 66 || name[0]
            == 98) && (name[1] == 73 || name[1] == 105) && (name[2] == 78 || name[2] == 110) && (
        name[3] == 65 || name[3] == 97) && (name[4] == 82 || name[4] == 114) && (name[5] == 89
            || name[5] == 121)),
{
    reveal_strlit("BINARY");
    reveal_strlit("NOCASE");
    reveal_strlit("RTRIM");
    vstd::utf8::is_ascii_chars_encode_utf8("BINARY"@);
    vstd::utf8::is_ascii_chars_encode_utf8("NOCASE"@);
    vstd::utf8::is_ascii_chars_encode_utf8("RTRIM"@);
    let upper = raised(name);
    assert(ascii("BINARY") =~= seq![66u8, 73u8, 78u8, 65u8, 82u8, 89u8]);
    assert(ascii("NOCASE") =~= seq![78u8, 79u8, 67u8, 65u8, 83u8, 69u8]);
    assert(ascii("RTRIM") =~= seq![82u8, 84u8, 82u8, 73u8, 77u8]);
    if name.len() == 6 {
        assert(upper == ascii("NOCASE") <==> upper[0] == 78 && upper[1] == 79 && upper[2] == 67
            && upper[3] == 65 && upper[4] == 83 && upper[5] == 69) by {
            if upper[0] == 78 && upper[1] == 79 && upper[2] == 67 && upper[3] == 65 && upper[4]
                == 83 && upper[5] == 69 {
                assert(upper =~= ascii("NOCASE"));
            }
        }
        assert(upper == ascii("BINARY") <==> upper[0] == 66 && upper[1] == 73 && upper[2] == 78
            && upper[3] == 65 && upper[4] == 82 && upper[5] == 89) by {
            if upper[0] == 66 && upper[1] == 73 && upper[2] == 78 && upper[3] == 65 && upper[4]
                == 82 && upper[5] == 89 {
                assert(upper =~= ascii("BINARY"));
            }
        }
    }
    if name.len() == 5 {
        assert(upper == ascii("RTRIM") <==> upper[0] == 82 && upper[1] == 84 && upper[2] == 82
            && upper[3] == 73 && upper[4] == 77) by {
            if upper[0] == 82 && upper[1] == 84 && upper[2] == 82 && upper[3] == 73 && upper[4]
                == 77 {
                assert(upper =~= ascii("RTRIM"));
            }
        }
    }
    assert(ascii("NOCASE").len() == 6 && ascii("RTRIM").len() == 5 && ascii("BINARY").len() == 6);
    assert(upper.len() == name.len());
}

/// An index column has the order it was declared with: its own collation, and its
/// table column's where it names none, which is the one the table's own tree has for
/// that column; its own direction; and the layout its table column's affinity calls
/// for.
pub proof fn an_index_column_is_as_declared(
    table: TableInfo,
    index: IndexInfo,
    root: u32,
    columns: Seq<ColumnSpec>,
    layout: SourceLayout,
    position: int,
)
    requires
        shapes_index(table, index, root, columns, layout),
        0 <= position < index.columns@.len(),
    ensures
        position < columns.len(),
        columns[position].key,
        columns[position].descending == index.columns@[position].descending,
        index.columns@[position].column is None ==> columns[position].collation is Binary
            && columns[position].physical is Any,
        index.columns@[position].column matches Some(declared) ==> {
            &&& index.columns@[position].collation@.len() > 0 ==> columns[position].collation
                == collation_named(index.columns@[position].collation@)
            &&& index.columns@[position].collation@.len() == 0 && declared < table.columns@.len()
                ==> columns[position].collation == collation_named(
                table.columns@[declared as int].collation@,
            )
            &&& declared < table.columns@.len() ==> columns[position].physical == (
            match table.columns@[declared as int].affinity {
                Affinity::Integer => PhysicalType::Int64,
                Affinity::Real => PhysicalType::Float64,
                Affinity::Text => PhysicalType::Text,
                _ => PhysicalType::Any,
            })
        },
{
    assert(columns[position] == index_spec(table, index.columns@[position]));
}

/// An index that names no collation of its own for a column is ordered as the
/// table's own tree is by that column.
pub proof fn an_index_follows_its_table(
    table: TableInfo,
    index: IndexInfo,
    root: u32,
    columns: Seq<ColumnSpec>,
    layout: SourceLayout,
    own: Seq<ColumnSpec>,
    read: SourceLayout,
    position: int,
)
    requires
        shapes_index(table, index, root, columns, layout),
        shapes_table(table, own, read),
        table.columns@.len() < usize::MAX,
        0 <= position < index.columns@.len(),
        index.columns@[position].collation@.len() == 0,
        index.columns@[position].column is Some,
        index.columns@[position].column->Some_0 < table.columns@.len(),
        table.rowid_alias != index.columns@[position].column,
    ensures
        read.slots@[index.columns@[position].column->Some_0 as int] matches Some(slot)
            ==> slot < own.len() && own[slot as int].collation == columns[position].collation
            && own[slot as int].physical == columns[position].physical,
{
    let declared = index.columns@[position].column->Some_0 as int;
    assert(columns[position] == index_spec(table, index.columns@[position]));
    assert(read.slots@[declared] == table_slot(table, declared));
    if !computed_on_read(table, declared) {
        a_table_carries_its_columns(table, own, read, declared);
    }
}

/// A column that is stored is carried by a rowid table's tree, as it was declared.
pub proof fn a_table_carries_its_columns(
    info: TableInfo,
    columns: Seq<ColumnSpec>,
    layout: SourceLayout,
    declared: int,
)
    requires
        shapes_table(info, columns, layout),
        info.columns@.len() < usize::MAX,
        0 <= declared < info.columns@.len(),
    ensures
        columns.len() > 0,
        columns[0].physical is Int64 && columns[0].key && columns[0].collation is Binary
            && !columns[0].descending,
        layout.slots@.len() == info.columns@.len(),
        layout.width == columns.len(),
        layout.rowid == Some(0usize),
        layout.identity@.len() == 1 && layout.identity@[0] == 0,
        info.columns@[declared].generated && !info.columns@[declared].stored
            ==> layout.slots@[declared] is None,
        !(info.columns@[declared].generated && !info.columns@[declared].stored)
            ==> layout.slots@[declared] is Some,
        layout.slots@[declared] matches Some(slot) ==> {
            &&& slot < columns.len()
            &&& slot == 0 <==> (info.rowid_alias matches Some(alias) && alias == declared)
            &&& slot > 0 ==> {
                &&& !columns[slot as int].key
                &&& !columns[slot as int].descending
                &&& columns[slot as int].collation == collation_named(
                    info.columns@[declared].collation@,
                )
                &&& columns[slot as int].physical == (match info.columns@[declared].affinity {
                    Affinity::Integer => PhysicalType::Int64,
                    Affinity::Real => PhysicalType::Float64,
                    Affinity::Text => PhysicalType::Text,
                    _ => PhysicalType::Any,
                })
            }
        },
        forall|earlier: int|
            0 <= earlier < declared && (#[trigger] layout.slots@[earlier]) is Some
                && layout.slots@[earlier] != Some(0usize) && layout.slots@[declared] is Some
                && layout.slots@[declared] != Some(0usize) ==> layout.slots@[earlier]->Some_0
                < layout.slots@[declared]->Some_0,
{
    let count = info.columns@.len() as int;
    let held = carried(info, count);
    carried_in_order(info, count);
    carried_in_order(info, declared);
    assert(layout.slots@[declared] == table_slot(info, declared));
    if !computed_on_read(info, declared) && !is_alias(info, declared) {
        let at = carried(info, declared).len() as int;
        carried_goes_on(info, declared + 1, count);
        assert(carried(info, declared + 1)[at] == declared);
        assert(held[at] == declared);
        assert(columns[1 + at] == spec_of(info.columns@[declared], false));
    }
    assert forall|earlier: int|
        0 <= earlier < declared && (#[trigger] layout.slots@[earlier]) is Some
            && layout.slots@[earlier] != Some(0usize) && layout.slots@[declared] is Some
            && layout.slots@[declared] != Some(0usize) implies layout.slots@[earlier]->Some_0
        < layout.slots@[declared]->Some_0 by {
        assert(layout.slots@[earlier] == table_slot(info, earlier));
        carried_in_order(info, earlier);
        carried_goes_on(info, earlier + 1, declared);
    }
}

/// The first carried positions are carried whatever comes after them.
proof fn carried_goes_on(info: TableInfo, some: int, more: int)
    requires
        0 <= some <= more,
    ensures
        carried(info, some).len() <= carried(info, more).len(),
        forall|i: int|
            0 <= i < carried(info, some).len() ==> #[trigger] carried(info, some)[i] == carried(
                info,
                more,
            )[i],
    decreases more,
{
    if some < more {
        carried_goes_on(info, some, more - 1);
        assert forall|i: int|
            0 <= i < carried(info, some).len() implies #[trigger] carried(info, some)[i]
            == carried(info, more)[i] by {
            assert(carried(info, some)[i] == carried(info, more - 1)[i]);
        }
    }
}

/// A primary key is its columns in the order of their places: each declared column
/// with a place in it once, and none else.
pub proof fn a_key_is_in_its_order(info: TableInfo, i: int, j: int, declared: int)
    requires
        0 <= i < j < primary_key(info).len(),
        0 <= declared < info.columns@.len(),
    ensures
        0 <= primary_key(info)[i] < info.columns@.len(),
        0 <= primary_key(info)[j] < info.columns@.len(),
        info.columns@[primary_key(info)[i]].primary_key_position is Some,
        info.columns@[primary_key(info)[j]].primary_key_position is Some,
        info.columns@[primary_key(info)[i]].primary_key_position->Some_0
            <= info.columns@[primary_key(info)[j]].primary_key_position->Some_0,
        info.columns@[primary_key(info)[i]].primary_key_position
            == info.columns@[primary_key(info)[j]].primary_key_position ==> primary_key(info)[i]
            < primary_key(info)[j],
        primary_key(info).contains(declared) <==> info.columns@[declared].primary_key_position
            is Some,
{
    let count = info.columns@.len() as int;
    let keyed = keyed_columns(info, count);
    a_key_holds_its_columns(info, count);
    assert(keyed.contains(keyed[i]));
    assert(keyed.contains(keyed[j]));
    assert(in_key_order_pair(keyed[i], keyed[j]));
    a_key_has_every_column(info, declared);
}

/// A declared column is in a primary key where it has a place in it.
pub proof fn a_key_has_every_column(info: TableInfo, declared: int)
    requires
        0 <= declared < info.columns@.len(),
    ensures
        primary_key(info).contains(declared) <==> info.columns@[declared].primary_key_position
            is Some,
{
    let count = info.columns@.len() as int;
    let keyed = keyed_columns(info, count);
    a_key_holds_its_columns(info, count);
    if info.columns@[declared].primary_key_position is Some {
        let pair = (info.columns@[declared].primary_key_position->Some_0, declared);
        assert(keyed.contains(pair));
        let at = choose|at: int| 0 <= at < keyed.len() && keyed[at] == pair;
        assert(primary_key(info)[at] == declared);
    }
    if primary_key(info).contains(declared) {
        let at = choose|at: int| 0 <= at < primary_key(info).len() && primary_key(info)[at]
            == declared;
        assert(keyed.contains(keyed[at]));
    }
}

/// A `WITHOUT ROWID` table's tree carries its primary key first, each column by its
/// place in the key, and then every other stored column as it was declared.
pub proof fn a_keyed_table_carries_its_columns(
    info: TableInfo,
    columns: Seq<ColumnSpec>,
    key: int,
    layout: SourceLayout,
    declared: int,
)
    requires
        shapes_keyed(info, columns, key, layout),
        info.columns@.len() < usize::MAX,
        0 <= declared < info.columns@.len(),
    ensures
        layout.slots@.len() == info.columns@.len(),
        layout.width == columns.len(),
        layout.rowid is None,
        layout.identity@.len() == key,
        forall|at: int| 0 <= at < key ==> #[trigger] layout.identity@[at] == at,
        layout.slots@[declared] is Some <==> info.columns@[declared].primary_key_position is Some
            || !(info.columns@[declared].generated && !info.columns@[declared].stored),
        layout.slots@[declared] matches Some(slot) ==> {
            &&& slot < columns.len()
            &&& slot < key <==> info.columns@[declared].primary_key_position is Some
            &&& columns[slot as int].key == (slot < key)
            &&& !columns[slot as int].descending
            &&& columns[slot as int].collation == collation_named(
                info.columns@[declared].collation@,
            )
            &&& columns[slot as int].physical == (match info.columns@[declared].affinity {
                Affinity::Integer => PhysicalType::Int64,
                Affinity::Real => PhysicalType::Float64,
                Affinity::Text => PhysicalType::Text,
                _ => PhysicalType::Any,
            })
        },
        forall|other: int|
            0 <= other < info.columns@.len() && (#[trigger] layout.slots@[other]) is Some
                && layout.slots@[declared] is Some && (info.columns@[other].primary_key_position
                is None && info.columns@[declared].primary_key_position is None && other < declared
                || info.columns@[other].primary_key_position is Some
                && info.columns@[declared].primary_key_position is Some
                && info.columns@[other].primary_key_position->Some_0
                < info.columns@[declared].primary_key_position->Some_0)
                    ==> layout.slots@[other]->Some_0
                < layout.slots@[declared]->Some_0,
{
    let count = info.columns@.len() as int;
    let fields = keyed_fields(info);
    let pk = primary_key(info);
    let rest = unkeyed(info, count);
    a_keyed_record_holds_each_once(info);
    unkeyed_in_order(info, count);
    assert forall|at: int| 0 <= at < key implies #[trigger] layout.identity@[at] == at by {
        assert(key <= count) by {
            a_key_holds_its_columns(info, count);
        }
    }
    a_keyed_place(info, declared);
    if layout.slots@[declared] is Some {
        let slot = a_field_of(info, layout, declared);
        assert(columns[slot] == spec_of(info.columns@[fields[slot]], slot < key));
    }
    assert forall|other: int|
        0 <= other < info.columns@.len() && (#[trigger] layout.slots@[other]) is Some
            && layout.slots@[declared] is Some && (info.columns@[other].primary_key_position
            is None && info.columns@[declared].primary_key_position is None && other < declared
            || info.columns@[other].primary_key_position is Some
            && info.columns@[declared].primary_key_position is Some
            && info.columns@[other].primary_key_position->Some_0
            < info.columns@[declared].primary_key_position->Some_0) implies
        layout.slots@[other]->Some_0 < layout.slots@[declared]->Some_0 by {
        a_keyed_place(info, other);
        let one = a_field_of(info, layout, other);
        let two = a_field_of(info, layout, declared);
        if one == two {
            assert(other == declared);
        } else if one > two {
            if two >= key {
                assert(rest[two - key] < rest[one - key]);
            } else {
                let keyed = keyed_columns(info, count);
                a_key_holds_its_columns(info, count);
                assert(in_key_order_pair(keyed[two], keyed[one]));
                assert(keyed.contains(keyed[one]) && keyed.contains(keyed[two]));
            }
        }
    }
}

/// Where the field of a column that has a slot stands.
proof fn a_field_of(info: TableInfo, layout: SourceLayout, declared: int) -> (field: int)
    requires
        exists|columns: Seq<ColumnSpec>, key: int| #[trigger]
            shapes_keyed(info, columns, key, layout),
        info.columns@.len() < usize::MAX,
        0 <= declared < info.columns@.len(),
        layout.slots@[declared] is Some,
    ensures
        0 <= field < keyed_fields(info).len(),
        keyed_fields(info)[field] == declared,
        layout.slots@[declared] == Some(field as usize),
        layout.slots@[declared]->Some_0 == field,
        field < primary_key(info).len() <==> info.columns@[declared].primary_key_position is Some,
{
    let count = info.columns@.len() as int;
    let fields = keyed_fields(info);
    assert(fields.contains(declared));
    let field = choose|field: int| 0 <= field < fields.len() && fields[field] == declared;
    a_keyed_record_holds_each_once(info);
    keyed_fields_fit(info);
    a_key_has_every_column(info, declared);
    unkeyed_in_order(info, count);
    if field < primary_key(info).len() {
        assert(primary_key(info)[field] == declared);
    } else {
        assert(unkeyed(info, count)[field - primary_key(info).len()] == declared);
    }
    field
}

/// A record has no more fields than its table has columns.
proof fn keyed_fields_fit(info: TableInfo)
    ensures
        keyed_fields(info).len() <= info.columns@.len(),
{
    a_keyed_record_holds_each_once(info);
    let fields = keyed_fields(info);
    let range = vstd::set_lib::set_int_range(0, info.columns@.len() as int);
    vstd::set_lib::lemma_int_range(0, info.columns@.len() as int);
    fields.unique_seq_to_set();
    assert(fields.to_set().subset_of(range)) by {
        assert forall|x: int| fields.to_set().contains(x) implies range.contains(x) by {
            let i = choose|i: int| 0 <= i < fields.len() && fields[i] == x;
            assert(0 <= fields[i] < info.columns@.len());
        }
    }
    vstd::set_lib::lemma_len_subset(fields.to_set(), range);
}

/// A column is a field of a `WITHOUT ROWID` table's record where it is in the key or
/// stored.
proof fn a_keyed_place(info: TableInfo, declared: int)
    requires
        0 <= declared < info.columns@.len(),
    ensures
        keyed_fields(info).contains(declared) <==> info.columns@[declared].primary_key_position
            is Some || !(info.columns@[declared].generated && !info.columns@[declared].stored),
{
    let count = info.columns@.len() as int;
    let fields = keyed_fields(info);
    let pk = primary_key(info);
    a_key_has_every_column(info, declared);
    unkeyed_holds(info, count, declared);
    if pk.contains(declared) {
        let at = choose|at: int| 0 <= at < pk.len() && pk[at] == declared;
        assert(fields[at] == declared);
    }
    if unkeyed(info, count).contains(declared) {
        let at = choose|at: int| 0 <= at < unkeyed(info, count).len() && unkeyed(info, count)[at]
            == declared;
        assert(fields[pk.len() + at] == declared);
    }
    if fields.contains(declared) {
        let at = choose|at: int| 0 <= at < fields.len() && fields[at] == declared;
        if at < pk.len() {
            assert(pk[at] == declared);
        } else {
            assert(unkeyed(info, count)[at - pk.len()] == declared);
        }
    }
}

/// A column outside the key is a field after it where it is stored.
proof fn unkeyed_holds(info: TableInfo, upto: int, declared: int)
    requires
        0 <= upto <= info.columns@.len(),
        0 <= declared < info.columns@.len(),
    ensures
        unkeyed(info, upto).contains(declared) <==> declared < upto
            && info.columns@[declared].primary_key_position is None && !(
        info.columns@[declared].generated && !info.columns@[declared].stored),
    decreases upto,
{
    if upto > 0 {
        unkeyed_holds(info, upto - 1, declared);
        let less = unkeyed(info, upto - 1);
        let all = unkeyed(info, upto);
        if less.contains(declared) {
            let at = choose|at: int| 0 <= at < less.len() && less[at] == declared;
            assert(all[at] == declared);
        }
        if all.len() > less.len() {
            assert(all[all.len() - 1] == upto - 1);
        }
        if all.contains(declared) && declared != upto - 1 {
            let at = choose|at: int| 0 <= at < all.len() && all[at] == declared;
            assert(less[at] == declared);
        }
    }
}

/// An index's tree carries the columns it indexes, each where it is indexed, and ends
/// in whatever identifies the row: the rowid, or the columns of the primary key.
pub proof fn an_index_carries_its_columns(
    table: TableInfo,
    index: IndexInfo,
    root: u32,
    columns: Seq<ColumnSpec>,
    layout: SourceLayout,
    declared: int,
)
    requires
        shapes_index(table, index, root, columns, layout),
        index.columns@.len() + table.columns@.len() < usize::MAX,
        0 <= declared < table.columns@.len(),
    ensures
        layout.tree_key == root,
        layout.width == columns.len(),
        layout.slots@.len() == table.columns@.len(),
        layout.identity@.len() == columns.len() - index.columns@.len(),
        forall|at: int|
            0 <= at < layout.identity@.len() ==> #[trigger] layout.identity@[at]
                == index.columns@.len() + at,
        !table.without_rowid ==> {
            &&& columns.len() == index.columns@.len() + 1
            &&& columns.last().physical is Int64 && columns.last().key && columns.last().collation
                is Binary && !columns.last().descending
            &&& layout.rowid == Some(index.columns@.len() as usize)
            &&& (table.rowid_alias matches Some(alias) && alias == declared) ==> (
            layout.slots@[declared] matches Some(slot) && slot == index.columns@.len())
        },
        table.without_rowid && primary_key(table).len() > 0 ==> {
            &&& columns.len() == index.columns@.len() + primary_key(table).len()
            &&& layout.rowid is None
            &&& forall|at: int|
                0 <= at < primary_key(table).len() ==> (#[trigger] columns[index.columns@.len()
                    + at]).collation == collation_named(
                    table.columns@[primary_key(table)[at]].collation@,
                ) && columns[index.columns@.len() + at].key && !columns[index.columns@.len()
                    + at].descending
        },
        layout.slots@[declared] matches Some(slot) ==> {
            &&& slot < columns.len()
            &&& slot < index.columns@.len() ==> index.columns@[slot as int].column == Some(
                declared as u16,
            ) && declared <= u16::MAX
            &&& slot >= index.columns@.len() && table.without_rowid && primary_key(table).len() > 0
                ==> primary_key(table)[slot - index.columns@.len()] == declared
        },
        (exists|position: int|
            0 <= position < index.columns@.len()
                && (#[trigger] index.columns@[position]).column is Some
                && index.columns@[position].column->Some_0 == declared)
                    ==> layout.slots@[declared] is Some,
{
    let indexed = index.columns@.len() as int;
    let trailing = identifying(table);
    identifying_in_range(table);
    assert(layout.slots@[declared] == index_slot(table, index, declared));
    assert forall|at: int| 0 <= at < layout.identity@.len() implies #[trigger] layout.identity@[at]
        == indexed + at by {}
    found_where_indexed(index, declared, indexed);
    if trailing.len() > 0 {
        found_where_named(trailing, declared, indexed, trailing.len() as int);
        assert forall|at: int| 0 <= at < trailing.len() implies (#[trigger] columns[indexed
            + at]).collation == collation_named(table.columns@[trailing[at]].collation@)
            && columns[indexed + at].key && !columns[indexed + at].descending by {
            assert(columns[indexed + at] == trailing_specs(table)[at]);
        }
    } else {
        assert(columns.last() == trailing_specs(table)[0]);
    }
    if exists|position: int|
        0 <= position < indexed && (#[trigger] index.columns@[position]).column is Some
                && index.columns@[position].column->Some_0 == declared {
        let position = choose|position: int|
            0 <= position < indexed && (#[trigger] index.columns@[position]).column is Some
                && index.columns@[position].column->Some_0 == declared;
        assert(indexed_at(index, declared, indexed) is Some);
    }
}

/// A declared column is found where an index has it.
proof fn found_where_indexed(index: IndexInfo, declared: int, upto: int)
    requires
        0 <= upto <= index.columns@.len() < usize::MAX,
    ensures
        indexed_at(index, declared, upto) matches Some(slot) ==> slot < upto
            && index.columns@[slot as int].column is Some
            && index.columns@[slot as int].column->Some_0 == declared,
        (exists|position: int|
            0 <= position < upto && (#[trigger] index.columns@[position]).column is Some
                && index.columns@[position].column->Some_0 == declared)
                    ==> indexed_at(index, declared, upto) is Some,
    decreases upto,
{
    if upto > 0 {
        found_where_indexed(index, declared, upto - 1);
        if (exists|position: int|
            0 <= position < upto && (#[trigger] index.columns@[position]).column is Some
                && index.columns@[position].column->Some_0 == declared)
                    && indexed_at(index, declared, upto) is None {
            let position = choose|position: int|
                0 <= position < upto && (#[trigger] index.columns@[position]).column is Some
                && index.columns@[position].column->Some_0 == declared;
            assert(position < upto - 1);
        }
    }
}

/// A declared column is found where a list names it.
proof fn found_where_named(columns: Seq<int>, declared: int, past: int, upto: int)
    requires
        0 <= past,
        0 <= upto <= columns.len(),
        past + upto < usize::MAX,
    ensures
        named_at(columns, declared, past, upto) matches Some(slot) ==> past <= slot < past + upto
            && columns[slot - past] == declared,
    decreases upto,
{
    if upto > 0 {
        found_where_named(columns, declared, past, upto - 1);
    }
}

/// An index entry holds the row's own values: in each indexed column the value the
/// row holds in the slot of that column, and after them the values that identify the
/// row.
pub proof fn an_entry_holds_its_rows_values(
    index: IndexInfo,
    layout: SourceLayout,
    row: Seq<Value>,
    position: int,
    at: int,
)
    requires
        0 <= position < index.columns@.len(),
        layout.identity@.len() > 0,
        0 <= at < layout.identity@.len(),
        layout.identity@[at] < row.len(),
    ensures
        plain_entry(index, layout, row).len() == index.columns@.len() + layout.identity@.len(),
        index.columns@[position].column matches Some(declared) ==> declared < layout.slots@.len()
            ==> (layout.slots@[declared as int] matches Some(slot) ==> slot < row.len()
            ==> plain_entry(index, layout, row)[position] == row[slot as int]),
        index.columns@[position].column is None ==> plain_entry(index, layout, row)[position]
            is Null,
        plain_entry(index, layout, row)[index.columns@.len() + at]
            == row[layout.identity@[at] as int],
{
    let entry = plain_entry(index, layout, row);
    assert(entry[position] == indexed_value(index.columns@[position], layout, row));
    assert(identity_slots(layout)[at] == Some(layout.identity@[at]));
    assert(entry[index.columns@.len() + at] == value_at(row, layout.identity@[at] as int));
}

/// A record has a field for every declared column that is not computed on read, in
/// the order of declaration.
proof fn recorded_holds(info: TableInfo, upto: int, declared: int)
    requires
        0 <= upto <= info.columns@.len(),
        0 <= declared < info.columns@.len(),
    ensures
        recorded_positions(info, upto).contains(declared) <==> declared < upto && !(
        info.columns@[declared].generated && !info.columns@[declared].stored),
        forall|i: int, j: int|
            0 <= i < j < recorded_positions(info, upto).len() ==> #[trigger] recorded_positions(
                info,
                upto,
            )[i] < #[trigger] recorded_positions(info, upto)[j],
        forall|i: int|
            0 <= i < recorded_positions(info, upto).len() ==> 0
                <= #[trigger] recorded_positions(info, upto)[i] < upto,
    decreases upto,
{
    if upto > 0 {
        recorded_holds(info, upto - 1, declared);
        let less = recorded_positions(info, upto - 1);
        let all = recorded_positions(info, upto);
        if less.contains(declared) {
            let at = choose|at: int| 0 <= at < less.len() && less[at] == declared;
            assert(all[at] == declared);
        }
        if all.len() > less.len() {
            assert(all[all.len() - 1] == upto - 1);
        }
        if all.contains(declared) && declared != upto - 1 {
            let at = choose|at: int| 0 <= at < all.len() && all[at] == declared;
            assert(less[at] == declared);
        }
    }
}

/// Two ascending lists of the same numbers are one list.
proof fn ascending_lists_agree(one: Seq<int>, two: Seq<int>, at: int)
    requires
        forall|i: int, j: int| 0 <= i < j < one.len() ==> #[trigger] one[i] < #[trigger] one[j],
        forall|i: int, j: int| 0 <= i < j < two.len() ==> #[trigger] two[i] < #[trigger] two[j],
        forall|i: int| 0 <= i < one.len() ==> two.contains(#[trigger] one[i]),
        forall|i: int| 0 <= i < two.len() ==> one.contains(#[trigger] two[i]),
        0 <= at < one.len(),
    ensures
        at < two.len(),
        one[at] == two[at],
    decreases at,
{
    let there = choose|k: int| 0 <= k < two.len() && two[k] == one[at];
    assert(two.contains(one[at]));
    if there < at {
        ascending_lists_agree(one, two, there);
    } else if there > at {
        assert(one.contains(two[at]));
        let back = choose|k: int| 0 <= k < one.len() && one[k] == two[at];
        assert(one[back] < one[at]);
        assert(back < at);
        ascending_lists_agree(one, two, back);
        assert(two[back] < two[at]);
    }
}

/// A rowid table's tree holds what its records hold: in the slot of each stored
/// column the very value of that column's field, whatever the value is, and in the
/// slot of another name for the rowid, the rowid. A field that a record ends before
/// is NULL. Read back, each is the same value, but for an integer of a `REAL`
/// column, which is the number nearest to it.
pub proof fn a_rowid_row_keeps_its_values(
    info: TableInfo,
    columns: Seq<ColumnSpec>,
    layout: SourceLayout,
    stored: Seq<Value>,
    fields: Seq<int>,
    field: int,
) -> (slot: int)
    requires
        !info.without_rowid,
        info.columns@.len() < usize::MAX,
        shapes_table(info, columns, layout),
        forall|i: int, j: int|
            0 <= i < j < fields.len() ==> #[trigger] fields[i] < #[trigger] fields[j],
        forall|i: int|
            0 <= i < fields.len() ==> 0 <= #[trigger] fields[i] < info.columns@.len() && !(
            info.columns@[fields[i]].generated && !info.columns@[fields[i]].stored),
        forall|declared: int|
            0 <= declared < info.columns@.len() && !((#[trigger] info.columns@[declared]).generated
                && !info.columns@[declared].stored) ==> fields.contains(declared),
        0 <= field < fields.len(),
        stored.len() > 0,
    ensures
        rowid_row(info, stored).len() == columns.len(),
        rowid_row(info, stored)[0] == stored[0],
        layout.slots@[fields[field]] is Some && layout.slots@[fields[field]]->Some_0 == slot,
        0 <= slot < columns.len(),
        info.rowid_alias is Some && info.rowid_alias->Some_0 == fields[field] ==> slot == 0,
        !(info.rowid_alias is Some && info.rowid_alias->Some_0 == fields[field]) ==> slot > 0 && (
        1 + field < stored.len() ==> rowid_row(info, stored)[slot] == stored[1 + field]) && (1
            + field >= stored.len() ==> rowid_row(info, stored)[slot] is Null),
        !(info.columns@[fields[field]].affinity is Real && rowid_row(info, stored)[slot] is Int)
            ==> logical(info, layout.slots@, stored)[fields[field]] == rowid_row(
            info,
            stored,
        )[slot],
        info.columns@[fields[field]].affinity is Real && rowid_row(info, stored)[slot] is Int
            ==> logical(info, layout.slots@, stored)[fields[field]] == Value::Real(
            as_real(rowid_row(info, stored)[slot]->Int_0),
        ),
{
    let count = info.columns@.len() as int;
    let positions = recorded_positions(info, count);
    let declared = fields[field];
    recorded_holds(info, count, declared);
    assert forall|i: int| 0 <= i < fields.len() implies positions.contains(
        #[trigger] fields[i],
    ) by {
        recorded_holds(info, count, fields[i]);
    }
    assert forall|i: int| 0 <= i < positions.len() implies fields.contains(
        #[trigger] positions[i],
    ) by {
        recorded_holds(info, count, positions[i]);
        assert(positions.contains(positions[i]));
        let _ = info.columns@[positions[i]].generated;
    }
    ascending_lists_agree(fields, positions, field);
    recorded_holds(info, declared, declared);
    recorded_holds(info, declared + 1, declared);
    fields_begin(info, declared + 1, count);
    let here = recorded_positions(info, declared + 1);
    assert(here[here.len() - 1] == declared);
    assert(positions[here.len() - 1] == declared);
    assert(field_of(info, declared) == field) by {
        if here.len() - 1 < field {
            assert(positions[here.len() - 1] < positions[field]);
        }
        if here.len() - 1 > field {
            assert(positions[field] < positions[here.len() - 1]);
        }
    }
    columns_before(info, stored, count);
    carried_in_order(info, count);
    carried_in_order(info, declared);
    assert(layout.slots@[declared] == table_slot(info, declared));
    if is_alias(info, declared) {
        0
    } else {
        columns_before(info, stored, declared);
        columns_begin(info, positions, stored, field + 1, positions.len() as int);
        let before = record_columns(info, positions, stored, field);
        let now = record_columns(info, positions, stored, field + 1);
        assert(now == before.push(value_at(stored, field + 1)));
        let all = record_columns(info, positions, stored, positions.len() as int);
        let at = carried(info, declared).len() as int;
        assert(all[at] == now[before.len() as int]);
        assert(rowid_row(info, stored)[1 + at] == all[at]);
        1 + at
    }
}

/// Read back, a column that is computed on read holds nothing of its own.
pub proof fn a_computed_column_reads_as_nothing(
    info: TableInfo,
    columns: Seq<ColumnSpec>,
    layout: SourceLayout,
    stored: Seq<Value>,
    declared: int,
)
    requires
        !info.without_rowid,
        info.columns@.len() < usize::MAX,
        shapes_table(info, columns, layout),
        0 <= declared < info.columns@.len(),
        info.columns@[declared].generated && !info.columns@[declared].stored,
    ensures
        logical(info, layout.slots@, stored)[declared] is Null,
{
    a_table_carries_its_columns(info, columns, layout, declared);
}

} // verus!
