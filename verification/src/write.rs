//! Rows put into the order of the tree they are about to build.
//!
//! A file kept by another engine hands its rows over in that engine's order. A
//! tree whose leaves are not in its own key order answers a scan right and a
//! search wrong, so the rows are sorted by the tree's own comparison first.

use vstd::prelude::*;

use crate::codes::{
    byte_order_carries, byte_order_reversed, decided_stays, keyable, row_code, row_codes_tell,
    row_order, rows_stand_by_their_first_difference, telling_is_byte_order, writable, KeyEncoding,
};
use crate::schema::ColumnSpec;
use crate::sorting::{sorted, Ranking};
use crate::values::{
    byte_order, compare_under, duplicate_row, owned_row, owned_rows, value_order, Collation, Order,
    OwnedDatum, Value,
};

verus! {

/// The collations of a tree's key columns.
pub open spec fn key_collations(columns: Seq<ColumnSpec>) -> Seq<Collation> {
    columns.map_values(|spec: ColumnSpec| spec.collation)
}

/// Which of a tree's key columns are descending.
pub open spec fn key_directions(columns: Seq<ColumnSpec>) -> Seq<bool> {
    columns.map_values(|spec: ColumnSpec| spec.descending)
}

/// The order a tree's key puts two rows in.
pub open spec fn key_order(
    left: Seq<Value>,
    right: Seq<Value>,
    columns: Seq<ColumnSpec>,
    key: int,
) -> Order {
    row_order(left, right, key_collations(columns), key_directions(columns), key)
}

/// How many columns of one row a key compares.
pub open spec fn reached(row: Seq<Value>, key: int) -> int {
    if row.len() < key {
        row.len() as int
    } else {
        key
    }
}

/// Whether a key compares as many columns of every row: all of its own where each
/// row holds them, and otherwise all that rows of one width have.
pub open spec fn evenly_keyed(rows: Seq<Seq<Value>>, key: int) -> bool {
    forall|i: int, j: int|
        0 <= i < rows.len() && 0 <= j < rows.len() ==> reached(#[trigger] rows[i], key) == reached(
            #[trigger] rows[j],
            key,
        )
}

/// How many columns of evenly keyed rows a key compares.
pub open spec fn compared(rows: Seq<Seq<Value>>, key: int) -> int {
    if rows.len() > 0 {
        reached(rows[0], key)
    } else {
        key
    }
}

/// Whether rows are others in key order, rows with equal keys in the order they
/// came in, and where each came from.
pub open spec fn arranged(
    before: Seq<Seq<Value>>,
    after: Seq<Seq<Value>>,
    columns: Seq<ColumnSpec>,
    key: int,
    places: Seq<usize>,
) -> bool {
    &&& after.len() == before.len()
    &&& places.len() == before.len()
    &&& places.no_duplicates()
    &&& forall|i: int| 0 <= i < places.len() ==> #[trigger] places[i] < before.len()
    &&& forall|i: int| 0 <= i < after.len() ==> #[trigger] after[i] == before[places[i] as int]
    &&& forall|i: int, j: int|
        0 <= i < j < after.len() ==> {
            let order = key_order(
                #[trigger] after[i],
                #[trigger] after[j],
                columns,
                compared(before, key),
            );
            order is Less || (order is Equal && places[i] < places[j])
        }
}

/// Rows, and the key they are sorted by.
struct Keyed<'a> {
    rows: &'a Vec<Vec<OwnedDatum>>,
    columns: &'a [ColumnSpec],
    key: usize,
}

impl<'a> Keyed<'a> {
    /// One row's values.
    spec fn row(&self, at: int) -> Seq<Value> {
        owned_row(self.rows@[at]@)
    }

    /// Whether the key is inside every row.
    spec fn fits(&self) -> bool {
        forall|i: int|
            0 <= i < self.rows@.len() ==> self.key <= (#[trigger] self.rows@[i])@.len()
    }

    /// One row's code.
    spec fn code(&self, at: int) -> Seq<u8> {
        row_code(
            KeyEncoding::General,
            self.row(at),
            key_collations(self.columns@),
            key_directions(self.columns@),
            self.key as int,
        )
    }

    /// Two rows' codes are in the order of their keys.
    proof fn codes_tell(&self, left: int, right: int)
        requires
            self.fits(),
            0 <= left < self.rows@.len(),
            0 <= right < self.rows@.len(),
        ensures
            byte_order(self.code(left), self.code(right)) == key_order(
                self.row(left),
                self.row(right),
                self.columns@,
                self.key as int,
            ),
            key_order(self.row(left), self.row(right), self.columns@, self.key as int) is Equal
                ==> self.code(left) == self.code(right),
    {
        self.row_is_keyable(left);
        self.row_is_keyable(right);
        row_codes_tell(
            KeyEncoding::General,
            self.row(left),
            self.row(right),
            key_collations(self.columns@),
            key_directions(self.columns@),
            self.key as int,
        );
        telling_is_byte_order(
            self.code(left),
            self.code(right),
            key_order(self.row(left), self.row(right), self.columns@, self.key as int),
        );
    }

    /// Every row can be keyed.
    proof fn row_is_keyable(&self, at: int)
        requires
            self.fits(),
            0 <= at < self.rows@.len(),
        ensures
            keyable(KeyEncoding::General, self.row(at), self.key as int),
    {
        let row = self.rows@[at]@;
        assert forall|i: int| 0 <= i < self.key implies writable(#[trigger] self.row(at)[i]) by {
            match row[i] {
                OwnedDatum::Text(bytes) => {
                    assert(bytes@.len() == bytes.len());
                },
                _ => {},
            }
        }
    }
}

impl<'a> Ranking<usize> for Keyed<'a> {
    closed spec fn ranks(&self, position: usize) -> bool {
        self.fits() && position < self.rows@.len()
    }

    closed spec fn precedes(&self, left: usize, right: usize) -> bool {
        let order = key_order(
            self.row(left as int),
            self.row(right as int),
            self.columns@,
            self.key as int,
        );
        order is Less || (order is Equal && left < right)
    }

    proof fn irreflexive(&self, position: usize) {
        self.codes_tell(position as int, position as int);
        crate::codes::order_at(
            self.code(position as int),
            self.code(position as int),
            self.code(position as int).len() as int,
        );
    }

    proof fn transitive(&self, left: usize, middle: usize, right: usize) {
        let a = left as int;
        let b = middle as int;
        let c = right as int;
        self.codes_tell(a, b);
        self.codes_tell(b, c);
        self.codes_tell(a, c);
        if byte_order(self.code(a), self.code(b)) is Less && byte_order(self.code(b), self.code(c))
            is Less {
            byte_order_carries(self.code(a), self.code(b), self.code(c));
        }
    }

    proof fn total(&self, left: usize, right: usize) {
        self.codes_tell(left as int, right as int);
        self.codes_tell(right as int, left as int);
        byte_order_reversed(self.code(left as int), self.code(right as int));
    }

    fn before(&self, left: usize, right: usize) -> (answer: bool) {
        let one = &self.rows[left];
        let two = &self.rows[right];
        let ghost first = owned_row(one@);
        let ghost second = owned_row(two@);
        let ghost collations = key_collations(self.columns@);
        let ghost directions = key_directions(self.columns@);
        for column in 0..self.key
            invariant
                self.fits(),
                left < self.rows@.len(),
                right < self.rows@.len(),
                *one == self.rows@[left as int],
                *two == self.rows@[right as int],
                first == owned_row(one@),
                second == owned_row(two@),
                collations == key_collations(self.columns@),
                directions == key_directions(self.columns@),
                row_order(first, second, collations, directions, column as int) is Equal,
        {
            let (collation, descending) = if column < self.columns.len() {
                (self.columns[column].collation, self.columns[column].descending)
            } else {
                (Collation::Binary, false)
            };
            assert(self.rows@[left as int]@.len() >= self.key);
            assert(self.rows@[right as int]@.len() >= self.key);
            let mut order = compare_under(&one[column].borrow(), &two[column].borrow(), collation);
            if descending {
                order = order.reverse();
            }
            assert(order == row_order(first, second, collations, directions, column + 1));
            if order != Order::Equal {
                proof {
                    decided_stays(
                        first,
                        second,
                        collations,
                        directions,
                        column + 1,
                        self.key as int,
                    );
                }
                return order == Order::Less;
            }
        }
        left < right
    }
}

/// Puts rows into the order the tree they are about to build compares in.
///
/// The sort is by comparing values under the tree's own collations and
/// directions, and it is stable, so rows with equal keys stay in the order they
/// came in. Only the key is compared: the rows may go on past it as they like.
pub fn in_key_order(
    rows: Vec<Vec<OwnedDatum>>,
    columns: &[ColumnSpec],
    key_columns: usize,
) -> (sorted_rows: Vec<Vec<OwnedDatum>>)
    requires
        evenly_keyed(owned_rows(rows@), key_columns as int),
    ensures
        exists|places: Seq<usize>| #[trigger]
            arranged(
                owned_rows(rows@),
                owned_rows(sorted_rows@),
                columns@,
                key_columns as int,
                places,
            ),
{
    let ghost before = owned_rows(rows@);
    if rows.len() == 0 {
        let ghost none: Seq<usize> = Seq::empty();
        assert(arranged(before, before, columns@, key_columns as int, none));
        return rows;
    }
    let key: usize = if rows[0].len() < key_columns {
        rows[0].len()
    } else {
        key_columns
    };
    let keyed = Keyed { rows: &rows, columns, key };
    proof {
        assert(owned_rows(rows@)[0] == owned_row(rows@[0]@));
        assert(key == compared(before, key_columns as int));
        assert forall|i: int| 0 <= i < rows@.len() implies key <= (#[trigger] rows@[i])@.len() by {
            assert(reached(before[i], key_columns as int) == reached(before[0], key_columns as int));
        }
    }
    let mut positions: Vec<usize> = Vec::with_capacity(rows.len());
    for at in 0..rows.len()
        invariant
            positions@.len() == at,
            forall|i: int| 0 <= i < at ==> #[trigger] positions@[i] == i,
    {
        positions.push(at);
    }
    let placed = sorted(&keyed, &positions);
    let mut out: Vec<Vec<OwnedDatum>> = Vec::with_capacity(placed.len());
    proof {
        assert forall|i: int| 0 <= i < placed@.len() implies #[trigger] placed@[i]
            < rows@.len() by {
            assert(keyed.ranks(placed@[i]));
        }
    }
    for at in 0..placed.len()
        invariant
            before == owned_rows(rows@),
            forall|i: int| 0 <= i < placed@.len() ==> #[trigger] placed@[i] < rows@.len(),
            out@.len() == at,
            forall|i: int|
                0 <= i < at ==> owned_row((#[trigger] out@[i])@) == before[placed@[i] as int],
    {
        let row = duplicate_row(&rows[placed[at]]);
        out.push(row);
    }
    proof {
        let after = owned_rows(out@);
        assert forall|i: int, j: int|
            0 <= i < placed@.len() && 0 <= j < placed@.len() && i != j implies placed@[i]
            != placed@[j] by {
            assert(keyed.ranks(placed@[i]));
            keyed.irreflexive(placed@[i]);
            if i < j {
                assert(keyed.precedes(placed@[i], placed@[j]));
            } else {
                assert(keyed.precedes(placed@[j], placed@[i]));
            }
        }
        assert forall|i: int| 0 <= i < after.len() implies #[trigger] after[i]
            == before[placed@[i] as int] by {
            assert(after[i] == owned_row(out@[i]@));
        }
        assert forall|i: int, j: int| 0 <= i < j < after.len() implies {
            let order = key_order(
                #[trigger] after[i],
                #[trigger] after[j],
                columns@,
                compared(before, key_columns as int),
            );
            order is Less || (order is Equal && placed@[i] < placed@[j])
        } by {
            assert(keyed.precedes(placed@[i], placed@[j]));
        }
        assert(arranged(before, after, columns@, key_columns as int, placed@));
    }
    out
}

/// Sorted rows come in the order of their tree: of two rows alike in every key
/// column before one, the one that is less in that column comes first where the
/// column ascends, and the one that is greater where it descends; and of two alike
/// in the whole key, the one that came first. Every row is one that came.
pub proof fn rows_come_in_key_order(
    before: Seq<Seq<Value>>,
    after: Seq<Seq<Value>>,
    columns: Seq<ColumnSpec>,
    key: int,
    places: Seq<usize>,
    i: int,
    j: int,
    column: int,
)
    requires
        arranged(before, after, columns, key, places),
        forall|row: int| 0 <= row < before.len() ==> (#[trigger] before[row]).len() >= key,
        0 <= i < j < after.len(),
        0 <= column <= key,
        forall|b: int|
            0 <= b < column ==> value_order(
                #[trigger] after[i][b],
                after[j][b],
                if b < columns.len() {
                    columns[b].collation
                } else {
                    Collation::Binary
                },
            ) is Equal,
    ensures
        after[i] == before[places[i] as int],
        after[j] == before[places[j] as int],
        places[i] != places[j],
        column == key ==> places[i] < places[j],
        column < key ==> {
            let found = value_order(
                after[i][column],
                after[j][column],
                if column < columns.len() {
                    columns[column].collation
                } else {
                    Collation::Binary
                },
            );
            if column < columns.len() && columns[column].descending {
                !(found is Less)
            } else {
                !(found is Greater)
            }
        },
{
    let collations = key_collations(columns);
    assert(before[0].len() >= key);
    assert(compared(before, key) == key);
    assert forall|b: int| 0 <= b < column implies value_order(
        #[trigger] after[i][b],
        after[j][b],
        if b < collations.len() {
            collations[b]
        } else {
            Collation::Binary
        },
    ) is Equal by {
        if b < columns.len() {
            assert(collations[b] == columns[b].collation);
        }
    }
    rows_stand_by_their_first_difference(
        after[i],
        after[j],
        collations,
        key_directions(columns),
        column,
        key,
    );
    if column < columns.len() {
        assert(collations[column] == columns[column].collation);
        assert(key_directions(columns)[column] == columns[column].descending);
    }
}

} // verus!
