//! Byte codes whose order is the order of the values they stand for.
//!
//! A row's code is the codes of its columns one after another. A column's code
//! is never the beginning of another's, so two rows' codes part inside the first
//! column the rows differ in, and they part the way the values do. That is what
//! lets the first bytes of a code stand in for a whole row in a sort: they can
//! fail to tell two rows apart and cannot tell them apart the wrong way round.

use vstd::prelude::*;

use crate::text::folded;
use crate::values::{
    byte_order, class_of, int_order, nul_at, order_after_agreement, place_of, text_order,
    trimmed_len, value_order, Collation, Order, Value,
};

verus! {

/// Whether two byte strings differ first at a place inside both.
pub open spec fn part_at(left: Seq<u8>, right: Seq<u8>, at: int) -> bool {
    &&& 0 <= at < left.len()
    &&& at < right.len()
    &&& left[at] != right[at]
    &&& forall|i: int| 0 <= i < at ==> left[i] == right[i]
}

/// Whether two codes tell their values apart, and on the right side.
pub open spec fn tells(left: Seq<u8>, right: Seq<u8>, order: Order) -> bool {
    match order {
        Order::Equal => left == right,
        Order::Less => exists|at: int| #[trigger] part_at(left, right, at) && left[at] < right[at],
        Order::Greater => exists|at: int|
            #[trigger] part_at(left, right, at) && left[at] > right[at],
    }
}

/// One order, or where it decides nothing the next.
pub open spec fn joined(first: Order, second: Order) -> Order {
    if first is Equal {
        second
    } else {
        first
    }
}

/// Codes written one after another tell apart what either of them tells apart.
pub proof fn tells_joined(
    left: Seq<u8>,
    right: Seq<u8>,
    order: Order,
    more_left: Seq<u8>,
    more_right: Seq<u8>,
    more: Order,
)
    requires
        tells(left, right, order),
        order is Equal ==> tells(more_left, more_right, more),
    ensures
        tells(left + more_left, right + more_right, joined(order, more)),
{
    let all_left = left + more_left;
    let all_right = right + more_right;
    if order is Equal {
        if more is Equal {
            assert(all_left =~= all_right);
        } else {
            let at = choose|at: int| #[trigger] part_at(more_left, more_right, at) && (more is Less
                ==> more_left[at] < more_right[at]) && (more is Greater ==> more_left[at]
                > more_right[at]);
            assert(part_at(all_left, all_right, left.len() + at)) by {
                assert forall|i: int| 0 <= i < left.len() + at implies all_left[i]
                    == all_right[i] by {
                    if i >= left.len() {
                        assert(more_left[i - left.len()] == more_right[i - left.len()]);
                    }
                }
            }
        }
    } else {
        let at = choose|at: int| #[trigger] part_at(left, right, at) && (order is Less ==> left[at]
            < right[at]) && (order is Greater ==> left[at] > right[at]);
        assert(part_at(all_left, all_right, at));
    }
}

/// Every byte of a code turned over.
pub open spec fn inverted(code: Seq<u8>) -> Seq<u8> {
    code.map_values(|byte: u8| (255 - byte) as u8)
}

/// Codes turned over tell the same values apart the other way.
pub proof fn tells_inverted(left: Seq<u8>, right: Seq<u8>, order: Order)
    requires
        tells(left, right, order),
    ensures
        tells(inverted(left), inverted(right), order.reversed()),
{
    if order is Less {
        let at = choose|at: int| #[trigger] part_at(left, right, at) && left[at] < right[at];
        assert(part_at(inverted(left), inverted(right), at));
    }
    if order is Greater {
        let at = choose|at: int| #[trigger] part_at(left, right, at) && left[at] > right[at];
        assert(part_at(inverted(left), inverted(right), at));
    }
}

/// How many numbers `width` bytes can write.
pub open spec fn span(width: nat) -> nat
    decreases width,
{
    if width == 0 {
        1
    } else {
        256 * span((width - 1) as nat)
    }
}

/// A number in `width` bytes, most significant first.
pub open spec fn big_endian(number: nat, width: nat) -> Seq<u8>
    decreases width,
{
    if width == 0 {
        Seq::empty()
    } else {
        big_endian(number / 256, (width - 1) as nat).push((number % 256) as u8)
    }
}

/// A number's bytes are as many as were asked for.
pub proof fn big_endian_len(number: nat, width: nat)
    ensures
        big_endian(number, width).len() == width,
    decreases width,
{
    if width > 0 {
        big_endian_len(number / 256, (width - 1) as nat);
    }
}

/// Two numbers' bytes tell them apart.
pub proof fn big_endian_tells(left: nat, right: nat, width: nat)
    requires
        left < span(width),
        right < span(width),
    ensures
        tells(big_endian(left, width), big_endian(right, width), int_order(left as int, right as int)),
    decreases width,
{
    if width > 0 {
        let less = (width - 1) as nat;
        big_endian_tells(left / 256, right / 256, less);
        big_endian_len(left / 256, less);
        big_endian_len(right / 256, less);
        let one = seq![(left % 256) as u8];
        let two = seq![(right % 256) as u8];
        let last = int_order((left % 256) as int, (right % 256) as int);
        assert(tells(one, two, last)) by {
            if last is Equal {
                assert(one =~= two);
            } else {
                assert(part_at(one, two, 0));
            }
        }
        tells_joined(
            big_endian(left / 256, less),
            big_endian(right / 256, less),
            int_order((left / 256) as int, (right / 256) as int),
            one,
            two,
            last,
        );
        assert(big_endian(left, width) =~= big_endian(left / 256, less) + one);
        assert(big_endian(right, width) =~= big_endian(right / 256, less) + two);
    }
}

/// A payload with each NUL marked and the end marked below every byte.
pub open spec fn ended(payload: Seq<u8>) -> Seq<u8>
    decreases payload.len(),
{
    if payload.len() == 0 {
        seq![0u8, 0u8]
    } else if payload[0] == 0 {
        seq![0u8, 255u8] + ended(payload.drop_first())
    } else {
        seq![payload[0]] + ended(payload.drop_first())
    }
}

/// Two payloads' codes tell them apart.
pub proof fn ended_tells(left: Seq<u8>, right: Seq<u8>)
    ensures
        tells(ended(left), ended(right), byte_order(left, right)),
    decreases left.len(),
{
    let one = ended(left);
    let two = ended(right);
    if left.len() == 0 && right.len() == 0 {
        assert(one =~= two);
    } else if left.len() == 0 {
        if right[0] == 0 {
            assert(part_at(one, two, 1));
        } else {
            assert(part_at(one, two, 0));
        }
    } else if right.len() == 0 {
        if left[0] == 0 {
            assert(part_at(one, two, 1));
        } else {
            assert(part_at(one, two, 0));
        }
    } else if left[0] != right[0] {
        assert(part_at(one, two, 0));
    } else {
        ended_tells(left.drop_first(), right.drop_first());
        let mark = if left[0] == 0 {
            seq![0u8, 255u8]
        } else {
            seq![left[0]]
        };
        tells_joined(
            mark,
            mark,
            Order::Equal,
            ended(left.drop_first()),
            ended(right.drop_first()),
            byte_order(left.drop_first(), right.drop_first()),
        );
        assert(one =~= mark + ended(left.drop_first()));
        assert(two =~= mark + ended(right.drop_first()));
    }
}

/// A payload's code begins as the code of its first bytes does.
pub proof fn ended_begins(payload: Seq<u8>, len: int)
    requires
        0 <= len <= payload.len(),
    ensures
        ended(payload.take(len)).len() >= len + 2,
        ended(payload).len() >= len + 2,
        forall|i: int| 0 <= i < len ==> ended(payload.take(len))[i] == ended(payload)[i],
    decreases payload.len(),
{
    if len == 0 {
        if payload.len() > 0 {
            ended_begins(payload.drop_first(), 0);
        }
    } else {
        let rest = payload.drop_first();
        ended_begins(rest, len - 1);
        assert(payload.take(len).drop_first() =~= rest.take(len - 1));
        let mark = if payload[0] == 0 {
            seq![0u8, 255u8]
        } else {
            seq![payload[0]]
        };
        assert(ended(payload) == mark + ended(rest));
        assert(ended(payload.take(len)) == mark + ended(rest.take(len - 1)));
        assert forall|i: int| 0 <= i < len implies ended(payload.take(len))[i] == ended(
            payload,
        )[i] by {
            if i >= mark.len() {
                assert(ended(rest.take(len - 1))[i - mark.len()] == ended(rest)[i - mark.len()]);
            }
        }
    }
}

/// The bytes a text is keyed by under a collation.
///
/// Under `NoCase` a text holding a NUL is keyed by what stands before it and by
/// its whole length, because that is all its order reads.
pub open spec fn text_key(bytes: Seq<u8>, collation: Collation) -> Seq<u8> {
    match collation {
        Collation::Binary => bytes,
        Collation::NoCase => {
            let head = folded(bytes.take(nul_at(bytes)));
            if nul_at(bytes) < bytes.len() {
                head + seq![0u8] + big_endian(bytes.len(), 8)
            } else {
                head
            }
        },
        Collation::RTrim => bytes.take(trimmed_len(bytes)),
    }
}

/// What stands before the first NUL holds none, and a NUL follows it.
pub proof fn nul_bounds(bytes: Seq<u8>)
    ensures
        0 <= nul_at(bytes) <= bytes.len(),
        forall|i: int| 0 <= i < nul_at(bytes) ==> bytes[i] != 0,
        nul_at(bytes) < bytes.len() ==> bytes[nul_at(bytes)] == 0,
    decreases bytes.len(),
{
    if bytes.len() > 0 && bytes[0] != 0 {
        let rest = bytes.drop_first();
        nul_bounds(rest);
        assert forall|i: int| 0 <= i < nul_at(bytes) implies bytes[i] != 0 by {
            if i > 0 {
                assert(rest[i - 1] != 0);
            }
        }
    }
}

/// The trimmed length is no longer than the whole.
pub proof fn trim_bounds(bytes: Seq<u8>)
    ensures
        0 <= trimmed_len(bytes) <= bytes.len(),
    decreases bytes.len(),
{
    if bytes.len() > 0 && bytes.last() == 32 {
        trim_bounds(bytes.drop_last());
    }
}

/// Where the order of two byte strings is decided.
pub proof fn order_decided(left: Seq<u8>, right: Seq<u8>) -> (at: int)
    ensures
        0 <= at <= left.len(),
        at <= right.len(),
        forall|i: int| 0 <= i < at ==> left[i] == right[i],
        byte_order(left, right) is Equal <==> left == right,
        byte_order(left, right) is Less <==> at < right.len() && (at == left.len() || left[at]
            < right[at]),
        byte_order(left, right) is Greater <==> at < left.len() && (at == right.len() || left[at]
            > right[at]),
        at < left.len() && at < right.len() ==> left[at] != right[at],
    decreases left.len(),
{
    if left.len() == 0 || right.len() == 0 {
        if left.len() == 0 && right.len() == 0 {
            assert(left =~= right);
        }
        0
    } else if left[0] != right[0] {
        0
    } else {
        let rest = left.drop_first();
        let other = right.drop_first();
        let at = order_decided(rest, other);
        assert forall|i: int| 0 <= i < at + 1 implies left[i] == right[i] by {
            if i > 0 {
                assert(rest[i - 1] == other[i - 1]);
            }
        }
        if rest == other {
            assert(left =~= seq![left[0]] + rest);
            assert(right =~= seq![right[0]] + other);
        }
        at + 1
    }
}

/// Byte strings that differ at a place are ordered by it.
pub proof fn order_at(left: Seq<u8>, right: Seq<u8>, at: int)
    requires
        0 <= at <= left.len(),
        at <= right.len(),
        forall|i: int| 0 <= i < at ==> left[i] == right[i],
    ensures
        at < right.len() && (at == left.len() || left[at] < right[at]) ==> byte_order(left, right)
            is Less,
        at < left.len() && (at == right.len() || left[at] > right[at]) ==> byte_order(left, right)
            is Greater,
        at == left.len() && at == right.len() ==> byte_order(left, right) is Equal,
{
    order_after_agreement(left, right, at);
}

/// What a code tells is the order of the code's bytes.
pub proof fn telling_is_byte_order(left: Seq<u8>, right: Seq<u8>, order: Order)
    requires
        tells(left, right, order),
    ensures
        byte_order(left, right) == order,
{
    if order is Equal {
        order_at(left, right, left.len() as int);
    } else {
        let at = choose|at: int| #[trigger] part_at(left, right, at) && (order is Less ==> left[at]
            < right[at]) && (order is Greater ==> left[at] > right[at]);
        order_at(left, right, at);
    }
}

/// The order of byte strings, seen from the other side.
pub proof fn byte_order_reversed(left: Seq<u8>, right: Seq<u8>)
    ensures
        byte_order(right, left) == byte_order(left, right).reversed(),
    decreases left.len(),
{
    if left.len() > 0 && right.len() > 0 && left[0] == right[0] {
        byte_order_reversed(left.drop_first(), right.drop_first());
    }
}

/// The order of byte strings carries over.
pub proof fn byte_order_carries(left: Seq<u8>, middle: Seq<u8>, right: Seq<u8>)
    requires
        byte_order(left, middle) is Less,
        byte_order(middle, right) is Less,
    ensures
        byte_order(left, right) is Less,
    decreases left.len(),
{
    if left.len() > 0 && middle.len() > 0 && right.len() > 0 && left[0] == middle[0] && middle[0]
        == right[0] {
        byte_order_carries(left.drop_first(), middle.drop_first(), right.drop_first());
    }
}

/// A text's key is in the order its collation puts it in.
pub proof fn text_keys_in_order(left: Seq<u8>, right: Seq<u8>, collation: Collation)
    requires
        left.len() <= u64::MAX,
        right.len() <= u64::MAX,
    ensures
        byte_order(text_key(left, collation), text_key(right, collation)) == text_order(
            left,
            right,
            collation,
        ),
{
    if collation is NoCase {
        nul_bounds(left);
        nul_bounds(right);
        let one = folded(left.take(nul_at(left)));
        let two = folded(right.take(nul_at(right)));
        let key_one = text_key(left, collation);
        let key_two = text_key(right, collation);
        assert(forall|i: int| 0 <= i < one.len() ==> one[i] != 0 && key_one[i] == one[i]) by {
            assert forall|i: int| 0 <= i < one.len() implies one[i] != 0 && key_one[i]
                == one[i] by {
                assert(left.take(nul_at(left))[i] == left[i]);
            }
        }
        assert(forall|i: int| 0 <= i < two.len() ==> two[i] != 0 && key_two[i] == two[i]) by {
            assert forall|i: int| 0 <= i < two.len() implies two[i] != 0 && key_two[i]
                == two[i] by {
                assert(right.take(nul_at(right))[i] == right[i]);
            }
        }
        let at = order_decided(one, two);
        if byte_order(one, two) is Equal {
            let tail_one = key_one.subrange(one.len() as int, key_one.len() as int);
            let tail_two = key_two.subrange(two.len() as int, key_two.len() as int);
            order_after_agreement(key_one, key_two, one.len() as int);
            if nul_at(left) < left.len() && nul_at(right) < right.len() {
                let bytes_one = big_endian(left.len(), 8);
                let bytes_two = big_endian(right.len(), 8);
                assert(tail_one =~= seq![0u8] + bytes_one);
                assert(tail_two =~= seq![0u8] + bytes_two);
                assert(span(8) == 0x1_0000_0000_0000_0000) by {
                    reveal_with_fuel(span, 9);
                }
                big_endian_tells(left.len(), right.len(), 8);
                tells_joined(
                    seq![0u8],
                    seq![0u8],
                    Order::Equal,
                    bytes_one,
                    bytes_two,
                    int_order(left.len() as int, right.len() as int),
                );
                telling_is_byte_order(
                    tail_one,
                    tail_two,
                    int_order(left.len() as int, right.len() as int),
                );
            } else {
                order_at(tail_one, tail_two, 0);
            }
        } else {
            order_at(key_one, key_two, at);
        }
    }
}

/// What a number's place is raised by, so that every place is written unsigned.
pub open spec fn bias() -> int {
    0x8000_0000_0000_0000_0000_0000_0000_0000
}

/// What an integer key is raised by, so that every key is written unsigned.
pub open spec fn rowid_bias() -> int {
    0x8000_0000_0000_0000
}

/// The code of one value under a collation.
pub open spec fn value_code(value: Value, collation: Collation) -> Seq<u8> {
    match value {
        Value::Null => seq![1u8],
        Value::Text(bytes) => seq![3u8] + ended(text_key(bytes, collation)),
        Value::Blob(bytes) => seq![4u8] + ended(bytes),
        _ => seq![2u8] + big_endian((place_of(value) + bias()) as nat, 16),
    }
}

/// Whether a value's payload is short enough to have its length written down.
pub open spec fn writable(value: Value) -> bool {
    match value {
        Value::Text(bytes) => bytes.len() <= u64::MAX,
        _ => true,
    }
}

/// A number's place fits in sixteen bytes.
pub proof fn places_fit(value: Value)
    ensures
        -bias() <= place_of(value) < bias(),
        span(16) == 2 * bias(),
        span(8) == 2 * rowid_bias(),
{
    assert(span(16) == 2 * bias() && span(8) == 2 * rowid_bias()) by {
        reveal_with_fuel(span, 17);
    }
}

/// Two values' codes tell them apart.
pub proof fn value_codes_tell(left: Value, right: Value, collation: Collation)
    requires
        writable(left),
        writable(right),
    ensures
        tells(
            value_code(left, collation),
            value_code(right, collation),
            value_order(left, right, collation),
        ),
{
    let one = value_code(left, collation);
    let two = value_code(right, collation);
    if class_of(left) != class_of(right) {
        assert(part_at(one, two, 0));
    } else {
        let mark = seq![one[0]];
        match (left, right) {
            (Value::Text(first), Value::Text(second)) => {
                text_keys_in_order(first, second, collation);
                ended_tells(text_key(first, collation), text_key(second, collation));
                tells_joined(
                    mark,
                    mark,
                    Order::Equal,
                    ended(text_key(first, collation)),
                    ended(text_key(second, collation)),
                    text_order(first, second, collation),
                );
                assert(one =~= mark + ended(text_key(first, collation)));
                assert(two =~= mark + ended(text_key(second, collation)));
            },
            (Value::Blob(first), Value::Blob(second)) => {
                ended_tells(first, second);
                tells_joined(
                    mark,
                    mark,
                    Order::Equal,
                    ended(first),
                    ended(second),
                    byte_order(first, second),
                );
                assert(one =~= mark + ended(first));
                assert(two =~= mark + ended(second));
            },
            (Value::Null, Value::Null) => {
                assert(one =~= two);
            },
            _ => {
                places_fit(left);
                places_fit(right);
                let here = (place_of(left) + bias()) as nat;
                let there = (place_of(right) + bias()) as nat;
                big_endian_tells(here, there, 16);
                tells_joined(
                    mark,
                    mark,
                    Order::Equal,
                    big_endian(here, 16),
                    big_endian(there, 16),
                    int_order(here as int, there as int),
                );
                assert(one =~= mark + big_endian(here, 16));
                assert(two =~= mark + big_endian(there, 16));
            },
        }
    }
}

/// The collation a column is keyed under.
pub open spec fn collation_at(collations: Seq<Collation>, column: int) -> Collation {
    if column < collations.len() {
        collations[column]
    } else {
        Collation::Binary
    }
}

/// Whether a column is keyed descending.
pub open spec fn descends(directions: Seq<bool>, column: int) -> bool {
    column < directions.len() && directions[column]
}

/// How a tree writes its keys.
#[derive(Clone, Copy, Debug, PartialEq, Eq, Structural)]
pub enum KeyEncoding {
    /// One integer, and nothing else.
    Rowid,
    /// Any columns, each with its class.
    General,
}

/// The code of one column of a row.
pub open spec fn column_code(
    encoding: KeyEncoding,
    value: Value,
    collation: Collation,
    descending: bool,
) -> Seq<u8> {
    let code = if encoding is Rowid && value is Int {
        big_endian((value->Int_0 + rowid_bias()) as nat, 8)
    } else {
        value_code(value, collation)
    };
    if descending {
        inverted(code)
    } else {
        code
    }
}

/// The code of a row's first columns.
pub open spec fn row_code(
    encoding: KeyEncoding,
    row: Seq<Value>,
    collations: Seq<Collation>,
    directions: Seq<bool>,
    columns: int,
) -> Seq<u8>
    decreases columns,
{
    if columns <= 0 {
        Seq::empty()
    } else {
        row_code(encoding, row, collations, directions, columns - 1) + column_code(
            encoding,
            row[columns - 1],
            collation_at(collations, columns - 1),
            descends(directions, columns - 1),
        )
    }
}

/// The order of one column of two rows.
pub open spec fn column_order(
    left: Value,
    right: Value,
    collation: Collation,
    descending: bool,
) -> Order {
    if descending {
        value_order(left, right, collation).reversed()
    } else {
        value_order(left, right, collation)
    }
}

/// The order of two rows by their first columns.
pub open spec fn row_order(
    left: Seq<Value>,
    right: Seq<Value>,
    collations: Seq<Collation>,
    directions: Seq<bool>,
    columns: int,
) -> Order
    decreases columns,
{
    if columns <= 0 {
        Order::Equal
    } else {
        joined(
            row_order(left, right, collations, directions, columns - 1),
            column_order(
                left[columns - 1],
                right[columns - 1],
                collation_at(collations, columns - 1),
                descends(directions, columns - 1),
            ),
        )
    }
}

/// Whether a row can be keyed in its first columns.
pub open spec fn keyable(encoding: KeyEncoding, row: Seq<Value>, columns: int) -> bool {
    &&& columns <= row.len()
    &&& forall|i: int| 0 <= i < columns ==> writable(#[trigger] row[i])
    &&& encoding is Rowid ==> forall|i: int| 0 <= i < columns ==> (#[trigger] row[i]) is Int
}

/// Two rows' codes tell them apart.
pub proof fn row_codes_tell(
    encoding: KeyEncoding,
    left: Seq<Value>,
    right: Seq<Value>,
    collations: Seq<Collation>,
    directions: Seq<bool>,
    columns: int,
)
    requires
        keyable(encoding, left, columns),
        keyable(encoding, right, columns),
    ensures
        tells(
            row_code(encoding, left, collations, directions, columns),
            row_code(encoding, right, collations, directions, columns),
            row_order(left, right, collations, directions, columns),
        ),
    decreases columns,
{
    if columns > 0 {
        let at = columns - 1;
        row_codes_tell(encoding, left, right, collations, directions, at);
        let collation = collation_at(collations, at);
        let one = left[at];
        let two = right[at];
        let order = value_order(one, two, collation);
        let plain_one = column_code(encoding, one, collation, false);
        let plain_two = column_code(encoding, two, collation, false);
        if encoding is Rowid {
            assert(left[at] is Int && right[at] is Int);
            places_fit(one);
            big_endian_tells(
                (one->Int_0 + rowid_bias()) as nat,
                (two->Int_0 + rowid_bias()) as nat,
                8,
            );
        } else {
            value_codes_tell(one, two, collation);
        }
        assert(tells(plain_one, plain_two, order));
        if descends(directions, at) {
            tells_inverted(plain_one, plain_two, order);
        }
        tells_joined(
            row_code(encoding, left, collations, directions, at),
            row_code(encoding, right, collations, directions, at),
            row_order(left, right, collations, directions, at),
            column_code(encoding, one, collation, descends(directions, at)),
            column_code(encoding, two, collation, descends(directions, at)),
            column_order(one, two, collation, descends(directions, at)),
        );
    }
}

/// An order decided by some columns stays decided by more.
pub proof fn decided_stays(
    left: Seq<Value>,
    right: Seq<Value>,
    collations: Seq<Collation>,
    directions: Seq<bool>,
    some: int,
    more: int,
)
    requires
        0 <= some <= more,
        !(row_order(left, right, collations, directions, some) is Equal),
    ensures
        row_order(left, right, collations, directions, more) == row_order(
            left,
            right,
            collations,
            directions,
            some,
        ),
    decreases more,
{
    if some < more {
        decided_stays(left, right, collations, directions, some, more - 1);
    }
}

/// Rows alike in some columns are alike in the order of those columns.
proof fn alike_so_far(
    left: Seq<Value>,
    right: Seq<Value>,
    collations: Seq<Collation>,
    directions: Seq<bool>,
    columns: int,
)
    requires
        forall|b: int|
            0 <= b < columns ==> value_order(
                #[trigger] left[b],
                right[b],
                if b < collations.len() {
                    collations[b]
                } else {
                    Collation::Binary
                },
            ) is Equal,
    ensures
        row_order(left, right, collations, directions, columns) is Equal,
    decreases columns,
{
    if columns > 0 {
        alike_so_far(left, right, collations, directions, columns - 1);
        assert(value_order(
            left[columns - 1],
            right[columns - 1],
            if columns - 1 < collations.len() {
                collations[columns - 1]
            } else {
                Collation::Binary
            },
        ) is Equal);
    }
}

/// Rows stand by the first column they differ in, under that column's own
/// collation, and the other way round where that column is descending; rows that
/// differ in none are not told apart.
///
/// A column nobody gave a collation is compared by its bytes, and one nobody gave a
/// direction ascends.
pub proof fn rows_stand_by_their_first_difference(
    left: Seq<Value>,
    right: Seq<Value>,
    collations: Seq<Collation>,
    directions: Seq<bool>,
    column: int,
    columns: int,
)
    requires
        0 <= column <= columns,
        forall|b: int|
            0 <= b < column ==> value_order(
                #[trigger] left[b],
                right[b],
                if b < collations.len() {
                    collations[b]
                } else {
                    Collation::Binary
                },
            ) is Equal,
    ensures
        column == columns ==> row_order(left, right, collations, directions, columns) is Equal,
        column < columns ==> {
            let order = value_order(
                left[column],
                right[column],
                if column < collations.len() {
                    collations[column]
                } else {
                    Collation::Binary
                },
            );
            let whole = row_order(left, right, collations, directions, columns);
            &&& order is Less && column < directions.len() && directions[column]
                ==> whole is Greater
            &&& order is Greater && column < directions.len() && directions[column]
                ==> whole is Less
            &&& order is Less && !(column < directions.len() && directions[column])
                ==> whole is Less
            &&& order is Greater && !(column < directions.len() && directions[column]) ==> whole
                is Greater
        },
{
    alike_so_far(left, right, collations, directions, column);
    if column < columns {
        let order = value_order(
            left[column],
            right[column],
            if column < collations.len() {
                collations[column]
            } else {
                Collation::Binary
            },
        );
        if !(order is Equal) {
            assert(!(row_order(left, right, collations, directions, column + 1) is Equal));
            decided_stays(left, right, collations, directions, column + 1, columns);
        }
    }
}

/// A number is written in as many bytes as asked for, each the next in two hundred and
/// fifty-six, the last the least.
pub proof fn a_number_is_its_bytes(number: nat, width: nat)
    ensures
        big_endian(number, width).len() == width,
        width > 0 ==> big_endian(number, width).last() == number % 256,
        width > 0 ==> big_endian(number, width).drop_last() == big_endian(
            number / 256,
            (width - 1) as nat,
        ),
{
    big_endian_len(number, width);
    if width > 0 {
        assert(big_endian(number, width).drop_last() =~= big_endian(
            number / 256,
            (width - 1) as nat,
        ));
    }
}

/// A payload is written byte by byte, a NUL with a mark after it, and ends in two NULs.
pub proof fn a_payload_is_written_byte_by_byte(byte: u8, rest: Seq<u8>)
    ensures
        ended(Seq::empty()) == seq![0u8, 0u8],
        byte != 0 ==> ended(seq![byte] + rest) == seq![byte] + ended(rest),
        byte == 0 ==> ended(seq![byte] + rest) == seq![0u8, 255u8] + ended(rest),
{
    let whole = seq![byte] + rest;
    assert(whole.drop_first() =~= rest);
    assert(whole[0] == byte);
}

/// A text is keyed by what its collation reads of it: the whole of it, or what is before
/// the spaces at its end, or its letters made small; and of one with a NUL, in either
/// case, what is before the NUL and how long the whole is.
pub proof fn a_text_is_keyed_by_what_is_read(bytes: Seq<u8>, at: int)
    requires
        0 <= at <= bytes.len(),
    ensures
        text_key(bytes, Collation::Binary) == bytes,
        (forall|i: int| at <= i < bytes.len() ==> #[trigger] bytes[i] == 32) && (at > 0 ==> bytes[at
            - 1] != 32) ==> text_key(bytes, Collation::RTrim) == bytes.take(at),
        (forall|i: int| 0 <= i < bytes.len() ==> #[trigger] bytes[i] != 0) ==> text_key(
            bytes,
            Collation::NoCase,
        ) == folded(bytes),
        (forall|i: int| 0 <= i < at ==> #[trigger] bytes[i] != 0) && at < bytes.len() && bytes[at]
            == 0 ==> text_key(bytes, Collation::NoCase) == folded(bytes.take(at)) + seq![0u8]
            + big_endian(bytes.len(), 8),
{
    if (forall|i: int| at <= i < bytes.len() ==> #[trigger] bytes[i] == 32) && (at > 0
        ==> bytes[at - 1] != 32) {
        crate::values::trim_is_at(bytes, at);
    }
    if forall|i: int| 0 <= i < bytes.len() ==> #[trigger] bytes[i] != 0 {
        crate::values::nul_is_at(bytes, bytes.len() as int);
        assert(bytes.take(bytes.len() as int) =~= bytes);
    }
    if (forall|i: int| 0 <= i < at ==> #[trigger] bytes[i] != 0) && at < bytes.len() && bytes[at]
        == 0 {
        crate::values::nul_is_at(bytes, at);
    }
}

/// A value is written after the mark of its class: a NULL is the mark alone, a number is
/// where it stands raised above nought, and a text or a blob is its payload.
pub proof fn a_value_is_written_by_its_class(value: Value, collation: Collation)
    ensures
        value is Null ==> value_code(value, collation) == seq![1u8],
        value matches Value::Int(number) ==> value_code(value, collation) == seq![2u8] + big_endian(
            (number * crate::values::STEP + 0x8000_0000_0000_0000_0000_0000_0000_0000) as nat,
            16,
        ),
        value matches Value::Real(number) ==> value_code(value, collation) == seq![2u8]
            + big_endian(
            (number.place + 0x8000_0000_0000_0000_0000_0000_0000_0000) as nat,
            16,
        ),
        value matches Value::Text(bytes) ==> value_code(value, collation) == seq![3u8] + ended(
            text_key(bytes, collation),
        ),
        value matches Value::Blob(bytes) ==> value_code(value, collation) == seq![4u8] + ended(
            bytes,
        ),
{
}

/// A column that descends is written turned over, byte by byte; in a tree of rowids an
/// integer is written in eight bytes, raised above nought.
pub proof fn a_descending_column_is_turned_over(
    encoding: KeyEncoding,
    value: Value,
    collation: Collation,
    at: int,
)
    ensures
        encoding is General ==> column_code(encoding, value, collation, false) == value_code(
            value,
            collation,
        ),
        encoding is Rowid && value is Int ==> column_code(encoding, value, collation, false)
            == big_endian((value->Int_0 + 0x8000_0000_0000_0000) as nat, 8),
        column_code(encoding, value, collation, true).len() == column_code(
            encoding,
            value,
            collation,
            false,
        ).len(),
        0 <= at < column_code(encoding, value, collation, false).len() ==> column_code(
            encoding,
            value,
            collation,
            true,
        )[at] == 255 - column_code(encoding, value, collation, false)[at],
{
}

/// A row is written column by column, each under its own collation and direction, and a
/// column past those that are given is binary and ascends.
pub proof fn a_row_is_written_column_by_column(
    encoding: KeyEncoding,
    row: Seq<Value>,
    collations: Seq<Collation>,
    directions: Seq<bool>,
    column: int,
)
    requires
        0 <= column,
    ensures
        row_code(encoding, row, collations, directions, 0).len() == 0,
        row_code(encoding, row, collations, directions, column + 1) == row_code(
            encoding,
            row,
            collations,
            directions,
            column,
        ) + column_code(
            encoding,
            row[column],
            if column < collations.len() {
                collations[column]
            } else {
                Collation::Binary
            },
            column < directions.len() && directions[column],
        ),
{
}

} // verus!
