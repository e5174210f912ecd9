//! The values a row holds, and the order a tree keeps them in.
//!
//! A tree orders its keys by class first - NULL, then numbers, then text, then
//! blobs - and within a class by value, text under the column's collation. This
//! module says that order once, over [`Value`], and everything that sorts or
//! searches says it in the same words.

use vstd::prelude::*;

use crate::text::folded;

verus! {

/// How one value stands to another.
#[derive(Clone, Copy, Debug, PartialEq, Eq, Structural)]
pub enum Order {
    /// It comes first.
    Less,
    /// Neither comes first.
    Equal,
    /// It comes second.
    Greater,
}

impl Order {
    /// The same pair, seen from the other side.
    pub open spec fn reversed(self) -> Order {
        match self {
            Order::Less => Order::Greater,
            Order::Equal => Order::Equal,
            Order::Greater => Order::Less,
        }
    }

    /// Returns the same pair seen from the other side.
    pub fn reverse(self) -> (turned: Order)
        ensures
            turned == self.reversed(),
    {
        match self {
            Order::Less => Order::Greater,
            Order::Equal => Order::Equal,
            Order::Greater => Order::Less,
        }
    }
}

/// The collations a tree's key can be ordered under.
///
/// Only these three have a byte transformation whose order is the collation's
/// own, which is what a tree needs of one. A column declared under any other is
/// keyed as `Binary`.
#[derive(Clone, Copy, Debug, PartialEq, Eq, Structural)]
pub enum Collation {
    /// The bytes as they are.
    Binary,
    /// ASCII letters in either case are one letter.
    NoCase,
    /// Trailing spaces do not count.
    RTrim,
}

/// The step between the places of two neighbouring integers.
///
/// Fewer than this many binary64 numbers lie between two neighbouring integers,
/// below the least `i64` or above the greatest, so each has a place of its own
/// between theirs.
pub const STEP: i128 = 0x4000_0000_0000_0000;

/// A binary64 number, by its place among all numbers and by its bits.
#[derive(Clone, Copy, Debug, PartialEq, Eq, Structural)]
pub struct Real {
    /// Where the number stands: the integer `n` stands at `n * STEP`.
    pub place: i128,
    /// The number's IEEE-754 bits, by which it is found again.
    pub bits: u64,
}

/// What a value is, whoever holds its bytes.
#[verifier::ext_equal]
pub enum Value {
    /// SQL NULL.
    Null,
    /// A signed 64-bit integer.
    Int(i64),
    /// A binary64 number.
    Real(Real),
    /// UTF-8 text.
    Text(Seq<u8>),
    /// Uninterpreted bytes.
    Blob(Seq<u8>),
}

/// A value whose bytes somebody else holds.
#[derive(Clone, Copy, Debug)]
pub enum Datum<'a> {
    /// SQL NULL.
    Null,
    /// A signed 64-bit integer.
    Int(i64),
    /// A binary64 number.
    Real(Real),
    /// UTF-8 text.
    Text(&'a [u8]),
    /// Uninterpreted bytes.
    Blob(&'a [u8]),
}

impl<'a> View for Datum<'a> {
    type V = Value;

    open spec fn view(&self) -> Value {
        match self {
            Datum::Null => Value::Null,
            Datum::Int(number) => Value::Int(*number),
            Datum::Real(number) => Value::Real(*number),
            Datum::Text(bytes) => Value::Text(bytes@),
            Datum::Blob(bytes) => Value::Blob(bytes@),
        }
    }
}

/// A value that holds its own bytes.
#[derive(Debug)]
pub enum OwnedDatum {
    /// SQL NULL.
    Null,
    /// A signed 64-bit integer.
    Int(i64),
    /// A binary64 number.
    Real(Real),
    /// UTF-8 text.
    Text(Vec<u8>),
    /// Uninterpreted bytes.
    Blob(Vec<u8>),
}

impl View for OwnedDatum {
    type V = Value;

    open spec fn view(&self) -> Value {
        match self {
            OwnedDatum::Null => Value::Null,
            OwnedDatum::Int(number) => Value::Int(*number),
            OwnedDatum::Real(number) => Value::Real(*number),
            OwnedDatum::Text(bytes) => Value::Text(bytes@),
            OwnedDatum::Blob(bytes) => Value::Blob(bytes@),
        }
    }
}

/// What each column of a borrowed row is.
pub open spec fn row_of(row: Seq<Datum>) -> Seq<Value> {
    row.map_values(|value: Datum| value@)
}

/// What each column of an owned row is.
pub open spec fn owned_row(row: Seq<OwnedDatum>) -> Seq<Value> {
    row.map_values(|value: OwnedDatum| value@)
}

/// What each row of a list is.
pub open spec fn owned_rows(rows: Seq<Vec<OwnedDatum>>) -> Seq<Seq<Value>> {
    rows.map_values(|row: Vec<OwnedDatum>| owned_row(row@))
}

impl OwnedDatum {
    /// Returns the value with its bytes lent rather than held.
    pub fn borrow(&self) -> (lent: Datum<'_>)
        ensures
            lent@ == self@,
    {
        match self {
            OwnedDatum::Null => Datum::Null,
            OwnedDatum::Int(number) => Datum::Int(*number),
            OwnedDatum::Real(number) => Datum::Real(*number),
            OwnedDatum::Text(bytes) => Datum::Text(bytes.as_slice()),
            OwnedDatum::Blob(bytes) => Datum::Blob(bytes.as_slice()),
        }
    }

    /// Returns a value holding a copy of a borrowed one's bytes.
    pub fn from_datum(value: &Datum<'_>) -> (held: OwnedDatum)
        ensures
            held@ == value@,
    {
        match value {
            Datum::Null => OwnedDatum::Null,
            Datum::Int(number) => OwnedDatum::Int(*number),
            Datum::Real(number) => OwnedDatum::Real(*number),
            Datum::Text(bytes) => OwnedDatum::Text(crate::text::copied(*bytes)),
            Datum::Blob(bytes) => OwnedDatum::Blob(crate::text::copied(*bytes)),
        }
    }

    /// Returns a second value equal to this one.
    pub fn duplicate(&self) -> (held: OwnedDatum)
        ensures
            held@ == self@,
    {
        OwnedDatum::from_datum(&self.borrow())
    }
}

/// Returns a second row equal to this one.
pub fn duplicate_row(row: &[OwnedDatum]) -> (held: Vec<OwnedDatum>)
    ensures
        owned_row(held@) == owned_row(row@),
{
    let mut held: Vec<OwnedDatum> = Vec::with_capacity(row.len());
    for at in 0..row.len()
        invariant
            owned_row(held@) =~= owned_row(row@).take(at as int),
    {
        let ghost before = held@;
        let copy = row[at].duplicate();
        held.push(copy);
        assert(owned_row(held@) =~= owned_row(before).push(owned_row(row@)[at as int]));
    }
    assert(owned_row(row@).take(row@.len() as int) =~= owned_row(row@));
    held
}

/// Reports whether two values are the same value.
pub fn same_value(left: &OwnedDatum, right: &OwnedDatum) -> (equal: bool)
    ensures
        equal == (left@ == right@),
{
    match (left, right) {
        (OwnedDatum::Null, OwnedDatum::Null) => true,
        (OwnedDatum::Int(one), OwnedDatum::Int(two)) => *one == *two,
        (OwnedDatum::Real(one), OwnedDatum::Real(two)) => *one == *two,
        (OwnedDatum::Text(one), OwnedDatum::Text(two)) => crate::text::same(one, two),
        (OwnedDatum::Blob(one), OwnedDatum::Blob(two)) => crate::text::same(one, two),
        _ => false,
    }
}

/// Reports whether two rows hold the same values.
pub fn same_row(left: &[OwnedDatum], right: &[OwnedDatum]) -> (equal: bool)
    ensures
        equal == (owned_row(left@) == owned_row(right@)),
{
    if left.len() != right.len() {
        assert(owned_row(left@).len() != owned_row(right@).len());
        return false;
    }
    for at in 0..left.len()
        invariant
            left.len() == right.len(),
            forall|i: int| 0 <= i < at ==> (#[trigger] left@[i])@ == right@[i]@,
    {
        if !same_value(&left[at], &right[at]) {
            assert(owned_row(left@)[at as int] != owned_row(right@)[at as int]);
            return false;
        }
    }
    assert(owned_row(left@) =~= owned_row(right@));
    true
}

/// The order of two byte strings, by their first difference.
pub open spec fn byte_order(left: Seq<u8>, right: Seq<u8>) -> Order
    decreases left.len(),
{
    if left.len() == 0 {
        if right.len() == 0 {
            Order::Equal
        } else {
            Order::Less
        }
    } else if right.len() == 0 {
        Order::Greater
    } else if left[0] < right[0] {
        Order::Less
    } else if left[0] > right[0] {
        Order::Greater
    } else {
        byte_order(left.drop_first(), right.drop_first())
    }
}

/// The order of two integers.
pub open spec fn int_order(left: int, right: int) -> Order {
    if left < right {
        Order::Less
    } else if left > right {
        Order::Greater
    } else {
        Order::Equal
    }
}

/// How many bytes stand before the first NUL.
pub open spec fn nul_at(bytes: Seq<u8>) -> int
    decreases bytes.len(),
{
    if bytes.len() == 0 || bytes[0] == 0 {
        0
    } else {
        1 + nul_at(bytes.drop_first())
    }
}

/// How many bytes are left when the trailing spaces are taken off.
pub open spec fn trimmed_len(bytes: Seq<u8>) -> int
    decreases bytes.len(),
{
    if bytes.len() == 0 || bytes.last() != 32 {
        bytes.len() as int
    } else {
        trimmed_len(bytes.drop_last())
    }
}

/// The order of two texts under a collation.
///
/// Under `NoCase` the bytes after a text's first NUL do not count and its length
/// does, so two texts alike up to there are ordered by length.
pub open spec fn text_order(left: Seq<u8>, right: Seq<u8>, collation: Collation) -> Order {
    match collation {
        Collation::Binary => byte_order(left, right),
        Collation::NoCase => {
            let heads = byte_order(
                folded(left.take(nul_at(left))),
                folded(right.take(nul_at(right))),
            );
            if heads is Equal {
                int_order(left.len() as int, right.len() as int)
            } else {
                heads
            }
        },
        Collation::RTrim => byte_order(
            left.take(trimmed_len(left)),
            right.take(trimmed_len(right)),
        ),
    }
}

/// Where a value's class stands among the classes.
pub open spec fn class_of(value: Value) -> int {
    match value {
        Value::Null => 0,
        Value::Int(_) => 1,
        Value::Real(_) => 1,
        Value::Text(_) => 2,
        Value::Blob(_) => 3,
    }
}

/// Where a number stands among all numbers.
pub open spec fn place_of(value: Value) -> int {
    match value {
        Value::Int(number) => number * STEP,
        Value::Real(number) => number.place as int,
        _ => 0,
    }
}

/// The order of two values under a collation.
pub open spec fn value_order(left: Value, right: Value, collation: Collation) -> Order {
    if class_of(left) != class_of(right) {
        int_order(class_of(left), class_of(right))
    } else {
        match (left, right) {
            (Value::Text(one), Value::Text(two)) => text_order(one, two, collation),
            (Value::Blob(one), Value::Blob(two)) => byte_order(one, two),
            _ => int_order(place_of(left), place_of(right)),
        }
    }
}

/// Byte strings that agree up to a place are ordered by what follows it.
pub proof fn order_after_agreement(left: Seq<u8>, right: Seq<u8>, at: int)
    requires
        0 <= at <= left.len(),
        at <= right.len(),
        forall|i: int| 0 <= i < at ==> left[i] == right[i],
    ensures
        byte_order(left, right) == byte_order(
            left.subrange(at, left.len() as int),
            right.subrange(at, right.len() as int),
        ),
    decreases at,
{
    if at == 0 {
        assert(left.subrange(0, left.len() as int) =~= left);
        assert(right.subrange(0, right.len() as int) =~= right);
    } else {
        let rest = left.drop_first();
        let other = right.drop_first();
        assert forall|i: int| 0 <= i < at - 1 implies rest[i] == other[i] by {
            assert(rest[i] == left[i + 1]);
            assert(other[i] == right[i + 1]);
        }
        order_after_agreement(rest, other, at - 1);
        assert(rest.subrange(at - 1, rest.len() as int) =~= left.subrange(at, left.len() as int));
        assert(other.subrange(at - 1, other.len() as int) =~= right.subrange(
            at,
            right.len() as int,
        ));
        assert(left[0] == right[0]);
    }
}

/// Returns the order of two byte strings.
pub fn compare_bytes(left: &[u8], right: &[u8]) -> (order: Order)
    ensures
        order == byte_order(left@, right@),
{
    let shorter: usize = if left.len() < right.len() {
        left.len()
    } else {
        right.len()
    };
    for at in 0..shorter
        invariant
            shorter <= left.len(),
            shorter <= right.len(),
            forall|i: int| 0 <= i < at ==> left@[i] == right@[i],
    {
        if left[at] != right[at] {
            proof {
                order_after_agreement(left@, right@, at as int);
            }
            return if left[at] < right[at] {
                Order::Less
            } else {
                Order::Greater
            };
        }
    }
    proof {
        order_after_agreement(left@, right@, shorter as int);
    }
    if left.len() < right.len() {
        Order::Less
    } else if left.len() > right.len() {
        Order::Greater
    } else {
        Order::Equal
    }
}

/// The first NUL is where the bytes before it say it is.
pub proof fn nul_is_at(bytes: Seq<u8>, at: int)
    requires
        0 <= at <= bytes.len(),
        forall|i: int| 0 <= i < at ==> bytes[i] != 0,
        at < bytes.len() ==> bytes[at] == 0,
    ensures
        nul_at(bytes) == at,
    decreases at,
{
    if at > 0 {
        let rest = bytes.drop_first();
        assert forall|i: int| 0 <= i < at - 1 implies rest[i] != 0 by {
            assert(rest[i] == bytes[i + 1]);
        }
        nul_is_at(rest, at - 1);
    }
}

/// Returns how many bytes stand before the first NUL.
pub fn find_nul(bytes: &[u8]) -> (at: usize)
    ensures
        at <= bytes@.len(),
        at == nul_at(bytes@),
        forall|i: int| 0 <= i < at ==> bytes@[i] != 0,
        at < bytes@.len() ==> bytes@[at as int] == 0,
{
    let mut at: usize = 0;
    while at < bytes.len() && bytes[at] != 0
        invariant
            at <= bytes@.len(),
            forall|i: int| 0 <= i < at ==> bytes@[i] != 0,
        decreases bytes@.len() - at,
    {
        at += 1;
    }
    proof {
        nul_is_at(bytes@, at as int);
    }
    at
}

/// The trimmed length is where the trailing spaces say it is.
pub proof fn trim_is_at(bytes: Seq<u8>, at: int)
    requires
        0 <= at <= bytes.len(),
        forall|i: int| at <= i < bytes.len() ==> bytes[i] == 32,
        at > 0 ==> bytes[at - 1] != 32,
    ensures
        trimmed_len(bytes) == at,
    decreases bytes.len(),
{
    if at < bytes.len() {
        trim_is_at(bytes.drop_last(), at);
    }
}

/// Returns how many bytes are left when the trailing spaces are taken off.
pub fn find_trim(bytes: &[u8]) -> (end: usize)
    ensures
        end <= bytes@.len(),
        end == trimmed_len(bytes@),
{
    let mut end: usize = bytes.len();
    while end > 0 && bytes[end - 1] == 32
        invariant
            end <= bytes@.len(),
            forall|i: int| end <= i < bytes@.len() ==> bytes@[i] == 32,
        decreases end,
    {
        end -= 1;
    }
    proof {
        trim_is_at(bytes@, end as int);
    }
    end
}

/// Returns the first bytes of a byte string.
pub fn head<'a>(bytes: &'a [u8], len: usize) -> (taken: &'a [u8])
    requires
        len <= bytes@.len(),
    ensures
        taken@ == bytes@.take(len as int),
{
    let taken = &bytes[0..len];
    assert(bytes@.subrange(0, len as int) =~= bytes@.take(len as int));
    taken
}

/// Returns the order of two lengths.
fn compare_lens(left: usize, right: usize) -> (order: Order)
    ensures
        order == int_order(left as int, right as int),
{
    if left < right {
        Order::Less
    } else if left > right {
        Order::Greater
    } else {
        Order::Equal
    }
}

/// Returns the order of two texts under a collation.
pub fn compare_text(left: &[u8], right: &[u8], collation: Collation) -> (order: Order)
    ensures
        order == text_order(left@, right@, collation),
{
    match collation {
        Collation::Binary => compare_bytes(left, right),
        Collation::NoCase => {
            let one = crate::text::fold(head(left, find_nul(left)));
            let two = crate::text::fold(head(right, find_nul(right)));
            match compare_bytes(&one, &two) {
                Order::Equal => compare_lens(left.len(), right.len()),
                decided => decided,
            }
        },
        Collation::RTrim => compare_bytes(
            head(left, find_trim(left)),
            head(right, find_trim(right)),
        ),
    }
}

/// Returns where a value's class stands among the classes.
fn class_rank(value: &Datum<'_>) -> (rank: u8)
    ensures
        rank == class_of(value@),
{
    match value {
        Datum::Null => 0,
        Datum::Int(_) => 1,
        Datum::Real(_) => 1,
        Datum::Text(_) => 2,
        Datum::Blob(_) => 3,
    }
}

/// Returns where a number stands among all numbers.
pub fn place(value: &Datum<'_>) -> (at: i128)
    ensures
        at == place_of(value@),
{
    match value {
        Datum::Int(number) => *number as i128 * STEP,
        Datum::Real(number) => number.place,
        _ => 0,
    }
}

/// Returns the order of two values under a collation.
pub fn compare_under(left: &Datum<'_>, right: &Datum<'_>, collation: Collation) -> (order: Order)
    ensures
        order == value_order(left@, right@, collation),
{
    let one: u8 = class_rank(left);
    let two: u8 = class_rank(right);
    if one < two {
        return Order::Less;
    }
    if one > two {
        return Order::Greater;
    }
    match (left, right) {
        (Datum::Text(first), Datum::Text(second)) => compare_text(*first, *second, collation),
        (Datum::Blob(first), Datum::Blob(second)) => compare_bytes(*first, *second),
        _ => {
            let here: i128 = place(left);
            let there: i128 = place(right);
            if here < there {
                Order::Less
            } else if here > there {
                Order::Greater
            } else {
                Order::Equal
            }
        },
    }
}

/// The classes stand apart: NULL comes first, then every number, then every text,
/// then every blob, whatever the collation.
pub proof fn classes_stand_apart(left: Value, right: Value, collation: Collation)
    ensures
        left is Null && right is Null ==> value_order(left, right, collation) is Equal,
        left is Null && !(right is Null) ==> value_order(left, right, collation) is Less,
        !(left is Null) && right is Null ==> value_order(left, right, collation) is Greater,
        (left is Int || left is Real) && (right is Text || right is Blob) ==> value_order(
            left,
            right,
            collation,
        ) is Less,
        (left is Text || left is Blob) && (right is Int || right is Real) ==> value_order(
            left,
            right,
            collation,
        ) is Greater,
        left is Text && right is Blob ==> value_order(left, right, collation) is Less,
        left is Blob && right is Text ==> value_order(left, right, collation) is Greater,
{
}

/// Numbers stand by their size, integers and binary64 numbers among each other.
pub proof fn numbers_stand_by_size(
    one: i64,
    two: i64,
    near: Real,
    far: Real,
    collation: Collation,
)
    ensures
        value_order(Value::Int(one), Value::Int(two), collation) is Less <==> one < two,
        value_order(Value::Int(one), Value::Int(two), collation) is Equal <==> one == two,
        value_order(Value::Real(near), Value::Real(far), collation) is Less <==> near.place
            < far.place,
        value_order(Value::Real(near), Value::Real(far), collation) is Equal <==> near.place
            == far.place,
        value_order(Value::Int(one), Value::Real(far), collation) is Less <==> one
            * 0x4000_0000_0000_0000 < far.place,
        value_order(Value::Int(one), Value::Real(far), collation) is Equal <==> one
            * 0x4000_0000_0000_0000 == far.place,
        value_order(Value::Real(near), Value::Int(two), collation) is Less <==> near.place < two
            * 0x4000_0000_0000_0000,
        value_order(Value::Real(near), Value::Int(two), collation) is Equal <==> near.place == two
            * 0x4000_0000_0000_0000,
{
}

/// Byte strings are ordered by where they first differ, and one that ends there
/// comes first.
proof fn first_difference(left: Seq<u8>, right: Seq<u8>, at: int)
    requires
        0 <= at <= left.len(),
        at <= right.len(),
        forall|i: int| 0 <= i < at ==> left[i] == right[i],
        at < left.len() && at < right.len() ==> left[at] != right[at],
    ensures
        byte_order(left, right) is Less <==> at < right.len() && (at == left.len() || left[at]
            < right[at]),
        byte_order(left, right) is Equal <==> at == left.len() && at == right.len(),
{
    order_after_agreement(left, right, at);
}

/// Blobs, and texts under `Binary`, stand by the first byte they differ in, and one
/// that ends there comes first.
pub proof fn bytes_stand_by_their_first_difference(
    left: Seq<u8>,
    right: Seq<u8>,
    at: int,
    collation: Collation,
)
    requires
        0 <= at <= left.len(),
        at <= right.len(),
        forall|i: int| 0 <= i < at ==> left[i] == right[i],
        at < left.len() && at < right.len() ==> left[at] != right[at],
    ensures
        value_order(Value::Blob(left), Value::Blob(right), collation) is Less <==> at < right.len()
            && (at == left.len() || left[at] < right[at]),
        value_order(Value::Blob(left), Value::Blob(right), collation) is Equal <==> left == right,
        value_order(Value::Text(left), Value::Text(right), Collation::Binary) is Less <==> at
            < right.len() && (at == left.len() || left[at] < right[at]),
        value_order(Value::Text(left), Value::Text(right), Collation::Binary) is Equal <==> left
            == right,
{
    first_difference(left, right, at);
    if at == left.len() && at == right.len() {
        assert(left =~= right);
    }
}

/// Texts under `NoCase` stand by the first letter they differ in with capitals made
/// small, as far as their first NUL; those alike up to there stand by their length.
///
/// `one` and `two` are how much of each stands before its first NUL.
pub proof fn letters_stand_in_either_case(
    left: Seq<u8>,
    right: Seq<u8>,
    one: int,
    two: int,
    at: int,
)
    requires
        0 <= one <= left.len(),
        forall|i: int| 0 <= i < one ==> left[i] != 0,
        one < left.len() ==> left[one] == 0,
        0 <= two <= right.len(),
        forall|i: int| 0 <= i < two ==> right[i] != 0,
        two < right.len() ==> right[two] == 0,
        0 <= at <= one,
        at <= two,
        forall|i: int|
            0 <= i < at ==> #[trigger] left[i] == right[i] || (65 <= left[i] <= 90 && right[i]
                == left[i] + 32) || (65 <= right[i] <= 90 && left[i] == right[i] + 32),
        at < one && at < two ==> !(left[at] == right[at] || (65 <= left[at] <= 90 && right[at]
            == left[at] + 32) || (65 <= right[at] <= 90 && left[at] == right[at] + 32)),
    ensures
        ({
            let order = value_order(Value::Text(left), Value::Text(right), Collation::NoCase);
            let here = if 65 <= left[at] <= 90 {
                left[at] + 32
            } else {
                left[at] as int
            };
            let there = if 65 <= right[at] <= 90 {
                right[at] + 32
            } else {
                right[at] as int
            };
            &&& at < one && at < two ==> here != there && (order is Less <==> here < there) && (
            order is Greater <==> here > there)
            &&& at == one && at < two ==> order is Less
            &&& at < one && at == two ==> order is Greater
            &&& at == one && at == two ==> (order is Less <==> left.len() < right.len()) && (order
                is Equal <==> left.len() == right.len())
        }),
{
    nul_is_at(left, one);
    nul_is_at(right, two);
    let heads = folded(left.take(one));
    let others = folded(right.take(two));
    assert forall|i: int| 0 <= i < at implies heads[i] == others[i] by {
        assert(left.take(one)[i] == left[i]);
        assert(right.take(two)[i] == right[i]);
    }
    if at < one {
        assert(left.take(one)[at] == left[at]);
    }
    if at < two {
        assert(right.take(two)[at] == right[at]);
    }
    first_difference(heads, others, at);
}

/// Texts under `RTrim` stand as though neither ended in spaces.
///
/// `one` and `two` are how much of each is left without them.
pub proof fn trailing_spaces_do_not_count(
    left: Seq<u8>,
    right: Seq<u8>,
    one: int,
    two: int,
    at: int,
)
    requires
        0 <= one <= left.len(),
        forall|i: int| one <= i < left.len() ==> left[i] == 32,
        one > 0 ==> left[one - 1] != 32,
        0 <= two <= right.len(),
        forall|i: int| two <= i < right.len() ==> right[i] == 32,
        two > 0 ==> right[two - 1] != 32,
        0 <= at <= one,
        at <= two,
        forall|i: int| 0 <= i < at ==> left[i] == right[i],
        at < one && at < two ==> left[at] != right[at],
    ensures
        ({
            let order = value_order(Value::Text(left), Value::Text(right), Collation::RTrim);
            &&& order is Less <==> at < two && (at == one || left[at] < right[at])
            &&& order is Equal <==> at == one && at == two
        }),
{
    trim_is_at(left, one);
    trim_is_at(right, two);
    let heads = left.take(one);
    let others = right.take(two);
    assert forall|i: int| 0 <= i < at implies heads[i] == others[i] by {
        assert(heads[i] == left[i]);
        assert(others[i] == right[i]);
    }
    first_difference(heads, others, at);
}

} // verus!
