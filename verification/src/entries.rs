//! The entries a `CREATE INDEX` builds a tree from, in one arena.
//!
//! [`EntrySet::order`] is exactly the order the tree compares in. Each entry
//! keeps the first sixteen bytes of its code in two words, and the sort reads
//! those before it reads a value; where the words tie, the values decide. The
//! words are the beginning of the code, so they can fail to tell two entries
//! apart and cannot put them the wrong way round: the sort is proved against the
//! comparison and says nothing of the words.

use vstd::prelude::*;

use crate::codes::{
    big_endian, big_endian_len, big_endian_tells, byte_order_carries, byte_order_reversed,
    collation_at, column_code, decided_stays, ended, ended_begins, inverted, joined, keyable,
    part_at, places_fit, row_code, row_codes_tell, row_order, rows_stand_by_their_first_difference,
    span, telling_is_byte_order, tells, text_key, value_code, writable, KeyEncoding,
};
use crate::radix::{radix_by_word, stably_sorted};
use crate::sorting::{same_holdings, sorted, Ranking};
use crate::values::{
    byte_order, compare_under, find_nul, find_trim, head, int_order, place, row_of, value_order,
    Collation, Datum, Order, Real, Value,
};

verus! {

/// How many words of its code an entry keeps.
///
/// One word left entries whose keys begin alike in long runs, and ordering the
/// runs by value cost more than the words saved.
pub const PREFIX_WORDS: usize = 2;

/// How many bytes that is.
pub const PREFIX_BYTES: usize = 16;

/// How short a run is before comparing beats counting.
///
/// A counting pass clears 256 counters whatever the run holds.
pub const COMPARE_BELOW: usize = 32;

/// The most cells reserved up front.
const RESERVED: usize = 0x10_0000;

/// One cell of one entry, pointing into the arena rather than holding bytes.
#[derive(Clone, Copy, Debug)]
enum Cell {
    /// SQL NULL.
    Null,
    /// A signed 64-bit integer.
    Int(i64),
    /// A binary64 number.
    Real(Real),
    /// Text, by where it starts in the arena and how long it is.
    Text { at: u32, len: u32 },
    /// A blob, by where it starts in the arena and how long it is.
    Blob { at: u32, len: u32 },
}

/// Whether a cell points inside the arena.
spec fn inside(cell: Cell, arena: Seq<u8>) -> bool {
    match cell {
        Cell::Text { at, len } => at + len <= arena.len(),
        Cell::Blob { at, len } => at + len <= arena.len(),
        _ => true,
    }
}

/// What a cell holds.
spec fn held(cell: Cell, arena: Seq<u8>) -> Value {
    match cell {
        Cell::Null => Value::Null,
        Cell::Int(number) => Value::Int(number),
        Cell::Real(number) => Value::Real(number),
        Cell::Text { at, len } => Value::Text(arena.subrange(at as int, at + len)),
        Cell::Blob { at, len } => Value::Blob(arena.subrange(at as int, at + len)),
    }
}

/// A row cut or filled with NULLs to a width.
pub open spec fn fitted(values: Seq<Value>, width: nat) -> Seq<Value> {
    Seq::new(
        width,
        |column: int|
            if column < values.len() {
                values[column]
            } else {
                Value::Null
            },
    )
}

/// How many payload bytes a value has.
pub open spec fn payload_of(value: Value) -> nat {
    match value {
        Value::Text(bytes) => bytes.len(),
        Value::Blob(bytes) => bytes.len(),
        _ => 0,
    }
}

/// How many payload bytes a row has in its first columns.
pub open spec fn payloads(row: Seq<Value>, columns: int) -> nat
    decreases columns,
{
    if columns <= 0 {
        0
    } else {
        payloads(row, columns - 1) + payload_of(row[columns - 1])
    }
}

/// What stands at a column counted from an entry's first, running on into the
/// entries after it, and NULL past the last.
pub open spec fn run_on(rows: Seq<Seq<Value>>, width: nat, entry: int, column: int) -> Value {
    let at = entry * width + column;
    if width > 0 && 0 <= at < rows.len() * width {
        rows[at / width as int][at % width as int]
    } else {
        Value::Null
    }
}

/// The order of two entries: by their columns, then by which was pushed first.
pub open spec fn entry_order(
    rows: Seq<Seq<Value>>,
    width: nat,
    collations: Seq<Collation>,
    directions: Seq<bool>,
    left: int,
    right: int,
) -> Order {
    joined(
        row_order(rows[left], rows[right], collations, directions, width as int),
        int_order(left, right),
    )
}

/// Whether two entries are one value in a column, and not NULL there.
pub open spec fn duplicates(
    rows: Seq<Seq<Value>>,
    width: nat,
    collations: Seq<Collation>,
    left: int,
    right: int,
    column: int,
) -> bool {
    let one = run_on(rows, width, left, column);
    let two = run_on(rows, width, right, column);
    !(one is Null) && value_order(one, two, collation_at(collations, column)) is Equal
}

/// Whether a list places every entry, each before all that the tree's own
/// comparison puts after it.
pub open spec fn key_ordered(
    rows: Seq<Seq<Value>>,
    width: nat,
    collations: Seq<Collation>,
    directions: Seq<bool>,
    placed: Seq<u32>,
) -> bool {
    &&& placed.len() == rows.len()
    &&& placed.no_duplicates()
    &&& forall|i: int| 0 <= i < placed.len() ==> #[trigger] placed[i] < rows.len()
    &&& forall|i: int, j: int|
        0 <= i < j < placed.len() ==> entry_order(
            rows,
            width,
            collations,
            directions,
            #[trigger] placed[i] as int,
            #[trigger] placed[j] as int,
        ) is Less
}

/// A byte of a code, zero past its end.
pub open spec fn filled(code: Seq<u8>, at: int) -> u8 {
    if 0 <= at < code.len() {
        code[at]
    } else {
        0
    }
}

/// Eight bytes of a code.
spec fn window(code: Seq<u8>, word: int) -> Seq<u8> {
    Seq::new(8, |i: int| filled(code, 8 * word + i))
}

/// Whether two codes begin with the same bytes.
pub open spec fn alike(left: Seq<u8>, right: Seq<u8>) -> bool {
    forall|i: int| 0 <= i < 16 ==> filled(left, i) == filled(right, i)
}

/// Whether some bytes are as much of a code as an entry keeps: the whole of it,
/// or as many bytes as are kept and the same ones.
pub open spec fn as_kept(kept: Seq<u8>, code: Seq<u8>) -> bool {
    kept == code || (kept.len() >= 16 && code.len() >= 16 && kept.take(16) == code.take(16))
}

/// A cell of an entry is a cell of the table.
proof fn cell_in_table(entry: int, column: int, width: int, count: int)
    requires
        0 <= entry < count,
        0 <= column < width,
    ensures
        0 <= entry * width + column < count * width,
        (entry * width + column) / width == entry,
        (entry * width + column) % width == column,
{
    assert(0 <= entry * width && entry * width + width <= count * width) by (nonlinear_arith)
        requires
            0 <= entry < count,
            0 < width,
    ;
    vstd::arithmetic::div_mod::lemma_fundamental_div_mod_converse(
        entry * width + column,
        width,
        entry,
        column,
    );
}

/// A cell of the table is a cell of an entry.
proof fn table_in_cells(at: int, width: int, count: int)
    requires
        0 <= at < count * width,
        0 < width,
    ensures
        0 <= at / width < count,
        0 <= at % width < width,
        at == (at / width) * width + at % width,
{
    vstd::arithmetic::div_mod::lemma_fundamental_div_mod(at, width);
    vstd::arithmetic::div_mod::lemma_mod_bound(at, width);
    let q = at / width;
    assert(width * q == q * width) by (nonlinear_arith);
    assert(0 <= q) by {
        vstd::arithmetic::div_mod::lemma_div_pos_is_pos(at, width);
    }
    assert(q < count) by (nonlinear_arith)
        requires
            q * width <= at,
            at < count * width,
            0 < width,
    ;
}

/// Codes that part way round inside the words part the same way as codes.
proof fn words_tell(left: Seq<u8>, right: Seq<u8>, order: Order, at: int)
    requires
        tells(left, right, order),
        0 <= at,
        forall|i: int| 0 <= i < at ==> filled(left, i) == filled(right, i),
        filled(left, at) < filled(right, at),
    ensures
        order is Less,
{
    if order is Greater {
        let other = choose|other: int|
            #[trigger] part_at(left, right, other) && left[other] > right[other];
        if other < at {
            assert(filled(left, other) == filled(right, other));
        } else if at < other {
            assert(left[at] == right[at]);
        }
    }
}

/// A code of more columns begins with the code of fewer.
proof fn code_goes_on(
    encoding: KeyEncoding,
    row: Seq<Value>,
    collations: Seq<Collation>,
    directions: Seq<bool>,
    some: int,
    more: int,
)
    requires
        0 <= some <= more,
    ensures
        row_code(encoding, row, collations, directions, some).len() <= row_code(
            encoding,
            row,
            collations,
            directions,
            more,
        ).len(),
        forall|i: int|
            0 <= i < row_code(encoding, row, collations, directions, some).len() ==> row_code(
                encoding,
                row,
                collations,
                directions,
                some,
            )[i] == row_code(encoding, row, collations, directions, more)[i],
    decreases more,
{
    if some < more {
        code_goes_on(encoding, row, collations, directions, some, more - 1);
    }
}

/// Returns a number's bytes, most significant first.
fn write_big_endian(number: u128, width: usize, out: &mut Vec<u8>)
    requires
        width <= 16,
    ensures
        final(out)@ == old(out)@ + big_endian(number as nat, width as nat),
    decreases width,
{
    if width == 0 {
        assert(out@ =~= out@ + big_endian(number as nat, 0));
        return;
    }
    let ghost before = out@;
    write_big_endian(number / 256, width - 1, out);
    out.push((number % 256) as u8);
    assert(out@ =~= before + big_endian(number as nat, width as nat));
}

/// Writes a payload with each NUL marked and the end marked.
fn write_ended(payload: &[u8], out: &mut Vec<u8>)
    ensures
        final(out)@ == old(out)@ + ended(payload@),
{
    let ghost before = out@;
    let mut at: usize = 0;
    assert(payload@.subrange(0, payload@.len() as int) =~= payload@);
    while at < payload.len()
        invariant
            at <= payload@.len(),
            before + ended(payload@) == out@ + ended(
                payload@.subrange(at as int, payload@.len() as int),
            ),
        decreases payload@.len() - at,
    {
        let ghost rest = payload@.subrange(at as int, payload@.len() as int);
        let ghost written = out@;
        assert(rest.drop_first() =~= payload@.subrange(at + 1, payload@.len() as int));
        out.push(payload[at]);
        if payload[at] == 0 {
            out.push(255);
            assert(written + ended(rest) =~= out@ + ended(rest.drop_first()));
        } else {
            assert(written + ended(rest) =~= out@ + ended(rest.drop_first()));
        }
        at += 1;
    }
    out.push(0);
    out.push(0);
    assert(payload@.subrange(at as int, payload@.len() as int) =~= Seq::<u8>::empty());
    assert(out@ =~= before + ended(payload@));
}

/// Writes the code of one value as its bytes stand.
fn write_value(value: &Datum<'_>, out: &mut Vec<u8>)
    ensures
        final(out)@ == old(out)@ + value_code(value@, Collation::Binary),
{
    let ghost before = out@;
    match value {
        Datum::Null => {
            out.push(1);
        },
        Datum::Text(bytes) => {
            out.push(3);
            write_ended(*bytes, out);
        },
        Datum::Blob(bytes) => {
            out.push(4);
            write_ended(*bytes, out);
        },
        _ => {
            proof {
                places_fit(value@);
            }
            let at: i128 = place(value);
            let raised: u128 = if at < 0 {
                (at + i128::MAX + 1) as u128
            } else {
                at as u128 + 0x8000_0000_0000_0000_0000_0000_0000_0000u128
            };
            out.push(2);
            write_big_endian(raised, 16, out);
        },
    }
    assert(out@ =~= before + value_code(value@, Collation::Binary));
}

/// Returns a text's key under its collation, clipped to what an entry keeps.
///
/// A collation is applied before the clip and never after it: trimming a clip
/// that happens to end inside a run of spaces would strip spaces the whole text
/// does not treat as trailing. Making letters small commutes with the clip, so
/// only the first bytes are folded, unless a NUL stands among them: then the key
/// goes on with the whole text's length, which a clip does not know.
pub fn clip(bytes: &[u8], collation: Collation) -> (clipped: Vec<u8>)
    requires
        bytes@.len() <= u64::MAX,
    ensures
        clipped@ == text_key(bytes@, collation).take(
            if text_key(bytes@, collation).len() < PREFIX_BYTES {
                text_key(bytes@, collation).len() as int
            } else {
                PREFIX_BYTES as int
            },
        ),
{
    match collation {
        Collation::Binary => {
            let len: usize = if bytes.len() < PREFIX_BYTES {
                bytes.len()
            } else {
                PREFIX_BYTES
            };
            crate::text::copied(head(bytes, len))
        },
        Collation::NoCase => {
            let nul: usize = find_nul(bytes);
            if nul < bytes.len() && nul < PREFIX_BYTES {
                let mut clipped = crate::text::fold(head(bytes, nul));
                clipped.push(0);
                write_big_endian(bytes.len() as u128, 8, &mut clipped);
                proof {
                    big_endian_len(bytes@.len(), 8);
                    assert(clipped@ =~= text_key(bytes@, collation));
                }
                if clipped.len() > PREFIX_BYTES {
                    clipped.truncate(PREFIX_BYTES);
                }
                assert(clipped@ =~= text_key(bytes@, collation).take(clipped@.len() as int));
                clipped
            } else {
                let len: usize = if bytes.len() < PREFIX_BYTES {
                    bytes.len()
                } else {
                    PREFIX_BYTES
                };
                let clipped = crate::text::fold(head(bytes, len));
                proof {
                    big_endian_len(bytes@.len(), 8);
                    assert(clipped@ =~= text_key(bytes@, collation).take(len as int));
                }
                clipped
            }
        },
        Collation::RTrim => {
            let end: usize = find_trim(bytes);
            let len: usize = if end < PREFIX_BYTES {
                end
            } else {
                PREFIX_BYTES
            };
            let clipped = crate::text::copied(head(bytes, len));
            assert(clipped@ =~= text_key(bytes@, collation).take(len as int));
            clipped
        },
    }
}

/// Turns over the bytes of a buffer from a place on.
fn invert_from(out: &mut Vec<u8>, from: usize)
    requires
        from <= old(out)@.len(),
    ensures
        final(out)@ == old(out)@.take(from as int) + inverted(
            old(out)@.subrange(from as int, old(out)@.len() as int),
        ),
{
    let ghost before = out@;
    let end: usize = out.len();
    for at in from..end
        invariant
            end == before.len(),
            from <= end,
            out@.len() == end,
            forall|i: int| 0 <= i < from ==> out@[i] == before[i],
            forall|i: int| from <= i < at ==> out@[i] == 255 - before[i],
            forall|i: int| at <= i < end ==> out@[i] == before[i],
    {
        let byte: u8 = out[at];
        out.set(at, 255 - byte);
    }
    assert(out@ =~= before.take(from as int) + inverted(
        before.subrange(from as int, before.len() as int),
    ));
}

/// A clipped value's code begins as the value's does, and is either the whole of
/// it or longer than an entry keeps.
proof fn clipped_begins(value: Value, clipped: Value, collation: Collation)
    requires
        match value {
            Value::Text(bytes) => {
                let key = text_key(bytes, collation);
                &&& clipped is Text
                &&& clipped->Text_0 == key.take(
                    if key.len() < 16 {
                        key.len() as int
                    } else {
                        16
                    },
                )
            },
            Value::Blob(bytes) => {
                &&& clipped is Blob
                &&& clipped->Blob_0 == bytes.take(
                    if bytes.len() < 16 {
                        bytes.len() as int
                    } else {
                        16
                    },
                )
            },
            _ => clipped == value,
        },
    ensures
        ({
            let short = value_code(clipped, Collation::Binary);
            let whole = value_code(value, collation);
            short == whole || (short.len() >= 16 && whole.len() >= 16 && forall|i: int|
                0 <= i < 16 ==> short[i] == whole[i])
        }),
{
    match value {
        Value::Text(bytes) => {
            let key = text_key(bytes, collation);
            if key.len() >= 16 {
                ended_begins(key, 16);
            } else {
                assert(key.take(key.len() as int) =~= key);
            }
        },
        Value::Blob(bytes) => {
            if bytes.len() >= 16 {
                ended_begins(bytes, 16);
            } else {
                assert(bytes.take(bytes.len() as int) =~= bytes);
            }
        },
        _ => {},
    }
}

/// Writes the first bytes of an entry's code.
///
/// A value's payload is clipped before it is written, and the columns stop once
/// there are as many bytes as an entry keeps, so a long key costs no more than a
/// short one. What is shorter than that is the whole code, and so is every rowid
/// key.
pub fn encode_prefix(
    encoding: KeyEncoding,
    values: &[Datum<'_>],
    width: usize,
    collations: &[Collation],
    directions: &[bool],
    out: &mut Vec<u8>,
)
    requires
        old(out)@.len() == 0,
        keyable(encoding, fitted(row_of(values@), width as nat), width as int),
    ensures
        ({
            let code = row_code(
                encoding,
                fitted(row_of(values@), width as nat),
                collations@,
                directions@,
                width as int,
            );
            &&& as_kept(final(out)@, code)
            &&& final(out)@.len() < 16 ==> final(out)@ == code
            &&& encoding is Rowid ==> final(out)@ == code
            &&& alike(final(out)@, code)
        }),
{
    let ghost row = fitted(row_of(values@), width as nat);
    let mut column: usize = 0;
    let whole_key: bool = matches!(encoding, KeyEncoding::Rowid);
    while column < width && (whole_key || out.len() < PREFIX_BYTES)
        invariant
            column <= width,
            row == fitted(row_of(values@), width as nat),
            keyable(encoding, row, width as int),
            ({
                let code = row_code(encoding, row, collations@, directions@, column as int);
                out@ == code || (!whole_key && out@.len() >= 16 && code.len() >= 16
                    && forall|i: int|
                    0 <= i < 16 ==> out@[i] == code[i])
            }),
            whole_key == (encoding is Rowid),
        decreases width - column,
    {
        let value: Datum<'_> = if column < values.len() {
            values[column]
        } else {
            Datum::Null
        };
        let collation: Collation = if column < collations.len() {
            collations[column]
        } else {
            Collation::Binary
        };
        let descending: bool = column < directions.len() && directions[column];
        let ghost before = out@;
        let start: usize = out.len();
        assert(value@ == row[column as int]);
        assert(writable(row[column as int]));
        let ghost short: Seq<u8>;
        let ghost whole = column_code(encoding, value@, collation, false);
        match (encoding, value) {
            (KeyEncoding::Rowid, Datum::Int(number)) => {
                proof {
                    places_fit(value@);
                }
                let raised: u128 = (number as i128 + 0x8000_0000_0000_0000i128) as u128;
                write_big_endian(raised, 8, out);
                proof {
                    short = whole;
                    assert(out@ =~= before + short);
                }
            },
            (_, Datum::Text(bytes)) => {
                let kept = clip(bytes, collation);
                let clipped = Datum::Text(kept.as_slice());
                write_value(&clipped, out);
                proof {
                    clipped_begins(value@, clipped@, collation);
                    short = value_code(clipped@, Collation::Binary);
                }
            },
            (_, Datum::Blob(bytes)) => {
                let len: usize = if bytes.len() < PREFIX_BYTES {
                    bytes.len()
                } else {
                    PREFIX_BYTES
                };
                let clipped = Datum::Blob(head(bytes, len));
                write_value(&clipped, out);
                proof {
                    clipped_begins(value@, clipped@, collation);
                    short = value_code(clipped@, Collation::Binary);
                }
            },
            _ => {
                write_value(&value, out);
                proof {
                    clipped_begins(value@, value@, collation);
                    short = value_code(value@, Collation::Binary);
                }
            },
        }
        if descending {
            invert_from(out, start);
            assert((before + short).take(start as int) =~= before);
            assert((before + short).subrange(start as int, (before + short).len() as int)
                =~= short);
        }
        proof {
            let kept = if descending {
                inverted(short)
            } else {
                short
            };
            assert(out@ =~= before + kept);
            let added = column_code(encoding, value@, collation, descending);
            assert(kept == added || (kept.len() >= 16 && added.len() >= 16 && forall|i: int|
                0 <= i < 16 ==> kept[i] == added[i]));
            let code = row_code(encoding, row, collations@, directions@, column as int);
            let next = row_code(encoding, row, collations@, directions@, column + 1);
            assert(next == code + added);
            assert(before == code);
            if kept != added {
                assert forall|i: int| 0 <= i < 16 implies out@[i] == next[i] by {
                    if i >= before.len() {
                        assert(kept[i - before.len()] == added[i - before.len()]);
                    }
                }
            }
        }
        column += 1;
    }
    proof {
        let code = row_code(encoding, row, collations@, directions@, column as int);
        let all = row_code(encoding, row, collations@, directions@, width as int);
        code_goes_on(encoding, row, collations@, directions@, column as int, width as int);
        assert forall|i: int| 0 <= i < 16 implies filled(out@, i) == filled(all, i) by {
            if column < width {
                assert(filled(out@, i) == code[i]);
            }
        }
        if out@ != all {
            assert forall|i: int| 0 <= i < 16 implies out@[i] == all[i] by {
                assert(filled(out@, i) == filled(all, i));
            }
            assert(out@.take(16) =~= all.take(16));
        }
    }
}

/// Returns how much to reserve for some rows: a guess, and never past a limit.
fn reservation(rows: usize, each: usize) -> (amount: usize)
    ensures
        amount == if rows * each < RESERVED {
            rows * each
        } else {
            RESERVED as int
        },
{
    match rows.checked_mul(each) {
        Some(amount) => if amount < RESERVED {
            amount
        } else {
            RESERVED
        },
        None => RESERVED,
    }
}

/// Reports whether an entry can be keyed the way a tree writes its keys.
fn can_key(encoding: KeyEncoding, values: &[Datum<'_>], width: usize) -> (answer: bool)
    requires
        keyable(KeyEncoding::General, fitted(row_of(values@), width as nat), width as int),
    ensures
        answer == keyable(encoding, fitted(row_of(values@), width as nat), width as int),
{
    let ghost row = fitted(row_of(values@), width as nat);
    match encoding {
        KeyEncoding::General => true,
        KeyEncoding::Rowid => {
            for column in 0..width
                invariant
                    row == fitted(row_of(values@), width as nat),
                    keyable(KeyEncoding::General, row, width as int),
                    encoding is Rowid,
                    forall|i: int| 0 <= i < column ==> (#[trigger] row[i]) is Int,
            {
                let value: Datum<'_> = if column < values.len() {
                    values[column]
                } else {
                    Datum::Null
                };
                assert(value@ == row[column as int]);
                match value {
                    Datum::Int(_) => {},
                    _ => {
                        assert(!(row[column as int] is Int));
                        return false;
                    },
                }
            }
            true
        },
    }
}

/// The entries of one index, in an arena a radix pass can sort.
pub struct EntrySet {
    /// How many columns an entry has: the key columns, then the row's identity.
    width: usize,
    /// Each entry's cells, one entry after another.
    cells: Vec<Cell>,
    /// Every text and blob payload, appended once.
    bytes: Vec<u8>,
    /// Each entry's words, most significant first.
    prefix: Vec<u64>,
    /// The collations the columns are ordered under.
    collations: Vec<Collation>,
    /// Which columns are ordered descending.
    directions: Vec<bool>,
    /// How the tree writes its keys.
    encoding: KeyEncoding,
    /// A buffer the words are written through.
    scratch: Vec<u8>,
}

impl EntrySet {
    /// How many columns an entry has.
    pub closed spec fn width(&self) -> nat {
        self.width as nat
    }

    /// The collations the columns are ordered under.
    pub closed spec fn collations(&self) -> Seq<Collation> {
        self.collations@
    }

    /// Which columns are ordered descending.
    pub closed spec fn directions(&self) -> Seq<bool> {
        self.directions@
    }

    /// How the tree writes its keys.
    pub closed spec fn encoding(&self) -> KeyEncoding {
        self.encoding
    }

    /// How many payload bytes the arena holds.
    pub closed spec fn arena(&self) -> nat {
        self.bytes@.len()
    }

    /// Whether the words the sort reads are still held.
    pub closed spec fn sortable(&self) -> bool {
        self.prefix@.len() == PREFIX_WORDS * self.count()
    }

    /// How many of the words only the sort reads are held.
    pub closed spec fn words_held(&self) -> nat {
        self.prefix@.len()
    }

    /// How many bytes the buffer the words are written through holds.
    pub closed spec fn buffered(&self) -> nat {
        self.scratch@.len()
    }

    /// How many entries there are.
    spec fn count(&self) -> int {
        if self.width == 0 {
            0
        } else {
            self.cells@.len() as int / self.width as int
        }
    }

    /// One entry's columns.
    spec fn row(&self, entry: int) -> Seq<Value> {
        Seq::new(
            self.width as nat,
            |column: int| held(self.cells@[entry * self.width + column], self.bytes@),
        )
    }

    /// The entries, in the order they were pushed.
    pub closed spec fn rows(&self) -> Seq<Seq<Value>> {
        Seq::new(self.count() as nat, |entry: int| self.row(entry))
    }

    /// The code of one entry in an encoding.
    spec fn code_in(&self, encoding: KeyEncoding, entry: int) -> Seq<u8> {
        row_code(
            encoding,
            self.row(entry),
            self.collations@,
            self.directions@,
            self.width as int,
        )
    }

    /// The code of one entry.
    spec fn code(&self, entry: int) -> Seq<u8> {
        self.code_in(self.encoding, entry)
    }

    /// Whether every entry can be keyed in an encoding.
    spec fn all_keyable(&self, encoding: KeyEncoding) -> bool {
        forall|entry: int|
            0 <= entry < self.count() ==> keyable(
                encoding,
                #[trigger] self.row(entry),
                self.width as int,
            )
    }

    /// Whether the words are the beginnings of the codes.
    spec fn words_agree(&self) -> bool {
        forall|entry: int, word: int|
            #![trigger self.prefix@[2 * entry + word]]
            0 <= entry < self.count() && 0 <= word < 2 ==> big_endian(
                self.prefix@[2 * entry + word] as nat,
                8,
            ) == window(self.code(entry), word)
    }

    /// Whether the arena is what the entries say it is.
    pub closed spec fn wf(&self) -> bool {
        &&& self.count() >= 0
        &&& self.cells@.len() == self.count() * self.width
        &&& self.bytes@.len() <= u32::MAX
        &&& forall|i: int| 0 <= i < self.cells@.len()
            ==> inside(#[trigger] self.cells@[i], self.bytes@)
        &&& self.all_keyable(KeyEncoding::General)
        &&& self.prefix@.len() == 0 || (self.sortable() && self.words_agree() && self.all_keyable(
            self.encoding,
        ))
    }

    /// Returns an empty set sized for a table's rows.
    pub fn with_capacity(
        width: usize,
        rows: usize,
        encoding: KeyEncoding,
        collations: &[Collation],
        directions: &[bool],
    ) -> (set: EntrySet)
        ensures
            set.wf(),
            set.sortable(),
            set.width() == width,
            set.encoding() == encoding,
            set.collations() == collations@,
            set.directions() == directions@,
            set.rows() == Seq::<Seq<Value>>::empty(),
            set.arena() == 0,
    {
        let mut held_collations: Vec<Collation> = Vec::with_capacity(collations.len());
        for at in 0..collations.len()
            invariant
                held_collations@ =~= collations@.take(at as int),
        {
            held_collations.push(collations[at]);
        }
        let mut held_directions: Vec<bool> = Vec::with_capacity(directions.len());
        for at in 0..directions.len()
            invariant
                held_directions@ =~= directions@.take(at as int),
        {
            held_directions.push(directions[at]);
        }
        assert(collations@.take(collations@.len() as int) =~= collations@);
        assert(directions@.take(directions@.len() as int) =~= directions@);
        let set = EntrySet {
            width,
            cells: Vec::with_capacity(reservation(rows, width)),
            bytes: Vec::with_capacity(reservation(rows, 48)),
            prefix: Vec::with_capacity(reservation(rows, PREFIX_WORDS)),
            collations: held_collations,
            directions: held_directions,
            encoding,
            scratch: Vec::with_capacity(PREFIX_BYTES),
        };
        proof {
            if width > 0 {
                assert(0int / width as int == 0) by {
                    vstd::arithmetic::div_mod::lemma_div_basics(width as int);
                }
            }
            assert(set.count() == 0);
            assert(0 * width == 0);
            assert(set.rows() =~= Seq::<Seq<Value>>::empty());
        }
        set
    }

    /// Appends one entry, copying its payloads and taking its words.
    ///
    /// The words are kept while every entry has some: an entry that cannot be
    /// keyed the way the tree writes its keys leaves the set to be ordered by its
    /// columns, and so does one that follows a set whose words were given back.
    ///
    /// A row longer than an entry is cut and a shorter one is filled with NULLs,
    /// so an entry's columns are always where its number says.
    #[verifier::rlimit(40)]
    pub fn push(&mut self, values: &[Datum<'_>])
        requires
            old(self).wf(),
            old(self).arena() + payloads(
                fitted(row_of(values@), old(self).width()),
                old(self).width() as int,
            ) <= u32::MAX,
        ensures
            final(self).wf(),
            final(self).sortable() <==> old(self).sortable() && keyable(
                old(self).encoding(),
                fitted(row_of(values@), old(self).width()),
                old(self).width() as int,
            ),
            final(self).width() == old(self).width(),
            final(self).encoding() == old(self).encoding(),
            final(self).collations() == old(self).collations(),
            final(self).directions() == old(self).directions(),
            old(self).width() > 0 ==> final(self).rows() == old(self).rows().push(
                fitted(row_of(values@), old(self).width()),
            ),
            old(self).width() == 0 ==> final(self).rows() == old(self).rows(),
            old(self).width() > 0 ==> forall|column: int|
                0 <= column < old(self).width()
                    ==> #[trigger] final(self).rows()[old(self).rows().len() as int][column]
                    == if column < values@.len() {
                    values@[column]@
                } else {
                    Value::Null
                },
            final(self).arena() == old(self).arena() + payloads(
                fitted(row_of(values@), old(self).width()),
                old(self).width() as int,
            ),
    {
        let ghost before = *self;
        let ghost row = fitted(row_of(values@), self.width as nat);
        if self.width == 0 {
            return;
        }
        proof {
            assert forall|i: int| 0 <= i < self.width implies writable(#[trigger] row[i]) by {
                payload_bounded(row, self.width as int, i);
            }
            assert(keyable(KeyEncoding::General, row, self.width as int));
        }
        let sorts: bool = (self.prefix.len() > 0 || self.cells.len() == 0) && can_key(
            self.encoding,
            values,
            self.width,
        );
        proof {
            if before.cells@.len() == 0 {
                vstd::arithmetic::div_mod::lemma_div_basics(self.width as int);
            }
            assert(before.sortable() <==> before.prefix@.len() > 0 || before.cells@.len() == 0) by {
                if before.prefix@.len() == 0 && before.cells@.len() > 0 {
                    assert(before.count() != 0) by {
                        if before.count() == 0 {
                            assert(before.count() * before.width == 0) by (nonlinear_arith)
                                requires
                                    before.count() == 0,
                            ;
                        }
                    }
                }
            }
        }
        let width: usize = self.width;
        for column in 0..width
            invariant
                width == self.width,
                row == fitted(row_of(values@), self.width as nat),
                self.width == before.width,
                self.encoding == before.encoding,
                self.collations == before.collations,
                self.directions == before.directions,
                self.prefix == before.prefix,
                before.wf(),
                before.bytes@.len() + payloads(row, self.width as int) <= u32::MAX,
                self.bytes@.len() == before.bytes@.len() + payloads(row, column as int),
                before.bytes@ =~= self.bytes@.take(before.bytes@.len() as int),
                self.cells@.len() == before.cells@.len() + column,
                before.cells@ =~= self.cells@.take(before.cells@.len() as int),
                forall|i: int|
                    0 <= i < self.cells@.len() ==> inside(#[trigger] self.cells@[i], self.bytes@),
                forall|c: int|
                    0 <= c < column ==> held(self.cells@[before.cells@.len() + c], self.bytes@)
                        == row[c],
        {
            let value: Datum<'_> = if column < values.len() {
                values[column]
            } else {
                Datum::Null
            };
            assert(value@ == row[column as int]);
            proof {
                payloads_grow(row, column + 1, self.width as int);
            }
            let ghost arena = self.bytes@;
            let cell = match value {
                Datum::Null => Cell::Null,
                Datum::Int(number) => Cell::Int(number),
                Datum::Real(number) => Cell::Real(number),
                Datum::Text(payload) => Cell::Text {
                    at: self.append(payload),
                    len: payload.len() as u32,
                },
                Datum::Blob(payload) => Cell::Blob {
                    at: self.append(payload),
                    len: payload.len() as u32,
                },
            };
            assert(arena =~= self.bytes@.take(arena.len() as int));
            proof {
                assert forall|i: int| 0 <= i < self.cells@.len() implies inside(
                    #[trigger] self.cells@[i],
                    self.bytes@,
                ) && held(self.cells@[i], self.bytes@) == held(self.cells@[i], arena) by {
                    held_stays(self.cells@[i], arena, self.bytes@);
                }
                match value@ {
                    Value::Text(bytes) => {
                        assert(self.bytes@.subrange(
                            arena.len() as int,
                            self.bytes@.len() as int,
                        ) =~= bytes);
                    },
                    Value::Blob(bytes) => {
                        assert(self.bytes@.subrange(
                            arena.len() as int,
                            self.bytes@.len() as int,
                        ) =~= bytes);
                    },
                    _ => {},
                }
                assert(held(cell, self.bytes@) == row[column as int]);
            }
            self.cells.push(cell);
        }
        let ghost code = row_code(
            self.encoding,
            row,
            self.collations@,
            self.directions@,
            self.width as int,
        );
        if sorts {
            self.take_words(values);
        } else {
            self.prefix = Vec::new();
        }
        proof {
            let width = self.width as int;
            let count = before.count();
            assert((count + 1) * width == count * width + width) by (nonlinear_arith);
            cell_in_table(count, 0, width, count + 1);
            assert(self.cells@.len() as int / width == count + 1) by {
                vstd::arithmetic::div_mod::lemma_fundamental_div_mod_converse(
                    self.cells@.len() as int,
                    width,
                    count + 1,
                    0,
                );
            }
            assert(self.count() == count + 1);
            assert forall|entry: int| 0 <= entry < count implies #[trigger] self.row(entry)
                =~= before.row(entry) by {
                assert forall|c: int| 0 <= c < width implies self.row(entry)[c] == before.row(
                    entry,
                )[c] by {
                    cell_in_table(entry, c, width, count);
                    let at = entry * width + c;
                    assert(self.cells@[at] == before.cells@[at]);
                    held_stays(before.cells@[at], before.bytes@, self.bytes@);
                }
            }
            assert(self.row(count) =~= row) by {
                assert forall|c: int| 0 <= c < width implies self.row(count)[c] == row[c] by {
                    assert(self.cells@[before.cells@.len() + c] == self.cells@[count * width + c]);
                }
            }
            assert(sorts ==> self.words_agree()) by {
                assert forall|entry: int, word: int|
                    #![trigger self.prefix@[2 * entry + word]]
                    sorts && 0 <= entry < self.count() && 0 <= word < 2 implies big_endian(
                    self.prefix@[2 * entry + word] as nat,
                    8,
                ) == window(self.code(entry), word) by {
                    if entry < count {
                        assert(self.prefix@[2 * entry + word] == before.prefix@[2 * entry + word]);
                        assert(self.row(entry) == before.row(entry));
                        assert(self.code(entry) == before.code(entry));
                    } else {
                        assert(self.code(entry) == code);
                    }
                }
            }
            assert forall|entry: int| 0 <= entry < self.count() implies keyable(
                KeyEncoding::General,
                #[trigger] self.row(entry),
                width,
            ) && (sorts ==> keyable(self.encoding, self.row(entry), width)) by {
                if entry < count {
                    assert(self.row(entry) == before.row(entry));
                }
            }
            assert(self.rows() =~= before.rows().push(row));
        }
    }

    /// Takes the words of an entry, which are the beginning of its code.
    fn take_words(&mut self, values: &[Datum<'_>])
        requires
            keyable(
                old(self).encoding,
                fitted(row_of(values@), old(self).width as nat),
                old(self).width as int,
            ),
        ensures
            final(self).width == old(self).width,
            final(self).cells == old(self).cells,
            final(self).bytes == old(self).bytes,
            final(self).collations == old(self).collations,
            final(self).directions == old(self).directions,
            final(self).encoding == old(self).encoding,
            final(self).prefix@.len() == old(self).prefix@.len() + 2,
            final(self).prefix@.take(old(self).prefix@.len() as int) == old(self).prefix@,
            forall|word: int|
                0 <= word < 2 ==> big_endian(
                    #[trigger] final(self).prefix@[old(self).prefix@.len() + word] as nat,
                    8,
                ) == window(
                    row_code(
                        old(self).encoding,
                        fitted(row_of(values@), old(self).width as nat),
                        old(self).collations@,
                        old(self).directions@,
                        old(self).width as int,
                    ),
                    word,
                ),
    {
        let mut scratch: Vec<u8> = Vec::new();
        std::mem::swap(&mut scratch, &mut self.scratch);
        scratch.clear();
        encode_prefix(
            self.encoding,
            values,
            self.width,
            &self.collations,
            &self.directions,
            &mut scratch,
        );
        let first: u64 = pack(&scratch, 0);
        let second: u64 = pack(&scratch, 1);
        self.prefix.push(first);
        self.prefix.push(second);
        proof {
            let code = row_code(
                self.encoding,
                fitted(row_of(values@), self.width as nat),
                self.collations@,
                self.directions@,
                self.width as int,
            );
            assert(window(scratch@, 0) =~= window(code, 0));
            assert(window(scratch@, 1) =~= window(code, 1)) by {
                assert forall|i: int| 0 <= i < 8 implies window(scratch@, 1)[i] == window(
                    code,
                    1,
                )[i] by {
                    assert(filled(scratch@, 8 + i) == filled(code, 8 + i));
                }
            }
            assert(self.prefix@.take(old(self).prefix@.len() as int) =~= old(self).prefix@);
        }
        self.scratch = scratch;
    }

    /// Copies one payload into the arena and returns where it landed.
    fn append(&mut self, payload: &[u8]) -> (at: u32)
        requires
            old(self).bytes@.len() + payload@.len() <= u32::MAX,
        ensures
            at == old(self).bytes@.len(),
            final(self).bytes@ == old(self).bytes@ + payload@,
            final(self).width == old(self).width,
            final(self).cells == old(self).cells,
            final(self).prefix == old(self).prefix,
            final(self).collations == old(self).collations,
            final(self).directions == old(self).directions,
            final(self).encoding == old(self).encoding,
    {
        let at: u32 = self.bytes.len() as u32;
        crate::text::append(&mut self.bytes, payload);
        at
    }

    /// Returns how many entries there are.
    pub fn len(&self) -> (count: usize)
        requires
            self.wf(),
        ensures
            count == self.rows().len(),
    {
        if self.width == 0 {
            0
        } else {
            self.cells.len() / self.width
        }
    }

    /// Returns one word of an entry's code, zero when the words are gone.
    fn word(&self, entry: usize, word: usize) -> (held: u64)
        requires
            self.wf(),
            entry < self.count(),
            word < 2,
        ensures
            self.prefix@.len() > 0 ==> held == self.prefix@[2 * entry + word],
            self.prefix@.len() == 0 ==> held == 0,
    {
        if self.prefix.len() == 0 {
            return 0;
        }
        self.prefix[PREFIX_WORDS * entry + word]
    }

    /// Returns one column of one entry as a value.
    ///
    /// A column past an entry's last runs on into the next entry, and past the
    /// last entry there is NULL.
    pub fn datum(&self, entry: usize, column: usize) -> (value: Datum<'_>)
        requires
            self.wf(),
        ensures
            value@ == run_on(self.rows(), self.width(), entry as int, column as int),
            entry < self.rows().len() && column < self.width() ==> value@
                == self.rows()[entry as int][column as int],
            entry >= self.rows().len() ==> value@ is Null,
    {
        proof {
            entries_are_read_in_place(self.rows(), self.width(), entry as int, column as int);
        }
        let ghost count = self.count();
        let ghost width = self.width as int;
        let cells: usize = self.cells.len();
        proof {
            assert(0 <= entry * width) by (nonlinear_arith)
                requires
                    0 <= entry,
                    0 <= width,
            ;
        }
        let start: usize = match entry.checked_mul(self.width) {
            Some(start) => start,
            None => {
                return Datum::Null;
            },
        };
        let at: usize = match start.checked_add(column) {
            Some(at) => at,
            None => {
                return Datum::Null;
            },
        };
        if at >= cells {
            return Datum::Null;
        }
        proof {
            assert(width > 0) by {
                if width == 0 {
                    assert(count * 0 == 0);
                }
            }
            table_in_cells(at as int, width, count);
            assert(self.rows()[at as int / width][at as int % width] == held(
                self.cells@[at as int],
                self.bytes@,
            ));
            assert(inside(self.cells@[at as int], self.bytes@));
        }
        match self.cells[at] {
            Cell::Null => Datum::Null,
            Cell::Int(number) => Datum::Int(number),
            Cell::Real(number) => Datum::Real(number),
            Cell::Text { at, len } => Datum::Text(self.payload(at, len)),
            Cell::Blob { at, len } => Datum::Blob(self.payload(at, len)),
        }
    }

    /// Returns one payload out of the arena.
    fn payload(&self, at: u32, len: u32) -> (bytes: &[u8])
        requires
            at + len <= self.bytes@.len(),
        ensures
            bytes@ == self.bytes@.subrange(at as int, at + len),
    {
        let arena: usize = self.bytes.len();
        let from: usize = at as usize;
        let to: usize = from + len as usize;
        assert(to <= arena);
        &self.bytes.as_slice()[from..to]
    }

    /// Two entries stand by the first column they differ in.
    proof fn compared_by_columns(&self, left: u32, right: u32)
        ensures
            forall|column: int|
                0 <= column < self.width() && (forall|b: int|
                    0 <= b < column ==> value_order(
                        #[trigger] self.rows()[left as int][b],
                        self.rows()[right as int][b],
                        if b < self.collations().len() {
                            self.collations()[b]
                        } else {
                            Collation::Binary
                        },
                    ) is Equal) ==> {
                    let found = value_order(
                        #[trigger] self.rows()[left as int][column],
                        self.rows()[right as int][column],
                        if column < self.collations().len() {
                            self.collations()[column]
                        } else {
                            Collation::Binary
                        },
                    );
                    let turned = column < self.directions().len() && self.directions()[column];
                    let order = entry_order(
                        self.rows(),
                        self.width(),
                        self.collations(),
                        self.directions(),
                        left as int,
                        right as int,
                    );
                    &&& found is Less && !turned ==> order is Less
                    &&& found is Greater && !turned ==> order is Greater
                    &&& found is Less && turned ==> order is Greater
                    &&& found is Greater && turned ==> order is Less
                },
    {
        assert forall|column: int|
            0 <= column < self.width() && (forall|b: int|
                0 <= b < column ==> value_order(
                    #[trigger] self.rows()[left as int][b],
                    self.rows()[right as int][b],
                    if b < self.collations().len() {
                        self.collations()[b]
                    } else {
                        Collation::Binary
                    },
                ) is Equal) implies {
            let found = value_order(
                #[trigger] self.rows()[left as int][column],
                self.rows()[right as int][column],
                if column < self.collations().len() {
                    self.collations()[column]
                } else {
                    Collation::Binary
                },
            );
            let turned = column < self.directions().len() && self.directions()[column];
            let order = entry_order(
                self.rows(),
                self.width(),
                self.collations(),
                self.directions(),
                left as int,
                right as int,
            );
            &&& found is Less && !turned ==> order is Less
            &&& found is Greater && !turned ==> order is Greater
            &&& found is Less && turned ==> order is Greater
            &&& found is Greater && turned ==> order is Less
        } by {
            rows_stand_by_their_first_difference(
                self.rows()[left as int],
                self.rows()[right as int],
                self.collations(),
                self.directions(),
                column,
                self.width() as int,
            );
        }
    }

    /// Orders two entries column by column, and then by which was pushed first.
    fn by_columns(&self, left: u32, right: u32) -> (order: Order)
        requires
            self.wf(),
            left < self.rows().len(),
            right < self.rows().len(),
        ensures
            order == entry_order(
                self.rows(),
                self.width(),
                self.collations(),
                self.directions(),
                left as int,
                right as int,
            ),
    {
        let ghost one = self.rows()[left as int];
        let ghost two = self.rows()[right as int];
        for column in 0..self.width
            invariant
                self.wf(),
                left < self.rows().len(),
                right < self.rows().len(),
                one == self.rows()[left as int],
                two == self.rows()[right as int],
                row_order(one, two, self.collations@, self.directions@, column as int) is Equal,
        {
            let collation: Collation = if column < self.collations.len() {
                self.collations[column]
            } else {
                Collation::Binary
            };
            proof {
                cell_in_table(
                    left as int,
                    column as int,
                    self.width as int,
                    self.rows().len() as int,
                );
                cell_in_table(
                    right as int,
                    column as int,
                    self.width as int,
                    self.rows().len() as int,
                );
            }
            let mut order = compare_under(
                &self.datum(left as usize, column),
                &self.datum(right as usize, column),
                collation,
            );
            if column < self.directions.len() && self.directions[column] {
                order = order.reverse();
            }
            assert(order == row_order(one, two, self.collations@, self.directions@, column + 1));
            if order != Order::Equal {
                proof {
                    decided_stays(
                        one,
                        two,
                        self.collations@,
                        self.directions@,
                        column + 1,
                        self.width as int,
                    );
                }
                return order;
            }
        }
        if left < right {
            Order::Less
        } else if left > right {
            Order::Greater
        } else {
            Order::Equal
        }
    }

    /// Orders two entries the way the tree they are building compares them.
    ///
    /// Every column is compared under its collation and in its direction, and
    /// entries alike in all of them stand in the order they were pushed.
    pub fn compare(&self, left: u32, right: u32) -> (order: Order)
        requires
            self.wf(),
            left < self.rows().len(),
            right < self.rows().len(),
        ensures
            order == entry_order(
                self.rows(),
                self.width(),
                self.collations(),
                self.directions(),
                left as int,
                right as int,
            ),
            forall|column: int|
                0 <= column < self.width() && (forall|b: int|
                    0 <= b < column ==> value_order(
                        #[trigger] self.rows()[left as int][b],
                        self.rows()[right as int][b],
                        if b < self.collations().len() {
                            self.collations()[b]
                        } else {
                            Collation::Binary
                        },
                    ) is Equal) ==> {
                    let found = value_order(
                        #[trigger] self.rows()[left as int][column],
                        self.rows()[right as int][column],
                        if column < self.collations().len() {
                            self.collations()[column]
                        } else {
                            Collation::Binary
                        },
                    );
                    let turned = column < self.directions().len() && self.directions()[column];
                    &&& found is Less && !turned ==> order is Less
                    &&& found is Greater && !turned ==> order is Greater
                    &&& found is Less && turned ==> order is Greater
                    &&& found is Greater && turned ==> order is Less
                },
    {
        let order = self.by_columns(left, right);
        proof {
            self.compared_by_columns(left, right);
        }
        order
    }

    /// Drops everything only the sort reads, before the pack that follows it.
    pub fn release_sort_scratch(&mut self)
        requires
            old(self).wf(),
        ensures
            final(self).wf(),
            final(self).width() == old(self).width(),
            final(self).encoding() == old(self).encoding(),
            final(self).collations() == old(self).collations(),
            final(self).directions() == old(self).directions(),
            final(self).rows() == old(self).rows(),
            final(self).arena() == old(self).arena(),
            final(self).words_held() == 0,
            final(self).buffered() == 0,
            final(self).sortable() <==> old(self).rows().len() == 0,
    {
        let ghost before = *self;
        self.prefix = Vec::new();
        self.scratch = Vec::new();
        proof {
            assert forall|entry: int| self.row(entry) == before.row(entry) by {
                assert(self.row(entry) =~= before.row(entry));
            }
            assert(self.rows() =~= before.rows());
            assert forall|entry: int| 0 <= entry < self.count() implies keyable(
                KeyEncoding::General,
                #[trigger] self.row(entry),
                self.width as int,
            ) by {
                assert(keyable(KeyEncoding::General, before.row(entry), before.width as int));
            }
        }
    }
}

/// Whether positions from one place to another are one run still to be placed.
spec fn covers(run: (usize, usize, usize), i: int, j: int) -> bool {
    run.0 <= i && j < run.1
}

/// Whether an entry stood somewhere in a run.
spec fn stood_within(before: Seq<u32>, entry: u32, from: int, to: int) -> bool {
    exists|m: int| from <= m < to && #[trigger] before[m] == entry
}

/// How much work the runs still to be placed are.
spec fn work(pending: Seq<(usize, usize, usize)>) -> int
    decreases pending.len(),
{
    if pending.len() == 0 {
        0
    } else {
        let run = pending.last();
        work(pending.drop_last()) + (run.1 - run.0) * (3 - run.2)
    }
}

/// Work is never negative.
proof fn work_is_owed(pending: Seq<(usize, usize, usize)>)
    requires
        forall|k: int|
            0 <= k < pending.len() ==> (#[trigger] pending[k]).0 <= pending[k].1 && pending[k].2
                <= 2,
    ensures
        work(pending) >= 0,
    decreases pending.len(),
{
    if pending.len() > 0 {
        work_is_owed(pending.drop_last());
        let run = pending.last();
        assert(pending[pending.len() - 1] == run);
        assert((run.1 - run.0) * (3 - run.2) >= 0) by (nonlinear_arith)
            requires
                run.0 <= run.1,
                run.2 <= 2,
        ;
    }
}

impl Ranking<u32> for EntrySet {
    open spec fn ranks(&self, position: u32) -> bool {
        self.wf() && position < self.rows().len()
    }

    open spec fn precedes(&self, left: u32, right: u32) -> bool {
        entry_order(
            self.rows(),
            self.width(),
            self.collations(),
            self.directions(),
            left as int,
            right as int,
        ) is Less
    }

    proof fn irreflexive(&self, position: u32) {
        self.codes_tell(KeyEncoding::General, position as int, position as int);
    }

    proof fn transitive(&self, left: u32, middle: u32, right: u32) {
        let general = KeyEncoding::General;
        let a = left as int;
        let b = middle as int;
        let c = right as int;
        self.codes_tell(general, a, b);
        self.codes_tell(general, b, c);
        self.codes_tell(general, a, c);
        let one = self.code_in(general, a);
        let two = self.code_in(general, b);
        let three = self.code_in(general, c);
        if byte_order(one, two) is Less && byte_order(two, three) is Less {
            byte_order_carries(one, two, three);
        }
    }

    proof fn total(&self, left: u32, right: u32) {
        let general = KeyEncoding::General;
        self.codes_tell(general, left as int, right as int);
        self.codes_tell(general, right as int, left as int);
        byte_order_reversed(
            self.code_in(general, left as int),
            self.code_in(general, right as int),
        );
    }

    fn before(&self, left: u32, right: u32) -> (answer: bool) {
        match self.compare(left, right) {
            Order::Less => true,
            _ => false,
        }
    }
}

impl EntrySet {
    /// Two entries' codes are in the order of their columns.
    proof fn codes_tell(&self, encoding: KeyEncoding, left: int, right: int)
        requires
            self.wf(),
            self.all_keyable(encoding),
            0 <= left < self.rows().len(),
            0 <= right < self.rows().len(),
        ensures
            ({
                let order = row_order(
                    self.rows()[left],
                    self.rows()[right],
                    self.collations@,
                    self.directions@,
                    self.width as int,
                );
                let one = self.code_in(encoding, left);
                let two = self.code_in(encoding, right);
                &&& tells(one, two, order)
                &&& byte_order(one, two) == order
                &&& order is Equal ==> one == two
            }),
    {
        let order = row_order(
            self.rows()[left],
            self.rows()[right],
            self.collations@,
            self.directions@,
            self.width as int,
        );
        assert(keyable(encoding, self.row(left), self.width as int));
        assert(keyable(encoding, self.row(right), self.width as int));
        row_codes_tell(
            encoding,
            self.row(left),
            self.row(right),
            self.collations@,
            self.directions@,
            self.width as int,
        );
        telling_is_byte_order(
            self.code_in(encoding, left),
            self.code_in(encoding, right),
            order,
        );
    }

    /// An entry's word at a level.
    spec fn word_at(&self, entry: int, word: int) -> u64 {
        if self.prefix@.len() == 0 {
            0
        } else {
            self.prefix@[2 * entry + word]
        }
    }

    /// Whether two entries have the same words up to a level.
    spec fn tied(&self, left: int, right: int, level: int) -> bool {
        forall|word: int|
            0 <= word < level ==> self.word_at(left, word) == self.word_at(right, word)
    }

    /// Of two entries tied up to a level, the one with the lower word comes first.
    proof fn lower_word_precedes(&self, left: u32, right: u32, level: int)
        requires
            self.wf(),
            left < self.rows().len(),
            right < self.rows().len(),
            0 <= level < 2,
            self.tied(left as int, right as int, level),
            self.word_at(left as int, level) < self.word_at(right as int, level),
        ensures
            self.precedes(left, right),
    {
        let a = left as int;
        let b = right as int;
        let one = self.code(a);
        let two = self.code(b);
        self.codes_tell(self.encoding, a, b);
        let order = row_order(
            self.rows()[a],
            self.rows()[b],
            self.collations@,
            self.directions@,
            self.width as int,
        );
        assert(span(8) == 0x1_0000_0000_0000_0000) by {
            reveal_with_fuel(span, 9);
        }
        let here = self.prefix@[2 * a + level];
        let there = self.prefix@[2 * b + level];
        big_endian_tells(here as nat, there as nat, 8);
        let w1 = window(one, level);
        let w2 = window(two, level);
        assert(big_endian(here as nat, 8) == w1);
        assert(big_endian(there as nat, 8) == w2);
        let at = choose|at: int| #[trigger] part_at(w1, w2, at) && w1[at] < w2[at];
        assert forall|i: int| 0 <= i < 8 * level + at implies filled(one, i) == filled(two, i) by {
            if i < 8 * level {
                assert(level == 1);
                assert(self.word_at(a, 0) == self.word_at(b, 0));
                assert(big_endian(self.prefix@[2 * a + 0] as nat, 8) == window(one, 0));
                assert(big_endian(self.prefix@[2 * b + 0] as nat, 8) == window(two, 0));
                assert(window(one, 0)[i] == window(two, 0)[i]);
            } else {
                assert(w1[i - 8 * level] == w2[i - 8 * level]);
            }
        }
        assert(w1[at] == filled(one, 8 * level + at));
        assert(w2[at] == filled(two, 8 * level + at));
        words_tell(one, two, order, 8 * level + at);
    }

    /// Whether a list places entries, and none twice.
    spec fn places(&self, ranked: Seq<u32>) -> bool {
        &&& ranked.len() == self.rows().len()
        &&& ranked.no_duplicates()
        &&& forall|i: int| 0 <= i < ranked.len() ==> #[trigger] ranked[i] < self.rows().len()
    }

    /// Whether every two positions are placed or in one run still to be placed.
    spec fn placed_but(&self, ranked: Seq<u32>, pending: Seq<(usize, usize, usize)>) -> bool {
        forall|i: int, j: int|
            0 <= i < j < ranked.len() ==> self.precedes(#[trigger] ranked[i], #[trigger] ranked[j])
                || exists|k: int| 0 <= k < pending.len() && covers(#[trigger] pending[k], i, j)
    }

    /// Whether the runs are inside the list, apart from one another, and tied up
    /// to their levels.
    spec fn runs_fit(&self, ranked: Seq<u32>, pending: Seq<(usize, usize, usize)>) -> bool {
        &&& forall|k: int|
            0 <= k < pending.len() ==> (#[trigger] pending[k]).0 <= pending[k].1 <= ranked.len()
                && pending[k].2 <= 2
        &&& forall|k: int, m: int|
            0 <= k < m < pending.len() ==> (#[trigger] pending[k]).1 <= (#[trigger] pending[m]).0
                || pending[m].1 <= pending[k].0
        &&& forall|k: int, i: int, j: int|
            0 <= k < pending.len() && (#[trigger] pending[k]).0 <= i < pending[k].1 && pending[k].0
                <= j < pending[k].1 ==> self.tied(
                #[trigger] ranked[i] as int,
                #[trigger] ranked[j] as int,
                pending[k].2 as int,
            )
    }

    /// Whether one list is another with only the positions of a run rearranged.
    spec fn rearranges(&self, before: Seq<u32>, after: Seq<u32>, from: int, to: int) -> bool {
        &&& after.len() == before.len()
        &&& after.no_duplicates()
        &&& forall|i: int|
            0 <= i < after.len() && !(from <= i < to) ==> #[trigger] after[i] == before[i]
        &&& forall|i: int|
            from <= i < to ==> stood_within(before, #[trigger] after[i], from, to)
    }

    /// Rearranging a run keeps everything that is said of the positions outside
    /// it.
    proof fn rearranging_keeps(
        &self,
        before: Seq<u32>,
        after: Seq<u32>,
        run: (usize, usize, usize),
        rest: Seq<(usize, usize, usize)>,
    )
        requires
            self.wf(),
            self.places(before),
            self.placed_but(before, rest.push(run)),
            self.runs_fit(before, rest.push(run)),
            self.rearranges(before, after, run.0 as int, run.1 as int),
        ensures
            self.places(after),
            self.runs_fit(after, rest),
            forall|i: int, j: int|
                0 <= i < j < after.len() ==> self.precedes(
                    #[trigger] after[i],
                    #[trigger] after[j],
                ) || covers(run, i, j) || exists|k: int|
                    0 <= k < rest.len() && covers(#[trigger] rest[k], i, j),
            forall|i: int, j: int|
                run.0 <= i < run.1 && run.0 <= j < run.1 ==> self.tied(
                    #[trigger] after[i] as int,
                    #[trigger] after[j] as int,
                    run.2 as int,
                ),
    {
        let all = rest.push(run);
        let from = run.0 as int;
        let to = run.1 as int;
        assert(all[rest.len() as int] == run);
        assert forall|i: int| 0 <= i < after.len() implies #[trigger] after[i]
            < self.rows().len() by {
            if from <= i < to {
                let m = choose|m: int| from <= m < to && #[trigger] before[m] == after[i];
                assert(before[m] < self.rows().len());
            } else {
                assert(after[i] == before[i]);
            }
        }
        assert forall|i: int, j: int| from <= i < to && from <= j < to implies self.tied(
            #[trigger] after[i] as int,
            #[trigger] after[j] as int,
            run.2 as int,
        ) by {
            let m = choose|m: int| from <= m < to && #[trigger] before[m] == after[i];
            let n = choose|n: int| from <= n < to && #[trigger] before[n] == after[j];
            assert(self.tied(before[m] as int, before[n] as int, all[rest.len() as int].2 as int));
        }
        assert forall|k: int| 0 <= k < rest.len() implies (#[trigger] rest[k]).0 <= rest[k].1
            <= after.len() && rest[k].2 <= 2 && (rest[k].1 <= from || to <= rest[k].0) by {
            assert(all[k] == rest[k]);
            assert(all[k].1 <= all[rest.len() as int].0 || all[rest.len() as int].1 <= all[k].0);
        }
        assert forall|k: int, m: int| 0 <= k < m < rest.len() implies (#[trigger] rest[k]).1 <= (
        #[trigger] rest[m]).0 || rest[m].1 <= rest[k].0 by {
            assert(all[k] == rest[k] && all[m] == rest[m]);
        }
        assert forall|k: int, i: int, j: int|
            0 <= k < rest.len() && (#[trigger] rest[k]).0 <= i < rest[k].1 && rest[k].0 <= j
                < rest[k].1 implies self.tied(
            #[trigger] after[i] as int,
            #[trigger] after[j] as int,
            rest[k].2 as int,
        ) by {
            assert(all[k] == rest[k]);
            assert(after[i] == before[i] && after[j] == before[j]);
            assert(self.tied(before[i] as int, before[j] as int, all[k].2 as int));
        }
        assert forall|i: int, j: int| 0 <= i < j < after.len() implies self.precedes(
            #[trigger] after[i],
            #[trigger] after[j],
        ) || covers(run, i, j) || exists|k: int|
            0 <= k < rest.len() && covers(#[trigger] rest[k], i, j) by {
            if !covers(run, i, j) {
                let p = if from <= i < to {
                    choose|m: int| from <= m < to && #[trigger] before[m] == after[i]
                } else {
                    i
                };
                let q = if from <= j < to {
                    choose|m: int| from <= m < to && #[trigger] before[m] == after[j]
                } else {
                    j
                };
                assert(after[i] == before[p] && after[j] == before[q]);
                assert(0 <= p < q < before.len());
                if !self.precedes(before[p], before[q]) {
                    let k = choose|k: int| 0 <= k < all.len() && covers(#[trigger] all[k], p, q);
                    if k < rest.len() {
                        assert(rest[k] == all[k]);
                        assert(p == i && q == j);
                        assert(covers(rest[k], i, j));
                    }
                }
            }
        }
    }

    /// Puts one run into the order of the comparison.
    fn sort_run(&self, ranked: &mut Vec<u32>, from: usize, to: usize)
        requires
            self.wf(),
            self.places(old(ranked)@),
            from <= to <= old(ranked)@.len(),
        ensures
            self.rearranges(old(ranked)@, final(ranked)@, from as int, to as int),
            forall|i: int, j: int|
                from <= i < j < to ==> self.precedes(
                    #[trigger] final(ranked)@[i],
                    #[trigger] final(ranked)@[j],
                ),
    {
        let ghost before = ranked@;
        let mut run: Vec<u32> = Vec::with_capacity(to - from);
        for at in from..to
            invariant
                from <= to <= ranked@.len(),
                ranked@ == before,
                run@ =~= before.subrange(from as int, at as int),
        {
            run.push(ranked[at]);
        }
        proof {
            assert forall|i: int| 0 <= i < run@.len() implies self.ranks(#[trigger] run@[i]) by {
                assert(run@[i] == before[from + i]);
            }
            assert(run@.no_duplicates()) by {
                assert forall|i: int, j: int|
                    0 <= i < run@.len() && 0 <= j < run@.len() && i != j implies run@[i]
                    != run@[j] by {
                    assert(run@[i] == before[from + i] && run@[j] == before[from + j]);
                }
            }
        }
        let placed = sorted(self, &run);
        for offset in 0..placed.len()
            invariant
                from <= to <= before.len(),
                placed@.len() == to - from,
                ranked@.len() == before.len(),
                forall|i: int|
                    0 <= i < before.len() && !(from <= i < from + offset) ==> #[trigger] ranked@[i]
                        == before[i],
                forall|i: int|
                    from <= i < from + offset ==> #[trigger] ranked@[i] == placed@[i - from],
        {
            ranked.set(from + offset, placed[offset]);
        }
        proof {
            assert forall|i: int| from <= i < to implies stood_within(
                before,
                #[trigger] ranked@[i],
                from as int,
                to as int,
            ) by {
                same_holdings(placed@, run@, i - from);
                let found = choose|m: int| 0 <= m < run@.len() && run@[m] == placed@[i - from];
                assert(before[from + found] == ranked@[i]);
            }
            assert forall|i: int, j: int| from <= i < j < to implies self.precedes(
                #[trigger] ranked@[i],
                #[trigger] ranked@[j],
            ) by {
                assert(self.precedes(placed@[i - from], placed@[j - from]));
            }
            assert forall|i: int, j: int|
                0 <= i < ranked@.len() && 0 <= j < ranked@.len() && i != j implies ranked@[i]
                != ranked@[j] by {
                if from <= i < to && from <= j < to {
                    if i < j {
                        assert(self.precedes(placed@[i - from], placed@[j - from]));
                    } else {
                        assert(self.precedes(placed@[j - from], placed@[i - from]));
                    }
                    assert(self.ranks(placed@[i - from]));
                    self.irreflexive(placed@[i - from]);
                } else if from <= i < to {
                    let m = choose|m: int| from <= m < to && #[trigger] before[m] == ranked@[i];
                    assert(ranked@[j] == before[j]);
                } else if from <= j < to {
                    let m = choose|m: int| from <= m < to && #[trigger] before[m] == ranked@[j];
                    assert(ranked@[i] == before[i]);
                } else {
                    assert(ranked@[i] == before[i] && ranked@[j] == before[j]);
                }
            }
            assert(ranked@.no_duplicates());
            assert(self.rearranges(before, ranked@, from as int, to as int));
        }
    }

    /// Puts one run into the order of one of its words.
    fn count_run(
        &self,
        ranked: &mut Vec<u32>,
        pairs: &mut Vec<(u64, u32)>,
        scratch: &mut Vec<(u64, u32)>,
        from: usize,
        to: usize,
        level: usize,
    )
        requires
            self.wf(),
            self.places(old(ranked)@),
            from <= to <= old(ranked)@.len(),
            level < 2,
        ensures
            self.rearranges(old(ranked)@, final(ranked)@, from as int, to as int),
            final(pairs)@.len() == to - from,
            forall|i: int|
                from <= i < to ==> (#[trigger] final(ranked)@[i]) == final(pairs)@[i - from].1,
            forall|i: int|
                from <= i < to ==> self.word_at(
                    (#[trigger] final(ranked)@[i]) as int,
                    level as int,
                ) == final(pairs)@[i - from].0,
            forall|i: int, j: int|
                0 <= i < j < to - from ==> (#[trigger] final(pairs)@[i]).0 <= (
                #[trigger] final(pairs)@[j]).0,
    {
        let ghost before = ranked@;
        pairs.clear();
        for at in from..to
            invariant
                self.wf(),
                self.places(before),
                from <= to <= ranked@.len(),
                level < 2,
                ranked@ == before,
                pairs@.len() == at - from,
                forall|i: int|
                    #![trigger pairs@[i]]
                    0 <= i < at - from ==> pairs@[i].1 == before[from + i] && pairs@[i].0
                        == self.word_at(before[from + i] as int, level as int),
        {
            let entry: u32 = ranked[at];
            pairs.push((self.word(entry as usize, level), entry));
        }
        let ghost gathered = pairs@;
        radix_by_word(pairs, scratch);
        let ghost places = choose|places: Seq<int>| #[trigger]
            stably_sorted(gathered, pairs@, places);
        for offset in 0..pairs.len()
            invariant
                from <= to <= before.len(),
                pairs@.len() == to - from,
                ranked@.len() == before.len(),
                forall|i: int|
                    0 <= i < before.len() && !(from <= i < from + offset) ==> #[trigger] ranked@[i]
                        == before[i],
                forall|i: int|
                    from <= i < from + offset ==> #[trigger] ranked@[i] == pairs@[i - from].1,
        {
            ranked.set(from + offset, pairs[offset].1);
        }
        proof {
            assert forall|i: int| from <= i < to implies (#[trigger] ranked@[i]) == before[from
                + places[i - from]] && from <= from + places[i - from] < to && self.word_at(
                ranked@[i] as int,
                level as int,
            ) == pairs@[i - from].0 by {
                let p = places[i - from];
                assert(pairs@[i - from] == gathered[p]);
            }
            assert forall|i: int| from <= i < to implies stood_within(
                before,
                #[trigger] ranked@[i],
                from as int,
                to as int,
            ) by {
                assert(ranked@[i] == before[from + places[i - from]]);
            }
            assert forall|i: int, j: int|
                0 <= i < ranked@.len() && 0 <= j < ranked@.len() && i != j implies ranked@[i]
                != ranked@[j] by {
                let p = if from <= i < to {
                    from + places[i - from]
                } else {
                    i
                };
                let q = if from <= j < to {
                    from + places[j - from]
                } else {
                    j
                };
                assert(ranked@[i] == before[p] && ranked@[j] == before[q]);
                if from <= i < to && from <= j < to {
                    assert(places[i - from] != places[j - from]);
                }
                assert(p != q);
            }
            assert(ranked@.no_duplicates());
            assert(self.rearranges(before, ranked@, from as int, to as int));
            assert forall|i: int, j: int| 0 <= i < j < to - from implies (#[trigger] pairs@[i]).0
                <= (#[trigger] pairs@[j]).0 by {
                assert(pairs@[i].0 < pairs@[j].0 || (pairs@[i].0 == pairs@[j].0 && places[i]
                    < places[j]));
            }
        }
    }
}

impl EntrySet {
    /// Hands the entries one word could not tell apart to the next word.
    fn split_ties(
        &self,
        ranked: &Vec<u32>,
        pairs: &Vec<(u64, u32)>,
        pending: &mut Vec<(usize, usize, usize)>,
        from: usize,
        to: usize,
        level: usize,
    )
        requires
            self.wf(),
            self.places(ranked@),
            from <= to <= ranked@.len(),
            level < 2,
            pairs@.len() == to - from,
            forall|i: int|
                from <= i < to ==> self.word_at((#[trigger] ranked@[i]) as int, level as int)
                    == pairs@[i - from].0,
            forall|i: int, j: int|
                0 <= i < j < to - from ==> (#[trigger] pairs@[i]).0 <= (#[trigger] pairs@[j]).0,
            forall|i: int, j: int|
                from <= i < to && from <= j < to ==> self.tied(
                    #[trigger] ranked@[i] as int,
                    #[trigger] ranked@[j] as int,
                    level as int,
                ),
        ensures
            old(pending)@.len() <= final(pending)@.len(),
            old(pending)@ =~= final(pending)@.take(old(pending)@.len() as int),
            self.splits(
                ranked@,
                final(pending)@,
                old(pending)@.len() as int,
                from as int,
                to as int,
                to as int,
                level as int,
            ),
            work(final(pending)@) <= work(old(pending)@) + (to - from) * (2 - level),
    {
        let ghost rest = pending@;
        let width: usize = to - from;
        let mut at: usize = 0;
        assert(0 * (2 - level) == 0) by (nonlinear_arith);
        while at < width
            invariant
                self.wf(),
                self.places(ranked@),
                from <= to <= ranked@.len(),
                level < 2,
                width == to - from,
                at <= width,
                pairs@.len() == width,
                forall|i: int|
                    from <= i < to ==> self.word_at((#[trigger] ranked@[i]) as int, level as int)
                        == pairs@[i - from].0,
                forall|i: int, j: int|
                    0 <= i < j < width ==> (#[trigger] pairs@[i]).0 <= (#[trigger] pairs@[j]).0,
                forall|i: int, j: int|
                    from <= i < to && from <= j < to ==> self.tied(
                        #[trigger] ranked@[i] as int,
                        #[trigger] ranked@[j] as int,
                        level as int,
                    ),
                0 < at < width ==> pairs@[at - 1].0 < pairs@[at as int].0,
                rest.len() <= pending@.len(),
                rest =~= pending@.take(rest.len() as int),
                self.splits(
                    ranked@,
                    pending@,
                    rest.len() as int,
                    from as int,
                    to as int,
                    from + at,
                    level as int,
                ),
                work(pending@) <= work(rest) + at * (2 - level),
            decreases width - at,
        {
            let held: u64 = pairs[at].0;
            let mut end: usize = at + 1;
            while end < width && pairs[end].0 == held
                invariant
                    at < end <= width,
                    pairs@.len() == width,
                    held == pairs@[at as int].0,
                    forall|i: int| at <= i < end ==> (#[trigger] pairs@[i]).0 == held,
                decreases width - end,
            {
                end += 1;
            }
            let ghost before = pending@;
            if end - at > 1 {
                pending.push((from + at, from + end, level + 1));
                proof {
                    assert(pending@.drop_last() =~= before);
                }
            }
            proof {
                let last = before.len() as int;
                assert(rest =~= pending@.take(rest.len() as int));
                assert forall|k: int| 0 <= k < before.len() implies #[trigger] pending@[k]
                    == before[k] by {}
                assert forall|i: int, j: int|
                    from <= i < j < to && i < from + end implies self.precedes(
                    #[trigger] ranked@[i],
                    #[trigger] ranked@[j],
                ) || exists|k: int|
                    rest.len() <= k < pending@.len() && covers(#[trigger] pending@[k], i, j) by {
                    if i < from + at {
                        if !self.precedes(ranked@[i], ranked@[j]) {
                            let k = choose|k: int|
                                rest.len() <= k < before.len()
                                    && covers(#[trigger] before[k], i, j);
                            assert(covers(pending@[k], i, j));
                        }
                    } else if j < from + end {
                        assert(covers(pending@[last], i, j));
                    } else {
                        assert(pairs@[i - from].0 == held);
                        assert(pairs@[end as int].0 != held);
                        if end < j - from {
                            assert(pairs@[end as int].0 <= pairs@[j - from].0);
                        }
                        assert(pairs@[end - 1].0 <= pairs@[end as int].0);
                        self.lower_word_precedes(ranked@[i], ranked@[j], level as int);
                    }
                }
                assert forall|i: int, j: int|
                    from + at <= i < from + end && from + at <= j < from + end implies self.tied(
                    #[trigger] ranked@[i] as int,
                    #[trigger] ranked@[j] as int,
                    level + 1,
                ) by {
                    assert(pairs@[i - from].0 == held && pairs@[j - from].0 == held);
                    assert(self.tied(ranked@[i] as int, ranked@[j] as int, level as int));
                    assert forall|word: int| 0 <= word < level + 1 implies self.word_at(
                        ranked@[i] as int,
                        word,
                    ) == self.word_at(ranked@[j] as int, word) by {
                        if word == level {
                        }
                    }
                }
                assert(at * (2 - level) + (end - at) * (2 - level) == end * (2 - level))
                    by (nonlinear_arith);
                assert((end - at) * (2 - level) >= 0) by (nonlinear_arith)
                    requires
                        at < end,
                        level < 2,
                ;
                assert(self.splits(
                    ranked@,
                    pending@,
                    rest.len() as int,
                    from as int,
                    to as int,
                    from + end,
                    level as int,
                ));
            }
            at = end;
        }
    }

    /// Whether the runs from one on split a run up to a place by one word.
    spec fn splits(
        &self,
        ranked: Seq<u32>,
        pending: Seq<(usize, usize, usize)>,
        first: int,
        from: int,
        to: int,
        upto: int,
        level: int,
    ) -> bool {
        &&& forall|k: int|
            first <= k < pending.len() ==> from <= (#[trigger] pending[k]).0 && pending[k].0 + 2
                <= pending[k].1 <= upto && pending[k].2 == level + 1
        &&& forall|k: int, m: int|
            first <= k < m < pending.len() ==> (#[trigger] pending[k]).1 <= (
            #[trigger] pending[m]).0
        &&& forall|k: int, i: int, j: int|
            first <= k < pending.len() && (#[trigger] pending[k]).0 <= i < pending[k].1
                && pending[k].0 <= j < pending[k].1 ==> self.tied(
                #[trigger] ranked[i] as int,
                #[trigger] ranked[j] as int,
                level + 1,
            )
        &&& forall|i: int, j: int|
            from <= i < j < to && i < upto ==> self.precedes(
                #[trigger] ranked[i],
                #[trigger] ranked[j],
            ) || exists|k: int|
                first <= k < pending.len() && covers(#[trigger] pending[k], i, j)
    }

    /// Returns the entries in key order.
    ///
    /// A radix pass over one word at a time, then the tree's own comparison for
    /// what ties. Each level sorts a run by one word and hands the entries it
    /// could not tell apart to the next; what is tied after the last, or is too
    /// short to be worth counting, is compared by value. An order names entries by
    /// four-byte numbers, so it is given of no more than those can name.
    pub fn order(&self) -> (placed: Vec<u32>)
        requires
            self.wf(),
            self.rows().len() <= u32::MAX,
        ensures
            key_ordered(
                self.rows(),
                self.width(),
                self.collations(),
                self.directions(),
                placed@,
            ),
    {
        let count: usize = self.len();
        let mut ranked: Vec<u32> = Vec::with_capacity(count);
        for entry in 0..count
            invariant
                count == self.rows().len(),
                count <= u32::MAX,
                ranked@.len() == entry,
                forall|i: int| 0 <= i < entry ==> #[trigger] ranked@[i] == i,
        {
            ranked.push(entry as u32);
        }
        assert(self.places(ranked@));
        if count < 2 {
            return ranked;
        }
        let mut pairs: Vec<(u64, u32)> = Vec::with_capacity(count);
        let mut scratch: Vec<(u64, u32)> = Vec::with_capacity(count);
        let mut pending: Vec<(usize, usize, usize)> = Vec::new();
        pending.push((0, count, 0));
        proof {
            assert forall|i: int, j: int| 0 <= i < j < ranked@.len() implies self.precedes(
                #[trigger] ranked@[i],
                #[trigger] ranked@[j],
            ) || exists|k: int| 0 <= k < pending@.len() && covers(#[trigger] pending@[k], i, j) by {
                assert(covers(pending@[0], i, j));
            }
        }
        while pending.len() > 0
            invariant
                self.wf(),
                self.places(ranked@),
                self.placed_but(ranked@, pending@),
                self.runs_fit(ranked@, pending@),
                forall|k: int|
                    0 <= k < pending@.len() ==> (#[trigger] pending@[k]).0 + 2 <= pending@[k].1,
            decreases work(pending@),
        {
            let ghost all = pending@;
            let ghost before = ranked@;
            let last: usize = pending.len() - 1;
            let (from, to, level) = pending[last];
            pending.truncate(last);
            let ghost run = (from, to, level);
            let ghost rest = pending@;
            let width: usize = to - from;
            proof {
                assert(all =~= rest.push(run));
                assert(all.drop_last() =~= rest);
                assert(all[last as int] == run);
                work_is_owed(all);
                assert forall|k: int| 0 <= k < rest.len() implies (#[trigger] rest[k]).0
                    <= rest[k].1 && rest[k].2 <= 2 by {
                    assert(rest[k] == all[k]);
                }
                work_is_owed(rest);
                assert(width * (3 - level) > 0) by (nonlinear_arith)
                    requires
                        width >= 2,
                        level <= 2,
                ;
            }
            if width < COMPARE_BELOW || level >= PREFIX_WORDS {
                self.sort_run(&mut ranked, from, to);
                proof {
                    self.rearranging_keeps(before, ranked@, run, rest);
                    assert forall|i: int, j: int| 0 <= i < j < ranked@.len() implies self.precedes(
                        #[trigger] ranked@[i],
                        #[trigger] ranked@[j],
                    ) || exists|k: int|
                        0 <= k < pending@.len() && covers(#[trigger] pending@[k], i, j) by {
                        if covers(run, i, j) {
                            assert(self.precedes(ranked@[i], ranked@[j]));
                        }
                    }
                }
            } else {
                self.count_run(&mut ranked, &mut pairs, &mut scratch, from, to, level);
                proof {
                    self.rearranging_keeps(before, ranked@, run, rest);
                }
                self.split_ties(&ranked, &pairs, &mut pending, from, to, level);
                proof {
                    self.splitting_places(ranked@, run, rest, pending@);
                    work_is_owed(pending@);
                    assert(width * (2 - level) < width * (3 - level)) by (nonlinear_arith)
                        requires
                            width >= 2,
                    ;
                }
            }
        }
        ranked
    }

    /// A run split by a word leaves every two positions placed or in a run.
    proof fn splitting_places(
        &self,
        ranked: Seq<u32>,
        run: (usize, usize, usize),
        rest: Seq<(usize, usize, usize)>,
        pending: Seq<(usize, usize, usize)>,
    )
        requires
            self.places(ranked),
            run.0 <= run.1 <= ranked.len(),
            run.2 < 2,
            self.runs_fit(ranked, rest),
            forall|k: int|
                0 <= k < rest.len() ==> (#[trigger] rest[k]).0 + 2 <= rest[k].1 && (rest[k].1
                    <= run.0 || run.1 <= rest[k].0),
            forall|i: int, j: int|
                0 <= i < j < ranked.len() ==> self.precedes(
                    #[trigger] ranked[i],
                    #[trigger] ranked[j],
                ) || covers(run, i, j) || exists|k: int|
                    0 <= k < rest.len() && covers(#[trigger] rest[k], i, j),
            rest.len() <= pending.len(),
            rest =~= pending.take(rest.len() as int),
            self.splits(
                ranked,
                pending,
                rest.len() as int,
                run.0 as int,
                run.1 as int,
                run.1 as int,
                run.2 as int,
            ),
        ensures
            self.placed_but(ranked, pending),
            self.runs_fit(ranked, pending),
            forall|k: int| 0 <= k < pending.len() ==> (#[trigger] pending[k]).0 + 2 <= pending[k].1,
    {
        let first = rest.len() as int;
        assert forall|k: int| 0 <= k < first implies #[trigger] pending[k] == rest[k] by {}
        assert forall|i: int, j: int| 0 <= i < j < ranked.len() implies self.precedes(
            #[trigger] ranked[i],
            #[trigger] ranked[j],
        ) || exists|k: int| 0 <= k < pending.len() && covers(#[trigger] pending[k], i, j) by {
            if !self.precedes(ranked[i], ranked[j]) && !covers(run, i, j) {
                let k = choose|k: int| 0 <= k < rest.len() && covers(#[trigger] rest[k], i, j);
                assert(covers(pending[k], i, j));
            }
        }
        assert forall|k: int, m: int| 0 <= k < m < pending.len() implies (#[trigger] pending[k]).1
            <= (#[trigger] pending[m]).0 || pending[m].1 <= pending[k].0 by {
            if m < first {
                assert(pending[k] == rest[k] && pending[m] == rest[m]);
            } else if k < first {
                assert(pending[k] == rest[k]);
            }
        }
        assert forall|k: int, i: int, j: int|
            0 <= k < pending.len() && (#[trigger] pending[k]).0 <= i < pending[k].1
                && pending[k].0 <= j < pending[k].1 implies self.tied(
            #[trigger] ranked[i] as int,
            #[trigger] ranked[j] as int,
            pending[k].2 as int,
        ) by {
            if k < first {
                assert(pending[k] == rest[k]);
            }
        }
    }

    /// Reports whether two neighbours in key order share their leading columns.
    ///
    /// A NULL is distinct from every other NULL, so an entry holding one in the
    /// columns compared is never a duplicate.
    pub fn shares_key_prefix(&self, order: &[u32], at: usize, compared: usize) -> (answer: bool)
        requires
            self.wf(),
        ensures
            answer == (at + 1 < order@.len() && forall|column: int|
                0 <= column < compared ==> #[trigger] duplicates(
                    self.rows(),
                    self.width(),
                    self.collations(),
                    order@[at as int] as int,
                    order@[at + 1] as int,
                    column,
                )),
    {
        if order.len() < 2 || at >= order.len() - 1 {
            return false;
        }
        let left: u32 = order[at];
        let right: u32 = order[at + 1];
        for column in 0..compared
            invariant
                self.wf(),
                at + 1 < order@.len(),
                left == order@[at as int],
                right == order@[at + 1],
                forall|c: int|
                    0 <= c < column ==> #[trigger] duplicates(
                        self.rows(),
                        self.width(),
                        self.collations(),
                        left as int,
                        right as int,
                        c,
                    ),
        {
            let one = self.datum(left as usize, column);
            let two = self.datum(right as usize, column);
            let collation: Collation = if column < self.collations.len() {
                self.collations[column]
            } else {
                Collation::Binary
            };
            let order = compare_under(&one, &two, collation);
            if matches!(one, Datum::Null) || order != Order::Equal {
                assert(!duplicates(
                    self.rows(),
                    self.width(),
                    self.collations(),
                    left as int,
                    right as int,
                    column as int,
                ));
                return false;
            }
        }
        true
    }

    /// Writes the entries out as values, one entry after another.
    pub fn to_datums(&self, order: &[u32]) -> (flat: Vec<Datum<'_>>)
        requires
            self.wf(),
        ensures
            flat@.len() == order@.len() * self.width(),
            forall|i: int, column: int|
                0 <= i < order@.len() && 0 <= column < self.width() ==> (
                #[trigger] flat@[i * self.width() + column])@ == run_on(
                    self.rows(),
                    self.width(),
                    order@[i] as int,
                    column,
                ),
    {
        let width: usize = self.width;
        let mut flat: Vec<Datum<'_>> = Vec::new();
        assert(0 * width == 0) by (nonlinear_arith);
        for at in 0..order.len()
            invariant
                self.wf(),
                width == self.width,
                flat@.len() == at * width,
                forall|i: int, column: int|
                    0 <= i < at && 0 <= column < width ==> (
                    #[trigger] flat@[i * width + column])@ == run_on(
                        self.rows(),
                        width as nat,
                        order@[i] as int,
                        column,
                    ),
        {
            let ghost before = flat@;
            for column in 0..width
                invariant
                    self.wf(),
                    at < order@.len(),
                    width == self.width,
                    before.len() == at * width,
                    flat@.len() == before.len() + column,
                    forall|i: int| 0 <= i < before.len() ==> flat@[i] == before[i],
                    forall|c: int|
                        0 <= c < column ==> (#[trigger] flat@[before.len() + c])@ == run_on(
                            self.rows(),
                            width as nat,
                            order@[at as int] as int,
                            c,
                        ),
            {
                flat.push(self.datum(order[at] as usize, column));
            }
            proof {
                assert((at + 1) * width == at * width + width) by (nonlinear_arith);
                assert forall|i: int, column: int|
                    0 <= i < at + 1 && 0 <= column < width implies (
                #[trigger] flat@[i * width + column])@ == run_on(
                    self.rows(),
                    width as nat,
                    order@[i] as int,
                    column,
                ) by {
                    if i < at {
                        cell_in_table(i, column, width as int, at as int);
                        assert(flat@[i * width + column] == before[i * width + column]);
                    } else {
                        assert(flat@[before.len() + column] == flat@[i * width + column]);
                    }
                }
            }
        }
        flat
    }

    /// Returns the set in key order, as rows a leaf builder can pack.
    pub fn in_order<'a>(&'a self, order: &'a [u32]) -> (rows: Ordered<'a>)
        requires
            self.wf(),
        ensures
            rows.set() == self,
            rows.order() == order@,
            rows.wf(),
    {
        Ordered { set: self, order }
    }
}

/// One set of entries read in the order a sort produced.
///
/// It holds no value of its own: a value is a lookup into the arena through the
/// order, which is what lets a build pack a tree without a second copy of its
/// rows.
pub struct Ordered<'a> {
    /// The arena the values live in.
    set: &'a EntrySet,
    /// The entries, in key order.
    order: &'a [u32],
}

impl<'a> Ordered<'a> {
    /// The entries.
    pub closed spec fn set(&self) -> EntrySet {
        *self.set
    }

    /// The order they are read in.
    pub closed spec fn order(&self) -> Seq<u32> {
        self.order@
    }

    /// Whether the entries can be read.
    pub closed spec fn wf(&self) -> bool {
        self.set.wf()
    }

    /// Returns how many rows there are.
    pub fn len(&self) -> (count: usize)
        ensures
            count == self.order().len(),
    {
        self.order.len()
    }

    /// Returns one column of one row, NULL past the last row.
    pub fn value(&self, row: usize, column: usize) -> (value: Datum<'a>)
        requires
            self.wf(),
        ensures
            row < self.order().len() ==> value@ == run_on(
                self.set().rows(),
                self.set().width(),
                self.order()[row as int] as int,
                column as int,
            ),
            row >= self.order().len() ==> value@ is Null,
    {
        if row >= self.order.len() {
            return Datum::Null;
        }
        self.set.datum(self.order[row] as usize, column)
    }
}

/// What is read back of an entry is what was pushed: a column of an entry is the
/// column of its row, wherever in the arena its bytes lie.
pub proof fn an_entry_is_its_row(rows: Seq<Seq<Value>>, width: nat, entry: int, column: int)
    requires
        0 <= entry < rows.len(),
        0 <= column < width,
    ensures
        run_on(rows, width, entry, column) == rows[entry][column],
{
    cell_in_table(entry, column, width as int, rows.len() as int);
}

/// An order places every entry, so a build packs each exactly once.
pub proof fn an_order_places_every_entry(
    rows: Seq<Seq<Value>>,
    width: nat,
    collations: Seq<Collation>,
    directions: Seq<bool>,
    placed: Seq<u32>,
    entry: int,
) -> (at: int)
    requires
        key_ordered(rows, width, collations, directions, placed),
        0 <= entry < rows.len(),
    ensures
        0 <= at < placed.len(),
        placed[at] == entry,
{
    let places = placed.map_values(|position: u32| position as int);
    assert(places.no_duplicates());
    let at = crate::radix::fills_its_range(places, entry);
    assert(places[at] == placed[at] as int);
    at
}

/// The entries of a set stand in one order: none comes before itself, of two one
/// comes before the other and not the other before it, and what comes before an
/// entry comes before what that entry does.
pub proof fn entries_stand_in_one_order(set: EntrySet, one: u32, two: u32, three: u32)
    requires
        set.wf(),
        one < set.rows().len(),
        two < set.rows().len(),
        three < set.rows().len(),
    ensures
        !set.precedes(one, one),
        one != two ==> set.precedes(one, two) != set.precedes(two, one),
        set.precedes(one, two) && set.precedes(two, three) ==> set.precedes(one, three),
{
    set.irreflexive(one);
    if one != two {
        set.total(one, two);
        if set.precedes(one, two) && set.precedes(two, one) {
            set.transitive(one, two, one);
        }
    }
    if set.precedes(one, two) && set.precedes(two, three) {
        set.transitive(one, two, three);
    }
}

/// There is one key order: two lists that place the entries in it are the same
/// list, so what a sort reads to get there changes nothing.
pub proof fn a_key_order_is_the_only_one(set: &EntrySet, one: Seq<u32>, two: Seq<u32>)
    requires
        set.wf(),
        key_ordered(set.rows(), set.width(), set.collations(), set.directions(), one),
        key_ordered(set.rows(), set.width(), set.collations(), set.directions(), two),
    ensures
        one == two,
{
    assert forall|upto: int| 0 <= upto <= one.len() implies #[trigger] one.take(upto) == two.take(
        upto,
    ) by {
        orders_agree(set, one, two, upto);
    }
    assert(one.take(one.len() as int) =~= one);
    assert(two.take(two.len() as int) =~= two);
}

/// Two key orders agree up to any place.
proof fn orders_agree(set: &EntrySet, one: Seq<u32>, two: Seq<u32>, upto: int)
    requires
        set.wf(),
        key_ordered(set.rows(), set.width(), set.collations(), set.directions(), one),
        key_ordered(set.rows(), set.width(), set.collations(), set.directions(), two),
        0 <= upto <= one.len(),
    ensures
        one.take(upto) == two.take(upto),
    decreases upto,
{
    if upto == 0 {
        assert(one.take(0) =~= two.take(0));
    } else {
        let last = upto - 1;
        orders_agree(set, one, two, last);
        assert forall|i: int| 0 <= i < last implies one[i] == two[i] by {
            assert(one.take(last)[i] == two.take(last)[i]);
        }
        if one[last] != two[last] {
            let p = an_order_places_every_entry(
                set.rows(),
                set.width(),
                set.collations(),
                set.directions(),
                two,
                one[last] as int,
            );
            let q = an_order_places_every_entry(
                set.rows(),
                set.width(),
                set.collations(),
                set.directions(),
                one,
                two[last] as int,
            );
            if p < last {
                assert(one[p] == two[p]);
            }
            if q < last {
                assert(one[q] == two[q]);
            }
            assert(set.precedes(one[last], one[q]));
            assert(set.precedes(two[last], two[p]));
            assert(set.ranks(one[last]) && set.ranks(two[last]));
            set.transitive(one[last], two[last], one[last]);
            set.irreflexive(one[last]);
        }
        assert(one.take(upto) =~= one.take(last).push(one[last]));
        assert(two.take(upto) =~= two.take(last).push(two[last]));
    }
}

/// A payload is no longer than all the payloads it is one of.
proof fn payload_bounded(row: Seq<Value>, columns: int, at: int)
    requires
        0 <= at < columns,
    ensures
        payload_of(row[at]) <= payloads(row, columns),
    decreases columns,
{
    if at < columns - 1 {
        payload_bounded(row, columns - 1, at);
    }
}

/// More columns hold no fewer payload bytes.
proof fn payloads_grow(row: Seq<Value>, some: int, more: int)
    requires
        0 <= some <= more,
    ensures
        payloads(row, some) <= payloads(row, more),
    decreases more,
{
    if some < more {
        payloads_grow(row, some, more - 1);
    }
}

/// What a cell holds stays what it was when the arena grows.
proof fn held_stays(cell: Cell, before: Seq<u8>, after: Seq<u8>)
    requires
        inside(cell, before),
        before.len() <= after.len(),
        before =~= after.take(before.len() as int),
    ensures
        inside(cell, after),
        held(cell, after) == held(cell, before),
{
    match cell {
        Cell::Text { at, len } => {
            assert(after.subrange(at as int, at + len) =~= before.subrange(at as int, at + len));
        },
        Cell::Blob { at, len } => {
            assert(after.subrange(at as int, at + len) =~= before.subrange(at as int, at + len));
        },
        _ => {},
    }
}

/// Packs eight bytes of a buffer into a word, zeros past its end.
fn pack(bytes: &Vec<u8>, word: usize) -> (packed: u64)
    requires
        word < 2,
    ensures
        big_endian(packed as nat, 8) == window(bytes@, word as int),
{
    let mut packed: u64 = 0;
    assert(big_endian(0, 0) =~= window(bytes@, word as int).take(0));
    for offset in 0..8usize
        invariant
            word < 2,
            packed < span(offset as nat),
            big_endian(packed as nat, offset as nat) == window(bytes@, word as int).take(
                offset as int,
            ),
    {
        let at: usize = 8 * word + offset;
        let byte: u8 = if at < bytes.len() {
            bytes[at]
        } else {
            0
        };
        proof {
            assert(span(offset as nat) <= span(7) == 0x100_0000_0000_0000) by {
                reveal_with_fuel(span, 8);
                spans_grow(offset as nat, 7);
            }
            assert(packed < 0x100_0000_0000_0000u64
                ==> (packed << 8) | (byte as u64) == packed * 256
                + byte) by (bit_vector);
        }
        let ghost grown = (packed * 256 + byte) as nat;
        packed = (packed << 8) | (byte as u64);
        proof {
            assert(packed == grown);
            assert(packed as nat / 256 == (grown - byte) / 256);
            assert(span((offset + 1) as nat) == 256 * span(offset as nat));
            assert(window(bytes@, word as int).take(offset + 1) =~= window(
                bytes@,
                word as int,
            ).take(offset as int).push(byte));
        }
    }
    assert(window(bytes@, word as int).take(8) =~= window(bytes@, word as int));
    packed
}

/// More bytes write no fewer numbers.
proof fn spans_grow(some: nat, more: nat)
    requires
        some <= more,
    ensures
        0 < span(some) <= span(more),
    decreases more,
{
    if some < more {
        spans_grow(some, (more - 1) as nat);
    } else if some > 0 {
        spans_grow((some - 1) as nat, (some - 1) as nat);
    }
}

/// Entries come in key order: of two entries alike in every column before one, the
/// one that is less in that column comes first where the column ascends, and the one
/// that is greater where it descends; and of two alike in every column, the one that
/// was pushed first.
pub proof fn entries_come_in_key_order(
    rows: Seq<Seq<Value>>,
    width: nat,
    collations: Seq<Collation>,
    directions: Seq<bool>,
    placed: Seq<u32>,
    i: int,
    j: int,
    column: int,
)
    requires
        key_ordered(rows, width, collations, directions, placed),
        0 <= i < j < placed.len(),
        0 <= column <= width,
        forall|b: int|
            0 <= b < column ==> value_order(
                #[trigger] rows[placed[i] as int][b],
                rows[placed[j] as int][b],
                if b < collations.len() {
                    collations[b]
                } else {
                    Collation::Binary
                },
            ) is Equal,
    ensures
        column == width ==> placed[i] < placed[j],
        column < width ==> {
            let found = value_order(
                rows[placed[i] as int][column],
                rows[placed[j] as int][column],
                if column < collations.len() {
                    collations[column]
                } else {
                    Collation::Binary
                },
            );
            if column < directions.len() && directions[column] {
                !(found is Less)
            } else {
                !(found is Greater)
            }
        },
{
    assert(entry_order(
        rows,
        width,
        collations,
        directions,
        placed[i] as int,
        placed[j] as int,
    ) is Less);
    rows_stand_by_their_first_difference(
        rows[placed[i] as int],
        rows[placed[j] as int],
        collations,
        directions,
        column,
        width as int,
    );
}

/// Two entries are one value in a column where neither is NULL there and the
/// column's own collation does not tell them apart.
pub proof fn a_repeated_value_is_no_null(
    rows: Seq<Seq<Value>>,
    width: nat,
    collations: Seq<Collation>,
    left: int,
    right: int,
    column: int,
)
    requires
        0 <= left < rows.len(),
        0 <= right < rows.len(),
        0 <= column < width,
    ensures
        duplicates(rows, width, collations, left, right, column) <==> !(rows[left][column] is Null)
            && !(rows[right][column] is Null) && value_order(
            rows[left][column],
            rows[right][column],
            if column < collations.len() {
                collations[column]
            } else {
                Collation::Binary
            },
        ) is Equal,
{
    an_entry_is_its_row(rows, width, left, column);
    an_entry_is_its_row(rows, width, right, column);
    crate::values::classes_stand_apart(
        rows[left][column],
        rows[right][column],
        if column < collations.len() {
            collations[column]
        } else {
            Collation::Binary
        },
    );
}

/// What is read at a column of an entry is what stands there, and past the last entry
/// there is nothing.
proof fn entries_are_read_in_place(rows: Seq<Seq<Value>>, width: nat, entry: int, column: int)
    requires
        0 <= entry,
        0 <= column,
    ensures
        entry < rows.len() && column < width ==> run_on(rows, width, entry, column)
            == rows[entry][column],
        entry >= rows.len() ==> run_on(rows, width, entry, column) is Null,
{
    if entry < rows.len() && column < width {
        an_entry_is_its_row(rows, width, entry, column);
    }
    if entry >= rows.len() {
        assert(entry * width >= rows.len() * width) by (nonlinear_arith)
            requires
                entry >= rows.len(),
                width >= 0,
        ;
    }
}

} // verus!
