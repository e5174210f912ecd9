//! Byte strings: the names, declarations and messages of a database.
//!
//! A name is bytes and not `str`, because a file may hold one that is not
//! UTF-8; what is shown of one is UTF-8 all the same. Names are folded in ASCII
//! only, which is what the SQL they are written in does.

use vstd::prelude::*;
use vstd::string::StrSliceExecFns;

verus! {

/// The bytes a word of this source is written with.
pub open spec fn ascii(word: &str) -> Seq<u8> {
    vstd::utf8::encode_utf8(word@)
}

/// The characters some bytes are read as where they are not all UTF-8, as
/// `String::from_utf8_lossy` gives them.
pub uninterp spec fn replaced(bytes: Seq<u8>) -> Seq<char>;

/// The characters some bytes are read as: the ones they say in UTF-8, with a
/// replacement for what is none.
pub open spec fn characters(bytes: Seq<u8>) -> Seq<char> {
    if vstd::utf8::valid_utf8(bytes) {
        vstd::utf8::decode_utf8(bytes)
    } else {
        replaced(bytes)
    }
}

/// The bytes a name or a text is shown as: itself, unless it is not UTF-8.
pub open spec fn shown(bytes: Seq<u8>) -> Seq<u8> {
    if vstd::utf8::valid_utf8(bytes) {
        bytes
    } else {
        vstd::utf8::encode_utf8(replaced(bytes))
    }
}

/// Calls `String::from_utf8_lossy`, which reads bytes as UTF-8 and puts a
/// replacement character for what is none. What comes back is a function of the
/// bytes alone, and of bytes that are UTF-8 it is what they say; of others it is
/// not said here where the replacements stand.
#[verifier::external_body]
fn read_lossily(bytes: &[u8]) -> (text: String)
    ensures
        text@ == replaced(bytes@),
        vstd::utf8::valid_utf8(bytes@) ==> text@ == vstd::utf8::decode_utf8(bytes@),
{
    String::from_utf8_lossy(bytes).into_owned()
}

/// Returns the characters some bytes are read as.
pub fn read_text(bytes: &[u8]) -> (text: String)
    ensures
        text@ == characters(bytes@),
{
    read_lossily(bytes)
}

/// Returns the bytes a name or a text is shown as.
pub fn show(bytes: &[u8]) -> (made: Vec<u8>)
    ensures
        made@ == shown(bytes@),
{
    let text = read_lossily(bytes);
    proof {
        if vstd::utf8::valid_utf8(bytes@) {
            vstd::utf8::decode_utf8_encode_utf8(bytes@);
        }
    }
    copied(text.as_str().as_bytes())
}

/// Adds a name to the end of a text, as it is shown.
pub fn append_shown(out: &mut Vec<u8>, name: &[u8])
    ensures
        final(out)@ == old(out)@ + shown(name@),
{
    let made = show(name);
    append(out, made.as_slice());
}

/// One byte with an ASCII capital made small.
pub open spec fn small(byte: u8) -> u8 {
    if 65 <= byte <= 90 {
        (byte + 32) as u8
    } else {
        byte
    }
}

/// One byte with an ASCII small letter made a capital.
pub open spec fn capital(byte: u8) -> u8 {
    if 97 <= byte <= 122 {
        (byte - 32) as u8
    } else {
        byte
    }
}

/// A byte string with its ASCII capitals made small.
pub open spec fn folded(bytes: Seq<u8>) -> Seq<u8> {
    bytes.map_values(|byte: u8| small(byte))
}

/// A byte string with its ASCII small letters made capitals.
pub open spec fn raised(bytes: Seq<u8>) -> Seq<u8> {
    bytes.map_values(|byte: u8| capital(byte))
}

/// Whether a byte string begins with another.
pub open spec fn begins(bytes: Seq<u8>, prefix: Seq<u8>) -> bool {
    prefix.len() <= bytes.len() && bytes.take(prefix.len() as int) == prefix
}

/// Returns one byte with an ASCII capital made small.
pub fn small_byte(byte: u8) -> (made: u8)
    ensures
        made == small(byte),
        made == (if 65 <= byte <= 90 {
            byte - 65 + 97
        } else {
            byte as int
        }),
{
    if 65 <= byte && byte <= 90 {
        byte + 32
    } else {
        byte
    }
}

/// Returns one byte with an ASCII small letter made a capital.
pub fn capital_byte(byte: u8) -> (made: u8)
    ensures
        made == capital(byte),
        made == (if 97 <= byte <= 122 {
            byte - 97 + 65
        } else {
            byte as int
        }),
{
    if 97 <= byte && byte <= 122 {
        byte - 32
    } else {
        byte
    }
}

/// Returns a byte string with its ASCII capitals made small.
pub fn fold(bytes: &[u8]) -> (made: Vec<u8>)
    ensures
        made@ == folded(bytes@),
{
    let mut made: Vec<u8> = Vec::with_capacity(bytes.len());
    for at in 0..bytes.len()
        invariant
            made@ =~= folded(bytes@.take(at as int)),
    {
        made.push(small_byte(bytes[at]));
        assert(folded(bytes@.take(at + 1)) =~= folded(bytes@.take(at as int)).push(
            small(bytes@[at as int]),
        ));
    }
    assert(bytes@.take(bytes@.len() as int) =~= bytes@);
    made
}

/// Returns a byte string with its ASCII small letters made capitals.
pub fn raise(bytes: &[u8]) -> (made: Vec<u8>)
    ensures
        made@ == raised(bytes@),
{
    let mut made: Vec<u8> = Vec::with_capacity(bytes.len());
    for at in 0..bytes.len()
        invariant
            made@ =~= raised(bytes@.take(at as int)),
    {
        made.push(capital_byte(bytes[at]));
        assert(raised(bytes@.take(at + 1)) =~= raised(bytes@.take(at as int)).push(
            capital(bytes@[at as int]),
        ));
    }
    assert(bytes@.take(bytes@.len() as int) =~= bytes@);
    made
}

/// Returns a copy of a byte string.
pub fn copied(bytes: &[u8]) -> (copy: Vec<u8>)
    ensures
        copy@ == bytes@,
{
    let mut copy: Vec<u8> = Vec::with_capacity(bytes.len());
    append(&mut copy, bytes);
    assert(Seq::<u8>::empty() + bytes@ =~= bytes@);
    copy
}

/// Adds one byte string to the end of another.
pub fn append(out: &mut Vec<u8>, bytes: &[u8])
    ensures
        final(out)@ == old(out)@ + bytes@,
{
    let ghost before = out@;
    for at in 0..bytes.len()
        invariant
            out@ =~= before + bytes@.take(at as int),
    {
        out.push(bytes[at]);
        assert(bytes@.take(at + 1) =~= bytes@.take(at as int).push(bytes@[at as int]));
    }
    assert(bytes@.take(bytes@.len() as int) =~= bytes@);
}

/// Reports whether two byte strings are the same.
pub fn same(left: &[u8], right: &[u8]) -> (equal: bool)
    ensures
        equal == (left@ == right@),
{
    if left.len() != right.len() {
        return false;
    }
    for at in 0..left.len()
        invariant
            left.len() == right.len(),
            forall|i: int| 0 <= i < at ==> left@[i] == right@[i],
    {
        if left[at] != right[at] {
            return false;
        }
    }
    assert(left@ =~= right@);
    true
}

/// Reports whether two byte strings are the same in either case.
pub fn same_folded(left: &[u8], right: &[u8]) -> (equal: bool)
    ensures
        equal == (folded(left@) == folded(right@)),
{
    if left.len() != right.len() {
        assert(folded(left@).len() != folded(right@).len());
        return false;
    }
    for at in 0..left.len()
        invariant
            left.len() == right.len(),
            forall|i: int| 0 <= i < at ==> small(left@[i]) == small(right@[i]),
    {
        if small_byte(left[at]) != small_byte(right[at]) {
            assert(folded(left@)[at as int] != folded(right@)[at as int]);
            return false;
        }
    }
    assert(folded(left@) =~= folded(right@));
    true
}

/// Reports whether a byte string begins with another.
pub fn begins_with(bytes: &[u8], prefix: &[u8]) -> (answer: bool)
    ensures
        answer == begins(bytes@, prefix@),
        answer == (prefix@.len() <= bytes@.len() && (forall|i: int|
            0 <= i < prefix@.len() ==> #[trigger] bytes@[i] == prefix@[i])),
{
    if prefix.len() > bytes.len() {
        return false;
    }
    for at in 0..prefix.len()
        invariant
            prefix.len() <= bytes.len(),
            forall|i: int| 0 <= i < at ==> bytes@[i] == prefix@[i],
    {
        if bytes[at] != prefix[at] {
            assert(bytes@.take(prefix@.len() as int)[at as int] != prefix@[at as int]);
            return false;
        }
    }
    assert(bytes@.take(prefix@.len() as int) =~= prefix@);
    true
}

/// Whether a character is white space.
pub open spec fn white(letter: char) -> bool {
    let code = letter as u32;
    ||| 9 <= code <= 13
    ||| code == 0x20
    ||| code == 0x85
    ||| code == 0xA0
    ||| code == 0x1680
    ||| 0x2000 <= code <= 0x200A
    ||| code == 0x2028
    ||| code == 0x2029
    ||| code == 0x202F
    ||| code == 0x205F
    ||| code == 0x3000
}

/// How many leading characters are white space.
pub open spec fn white_before(text: Seq<char>) -> int
    decreases text.len(),
{
    if text.len() > 0 && white(text[0]) {
        1 + white_before(text.drop_first())
    } else {
        0
    }
}

/// A text with the white space at its end taken off.
pub open spec fn trimmed_end(text: Seq<char>) -> Seq<char>
    decreases text.len(),
{
    if text.len() > 0 && white(text.last()) {
        trimmed_end(text.drop_last())
    } else {
        text
    }
}

/// A text with the white space at both ends taken off.
pub open spec fn trimmed_text(text: Seq<char>) -> Seq<char> {
    trimmed_end(text.subrange(white_before(text), text.len() as int))
}

/// One character with an ASCII capital made small.
pub open spec fn small_letter(letter: char) -> char {
    if 'A' <= letter && letter <= 'Z' {
        (letter as u32 + 32) as char
    } else {
        letter
    }
}

/// A text with its ASCII capitals made small.
pub open spec fn folded_text(text: Seq<char>) -> Seq<char> {
    text.map_values(|letter: char| small_letter(letter))
}

/// The leading white space ends where the characters say it does.
pub proof fn white_ends_at(text: Seq<char>, at: int)
    requires
        0 <= at <= text.len(),
        forall|i: int| 0 <= i < at ==> white(text[i]),
        at < text.len() ==> !white(text[at]),
    ensures
        white_before(text) == at,
    decreases at,
{
    if at > 0 {
        let rest = text.drop_first();
        assert forall|i: int| 0 <= i < at - 1 implies white(rest[i]) by {
            assert(rest[i] == text[i + 1]);
        }
        white_ends_at(rest, at - 1);
    }
}

/// The trailing white space begins where the characters say it does.
proof fn white_begins_at(text: Seq<char>, at: int)
    requires
        0 <= at <= text.len(),
        forall|i: int| at <= i < text.len() ==> white(text[i]),
        at > 0 ==> !white(text[at - 1]),
    ensures
        trimmed_end(text) == text.take(at),
    decreases text.len(),
{
    if at < text.len() {
        white_begins_at(text.drop_last(), at);
        assert(text.drop_last().take(at) =~= text.take(at));
    } else {
        assert(text.take(at) =~= text);
    }
}

/// Reports whether a character is white space.
pub fn is_white(letter: char) -> (answer: bool)
    ensures
        answer == white(letter),
{
    let code: u32 = letter as u32;
    (9 <= code && code <= 13) || code == 0x20 || code == 0x85 || code == 0xA0 || code == 0x1680 || (
    0x2000 <= code && code <= 0x200A) || code == 0x2028 || code == 0x2029 || code == 0x202F || code
        == 0x205F || code == 0x3000
}

/// Returns a text with the white space at both ends taken off.
pub fn trim_text(text: &str) -> (inner: &str)
    ensures
        inner@ == trimmed_text(text@),
{
    let length: usize = text.unicode_len();
    let mut from: usize = 0;
    while from < length && is_white(text.get_char(from))
        invariant
            from <= length == text@.len(),
            forall|i: int| 0 <= i < from ==> white(text@[i]),
        decreases length - from,
    {
        from += 1;
    }
    proof {
        white_ends_at(text@, from as int);
    }
    let mut to: usize = length;
    while to > from && is_white(text.get_char(to - 1))
        invariant
            from <= to <= length == text@.len(),
            forall|i: int| to <= i < length ==> white(text@[i]),
        decreases to,
    {
        to -= 1;
    }
    let inner = text.substring_char(from, to);
    proof {
        let rest = text@.subrange(from as int, text@.len() as int);
        assert forall|i: int| to - from <= i < rest.len() implies white(rest[i]) by {
            assert(rest[i] == text@[from + i]);
        }
        white_begins_at(rest, to - from);
        assert(rest.take(to - from) =~= inner@);
    }
    inner
}

/// Reports whether two characters are the same in either case.
fn same_letter(left: char, right: char) -> (equal: bool)
    ensures
        equal == (small_letter(left) == small_letter(right)),
{
    let one: u32 = if 'A' <= left && left <= 'Z' {
        left as u32 + 32
    } else {
        left as u32
    };
    let two: u32 = if 'A' <= right && right <= 'Z' {
        right as u32 + 32
    } else {
        right as u32
    };
    one == two
}

/// Reports whether two texts are the same in either case.
pub fn same_folded_text(left: &str, right: &str) -> (equal: bool)
    ensures
        equal == (folded_text(left@) == folded_text(right@)),
{
    let length: usize = left.unicode_len();
    if length != right.unicode_len() {
        assert(folded_text(left@).len() != folded_text(right@).len());
        return false;
    }
    for at in 0..length
        invariant
            length == left@.len() == right@.len(),
            forall|i: int| 0 <= i < at ==> small_letter(left@[i]) == small_letter(right@[i]),
    {
        if !same_letter(left.get_char(at), right.get_char(at)) {
            assert(folded_text(left@)[at as int] != folded_text(right@)[at as int]);
            return false;
        }
    }
    assert(folded_text(left@) =~= folded_text(right@));
    true
}

/// A number written in ten digits' notation.
pub open spec fn decimal(number: nat) -> Seq<u8>
    decreases number,
{
    if number < 10 {
        seq![(48 + number) as u8]
    } else {
        decimal(number / 10).push((48 + number % 10) as u8)
    }
}

/// A signed number written in ten digits' notation.
pub open spec fn signed_decimal(number: int) -> Seq<u8> {
    if number < 0 {
        seq![45u8] + decimal((-number) as nat)
    } else {
        decimal(number as nat)
    }
}

/// Writes a number in ten digits' notation.
pub fn write_decimal(number: u64, out: &mut Vec<u8>)
    ensures
        final(out)@ == old(out)@ + decimal(number as nat),
    decreases number,
{
    let ghost before = out@;
    if number >= 10 {
        write_decimal(number / 10, out);
    }
    out.push((48 + number % 10) as u8);
    assert(out@ =~= before + decimal(number as nat));
}

/// Writes a signed number in ten digits' notation.
pub fn write_signed(number: i64, out: &mut Vec<u8>)
    ensures
        final(out)@ == old(out)@ + signed_decimal(number as int),
{
    let ghost before = out@;
    if number < 0 {
        out.push(45);
        write_decimal((-(number as i128)) as u64, out);
        assert(out@ =~= before + signed_decimal(number as int));
    } else {
        write_decimal(number as u64, out);
    }
}

/// A name differs from its folded form in the case of ASCII letters alone: a capital
/// is the small letter as far into the alphabet, and every other byte stays. Raising
/// a name does the same the other way.
pub proof fn names_fold_by_their_letters(bytes: Seq<u8>, at: int)
    requires
        0 <= at < bytes.len(),
    ensures
        folded(bytes).len() == bytes.len(),
        65 <= bytes[at] <= 90 ==> folded(bytes)[at] - 97 == bytes[at] - 65,
        !(65 <= bytes[at] <= 90) ==> folded(bytes)[at] == bytes[at],
        raised(bytes).len() == bytes.len(),
        97 <= bytes[at] <= 122 ==> raised(bytes)[at] - 65 == bytes[at] - 97,
        !(97 <= bytes[at] <= 122) ==> raised(bytes)[at] == bytes[at],
{
}

/// Folding a name again changes nothing, nor does it matter what case a name was in
/// before it was folded.
pub proof fn folding_settles_a_name(bytes: Seq<u8>)
    ensures
        folded(folded(bytes)) == folded(bytes),
        folded(raised(bytes)) == folded(bytes),
        raised(folded(bytes)) == raised(bytes),
        folded(bytes).len() == bytes.len(),
{
    assert(folded(folded(bytes)) =~= folded(bytes));
    assert(folded(raised(bytes)) =~= folded(bytes));
    assert(raised(folded(bytes)) =~= raised(bytes));
}

/// A byte string begins with another where it is the other with something after it.
pub proof fn a_prefix_is_what_comes_first(bytes: Seq<u8>, prefix: Seq<u8>, rest: Seq<u8>)
    ensures
        begins(prefix + rest, prefix),
        begins(bytes, prefix) ==> bytes == prefix + bytes.subrange(
            prefix.len() as int,
            bytes.len() as int,
        ),
{
    assert((prefix + rest).take(prefix.len() as int) =~= prefix);
    if begins(bytes, prefix) {
        assert(bytes =~= bytes.take(prefix.len() as int) + bytes.subrange(
            prefix.len() as int,
            bytes.len() as int,
        ));
    }
}

/// What is shown of a name that is UTF-8 is the name, and of any other UTF-8 all the
/// same.
pub proof fn what_is_shown_is_text(bytes: Seq<u8>)
    ensures
        vstd::utf8::valid_utf8(bytes) ==> shown(bytes) == bytes,
        vstd::utf8::valid_utf8(shown(bytes)),
        shown(shown(bytes)) == shown(bytes),
        characters(shown(bytes)) == characters(bytes),
{
    if !vstd::utf8::valid_utf8(bytes) {
        vstd::utf8::encode_utf8_valid_utf8(replaced(bytes));
        vstd::utf8::encode_utf8_decode_utf8(replaced(bytes));
    }
}

/// Trimming a text takes off white space alone, and all of it at either end.
pub proof fn trimming_takes_white_space(text: Seq<char>) -> (span: (int, int))
    ensures
        0 <= span.0 <= span.1 <= text.len(),
        trimmed_text(text) == text.subrange(span.0, span.1),
        forall|i: int| 0 <= i < span.0 ==> is_space(#[trigger] text[i]),
        forall|i: int| span.1 <= i < text.len() ==> is_space(#[trigger] text[i]),
        span.0 < span.1 ==> !is_space(text[span.0]) && !is_space(text[span.1 - 1]),
{
    let from = white_leads(text);
    let rest = text.subrange(from, text.len() as int);
    let to = white_trails(rest);
    assert(rest.take(to) =~= text.subrange(from, from + to));
    assert forall|i: int| from + to <= i < text.len() implies is_space(#[trigger] text[i]) by {
        assert(rest[i - from] == text[i]);
    }
    (from, from + to)
}

/// Whether a character is one of the Unicode property `White_Space`.
pub open spec fn is_space(letter: char) -> bool {
    ||| letter as u32 == 0x09 || letter as u32 == 0x0A || letter as u32 == 0x0B
    ||| letter as u32 == 0x0C || letter as u32 == 0x0D || letter as u32 == 0x20
    ||| letter as u32 == 0x85 || letter as u32 == 0xA0
    ||| letter as u32 == 0x1680 || letter as u32 == 0x3000
    ||| letter as u32 >= 0x2000 && letter as u32 <= 0x200A
    ||| letter as u32 == 0x2028 || letter as u32 == 0x2029
    ||| letter as u32 == 0x202F || letter as u32 == 0x205F
}

/// Where the leading white space of a text ends.
proof fn white_leads(text: Seq<char>) -> (at: int)
    ensures
        at == white_before(text),
        0 <= at <= text.len(),
        forall|i: int| 0 <= i < at ==> is_space(#[trigger] text[i]),
        at < text.len() ==> !is_space(text[at]),
    decreases text.len(),
{
    if text.len() > 0 && white(text[0]) {
        let less = white_leads(text.drop_first());
        assert forall|i: int| 0 <= i < 1 + less implies is_space(#[trigger] text[i]) by {
            if i > 0 {
                assert(text.drop_first()[i - 1] == text[i]);
            }
        }
        1 + less
    } else {
        0
    }
}

/// Where the trailing white space of a text begins.
proof fn white_trails(text: Seq<char>) -> (at: int)
    ensures
        trimmed_end(text) == text.take(at),
        0 <= at <= text.len(),
        forall|i: int| at <= i < text.len() ==> is_space(#[trigger] text[i]),
        at > 0 ==> !is_space(text[at - 1]),
    decreases text.len(),
{
    if text.len() > 0 && white(text.last()) {
        let less = white_trails(text.drop_last());
        assert(text.drop_last().take(less) =~= text.take(less));
        assert forall|i: int| less <= i < text.len() implies is_space(#[trigger] text[i]) by {
            if i < text.len() - 1 {
                assert(text.drop_last()[i] == text[i]);
            }
        }
        less
    } else {
        assert(text.take(text.len() as int) =~= text);
        text.len() as int
    }
}

/// Two texts are the same in either case where each letter of one is the letter at
/// the same place of the other, or the other case of it.
pub proof fn texts_fold_by_their_letters(left: Seq<char>, right: Seq<char>)
    ensures
        folded_text(left) == folded_text(right) <==> left.len() == right.len() && (forall|at: int|
            0 <= at < left.len() ==> {
                let one = #[trigger] left[at];
                let two = right[at];
                ||| one == two
                ||| 'A' <= one && one <= 'Z' && two as u32 == one as u32 + 32
                ||| 'A' <= two && two <= 'Z' && one as u32 == two as u32 + 32
            }),
{
    if folded_text(left) == folded_text(right) {
        assert(folded_text(left).len() == left.len());
        assert(folded_text(right).len() == right.len());
        assert forall|at: int| 0 <= at < left.len() implies {
            let one = #[trigger] left[at];
            let two = right[at];
            ||| one == two
            ||| 'A' <= one && one <= 'Z' && two as u32 == one as u32 + 32
            ||| 'A' <= two && two <= 'Z' && one as u32 == two as u32 + 32
        } by {
            assert(folded_text(left)[at] == small_letter(left[at]));
            assert(folded_text(right)[at] == small_letter(right[at]));
        }
    }
    if left.len() == right.len() && (forall|at: int|
        0 <= at < left.len() ==> {
            let one = #[trigger] left[at];
            let two = right[at];
            ||| one == two
            ||| 'A' <= one && one <= 'Z' && two as u32 == one as u32 + 32
            ||| 'A' <= two && two <= 'Z' && one as u32 == two as u32 + 32
        }) {
        assert forall|at: int| 0 <= at < left.len() implies folded_text(left)[at] == folded_text(
            right,
        )[at] by {
            let one = left[at];
            let two = right[at];
        }
        assert(folded_text(left) =~= folded_text(right));
    }
}

/// A number is written in digits: one for a number under ten, and else the digits of
/// a tenth of it with one more after them. No number but zero begins with a nought.
pub proof fn a_number_is_its_digits(number: nat)
    ensures
        decimal(number).len() > 0,
        48 <= decimal(number).last() <= 57,
        decimal(number).last() - 48 == number % 10,
        decimal(number).len() == 1 <==> number < 10,
        number >= 10 ==> decimal(number).drop_last() == decimal(number / 10),
        number > 0 ==> decimal(number)[0] != 48,
        signed_decimal(number as int) == decimal(number),
        number > 0 ==> signed_decimal(-(number as int))[0] == 45 && signed_decimal(
            -(number as int),
        ).drop_first() == decimal(number),
    decreases number,
{
    if number >= 10 {
        a_number_is_its_digits(number / 10);
        assert(decimal(number).drop_last() =~= decimal(number / 10));
    }
    if number > 0 {
        assert(signed_decimal(-(number as int)).drop_first() =~= decimal(number));
    }
}

} // verus!
