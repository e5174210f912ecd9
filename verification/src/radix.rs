//! A stable radix sort of `(word, entry)` pairs.
//!
//! The passes run upward from the least significant byte. Each pass is stable,
//! so a later one never disturbs the order an earlier one made among the pairs
//! it does not tell apart; that is what makes the passes together a sort.

use vstd::prelude::*;
use vstd::arithmetic::power2::pow2;

use crate::codes::span;

verus! {

/// One byte of a word, counted from the least significant.
pub open spec fn digit(word: u64, byte: nat) -> int {
    (word as nat / span(byte)) as int % 256
}

/// A word's least significant bytes.
pub open spec fn low(word: u64, bytes: nat) -> int {
    (word as nat % span(bytes)) as int
}

/// How many of the first `upto` digits are `which`.
spec fn tally(digits: Seq<int>, upto: int, which: int) -> int
    decreases upto,
{
    if upto <= 0 {
        0
    } else {
        tally(digits, upto - 1, which) + if digits[upto - 1] == which {
            1int
        } else {
            0int
        }
    }
}

/// How many of the first `upto` digits are below `limit`.
spec fn below(digits: Seq<int>, upto: int, limit: int) -> int
    decreases limit,
{
    if limit <= 0 {
        0
    } else {
        below(digits, upto, limit - 1) + tally(digits, upto, limit - 1)
    }
}

/// Where a stable pass puts the pair at a place.
spec fn slot(digits: Seq<int>, at: int) -> int {
    below(digits, digits.len() as int, digits[at]) + tally(digits, at, digits[at])
}

/// A tally grows with what is tallied.
proof fn tally_grows(digits: Seq<int>, some: int, more: int, which: int)
    requires
        0 <= some <= more,
    ensures
        0 <= tally(digits, some, which) <= tally(digits, more, which),
        some < more && digits[some] == which ==> tally(digits, some, which) < tally(
            digits,
            more,
            which,
        ),
    decreases more,
{
    if some < more {
        tally_grows(digits, some, more - 1, which);
    } else if some > 0 {
        tally_grows(digits, some - 1, some - 1, which);
    }
}

/// No more digits are one digit than there are digits.
proof fn tally_is_bounded(digits: Seq<int>, upto: int, which: int)
    requires
        0 <= upto,
    ensures
        0 <= tally(digits, upto, which) <= upto,
    decreases upto,
{
    if upto > 0 {
        tally_is_bounded(digits, upto - 1, which);
    }
}

/// One more digit counts once below every limit above it.
proof fn below_counts_one(digits: Seq<int>, at: int, limit: int)
    requires
        0 <= at < digits.len(),
        0 <= digits[at],
        0 <= limit,
    ensures
        below(digits, at + 1, limit) == below(digits, at, limit) + if digits[at] < limit {
            1int
        } else {
            0int
        },
    decreases limit,
{
    if limit > 0 {
        below_counts_one(digits, at, limit - 1);
    }
}

/// Every digit is below the limit all of them are below.
proof fn below_counts_all(digits: Seq<int>, upto: int, limit: int)
    requires
        0 <= upto <= digits.len(),
        0 <= limit,
        forall|i: int| 0 <= i < digits.len() ==> 0 <= #[trigger] digits[i] < limit,
    ensures
        below(digits, upto, limit) == upto,
    decreases upto,
{
    if upto > 0 {
        below_counts_all(digits, upto - 1, limit);
        below_counts_one(digits, upto - 1, limit);
    } else {
        below_nothing(digits, limit);
    }
}

/// Nothing is below any limit among no digits.
proof fn below_nothing(digits: Seq<int>, limit: int)
    ensures
        below(digits, 0, limit) == 0,
    decreases limit,
{
    if limit > 0 {
        below_nothing(digits, limit - 1);
    }
}

/// The count below a limit grows with the limit.
proof fn below_grows(digits: Seq<int>, upto: int, some: int, more: int)
    requires
        0 <= upto,
        0 <= some <= more,
    ensures
        0 <= below(digits, upto, some) <= below(digits, upto, more),
    decreases more,
{
    if some < more {
        below_grows(digits, upto, some, more - 1);
        tally_grows(digits, 0, upto, more - 1);
    } else if some > 0 {
        below_grows(digits, upto, some - 1, some - 1);
        tally_grows(digits, 0, upto, some - 1);
    }
}

/// A pass puts pairs in the order of their digits, and keeps the order of pairs
/// it does not tell apart.
proof fn slots_in_order(digits: Seq<int>, one: int, two: int)
    requires
        0 <= one < digits.len(),
        0 <= two < digits.len(),
        forall|i: int| 0 <= i < digits.len() ==> 0 <= #[trigger] digits[i] < 256,
    ensures
        0 <= slot(digits, one) < digits.len(),
        digits[one] < digits[two] || (digits[one] == digits[two] && one < two) ==> slot(
            digits,
            one,
        ) < slot(digits, two),
{
    let count = digits.len() as int;
    below_counts_all(digits, count, 256);
    tally_grows(digits, one, count, digits[one]);
    tally_grows(digits, 0, two, digits[two]);
    below_grows(digits, count, digits[one], digits[one]);
    below_grows(digits, count, digits[one] + 1, 256);
    if digits[one] < digits[two] {
        below_grows(digits, count, digits[one] + 1, digits[two]);
    } else if digits[one] == digits[two] && one < two {
        tally_grows(digits, one, two, digits[one]);
    }
}

/// A shift by whole bytes and a mask take out one byte.
proof fn shifting_takes_a_digit(word: u64, byte: u64)
    requires
        byte < 8,
    ensures
        (word >> ((8 * byte) as u64)) & 0xFF == digit(word, byte as nat),
{
    let shift = (8 * byte) as u64;
    vstd::bits::lemma_u64_shr_is_div(word, shift);
    span_is_power(byte as nat);
    let moved = word >> shift;
    assert(moved & 0xFF == moved % 256) by (bit_vector);
}

/// The span of some bytes is the power of two of their bits.
proof fn span_is_power(bytes: nat)
    ensures
        span(bytes) == pow2(8 * bytes),
        span(bytes) > 0,
    decreases bytes,
{
    if bytes == 0 {
        vstd::arithmetic::power2::lemma2_to64();
    } else {
        span_is_power((bytes - 1) as nat);
        vstd::arithmetic::power2::lemma_pow2_adds(8, (8 * (bytes - 1)) as nat);
        vstd::arithmetic::power2::lemma2_to64();
    }
}

/// A word's low bytes are its next byte and the bytes under that.
proof fn low_is_digit_and_lower(word: u64, bytes: nat)
    ensures
        low(word, bytes + 1) == digit(word, bytes) * span(bytes) + low(word, bytes),
        0 <= low(word, bytes) < span(bytes),
        0 <= digit(word, bytes) < 256,
{
    span_is_power(bytes);
    vstd::arithmetic::div_mod::lemma_mod_breakdown(word as int, span(bytes) as int, 256);
    assert(span(bytes + 1) == span(bytes) * 256);
    let d = digit(word, bytes);
    let s = span(bytes) as int;
    assert(s * d == d * s) by (nonlinear_arith);
}

/// All eight bytes of a word are the word.
proof fn low_of_all(word: u64)
    ensures
        low(word, 8) == word,
{
    assert(span(8) == 0x1_0000_0000_0000_0000) by {
        reveal_with_fuel(span, 9);
    }
}

/// A list of distinct places in range holds every place in range.
pub proof fn fills_its_range(places: Seq<int>, at: int) -> (found: int)
    requires
        places.no_duplicates(),
        forall|i: int| 0 <= i < places.len() ==> 0 <= #[trigger] places[i] < places.len(),
        0 <= at < places.len(),
    ensures
        0 <= found < places.len(),
        places[found] == at,
{
    let count = places.len() as int;
    let range = vstd::set_lib::set_int_range(0, count);
    places.unique_seq_to_set();
    vstd::set_lib::lemma_int_range(0, count);
    assert(places.to_set().subset_of(range)) by {
        assert forall|x: int| places.to_set().contains(x) implies range.contains(x) by {
            let i = choose|i: int| 0 <= i < places.len() && places[i] == x;
        }
    }
    vstd::set_lib::lemma_subset_equality(places.to_set(), range);
    assert(range.contains(at));
    assert(places.contains(at));
    choose|i: int| 0 <= i < places.len() && places[i] == at
}

/// Whether one list is another rearranged, and where each pair came from.
pub open spec fn rearranged(
    before: Seq<(u64, u32)>,
    after: Seq<(u64, u32)>,
    places: Seq<int>,
) -> bool {
    &&& before.len() == after.len()
    &&& places.len() == after.len()
    &&& places.no_duplicates()
    &&& forall|i: int| 0 <= i < places.len() ==> 0 <= #[trigger] places[i] < before.len()
    &&& forall|i: int| 0 <= i < after.len() ==> #[trigger] after[i] == before[places[i]]
}

/// Whether a list is in the order of its words' low bytes, equal ones in the
/// order they came in.
spec fn settled(after: Seq<(u64, u32)>, places: Seq<int>, bytes: nat) -> bool {
    forall|i: int, j: int|
        0 <= i < j < after.len() ==> low((#[trigger] after[i]).0, bytes) < low(
            (#[trigger] after[j]).0,
            bytes,
        ) || (low(after[i].0, bytes) == low(after[j].0, bytes) && places[i] < places[j])
}

/// Whether a list is sorted by word, equal words in the order they came in.
pub open spec fn stably_sorted(
    before: Seq<(u64, u32)>,
    after: Seq<(u64, u32)>,
    places: Seq<int>,
) -> bool {
    &&& rearranged(before, after, places)
    &&& forall|i: int, j: int|
        0 <= i < j < after.len() ==> (#[trigger] after[i]).0 < (#[trigger] after[j]).0 || (after[i].0
            == after[j].0 && places[i] < places[j])
}

/// The digits a pass reads.
spec fn digits_of(pairs: Seq<(u64, u32)>, byte: nat) -> Seq<int> {
    Seq::new(pairs.len(), |i: int| digit(pairs[i].0, byte))
}

/// Whether each pair of a pass has landed where the pass puts it.
spec fn landed(
    source: Seq<(u64, u32)>,
    target: Seq<(u64, u32)>,
    byte: nat,
    upto: int,
) -> bool {
    forall|i: int|
        #![trigger source[i]]
        0 <= i < upto ==> target[slot(digits_of(source, byte), i)] == source[i]
}

/// Puts the pairs in the order of one byte of their words.
fn scatter(source: &Vec<(u64, u32)>, target: &mut Vec<(u64, u32)>, byte: u64)
    requires
        byte < 8,
        old(target)@.len() == source@.len(),
    ensures
        final(target)@.len() == source@.len(),
        landed(source@, final(target)@, byte as nat, source@.len() as int),
{
    let ghost digits = digits_of(source@, byte as nat);
    let ghost count = source@.len() as int;
    let shift: u64 = 8 * byte;
    proof {
        assert forall|i: int| 0 <= i < digits.len() implies 0 <= #[trigger] digits[i] < 256 by {
            low_is_digit_and_lower(source@[i].0, byte as nat);
        }
    }
    let mut counts: Vec<usize> = vec![0usize; 256];
    for at in 0..source.len()
        invariant
            byte < 8,
            shift == 8 * byte,
            count == source@.len(),
            digits == digits_of(source@, byte as nat),
            forall|i: int| 0 <= i < digits.len() ==> 0 <= #[trigger] digits[i] < 256,
            counts@.len() == 256,
            forall|b: int| 0 <= b < 256 ==> #[trigger] counts@[b] == tally(digits, at as int, b),
    {
        proof {
            shifting_takes_a_digit(source@[at as int].0, byte);
            assert(digits[at as int] == digit(source@[at as int].0, byte as nat));
            tally_is_bounded(digits, at as int, digits[at as int]);
        }
        let held: usize = ((source[at].0 >> shift) & 0xFF) as usize;
        let seen: usize = counts[held];
        counts.set(held, seen + 1);
    }
    let mut running: usize = 0;
    for which in 0..256usize
        invariant
            count == source@.len(),
            count <= usize::MAX,
            digits.len() == count,
            forall|i: int| 0 <= i < digits.len() ==> 0 <= #[trigger] digits[i] < 256,
            counts@.len() == 256,
            running == below(digits, count, which as int),
            forall|b: int| 0 <= b < which ==> #[trigger] counts@[b] == below(digits, count, b),
            forall|b: int| which <= b < 256 ==> #[trigger] counts@[b] == tally(digits, count, b),
    {
        let held: usize = counts[which];
        proof {
            below_counts_all(digits, count, 256);
            below_grows(digits, count, which + 1, 256);
        }
        counts.set(which, running);
        running = running + held;
    }
    for at in 0..source.len()
        invariant
            byte < 8,
            shift == 8 * byte,
            count == source@.len(),
            target@.len() == count,
            digits == digits_of(source@, byte as nat),
            forall|i: int| 0 <= i < digits.len() ==> 0 <= #[trigger] digits[i] < 256,
            counts@.len() == 256,
            forall|b: int|
                0 <= b < 256 ==> #[trigger] counts@[b] == below(digits, count, b) + tally(
                    digits,
                    at as int,
                    b,
                ),
            landed(source@, target@, byte as nat, at as int),
    {
        proof {
            shifting_takes_a_digit(source@[at as int].0, byte);
            assert(digits[at as int] == digit(source@[at as int].0, byte as nat));
            slots_in_order(digits, at as int, at as int);
        }
        let held: usize = ((source[at].0 >> shift) & 0xFF) as usize;
        let place: usize = counts[held];
        assert(place == slot(digits, at as int));
        let ghost before = target@;
        target.set(place, source[at]);
        counts.set(held, place + 1);
        proof {
            assert forall|i: int|
                #![trigger source@[i]]
                0 <= i < at + 1 implies target@[slot(digits, i)] == source@[i] by {
                slots_in_order(digits, i, at as int);
                slots_in_order(digits, at as int, i);
                if i < at {
                    assert(slot(digits, i) != place);
                    assert(before[slot(digits, i)] == source@[i]);
                }
            }
        }
    }
}

/// After a pass the pairs are in the order of one more byte.
proof fn pass_settles(
    before: Seq<(u64, u32)>,
    source: Seq<(u64, u32)>,
    places: Seq<int>,
    target: Seq<(u64, u32)>,
    byte: nat,
) -> (moved: Seq<int>)
    requires
        rearranged(before, source, places),
        settled(source, places, byte),
        target.len() == source.len(),
        landed(source, target, byte, source.len() as int),
    ensures
        rearranged(before, target, moved),
        settled(target, moved, byte + 1),
{
    let digits = digits_of(source, byte);
    let count = source.len() as int;
    assert forall|i: int| 0 <= i < digits.len() implies 0 <= #[trigger] digits[i] < 256 by {
        low_is_digit_and_lower(source[i].0, byte);
    }
    let slots = Seq::new(source.len(), |i: int| slot(digits, i));
    assert forall|i: int| 0 <= i < slots.len() implies 0 <= #[trigger] slots[i] < slots.len() by {
        slots_in_order(digits, i, i);
    }
    assert forall|i: int, j: int| 0 <= i < slots.len() && 0 <= j < slots.len() && i != j implies
        slots[i] != slots[j] by {
        slots_in_order(digits, i, j);
        slots_in_order(digits, j, i);
    }
    let back = Seq::new(source.len(), |x: int| choose|i: int|
        0 <= i < slots.len() && slots[i] == x);
    assert forall|x: int| 0 <= x < count implies 0 <= #[trigger] back[x] < count && slots[back[x]]
        == x by {
        let found = fills_its_range(slots, x);
        assert(0 <= found < slots.len() && slots[found] == x);
    }
    let moved = Seq::new(source.len(), |x: int| places[back[x]]);
    assert forall|x: int| 0 <= x < count implies #[trigger] target[x] == source[back[x]] by {
        assert(target[slot(digits, back[x])] == source[back[x]]);
    }
    assert forall|x: int, y: int| 0 <= x < count && 0 <= y < count && x != y implies moved[x]
        != moved[y] by {
        assert(back[x] != back[y]);
    }
    assert forall|x: int, y: int| 0 <= x < y < target.len() implies low(
        (#[trigger] target[x]).0,
        byte + 1,
    ) < low((#[trigger] target[y]).0, byte + 1) || (low(target[x].0, byte + 1) == low(
        target[y].0,
        byte + 1,
    ) && moved[x] < moved[y]) by {
        let i = back[x];
        let j = back[y];
        slots_in_order(digits, i, j);
        slots_in_order(digits, j, i);
        let one = source[i].0;
        let two = source[j].0;
        low_is_digit_and_lower(one, byte);
        low_is_digit_and_lower(two, byte);
        assert(target[x] == source[i] && target[y] == source[j]);
        assert(digits[i] == digit(one, byte) && digits[j] == digit(two, byte));
        if digit(one, byte) < digit(two, byte) {
            let s = span(byte) as int;
            let a = digit(one, byte);
            let b = digit(two, byte);
            assert(a * s + s <= b * s) by (nonlinear_arith)
                requires
                    a < b,
                    s > 0,
            ;
        } else {
            assert(digit(one, byte) == digit(two, byte) && i < j);
        }
    }
    moved
}

/// Sorts `(word, entry)` pairs by word, least significant byte first.
///
/// A byte every word agrees on is found up front and skipped, so keys that
/// begin alike cost only the passes that tell them apart. The two buffers change
/// places after each pass, so what `scratch` holds afterwards means nothing.
pub fn radix_by_word(pairs: &mut Vec<(u64, u32)>, scratch: &mut Vec<(u64, u32)>)
    ensures
        exists|places: Seq<int>| #[trigger]
            stably_sorted(old(pairs)@, final(pairs)@, places),
{
    let width: usize = pairs.len();
    let ghost before = pairs@;
    let ghost mut places: Seq<int> = Seq::new(before.len(), |i: int| i);
    assert(rearranged(before, pairs@, places));
    if width < 2 {
        assert(stably_sorted(before, pairs@, places));
        return;
    }
    let first: u64 = pairs[0].0;
    let mut differs: u64 = 0;
    for at in 0..width
        invariant
            width == pairs@.len(),
            before == pairs@,
            forall|i: int|
                #![trigger before[i]]
                0 <= i < at ==> (before[i].0 ^ first) & !differs == 0,
    {
        let word: u64 = pairs[at].0;
        let ghost held = differs;
        differs = differs | (word ^ first);
        proof {
            assert forall|i: int| #![trigger before[i]] 0 <= i < at + 1 implies (before[i].0 ^ first)
                & !differs == 0 by {
                let other = before[i].0;
                if i < at {
                    assert((other ^ first) & !held == 0 ==> (other ^ first) & !(held | (word
                        ^ first)) == 0) by (bit_vector);
                } else {
                    assert((word ^ first) & !(held | (word ^ first)) == 0) by (bit_vector);
                }
            }
        }
    }
    scratch.clear();
    scratch.resize(width, (0, 0));
    assert(settled(pairs@, places, 0)) by {
        assert(span(0) == 1);
    }
    for pass in 0..8u64
        invariant
            width == before.len(),
            pairs@.len() == width,
            scratch@.len() == width,
            rearranged(before, pairs@, places),
            settled(pairs@, places, pass as nat),
            forall|i: int|
                #![trigger before[i]]
                0 <= i < width ==> (before[i].0 ^ first) & !differs == 0,
    {
        let shift: u64 = 8 * pass;
        if (differs >> shift) & 0xFF != 0 {
            scatter(pairs, scratch, pass);
            proof {
                places = pass_settles(before, pairs@, places, scratch@, pass as nat);
            }
            std::mem::swap(pairs, scratch);
        } else {
            proof {
                assert forall|i: int| 0 <= i < pairs@.len() implies digit(
                    (#[trigger] pairs@[i]).0,
                    pass as nat,
                ) == digit(first, pass as nat) by {
                    let word = before[places[i]].0;
                    assert((word ^ first) & !differs == 0);
                    assert((word ^ first) & !differs == 0 && (differs >> shift) & 0xFF == 0 && shift
                        < 64 ==> (word >> shift) & 0xFF == (first >> shift) & 0xFF) by (bit_vector);
                    shifting_takes_a_digit(word, pass);
                    shifting_takes_a_digit(first, pass);
                }
                assert forall|i: int, j: int| 0 <= i < j < pairs@.len() implies low(
                    (#[trigger] pairs@[i]).0,
                    pass as nat + 1,
                ) < low((#[trigger] pairs@[j]).0, pass as nat + 1) || (low(
                    pairs@[i].0,
                    pass as nat + 1,
                ) == low(pairs@[j].0, pass as nat + 1) && places[i] < places[j]) by {
                    low_is_digit_and_lower(pairs@[i].0, pass as nat);
                    low_is_digit_and_lower(pairs@[j].0, pass as nat);
                }
            }
        }
    }
    proof {
        assert forall|i: int, j: int| 0 <= i < j < pairs@.len() implies (#[trigger] pairs@[i]).0
            < (#[trigger] pairs@[j]).0 || (pairs@[i].0 == pairs@[j].0 && places[i] < places[j]) by {
            low_of_all(pairs@[i].0);
            low_of_all(pairs@[j].0);
        }
        assert(stably_sorted(before, pairs@, places));
    }
}

} // verus!
