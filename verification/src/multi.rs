//! The commit that spans two databases, and the file that decides it.
//!
//! A transaction over several files is decided by the existence of one file.
//! Every participant's log carries a commit record, and none of those records is
//! the decision: each is a vote. Beside each participant sits a marker naming a
//! super-journal, and the super-journal's deletion is the moment every
//! participant committed. Until it happens, every one of them recovers as though
//! the commit never arrived.

use std::collections::BTreeSet;

use vstd::prelude::*;

use crate::sessions::{
    numbers_of, schemas_in, schemas_of, SessionState, MAIN,
};
use crate::text::{append, append_shown, ascii, copied, decimal, shown, write_decimal};

verus! {

broadcast use vstd::std_specs::btree::group_btree_axioms;

/// What a super-journal's name is built with.
pub const SUPER_JOURNAL_PREFIX: &'static str = "-mj";

/// What the name of the marker beside a participant ends in.
pub const MARKER_SUFFIX: &'static str = "-mjref";

/// Returns the path of the marker that sits beside one database file.
pub fn marker_path(database: &[u8]) -> (marker: Vec<u8>)
    ensures
        marker@ == database@ + ascii(MARKER_SUFFIX),
        marker@ == database@ + ascii("-mjref"),
{
    let mut marker = copied(database);
    append(&mut marker, MARKER_SUFFIX.as_bytes());
    marker
}

/// One digit of sixteen.
pub open spec fn hex_digit(number: int) -> u8 {
    if number < 10 {
        (48 + number) as u8
    } else {
        (87 + number) as u8
    }
}

/// A number written in sixteen digits' notation.
pub open spec fn hex(number: nat) -> Seq<u8>
    decreases number,
{
    if number < 16 {
        seq![hex_digit(number as int)]
    } else {
        hex(number / 16).push(hex_digit((number % 16) as int))
    }
}

/// A number written in sixteen digits' notation, with zeros before it until it
/// is eight digits long.
pub open spec fn hex8(number: nat) -> Seq<u8> {
    if hex(number).len() < 8 {
        Seq::new((8 - hex(number).len()) as nat, |i: int| 48u8) + hex(number)
    } else {
        hex(number)
    }
}

/// Writes a number in sixteen digits' notation.
fn write_hex(number: u64, out: &mut Vec<u8>)
    ensures
        final(out)@ == old(out)@ + hex(number as nat),
    decreases number,
{
    let ghost before = out@;
    if number >= 16 {
        write_hex(number / 16, out);
    }
    let digit: u8 = (number % 16) as u8;
    out.push(
        if digit < 10 {
            48 + digit
        } else {
            87 + digit
        },
    );
    assert(out@ =~= before + hex(number as nat));
}

/// Where the super-journal of a transaction stands.
pub open spec fn journal_path(near: Seq<u8>, txn: u64) -> Seq<u8> {
    near + ascii(SUPER_JOURNAL_PREFIX) + hex8(txn as nat)
}

/// What a super-journal says: the participants' files as they are shown, a line
/// each.
pub open spec fn listing(files: Seq<Seq<u8>>) -> Seq<u8>
    decreases files.len(),
{
    if files.len() == 0 {
        Seq::empty()
    } else {
        listing(files.drop_last()) + shown(files.last()).push(10)
    }
}

/// What a marker says: the transaction in doubt, and the super-journal that
/// decides it, as its path is shown.
pub open spec fn marker_line(txn: u64, path: Seq<u8>) -> Seq<u8> {
    decimal(txn as nat).push(9) + shown(path).push(10)
}

/// What each path of a list is.
pub open spec fn paths_of(paths: Seq<Vec<u8>>) -> Seq<Seq<u8>> {
    paths.map_values(|path: Vec<u8>| path@)
}

/// The file whose deletion commits a transaction across several databases.
///
/// One let go without [`SuperJournal::commit`] leaves the file where it is,
/// which leaves the transaction undecided and therefore uncommitted.
#[derive(Debug)]
pub struct SuperJournal {
    /// Where it is, which is what every marker names.
    pub path: Vec<u8>,
    /// The markers written beside the participants, to be removed after.
    pub markers: Vec<Vec<u8>>,
}

impl SuperJournal {
    /// Returns the super-journal of a transaction and what is to be written in
    /// it.
    ///
    /// The list exists before any marker names it: a marker naming a file nobody
    /// wrote would read as a decision already made.
    pub fn create(near: &[u8], txn: u64, participants: &[Vec<u8>]) -> (made: (SuperJournal, Vec<u8>))
        ensures
            made.0.path@ == journal_path(near@, txn),
            made.0.path@ == near@ + ascii("-mj") + hex8(txn as nat),
            made.0.markers@.len() == 0,
            made.1@ == listing(paths_of(participants@)),
    {
        let mut path = copied(near);
        append(&mut path, SUPER_JOURNAL_PREFIX.as_bytes());
        let mut number: Vec<u8> = Vec::new();
        write_hex(txn, &mut number);
        if number.len() < 8 {
            let ghost before = path@;
            let zeros: usize = 8 - number.len();
            for at in 0..zeros
                invariant
                    path@ =~= before + Seq::new(at as nat, |i: int| 48u8),
            {
                path.push(48);
            }
        }
        append(&mut path, number.as_slice());
        assert(path@ =~= journal_path(near@, txn));
        let mut listed: Vec<u8> = Vec::new();
        let ghost files = paths_of(participants@);
        for at in 0..participants.len()
            invariant
                files == paths_of(participants@),
                listed@ =~= listing(files.take(at as int)),
        {
            append_shown(&mut listed, participants[at].as_slice());
            listed.push(10);
            let ghost more = files.take(at + 1);
            assert(more.drop_last() =~= files.take(at as int));
            assert(more.last() == files[at as int]);
        }
        assert(files.take(files.len() as int) =~= files);
        (SuperJournal { path, markers: Vec::new() }, listed)
    }

    /// Returns what the marker beside a participant is to say.
    pub fn marker_text(&self, txn: u64) -> (line: Vec<u8>)
        ensures
            line@ == marker_line(txn, self.path@),
    {
        let mut line: Vec<u8> = Vec::new();
        write_decimal(txn, &mut line);
        line.push(9);
        append_shown(&mut line, self.path.as_slice());
        line.push(10);
        assert(line@ =~= marker_line(txn, self.path@));
        line
    }

    /// Remembers that the marker beside a participant was written.
    pub fn mark(&mut self, database: &[u8])
        ensures
            final(self).path == old(self).path,
            paths_of(final(self).markers@) == paths_of(old(self).markers@).push(
                database@ + ascii(MARKER_SUFFIX),
            ),
    {
        let ghost before = self.markers@;
        self.markers.push(marker_path(database));
        assert(paths_of(self.markers@) =~= paths_of(before).push(
            database@ + ascii(MARKER_SUFFIX),
        ));
    }

    /// Returns the file whose deletion is the commit, and the markers to be
    /// tidied away after it.
    pub fn commit(self) -> (files: (Vec<u8>, Vec<Vec<u8>>))
        ensures
            files.0 == self.path,
            files.1 == self.markers,
    {
        (self.path, self.markers)
    }

    /// Returns the files to remove for a transaction nobody has voted for: the
    /// markers, and after them the super-journal they name.
    pub fn abandon(self) -> (files: Vec<Vec<u8>>)
        ensures
            files@ == self.markers@.push(self.path),
    {
        let mut files = self.markers;
        files.push(self.path);
        files
    }
}

/// The number some digits say, none when one of them is no digit.
pub open spec fn digits(text: Seq<u8>) -> Option<nat>
    decreases text.len(),
{
    if text.len() == 0 {
        Some(0)
    } else if 48 <= text.last() <= 57 {
        match digits(text.drop_last()) {
            Some(number) => Some(10 * number + (text.last() - 48) as nat),
            None => None,
        }
    } else {
        None
    }
}

/// The number a text says: some digits, with a plus before them or without,
/// that are no more than a number can hold.
pub open spec fn number_in(text: Seq<u8>) -> Option<u64> {
    let said = if text.len() > 0 && text[0] == 43 {
        text.drop_first()
    } else {
        text
    };
    if said.len() == 0 {
        None
    } else {
        match digits(said) {
            Some(number) => if number <= u64::MAX {
                Some(number as u64)
            } else {
                None
            },
            None => None,
        }
    }
}

/// Where a byte first stands in a text, its length when nowhere.
pub open spec fn first_of(text: Seq<u8>, byte: u8) -> nat
    decreases text.len(),
{
    if text.len() == 0 || text[0] == byte {
        0
    } else {
        1 + first_of(text.drop_first(), byte)
    }
}

/// A line without the carriage return before its end.
pub open spec fn bare(line: Seq<u8>) -> Seq<u8> {
    if line.len() > 0 && line.last() == 13 {
        line.drop_last()
    } else {
        line
    }
}

/// The lines of a text.
pub open spec fn lines_of(text: Seq<u8>) -> Seq<Seq<u8>>
    decreases text.len(),
{
    if text.len() == 0 {
        Seq::empty()
    } else if first_of(text, 10) >= text.len() {
        seq![text]
    } else {
        seq![bare(text.take(first_of(text, 10) as int))] + lines_of(
            text.skip(first_of(text, 10) as int + 1),
        )
    }
}

/// What one line of a marker says, when it says anything.
pub open spec fn doubt_in(line: Seq<u8>) -> Option<(u64, Seq<u8>)> {
    let tab = first_of(line, 9) as int;
    if tab >= line.len() {
        None
    } else {
        match number_in(line.take(tab)) {
            Some(txn) => Some((txn, line.skip(tab + 1))),
            None => None,
        }
    }
}

/// What the lines of a marker say.
pub open spec fn doubts_in(lines: Seq<Seq<u8>>) -> Seq<(u64, Seq<u8>)>
    decreases lines.len(),
{
    if lines.len() == 0 {
        Seq::empty()
    } else {
        match doubt_in(lines[0]) {
            Some(doubt) => seq![doubt] + doubts_in(lines.drop_first()),
            None => doubts_in(lines.drop_first()),
        }
    }
}

/// A byte first stands where the bytes before it say.
proof fn first_is(text: Seq<u8>, byte: u8, at: int)
    requires
        0 <= at <= text.len(),
        forall|i: int| 0 <= i < at ==> text[i] != byte,
        at < text.len() ==> text[at] == byte,
    ensures
        first_of(text, byte) == at,
    decreases at,
{
    if at > 0 {
        let rest = text.drop_first();
        assert forall|i: int| 0 <= i < at - 1 implies rest[i] != byte by {
            assert(rest[i] == text[i + 1]);
        }
        first_is(rest, byte, at - 1);
    }
}

/// Returns where a byte first stands in a text, its length when nowhere.
fn find(text: &[u8], byte: u8) -> (at: usize)
    ensures
        at == first_of(text@, byte),
        at <= text@.len(),
{
    for at in 0..text.len()
        invariant
            forall|i: int| 0 <= i < at ==> text@[i] != byte,
    {
        if text[at] == byte {
            proof {
                first_is(text@, byte, at as int);
            }
            return at;
        }
    }
    proof {
        first_is(text@, byte, text@.len() as int);
    }
    text.len()
}

/// Returns the number a text says.
fn parse_number(text: &[u8]) -> (said: Option<u64>)
    ensures
        said == number_in(text@),
{
    let start: usize = if text.len() > 0 && text[0] == 43 {
        1
    } else {
        0
    };
    let ghost whole = text@.skip(start as int);
    assert(whole =~= if text@.len() > 0 && text@[0] == 43 {
        text@.drop_first()
    } else {
        text@
    });
    if start >= text.len() {
        return None;
    }
    let mut number: u64 = 0;
    for at in start..text.len()
        invariant
            start < text@.len(),
            whole == text@.skip(start as int),
            whole == if text@.len() > 0 && text@[0] == 43 {
                text@.drop_first()
            } else {
                text@
            },
            digits(whole.take(at - start)) == Some(number as nat),
    {
        let ghost more = whole.take(at - start + 1);
        assert(more.drop_last() =~= whole.take(at - start));
        assert(more.last() == text@[at as int]);
        let byte: u8 = text[at];
        if byte < 48 || byte > 57 {
            proof {
                not_a_number(whole, at - start + 1);
            }
            return None;
        }
        let digit: u64 = (byte - 48) as u64;
        if number > (u64::MAX - digit) / 10 {
            proof {
                assert(10 * number + digit > u64::MAX);
                too_great(whole, at - start + 1);
            }
            return None;
        }
        number = 10 * number + digit;
    }
    assert(whole.take(whole.len() as int) =~= whole);
    Some(number)
}

/// Text that starts with what is no number is none.
proof fn not_a_number(text: Seq<u8>, upto: int)
    requires
        0 <= upto <= text.len(),
        digits(text.take(upto)) is None,
    ensures
        digits(text) is None,
    decreases text.len(),
{
    if upto < text.len() {
        assert(text.drop_last().take(upto) =~= text.take(upto));
        not_a_number(text.drop_last(), upto);
    } else {
        assert(text.take(upto) =~= text);
    }
}

/// Text that starts with too great a number is too great a number, if any.
proof fn too_great(text: Seq<u8>, upto: int)
    requires
        0 <= upto <= text.len(),
        digits(text.take(upto)) matches Some(number) && number > u64::MAX,
    ensures
        digits(text) matches Some(number) ==> number > u64::MAX,
    decreases text.len(),
{
    if upto < text.len() {
        assert(text.drop_last().take(upto) =~= text.take(upto));
        too_great(text.drop_last(), upto);
    } else {
        assert(text.take(upto) =~= text);
    }
}

/// What each line of a marker was read as.
pub open spec fn pairs_of(lines: Seq<(u64, Vec<u8>)>) -> Seq<(u64, Seq<u8>)> {
    lines.map_values(|line: (u64, Vec<u8>)| (line.0, line.1@))
}

/// Returns what one line of a marker says.
fn read_line(line: &[u8]) -> (said: Option<(u64, Vec<u8>)>)
    ensures
        match said {
            Some(pair) => doubt_in(line@) == Some((pair.0, pair.1@)),
            None => doubt_in(line@) is None,
        },
{
    let tab: usize = find(line, 9);
    if tab >= line.len() {
        return None;
    }
    let head = vstd::slice::slice_subrange(line, 0, tab);
    assert(head@ =~= line@.take(tab as int));
    match parse_number(head) {
        None => None,
        Some(txn) => {
            let path = copied(vstd::slice::slice_subrange(line, tab + 1, line.len()));
            assert(path@ =~= line@.skip(tab + 1));
            Some((txn, path))
        },
    }
}

/// Returns what a marker says: each transaction in doubt, and the super-journal
/// that decides it.
pub fn read_marker(text: &[u8]) -> (said: Vec<(u64, Vec<u8>)>)
    ensures
        pairs_of(said@) == doubts_in(lines_of(text@)),
{
    let mut said: Vec<(u64, Vec<u8>)> = Vec::new();
    let mut start: usize = 0;
    assert(text@.skip(0) =~= text@);
    assert(pairs_of(said@) + doubts_in(lines_of(text@)) =~= doubts_in(lines_of(text@)));
    while start < text.len()
        invariant
            start <= text@.len(),
            pairs_of(said@) + doubts_in(lines_of(text@.skip(start as int))) == doubts_in(
                lines_of(text@),
            ),
        decreases text@.len() - start,
    {
        let ghost rest = text@.skip(start as int);
        let tail = vstd::slice::slice_subrange(text, start, text.len());
        assert(tail@ =~= rest);
        let end: usize = find(tail, 10);
        let ghost so_far = said@;
        if end >= tail.len() {
            assert(lines_of(rest) == seq![rest]);
            match read_line(tail) {
                Some(pair) => said.push(pair),
                None => {},
            }
            assert(doubts_in(seq![rest].drop_first()) =~= Seq::<(u64, Seq<u8>)>::empty());
            proof {
                assert(seq![rest][0] == rest);
                match doubt_in(rest) {
                    Some(doubt) => {
                        assert(pairs_of(said@) =~= pairs_of(so_far).push(doubt));
                        assert(doubts_in(seq![rest]) =~= seq![doubt]);
                    },
                    None => {
                        assert(doubts_in(seq![rest]) =~= Seq::<(u64, Seq<u8>)>::empty());
                    },
                }
            }
            start = text.len();
            assert(text@.skip(start as int) =~= Seq::<u8>::empty());
            assert(lines_of(text@.skip(start as int)) =~= Seq::<Seq<u8>>::empty());
            assert(doubts_in(lines_of(text@.skip(start as int))) =~= Seq::<
                (u64, Seq<u8>),
            >::empty());
            assert(pairs_of(said@) + doubts_in(lines_of(text@.skip(start as int))) =~= pairs_of(
                so_far,
            ) + doubts_in(lines_of(rest)));
        } else {
            let whole = vstd::slice::slice_subrange(tail, 0, end);
            assert(whole@ =~= rest.take(end as int));
            let line = if end > 0 && whole[end - 1] == 13 {
                vstd::slice::slice_subrange(whole, 0, end - 1)
            } else {
                whole
            };
            assert(line@ =~= bare(rest.take(end as int)));
            match read_line(line) {
                Some(pair) => said.push(pair),
                None => {},
            }
            proof {
                let after = lines_of(rest.skip(end + 1));
                let lines = seq![line@] + after;
                assert(lines_of(rest) == lines);
                assert(lines.drop_first() =~= after);
                assert(lines[0] == line@);
                assert(rest.skip(end + 1) =~= text@.skip(start + end + 1));
                match doubt_in(line@) {
                    Some(doubt) => {
                        assert(pairs_of(said@) =~= pairs_of(so_far).push(doubt));
                        assert(pairs_of(so_far) + (seq![doubt] + doubts_in(after)) =~= pairs_of(
                            said@,
                        ) + doubts_in(after));
                    },
                    None => {
                        assert(pairs_of(said@) =~= pairs_of(so_far));
                    },
                }
            }
            start = start + end + 1;
        }
    }
    assert(text@.skip(start as int) =~= Seq::<u8>::empty());
    assert(doubts_in(lines_of(text@.skip(start as int))) =~= Seq::<(u64, Seq<u8>)>::empty());
    assert(pairs_of(said@) + Seq::<(u64, Seq<u8>)>::empty() =~= pairs_of(said@));
    said
}

/// A number's digits are digits, and say the number.
proof fn digits_say(number: nat)
    ensures
        decimal(number).len() > 0,
        digits(decimal(number)) == Some(number),
        forall|i: int|
            0 <= i < decimal(number).len() ==> 48 <= #[trigger] decimal(number)[i] <= 57,
    decreases number,
{
    if number < 10 {
        assert(decimal(number).drop_last() =~= Seq::<u8>::empty());
        assert(digits(Seq::<u8>::empty()) == Some(0nat));
    } else {
        digits_say(number / 10);
        assert(decimal(number).drop_last() =~= decimal(number / 10));
    }
}

/// What a marker says is read back as it was written, unless the path has a
/// line's end in it or ends in a carriage return. A path that is UTF-8 is read
/// back as it is, and another as it is shown.
pub proof fn a_marker_is_read_back(txn: u64, path: Seq<u8>)
    requires
        !shown(path).contains(10),
        shown(path).len() > 0 ==> shown(path).last() != 13,
    ensures
        doubts_in(lines_of(marker_line(txn, path))) == seq![(txn, shown(path))],
        vstd::utf8::valid_utf8(path) ==> shown(path) == path,
{
    let text = marker_line(txn, path);
    let path = shown(path);
    let number = decimal(txn as nat);
    let line = number.push(9) + path;
    digits_say(txn as nat);
    assert(text =~= line.push(10));
    assert forall|i: int| 0 <= i < line.len() implies text[i] != 10 by {
        if i > number.len() {
            assert(line[i] == path[i - number.len() - 1]);
            assert(path.contains(path[i - number.len() - 1]));
        } else if i < number.len() {
            assert(line[i] == number[i]);
        }
    }
    first_is(text, 10, line.len() as int);
    assert(text.take(line.len() as int) =~= line);
    assert(bare(line) == line) by {
        if path.len() > 0 {
            assert(line.last() == path.last());
        } else {
            assert(line.last() == 9);
        }
    }
    assert(text.skip(line.len() as int + 1) =~= Seq::<u8>::empty());
    assert(lines_of(Seq::<u8>::empty()) =~= Seq::<Seq<u8>>::empty());
    assert(lines_of(text) =~= seq![line]);
    assert forall|i: int| 0 <= i < number.len() implies line[i] != 9 by {
        assert(line[i] == number[i]);
    }
    first_is(line, 9, number.len() as int);
    assert(line.take(number.len() as int) =~= number);
    assert(line.skip(number.len() as int + 1) =~= path);
    assert(number_in(number) == Some(txn));
    assert(doubt_in(line) == Some((txn, path)));
    assert(seq![line].drop_first() =~= Seq::<Seq<u8>>::empty());
    assert(doubts_in(Seq::<Seq<u8>>::empty()) =~= Seq::<(u64, Seq<u8>)>::empty());
    assert(seq![line][0] == line);
    assert(doubts_in(seq![line]) =~= seq![(txn, path)]);
}

/// Whether a marker's transaction is in doubt: some line names it, and the
/// super-journal that line names still stands.
pub open spec fn in_doubt(said: Seq<(u64, Seq<u8>)>, standing: Seq<bool>, txn: u64) -> bool {
    exists|i: int| 0 <= i < said.len() && #[trigger] standing[i] && said[i].0 == txn
}

/// Returns the transactions whose commits in one file are votes rather than
/// decisions, and whether the file's marker is to be removed.
///
/// A line whose super-journal is gone names a transaction that did commit. A
/// marker that names none that still stands has done its work, and goes unless
/// nothing may be written: a connection that only reads removes no file.
pub fn doubtful_transactions(
    said: &[(u64, Vec<u8>)],
    standing: &[bool],
    read_only: bool,
) -> (answer: (BTreeSet<u64>, bool))
    requires
        said@.len() == standing@.len(),
    ensures
        forall|txn: u64| #[trigger]
            answer.0@.contains(txn) <==> in_doubt(pairs_of(said@), standing@, txn),
        forall|txn: u64| #[trigger]
            answer.0@.contains(txn) <==> exists|i: int|
                0 <= i < said@.len() && standing@[i] && (#[trigger] said@[i]).0 == txn,
        read_only ==> !answer.1,
        !read_only ==> answer.1 == (forall|i: int|
            0 <= i < standing@.len() ==> !(#[trigger] standing@[i])),
{
    let mut doubtful: BTreeSet<u64> = BTreeSet::new();
    let mut settled: bool = true;
    let ghost all = pairs_of(said@);
    for at in 0..said.len()
        invariant
            all == pairs_of(said@),
            said@.len() == standing@.len(),
            forall|txn: u64| #[trigger]
                doubtful@.contains(txn) <==> exists|i: int|
                    0 <= i < at && #[trigger] standing@[i] && all[i].0 == txn,
            settled == (forall|i: int| 0 <= i < at ==> !(#[trigger] standing@[i])),
    {
        if standing[at] {
            let ghost before = doubtful@;
            doubtful.insert(said[at].0);
            settled = false;
            assert(all[at as int].0 == said@[at as int].0);
            assert forall|txn: u64| #[trigger]
                doubtful@.contains(txn) <==> exists|i: int|
                    0 <= i < at + 1 && #[trigger] standing@[i] && all[i].0 == txn by {
                assert(before.contains(txn) <==> exists|i: int|
                    0 <= i < at && #[trigger] standing@[i] && all[i].0 == txn);
                if txn == said@[at as int].0 {
                    assert(standing@[at as int] && all[at as int].0 == txn);
                }
            }
        }
    }
    assert forall|txn: u64| #[trigger] doubtful@.contains(txn) <==> in_doubt(
        all,
        standing@,
        txn,
    ) by {}
    assert forall|txn: u64| #[trigger]
        doubtful@.contains(txn) <==> exists|i: int|
            0 <= i < said@.len() && standing@[i] && (#[trigger] said@[i]).0 == txn by {
        if doubtful@.contains(txn) {
            let i = choose|i: int| 0 <= i < all.len() && #[trigger] standing@[i] && all[i].0 == txn;
            assert(said@[i].0 == txn);
        }
        if exists|i: int| 0 <= i < said@.len() && standing@[i] && (#[trigger] said@[i]).0 == txn {
            let i = choose|i: int|
                0 <= i < said@.len() && standing@[i] && (#[trigger] said@[i]).0 == txn;
            assert(standing@[i] && all[i].0 == txn);
        }
    }
    (doubtful, settled && !read_only)
}

/// Whether a schema is kept in a file.
pub open spec fn kept_in_a_file(state: SessionState, at: int) -> bool {
    at == MAIN || (match state.beside_main(at) {
        Some(held) => held.path is Some,
        None => false,
    })
}

/// The schemas of a list that pass a test, in order.
pub open spec fn passing(list: Seq<int>, test: spec_fn(int) -> bool) -> Seq<int>
    decreases list.len(),
{
    if list.len() == 0 {
        Seq::empty()
    } else if test(list.last()) {
        passing(list.drop_last(), test).push(list.last())
    } else {
        passing(list.drop_last(), test)
    }
}

/// Returns the schemas of a set that are kept in files, lowest first: the ones
/// that have to agree.
pub fn durable_among(state: &SessionState, participants: u16) -> (durable: Vec<usize>)
    ensures
        numbers_of(durable@) == passing(
            schemas_of(participants, 16),
            |at: int| kept_in_a_file(*state, at),
        ),
        forall|i: int, j: int|
            0 <= i < j < durable@.len() ==> #[trigger] durable@[i] < #[trigger] durable@[j],
        forall|at: usize| #[trigger]
            durable@.contains(at) ==> at < 16 && (participants >> (at as u16)) & 1 == 1,
        durable@.contains(0) <==> participants & 1 == 1,
        forall|at: usize|
            2 <= at < 16 ==> (#[trigger] durable@.contains(at) <==> (participants >> (at as u16))
                & 1 == 1 && at - 2 < state.attached@.len() && state.attached@[at - 2].path is Some),
{
    let list = schemas_in(participants);
    let mut durable: Vec<usize> = Vec::new();
    let ghost all = numbers_of(list@);
    let ghost test = |at: int| kept_in_a_file(*state, at);
    for nth in 0..list.len()
        invariant
            all == numbers_of(list@),
            test == (|at: int| kept_in_a_file(*state, at)),
            numbers_of(durable@) =~= passing(all.take(nth as int), test),
    {
        let at: usize = list[nth];
        let ghost more = all.take(nth + 1);
        assert(more.drop_last() =~= all.take(nth as int));
        assert(more.last() == at);
        let filed: bool = if at == MAIN {
            true
        } else {
            match state.schema_at(at) {
                Some(held) => held.path.is_some(),
                None => false,
            }
        };
        if filed {
            let ghost before = durable@;
            durable.push(at);
            assert(numbers_of(durable@) =~= numbers_of(before).push(at as int));
        }
    }
    assert(all.take(all.len() as int) =~= all);
    proof {
        passing_keeps(all, test);
        lists_agree(list@, durable@, test);
        assert(participants >> 0 == participants) by (bit_vector);
        assert(list@.contains(0) <==> (participants >> (0usize as u16)) & 1 == 1);
        assert forall|at: usize|
            2 <= at < 16 implies (#[trigger] durable@.contains(at) <==> (participants >> (
            at as u16)) & 1 == 1 && at - 2 < state.attached@.len() && state.attached@[at
            - 2].path is Some) by {
            assert(durable@.contains(at) <==> list@.contains(at) && test(at as int));
            assert(list@.contains(at) <==> at < 16 && (participants >> (at as u16)) & 1 == 1);
        }
        assert forall|at: usize| #[trigger] durable@.contains(at) implies at < 16 && (participants
            >> (at as u16)) & 1 == 1 by {
            assert(durable@.contains(at) <==> list@.contains(at) && test(at as int));
            assert(list@.contains(at) <==> at < 16 && (participants >> (at as u16)) & 1 == 1);
        }
    }
    durable
}

/// What passes a test of an ascending list is ascending, and is what of the list
/// passes it.
proof fn passing_keeps(list: Seq<int>, test: spec_fn(int) -> bool)
    requires
        forall|i: int, j: int| 0 <= i < j < list.len() ==> #[trigger] list[i] < #[trigger] list[j],
    ensures
        forall|i: int, j: int|
            0 <= i < j < passing(list, test).len() ==> #[trigger] passing(list, test)[i]
                < #[trigger] passing(list, test)[j],
        forall|at: int| #[trigger]
            passing(list, test).contains(at) <==> list.contains(at) && test(at),
    decreases list.len(),
{
    let kept = passing(list, test);
    if list.len() > 0 {
        let fewer = list.drop_last();
        let before = passing(fewer, test);
        assert forall|i: int, j: int| 0 <= i < j < fewer.len() implies #[trigger] fewer[i]
            < #[trigger] fewer[j] by {
            assert(fewer[i] == list[i] && fewer[j] == list[j]);
        }
        passing_keeps(fewer, test);
        assert forall|at: int| #[trigger] kept.contains(at) <==> list.contains(at) && test(at) by {
            assert(before.contains(at) <==> fewer.contains(at) && test(at));
            if kept.contains(at) {
                let i = choose|i: int| 0 <= i < kept.len() && kept[i] == at;
                if i < before.len() {
                    assert(before[i] == at);
                    let k = choose|k: int| 0 <= k < fewer.len() && fewer[k] == at;
                    assert(list[k] == at);
                } else {
                    assert(list[list.len() - 1] == at);
                }
            }
            if list.contains(at) && test(at) {
                let k = choose|k: int| 0 <= k < list.len() && list[k] == at;
                if k < fewer.len() {
                    assert(fewer[k] == at);
                    assert(before.contains(at));
                    let i = choose|i: int| 0 <= i < before.len() && before[i] == at;
                    assert(kept[i] == at);
                } else {
                    assert(kept[kept.len() - 1] == at);
                }
            }
        }
        assert forall|i: int, j: int| 0 <= i < j < kept.len() implies #[trigger] kept[i]
            < #[trigger] kept[j] by {
            if j < before.len() {
                assert(before[i] == kept[i] && before[j] == kept[j]);
            } else {
                assert(before[i] == kept[i]);
                assert(before.contains(before[i]));
                let k = choose|k: int| 0 <= k < fewer.len() && fewer[k] == before[i];
                assert(list[k] < list[list.len() - 1]);
            }
        }
    }
}

/// A list of numbers that is what passes a test of another holds what passes it.
proof fn lists_agree(list: Seq<usize>, kept: Seq<usize>, test: spec_fn(int) -> bool)
    requires
        numbers_of(kept) == passing(numbers_of(list), test),
        forall|i: int, j: int| 0 <= i < j < list.len() ==> #[trigger] list[i] < #[trigger] list[j],
    ensures
        forall|at: usize| #[trigger]
            kept.contains(at) <==> list.contains(at) && test(at as int),
        forall|i: int, j: int| 0 <= i < j < kept.len() ==> #[trigger] kept[i] < #[trigger] kept[j],
{
    let all = numbers_of(list);
    let some = numbers_of(kept);
    assert forall|i: int, j: int| 0 <= i < j < all.len() implies #[trigger] all[i]
        < #[trigger] all[j] by {
        assert(list[i] < list[j]);
    }
    passing_keeps(all, test);
    assert forall|at: usize| #[trigger] kept.contains(at) <==> list.contains(at) && test(
        at as int,
    ) by {
        assert(some.contains(at as int) <==> all.contains(at as int) && test(at as int));
        if kept.contains(at) {
            let i = choose|i: int| 0 <= i < kept.len() && kept[i] == at;
            assert(some[i] == at as int);
            let k = choose|k: int| 0 <= k < all.len() && all[k] == at as int;
            assert(list[k] == at);
        }
        if list.contains(at) && test(at as int) {
            let k = choose|k: int| 0 <= k < list.len() && list[k] == at;
            assert(all[k] == at as int);
            let i = choose|i: int| 0 <= i < some.len() && some[i] == at as int;
            assert(kept[i] == at);
        }
    }
    assert forall|i: int, j: int| 0 <= i < j < kept.len() implies #[trigger] kept[i]
        < #[trigger] kept[j] by {
        assert(some[i] == kept[i] && some[j] == kept[j]);
    }
}

/// Returns the schemas whose logs a transaction is committed in, lowest first.
///
/// None when it wrote to none that is still attached; `main`'s log is then where
/// the commit is recorded.
pub fn voters(state: &SessionState, participants: u16) -> (voters: Vec<usize>)
    ensures
        numbers_of(voters@) == passing(
            schemas_of(participants, 16),
            |at: int| state.leads_to(at) is Some,
        ),
        forall|i: int, j: int|
            0 <= i < j < voters@.len() ==> #[trigger] voters@[i] < #[trigger] voters@[j],
        forall|at: usize| #[trigger]
            voters@.contains(at) ==> at < 16 && (participants >> (at as u16)) & 1 == 1,
        forall|at: usize|
            at < 16 && at != 1 ==> (#[trigger] voters@.contains(at) <==> (participants >> (
            at as u16)) & 1 == 1 && (at == 0 || at - 2 < state.attached@.len())),
        voters@.contains(1) <==> (participants >> 1) & 1 == 1 && exists|i: int|
            0 <= i < state.temps@.len() && (#[trigger] state.temps@[i]).session == Some(
                state.session,
            ),
{
    let list = schemas_in(participants);
    let mut voters: Vec<usize> = Vec::new();
    let ghost all = numbers_of(list@);
    let ghost test = |at: int| state.leads_to(at) is Some;
    for nth in 0..list.len()
        invariant
            all == numbers_of(list@),
            test == (|at: int| state.leads_to(at) is Some),
            numbers_of(voters@) =~= passing(all.take(nth as int), test),
    {
        let at: usize = list[nth];
        let ghost more = all.take(nth + 1);
        assert(more.drop_last() =~= all.take(nth as int));
        assert(more.last() == at);
        if state.slot_of(at).is_some() {
            let ghost before = voters@;
            voters.push(at);
            assert(numbers_of(voters@) =~= numbers_of(before).push(at as int));
        }
    }
    assert(all.take(all.len() as int) =~= all);
    proof {
        lists_agree(list@, voters@, test);
        crate::sessions::temp_is_listed(state.temps@, state.session);
        assert forall|at: usize| at < 16 && at != 1 implies (#[trigger] voters@.contains(at) <==> (
        participants >> (at as u16)) & 1 == 1 && (at == 0 || at - 2 < state.attached@.len())) by {
            assert(voters@.contains(at) <==> list@.contains(at) && test(at as int));
            assert(list@.contains(at) <==> at < 16 && (participants >> (at as u16)) & 1 == 1);
        }
        assert forall|at: usize| #[trigger] voters@.contains(at) implies at < 16 && (participants
            >> (at as u16)) & 1 == 1 by {
            assert(voters@.contains(at) <==> list@.contains(at) && test(at as int));
            assert(list@.contains(at) <==> at < 16 && (participants >> (at as u16)) & 1 == 1);
        }
        assert(voters@.contains(1) <==> list@.contains(1) && test(1));
        assert(list@.contains(1) <==> (participants >> (1usize as u16)) & 1 == 1);
    }
    voters
}

/// What a commit over several files does next.
#[derive(Clone, Copy, Debug, PartialEq, Eq, Structural)]
pub enum CommitStage {
    /// It writes the super-journal.
    Creating,
    /// It writes the marker beside one participant.
    Marking(usize),
    /// Every participant's log is given its commit record. Alone, that is the
    /// decision.
    Voting(bool),
    /// It deletes the super-journal.
    Deciding,
    /// It deletes the markers.
    Clearing,
    /// It deletes the super-journal and the markers of the participants before
    /// one that could not be marked.
    Abandoning(usize),
    /// It is over, and the transaction was committed or was not.
    Over(bool),
}

/// What a commit over some files kept on disk does first.
///
/// One file decides for itself, so a transaction that wrote one writes no
/// super-journal.
pub open spec fn first_stage_of(durable: int) -> CommitStage {
    if durable < 2 {
        CommitStage::Voting(true)
    } else {
        CommitStage::Creating
    }
}

/// What a commit does after a stage that succeeded or did not.
pub open spec fn stage_after(stage: CommitStage, durable: int, ok: bool) -> CommitStage {
    match stage {
        CommitStage::Creating => if ok {
            CommitStage::Marking(0)
        } else {
            CommitStage::Over(false)
        },
        CommitStage::Marking(at) => if !ok {
            CommitStage::Abandoning(at)
        } else if at + 1 < durable {
            CommitStage::Marking((at + 1) as usize)
        } else {
            CommitStage::Voting(false)
        },
        CommitStage::Voting(alone) => if alone {
            CommitStage::Over(ok)
        } else if ok {
            CommitStage::Deciding
        } else {
            CommitStage::Over(false)
        },
        CommitStage::Deciding => if ok {
            CommitStage::Clearing
        } else {
            CommitStage::Over(false)
        },
        CommitStage::Clearing => CommitStage::Over(true),
        CommitStage::Abandoning(_) => CommitStage::Over(false),
        CommitStage::Over(committed) => CommitStage::Over(committed),
    }
}

/// Returns what a commit over some files kept on disk does first.
pub fn first_stage(durable: usize) -> (stage: CommitStage)
    ensures
        stage == first_stage_of(durable as int),
        durable < 2 ==> stage == CommitStage::Voting(true),
        durable >= 2 ==> stage is Creating,
{
    if durable < 2 {
        CommitStage::Voting(true)
    } else {
        CommitStage::Creating
    }
}

/// Returns what a commit does after a stage that succeeded or did not.
pub fn next_stage(stage: CommitStage, durable: usize, ok: bool) -> (next: CommitStage)
    requires
        stage matches CommitStage::Marking(at) ==> at < durable,
    ensures
        next == stage_after(stage, durable as int, ok),
        stage is Creating ==> next == (if ok {
            CommitStage::Marking(0)
        } else {
            CommitStage::Over(false)
        }),
        stage matches CommitStage::Marking(at) ==> {
            &&& !ok ==> next == CommitStage::Abandoning(at)
            &&& ok && at + 1 < durable ==> next == CommitStage::Marking((at + 1) as usize)
            &&& ok && at + 1 == durable ==> next == CommitStage::Voting(false)
        },
        stage == CommitStage::Voting(true) ==> next == CommitStage::Over(ok),
        stage == CommitStage::Voting(false) && ok ==> next is Deciding,
        stage is Deciding && ok ==> next is Clearing,
        stage is Clearing ==> next == CommitStage::Over(true),
        !ok && (stage is Voting || stage is Deciding || stage is Abandoning) ==> next
            == CommitStage::Over(false),
        stage is Abandoning ==> next == CommitStage::Over(false),
        stage is Over ==> next == stage,
{
    match stage {
        CommitStage::Creating => if ok {
            CommitStage::Marking(0)
        } else {
            CommitStage::Over(false)
        },
        CommitStage::Marking(at) => if !ok {
            CommitStage::Abandoning(at)
        } else if at + 1 < durable {
            CommitStage::Marking(at + 1)
        } else {
            CommitStage::Voting(false)
        },
        CommitStage::Voting(alone) => if alone {
            CommitStage::Over(ok)
        } else if ok {
            CommitStage::Deciding
        } else {
            CommitStage::Over(false)
        },
        CommitStage::Deciding => if ok {
            CommitStage::Clearing
        } else {
            CommitStage::Over(false)
        },
        CommitStage::Clearing => CommitStage::Over(true),
        CommitStage::Abandoning(_) => CommitStage::Over(false),
        CommitStage::Over(committed) => CommitStage::Over(committed),
    }
}

/// What stands on disk in the middle of a commit over several files.
pub struct Disk {
    /// Whether the super-journal stands.
    pub journal: bool,
    /// The participants a marker that names the super-journal stands beside.
    pub marked: Set<int>,
    /// The participants whose logs hold the commit record.
    pub voted: Set<int>,
}

/// The participants of a commit.
pub open spec fn everyone(durable: int) -> Set<int> {
    Set::new(|at: int| 0 <= at < durable)
}

/// Whether a participant recovers with the transaction.
pub open spec fn recovers(disk: Disk, at: int) -> bool {
    disk.voted.contains(at) && !(disk.journal && disk.marked.contains(at))
}

/// Whether every participant recovers with the transaction or none does.
pub open spec fn all_agree(disk: Disk, durable: int) -> bool {
    forall|one: int, two: int|
        0 <= one < durable && 0 <= two < durable ==> #[trigger] recovers(disk, one)
            == #[trigger] recovers(disk, two)
}

/// What may stand on disk when a stage begins.
pub open spec fn stands(stage: CommitStage, disk: Disk, durable: int) -> bool {
    match stage {
        CommitStage::Creating => disk.marked =~= Set::empty() && disk.voted =~= Set::empty(),
        CommitStage::Marking(at) => at < durable && disk.journal && disk.voted =~= Set::empty()
            && everyone(at as int).subset_of(disk.marked),
        CommitStage::Voting(alone) => !alone && disk.journal && everyone(durable).subset_of(
            disk.marked,
        ),
        CommitStage::Deciding => disk.journal && everyone(durable).subset_of(disk.marked)
            && everyone(durable).subset_of(disk.voted),
        CommitStage::Clearing => !disk.journal && everyone(durable).subset_of(disk.voted),
        CommitStage::Abandoning(_) => disk.voted =~= Set::empty(),
        CommitStage::Over(committed) => if committed {
            !disk.journal && everyone(durable).subset_of(disk.voted)
        } else {
            all_agree(disk, durable)
        },
    }
}

/// What a stage may have left on disk, whether it was finished or cut off.
pub open spec fn may_leave(
    stage: CommitStage,
    before: Disk,
    after: Disk,
    durable: int,
    finished: bool,
) -> bool {
    match stage {
        CommitStage::Creating => {
            &&& after.marked =~= before.marked
            &&& after.voted =~= before.voted
            &&& finished ==> after.journal
        },
        CommitStage::Marking(at) => {
            &&& after.journal == before.journal
            &&& after.voted =~= before.voted
            &&& before.marked.subset_of(after.marked)
            &&& finished ==> after.marked.contains(at as int)
        },
        CommitStage::Voting(_) => {
            &&& after.journal == before.journal
            &&& after.marked =~= before.marked
            &&& finished ==> everyone(durable).subset_of(after.voted)
        },
        CommitStage::Deciding => {
            &&& after.marked =~= before.marked
            &&& after.voted =~= before.voted
            &&& finished ==> !after.journal
        },
        CommitStage::Clearing => {
            &&& after.journal == before.journal
            &&& after.voted =~= before.voted
        },
        CommitStage::Abandoning(_) => after.voted =~= before.voted,
        CommitStage::Over(_) => after == before,
    }
}

/// No participant commits without the others.
///
/// Whatever stage of the commit is cut off, and wherever in the stage, what it
/// leaves on disk has every participant recover with the transaction or none of
/// them.
pub proof fn no_file_commits_alone(
    stage: CommitStage,
    before: Disk,
    after: Disk,
    durable: int,
    finished: bool,
)
    requires
        2 <= durable <= usize::MAX,
        stands(stage, before, durable),
        may_leave(stage, before, after, durable, finished),
    ensures
        all_agree(after, durable),
        stands(stage_after(stage, durable, finished), after, durable),
{
    match stage {
        CommitStage::Marking(at) => {
            assert forall|one: int| 0 <= one < durable implies !(#[trigger] recovers(
                after,
                one,
            )) by {}
            if finished {
                assert forall|other: int| everyone(at + 1).contains(other) implies #[trigger]
                after.marked.contains(other) by {
                    if other < at {
                        assert(everyone(at as int).contains(other));
                    }
                }
                assert(everyone(at + 1).subset_of(after.marked));
                if at + 1 < durable {
                    assert(stage_after(stage, durable, finished) == CommitStage::Marking(
                        (at + 1) as usize,
                    ));
                    assert((at + 1) as usize == at + 1);
                } else {
                    assert forall|other: int| everyone(durable).contains(other) implies #[trigger]
                    after.marked.contains(other) by {
                        assert(everyone(at + 1).contains(other));
                    }
                    assert(everyone(durable).subset_of(after.marked));
                }
            }
        },
        CommitStage::Voting(_) => {
            assert forall|one: int| 0 <= one < durable implies !(#[trigger] recovers(
                after,
                one,
            )) by {
                assert(everyone(durable).contains(one));
            }
        },
        CommitStage::Deciding => {
            assert forall|one: int| 0 <= one < durable implies #[trigger] recovers(after, one)
                == !after.journal by {
                assert(everyone(durable).contains(one));
            }
        },
        CommitStage::Clearing => {
            assert forall|one: int| 0 <= one < durable implies #[trigger] recovers(after, one) by {
                assert(everyone(durable).contains(one));
            }
        },
        CommitStage::Over(committed) => {
            if committed {
                assert forall|one: int| 0 <= one < durable implies #[trigger] recovers(
                    after,
                    one,
                ) by {
                    assert(everyone(durable).contains(one));
                }
            }
        },
        _ => {},
    }
}

/// A commit that says it succeeded is one every participant recovers with, and
/// one that was given up before the deletion is one none recovers with.
pub proof fn a_commit_tells_the_truth(disk: Disk, durable: int)
    ensures
        stands(CommitStage::Over(true), disk, durable) ==> forall|at: int|
            0 <= at < durable ==> #[trigger] recovers(disk, at),
        stands(CommitStage::Voting(false), disk, durable) ==> forall|at: int|
            0 <= at < durable ==> !(#[trigger] recovers(disk, at)),
        stands(CommitStage::Abandoning(0), disk, durable) ==> forall|at: int|
            0 <= at < durable ==> !(#[trigger] recovers(disk, at)),
{
    assert forall|at: int| 0 <= at < durable implies everyone(durable).contains(at) by {}
}

/// A number is written in sixteen digits, the small letters after the ten: one for a
/// number under sixteen, and else the digits of a sixteenth of it with one more after
/// them. Noughts fill it up to eight, and nothing is cut off.
pub proof fn a_number_is_its_hex_digits(number: nat)
    ensures
        hex(number).len() > 0,
        number % 16 < 10 ==> hex(number).last() == 48 + number % 16,
        number % 16 >= 10 ==> hex(number).last() == 97 + (number % 16 - 10),
        hex(number).len() == 1 <==> number < 16,
        number >= 16 ==> hex(number).drop_last() == hex(number / 16),
        hex8(number).len() >= 8,
        hex8(number).len() > 8 ==> hex8(number) == hex(number),
        hex8(number).subrange(
            hex8(number).len() - hex(number).len(),
            hex8(number).len() as int,
        ) == hex(number),
        forall|i: int|
            0 <= i < hex8(number).len() - hex(number).len() ==> #[trigger] hex8(number)[i] == 48,
    decreases number,
{
    if number >= 16 {
        a_number_is_its_hex_digits(number / 16);
        assert(hex(number).drop_last() =~= hex(number / 16));
    }
    assert(hex8(number).subrange(
        hex8(number).len() - hex(number).len(),
        hex8(number).len() as int,
    ) =~= hex(number));
}

/// A super-journal lists its files one to a line, in their order.
pub proof fn a_listing_has_a_line_for_each(before: Seq<Seq<u8>>, after: Seq<Seq<u8>>, file: Seq<u8>)
    ensures
        listing(Seq::empty()) == Seq::<u8>::empty(),
        listing(seq![file]) == shown(file) + seq![10u8],
        listing(before + after) == listing(before) + listing(after),
    decreases after.len(),
{
    assert(seq![file].drop_last() =~= Seq::<Seq<u8>>::empty());
    assert(listing(Seq::<Seq<u8>>::empty()) =~= Seq::<u8>::empty());
    assert(seq![file].last() == file);
    assert(listing(seq![file]) == listing(Seq::<Seq<u8>>::empty()) + shown(file).push(10));
    assert(listing(seq![file]) =~= shown(file) + seq![10u8]);
    if after.len() == 0 {
        assert(before + after =~= before);
        assert(listing(before) + listing(after) =~= listing(before));
    } else {
        let whole = before + after;
        assert(whole.drop_last() =~= before + after.drop_last());
        assert(whole.last() == after.last());
        a_listing_has_a_line_for_each(before, after.drop_last(), file);
        assert(listing(whole) =~= listing(before) + listing(after));
    }
}

/// A text is read line by line: a line ends at its feed, a return before the feed is
/// none of it, and what is after the last feed is a line as it stands.
pub proof fn lines_end_at_their_feeds(line: Seq<u8>, rest: Seq<u8>)
    requires
        !line.contains(10),
    ensures
        lines_of(Seq::empty()) == Seq::<Seq<u8>>::empty(),
        line.len() > 0 ==> lines_of(line) == seq![line],
        (line.len() == 0 || line.last() != 13) ==> lines_of(line + seq![10u8] + rest) == seq![line]
            + lines_of(rest),
        lines_of(line + seq![13u8, 10u8] + rest) == seq![line] + lines_of(rest),
{
    assert forall|i: int| 0 <= i < line.len() implies line[i] != 10 by {
        assert(line.contains(line[i]));
    }
    first_is(line, 10, line.len() as int);
    let plain = line + seq![10u8] + rest;
    let at = line.len() as int;
    assert forall|i: int| 0 <= i < at implies plain[i] != 10 by {
        assert(plain[i] == line[i]);
    }
    assert(plain[at] == 10);
    first_is(plain, 10, at);
    assert(plain.take(at) =~= line);
    assert(plain.skip(at + 1) =~= rest);
    let returned = line + seq![13u8, 10u8] + rest;
    assert forall|i: int| 0 <= i < at + 1 implies returned[i] != 10 by {
        if i < at {
            assert(returned[i] == line[i]);
        } else {
            assert(returned[i] == 13);
        }
    }
    assert(returned[at + 1] == 10);
    first_is(returned, 10, at + 1);
    assert(returned.take(at + 1) =~= line.push(13));
    assert(line.push(13).drop_last() =~= line);
    assert(returned.skip(at + 2) =~= rest);
}

/// What is read of lines is what is read of each in turn: of one that is a number, a
/// tab and a path, the number and the path; of any other nothing.
pub proof fn a_line_says_its_number_and_path(
    number: Seq<u8>,
    path: Seq<u8>,
    after: Seq<Seq<u8>>,
)
    requires
        !number.contains(9),
    ensures
        doubts_in(Seq::empty()) == Seq::<(u64, Seq<u8>)>::empty(),
        number_in(number) is Some ==> doubts_in(seq![number + seq![9u8] + path] + after) == seq![
            (number_in(number)->Some_0, path),
        ] + doubts_in(after),
        number_in(number) is None ==> doubts_in(seq![number + seq![9u8] + path] + after)
            == doubts_in(after),
        doubts_in(seq![number] + after) == doubts_in(after),
{
    let line = number + seq![9u8] + path;
    let at = number.len() as int;
    assert forall|i: int| 0 <= i < at implies number[i] != 9 by {
        assert(number.contains(number[i]));
    }
    assert forall|i: int| 0 <= i < at implies line[i] != 9 by {
        assert(line[i] == number[i]);
    }
    assert(line[at] == 9);
    first_is(line, 9, at);
    first_is(number, 9, at);
    assert(line.take(at) =~= number);
    assert(line.skip(at + 1) =~= path);
    let lines = seq![line] + after;
    assert(lines[0] == line);
    assert(lines.drop_first() =~= after);
    let bad = seq![number] + after;
    assert(bad[0] == number);
    assert(bad.drop_first() =~= after);
}

/// A text is a number where it is digits alone, a plus before them or not, and no more
/// than a number can be: one digit more makes it ten times as great and that digit.
pub proof fn a_number_is_read_from_its_digits(text: Seq<u8>, digit: u8)
    ensures
        number_in(Seq::empty()) is None,
        number_in(seq![43u8]) is None,
        48 <= digit <= 57 ==> number_in(seq![digit]) == Some((digit - 48) as u64),
        !(48 <= digit <= 57) ==> number_in(text.push(digit)) is None,
        text.len() > 0 && 48 <= text[0] <= 57 ==> number_in(seq![43u8] + text) == number_in(text),
        48 <= digit <= 57 && number_in(text) is Some && 10 * number_in(text)->Some_0 + (digit - 48)
            <= u64::MAX ==> number_in(text.push(digit)) == Some(
            (10 * number_in(text)->Some_0 + (digit - 48)) as u64,
        ),
        48 <= digit <= 57 && number_in(text) is Some && 10 * number_in(text)->Some_0 + (digit - 48)
            > u64::MAX ==> number_in(text.push(digit)) is None,
        text.len() > 1 && number_in(text) is None ==> number_in(text.push(digit)) is None,
{
    assert(seq![43u8].drop_first() =~= Seq::<u8>::empty());
    assert(seq![digit].drop_last() =~= Seq::<u8>::empty());
    assert(digits(Seq::<u8>::empty()) == Some(0nat));
    let more = text.push(digit);
    assert(more.drop_last() =~= text);
    if text.len() > 0 {
        assert(more.drop_first() =~= text.drop_first().push(digit));
        assert(text.drop_first().push(digit).drop_last() =~= text.drop_first());
        assert(more[0] == text[0]);
    } else {
        assert(more =~= seq![digit]);
    }
    let plus = seq![43u8] + text;
    assert(plus.drop_first() =~= text);
    assert(plus[0] == 43);
}

} // verus!
