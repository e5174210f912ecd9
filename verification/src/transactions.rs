//! The transaction a connection has open, and what would put it back.
//!
//! A batch is the unit that is kept or discarded, and the record of what a
//! change replaced is written before the change. Undoing walks those records
//! newest first, back to a mark or back to the start; committing forgets them.

use vstd::prelude::*;

use crate::refusals::Refusal;
use crate::sessions::{numbers_of, schemas_in, schemas_of};
use crate::text::{copied, fold, folded, same};
use crate::values::{owned_row, row_of, Datum, OwnedDatum, Value};

verus! {

/// What one change replaced.
#[verifier::ext_equal]
pub struct Image {
    /// The schema the changed tree belongs to.
    pub schema: int,
    /// The tree, by its own file's identifier.
    pub tree: int,
    /// The key that was changed, for a change that replaced no row.
    pub key: Seq<Value>,
    /// The row that was replaced, none for an insert.
    pub row: Option<Seq<Value>>,
}

/// What one change replaced, held until the transaction ends.
#[derive(Debug)]
pub struct Before {
    /// The schema the changed tree belongs to.
    pub schema: usize,
    /// The tree, by its own file's identifier.
    pub tree: u64,
    /// The key that was changed, empty when the row says it.
    pub key: Vec<OwnedDatum>,
    /// The row that was replaced, none for an insert.
    pub row: Option<Vec<OwnedDatum>>,
}

impl View for Before {
    type V = Image;

    open spec fn view(&self) -> Image {
        Image {
            schema: self.schema as int,
            tree: self.tree as int,
            key: owned_row(self.key@),
            row: match self.row {
                Some(row) => Some(owned_row(row@)),
                None => None,
            },
        }
    }
}

/// What each change replaced, in the order the changes were made.
pub open spec fn images(undo: Seq<Before>) -> Seq<Image> {
    undo.map_values(|before: Before| before@)
}

/// Returns the record of one change.
///
/// A replaced row carries its own key, so the key is copied only for an insert,
/// whose record has no row to find it in.
pub fn before_change(
    schema: usize,
    tree: u64,
    key: &[Datum<'_>],
    before: Option<Vec<OwnedDatum>>,
) -> (record: Before)
    ensures
        record@ == (Image {
            schema: schema as int,
            tree: tree as int,
            key: if before is Some {
                Seq::empty()
            } else {
                row_of(key@)
            },
            row: match before {
                Some(row) => Some(owned_row(row@)),
                None => None,
            },
        }),
{
    let mut held: Vec<OwnedDatum> = Vec::new();
    if before.is_none() {
        for at in 0..key.len()
            invariant
                owned_row(held@) =~= row_of(key@).take(at as int),
        {
            let ghost so_far = held@;
            held.push(OwnedDatum::from_datum(&key[at]));
            assert(owned_row(held@) =~= owned_row(so_far).push(key@[at as int]@));
        }
        assert(row_of(key@).take(key@.len() as int) =~= row_of(key@));
    }
    assert(before is Some ==> owned_row(held@) =~= Seq::<Value>::empty());
    Before { schema, tree, key: held, row: before }
}

/// The rows of every tree, by schema, tree and key.
pub type Rows = Map<(int, int, Seq<Value>), Seq<Value>>;

/// Where a replaced row stood.
pub open spec fn place_of_image(
    image: Image,
    key_of: spec_fn(int, int, Seq<Value>) -> Seq<Value>,
) -> (int, int, Seq<Value>) {
    (
        image.schema,
        image.tree,
        match image.row {
            Some(row) => key_of(image.schema, image.tree, row),
            None => image.key,
        },
    )
}

/// The rows once one change is put back.
pub open spec fn put_back(
    rows: Rows,
    image: Image,
    key_of: spec_fn(int, int, Seq<Value>) -> Seq<Value>,
) -> Rows {
    match image.row {
        Some(row) => rows.insert(place_of_image(image, key_of), row),
        None => rows.remove(place_of_image(image, key_of)),
    }
}

/// The rows once every change past the first few is put back, the newest first.
pub open spec fn undone(
    rows: Rows,
    changes: Seq<Image>,
    floor: int,
    key_of: spec_fn(int, int, Seq<Value>) -> Seq<Value>,
) -> Rows
    decreases changes.len(),
{
    if changes.len() <= floor || changes.len() == 0 {
        rows
    } else {
        undone(put_back(rows, changes.last(), key_of), changes.drop_last(), floor, key_of)
    }
}

/// Whether a record tells one state of the rows from the next: only one row
/// changed, and the record says what stood there.
pub open spec fn remembers(
    before: Rows,
    after: Rows,
    image: Image,
    key_of: spec_fn(int, int, Seq<Value>) -> Seq<Value>,
) -> bool {
    let place = place_of_image(image, key_of);
    &&& before.remove(place) == after.remove(place)
    &&& image.row == (if before.contains_key(place) {
        Some(before[place])
    } else {
        None
    })
}

/// Undoing puts the rows back as they stood at the mark.
///
/// Each change is put back over the state it was made in, which is why the
/// newest goes first: put back in the other order, two changes of one row would
/// leave the row between them.
pub proof fn undoing_restores_the_mark(
    states: Seq<Rows>,
    changes: Seq<Image>,
    floor: int,
    key_of: spec_fn(int, int, Seq<Value>) -> Seq<Value>,
)
    requires
        states.len() == changes.len() + 1,
        0 <= floor <= changes.len(),
        forall|i: int|
            0 <= i < changes.len() ==> remembers(
                states[i],
                states[i + 1],
                #[trigger] changes[i],
                key_of,
            ),
    ensures
        undone(states.last(), changes, floor, key_of) == states[floor],
    decreases changes.len(),
{
    if changes.len() > floor {
        let last = changes.len() - 1;
        let image = changes[last];
        let place = place_of_image(image, key_of);
        assert(remembers(states[last], states[last + 1], changes[last], key_of));
        let back = put_back(states.last(), image, key_of);
        assert(states.last() == states[last + 1]);
        assert forall|other: (int, int, Seq<Value>)| #[trigger] back.contains_key(other)
            == states[last].contains_key(other) && (back.contains_key(other) ==> back[other]
            == states[last][other]) by {
            if other != place {
                assert(states[last].remove(place).contains_key(other) == states[last + 1].remove(
                    place,
                ).contains_key(other));
                assert(states[last].remove(place)[other] == states[last + 1].remove(place)[other]);
            }
        }
        assert(back =~= states[last]);
        let fewer = states.drop_last();
        assert forall|i: int| 0 <= i < changes.drop_last().len() implies remembers(
            fewer[i],
            fewer[i + 1],
            #[trigger] changes.drop_last()[i],
            key_of,
        ) by {
            assert(changes.drop_last()[i] == changes[i]);
        }
        undoing_restores_the_mark(fewer, changes.drop_last(), floor, key_of);
    }
}

/// The record of a change tells the state before it from the state after.
pub proof fn a_record_remembers_its_change(
    before: Rows,
    after: Rows,
    schema: int,
    tree: int,
    key: Seq<Value>,
    key_of: spec_fn(int, int, Seq<Value>) -> Seq<Value>,
)
    requires
        before.remove((schema, tree, key)) == after.remove((schema, tree, key)),
        before.contains_key((schema, tree, key)) ==> key_of(
            schema,
            tree,
            before[(schema, tree, key)],
        ) == key,
    ensures
        remembers(
            before,
            after,
            (Image {
                schema,
                tree,
                key: if before.contains_key((schema, tree, key)) {
                    Seq::empty()
                } else {
                    key
                },
                row: if before.contains_key((schema, tree, key)) {
                    Some(before[(schema, tree, key)])
                } else {
                    None
                },
            }),
            key_of,
        ),
{
}

/// What a connection is in the middle of writing.
#[verifier::ext_equal]
pub struct Ledger {
    /// The transaction statements join, when one is open.
    pub batch: Option<u64>,
    /// What each change since the transaction began replaced.
    pub undo: Seq<Image>,
    /// The schemas the transaction has written to.
    pub touched: u16,
    /// The open savepoints, each with how many changes stood when it was made.
    pub marks: Seq<(Seq<u8>, int)>,
    /// How many files the last commit had to agree over.
    pub decided_over: int,
    /// Whether a savepoint, and not a `BEGIN`, opened the transaction.
    pub implicit_transaction: bool,
    /// The number the next transaction takes.
    pub next_txn: u64,
    /// The transaction of a statement that is its own.
    pub statement_txn: Option<u64>,
    /// How many statements are inside the file.
    pub running: int,
    /// Whether foreign keys are being settled.
    pub settling: bool,
}

/// What a connection is in the middle of writing.
#[derive(Debug)]
pub struct Writing {
    /// The transaction statements join, when one is open.
    pub batch: Option<u64>,
    /// What each change since the transaction began replaced.
    pub undo: Vec<Before>,
    /// The schemas the transaction has written to.
    pub touched: u16,
    /// The open savepoints, each with how many changes stood when it was made.
    pub marks: Vec<(Vec<u8>, usize)>,
    /// How many files the last commit had to agree over.
    pub decided_over: usize,
    /// Whether a savepoint, and not a `BEGIN`, opened the transaction.
    pub implicit_transaction: bool,
    /// The number the next transaction takes.
    pub next_txn: u64,
    /// The transaction of a statement that is its own.
    pub statement_txn: Option<u64>,
    /// How many statements are inside the file.
    pub running: usize,
    /// Whether foreign keys are being settled.
    pub settling: bool,
}

/// What each savepoint is.
pub open spec fn marks_of(marks: Seq<(Vec<u8>, usize)>) -> Seq<(Seq<u8>, int)> {
    marks.map_values(|mark: (Vec<u8>, usize)| (mark.0@, mark.1 as int))
}

impl View for Writing {
    type V = Ledger;

    open spec fn view(&self) -> Ledger {
        Ledger {
            batch: self.batch,
            undo: images(self.undo@),
            touched: self.touched,
            marks: marks_of(self.marks@),
            decided_over: self.decided_over as int,
            implicit_transaction: self.implicit_transaction,
            next_txn: self.next_txn,
            statement_txn: self.statement_txn,
            running: self.running as int,
            settling: self.settling,
        }
    }
}

/// A number one past another, or the last there is.
pub open spec fn one_past(number: u64) -> u64 {
    if number == u64::MAX {
        u64::MAX
    } else {
        (number + 1) as u64
    }
}

/// The newest savepoint of a name, by its position.
pub open spec fn mark_named(marks: Seq<(Seq<u8>, int)>, name: Seq<u8>) -> Option<int>
    decreases marks.len(),
{
    if marks.len() == 0 {
        None
    } else if marks.last().0 == folded(name) {
        Some(marks.len() - 1)
    } else {
        mark_named(marks.drop_last(), name)
    }
}

/// The newest savepoint of a name is one of that name, and none after it is.
pub proof fn a_mark_is_the_newest(marks: Seq<(Seq<u8>, int)>, name: Seq<u8>)
    ensures
        match mark_named(marks, name) {
            Some(at) => 0 <= at < marks.len() && marks[at].0 == folded(name) && forall|i: int|
                at < i < marks.len() ==> (#[trigger] marks[i]).0 != folded(name),
            None => forall|i: int|
                0 <= i < marks.len() ==> (#[trigger] marks[i]).0 != folded(name),
        },
    decreases marks.len(),
{
    if marks.len() > 0 && marks.last().0 != folded(name) {
        a_mark_is_the_newest(marks.drop_last(), name);
        assert forall|i: int| 0 <= i < marks.len() - 1 implies (#[trigger] marks[i]).0
            == marks.drop_last()[i].0 by {}
    }
}

/// The savepoints that are not past a number of changes.
pub open spec fn marks_within(marks: Seq<(Seq<u8>, int)>, held: int) -> Seq<(Seq<u8>, int)>
    decreases marks.len(),
{
    if marks.len() == 0 {
        Seq::empty()
    } else if marks.last().1 <= held {
        marks_within(marks.drop_last(), held).push(marks.last())
    } else {
        marks_within(marks.drop_last(), held)
    }
}

/// A savepoint just made is the one its name finds.
pub proof fn a_new_mark_is_found(marks: Seq<(Seq<u8>, int)>, name: Seq<u8>, held: int)
    ensures
        mark_named(marks.push((folded(name), held)), name) == Some(marks.len() as int),
{
}

/// The savepoints that are not past a number of changes are the first ones.
proof fn marks_within_come_first(marks: Seq<(Seq<u8>, int)>, held: int) -> (kept: int)
    requires
        forall|i: int, j: int|
            0 <= i <= j < marks.len() ==> (#[trigger] marks[i]).1 <= (#[trigger] marks[j]).1,
    ensures
        0 <= kept <= marks.len(),
        marks_within(marks, held) == marks.take(kept),
    decreases marks.len(),
{
    if marks.len() == 0 {
        assert(marks.take(0) =~= marks);
        0
    } else {
        let fewer = marks.drop_last();
        assert forall|i: int, j: int| 0 <= i <= j < fewer.len() implies (#[trigger] fewer[i]).1 <= (
        #[trigger] fewer[j]).1 by {
            assert(fewer[i] == marks[i] && fewer[j] == marks[j]);
        }
        if marks.last().1 <= held {
            assert forall|i: int| 0 <= i < fewer.len() implies (#[trigger] fewer[i]).1 <= held by {
                assert(fewer[i] == marks[i] && marks.last() == marks[marks.len() - 1]);
            }
            all_marks_stay(fewer, held);
            assert(marks_within(marks, held) =~= marks);
            assert(marks.take(marks.len() as int) =~= marks);
            marks.len() as int
        } else {
            let kept = marks_within_come_first(fewer, held);
            assert(fewer.take(kept) =~= marks.take(kept));
            kept
        }
    }
}

/// Whether savepoints stand in the order they were made in, none past the
/// changes that stand.
pub open spec fn marks_in_order(marks: Seq<(Seq<u8>, int)>, held: int) -> bool {
    &&& forall|i: int, j: int|
        0 <= i <= j < marks.len() ==> (#[trigger] marks[i]).1 <= (#[trigger] marks[j]).1
    &&& forall|i: int| 0 <= i < marks.len() ==> (#[trigger] marks[i]).1 <= held
}

/// Making a savepoint, ending one, adding a change and undoing changes keep the
/// savepoints in order.
pub proof fn marks_stay_in_order(
    marks: Seq<(Seq<u8>, int)>,
    held: int,
    name: Seq<u8>,
    at: int,
    floor: int,
)
    requires
        marks_in_order(marks, held),
        0 <= at <= marks.len(),
    ensures
        marks_in_order(marks.push((folded(name), held)), held),
        marks_in_order(marks.take(at), held),
        marks_in_order(marks, held + 1),
        marks_in_order(marks_within(marks, floor), floor),
{
    let kept = marks_within_come_first(marks, floor);
    let standing = marks.take(kept);
    assert forall|i: int| 0 <= i < standing.len() implies (#[trigger] standing[i]).1 <= floor by {
        marks_within_are_within(marks, floor, i);
    }
}

/// A savepoint that is kept is not past the changes that stand.
proof fn marks_within_are_within(marks: Seq<(Seq<u8>, int)>, held: int, at: int)
    requires
        0 <= at < marks_within(marks, held).len(),
    ensures
        marks_within(marks, held)[at].1 <= held,
    decreases marks.len(),
{
    if marks.len() > 0 {
        let fewer = marks_within(marks.drop_last(), held);
        if at < fewer.len() {
            marks_within_are_within(marks.drop_last(), held, at);
        }
    }
}

/// After a rollback to a savepoint it is the innermost one, at the level it was
/// made at: every savepoint inside it is gone, and the next is one level in.
pub proof fn rolling_back_ends_the_inner_marks(marks: Seq<(Seq<u8>, int)>, name: Seq<u8>)
    requires
        mark_named(marks, name) is Some,
        forall|i: int, j: int|
            0 <= i <= j < marks.len() ==> (#[trigger] marks[i]).1 <= (#[trigger] marks[j]).1,
    ensures
        ({
            let at = mark_named(marks, name)->0;
            let standing = marks_within(marks, marks[at].1);
            &&& 0 <= at < marks.len()
            &&& mark_named(standing, name) == Some(at)
            &&& standing.take(at + 1) == marks.take(at + 1)
            &&& mark_named(marks.take(at + 1), name) == Some(at)
        }),
{
    a_mark_is_the_newest(marks, name);
    let at = mark_named(marks, name)->0;
    let kept = marks_within_come_first(marks, marks[at].1);
    undoing_keeps_the_mark(marks, at);
    let standing = marks.take(kept);
    a_mark_is_the_newest(standing, name);
    assert(standing[at] == marks[at]);
    match mark_named(standing, name) {
        Some(other) => {
            assert(standing[other] == marks[other]);
        },
        None => {},
    }
    let left = marks.take(at + 1);
    assert(left.last() == marks[at]);
}

/// Undoing to a savepoint keeps it, and every one made before it.
pub proof fn undoing_keeps_the_mark(marks: Seq<(Seq<u8>, int)>, at: int)
    requires
        0 <= at < marks.len(),
        forall|i: int, j: int|
            0 <= i <= j < marks.len() ==> (#[trigger] marks[i]).1 <= (#[trigger] marks[j]).1,
    ensures
        marks_within(marks, marks[at].1).len() > at,
        marks_within(marks, marks[at].1).take(at + 1) == marks.take(at + 1),
    decreases marks.len(),
{
    let floor = marks[at].1;
    let fewer = marks.drop_last();
    if at == marks.len() - 1 {
        all_marks_stay(fewer, floor);
        assert(marks_within(marks, floor) =~= marks);
    } else {
        assert(fewer[at] == marks[at]);
        assert forall|i: int, j: int| 0 <= i <= j < fewer.len() implies (#[trigger] fewer[i]).1 <= (
        #[trigger] fewer[j]).1 by {
            assert(fewer[i] == marks[i] && fewer[j] == marks[j]);
        }
        undoing_keeps_the_mark(fewer, at);
        assert(fewer.take(at + 1) =~= marks.take(at + 1));
        assert(marks_within(marks, floor).take(at + 1) =~= marks_within(fewer, floor).take(at + 1));
    }
}

/// No savepoint is forgotten when none was made after the changes that stand.
proof fn all_marks_stay(marks: Seq<(Seq<u8>, int)>, held: int)
    requires
        forall|i: int| 0 <= i < marks.len() ==> (#[trigger] marks[i]).1 <= held,
    ensures
        marks_within(marks, held) == marks,
    decreases marks.len(),
{
    if marks.len() > 0 {
        let fewer = marks.drop_last();
        assert forall|i: int| 0 <= i < fewer.len() implies (#[trigger] fewer[i]).1 <= held by {
            assert(fewer[i] == marks[i]);
        }
        all_marks_stay(fewer, held);
        assert(marks_within(marks, held) =~= marks);
    }
}

/// How many module savepoints a position stands for.
pub open spec fn level_at(position: int) -> int {
    if position > i32::MAX {
        i32::MAX as int
    } else {
        position
    }
}

/// Returns how many module savepoints a position stands for.
fn level(position: usize) -> (level: i32)
    ensures
        level == level_at(position as int),
        position <= i32::MAX ==> level == position,
        position > i32::MAX ==> level == i32::MAX,
{
    if position > 0x7FFF_FFFF {
        i32::MAX
    } else {
        position as i32
    }
}

impl Writing {
    /// Returns a connection in the middle of nothing.
    pub fn starting_at(next_txn: u64) -> (writing: Writing)
        ensures
            writing@ == (Ledger {
                batch: None,
                undo: Seq::empty(),
                touched: 0,
                marks: Seq::empty(),
                decided_over: 0,
                implicit_transaction: false,
                next_txn,
                statement_txn: None,
                running: 0,
                settling: false,
            }),
    {
        Writing {
            batch: None,
            undo: Vec::new(),
            touched: 0,
            marks: Vec::new(),
            decided_over: 0,
            implicit_transaction: false,
            next_txn,
            statement_txn: None,
            running: 0,
            settling: false,
        }
    }

    /// Takes over another connection's state, leaving it no changes and no
    /// savepoints of its own.
    pub fn adopt(&mut self, fresh: &mut Writing)
        ensures
            final(self)@ == old(fresh)@,
            final(self).batch == old(fresh).batch && final(self).touched == old(fresh).touched,
            final(self).undo@ == old(fresh).undo@ && final(self).marks@ == old(fresh).marks@,
            final(self).decided_over == old(fresh).decided_over && final(self).implicit_transaction
                == old(fresh).implicit_transaction,
            final(self).next_txn == old(fresh).next_txn && final(self).statement_txn == old(
                fresh,
            ).statement_txn,
            final(self).running == old(fresh).running && final(self).settling == old(
                fresh,
            ).settling,
            final(fresh)@ == (Ledger {
                undo: Seq::empty(),
                marks: Seq::empty(),
                ..old(fresh)@
            }),
    {
        self.batch = fresh.batch;
        let mut undo: Vec<Before> = Vec::new();
        std::mem::swap(&mut undo, &mut fresh.undo);
        self.undo = undo;
        self.touched = fresh.touched;
        let mut marks: Vec<(Vec<u8>, usize)> = Vec::new();
        std::mem::swap(&mut marks, &mut fresh.marks);
        self.marks = marks;
        self.decided_over = fresh.decided_over;
        self.implicit_transaction = fresh.implicit_transaction;
        self.next_txn = fresh.next_txn;
        self.statement_txn = fresh.statement_txn;
        self.running = fresh.running;
        self.settling = fresh.settling;
    }

    /// Moves the next transaction past one a file already holds.
    ///
    /// The number only ever rises: one that fell would be handed out twice, and
    /// recovery would take the second transaction's records for the first's.
    pub fn raise_transactions_past(&mut self, highest: u64)
        ensures
            final(self)@ == (Ledger {
                next_txn: if old(self)@.next_txn < one_past(highest) {
                    one_past(highest)
                } else {
                    old(self)@.next_txn
                },
                ..old(self)@
            }),
            final(self)@.next_txn >= old(self)@.next_txn,
            highest < u64::MAX ==> final(self)@.next_txn > highest,
            final(self)@.next_txn == old(self)@.next_txn || final(self)@.next_txn == highest + 1
                || highest == u64::MAX,
    {
        let next: u64 = highest.saturating_add(1);
        if self.next_txn < next {
            self.next_txn = next;
        }
    }

    /// Returns whether every statement is its own transaction.
    pub fn autocommit(&self) -> (answer: bool)
        ensures
            answer == (self@.batch is None),
    {
        self.batch.is_none()
    }

    /// Returns how many files the last commit had to agree over.
    pub fn decided_over(&self) -> (files: usize)
        ensures
            files == self@.decided_over,
    {
        self.decided_over
    }

    /// The transaction a change made now belongs to.
    pub open spec fn writes_as(&self) -> u64 {
        match (self@.batch, self@.statement_txn) {
            (Some(txn), _) => txn,
            (None, Some(txn)) => txn,
            (None, None) => self@.next_txn,
        }
    }

    /// Returns the transaction a change made now belongs to.
    pub fn current_txn(&self) -> (txn: u64)
        ensures
            txn == self.writes_as(),
            self@.batch is Some ==> txn == self@.batch->Some_0,
            self@.batch is None && self@.statement_txn is Some ==> txn
                == self@.statement_txn->Some_0,
            self@.batch is None && self@.statement_txn is None ==> txn == self@.next_txn,
    {
        match self.batch {
            Some(txn) => txn,
            None => match self.statement_txn {
                Some(txn) => txn,
                None => self.next_txn,
            },
        }
    }

    /// Opens a transaction that the statements after it all join, and reports
    /// whether it did.
    ///
    /// Opening one inside another keeps the first.
    pub fn begin_batch(&mut self) -> (opened: bool)
        ensures
            opened == (old(self)@.batch is None),
            final(self)@ == if opened {
                Ledger {
                    batch: Some(old(self)@.next_txn),
                    next_txn: one_past(old(self)@.next_txn),
                    undo: Seq::empty(),
                    marks: Seq::empty(),
                    touched: 0,
                    ..old(self)@
                }
            } else {
                old(self)@
            },
            opened && old(self)@.next_txn < u64::MAX ==> final(self)@.next_txn == old(
                self,
            )@.next_txn + 1,
    {
        if self.batch.is_some() {
            return false;
        }
        let txn: u64 = self.next_txn;
        self.next_txn = txn.saturating_add(1);
        self.batch = Some(txn);
        self.undo = Vec::new();
        self.marks = Vec::new();
        self.touched = 0;
        true
    }

    /// Returns the level the next savepoint stands at.
    pub fn next_level(&self) -> (made: i32)
        ensures
            made == level_at(self@.marks.len() as int),
            self@.marks.len() <= i32::MAX ==> made == self@.marks.len(),
    {
        level(self.marks.len())
    }

    /// Makes a savepoint of a name.
    pub fn savepoint(&mut self, name: &[u8])
        ensures
            final(self)@ == (Ledger {
                marks: old(self)@.marks.push((folded(name@), old(self)@.undo.len() as int)),
                ..old(self)@
            }),
    {
        let held: usize = self.undo.len();
        self.marks.push((fold(name), held));
    }

    /// Returns the newest savepoint of a name, by its position.
    pub fn mark_position(&self, name: &[u8]) -> (found: Option<usize>)
        ensures
            match found {
                Some(at) => mark_named(self@.marks, name@) == Some(at as int)
                    && at < self@.marks.len(),
                None => mark_named(self@.marks, name@) is None,
            },
            match found {
                Some(at) => at < self@.marks.len() && self@.marks[at as int].0 == folded(name@)
                    && forall|later: int|
                    at < later < self@.marks.len() ==> (#[trigger] self@.marks[later]).0 != folded(
                        name@,
                    ),
                None => forall|at: int|
                    0 <= at < self@.marks.len() ==> (#[trigger] self@.marks[at]).0 != folded(name@),
            },
    {
        proof {
            a_mark_is_the_newest(self@.marks, name@);
        }
        let wanted = fold(name);
        let mut at: usize = self.marks.len();
        assert(self@.marks.take(self.marks@.len() as int) =~= self@.marks);
        while at > 0
            invariant
                wanted@ == folded(name@),
                at <= self.marks@.len(),
                mark_named(self@.marks, name@) == mark_named(self@.marks.take(at as int), name@),
            decreases at,
        {
            let ghost some = self@.marks.take(at as int);
            at = at - 1;
            assert(some.last() == self@.marks[at as int]);
            if same(self.marks[at].0.as_slice(), wanted.as_slice()) {
                proof {
                    a_mark_is_the_newest(self@.marks, name@);
                }
                return Some(at);
            }
            assert(some.drop_last() =~= self@.marks.take(at as int));
        }
        None
    }

    /// How many changes an undo leaves standing: none without a name, and with
    /// one as many as stood at the newest savepoint of that name.
    pub open spec fn undo_floor(&self, to: Option<Seq<u8>>) -> Option<int> {
        match to {
            None => Some(0),
            Some(name) => match mark_named(self@.marks, name) {
                Some(at) => Some(self@.marks[at].1),
                None => None,
            },
        }
    }

    /// Returns how many changes an undo leaves standing.
    pub fn floor_of(&self, to: Option<&[u8]>) -> (floor: Result<usize, Refusal>)
        ensures
            match floor {
                Ok(floor) => self.undo_floor(
                    match to {
                        Some(name) => Some(name@),
                        None => None,
                    },
                ) == Some(floor as int),
                Err(refusal) => {
                    &&& to matches Some(name)
                    &&& self.undo_floor(Some(name@)) is None
                    &&& refusal matches Refusal::NoSuchSavepoint(told)
                    &&& told@ == name@
                },
            },
            to is None ==> floor == Ok::<usize, Refusal>(0),
            to matches Some(name) ==> match floor {
                Ok(floor) => exists|at: int|
                    0 <= at < self@.marks.len() && (#[trigger] self@.marks[at]).0 == folded(name@)
                        && self@.marks[at].1 == floor && forall|later: int|
                        at < later < self@.marks.len() ==> (#[trigger] self@.marks[later]).0
                            != folded(name@),
                Err(_) => forall|at: int|
                    0 <= at < self@.marks.len() ==> (#[trigger] self@.marks[at]).0 != folded(name@),
            },
    {
        proof {
            if let Some(name) = to {
                a_mark_is_the_newest(self@.marks, name@);
            }
        }
        match to {
            None => Ok(0),
            Some(name) => match self.mark_position(name) {
                Some(at) => Ok(self.marks[at].1),
                None => Err(Refusal::NoSuchSavepoint(copied(name))),
            },
        }
    }

    /// Takes the newest change off the log, when more than the floor stand.
    pub fn undo_step(&mut self, floor: usize) -> (entry: Option<Before>)
        ensures
            match entry {
                Some(before) => old(self)@.undo.len() > floor && before@ == old(self)@.undo.last()
                    && final(self)@ == (Ledger {
                    undo: old(self)@.undo.drop_last(),
                    ..old(self)@
                }),
                None => old(self)@.undo.len() <= floor && final(self)@ == old(self)@,
            },
    {
        if self.undo.len() > floor {
            let entry = self.undo.pop();
            assert(images(self.undo@) =~= images(old(self).undo@).drop_last());
            entry
        } else {
            None
        }
    }

    /// Forgets the savepoints made after the changes that still stand.
    pub fn forget_late_marks(&mut self)
        ensures
            final(self)@ == (Ledger {
                marks: marks_within(old(self)@.marks, old(self)@.undo.len() as int),
                ..old(self)@
            }),
    {
        let held: usize = self.undo.len();
        let mut marks: Vec<(Vec<u8>, usize)> = Vec::new();
        std::mem::swap(&mut marks, &mut self.marks);
        let ghost all = marks_of(marks@);
        let mut kept: Vec<(Vec<u8>, usize)> = Vec::new();
        let many: usize = marks.len();
        for at in 0..many
            invariant
                many == marks@.len(),
                all == marks_of(marks@),
                marks_of(kept@) =~= marks_within(all.take(at as int), held as int),
        {
            let ghost some = all.take(at + 1);
            assert(some.drop_last() =~= all.take(at as int));
            assert(some.last() == all[at as int]);
            if marks[at].1 <= held {
                let ghost so_far = kept@;
                kept.push((copied(marks[at].0.as_slice()), marks[at].1));
                assert(marks_of(kept@) =~= marks_of(so_far).push(all[at as int]));
            }
        }
        assert(all.take(all.len() as int) =~= all);
        self.marks = kept;
    }

    /// Makes a savepoint the innermost one, once what came after it was undone,
    /// and returns its level: none when there is no such savepoint.
    ///
    /// The savepoints inside it are abandoned with what was done in them, also
    /// those nothing was done in.
    pub fn rolled_back_to(&mut self, name: &[u8]) -> (found: Option<i32>)
        ensures
            match found {
                Some(level) => {
                    &&& mark_named(old(self)@.marks, name@) matches Some(at)
                    &&& level == level_at(at)
                    &&& final(self)@ == (Ledger {
                        marks: old(self)@.marks.take(at + 1),
                        ..old(self)@
                    })
                },
                None => {
                    &&& mark_named(old(self)@.marks, name@) is None
                    &&& final(self)@ == old(self)@
                },
            },
            match found {
                Some(level) => exists|at: int|
                    0 <= at < old(self)@.marks.len() && (#[trigger] old(self)@.marks[at]).0
                        == folded(name@) && (forall|later: int|
                        at < later < old(self)@.marks.len() ==> (#[trigger] old(
                            self,
                        )@.marks[later]).0 != folded(name@)) && final(self)@.marks == old(
                        self,
                    )@.marks.take(at + 1) && (at <= i32::MAX ==> level == at),
                None => forall|at: int|
                    0 <= at < old(self)@.marks.len() ==> (#[trigger] old(self)@.marks[at]).0
                        != folded(name@),
            },
    {
        proof {
            a_mark_is_the_newest(self@.marks, name@);
        }
        match self.mark_position(name) {
            None => None,
            Some(at) => {
                let made: i32 = level(at);
                assert(at < self.marks.len());
                self.marks.truncate(at + 1);
                assert(marks_of(self.marks@) =~= marks_of(old(self).marks@).take(at + 1));
                Some(made)
            },
        }
    }

    /// Ends a savepoint and those inside it, and returns its level.
    pub fn release(&mut self, name: &[u8]) -> (released: Result<i32, Refusal>)
        ensures
            match released {
                Ok(level) => {
                    &&& mark_named(old(self)@.marks, name@) matches Some(at)
                    &&& level == level_at(at)
                    &&& final(self)@ == (Ledger {
                        marks: old(self)@.marks.take(at),
                        ..old(self)@
                    })
                },
                Err(refusal) => {
                    &&& mark_named(old(self)@.marks, name@) is None
                    &&& final(self)@ == old(self)@
                    &&& refusal matches Refusal::NoSuchSavepoint(told)
                    &&& told@ == name@
                },
            },
            match released {
                Ok(level) => exists|at: int|
                    0 <= at < old(self)@.marks.len() && (#[trigger] old(self)@.marks[at]).0
                        == folded(name@) && (forall|later: int|
                        at < later < old(self)@.marks.len() ==> (#[trigger] old(
                            self,
                        )@.marks[later]).0 != folded(name@)) && final(self)@.marks == old(
                        self,
                    )@.marks.take(at) && (at <= i32::MAX ==> level == at),
                Err(_) => forall|at: int|
                    0 <= at < old(self)@.marks.len() ==> (#[trigger] old(self)@.marks[at]).0
                        != folded(name@),
            },
    {
        proof {
            a_mark_is_the_newest(self@.marks, name@);
        }
        match self.mark_position(name) {
            None => Err(Refusal::NoSuchSavepoint(copied(name))),
            Some(at) => {
                let made: i32 = level(at);
                self.marks.truncate(at);
                assert(marks_of(self.marks@) =~= marks_of(old(self).marks@).take(at as int));
                Ok(made)
            },
        }
    }

    /// Returns the level a savepoint of a name stands at, none when there is no
    /// such savepoint and so nothing for a module to be told.
    pub fn level_of(&self, name: &[u8]) -> (found: Option<i32>)
        ensures
            match found {
                Some(level) => mark_named(self@.marks, name@) matches Some(at) && level
                    == level_at(at),
                None => mark_named(self@.marks, name@) is None,
            },
            match found {
                Some(level) => exists|at: int|
                    0 <= at < self@.marks.len() && (#[trigger] self@.marks[at]).0 == folded(name@)
                        && (at <= i32::MAX ==> level == at) && forall|later: int|
                        at < later < self@.marks.len() ==> (#[trigger] self@.marks[later]).0
                            != folded(name@),
                None => forall|at: int|
                    0 <= at < self@.marks.len() ==> (#[trigger] self@.marks[at]).0 != folded(name@),
            },
    {
        proof {
            a_mark_is_the_newest(self@.marks, name@);
        }
        match self.mark_position(name) {
            Some(at) => Some(level(at)),
            None => None,
        }
    }

    /// Closes a transaction that was put back, and returns the schemas it had
    /// written to.
    pub fn rolled_back(&mut self) -> (schemas: Vec<usize>)
        ensures
            numbers_of(schemas@) == schemas_of(old(self)@.touched, 16),
            final(self)@ == (Ledger {
                marks: Seq::empty(),
                batch: None,
                implicit_transaction: false,
                touched: 0,
                ..old(self)@
            }),
    {
        self.marks = Vec::new();
        self.batch = None;
        self.implicit_transaction = false;
        let schemas = schemas_in(self.touched);
        self.touched = 0;
        schemas
    }

    /// Closes a transaction that is to be kept, and returns it with the schemas
    /// that have to agree to it, when one was open.
    pub fn seal_batch(&mut self) -> (sealed: Option<(u64, u16)>)
        ensures
            sealed == (match old(self)@.batch {
                Some(txn) => Some((txn, old(self)@.touched)),
                None => None,
            }),
            final(self)@ == (Ledger {
                undo: Seq::empty(),
                marks: Seq::empty(),
                implicit_transaction: false,
                batch: None,
                touched: 0,
                ..old(self)@
            }),
    {
        self.undo = Vec::new();
        self.marks = Vec::new();
        self.implicit_transaction = false;
        let batch = self.batch;
        self.batch = None;
        let participants: u16 = self.touched;
        self.touched = 0;
        match batch {
            Some(txn) => Some((txn, participants)),
            None => None,
        }
    }
}

/// A rollback to a savepoint goes back to where it was made: whatever was done since,
/// and whatever other savepoints were made or ended since, as long as neither it nor
/// a newer one of its name was ended.
pub proof fn a_mark_keeps_its_floor(
    writing: Writing,
    before: Seq<(Seq<u8>, int)>,
    after: Seq<(Seq<u8>, int)>,
    name: Seq<u8>,
    changes: int,
)
    requires
        writing@.marks == before.push((folded(name), changes)) + after,
        forall|i: int| 0 <= i < after.len() ==> (#[trigger] after[i]).0 != folded(name),
    ensures
        writing.undo_floor(Some(name)) == Some(changes),
{
    let marks = writing@.marks;
    let at = before.len() as int;
    assert(marks[at] == (folded(name), changes));
    a_mark_is_the_newest(marks, name);
    let found = mark_named(marks, name);
    if found is None {
        assert(marks[at].0 != folded(name));
    } else if found->Some_0 < at {
        assert(marks[at].0 != folded(name));
    } else if found->Some_0 > at {
        assert(marks[found->Some_0] == after[found->Some_0 - at - 1]);
    }
}

/// Savepoints made after the changes that still stand are forgotten, and no others,
/// and the ones that stay keep their order.
pub proof fn late_marks_are_forgotten(marks: Seq<(Seq<u8>, int)>, held: int, kept: int)
    requires
        0 <= kept <= marks.len(),
        forall|i: int| 0 <= i < kept ==> (#[trigger] marks[i]).1 <= held,
        forall|i: int| kept <= i < marks.len() ==> (#[trigger] marks[i]).1 > held,
    ensures
        marks_within(marks, held) == marks.take(kept),
    decreases marks.len(),
{
    if marks.len() > 0 {
        if kept == marks.len() {
            late_marks_are_forgotten(marks.drop_last(), held, kept - 1);
            assert(marks_within(marks, held) =~= marks.take(kept));
        } else {
            late_marks_are_forgotten(marks.drop_last(), held, kept);
            assert(marks.drop_last().take(kept) =~= marks.take(kept));
        }
    } else {
        assert(marks.take(0) =~= marks);
    }
}

} // verus!
