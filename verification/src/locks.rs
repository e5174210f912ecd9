//! When a connection holds its files, and when it lets them go.
//!
//! A statement enters its files and leaves them. Between the two it may read
//! what its pool holds; on the way in it finds out whether another connection
//! has moved the file since, and on the way out it lets the file go unless
//! something still needs it.

use vstd::prelude::*;

use crate::refusals::Refusal;
use crate::transactions::{Ledger, Writing};

verus! {

/// How much of a file a connection holds, the least first.
#[derive(Clone, Copy, Debug, PartialEq, Eq, Structural)]
pub enum FileLock {
    /// None of it.
    Unlocked,
    /// Enough to read it.
    Shared,
    /// Enough to be the next to write it.
    Reserved,
    /// Enough to keep new readers out.
    Pending,
    /// All of it.
    Exclusive,
}

/// Whether a lock is more than a reader's.
pub open spec fn past_shared(lock: FileLock) -> bool {
    !(lock is Unlocked || lock is Shared)
}

/// How one of a connection's files stands.
#[derive(Clone, Copy, Debug, PartialEq, Eq, Structural)]
pub struct FileState {
    /// Whether it is kept on disk.
    pub kept: bool,
    /// How much of it is held.
    pub lock: FileLock,
    /// How many pages of its pool were changed and not written.
    pub dirty: u64,
    /// Whether its journal holds pages that would have to be put back.
    pub hot: bool,
    /// How many bytes its log has grown by since it was last folded in.
    pub logged: u64,
}

/// Whether a file has been written to: it is held for writing, or its pool has
/// pages to write.
pub open spec fn written(file: FileState) -> bool {
    past_shared(file.lock) || file.dirty > 0
}

/// Reports whether a lock is more than a reader's.
fn is_past_shared(lock: FileLock) -> (answer: bool)
    ensures
        answer == past_shared(lock),
        answer <==> lock is Reserved || lock is Pending || lock is Exclusive,
{
    match lock {
        FileLock::Unlocked => false,
        FileLock::Shared => false,
        _ => true,
    }
}

/// Whether one of a connection's attached files is kept on disk and written to.
pub open spec fn some_written(attached: Seq<FileState>) -> bool {
    exists|i: int| 0 <= i < attached.len() && (#[trigger] attached[i]).kept && written(attached[i])
}

/// Whether one of a connection's attached files is held for writing and has
/// pages to write.
pub open spec fn some_to_fold(attached: Seq<FileState>) -> bool {
    exists|i: int|
        0 <= i < attached.len() && (#[trigger] attached[i]).kept && past_shared(attached[i].lock)
            && attached[i].dirty > 0
}

/// Whether the log of one of a connection's files has grown past a bar: one such
/// file folds all of them.
pub open spec fn fold_due(main: FileState, attached: Seq<FileState>, bar: u64) -> bool {
    main.logged >= bar || exists|i: int|
        0 <= i < attached.len() && (#[trigger] attached[i]).kept && attached[i].logged >= bar
}

/// Reports whether the log of one of a connection's files has grown past a bar.
///
/// Every file is asked, because each has a log of its own.
pub fn a_fold_is_due(main: FileState, attached: &[FileState], bar: u64) -> (due: bool)
    ensures
        due == fold_due(main, attached@, bar),
        main.logged >= bar ==> due,
        forall|i: int|
            0 <= i < attached@.len() && (#[trigger] attached@[i]).kept && attached@[i].logged
                >= bar ==> due,
        due && main.logged < bar ==> exists|i: int|
            0 <= i < attached@.len() && (#[trigger] attached@[i]).kept && attached@[i].logged
                >= bar,
{
    if main.logged >= bar {
        return true;
    }
    for at in 0..attached.len()
        invariant
            main.logged < bar,
            forall|i: int|
                0 <= i < at ==> !((#[trigger] attached@[i]).kept && attached@[i].logged >= bar),
    {
        if attached[at].kept && attached[at].logged >= bar {
            return true;
        }
    }
    false
}

/// Whether a connection holds of a file what the file does not.
pub open spec fn holds_more(file: FileState) -> bool {
    file.dirty > 0 || file.hot
}

/// Whether a connection holds of some attached file what the file does not.
pub open spec fn some_held(attached: Seq<FileState>) -> bool {
    exists|i: int|
        0 <= i < attached.len() && (#[trigger] attached[i]).kept && holds_more(attached[i])
}

/// Reports whether one of a connection's attached files is written to.
fn any_written(attached: &[FileState]) -> (answer: bool)
    ensures
        answer == some_written(attached@),
        answer <==> exists|i: int|
            0 <= i < attached@.len() && (#[trigger] attached@[i]).kept && (attached@[i].dirty > 0
                || attached@[i].lock is Reserved || attached@[i].lock is Pending
                || attached@[i].lock is Exclusive),
{
    for at in 0..attached.len()
        invariant
            forall|i: int|
                0 <= i < at ==> !((#[trigger] attached@[i]).kept && written(attached@[i])),
    {
        if attached[at].kept && (is_past_shared(attached[at].lock) || attached[at].dirty > 0) {
            return true;
        }
    }
    false
}

/// Reports whether one of a connection's attached files has pages to fold.
pub fn any_attached_is_dirty(attached: &[FileState]) -> (answer: bool)
    ensures
        answer == some_to_fold(attached@),
        answer <==> exists|i: int|
            0 <= i < attached@.len() && (#[trigger] attached@[i]).kept && attached@[i].dirty > 0
                && (attached@[i].lock is Reserved || attached@[i].lock is Pending
                || attached@[i].lock is Exclusive),
{
    for at in 0..attached.len()
        invariant
            forall|i: int|
                0 <= i < at ==> !((#[trigger] attached@[i]).kept && past_shared(attached@[i].lock)
                    && attached@[i].dirty > 0),
    {
        if attached[at].kept && is_past_shared(attached[at].lock) && attached[at].dirty > 0 {
            return true;
        }
    }
    false
}

/// Reports whether a connection holds of a file what the file does not.
pub fn holds_what_the_file_does_not(file: FileState) -> (answer: bool)
    ensures
        answer == holds_more(file),
        answer <==> file.dirty > 0 || file.hot,
{
    file.dirty > 0 || file.hot
}

/// What a connection does once a statement has left its files.
#[derive(Clone, Copy, Debug, PartialEq, Eq, Structural)]
pub enum Release {
    /// It keeps them.
    Keep,
    /// It lets them go.
    LetGo,
    /// It makes its logs durable and lets its files go, folding the attached
    /// ones first when the first is set, and all of them when the second is.
    SyncAndLetGo(bool, bool),
}

/// What a connection does once a statement has left its files.
pub open spec fn release_of(
    ledger: Ledger,
    exclusive: bool,
    main: FileState,
    attached: Seq<FileState>,
    bar: u64,
) -> Release {
    if ledger.running > 0 || exclusive || ledger.batch is Some {
        Release::Keep
    } else if (written(main) || some_written(attached)) && !(main.lock is Unlocked) {
        Release::SyncAndLetGo(some_to_fold(attached), fold_due(main, attached, bar))
    } else {
        Release::LetGo
    }
}

/// A connection with one statement more inside its files.
pub open spec fn entered(ledger: Ledger) -> Ledger {
    Ledger {
        running: if ledger.running == usize::MAX {
            ledger.running
        } else {
            ledger.running + 1
        },
        ..ledger
    }
}

/// A connection with one statement fewer inside its files.
pub open spec fn left(ledger: Ledger) -> Ledger {
    Ledger {
        running: if ledger.running == 0 {
            0
        } else {
            ledger.running - 1
        },
        ..ledger
    }
}

impl Writing {
    /// Whether a statement is inside another, or inside a batch.
    pub open spec fn is_inside(&self) -> bool {
        self@.batch is Some || self@.running > 1
    }

    /// Reports whether a statement is inside another, or inside a batch.
    pub fn inside(&self) -> (answer: bool)
        ensures
            answer == self.is_inside(),
            answer <==> self@.batch is Some || self@.running > 1,
    {
        self.batch.is_some() || self.running > 1
    }

    /// Counts a statement into the files.
    pub fn enter(&mut self)
        ensures
            final(self)@ == entered(old(self)@),
            old(self)@.running < usize::MAX ==> final(self)@.running == old(self)@.running + 1,
            final(self)@.batch == old(self)@.batch,
    {
        self.running = self.running.saturating_add(1);
    }

    /// Counts a statement out of the files, whether it ran or could not enter.
    pub fn leave(&mut self)
        ensures
            final(self)@ == left(old(self)@),
            old(self)@.running > 0 ==> final(self)@.running == old(self)@.running - 1,
            old(self)@.running == 0 ==> final(self)@.running == 0,
            final(self)@.batch == old(self)@.batch,
    {
        if self.running > 0 {
            self.running = self.running - 1;
        }
    }

    /// Returns what a connection does once a statement has left its files.
    ///
    /// The files stay held while a statement runs, while a batch is open, and
    /// while the connection was told to keep them. A file that was written to
    /// is let go only once its log is durable. `bar` is how much log is worth
    /// folding in.
    pub fn release_if_idle(
        &self,
        exclusive: bool,
        main: FileState,
        attached: &[FileState],
        bar: u64,
    ) -> (release: Release)
        ensures
            release == release_of(self@, exclusive, main, attached@, bar),
            release is Keep <==> self@.running > 0 || exclusive || self@.batch is Some,
            main.lock is Unlocked ==> !(release is SyncAndLetGo),
            !(release is Keep) && (main.lock is Reserved || main.lock is Pending || main.lock
                is Exclusive || (main.lock is Shared && main.dirty > 0)) ==> release
                is SyncAndLetGo,
            !(release is Keep) && main.lock is Shared && main.dirty == 0 ==> (release
                is SyncAndLetGo <==> exists|i: int|
                0 <= i < attached@.len() && (#[trigger] attached@[i]).kept && (attached@[i].dirty
                    > 0 || attached@[i].lock is Reserved || attached@[i].lock is Pending
                    || attached@[i].lock is Exclusive)),
            release matches Release::SyncAndLetGo(fold, all) ==> {
                &&& fold <==> exists|i: int|
                    0 <= i < attached@.len() && (#[trigger] attached@[i]).kept && attached@[i].dirty
                        > 0 && (attached@[i].lock is Reserved || attached@[i].lock is Pending
                        || attached@[i].lock is Exclusive)
                &&& all <==> main.logged >= bar || exists|i: int|
                    0 <= i < attached@.len() && (#[trigger] attached@[i]).kept
                        && attached@[i].logged >= bar
            },
    {
        if self.running > 0 || exclusive || self.batch.is_some() {
            return Release::Keep;
        }
        let wrote: bool = is_past_shared(main.lock) || main.dirty > 0 || any_written(attached);
        let held: bool = match main.lock {
            FileLock::Unlocked => false,
            _ => true,
        };
        if wrote && held {
            Release::SyncAndLetGo(
                any_attached_is_dirty(attached),
                a_fold_is_due(main, attached, bar),
            )
        } else {
            Release::LetGo
        }
    }

    /// Reports whether a connection that is closing folds what it holds into its
    /// files first.
    ///
    /// A connection that may not write does not, nor does one with nothing to
    /// write it to, one whose batch nobody committed, or one that holds nothing
    /// its files do not.
    pub fn folds_on_close(
        &self,
        read_only: bool,
        main: FileState,
        attached: &[FileState],
    ) -> (answer: bool)
        ensures
            answer == (!read_only && main.kept && self@.batch is None && (holds_more(main)
                || some_held(attached@))),
            answer <==> !read_only && main.kept && self@.batch is None && (main.dirty > 0
                || main.hot || exists|i: int|
                0 <= i < attached@.len() && (#[trigger] attached@[i]).kept && (attached@[i].dirty
                    > 0 || attached@[i].hot)),
    {
        if read_only || !main.kept || self.batch.is_some() {
            return false;
        }
        if holds_what_the_file_does_not(main) {
            return true;
        }
        for at in 0..attached.len()
            invariant
                forall|i: int|
                    0 <= i < at ==> !((#[trigger] attached@[i]).kept && holds_more(attached@[i])),
                !read_only && main.kept && self@.batch is None,
        {
            if attached[at].kept && holds_what_the_file_does_not(attached[at]) {
                return true;
            }
        }
        false
    }
}

/// A statement that entered and left, or could not enter, leaves the count as it
/// was.
pub proof fn entering_and_leaving_cancel(ledger: Ledger)
    requires
        0 <= ledger.running < usize::MAX,
    ensures
        left(entered(ledger)) == ledger,
{
}

/// No file is let go while a batch is open, while a statement runs, or while
/// what was written to it has not been made durable.
pub proof fn a_file_is_held_while_it_is_needed(
    ledger: Ledger,
    exclusive: bool,
    main: FileState,
    attached: Seq<FileState>,
    bar: u64,
)
    ensures
        ledger.batch is Some || ledger.running > 0 ==> release_of(
            ledger,
            exclusive,
            main,
            attached,
            bar,
        ) is Keep,
        release_of(ledger, exclusive, main, attached, bar) is LetGo && !(main.lock is Unlocked)
            ==> !written(main) && forall|i: int|
            0 <= i < attached.len() && (#[trigger] attached[i]).kept ==> !written(attached[i]),
{
}

/// How a statement takes a file.
#[derive(Clone, Copy, Debug, PartialEq, Eq, Structural)]
pub struct Take {
    /// Whether it takes the file for writing.
    pub write: bool,
    /// Whether it may throw away what the pool holds.
    pub fresh: bool,
    /// Whether the connection has not looked at the file since it last let it
    /// go.
    pub taking: bool,
}

/// Returns how a statement takes a file.
///
/// A connection that may only read takes no file for writing, whatever the
/// statement asked for.
pub fn take(inside: bool, writing: bool, read_only: bool, trusted: bool) -> (take: Take)
    ensures
        take == (Take { write: writing && !read_only, fresh: !inside, taking: !trusted }),
{
    Take { write: writing && !read_only, fresh: !inside, taking: !trusted }
}

/// What a connection knows of a file's own account of itself.
#[derive(Clone, Copy, Debug, PartialEq, Eq, Structural)]
pub enum Account {
    /// The file on disk is as it was last read.
    AsLastRead,
    /// It was read again, and says the same or does not.
    Found(bool),
    /// It could not be found.
    Gone,
}

/// Whether a file's own account of itself has moved.
pub open spec fn account_moved(kept: bool, account: Account) -> bool {
    kept && match account {
        Account::AsLastRead => false,
        Account::Found(same) => !same,
        Account::Gone => true,
    }
}

/// Reports whether a file's own account of itself has moved.
pub fn the_meta_moved(kept: bool, account: Account) -> (moved: bool)
    ensures
        moved == account_moved(kept, account),
        moved <==> kept && (account is Gone || account == Account::Found(false)),
{
    kept && match account {
        Account::AsLastRead => false,
        Account::Found(same) => !same,
        Account::Gone => true,
    }
}

/// Where a log ends: the segment it is written in, and the position after its
/// last record.
#[derive(Clone, Copy, Debug, PartialEq, Eq, Structural)]
pub struct LogEnd {
    /// The segment.
    pub sequence: u64,
    /// The position.
    pub lsn: u64,
}

/// Reports whether a log on disk ends where the connection left it.
pub fn the_log_moved(kept: bool, on_disk: LogEnd, held: LogEnd) -> (moved: bool)
    ensures
        moved == (kept && on_disk != held),
{
    kept && (on_disk.sequence != held.sequence || on_disk.lsn != held.lsn)
}

/// What a statement does once it has taken a file.
#[derive(Clone, Copy, Debug, PartialEq, Eq, Structural)]
pub struct Taken {
    /// Whether somebody else moved the file.
    pub moved: bool,
    /// Whether the connection reads it again.
    pub resync: bool,
    /// Whether the connection trusts what its pool holds from now on.
    pub trust: bool,
}

/// Returns what a statement does once it has taken a file.
///
/// Inside a batch nothing is read again: what the pool holds is the batch's own.
pub fn taken(how: Take, reloaded: bool, meta_moved: bool, log_moved: bool) -> (taken: Taken)
    ensures
        ({
            let moved = reloaded || (how.taking && how.fresh && (meta_moved || log_moved));
            taken == (Taken { moved, resync: moved && how.fresh, trust: how.taking && how.fresh })
        }),
{
    let moved: bool = reloaded || (how.taking && how.fresh && (meta_moved || log_moved));
    Taken { moved, resync: moved && how.fresh, trust: how.taking && how.fresh }
}

/// Whether a schema is read again after its files were taken: one of them was
/// moved, and the statement is inside nothing.
pub open spec fn catalog_moved(main: Taken, attached: Seq<Taken>, fresh: bool) -> bool {
    fresh && (main.moved || exists|i: int|
        0 <= i < attached.len() && (#[trigger] attached[i]).resync)
}

/// Reports whether a schema is read again after its files were taken.
pub fn reload_after(main: Taken, attached: &[Taken], fresh: bool) -> (answer: bool)
    ensures
        answer == catalog_moved(main, attached@, fresh),
        answer <==> fresh && (main.moved || exists|i: int|
            0 <= i < attached@.len() && (#[trigger] attached@[i]).resync),
{
    if !fresh {
        return false;
    }
    if main.moved {
        return true;
    }
    for at in 0..attached.len()
        invariant
            forall|i: int| 0 <= i < at ==> !(#[trigger] attached@[i]).resync,
            fresh,
            !main.moved,
    {
        if attached[at].resync {
            return true;
        }
    }
    false
}

/// How a file is put back after a write that was cut off.
#[derive(Clone, Copy, Debug, PartialEq, Eq, Structural)]
pub enum JournalMode {
    /// By a journal that is deleted after.
    Delete,
    /// By a journal that is emptied after.
    Truncate,
    /// By a journal whose header is struck out after.
    Persist,
    /// By a journal in memory.
    Memory,
    /// By a log that is folded in later.
    Wal,
    /// Not at all.
    Off,
}

/// Returns how the pages a pool puts out early are protected under a mode.
///
/// A log protects what is folded in from it, and not what is put out before: for
/// that even a file with a log keeps a journal.
pub fn journal_for(mode: JournalMode) -> (protection: Option<JournalMode>)
    ensures
        protection == (match mode {
            JournalMode::Off => None,
            JournalMode::Wal => Some(JournalMode::Delete),
            other => Some(other),
        }),
{
    match mode {
        JournalMode::Off => None,
        JournalMode::Wal => Some(JournalMode::Delete),
        other => Some(other),
    }
}

/// What changing a connection's journal mode comes to.
#[derive(Debug)]
pub enum JournalChange {
    /// Nothing: it is the mode it was.
    Nothing,
    /// The files are folded, the mode is set, the files are folded again, and
    /// each is given the journal its mode asks for. The flag is whether the log
    /// protects a fold.
    Change(Option<JournalMode>, bool),
}

impl Writing {
    /// Returns what changing a connection's journal mode comes to.
    pub fn set_journal_mode(&self, held: JournalMode, wanted: JournalMode) -> (change: Result<
        JournalChange,
        Refusal,
    >)
        ensures
            match change {
                Ok(JournalChange::Nothing) => held == wanted,
                Ok(JournalChange::Change(protection, by_log)) => held != wanted
                    && self@.batch is None && by_log == (wanted is Wal) && protection == (
                match wanted {
                    JournalMode::Off => None,
                    JournalMode::Wal => Some(JournalMode::Delete),
                    other => Some(other),
                }),
                Err(refusal) => held != wanted && self@.batch is Some
                    && refusal is JournalInTransaction,
            },
    {
        if held == wanted {
            return Ok(JournalChange::Nothing);
        }
        if self.batch.is_some() {
            return Err(Refusal::JournalInTransaction);
        }
        let by_log: bool = match wanted {
            JournalMode::Wal => true,
            _ => false,
        };
        Ok(JournalChange::Change(journal_for(wanted), by_log))
    }
}

} // verus!
