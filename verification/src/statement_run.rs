//! One writing statement, from its transaction to its commit or its undoing.
//!
//! A statement outside a batch is its own transaction. Applying it, following
//! the vector indexes, syncing the modules and committing the logs are done
//! elsewhere; what is decided here is what comes next, and what the connection
//! holds when it does.

use vstd::prelude::*;

use crate::counters::{Counted, Counters, Tally};
use crate::sessions::{numbers_of, schemas_in, schemas_of};
use crate::transactions::{
    one_past, remembers, undoing_restores_the_mark, undone, Image, Ledger, Rows, Writing,
};
use crate::values::Value;

verus! {

/// How much of its work a failed statement asks to have undone.
#[derive(Clone, Copy, Debug, PartialEq, Eq, Structural)]
pub enum Unwind {
    /// None: what it wrote stays.
    Nothing,
    /// Its own.
    Statement,
    /// The whole transaction's.
    Transaction,
}

/// The transaction a statement writes in.
#[derive(Clone, Copy, Debug, PartialEq, Eq, Structural)]
pub struct Opened {
    /// The transaction's number.
    pub txn: u64,
    /// Whether the statement is its own transaction.
    pub autocommit: bool,
    /// How many changes stood before the statement.
    pub mark: usize,
}

/// What is undone of a failed statement.
#[derive(Clone, Copy, Debug, PartialEq, Eq, Structural)]
pub enum Undoing {
    /// Nothing.
    Nothing,
    /// The changes past a number of them, as a transaction's.
    ToFloor(usize, u64),
    /// The whole batch.
    Rollback,
}

/// What comes after a statement was applied.
#[derive(Clone, Copy, Debug, PartialEq, Eq, Structural)]
pub enum AfterApply {
    /// Its rows are followed into the vector indexes.
    Follow,
    /// It is abandoned.
    Abandon(Undoing),
}

/// What comes after its rows were followed.
#[derive(Clone, Copy, Debug, PartialEq, Eq, Structural)]
pub enum AfterFollow {
    /// The modules are synced.
    Sync,
    /// The statement is sealed.
    Seal,
    /// It is abandoned.
    Abandon(Undoing),
}

/// What comes after an abandoned statement was undone.
#[derive(Debug)]
pub enum AfterUndo {
    /// What it wrote is kept: its transaction is committed over these schemas.
    Commit(u64, u16),
    /// The pools of these schemas forget that anything was uncommitted.
    Forget(Vec<usize>),
    /// Nothing: the batch it was part of goes on.
    Nothing,
}

/// Whose error a failed statement reports.
#[derive(Clone, Copy, Debug, PartialEq, Eq, Structural)]
pub enum Blame {
    /// The one it failed with.
    Statement,
    /// The one undoing it failed with.
    Undo,
    /// The one committing what it kept failed with.
    Commit,
}

/// What is undone of a statement that failed.
pub open spec fn undoing_of(unwind: Unwind, opened: Opened) -> Undoing {
    match unwind {
        Unwind::Nothing => Undoing::Nothing,
        Unwind::Statement => Undoing::ToFloor(opened.mark, opened.txn),
        Unwind::Transaction => if opened.autocommit {
            Undoing::ToFloor(0, opened.txn)
        } else {
            Undoing::Rollback
        },
    }
}

/// A statement that fails is taken back whole: undoing what it asks to have
/// undone leaves the rows as they stood when it began. One that asks for the
/// whole transaction leaves them as they stood when that began.
pub proof fn a_failed_statement_is_taken_back(
    states: Seq<Rows>,
    changes: Seq<Image>,
    opened: Opened,
    unwind: Unwind,
    key_of: spec_fn(int, int, Seq<Value>) -> Seq<Value>,
)
    requires
        states.len() == changes.len() + 1,
        opened.mark <= changes.len(),
        forall|i: int|
            0 <= i < changes.len() ==> remembers(
                states[i],
                states[i + 1],
                #[trigger] changes[i],
                key_of,
            ),
    ensures
        match undoing_of(unwind, opened) {
            Undoing::Nothing => unwind is Nothing,
            Undoing::ToFloor(floor, txn) => {
                &&& txn == opened.txn
                &&& undone(states.last(), changes, floor as int, key_of) == (if unwind is Statement {
                    states[opened.mark as int]
                } else {
                    states[0]
                })
            },
            Undoing::Rollback => unwind is Transaction && !opened.autocommit && undone(
                states.last(),
                changes,
                0,
                key_of,
            ) == states[0],
        },
{
    undoing_restores_the_mark(states, changes, opened.mark as int, key_of);
    undoing_restores_the_mark(states, changes, 0, key_of);
}

/// Returns what is undone of a statement that failed.
fn undoing(unwind: Unwind, opened: Opened) -> (undoing: Undoing)
    ensures
        undoing == undoing_of(unwind, opened),
        undoing is Nothing <==> unwind is Nothing,
        unwind is Statement ==> undoing == Undoing::ToFloor(opened.mark, opened.txn),
        unwind is Transaction && opened.autocommit ==> undoing == Undoing::ToFloor(0, opened.txn),
        unwind is Transaction && !opened.autocommit ==> undoing is Rollback,
{
    match unwind {
        Unwind::Nothing => Undoing::Nothing,
        Unwind::Statement => Undoing::ToFloor(opened.mark, opened.txn),
        Unwind::Transaction => if opened.autocommit {
            Undoing::ToFloor(0, opened.txn)
        } else {
            Undoing::Rollback
        },
    }
}

/// Returns what comes after a statement's rows were followed into the vector
/// indexes, and whether that changed a module's rows.
///
/// Inside a batch the modules are synced when the batch is, so only a statement
/// that is its own transaction syncs them here.
pub fn after_follow(opened: Opened, followed: Result<bool, Unwind>) -> (next: AfterFollow)
    ensures
        next == (match followed {
            Err(unwind) => AfterFollow::Abandon(undoing_of(unwind, opened)),
            Ok(changed) => if changed && opened.autocommit {
                AfterFollow::Sync
            } else {
                AfterFollow::Seal
            },
        }),
{
    match followed {
        Err(unwind) => AfterFollow::Abandon(undoing(unwind, opened)),
        Ok(changed) => if changed && opened.autocommit {
            AfterFollow::Sync
        } else {
            AfterFollow::Seal
        },
    }
}

/// Returns what comes after the modules were synced.
pub fn after_sync(opened: Opened, synced: Result<(), Unwind>) -> (next: AfterFollow)
    ensures
        next == (match synced {
            Err(unwind) => AfterFollow::Abandon(undoing_of(unwind, opened)),
            Ok(_) => AfterFollow::Seal,
        }),
{
    match synced {
        Err(unwind) => AfterFollow::Abandon(undoing(unwind, opened)),
        Ok(_) => AfterFollow::Seal,
    }
}

/// Whether a failed statement's own writes are committed all the same.
pub open spec fn keeps_its_writes(unwind: Unwind, opened: Opened, undone: bool) -> bool {
    opened.autocommit && unwind is Nothing && undone
}

impl Writing {
    /// Opens the transaction a statement writes in.
    pub fn open_statement(&mut self) -> (opened: Opened)
        ensures
            opened.mark == old(self)@.undo.len(),
            match old(self)@.batch {
                Some(txn) => opened.txn == txn && !opened.autocommit && final(self)@ == old(self)@,
                None => opened.txn == old(self)@.next_txn && opened.autocommit && final(self)@ == (
                Ledger {
                    next_txn: one_past(old(self)@.next_txn),
                    statement_txn: Some(old(self)@.next_txn),
                    ..old(self)@
                }),
            },
            old(self)@.batch is None && old(self)@.next_txn < u64::MAX ==> final(self)@.next_txn
                == old(self)@.next_txn + 1,
    {
        let mark: usize = self.undo.len();
        match self.batch {
            Some(txn) => Opened { txn, autocommit: false, mark },
            None => {
                let txn: u64 = self.next_txn;
                self.next_txn = txn.saturating_add(1);
                self.statement_txn = Some(txn);
                Opened { txn, autocommit: true, mark }
            },
        }
    }

    /// Records that a statement was applied, and returns what comes next.
    ///
    /// A failed statement has still assigned the rowids it assigned. Its rows
    /// count only where they stay.
    pub fn statement_applied(
        &mut self,
        counters: &mut Counters,
        opened: Opened,
        wrote: u16,
        counted: Counted,
        applied: Result<(), Unwind>,
    ) -> (next: AfterApply)
        ensures
            match applied {
                Ok(_) => next is Follow && final(counters)@ == old(counters)@ && final(self)@ == (
                Ledger { touched: old(self)@.touched | wrote, ..old(self)@ }),
                Err(unwind) => next == AfterApply::Abandon(undoing_of(unwind, opened))
                    && final(self)@ == old(self)@ && final(counters)@ == (Tally {
                    last_rowid: match counted.rowid {
                        Some(assigned) => assigned,
                        None => old(counters)@.last_rowid,
                    },
                    last_changes: if unwind is Nothing {
                        counted.own
                    } else {
                        0
                    },
                    changed_ever: if unwind is Nothing {
                        crate::counters::bounded(old(counters)@.changed_ever + counted.all)
                    } else {
                        old(counters)@.changed_ever
                    },
                    ..old(counters)@
                }),
            },
    {
        match applied {
            Ok(_) => {
                self.touched = self.touched | wrote;
                AfterApply::Follow
            },
            Err(unwind) => {
                counters.remember_rowid(counted.rowid);
                if let Unwind::Nothing = unwind {
                    counters.record_changes(counted.own, counted.all);
                } else {
                    counters.last_changes = 0;
                }
                AfterApply::Abandon(undoing(unwind, opened))
            },
        }
    }

    /// Seals a statement that succeeded, and returns the transaction to commit
    /// and the schemas to commit it over when the statement is its own.
    pub fn seal_statement(
        &mut self,
        counters: &mut Counters,
        opened: Opened,
        rowid: Option<i64>,
        counted: Counted,
    ) -> (commit: Option<(u64, u16)>)
        ensures
            commit == (if opened.autocommit {
                Some((opened.txn, old(self)@.touched))
            } else {
                None
            }),
            final(self)@ == if opened.autocommit {
                Ledger { undo: Seq::empty(), touched: 0, ..old(self)@ }
            } else {
                old(self)@
            },
            final(counters)@ == (Tally {
                last_rowid: match rowid {
                    Some(assigned) => assigned,
                    None => old(counters)@.last_rowid,
                },
                last_changes: counted.own,
                changed_ever: crate::counters::bounded(
                    old(counters)@.changed_ever + counted.all,
                ),
                ..old(counters)@
            }),
    {
        if opened.autocommit {
            self.undo = Vec::new();
        }
        counters.remember_rowid(rowid);
        counters.record_changes(counted.own, counted.all);
        if opened.autocommit {
            let participants: u16 = self.touched;
            self.touched = 0;
            Some((opened.txn, participants))
        } else {
            None
        }
    }

    /// Ends a statement's own transaction, whether it was kept or not.
    pub fn close_statement(&mut self)
        ensures
            final(self)@ == (Ledger { statement_txn: None, ..old(self)@ }),
    {
        self.statement_txn = None;
    }

    /// Settles an abandoned statement once it was undone, or could not be, and
    /// returns what comes next.
    ///
    /// Inside a batch, a statement that keeps what it wrote leaves the schemas it
    /// wrote to among those the batch is committed over.
    pub fn abandoned(
        &mut self,
        opened: Opened,
        unwind: Unwind,
        wrote: u16,
        undone: bool,
    ) -> (next: AfterUndo)
        ensures
            match next {
                AfterUndo::Commit(txn, participants) => keeps_its_writes(unwind, opened, undone)
                    && txn == opened.txn && participants == old(self)@.touched | wrote,
                AfterUndo::Forget(schemas) => opened.autocommit && !keeps_its_writes(
                    unwind,
                    opened,
                    undone,
                ) && numbers_of(schemas@) == schemas_of(wrote, 16),
                AfterUndo::Nothing => !opened.autocommit,
            },
            next is Commit <==> opened.autocommit && unwind is Nothing && undone,
            next is Nothing <==> !opened.autocommit,
            final(self)@ == if opened.autocommit {
                Ledger { undo: Seq::empty(), marks: Seq::empty(), touched: 0, ..old(self)@ }
            } else if unwind is Nothing {
                Ledger { touched: old(self)@.touched | wrote, ..old(self)@ }
            } else {
                old(self)@
            },
    {
        if !opened.autocommit {
            if let Unwind::Nothing = unwind {
                self.touched = self.touched | wrote;
            }
            return AfterUndo::Nothing;
        }
        self.undo = Vec::new();
        self.marks = Vec::new();
        let kept: bool = match unwind {
            Unwind::Nothing => undone,
            _ => false,
        };
        if kept {
            let participants: u16 = self.touched | wrote;
            self.touched = 0;
            AfterUndo::Commit(opened.txn, participants)
        } else {
            self.touched = 0;
            AfterUndo::Forget(schemas_in(wrote))
        }
    }

    /// Ends an abandoned statement, and returns whose error it reports.
    ///
    /// A commit that failed is reported over the statement's own error. The
    /// statement's transaction is over whichever it is.
    pub fn report_abandoned(&mut self, undone: bool, committed: Option<bool>) -> (blame: Blame)
        ensures
            blame == (if committed == Some(false) {
                Blame::Commit
            } else if !undone {
                Blame::Undo
            } else {
                Blame::Statement
            }),
            final(self)@ == (Ledger { statement_txn: None, ..old(self)@ }),
    {
        self.statement_txn = None;
        if let Some(ok) = committed {
            if !ok {
                return Blame::Commit;
            }
        }
        if undone {
            Blame::Statement
        } else {
            Blame::Undo
        }
    }
}

} // verus!
