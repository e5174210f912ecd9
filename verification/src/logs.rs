//! The logs one statement writes to, one for each database it can reach.

use vstd::prelude::*;

use crate::handles::handle_in;
use crate::refusals::Refusal;
use crate::sessions::{
    a_bit_holds_its_schema, bit_of, holds_schema, schema_bit, sets_join, SessionState,
    FIRST_ATTACHED, MAIN, TEMP,
};
use crate::transactions::Before;

verus! {

/// What a pool's watermark reads when nothing in it is uncommitted.
pub const NOTHING_UNCOMMITTED: u64 = 0xFFFF_FFFF_FFFF_FFFF;

/// One database's log, as one statement writes to it.
#[derive(Clone, Copy, Debug, PartialEq, Eq, Structural)]
pub struct WalLog {
    /// The transaction its records belong to.
    pub txn: u64,
    /// The schema whose log it is.
    pub schema: usize,
    /// Whether the statement has written to it.
    pub wrote: bool,
    /// Whether what a change replaced is remembered.
    pub keeps_undo: bool,
}

impl WalLog {
    /// Notes that a record was appended, and returns the first position of the
    /// log that is not yet committed.
    ///
    /// The first record of a transaction is the one that counts, so a watermark
    /// already set stays where it is.
    pub fn log(&mut self, uncommitted: u64, lsn: u64) -> (watermark: u64)
        ensures
            *final(self) == (WalLog { wrote: true, ..*old(self) }),
            watermark == (if uncommitted == NOTHING_UNCOMMITTED {
                lsn
            } else {
                uncommitted
            }),
    {
        self.wrote = true;
        if uncommitted == NOTHING_UNCOMMITTED {
            lsn
        } else {
            uncommitted
        }
    }
}

/// The logs one statement writes to.
#[derive(Debug)]
pub enum Logs {
    /// Only `main`'s, for a connection that holds nothing else.
    One(WalLog),
    /// One for each schema number.
    Many(Vec<WalLog>),
}

/// Whether some log of a schema was written to.
pub open spec fn some_wrote(held: Seq<WalLog>, at: int) -> bool {
    exists|i: int| 0 <= i < held.len() && (#[trigger] held[i]).wrote && held[i].schema == at
}

impl View for Logs {
    type V = Seq<WalLog>;

    open spec fn view(&self) -> Seq<WalLog> {
        match self {
            Logs::One(log) => seq![*log],
            Logs::Many(held) => held@,
        }
    }
}

/// The log a statement that has written nothing has of each schema.
///
/// A session without a temporary database has `main`'s log in its place: no
/// handle leads there, and the logs of the schemas after it keep their numbers.
pub open spec fn log_at(state: SessionState, txn: u64, at: int) -> WalLog {
    WalLog {
        txn,
        schema: if at == TEMP && state.beside_main(TEMP as int) is None {
            MAIN
        } else {
            at as usize
        },
        wrote: false,
        keeps_undo: true,
    }
}

impl Logs {
    /// Returns the logs of a statement that has written nothing.
    pub fn opened(state: &SessionState, txn: u64) -> (logs: Logs)
        requires
            state.attached@.len() + FIRST_ATTACHED <= usize::MAX,
        ensures
            logs is One <==> (state.attached@.len() == 0 && state.temps@.len() == 0),
            logs@ == if logs is One {
                seq![log_at(*state, txn, MAIN as int)]
            } else {
                Seq::new(
                    state.attached@.len() + FIRST_ATTACHED as nat,
                    |at: int| log_at(*state, txn, at),
                )
            },
            logs is Many ==> logs@.len() == state.attached@.len() + 2,
            forall|at: int|
                0 <= at < logs@.len() ==> (#[trigger] logs@[at]).txn == txn && !logs@[at].wrote
                    && logs@[at].keeps_undo && (at != 1 ==> logs@[at].schema == at),
            logs is Many ==> logs@[1].schema == (if (exists|i: int|
                0 <= i < state.temps@.len() && (#[trigger] state.temps@[i]).session == Some(
                    state.session,
                )) {
                1int
            } else {
                0int
            }),
    {
        proof {
            crate::sessions::temp_is_listed(state.temps@, state.session);
        }
        let main = WalLog { txn, schema: MAIN, wrote: false, keeps_undo: true };
        if state.attached.len() == 0 && state.temps.len() == 0 {
            let logs = Logs::One(main);
            assert(logs@ =~= seq![log_at(*state, txn, MAIN as int)]);
            return logs;
        }
        let mut held: Vec<WalLog> = Vec::with_capacity(state.attached.len() + 2);
        held.push(main);
        match state.schema_at(TEMP) {
            Some(_) => held.push(WalLog { txn, schema: TEMP, wrote: false, keeps_undo: true }),
            None => held.push(main),
        }
        for nth in 0..state.attached.len()
            invariant
                state.attached@.len() + FIRST_ATTACHED <= usize::MAX,
                held@ =~= Seq::new(
                    nth as nat + FIRST_ATTACHED as nat,
                    |at: int| log_at(*state, txn, at),
                ),
        {
            held.push(
                WalLog { txn, schema: FIRST_ATTACHED + nth, wrote: false, keeps_undo: true },
            );
        }
        Logs::Many(held)
    }

    /// Returns one schema's log, none for a schema the statement cannot reach.
    pub fn get_mut(&mut self, at: usize) -> (log: Option<&mut WalLog>)
        ensures
            match log {
                Some(log) => at < old(self)@.len() && *log == old(self)@[at as int] && final(self)@
                    == old(self)@.update(at as int, *final(log)),
                None => at >= old(self)@.len() && final(self)@ == old(self)@,
            },
    {
        match self {
            Logs::One(log) => if at == MAIN {
                Some(log)
            } else {
                None
            },
            Logs::Many(held) => if at < held.len() {
                Some(&mut held[at])
            } else {
                None
            },
        }
    }

    /// Returns the schemas the statement has written to.
    pub fn wrote(&self) -> (mask: u16)
        ensures
            forall|at: int| #[trigger]
                holds_schema(mask, at) <==> 0 <= at < 16 && some_wrote(self@, at),
    {
        match self {
            Logs::One(log) => {
                let mask: u16 = if log.wrote {
                    schema_bit(log.schema)
                } else {
                    0
                };
                proof {
                    assert forall|at: int| #[trigger]
                        holds_schema(mask, at) <==> 0 <= at < 16 && some_wrote(self@, at) by {
                        a_bit_holds_its_schema(log.schema as int, at);
                        sets_join(0, 0, at);
                        assert(self@[0] == *log);
                    }
                }
                mask
            },
            Logs::Many(held) => {
                let mut mask: u16 = 0;
                proof {
                    assert forall|at: int| !(#[trigger] holds_schema(0, at)) by {
                        sets_join(0, 0, at);
                    }
                }
                for nth in 0..held.len()
                    invariant
                        forall|at: int| #[trigger]
                            holds_schema(mask, at) <==> 0 <= at < 16 && some_wrote(
                                held@.take(nth as int),
                                at,
                            ),
                {
                    let ghost before = mask;
                    if held[nth].wrote {
                        mask = mask | schema_bit(held[nth].schema);
                    }
                    proof {
                        let some = held@.take(nth as int);
                        let more = held@.take(nth + 1);
                        assert forall|at: int| #[trigger]
                            holds_schema(mask, at) <==> 0 <= at < 16 && some_wrote(more, at) by {
                            a_bit_holds_its_schema(held@[nth as int].schema as int, at);
                            sets_join(before, bit_of(held@[nth as int].schema as int), at);
                            assert(holds_schema(before, at) <==> 0 <= at < 16 && some_wrote(
                                some,
                                at,
                            ));
                            if some_wrote(some, at) {
                                let i = choose|i: int|
                                    0 <= i < some.len() && (#[trigger] some[i]).wrote
                                        && some[i].schema == at;
                                assert(more[i] == some[i]);
                            }
                            if some_wrote(more, at) {
                                let i = choose|i: int|
                                    0 <= i < more.len() && (#[trigger] more[i]).wrote
                                        && more[i].schema == at;
                                if i < nth {
                                    assert(some[i] == more[i]);
                                }
                            }
                            assert(more[nth as int] == held@[nth as int]);
                        }
                    }
                }
                assert(held@.take(held@.len() as int) =~= held@);
                mask
            },
        }
    }
}

/// The schema a write to a tree goes to, none when it cannot be reached.
pub open spec fn written_through(state: SessionState, logs: Seq<WalLog>, root: u32) -> Option<
    int,
> {
    let at = state.owned_by(root);
    if 0 <= at < logs.len() && (at == MAIN || state.beside_main(at) is Some) {
        Some(at)
    } else {
        None
    }
}

/// Returns the schema a write to a tree goes to.
pub fn write_route(state: &SessionState, logs: &Logs, root: u32) -> (route: Result<usize, Refusal>)
    ensures
        route == (match written_through(*state, logs@, root) {
            Some(at) => Ok::<usize, Refusal>(at as usize),
            None => Err::<usize, Refusal>(Refusal::WriteNotAttached),
        }),
        !state.owner@.contains_key(root) && logs@.len() > 0 ==> route == Ok::<usize, Refusal>(0),
        (state.attached@.len() > 0 || state.temps@.len() > 0) && state.owner@.contains_key(root)
            && state.owner@[root] >= 2 ==> route == (if state.owner@[root] < logs@.len()
            && state.owner@[root] - 2 < state.attached@.len() {
            Ok::<usize, Refusal>(state.owner@[root])
        } else {
            Err::<usize, Refusal>(Refusal::WriteNotAttached)
        }),
{
    let at: usize = state.schema_of(root);
    let held: bool = match logs {
        Logs::One(_) => at == MAIN,
        Logs::Many(many) => at < many.len(),
    };
    if !held {
        return Err(Refusal::WriteNotAttached);
    }
    if at == MAIN {
        return Ok(at);
    }
    match state.schema_at(at) {
        Some(_) => Ok(at),
        None => Err(Refusal::WriteNotAttached),
    }
}

/// The handle of the tree a change is put back in.
pub open spec fn undone_through(state: SessionState, at: int, tree: u64, catalog: u64) -> u32 {
    if tree == catalog {
        state.catalog_of(at)
    } else {
        match handle_in(state, at, tree) {
            Some(handle) => handle,
            None => 0,
        }
    }
}

/// Returns the handle of the tree a change is put back in.
///
/// The catalog is a tree like any other, known by an identifier of its own.
pub fn undo_route(state: &SessionState, entry: &Before, catalog: u64) -> (route: Result<
    u32,
    Refusal,
>)
    ensures
        route == (if entry.schema == MAIN || state.beside_main(entry.schema as int) is Some {
            Ok::<u32, Refusal>(undone_through(*state, entry.schema as int, entry.tree, catalog))
        } else {
            Err::<u32, Refusal>(Refusal::RollbackNotAttached)
        }),
        entry.schema == 0 && entry.tree != catalog && entry.tree <= u32::MAX ==> route == Ok::<
            u32,
            Refusal,
        >(entry.tree as u32),
        entry.schema >= 2 ==> (route is Ok <==> entry.schema - 2 < state.attached@.len()),
        entry.schema >= 2 && entry.schema - 2 < state.attached@.len() ==> {
            let held = state.attached@[entry.schema - 2];
            &&& entry.tree == catalog ==> route == Ok::<u32, Refusal>(held.catalog_handle)
            &&& entry.tree != catalog && held.handles@.contains_key(entry.tree) ==> route == Ok::<
                u32,
                Refusal,
            >(held.handles@[entry.tree])
            &&& entry.tree != catalog && !held.handles@.contains_key(entry.tree) ==> route == Ok::<
                u32,
                Refusal,
            >(0)
        },
{
    let at: usize = entry.schema;
    if at != MAIN && state.schema_at(at).is_none() {
        return Err(Refusal::RollbackNotAttached);
    }
    if entry.tree == catalog {
        return Ok(state.catalog_handle_of(at));
    }
    match state.handle_of(at, entry.tree) {
        Some(handle) => Ok(handle),
        None => Ok(0),
    }
}

/// A schema counts as written where one of its logs was written to, and one whose logs
/// were not counts as untouched.
pub proof fn a_schema_is_written_through_its_logs(held: Seq<WalLog>, nth: int, at: int)
    requires
        0 <= nth < held.len(),
    ensures
        held[nth].wrote ==> some_wrote(held, held[nth].schema as int),
        (forall|i: int| 0 <= i < held.len() && (#[trigger] held[i]).schema == at ==> !held[i].wrote)
            ==> !some_wrote(held, at),
{
}

} // verus!
