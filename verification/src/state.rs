//! What one connection is set to, and what it knows about the indexes modules
//! own.
//!
//! A setting is a property of the connection rather than of the file, so a
//! database that is created and one that is opened start from the same values.

use vstd::prelude::*;

use crate::locks::JournalMode;
use crate::pragma::DEFAULT_MAX_PAGE_COUNT;
use crate::text::{copied, raise, raised, same};

verus! {

/// One connection's settings: everything a pragma sets and everything else only
/// reads.
#[derive(Clone, Copy, Debug, PartialEq, Eq, Structural)]
pub struct Pragmas {
    /// Which planner optimizations are off, one bit each.
    pub levers: u32,
    /// How long a writer waits for the writer slot, in milliseconds.
    pub busy_timeout_ms: u64,
    /// Whether foreign keys are enforced.
    pub foreign_keys: bool,
    /// Whether every immediate check of a foreign key waits for the commit, for
    /// the transaction now open.
    pub defer_foreign_keys: bool,
    /// Whether the file lock is held between transactions.
    pub locking_exclusive: bool,
    /// How the state before a commit is protected.
    pub journal_mode: JournalMode,
    /// Whether check constraints are off.
    pub ignore_check_constraints: bool,
    /// What happens to the bytes of a deleted row: 0 nothing, 1 overwritten, 2
    /// overwritten where it is cheap.
    pub secure_delete: u8,
    /// How free pages are given back: 0 not, 1 at each commit, 2 when asked.
    pub auto_vacuum: u8,
    /// Whether the planner may build a transient index.
    pub automatic_index: bool,
    /// The size of the cache as the caller set it, in the pragma's signed units.
    pub cache_size: Option<i64>,
    /// Whether `LIKE` compares letters exactly.
    pub case_sensitive_like: bool,
    /// How many rows an analysis was asked to stop at.
    pub analysis_limit: i64,
    /// Whether a statement may write the schema table.
    pub writable_schema: bool,
    /// Whether the statements that can lose a database in one line are refused.
    pub defensive: bool,
    /// Whether the connection refuses to write.
    pub query_only: bool,
    /// Whether a trigger's own writes fire triggers.
    pub recursive_triggers: bool,
    /// The most pages the file may have.
    pub max_page_count: i64,
    /// Where temporary tables were asked to be kept.
    pub temp_store: i64,
}

/// Whether every optimization of one set is on.
pub open spec fn is_on(levers: u32, lever: u32) -> bool {
    levers & lever == 0
}

impl Pragmas {
    /// The settings a connection starts with.
    pub open spec fn to_begin_with() -> Pragmas {
        Pragmas {
            levers: 0,
            busy_timeout_ms: 0,
            foreign_keys: false,
            defer_foreign_keys: false,
            locking_exclusive: false,
            journal_mode: JournalMode::Delete,
            ignore_check_constraints: false,
            secure_delete: 0,
            auto_vacuum: 0,
            automatic_index: true,
            cache_size: None,
            case_sensitive_like: false,
            analysis_limit: 0,
            writable_schema: false,
            defensive: false,
            query_only: false,
            recursive_triggers: false,
            max_page_count: DEFAULT_MAX_PAGE_COUNT,
            temp_store: 0,
        }
    }

    /// Returns the settings a connection starts with.
    ///
    /// They are SQLite's own for a fresh connection: a rollback journal, and a
    /// file lock that is let go between transactions so that another process
    /// may have the file.
    pub fn fresh() -> (pragmas: Pragmas)
        ensures
            pragmas == Pragmas::to_begin_with(),
            pragmas.levers == 0 && pragmas.busy_timeout_ms == 0 && pragmas.automatic_index,
            !pragmas.foreign_keys && !pragmas.defer_foreign_keys && !pragmas.locking_exclusive,
            pragmas.journal_mode is Delete && !pragmas.ignore_check_constraints,
            pragmas.secure_delete == 0 && pragmas.auto_vacuum == 0 && pragmas.cache_size is None,
            !pragmas.case_sensitive_like && pragmas.analysis_limit == 0,
            !pragmas.writable_schema && !pragmas.defensive && !pragmas.query_only,
            !pragmas.recursive_triggers && pragmas.temp_store == 0,
            pragmas.max_page_count == DEFAULT_MAX_PAGE_COUNT,
    {
        Pragmas {
            levers: 0,
            busy_timeout_ms: 0,
            foreign_keys: false,
            defer_foreign_keys: false,
            locking_exclusive: false,
            journal_mode: JournalMode::Delete,
            ignore_check_constraints: false,
            secure_delete: 0,
            auto_vacuum: 0,
            automatic_index: true,
            cache_size: None,
            case_sensitive_like: false,
            analysis_limit: 0,
            writable_schema: false,
            defensive: false,
            query_only: false,
            recursive_triggers: false,
            max_page_count: DEFAULT_MAX_PAGE_COUNT,
            temp_store: 0,
        }
    }

    /// Turns the transient index on or off for the planner, and leaves every
    /// other optimization as it is.
    ///
    /// `lever` is the bit the planner knows that optimization by.
    pub fn set_automatic_index(&mut self, lever: u32, on: bool)
        ensures
            on ==> is_on(final(self).levers, lever),
            !on ==> final(self).levers & lever == lever,
            forall|other: u32|
                other & lever == 0 ==> #[trigger] (final(self).levers & other) == old(self).levers
                    & other,
            *final(self) == (Pragmas { levers: final(self).levers, ..*old(self) }),
    {
        let ghost before = self.levers;
        self.levers = if on {
            self.levers & !lever
        } else {
            self.levers | lever
        };
        proof {
            assert((before & !lever) & lever == 0) by (bit_vector);
            assert((before | lever) & lever == lever) by (bit_vector);
            assert forall|other: u32| other & lever == 0 implies #[trigger] (self.levers & other)
                == before & other by {
                assert(other & lever == 0 ==> (before & !lever) & other == before & other)
                    by (bit_vector);
                assert(other & lever == 0 ==> (before | lever) & other == before & other)
                    by (bit_vector);
            }
        }
    }
}

/// One index a module owns, and where its rows come from.
///
/// The database keeps this rather than the module, because it is the database
/// that sees the writes: the module is handed rows and does not know which table
/// they came out of.
#[derive(Debug)]
pub struct VectorIndex {
    /// The store that holds the vectors, by its folded name.
    pub name: Vec<u8>,
    /// Which column of a row holds the vector.
    pub column: usize,
    /// Which column of a row holds its rowid, which is the store's key too.
    pub rowid: usize,
    /// The indexed column's declared position.
    pub declared: u16,
}

impl VectorIndex {
    /// Returns an index whose columns the caller states.
    pub fn at(name: Vec<u8>, column: usize, rowid: usize) -> (index: VectorIndex)
        ensures
            index.name == name,
            index.column == column,
            index.rowid == rowid,
            index.declared == 0,
    {
        VectorIndex { name, column, rowid, declared: 0 }
    }
}

/// The names of collations, as bytes.
pub open spec fn called(names: Seq<Vec<u8>>) -> Seq<Seq<u8>> {
    Seq::new(names.len(), |i: int| names[i]@)
}

/// The names without one of them.
pub open spec fn without(names: Seq<Seq<u8>>, name: Seq<u8>) -> Seq<Seq<u8>>
    decreases names.len(),
{
    if names.len() == 0 {
        seq![]
    } else {
        let before = without(names.drop_last(), name);
        if names.last() == name {
            before
        } else {
            before.push(names.last())
        }
    }
}

/// Puts a collation's name last, raised, in place of one of the same name.
///
/// Names are told apart without regard to the case of their letters.
pub fn create_collation(collations: &mut Vec<Vec<u8>>, name: &[u8])
    ensures
        called(final(collations)@) == without(called(old(collations)@), raised(name@)).push(
            raised(name@),
        ),
        final(collations)@.len() > 0,
        final(collations)@.last()@.len() == name@.len(),
        forall|at: int|
            0 <= at < name@.len() ==> (#[trigger] final(collations)@.last()@[at]) == if 97
                <= name@[at] <= 122 {
                (name@[at] - 32) as u8
            } else {
                name@[at]
            },
{
    let folded = raise(name);
    let ghost before = collations@;
    let mut kept: Vec<Vec<u8>> = Vec::new();
    assert(called(before).take(0) =~= seq![]);
    assert(called(kept@) =~= seq![]);
    for at in 0..collations.len()
        invariant
            collations@ == before,
            folded@ == raised(name@),
            called(kept@) == without(called(before).take(at as int), folded@),
    {
        let ghost some = kept@;
        assert(called(before).take(at + 1).drop_last() =~= called(before).take(at as int));
        if !same(&collations[at], &folded) {
            kept.push(copied(&collations[at]));
            assert(called(kept@) =~= called(some).push(before[at as int]@));
        }
    }
    assert(called(before).take(before.len() as int) =~= called(before));
    let ghost some = kept@;
    kept.push(folded);
    assert(called(kept@) =~= called(some).push(raised(name@)));
    assert(called(kept@).len() == kept@.len());
    assert(kept@.last()@ == called(kept@).last());
    *collations = kept;
}

/// Putting a collation in place of one of its name takes out that one and no other,
/// and leaves the others in their order.
pub proof fn other_collations_stay(names: Seq<Seq<u8>>, name: Seq<u8>)
    ensures
        without(names, name) == names.filter(|held: Seq<u8>| held != name),
        !without(names, name).contains(name),
        forall|held: Seq<u8>|
            held != name ==> (#[trigger] without(names, name).contains(held) <==> names.contains(
                held,
            )),
    decreases names.len(),
{
    reveal(Seq::filter);
    let kept = without(names, name);
    if names.len() > 0 {
        let fewer = names.drop_last();
        let before = without(fewer, name);
        other_collations_stay(fewer, name);
        assert forall|held: Seq<u8>| held != name implies (#[trigger] kept.contains(held)
            <==> names.contains(held)) by {
            assert(before.contains(held) <==> fewer.contains(held));
            if kept.contains(held) {
                let at = choose|at: int| 0 <= at < kept.len() && kept[at] == held;
                if at < before.len() {
                    assert(before[at] == held);
                    assert(fewer.contains(held));
                    let there = choose|there: int| 0 <= there < fewer.len() && fewer[there] == held;
                    assert(names[there] == held);
                } else {
                    assert(names[names.len() - 1] == held);
                }
            }
            if names.contains(held) {
                let at = choose|at: int| 0 <= at < names.len() && names[at] == held;
                if at < fewer.len() {
                    assert(fewer[at] == held);
                    assert(before.contains(held));
                    let there = choose|there: int|
                        0 <= there < before.len() && before[there] == held;
                    assert(kept[there] == held);
                } else {
                    assert(kept[kept.len() - 1] == held);
                }
            }
        }
        if kept.contains(name) {
            let at = choose|at: int| 0 <= at < kept.len() && kept[at] == name;
            if at < before.len() {
                assert(before[at] == name);
                assert(before.contains(name));
            }
        }
    }
}

} // verus!
