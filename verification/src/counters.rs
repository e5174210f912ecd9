//! The counters a connection reports.
//!
//! They are per database and not per statement: a caller asks what the last
//! statement did after it has let the statement go.

use std::collections::HashMap;

use vstd::prelude::*;

verus! {

broadcast use vstd::std_specs::hash::group_hash_axioms;

/// What the counters read.
#[verifier::ext_equal]
pub struct Tally {
    /// The rowid the last insert assigned.
    pub last_rowid: i64,
    /// How many rows every statement has changed.
    pub changed_ever: i64,
    /// What the running total read when each session was opened.
    pub opened_at: Map<u64, i64>,
    /// How many rows the last statement changed itself.
    pub last_changes: i64,
    /// The seed the random functions were last given.
    pub seed: u64,
}

/// The counters a connection reports.
pub struct Counters {
    /// The rowid the last insert assigned.
    pub last_rowid: i64,
    /// How many rows every statement has changed.
    pub changed_ever: i64,
    /// What the running total read when each session was opened.
    pub opened_at: HashMap<u64, i64>,
    /// How many rows the last statement changed itself.
    pub last_changes: i64,
    /// The seed the random functions were last given.
    pub seed: u64,
}

impl View for Counters {
    type V = Tally;

    open spec fn view(&self) -> Tally {
        Tally {
            last_rowid: self.last_rowid,
            changed_ever: self.changed_ever,
            opened_at: self.opened_at@,
            last_changes: self.last_changes,
            seed: self.seed,
        }
    }
}

/// A sum, or the greatest number there is when it is past that, or the least.
pub open spec fn bounded(sum: int) -> i64 {
    if sum > i64::MAX {
        i64::MAX
    } else if sum < i64::MIN {
        i64::MIN
    } else {
        sum as i64
    }
}

/// What a running total reads for one session.
pub open spec fn since_opened(tally: Tally, session: u64) -> i64 {
    if tally.opened_at.contains_key(session) {
        bounded(tally.changed_ever - tally.opened_at[session])
    } else {
        tally.changed_ever
    }
}

/// How many rows a statement has written so far.
#[derive(Clone, Copy, Debug, PartialEq, Eq, Structural)]
pub struct Counted {
    /// The rows it wrote itself.
    pub own: i64,
    /// The rows written under it, its triggers' among them.
    pub all: i64,
    /// The rowid it last assigned.
    pub rowid: Option<i64>,
}

/// Returns the sum of two counts, held at the ends of what a count can be.
fn held_sum(left: i64, right: i64) -> (sum: i64)
    ensures
        sum == bounded(left + right),
        i64::MIN <= left + right <= i64::MAX ==> sum == left + right,
        left + right > i64::MAX ==> sum == i64::MAX,
        left + right < i64::MIN ==> sum == i64::MIN,
{
    let wide: i128 = left as i128 + right as i128;
    if wide > i64::MAX as i128 {
        i64::MAX
    } else if wide < i64::MIN as i128 {
        i64::MIN
    } else {
        wide as i64
    }
}

impl Counted {
    /// Returns the count of a statement that has written nothing.
    pub fn nothing() -> (counted: Counted)
        ensures
            counted == (Counted { own: 0, all: 0, rowid: None }),
    {
        Counted { own: 0, all: 0, rowid: None }
    }

    /// Counts one more row, as the statement's own unless a trigger wrote it.
    pub fn count_row(&mut self, outer: bool)
        ensures
            *final(self) == (Counted {
                own: bounded(
                    old(self).own + if outer {
                        1int
                    } else {
                        0
                    },
                ),
                all: bounded(old(self).all + 1),
                rowid: old(self).rowid,
            }),
    {
        let one: i64 = if outer {
            1
        } else {
            0
        };
        self.own = held_sum(self.own, one);
        self.all = held_sum(self.all, 1);
    }

    /// Remembers a rowid the statement assigned.
    pub fn count_rowid(&mut self, rowid: i64)
        ensures
            *final(self) == (Counted { rowid: Some(rowid), ..*old(self) }),
    {
        self.rowid = Some(rowid);
    }
}

/// What a statement's functions are told about the connection.
#[derive(Clone, Copy, Debug, PartialEq, Eq, Structural)]
pub struct Context {
    /// How many rows the last statement changed.
    pub changes: i64,
    /// How many rows this session has changed.
    pub total_changes: i64,
    /// The rowid the last insert assigned.
    pub last_insert_rowid: i64,
    /// The seed of the random functions.
    pub seed: u64,
    /// Whether `LIKE` tells letters in different cases apart.
    pub like_case_sensitive: bool,
}

/// The running total of changed rows never falls: undoing a change does not take
/// it back.
pub proof fn the_total_never_falls(total: i64, all: i64)
    requires
        all >= 0,
    ensures
        bounded(total + all) >= total,
{
}

/// What a process number is multiplied by, so that close ones lie far apart.
pub const SEED_STEP: u64 = 0x9E37_79B9_7F4A_7C15;

/// What a process number is spread out to.
pub open spec fn spread(process: u32) -> u64 {
    ((process * SEED_STEP) % 0x1_0000_0000_0000_0000) as u64
}

/// The start of a connection's stream of random numbers.
pub open spec fn seed_of(nanos: u64, process: u32) -> u64 {
    nanos ^ spread(process)
}

/// Returns where a connection's stream of random numbers starts, from the clock
/// and the number of the process.
pub fn fresh_seed(nanos: u64, process: u32) -> (seed: u64)
    ensures
        seed == seed_of(nanos, process),
        seed == nanos ^ (((process * 0x9E37_79B9_7F4A_7C15) % 0x1_0000_0000_0000_0000) as u64),
{
    nanos ^ (process as u64).wrapping_mul(SEED_STEP)
}

/// Two processes that read the clock at one moment start two streams.
pub proof fn processes_start_apart(nanos: u64, one: u32, two: u32)
    requires
        seed_of(nanos, one) == seed_of(nanos, two),
    ensures
        one == two,
{
    let left = spread(one);
    let right = spread(two);
    assert(left == right) by (bit_vector)
        requires
            nanos ^ left == nanos ^ right,
    ;
    let whole: int = 0x1_0000_0000_0000_0000;
    let step: int = SEED_STEP as int;
    // The step times this number is one, but for wholes.
    let back: int = 0xf1de_83e1_9937_733d;
    let wholes: int = 10771413168148108919;
    assert(step * back == 1 + wholes * whole) by (nonlinear_arith)
        requires
            step == 0x9E37_79B9_7F4A_7C15,
            back == 0xf1de_83e1_9937_733d,
            wholes == 10771413168148108919,
            whole == 0x1_0000_0000_0000_0000,
    ;
    let many = (one * step) / whole - (two * step) / whole;
    assert(one * step - two * step == many * whole) by {
        vstd::arithmetic::div_mod::lemma_fundamental_div_mod(one * step, whole);
        vstd::arithmetic::div_mod::lemma_fundamental_div_mod(two * step, whole);
        assert(whole * ((one * step) / whole) - whole * ((two * step) / whole) == many * whole)
            by (nonlinear_arith)
            requires
                many == (one * step) / whole - (two * step) / whole,
        ;
    }
    let apart = one - two;
    assert(apart == (many * back - apart * wholes) * whole) by (nonlinear_arith)
        requires
            apart * step == many * whole,
            step * back == 1 + wholes * whole,
            apart == one - two,
            one * step - two * step == many * whole,
    ;
    assert(apart == 0) by (nonlinear_arith)
        requires
            apart == (many * back - apart * wholes) * whole,
            whole == 0x1_0000_0000_0000_0000,
            -whole < apart < whole,
    ;
}

impl Counters {
    /// Returns the counters of a database nobody has written to.
    pub fn starting_from(seed: u64) -> (counters: Counters)
        ensures
            counters@ == (Tally {
                last_rowid: 0,
                changed_ever: 0,
                opened_at: Map::empty(),
                last_changes: 0,
                seed,
            }),
    {
        Counters {
            last_rowid: 0,
            changed_ever: 0,
            opened_at: HashMap::new(),
            last_changes: 0,
            seed,
        }
    }

    /// Returns the rowid the last insert assigned.
    pub fn last_insert_rowid(&self) -> (rowid: i64)
        ensures
            rowid == self@.last_rowid,
    {
        self.last_rowid
    }

    /// Returns how many rows the last statement changed itself.
    pub fn changes(&self) -> (rows: i64)
        ensures
            rows == self@.last_changes,
    {
        self.last_changes
    }

    /// Remembers what the running total reads as a session opens.
    ///
    /// A session opens once: the first reading is the one kept.
    pub fn record_open_once(&mut self, session: u64)
        ensures
            final(self)@ == (Tally {
                opened_at: if old(self)@.opened_at.contains_key(session) {
                    old(self)@.opened_at
                } else {
                    old(self)@.opened_at.insert(session, old(self)@.changed_ever)
                },
                ..old(self)@
            }),
    {
        if !self.opened_at.contains_key(&session) {
            let now: i64 = self.changed_ever;
            self.opened_at.insert(session, now);
        }
    }

    /// Returns how many rows every statement of a session has changed.
    pub fn total_changes(&self, session: u64) -> (rows: i64)
        ensures
            rows == since_opened(self@, session),
            !self@.opened_at.contains_key(session) ==> rows == self@.changed_ever,
            self@.opened_at.contains_key(session) ==> ({
                let changed = self@.changed_ever - self@.opened_at[session];
                &&& i64::MIN <= changed <= i64::MAX ==> rows == changed
                &&& changed > i64::MAX ==> rows == i64::MAX
                &&& changed < i64::MIN ==> rows == i64::MIN
            }),
    {
        match self.opened_at.get(&session) {
            Some(opened) => {
                let wide: i128 = self.changed_ever as i128 - *opened as i128;
                if wide > i64::MAX as i128 {
                    i64::MAX
                } else if wide < i64::MIN as i128 {
                    i64::MIN
                } else {
                    wide as i64
                }
            },
            None => self.changed_ever,
        }
    }

    /// Records what a statement changed, on both counters.
    pub fn record_changes(&mut self, own: i64, all: i64)
        ensures
            final(self)@ == (Tally {
                last_changes: own,
                changed_ever: bounded(old(self)@.changed_ever + all),
                ..old(self)@
            }),
    {
        self.last_changes = own;
        self.changed_ever = held_sum(self.changed_ever, all);
    }

    /// Counts the rows a module took, whether it took all of them or failed on
    /// one: a module keeps what it took.
    pub fn record_module_rows(&mut self, taken: usize)
        requires
            taken <= i64::MAX,
        ensures
            final(self)@ == (Tally {
                last_changes: taken as i64,
                changed_ever: bounded(old(self)@.changed_ever + taken),
                ..old(self)@
            }),
    {
        self.record_changes(taken as i64, taken as i64);
    }

    /// Remembers the rowid an insert assigned, when it assigned one.
    pub fn remember_rowid(&mut self, rowid: Option<i64>)
        ensures
            final(self)@ == (Tally {
                last_rowid: match rowid {
                    Some(assigned) => assigned,
                    None => old(self)@.last_rowid,
                },
                ..old(self)@
            }),
    {
        if let Some(assigned) = rowid {
            self.last_rowid = assigned;
        }
    }

    /// Returns what a statement's functions are told, under the next seed of
    /// the stream.
    pub fn scalar_context(
        &mut self,
        session: u64,
        next_seed: u64,
        like_case_sensitive: bool,
    ) -> (context: Context)
        ensures
            context == (Context {
                changes: old(self)@.last_changes,
                total_changes: since_opened(old(self)@, session),
                last_insert_rowid: old(self)@.last_rowid,
                seed: next_seed,
                like_case_sensitive,
            }),
            final(self)@ == (Tally { seed: next_seed, ..old(self)@ }),
    {
        let context = Context {
            changes: self.last_changes,
            total_changes: self.total_changes(session),
            last_insert_rowid: self.last_rowid,
            seed: next_seed,
            like_case_sensitive,
        };
        self.seed = next_seed;
        context
    }
}

/// A session is told of its own changes and of nobody else's: what was recorded
/// before it opened does not count, and what is recorded after does.
pub proof fn a_session_counts_from_its_opening(tally: Tally, session: u64, all: i64)
    requires
        !tally.opened_at.contains_key(session),
        i64::MIN <= tally.changed_ever + all <= i64::MAX,
    ensures
        ({
            let opened = Tally {
                opened_at: tally.opened_at.insert(session, tally.changed_ever),
                ..tally
            };
            let recorded = Tally { changed_ever: bounded(tally.changed_ever + all), ..opened };
            since_opened(opened, session) == 0 && since_opened(recorded, session) == all
        }),
{
}

/// Counts add up as long as they fit: what a session is told after two statements is
/// what each changed, and a row another session changed before this one opened is
/// never among them.
pub proof fn counts_add_up(tally: Tally, session: u64, one: i64, two: i64)
    requires
        tally.opened_at.contains_key(session),
        one >= 0,
        two >= 0,
        i64::MIN <= tally.changed_ever - tally.opened_at[session],
        tally.changed_ever + one + two <= i64::MAX,
        tally.changed_ever - tally.opened_at[session] + one + two <= i64::MAX,
    ensures
        ({
            let after = Tally {
                changed_ever: bounded(bounded(tally.changed_ever + one) + two),
                ..tally
            };
            &&& after.changed_ever == tally.changed_ever + one + two
            &&& since_opened(after, session) == since_opened(tally, session) + one + two
            &&& since_opened(tally, session) + tally.opened_at[session] == tally.changed_ever
        }),
{
}

} // verus!
