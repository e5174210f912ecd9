//! The plan cache: what a compiled statement is held under, and when it is
//! reused rather than compiled again.
//!
//! A plan is reused only when nothing about the connection could make it answer
//! differently. An authorizer that may refuse a statement has to be asked about
//! this execution, so nothing is held while one is installed. A planner lever
//! changes what the right plan is, so it is part of the key.

use vstd::prelude::*;

use crate::text::{copied, same, show, shown};

verus! {

/// How many compiled statements one session holds before its cache is emptied.
pub const DEFAULT_STATEMENT_CACHE: usize = 1_000;

/// How long the last index build spent in each of its stages, in nanoseconds.
#[derive(Clone, Copy, Debug, PartialEq, Eq, Structural)]
pub struct StageTimings {
    /// Reading the table's rows.
    pub scan: u128,
    /// Sorting the entries.
    pub sort: u128,
    /// Looking for two entries with one key.
    pub unique: u128,
    /// Laying the entries out for the tree.
    pub flatten: u128,
    /// Packing the tree's pages.
    pub pack: u128,
    /// Writing the catalog row.
    pub catalog: u128,
    /// Sealing the transaction.
    pub seal: u128,
}

impl Default for StageTimings {
    fn default() -> (timings: StageTimings)
        ensures
            timings == (StageTimings {
                scan: 0,
                sort: 0,
                unique: 0,
                flatten: 0,
                pack: 0,
                catalog: 0,
                seal: 0,
            }),
    {
        StageTimings { scan: 0, sort: 0, unique: 0, flatten: 0, pack: 0, catalog: 0, seal: 0 }
    }
}

/// The compiled statements held under one key, each by its text.
///
/// A plan is held by a number the caller finds it by.
#[derive(Debug)]
pub struct Shelf {
    /// The key.
    pub key: u64,
    /// The statements' texts and plans.
    pub plans: Vec<(Vec<u8>, u64)>,
}

/// The plan of a text, on one shelf.
pub open spec fn plan_on(plans: Seq<(Vec<u8>, u64)>, sql: Seq<u8>) -> Option<u64>
    decreases plans.len(),
{
    if plans.len() == 0 {
        None
    } else if plans.last().0@ == sql {
        Some(plans.last().1)
    } else {
        plan_on(plans.drop_last(), sql)
    }
}

/// The plan of a text under a key.
pub open spec fn plan_under(shelves: Seq<Shelf>, key: u64, sql: Seq<u8>) -> Option<u64>
    decreases shelves.len(),
{
    if shelves.len() == 0 {
        None
    } else if shelves.last().key == key {
        plan_on(shelves.last().plans@, sql)
    } else {
        plan_under(shelves.drop_last(), key, sql)
    }
}

/// How many statements are held under a key.
pub open spec fn count_under(shelves: Seq<Shelf>, key: u64) -> int
    decreases shelves.len(),
{
    if shelves.len() == 0 {
        0
    } else if shelves.last().key == key {
        shelves.last().plans@.len() as int
    } else {
        count_under(shelves.drop_last(), key)
    }
}

/// How many statements are held under a key once one more was kept there: one
/// where the key had as many as it may, no more than before where the text was
/// already held, and one more otherwise.
pub open spec fn held_after(held: int, ceiling: int, known: bool) -> int {
    if held >= ceiling {
        1
    } else if known {
        held
    } else {
        held + 1
    }
}

/// How many statements are held under every key.
pub open spec fn count_all(shelves: Seq<Shelf>) -> int
    decreases shelves.len(),
{
    if shelves.len() == 0 {
        0
    } else {
        count_all(shelves.drop_last()) + shelves.last().plans@.len()
    }
}

/// Whether no key has two shelves.
pub open spec fn keys_differ(shelves: Seq<Shelf>) -> bool {
    forall|i: int, j: int|
        0 <= i < j < shelves.len() ==> (#[trigger] shelves[i]).key != (#[trigger] shelves[j]).key
}

/// The statements a connection has compiled.
#[derive(Debug)]
pub struct Compiled {
    /// The statements, by key.
    pub statements: Vec<Shelf>,
    /// How many one key may have before it is emptied.
    pub statement_cache_limit: usize,
    /// How many were compiled since the connection opened.
    pub compiles: u64,
    /// How long the last index build took.
    pub index_stages: StageTimings,
}

/// What is done with a statement's text.
#[derive(Clone, Copy, Debug, PartialEq, Eq, Structural)]
pub enum Lookup {
    /// It is compiled, and the plan is not held.
    Fresh,
    /// It was compiled before.
    Held(u64),
    /// It is compiled, and the plan is held.
    Keep,
}

/// Returns the key a compiled statement is held under: the session, and the
/// planner's levers.
///
/// Two sessions' plans are kept apart because a temporary table makes the same
/// text mean two tables.
pub fn plan_key(session: u64, levers: u32) -> (key: u64)
    ensures
        key == (session << 32) | (levers as u64),
{
    (session << 32) | (levers as u64)
}

/// Two connections share a key only when they are one session under the same
/// levers, as long as fewer than four thousand million sessions were opened.
pub proof fn a_key_tells_sessions_and_levers_apart(
    one: u64,
    one_levers: u32,
    two: u64,
    two_levers: u32,
)
    requires
        one <= u32::MAX,
        two <= u32::MAX,
        (one << 32) | (one_levers as u64) == (two << 32) | (two_levers as u64),
    ensures
        one == two,
        one_levers == two_levers,
{
    assert(one == two && one_levers == two_levers) by (bit_vector)
        requires
            one <= 0xFFFF_FFFFu64,
            two <= 0xFFFF_FFFFu64,
            (one << 32) | (one_levers as u64) == (two << 32) | (two_levers as u64),
    ;
}

/// The plan of a text is found where it stands.
proof fn plan_stands(plans: Seq<(Vec<u8>, u64)>, sql: Seq<u8>, at: int)
    requires
        0 <= at < plans.len(),
        plans[at].0@ == sql,
        forall|i: int| at < i < plans.len() ==> (#[trigger] plans[i]).0@ != sql,
    ensures
        plan_on(plans, sql) == Some(plans[at].1),
    decreases plans.len(),
{
    if at < plans.len() - 1 {
        assert(plans.last().0@ != sql);
        plan_stands(plans.drop_last(), sql, at);
    }
}

/// A text that stands nowhere on a shelf has no plan there.
proof fn plan_is_missing(plans: Seq<(Vec<u8>, u64)>, sql: Seq<u8>)
    requires
        forall|i: int| 0 <= i < plans.len() ==> (#[trigger] plans[i]).0@ != sql,
    ensures
        plan_on(plans, sql) is None,
    decreases plans.len(),
{
    if plans.len() > 0 {
        assert(plans.last().0@ != sql);
        plan_is_missing(plans.drop_last(), sql);
    }
}

/// A shelf is found where it stands.
proof fn shelf_stands(shelves: Seq<Shelf>, key: u64, at: int)
    requires
        keys_differ(shelves),
        0 <= at < shelves.len(),
        shelves[at].key == key,
    ensures
        forall|sql: Seq<u8>| #[trigger]
            plan_under(shelves, key, sql) == plan_on(shelves[at].plans@, sql),
        count_under(shelves, key) == shelves[at].plans@.len(),
    decreases shelves.len(),
{
    if at < shelves.len() - 1 {
        assert(shelves.last().key != key);
        assert(keys_differ(shelves.drop_last()));
        shelf_stands(shelves.drop_last(), key, at);
    }
    assert forall|sql: Seq<u8>| #[trigger] plan_under(shelves, key, sql) == plan_on(
        shelves[at].plans@,
        sql,
    ) by {
        if at < shelves.len() - 1 {
            assert(plan_under(shelves.drop_last(), key, sql) == plan_on(shelves[at].plans@, sql));
        }
    }
}

/// A key nobody has a shelf under has no plans.
proof fn shelf_is_missing(shelves: Seq<Shelf>, key: u64)
    requires
        forall|i: int| 0 <= i < shelves.len() ==> (#[trigger] shelves[i]).key != key,
    ensures
        forall|sql: Seq<u8>| (#[trigger] plan_under(shelves, key, sql)) is None,
        count_under(shelves, key) == 0,
    decreases shelves.len(),
{
    if shelves.len() > 0 {
        assert(shelves.last().key != key);
        shelf_is_missing(shelves.drop_last(), key);
    }
    assert forall|sql: Seq<u8>| (#[trigger] plan_under(shelves, key, sql)) is None by {
        if shelves.len() > 0 {
            assert(plan_under(shelves.drop_last(), key, sql) is None);
        }
    }
}

/// Shelves that are alike but for one key hold the same under every other.
proof fn other_keys_stay(before: Seq<Shelf>, after: Seq<Shelf>, key: u64, other: u64)
    requires
        other != key,
        before.len() <= after.len() <= before.len() + 1,
        forall|i: int|
            0 <= i < before.len() ==> (#[trigger] before[i]) == after[i] || (before[i].key == key
                && after[i].key == key),
        after.len() > before.len() ==> after.last().key == key,
    ensures
        forall|sql: Seq<u8>| #[trigger]
            plan_under(before, other, sql) == plan_under(after, other, sql),
        count_under(before, other) == count_under(after, other),
    decreases after.len(),
{
    if after.len() > before.len() {
        assert(after.drop_last().len() == before.len());
        assert forall|i: int| 0 <= i < before.len() implies (#[trigger] before[i])
            == after.drop_last()[i] || (before[i].key == key && after.drop_last()[i].key
            == key) by {
            assert(after.drop_last()[i] == after[i]);
        }
        other_keys_stay(before, after.drop_last(), key, other);
        assert forall|sql: Seq<u8>| #[trigger] plan_under(before, other, sql) == plan_under(
            after,
            other,
            sql,
        ) by {
            assert(plan_under(before, other, sql) == plan_under(after.drop_last(), other, sql));
        }
    } else if after.len() > 0 {
        let last = before.len() - 1;
        assert(before[last] == after[last] || (before[last].key == key && after[last].key == key));
        assert forall|i: int| 0 <= i < before.drop_last().len() implies (
        #[trigger] before.drop_last()[i]) == after.drop_last()[i] || (before.drop_last()[i].key
            == key && after.drop_last()[i].key == key) by {
            assert(before.drop_last()[i] == before[i]);
            assert(after.drop_last()[i] == after[i]);
        }
        other_keys_stay(before.drop_last(), after.drop_last(), key, other);
        assert forall|sql: Seq<u8>| #[trigger] plan_under(before, other, sql) == plan_under(
            after,
            other,
            sql,
        ) by {
            assert(plan_under(before.drop_last(), other, sql) == plan_under(
                after.drop_last(),
                other,
                sql,
            ));
        }
    }
}

/// Returns where a text stands on a shelf.
fn find_plan(plans: &[(Vec<u8>, u64)], sql: &[u8]) -> (found: Option<usize>)
    ensures
        match found {
            Some(at) => at < plans@.len() && plans@[at as int].0@ == sql@ && plan_on(
                plans@,
                sql@,
            ) == Some(plans@[at as int].1),
            None => plan_on(plans@, sql@) is None && forall|i: int|
                0 <= i < plans@.len() ==> (#[trigger] plans@[i]).0@ != sql@,
        },
{
    let mut at: usize = plans.len();
    while at > 0
        invariant
            at <= plans@.len(),
            forall|i: int| at <= i < plans@.len() ==> (#[trigger] plans@[i]).0@ != sql@,
        decreases at,
    {
        at = at - 1;
        if same(plans[at].0.as_slice(), sql) {
            proof {
                plan_stands(plans@, sql@, at as int);
            }
            return Some(at);
        }
    }
    proof {
        plan_is_missing(plans@, sql@);
    }
    None
}

impl Compiled {
    /// Whether no key has two shelves.
    pub open spec fn wf(&self) -> bool {
        keys_differ(self.statements@)
    }

    /// Returns a connection that has compiled nothing.
    pub fn fresh() -> (compiled: Compiled)
        ensures
            compiled.wf(),
            compiled.statements@.len() == 0,
            compiled.statement_cache_limit == DEFAULT_STATEMENT_CACHE,
            compiled.compiles == 0,
            compiled.index_stages == (StageTimings {
                scan: 0,
                sort: 0,
                unique: 0,
                flatten: 0,
                pack: 0,
                catalog: 0,
                seal: 0,
            }),
    {
        Compiled {
            statements: Vec::new(),
            statement_cache_limit: DEFAULT_STATEMENT_CACHE,
            compiles: 0,
            index_stages: StageTimings::default(),
        }
    }

    /// Returns how many compiled statements are held, under every key.
    pub fn held(&self) -> (count: usize)
        ensures
            count == if count_all(self.statements@) > usize::MAX {
                usize::MAX as int
            } else {
                count_all(self.statements@)
            },
    {
        let mut count: usize = 0;
        for at in 0..self.statements.len()
            invariant
                count == if count_all(self.statements@.take(at as int)) > usize::MAX {
                    usize::MAX as int
                } else {
                    count_all(self.statements@.take(at as int))
                },
        {
            let ghost more = self.statements@.take(at + 1);
            assert(more.drop_last() =~= self.statements@.take(at as int));
            assert(more.last() == self.statements@[at as int]);
            count = count.saturating_add(self.statements[at].plans.len());
        }
        assert(self.statements@.take(self.statements@.len() as int) =~= self.statements@);
        count
    }

    /// Returns how many statements one key may have before it is emptied.
    pub fn limit(&self) -> (most: usize)
        ensures
            most == self.statement_cache_limit,
    {
        self.statement_cache_limit
    }

    /// Sets how many statements one key may have before it is emptied.
    ///
    /// None means that every statement is compiled each time, so what is held is
    /// forgotten.
    pub fn set_limit(&mut self, most: usize)
        requires
            old(self).wf(),
        ensures
            final(self).wf(),
            final(self).statement_cache_limit == most,
            final(self).compiles == old(self).compiles,
            final(self).index_stages == old(self).index_stages,
            final(self).statements@ == if most == 0 {
                Seq::empty()
            } else {
                old(self).statements@
            },
    {
        self.statement_cache_limit = most;
        if most == 0 {
            self.statements = Vec::new();
        }
    }

    /// Forgets every compiled statement.
    pub fn forget_all(&mut self)
        ensures
            final(self).wf(),
            final(self).statements@.len() == 0,
            final(self).statement_cache_limit == old(self).statement_cache_limit,
            final(self).compiles == old(self).compiles,
            final(self).index_stages == old(self).index_stages,
    {
        self.statements = Vec::new();
    }

    /// Returns how many statements were compiled since the connection opened.
    pub fn compiles(&self) -> (count: u64)
        ensures
            count == self.compiles,
    {
        self.compiles
    }

    /// Counts one statement compiled.
    pub fn count_compile(&mut self)
        ensures
            *final(self) == (Compiled {
                compiles: if old(self).compiles == u64::MAX {
                    u64::MAX
                } else {
                    (old(self).compiles + 1) as u64
                },
                ..*old(self)
            }),
    {
        self.compiles = self.compiles.saturating_add(1);
    }

    /// Takes over what another connection has compiled, leaving it nothing.
    pub fn adopt(&mut self, fresh: &mut Compiled)
        requires
            old(fresh).wf(),
        ensures
            *final(self) == *old(fresh),
            final(self).wf(),
            final(fresh).statements@.len() == 0,
            final(fresh).statement_cache_limit == old(fresh).statement_cache_limit,
            final(fresh).compiles == old(fresh).compiles,
            final(fresh).index_stages == old(fresh).index_stages,
    {
        let mut statements: Vec<Shelf> = Vec::new();
        std::mem::swap(&mut statements, &mut fresh.statements);
        self.statements = statements;
        self.statement_cache_limit = fresh.statement_cache_limit;
        self.compiles = fresh.compiles;
        self.index_stages = fresh.index_stages;
    }

    /// Returns what is done with a statement's text.
    ///
    /// An authorizer that may refuse has to be asked every time, so a connection
    /// with one holds nothing; nor does one whose cache is switched off.
    pub fn lookup(&self, restricted: bool, caching: bool, key: u64, sql: &[u8]) -> (found: Lookup)
        requires
            self.wf(),
        ensures
            found == (if restricted || !caching {
                Lookup::Fresh
            } else {
                match plan_under(self.statements@, key, sql@) {
                    Some(plan) => Lookup::Held(plan),
                    None => Lookup::Keep,
                }
            }),
            found is Fresh <==> restricted || !caching,
            found matches Lookup::Held(plan) ==> exists|shelf: int, at: int|
                0 <= shelf < self.statements@.len() && 0 <= at
                    < self.statements@[shelf].plans@.len() && self.statements@[shelf].key == key && (
                #[trigger] self.statements@[shelf].plans@[at]).0@ == sql@
                    && self.statements@[shelf].plans@[at].1 == plan,
            found is Keep ==> forall|shelf: int, at: int|
                0 <= shelf < self.statements@.len() && self.statements@[shelf].key == key && 0
                    <= at < self.statements@[shelf].plans@.len() ==> (
                #[trigger] self.statements@[shelf].plans@[at]).0@ != sql@,
    {
        if restricted || !caching {
            return Lookup::Fresh;
        }
        for at in 0..self.statements.len()
            invariant
                self.wf(),
                !restricted && caching,
                forall|i: int| 0 <= i < at ==> (#[trigger] self.statements@[i]).key != key,
        {
            if self.statements[at].key == key {
                proof {
                    shelf_stands(self.statements@, key, at as int);
                }
                return match find_plan(self.statements[at].plans.as_slice(), sql) {
                    Some(place) => Lookup::Held(self.statements[at].plans[place].1),
                    None => Lookup::Keep,
                };
            }
        }
        proof {
            shelf_is_missing(self.statements@, key);
        }
        Lookup::Keep
    }

    /// Holds a plan under a key, by its text.
    ///
    /// A key that already has as many as it may is emptied first: the cost of
    /// being wrong is compiling again, and the cost of knowing better would be
    /// paid on every hit.
    pub fn keep(&mut self, key: u64, sql: &[u8], plan: u64)
        requires
            old(self).wf(),
        ensures
            final(self).wf(),
            final(self).statement_cache_limit == old(self).statement_cache_limit,
            final(self).compiles == old(self).compiles,
            final(self).index_stages == old(self).index_stages,
            old(self).statement_cache_limit == 0 ==> final(self).statements@ == old(
                self,
            ).statements@,
            old(self).statement_cache_limit > 0 ==> {
                &&& forall|other: Seq<u8>| #[trigger]
                    plan_under(final(self).statements@, key, other) == if other == sql@ {
                        Some(plan)
                    } else if count_under(old(self).statements@, key) >= old(
                        self,
                    ).statement_cache_limit {
                        None
                    } else {
                        plan_under(old(self).statements@, key, other)
                    }
                &&& forall|other: u64, text: Seq<u8>|
                    other != key ==> #[trigger] plan_under(final(self).statements@, other, text)
                        == plan_under(old(self).statements@, other, text)
                &&& count_under(final(self).statements@, key) == held_after(
                    count_under(old(self).statements@, key),
                    old(self).statement_cache_limit as int,
                    plan_under(old(self).statements@, key, sql@) is Some,
                )
                &&& count_under(old(self).statements@, key) >= old(self).statement_cache_limit
                    ==> count_under(final(self).statements@, key) == 1
                &&& count_under(old(self).statements@, key) < old(self).statement_cache_limit
                    ==> count_under(final(self).statements@, key) == count_under(
                    old(self).statements@,
                    key,
                ) + (if plan_under(old(self).statements@, key, sql@) is Some {
                    0int
                } else {
                    1int
                })
                &&& forall|other: u64|
                    other != key ==> #[trigger] count_under(final(self).statements@, other)
                        == count_under(old(self).statements@, other)
            },
    {
        let ceiling: usize = self.statement_cache_limit;
        if ceiling == 0 {
            return;
        }
        let ghost before = self.statements@;
        let many: usize = self.statements.len();
        let mut at: usize = 0;
        while at < many && self.statements[at].key != key
            invariant
                at <= many,
                many == self.statements@.len(),
                self.statements@ == before,
                forall|i: int| 0 <= i < at ==> (#[trigger] self.statements@[i]).key != key,
            decreases many - at,
        {
            at = at + 1;
        }
        if at == many {
            let mut plans: Vec<(Vec<u8>, u64)> = Vec::new();
            plans.push((copied(sql), plan));
            self.statements.push(Shelf { key, plans });
            proof {
                shelf_is_missing(before, key);
                shelf_stands(self.statements@, key, at as int);
                assert forall|other: Seq<u8>| #[trigger] plan_on(plans@, other) == if other == sql@ {
                    Some(plan)
                } else {
                    None
                } by {
                    assert(plans@.drop_last() =~= Seq::<(Vec<u8>, u64)>::empty());
                    assert(plan_on(plans@.drop_last(), other) is None);
                }
            }
        } else {
            proof {
                shelf_stands(before, key, at as int);
            }
            let shelf = &mut self.statements[at];
            hold(&mut shelf.plans, ceiling, sql, plan);
            proof {
                shelf_stands(self.statements@, key, at as int);
            }
        }
        proof {
            let after = self.statements@;
            assert forall|other: u64, text: Seq<u8>| other != key implies #[trigger] plan_under(
                after,
                other,
                text,
            ) == plan_under(before, other, text) by {
                other_keys_stay(before, after, key, other);
            }
            assert forall|other: u64| other != key implies #[trigger] count_under(after, other)
                == count_under(before, other) by {
                other_keys_stay(before, after, key, other);
            }
        }
    }
}

/// Holds a plan on a shelf, emptying the shelf first when it is full.
fn hold(plans: &mut Vec<(Vec<u8>, u64)>, ceiling: usize, sql: &[u8], plan: u64)
    requires
        ceiling > 0,
    ensures
        forall|other: Seq<u8>| #[trigger]
            plan_on(final(plans)@, other) == if other == sql@ {
                Some(plan)
            } else if old(plans)@.len() >= ceiling {
                None
            } else {
                plan_on(old(plans)@, other)
            },
        final(plans)@.len() == held_after(
            old(plans)@.len() as int,
            ceiling as int,
            plan_on(old(plans)@, sql@) is Some,
        ),
{
    if plans.len() >= ceiling {
        plans.clear();
    }
    let ghost held = plans@;
    assert forall|other: Seq<u8>| #[trigger] plan_on(held, other) == if old(plans)@.len()
        >= ceiling {
        None
    } else {
        plan_on(old(plans)@, other)
    } by {}
    match find_plan(plans.as_slice(), sql) {
        Some(at) => {
            plans.remove(at);
            plans.push((copied(sql), plan));
            proof {
                let after = plans@;
                let fewer = held.remove(at as int);
                assert(after.drop_last() =~= fewer);
                assert forall|other: Seq<u8>| #[trigger] plan_on(after, other) == if other
                    == sql@ {
                    Some(plan)
                } else {
                    plan_on(held, other)
                } by {
                    if other != sql@ {
                        removing_keeps_others(held, at as int, other);
                    }
                }
            }
        },
        None => {
            plans.push((copied(sql), plan));
            assert(plans@.drop_last() =~= held);
        },
    }
}

/// Taking a text off a shelf leaves the plans of the others.
proof fn removing_keeps_others(plans: Seq<(Vec<u8>, u64)>, at: int, other: Seq<u8>)
    requires
        0 <= at < plans.len(),
        plans[at].0@ != other,
    ensures
        plan_on(plans.remove(at), other) == plan_on(plans, other),
    decreases plans.len(),
{
    if at == plans.len() - 1 {
        assert(plans.remove(at) =~= plans.drop_last());
    } else {
        let fewer = plans.remove(at);
        assert(fewer.last() == plans.last());
        assert(fewer.drop_last() =~= plans.drop_last().remove(at));
        removing_keeps_others(plans.drop_last(), at, other);
    }
}

/// What each column of a plan is called, as it is shown.
pub open spec fn columns_shown(names: Seq<Vec<u8>>) -> Seq<Seq<u8>> {
    names.map_values(|name: Vec<u8>| shown(name@))
}

/// Returns what the columns of a plan's result are called.
pub fn column_names(names: &[Vec<u8>]) -> (called: Vec<Vec<u8>>)
    ensures
        crate::reattach::names_of(called@) == columns_shown(names@),
        called@.len() == names@.len(),
        forall|at: int|
            0 <= at < names@.len() ==> (#[trigger] called@[at])@ == shown(names@[at]@),
{
    let mut called: Vec<Vec<u8>> = Vec::with_capacity(names.len());
    for at in 0..names.len()
        invariant
            crate::reattach::names_of(called@) =~= columns_shown(names@.take(at as int)),
            called@.len() == at,
            forall|i: int| 0 <= i < at ==> (#[trigger] called@[i])@ == shown(names@[i]@),
    {
        let ghost so_far = called@;
        called.push(show(names[at].as_slice()));
        assert(crate::reattach::names_of(called@) =~= crate::reattach::names_of(so_far).push(
            shown(names@[at as int]@),
        ));
        assert(columns_shown(names@.take(at + 1)) =~= columns_shown(names@.take(at as int)).push(
            shown(names@[at as int]@),
        ));
    }
    assert(names@.take(names@.len() as int) =~= names@);
    called
}

/// What a query's compiled chain is known to be.
#[derive(Clone, Copy, Debug, PartialEq, Eq, Structural)]
pub enum Slot {
    /// Nobody has tried to compile one.
    Untried,
    /// There is one, and it can be run again.
    Reusable,
    /// There can be none.
    Never,
}

/// How a query is run.
#[derive(Clone, Copy, Debug, PartialEq, Eq, Structural)]
pub enum QueryRun {
    /// Through the chain that was compiled for it.
    Reuse,
    /// Through a chain compiled now, which is run and then judged.
    Compile,
    /// Through a plan built for this one execution.
    Build,
}

/// Returns how a query is run.
///
/// A slot already in use is one whose query is inside its own execution, which
/// runs beside it rather than through it.
pub fn query_run(slot: Slot, in_use: bool) -> (run: QueryRun)
    ensures
        run == (if in_use {
            QueryRun::Build
        } else {
            match slot {
                Slot::Reusable => QueryRun::Reuse,
                Slot::Never => QueryRun::Build,
                Slot::Untried => QueryRun::Compile,
            }
        }),
{
    if in_use {
        return QueryRun::Build;
    }
    match slot {
        Slot::Reusable => QueryRun::Reuse,
        Slot::Never => QueryRun::Build,
        Slot::Untried => QueryRun::Compile,
    }
}

/// Returns what a slot is known to be once compiling was tried, and how the
/// query is run if it was not run already: a chain that was built has run, and
/// is kept only when it can be given other parameters.
pub fn after_compiling(built: Option<bool>) -> (known: (Slot, Option<QueryRun>))
    ensures
        known == (match built {
            Some(rebindable) => (
                if rebindable {
                    Slot::Reusable
                } else {
                    Slot::Never
                },
                None,
            ),
            None => (Slot::Never, Some(QueryRun::Build)),
        }),
{
    match built {
        Some(rebindable) => (
            if rebindable {
                Slot::Reusable
            } else {
                Slot::Never
            },
            None,
        ),
        None => (Slot::Never, Some(QueryRun::Build)),
    }
}

/// The plans held are those of every shelf together.
pub proof fn every_shelf_counts(before: Seq<Shelf>, shelf: Shelf, after: Seq<Shelf>)
    ensures
        count_all(Seq::empty()) == 0,
        count_all(seq![shelf]) == shelf.plans@.len(),
        count_all(before + after) == count_all(before) + count_all(after),
    decreases after.len(),
{
    assert(seq![shelf].drop_last() =~= Seq::<Shelf>::empty());
    assert(seq![shelf].last() == shelf);
    if after.len() == 0 {
        assert(before + after =~= before);
    } else {
        let whole = before + after;
        assert(whole.drop_last() =~= before + after.drop_last());
        assert(whole.last() == after.last());
        every_shelf_counts(before, shelf, after.drop_last());
    }
}

} // verus!
