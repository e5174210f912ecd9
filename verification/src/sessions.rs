//! The databases one connection holds, and the numbers it names them by.
//!
//! `main` is schema zero, the running session's temporary database is one, and
//! the attached databases follow in the order they were attached. A tree's
//! identifier is its own file's; its handle is the connection's. For `main` they
//! are the same number and for anything else they cannot be, because two files
//! each number their trees from one.

use std::collections::HashMap;

use vstd::prelude::*;

use crate::schema::Recorded;

verus! {

broadcast use vstd::std_specs::hash::group_hash_axioms;

/// The database the connection was opened on.
pub const MAIN: usize = 0;

/// The running session's temporary database.
pub const TEMP: usize = 1;

/// The first attached database.
pub const FIRST_ATTACHED: usize = 2;

/// How many databases a connection may hold beside `main` and `temp`.
pub const MAX_ATTACHED: usize = 10;

/// The handle `main`'s catalog is read through.
pub const SCHEMA_VIEW_ROOT: u32 = 0xFFFF_FFFF;

/// The identifier the first tree a statement creates is registered under.
pub const FIRST_CREATED_ROOT: u32 = 0x8000_0000;

/// The first handle a tree outside `main` is registered under.
pub const FIRST_ATTACHED_HANDLE: u32 = 0xC000_0000;

/// How many pages a pool holds when nobody says.
pub const DEFAULT_FRAMES: usize = 4096;

/// Whether a set of schemas, one bit each, holds a schema.
pub open spec fn holds_schema(mask: u16, at: int) -> bool {
    0 <= at < 16 && (mask >> (at as u16)) & 1 == 1
}

/// The set of one schema.
pub open spec fn bit_of(at: int) -> u16 {
    if 0 <= at < 16 {
        1u16 << (at as u16)
    } else {
        0
    }
}

/// Returns the set of one schema, empty past the last a set can hold.
pub fn schema_bit(at: usize) -> (mask: u16)
    ensures
        mask == bit_of(at as int),
        at < 16 ==> mask == 1u16 << (at as u16),
        at >= 16 ==> mask == 0,
{
    if at < 16 {
        1u16 << (at as u16)
    } else {
        0
    }
}

/// A set of one schema holds that schema and no other.
pub proof fn a_bit_holds_its_schema(at: int, other: int)
    ensures
        holds_schema(bit_of(at), other) <==> (at == other && 0 <= at < 16),
{
    if 0 <= at < 16 && 0 <= other < 16 {
        let a = at as u16;
        let b = other as u16;
        assert((((1u16 << a) >> b) & 1 == 1) == (a == b)) by (bit_vector)
            requires
                a < 16,
                b < 16,
        ;
    } else if 0 <= other < 16 {
        let b = other as u16;
        assert((0u16 >> b) & 1 == 0) by (bit_vector);
    }
}

/// Two sets together hold what either holds, and the empty set holds nothing.
pub proof fn sets_join(left: u16, right: u16, at: int)
    ensures
        holds_schema(left | right, at) <==> (holds_schema(left, at) || holds_schema(right, at)),
        !holds_schema(0, at),
{
    if 0 <= at < 16 {
        let b = at as u16;
        assert((((left | right) >> b) & 1 == 1) == ((left >> b) & 1 == 1 || (right >> b) & 1 == 1))
            by (bit_vector);
        assert((0u16 >> b) & 1 == 0) by (bit_vector);
    }
}

/// The first schemas of a set, lowest first.
pub open spec fn schemas_of(mask: u16, upto: int) -> Seq<int>
    decreases upto,
{
    if upto <= 0 {
        Seq::empty()
    } else if holds_schema(mask, upto - 1) {
        schemas_of(mask, upto - 1).push(upto - 1)
    } else {
        schemas_of(mask, upto - 1)
    }
}

/// What a list of schema numbers is, as integers.
pub open spec fn numbers_of(list: Seq<usize>) -> Seq<int> {
    list.map_values(|at: usize| at as int)
}

/// Returns the schemas of a set, lowest first.
pub fn schemas_in(mask: u16) -> (list: Vec<usize>)
    ensures
        numbers_of(list@) == schemas_of(mask, 16),
        forall|i: int, j: int|
            0 <= i < j < list@.len() ==> #[trigger] list@[i] < #[trigger] list@[j],
        forall|at: usize|
            #[trigger] list@.contains(at) <==> at < 16 && (mask >> (at as u16)) & 1 == 1,
{
    let mut list: Vec<usize> = Vec::new();
    for at in 0..16usize
        invariant
            numbers_of(list@) =~= schemas_of(mask, at as int),
    {
        let shift: u16 = at as u16;
        if (mask >> shift) & 1 == 1 {
            let ghost before = list@;
            list.push(at);
            assert(numbers_of(list@) =~= numbers_of(before).push(at as int));
        }
    }
    proof {
        a_set_lists_its_schemas(mask, 16);
        let all = schemas_of(mask, 16);
        assert forall|i: int, j: int| 0 <= i < j < list@.len() implies #[trigger] list@[i]
            < #[trigger] list@[j] by {
            assert(all[i] == list@[i] && all[j] == list@[j]);
        }
        assert forall|at: usize|
            #[trigger] list@.contains(at) <==> at < 16 && (mask >> (at as u16)) & 1 == 1 by {
            if list@.contains(at) {
                let i = choose|i: int| 0 <= i < list@.len() && list@[i] == at;
                assert(all[i] == at);
                assert(all.contains(at as int));
            }
            if at < 16 && (mask >> (at as u16)) & 1 == 1 {
                assert(holds_schema(mask, at as int));
                assert(all.contains(at as int));
                let i = choose|i: int| 0 <= i < all.len() && all[i] == at as int;
                assert(list@[i] == at);
            }
        }
    }
    list
}

/// The schemas listed of a set are the ones it holds, each once.
pub proof fn a_set_lists_its_schemas(mask: u16, upto: int)
    requires
        0 <= upto <= 16,
    ensures
        forall|at: int|
            #[trigger] schemas_of(mask, upto).contains(at) <==> (at < upto && holds_schema(
                mask,
                at,
            )),
        forall|i: int, j: int|
            0 <= i < j < schemas_of(mask, upto).len() ==> schemas_of(mask, upto)[i] < schemas_of(
                mask,
                upto,
            )[j],
    decreases upto,
{
    if upto > 0 {
        a_set_lists_its_schemas(mask, upto - 1);
        let less = schemas_of(mask, upto - 1);
        let all = schemas_of(mask, upto);
        assert forall|at: int| #[trigger] all.contains(at) <==> (at < upto && holds_schema(
            mask,
            at,
        )) by {
            if all.contains(at) {
                let i = choose|i: int| 0 <= i < all.len() && all[i] == at;
                if i < less.len() {
                    assert(less[i] == at);
                    assert(less.contains(at));
                }
            }
            if at < upto && holds_schema(mask, at) {
                if at < upto - 1 {
                    assert(less.contains(at));
                    let i = choose|i: int| 0 <= i < less.len() && less[i] == at;
                    assert(all[i] == at);
                } else {
                    assert(all[all.len() - 1] == at);
                }
            }
        }
        assert forall|i: int, j: int| 0 <= i < j < all.len() implies all[i] < all[j] by {
            assert(all[i] == less[i]);
            if j < less.len() {
                assert(all[j] == less[j]);
            } else {
                assert(less.contains(less[i]));
            }
        }
    }
}

/// One database beside `main`.
pub struct Attached {
    /// The name it was attached under.
    pub name: Vec<u8>,
    /// The file it is kept in, none for one in memory.
    pub path: Option<Vec<u8>>,
    /// Whether a cross-file commit it took part in was left undecided.
    pub in_doubt: bool,
    /// Its catalog rows.
    pub entries: Vec<Recorded>,
    /// The identifier its next tree takes.
    pub next_root: u32,
    /// The handle each of its tree identifiers is registered under.
    pub handles: HashMap<u64, u32>,
    /// The handle its catalog is read through.
    pub catalog_handle: u32,
    /// Whose temporary database it is, none for one every session sees.
    pub session: Option<u64>,
}

/// Where a schema number leads.
#[derive(Clone, Copy, Debug, PartialEq, Eq, Structural)]
pub enum SchemaSlot {
    /// To the database the connection was opened on.
    Main,
    /// To one of the temporary databases.
    Temp(usize),
    /// To one of the attached databases.
    Attached(usize),
}

/// What one connection has that its siblings do not.
pub struct SessionState {
    /// The databases `ATTACH` added.
    pub attached: Vec<Attached>,
    /// One temporary database per session that asked for one.
    pub temps: Vec<Attached>,
    /// The session the statement now running belongs to.
    pub session: u64,
    /// The session the schema was last derived for.
    pub tables_session: u64,
    /// Which schema each tree handle outside `main` belongs to.
    pub owner: HashMap<u32, usize>,
    /// Whether the connected modules were told a transaction started.
    pub modules_begun: bool,
    /// The names of the registered collations, upper-cased, the newest last.
    pub collations: Vec<Vec<u8>>,
    /// Whether an authorizer that may refuse a statement is installed.
    pub restricted: bool,
}

/// The first of a list of temporary databases that is a session's own.
pub open spec fn temp_of(temps: Seq<Attached>, session: u64) -> Option<int>
    decreases temps.len(),
{
    if temps.len() == 0 {
        None
    } else if temp_of(temps.drop_last(), session) is Some {
        temp_of(temps.drop_last(), session)
    } else if temps.last().session == Some(session) {
        Some(temps.len() - 1)
    } else {
        None
    }
}

/// A session's temporary database is one of the list, and is the session's.
pub proof fn temp_is_listed(temps: Seq<Attached>, session: u64)
    ensures
        temp_of(temps, session) matches Some(at) ==> 0 <= at < temps.len()
            && temps[at].session == Some(session),
        temp_of(temps, session) is None ==> forall|i: int|
            0 <= i < temps.len() ==> (#[trigger] temps[i]).session != Some(session),
    decreases temps.len(),
{
    if temps.len() > 0 {
        temp_is_listed(temps.drop_last(), session);
        if temp_of(temps, session) is None {
            assert forall|i: int| 0 <= i < temps.len() implies (#[trigger] temps[i]).session
                != Some(session) by {
                if i < temps.len() - 1 {
                    assert(temps.drop_last()[i] == temps[i]);
                }
            }
        }
    }
}

impl SessionState {
    /// Where a schema number leads for the session now running, when anywhere.
    pub open spec fn leads_to(&self, at: int) -> Option<SchemaSlot> {
        if at == MAIN {
            Some(SchemaSlot::Main)
        } else if at == TEMP {
            match temp_of(self.temps@, self.session) {
                Some(which) => Some(SchemaSlot::Temp(which as usize)),
                None => None,
            }
        } else if FIRST_ATTACHED <= at < FIRST_ATTACHED + self.attached@.len() {
            Some(SchemaSlot::Attached((at - FIRST_ATTACHED) as usize))
        } else {
            None
        }
    }

    /// The database beside `main` a schema number names, when it names one.
    pub open spec fn beside_main(&self, at: int) -> Option<Attached> {
        match self.leads_to(at) {
            Some(SchemaSlot::Temp(which)) => Some(self.temps@[which as int]),
            Some(SchemaSlot::Attached(which)) => Some(self.attached@[which as int]),
            _ => None,
        }
    }

    /// Returns where a schema number leads for the session now running.
    pub fn slot_of(&self, at: usize) -> (slot: Option<SchemaSlot>)
        ensures
            slot == self.leads_to(at as int),
            slot matches Some(SchemaSlot::Temp(which)) ==> which < self.temps@.len(),
            slot matches Some(SchemaSlot::Attached(which)) ==> which < self.attached@.len(),
            at == 0 ==> slot == Some(SchemaSlot::Main),
            at == 1 ==> match slot {
                Some(SchemaSlot::Temp(which)) => self.temps@[which as int].session == Some(
                    self.session,
                ) && (forall|i: int|
                    0 <= i < which ==> (#[trigger] self.temps@[i]).session != Some(self.session)),
                Some(_) => false,
                None => forall|i: int|
                    0 <= i < self.temps@.len() ==> (#[trigger] self.temps@[i]).session != Some(
                        self.session,
                    ),
            },
            at >= 2 && at - 2 < self.attached@.len() ==> slot == Some(
                SchemaSlot::Attached((at - 2) as usize),
            ),
            at >= 2 && at - 2 >= self.attached@.len() ==> slot is None,
    {
        if at == MAIN {
            return Some(SchemaSlot::Main);
        }
        if at == TEMP {
            for which in 0..self.temps.len()
                invariant
                    at == TEMP,
                    temp_of(self.temps@.take(which as int), self.session) is None,
                    forall|i: int|
                        0 <= i < which ==> (#[trigger] self.temps@[i]).session != Some(
                            self.session,
                        ),
            {
                let ghost some = self.temps@.take(which + 1);
                assert(some.drop_last() =~= self.temps@.take(which as int));
                assert(some.last() == self.temps@[which as int]);
                let own: bool = match self.temps[which].session {
                    Some(session) => session == self.session,
                    None => false,
                };
                if own {
                    proof {
                        first_temp_stays(self.temps@, self.session, which + 1);
                    }
                    return Some(SchemaSlot::Temp(which));
                }
            }
            assert(self.temps@.take(self.temps@.len() as int) =~= self.temps@);
            return None;
        }
        if at - FIRST_ATTACHED < self.attached.len() {
            Some(SchemaSlot::Attached(at - FIRST_ATTACHED))
        } else {
            None
        }
    }

    /// Returns the database beside `main` a number names.
    pub fn schema_at(&self, at: usize) -> (held: Option<&Attached>)
        ensures
            match held {
                Some(found) => self.beside_main(at as int) == Some(*found),
                None => self.beside_main(at as int) is None,
            },
            at == 0 ==> held is None,
            at == 1 ==> (held matches Some(found) ==> found.session == Some(self.session)),
            at >= 2 ==> match held {
                Some(found) => at - 2 < self.attached@.len() && *found == self.attached@[at - 2],
                None => at - 2 >= self.attached@.len(),
            },
    {
        match self.slot_of(at) {
            Some(SchemaSlot::Temp(which)) => Some(&self.temps[which]),
            Some(SchemaSlot::Attached(which)) => Some(&self.attached[which]),
            _ => None,
        }
    }

    /// Which schema a tree handle belongs to.
    pub open spec fn owned_by(&self, root: u32) -> int {
        if (self.attached@.len() > 0 || self.temps@.len() > 0) && self.owner@.contains_key(root) {
            self.owner@[root] as int
        } else {
            MAIN as int
        }
    }

    /// Returns which schema a tree handle belongs to.
    ///
    /// A handle nothing outside `main` was registered under is `main`'s, so a
    /// connection that has attached nothing looks nothing up.
    pub fn schema_of(&self, root: u32) -> (at: usize)
        ensures
            at == self.owned_by(root),
            self.attached@.len() == 0 && self.temps@.len() == 0 ==> at == 0,
            !self.owner@.contains_key(root) ==> at == 0,
            (self.attached@.len() > 0 || self.temps@.len() > 0) && self.owner@.contains_key(root)
                ==> at == self.owner@[root],
    {
        if self.attached.len() == 0 && self.temps.len() == 0 {
            return MAIN;
        }
        match self.owner.get(&root) {
            Some(at) => *at,
            None => MAIN,
        }
    }

    /// The schemas a connection holds for the session now running, lowest first.
    pub open spec fn numbered(&self) -> Seq<int> {
        seq![MAIN as int] + (if temp_of(self.temps@, self.session) is Some {
            seq![TEMP as int]
        } else {
            Seq::empty()
        }) + Seq::new(self.attached@.len(), |nth: int| FIRST_ATTACHED + nth)
    }

    /// Returns the schemas a connection holds for the session now running.
    pub fn schema_numbers(&self) -> (numbers: Vec<usize>)
        requires
            self.attached@.len() + FIRST_ATTACHED <= usize::MAX,
        ensures
            numbers_of(numbers@) == self.numbered(),
            numbers@.len() > 0 && numbers@[0] == 0,
            numbers@.len() == self.attached@.len() + 1 || numbers@.len() == self.attached@.len()
                + 2,
            numbers@.len() == self.attached@.len() + 2 <==> exists|i: int|
                0 <= i < self.temps@.len() && (#[trigger] self.temps@[i]).session == Some(
                    self.session,
                ),
            numbers@.len() == self.attached@.len() + 2 ==> numbers@[1] == 1,
            forall|nth: int|
                0 <= nth < self.attached@.len() ==> #[trigger] numbers@[numbers@.len()
                    - self.attached@.len() + nth] == 2 + nth,
    {
        let mut numbers: Vec<usize> = Vec::new();
        numbers.push(MAIN);
        if self.slot_of(TEMP).is_some() {
            numbers.push(TEMP);
        }
        let ghost first = numbers_of(numbers@);
        for nth in 0..self.attached.len()
            invariant
                self.attached@.len() + FIRST_ATTACHED <= usize::MAX,
                numbers_of(numbers@) =~= first + Seq::new(
                    nth as nat,
                    |i: int| FIRST_ATTACHED + i,
                ),
        {
            let ghost before = numbers@;
            numbers.push(FIRST_ATTACHED + nth);
            assert(numbers_of(numbers@) =~= numbers_of(before).push(FIRST_ATTACHED + nth));
        }
        assert(numbers_of(numbers@) =~= self.numbered());
        proof {
            temp_is_listed(self.temps@, self.session);
            let all = numbers_of(numbers@);
            assert(all[0] == numbers@[0]);
            if numbers@.len() > 1 {
                assert(all[1] == numbers@[1]);
            }
            assert forall|nth: int|
                0 <= nth < self.attached@.len() implies #[trigger] numbers@[numbers@.len()
                - self.attached@.len() + nth] == 2 + nth by {
                assert(all[numbers@.len() - self.attached@.len() + nth] == 2 + nth);
            }
        }
        numbers
    }

    /// Every schema listed leads somewhere, and nothing else does.
    pub proof fn listed_schemas_lead_somewhere(&self, at: int)
        ensures
            self.numbered().contains(at) <==> self.leads_to(at) is Some,
    {
        let all = self.numbered();
        let has_temp = temp_of(self.temps@, self.session) is Some;
        let start = if has_temp {
            2int
        } else {
            1int
        };
        assert(all[0] == MAIN);
        if has_temp {
            assert(all[1] == TEMP);
        }
        assert forall|i: int| start <= i < start + self.attached@.len() implies #[trigger] all[i]
            == FIRST_ATTACHED + (i - start) by {}
        if self.leads_to(at) is Some && at >= FIRST_ATTACHED {
            assert(all[start + (at - FIRST_ATTACHED)] == at);
        }
        if all.contains(at) {
            let i = choose|i: int| 0 <= i < all.len() && all[i] == at;
        }
    }
}

/// Whether a database holds one tree more, under a handle.
pub open spec fn grew(before: Attached, after: Attached, handle: u32) -> bool {
    &&& after.next_root == after_root(before.next_root)
    &&& after.handles@ == before.handles@.insert(before.next_root as u64, handle)
    &&& after.name == before.name
    &&& after.path == before.path
    &&& after.in_doubt == before.in_doubt
    &&& after.entries == before.entries
    &&& after.catalog_handle == before.catalog_handle
    &&& after.session == before.session
}

/// The identifier after another, or the last there is.
pub open spec fn after_root(root: u32) -> u32 {
    if root == u32::MAX {
        u32::MAX
    } else {
        (root + 1) as u32
    }
}

/// Whether one database of a list holds one tree more and the rest are as they
/// were.
pub open spec fn one_grew(
    before: Seq<Attached>,
    after: Seq<Attached>,
    which: int,
    handle: u32,
) -> bool {
    &&& after.len() == before.len()
    &&& grew(before[which], after[which], handle)
    &&& forall|i: int| 0 <= i < before.len() && i != which ==> #[trigger] after[i] == before[i]
}

/// Whether a session holds one tree more in a schema, under a handle.
pub open spec fn registers(
    before: SessionState,
    after: SessionState,
    at: usize,
    handle: u32,
) -> bool {
    &&& after.session == before.session
    &&& after.tables_session == before.tables_session
    &&& after.modules_begun == before.modules_begun
    &&& after.collations == before.collations
    &&& after.restricted == before.restricted
    &&& after.owner@ == before.owner@.insert(handle, at)
    &&& match before.leads_to(at as int) {
        Some(SchemaSlot::Temp(which)) => after.attached == before.attached && one_grew(
            before.temps@,
            after.temps@,
            which as int,
            handle,
        ),
        Some(SchemaSlot::Attached(which)) => after.temps == before.temps && one_grew(
            before.attached@,
            after.attached@,
            which as int,
            handle,
        ),
        _ => false,
    }
}

/// Gives one database one tree more, under a handle, and returns the tree's own
/// identifier.
fn grow(held: &mut Attached, handle: u32) -> (local: u32)
    ensures
        local == old(held).next_root,
        grew(*old(held), *final(held), handle),
{
    let local: u32 = held.next_root;
    held.next_root = local.saturating_add(1);
    held.handles.insert(local as u64, handle);
    local
}

impl SessionState {
    /// Gives a schema beside `main` one tree more, under a handle, and returns
    /// the tree's own identifier, none when there is no such schema.
    pub fn register(&mut self, at: usize, handle: u32) -> (local: Option<u32>)
        ensures
            match local {
                Some(local) => {
                    &&& old(self).beside_main(at as int) matches Some(held)
                    &&& local == held.next_root
                    &&& registers(*old(self), *final(self), at, handle)
                },
                None => old(self).beside_main(at as int) is None && *final(self) == *old(self),
            },
            at == 0 ==> local is None,
            at >= 2 ==> (local is Some <==> at - 2 < old(self).attached@.len()),
            local is Some ==> final(self).owner@ == old(self).owner@.insert(handle, at),
            at >= 2 && local is Some ==> {
                let before = old(self).attached@[at - 2];
                let after = final(self).attached@[at - 2];
                &&& local == Some(before.next_root)
                &&& after.handles@ == before.handles@.insert(before.next_root as u64, handle)
                &&& before.next_root < u32::MAX ==> after.next_root == before.next_root + 1
                &&& before.next_root == u32::MAX ==> after.next_root == u32::MAX
            },
    {
        match self.slot_of(at) {
            Some(SchemaSlot::Temp(which)) => {
                let local: u32 = grow(&mut self.temps[which], handle);
                self.owner.insert(handle, at);
                Some(local)
            },
            Some(SchemaSlot::Attached(which)) => {
                let local: u32 = grow(&mut self.attached[which], handle);
                self.owner.insert(handle, at);
                Some(local)
            },
            _ => None,
        }
    }
}

/// Once a session's temporary database is found it stays the one found.
proof fn first_temp_stays(temps: Seq<Attached>, session: u64, upto: int)
    requires
        0 <= upto <= temps.len(),
        temp_of(temps.take(upto), session) is Some,
    ensures
        temp_of(temps, session) == temp_of(temps.take(upto), session),
    decreases temps.len(),
{
    if upto < temps.len() {
        assert(temps.drop_last().take(upto) =~= temps.take(upto));
        first_temp_stays(temps.drop_last(), session, upto);
    } else {
        assert(temps.take(upto) =~= temps);
    }
}

} // verus!
