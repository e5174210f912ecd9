//! The handles a connection names its trees by.
//!
//! `main`'s trees are named by their own identifiers. A tree of any other file
//! is given a handle out of a range `main` never reaches, and each database
//! remembers which of its own identifiers a handle stands for.

use std::collections::HashMap;

use vstd::prelude::*;
use vstd::std_specs::iter::IteratorSpec;

use crate::refusals::Refusal;
use crate::sessions::{
    grew, one_grew, registers, temp_is_listed, temp_of, Attached, SchemaSlot,
    SessionState, FIRST_ATTACHED, FIRST_ATTACHED_HANDLE, MAIN, SCHEMA_VIEW_ROOT, TEMP,
};

verus! {

broadcast use vstd::std_specs::hash::group_hash_axioms;

/// The numbers the next trees take.
#[derive(Clone, Copy, Debug, PartialEq, Eq, Structural)]
pub struct Numbering {
    /// The identifier `main`'s next tree takes.
    pub next_root: u32,
    /// The handle the next tree outside `main` takes.
    pub next_handle: u32,
}

/// Whether a handle stands for one of a database's trees.
pub open spec fn stands_for(handles: Map<u64, u32>, local: u64, handle: u32) -> bool {
    handles.contains_key(local) && handles[local] == handle
}

/// The handle one of a schema's trees is registered under.
pub open spec fn handle_in(state: SessionState, at: int, local: u64) -> Option<u32> {
    if at == MAIN {
        if local <= u32::MAX {
            Some(local as u32)
        } else {
            None
        }
    } else {
        match state.beside_main(at) {
            Some(held) => if held.handles@.contains_key(local) {
                Some(held.handles@[local])
            } else {
                None
            },
            None => None,
        }
    }
}

/// The databases beside `main` that hold a tree under a handle: the temporary
/// ones first, then the attached ones.
pub open spec fn database_at(state: SessionState, which: int) -> Attached {
    if which < state.temps@.len() {
        state.temps@[which]
    } else {
        state.attached@[which - state.temps@.len()]
    }
}

/// How many databases a connection holds beside `main`.
pub open spec fn databases(state: SessionState) -> int {
    state.temps@.len() as int + state.attached@.len()
}

/// The schema number of one of the databases beside `main`.
pub open spec fn number_of(state: SessionState, which: int) -> int {
    if which < state.temps@.len() {
        TEMP as int
    } else {
        which - state.temps@.len() + FIRST_ATTACHED
    }
}

/// Whether every handle in use is one tree's, out of the range of the handles,
/// and belongs to the schema it is registered in.
pub open spec fn well_named(state: SessionState, numbering: Numbering) -> bool {
    &&& FIRST_ATTACHED_HANDLE <= numbering.next_handle
    &&& forall|which: int, local: u64|
        0 <= which < databases(state) && (#[trigger] database_at(
            state,
            which,
        ).handles@.contains_key(local)) ==> {
            let handle = database_at(state, which).handles@[local];
            &&& FIRST_ATTACHED_HANDLE <= handle < numbering.next_handle
            &&& state.owner@.contains_key(handle)
            &&& state.owner@[handle] == number_of(state, which)
        }
    &&& forall|one: int, left: u64, two: int, right: u64|
        0 <= one < databases(state) && 0 <= two < databases(state) && (#[trigger] database_at(
            state,
            one,
        ).handles@.contains_key(left)) && (#[trigger] database_at(
            state,
            two,
        ).handles@.contains_key(right)) && database_at(state, one).handles@[left] == database_at(
            state,
            two,
        ).handles@[right] ==> one == two && left == right
}

/// What a connection names its trees by rests on the databases it holds and
/// whose each tree is, and on nothing else of it.
pub proof fn names_rest_on_the_databases(
    before: SessionState,
    after: SessionState,
    numbering: Numbering,
)
    requires
        well_named(before, numbering),
        before.attached == after.attached,
        before.temps == after.temps,
        before.owner == after.owner,
    ensures
        well_named(after, numbering),
{
    assert forall|which: int| #[trigger] database_at(after, which) == database_at(
        before,
        which,
    ) by {}
    assert forall|which: int, local: u64|
        0 <= which < databases(after) && (#[trigger] database_at(
            after,
            which,
        ).handles@.contains_key(local)) implies {
        let handle = database_at(after, which).handles@[local];
        &&& FIRST_ATTACHED_HANDLE <= handle < numbering.next_handle
        &&& after.owner@.contains_key(handle)
        &&& after.owner@[handle] == number_of(after, which)
    } by {
        assert(database_at(before, which).handles@.contains_key(local));
    }
    assert forall|one: int, left: u64, two: int, right: u64|
        0 <= one < databases(after) && 0 <= two < databases(after) && (#[trigger] database_at(
            after,
            one,
        ).handles@.contains_key(left)) && (#[trigger] database_at(
            after,
            two,
        ).handles@.contains_key(right)) && database_at(after, one).handles@[left] == database_at(
            after,
            two,
        ).handles@[right] implies one == two && left == right by {
        assert(database_at(before, one).handles@.contains_key(left));
        assert(database_at(before, two).handles@.contains_key(right));
    }
}

/// Returns the identifier a handle stands for, none when it stands for none.
fn local_for(handles: &HashMap<u64, u32>, handle: u32) -> (local: Option<u64>)
    ensures
        match local {
            Some(local) => stands_for(handles@, local, handle),
            None => forall|local: u64| !(#[trigger] stands_for(handles@, local, handle)),
        },
        match local {
            Some(local) => handles@.contains_key(local) && handles@[local] == handle,
            None => forall|local: u64|
                #[trigger] handles@.contains_key(local) ==> handles@[local] != handle,
        },
{
    for pair in it: handles.iter()
        invariant
            it.seq() == vstd::std_specs::hash::spec_hash_map_iter(handles).remaining(),
            forall|i: int| 0 <= i < it.index() ==> *(#[trigger] it.seq()[i]).1 != handle,
    {
        if *pair.1 == handle {
            assert(handles@.contains_key(*it.seq()[it.index()].0));
            return Some(*pair.0);
        }
    }
    assert forall|local: u64| #[trigger] handles@.contains_key(local) implies handles@[local]
        != handle by {
        let pairs = vstd::std_specs::hash::spec_hash_map_iter(handles).remaining();
        assert(pairs.contains((&local, &handles@[local])));
    }
    assert forall|local: u64| !(#[trigger] stands_for(handles@, local, handle)) by {
        if stands_for(handles@, local, handle) {
            let pairs = vstd::std_specs::hash::spec_hash_map_iter(handles).remaining();
            assert(pairs.contains((&local, &handles@[local])));
        }
    }
    None
}

impl SessionState {
    /// Returns the handle one of a schema's trees is registered under.
    pub fn handle_of(&self, at: usize, local: u64) -> (handle: Option<u32>)
        ensures
            handle == handle_in(*self, at as int, local),
            at == 0 && local <= u32::MAX ==> handle == Some(local as u32),
            at == 0 && local > u32::MAX ==> handle is None,
            at >= 2 && at - 2 >= self.attached@.len() ==> handle is None,
            at >= 2 && at - 2 < self.attached@.len() ==> {
                let held = self.attached@[at - 2].handles@;
                &&& held.contains_key(local) ==> handle == Some(held[local])
                &&& !held.contains_key(local) ==> handle is None
            },
    {
        if at == MAIN {
            if local <= 0xFFFF_FFFF {
                return Some(local as u32);
            }
            return None;
        }
        match self.schema_at(at) {
            Some(held) => match held.handles.get(&local) {
                Some(handle) => Some(*handle),
                None => None,
            },
            None => None,
        }
    }

    /// Returns the identifier a tree's own file knows it by.
    ///
    /// A handle the schema never registered stands for itself.
    pub fn local_of(&self, at: usize, root: u32) -> (local: u64)
        ensures
            at == MAIN ==> local == root,
            at != MAIN ==> match self.beside_main(at as int) {
                Some(held) => stands_for(held.handles@, local, root) || (local == root && forall|
                    other: u64,
                |
                    !(#[trigger] stands_for(held.handles@, other, root))),
                None => local == root,
            },
            at >= 2 && at - 2 < self.attached@.len() ==> {
                let held = self.attached@[at - 2].handles@;
                ||| held.contains_key(local) && held[local] == root
                ||| local == root && forall|other: u64|
                    #[trigger] held.contains_key(other) ==> held[other] != root
            },
    {
        if at == MAIN {
            return root as u64;
        }
        match self.schema_at(at) {
            Some(held) => match local_for(&held.handles, root) {
                Some(local) => local,
                None => root as u64,
            },
            None => root as u64,
        }
    }

    /// The handle a schema's catalog is read through.
    pub open spec fn catalog_of(&self, at: int) -> u32 {
        match self.beside_main(at) {
            Some(held) => held.catalog_handle,
            None => SCHEMA_VIEW_ROOT,
        }
    }

    /// Returns the handle a schema's catalog is read through.
    pub fn catalog_handle_of(&self, at: usize) -> (handle: u32)
        ensures
            handle == self.catalog_of(at as int),
            at == 0 ==> handle == 0xFFFF_FFFF,
            at >= 2 && at - 2 < self.attached@.len() ==> handle == self.attached@[at
                - 2].catalog_handle,
            at >= 2 && at - 2 >= self.attached@.len() ==> handle == 0xFFFF_FFFF,
    {
        match self.schema_at(at) {
            Some(held) => held.catalog_handle,
            None => SCHEMA_VIEW_ROOT,
        }
    }

    /// Gives a schema one tree more, and returns the tree's own identifier and
    /// the handle it is registered under.
    ///
    /// The handle is spent before the schema is looked for, so one asked for a
    /// schema that is not attached is never handed out.
    pub fn allocate_in(&mut self, numbering: &mut Numbering, at: usize) -> (made: Result<
        (u32, u32),
        Refusal,
    >)
        ensures
            at == MAIN && old(numbering).next_root >= FIRST_ATTACHED_HANDLE ==> {
                &&& made == Err::<(u32, u32), Refusal>(Refusal::TooManyObjects)
                &&& *final(numbering) == *old(numbering)
                &&& *final(self) == *old(self)
            },
            at == MAIN && old(numbering).next_root < FIRST_ATTACHED_HANDLE ==> {
                &&& made matches Ok(pair)
                &&& pair == (old(numbering).next_root, old(numbering).next_root)
                &&& *final(numbering) == (Numbering {
                    next_root: (old(numbering).next_root + 1) as u32,
                    ..*old(numbering)
                })
                &&& *final(self) == *old(self)
            },
            at != MAIN && old(numbering).next_handle == u32::MAX ==> {
                &&& made == Err::<(u32, u32), Refusal>(Refusal::TooManyAttached)
                &&& *final(numbering) == *old(numbering)
                &&& *final(self) == *old(self)
            },
            at != MAIN && old(numbering).next_handle < u32::MAX ==> {
                &&& *final(numbering) == (Numbering {
                    next_handle: (old(numbering).next_handle + 1) as u32,
                    ..*old(numbering)
                })
                &&& match old(self).beside_main(at as int) {
                    Some(held) => {
                        &&& made matches Ok(pair)
                        &&& pair == (held.next_root, old(numbering).next_handle)
                        &&& registers(
                            *old(self),
                            *final(self),
                            at,
                            old(numbering).next_handle,
                        )
                    },
                    None => {
                        &&& made == Err::<(u32, u32), Refusal>(Refusal::StatementNotAttached)
                        &&& *final(self) == *old(self)
                    },
                }
            },
            at >= 2 && old(numbering).next_handle < u32::MAX ==> (made is Ok <==> at - 2 < old(
                self,
            ).attached@.len()),
            at >= 2 && made is Ok ==> {
                let before = old(self).attached@[at - 2];
                let after = final(self).attached@[at - 2];
                &&& made->Ok_0 == (before.next_root, old(numbering).next_handle)
                &&& after.handles@ == before.handles@.insert(
                    before.next_root as u64,
                    old(numbering).next_handle,
                )
                &&& final(self).owner@ == old(self).owner@.insert(old(numbering).next_handle, at)
            },
    {
        if at == MAIN {
            let root: u32 = numbering.next_root;
            if root >= FIRST_ATTACHED_HANDLE {
                return Err(Refusal::TooManyObjects);
            }
            numbering.next_root = root + 1;
            return Ok((root, root));
        }
        let handle: u32 = numbering.next_handle;
        if handle == 0xFFFF_FFFF {
            return Err(Refusal::TooManyAttached);
        }
        numbering.next_handle = handle + 1;
        match self.register(at, handle) {
            Some(local) => Ok((local, handle)),
            None => Err(Refusal::StatementNotAttached),
        }
    }
}

/// Which database a registration reaches.
proof fn reached(before: SessionState, after: SessionState, at: usize, handle: u32) -> (which: int)
    requires
        registers(before, after, at, handle),
    ensures
        0 <= which < databases(before),
        databases(after) == databases(before),
        number_of(before, which) == at,
        grew(database_at(before, which), database_at(after, which), handle),
        before.beside_main(at as int) == Some(database_at(before, which)),
        after.beside_main(at as int) == Some(database_at(after, which)),
        forall|other: int|
            0 <= other < databases(before) && other != which ==> #[trigger] database_at(
                after,
                other,
            ) == database_at(before, other),
        forall|other: int| #[trigger] number_of(after, other) == number_of(before, other),
{
    temp_is_listed(before.temps@, before.session);
    assert(before.temps.len() == before.temps@.len());
    assert(before.attached.len() == before.attached@.len());
    match before.leads_to(at as int) {
        Some(SchemaSlot::Temp(which)) => {
            assert(one_grew(before.temps@, after.temps@, which as int, handle));
            assert forall|i: int| 0 <= i < before.temps@.len() implies (
            #[trigger] after.temps@[i]).session == before.temps@[i].session by {
                if i != which {
                    assert(after.temps@[i] == before.temps@[i]);
                }
            }
            same_temp(before.temps@, after.temps@, before.session);
            which as int
        },
        Some(SchemaSlot::Attached(which)) => which as int + before.temps@.len(),
        _ => 0,
    }
}

/// A handle newly given keeps every handle one tree's.
pub proof fn allocation_keeps_the_names(
    before: SessionState,
    after: SessionState,
    numbering: Numbering,
    at: usize,
)
    requires
        well_named(before, numbering),
        numbering.next_handle < u32::MAX,
        registers(before, after, at, numbering.next_handle),
    ensures
        well_named(
            after,
            (Numbering { next_handle: (numbering.next_handle + 1) as u32, ..numbering }),
        ),
{
    let which = reached(before, after, at, numbering.next_handle);
    assert forall|w: int, local: u64|
        0 <= w < databases(after) && (#[trigger] database_at(after, w).handles@.contains_key(
            local,
        )) implies ({
        let handle = database_at(after, w).handles@[local];
        &&& FIRST_ATTACHED_HANDLE <= handle < numbering.next_handle + 1
        &&& after.owner@.contains_key(handle)
        &&& after.owner@[handle] == number_of(after, w)
        &&& handle == numbering.next_handle ==> w == which && local == database_at(
            before,
            which,
        ).next_root
        &&& handle != numbering.next_handle ==> database_at(before, w).handles@.contains_key(local)
            && database_at(before, w).handles@[local] == handle
    }) by {
        if w == which && local == database_at(before, which).next_root {
        } else {
            assert(database_at(before, w).handles@.contains_key(local));
        }
    }
}

/// A tree newly given a handle is found by it, and by nothing else: the handle
/// is none that was in use, none of `main`'s, and belongs to the tree's schema.
pub proof fn a_new_handle_is_the_trees_own(
    before: SessionState,
    after: SessionState,
    numbering: Numbering,
    at: usize,
    local: u64,
)
    requires
        well_named(before, numbering),
        numbering.next_handle < u32::MAX,
        registers(before, after, at, numbering.next_handle),
        before.beside_main(at as int) matches Some(held) && local == held.next_root,
    ensures
        handle_in(after, at as int, local) == Some(numbering.next_handle),
        after.owned_by(numbering.next_handle) == at,
        numbering.next_handle >= FIRST_ATTACHED_HANDLE,
        forall|which: int, other: u64|
            0 <= which < databases(before) ==> !(#[trigger] stands_for(
                database_at(before, which).handles@,
                other,
                numbering.next_handle,
            )),
        after.beside_main(at as int) matches Some(held) && forall|other: u64| #[trigger]
            stands_for(held.handles@, other, numbering.next_handle) ==> other == local,
{
    let which = reached(before, after, at, numbering.next_handle);
    assert forall|w: int, other: u64| 0 <= w < databases(before) implies !(#[trigger] stands_for(
        database_at(before, w).handles@,
        other,
        numbering.next_handle,
    )) by {
        if database_at(before, w).handles@.contains_key(other) {
        }
    }
    assert forall|other: u64| #[trigger]
        stands_for(database_at(after, which).handles@, other, numbering.next_handle) implies other
        == local by {
        if other != local {
            assert(database_at(before, which).handles@.contains_key(other));
            assert(stands_for(
                database_at(before, which).handles@,
                other,
                numbering.next_handle,
            ));
        }
    }
}

/// Lists whose databases belong to the same sessions have the same first of
/// each.
proof fn same_temp(before: Seq<Attached>, after: Seq<Attached>, session: u64)
    requires
        before.len() == after.len(),
        forall|i: int| 0 <= i < before.len() ==> (#[trigger] after[i]).session == before[i].session,
    ensures
        temp_of(before, session) == temp_of(after, session),
    decreases before.len(),
{
    if before.len() > 0 {
        let fewer = after.drop_last();
        assert forall|i: int| 0 <= i < fewer.len() implies (#[trigger] fewer[i]).session
            == before.drop_last()[i].session by {
            assert(fewer[i] == after[i]);
        }
        same_temp(before.drop_last(), fewer, session);
    }
}

} // verus!
