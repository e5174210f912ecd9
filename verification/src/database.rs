//! One open database: the groups its state is made of, and what it says of
//! itself without running a statement.
//!
//! What is open is a file, its catalog, the settings and the objects of the
//! connection that opened it, the transaction in progress, the statements that
//! were compiled and what the ones before them changed. Each group changes on
//! its own; a function here that changes one says that the others stay.

use std::collections::HashMap;

use vstd::prelude::*;
use vstd::std_specs::iter::IteratorSpec;

use crate::counters::{since_opened, Counters, Tally};
use crate::handles::{names_rest_on_the_databases, well_named, Numbering};
use crate::integrity::{check_trees_to, steps_of, CheckDepth, CheckStep};
use crate::loading::LoadedSchema;
use crate::locks::JournalMode;
use crate::multi::{durable_among, kept_in_a_file, passing};
use crate::open::{first_free_root, root_after, settle_journal, temp_called, temp_path};
use crate::pages::ascending_handles;
use crate::plans::{count_all, plan_key, Compiled, StageTimings, DEFAULT_STATEMENT_CACHE};
use crate::schema::{Recorded, SourceLayout, TableInfo};
use crate::sessions::{
    numbers_of, schemas_of, SessionState, FIRST_ATTACHED_HANDLE, FIRST_CREATED_ROOT, MAIN, TEMP,
};
use crate::state::{called, create_collation, without, Pragmas};
use crate::statements::{kind_writes, shadow_write, Bound};
use crate::text::{raised, same, show, shown};
use crate::transactions::{one_past, Ledger, Writing};

verus! {

broadcast use vstd::std_specs::hash::group_hash_axioms;

/// The file a database lives in.
#[derive(Debug)]
pub struct Storage {
    /// The size of its pages.
    pub page_size: usize,
    /// How many frames the pool was asked for.
    pub frames: usize,
    /// Where it is.
    pub path: Vec<u8>,
    /// Whether it was opened with a transaction still in doubt.
    pub in_doubt: bool,
    /// Whether the connection may only read it.
    pub read_only: bool,
}

/// The catalog, and what was derived from it.
#[derive(Debug)]
pub struct Schema {
    /// How many times the catalog has changed.
    pub catalog_generation: u64,
    /// The page each tree is rooted at, by the handle it is read through.
    pub trees: HashMap<u32, u64>,
    /// How a table's rows are laid out, by the handle of its tree.
    pub layouts: HashMap<u32, SourceLayout>,
    /// The indexes that cover every row of a table, smallest first, by the
    /// handle of the table's tree.
    pub covering: HashMap<u32, Vec<u32>>,
    /// The catalog's rows.
    pub entries: Vec<Recorded>,
    /// The tables names are resolved against.
    pub tables: Vec<TableInfo>,
    /// The names of the tables that could not be taken.
    pub skipped: Vec<Vec<u8>>,
    /// The numbers the next trees take.
    pub numbering: Numbering,
    /// Which schema the statement now running declares something in.
    pub ddl_schema: usize,
    /// The handles that read a tree which has a handle of its own.
    pub imposters: Vec<u32>,
}

/// An open database.
pub struct ImportedDatabase {
    /// What one connection has that its siblings do not.
    pub session_state: SessionState,
    /// What it is set to.
    pub pragmas: Pragmas,
    /// The catalog, and what was derived from it.
    pub schema: Schema,
    /// The file.
    pub storage: Storage,
    /// What a transaction in progress has done so far.
    pub writing: Writing,
    /// The statements that were compiled.
    pub compiled: Compiled,
    /// What statements that have run left behind.
    pub counters: Counters,
}

impl SessionState {
    /// Whether nothing is attached, nothing registered and nothing refused.
    pub open spec fn is_fresh(&self) -> bool {
        &&& self.attached@.len() == 0
        &&& self.temps@.len() == 0
        &&& self.session == 0
        &&& self.tables_session == 0
        &&& self.owner@ == Map::<u32, usize>::empty()
        &&& !self.modules_begun
        &&& self.collations@.len() == 0
        &&& !self.restricted
    }

    /// Returns a connection that has nothing of its own.
    pub fn fresh() -> (state: SessionState)
        ensures
            state.is_fresh(),
            state.attached@.len() == 0 && state.temps@.len() == 0 && state.collations@.len() == 0,
            state.session == 0 && state.tables_session == 0,
            !state.modules_begun && !state.restricted,
            state.owner@ == Map::<u32, usize>::empty(),
    {
        SessionState {
            attached: Vec::new(),
            temps: Vec::new(),
            session: 0,
            tables_session: 0,
            owner: HashMap::new(),
            modules_begun: false,
            collations: Vec::new(),
            restricted: false,
        }
    }
}

impl Schema {
    /// Returns the catalog of a file that was just built, its rows numbered in
    /// the order they were written.
    pub fn imported(
        entries: Vec<Recorded>,
        tables: Vec<TableInfo>,
        layouts: HashMap<u32, SourceLayout>,
        covering: HashMap<u32, Vec<u32>>,
        trees: HashMap<u32, u64>,
        skipped: Vec<Vec<u8>>,
    ) -> (schema: Schema)
        ensures
            schema.entries == entries,
            schema.tables == tables,
            schema.layouts == layouts,
            schema.covering == covering,
            schema.trees == trees,
            schema.skipped == skipped,
            schema.numbering == (Numbering {
                next_root: FIRST_CREATED_ROOT,
                next_handle: FIRST_ATTACHED_HANDLE,
            }),
            schema.catalog_generation == 0,
            schema.ddl_schema == MAIN,
            schema.imposters@.len() == 0,
    {
        Schema {
            catalog_generation: 0,
            trees,
            layouts,
            covering,
            entries,
            tables,
            skipped,
            numbering: Numbering {
                next_root: FIRST_CREATED_ROOT,
                next_handle: FIRST_ATTACHED_HANDLE,
            },
            ddl_schema: MAIN,
            imposters: Vec::new(),
        }
    }

    /// Returns the catalog of a file that was read, with its tables still to be
    /// derived.
    ///
    /// The trees created from here on take identifiers above every one the file
    /// holds.
    pub fn loaded(
        loaded: LoadedSchema,
        layouts: HashMap<u32, SourceLayout>,
        trees: HashMap<u32, u64>,
    ) -> (schema: Schema)
        ensures
            schema.entries == loaded.entries,
            schema.covering == loaded.covering,
            schema.skipped == loaded.skipped,
            schema.layouts == layouts,
            schema.trees == trees,
            schema.tables@.len() == 0,
            schema.numbering == (Numbering {
                next_root: root_after(loaded.highest_identifier),
                next_handle: FIRST_ATTACHED_HANDLE,
            }),
            schema.numbering.next_root >= 0x8000_0000,
            loaded.highest_identifier < u32::MAX ==> schema.numbering.next_root
                > loaded.highest_identifier,
            schema.numbering.next_handle == 0xC000_0000,
            schema.catalog_generation == 0,
            schema.ddl_schema == MAIN,
            schema.imposters@.len() == 0,
    {
        Schema {
            catalog_generation: 0,
            trees,
            layouts,
            covering: loaded.covering,
            entries: loaded.entries,
            tables: Vec::new(),
            skipped: loaded.skipped,
            numbering: Numbering {
                next_root: first_free_root(loaded.highest_identifier),
                next_handle: FIRST_ATTACHED_HANDLE,
            },
            ddl_schema: MAIN,
            imposters: Vec::new(),
        }
    }
}

/// The first table a tree belongs to, as far as some of them go.
pub open spec fn table_with_root(tables: Seq<TableInfo>, root: u32, upto: int) -> Option<int>
    decreases upto,
{
    if upto <= 0 {
        None
    } else {
        match table_with_root(tables, root, upto - 1) {
            Some(at) => Some(at),
            None => if tables[upto - 1].root == root {
                Some(upto - 1)
            } else {
                None
            },
        }
    }
}

/// The name of the table a tree belongs to, as it is shown.
pub open spec fn name_of_root(tables: Seq<TableInfo>, root: u32) -> Option<Seq<u8>> {
    match table_with_root(tables, root, tables.len() as int) {
        Some(at) => Some(shown(tables[at].name@)),
        None => None,
    }
}

/// A table that is found stays found however many come after it.
proof fn a_found_table_stays(tables: Seq<TableInfo>, root: u32, some: int, more: int)
    requires
        0 <= some <= more,
        table_with_root(tables, root, some) is Some,
    ensures
        table_with_root(tables, root, more) == table_with_root(tables, root, some),
    decreases more,
{
    if some < more {
        a_found_table_stays(tables, root, some, more - 1);
    }
}

/// The table a tree belongs to has that tree, and is the first that has.
proof fn a_found_table_has_the_root(tables: Seq<TableInfo>, root: u32, upto: int)
    requires
        0 <= upto <= tables.len(),
    ensures
        match table_with_root(tables, root, upto) {
            Some(at) => 0 <= at < upto && tables[at].root == root && forall|i: int|
                0 <= i < at ==> (#[trigger] tables[i]).root != root,
            None => forall|i: int| 0 <= i < upto ==> (#[trigger] tables[i]).root != root,
        },
    decreases upto,
{
    if upto > 0 {
        a_found_table_has_the_root(tables, root, upto - 1);
    }
}

/// Returns the name of the table a tree belongs to.
pub fn catalog_name(tables: &[TableInfo], root: u32) -> (name: Option<Vec<u8>>)
    ensures
        match name {
            Some(held) => name_of_root(tables@, root) == Some(held@),
            None => name_of_root(tables@, root) is None,
        },
        match name {
            Some(held) => exists|at: int|
                0 <= at < tables@.len() && (#[trigger] tables@[at]).root == root && held@ == shown(
                    tables@[at].name@,
                ) && forall|i: int| 0 <= i < at ==> (#[trigger] tables@[i]).root != root,
            None => forall|i: int| 0 <= i < tables@.len() ==> (#[trigger] tables@[i]).root != root,
        },
{
    for at in 0..tables.len()
        invariant
            table_with_root(tables@, root, at as int) is None,
            forall|i: int| 0 <= i < at ==> (#[trigger] tables@[i]).root != root,
    {
        if tables[at].root == root {
            proof {
                a_found_table_stays(tables@, root, at + 1, tables@.len() as int);
            }
            return Some(show(tables[at].name.as_slice()));
        }
    }
    None
}

/// Whether a tree holds the rows of a table of a name, and the table's indexes
/// are known.
pub open spec fn is_table_root(schema: Schema, name: Seq<u8>, root: u32) -> bool {
    &&& schema.layouts@.contains_key(root)
    &&& name_of_root(schema.tables@, root) == Some(name)
}

/// The name of each object, as it is shown, and its identifier.
pub open spec fn identifiers_of(entries: Seq<Recorded>) -> Seq<(Seq<u8>, u64)> {
    Seq::new(entries.len(), |i: int| (shown(entries[i].entry.name@), entries[i].entry.tree_id))
}

/// How many compiled statements are held, as far as that can be counted.
pub open spec fn held_in_all(compiled: Compiled) -> int {
    if count_all(compiled.statements@) > usize::MAX {
        usize::MAX as int
    } else {
        count_all(compiled.statements@)
    }
}

/// Which of two failures a rollback reports.
#[derive(Clone, Copy, Debug, PartialEq, Eq, Structural)]
pub enum RolledBack {
    /// Neither: it is done.
    Done,
    /// The changes could not be undone.
    NotUndone,
    /// A module could not be told.
    NotTold,
}

impl ImportedDatabase {
    /// Whether the parts that have rules of their own keep them.
    pub open spec fn wf(&self) -> bool {
        &&& self.compiled.wf()
        &&& well_named(self.session_state, self.schema.numbering)
    }

    /// Returns a database nobody has used yet.
    ///
    /// `highest_txn` is the highest transaction the file's log holds: this run's
    /// own are numbered above it, so that none is taken for one a crash left.
    /// `file_has_log` is whether the file was left with a write-ahead log.
    pub fn starting(
        storage: Storage,
        schema: Schema,
        highest_txn: u64,
        file_has_log: bool,
        seed: u64,
    ) -> (database: ImportedDatabase)
        requires
            FIRST_ATTACHED_HANDLE <= schema.numbering.next_handle,
        ensures
            database.wf(),
            database.storage == storage,
            database.schema == schema,
            database.session_state.is_fresh(),
            database.pragmas == (Pragmas {
                journal_mode: if file_has_log {
                    JournalMode::Wal
                } else {
                    JournalMode::Delete
                },
                ..Pragmas::to_begin_with()
            }),
            database.writing@ == (Ledger {
                batch: None,
                undo: Seq::empty(),
                touched: 0,
                marks: Seq::empty(),
                decided_over: 0,
                implicit_transaction: false,
                next_txn: one_past(highest_txn),
                statement_txn: None,
                running: 0,
                settling: false,
            }),
            highest_txn < u64::MAX ==> database.writing@.next_txn == highest_txn + 1,
            !database.pragmas.foreign_keys && !database.pragmas.query_only
                && !database.pragmas.defensive && database.pragmas.automatic_index
                && database.pragmas.levers == 0,
            database.compiled.statements@.len() == 0,
            database.compiled.statement_cache_limit == DEFAULT_STATEMENT_CACHE,
            database.compiled.compiles == 0,
            database.compiled.index_stages == (StageTimings {
                scan: 0,
                sort: 0,
                unique: 0,
                flatten: 0,
                pack: 0,
                catalog: 0,
                seal: 0,
            }),
            database.counters@ == (Tally {
                last_rowid: 0,
                changed_ever: 0,
                opened_at: Map::empty(),
                last_changes: 0,
                seed,
            }),
    {
        let mut pragmas = Pragmas::fresh();
        pragmas.journal_mode = settle_journal(file_has_log, pragmas.journal_mode);
        ImportedDatabase {
            session_state: SessionState::fresh(),
            pragmas,
            schema,
            storage,
            writing: Writing::starting_at(highest_txn.saturating_add(1)),
            compiled: Compiled::fresh(),
            counters: Counters::starting_from(seed),
        }
    }

    /// Returns the name and the identifier of every object, in catalog order.
    ///
    /// The identifier is what the log refers to a tree by, so it is what two
    /// processes have to agree about.
    pub fn tree_identifiers(&self) -> (identifiers: Vec<(Vec<u8>, u64)>)
        ensures
            identifiers@.len() == self.schema.entries@.len(),
            forall|i: int|
                0 <= i < identifiers@.len() ==> {
                    &&& (#[trigger] identifiers@[i]).0@ == identifiers_of(
                        self.schema.entries@,
                    )[i].0
                    &&& identifiers@[i].1 == identifiers_of(self.schema.entries@)[i].1
                },
            forall|i: int|
                0 <= i < identifiers@.len() ==> (#[trigger] identifiers@[i]).0@ == shown(
                    self.schema.entries@[i].entry.name@,
                ) && identifiers@[i].1 == self.schema.entries@[i].entry.tree_id,
    {
        let mut identifiers: Vec<(Vec<u8>, u64)> = Vec::new();
        for at in 0..self.schema.entries.len()
            invariant
                identifiers@.len() == at,
                forall|i: int|
                    0 <= i < at ==> {
                        &&& (#[trigger] identifiers@[i]).0@
                            == shown(self.schema.entries@[i].entry.name@)
                        &&& identifiers@[i].1 == self.schema.entries@[i].entry.tree_id
                    },
        {
            let held = &self.schema.entries[at].entry;
            identifiers.push((show(&held.name), held.tree_id));
        }
        identifiers
    }

    /// Returns the names of the tables that could not be taken.
    pub fn skipped(&self) -> (names: &Vec<Vec<u8>>)
        ensures
            *names == self.schema.skipped,
    {
        &self.schema.skipped
    }

    /// Returns how many frames the pool was asked for.
    pub fn frames(&self) -> (frames: usize)
        ensures
            frames == self.storage.frames,
    {
        self.storage.frames
    }

    /// Returns where the file is.
    pub fn file(&self) -> (path: &Vec<u8>)
        ensures
            *path == self.storage.path,
    {
        &self.storage.path
    }

    /// Returns the size of a page.
    pub fn page_size(&self) -> (bytes: usize)
        ensures
            bytes == self.storage.page_size,
    {
        self.storage.page_size
    }

    /// Returns how many times the catalog has changed.
    pub fn schema_generation(&self) -> (generation: u64)
        ensures
            generation == self.schema.catalog_generation,
    {
        self.schema.catalog_generation
    }

    /// Returns the session of the statement now running.
    pub fn session(&self) -> (session: u64)
        ensures
            session == self.session_state.session,
    {
        self.session_state.session
    }

    /// Returns where the last index that was built spent its time.
    pub fn build_stage_nanos(&self) -> (timings: StageTimings)
        ensures
            timings == self.compiled.index_stages,
    {
        self.compiled.index_stages
    }

    /// Returns the indexes that cover every row of a table, smallest first: none
    /// for a tree that is no table's.
    pub fn candidates(&self, table_root: u32) -> (roots: Vec<u32>)
        ensures
            roots@ == (if self.schema.covering@.contains_key(table_root) {
                self.schema.covering@[table_root]@
            } else {
                seq![]
            }),
    {
        let mut roots: Vec<u32> = Vec::new();
        match self.schema.covering.get(&table_root) {
            Some(held) => {
                for at in 0..held.len()
                    invariant
                        roots@ =~= held@.take(at as int),
                {
                    roots.push(held[at]);
                    assert(roots@ =~= held@.take(at + 1));
                }
                assert(held@.take(held@.len() as int) =~= held@);
            },
            None => {},
        }
        roots
    }

    /// Returns the handle of the tree that holds a table's rows.
    ///
    /// Where the tables of several databases have the name, it is one of theirs.
    pub fn table_root(&self, name: &[u8]) -> (root: Option<u32>)
        ensures
            match root {
                Some(root) => is_table_root(self.schema, name@, root),
                None => forall|root: u32| !(#[trigger] is_table_root(self.schema, name@, root)),
            },
            root matches Some(found) ==> self.schema.layouts@.contains_key(found) && exists|at: int|
                0 <= at < self.schema.tables@.len() && (
                #[trigger] self.schema.tables@[at]).root == found && shown(
                    self.schema.tables@[at].name@,
                ) == name@ && forall|i: int|
                    0 <= i < at ==> (#[trigger] self.schema.tables@[i]).root != found,
    {
        let tables = &self.schema.tables;
        for at in 0..tables.len()
            invariant
                tables@ == self.schema.tables@,
                forall|i: int|
                    0 <= i < at ==> !is_table_root(
                        self.schema,
                        name@,
                        (#[trigger] tables@[i]).root,
                    ),
        {
            let root: u32 = tables[at].root;
            if self.schema.layouts.contains_key(&root) {
                if let Some(held) = catalog_name(tables.as_slice(), root) {
                    if same(held.as_slice(), name) {
                        return Some(root);
                    }
                }
            }
        }
        assert forall|root: u32| !(#[trigger] is_table_root(self.schema, name@, root)) by {
            a_found_table_has_the_root(tables@, root, tables@.len() as int);
            match table_with_root(tables@, root, tables@.len() as int) {
                Some(at) => {
                    assert(!is_table_root(self.schema, name@, tables@[at].root));
                },
                None => {},
            }
        }
        None
    }

    /// Returns the handles of every tree, in no order.
    fn tree_handles(&self) -> (handles: Vec<u32>)
        ensures
            handles@.no_duplicates(),
            forall|handle: u32| #[trigger]
                handles@.contains(handle) <==> self.schema.trees@.contains_key(handle),
    {
        let trees = &self.schema.trees;
        let mut handles: Vec<u32> = Vec::new();
        for pair in it: trees.iter()
            invariant
                it.seq() == vstd::std_specs::hash::spec_hash_map_iter(trees).remaining(),
                it.seq().no_duplicates(),
                handles@.len() == it.index(),
                forall|i: int| 0 <= i < it.index() ==> #[trigger] handles@[i] == *it.seq()[i].0,
        {
            handles.push(*pair.0);
        }
        proof {
            let pairs = vstd::std_specs::hash::spec_hash_map_iter(trees).remaining();
            assert forall|i: int, j: int|
                0 <= i < handles@.len() && 0 <= j < handles@.len() && i != j implies handles@[i]
                != handles@[j] by {
                assert(trees@.contains_key(*pairs[i].0) && trees@[*pairs[i].0] == *pairs[i].1);
                assert(trees@.contains_key(*pairs[j].0) && trees@[*pairs[j].0] == *pairs[j].1);
                assert(pairs[i] != pairs[j]);
            }
            assert forall|handle: u32| #[trigger]
                handles@.contains(handle) <==> trees@.contains_key(handle) by {
                if handles@.contains(handle) {
                    let i = choose|i: int| 0 <= i < handles@.len() && handles@[i] == handle;
                    assert(trees@.contains_key(*pairs[i].0));
                }
                if trees@.contains_key(handle) {
                    assert(pairs.contains((&handle, &trees@[handle])));
                    let i = choose|i: int|
                        0 <= i < pairs.len() && pairs[i] == (&handle, &trees@[handle]);
                    assert(handles@[i] == handle);
                }
            }
        }
        handles
    }

    /// Returns the handles of every tree, in ascending order.
    pub fn roots(&self) -> (roots: Vec<u32>)
        ensures
            forall|i: int, j: int| 0 <= i < j < roots@.len() ==> roots@[i] < roots@[j],
            forall|root: u32| #[trigger]
                roots@.contains(root) <==> self.schema.trees@.contains_key(root),
    {
        let handles = self.tree_handles();
        let roots = ascending_handles(handles.as_slice());
        assert forall|root: u32| #[trigger]
            roots@.contains(root) <==> self.schema.trees@.contains_key(root) by {
            assert(handles@.contains(root) <==> self.schema.trees@.contains_key(root));
        }
        roots
    }

    /// Returns everything a check of every tree does, in order.
    pub fn check_trees_to(&self, depth: CheckDepth) -> (steps: Vec<CheckStep>)
        ensures
            exists|handles: Seq<u32>|
                {
                    &&& handles.no_duplicates()
                    &&& forall|handle: u32| #[trigger]
                        handles.contains(handle) <==> self.schema.trees@.contains_key(handle)
                    &&& steps@ == #[trigger] steps_of(self.session_state, handles, depth)
                },
    {
        let handles = self.tree_handles();
        let steps = check_trees_to(&self.session_state, handles.as_slice(), depth);
        assert(steps@ == steps_of(self.session_state, handles@, depth));
        steps
    }

    /// Returns everything the whole of a check does, in order.
    pub fn check_trees(&self) -> (steps: Vec<CheckStep>)
        ensures
            exists|handles: Seq<u32>|
                {
                    &&& handles.no_duplicates()
                    &&& forall|handle: u32| #[trigger]
                        handles.contains(handle) <==> self.schema.trees@.contains_key(handle)
                    &&& steps@ == #[trigger] steps_of(
                        self.session_state,
                        handles,
                        CheckDepth::Full,
                    )
                },
    {
        self.check_trees_to(CheckDepth::Full)
    }

    /// Returns the catalog rows of one schema, none for a schema that is not
    /// there.
    pub fn entries_of(&self, at: usize) -> (entries: &[Recorded])
        ensures
            entries@ == (if at == MAIN {
                self.schema.entries@
            } else {
                match self.session_state.beside_main(at as int) {
                    Some(held) => held.entries@,
                    None => seq![],
                }
            }),
            at >= 2 && at - 2 < self.session_state.attached@.len() ==> entries@
                == self.session_state.attached@[at - 2].entries@,
            at >= 2 && at - 2 >= self.session_state.attached@.len() ==> entries@.len() == 0,
    {
        if at == MAIN {
            return self.schema.entries.as_slice();
        }
        match self.session_state.schema_at(at) {
            Some(held) => held.entries.as_slice(),
            None => {
                let entries: &[Recorded] = &[];
                assert(entries@ =~= seq![]);
                entries
            },
        }
    }

    /// Returns the file behind one schema, when it has one.
    pub fn path_of(&self, at: usize) -> (path: Option<&Vec<u8>>)
        ensures
            match path {
                Some(held) => if at == MAIN {
                    *held == self.storage.path
                } else {
                    &&& self.session_state.beside_main(at as int) matches Some(schema)
                    &&& schema.path == Some(*held)
                },
                None => at != MAIN && (match self.session_state.beside_main(at as int) {
                    Some(schema) => schema.path is None,
                    None => true,
                }),
            },
            at >= 2 && at - 2 < self.session_state.attached@.len() ==> match path {
                Some(held) => self.session_state.attached@[at - 2].path == Some(*held),
                None => self.session_state.attached@[at - 2].path is None,
            },
            at >= 2 && at - 2 >= self.session_state.attached@.len() ==> path is None,
    {
        if at == MAIN {
            return Some(&self.storage.path);
        }
        match self.session_state.schema_at(at) {
            Some(held) => held.path.as_ref(),
            None => None,
        }
    }

    /// Returns the path the running session's temporary database is made at, when
    /// it has not got one.
    pub fn temp_wanted(&self) -> (path: Option<Vec<u8>>)
        ensures
            match path {
                Some(held) => {
                    &&& self.session_state.beside_main(TEMP as int) is None
                    &&& held@ == temp_called(self.session_state.session)
                },
                None => self.session_state.beside_main(TEMP as int) is Some,
            },
            path is None <==> exists|i: int|
                0 <= i < self.session_state.temps@.len() && (
                #[trigger] self.session_state.temps@[i]).session == Some(
                    self.session_state.session,
                ),
    {
        proof {
            crate::sessions::temp_is_listed(
                self.session_state.temps@,
                self.session_state.session,
            );
        }
        if self.session_state.schema_at(TEMP).is_some() {
            None
        } else {
            Some(temp_path(self.session_state.session))
        }
    }

    /// Makes the statements that follow belong to one session, and returns
    /// whether the tables have to be derived again for it.
    ///
    /// A session's temporary tables are its own: handing the next session the
    /// previous one's is what deriving them again prevents.
    pub fn use_session(&mut self, session: u64) -> (derive: bool)
        ensures
            old(self).wf() ==> final(self).wf(),
            derive == (old(self).session_state.tables_session != session),
            final(self).session_state == (SessionState {
                session,
                tables_session: session,
                ..old(self).session_state
            }),
            final(self).counters@ == (Tally {
                opened_at: if old(self).counters@.opened_at.contains_key(session) {
                    old(self).counters@.opened_at
                } else {
                    old(self).counters@.opened_at.insert(
                        session,
                        old(self).counters@.changed_ever,
                    )
                },
                ..old(self).counters@
            }),
            *final(self) == (ImportedDatabase {
                session_state: final(self).session_state,
                counters: final(self).counters,
                ..*old(self)
            }),
    {
        self.session_state.session = session;
        self.counters.record_open_once(session);
        let derive = self.session_state.tables_session != session;
        self.session_state.tables_session = session;
        proof {
            if old(self).wf() {
                names_rest_on_the_databases(
                    old(self).session_state,
                    self.session_state,
                    self.schema.numbering,
                );
            }
        }
        derive
    }

    /// Returns whether every statement is its own transaction.
    pub fn autocommit(&self) -> (answer: bool)
        ensures
            answer == (self.writing@.batch is None),
    {
        self.writing.autocommit()
    }

    /// Returns how many files the last commit was decided over.
    pub fn decided_over(&self) -> (files: usize)
        ensures
            files == self.writing@.decided_over,
    {
        self.writing.decided_over()
    }

    /// Returns the rowid the last insert assigned.
    pub fn last_insert_rowid(&self) -> (rowid: i64)
        ensures
            rowid == self.counters@.last_rowid,
    {
        self.counters.last_insert_rowid()
    }

    /// Returns how many rows the last statement changed itself.
    pub fn changes(&self) -> (rows: i64)
        ensures
            rows == self.counters@.last_changes,
    {
        self.counters.changes()
    }

    /// Returns how many rows every statement of the running session has changed.
    pub fn total_changes(&self) -> (rows: i64)
        ensures
            rows == since_opened(self.counters@, self.session_state.session),
    {
        self.counters.total_changes(self.session_state.session)
    }

    /// Opens a transaction that the statements after it all join, and reports
    /// whether it did: opening one inside another keeps the first.
    pub fn begin_batch(&mut self) -> (opened: bool)
        ensures
            old(self).wf() ==> final(self).wf(),
            opened == (old(self).writing@.batch is None),
            final(self).writing@ == (if opened {
                Ledger {
                    batch: Some(old(self).writing@.next_txn),
                    next_txn: one_past(old(self).writing@.next_txn),
                    undo: Seq::empty(),
                    marks: Seq::empty(),
                    touched: 0,
                    ..old(self).writing@
                }
            } else {
                old(self).writing@
            }),
            *final(self) == (ImportedDatabase { writing: final(self).writing, ..*old(self) }),
    {
        self.writing.begin_batch()
    }

    /// Starts a rollback: the modules have then been told nothing of the
    /// transaction that is going.
    pub fn start_rollback(&mut self)
        ensures
            old(self).wf() ==> final(self).wf(),
            *final(self) == (ImportedDatabase {
                session_state: SessionState {
                    modules_begun: false,
                    ..old(self).session_state
                },
                ..*old(self)
            }),
    {
        self.session_state.modules_begun = false;
        proof {
            if old(self).wf() {
                names_rest_on_the_databases(
                    old(self).session_state,
                    self.session_state,
                    self.schema.numbering,
                );
            }
        }
    }

    /// Ends a rollback, whatever became of it, and returns the schemas the
    /// transaction had written to and which failure is reported.
    ///
    /// A transaction that could not be undone is closed all the same: one left
    /// open is one the next statement would join. A failure to undo is reported
    /// before a failure to tell a module.
    pub fn rollback(&mut self, undone: bool, told: bool) -> (ended: (Vec<usize>, RolledBack))
        ensures
            old(self).wf() ==> final(self).wf(),
            numbers_of(ended.0@) == schemas_of(old(self).writing@.touched, 16),
            ended.1 == (if !undone {
                RolledBack::NotUndone
            } else if !told {
                RolledBack::NotTold
            } else {
                RolledBack::Done
            }),
            final(self).writing@ == (Ledger {
                marks: Seq::empty(),
                batch: None,
                implicit_transaction: false,
                touched: 0,
                ..old(self).writing@
            }),
            final(self).pragmas == (Pragmas {
                defer_foreign_keys: false,
                ..old(self).pragmas
            }),
            *final(self) == (ImportedDatabase {
                writing: final(self).writing,
                pragmas: final(self).pragmas,
                ..*old(self)
            }),
    {
        let schemas = self.writing.rolled_back();
        self.pragmas.defer_foreign_keys = false;
        let report = if !undone {
            RolledBack::NotUndone
        } else if !told {
            RolledBack::NotTold
        } else {
            RolledBack::Done
        };
        (schemas, report)
    }

    /// Closes a transaction whose checks passed and whose modules have flushed,
    /// and returns it with the schemas it wrote to, when one was open.
    ///
    /// Putting checks off to the commit is one transaction's setting: where it
    /// was on, it goes, and so do the statements compiled under it.
    pub fn commit_batch(&mut self) -> (sealed: Option<(u64, u16)>)
        requires
            old(self).wf(),
        ensures
            final(self).wf(),
            sealed == (match old(self).writing@.batch {
                Some(txn) => Some((txn, old(self).writing@.touched)),
                None => None,
            }),
            final(self).writing@ == (Ledger {
                undo: Seq::empty(),
                marks: Seq::empty(),
                implicit_transaction: false,
                batch: None,
                touched: 0,
                ..old(self).writing@
            }),
            final(self).pragmas == (Pragmas {
                defer_foreign_keys: false,
                ..old(self).pragmas
            }),
            final(self).compiled.statements@ == (if old(self).pragmas.defer_foreign_keys {
                Seq::empty()
            } else {
                old(self).compiled.statements@
            }),
            final(self).compiled.statement_cache_limit
                == old(self).compiled.statement_cache_limit,
            final(self).compiled.compiles == old(self).compiled.compiles,
            final(self).compiled.index_stages == old(self).compiled.index_stages,
            *final(self) == (ImportedDatabase {
                writing: final(self).writing,
                pragmas: final(self).pragmas,
                compiled: final(self).compiled,
                session_state: SessionState {
                    modules_begun: false,
                    ..old(self).session_state
                },
                ..*old(self)
            }),
    {
        if self.pragmas.defer_foreign_keys {
            self.pragmas.defer_foreign_keys = false;
            self.compiled.forget_all();
        }
        self.session_state.modules_begun = false;
        proof {
            names_rest_on_the_databases(
                old(self).session_state,
                self.session_state,
                self.schema.numbering,
            );
        }
        self.writing.seal_batch()
    }

    /// Returns the schemas that have to agree to a transaction, lowest first, and
    /// remembers how many they are.
    ///
    /// A temporary database is none of them: it has no file, so it has no
    /// recovery that could be in doubt.
    pub fn commit_across(&mut self, participants: u16) -> (durable: Vec<usize>)
        ensures
            old(self).wf() ==> final(self).wf(),
            numbers_of(durable@) == passing(
                schemas_of(participants, 16),
                |at: int| kept_in_a_file(old(self).session_state, at),
            ),
            final(self).writing@ == (Ledger {
                decided_over: durable@.len() as int,
                ..old(self).writing@
            }),
            *final(self) == (ImportedDatabase { writing: final(self).writing, ..*old(self) }),
    {
        let durable = durable_among(&self.session_state, participants);
        self.writing.decided_over = durable.len();
        durable
    }

    /// Takes a function that was registered: a name resolves when a statement is
    /// compiled, so every compiled one goes.
    pub fn register_function(&mut self)
        requires
            old(self).wf(),
        ensures
            final(self).wf(),
            final(self).compiled.statements@.len() == 0,
            final(self).compiled == (Compiled {
                statements: final(self).compiled.statements,
                ..old(self).compiled
            }),
            *final(self) == (ImportedDatabase { compiled: final(self).compiled, ..*old(self) }),
    {
        self.compiled.forget_all();
    }

    /// Takes that a function was removed, or that there was none, and reports
    /// which.
    pub fn remove_function(&mut self, removed: bool) -> (answer: bool)
        requires
            old(self).wf(),
        ensures
            final(self).wf(),
            answer == removed,
            final(self).compiled.statements@ == (if removed {
                Seq::empty()
            } else {
                old(self).compiled.statements@
            }),
            final(self).compiled == (Compiled {
                statements: final(self).compiled.statements,
                ..old(self).compiled
            }),
            *final(self) == (ImportedDatabase { compiled: final(self).compiled, ..*old(self) }),
    {
        if removed {
            self.compiled.forget_all();
        }
        removed
    }

    /// Takes a collation's name, in place of one of the same name, and forgets
    /// every compiled statement.
    pub fn create_collation(&mut self, name: &[u8])
        requires
            old(self).wf(),
        ensures
            final(self).wf(),
            called(final(self).session_state.collations@) == without(
                called(old(self).session_state.collations@),
                raised(name@),
            ).push(raised(name@)),
            final(self).compiled.statements@.len() == 0,
            final(self).compiled == (Compiled {
                statements: final(self).compiled.statements,
                ..old(self).compiled
            }),
            *final(self) == (ImportedDatabase {
                compiled: final(self).compiled,
                session_state: SessionState {
                    collations: final(self).session_state.collations,
                    ..old(self).session_state
                },
                ..*old(self)
            }),
    {
        create_collation(&mut self.session_state.collations, name);
        self.compiled.forget_all();
        proof {
            names_rest_on_the_databases(
                old(self).session_state,
                self.session_state,
                self.schema.numbering,
            );
        }
    }

    /// Returns whether a write has to be allowed by the module that owns its
    /// table: it is one of a table a module keeps for itself, and the connection
    /// is in defensive mode.
    pub fn guards(&self, bound: &Bound, shadow: bool) -> (asked: bool)
        ensures
            asked == (self.pragmas.defensive && kind_writes(bound.kind) && shadow),
            asked <==> self.pragmas.defensive && shadow && (bound.kind is Insert || bound.kind
                is Update || bound.kind is Delete),
    {
        shadow_write(bound, self.pragmas.defensive, shadow)
    }

    /// Puts the connection into or out of defensive mode, for what the pragmas
    /// refuse and for the tables modules keep for themselves alike.
    pub fn set_defensive(&mut self, on: bool)
        ensures
            old(self).wf() ==> final(self).wf(),
            *final(self) == (ImportedDatabase {
                pragmas: Pragmas { defensive: on, ..old(self).pragmas },
                ..*old(self)
            }),
    {
        self.pragmas.defensive = on;
    }

    /// Takes whether something may refuse a statement, and forgets every
    /// compiled one: reusing a plan would not ask again.
    pub fn set_authorizer(&mut self, installed: bool)
        requires
            old(self).wf(),
        ensures
            final(self).wf(),
            final(self).compiled.statements@.len() == 0,
            final(self).compiled == (Compiled {
                statements: final(self).compiled.statements,
                ..old(self).compiled
            }),
            *final(self) == (ImportedDatabase {
                compiled: final(self).compiled,
                session_state: SessionState { restricted: installed, ..old(self).session_state },
                ..*old(self)
            }),
    {
        self.session_state.restricted = installed;
        self.compiled.forget_all();
        proof {
            names_rest_on_the_databases(
                old(self).session_state,
                self.session_state,
                self.schema.numbering,
            );
        }
    }

    /// Sets exactly which optimizations are off.
    ///
    /// The plans that were compiled stay, each under the levers it was compiled
    /// with: going back to levers finds the plans they had.
    pub fn disable_optimizations(&mut self, levers: u32)
        ensures
            old(self).wf() ==> final(self).wf(),
            *final(self) == (ImportedDatabase {
                pragmas: Pragmas { levers, ..old(self).pragmas },
                ..*old(self)
            }),
    {
        self.pragmas.levers = levers;
    }

    /// Returns which optimizations are off.
    pub fn levers(&self) -> (levers: u32)
        ensures
            levers == self.pragmas.levers,
    {
        self.pragmas.levers
    }

    /// Returns the key a statement compiled now is held under.
    pub fn plan_key(&self) -> (key: u64)
        ensures
            key == (self.session_state.session << 32) | (self.pragmas.levers as u64),
    {
        plan_key(self.session_state.session, self.pragmas.levers)
    }

    /// Returns how many compiled statements are held.
    pub fn cached_statements(&self) -> (count: usize)
        ensures
            count == held_in_all(self.compiled),
            count <= count_all(self.compiled.statements@),
            count < usize::MAX ==> count == count_all(self.compiled.statements@),
    {
        self.compiled.held()
    }

    /// Returns how many compiled statements are held.
    pub fn cached_plan_count(&self) -> (count: usize)
        ensures
            count == held_in_all(self.compiled),
            count <= count_all(self.compiled.statements@),
            count < usize::MAX ==> count == count_all(self.compiled.statements@),
    {
        self.compiled.held()
    }

    /// Returns how many statements were compiled since the connection opened.
    pub fn compiled_statement_count(&self) -> (count: u64)
        ensures
            count == self.compiled.compiles,
    {
        self.compiled.compiles()
    }

    /// Returns how many statements one session may hold before they go.
    pub fn statement_cache_limit(&self) -> (most: usize)
        ensures
            most == self.compiled.statement_cache_limit,
    {
        self.compiled.limit()
    }

    /// Sets how many statements one session may hold before they go.
    ///
    /// None means that every statement is compiled each time.
    pub fn set_statement_cache_limit(&mut self, most: usize)
        requires
            old(self).wf(),
        ensures
            final(self).wf(),
            final(self).compiled.statement_cache_limit == most,
            final(self).compiled.statements@ == (if most == 0 {
                Seq::empty()
            } else {
                old(self).compiled.statements@
            }),
            final(self).compiled.compiles == old(self).compiled.compiles,
            final(self).compiled.index_stages == old(self).compiled.index_stages,
            *final(self) == (ImportedDatabase { compiled: final(self).compiled, ..*old(self) }),
    {
        self.compiled.set_limit(most);
    }

    /// Forgets every compiled statement.
    pub fn clear_statement_cache(&mut self)
        requires
            old(self).wf(),
        ensures
            final(self).wf(),
            final(self).compiled.statements@.len() == 0,
            final(self).compiled.statement_cache_limit
                == old(self).compiled.statement_cache_limit,
            final(self).compiled.compiles == old(self).compiled.compiles,
            final(self).compiled.index_stages == old(self).compiled.index_stages,
            *final(self) == (ImportedDatabase { compiled: final(self).compiled, ..*old(self) }),
    {
        self.compiled.forget_all();
    }
}

/// The first table of a tree answers for it: the tree is found by that table's
/// name as it is shown, where its rows' layout is known, and by no other name.
pub proof fn a_table_is_found_by_its_name(schema: Schema, at: int, name: Seq<u8>)
    requires
        0 <= at < schema.tables@.len(),
        forall|i: int|
            0 <= i < at ==> (#[trigger] schema.tables@[i]).root != schema.tables@[at].root,
    ensures
        name_of_root(schema.tables@, schema.tables@[at].root) == Some(
            shown(schema.tables@[at].name@),
        ),
        is_table_root(schema, name, schema.tables@[at].root) <==> schema.layouts@.contains_key(
            schema.tables@[at].root,
        ) && name == shown(schema.tables@[at].name@),
{
    let tables = schema.tables@;
    let root = tables[at].root;
    a_found_table_has_the_root(tables, root, at);
    assert(table_with_root(tables, root, at + 1) == Some(at));
    a_found_table_stays(tables, root, at + 1, tables.len() as int);
}

} // verus!
