//! What a statement is compiled to, and what running it comes to.
//!
//! Parsing, binding and planning are done elsewhere. What is decided here is
//! which form a bound statement takes, what that form does when it is run, and
//! which statements are refused before they are.

use vstd::prelude::*;
use vstd::string::StrSliceExecFns;

use crate::refusals::Refusal;
use crate::schema::TableKind;
use crate::text::{
    ascii, copied, folded_text, is_white, same, same_folded_text, white, white_before,
};
use crate::transactions::{Ledger, Writing};
use crate::values::{owned_row, owned_rows, OwnedDatum, Value};

verus! {

/// What running a statement came to.
#[derive(Debug)]
pub struct Outcome {
    /// The rows it answers with.
    pub rows: Vec<Vec<OwnedDatum>>,
    /// The names of their columns.
    pub names: Vec<Vec<u8>>,
    /// How many rows it changed.
    pub changes: usize,
}

impl Outcome {
    /// Returns what a statement that does nothing comes to.
    pub fn empty() -> (outcome: Outcome)
        ensures
            outcome.rows@.len() == 0,
            outcome.names@.len() == 0,
            outcome.changes == 0,
    {
        Outcome { rows: Vec::new(), names: Vec::new(), changes: 0 }
    }

    /// Returns what a statement that only changes rows comes to.
    pub fn changed(rows: usize) -> (outcome: Outcome)
        ensures
            outcome.rows@.len() == 0,
            outcome.names@.len() == 0,
            outcome.changes == rows,
    {
        Outcome { rows: Vec::new(), names: Vec::new(), changes: rows }
    }
}

/// What kind of statement a bound statement is.
#[derive(Clone, Copy, Debug, PartialEq, Eq, Structural)]
pub enum BoundKind {
    /// A query.
    Select,
    /// An insert.
    Insert,
    /// An update.
    Update,
    /// A delete.
    Delete,
    /// A statement the session carries out itself.
    Directive,
    /// No statement.
    Empty,
}

/// What is known of a bound statement.
#[derive(Debug)]
pub struct Bound {
    /// What kind it is.
    pub kind: BoundKind,
    /// The name of the table it writes.
    pub table: Vec<u8>,
    /// That name, folded.
    pub folded: Vec<u8>,
    /// What kind of thing that name is.
    pub table_kind: TableKind,
    /// Whether an insert's rows come from a query.
    pub from_query: bool,
    /// Whether an insert's values, or an update's, hold a query.
    pub holds_query: bool,
    /// Whether a write of a view says which rows.
    pub view_rows: bool,
    /// Whether an update reads other tables.
    pub joined: bool,
    /// Whether a write answers with rows.
    pub returning: bool,
}

/// Which query finds the rows a write changes.
#[derive(Clone, Copy, Debug, PartialEq, Eq, Structural)]
pub enum KeysQuery {
    /// The one the view's own rows come from.
    ViewRows,
    /// The one over the table alone.
    Table,
    /// The one over the table and the others it reads.
    Joined,
    /// The one that asks the module for its rowids.
    Module,
}

/// The form a statement is compiled to.
#[derive(Clone, Copy, Debug, PartialEq, Eq, Structural)]
pub enum Form {
    /// Text that holds no statement.
    Nothing,
    /// A statement the session carries out itself, held as its own text.
    Ddl,
    /// The description of a plan.
    QueryPlan,
    /// The listing of a plan.
    Program,
    /// An insert into a module.
    VirtualInsert,
    /// An insert into the catalog.
    SchemaInsert,
    /// A delete from a module.
    VirtualDelete,
    /// An update of a module.
    VirtualUpdate,
    /// A query.
    Select,
    /// An insert: whether its rows come from a query, and whether its values
    /// hold one.
    Insert(bool, bool),
    /// An update: what finds its rows, whether its values hold a query, and
    /// whether it answers with rows.
    Update(KeysQuery, bool, bool),
    /// A delete: what finds its rows.
    Delete(KeysQuery),
}

/// Whether a folded name is the catalog's.
pub open spec fn schema_name(name: Seq<u8>) -> bool {
    name == ascii("sqlite_schema") || name == ascii("sqlite_master")
}

/// Reports whether a folded name is the catalog's.
pub fn is_the_schema_table(name: &[u8]) -> (answer: bool)
    ensures
        answer == schema_name(name@),
        answer <==> name@ == ascii("sqlite_schema") || name@ == ascii("sqlite_master"),
{
    same(name, "sqlite_schema".as_bytes()) || same(name, "sqlite_master".as_bytes())
}

/// The form a bound statement is compiled to.
pub open spec fn form_of(bound: Bound) -> Form {
    match bound.kind {
        BoundKind::Select => Form::Select,
        BoundKind::Insert => if schema_name(bound.folded@) {
            Form::SchemaInsert
        } else if bound.table_kind is Virtual {
            Form::VirtualInsert
        } else {
            Form::Insert(bound.from_query, !bound.from_query && bound.holds_query)
        },
        BoundKind::Update => if bound.table_kind is Virtual {
            Form::VirtualUpdate
        } else {
            Form::Update(
                if bound.view_rows {
                    KeysQuery::ViewRows
                } else if bound.joined {
                    KeysQuery::Joined
                } else {
                    KeysQuery::Table
                },
                bound.holds_query,
                bound.returning,
            )
        },
        BoundKind::Delete => if bound.table_kind is Virtual {
            Form::VirtualDelete
        } else {
            Form::Delete(
                if bound.view_rows {
                    KeysQuery::ViewRows
                } else {
                    KeysQuery::Table
                },
            )
        },
        BoundKind::Directive => Form::Ddl,
        BoundKind::Empty => Form::Nothing,
    }
}

/// Returns the form a bound statement is compiled to.
pub fn compile(bound: &Bound) -> (form: Form)
    ensures
        form == form_of(*bound),
        form is Select <==> bound.kind is Select,
        form is Ddl <==> bound.kind is Directive,
        form is Nothing <==> bound.kind is Empty,
        !(form is QueryPlan) && !(form is Program),
        form is SchemaInsert <==> bound.kind is Insert && (bound.folded@ == ascii("sqlite_schema")
            || bound.folded@ == ascii("sqlite_master")),
        form is VirtualInsert <==> bound.kind is Insert && bound.table_kind is Virtual
            && bound.folded@ != ascii("sqlite_schema") && bound.folded@ != ascii("sqlite_master"),
        form is VirtualUpdate <==> bound.kind is Update && bound.table_kind is Virtual,
        form is VirtualDelete <==> bound.kind is Delete && bound.table_kind is Virtual,
        form matches Form::Insert(from_query, holds_query) ==> bound.kind is Insert && from_query
            == bound.from_query && holds_query == (bound.holds_query && !bound.from_query),
        form matches Form::Update(keys, holds_query, returning) ==> {
            &&& bound.kind is Update
            &&& holds_query == bound.holds_query
            &&& returning == bound.returning
            &&& keys is ViewRows <==> bound.view_rows
            &&& keys is Joined <==> bound.joined && !bound.view_rows
            &&& keys is Table <==> !bound.joined && !bound.view_rows
        },
        form matches Form::Delete(keys) ==> {
            &&& bound.kind is Delete
            &&& keys is ViewRows <==> bound.view_rows
            &&& keys is Table <==> !bound.view_rows
        },
{
    let module: bool = match bound.table_kind {
        TableKind::Virtual => true,
        _ => false,
    };
    match bound.kind {
        BoundKind::Select => Form::Select,
        BoundKind::Insert => if is_the_schema_table(bound.folded.as_slice()) {
            Form::SchemaInsert
        } else if module {
            Form::VirtualInsert
        } else {
            Form::Insert(bound.from_query, !bound.from_query && bound.holds_query)
        },
        BoundKind::Update => if module {
            Form::VirtualUpdate
        } else if bound.view_rows {
            Form::Update(KeysQuery::ViewRows, bound.holds_query, bound.returning)
        } else if bound.joined {
            Form::Update(KeysQuery::Joined, bound.holds_query, bound.returning)
        } else {
            Form::Update(KeysQuery::Table, bound.holds_query, bound.returning)
        },
        BoundKind::Delete => if module {
            Form::VirtualDelete
        } else if bound.view_rows {
            Form::Delete(KeysQuery::ViewRows)
        } else {
            Form::Delete(KeysQuery::Table)
        },
        BoundKind::Directive => Form::Ddl,
        BoundKind::Empty => Form::Nothing,
    }
}

/// Reports whether the query that finds a write's rows can be planned: the ones
/// that read the table through its tree need the table's layout.
pub fn keys_plan(keys: KeysQuery, has_layout: bool) -> (answer: Result<(), Refusal>)
    ensures
        answer == (if (keys is Table || keys is Joined) && !has_layout {
            Err::<(), Refusal>(Refusal::NoLayout)
        } else {
            Ok::<(), Refusal>(())
        }),
{
    match keys {
        KeysQuery::Table => {},
        KeysQuery::Joined => {},
        _ => return Ok(()),
    }
    if has_layout {
        Ok(())
    } else {
        Err(Refusal::NoLayout)
    }
}

/// How one term of a plan reads its table.
#[derive(Clone, Copy, Debug, PartialEq, Eq, Structural)]
pub enum AccessPath {
    /// By a scan of the tree of a handle.
    TableScan(u32),
    /// As the planner chose, by the number it is known by.
    Planned(u32),
}

/// Makes a write's plan read its table by a scan, when the planner is told not
/// to use an index for a write, and reports whether the whole predicate is then
/// tested on every row.
pub fn scan_instead(paths: &mut Vec<AccessPath>, root: u32, indexed_write: bool) -> (tests_all: bool)
    ensures
        tests_all == !indexed_write,
        final(paths)@.len() == old(paths)@.len(),
        forall|i: int|
            0 <= i < final(paths)@.len() ==> #[trigger] final(paths)@[i] == if indexed_write {
                old(paths)@[i]
            } else {
                AccessPath::TableScan(root)
            },
{
    if indexed_write {
        return false;
    }
    let many: usize = paths.len();
    for at in 0..many
        invariant
            many == paths@.len(),
            paths@.len() == old(paths)@.len(),
            forall|i: int| 0 <= i < at ==> #[trigger] paths@[i] == AccessPath::TableScan(root),
    {
        paths.set(at, AccessPath::TableScan(root));
    }
    true
}

/// What an explanation describes of a bound statement.
#[derive(Clone, Copy, Debug, PartialEq, Eq, Structural)]
pub enum Explained {
    /// Its plan.
    Plan,
    /// The plan of the query over its table that finds its rows.
    Keys,
    /// Nothing but what it is.
    Words,
}

/// Returns what an explanation describes of a bound statement.
pub fn explained(kind: BoundKind) -> (described: Explained)
    ensures
        described == (match kind {
            BoundKind::Select => Explained::Plan,
            BoundKind::Update => Explained::Keys,
            BoundKind::Delete => Explained::Keys,
            _ => Explained::Words,
        }),
{
    match kind {
        BoundKind::Select => Explained::Plan,
        BoundKind::Update => Explained::Keys,
        BoundKind::Delete => Explained::Keys,
        _ => Explained::Words,
    }
}

/// What a kind of statement is called.
pub open spec fn called(kind: BoundKind) -> Seq<char> {
    match kind {
        BoundKind::Select => "a query"@,
        BoundKind::Insert => "an insert"@,
        BoundKind::Update => "an update"@,
        BoundKind::Delete => "a delete"@,
        BoundKind::Directive => "a directive"@,
        BoundKind::Empty => "nothing"@,
    }
}

/// Returns what a kind of statement is called.
pub fn describe_statement(kind: BoundKind) -> (words: &'static str)
    ensures
        words@ == called(kind),
        kind is Select ==> words@ == "a query"@,
        kind is Insert ==> words@ == "an insert"@,
        kind is Update ==> words@ == "an update"@,
        kind is Delete ==> words@ == "a delete"@,
        kind is Directive ==> words@ == "a directive"@,
        kind is Empty ==> words@ == "nothing"@,
{
    match kind {
        BoundKind::Select => "a query",
        BoundKind::Insert => "an insert",
        BoundKind::Update => "an update",
        BoundKind::Delete => "a delete",
        BoundKind::Directive => "a directive",
        BoundKind::Empty => "nothing",
    }
}

/// What a compiled form is called, none for a query, whose plan describes
/// itself.
pub open spec fn form_called(form: Form) -> Option<Seq<char>> {
    match form {
        Form::Nothing => Some("nothing"@),
        Form::Select => None,
        Form::Ddl => Some("a directive"@),
        Form::QueryPlan => Some("a query plan"@),
        Form::Program => Some("a program listing"@),
        Form::Insert(_, _) => Some("an insert"@),
        Form::VirtualInsert => Some("an insert into a module"@),
        Form::SchemaInsert => Some("an insert into sqlite_schema"@),
        Form::VirtualUpdate => Some("an update of a module"@),
        Form::VirtualDelete => Some("a delete from a module"@),
        Form::Update(_, _, _) => Some("an update"@),
        Form::Delete(_) => Some("a delete"@),
    }
}

/// Returns what a compiled form is called.
pub fn describe_cached(form: Form) -> (words: Option<&'static str>)
    ensures
        match words {
            Some(words) => form_called(form) == Some(words@),
            None => form_called(form) is None,
        },
        words is None <==> form is Select,
        form is Nothing ==> words->Some_0@ == "nothing"@,
        form is Ddl ==> words->Some_0@ == "a directive"@,
        form is QueryPlan ==> words->Some_0@ == "a query plan"@,
        form is Program ==> words->Some_0@ == "a program listing"@,
        form is Insert ==> words->Some_0@ == "an insert"@,
        form is VirtualInsert ==> words->Some_0@ == "an insert into a module"@,
        form is SchemaInsert ==> words->Some_0@ == "an insert into sqlite_schema"@,
        form is VirtualUpdate ==> words->Some_0@ == "an update of a module"@,
        form is VirtualDelete ==> words->Some_0@ == "a delete from a module"@,
        form is Update ==> words->Some_0@ == "an update"@,
        form is Delete ==> words->Some_0@ == "a delete"@,
{
    match form {
        Form::Nothing => Some("nothing"),
        Form::Select => None,
        Form::Ddl => Some("a directive"),
        Form::QueryPlan => Some("a query plan"),
        Form::Program => Some("a program listing"),
        Form::Insert(_, _) => Some("an insert"),
        Form::VirtualInsert => Some("an insert into a module"),
        Form::SchemaInsert => Some("an insert into sqlite_schema"),
        Form::VirtualUpdate => Some("an update of a module"),
        Form::VirtualDelete => Some("a delete from a module"),
        Form::Update(_, _, _) => Some("an update"),
        Form::Delete(_) => Some("a delete"),
    }
}

/// Returns whether running a form takes the files for writing.
pub fn writes_of(form: Form) -> (answer: bool)
    ensures
        answer == !(form is Select || form is QueryPlan || form is Program || form is Nothing),
{
    match form {
        Form::Select => false,
        Form::QueryPlan => false,
        Form::Program => false,
        Form::Nothing => false,
        _ => true,
    }
}

/// How many characters stand before a text's first white space.
pub open spec fn dark_before(text: Seq<char>) -> nat
    decreases text.len(),
{
    if text.len() > 0 && !white(text[0]) {
        1 + dark_before(text.drop_first())
    } else {
        0
    }
}

/// The first word of a text.
pub open spec fn head_word(text: Seq<char>) -> Seq<char> {
    let rest = text.skip(white_before(text));
    rest.take(dark_before(rest) as int)
}

/// Whether a directive changes the schema: its first word is one of those that
/// do, in either case.
pub open spec fn changes_schema(sql: Seq<char>) -> bool {
    let head = folded_text(head_word(sql));
    ||| head == folded_text("create"@)
    ||| head == folded_text("drop"@)
    ||| head == folded_text("alter"@)
    ||| head == folded_text("reindex"@)
}

/// Whether a form changes the database, its text being what it is.
pub open spec fn form_writes(form: Form, sql: Seq<char>) -> bool {
    match form {
        Form::Insert(_, _) => true,
        Form::VirtualInsert => true,
        Form::SchemaInsert => true,
        Form::Update(_, _, _) => true,
        Form::VirtualUpdate => true,
        Form::Delete(_) => true,
        Form::VirtualDelete => true,
        Form::Ddl => changes_schema(sql),
        _ => false,
    }
}

/// The dark characters end where the characters say they do.
proof fn dark_ends_at(text: Seq<char>, at: int)
    requires
        0 <= at <= text.len(),
        forall|i: int| 0 <= i < at ==> !white(text[i]),
        at < text.len() ==> white(text[at]),
    ensures
        dark_before(text) == at,
    decreases at,
{
    if at > 0 {
        let rest = text.drop_first();
        assert forall|i: int| 0 <= i < at - 1 implies !white(rest[i]) by {
            assert(rest[i] == text[i + 1]);
        }
        dark_ends_at(rest, at - 1);
    }
}

/// Returns the first word of a text.
fn first_word_of(text: &str) -> (word: &str)
    ensures
        word@ == head_word(text@),
{
    let length: usize = text.unicode_len();
    let mut from: usize = 0;
    while from < length && is_white(text.get_char(from))
        invariant
            from <= length == text@.len(),
            forall|i: int| 0 <= i < from ==> white(text@[i]),
        decreases length - from,
    {
        from += 1;
    }
    proof {
        crate::text::white_ends_at(text@, from as int);
    }
    let mut to: usize = from;
    while to < length && !is_white(text.get_char(to))
        invariant
            from <= to <= length == text@.len(),
            forall|i: int| from <= i < to ==> !white(text@[i]),
        decreases length - to,
    {
        to += 1;
    }
    let word = text.substring_char(from, to);
    proof {
        let rest = text@.skip(from as int);
        assert forall|i: int| 0 <= i < to - from implies !white(rest[i]) by {
            assert(rest[i] == text@[from + i]);
        }
        dark_ends_at(rest, to - from);
        assert(rest.take(to - from) =~= word@);
    }
    word
}

/// Reports whether a form changes the database.
pub fn writes_something(form: Form, sql: &str) -> (answer: bool)
    ensures
        answer == form_writes(form, sql@),
        form is Insert || form is VirtualInsert || form is SchemaInsert || form is Update || form
            is VirtualUpdate || form is Delete || form is VirtualDelete ==> answer,
        form is Nothing || form is Select || form is QueryPlan || form is Program ==> !answer,
        form is Ddl ==> (answer <==> folded_text(head_word(sql@)) == folded_text("create"@)
            || folded_text(head_word(sql@)) == folded_text("drop"@) || folded_text(head_word(sql@))
            == folded_text("alter"@) || folded_text(head_word(sql@)) == folded_text("reindex"@)),
{
    match form {
        Form::Insert(_, _) => true,
        Form::VirtualInsert => true,
        Form::SchemaInsert => true,
        Form::Update(_, _, _) => true,
        Form::VirtualUpdate => true,
        Form::Delete(_) => true,
        Form::VirtualDelete => true,
        Form::Ddl => {
            let head = first_word_of(sql);
            same_folded_text(head, "create") || same_folded_text(head, "drop")
                || same_folded_text(head, "alter") || same_folded_text(head, "reindex")
        },
        _ => false,
    }
}

/// What is worked out once before a statement's rows are looked at.
#[derive(Clone, Copy, Debug, PartialEq, Eq, Structural)]
pub enum Folding {
    /// Nothing.
    Nothing,
    /// The queries among an insert's values.
    Values,
    /// The queries among an update's values and what it answers with.
    Assignments,
    /// The queries among what a delete answers with.
    Returning,
}

/// What running a compiled form comes to.
#[derive(Clone, Copy, Debug, PartialEq, Eq, Structural)]
pub enum Action {
    /// No rows and no changes.
    Nothing,
    /// The directive is carried out.
    Directive,
    /// The plan's description is answered.
    PlanRows,
    /// The plan's listing is answered.
    ProgramRows,
    /// The module is given the rows.
    InsertModule,
    /// The catalog is given the row.
    InsertSchema,
    /// The query is run and its rows answered.
    Query,
    /// The rows are found, what can be is worked out, and the write is applied.
    /// The flag is whether rows are found first.
    Write(bool, Folding),
    /// The rowids are found and the module told of each new row.
    UpdateModule,
    /// The rowids are found and the module told of each.
    DeleteModule,
}

/// What running a compiled form comes to, on a connection that may write.
pub open spec fn action_of(form: Form) -> Action {
    match form {
        Form::Nothing => Action::Nothing,
        Form::Ddl => Action::Directive,
        Form::QueryPlan => Action::PlanRows,
        Form::Program => Action::ProgramRows,
        Form::VirtualInsert => Action::InsertModule,
        Form::SchemaInsert => Action::InsertSchema,
        Form::Select => Action::Query,
        Form::Insert(from_query, holds_query) => Action::Write(
            from_query,
            if holds_query {
                Folding::Values
            } else {
                Folding::Nothing
            },
        ),
        Form::Update(_, holds_query, returning) => Action::Write(
            true,
            if holds_query || returning {
                Folding::Assignments
            } else {
                Folding::Nothing
            },
        ),
        Form::VirtualUpdate => Action::UpdateModule,
        Form::VirtualDelete => Action::DeleteModule,
        Form::Delete(_) => Action::Write(true, Folding::Returning),
    }
}

/// Returns what running a compiled form comes to.
///
/// A connection told to answer queries only refuses what writes. A directive is
/// judged by its text: one that changes nothing, such as a pragma or a `BEGIN`,
/// is still carried out.
pub fn apply_compiled(form: Form, sql: &str, query_only: bool) -> (action: Result<Action, Refusal>)
    ensures
        action == (if query_only && form_writes(form, sql@) {
            Err::<Action, Refusal>(Refusal::ReadOnly)
        } else {
            Ok::<Action, Refusal>(action_of(form))
        }),
        !query_only ==> action is Ok,
        action is Err ==> action == Err::<Action, Refusal>(Refusal::ReadOnly),
        query_only && (form is Insert || form is VirtualInsert || form is SchemaInsert || form
            is Update || form is VirtualUpdate || form is Delete || form is VirtualDelete)
            ==> action is Err,
        form is Nothing || form is Select || form is QueryPlan || form is Program ==> action is Ok,
        action matches Ok(done) ==> {
            &&& form is Nothing <==> done is Nothing
            &&& form is Ddl <==> done is Directive
            &&& form is QueryPlan <==> done is PlanRows
            &&& form is Program <==> done is ProgramRows
            &&& form is VirtualInsert <==> done is InsertModule
            &&& form is SchemaInsert <==> done is InsertSchema
            &&& form is Select <==> done is Query
            &&& form is VirtualUpdate <==> done is UpdateModule
            &&& form is VirtualDelete <==> done is DeleteModule
            &&& form matches Form::Insert(from_query, holds_query) ==> done == Action::Write(
                from_query,
                if holds_query {
                    Folding::Values
                } else {
                    Folding::Nothing
                },
            )
            &&& form matches Form::Update(_, holds_query, returning) ==> done == Action::Write(
                true,
                if holds_query || returning {
                    Folding::Assignments
                } else {
                    Folding::Nothing
                },
            )
            &&& form is Delete ==> done == Action::Write(true, Folding::Returning)
        },
{
    if query_only && writes_something(form, sql) {
        return Err(Refusal::ReadOnly);
    }
    Ok(
        match form {
            Form::Nothing => Action::Nothing,
            Form::Ddl => Action::Directive,
            Form::QueryPlan => Action::PlanRows,
            Form::Program => Action::ProgramRows,
            Form::VirtualInsert => Action::InsertModule,
            Form::SchemaInsert => Action::InsertSchema,
            Form::Select => Action::Query,
            Form::Insert(from_query, holds_query) => if holds_query {
                Action::Write(from_query, Folding::Values)
            } else {
                Action::Write(from_query, Folding::Nothing)
            },
            Form::Update(_, holds_query, returning) => if holds_query || returning {
                Action::Write(true, Folding::Assignments)
            } else {
                Action::Write(true, Folding::Nothing)
            },
            Form::VirtualUpdate => Action::UpdateModule,
            Form::VirtualDelete => Action::DeleteModule,
            Form::Delete(_) => Action::Write(true, Folding::Returning),
        },
    )
}

/// What timing a compiled form runs, in its two parts: what finds the rows, and
/// what applies the write.
///
/// An update and a delete of a module's rows are timed as nothing.
pub fn timed_parts(form: Form) -> (parts: (bool, Action))
    ensures
        parts.0 == (form is Update || form is Delete || (form matches Form::Insert(from_query, _)
            && from_query)),
        parts.1 == (match form {
            Form::QueryPlan => Action::Nothing,
            Form::Program => Action::Nothing,
            Form::VirtualUpdate => Action::Nothing,
            Form::VirtualDelete => Action::Nothing,
            Form::Insert(_, _) => Action::Write(parts.0, Folding::Nothing),
            Form::Update(_, _, _) => Action::Write(true, Folding::Nothing),
            Form::Delete(_) => Action::Write(true, Folding::Nothing),
            _ => action_of(form),
        }),
{
    match form {
        Form::Nothing => (false, Action::Nothing),
        Form::Ddl => (false, Action::Directive),
        Form::QueryPlan => (false, Action::Nothing),
        Form::Program => (false, Action::Nothing),
        Form::VirtualInsert => (false, Action::InsertModule),
        Form::SchemaInsert => (false, Action::InsertSchema),
        Form::Select => (false, Action::Query),
        Form::Insert(from_query, _) => (from_query, Action::Write(from_query, Folding::Nothing)),
        Form::Update(_, _, _) => (true, Action::Write(true, Folding::Nothing)),
        Form::Delete(_) => (true, Action::Write(true, Folding::Nothing)),
        Form::VirtualUpdate => (false, Action::Nothing),
        Form::VirtualDelete => (false, Action::Nothing),
    }
}

/// A connection told to answer queries only refuses every write of a table, of a
/// module and of the catalog, and no query.
pub proof fn only_queries_are_answered(bound: Bound, sql: Seq<char>)
    ensures
        kind_writes(bound.kind) ==> form_writes(form_of(bound), sql),
        bound.kind is Select || bound.kind is Empty ==> !form_writes(form_of(bound), sql),
{
}

/// Whether a kind of statement writes a table.
pub open spec fn kind_writes(kind: BoundKind) -> bool {
    kind is Insert || kind is Update || kind is Delete
}

/// Refuses a write to the catalog that may not be made.
///
/// It takes a connection told to allow it, and even there a row may be added and
/// none changed.
pub fn refuse_schema_write(bound: &Bound, writable: bool) -> (answer: Result<(), Refusal>)
    ensures
        answer == (if !kind_writes(bound.kind) || !schema_name(bound.folded@) {
            Ok::<(), Refusal>(())
        } else if !writable {
            Err::<(), Refusal>(Refusal::SchemaNotWritable)
        } else if !(bound.kind is Insert) {
            Err::<(), Refusal>(Refusal::SchemaInsertOnly)
        } else {
            Ok::<(), Refusal>(())
        }),
        answer is Err <==> (bound.kind is Insert || bound.kind is Update || bound.kind is Delete)
            && (bound.folded@ == ascii("sqlite_schema") || bound.folded@ == ascii("sqlite_master"))
            && (!writable || !(bound.kind is Insert)),
        answer is Err && !writable ==> answer == Err::<(), Refusal>(Refusal::SchemaNotWritable),
        answer is Err && writable ==> answer == Err::<(), Refusal>(Refusal::SchemaInsertOnly),
{
    let inserting: bool = match bound.kind {
        BoundKind::Insert => true,
        BoundKind::Update => false,
        BoundKind::Delete => false,
        _ => return Ok(()),
    };
    if !is_the_schema_table(bound.folded.as_slice()) {
        return Ok(());
    }
    if !writable {
        return Err(Refusal::SchemaNotWritable);
    }
    if !inserting {
        return Err(Refusal::SchemaInsertOnly);
    }
    Ok(())
}

/// Returns the table whose write has to be allowed, when there is one: on a
/// connection that defends its modules, a table one of them owns.
pub fn shadow_write(bound: &Bound, defensive: bool, shadow: bool) -> (asked: bool)
    ensures
        asked == (defensive && kind_writes(bound.kind) && shadow),
        asked <==> defensive && shadow && (bound.kind is Insert || bound.kind is Update
            || bound.kind is Delete),
{
    let writes: bool = match bound.kind {
        BoundKind::Insert => true,
        BoundKind::Update => true,
        BoundKind::Delete => true,
        _ => false,
    };
    defensive && writes && shadow
}

/// What a table a statement names is called, beside its name.
#[derive(Clone, Copy, Debug, PartialEq, Eq, Structural)]
pub enum SourceWord {
    /// A table.
    Table,
    /// A view.
    View,
}

/// Returns what a table a query reads is called.
pub fn source_word(kind: TableKind) -> (word: SourceWord)
    ensures
        word == word_of(kind),
        word is View <==> kind is View,
{
    match kind {
        TableKind::View => SourceWord::View,
        _ => SourceWord::Table,
    }
}

/// What each named table is.
pub open spec fn sources_of(sources: Seq<(SourceWord, Vec<u8>)>) -> Seq<(SourceWord, Seq<u8>)> {
    sources.map_values(|source: (SourceWord, Vec<u8>)| (source.0, source.1@))
}

/// A query: the tables and views it names, and the queries inside it, a view's
/// own among them.
#[derive(Debug)]
pub struct Query {
    /// What each of its sources is, and its name.
    pub sources: Vec<(TableKind, Vec<u8>)>,
    /// The queries inside it.
    pub inner: Vec<Query>,
}

/// What a table a query reads is called.
pub open spec fn word_of(kind: TableKind) -> SourceWord {
    if kind is View {
        SourceWord::View
    } else {
        SourceWord::Table
    }
}

/// The tables and views a query names itself.
pub open spec fn named_in(query: Query) -> Seq<(SourceWord, Seq<u8>)> {
    Seq::new(
        query.sources@.len(),
        |i: int| (word_of(query.sources@[i].0), query.sources@[i].1@),
    )
}

/// The tables and views a query reads, its own before those of the queries
/// inside it.
pub open spec fn read_by(query: Query) -> Seq<(SourceWord, Seq<u8>)>
    decreases query, query.inner@.len() + 1,
{
    named_in(query) + read_inside(query, query.inner@.len() as int)
}

/// The tables and views that the first queries inside a query read.
pub open spec fn read_inside(query: Query, upto: int) -> Seq<(SourceWord, Seq<u8>)>
    decreases query, upto,
{
    if upto <= 0 || upto > query.inner@.len() {
        seq![]
    } else {
        read_inside(query, upto - 1) + read_by(query.inner@[upto - 1])
    }
}

/// Adds every table and view a query reads to a list.
///
/// The queries inside it are gone through too: a table a subquery reads is a
/// table the statement uses.
pub fn collect_sources(query: &Query, into: &mut Vec<(SourceWord, Vec<u8>)>)
    ensures
        sources_of(final(into)@) == sources_of(old(into)@) + read_by(*query),
    decreases query,
{
    let ghost before = sources_of(into@);
    assert(before + named_in(*query).take(0) =~= before);
    for at in 0..query.sources.len()
        invariant
            sources_of(into@) =~= before + named_in(*query).take(at as int),
    {
        let ghost some = into@;
        into.push((source_word(query.sources[at].0), copied(&query.sources[at].1)));
        assert(sources_of(into@) =~= sources_of(some).push(named_in(*query)[at as int]));
        assert(named_in(*query).take(at + 1) =~= named_in(*query).take(at as int).push(
            named_in(*query)[at as int],
        ));
    }
    assert(named_in(*query).take(query.sources@.len() as int) =~= named_in(*query));
    let ghost own = before + named_in(*query);
    assert(sources_of(into@) =~= own + read_inside(*query, 0));
    for at in 0..query.inner.len()
        invariant
            sources_of(into@) =~= own + read_inside(*query, at as int),
    {
        assert(decreases_to!(query => query.inner@[at as int]));
        collect_sources(&query.inner[at], into);
        assert(read_inside(*query, at + 1) == read_inside(*query, at as int) + read_by(
            query.inner@[at as int],
        ));
    }
    assert(own + read_inside(*query, query.inner@.len() as int) =~= before + read_by(*query));
}

/// A list with each thing once, where it is first.
pub open spec fn each_once(sources: Seq<(SourceWord, Seq<u8>)>) -> Seq<(SourceWord, Seq<u8>)>
    decreases sources.len(),
{
    if sources.len() == 0 {
        seq![]
    } else {
        let before = each_once(sources.drop_last());
        if before.contains(sources.last()) {
            before
        } else {
            before.push(sources.last())
        }
    }
}

/// Returns whether a list holds a source.
fn holds_source(sources: &[(SourceWord, Vec<u8>)], word: SourceWord, name: &[u8]) -> (held: bool)
    ensures
        held == sources_of(sources@).contains((word, name@)),
{
    let ghost all = sources_of(sources@);
    for at in 0..sources.len()
        invariant
            all == sources_of(sources@),
            forall|i: int| 0 <= i < at ==> #[trigger] all[i] != (word, name@),
    {
        let source = &sources[at];
        assert(all[at as int] == (source.0, source.1@));
        if source.0 == word && same(source.1.as_slice(), name) {
            return true;
        }
    }
    assert forall|i: int| 0 <= i < all.len() implies #[trigger] all[i] != (word, name@) by {}
    false
}

/// The tables and views a statement names, the one it writes first.
pub open spec fn named_by(read: Seq<Query>, written: Option<Seq<u8>>) -> Seq<(SourceWord, Seq<u8>)> {
    (match written {
        Some(target) => seq![(SourceWord::Table, target)],
        None => seq![],
    }) + read_by_all(read)
}

/// The tables and views some queries read.
pub open spec fn read_by_all(queries: Seq<Query>) -> Seq<(SourceWord, Seq<u8>)>
    decreases queries.len(),
{
    if queries.len() == 0 {
        seq![]
    } else {
        read_by_all(queries.drop_last()) + read_by(queries.last())
    }
}

/// Returns the tables and views a statement reads or writes, each once, the one
/// it writes first.
///
/// `read` holds the queries it runs: its own when it is a query, the one it takes
/// its rows from when it is a write.
pub fn statement_tables(read: &[Query], written: Option<&[u8]>) -> (names: Vec<
    (SourceWord, Vec<u8>),
>)
    ensures
        sources_of(names@) == each_once(
            named_by(
                read@,
                match written {
                    Some(target) => Some(target@),
                    None => None,
                },
            ),
        ),
{
    let mut all: Vec<(SourceWord, Vec<u8>)> = Vec::new();
    if let Some(target) = written {
        all.push((SourceWord::Table, copied(target)));
    }
    let ghost first = sources_of(all@);
    assert(first =~= match written {
        Some(target) => seq![(SourceWord::Table, target@)],
        None => seq![],
    });
    assert(first + read_by_all(read@.take(0)) =~= first);
    for at in 0..read.len()
        invariant
            sources_of(all@) =~= first + read_by_all(read@.take(at as int)),
    {
        assert(read@.take(at + 1).drop_last() =~= read@.take(at as int));
        assert(read@.take(at + 1).last() == read@[at as int]);
        collect_sources(&read[at], &mut all);
    }
    assert(read@.take(read@.len() as int) =~= read@);
    let ghost whole = sources_of(all@);
    let mut names: Vec<(SourceWord, Vec<u8>)> = Vec::new();
    assert(whole.take(0) =~= seq![]);
    for at in 0..all.len()
        invariant
            whole == sources_of(all@),
            sources_of(names@) =~= each_once(whole.take(at as int)),
    {
        assert(whole.take(at + 1).drop_last() =~= whole.take(at as int));
        assert(whole.take(at + 1).last() == whole[at as int]);
        let source = &all[at];
        assert(whole[at as int] == (source.0, source.1@));
        if !holds_source(names.as_slice(), source.0, source.1.as_slice()) {
            let ghost before = names@;
            names.push((source.0, copied(source.1.as_slice())));
            assert(sources_of(names@) =~= sources_of(before).push(whole[at as int]));
        }
    }
    assert(whole.take(whole.len() as int) =~= whole);
    names
}

/// A statement's tables are listed once each, and all of them are.
pub proof fn every_table_is_listed_once(
    sources: Seq<(SourceWord, Seq<u8>)>,
    source: (SourceWord, Seq<u8>),
)
    ensures
        each_once(sources).no_duplicates(),
        each_once(sources).contains(source) <==> sources.contains(source),
    decreases sources.len(),
{
    if sources.len() > 0 {
        let some = sources.drop_last();
        let before = each_once(some);
        let last = sources.last();
        every_table_is_listed_once(some, source);
        every_table_is_listed_once(some, last);
        assert(sources =~= some.push(last));
        if sources.contains(source) && source != last {
            let i = choose|i: int| 0 <= i < sources.len() && sources[i] == source;
            assert(some[i] == source);
        }
        if some.contains(source) {
            let i = choose|i: int| 0 <= i < some.len() && some[i] == source;
            assert(sources[i] == source);
        }
        assert(sources[some.len() as int] == last);
        if !before.contains(last) {
            let after = before.push(last);
            assert(after[before.len() as int] == last);
            if before.contains(source) {
                let i = choose|i: int| 0 <= i < before.len() && before[i] == source;
                assert(after[i] == source);
            }
            if after.contains(source) && source != last {
                let i = choose|i: int| 0 <= i < after.len() && after[i] == source;
                assert(before[i] == source);
            }
        }
    }
}

/// Refuses to plan a statement that is no query.
pub fn plan(kind: BoundKind, sql: &[u8]) -> (planned: Result<(), Refusal>)
    ensures
        match planned {
            Ok(_) => kind is Select,
            Err(refusal) => {
                &&& !(kind is Select)
                &&& refusal matches Refusal::NotReadOnly(said)
                &&& said@ == sql@
            },
        },
{
    match kind {
        BoundKind::Select => Ok(()),
        _ => Err(Refusal::NotReadOnly(copied(sql))),
    }
}

/// Returns how many columns a statement answers with, none unless it is a query
/// that could be compiled, and whether it only reads, which it is taken to where
/// that could not be found out.
pub fn statement_shape(columns: Option<usize>, written: Option<bool>) -> (shape: (i64, bool))
    requires
        columns matches Some(count) ==> count <= i64::MAX,
    ensures
        shape.0 == (match columns {
            Some(count) => count as int,
            None => 0,
        }),
        shape.1 == (written != Some(true)),
{
    let count: i64 = match columns {
        Some(count) => count as i64,
        None => 0,
    };
    let reads: bool = match written {
        Some(writes) => !writes,
        None => true,
    };
    (count, reads)
}

/// A statement compiled once and run many times.
#[derive(Clone, Copy, Debug, PartialEq, Eq, Structural)]
pub struct Statement {
    /// The plan it was compiled to, by the number it is found by.
    pub plan: u64,
    /// The schema it was compiled against.
    pub generation: u64,
}

impl Statement {
    /// Reports whether a statement has to be compiled again: the schema is not
    /// the one it was compiled against.
    pub fn is_stale(&self, generation: u64) -> (stale: bool)
        ensures
            stale == (self.generation != generation),
    {
        self.generation != generation
    }

    /// Gives a statement the plan it was compiled to again.
    pub fn refresh(&mut self, plan: u64, generation: u64)
        ensures
            *final(self) == (Statement { plan, generation }),
    {
        self.plan = plan;
        self.generation = generation;
    }
}

/// The rowids a module is told to delete: the first value of each key.
pub open spec fn deleted_rowids(keys: Seq<Seq<Value>>) -> Seq<Value>
    decreases keys.len(),
{
    if keys.len() == 0 {
        Seq::empty()
    } else if keys.last().len() == 0 {
        deleted_rowids(keys.drop_last())
    } else {
        deleted_rowids(keys.drop_last()).push(keys.last()[0])
    }
}

/// Returns the rowids a module is told to delete, from the keys that were found.
pub fn delete_from_module(keys: &[Vec<OwnedDatum>]) -> (rowids: Vec<OwnedDatum>)
    ensures
        owned_row(rowids@) == deleted_rowids(owned_rows(keys@)),
        (forall|i: int| 0 <= i < keys@.len() ==> (#[trigger] keys@[i])@.len() > 0)
            ==> rowids@.len() == keys@.len() && (forall|i: int|
            0 <= i < keys@.len() ==> (#[trigger] rowids@[i])@ == keys@[i]@[0]@),
{
    let mut rowids: Vec<OwnedDatum> = Vec::new();
    let ghost all = owned_rows(keys@);
    for at in 0..keys.len()
        invariant
            all == owned_rows(keys@),
            owned_row(rowids@) =~= deleted_rowids(all.take(at as int)),
    {
        let ghost more = all.take(at + 1);
        assert(more.drop_last() =~= all.take(at as int));
        assert(more.last() == all[at as int]);
        assert(all[at as int] == owned_row(keys@[at as int]@));
        if keys[at].len() > 0 {
            let ghost before = rowids@;
            rowids.push(keys[at][0].duplicate());
            assert(owned_row(rowids@) =~= owned_row(before).push(all[at as int][0]));
        }
    }
    assert(all.take(all.len() as int) =~= all);
    proof {
        if forall|i: int| 0 <= i < keys@.len() ==> (#[trigger] keys@[i])@.len() > 0 {
            assert forall|i: int| 0 <= i < all.len() implies (#[trigger] all[i]).len() > 0 by {
                assert(all[i] == owned_row(keys@[i]@));
                assert(keys@[i]@.len() > 0);
            }
            every_key_gives_its_rowid(all);
            let told = owned_row(rowids@);
            assert(told.len() == rowids@.len());
            assert forall|i: int| 0 <= i < keys@.len() implies (#[trigger] rowids@[i])@
                == keys@[i]@[0]@ by {
                assert(told[i] == rowids@[i]@);
                assert(all[i] == owned_row(keys@[i]@));
                assert(keys@[i]@.len() > 0);
                assert(all[i][0] == keys@[i]@[0]@);
            }
        }
    }
    rowids
}

impl Writing {
    /// Starts settling the foreign keys, unless they are being settled already,
    /// and reports whether it did.
    pub fn start_settling(&mut self) -> (started: bool)
        ensures
            started == !old(self)@.settling,
            final(self)@ == (Ledger { settling: true, ..old(self)@ }),
    {
        let started: bool = !self.settling;
        self.settling = true;
        started
    }

    /// Ends settling the foreign keys, however it went.
    pub fn end_settling(&mut self)
        ensures
            final(self)@ == (Ledger { settling: false, ..old(self)@ }),
    {
        self.settling = false;
    }
}

/// Where every key holds something, its first value is its rowid.
proof fn every_key_gives_its_rowid(keys: Seq<Seq<Value>>)
    requires
        forall|i: int| 0 <= i < keys.len() ==> (#[trigger] keys[i]).len() > 0,
    ensures
        deleted_rowids(keys).len() == keys.len(),
        forall|i: int| 0 <= i < keys.len() ==> #[trigger] deleted_rowids(keys)[i] == keys[i][0],
    decreases keys.len(),
{
    if keys.len() > 0 {
        let fewer = keys.drop_last();
        assert forall|i: int| 0 <= i < fewer.len() implies (#[trigger] fewer[i]).len() > 0 by {
            assert(fewer[i] == keys[i]);
        }
        every_key_gives_its_rowid(fewer);
        assert(keys[keys.len() - 1].len() > 0);
        assert forall|i: int| 0 <= i < keys.len() implies #[trigger] deleted_rowids(keys)[i]
            == keys[i][0] by {
            if i < fewer.len() {
                assert(deleted_rowids(fewer)[i] == fewer[i][0]);
            }
        }
    }
}

/// An empty key is passed over, and the others keep their order.
pub proof fn an_empty_key_is_passed_over(keys: Seq<Seq<Value>>, key: Seq<Value>)
    ensures
        deleted_rowids(Seq::empty()).len() == 0,
        key.len() == 0 ==> deleted_rowids(keys.push(key)) == deleted_rowids(keys),
        key.len() > 0 ==> deleted_rowids(keys.push(key)) == deleted_rowids(keys) + seq![key[0]],
{
    assert(keys.push(key).drop_last() =~= keys);
    assert(keys.push(key).last() == key);
    if key.len() > 0 {
        assert(deleted_rowids(keys.push(key)) =~= deleted_rowids(keys) + seq![key[0]]);
    }
}

/// A statement's first word is what stands between the white space before it and the
/// white space after it.
pub proof fn a_head_word_stands_between_white_space(
    before: Seq<char>,
    word: Seq<char>,
    after: Seq<char>,
)
    requires
        forall|i: int| 0 <= i < before.len() ==> white(#[trigger] before[i]),
        forall|i: int| 0 <= i < word.len() ==> !white(#[trigger] word[i]),
        after.len() > 0 ==> white(after[0]),
        word.len() == 0 ==> after.len() == 0,
    ensures
        head_word(before + word + after) == word,
{
    let text = before + word + after;
    let at = before.len() as int;
    assert forall|i: int| 0 <= i < at implies white(text[i]) by {
        assert(text[i] == before[i]);
    }
    if at < text.len() {
        assert(text[at] == word[0]);
    }
    crate::text::white_ends_at(text, at);
    let rest = text.skip(at);
    assert(rest =~= word + after);
    assert forall|i: int| 0 <= i < word.len() implies !white(rest[i]) by {
        assert(rest[i] == word[i]);
    }
    if word.len() < rest.len() {
        assert(rest[word.len() as int] == after[0]);
    }
    dark_ends_at(rest, word.len() as int);
    assert(rest.take(word.len() as int) =~= word);
}

/// A source named again is not listed again, and a new one is listed last.
pub proof fn sources_are_listed_as_they_come(
    sources: Seq<(SourceWord, Seq<u8>)>,
    source: (SourceWord, Seq<u8>),
)
    ensures
        each_once(Seq::empty()).len() == 0,
        sources.contains(source) ==> each_once(sources.push(source)) == each_once(sources),
        !sources.contains(source) ==> each_once(sources.push(source)) == each_once(sources) + seq![
            source,
        ],
{
    every_table_is_listed_once(sources, source);
    assert(sources.push(source).drop_last() =~= sources);
    assert(sources.push(source).last() == source);
    if !sources.contains(source) {
        assert(each_once(sources.push(source)) =~= each_once(sources) + seq![source]);
    }
}

/// A query reads what it names, first and in order, and then what the queries inside it
/// read.
pub proof fn a_query_reads_what_it_names(
    query: Query,
    at: int,
    inner: int,
    source: (SourceWord, Seq<u8>),
)
    ensures
        0 <= at < query.sources@.len() ==> {
            &&& at < read_by(query).len()
            &&& read_by(query)[at].1 == query.sources@[at].1@
            &&& read_by(query)[at].0 is View <==> query.sources@[at].0 is View
        },
        query.inner@.len() == 0 ==> read_by(query).len() == query.sources@.len(),
        0 <= inner < query.inner@.len() && read_by(query.inner@[inner]).contains(source)
            ==> read_by(query).contains(source),
{
    let named = named_in(query);
    let many = query.inner@.len() as int;
    let inside = read_inside(query, many);
    assert(read_by(query) == named + inside);
    if 0 <= at < query.sources@.len() {
        assert(read_by(query)[at] == named[at]);
    }
    if 0 <= inner < many && read_by(query.inner@[inner]).contains(source) {
        let k = what_is_inside_is_read(query, many, inner, source);
        assert(read_by(query)[named.len() + k] == source);
    }
}

/// Where a source of an inner query stands among those read inside.
proof fn what_is_inside_is_read(
    query: Query,
    upto: int,
    inner: int,
    source: (SourceWord, Seq<u8>),
) -> (at: int)
    requires
        0 <= inner < upto <= query.inner@.len(),
        read_by(query.inner@[inner]).contains(source),
    ensures
        0 <= at < read_inside(query, upto).len(),
        read_inside(query, upto)[at] == source,
    decreases upto,
{
    let before = read_inside(query, upto - 1);
    let last = read_by(query.inner@[upto - 1]);
    assert(read_inside(query, upto) == before + last);
    if inner == upto - 1 {
        let k = choose|k: int| 0 <= k < last.len() && last[k] == source;
        assert((before + last)[before.len() + k] == source);
        before.len() + k
    } else {
        let k = what_is_inside_is_read(query, upto - 1, inner, source);
        assert((before + last)[k] == source);
        k
    }
}

/// The table a statement writes is the first of those it names, and after it come those
/// its queries read, query by query.
pub proof fn a_statement_names_what_it_writes_first(
    before: Seq<Query>,
    query: Query,
    written: Option<Seq<u8>>,
)
    ensures
        named_by(before.push(query), written) == named_by(before, written) + read_by(query),
        written is Some ==> named_by(Seq::empty(), written) == seq![
            (SourceWord::Table, written->Some_0),
        ],
        written is None ==> named_by(Seq::empty(), written).len() == 0,
{
    assert(before.push(query).drop_last() =~= before);
    assert(before.push(query).last() == query);
    assert(named_by(before.push(query), written) =~= named_by(before, written) + read_by(query));
    if written is Some {
        assert(named_by(Seq::empty(), written) =~= seq![(SourceWord::Table, written->Some_0)]);
    }
}

} // verus!
