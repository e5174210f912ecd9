//! What the engine says when it will not do a thing.

use vstd::prelude::*;

use crate::text::{append, append_shown, ascii, copied, shown, signed_decimal, write_signed};

verus! {

/// A thing the engine will not do, and why.
#[derive(Debug)]
pub enum Refusal {
    /// A savepoint of a name nobody made.
    NoSuchSavepoint(Vec<u8>),
    /// A tree of `main`, past the last that can be named.
    TooManyObjects,
    /// A tree outside `main`, past the last that can be named.
    TooManyAttached,
    /// A statement on a database that is not attached.
    StatementNotAttached,
    /// A write to a database that is not attached.
    WriteNotAttached,
    /// An undo in a database that is not attached.
    RollbackNotAttached,
    /// A catalog that is not the one that was written.
    CatalogReadBack,
    /// A journal mode changed inside a transaction.
    JournalInTransaction,
    /// A journal that a connection that may only read cannot replay.
    HotJournal,
    /// A write to a table whose layout nobody has.
    NoLayout,
    /// A write on a connection told not to write.
    ReadOnly,
    /// Foreign keys whose actions never came to rest.
    SweepUnsettled,
    /// A foreign key whose parent row is not there.
    ForeignKeyFailed,
    /// A write to the catalog on a connection not told to allow it.
    SchemaNotWritable,
    /// A write to the catalog that is no insert.
    SchemaInsertOnly,
    /// A pragma on a database that is not attached.
    PragmaNotAttached,
    /// A delete from a view that says no rows.
    ViewDeleteWithoutQuery,
    /// A tree of a database that is not attached.
    TreeNotAttached,
    /// A pragma with one value, given another: its name, its value and what it
    /// was given.
    FixedNumber(Vec<u8>, i64, Vec<u8>),
    /// A known pragma the engine does not answer.
    PragmaNotBuilt(Vec<u8>),
    /// A table the connection answers itself, read inside a write.
    InsideWrite(Vec<u8>),
    /// A statement that is planned as a query and is none.
    NotReadOnly(Vec<u8>),
    /// A table of a source whose rows could not be read.
    RowsUnreadable(Vec<u8>),
    /// An index of a name nobody made.
    NoSuchIndex(Vec<u8>),
    /// A table of a name nobody made.
    NoSuchTable(Vec<u8>),
    /// An undo that left objects without their trees.
    RollbackLost(Vec<Vec<u8>>),
}

/// What kind of failure a refusal is.
#[derive(Clone, Copy, Debug, PartialEq, Eq, Structural)]
pub enum Class {
    /// What was asked cannot be done here.
    Misuse,
    /// A file does not hold what it has to.
    Corrupt,
    /// What was asked would write where nothing may be written.
    ReadOnly,
    /// What was asked would leave rows a constraint forbids.
    Constraint,
    /// What a source failed with while it was read, whatever that was.
    Source,
}

/// Some names in a row, with a comma and a space between each two.
pub open spec fn listed(names: Seq<Vec<u8>>) -> Seq<u8>
    decreases names.len(),
{
    if names.len() == 0 {
        Seq::empty()
    } else if names.len() == 1 {
        names[0]@
    } else {
        listed(names.drop_last()) + ascii(", ") + names.last()@
    }
}

/// Writes some names in a row.
fn write_list(names: &[Vec<u8>], out: &mut Vec<u8>)
    ensures
        final(out)@ == old(out)@ + listed(names@),
{
    let ghost before = out@;
    assert(before + listed(names@.take(0)) =~= before);
    for at in 0..names.len()
        invariant
            out@ =~= before + listed(names@.take(at as int)),
    {
        let ghost more = names@.take(at + 1);
        assert(more.drop_last() =~= names@.take(at as int));
        assert(more.last() == names@[at as int]);
        if at > 0 {
            append(out, ", ".as_bytes());
        }
        append(out, names[at].as_slice());
    }
    assert(names@.take(names@.len() as int) =~= names@);
}

impl Refusal {
    /// What the refusal says.
    pub open spec fn said(&self) -> Seq<u8> {
        match self {
            Refusal::NoSuchSavepoint(name) => ascii("no such savepoint: ") + shown(name@),
            Refusal::TooManyObjects => ascii(
                "this database holds too many objects for one connection to name them all",
            ),
            Refusal::TooManyAttached => ascii(
                "this connection holds too many attached objects to name them all",
            ),
            Refusal::StatementNotAttached => ascii(
                "a statement names a database that is not attached",
            ),
            Refusal::WriteNotAttached => ascii("a write names a database that is not attached"),
            Refusal::RollbackNotAttached => ascii(
                "a rollback names a database that is not attached",
            ),
            Refusal::CatalogReadBack => ascii(
                "the catalog read back from the file is not the one written to it",
            ),
            Refusal::JournalInTransaction => ascii(
                "cannot change PRAGMA journal_mode from within a transaction",
            ),
            Refusal::HotJournal => ascii(
                "this database has a rollback journal from an interrupted write, and a read only connection cannot replay it; open it for writing once to recover it",
            ),
            Refusal::NoLayout => ascii(
                "no layout imported for the table being written",
            ),
            Refusal::ReadOnly => ascii(
                "attempt to write a readonly database",
            ),
            Refusal::SweepUnsettled => ascii(
                "a foreign key's action did not settle; the schema may have a cycle that cannot resolve",
            ),
            Refusal::ForeignKeyFailed => ascii(
                "FOREIGN KEY constraint failed",
            ),
            Refusal::SchemaNotWritable => ascii(
                "writing to sqlite_schema needs PRAGMA writable_schema = ON",
            ),
            Refusal::SchemaInsertOnly => ascii(
                "only an INSERT into sqlite_schema is built, not an UPDATE or a DELETE",
            ),
            Refusal::PragmaNotAttached => ascii(
                "that pragma names a database that is not attached",
            ),
            Refusal::ViewDeleteWithoutQuery => ascii(
                "a view delete with no query",
            ),
            Refusal::TreeNotAttached => ascii(
                "a tree names a database that is not attached",
            ),
            Refusal::FixedNumber(name, value, given) => ascii("this engine's ") + name@ + ascii(
                " is ",
            ) + signed_decimal(*value as int) + ascii(" and cannot be set to ") + given@,
            Refusal::PragmaNotBuilt(name) => ascii("PRAGMA ") + shown(name@) + ascii(
                " is not implemented by this engine",
            ),
            Refusal::InsideWrite(name) => shown(name@) + ascii(
                " cannot be read by a statement that runs inside a write, such as a trigger body or a subquery in an UPDATE's SET",
            ),
            Refusal::NotReadOnly(sql) => sql@ + ascii(" is not a read-only statement"),
            Refusal::RowsUnreadable(name) => ascii("the rows of ") + shown(name@) + ascii(
                " could not be read from the source database",
            ),
            Refusal::NoSuchIndex(name) => ascii("no such index: ") + name@,
            Refusal::NoSuchTable(name) => ascii("no such table: ") + name@,
            Refusal::RollbackLost(names) => ascii("rolling back left ") + listed(names@) + ascii(
                " in the schema with no tree attached;                  undoing a DROP inside a transaction is not supported yet",
            ),
        }
    }

    /// What kind of failure the refusal is.
    pub open spec fn kind(&self) -> Class {
        match self {
            Refusal::CatalogReadBack => Class::Corrupt,
            Refusal::ReadOnly => Class::ReadOnly,
            Refusal::ForeignKeyFailed => Class::Constraint,
            Refusal::RowsUnreadable(_) => Class::Source,
            _ => Class::Misuse,
        }
    }

    /// What is not built, where that is why the refusal is made.
    pub open spec fn gap(&self) -> Option<Seq<u8>> {
        match self {
            Refusal::SchemaInsertOnly => Some(ascii("changing a row of sqlite_schema")),
            Refusal::InsideWrite(name) => Some(
                ascii("reading ") + shown(name@) + ascii(" inside a write"),
            ),
            _ => None,
        }
    }

    /// Returns what kind of failure the refusal is.
    pub fn class(&self) -> (class: Class)
        ensures
            class == self.kind(),
            class is Corrupt <==> self is CatalogReadBack,
            class is ReadOnly <==> self is ReadOnly,
            class is Constraint <==> self is ForeignKeyFailed,
            class is Source <==> self is RowsUnreadable,
    {
        match self {
            Refusal::CatalogReadBack => Class::Corrupt,
            Refusal::ReadOnly => Class::ReadOnly,
            Refusal::ForeignKeyFailed => Class::Constraint,
            Refusal::RowsUnreadable(_) => Class::Source,
            _ => Class::Misuse,
        }
    }

    /// Returns what is not built, where that is why the refusal is made: a caller
    /// has to tell it from a mistake without reading the sentence.
    pub fn unsupported(&self) -> (what: Option<Vec<u8>>)
        ensures
            match what {
                Some(said) => self.gap() == Some(said@),
                None => self.gap() is None,
            },
            what is Some <==> self is SchemaInsertOnly || self is InsideWrite,
            self is SchemaInsertOnly ==> what->Some_0@ == ascii("changing a row of sqlite_schema"),
            self matches Refusal::InsideWrite(name) ==> what->Some_0@ == ascii("reading ") + shown(
                name@,
            ) + ascii(" inside a write"),
    {
        match self {
            Refusal::SchemaInsertOnly => Some(copied("changing a row of sqlite_schema".as_bytes())),
            Refusal::InsideWrite(name) => {
                let mut said = copied("reading ".as_bytes());
                append_shown(&mut said, name.as_slice());
                append(&mut said, " inside a write".as_bytes());
                Some(said)
            },
            _ => None,
        }
    }

    /// Returns what the refusal says.
    pub fn message(&self) -> (said: Vec<u8>)
        ensures
            said@ == self.said(),
            self matches Refusal::NoSuchSavepoint(name) ==> said@ == ascii("no such savepoint: ")
                + shown(name@),
            self is TooManyObjects ==> said@ == ascii(
                "this database holds too many objects for one connection to name them all",
            ),
            self is TooManyAttached ==> said@ == ascii(
                "this connection holds too many attached objects to name them all",
            ),
            self is StatementNotAttached ==> said@ == ascii(
                "a statement names a database that is not attached",
            ),
            self is WriteNotAttached ==> said@
                == ascii("a write names a database that is not attached"),
            self is RollbackNotAttached ==> said@ == ascii(
                "a rollback names a database that is not attached",
            ),
            self is CatalogReadBack ==> said@ == ascii(
                "the catalog read back from the file is not the one written to it",
            ),
            self is JournalInTransaction ==> said@ == ascii(
                "cannot change PRAGMA journal_mode from within a transaction",
            ),
            self is HotJournal ==> said@ == ascii(
                "this database has a rollback journal from an interrupted write, and a read only connection cannot replay it; open it for writing once to recover it",
            ),
            self is NoLayout ==> said@ == ascii(
                "no layout imported for the table being written",
            ),
            self is ReadOnly ==> said@ == ascii(
                "attempt to write a readonly database",
            ),
            self is SweepUnsettled ==> said@ == ascii(
                "a foreign key's action did not settle; the schema may have a cycle that cannot resolve",
            ),
            self is ForeignKeyFailed ==> said@ == ascii(
                "FOREIGN KEY constraint failed",
            ),
            self is SchemaNotWritable ==> said@ == ascii(
                "writing to sqlite_schema needs PRAGMA writable_schema = ON",
            ),
            self is SchemaInsertOnly ==> said@ == ascii(
                "only an INSERT into sqlite_schema is built, not an UPDATE or a DELETE",
            ),
            self is PragmaNotAttached ==> said@ == ascii(
                "that pragma names a database that is not attached",
            ),
            self is ViewDeleteWithoutQuery ==> said@ == ascii(
                "a view delete with no query",
            ),
            self is TreeNotAttached ==> said@ == ascii(
                "a tree names a database that is not attached",
            ),
            self matches Refusal::FixedNumber(name, value, given) ==> said@
                == ascii("this engine's ") + name@ + ascii(
                " is ",
            ) + signed_decimal(value as int) + ascii(" and cannot be set to ") + given@,
            self matches Refusal::PragmaNotBuilt(name) ==> said@ == ascii("PRAGMA ") + shown(name@)
                + ascii(
                " is not implemented by this engine",
            ),
            self matches Refusal::InsideWrite(name) ==> said@ == shown(name@) + ascii(
                " cannot be read by a statement that runs inside a write, such as a trigger body or a subquery in an UPDATE's SET",
            ),
            self matches Refusal::NotReadOnly(sql) ==> said@ == sql@
                + ascii(" is not a read-only statement"),
            self matches Refusal::RowsUnreadable(name) ==> said@ == ascii("the rows of ")
                + shown(name@) + ascii(
                " could not be read from the source database",
            ),
            self matches Refusal::NoSuchIndex(name) ==> said@ == ascii("no such index: ") + name@,
            self matches Refusal::NoSuchTable(name) ==> said@ == ascii("no such table: ") + name@,
            self matches Refusal::RollbackLost(names) ==> said@ == ascii("rolling back left ")
                + listed(names@) + ascii(
                " in the schema with no tree attached;                  undoing a DROP inside a transaction is not supported yet",
            ),
    {
        let mut said: Vec<u8> = Vec::new();
        match self {
            Refusal::NoSuchSavepoint(name) => {
                append(&mut said, "no such savepoint: ".as_bytes());
                append_shown(&mut said, name.as_slice());
            },
            Refusal::TooManyObjects => append(
                &mut said,
                "this database holds too many objects for one connection to name them all".as_bytes(),
            ),
            Refusal::TooManyAttached => append(
                &mut said,
                "this connection holds too many attached objects to name them all".as_bytes(),
            ),
            Refusal::StatementNotAttached => append(
                &mut said,
                "a statement names a database that is not attached".as_bytes(),
            ),
            Refusal::WriteNotAttached => append(
                &mut said,
                "a write names a database that is not attached".as_bytes(),
            ),
            Refusal::RollbackNotAttached => append(
                &mut said,
                "a rollback names a database that is not attached".as_bytes(),
            ),
            Refusal::CatalogReadBack => append(
                &mut said,
                "the catalog read back from the file is not the one written to it".as_bytes(),
            ),
            Refusal::JournalInTransaction => append(
                &mut said,
                "cannot change PRAGMA journal_mode from within a transaction".as_bytes(),
            ),
            Refusal::HotJournal => append(
                &mut said,
                "this database has a rollback journal from an interrupted write, and a read only connection cannot replay it; open it for writing once to recover it".as_bytes(),
            ),
            Refusal::NoLayout => append(
                &mut said,
                "no layout imported for the table being written".as_bytes(),
            ),
            Refusal::ReadOnly => append(
                &mut said,
                "attempt to write a readonly database".as_bytes(),
            ),
            Refusal::SweepUnsettled => append(
                &mut said,
                "a foreign key's action did not settle; the schema may have a cycle that cannot resolve".as_bytes(),
            ),
            Refusal::ForeignKeyFailed => append(
                &mut said,
                "FOREIGN KEY constraint failed".as_bytes(),
            ),
            Refusal::SchemaNotWritable => append(
                &mut said,
                "writing to sqlite_schema needs PRAGMA writable_schema = ON".as_bytes(),
            ),
            Refusal::SchemaInsertOnly => append(
                &mut said,
                "only an INSERT into sqlite_schema is built, not an UPDATE or a DELETE".as_bytes(),
            ),
            Refusal::PragmaNotAttached => append(
                &mut said,
                "that pragma names a database that is not attached".as_bytes(),
            ),
            Refusal::ViewDeleteWithoutQuery => append(
                &mut said,
                "a view delete with no query".as_bytes(),
            ),
            Refusal::TreeNotAttached => append(
                &mut said,
                "a tree names a database that is not attached".as_bytes(),
            ),
            Refusal::FixedNumber(name, value, given) => {
                append(&mut said, "this engine's ".as_bytes());
                append(&mut said, name.as_slice());
                append(&mut said, " is ".as_bytes());
                write_signed(*value, &mut said);
                append(&mut said, " and cannot be set to ".as_bytes());
                append(&mut said, given.as_slice());
            },
            Refusal::PragmaNotBuilt(name) => {
                append(&mut said, "PRAGMA ".as_bytes());
                append_shown(&mut said, name.as_slice());
                append(&mut said, " is not implemented by this engine".as_bytes());
            },
            Refusal::InsideWrite(name) => {
                append_shown(&mut said, name.as_slice());
                append(
                    &mut said,
                    " cannot be read by a statement that runs inside a write, such as a trigger body or a subquery in an UPDATE's SET".as_bytes(),
                );
            },
            Refusal::NotReadOnly(sql) => {
                append(&mut said, sql.as_slice());
                append(&mut said, " is not a read-only statement".as_bytes());
            },
            Refusal::RowsUnreadable(name) => {
                append(&mut said, "the rows of ".as_bytes());
                append_shown(&mut said, name.as_slice());
                append(&mut said, " could not be read from the source database".as_bytes());
            },
            Refusal::NoSuchIndex(name) => {
                append(&mut said, "no such index: ".as_bytes());
                append(&mut said, name.as_slice());
            },
            Refusal::NoSuchTable(name) => {
                append(&mut said, "no such table: ".as_bytes());
                append(&mut said, name.as_slice());
            },
            Refusal::RollbackLost(names) => {
                append(&mut said, "rolling back left ".as_bytes());
                write_list(names.as_slice(), &mut said);
                append(
                    &mut said,
                    " in the schema with no tree attached;                  undoing a DROP inside a transaction is not supported yet".as_bytes(),
                );
            },
        }
        said
    }
}

/// Why a text could not be made into a statement.
#[derive(Debug)]
pub enum FaultKind {
    /// It uses a construct that is not built, named here.
    Unsupported(Vec<u8>),
    /// It is wrong in itself, or the schema will not have it.
    Refused,
}

/// What the parser or the binder says of a text.
#[derive(Debug)]
pub struct Fault {
    /// Why.
    pub kind: FaultKind,
    /// The code it is reported under.
    pub code: i32,
    /// What it says.
    pub message: Vec<u8>,
    /// Where in the text the words it is about start.
    pub start: usize,
    /// Where they end.
    pub end: usize,
    /// Where in the text it points.
    pub offset: usize,
}

/// What a caller is told of a text that could not be made into a statement.
#[derive(Debug)]
pub struct Told {
    /// The code.
    pub code: i32,
    /// The sentence.
    pub message: Vec<u8>,
    /// The same sentence, for those that read the detail.
    pub detail: Vec<u8>,
    /// Where in the text it points, when it points anywhere.
    pub offset: Option<usize>,
    /// The construct that is not built, when that is why.
    pub unsupported: Option<Vec<u8>>,
}

/// Whether a fault is about no place in the text.
pub open spec fn placeless(fault: Fault) -> bool {
    fault.start == 0 && fault.end == 0
}

/// Returns what a caller is told of a text that could not be made into a
/// statement.
///
/// The code and the sentence are the fault's own. One that is about no place
/// points at none, and one about a construct that is not built says so: a caller
/// has to tell it from a mistake without reading the sentence.
pub fn refused(fault: Fault) -> (told: Told)
    ensures
        told.code == fault.code,
        told.message == fault.message,
        told.detail@ == fault.message@,
        told.offset == (if placeless(fault) {
            None
        } else {
            Some(fault.offset)
        }),
        told.offset is None <==> fault.start == 0 && fault.end == 0,
        told.unsupported == (match fault.kind {
            FaultKind::Unsupported(what) => Some(what),
            FaultKind::Refused => None,
        }),
{
    let offset: Option<usize> = if fault.start == 0 && fault.end == 0 {
        None
    } else {
        Some(fault.offset)
    };
    let detail = copied(fault.message.as_slice());
    let unsupported = match fault.kind {
        FaultKind::Unsupported(what) => Some(what),
        FaultKind::Refused => None,
    };
    Told { code: fault.code, message: fault.message, detail, offset, unsupported }
}

/// Names are listed in their order with a comma and a space between.
pub proof fn names_are_listed_in_order(names: Seq<Vec<u8>>, name: Vec<u8>)
    ensures
        listed(Seq::empty()).len() == 0,
        listed(seq![name]) == name@,
        names.len() > 0 ==> listed(names.push(name)) == listed(names) + ascii(", ") + name@,
{
    assert(names.push(name).drop_last() =~= names);
    assert(names.push(name).last() == name);
}

} // verus!
