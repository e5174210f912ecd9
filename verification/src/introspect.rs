//! The tables that describe statements: a plan's listing, the tables a statement
//! uses, the statements that are held, and what a word could be completed to.

use vstd::prelude::*;
use vstd::utf8::encode_utf8;

use crate::explain::{Line, Step};
use crate::plans::{Compiled, Shelf};
use crate::reattach::names_of;
use crate::refusals::Refusal;
use crate::schema::{Recorded, TableInfo};
use crate::sessions::{temp_of, SessionState, MAIN};
use crate::statements::{sources_of, SourceWord};
use crate::text::{ascii, begins, begins_with, copied, fold, folded, same};
use crate::values::{byte_order, compare_bytes, owned_row, owned_rows, Order, OwnedDatum, Value};

verus! {

broadcast use vstd::seq_lib::group_to_multiset_ensures;

/// The columns a listing is read through.
pub const BYTECODE_COLUMNS: [&'static str; 11] = [
    "addr",
    "opcode",
    "p1",
    "p2",
    "p3",
    "p4",
    "p5",
    "comment",
    "subprog",
    "nexec",
    "ncycle",
];

/// The columns the tables a statement uses are read through.
pub const TABLES_USED_COLUMNS: [&'static str; 5] = ["type", "schema", "name", "wr", "subprog"];

/// The columns the statements that are held are read through.
pub const STMT_COLUMNS: [&'static str; 11] = [
    "sql",
    "ncol",
    "ro",
    "busy",
    "nscan",
    "nsort",
    "naidx",
    "nstep",
    "reprep",
    "run",
    "mem",
];

/// The columns a word's completions are read through.
pub const COMPLETION_COLUMNS: [&'static str; 1] = ["candidate"];

/// The columns a word's completions take their arguments in.
pub const COMPLETION_HIDDEN: [&'static str; 3] = ["prefix", "wholeline", "phase"];

/// The phase of a keyword.
pub const PHASE_KEYWORD: i64 = 1;

/// The phase of a database's name.
pub const PHASE_DATABASE: i64 = 7;

/// The phase of a table's, a view's or a trigger's name.
pub const PHASE_TABLE: i64 = 8;

/// The phase of a column's name.
pub const PHASE_COLUMN: i64 = 9;

/// The row a listing read as a table gives one of its steps.
///
/// How often a step ran is not counted, so both counts are zero.
pub open spec fn bytecode_row(line: Line, address: int) -> Seq<Value> {
    seq![
        Value::Int(address as i64),
        Value::Text(encode_utf8(line.opcode)),
        Value::Int(line.p1 as i64),
        Value::Int(line.p2 as i64),
        Value::Int(0),
        Value::Text(encode_utf8(line.argument)),
        Value::Int(0),
        Value::Text(encode_utf8(line.comment)),
        Value::Null,
        Value::Int(0),
        Value::Int(0),
    ]
}

/// Returns the rows of a listing read as a table.
pub fn bytecode_rows(program: &[Step]) -> (rows: Vec<Vec<OwnedDatum>>)
    requires
        program@.len() <= i64::MAX,
    ensures
        owned_rows(rows@) == program@.map(
            |address: int, step: Step| bytecode_row(step@, address),
        ),
{
    let mut rows: Vec<Vec<OwnedDatum>> = Vec::with_capacity(program.len());
    let ghost all = program@.map(|address: int, step: Step| bytecode_row(step@, address));
    for at in 0..program.len()
        invariant
            program@.len() <= i64::MAX,
            all == program@.map(|address: int, step: Step| bytecode_row(step@, address)),
            owned_rows(rows@) =~= all.take(at as int),
    {
        let step = &program[at];
        let ghost before = rows@;
        let row: Vec<OwnedDatum> = vec![
            OwnedDatum::Int(at as i64),
            OwnedDatum::Text(copied(step.opcode.as_str().as_bytes())),
            OwnedDatum::Int(step.p1),
            OwnedDatum::Int(step.p2),
            OwnedDatum::Int(0),
            OwnedDatum::Text(copied(step.argument.as_str().as_bytes())),
            OwnedDatum::Int(0),
            OwnedDatum::Text(copied(step.comment.as_str().as_bytes())),
            OwnedDatum::Null,
            OwnedDatum::Int(0),
            OwnedDatum::Int(0),
        ];
        assert(owned_row(row@) =~= bytecode_row(step@, at as int));
        rows.push(row);
        assert(owned_rows(rows@) =~= owned_rows(before).push(owned_row(row@)));
    }
    assert(all.take(all.len() as int) =~= all);
    rows
}

/// What a word for a table is written with.
pub open spec fn word_written(word: SourceWord) -> Seq<u8> {
    match word {
        SourceWord::Table => ascii("table"),
        SourceWord::View => ascii("view"),
    }
}

/// The row one table a statement uses is given: what it is, where it is, its
/// name, and whether the statement writes it.
pub open spec fn used_row(source: (SourceWord, Seq<u8>), written: Option<Seq<u8>>) -> Seq<Value> {
    seq![
        Value::Text(word_written(source.0)),
        Value::Text(ascii("main")),
        Value::Text(source.1),
        Value::Int(
            if written == Some(source.1) {
                1i64
            } else {
                0
            },
        ),
        Value::Null,
    ]
}

/// What a borrowed name is.
pub open spec fn name_lent(name: Option<&[u8]>) -> Option<Seq<u8>> {
    match name {
        Some(name) => Some(name@),
        None => None,
    }
}

/// Returns the rows of the tables a statement uses.
pub fn tables_used_rows(names: &[(SourceWord, Vec<u8>)], written: Option<&[u8]>) -> (rows: Vec<
    Vec<OwnedDatum>,
>)
    ensures
        owned_rows(rows@) == sources_of(names@).map_values(
            |source: (SourceWord, Seq<u8>)| used_row(source, name_lent(written)),
        ),
{
    let mut rows: Vec<Vec<OwnedDatum>> = Vec::with_capacity(names.len());
    let ghost all = sources_of(names@).map_values(
        |source: (SourceWord, Seq<u8>)| used_row(source, name_lent(written)),
    );
    for at in 0..names.len()
        invariant
            all == sources_of(names@).map_values(
                |source: (SourceWord, Seq<u8>)| used_row(source, name_lent(written)),
            ),
            owned_rows(rows@) =~= all.take(at as int),
    {
        let ghost before = rows@;
        let name = names[at].1.as_slice();
        let word: &'static str = match names[at].0 {
            SourceWord::Table => "table",
            SourceWord::View => "view",
        };
        let writes: i64 = match written {
            Some(target) => if same(target, name) {
                1
            } else {
                0
            },
            None => 0,
        };
        let row: Vec<OwnedDatum> = vec![
            OwnedDatum::Text(copied(word.as_bytes())),
            OwnedDatum::Text(copied("main".as_bytes())),
            OwnedDatum::Text(copied(name)),
            OwnedDatum::Int(writes),
            OwnedDatum::Null,
        ];
        assert(owned_row(row@) =~= used_row(
            (names@[at as int].0, name@),
            name_lent(written),
        ));
        rows.push(row);
        assert(owned_rows(rows@) =~= owned_rows(before).push(owned_row(row@)));
        assert(all[at as int] == owned_row(row@));
    }
    assert(all.take(all.len() as int) =~= all);
    rows
}

/// Whether texts are in ascending order.
pub open spec fn in_order(texts: Seq<Seq<u8>>) -> bool {
    forall|i: int, j: int|
        0 <= i < j < texts.len() ==> !(byte_order(#[trigger] texts[i], #[trigger] texts[j])
            is Greater)
}

/// Puts a text into a list that is in order.
fn place_text(texts: &mut Vec<Vec<u8>>, text: Vec<u8>)
    requires
        in_order(names_of(old(texts)@)),
    ensures
        in_order(names_of(final(texts)@)),
        names_of(final(texts)@).to_multiset() == names_of(old(texts)@).to_multiset().insert(text@),
{
    let ghost before = names_of(texts@);
    let many: usize = texts.len();
    let mut at: usize = 0;
    while at < many && compare_bytes(texts[at].as_slice(), text.as_slice()) == Order::Less
        invariant
            at <= many,
            many == texts@.len(),
            names_of(texts@) == before,
            forall|i: int| 0 <= i < at ==> byte_order(#[trigger] before[i], text@) is Less,
        decreases many - at,
    {
        assert(before[at as int] == texts@[at as int]@);
        at = at + 1;
    }
    let ghost said = text@;
    proof {
        if at < many {
            assert(before[at as int] == texts@[at as int]@);
            crate::codes::byte_order_reversed(before[at as int], said);
        }
    }
    texts.insert(at, text);
    proof {
        let after = names_of(texts@);
        assert(after =~= before.insert(at as int, said));
        assert forall|i: int, j: int| 0 <= i < j < after.len() implies !(byte_order(
            #[trigger] after[i],
            #[trigger] after[j],
        ) is Greater) by {
            let one = if i < at {
                i
            } else {
                i - 1
            };
            let two = if j < at {
                j
            } else {
                j - 1
            };
            if i == at {
                assert(after[j] == before[two]);
                if two > at {
                    assert(!(byte_order(before[at as int], before[two]) is Greater));
                    order_passes_on(said, before[at as int], before[two]);
                }
            } else if j == at {
                assert(after[i] == before[one]);
            } else {
                assert(after[i] == before[one]);
                assert(after[j] == before[two]);
            }
        }
        assert(after.remove(at as int) =~= before);
        assert(after[at as int] == said);
        vstd::seq_lib::to_multiset_remove(after, at as int);
        assert(after.contains(said));
        assert(after.to_multiset().count(said) > 0);
        assert(after.to_multiset() =~= before.to_multiset().insert(said));
    }
}

/// What does not come after a text's successor does not come after what follows
/// it.
proof fn order_passes_on(one: Seq<u8>, two: Seq<u8>, three: Seq<u8>)
    requires
        !(byte_order(one, two) is Greater),
        !(byte_order(two, three) is Greater),
    ensures
        !(byte_order(one, three) is Greater),
{
    if byte_order(one, two) is Equal {
        crate::loading::equal_bytes_are_same(one, two);
    } else if byte_order(two, three) is Equal {
        crate::loading::equal_bytes_are_same(two, three);
    } else {
        crate::codes::byte_order_carries(one, two, three);
    }
}

/// The texts held on one shelf.
pub open spec fn shelf_texts(plans: Seq<(Vec<u8>, u64)>) -> Seq<Seq<u8>> {
    plans.map_values(|plan: (Vec<u8>, u64)| plan.0@)
}

/// The texts held on the first of some shelves.
pub open spec fn held_texts(shelves: Seq<Shelf>, upto: int) -> Seq<Seq<u8>>
    decreases upto,
{
    if upto <= 0 {
        Seq::empty()
    } else {
        held_texts(shelves, upto - 1) + shelf_texts(shelves[upto - 1].plans@)
    }
}

/// Returns the texts of the statements a connection holds, in order.
pub fn statement_texts(compiled: &Compiled) -> (texts: Vec<Vec<u8>>)
    ensures
        in_order(names_of(texts@)),
        names_of(texts@).to_multiset() == held_texts(
            compiled.statements@,
            compiled.statements@.len() as int,
        ).to_multiset(),
{
    let mut texts: Vec<Vec<u8>> = Vec::new();
    assert(names_of(texts@) =~= held_texts(compiled.statements@, 0));
    for at in 0..compiled.statements.len()
        invariant
            in_order(names_of(texts@)),
            names_of(texts@).to_multiset() == held_texts(
                compiled.statements@,
                at as int,
            ).to_multiset(),
    {
        let plans = &compiled.statements[at].plans;
        let ghost base = held_texts(compiled.statements@, at as int);
        let ghost own = shelf_texts(plans@);
        assert(base + own.take(0) =~= base);
        for nth in 0..plans.len()
            invariant
                own == shelf_texts(plans@),
                in_order(names_of(texts@)),
                names_of(texts@).to_multiset() == (base + own.take(nth as int)).to_multiset(),
        {
            place_text(&mut texts, copied(plans[nth].0.as_slice()));
            assert(base + own.take(nth + 1) =~= (base + own.take(nth as int)).push(
                own[nth as int],
            ));
        }
        assert(own.take(own.len() as int) =~= own);
    }
    texts
}

/// The row one held statement is given: its text, how many columns it answers
/// with, whether it only reads, and eight counts of work that is not counted.
pub open spec fn statement_row(text: Seq<u8>, columns: i64, reads: bool) -> Seq<Value> {
    seq![
        Value::Text(text),
        Value::Int(columns),
        Value::Int(
            if reads {
                1i64
            } else {
                0
            },
        ),
        Value::Int(0),
        Value::Int(0),
        Value::Int(0),
        Value::Int(0),
        Value::Int(0),
        Value::Int(0),
        Value::Int(0),
        Value::Int(0),
    ]
}

/// Returns the row one held statement is given.
pub fn stmt_row(text: &[u8], columns: i64, reads: bool) -> (row: Vec<OwnedDatum>)
    ensures
        owned_row(row@) == statement_row(text@, columns, reads),
{
    let only: i64 = if reads {
        1
    } else {
        0
    };
    let row: Vec<OwnedDatum> = vec![
        OwnedDatum::Text(copied(text)),
        OwnedDatum::Int(columns),
        OwnedDatum::Int(only),
        OwnedDatum::Int(0),
        OwnedDatum::Int(0),
        OwnedDatum::Int(0),
        OwnedDatum::Int(0),
        OwnedDatum::Int(0),
        OwnedDatum::Int(0),
        OwnedDatum::Int(0),
        OwnedDatum::Int(0),
    ];
    assert(owned_row(row@) =~= statement_row(text@, columns, reads));
    row
}

/// The names of the objects of some catalog rows.
pub open spec fn object_names(rows: Seq<Recorded>) -> Seq<Seq<u8>> {
    rows.map_values(|row: Recorded| row.entry.name@)
}

/// The catalog rows of a schema, none for one that is not attached.
pub open spec fn rows_in(state: SessionState, main: Seq<Recorded>, at: int) -> Seq<Recorded> {
    if at == MAIN {
        main
    } else {
        match state.beside_main(at) {
            Some(held) => held.entries@,
            None => Seq::empty(),
        }
    }
}

/// The names of the objects of the first of some schemas, in order.
pub open spec fn names_in(
    state: SessionState,
    main: Seq<Recorded>,
    schemas: Seq<int>,
    upto: int,
) -> Seq<Seq<u8>>
    decreases upto,
{
    if upto <= 0 {
        Seq::empty()
    } else {
        names_in(state, main, schemas, upto - 1) + object_names(
            rows_in(state, main, schemas[upto - 1]),
        )
    }
}

/// Adds the names of the objects of some catalog rows.
fn add_names(rows: &[Recorded], names: &mut Vec<Vec<u8>>)
    ensures
        names_of(final(names)@) == names_of(old(names)@) + object_names(rows@),
{
    let ghost before = names_of(names@);
    let ghost all = object_names(rows@);
    assert(before + all.take(0) =~= before);
    for at in 0..rows.len()
        invariant
            all == object_names(rows@),
            names_of(names@) =~= before + all.take(at as int),
    {
        let ghost so_far = names@;
        names.push(copied(rows[at].entry.name.as_slice()));
        assert(names_of(names@) =~= names_of(so_far).push(all[at as int]));
    }
    assert(all.take(all.len() as int) =~= all);
}

/// Returns the names of every object in every schema a connection holds, in the
/// order of the schemas.
pub fn every_object(state: &SessionState, main: &[Recorded]) -> (names: Vec<Vec<u8>>)
    requires
        state.attached@.len() + crate::sessions::FIRST_ATTACHED <= usize::MAX,
    ensures
        names_of(names@) == names_in(
            *state,
            main@,
            state.numbered(),
            state.numbered().len() as int,
        ),
{
    let numbers = state.schema_numbers();
    let ghost schemas = state.numbered();
    let mut names: Vec<Vec<u8>> = Vec::new();
    assert(crate::sessions::numbers_of(numbers@).len() == numbers@.len());
    for nth in 0..numbers.len()
        invariant
            crate::sessions::numbers_of(numbers@) == schemas,
            schemas.len() == numbers@.len(),
            names_of(names@) =~= names_in(*state, main@, schemas, nth as int),
    {
        let at: usize = numbers[nth];
        assert(schemas[nth as int] == at);
        if at == MAIN {
            add_names(main, &mut names);
        } else {
            match state.schema_at(at) {
                Some(held) => add_names(held.entries.as_slice(), &mut names),
                None => {
                    assert(object_names(Seq::<Recorded>::empty()) =~= Seq::<Seq<u8>>::empty());
                },
            }
        }
    }
    names
}

/// The names of the columns of a table, none for no table.
pub open spec fn column_names(table: Option<TableInfo>) -> Seq<Seq<u8>> {
    match table {
        Some(info) => Seq::new(info.columns@.len(), |i: int| info.columns@[i].name@),
        None => Seq::empty(),
    }
}

/// The first table of a folded name.
pub open spec fn table_named(tables: Seq<TableInfo>, name: Seq<u8>) -> Option<TableInfo>
    decreases tables.len(),
{
    if tables.len() == 0 {
        None
    } else if tables[0].folded@ == name {
        Some(tables[0])
    } else {
        table_named(tables.drop_first(), name)
    }
}

/// The columns of the tables among the first of some objects, in order.
pub open spec fn columns_in(
    tables: Seq<TableInfo>,
    objects: Seq<Seq<u8>>,
    upto: int,
) -> Seq<Seq<u8>>
    decreases upto,
{
    if upto <= 0 {
        Seq::empty()
    } else {
        columns_in(tables, objects, upto - 1) + column_names(
            table_named(tables, folded(objects[upto - 1])),
        )
    }
}

/// Returns the first table of a folded name.
fn find_table<'a>(tables: &'a [TableInfo], name: &[u8]) -> (found: Option<&'a TableInfo>)
    ensures
        crate::reattach::lent(found) == table_named(tables@, name@),
{
    assert(tables@.skip(0) =~= tables@);
    for at in 0..tables.len()
        invariant
            table_named(tables@, name@) == table_named(tables@.skip(at as int), name@),
    {
        let ghost rest = tables@.skip(at as int);
        assert(rest[0] == tables@[at as int]);
        assert(rest.drop_first() =~= tables@.skip(at + 1));
        if same(tables[at].folded.as_slice(), name) {
            return Some(&tables[at]);
        }
    }
    None
}

/// Returns the names of the columns of the tables among some objects.
pub fn every_column(tables: &[TableInfo], objects: &[Vec<u8>]) -> (names: Vec<Vec<u8>>)
    ensures
        names_of(names@) == columns_in(tables@, names_of(objects@), objects@.len() as int),
{
    let mut names: Vec<Vec<u8>> = Vec::new();
    let ghost all = names_of(objects@);
    for at in 0..objects.len()
        invariant
            all == names_of(objects@),
            names_of(names@) =~= columns_in(tables@, all, at as int),
    {
        let wanted = fold(objects[at].as_slice());
        assert(all[at as int] == objects@[at as int]@);
        let ghost before = names_of(names@);
        match find_table(tables, wanted.as_slice()) {
            Some(info) => {
                let ghost own = column_names(Some(*info));
                assert(before + own.take(0) =~= before);
                for nth in 0..info.columns.len()
                    invariant
                        own == column_names(Some(*info)),
                        names_of(names@) =~= before + own.take(nth as int),
                {
                    let ghost so_far = names@;
                    names.push(copied(info.columns[nth].name.as_slice()));
                    assert(names_of(names@) =~= names_of(so_far).push(own[nth as int]));
                }
                assert(own.take(own.len() as int) =~= own);
            },
            None => {},
        }
    }
    names
}

/// What a word could be completed to: names, and the phase each belongs to.
pub open spec fn candidates_of(names: Seq<Seq<u8>>, phase: i64) -> Seq<(Seq<u8>, i64)> {
    names.map_values(|name: Seq<u8>| (name, phase))
}

/// Whether a candidate completes a prefix, in either case.
pub open spec fn completes(candidate: Seq<u8>, prefix: Seq<u8>) -> bool {
    prefix.len() == 0 || begins(folded(candidate), folded(prefix))
}

/// The row one completion is given: the candidate, what it completes, and its
/// phase.
pub open spec fn completion_row(candidate: (Seq<u8>, i64), prefix: Seq<u8>) -> Seq<Value> {
    seq![
        Value::Text(candidate.0),
        Value::Text(prefix),
        Value::Null,
        Value::Int(candidate.1),
    ]
}

/// The rows of the candidates that complete a prefix, in order.
pub open spec fn completions_of(candidates: Seq<(Seq<u8>, i64)>, prefix: Seq<u8>) -> Seq<Seq<Value>>
    decreases candidates.len(),
{
    if candidates.len() == 0 {
        Seq::empty()
    } else if completes(candidates.last().0, prefix) {
        completions_of(candidates.drop_last(), prefix).push(
            completion_row(candidates.last(), prefix),
        )
    } else {
        completions_of(candidates.drop_last(), prefix)
    }
}

/// Candidates after others are completed after them.
proof fn completions_join(
    one: Seq<(Seq<u8>, i64)>,
    two: Seq<(Seq<u8>, i64)>,
    prefix: Seq<u8>,
)
    ensures
        completions_of(one + two, prefix) == completions_of(one, prefix) + completions_of(
            two,
            prefix,
        ),
    decreases two.len(),
{
    if two.len() == 0 {
        assert(one + two =~= one);
        assert(completions_of(one, prefix) + completions_of(two, prefix) =~= completions_of(
            one,
            prefix,
        ));
    } else {
        assert((one + two).drop_last() =~= one + two.drop_last());
        completions_join(one, two.drop_last(), prefix);
        assert(completions_of(one + two, prefix) =~= completions_of(one, prefix)
            + completions_of(two, prefix));
    }
}

/// Adds the completions of a prefix among some names.
fn complete(names: &[Vec<u8>], phase: i64, prefix: &[u8], rows: &mut Vec<Vec<OwnedDatum>>)
    ensures
        owned_rows(final(rows)@) == owned_rows(old(rows)@) + completions_of(
            candidates_of(names_of(names@), phase),
            prefix@,
        ),
{
    let wanted = fold(prefix);
    let ghost before = owned_rows(rows@);
    let ghost all = candidates_of(names_of(names@), phase);
    assert(before + completions_of(all.take(0), prefix@) =~= before);
    for at in 0..names.len()
        invariant
            wanted@ == folded(prefix@),
            all == candidates_of(names_of(names@), phase),
            owned_rows(rows@) =~= before + completions_of(all.take(at as int), prefix@),
    {
        let ghost more = all.take(at + 1);
        assert(more.drop_last() =~= all.take(at as int));
        assert(more.last() == all[at as int]);
        let name = names[at].as_slice();
        assert(all[at as int] == (name@, phase));
        let small = fold(name);
        if prefix.len() == 0 || begins_with(small.as_slice(), wanted.as_slice()) {
            let ghost so_far = rows@;
            let row: Vec<OwnedDatum> = vec![
                OwnedDatum::Text(copied(name)),
                OwnedDatum::Text(copied(prefix)),
                OwnedDatum::Null,
                OwnedDatum::Int(phase),
            ];
            assert(owned_row(row@) =~= completion_row((name@, phase), prefix@));
            rows.push(row);
            assert(owned_rows(rows@) =~= owned_rows(so_far).push(owned_row(row@)));
        }
    }
    assert(all.take(all.len() as int) =~= all);
}

/// Everything a word could be completed to: the keywords, the databases, the
/// objects and the columns, in that order.
pub open spec fn every_candidate(
    keywords: Seq<Seq<u8>>,
    databases: Seq<Seq<u8>>,
    objects: Seq<Seq<u8>>,
    columns: Seq<Seq<u8>>,
) -> Seq<(Seq<u8>, i64)> {
    candidates_of(keywords, PHASE_KEYWORD) + candidates_of(databases, PHASE_DATABASE)
        + candidates_of(objects, PHASE_TABLE) + candidates_of(columns, PHASE_COLUMN)
}

/// Returns what a prefix could be completed to.
pub fn completion_rows(
    keywords: &[Vec<u8>],
    databases: &[Vec<u8>],
    objects: &[Vec<u8>],
    columns: &[Vec<u8>],
    prefix: &[u8],
) -> (rows: Vec<Vec<OwnedDatum>>)
    ensures
        owned_rows(rows@) == completions_of(
            every_candidate(
                names_of(keywords@),
                names_of(databases@),
                names_of(objects@),
                names_of(columns@),
            ),
            prefix@,
        ),
{
    let mut rows: Vec<Vec<OwnedDatum>> = Vec::new();
    assert(owned_rows(rows@) =~= Seq::<Seq<Value>>::empty());
    complete(keywords, PHASE_KEYWORD, prefix, &mut rows);
    complete(databases, PHASE_DATABASE, prefix, &mut rows);
    complete(objects, PHASE_TABLE, prefix, &mut rows);
    complete(columns, PHASE_COLUMN, prefix, &mut rows);
    proof {
        let a = candidates_of(names_of(keywords@), PHASE_KEYWORD);
        let b = candidates_of(names_of(databases@), PHASE_DATABASE);
        let c = candidates_of(names_of(objects@), PHASE_TABLE);
        let d = candidates_of(names_of(columns@), PHASE_COLUMN);
        completions_join(a, b, prefix@);
        completions_join(a + b, c, prefix@);
        completions_join(a + b + c, d, prefix@);
        assert(owned_rows(rows@) =~= completions_of(a + b + c + d, prefix@));
    }
    rows
}

/// An empty prefix is completed to everything, and any prefix only to what
/// begins with it.
pub proof fn a_prefix_filters_completions(
    candidates: Seq<(Seq<u8>, i64)>,
    prefix: Seq<u8>,
    at: int,
)
    ensures
        prefix.len() == 0 ==> completions_of(candidates, prefix).len() == candidates.len(),
        0 <= at < completions_of(candidates, prefix).len() ==> exists|i: int|
            0 <= i < candidates.len() && completes((#[trigger] candidates[i]).0, prefix)
                && completions_of(candidates, prefix)[at] == completion_row(candidates[i], prefix),
    decreases candidates.len(),
{
    if candidates.len() > 0 {
        let fewer = candidates.drop_last();
        a_prefix_filters_completions(fewer, prefix, at);
        if 0 <= at < completions_of(candidates, prefix).len() {
            if at < completions_of(fewer, prefix).len() {
                let i = choose|i: int|
                    0 <= i < fewer.len() && completes((#[trigger] fewer[i]).0, prefix)
                        && completions_of(fewer, prefix)[at] == completion_row(fewer[i], prefix);
                assert(candidates[i] == fewer[i]);
            } else {
                assert(candidates[candidates.len() - 1] == candidates.last());
            }
        }
    }
}

/// Whether a table is one the connection answers itself.
pub open spec fn answered_by_connection(name: Seq<u8>) -> bool {
    ||| begins(name, ascii("pragma_"))
    ||| name == ascii("bytecode")
    ||| name == ascii("tables_used")
    ||| name == ascii("sqlite_stmt")
    ||| name == ascii("completion")
}

/// Refuses to read, inside a write, a table the connection answers itself: the
/// connection is in the middle of the write and cannot be asked.
pub fn scan_inside(name: &[u8], folded_name: &[u8]) -> (answer: Result<(), Refusal>)
    ensures
        match answer {
            Ok(_) => !answered_by_connection(folded_name@),
            Err(refusal) => {
                &&& answered_by_connection(folded_name@)
                &&& refusal matches Refusal::InsideWrite(told)
                &&& told@ == name@
            },
        },
        answer is Err <==> begins(folded_name@, ascii("pragma_")) || folded_name@ == ascii(
            "bytecode",
        ) || folded_name@ == ascii("tables_used") || folded_name@ == ascii("sqlite_stmt")
            || folded_name@ == ascii("completion"),
{
    if begins_with(folded_name, "pragma_".as_bytes()) || same(folded_name, "bytecode".as_bytes())
        || same(folded_name, "tables_used".as_bytes()) || same(
        folded_name,
        "sqlite_stmt".as_bytes(),
    ) || same(folded_name, "completion".as_bytes()) {
        Err(Refusal::InsideWrite(copied(name)))
    } else {
        Ok(())
    }
}

/// A step of a program is told by its row, at its address.
pub proof fn a_step_is_told_by_its_row(line: Line, address: int)
    requires
        0 <= address <= i64::MAX,
        i64::MIN <= line.p1 <= i64::MAX,
        i64::MIN <= line.p2 <= i64::MAX,
    ensures
        ({
            let row = bytecode_row(line, address);
            &&& row.len() == 11
            &&& row[0] is Int && row[0]->Int_0 == address
            &&& row[1] == Value::Text(encode_utf8(line.opcode))
            &&& row[2] is Int && row[2]->Int_0 == line.p1
            &&& row[3] is Int && row[3]->Int_0 == line.p2
            &&& row[4] == Value::Int(0) && row[6] == Value::Int(0) && row[9] == Value::Int(0)
                && row[10] == Value::Int(0)
            &&& row[5] == Value::Text(encode_utf8(line.argument))
            &&& row[7] == Value::Text(encode_utf8(line.comment))
            &&& row[8] is Null
        }),
{
}

/// A table a statement uses is told by its row: what it is, its name, and whether the
/// statement writes it.
pub proof fn a_table_used_is_told_by_its_row(
    source: (SourceWord, Seq<u8>),
    written: Option<Seq<u8>>,
)
    ensures
        ({
            let row = used_row(source, written);
            &&& row.len() == 5
            &&& source.0 is Table ==> row[0] == Value::Text(ascii("table"))
            &&& source.0 is View ==> row[0] == Value::Text(ascii("view"))
            &&& row[1] == Value::Text(ascii("main"))
            &&& row[2] == Value::Text(source.1)
            &&& row[3] == Value::Int(1) || row[3] == Value::Int(0)
            &&& row[3] == Value::Int(1) <==> written is Some && written->Some_0 == source.1
            &&& row[4] is Null
        }),
{
}

/// A held statement is told by its row: its text, its columns, and whether it only
/// reads.
pub proof fn a_statement_is_told_by_its_row(text: Seq<u8>, columns: i64, reads: bool)
    ensures
        ({
            let row = statement_row(text, columns, reads);
            &&& row.len() == 11
            &&& row[0] == Value::Text(text)
            &&& row[1] == Value::Int(columns)
            &&& reads ==> row[2] == Value::Int(1)
            &&& !reads ==> row[2] == Value::Int(0)
            &&& forall|at: int| 3 <= at < 11 ==> #[trigger] row[at] == Value::Int(0)
        }),
{
}

/// A word is completed to what begins with it in either case, and an empty one to
/// anything.
pub proof fn a_word_is_completed_in_either_case(candidate: Seq<u8>, prefix: Seq<u8>)
    ensures
        completes(candidate, prefix) <==> prefix.len() <= candidate.len() && (forall|at: int|
            0 <= at < prefix.len() ==> {
                let one = #[trigger] candidate[at];
                let two = prefix[at];
                ||| one == two
                ||| 65 <= one <= 90 && two == one + 32
                ||| 65 <= two <= 90 && one == two + 32
            }),
{
    let held = folded(candidate);
    let asked = folded(prefix);
    assert(held.len() == candidate.len() && asked.len() == prefix.len());
    if prefix.len() > 0 {
        if completes(candidate, prefix) {
            assert forall|at: int| 0 <= at < prefix.len() implies {
                let one = #[trigger] candidate[at];
                let two = prefix[at];
                ||| one == two
                ||| 65 <= one <= 90 && two == one + 32
                ||| 65 <= two <= 90 && one == two + 32
            } by {
                assert(held.take(asked.len() as int)[at] == asked[at]);
                crate::text::names_fold_by_their_letters(candidate, at);
                crate::text::names_fold_by_their_letters(prefix, at);
            }
        }
        if prefix.len() <= candidate.len() && (forall|at: int|
            0 <= at < prefix.len() ==> {
                let one = #[trigger] candidate[at];
                let two = prefix[at];
                ||| one == two
                ||| 65 <= one <= 90 && two == one + 32
                ||| 65 <= two <= 90 && one == two + 32
            }) {
            assert forall|at: int| 0 <= at < prefix.len() implies held.take(
                asked.len() as int,
            )[at] == asked[at] by {
                let _ = candidate[at];
                crate::text::names_fold_by_their_letters(candidate, at);
                crate::text::names_fold_by_their_letters(prefix, at);
            }
            assert(held.take(asked.len() as int) =~= asked);
        }
    }
}

/// Completions come in the order of the candidates: one for each that completes the
/// word, with the word and the candidate's phase beside it, and none for any other.
pub proof fn a_completion_is_its_candidate(
    before: Seq<(Seq<u8>, i64)>,
    candidate: (Seq<u8>, i64),
    after: Seq<(Seq<u8>, i64)>,
    prefix: Seq<u8>,
)
    ensures
        completions_of(Seq::empty(), prefix).len() == 0,
        completes(candidate.0, prefix) ==> completions_of(before.push(candidate) + after, prefix)
            == completions_of(before, prefix) + seq![
            seq![
                Value::Text(candidate.0),
                Value::Text(prefix),
                Value::Null,
                Value::Int(candidate.1),
            ],
        ] + completions_of(after, prefix),
        !completes(candidate.0, prefix) ==> completions_of(before.push(candidate) + after, prefix)
            == completions_of(before, prefix) + completions_of(after, prefix),
{
    let first = before.push(candidate);
    completions_join(first, after, prefix);
    assert(first.drop_last() =~= before);
    assert(first.last() == candidate);
    if completes(candidate.0, prefix) {
        assert(completions_of(first, prefix) =~= completions_of(before, prefix) + seq![
            seq![
                Value::Text(candidate.0),
                Value::Text(prefix),
                Value::Null,
                Value::Int(candidate.1),
            ],
        ]);
    }
}

/// What could complete a word is told in its phase: the keywords, then the databases,
/// the tables and the columns.
pub proof fn candidates_come_by_phase(
    keywords: Seq<Seq<u8>>,
    databases: Seq<Seq<u8>>,
    objects: Seq<Seq<u8>>,
    columns: Seq<Seq<u8>>,
    at: int,
)
    ensures
        ({
            let all = every_candidate(keywords, databases, objects, columns);
            let k = keywords.len();
            let d = k + databases.len();
            let o = d + objects.len();
            &&& all.len() == o + columns.len()
            &&& 0 <= at < keywords.len() ==> all[at] == (keywords[at], 1i64)
            &&& 0 <= at < databases.len() ==> all[k + at] == (databases[at], 7i64)
            &&& 0 <= at < objects.len() ==> all[d + at] == (objects[at], 8i64)
            &&& 0 <= at < columns.len() ==> all[o + at] == (columns[at], 9i64)
        }),
{
}

/// The columns of an object are those of the first table of its name, in either case of
/// the object's; an object that is no table has none.
pub proof fn an_objects_columns_are_its_tables(
    tables: Seq<TableInfo>,
    objects: Seq<Seq<u8>>,
    object: Seq<u8>,
    table: int,
)
    requires
        0 <= table <= tables.len(),
        forall|t: int| 0 <= t < table ==> (#[trigger] tables[t]).folded@ != folded(object),
        table < tables.len() ==> tables[table].folded@ == folded(object),
    ensures
        ({
            let many = objects.len() as int;
            let before = columns_in(tables, objects, many);
            let now = columns_in(tables, objects.push(object), many + 1);
            &&& table == tables.len() ==> now == before
            &&& table < tables.len() ==> {
                &&& now.len() == before.len() + tables[table].columns@.len()
                &&& forall|i: int| 0 <= i < before.len() ==> #[trigger] now[i] == before[i]
                &&& forall|c: int|
                    0 <= c < tables[table].columns@.len() ==> now[before.len() + c] == (
                    #[trigger] tables[table].columns@[c]).name@
            }
        }),
{
    let many = objects.len() as int;
    columns_of_first(tables, objects, object, many);
    table_is_the_first(tables, folded(object), table);
    let before = columns_in(tables, objects, many);
    let now = columns_in(tables, objects.push(object), many + 1);
    if table == tables.len() {
        assert(now =~= before);
    } else {
        let own = column_names(Some(tables[table]));
        assert(now == before + own);
        assert forall|c: int| 0 <= c < tables[table].columns@.len() implies now[before.len() + c]
            == (#[trigger] tables[table].columns@[c]).name@ by {
            assert(now[before.len() + c] == own[c]);
        }
    }
}

/// An object more at the end changes nothing of the columns of those before it.
proof fn columns_of_first(
    tables: Seq<TableInfo>,
    objects: Seq<Seq<u8>>,
    object: Seq<u8>,
    upto: int,
)
    requires
        0 <= upto <= objects.len(),
    ensures
        columns_in(tables, objects.push(object), upto) == columns_in(tables, objects, upto),
    decreases upto,
{
    if upto > 0 {
        columns_of_first(tables, objects, object, upto - 1);
        assert(objects.push(object)[upto - 1] == objects[upto - 1]);
    }
}

/// The table found by a name is the first of that name.
proof fn table_is_the_first(tables: Seq<TableInfo>, name: Seq<u8>, at: int)
    requires
        0 <= at <= tables.len(),
        forall|t: int| 0 <= t < at ==> (#[trigger] tables[t]).folded@ != name,
        at < tables.len() ==> tables[at].folded@ == name,
    ensures
        at < tables.len() ==> table_named(tables, name) == Some(tables[at]),
        at == tables.len() ==> table_named(tables, name) is None,
    decreases tables.len(),
{
    if at > 0 {
        let rest = tables.drop_first();
        assert(tables[0].folded@ != name);
        assert forall|t: int| 0 <= t < at - 1 implies (#[trigger] rest[t]).folded@ != name by {
            assert(tables[t + 1].folded@ != name);
        }
        table_is_the_first(rest, name, at - 1);
    }
}

/// The objects are named database by database: one database more adds the names of its
/// catalog's rows, in their order, after those before it.
pub proof fn every_databases_objects_are_named(
    state: SessionState,
    main: Seq<Recorded>,
    schemas: Seq<int>,
    at: int,
)
    ensures
        ({
            let many = schemas.len() as int;
            let before = names_in(state, main, schemas, many);
            let now = names_in(state, main, schemas.push(at), many + 1);
            &&& at == 0 ==> now == before + Seq::new(main.len(), |i: int| main[i].entry.name@)
            &&& at >= 2 && at - 2 < state.attached@.len() ==> {
                let rows = state.attached@[at - 2].entries@;
                now == before + Seq::new(rows.len(), |i: int| rows[i].entry.name@)
            }
            &&& at >= 2 && at - 2 >= state.attached@.len() ==> now == before
            &&& at == 1 && temp_of(state.temps@, state.session) is None ==> now == before
            &&& at == 1 && temp_of(state.temps@, state.session) is Some ==> {
                let rows = state.temps@[temp_of(state.temps@, state.session)->Some_0].entries@;
                now == before + Seq::new(rows.len(), |i: int| rows[i].entry.name@)
            }
        }),
{
    let many = schemas.len() as int;
    names_of_first(state, main, schemas, at, many);
    let before = names_in(state, main, schemas, many);
    let now = names_in(state, main, schemas.push(at), many + 1);
    let rows = rows_in(state, main, at);
    assert(schemas.push(at)[many] == at);
    assert(now == before + object_names(rows));
    assert(rows.len() == 0 ==> now =~= before);
    if at == 0 {
        assert(object_names(main) =~= Seq::new(main.len(), |i: int| main[i].entry.name@));
    }
    if at >= 2 && at - 2 < state.attached@.len() {
        let held = state.attached@[at - 2].entries@;
        assert(state.attached.len() == state.attached@.len());
        assert(object_names(held) =~= Seq::new(held.len(), |i: int| held[i].entry.name@));
    }
    if at == 1 && temp_of(state.temps@, state.session) is Some {
        crate::sessions::temp_is_listed(state.temps@, state.session);
        assert(state.temps.len() == state.temps@.len());
        let held = state.temps@[temp_of(state.temps@, state.session)->Some_0].entries@;
        assert(object_names(held) =~= Seq::new(held.len(), |i: int| held[i].entry.name@));
    }
}

/// A database more at the end changes nothing of the names of those before it.
proof fn names_of_first(
    state: SessionState,
    main: Seq<Recorded>,
    schemas: Seq<int>,
    at: int,
    upto: int,
)
    requires
        0 <= upto <= schemas.len(),
    ensures
        names_in(state, main, schemas.push(at), upto) == names_in(state, main, schemas, upto),
    decreases upto,
{
    if upto > 0 {
        names_of_first(state, main, schemas, at, upto - 1);
        assert(schemas.push(at)[upto - 1] == schemas[upto - 1]);
    }
}

/// Every statement a shelf holds is told: one shelf more adds the texts of its plans.
pub proof fn every_held_statement_is_told(shelves: Seq<Shelf>, shelf: Shelf)
    ensures
        ({
            let many = shelves.len() as int;
            let before = held_texts(shelves, many);
            let now = held_texts(shelves.push(shelf), many + 1);
            &&& now.len() == before.len() + shelf.plans@.len()
            &&& forall|i: int| 0 <= i < before.len() ==> #[trigger] now[i] == before[i]
            &&& forall|i: int|
                0 <= i < shelf.plans@.len() ==> now[before.len() + i] == (
                #[trigger] shelf.plans@[i]).0@
        }),
{
    let many = shelves.len() as int;
    texts_of_first(shelves, shelf, many);
    assert(shelves.push(shelf)[many] == shelf);
    let before = held_texts(shelves, many);
    let now = held_texts(shelves.push(shelf), many + 1);
    assert(now == before + shelf_texts(shelf.plans@));
    assert forall|i: int| 0 <= i < shelf.plans@.len() implies now[before.len() + i] == (
    #[trigger] shelf.plans@[i]).0@ by {
        assert(now[before.len() + i] == shelf_texts(shelf.plans@)[i]);
    }
}

/// A shelf more at the end changes nothing of the texts of those before it.
proof fn texts_of_first(shelves: Seq<Shelf>, shelf: Shelf, upto: int)
    requires
        0 <= upto <= shelves.len(),
    ensures
        held_texts(shelves.push(shelf), upto) == held_texts(shelves, upto),
    decreases upto,
{
    if upto > 0 {
        texts_of_first(shelves, shelf, upto - 1);
        assert(shelves.push(shelf)[upto - 1] == shelves[upto - 1]);
    }
}

} // verus!
