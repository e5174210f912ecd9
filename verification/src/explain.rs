//! What `EXPLAIN` says of a plan.
//!
//! The engine has no program of opcodes; a listing is made of the plan's own
//! lines, one step each, between a step that starts and a step that halts.

use vstd::prelude::*;
use vstd::string::StrSliceExecFns;
use vstd::string::StringExecFns;
use vstd::utf8::encode_utf8;

use crate::reattach::names_of;
use crate::statements::Outcome;
use crate::text::{ascii, copied, small_letter};
use crate::values::{owned_row, owned_rows, OwnedDatum, Value};

verus! {

/// The capital form of one character, as `char::to_uppercase` gives it.
pub uninterp spec fn capital_form(letter: char) -> Seq<char>;

/// The small form of one character, as `char::to_lowercase` gives it.
pub uninterp spec fn small_form(letter: char) -> Seq<char>;

/// Whether a character is one of ASCII's.
pub open spec fn plain(letter: char) -> bool {
    (letter as int) < 128
}

/// A character with a small ASCII letter made capital.
pub open spec fn capital_letter(letter: char) -> char {
    if 97 <= (letter as int) <= 122 {
        ((letter as int) - 32) as char
    } else {
        letter
    }
}

/// Calls `char::to_uppercase`, which maps a character to its capital form in
/// Unicode, one or more characters long. The form is a function of the character
/// alone; of the characters outside ASCII it is not said here which it is.
#[verifier::external_body]
fn to_capital(letter: char) -> (form: String)
    ensures
        form@ == capital_form(letter),
        plain(letter) ==> form@ == seq![capital_letter(letter)],
{
    letter.to_uppercase().to_string()
}

/// Calls `char::to_lowercase`, which maps a character to its small form in
/// Unicode, one or more characters long. The form is a function of the character
/// alone; of the characters outside ASCII it is not said here which it is.
#[verifier::external_body]
fn to_small(letter: char) -> (form: String)
    ensures
        form@ == small_form(letter),
        plain(letter) ==> form@ == seq![small_letter(letter)],
{
    letter.to_lowercase().to_string()
}

/// Some texts, one after the other.
pub open spec fn joined(texts: Seq<Seq<char>>) -> Seq<char>
    decreases texts.len(),
{
    if texts.len() == 0 {
        Seq::empty()
    } else {
        joined(texts.drop_last()) + texts.last()
    }
}

/// What each text of a list is.
pub open spec fn texts_of(texts: Seq<String>) -> Seq<Seq<char>> {
    texts.map_values(|text: String| text@)
}

/// Returns some texts, one after the other.
pub fn join(texts: &[String]) -> (whole: String)
    ensures
        whole@ == joined(texts_of(texts@)),
{
    let mut whole = "".to_owned();
    proof {
        reveal_strlit("");
    }
    let ghost all = texts_of(texts@);
    assert(whole@ =~= joined(all.take(0)));
    for at in 0..texts.len()
        invariant
            all == texts_of(texts@),
            whole@ == joined(all.take(at as int)),
    {
        let ghost more = all.take(at + 1);
        assert(more.drop_last() =~= all.take(at as int));
        assert(more.last() == all[at as int]);
        whole.append(texts[at].as_str());
    }
    assert(all.take(all.len() as int) =~= all);
    whole
}

/// The form an opcode writes one character of a word in: the first in its
/// capital form and the others in their small forms.
pub open spec fn form_in_opcode(word: Seq<char>, at: int) -> Seq<char> {
    if at == 0 {
        capital_form(word[at])
    } else {
        small_form(word[at])
    }
}

/// A word as an opcode writes it.
pub open spec fn opcode_for(word: Seq<char>) -> Seq<char> {
    joined(Seq::new(word.len(), |at: int| form_in_opcode(word, at)))
}

/// Whether every character of a word is one of ASCII's.
pub open spec fn plain_word(word: Seq<char>) -> bool {
    forall|i: int| 0 <= i < word.len() ==> plain(#[trigger] word[i])
}

/// A word of ASCII characters with its first letter capital and the others
/// small.
pub open spec fn capitalized(word: Seq<char>) -> Seq<char> {
    Seq::new(
        word.len(),
        |at: int|
            if at == 0 {
                capital_letter(word[at])
            } else {
                small_letter(word[at])
            },
    )
}

/// Texts of one character each are as many characters as there are texts.
proof fn single_letters_join(texts: Seq<Seq<char>>, whole: Seq<char>)
    requires
        texts.len() == whole.len(),
        forall|i: int| 0 <= i < texts.len() ==> #[trigger] texts[i] == seq![whole[i]],
    ensures
        joined(texts) == whole,
    decreases texts.len(),
{
    if texts.len() == 0 {
        assert(whole =~= Seq::<char>::empty());
    } else {
        single_letters_join(texts.drop_last(), whole.drop_last());
        assert(whole =~= whole.drop_last() + seq![whole.last()]);
    }
}

/// Returns a word as an opcode writes it.
pub fn opcode_name(word: &str) -> (name: String)
    ensures
        name@ == opcode_for(word@),
        plain_word(word@) ==> name@ == capitalized(word@),
        plain_word(word@) ==> name@.len() == word@.len(),
        plain_word(word@) && word@.len() > 0 && 97 <= (word@[0] as int) <= 122 ==> (name@[0] as int)
            == (word@[0] as int) - 32,
        plain_word(word@) && word@.len() > 0 && !(97 <= (word@[0] as int) <= 122) ==> name@[0]
            == word@[0],
        plain_word(word@) ==> forall|at: int|
            0 < at < word@.len() && 65 <= (#[trigger] word@[at] as int) <= 90 ==> (name@[at] as int)
                == (word@[at] as int) + 32,
        plain_word(word@) ==> forall|at: int|
            0 < at < word@.len() && !(65 <= (#[trigger] word@[at] as int) <= 90) ==> name@[at]
                == word@[at],
{
    let mut forms: Vec<String> = Vec::new();
    let length: usize = word.unicode_len();
    for at in 0..length
        invariant
            length == word@.len(),
            texts_of(forms@) =~= Seq::new(at as nat, |i: int| form_in_opcode(word@, i)),
            plain_word(word@) ==> forall|i: int|
                0 <= i < at ==> #[trigger] form_in_opcode(word@, i) == seq![
                    capitalized(word@)[i],
                ],
    {
        let letter = word.get_char(at);
        let form = if at == 0 {
            to_capital(letter)
        } else {
            to_small(letter)
        };
        let ghost before = forms@;
        forms.push(form);
        assert(texts_of(forms@) =~= texts_of(before).push(form_in_opcode(word@, at as int)));
    }
    proof {
        if plain_word(word@) {
            single_letters_join(texts_of(forms@), capitalized(word@));
        }
    }
    join(forms.as_slice())
}

/// What one step of a listing says.
#[verifier::ext_equal]
pub struct Line {
    /// The step's name.
    pub opcode: Seq<char>,
    /// Its first operand.
    pub p1: int,
    /// Its second operand.
    pub p2: int,
    /// Its argument.
    pub argument: Seq<char>,
    /// What it says of itself.
    pub comment: Seq<char>,
}

/// One step of a listing.
#[derive(Debug)]
pub struct Step {
    /// The step's name.
    pub opcode: String,
    /// Its first operand.
    pub p1: i64,
    /// Its second operand.
    pub p2: i64,
    /// Its argument.
    pub argument: String,
    /// What it says of itself.
    pub comment: String,
}

impl View for Step {
    type V = Line;

    open spec fn view(&self) -> Line {
        Line {
            opcode: self.opcode@,
            p1: self.p1 as int,
            p2: self.p2 as int,
            argument: self.argument@,
            comment: self.comment@,
        }
    }
}

/// What each step of a listing says.
pub open spec fn listing_of(program: Seq<Step>) -> Seq<Line> {
    program.map_values(|step: Step| step@)
}

/// Whether a character is part of the tree a plan's line is drawn in.
pub open spec fn drawn(letter: char) -> bool {
    letter == '`' || letter == '-' || letter == '|' || letter == ' '
}

/// How many characters before a plan's line are part of the drawing.
pub open spec fn drawn_before(line: Seq<char>) -> nat
    decreases line.len(),
{
    if line.len() > 0 && drawn(line[0]) {
        1 + drawn_before(line.drop_first())
    } else {
        0
    }
}

/// How many characters stand before a text's first space.
pub open spec fn word_len(text: Seq<char>) -> nat
    decreases text.len(),
{
    if text.len() == 0 || text[0] == ' ' {
        0
    } else {
        1 + word_len(text.drop_first())
    }
}

/// A plan's line without the drawing before it.
pub open spec fn undrawn(line: Seq<char>) -> Seq<char> {
    line.skip(drawn_before(line) as int)
}

/// The step one line of a plan stands for.
pub open spec fn line_of(line: Seq<char>, at: int) -> Line {
    let said = undrawn(line);
    let word = word_len(said) as int;
    Line {
        opcode: opcode_for(said.take(word)),
        p1: at,
        p2: at + 2,
        argument: if word < said.len() {
            said.skip(word + 1)
        } else {
            Seq::empty()
        },
        comment: said,
    }
}

/// The first word of a plan's line.
pub open spec fn word_in(line: Seq<char>) -> Seq<char> {
    undrawn(line).take(word_len(undrawn(line)) as int)
}

/// The step every listing starts with.
pub open spec fn starting() -> Line {
    Line { opcode: "Init"@, p1: 0, p2: 1, argument: Seq::empty(), comment: "Start at 1"@ }
}

/// The step every listing ends with.
pub open spec fn halting() -> Line {
    Line { opcode: "Halt"@, p1: 0, p2: 0, argument: Seq::empty(), comment: Seq::empty() }
}

/// The listing of a plan.
pub open spec fn program_for(lines: Seq<String>) -> Seq<Line> {
    seq![starting()] + lines.map(|at: int, line: String| line_of(line@, at)) + seq![halting()]
}

/// A listing runs from its start to its halt: every step but the last leads to
/// the one after it.
pub proof fn a_listing_runs_in_order(lines: Seq<String>, address: int)
    requires
        0 <= address < program_for(lines).len() - 1,
    ensures
        program_for(lines).len() == lines.len() + 2,
        program_for(lines)[address].p2 == address + 1,
        program_for(lines).last() == halting(),
{
}

/// The drawing ends where the characters say it does.
proof fn drawing_ends_at(line: Seq<char>, at: int)
    requires
        0 <= at <= line.len(),
        forall|i: int| 0 <= i < at ==> drawn(line[i]),
        at < line.len() ==> !drawn(line[at]),
    ensures
        drawn_before(line) == at,
    decreases at,
{
    if at > 0 {
        let rest = line.drop_first();
        assert forall|i: int| 0 <= i < at - 1 implies drawn(rest[i]) by {
            assert(rest[i] == line[i + 1]);
        }
        drawing_ends_at(rest, at - 1);
    }
}

/// The first word ends where the characters say it does.
proof fn word_ends_at(text: Seq<char>, at: int)
    requires
        0 <= at <= text.len(),
        forall|i: int| 0 <= i < at ==> text[i] != ' ',
        at < text.len() ==> text[at] == ' ',
    ensures
        word_len(text) == at,
    decreases at,
{
    if at > 0 {
        let rest = text.drop_first();
        assert forall|i: int| 0 <= i < at - 1 implies rest[i] != ' ' by {
            assert(rest[i] == text[i + 1]);
        }
        word_ends_at(rest, at - 1);
    }
}

/// Returns where the first word of a plan's line stands: past the drawing, and
/// up to the first space or the end.
pub fn first_word(line: &str) -> (place: (usize, usize))
    ensures
        place.0 == drawn_before(line@),
        place.1 == place.0 + word_len(undrawn(line@)),
        place.0 <= place.1 <= line@.len(),
{
    let length: usize = line.unicode_len();
    let mut from: usize = 0;
    while from < length && (line.get_char(from) == '`' || line.get_char(from) == '-'
        || line.get_char(from) == '|' || line.get_char(from) == ' ')
        invariant
            from <= length == line@.len(),
            forall|i: int| 0 <= i < from ==> drawn(line@[i]),
        decreases length - from,
    {
        from += 1;
    }
    proof {
        drawing_ends_at(line@, from as int);
    }
    let mut to: usize = from;
    while to < length && line.get_char(to) != ' '
        invariant
            from <= to <= length == line@.len(),
            forall|i: int| from <= i < to ==> line@[i] != ' ',
        decreases length - to,
    {
        to += 1;
    }
    proof {
        let said = undrawn(line@);
        assert forall|i: int| 0 <= i < to - from implies said[i] != ' ' by {
            assert(said[i] == line@[from + i]);
        }
        word_ends_at(said, to - from);
    }
    (from, to)
}

/// Returns the step one line of a plan stands for, under an opcode's name.
pub fn step_of(line: &str, at: usize, opcode: String) -> (step: Step)
    requires
        at + 2 <= i64::MAX,
    ensures
        step@ == (Line { opcode: opcode@, ..line_of(line@, at as int) }),
{
    let length: usize = line.unicode_len();
    let (from, to) = first_word(line);
    proof {
        reveal_strlit("");
    }
    let said = line.substring_char(from, length);
    assert(said@ =~= undrawn(line@));
    let argument = if to < length {
        line.substring_char(to + 1, length).to_owned()
    } else {
        "".to_owned()
    };
    assert(argument@ =~= line_of(line@, at as int).argument);
    Step { opcode, p1: at as i64, p2: at as i64 + 2, argument, comment: said.to_owned() }
}

/// Returns the listing of a plan, one step for each of its lines between a step
/// that starts and a step that halts.
pub fn program_of(lines: &[String]) -> (program: Vec<Step>)
    requires
        lines@.len() + 2 <= i64::MAX,
    ensures
        listing_of(program@) == program_for(lines@),
        forall|at: int|
            0 <= at < lines@.len() && plain_word(word_in((#[trigger] lines@[at])@))
                ==> program_for(lines@)[at + 1].opcode == capitalized(word_in(lines@[at]@)),
{
    let mut program: Vec<Step> = Vec::new();
    proof {
        reveal_strlit("");
    }
    program.push(
        Step {
            opcode: "Init".to_owned(),
            p1: 0,
            p2: 1,
            argument: "".to_owned(),
            comment: "Start at 1".to_owned(),
        },
    );
    assert(program@[0]@ =~= starting());
    let ghost all = lines@.map(|at: int, line: String| line_of(line@, at));
    assert(listing_of(program@) =~= seq![starting()] + all.take(0));
    for at in 0..lines.len()
        invariant
            lines@.len() + 2 <= i64::MAX,
            all == lines@.map(|at: int, line: String| line_of(line@, at)),
            listing_of(program@) =~= seq![starting()] + all.take(at as int),
            forall|i: int|
                0 <= i < at && plain_word(word_in((#[trigger] lines@[i])@)) ==> opcode_for(
                    word_in(lines@[i]@),
                ) == capitalized(word_in(lines@[i]@)),
    {
        let ghost before = program@;
        let line = lines[at].as_str();
        let (from, to) = first_word(line);
        let word = line.substring_char(from, to);
        assert(word@ =~= word_in(line@));
        let step = step_of(line, at, opcode_name(word));
        assert(step@ =~= line_of(line@, at as int));
        program.push(step);
        assert(listing_of(program@) =~= listing_of(before).push(step@));
        assert(all.take(at + 1) =~= all.take(at as int).push(step@));
    }
    assert(all.take(all.len() as int) =~= all);
    let ghost before = program@;
    let halt = Step {
        opcode: "Halt".to_owned(),
        p1: 0,
        p2: 0,
        argument: "".to_owned(),
        comment: "".to_owned(),
    };
    assert(halt@ =~= halting());
    program.push(halt);
    assert(listing_of(program@) =~= listing_of(before).push(halting()));
    assert(listing_of(program@) =~= program_for(lines@));
    assert forall|at: int|
        0 <= at < lines@.len() && plain_word(word_in((#[trigger] lines@[at])@)) implies program_for(
        lines@,
    )[at + 1].opcode == capitalized(word_in(lines@[at]@)) by {
        assert(program_for(lines@)[at + 1] == line_of(lines@[at]@, at));
    }
    program
}

/// The row a listing gives one of its steps.
pub open spec fn program_row(line: Line, address: int) -> Seq<Value> {
    seq![
        Value::Int(address as i64),
        Value::Text(encode_utf8(line.opcode)),
        Value::Int(line.p1 as i64),
        Value::Int(line.p2 as i64),
        Value::Int(0),
        Value::Text(encode_utf8(line.argument)),
        Value::Int(0),
        Value::Text(encode_utf8(line.comment)),
    ]
}

/// Returns the rows a listing is answered with.
pub fn program_rows(program: &[Step]) -> (outcome: Outcome)
    requires
        program@.len() <= i64::MAX,
    ensures
        outcome.changes == 0,
        owned_rows(outcome.rows@) == program@.map(
            |address: int, step: Step| program_row(step@, address),
        ),
        names_of(outcome.names@) == seq![
            ascii("addr"),
            ascii("opcode"),
            ascii("p1"),
            ascii("p2"),
            ascii("p3"),
            ascii("p4"),
            ascii("p5"),
            ascii("comment"),
        ],
{
    let mut rows: Vec<Vec<OwnedDatum>> = Vec::with_capacity(program.len());
    let ghost all = program@.map(|address: int, step: Step| program_row(step@, address));
    for at in 0..program.len()
        invariant
            program@.len() <= i64::MAX,
            all == program@.map(|address: int, step: Step| program_row(step@, address)),
            owned_rows(rows@) =~= all.take(at as int),
    {
        let step = &program[at];
        let ghost before = rows@;
        let row: Vec<OwnedDatum> = vec![
            OwnedDatum::Int(at as i64),
            OwnedDatum::Text(copied(step.opcode.as_str().as_bytes())),
            OwnedDatum::Int(step.p1),
            OwnedDatum::Int(step.p2),
            OwnedDatum::Int(0),
            OwnedDatum::Text(copied(step.argument.as_str().as_bytes())),
            OwnedDatum::Int(0),
            OwnedDatum::Text(copied(step.comment.as_str().as_bytes())),
        ];
        assert(owned_row(row@) =~= program_row(step@, at as int));
        rows.push(row);
        assert(owned_rows(rows@) =~= owned_rows(before).push(owned_row(row@)));
        assert(all.take(at + 1) =~= all.take(at as int).push(program_row(step@, at as int)));
    }
    assert(all.take(all.len() as int) =~= all);
    let names: Vec<Vec<u8>> = vec![
        copied("addr".as_bytes()),
        copied("opcode".as_bytes()),
        copied("p1".as_bytes()),
        copied("p2".as_bytes()),
        copied("p3".as_bytes()),
        copied("p4".as_bytes()),
        copied("p5".as_bytes()),
        copied("comment".as_bytes()),
    ];
    assert(names_of(names@) =~= seq![
        ascii("addr"),
        ascii("opcode"),
        ascii("p1"),
        ascii("p2"),
        ascii("p3"),
        ascii("p4"),
        ascii("p5"),
        ascii("comment"),
    ]);
    Outcome { rows, names, changes: 0 }
}

/// The row a plan's description gives one of its lines.
pub open spec fn plan_row(line: Seq<char>, position: int) -> Seq<Value> {
    seq![
        Value::Int(position as i64),
        Value::Int(0),
        Value::Int(0),
        Value::Text(encode_utf8(line)),
    ]
}

/// Returns the rows a plan's description is answered with.
pub fn query_plan_rows(lines: &[String]) -> (outcome: Outcome)
    requires
        lines@.len() <= i64::MAX,
    ensures
        outcome.changes == 0,
        owned_rows(outcome.rows@) == lines@.map(
            |position: int, line: String| plan_row(line@, position),
        ),
        names_of(outcome.names@) == seq![
            ascii("id"),
            ascii("parent"),
            ascii("notused"),
            ascii("detail"),
        ],
{
    let mut rows: Vec<Vec<OwnedDatum>> = Vec::with_capacity(lines.len());
    let ghost all = lines@.map(|position: int, line: String| plan_row(line@, position));
    for at in 0..lines.len()
        invariant
            lines@.len() <= i64::MAX,
            all == lines@.map(|position: int, line: String| plan_row(line@, position)),
            owned_rows(rows@) =~= all.take(at as int),
    {
        let ghost before = rows@;
        let row: Vec<OwnedDatum> = vec![
            OwnedDatum::Int(at as i64),
            OwnedDatum::Int(0),
            OwnedDatum::Int(0),
            OwnedDatum::Text(copied(lines[at].as_str().as_bytes())),
        ];
        assert(owned_row(row@) =~= plan_row(lines@[at as int]@, at as int));
        rows.push(row);
        assert(owned_rows(rows@) =~= owned_rows(before).push(owned_row(row@)));
        assert(all.take(at + 1) =~= all.take(at as int).push(
            plan_row(lines@[at as int]@, at as int),
        ));
    }
    assert(all.take(all.len() as int) =~= all);
    let names: Vec<Vec<u8>> = vec![
        copied("id".as_bytes()),
        copied("parent".as_bytes()),
        copied("notused".as_bytes()),
        copied("detail".as_bytes()),
    ];
    assert(names_of(names@) =~= seq![
        ascii("id"),
        ascii("parent"),
        ascii("notused"),
        ascii("detail"),
    ]);
    Outcome { rows, names, changes: 0 }
}

/// A line of a plan is drawn, then says a word, and after a space whatever else it says:
/// its step is named by the word, says the rest as its argument and all of it as its
/// comment, and leads to the step after it.
pub proof fn a_step_says_its_line(
    drawing: Seq<char>,
    word: Seq<char>,
    rest: Seq<char>,
    at: int,
)
    requires
        forall|i: int|
            0 <= i < drawing.len() ==> (#[trigger] drawing[i]) == '`' || drawing[i] == '-'
                || drawing[i] == '|' || drawing[i] == ' ',
        word.len() > 0,
        word[0] != '`' && word[0] != '-' && word[0] != '|',
        forall|i: int| 0 <= i < word.len() ==> #[trigger] word[i] != ' ',
    ensures
        ({
            let made = line_of(drawing + word + seq![' '] + rest, at);
            &&& made.opcode == opcode_for(word)
            &&& made.p1 == at
            &&& made.p2 == at + 2
            &&& made.argument == rest
            &&& made.comment == word + seq![' '] + rest
        }),
        ({
            let made = line_of(drawing + word, at);
            &&& made.opcode == opcode_for(word)
            &&& made.p1 == at
            &&& made.p2 == at + 2
            &&& made.argument.len() == 0
            &&& made.comment == word
        }),
{
    assert(word[0] != ' ');
    let long = drawing + word + seq![' '] + rest;
    let from = drawing.len() as int;
    assert forall|i: int| 0 <= i < from implies drawn(long[i]) by {
        assert(long[i] == drawing[i]);
    }
    assert(long[from] == word[0]);
    drawing_ends_at(long, from);
    let said = undrawn(long);
    assert(said =~= word + seq![' '] + rest);
    assert forall|i: int| 0 <= i < word.len() implies said[i] != ' ' by {
        assert(said[i] == word[i]);
    }
    assert(said[word.len() as int] == ' ');
    word_ends_at(said, word.len() as int);
    assert(said.take(word.len() as int) =~= word);
    assert(said.skip(word.len() as int + 1) =~= rest);
    let short = drawing + word;
    assert forall|i: int| 0 <= i < from implies drawn(short[i]) by {
        assert(short[i] == drawing[i]);
    }
    assert(short[from] == word[0]);
    drawing_ends_at(short, from);
    let alone = undrawn(short);
    assert(alone =~= word);
    word_ends_at(alone, word.len() as int);
    assert(alone.take(word.len() as int) =~= word);
}

/// A listing starts, then has a step for each line of its plan, and halts.
pub proof fn a_listing_is_its_plans_lines(lines: Seq<String>, at: int)
    ensures
        ({
            let listing = program_for(lines);
            let last = listing[lines.len() as int + 1];
            &&& listing.len() == lines.len() + 2
            &&& listing[0].opcode == "Init"@ && listing[0].p1 == 0 && listing[0].p2 == 1
            &&& listing[0].argument.len() == 0 && listing[0].comment == "Start at 1"@
            &&& 0 <= at < lines.len() ==> listing[at + 1] == line_of(lines[at]@, at)
            &&& last.opcode == "Halt"@ && last.p1 == 0 && last.p2 == 0
            &&& last.argument.len() == 0 && last.comment.len() == 0
        }),
{
}

/// Texts joined are one after the other, nothing between them.
pub proof fn texts_join_end_to_end(before: Seq<Seq<char>>, text: Seq<char>)
    ensures
        joined(Seq::empty()).len() == 0,
        joined(before.push(text)) == joined(before) + text,
{
    assert(before.push(text).drop_last() =~= before);
    assert(before.push(text).last() == text);
}

/// A step is told by its row of a listing, and a line of a plan by its own.
pub proof fn a_line_is_told_by_its_row(line: Line, text: Seq<char>, address: int)
    requires
        0 <= address <= i64::MAX,
        i64::MIN <= line.p1 <= i64::MAX,
        i64::MIN <= line.p2 <= i64::MAX,
    ensures
        ({
            let row = program_row(line, address);
            &&& row.len() == 8
            &&& row[0] is Int && row[0]->Int_0 == address
            &&& row[1] == Value::Text(encode_utf8(line.opcode))
            &&& row[2] is Int && row[2]->Int_0 == line.p1
            &&& row[3] is Int && row[3]->Int_0 == line.p2
            &&& row[4] == Value::Int(0) && row[6] == Value::Int(0)
            &&& row[5] == Value::Text(encode_utf8(line.argument))
            &&& row[7] == Value::Text(encode_utf8(line.comment))
        }),
        ({
            let row = plan_row(text, address);
            &&& row.len() == 4
            &&& row[0] is Int && row[0]->Int_0 == address
            &&& row[1] == Value::Int(0) && row[2] == Value::Int(0)
            &&& row[3] == Value::Text(encode_utf8(text))
        }),
{
}

} // verus!
