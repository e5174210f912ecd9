//! Questions asked about one table's declaration.
//!
//! Every answer comes from the declaration handed in, so it is the same whether
//! the declaration was read out of the catalog or out of a statement that has
//! not been committed yet.

use vstd::prelude::*;
use vstd::string::StrSliceExecFns;
use vstd::utf8::encode_utf8;

use crate::schema::TableInfo;
use crate::text::{
    ascii, begins, characters, copied, fold, folded, read_text, same_folded, trim_text,
    trimmed_text,
};

verus! {

/// How many characters stand before the first equals sign, all of them when
/// there is none.
pub open spec fn sign_at(text: Seq<char>) -> int
    decreases text.len(),
{
    if text.len() == 0 || text[0] == '=' {
        0
    } else {
        1 + sign_at(text.drop_first())
    }
}

/// The first equals sign is where the characters say it is.
proof fn sign_is_at(text: Seq<char>, at: int)
    requires
        0 <= at <= text.len(),
        forall|i: int| 0 <= i < at ==> text[i] != '=',
        at < text.len() ==> text[at] == '=',
    ensures
        sign_at(text) == at,
    decreases at,
{
    if at > 0 {
        let rest = text.drop_first();
        assert forall|i: int| 0 <= i < at - 1 implies rest[i] != '=' by {
            assert(rest[i] == text[i + 1]);
        }
        sign_is_at(rest, at - 1);
    }
}

/// Whether a module argument is the one of a name.
pub open spec fn argument_named(argument: Seq<u8>, name: Seq<u8>) -> bool {
    let text = characters(argument);
    sign_at(text) < text.len() && folded(
        encode_utf8(trimmed_text(text.take(sign_at(text)))),
    ) == folded(name)
}

/// What a module argument says after its equals sign.
pub open spec fn argument_value(argument: Seq<u8>) -> Seq<char> {
    let text = characters(argument);
    trimmed_text(text.subrange(sign_at(text) + 1, text.len() as int))
}

/// Returns the value of one `name=value` module argument, when it is there.
///
/// The first argument of that name decides; one that says nothing after its
/// equals sign is no argument.
pub fn argument_of(arguments: &[Vec<u8>], name: &[u8]) -> (value: Option<Vec<u8>>)
    ensures
        match value {
            Some(found) => exists|i: int|
                0 <= i < arguments@.len() && #[trigger] argument_named(arguments@[i]@, name@)
                    && found@ == encode_utf8(argument_value(arguments@[i]@)) && argument_value(
                    arguments@[i]@,
                ).len() > 0 && (forall|j: int|
                    0 <= j < i ==> !#[trigger] argument_named(arguments@[j]@, name@)),
            None => forall|i: int|
                0 <= i < arguments@.len() && #[trigger] argument_named(arguments@[i]@, name@) && (
                forall|j: int| 0 <= j < i ==> !#[trigger] argument_named(arguments@[j]@, name@))
                    ==> argument_value(arguments@[i]@).len() == 0,
        },
{
    for at in 0..arguments.len()
        invariant
            forall|j: int| 0 <= j < at ==> !#[trigger] argument_named(arguments@[j]@, name@),
    {
        let text = read_text(arguments[at].as_slice());
        let argument: &str = text.as_str();
        let length: usize = argument.unicode_len();
        let mut sign: usize = 0;
        while sign < length && argument.get_char(sign) != '='
            invariant
                sign <= length == argument@.len(),
                forall|i: int| 0 <= i < sign ==> argument@[i] != '=',
            decreases length - sign,
        {
            sign += 1;
        }
        proof {
            sign_is_at(argument@, sign as int);
        }
        if sign < length {
            let before = argument.substring_char(0, sign);
            assert(before@ =~= argument@.take(sign as int));
            if same_folded(trim_text(before).as_bytes(), name) {
                let value = trim_text(argument.substring_char(sign + 1, length));
                assert(argument_named(arguments@[at as int]@, name@));
                if value.unicode_len() == 0 {
                    return None;
                }
                return Some(copied(value.as_bytes()));
            }
        }
        assert(!argument_named(arguments@[at as int]@, name@));
    }
    None
}

/// Whether a name is a module's own name, an underscore and more.
pub open spec fn shadow_of(owner: Seq<u8>, name: Seq<u8>) -> bool {
    name.len() > owner.len() + 1 && begins(name, owner) && name[owner.len() as int] == 95
}

/// Reports whether a table is one a virtual table owns.
///
/// It is recognised by its prefix rather than by a list of suffixes, because the
/// suffixes are the module's to choose.
pub fn is_shadow_of(owners: &[Vec<u8>], name: &[u8]) -> (answer: bool)
    ensures
        answer == exists|i: int|
            0 <= i < owners@.len() && shadow_of(#[trigger] owners@[i]@, name@),
        answer == exists|i: int|
            0 <= i < owners@.len() && name@.len() >= (#[trigger] owners@[i])@.len() + 2
                && name@.take(owners@[i]@.len() as int) == owners@[i]@
                && name@[owners@[i]@.len() as int] == 95,
{
    for at in 0..owners.len()
        invariant
            forall|i: int| 0 <= i < at ==> !shadow_of(#[trigger] owners@[i]@, name@),
            forall|i: int|
                0 <= i < at ==> !(name@.len() >= (#[trigger] owners@[i])@.len() + 2 && name@.take(
                    owners@[i]@.len() as int,
                ) == owners@[i]@ && name@[owners@[i]@.len() as int] == 95),
    {
        let owner: &[u8] = owners[at].as_slice();
        if crate::text::begins_with(name, owner) && name.len() - owner.len() > 1
            && name[owner.len()] == 95 {
            assert(shadow_of(owners@[at as int]@, name@));
            return true;
        }
    }
    false
}

/// Whether a declared column is computed on read and never written.
pub open spec fn computed_on_read(info: TableInfo, declared: int) -> bool {
    0 <= declared < info.columns@.len() && info.columns@[declared].generated
        && !info.columns@[declared].stored
}

/// Reports whether a declared column is a `VIRTUAL` generated one.
///
/// Such a column occupies no field of a record and no column of a tree; a
/// `STORED` one is an ordinary column that an expression happened to fill in.
pub fn is_virtual_column(info: &TableInfo, declared: usize) -> (answer: bool)
    ensures
        answer == computed_on_read(*info, declared as int),
        answer == (declared < info.columns@.len() && info.columns@[declared as int].generated
            && !info.columns@[declared as int].stored),
{
    declared < info.columns.len() && info.columns[declared].generated
        && !info.columns[declared].stored
}

/// The first declared positions a table's record holds, in record order.
pub open spec fn recorded_positions(info: TableInfo, upto: int) -> Seq<int>
    decreases upto,
{
    if upto <= 0 {
        Seq::empty()
    } else if computed_on_read(info, upto - 1) {
        recorded_positions(info, upto - 1)
    } else {
        recorded_positions(info, upto - 1).push(upto - 1)
    }
}

/// What a list of positions is, as integers.
pub open spec fn as_ints(positions: Seq<usize>) -> Seq<int> {
    positions.map_values(|position: usize| position as int)
}

/// Returns the declared positions a table's record holds, in record order.
///
/// The rowid-alias column is among them, because a record does carry a field for
/// it.
pub fn stored_positions(info: &TableInfo) -> (positions: Vec<usize>)
    ensures
        as_ints(positions@) == recorded_positions(*info, info.columns@.len() as int),
        forall|i: int, j: int|
            0 <= i < j < positions@.len() ==> #[trigger] positions@[i] < #[trigger] positions@[j],
        forall|i: int|
            0 <= i < positions@.len() ==> #[trigger] positions@[i] < info.columns@.len() && !(
            info.columns@[positions@[i] as int].generated
                && !info.columns@[positions@[i] as int].stored),
        forall|declared: int|
            0 <= declared < info.columns@.len() && !((#[trigger] info.columns@[declared]).generated
                && !info.columns@[declared].stored) ==> positions@.contains(declared as usize),
{
    let mut positions: Vec<usize> = Vec::with_capacity(info.columns.len());
    for declared in 0..info.columns.len()
        invariant
            as_ints(positions@) =~= recorded_positions(*info, declared as int),
            forall|i: int, j: int|
                0 <= i < j < positions@.len() ==> #[trigger] positions@[i]
                    < #[trigger] positions@[j],
            forall|i: int|
                0 <= i < positions@.len() ==> #[trigger] positions@[i] < declared && !(
                info.columns@[positions@[i] as int].generated
                    && !info.columns@[positions@[i] as int].stored),
            forall|held: int|
                0 <= held < declared && !((#[trigger] info.columns@[held]).generated
                    && !info.columns@[held].stored) ==> positions@.contains(held as usize),
    {
        let ghost before = positions@;
        if !is_virtual_column(info, declared) {
            positions.push(declared);
            assert(as_ints(positions@) =~= as_ints(before).push(declared as int));
            assert(positions@[before.len() as int] == declared);
        }
        assert forall|held: int|
            0 <= held < declared + 1 && !((#[trigger] info.columns@[held]).generated
                && !info.columns@[held].stored) implies positions@.contains(held as usize) by {
            if held < declared {
                assert(before.contains(held as usize));
                let at = choose|at: int| 0 <= at < before.len() && before[at] == held as usize;
                assert(positions@[at] == held as usize);
            }
        }
    }
    positions
}

/// A record holds exactly the columns that are not computed on read, each once
/// and in declared order.
pub proof fn a_record_holds_what_is_stored(info: TableInfo, upto: int)
    requires
        0 <= upto <= info.columns@.len(),
    ensures
        forall|declared: int|
            #[trigger] recorded_positions(info, upto).contains(declared) <==> (0 <= declared < upto
                && !computed_on_read(info, declared)),
        forall|i: int, j: int|
            0 <= i < j < recorded_positions(info, upto).len() ==> recorded_positions(info, upto)[i]
                < recorded_positions(info, upto)[j],
    decreases upto,
{
    if upto > 0 {
        a_record_holds_what_is_stored(info, upto - 1);
        let less = recorded_positions(info, upto - 1);
        let all = recorded_positions(info, upto);
        assert forall|declared: int| all.contains(declared) <==> (0 <= declared < upto
            && !computed_on_read(info, declared)) by {
            if all.contains(declared) {
                let i = choose|i: int| 0 <= i < all.len() && all[i] == declared;
                if i < less.len() {
                    assert(less[i] == declared);
                    assert(less.contains(declared));
                }
            }
            if 0 <= declared < upto && !computed_on_read(info, declared) {
                if declared < upto - 1 {
                    assert(less.contains(declared));
                    let i = choose|i: int| 0 <= i < less.len() && less[i] == declared;
                    assert(all[i] == declared);
                } else {
                    assert(all[all.len() - 1] == declared);
                }
            }
        }
        assert forall|i: int, j: int| 0 <= i < j < all.len() implies all[i] < all[j] by {
            assert(all[i] == less[i]);
            if j < less.len() {
                assert(all[j] == less[j]);
                assert(less[i] < less[j]);
            } else {
                assert(less.contains(less[i]));
                assert(all[j] == upto - 1);
            }
        }
    }
}

/// Whether a declaration is another under a different name.
pub open spec fn renamed(before: TableInfo, after: TableInfo, name: Seq<u8>) -> bool {
    &&& after.name@ == name
    &&& after.folded@ == folded(name)
    &&& after.kind == before.kind
    &&& after.root == before.root
    &&& after.without_rowid == before.without_rowid
    &&& after.rowid_alias == before.rowid_alias
    &&& after.columns == before.columns
    &&& after.indexes == before.indexes
    &&& after.foreign_keys == before.foreign_keys
    &&& after.triggers == before.triggers
    &&& after.create_sql == before.create_sql
}

/// Returns one schema's catalog declaration under another name.
pub fn schema_named(schema: TableInfo, name: &[u8]) -> (alias: TableInfo)
    ensures
        renamed(schema, alias, name@),
        alias.name@ == name@ && alias.folded@ == folded(name@),
        alias.root == schema.root && alias.columns == schema.columns && alias.indexes
            == schema.indexes && alias.kind == schema.kind,
{
    let mut alias = schema;
    alias.name = copied(name);
    alias.folded = fold(name);
    alias
}

/// Returns `sqlite_schema` under the name almost every tool types.
pub fn schema_alias_of(schema: TableInfo) -> (alias: TableInfo)
    ensures
        renamed(schema, alias, ascii("sqlite_master")),
{
    schema_named(schema, "sqlite_master".as_bytes())
}

/// A module argument is split at its first equals sign: what is before it, without the
/// white space around it and in either case, is the argument's name, and what is after
/// it, without the white space around it, is what it says. One without a sign has no
/// name.
pub proof fn an_argument_is_split_at_its_sign(
    argument: Seq<u8>,
    before: Seq<char>,
    after: Seq<char>,
    name: Seq<u8>,
)
    requires
        !before.contains('='),
    ensures
        characters(argument) == before + seq!['='] + after ==> argument_value(argument)
            == trimmed_text(after) && (argument_named(argument, name) <==> folded(
            encode_utf8(trimmed_text(before)),
        ) == folded(name)),
        characters(argument) == before ==> !argument_named(argument, name),
{
    let text = characters(argument);
    if text == before + seq!['='] + after {
        let at = before.len() as int;
        assert forall|i: int| 0 <= i < at implies text[i] != '=' by {
            assert(text[i] == before[i]);
            assert(before.contains(before[i]));
        }
        assert(text[at] == '=');
        sign_is_at(text, at);
        assert(text.take(at) =~= before);
        assert(text.subrange(at + 1, text.len() as int) =~= after);
    }
    if text == before {
        assert forall|i: int| 0 <= i < text.len() implies text[i] != '=' by {
            assert(before.contains(before[i]));
        }
        sign_is_at(text, text.len() as int);
    }
}

} // verus!
