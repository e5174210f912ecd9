//! The tables that describe a file: its pages, and how full each is.

use vstd::prelude::*;

use crate::schema::Recorded;
use crate::text::{ascii, copied, decimal, write_decimal};
use crate::values::{owned_row, owned_rows, OwnedDatum, Value};

verus! {

/// The columns a file's pages are described through.
pub const DBSTAT_COLUMNS: [&'static str; 10] = [
    "name",
    "path",
    "pageno",
    "pagetype",
    "ncell",
    "payload",
    "unused",
    "mx_payload",
    "pgoffset",
    "pgsize",
];

/// The columns a file's pages are read through.
pub const DBPAGE_COLUMNS: [&'static str; 2] = ["pgno", "data"];

/// What one leaf of a tree says of itself.
#[derive(Clone, Copy, Debug, PartialEq, Eq, Structural)]
pub struct LeafFacts {
    /// Its page.
    pub page: u64,
    /// How many rows it was built with.
    pub rows: usize,
    /// How many were added since.
    pub deltas: usize,
    /// Where the bytes of its longer values begin.
    pub heap_start: usize,
    /// The page of the leaf after it, zero for none.
    pub next: u64,
}

/// How many rows a leaf holds.
pub open spec fn cells_of(leaf: LeafFacts) -> int {
    leaf.rows + leaf.deltas
}

/// How many bytes of a leaf are written.
pub open spec fn used_of(leaf: LeafFacts, page_size: int) -> int {
    if leaf.heap_start >= page_size {
        0
    } else {
        page_size - leaf.heap_start
    }
}

/// A number no greater than the greatest there is.
pub open spec fn at_most(number: int) -> i64 {
    if number > i64::MAX {
        i64::MAX
    } else {
        number as i64
    }
}

/// A number in at least four digits, with zeros before it.
pub open spec fn four_digits(number: nat) -> Seq<u8> {
    let said = decimal(number);
    if said.len() < 4 {
        Seq::new((4 - said.len()) as nat, |i: int| 48u8) + said
    } else {
        said
    }
}

/// Where a leaf stands in its tree's chain, as a path.
pub open spec fn leaf_path(ordinal: nat) -> Seq<u8> {
    ascii("/") + four_digits(ordinal) + ascii("/")
}

/// The row that describes one leaf.
pub open spec fn leaf_row(
    name: Seq<u8>,
    ordinal: nat,
    leaf: LeafFacts,
    page_size: int,
) -> Seq<Value> {
    let cells = cells_of(leaf);
    let used = used_of(leaf, page_size);
    seq![
        Value::Text(name),
        Value::Text(leaf_path(ordinal)),
        Value::Int(leaf.page as i64),
        Value::Text(ascii("leaf")),
        Value::Int(cells as i64),
        Value::Int(used as i64),
        Value::Int((page_size - used) as i64),
        Value::Int(
            if cells > 0 {
                (used / cells) as i64
            } else {
                0
            },
        ),
        Value::Int(at_most(leaf.page * page_size)),
        Value::Int(page_size as i64),
    ]
}

/// Writes a number in at least four digits.
fn write_four(number: u64, out: &mut Vec<u8>)
    ensures
        final(out)@ == old(out)@ + four_digits(number as nat),
{
    let ghost before = out@;
    let mut said: Vec<u8> = Vec::new();
    write_decimal(number, &mut said);
    assert(said@ =~= decimal(number as nat));
    if said.len() < 4 {
        let zeros: usize = 4 - said.len();
        for at in 0..zeros
            invariant
                out@ =~= before + Seq::new(at as nat, |i: int| 48u8),
        {
            out.push(48);
        }
    }
    crate::text::append(out, said.as_slice());
    assert(out@ =~= before + four_digits(number as nat));
}

/// Returns the row that describes one leaf of a tree.
pub fn dbstat_row(name: &[u8], ordinal: u64, leaf: LeafFacts, page_size: usize) -> (row: Vec<
    OwnedDatum,
>)
    requires
        leaf.page <= i64::MAX,
        leaf.rows + leaf.deltas <= i64::MAX,
        page_size <= i64::MAX,
    ensures
        owned_row(row@) == leaf_row(name@, ordinal as nat, leaf, page_size as int),
{
    let size: i64 = page_size as i64;
    let cells: i64 = leaf.rows as i64 + leaf.deltas as i64;
    let used: i64 = if leaf.heap_start >= page_size {
        0
    } else {
        size - leaf.heap_start as i64
    };
    let unused: i64 = size - used;
    let share: i64 = if cells > 0 {
        used / cells
    } else {
        0
    };
    proof {
        vstd::arithmetic::mul::lemma_mul_nonnegative(leaf.page as int, page_size as int);
        vstd::arithmetic::mul::lemma_mul_upper_bound(
            leaf.page as int,
            i64::MAX as int,
            page_size as int,
            i64::MAX as int,
        );
    }
    let wide: i128 = leaf.page as i128 * page_size as i128;
    let offset: i64 = if wide > i64::MAX as i128 {
        i64::MAX
    } else {
        wide as i64
    };
    let mut path: Vec<u8> = copied("/".as_bytes());
    write_four(ordinal, &mut path);
    crate::text::append(&mut path, "/".as_bytes());
    assert(path@ =~= leaf_path(ordinal as nat));
    let row: Vec<OwnedDatum> = vec![
        OwnedDatum::Text(copied(name)),
        OwnedDatum::Text(path),
        OwnedDatum::Int(leaf.page as i64),
        OwnedDatum::Text(copied("leaf".as_bytes())),
        OwnedDatum::Int(cells),
        OwnedDatum::Int(used),
        OwnedDatum::Int(unused),
        OwnedDatum::Int(share),
        OwnedDatum::Int(offset),
        OwnedDatum::Int(size),
    ];
    assert(owned_row(row@) =~= leaf_row(name@, ordinal as nat, leaf, page_size as int));
    row
}

/// The leaf a walk along a tree's chain goes to next, and how many it has then
/// passed: none at the chain's end, at a leaf that leads to itself, or once it
/// has passed more leaves than the file has pages.
///
/// The last two end a walk along a chain that is damaged.
pub open spec fn walk_on(leaf: LeafFacts, ordinal: u64, pages: u64) -> Option<(u64, u64)> {
    let limit = if pages == u64::MAX {
        u64::MAX as int
    } else {
        pages + 1
    };
    if leaf.next == leaf.page || leaf.next == 0 || ordinal + 1 >= limit {
        None
    } else {
        Some((leaf.next, (ordinal + 1) as u64))
    }
}

/// Returns the leaf a walk along a tree's chain goes to next.
pub fn next_leaf(leaf: LeafFacts, ordinal: u64, pages: u64) -> (next: Option<(u64, u64)>)
    ensures
        next == walk_on(leaf, ordinal, pages),
        next is Some ==> next->Some_0 == (leaf.next, (ordinal + 1) as u64),
        next is Some <==> leaf.next != 0 && leaf.next != leaf.page && ordinal < pages && ordinal
            < u64::MAX - 1,
{
    if leaf.next == leaf.page || leaf.next == 0 {
        return None;
    }
    let limit: u64 = pages.saturating_add(1);
    if ordinal >= limit || ordinal + 1 >= limit {
        return None;
    }
    Some((leaf.next, ordinal + 1))
}

/// A walk along a tree's chain ends: each step passes one leaf more, and none
/// passes more than the file has pages.
pub proof fn a_walk_ends(leaf: LeafFacts, ordinal: u64, pages: u64)
    ensures
        walk_on(leaf, ordinal, pages) matches Some(next) ==> next.1 == ordinal + 1 && next.1
            <= pages,
{
}

/// The leaves of one tree that could be read, in the order of its chain.
#[derive(Debug)]
pub struct Chain {
    /// The handle the tree is registered under.
    pub root: u32,
    /// How many bytes a page of its file has.
    pub page_size: usize,
    /// Its leaves.
    pub leaves: Vec<LeafFacts>,
}

/// Whether what a tree's leaves say fits the numbers they are told in.
pub open spec fn fits(tree: Chain) -> bool {
    &&& tree.page_size <= i64::MAX
    &&& forall|i: int|
        0 <= i < tree.leaves@.len() ==> (#[trigger] tree.leaves@[i]).page <= i64::MAX
            && tree.leaves@[i].rows + tree.leaves@[i].deltas <= i64::MAX
}

/// The first tree registered under a handle.
pub open spec fn chain_under(trees: Seq<Chain>, root: u32) -> Option<Chain>
    decreases trees.len(),
{
    if trees.len() == 0 {
        None
    } else if trees[0].root == root {
        Some(trees[0])
    } else {
        chain_under(trees.drop_first(), root)
    }
}

/// The rows that describe the first of a tree's leaves.
pub open spec fn rows_of_tree(name: Seq<u8>, tree: Chain, upto: nat) -> Seq<Seq<Value>> {
    Seq::new(
        upto,
        |i: int| leaf_row(name, i as nat, tree.leaves@[i], tree.page_size as int),
    )
}

/// The rows that describe the trees of one object, none for one without a tree.
pub open spec fn rows_of_object(held: Recorded, trees: Seq<Chain>) -> Seq<Seq<Value>> {
    if held.root == 0 {
        Seq::empty()
    } else {
        match chain_under(trees, held.root) {
            Some(tree) => rows_of_tree(held.entry.name@, tree, tree.leaves@.len()),
            None => Seq::empty(),
        }
    }
}

/// The rows that describe the trees of the first of some objects, in the order
/// of the objects.
pub open spec fn rows_of_objects(
    entries: Seq<Recorded>,
    trees: Seq<Chain>,
    upto: int,
) -> Seq<Seq<Value>>
    decreases upto,
{
    if upto <= 0 {
        Seq::empty()
    } else {
        rows_of_objects(entries, trees, upto - 1) + rows_of_object(entries[upto - 1], trees)
    }
}

/// Returns the first tree registered under a handle.
fn find_chain<'a>(trees: &'a [Chain], root: u32) -> (found: Option<&'a Chain>)
    ensures
        match found {
            Some(tree) => chain_under(trees@, root) == Some(*tree) && trees@.contains(*tree),
            None => chain_under(trees@, root) is None,
        },
{
    assert(trees@.skip(0) =~= trees@);
    for at in 0..trees.len()
        invariant
            chain_under(trees@, root) == chain_under(trees@.skip(at as int), root),
    {
        let ghost rest = trees@.skip(at as int);
        assert(rest[0] == trees@[at as int]);
        assert(rest.drop_first() =~= trees@.skip(at + 1));
        if trees[at].root == root {
            return Some(&trees[at]);
        }
    }
    None
}

/// Returns one row for each leaf of every tree, the leaves of one object
/// together and the objects in the order of the catalog.
///
/// An object whose tree is not open is passed over, and so is every leaf that
/// could not be read: what is left still describes the file.
pub fn dbstat_rows(entries: &[Recorded], trees: &[Chain]) -> (rows: Vec<Vec<OwnedDatum>>)
    requires
        forall|i: int| 0 <= i < trees@.len() ==> fits(#[trigger] trees@[i]),
    ensures
        owned_rows(rows@) == rows_of_objects(entries@, trees@, entries@.len() as int),
{
    let mut rows: Vec<Vec<OwnedDatum>> = Vec::new();
    for at in 0..entries.len()
        invariant
            forall|i: int| 0 <= i < trees@.len() ==> fits(#[trigger] trees@[i]),
            owned_rows(rows@) =~= rows_of_objects(entries@, trees@, at as int),
    {
        let ghost before = owned_rows(rows@);
        let held: &Recorded = &entries[at];
        if held.root != 0 {
            if let Some(tree) = find_chain(trees, held.root) {
                let name: &[u8] = held.entry.name.as_slice();
                assert(fits(*tree));
                for ordinal in 0..tree.leaves.len()
                    invariant
                        name@ == held.entry.name@,
                        fits(*tree),
                        owned_rows(rows@) =~= before + rows_of_tree(name@, *tree, ordinal as nat),
                {
                    let row = dbstat_row(
                        name,
                        ordinal as u64,
                        tree.leaves[ordinal],
                        tree.page_size,
                    );
                    let ghost so_far = rows@;
                    rows.push(row);
                    assert(owned_rows(rows@) =~= owned_rows(so_far).push(owned_row(row@)));
                }
            }
        }
        assert(owned_rows(rows@) =~= before + rows_of_object(entries@[at as int], trees@));
    }
    rows
}

/// Returns the row that holds one page of a file.
pub fn dbpage_row(page: u64, bytes: &[u8]) -> (row: Vec<OwnedDatum>)
    requires
        page <= i64::MAX,
    ensures
        owned_row(row@) == seq![Value::Int(page as i64), Value::Blob(bytes@)],
{
    let row: Vec<OwnedDatum> = vec![OwnedDatum::Int(page as i64), OwnedDatum::Blob(copied(bytes))];
    assert(owned_row(row@) =~= seq![Value::Int(page as i64), Value::Blob(bytes@)]);
    row
}

/// A leaf's row tells its leaf: the rows it was built with and those added since,
/// what of the page is written and what is not, the even share of each row, and where
/// the page stands in the file.
pub proof fn a_leaf_is_told_by_its_row(
    name: Seq<u8>,
    ordinal: nat,
    leaf: LeafFacts,
    page_size: int,
)
    requires
        leaf.page <= i64::MAX,
        leaf.rows + leaf.deltas <= i64::MAX,
        0 <= page_size <= i64::MAX,
    ensures
        ({
            let row = leaf_row(name, ordinal, leaf, page_size);
            &&& row.len() == 10
            &&& row[0] == Value::Text(name)
            &&& row[1] is Text
            &&& row[2] is Int && row[2]->Int_0 == leaf.page
            &&& row[3] == Value::Text(ascii("leaf"))
            &&& row[4] is Int && row[4]->Int_0 == leaf.rows + leaf.deltas
            &&& row[5] is Int && row[6] is Int && row[5]->Int_0 + row[6]->Int_0 == page_size
            &&& leaf.heap_start < page_size ==> row[6]->Int_0 == leaf.heap_start
            &&& leaf.heap_start >= page_size ==> row[5]->Int_0 == 0
            &&& row[7] is Int
            &&& leaf.rows + leaf.deltas == 0 ==> row[7]->Int_0 == 0
            &&& leaf.rows + leaf.deltas > 0 ==> row[7]->Int_0 * (leaf.rows + leaf.deltas)
                <= row[5]->Int_0 < (row[7]->Int_0 + 1) * (leaf.rows + leaf.deltas)
            &&& row[8] is Int
            &&& leaf.page * page_size <= i64::MAX ==> row[8]->Int_0 == leaf.page * page_size
            &&& leaf.page * page_size > i64::MAX ==> row[8]->Int_0 == i64::MAX
            &&& row[9] is Int && row[9]->Int_0 == page_size
        }),
{
    let cells = leaf.rows + leaf.deltas;
    let used = used_of(leaf, page_size);
    vstd::arithmetic::mul::lemma_mul_nonnegative(leaf.page as int, page_size);
    if cells > 0 {
        let share = used / cells;
        vstd::arithmetic::div_mod::lemma_fundamental_div_mod(used, cells);
        vstd::arithmetic::div_mod::lemma_mod_bound(used, cells);
        assert(cells * share == share * cells) by (nonlinear_arith);
        assert((share + 1) * cells == share * cells + cells) by (nonlinear_arith);
        assert(0 <= share <= used) by (nonlinear_arith)
            requires
                cells > 0,
                used >= 0,
                share * cells <= used,
                share == used / cells,
        ;
    }
}

/// A leaf's path is its place in the chain between two strokes, in no fewer than four
/// digits: noughts fill it up, and nothing is cut off.
pub proof fn a_path_tells_its_place(ordinal: nat)
    ensures
        leaf_path(ordinal) == ascii("/") + four_digits(ordinal) + ascii("/"),
        four_digits(ordinal).len() >= 4,
        four_digits(ordinal).len() > 4 ==> four_digits(ordinal) == decimal(ordinal),
        four_digits(ordinal).len() == 4 ==> decimal(ordinal).len() <= 4,
        four_digits(ordinal).subrange(
            four_digits(ordinal).len() - decimal(ordinal).len(),
            four_digits(ordinal).len() as int,
        ) == decimal(ordinal),
        forall|i: int|
            0 <= i < four_digits(ordinal).len() - decimal(ordinal).len() ==> #[trigger] four_digits(
                ordinal,
            )[i] == 48,
{
    assert(four_digits(ordinal).subrange(
        four_digits(ordinal).len() - decimal(ordinal).len(),
        four_digits(ordinal).len() as int,
    ) =~= decimal(ordinal));
}

/// Every leaf of a tree of an object has its row, after the rows of the objects before
/// it and of the leaves before it; an object adds as many rows as its tree has leaves,
/// and none where it has no tree or its tree is not open.
pub proof fn every_leaf_has_its_row(
    entries: Seq<Recorded>,
    trees: Seq<Chain>,
    at: int,
    which: int,
    leaf: int,
)
    requires
        0 <= at < entries.len(),
        0 <= which < trees.len(),
        entries[at].root == trees[which].root,
        forall|i: int| 0 <= i < which ==> (#[trigger] trees[i]).root != trees[which].root,
        0 <= leaf < trees[which].leaves@.len(),
    ensures
        ({
            let before = rows_of_objects(entries, trees, at).len() as int;
            let rows = rows_of_objects(entries, trees, entries.len() as int);
            &&& entries[at].root == 0 ==> rows_of_objects(entries, trees, at + 1).len() == before
            &&& entries[at].root != 0 ==> {
                &&& rows_of_objects(entries, trees, at + 1).len() == before
                    + trees[which].leaves@.len()
                &&& before + leaf < rows.len()
                &&& rows[before + leaf] == leaf_row(
                    entries[at].entry.name@,
                    leaf as nat,
                    trees[which].leaves@[leaf],
                    trees[which].page_size as int,
                )
            }
        }),
{
    chain_is_the_first(trees, which);
    objects_go_on(entries, trees, at + 1, entries.len() as int);
    let before = rows_of_objects(entries, trees, at).len() as int;
    let now = rows_of_objects(entries, trees, at + 1);
    if entries[at].root != 0 {
        assert(now[before + leaf] == rows_of_object(entries[at], trees)[leaf]);
        assert(rows_of_objects(entries, trees, entries.len() as int)[before + leaf] == now[before
            + leaf]);
    }
}

/// The tree found under a handle is the first of that handle.
proof fn chain_is_the_first(trees: Seq<Chain>, which: int)
    requires
        0 <= which < trees.len(),
        forall|i: int| 0 <= i < which ==> (#[trigger] trees[i]).root != trees[which].root,
    ensures
        chain_under(trees, trees[which].root) == Some(trees[which]),
    decreases which,
{
    if which > 0 {
        let rest = trees.drop_first();
        assert(trees[0].root != trees[which].root);
        assert forall|i: int| 0 <= i < which - 1 implies (#[trigger] rest[i]).root != rest[which
            - 1].root by {
            assert(trees[i + 1].root != trees[which].root);
        }
        chain_is_the_first(rest, which - 1);
    }
}

/// The rows of the first objects stay first whatever comes after them.
proof fn objects_go_on(entries: Seq<Recorded>, trees: Seq<Chain>, some: int, more: int)
    requires
        0 <= some <= more,
    ensures
        rows_of_objects(entries, trees, some).len() <= rows_of_objects(entries, trees, more).len(),
        forall|i: int|
            0 <= i < rows_of_objects(entries, trees, some).len() ==> #[trigger] rows_of_objects(
                entries,
                trees,
                some,
            )[i] == rows_of_objects(entries, trees, more)[i],
    decreases more,
{
    if some < more {
        objects_go_on(entries, trees, some, more - 1);
    }
}

} // verus!
