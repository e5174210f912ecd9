//! Which pages of a file the catalog's trees reach, and whether the free map
//! agrees.
//!
//! Every page of a file below its page count is held by exactly one thing. A
//! tree read on its own cannot show a page two trees both reach, because each of
//! them is well formed; that state loses rows with no symptom at the time. The
//! check reports the first thing that is wrong and repairs nothing.

use std::collections::HashMap;

use vstd::prelude::*;

use crate::schema::TableInfo;
use crate::sessions::SessionState;
use crate::sorting::{by_weight, weighed};
use crate::text::{append, append_shown, ascii, copied, decimal, shown, write_decimal};

verus! {

broadcast use vstd::std_specs::hash::group_hash_axioms;

/// What holds a page.
///
/// A handle rather than a name, because there is one of these per page; the
/// names are held once per tree and read only when there is something to report.
#[derive(Clone, Copy, Debug, PartialEq, Eq, Structural)]
pub enum Holder {
    /// One of the meta pages, which nothing may be given.
    Meta,
    /// A page of the free map's own chain.
    FreeMap,
    /// The tree this connection reads through that handle.
    Tree(u32),
    /// A shared extent page, which several trees write onto.
    SharedExtent,
}

/// How a tree holds one of its pages.
#[derive(Clone, Copy, Debug, PartialEq, Eq, Structural)]
pub enum PageShare {
    /// Alone.
    Owned,
    /// Among whichever trees put small values on it.
    Shared,
}

/// One tree's name, by the handle it is read through.
pub struct TreeName {
    /// The handle.
    pub handle: u32,
    /// What the tree is called.
    pub name: Vec<u8>,
}

/// The pages of one tree.
pub struct TreePages {
    /// The handle it is read through.
    pub handle: u32,
    /// The pages it occupies, and how it holds each.
    pub pages: Vec<(u64, PageShare)>,
}

/// What a tree is called, when it has a name.
pub open spec fn name_for(names: Seq<TreeName>, handle: u32) -> Option<Seq<u8>>
    decreases names.len(),
{
    if names.len() == 0 {
        None
    } else if names[0].handle == handle {
        Some(names[0].name@)
    } else {
        name_for(names.drop_first(), handle)
    }
}

/// The phrase a report puts after "is used by".
pub open spec fn described(holder: Holder, names: Seq<TreeName>) -> Seq<u8> {
    match holder {
        Holder::Meta => ascii("the meta record"),
        Holder::FreeMap => ascii("the free map"),
        Holder::Tree(handle) => match name_for(names, handle) {
            Some(name) => name,
            None => ascii("a tree this connection reads as ") + decimal(handle as nat),
        },
        Holder::SharedExtent => ascii("a shared extent page"),
    }
}

impl Holder {
    /// Returns the phrase a report puts after "is used by".
    pub fn describe(self, names: &[TreeName]) -> (said: Vec<u8>)
        ensures
            said@ == described(self, names@),
            self is Meta ==> said@ == ascii("the meta record"),
            self is FreeMap ==> said@ == ascii("the free map"),
            self is SharedExtent ==> said@ == ascii("a shared extent page"),
    {
        match self {
            Holder::Meta => copied("the meta record".as_bytes()),
            Holder::FreeMap => copied("the free map".as_bytes()),
            Holder::SharedExtent => copied("a shared extent page".as_bytes()),
            Holder::Tree(handle) => {
                assert(names@.subrange(0, names@.len() as int) =~= names@);
                for at in 0..names.len()
                    invariant
                        self == Holder::Tree(handle),
                        name_for(names@, handle) == name_for(
                            names@.subrange(at as int, names@.len() as int),
                            handle,
                        ),
                {
                    let ghost rest = names@.subrange(at as int, names@.len() as int);
                    assert(rest.drop_first() =~= names@.subrange(at + 1, names@.len() as int));
                    assert(rest[0] == names@[at as int]);
                    if names[at].handle == handle {
                        return copied(&names[at].name);
                    }
                }
                let mut said = copied("a tree this connection reads as ".as_bytes());
                write_decimal(handle as u64, &mut said);
                said
            },
        }
    }
}

/// What claims each page of a tree.
pub open spec fn tree_claims(tree: TreePages) -> Seq<(u64, Holder)> {
    tree.pages@.map_values(
        |held: (u64, PageShare)|
            (
                held.0,
                if held.1 is Shared {
                    Holder::SharedExtent
                } else {
                    Holder::Tree(tree.handle)
                },
            ),
    )
}

/// What claims each page of the first trees.
pub open spec fn trees_claims(trees: Seq<TreePages>, upto: int) -> Seq<(u64, Holder)>
    decreases upto,
{
    if upto <= 0 {
        Seq::empty()
    } else {
        trees_claims(trees, upto - 1) + tree_claims(trees[upto - 1])
    }
}

/// Everything that claims a page of a file, in the order it is asked: the meta
/// pages, the free map's chain, then the trees.
pub open spec fn claims(
    first_data_page: u64,
    free_map: Seq<u64>,
    trees: Seq<TreePages>,
) -> Seq<(u64, Holder)> {
    Seq::new(first_data_page as nat, |page: int| (page as u64, Holder::Meta))
        + free_map.map_values(|page: u64| (page, Holder::FreeMap)) + trees_claims(
        trees,
        trees.len() as int,
    )
}

/// What holds each page once the first claims are granted: whatever claimed it
/// first.
pub open spec fn granted(list: Seq<(u64, Holder)>, upto: int) -> Map<u64, Holder>
    decreases upto,
{
    if upto <= 0 {
        Map::empty()
    } else if granted(list, upto - 1).contains_key(list[upto - 1].0) {
        granted(list, upto - 1)
    } else {
        granted(list, upto - 1).insert(list[upto - 1].0, list[upto - 1].1)
    }
}

/// Whether a claim is on a page something else holds. Trees that share an extent
/// page claim it alike, and that is the one claim a second may be made beside.
pub open spec fn conflicts(list: Seq<(u64, Holder)>, at: int) -> bool {
    let held = granted(list, at);
    let (page, holder) = list[at];
    held.contains_key(page) && !(held[page] == holder && holder is SharedExtent)
}

/// What a report says of a page two things hold.
pub open spec fn twice_held(
    page: u64,
    existing: Holder,
    holder: Holder,
    names: Seq<TreeName>,
) -> Seq<u8> {
    ascii("page ") + decimal(page as nat) + ascii(" is used by ") + described(existing, names)
        + ascii(" and also by ") + described(holder, names)
}

/// Records a page's holder, refusing a page that already has one.
pub fn claim(
    held: &mut HashMap<u64, Holder>,
    page: u64,
    holder: Holder,
    names: &[TreeName],
) -> (outcome: Result<(), Vec<u8>>)
    ensures
        match outcome {
            Ok(_) => {
                &&& !old(held)@.contains_key(page) || (old(held)@[page] == holder && holder
                    is SharedExtent)
                &&& final(held)@ == if old(held)@.contains_key(page) {
                    old(held)@
                } else {
                    old(held)@.insert(page, holder)
                }
            },
            Err(said) => {
                &&& old(held)@.contains_key(page) && !(old(held)@[page] == holder && holder
                    is SharedExtent)
                &&& final(held)@ == old(held)@
                &&& said@ == twice_held(page, old(held)@[page], holder, names@)
                &&& said@ == ascii("page ") + decimal(page as nat) + ascii(" is used by ")
                    + described(old(held)@[page], names@) + ascii(" and also by ") + described(
                    holder,
                    names@,
                )
            },
        },
{
    match held.get(&page) {
        Some(existing) => {
            if *existing == holder && holder == Holder::SharedExtent {
                return Ok(());
            }
            let mut said = copied("page ".as_bytes());
            write_decimal(page, &mut said);
            append(&mut said, " is used by ".as_bytes());
            let first = existing.describe(names);
            append(&mut said, &first);
            append(&mut said, " and also by ".as_bytes());
            let second = holder.describe(names);
            append(&mut said, &second);
            return Err(said);
        },
        None => {},
    }
    held.insert(page, holder);
    Ok(())
}

/// Whether an outcome is what granting claims in order comes to.
pub open spec fn grants(
    list: Seq<(u64, Holder)>,
    names: Seq<TreeName>,
    outcome: Result<Map<u64, Holder>, Seq<u8>>,
) -> bool {
    match outcome {
        Ok(held) => {
            &&& forall|i: int| 0 <= i < list.len() ==> !#[trigger] conflicts(list, i)
            &&& held == granted(list, list.len() as int)
        },
        Err(said) => exists|at: int|
            {
                &&& 0 <= at < list.len()
                &&& #[trigger] conflicts(list, at)
                &&& forall|i: int| 0 <= i < at ==> !#[trigger] conflicts(list, i)
                &&& said == twice_held(
                    list[at].0,
                    granted(list, at)[list[at].0],
                    list[at].1,
                    names,
                )
            },
    }
}

/// Builds the map from page to holder for one file, refusing a second holder.
pub fn hold_every_page(
    first_data_page: u64,
    free_map: &[u64],
    trees: &[TreePages],
    names: &[TreeName],
) -> (outcome: Result<HashMap<u64, Holder>, Vec<u8>>)
    ensures
        grants(
            claims(first_data_page, free_map@, trees@),
            names@,
            match outcome {
                Ok(held) => Ok(held@),
                Err(said) => Err(said@),
            },
        ),
{
    let ghost list = claims(first_data_page, free_map@, trees@);
    let mut held: HashMap<u64, Holder> = HashMap::new();
    let ghost mut at: int = 0;
    assert(held@ =~= granted(list, 0));
    for page in 0..first_data_page
        invariant
            list == claims(first_data_page, free_map@, trees@),
            at == page,
            held@ == granted(list, at),
            forall|i: int| 0 <= i < at ==> !#[trigger] conflicts(list, i),
    {
        assert(list[at] == (page, Holder::Meta));
        match claim(&mut held, page, Holder::Meta, names) {
            Ok(_) => {
                assert(!conflicts(list, at));
                proof {
                    at = at + 1;
                }
            },
            Err(said) => {
                assert(conflicts(list, at));
                return Err(said);
            },
        }
    }
    for k in 0..free_map.len()
        invariant
            list == claims(first_data_page, free_map@, trees@),
            at == first_data_page + k,
            held@ == granted(list, at),
            forall|i: int| 0 <= i < at ==> !#[trigger] conflicts(list, i),
    {
        assert(list[at] == (free_map@[k as int], Holder::FreeMap));
        match claim(&mut held, free_map[k], Holder::FreeMap, names) {
            Ok(_) => {
                assert(!conflicts(list, at));
                proof {
                    at = at + 1;
                }
            },
            Err(said) => {
                assert(conflicts(list, at));
                return Err(said);
            },
        }
    }
    let ghost before = first_data_page + free_map@.len();
    for t in 0..trees.len()
        invariant
            list == claims(first_data_page, free_map@, trees@),
            before == first_data_page + free_map@.len(),
            at == before + trees_claims(trees@, t as int).len(),
            held@ == granted(list, at),
            forall|i: int| 0 <= i < at ==> !#[trigger] conflicts(list, i),
    {
        let tree = &trees[t];
        let ghost start = at;
        proof {
            trees_claims_begin(trees@, t + 1, trees@.len() as int);
        }
        for k in 0..tree.pages.len()
            invariant
                t < trees@.len(),
                *tree == trees@[t as int],
                list == claims(first_data_page, free_map@, trees@),
                before == first_data_page + free_map@.len(),
                start == before + trees_claims(trees@, t as int).len(),
                at == start + k,
                held@ == granted(list, at),
                forall|i: int| 0 <= i < at ==> !#[trigger] conflicts(list, i),
                trees_claims(trees@, t + 1).len() <= trees_claims(
                    trees@,
                    trees@.len() as int,
                ).len(),
                forall|i: int|
                    0 <= i < trees_claims(trees@, t + 1).len() ==> trees_claims(
                        trees@,
                        t + 1,
                    )[i] == trees_claims(trees@, trees@.len() as int)[i],
        {
            let (page, share) = tree.pages[k];
            let holder = match share {
                PageShare::Shared => Holder::SharedExtent,
                PageShare::Owned => Holder::Tree(tree.handle),
            };
            proof {
                let inner = trees_claims(trees@, t as int).len() + k;
                assert(trees_claims(trees@, t + 1)[inner] == tree_claims(*tree)[k as int]);
                assert(list[at] == trees_claims(trees@, trees@.len() as int)[inner]);
                assert(list[at] == (page, holder));
            }
            match claim(&mut held, page, holder, names) {
                Ok(_) => {
                    assert(!conflicts(list, at));
                    proof {
                        at = at + 1;
                    }
                },
                Err(said) => {
                    assert(conflicts(list, at));
                    return Err(said);
                },
            }
        }
    }
    assert(at == list.len());
    Ok(held)
}

/// The claims of more trees begin with the claims of fewer.
proof fn trees_claims_begin(trees: Seq<TreePages>, some: int, more: int)
    requires
        0 <= some <= more,
    ensures
        trees_claims(trees, some).len() <= trees_claims(trees, more).len(),
        forall|i: int|
            0 <= i < trees_claims(trees, some).len() ==> trees_claims(trees, some)[i]
                == trees_claims(trees, more)[i],
    decreases more,
{
    if some < more {
        trees_claims_begin(trees, some, more - 1);
    }
}

/// Whether a page is one the trees and the free map disagree about.
pub open spec fn misplaced(
    held: Map<u64, Holder>,
    allocated: Seq<bool>,
    complete: bool,
    page: int,
) -> bool {
    let reached = held.contains_key(page as u64);
    (reached && !allocated[page]) || (!reached && allocated[page] && complete)
}

/// What a report says of a page the trees and the free map disagree about.
pub open spec fn misplaced_said(
    held: Map<u64, Holder>,
    names: Seq<TreeName>,
    page: int,
) -> Seq<u8> {
    if held.contains_key(page as u64) {
        ascii("page ") + decimal(page as nat) + ascii(" is used by ") + described(
            held[page as u64],
            names,
        ) + ascii(" but the free map says it is free")
    } else {
        ascii("Page ") + decimal(page as nat) + ascii(": never used")
    }
}

/// Compares the pages the trees reach against what the free map says.
///
/// A page a tree holds that the free map has handed back is the state that
/// becomes a page of two holders at the next allocation. A page the trees do not
/// reach is only reported when the whole schema was read: an object that could
/// not be read back leaves its tree unattached, and its pages are reachable from
/// the file and not from here.
pub fn compare_against_the_free_map(
    first_data_page: u64,
    allocated: &[bool],
    held: &HashMap<u64, Holder>,
    names: &[TreeName],
    complete: bool,
) -> (outcome: Result<(), Vec<u8>>)
    requires
        allocated@.len() <= u64::MAX,
    ensures
        match outcome {
            Ok(_) => forall|page: int|
                first_data_page <= page < allocated@.len() ==> !#[trigger] misplaced(
                    held@,
                    allocated@,
                    complete,
                    page,
                ),
            Err(said) => exists|page: int|
                {
                    &&& first_data_page <= page < allocated@.len()
                    &&& #[trigger] misplaced(held@, allocated@, complete, page)
                    &&& forall|other: int|
                        first_data_page <= other < page ==> !#[trigger] misplaced(
                            held@,
                            allocated@,
                            complete,
                            other,
                        )
                    &&& said@ == misplaced_said(held@, names@, page)
                },
        },
        outcome is Ok <==> forall|page: u64|
            first_data_page <= page < allocated@.len() ==> (#[trigger] held@.contains_key(page)
                ==> allocated@[page as int]) && (complete && allocated@[page as int]
                ==> held@.contains_key(page)),
{
    let count: u64 = allocated.len() as u64;
    let mut number: u64 = first_data_page;
    while number < count
        invariant
            count == allocated@.len(),
            first_data_page <= number,
            number <= count || number == first_data_page,
            forall|page: int|
                first_data_page <= page < number ==> !#[trigger] misplaced(
                    held@,
                    allocated@,
                    complete,
                    page,
                ),
            forall|page: u64|
                first_data_page <= page < number ==> (#[trigger] held@.contains_key(page)
                    ==> allocated@[page as int]) && (complete && allocated@[page as int]
                    ==> held@.contains_key(page)),
        decreases count - number,
    {
        let taken: bool = allocated[number as usize];
        match held.get(&number) {
            Some(holder) => {
                if !taken {
                    let mut said = copied("page ".as_bytes());
                    write_decimal(number, &mut said);
                    append(&mut said, " is used by ".as_bytes());
                    let named = holder.describe(names);
                    append(&mut said, &named);
                    append(&mut said, " but the free map says it is free".as_bytes());
                    assert(misplaced(held@, allocated@, complete, number as int));
                    return Err(said);
                }
            },
            None => {
                if taken && complete {
                    let mut said = copied("Page ".as_bytes());
                    write_decimal(number, &mut said);
                    append(&mut said, ": never used".as_bytes());
                    assert(misplaced(held@, allocated@, complete, number as int));
                    return Err(said);
                }
            },
        }
        assert(!misplaced(held@, allocated@, complete, number as int));
        number = number + 1;
    }
    Ok(())
}

/// One file's pages, as a walk found them.
pub struct FilePages {
    /// The first page that is not a meta page.
    pub first_data_page: u64,
    /// The pages of the free map's own chain.
    pub free_map: Vec<u64>,
    /// The pages of each tree of the file.
    pub trees: Vec<TreePages>,
    /// What each tree is called.
    pub names: Vec<TreeName>,
    /// What the free map says of each page below the page count.
    pub allocated: Vec<bool>,
}

/// What a report says of one file, when it says anything.
pub open spec fn file_reports(file: FilePages, complete: bool, said: Option<Seq<u8>>) -> bool {
    let list = claims(file.first_data_page, file.free_map@, file.trees@);
    let held = granted(list, list.len() as int);
    let shared = exists|i: int| 0 <= i < list.len() && #[trigger] conflicts(list, i);
    match said {
        Some(text) => grants(list, file.names@, Err(text)) || (!shared && exists|page: int|
            {
                &&& file.first_data_page <= page < file.allocated@.len()
                &&& #[trigger] misplaced(held, file.allocated@, complete, page)
                &&& forall|other: int|
                    file.first_data_page <= other < page ==> !#[trigger] misplaced(
                        held,
                        file.allocated@,
                        complete,
                        other,
                    )
                &&& text == misplaced_said(held, file.names@, page)
            }),
        None => !shared && forall|page: int|
            file.first_data_page <= page < file.allocated@.len() ==> !#[trigger] misplaced(
                held,
                file.allocated@,
                complete,
                page,
            ),
    }
}

/// Reports the first page of one file that something is wrong with.
pub fn file_report(file: &FilePages, complete: bool) -> (said: Option<Vec<u8>>)
    requires
        file.allocated@.len() <= u64::MAX,
    ensures
        file_reports(
            *file,
            complete,
            match said {
                Some(text) => Some(text@),
                None => None,
            },
        ),
{
    match hold_every_page(file.first_data_page, &file.free_map, &file.trees, &file.names) {
        Err(said) => Some(said),
        Ok(held) => match compare_against_the_free_map(
            file.first_data_page,
            &file.allocated,
            &held,
            &file.names,
            complete,
        ) {
            Err(said) => Some(said),
            Ok(_) => None,
        },
    }
}

/// Walks every file's pages and reports the first thing that is wrong.
///
/// Each file on its own, because a page number means nothing without one.
pub fn walk_every_page(files: &[FilePages], complete: bool) -> (outcome: Result<(), Vec<u8>>)
    requires
        forall|i: int| 0 <= i < files@.len() ==> (#[trigger] files@[i]).allocated@.len()
            <= u64::MAX,
    ensures
        match outcome {
            Ok(_) => forall|i: int|
                0 <= i < files@.len() ==> file_reports(#[trigger] files@[i], complete, None),
            Err(said) => exists|i: int|
                {
                    &&& 0 <= i < files@.len()
                    &&& file_reports(#[trigger] files@[i], complete, Some(said@))
                    &&& forall|j: int|
                        0 <= j < i ==> file_reports(#[trigger] files@[j], complete, None)
                },
        },
{
    for at in 0..files.len()
        invariant
            forall|i: int| 0 <= i < files@.len() ==> (#[trigger] files@[i]).allocated@.len()
                <= u64::MAX,
            forall|j: int| 0 <= j < at ==> file_reports(#[trigger] files@[j], complete, None),
    {
        match file_report(&files[at], complete) {
            Some(said) => {
                assert(file_reports(files@[at as int], complete, Some(said@)));
                return Err(said);
            },
            None => {},
        }
    }
    Ok(())
}

/// A file nothing is reported of holds every page exactly once: every claim on a
/// page is the only one or is a share of an extent page, and where the whole
/// schema was read a data page is claimed exactly when the free map says it is
/// taken.
pub proof fn a_sound_file_holds_each_page_once(file: FilePages, complete: bool)
    requires
        file_reports(file, complete, None),
        file.allocated@.len() <= u64::MAX,
    ensures
        ({
            let list = claims(file.first_data_page, file.free_map@, file.trees@);
            &&& forall|i: int, j: int|
                0 <= i < j < list.len() && (#[trigger] list[i]).0 == (#[trigger] list[j]).0
                    ==> list[i].1 is SharedExtent && list[j].1 is SharedExtent
            &&& forall|page: int|
                #![trigger file.allocated@[page]]
                file.first_data_page <= page < file.allocated@.len() ==> {
                    let claimed = exists|i: int|
                        0 <= i < list.len() && (#[trigger] list[i]).0 == page;
                    (claimed ==> file.allocated@[page]) && (complete && file.allocated@[page]
                        ==> claimed)
                }
        }),
{
    let list = claims(file.first_data_page, file.free_map@, file.trees@);
    assert forall|i: int, j: int|
        0 <= i < j < list.len() && (#[trigger] list[i]).0 == (#[trigger] list[j]).0 implies list[i].1
        is SharedExtent && list[j].1 is SharedExtent by {
        granted_holds(list, j, i);
        assert(!conflicts(list, j));
        assert(!conflicts(list, i));
    }
    assert forall|page: int|
        #![trigger file.allocated@[page]]
        file.first_data_page <= page < file.allocated@.len() implies {
        let claimed = exists|i: int| 0 <= i < list.len() && (#[trigger] list[i]).0 == page;
        (claimed ==> file.allocated@[page]) && (complete && file.allocated@[page] ==> claimed)
    } by {
        let held = granted(list, list.len() as int);
        assert(!misplaced(held, file.allocated@, complete, page));
        if exists|i: int| 0 <= i < list.len() && (#[trigger] list[i]).0 == page {
            let i = choose|i: int| 0 <= i < list.len() && (#[trigger] list[i]).0 == page;
            granted_holds(list, list.len() as int, i);
        }
        if held.contains_key(page as u64) {
            let i = granted_claimed(list, list.len() as int, page as u64);
            assert(list[i].0 == page);
        }
    }
}

/// What was claimed is held, and by what claimed it when nothing conflicts.
proof fn granted_holds(list: Seq<(u64, Holder)>, upto: int, at: int)
    requires
        0 <= at < upto <= list.len(),
        forall|i: int| 0 <= i < upto ==> !#[trigger] conflicts(list, i),
    ensures
        granted(list, upto).contains_key(list[at].0),
        granted(list, upto)[list[at].0] == list[at].1,
    decreases upto,
{
    if at < upto - 1 {
        granted_holds(list, upto - 1, at);
    } else {
        assert(!conflicts(list, at));
    }
}

/// What is held was claimed.
proof fn granted_claimed(list: Seq<(u64, Holder)>, upto: int, page: u64) -> (at: int)
    requires
        0 <= upto <= list.len(),
        granted(list, upto).contains_key(page),
    ensures
        0 <= at < upto,
        list[at].0 == page,
    decreases upto,
{
    if granted(list, upto - 1).contains_key(page) {
        granted_claimed(list, upto - 1, page)
    } else {
        upto - 1
    }
}

/// What a tree is called: by the table or index it is of, and by its root page
/// where no catalog row names it.
pub open spec fn tree_named(
    tables: Seq<TableInfo>,
    handle: u32,
    root: u64,
) -> Seq<u8>
    decreases tables.len(),
{
    if tables.len() == 0 {
        ascii("the tree rooted at page ") + decimal(root as nat)
    } else if tables[0].root == handle {
        ascii("table ") + shown(tables[0].name@)
    } else if index_with_root(tables[0], handle, tables[0].indexes@.len() as int) is Some {
        ascii("index ") + shown(
            tables[0].indexes@[index_with_root(
                tables[0],
                handle,
                tables[0].indexes@.len() as int,
            )->Some_0].name@,
        )
    } else {
        tree_named(tables.drop_first(), handle, root)
    }
}

/// The first of a table's first indexes whose tree is read through a handle.
pub open spec fn index_with_root(table: TableInfo, handle: u32, upto: int) -> Option<int>
    decreases upto,
{
    if upto <= 0 {
        None
    } else if index_with_root(table, handle, upto - 1) is Some {
        index_with_root(table, handle, upto - 1)
    } else if table.indexes@[upto - 1].root == handle {
        Some(upto - 1)
    } else {
        None
    }
}

/// Once an index with a root is found it stays the one found.
proof fn found_index_stays(table: TableInfo, handle: u32, some: int, more: int)
    requires
        0 <= some <= more,
        index_with_root(table, handle, some) is Some,
    ensures
        index_with_root(table, handle, more) == index_with_root(table, handle, some),
    decreases more,
{
    if some < more {
        found_index_stays(table, handle, some, more - 1);
    }
}

/// Names a tree the way the catalog does.
pub fn name_of_tree(tables: &[TableInfo], handle: u32, root: u64) -> (said: Vec<u8>)
    ensures
        said@ == tree_named(tables@, handle, root),
{
    assert(tables@.subrange(0, tables@.len() as int) =~= tables@);
    for at in 0..tables.len()
        invariant
            tree_named(tables@, handle, root) == tree_named(
                tables@.subrange(at as int, tables@.len() as int),
                handle,
                root,
            ),
    {
        let table = &tables[at];
        let ghost rest = tables@.subrange(at as int, tables@.len() as int);
        assert(rest.drop_first() =~= tables@.subrange(at + 1, tables@.len() as int));
        assert(rest[0] == *table);
        if table.root == handle {
            let mut said = copied("table ".as_bytes());
            append_shown(&mut said, &table.name);
            return said;
        }
        for which in 0..table.indexes.len()
            invariant
                index_with_root(*table, handle, which as int) is None,
                table.root != handle,
                rest.len() > 0,
                rest[0] == *table,
                tree_named(tables@, handle, root) == tree_named(rest, handle, root),
        {
            if table.indexes[which].root == handle {
                proof {
                    found_index_stays(
                        *table,
                        handle,
                        which + 1,
                        table.indexes@.len() as int,
                    );
                }
                let mut said = copied("index ".as_bytes());
                append_shown(&mut said, &table.indexes[which].name);
                return said;
            }
        }
    }
    let mut said = copied("the tree rooted at page ".as_bytes());
    write_decimal(root, &mut said);
    said
}

/// Whether trees are grouped by the file their pages live in: the files and the
/// trees of each in ascending order, every tree in its own file's group, and
/// none of the ones that only stand in for another.
pub open spec fn grouped(
    groups: Seq<(usize, Vec<u32>)>,
    handles: Seq<u32>,
    imposters: Seq<u32>,
    state: SessionState,
) -> bool {
    &&& forall|i: int, j: int|
        0 <= i < j < groups.len() ==> (#[trigger] groups[i]).0 < (#[trigger] groups[j]).0
    &&& forall|i: int| 0 <= i < groups.len() ==> (#[trigger] groups[i]).1@.len() > 0
    &&& forall|i: int, a: int, b: int|
        0 <= i < groups.len() && 0 <= a < b < groups[i].1@.len() ==> (
        #[trigger] groups[i].1@[a]) < (#[trigger] groups[i].1@[b])
    &&& forall|handle: u32, at: int| #[trigger]
        in_group(groups, handle, at) <==> handles.contains(handle) && !imposters.contains(handle)
            && state.owned_by(handle) == at
}

/// Whether a tree is in the group of a file.
pub open spec fn in_group(groups: Seq<(usize, Vec<u32>)>, handle: u32, at: int) -> bool {
    exists|i: int|
        0 <= i < groups.len() && (#[trigger] groups[i]).0 == at && groups[i].1@.contains(handle)
}

/// Returns handles in ascending order.
pub fn ascending_handles(handles: &[u32]) -> (sorted: Vec<u32>)
    requires
        handles@.no_duplicates(),
    ensures
        forall|i: int, j: int| 0 <= i < j < sorted@.len() ==> sorted@[i] < sorted@[j],
        forall|handle: u32| #[trigger] sorted@.contains(handle) <==> handles@.contains(handle),
{
    let mut weights: Vec<usize> = Vec::with_capacity(handles.len());
    for at in 0..handles.len()
        invariant
            weights@.len() == at,
            forall|i: int| 0 <= i < at ==> #[trigger] weights@[i] == handles@[i],
    {
        weights.push(handles[at] as usize);
    }
    let places = by_weight(weights.as_slice());
    let mut sorted: Vec<u32> = Vec::with_capacity(handles.len());
    for at in 0..places.len()
        invariant
            weighed(weights@, places@),
            weights@.len() == handles@.len(),
            sorted@.len() == at,
            forall|i: int| 0 <= i < at ==> #[trigger] sorted@[i] == handles@[places@[i] as int],
    {
        sorted.push(handles[places[at]]);
    }
    proof {
        assert forall|i: int, j: int| 0 <= i < j < sorted@.len() implies sorted@[i]
            < sorted@[j] by {
            let one = places@[i] as int;
            let two = places@[j] as int;
            assert(weights@[one] == handles@[one]);
            assert(weights@[two] == handles@[two]);
            if handles@[one] == handles@[two] {
                assert(one == two);
            }
        }
        assert forall|handle: u32| #[trigger] sorted@.contains(handle) <==> handles@.contains(
            handle,
        ) by {
            if sorted@.contains(handle) {
                let i = choose|i: int| 0 <= i < sorted@.len() && sorted@[i] == handle;
                assert(handles@[places@[i] as int] == handle);
            }
            if handles@.contains(handle) {
                let i = choose|i: int| 0 <= i < handles@.len() && handles@[i] == handle;
                every_place_is_taken(places@, i);
                let j = choose|j: int| 0 <= j < places@.len() && places@[j] == i;
                assert(sorted@[j] == handle);
            }
        }
    }
    sorted
}

/// As many different places below a length as the length take every one.
proof fn every_place_is_taken(places: Seq<usize>, at: int)
    requires
        places.no_duplicates(),
        0 <= at < places.len() <= usize::MAX,
        forall|i: int| 0 <= i < places.len() ==> #[trigger] places[i] < places.len(),
    ensures
        exists|j: int| 0 <= j < places.len() && #[trigger] places[j] == at,
{
    if forall|j: int| 0 <= j < places.len() ==> #[trigger] places[j] != at {
        let all = Seq::new(places.len(), |i: int| places[i] as int);
        assert(all.no_duplicates()) by {
            assert forall|i: int, j: int|
                0 <= i < all.len() && 0 <= j < all.len() && i != j implies all[i] != all[j] by {
                assert(places[i] != places[j]);
            }
        }
        let held = all.to_set();
        let range = vstd::set_lib::set_int_range(0, places.len() as int).remove(at);
        vstd::set_lib::lemma_int_range(0, places.len() as int);
        assert(held.subset_of(range)) by {
            assert forall|x: int| held.contains(x) implies range.contains(x) by {
                let i = choose|i: int| 0 <= i < all.len() && all[i] == x;
                assert(places[i] < places.len());
                assert(places[i] != at);
            }
        }
        all.unique_seq_to_set();
        vstd::set_lib::lemma_len_subset(held, range);
    }
}

/// Whether numbers ascend.
pub open spec fn ascending(numbers: Seq<usize>) -> bool {
    forall|i: int, j: int| 0 <= i < j < numbers.len() ==> numbers[i] < numbers[j]
}

/// Puts a number among ascending ones, unless it is there.
fn put_ascending(numbers: &mut Vec<usize>, number: usize)
    requires
        ascending(old(numbers)@),
    ensures
        ascending(final(numbers)@),
        forall|other: usize| #[trigger]
            final(numbers)@.contains(other) <==> old(numbers)@.contains(other) || other == number,
{
    let ghost before = numbers@;
    let mut at: usize = 0;
    while at < numbers.len() && numbers[at] < number
        invariant
            at <= numbers@.len(),
            numbers@ == before,
            forall|i: int| 0 <= i < at ==> #[trigger] numbers@[i] < number,
        decreases numbers@.len() - at,
    {
        at += 1;
    }
    if at < numbers.len() && numbers[at] == number {
        assert(before[at as int] == number);
        return;
    }
    numbers.insert(at, number);
    proof {
        assert forall|other: usize| #[trigger]
            numbers@.contains(other) <==> before.contains(other) || other == number by {
            if before.contains(other) {
                let i = choose|i: int| 0 <= i < before.len() && before[i] == other;
                if i < at {
                    assert(numbers@[i] == other);
                } else {
                    assert(numbers@[i + 1] == other);
                }
            }
            assert(numbers@[at as int] == number);
            if numbers@.contains(other) && other != number {
                let i = choose|i: int| 0 <= i < numbers@.len() && numbers@[i] == other;
                if i < at {
                    assert(before[i] == other);
                } else {
                    assert(before[i - 1] == other);
                }
            }
        }
    }
}

/// Whether a handle is among the first so many of some.
spec fn listed_before(handles: Seq<u32>, handle: u32, upto: int) -> bool {
    exists|k: int| 0 <= k < upto && #[trigger] handles[k] == handle
}

/// Returns whether a handle is among some.
fn holds_handle(handles: &[u32], handle: u32) -> (held: bool)
    ensures
        held == handles@.contains(handle),
{
    for at in 0..handles.len()
        invariant
            forall|i: int| 0 <= i < at ==> #[trigger] handles@[i] != handle,
    {
        if handles[at] == handle {
            assert(handles@[at as int] == handle);
            return true;
        }
    }
    false
}

/// Returns the trees of one file, in the order they are listed.
fn trees_in(state: &SessionState, handles: &[u32], at: usize) -> (found: Vec<u32>)
    requires
        forall|i: int, j: int| 0 <= i < j < handles@.len() ==> handles@[i] < handles@[j],
    ensures
        forall|i: int, j: int| 0 <= i < j < found@.len() ==> found@[i] < found@[j],
        forall|handle: u32| #[trigger]
            found@.contains(handle) <==> handles@.contains(handle) && state.owned_by(handle) == at,
{
    let mut found: Vec<u32> = Vec::new();
    for nth in 0..handles.len()
        invariant
            forall|i: int, j: int| 0 <= i < j < handles@.len() ==> handles@[i] < handles@[j],
            forall|i: int, j: int| 0 <= i < j < found@.len() ==> found@[i] < found@[j],
            forall|i: int| #![trigger found@[i]]
                0 <= i < found@.len() ==> {
                    &&& state.owned_by(found@[i]) == at
                    &&& listed_before(handles@, found@[i], nth as int)
                },
            forall|k: int|
                0 <= k < nth && state.owned_by(#[trigger] handles@[k]) == at ==> found@.contains(
                    handles@[k],
                ),
    {
        let handle: u32 = handles[nth];
        let ghost before = found@;
        if state.schema_of(handle) == at {
            found.push(handle);
            proof {
                assert(found@[before.len() as int] == handle);
                assert forall|k: int|
                    0 <= k < nth + 1 && state.owned_by(#[trigger] handles@[k])
                        == at implies found@.contains(handles@[k]) by {
                    if k < nth {
                        let i = choose|i: int| 0 <= i < before.len() && before[i] == handles@[k];
                        assert(found@[i] == handles@[k]);
                    }
                }
                assert forall|i: int| #![trigger found@[i]] 0 <= i < found@.len() implies {
                    &&& state.owned_by(found@[i]) == at
                    &&& listed_before(handles@, found@[i], nth + 1)
                } by {
                    if i < before.len() {
                        assert(before[i] == found@[i]);
                    }
                }
                assert forall|i: int, j: int| 0 <= i < j < found@.len() implies found@[i]
                    < found@[j] by {
                    assert(before[i] == found@[i]);
                    if j < before.len() {
                        assert(before[j] == found@[j]);
                    }
                }
            }
        }
    }
    found
}

/// Groups a connection's trees by the file their pages live in.
///
/// A tree that only stands in for another is left out: walking both would report
/// every page of the one as a page two things hold.
pub fn trees_by_schema(state: &SessionState, handles: &[u32], imposters: &[u32]) -> (groups: Vec<
    (usize, Vec<u32>),
>)
    requires
        handles@.no_duplicates(),
    ensures
        grouped(groups@, handles@, imposters@, *state),
        forall|i: int, j: int|
            0 <= i < j < groups@.len() ==> (#[trigger] groups@[i]).0 < (#[trigger] groups@[j]).0,
        forall|i: int, k: int|
            0 <= i < groups@.len() && 0 <= k < groups@[i].1@.len() ==> handles@.contains(
                #[trigger] groups@[i].1@[k],
            ) && !imposters@.contains(groups@[i].1@[k]) && state.owned_by(groups@[i].1@[k])
                == groups@[i].0,
        forall|k: int|
            0 <= k < handles@.len() && !imposters@.contains(#[trigger] handles@[k]) ==> exists|
                i: int,
            |
                0 <= i < groups@.len() && (#[trigger] groups@[i]).0 == state.owned_by(handles@[k])
                    && groups@[i].1@.contains(handles@[k]),
{
    let sorted = ascending_handles(handles);
    let mut kept: Vec<u32> = Vec::new();
    let mut files: Vec<usize> = Vec::new();
    for nth in 0..sorted.len()
        invariant
            forall|i: int, j: int| 0 <= i < j < sorted@.len() ==> sorted@[i] < sorted@[j],
            forall|i: int, j: int| 0 <= i < j < kept@.len() ==> kept@[i] < kept@[j],
            forall|i: int| #![trigger kept@[i]]
                0 <= i < kept@.len() ==> {
                    &&& !imposters@.contains(kept@[i])
                    &&& files@.contains(state.owned_by(kept@[i]) as usize)
                    &&& listed_before(sorted@, kept@[i], nth as int)
                },
            forall|k: int|
                0 <= k < nth && !imposters@.contains(#[trigger] sorted@[k]) ==> kept@.contains(
                    sorted@[k],
                ),
            ascending(files@),
            forall|at: usize| #[trigger]
                files@.contains(at) ==> exists|i: int|
                    0 <= i < kept@.len() && state.owned_by(#[trigger] kept@[i]) == at,
    {
        let handle: u32 = sorted[nth];
        let ghost before = kept@;
        let ghost filed = files@;
        if !holds_handle(imposters, handle) {
            let at: usize = state.schema_of(handle);
            kept.push(handle);
            put_ascending(&mut files, at);
            proof {
                assert(kept@[before.len() as int] == handle);
                assert forall|k: int|
                    0 <= k < nth + 1 && !imposters@.contains(
                        #[trigger] sorted@[k],
                    ) implies kept@.contains(sorted@[k]) by {
                    if k < nth {
                        let i = choose|i: int| 0 <= i < before.len() && before[i] == sorted@[k];
                        assert(kept@[i] == sorted@[k]);
                    }
                }
                assert forall|i: int| #![trigger kept@[i]] 0 <= i < kept@.len() implies {
                    &&& !imposters@.contains(kept@[i])
                    &&& files@.contains(state.owned_by(kept@[i]) as usize)
                    &&& listed_before(sorted@, kept@[i], nth + 1)
                } by {
                    if i < before.len() {
                        assert(before[i] == kept@[i]);
                        assert(filed.contains(state.owned_by(before[i]) as usize));
                    }
                }
                assert forall|i: int, j: int| 0 <= i < j < kept@.len() implies kept@[i]
                    < kept@[j] by {
                    assert(before[i] == kept@[i]);
                    if j < before.len() {
                        assert(before[j] == kept@[j]);
                    }
                }
                assert forall|file: usize| #[trigger] files@.contains(file) implies exists|i: int|
                    0 <= i < kept@.len() && state.owned_by(#[trigger] kept@[i]) == file by {
                    if filed.contains(file) {
                        let i = choose|i: int|
                            0 <= i < before.len() && state.owned_by(#[trigger] before[i]) == file;
                        assert(state.owned_by(kept@[i]) == file);
                    } else {
                        assert(state.owned_by(kept@[before.len() as int]) == file);
                    }
                }
            }
        }
    }
    let mut groups: Vec<(usize, Vec<u32>)> = Vec::new();
    for nth in 0..files.len()
        invariant
            groups@.len() == nth,
            forall|i: int, j: int| 0 <= i < j < kept@.len() ==> kept@[i] < kept@[j],
            forall|i: int| 0 <= i < nth ==> (#[trigger] groups@[i]).0 == files@[i],
            forall|i: int, a: int, b: int|
                0 <= i < nth && 0 <= a < b < groups@[i].1@.len() ==> (
                #[trigger] groups@[i].1@[a]) < (#[trigger] groups@[i].1@[b]),
            forall|i: int, handle: u32|
                0 <= i < nth ==> (#[trigger] groups@[i].1@.contains(handle) <==> kept@.contains(
                    handle,
                ) && state.owned_by(handle) == files@[i]),
    {
        let found = trees_in(state, kept.as_slice(), files[nth]);
        groups.push((files[nth], found));
    }
    proof {
        assert forall|i: int| 0 <= i < groups@.len() implies (#[trigger] groups@[i]).1@.len()
            > 0 by {
            assert(files@.contains(files@[i]));
            let k = choose|k: int|
                0 <= k < kept@.len() && state.owned_by(#[trigger] kept@[k]) == files@[i];
            assert(kept@.contains(kept@[k]));
            assert(groups@[i].1@.contains(kept@[k]));
        }
        assert forall|handle: u32, at: int| #[trigger]
            in_group(groups@, handle, at) <==> handles@.contains(handle) && !imposters@.contains(
                handle,
            ) && state.owned_by(handle) == at by {
            if in_group(groups@, handle, at) {
                let i = choose|i: int|
                    0 <= i < groups@.len() && (#[trigger] groups@[i]).0 == at
                        && groups@[i].1@.contains(handle);
                let k = choose|k: int| 0 <= k < kept@.len() && kept@[k] == handle;
                let s = choose|s: int| 0 <= s < sorted@.len() && #[trigger] sorted@[s] == kept@[k];
                assert(sorted@.contains(handle));
            }
            if handles@.contains(handle) && !imposters@.contains(handle) && state.owned_by(handle)
                == at {
                assert(sorted@.contains(handle));
                let s = choose|s: int| 0 <= s < sorted@.len() && sorted@[s] == handle;
                assert(kept@.contains(sorted@[s]));
                let k = choose|k: int| 0 <= k < kept@.len() && kept@[k] == handle;
                assert(files@.contains(state.owned_by(kept@[k]) as usize));
                let i = choose|i: int| 0 <= i < files@.len() && files@[i] == at as usize;
                assert(groups@[i].1@.contains(handle));
            }
        }
        assert forall|i: int, k: int|
            0 <= i < groups@.len() && 0 <= k < groups@[i].1@.len() implies handles@.contains(
            #[trigger] groups@[i].1@[k],
        ) && !imposters@.contains(groups@[i].1@[k]) && state.owned_by(groups@[i].1@[k])
            == groups@[i].0 by {
            assert(groups@[i].1@.contains(groups@[i].1@[k]));
            assert(in_group(groups@, groups@[i].1@[k], groups@[i].0 as int));
        }
        assert forall|k: int|
            0 <= k < handles@.len() && !imposters@.contains(#[trigger] handles@[k]) implies exists|
            i: int,
        |
            0 <= i < groups@.len() && (#[trigger] groups@[i]).0 == state.owned_by(handles@[k])
                && groups@[i].1@.contains(handles@[k]) by {
            assert(handles@.contains(handles@[k]));
            assert(in_group(groups@, handles@[k], state.owned_by(handles@[k])));
        }
    }
    groups
}

/// The names of trees, one for each listed handle that has a tree.
pub open spec fn names_given(
    tables: Seq<TableInfo>,
    roots: Map<u32, u64>,
    handles: Seq<u32>,
) -> Seq<(u32, Seq<u8>)>
    decreases handles.len(),
{
    if handles.len() == 0 {
        seq![]
    } else {
        let before = names_given(tables, roots, handles.drop_last());
        let handle = handles.last();
        if roots.contains_key(handle) {
            before.push((handle, tree_named(tables, handle, roots[handle])))
        } else {
            before
        }
    }
}

/// The names that are held, as handles and bytes.
pub open spec fn names_held(names: Seq<TreeName>) -> Seq<(u32, Seq<u8>)> {
    Seq::new(names.len(), |i: int| (names[i].handle, names[i].name@))
}

/// Names every listed tree that there is, given the root page of each.
pub fn name_every_tree(tables: &[TableInfo], roots: &HashMap<u32, u64>, handles: &[u32]) -> (names:
    Vec<TreeName>)
    ensures
        names_held(names@) == names_given(tables@, roots@, handles@),
{
    let mut names: Vec<TreeName> = Vec::new();
    assert(handles@.take(0) =~= seq![]);
    assert(names_held(names@) =~= seq![]);
    for at in 0..handles.len()
        invariant
            names_held(names@) == names_given(tables@, roots@, handles@.take(at as int)),
    {
        let handle: u32 = handles[at];
        let ghost before = names@;
        assert(handles@.take(at + 1).drop_last() =~= handles@.take(at as int));
        if let Some(root) = roots.get(&handle) {
            names.push(TreeName { handle, name: name_of_tree(tables, handle, *root) });
            assert(names_held(names@) =~= names_held(before).push(
                (handle, tree_named(tables@, handle, *root)),
            ));
        }
    }
    assert(handles@.take(handles@.len() as int) =~= handles@);
    names
}

/// Where a tree's page stands among the claims of a file.
proof fn a_page_is_claimed(
    first_data_page: u64,
    free_map: Seq<u64>,
    trees: Seq<TreePages>,
    tree: int,
    page: int,
) -> (at: int)
    requires
        0 <= tree < trees.len(),
        0 <= page < trees[tree].pages@.len(),
    ensures
        0 <= at < claims(first_data_page, free_map, trees).len(),
        at == first_data_page + free_map.len() + trees_claims(trees, tree).len() + page,
        claims(first_data_page, free_map, trees)[at].0 == trees[tree].pages@[page].0,
        claims(first_data_page, free_map, trees)[at].1 == (if trees[tree].pages@[page].1 is Shared {
            Holder::SharedExtent
        } else {
            Holder::Tree(trees[tree].handle)
        }),
{
    let list = claims(first_data_page, free_map, trees);
    let all = trees_claims(trees, trees.len() as int);
    let inner = trees_claims(trees, tree).len() + page;
    trees_claims_begin(trees, tree + 1, trees.len() as int);
    assert(trees_claims(trees, tree + 1)[inner] == tree_claims(trees[tree])[page]);
    assert(all[inner] == trees_claims(trees, tree + 1)[inner]);
    let at = first_data_page + free_map.len() + inner;
    assert(list[at] == all[inner]);
    at
}

/// Which tree a claim past the free map's is of, and which of its pages.
proof fn a_claim_is_of_a_tree(trees: Seq<TreePages>, upto: int, at: int) -> (held: (int, int))
    requires
        0 <= upto <= trees.len(),
        0 <= at < trees_claims(trees, upto).len(),
    ensures
        0 <= held.0 < upto,
        0 <= held.1 < trees[held.0].pages@.len(),
        trees_claims(trees, upto)[at].0 == trees[held.0].pages@[held.1].0,
    decreases upto,
{
    let before = trees_claims(trees, upto - 1);
    if at < before.len() {
        a_claim_is_of_a_tree(trees, upto - 1, at)
    } else {
        assert(trees_claims(trees, upto)[at] == tree_claims(trees[upto - 1])[at - before.len()]);
        (upto - 1, at - before.len())
    }
}

/// In a file that nothing is wrong with, a page of a tree is past the pages the file
/// keeps for itself, is none of its free map's, is said to be in use, and is another
/// page of a tree only where both share it.
pub proof fn a_sound_file_shares_no_page(
    file: FilePages,
    complete: bool,
    tree: int,
    page: int,
    other: int,
    twin: int,
)
    requires
        file_reports(file, complete, None),
        file.allocated@.len() <= u64::MAX,
        0 <= tree < file.trees@.len(),
        0 <= page < file.trees@[tree].pages@.len(),
        0 <= other < file.trees@.len(),
        0 <= twin < file.trees@[other].pages@.len(),
    ensures
        ({
            let (number, share) = file.trees@[tree].pages@[page];
            &&& number >= file.first_data_page
            &&& !file.free_map@.contains(number)
            &&& number < file.allocated@.len() ==> file.allocated@[number as int]
            &&& (tree != other || page != twin) && file.trees@[other].pages@[twin].0 == number
                ==> share is Shared && file.trees@[other].pages@[twin].1 is Shared
        }),
{
    a_sound_file_holds_each_page_once(file, complete);
    let list = claims(file.first_data_page, file.free_map@, file.trees@);
    let at = a_page_is_claimed(
        file.first_data_page,
        file.free_map@,
        file.trees@,
        tree,
        page,
    );
    let there = a_page_is_claimed(
        file.first_data_page,
        file.free_map@,
        file.trees@,
        other,
        twin,
    );
    let number = file.trees@[tree].pages@[page].0;
    assert(list[at].0 == number);
    if number < file.first_data_page {
        assert(list[number as int] == (number, Holder::Meta));
        assert(list[number as int].0 == list[at].0);
    }
    if file.free_map@.contains(number) {
        let k = choose|k: int| 0 <= k < file.free_map@.len() && file.free_map@[k] == number;
        let free = file.first_data_page + k;
        assert(list[free] == (number, Holder::FreeMap));
        assert(list[free].0 == list[at].0);
    }
    if number < file.allocated@.len() {
        let _ = file.allocated@[number as int];
    }
    if (tree != other || page != twin) && file.trees@[other].pages@[twin].0 == number {
        if tree < other {
            trees_claims_begin(file.trees@, tree + 1, other);
        } else if other < tree {
            trees_claims_begin(file.trees@, other + 1, tree);
        }
        assert(at != there);
        assert(list[there].0 == list[at].0);
    }
}

/// In a whole file that nothing is wrong with, every page said to be in use past those
/// the file keeps for itself is one of the free map's or some tree's.
pub proof fn a_sound_file_leaves_no_page_unheld(file: FilePages, number: u64) -> (held: Option<
    (int, int),
>)
    requires
        file_reports(file, true, None),
        file.first_data_page <= number < file.allocated@.len() <= u64::MAX,
        file.allocated@[number as int],
    ensures
        held is None ==> file.free_map@.contains(number),
        held matches Some((tree, page)) ==> 0 <= tree < file.trees@.len() && 0 <= page
            < file.trees@[tree].pages@.len() && file.trees@[tree].pages@[page].0 == number,
{
    a_sound_file_holds_each_page_once(file, true);
    let list = claims(file.first_data_page, file.free_map@, file.trees@);
    assert(file.allocated@[number as int]);
    let at = choose|i: int| 0 <= i < list.len() && (#[trigger] list[i]).0 == number as int;
    let first = file.first_data_page as int;
    let free = file.free_map@.len() as int;
    if at < first {
        assert(list[at] == (at as u64, Holder::Meta));
        None
    } else if at < first + free {
        assert(list[at] == (file.free_map@[at - first], Holder::FreeMap));
        None
    } else {
        let inner = at - first - free;
        assert(list[at] == trees_claims(file.trees@, file.trees@.len() as int)[inner]);
        Some(a_claim_is_of_a_tree(file.trees@, file.trees@.len() as int, inner))
    }
}

/// A file is reported only where something is wrong with it: one whose pages are each
/// claimed once, but for pages that are shared, and whose map of the pages in use says
/// the same, is not.
pub proof fn a_report_has_a_reason(file: FilePages, complete: bool, text: Seq<u8>)
    requires
        file.allocated@.len() <= u64::MAX,
        ({
            let list = claims(file.first_data_page, file.free_map@, file.trees@);
            &&& forall|i: int, j: int|
                0 <= i < j < list.len() && (#[trigger] list[i]).0 == (#[trigger] list[j]).0
                    ==> list[i].1 is SharedExtent && list[j].1 is SharedExtent
            &&& forall|page: int|
                #![trigger file.allocated@[page]]
                file.first_data_page <= page < file.allocated@.len() ==> {
                    let claimed = exists|i: int|
                        0 <= i < list.len() && (#[trigger] list[i]).0 == page;
                    (claimed ==> file.allocated@[page]) && (complete && file.allocated@[page]
                        ==> claimed)
                }
        }),
    ensures
        !file_reports(file, complete, Some(text)),
        file_reports(file, complete, None),
{
    let list = claims(file.first_data_page, file.free_map@, file.trees@);
    let held = granted(list, list.len() as int);
    assert forall|at: int| 0 <= at < list.len() implies !#[trigger] conflicts(list, at) by {
        if granted(list, at).contains_key(list[at].0) {
            let i = granted_first(list, at, list[at].0);
            assert(list[i].0 == list[at].0);
        }
    }
    assert forall|page: int|
        file.first_data_page <= page < file.allocated@.len() implies !#[trigger] misplaced(
        held,
        file.allocated@,
        complete,
        page,
    ) by {
        let _ = file.allocated@[page];
        if held.contains_key(page as u64) {
            let i = granted_claimed(list, list.len() as int, page as u64);
            assert(list[i].0 == page);
        }
        if exists|i: int| 0 <= i < list.len() && (#[trigger] list[i]).0 == page {
            let i = choose|i: int| 0 <= i < list.len() && (#[trigger] list[i]).0 == page;
            granted_holds(list, list.len() as int, i);
        }
    }
}

/// A page is granted to whoever claimed it first.
proof fn granted_first(list: Seq<(u64, Holder)>, upto: int, page: u64) -> (at: int)
    requires
        0 <= upto <= list.len(),
        granted(list, upto).contains_key(page),
    ensures
        0 <= at < upto,
        list[at].0 == page,
        granted(list, upto)[page] == list[at].1,
    decreases upto,
{
    if granted(list, upto - 1).contains_key(page) {
        granted_first(list, upto - 1, page)
    } else {
        upto - 1
    }
}

/// A tree is called by the first table whose own it is, or by the first index of a table
/// before any other that holds it, and by its root where no table holds it.
pub proof fn a_tree_is_named_by_its_holder(
    tables: Seq<TableInfo>,
    handle: u32,
    root: u64,
    table: int,
    index: int,
)
    requires
        0 <= table <= tables.len(),
        forall|t: int| 0 <= t < table ==> (#[trigger] tables[t]).root != handle,
        forall|t: int, i: int|
            0 <= t < table && 0 <= i < tables[t].indexes@.len() ==> (
            #[trigger] tables[t].indexes@[i]).root != handle,
    ensures
        table == tables.len() ==> tree_named(tables, handle, root) == ascii(
            "the tree rooted at page ",
        ) + decimal(root as nat),
        table < tables.len() && tables[table].root == handle ==> tree_named(tables, handle, root)
            == ascii("table ") + shown(tables[table].name@),
        table < tables.len() && tables[table].root != handle && 0 <= index
            < tables[table].indexes@.len() && tables[table].indexes@[index].root == handle && (
        forall|i: int|
            0 <= i < index ==> (#[trigger] tables[table].indexes@[i]).root != handle)
            ==> tree_named(tables, handle, root) == ascii("index ") + shown(
            tables[table].indexes@[index].name@,
        ),
    decreases table,
{
    if table > 0 {
        let rest = tables.drop_first();
        assert(tables[0].root != handle);
        assert forall|i: int| 0 <= i < tables[0].indexes@.len() implies (
        #[trigger] tables[0].indexes@[i]).root != handle by {}
        no_index_with_root(tables[0], handle, tables[0].indexes@.len() as int);
        assert forall|t: int| 0 <= t < table - 1 implies (#[trigger] rest[t]).root != handle by {
            assert(tables[t + 1].root != handle);
        }
        assert forall|t: int, i: int|
            0 <= t < table - 1 && 0 <= i < rest[t].indexes@.len() implies (
        #[trigger] rest[t].indexes@[i]).root != handle by {
            assert(tables[t + 1].indexes@[i].root != handle);
        }
        a_tree_is_named_by_its_holder(rest, handle, root, table - 1, index);
        if table < tables.len() {
            assert(rest[table - 1] == tables[table]);
        }
    } else if tables.len() > 0 && 0 <= index < tables[0].indexes@.len()
        && tables[0].indexes@[index].root == handle && (forall|i: int|
        0 <= i < index ==> (#[trigger] tables[0].indexes@[i]).root != handle) {
        no_index_with_root(tables[0], handle, index);
        found_index_stays(tables[0], handle, index + 1, tables[0].indexes@.len() as int);
    }
}

/// No index is found under a handle that none has.
proof fn no_index_with_root(table: TableInfo, handle: u32, upto: int)
    requires
        0 <= upto <= table.indexes@.len(),
        forall|i: int| 0 <= i < upto ==> (#[trigger] table.indexes@[i]).root != handle,
    ensures
        index_with_root(table, handle, upto) is None,
    decreases upto,
{
    if upto > 0 {
        no_index_with_root(table, handle, upto - 1);
        assert(table.indexes@[upto - 1].root != handle);
    }
}

/// Every handle whose root is known gets a name, in the order of the handles, and no
/// other does.
pub proof fn every_known_tree_is_named(
    tables: Seq<TableInfo>,
    roots: Map<u32, u64>,
    before: Seq<u32>,
    handle: u32,
    after: Seq<u32>,
)
    ensures
        names_given(tables, roots, before + after) == names_given(tables, roots, before)
            + names_given(tables, roots, after),
        roots.contains_key(handle) ==> names_given(tables, roots, seq![handle]) == seq![
            (handle, tree_named(tables, handle, roots[handle])),
        ],
        !roots.contains_key(handle) ==> names_given(tables, roots, seq![handle]).len() == 0,
    decreases after.len(),
{
    assert(seq![handle].drop_last() =~= Seq::<u32>::empty());
    assert(seq![handle].last() == handle);
    assert(names_given(tables, roots, Seq::<u32>::empty()) =~= Seq::<(u32, Seq<u8>)>::empty());
    if roots.contains_key(handle) {
        assert(names_given(tables, roots, seq![handle]) =~= seq![
            (handle, tree_named(tables, handle, roots[handle])),
        ]);
    }
    if after.len() == 0 {
        assert(before + after =~= before);
        assert(names_given(tables, roots, before) + names_given(tables, roots, after)
            =~= names_given(tables, roots, before));
    } else {
        let whole = before + after;
        assert(whole.drop_last() =~= before + after.drop_last());
        assert(whole.last() == after.last());
        every_known_tree_is_named(tables, roots, before, handle, after.drop_last());
        assert(names_given(tables, roots, whole) =~= names_given(tables, roots, before)
            + names_given(tables, roots, after));
    }
}

/// A page is in the wrong place where it is reached and free, or, with every tree known,
/// where it is taken and not reached; the report says which.
pub proof fn a_misplaced_page_is_told(
    held: Map<u64, Holder>,
    names: Seq<TreeName>,
    allocated: Seq<bool>,
    complete: bool,
    page: u64,
)
    requires
        page < allocated.len(),
    ensures
        held.contains_key(page) ==> (misplaced(held, allocated, complete, page as int)
            <==> !allocated[page as int]) && misplaced_said(held, names, page as int) == ascii(
            "page ",
        ) + decimal(page as nat) + ascii(" is used by ") + described(held[page], names) + ascii(
            " but the free map says it is free",
        ),
        !held.contains_key(page) ==> (misplaced(held, allocated, complete, page as int)
            <==> complete && allocated[page as int]) && misplaced_said(held, names, page as int)
            == ascii("Page ") + decimal(page as nat) + ascii(": never used"),
{
}

/// A tree is told by the first name it has, and one without a name by its handle.
pub proof fn a_tree_is_told_by_its_first_name(names: Seq<TreeName>, handle: u32, at: int)
    requires
        0 <= at <= names.len(),
        at < names.len() ==> names[at].handle == handle,
        forall|i: int| 0 <= i < at ==> (#[trigger] names[i]).handle != handle,
    ensures
        at < names.len() ==> described(Holder::Tree(handle), names) == names[at].name@,
        at == names.len() ==> described(Holder::Tree(handle), names) == ascii(
            "a tree this connection reads as ",
        ) + decimal(handle as nat),
    decreases names.len(),
{
    if at > 0 {
        let rest = names.drop_first();
        assert(names[0].handle != handle);
        assert forall|i: int| 0 <= i < at - 1 implies (#[trigger] rest[i]).handle != handle by {
            assert(names[i + 1].handle != handle);
        }
        a_tree_is_told_by_its_first_name(rest, handle, at - 1);
    }
}

} // verus!
