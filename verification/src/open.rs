//! Opening a database: what a file says before its first page is read, and what
//! may be done to it once its catalog is known.

use vstd::prelude::*;

use crate::import::FEWEST_FRAMES;
use crate::locks::JournalMode;
use crate::refusals::Refusal;
use crate::schema::Recorded;
use crate::sessions::FIRST_CREATED_ROOT;
use crate::text::{append, ascii, copied, decimal, write_decimal};

verus! {

/// The name an imported database is written under, after the file it came from.
pub open spec fn target_called(stem: Option<Seq<u8>>, page_size: nat, frames: nat) -> Seq<u8> {
    (match stem {
        Some(name) => name,
        None => ascii("fixture"),
    }) + ascii("-p") + decimal(page_size) + ascii("-f") + decimal(frames) + ascii(".rdb")
}

/// Returns the name an imported database is written under.
///
/// The page size and the number of frames are in it, so that a run over either
/// does not overwrite a file that is still open.
pub fn target_name(stem: Option<&[u8]>, page_size: usize, frames: usize) -> (name: Vec<u8>)
    ensures
        name@ == target_called(
            match stem {
                Some(held) => Some(held@),
                None => None,
            },
            page_size as nat,
            frames as nat,
        ),
        name@ == (if stem is Some {
            stem->Some_0@
        } else {
            ascii("fixture")
        }) + ascii("-p") + decimal(page_size as nat) + ascii("-f") + decimal(frames as nat)
            + ascii(".rdb"),
{
    let mut name = match stem {
        Some(held) => copied(held),
        None => copied("fixture".as_bytes()),
    };
    append(&mut name, "-p".as_bytes());
    write_decimal(page_size as u64, &mut name);
    append(&mut name, "-f".as_bytes());
    write_decimal(frames as u64, &mut name);
    append(&mut name, ".rdb".as_bytes());
    name
}

/// Returns how many frames a pool gets, of the number asked for.
pub fn frames_given(frames: usize) -> (given: usize)
    ensures
        given == (if frames < FEWEST_FRAMES {
            FEWEST_FRAMES
        } else {
            frames
        }),
        given >= 64 && given >= frames,
        given == frames || given == 64,
{
    if frames < FEWEST_FRAMES {
        FEWEST_FRAMES
    } else {
        frames
    }
}

/// Whether every page a catalog names lies inside a file of so many pages.
pub open spec fn accounted_for(entries: Seq<Recorded>, page_count: u64) -> bool {
    forall|i: int| 0 <= i < entries.len() ==> (#[trigger] entries[i]).entry.root < page_count
}

/// Returns whether every page the catalog names lies inside the page count the
/// file's header carries.
pub fn header_accounts_for_every_object(entries: &[Recorded], page_count: u64) -> (answer: bool)
    ensures
        answer == accounted_for(entries@, page_count),
        answer <==> forall|i: int|
            0 <= i < entries@.len() ==> (#[trigger] entries@[i]).entry.root < page_count,
{
    for at in 0..entries.len()
        invariant
            forall|i: int| 0 <= i < at ==> (#[trigger] entries@[i]).entry.root < page_count,
    {
        if entries[at].entry.root >= page_count {
            assert(entries@[at as int].entry.root >= page_count);
            return false;
        }
    }
    true
}

/// Returns whether the part of a file past its page count may be cut off.
///
/// Not by a connection that may not write, and not where the header is behind
/// the file: cutting there would delete pages the catalog is pointing at.
pub fn gives_back_the_tail(read_only: bool, entries: &[Recorded], page_count: u64) -> (answer: bool)
    ensures
        answer == (!read_only && accounted_for(entries@, page_count)),
        answer <==> !read_only && forall|i: int|
            0 <= i < entries@.len() ==> (#[trigger] entries@[i]).entry.root < page_count,
{
    !read_only && header_accounts_for_every_object(entries, page_count)
}

/// What is done about a rollback journal before a page is read.
#[derive(Clone, Copy, Debug, PartialEq, Eq, Structural)]
pub enum HotJournal {
    /// Whatever it describes is put back.
    Replay,
    /// There is none.
    Nothing,
}

/// Decides what is done about a rollback journal before a page is read.
///
/// A connection that may not write cannot replay one, and a file that has one is
/// halfway through a transaction, so it is refused rather than read. `standing`
/// is whether a journal lies beside the file, and nothing where that could not
/// be found out.
pub fn settle_a_hot_journal(read_only: bool, standing: Option<bool>) -> (settled: Result<
    HotJournal,
    Refusal,
>)
    ensures
        settled == (if !read_only {
            Ok(HotJournal::Replay)
        } else if standing == Some(true) {
            Err(Refusal::HotJournal)
        } else {
            Ok::<HotJournal, Refusal>(HotJournal::Nothing)
        }),
{
    if !read_only {
        return Ok(HotJournal::Replay);
    }
    match standing {
        Some(true) => Err(Refusal::HotJournal),
        _ => Ok(HotJournal::Nothing),
    }
}

/// Returns the journal mode a connection starts in.
///
/// A file that was left with a write-ahead log comes back with one: otherwise
/// one connection would write images beside a log that another appends to.
pub fn settle_journal(file_has_log: bool, set: JournalMode) -> (mode: JournalMode)
    ensures
        mode == (if file_has_log {
            JournalMode::Wal
        } else {
            set
        }),
{
    if file_has_log {
        JournalMode::Wal
    } else {
        set
    }
}

/// The identifier the next created tree takes in a file with a highest one.
pub open spec fn root_after(highest: u32) -> u32 {
    if highest < FIRST_CREATED_ROOT {
        FIRST_CREATED_ROOT
    } else if highest == u32::MAX {
        u32::MAX
    } else {
        (highest + 1) as u32
    }
}

/// Returns the identifier the next created tree takes.
///
/// It is above every one the file holds, and never among those an imported tree
/// can have.
pub fn first_free_root(highest: u32) -> (root: u32)
    ensures
        root == root_after(highest),
        root >= 0x8000_0000,
        highest < u32::MAX ==> root > highest,
        root == 0x8000_0000 || highest == u32::MAX || root == highest + 1,
        highest == u32::MAX ==> root == u32::MAX,
        highest < 0x8000_0000 ==> root == 0x8000_0000,
{
    let next: u32 = if highest == u32::MAX {
        u32::MAX
    } else {
        highest + 1
    };
    if next < FIRST_CREATED_ROOT {
        FIRST_CREATED_ROOT
    } else {
        next
    }
}

/// The root a file's next tree is created under is no tree's of the file, so
/// long as the file has not used the last one.
pub proof fn a_created_root_is_free(highest: u32, taken: u32)
    requires
        taken <= highest < u32::MAX,
    ensures
        root_after(highest) > taken,
        root_after(highest) >= FIRST_CREATED_ROOT,
{
}

/// Returns whether free pages are given back.
///
/// They are given back by writing the file anew, so it is all of them or none:
/// all of them where there are as many as were asked for.
pub fn reclaims(free: u64, pages: usize) -> (answer: bool)
    ensures
        answer == (free != 0 && free >= pages),
{
    free != 0 && free >= pages as u64
}

/// The path of one connection's temporary database.
pub open spec fn temp_called(session: u64) -> Seq<u8> {
    ascii("/temp/") + decimal(session as nat) + ascii(".db")
}

/// Returns the path of one connection's temporary database, in a file system of
/// its own.
pub fn temp_path(session: u64) -> (path: Vec<u8>)
    ensures
        path@ == temp_called(session),
        path@ == ascii("/temp/") + decimal(session as nat) + ascii(".db"),
{
    let mut path = copied("/temp/".as_bytes());
    write_decimal(session, &mut path);
    append(&mut path, ".db".as_bytes());
    path
}

} // verus!
