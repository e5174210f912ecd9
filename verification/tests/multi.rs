//! The commit that spans several files.

use std::collections::HashMap;

use inillucent_engine::multi::{
    doubtful_transactions, durable_among, first_stage, marker_path, next_stage, read_marker,
    voters, CommitStage, SuperJournal, MARKER_SUFFIX, SUPER_JOURNAL_PREFIX,
};
use inillucent_engine::sessions::{Attached, SessionState};

fn attached(path: Option<&str>) -> Attached {
    Attached {
        name: b"aux".to_vec(),
        path: path.map(|path| path.as_bytes().to_vec()),
        in_doubt: false,
        entries: Vec::new(),
        next_root: 2,
        handles: HashMap::new(),
        catalog_handle: 0xC000_0000,
        session: None,
    }
}

#[test]
fn a_marker_stands_beside_its_file() {
    assert_eq!(MARKER_SUFFIX, "-mjref");
    assert_eq!(SUPER_JOURNAL_PREFIX, "-mj");
    assert_eq!(marker_path(b"/a/b"), b"/a/b-mjref".to_vec());
}

#[test]
fn a_super_journal_lists_its_participants() {
    let (mut journal, listed) =
        SuperJournal::create(b"/db", 0x2F, &[b"/db".to_vec(), b"/aux".to_vec()]);
    assert_eq!(journal.path, b"/db-mj0000002f".to_vec());
    assert_eq!(listed, b"/db\n/aux\n".to_vec());
    assert_eq!(journal.marker_text(47), b"47\t/db-mj0000002f\n".to_vec());
    journal.mark(b"/db");
    journal.mark(b"/aux");
    let (decision, markers) = journal.commit();
    assert_eq!(decision, b"/db-mj0000002f".to_vec());
    assert_eq!(markers, vec![b"/db-mjref".to_vec(), b"/aux-mjref".to_vec()]);
}

#[test]
fn a_great_transaction_number_is_written_out_in_full() {
    let (journal, _) = SuperJournal::create(b"d", u64::MAX, &[]);
    assert_eq!(journal.path, b"d-mjffffffffffffffff".to_vec());
}

#[test]
fn a_transaction_nobody_voted_for_leaves_nothing() {
    let (mut journal, _) = SuperJournal::create(b"d", 1, &[]);
    journal.mark(b"d");
    assert_eq!(
        journal.abandon(),
        vec![b"d-mjref".to_vec(), b"d-mj00000001".to_vec()]
    );
}

#[test]
fn a_marker_says_what_was_written_in_it() {
    let (journal, _) = SuperJournal::create(b"/with\ttab", 12, &[]);
    assert_eq!(
        read_marker(&journal.marker_text(12)),
        vec![(12, b"/with\ttab-mj0000000c".to_vec())]
    );
}

#[test]
fn lines_that_say_nothing_are_passed_over() {
    let text = b"no tab here\nx\t/a\n+7\t/b\r\n99999999999999999999\t/c\n\t/d\n8\t/e";
    assert_eq!(
        read_marker(text),
        vec![(7, b"/b".to_vec()), (8, b"/e".to_vec())]
    );
    assert_eq!(read_marker(b""), Vec::new());
}

#[test]
fn a_transaction_is_in_doubt_while_its_journal_stands() {
    let said = vec![(7u64, b"/a".to_vec()), (8, b"/b".to_vec())];
    let (doubtful, removed) = doubtful_transactions(&said, &[true, false], false);
    assert!(doubtful.contains(&7));
    assert!(!doubtful.contains(&8));
    assert!(!removed);
    let (none, gone) = doubtful_transactions(&said, &[false, false], false);
    assert!(none.is_empty());
    assert!(gone);
}

#[test]
fn a_connection_that_only_reads_removes_no_marker() {
    let said = read_marker(b"7\t/d/gone-mj00000007\n");
    let (none, removed) = doubtful_transactions(&said, &[false], true);
    assert!(none.is_empty());
    assert!(!removed);
    let (_, gone) = doubtful_transactions(&said, &[false], false);
    assert!(gone);
}

#[test]
fn a_path_that_is_not_text_is_written_as_it_is_shown() {
    let (journal, listed) = SuperJournal::create(b"/\xff", 1, &[b"/\xff".to_vec()]);
    assert_eq!(journal.path, b"/\xff-mj00000001".to_vec());
    assert_eq!(listed, "/\u{fffd}\n".as_bytes().to_vec());
    assert_eq!(
        journal.marker_text(1),
        "1\t/\u{fffd}-mj00000001\n".as_bytes().to_vec()
    );
}

#[test]
fn only_schemas_kept_in_files_have_to_agree() {
    let mut state = SessionState::fresh();
    state.attached.push(attached(Some("/aux")));
    state.attached.push(attached(None));
    assert_eq!(durable_among(&state, 0b1101), vec![0, 2]);
    assert_eq!(voters(&state, 0b1101), vec![0, 2, 3]);
    assert_eq!(voters(&state, 0b1_0000), Vec::<usize>::new());
}

#[test]
fn one_file_commits_by_its_own_record() {
    assert_eq!(first_stage(1), CommitStage::Voting(true));
    assert_eq!(
        next_stage(CommitStage::Voting(true), 1, true),
        CommitStage::Over(true)
    );
    assert_eq!(
        next_stage(CommitStage::Voting(true), 1, false),
        CommitStage::Over(false)
    );
}

#[test]
fn several_files_commit_by_one_deletion() {
    let mut stage = first_stage(2);
    let mut stages = vec![stage];
    while !matches!(stage, CommitStage::Over(_)) {
        stage = next_stage(stage, 2, true);
        stages.push(stage);
    }
    assert_eq!(
        stages,
        vec![
            CommitStage::Creating,
            CommitStage::Marking(0),
            CommitStage::Marking(1),
            CommitStage::Voting(false),
            CommitStage::Deciding,
            CommitStage::Clearing,
            CommitStage::Over(true),
        ]
    );
}

#[test]
fn a_commit_that_fails_before_the_vote_is_abandoned() {
    assert_eq!(
        next_stage(CommitStage::Creating, 2, false),
        CommitStage::Over(false)
    );
    assert_eq!(
        next_stage(CommitStage::Marking(1), 2, false),
        CommitStage::Abandoning(1)
    );
    assert_eq!(
        next_stage(CommitStage::Abandoning(1), 2, true),
        CommitStage::Over(false)
    );
    assert_eq!(
        next_stage(CommitStage::Voting(false), 2, false),
        CommitStage::Over(false)
    );
    assert_eq!(
        next_stage(CommitStage::Deciding, 2, false),
        CommitStage::Over(false)
    );
    assert_eq!(
        next_stage(CommitStage::Clearing, 2, false),
        CommitStage::Over(true)
    );
}

/// Whether each of two participants recovers with the transaction.
fn recovering(journal: bool, marked: &[bool; 2], voted: &[bool; 2]) -> [bool; 2] {
    [0, 1].map(|at| voted[at] && !(journal && marked[at]))
}

#[test]
fn a_commit_cut_off_anywhere_leaves_no_file_alone() {
    // Each stage is one operation here, but for the vote, which is cut off after
    // each participant's record.
    for cut in 0..8 {
        let mut journal = false;
        let mut marked = [false; 2];
        let mut voted = [false; 2];
        let mut done = 0;
        let mut stage = first_stage(2);
        'run: loop {
            let steps: usize = match stage {
                CommitStage::Voting(_) | CommitStage::Clearing => 2,
                _ => 1,
            };
            for step in 0..steps {
                if done == cut {
                    break 'run;
                }
                done += 1;
                match stage {
                    CommitStage::Creating => journal = true,
                    CommitStage::Marking(at) => marked[at] = true,
                    CommitStage::Voting(_) => voted[step] = true,
                    CommitStage::Deciding => journal = false,
                    CommitStage::Clearing => marked[step] = false,
                    CommitStage::Abandoning(_) => journal = false,
                    CommitStage::Over(_) => break 'run,
                }
                let recovers = recovering(journal, &marked, &voted);
                assert_eq!(recovers[0], recovers[1], "cut {} done {}", cut, done);
            }
            stage = next_stage(stage, 2, true);
        }
        let decided = cut > 5;
        assert_eq!(recovering(journal, &marked, &voted), [decided; 2]);
    }
}
