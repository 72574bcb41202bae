use sbvc::diff::{apply, diff, Deletion, Difference, Insertion};
use sbvc::error::Error;
use sbvc::layout::Cell;
use sbvc::schedule::{perform, Reply, Request, Scheduler};
use sbvc::store::{Sbvc, Version};

fn store(seed: &[u8]) -> Sbvc {
    Sbvc::new("notes.txt".to_string(), seed.to_vec(), 1_700_000_000)
}

fn ids(s: &Sbvc) -> Vec<(u32, u32)> {
    s.versions().iter().map(|v| (v.id(), v.base())).collect()
}

fn version(id: u32, base: u32, difference: Difference) -> Version {
    Version { id, base, name: format!("v{}", id), date: 0, difference }
}

fn empty() -> Difference {
    Difference { deletions: Vec::new(), insertions: Vec::new() }
}

#[test]
fn round_trip_on_sample_pairs() {
    let pairs: Vec<(&[u8], &[u8])> = vec![
        (b"", b""),
        (b"", b"hello"),
        (b"hello", b""),
        (b"hello", b"hello"),
        (b"hello world", b"hello there world"),
        (b"abcdef", b"abXYef"),
        (b"aaaa", b"aa"),
        (b"aa", b"aaaa"),
        (b"line one\nline two\n", b"line zero\nline one\nline two\nline three\n"),
        (b"xyz", b"abc"),
    ];
    for (a, b) in pairs {
        let d = diff(&a.to_vec(), &b.to_vec());
        assert_eq!(apply(&a.to_vec(), &d).unwrap(), b.to_vec());
    }
}

#[test]
fn diff_of_appended_byte_is_one_insertion() {
    let d = diff(&b"a".to_vec(), &b"ab".to_vec());
    assert!(d.deletions.is_empty());
    assert_eq!(d.insertions.len(), 1);
    assert_eq!(d.insertions[0].at, 1);
    assert_eq!(d.insertions[0].content, b"b".to_vec());
}

#[test]
fn diff_replaces_only_the_middle() {
    let d = diff(&b"abcdef".to_vec(), &b"abXYef".to_vec());
    assert_eq!(d.deletions, vec![Deletion { start: 2, len: 2 }]);
    assert_eq!(d.insertions.len(), 1);
    assert_eq!(d.insertions[0].at, 2);
    assert_eq!(d.insertions[0].content, b"XY".to_vec());
}

#[test]
fn diff_of_equal_buffers_is_empty() {
    let d = diff(&b"same".to_vec(), &b"same".to_vec());
    assert!(d.deletions.is_empty());
    assert!(d.insertions.is_empty());
}

#[test]
fn apply_refuses_a_deletion_past_the_end() {
    let d = Difference { deletions: vec![Deletion { start: 2, len: 5 }], insertions: Vec::new() };
    assert_eq!(apply(&b"abcd".to_vec(), &d).unwrap_err(), Error::CorruptDifference);
}

#[test]
fn apply_refuses_an_insertion_past_the_end() {
    let d = Difference {
        deletions: Vec::new(),
        insertions: vec![Insertion { at: 9, content: b"z".to_vec() }],
    };
    assert_eq!(apply(&b"abcd".to_vec(), &d).unwrap_err(), Error::CorruptDifference);
}

#[test]
fn apply_replays_edits_in_order() {
    let d = Difference {
        deletions: vec![Deletion { start: 0, len: 1 }, Deletion { start: 1, len: 1 }],
        insertions: vec![
            Insertion { at: 0, content: b"X".to_vec() },
            Insertion { at: 3, content: b"Y".to_vec() },
        ],
    };
    // "abcd" -> "bcd" -> "bd" -> "Xbd" -> "XbdY"
    assert_eq!(apply(&b"abcd".to_vec(), &d).unwrap(), b"XbdY".to_vec());
}

#[test]
fn scenario_commit_checkout_delete() {
    let mut s = store(b"a");
    let root = s.current_id();
    assert_eq!(root, 1);
    let id = s.commit(&b"ab".to_vec(), 1_700_000_100);
    assert_eq!(id, 2);
    assert_eq!(ids(&s), vec![(1, 1), (2, 1)]);
    assert_eq!(s.current_id(), 2);
    let v2 = &s.versions()[1];
    assert!(v2.difference().deletions.is_empty());
    assert_eq!(v2.difference().insertions.len(), 1);
    assert_eq!(v2.difference().insertions[0].content, b"b".to_vec());
    assert_eq!(s.reconstruct(1).unwrap(), b"a".to_vec());
    assert_eq!(s.reconstruct(2).unwrap(), b"ab".to_vec());

    let content = s.checkout(root, true, &b"ab".to_vec()).unwrap();
    assert_eq!(content, b"a".to_vec());
    assert_eq!(s.current_id(), root);

    let content = s.checkout(2, true, &content).unwrap();
    assert_eq!(content, b"ab".to_vec());
    let content = s.delete().unwrap();
    assert_eq!(content, b"a".to_vec());
    assert_eq!(ids(&s), vec![(1, 1)]);
    assert_eq!(s.current_id(), root);
}

#[test]
fn checkout_with_edits_is_refused_without_discard() {
    let mut s = store(b"a");
    s.commit(&b"ab".to_vec(), 10);
    let r = s.checkout(1, false, &b"ab edited".to_vec());
    assert_eq!(r.unwrap_err(), Error::UncommittedChanges);
    assert_eq!(s.current_id(), 2);
    assert_eq!(ids(&s), vec![(1, 1), (2, 1)]);
    assert_eq!(s.checkout(1, true, &b"ab edited".to_vec()).unwrap(), b"a".to_vec());
    assert_eq!(s.current_id(), 1);
}

#[test]
fn checkout_of_a_clean_file_needs_no_discard() {
    let mut s = store(b"a");
    s.commit(&b"ab".to_vec(), 10);
    assert_eq!(s.checkout(1, false, &b"ab".to_vec()).unwrap(), b"a".to_vec());
}

#[test]
fn checkout_of_an_unknown_id() {
    let mut s = store(b"a");
    assert_eq!(s.checkout(7, true, &b"a".to_vec()).unwrap_err(), Error::UnknownVersion);
    assert_eq!(s.current_id(), 1);
    assert_eq!(s.reconstruct(7).unwrap_err(), Error::UnknownVersion);
}

#[test]
fn commit_without_edits_records_nothing() {
    let mut s = store(b"a");
    assert_eq!(s.commit(&b"a".to_vec(), 10), 1);
    assert_eq!(ids(&s), vec![(1, 1)]);
    assert_eq!(s.next_id(), 2);
}

#[test]
fn delete_moves_children_onto_the_base() {
    let mut s = store(b"one\n");
    s.commit(&b"one\ntwo\n".to_vec(), 1); // 2
    s.commit(&b"one\ntwo\nthree\n".to_vec(), 2); // 3 on 2
    s.checkout(2, true, &b"one\ntwo\nthree\n".to_vec()).unwrap();
    s.commit(&b"zero\none\ntwo\n".to_vec(), 3); // 4 on 2
    s.checkout(2, true, &b"zero\none\ntwo\n".to_vec()).unwrap();
    assert_eq!(ids(&s), vec![(1, 1), (2, 1), (3, 2), (4, 2)]);
    let content = s.delete().unwrap();
    assert_eq!(content, b"one\n".to_vec());
    assert_eq!(ids(&s), vec![(1, 1), (3, 1), (4, 1)]);
    assert_eq!(s.current_id(), 1);
    assert_eq!(s.reconstruct(3).unwrap(), b"one\ntwo\nthree\n".to_vec());
    assert_eq!(s.reconstruct(4).unwrap(), b"zero\none\ntwo\n".to_vec());
}

#[test]
fn the_root_cannot_be_deleted() {
    let mut s = store(b"a");
    assert_eq!(s.delete().unwrap_err(), Error::CannotDeleteRoot);
    assert_eq!(ids(&s), vec![(1, 1)]);
}

#[test]
fn ids_are_never_reused() {
    let mut s = store(b"a");
    assert_eq!(s.commit(&b"ab".to_vec(), 1), 2);
    s.delete().unwrap();
    assert_eq!(s.commit(&b"ac".to_vec(), 2), 3);
    assert_eq!(ids(&s), vec![(1, 1), (3, 1)]);
}

#[test]
fn rename_sets_the_current_name() {
    let mut s = store(b"a");
    s.commit(&b"ab".to_vec(), 1);
    s.rename("draft".to_string()).unwrap();
    assert_eq!(s.current().name(), "draft");
    assert_eq!(s.versions()[0].name(), "Initial version");
    assert_eq!(s.reconstruct(2).unwrap(), b"ab".to_vec());
}

#[test]
fn blank_names_are_refused() {
    let mut s = store(b"a");
    assert_eq!(s.rename(String::new()).unwrap_err(), Error::EmptyName);
    assert_eq!(s.rename(" \t\n".to_string()).unwrap_err(), Error::EmptyName);
    assert_eq!(s.current().name(), "Initial version");
}

#[test]
fn dirty_check_and_rollback() {
    let mut s = store(b"a");
    s.commit(&b"ab".to_vec(), 1);
    assert!(!s.is_changed(&b"ab".to_vec()));
    assert!(s.is_changed(&b"abc".to_vec()));
    assert!(s.is_changed(&b"a".to_vec()));
    assert_eq!(s.rollback(), b"ab".to_vec());
}

#[test]
fn set_file_keeps_the_history() {
    let mut s = store(b"a");
    s.commit(&b"ab".to_vec(), 1);
    s.set_file("other.txt".to_string());
    assert_eq!(s.file(), "other.txt");
    assert_eq!(s.current_id(), 2);
    assert_eq!(ids(&s), vec![(1, 1), (2, 1)]);
}

#[test]
fn loading_checks_the_tree() {
    assert_eq!(
        Sbvc::from_parts(Vec::new(), 1, Vec::new(), String::new(), 2).unwrap_err(),
        Error::MalformedStore
    );
    let not_root = vec![version(1, 2, empty())];
    assert_eq!(
        Sbvc::from_parts(not_root, 1, Vec::new(), String::new(), 3).unwrap_err(),
        Error::MalformedStore
    );
    let out_of_order = vec![version(2, 2, empty()), version(1, 2, empty())];
    assert_eq!(
        Sbvc::from_parts(out_of_order, 2, Vec::new(), String::new(), 3).unwrap_err(),
        Error::MalformedStore
    );
    let later_base = vec![version(1, 1, empty()), version(2, 3, empty()), version(3, 1, empty())];
    assert_eq!(
        Sbvc::from_parts(later_base, 1, Vec::new(), String::new(), 4).unwrap_err(),
        Error::MalformedStore
    );
    let missing_current = vec![version(1, 1, empty())];
    assert_eq!(
        Sbvc::from_parts(missing_current, 5, Vec::new(), String::new(), 6).unwrap_err(),
        Error::MalformedStore
    );
    let counter_behind = vec![version(1, 1, empty()), version(2, 1, empty())];
    assert_eq!(
        Sbvc::from_parts(counter_behind, 1, Vec::new(), String::new(), 2).unwrap_err(),
        Error::MalformedStore
    );
}

#[test]
fn loading_checks_the_deltas() {
    let bad = Difference { deletions: vec![Deletion { start: 0, len: 4 }], insertions: Vec::new() };
    let vs = vec![version(1, 1, empty()), version(2, 1, bad)];
    assert_eq!(
        Sbvc::from_parts(vs, 1, b"abc".to_vec(), String::new(), 3).unwrap_err(),
        Error::CorruptDifference
    );
}

#[test]
fn loading_a_sound_store() {
    let add = diff(&b"abc".to_vec(), &b"abcd".to_vec());
    let vs = vec![version(1, 1, empty()), version(5, 1, add)];
    let s = Sbvc::from_parts(vs, 5, b"abc".to_vec(), "f".to_string(), 6).unwrap();
    assert_eq!(s.current_id(), 5);
    assert_eq!(s.rollback(), b"abcd".to_vec());
}

#[test]
fn layout_walks_depth_first() {
    let mut s = store(b"r");
    s.commit(&b"r2".to_vec(), 1); // 2 on 1
    s.commit(&b"r23".to_vec(), 2); // 3 on 2
    s.checkout(1, true, &b"r23".to_vec()).unwrap();
    s.commit(&b"r4".to_vec(), 3); // 4 on 1
    let cells = s.layout();
    assert_eq!(
        cells,
        vec![
            Cell { id: 1, column: 0, row: 0 },
            Cell { id: 2, column: 1, row: 0 },
            Cell { id: 3, column: 2, row: 0 },
            Cell { id: 4, column: 1, row: 1 },
        ]
    );
}

#[test]
fn layout_of_a_lone_root() {
    let s = store(b"");
    assert_eq!(s.layout(), vec![Cell { id: 1, column: 0, row: 0 }]);
}

#[test]
fn requests_run_in_submission_order() {
    let mut q = Scheduler::new(store(b"a"));
    q.submit(Request::Commit { date: 5 });
    q.submit(Request::Rename { name: "second".to_string() });
    assert_eq!(q.waiting(), 2);
    match q.run_next(&b"ab".to_vec()) {
        Some(Reply::Committed(2)) => {}
        other => panic!("unexpected reply {:?}", other),
    }
    // The rename starts from the store the commit left: it names version 2.
    match q.run_next(&b"ab".to_vec()) {
        Some(Reply::Done) => {}
        other => panic!("unexpected reply {:?}", other),
    }
    assert!(q.run_next(&b"ab".to_vec()).is_none());
    assert_eq!(q.store().current().id(), 2);
    assert_eq!(q.store().current().name(), "second");
    assert_eq!(q.store().versions()[0].name(), "Initial version");
}

#[test]
fn perform_reports_refusals() {
    let mut s = store(b"a");
    match perform(&mut s, Request::Delete, &b"a".to_vec()) {
        Reply::Failed(Error::CannotDeleteRoot) => {}
        other => panic!("unexpected reply {:?}", other),
    }
    match perform(&mut s, Request::Checkout { id: 1, discard: false }, &b"zz".to_vec()) {
        Reply::Failed(Error::UncommittedChanges) => {}
        other => panic!("unexpected reply {:?}", other),
    }
    match perform(&mut s, Request::Rollback, &b"zz".to_vec()) {
        Reply::Write(v) => assert_eq!(v, b"a".to_vec()),
        other => panic!("unexpected reply {:?}", other),
    }
    match perform(&mut s, Request::SetFile { file: "g".to_string() }, &b"a".to_vec()) {
        Reply::Done => assert_eq!(s.file(), "g"),
        other => panic!("unexpected reply {:?}", other),
    }
}

#[test]
fn commit_when_ids_run_out() {
    let vs = vec![version(1, 1, empty())];
    let mut s = Sbvc::from_parts(vs, 1, b"a".to_vec(), String::new(), u32::MAX).unwrap();
    match perform(&mut s, Request::Commit { date: 1 }, &b"ab".to_vec()) {
        Reply::Failed(Error::IdsExhausted) => {}
        other => panic!("unexpected reply {:?}", other),
    }
    match perform(&mut s, Request::Commit { date: 1 }, &b"a".to_vec()) {
        Reply::Committed(1) => {}
        other => panic!("unexpected reply {:?}", other),
    }
}
