use kestrelcut::history::History;

#[test]
fn undo_redo_walk_the_snapshots() {
    let mut h = History::new(0u32);
    assert!(!h.can_undo());
    assert!(!h.can_redo());
    h.commit(1);
    h.commit(2);
    assert_eq!(*h.current(), 2);
    assert!(h.undo());
    assert_eq!(*h.current(), 1);
    assert!(h.undo());
    assert_eq!(*h.current(), 0);
    assert!(!h.undo());
    assert!(h.redo());
    assert_eq!(*h.current(), 1);
    assert!(h.can_redo());
}

#[test]
fn commit_after_undo_drops_the_redo_branch() {
    let mut h = History::new("a");
    h.commit("b");
    h.commit("c");
    h.undo();
    h.commit("d");
    assert_eq!(*h.current(), "d");
    assert!(!h.can_redo());
    h.undo();
    assert_eq!(*h.current(), "b");
}

#[test]
fn history_keeps_at_most_one_hundred_steps() {
    let mut h = History::new(0u32);
    for i in 1..=150u32 {
        h.commit(i);
    }
    let mut undos = 0;
    while h.undo() {
        undos += 1;
    }
    assert_eq!(undos, 99);
    assert_eq!(*h.current(), 51);
}

#[test]
fn after_150_commits_exactly_99_undos_succeed() {
    let mut h = History::new(0u32);
    for k in 1..=150u32 {
        h.commit(k);
    }
    for _ in 0..99 {
        assert!(h.undo());
    }
    assert!(!h.undo());
    assert_eq!(*h.current(), 51);
}
