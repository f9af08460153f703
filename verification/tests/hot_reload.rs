use std::collections::{BTreeMap, HashMap};
use zellij_core::hot_reload::{
    cleanup_unused_hot_reload_fds, has_hot_reload_fds, install_retrieved,
    is_hot_reload_in_progress, parse_terminal_key, pop_hot_reload_fd,
    set_hot_reload_in_progress, settle_retrieval, sorted_ids, terminal_key, unclaimed_fds,
    HotReload, RetrieveAction, RetrieveEvent, RetrieveRun, StoreAction, StoreEvent, StoreRun,
};

/// Runs a store run with a daemon that stores everything; gives what it got.
fn store_all(run: &mut StoreRun, dead: &[i32]) -> Vec<(String, i32)> {
    let mut stored = Vec::new();
    let mut event = StoreEvent::Begin;
    loop {
        event = match run.step(event) {
            StoreAction::Probe { fd, .. } => StoreEvent::Probed { alive: !dead.contains(&fd) },
            StoreAction::Store { key, fd } => {
                stored.push((key, fd));
                StoreEvent::Stored(Ok(()))
            },
            StoreAction::Finished => return stored,
            StoreAction::Failed(e) => panic!("{}", e),
        };
    }
}

/// Runs a retrieve run; gives the descriptors that it has closed.
fn retrieve_all(run: &mut RetrieveRun, dead: &[i32]) -> Vec<i32> {
    let mut closed = Vec::new();
    let mut event = RetrieveEvent::Begin;
    loop {
        event = match run.step(event) {
            RetrieveAction::Probe { fd, .. } => RetrieveEvent::Probed { alive: !dead.contains(&fd) },
            RetrieveAction::Close { fd } => {
                closed.push(fd);
                RetrieveEvent::Closed
            },
            RetrieveAction::Finished => return closed,
        };
    }
}

#[test]
fn terminal_keys_read_back() {
    assert_eq!(terminal_key(0), "terminal_0");
    assert_eq!(terminal_key(u32::MAX), "terminal_4294967295");
    for id in [0, 1, 9, 10, 4294967295] {
        assert_eq!(parse_terminal_key(&terminal_key(id)), Some(id));
    }
    assert_eq!(parse_terminal_key("terminal_+7"), Some(7));
    assert_eq!(parse_terminal_key("terminal_007"), Some(7));
    for key in [
        "terminal_",
        "terminal_4294967296",
        "terminal_-1",
        "terminal_1 ",
        "Terminal_1",
        "plugin_1",
        "",
    ] {
        assert_eq!(parse_terminal_key(key), None);
    }
}

#[test]
fn live_fds_come_back_to_their_terminals() {
    let mut fds = BTreeMap::new();
    fds.insert(10, Some(30));
    fds.insert(2, Some(31));
    fds.insert(7, None);
    fds.insert(3, Some(32));
    let mut run = StoreRun::new(&fds);
    let stored = store_all(&mut run, &[32]);
    assert_eq!(
        stored,
        vec![("terminal_2".to_string(), 31), ("terminal_10".to_string(), 30)]
    );
    assert_eq!((run.stored, run.skipped_dead, run.skipped_unset), (2, 1, 1));

    let mut back = RetrieveRun::new(stored);
    assert!(retrieve_all(&mut back, &[]).is_empty());
    assert_eq!(back.live_ids(), vec![2, 10]);
    let mut state = HotReload::new();
    install_retrieved(&mut state, "main", back);
    assert_eq!(pop_hot_reload_fd(&mut state, 10), Some(30));
    assert_eq!(pop_hot_reload_fd(&mut state, 2), Some(31));
    assert_eq!(pop_hot_reload_fd(&mut state, 3), None);
}

#[test]
fn failure_to_store_ends_the_run() {
    let mut fds = BTreeMap::new();
    fds.insert(1, Some(5));
    fds.insert(2, Some(6));
    let mut run = StoreRun::new(&fds);
    assert!(matches!(
        run.step(StoreEvent::Begin),
        StoreAction::Probe { terminal_id: 1, fd: 5 }
    ));
    assert!(matches!(
        run.step(StoreEvent::Probed { alive: true }),
        StoreAction::Store { fd: 5, .. }
    ));
    assert!(matches!(
        run.step(StoreEvent::Stored(Err("sendmsg failed".to_string()))),
        StoreAction::Failed(e) if e == "sendmsg failed"
    ));
    assert_eq!((run.stored, run.next), (0, 0));
}

#[test]
fn server_without_terminals_stores_nothing() {
    let mut run = StoreRun::new(&BTreeMap::new());
    assert!(store_all(&mut run, &[]).is_empty());
    assert_eq!(run.skipped_unset, 0);
}

#[test]
fn strange_keys_and_dead_fds_are_closed() {
    let entries = vec![
        ("other".to_string(), 40),
        ("terminal_1".to_string(), 41),
        ("terminal_2".to_string(), 42),
        ("terminal_x".to_string(), 43),
    ];
    let mut run = RetrieveRun::new(entries);
    assert_eq!(retrieve_all(&mut run, &[42]), vec![40, 42, 43]);
    assert_eq!(run.live_ids(), vec![1]);
    assert_eq!(run.unparseable_count(), 2);
    assert_eq!(run.dead_count(), 1);
}

#[test]
fn fd_is_claimed_once() {
    let mut run = RetrieveRun::new(vec![
        ("terminal_1".to_string(), 41),
        ("terminal_5".to_string(), 45),
    ]);
    retrieve_all(&mut run, &[]);
    let mut state = HotReload::new();
    assert!(!has_hot_reload_fds(&state));
    assert_eq!(pop_hot_reload_fd(&mut state, 1), None);
    install_retrieved(&mut state, "main", run);
    assert!(has_hot_reload_fds(&state));
    assert_eq!(pop_hot_reload_fd(&mut state, 1), Some(41));
    assert_eq!(pop_hot_reload_fd(&mut state, 1), None);
    // what nobody has claimed stays
    assert_eq!(cleanup_unused_hot_reload_fds(&mut state), vec![5]);
    assert_eq!(pop_hot_reload_fd(&mut state, 5), Some(45));
    assert!(!has_hot_reload_fds(&state));
    assert!(cleanup_unused_hot_reload_fds(&mut state).is_empty());
}

#[test]
fn reload_is_marked_once_it_begins() {
    let mut state = HotReload::new();
    assert!(!is_hot_reload_in_progress(&state));
    set_hot_reload_in_progress(&mut state);
    assert!(is_hot_reload_in_progress(&state));
    set_hot_reload_in_progress(&mut state);
    assert!(is_hot_reload_in_progress(&state));
}

#[test]
fn ids_are_sorted_as_numbers() {
    let mut fds = HashMap::new();
    for id in [10, 9, 100, 0] {
        fds.insert(id, 1);
    }
    assert_eq!(sorted_ids(&fds), vec![0, 9, 10, 100]);
}

#[test]
fn retrieval_that_brings_nothing_leaves_the_pool_alone() {
    let mut run = RetrieveRun::new(vec![("terminal_1".to_string(), 41)]);
    retrieve_all(&mut run, &[]);
    let mut state = HotReload::new();
    settle_retrieval(&mut state, "main", Some(Ok(run)));
    assert_eq!(unclaimed_fds(&state), 1);

    settle_retrieval(&mut state, "main", None);
    settle_retrieval(&mut state, "main", Some(Err("recvmsg failed".to_string())));
    let mut empty = RetrieveRun::new(Vec::new());
    retrieve_all(&mut empty, &[]);
    settle_retrieval(&mut state, "main", Some(Ok(empty)));
    assert_eq!(unclaimed_fds(&state), 1);

    // a daemon that held only dead descriptors empties the pool
    let mut dead = RetrieveRun::new(vec![("terminal_2".to_string(), 42)]);
    retrieve_all(&mut dead, &[42]);
    settle_retrieval(&mut state, "main", Some(Ok(dead)));
    assert_eq!(unclaimed_fds(&state), 0);
    assert_eq!(pop_hot_reload_fd(&mut state, 1), None);
}
