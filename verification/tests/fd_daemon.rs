use zellij_core::fd_client::{
    after_connect, after_lookup, daemon_beside, delete_request, list_request, listing_is_whole,
    printed_candidate, quit_request, read_fd_response, read_list_response, read_ok_response,
    record_retrieved, retrieve_request, socket_name, socket_path, startup_failure, store_request,
    which_candidate, Found, Lookup, Startup, StartupRun, STARTUP_PAUSE_MS, STARTUP_TRIES,
};
use zellij_core::fd_daemon::{
    frame, parse_request, run_step, Action, ClientEvent, ClientStep, Daemon, Request, RunAction,
    RunEvent, IDLE_TIMEOUT_NANOS,
};
use zellij_core::fd_table::FdTable;

/// Hands the daemon one message.
fn message(daemon: &mut Daemon, bytes: &[u8], fds: &[i32]) -> ClientStep {
    daemon.handle_client(ClientEvent::Received {
        bytes: bytes.to_vec(),
        fds: fds.to_vec(),
    })
}

/// The replies among the actions, with the descriptors beside them.
fn replies(step: &ClientStep) -> Vec<(String, Option<i32>)> {
    let mut all = Vec::new();
    for action in &step.actions {
        if let Action::Send { text, fd } = action {
            all.push((text.clone(), *fd));
        }
    }
    all
}

/// The descriptors that are to be closed.
fn closed(step: &ClientStep) -> Vec<i32> {
    let mut all = Vec::new();
    for action in &step.actions {
        if let Action::Close(fd) = action {
            all.push(*fd);
        }
    }
    all
}

/// The only reply to a message.
fn reply(daemon: &mut Daemon, text: &str, fds: &[i32]) -> (String, Option<i32>) {
    let step = message(daemon, text.as_bytes(), fds);
    let mut all = replies(&step);
    assert_eq!(all.len(), 1);
    all.remove(0)
}

fn store(daemon: &mut Daemon, key: &str, fd: i32) -> Result<(), String> {
    let (text, _) = reply(daemon, &store_request(key), &[fd]);
    read_ok_response(text.as_bytes())
}

fn retrieve(daemon: &mut Daemon, key: &str) -> Result<i32, String> {
    let (text, fd) = reply(daemon, &retrieve_request(key), &[]);
    let fds: Vec<i32> = fd.into_iter().collect();
    read_fd_response(text.as_bytes(), &fds)
}

fn list(daemon: &mut Daemon) -> Vec<String> {
    let (text, _) = reply(daemon, &list_request(), &[]);
    read_list_response(text.as_bytes()).unwrap()
}

fn delete(daemon: &mut Daemon, key: &str) -> Result<(), String> {
    let (text, _) = reply(daemon, &delete_request(key), &[]);
    read_ok_response(text.as_bytes())
}

#[test]
fn stored_fd_is_listed_retrieved_and_deleted() {
    let mut daemon = Daemon::new();
    assert_eq!(store(&mut daemon, "terminal_0", 7), Ok(()));
    assert_eq!(list(&mut daemon), vec!["terminal_0"]);
    assert_eq!(retrieve(&mut daemon, "terminal_0"), Ok(7));
    // the daemon keeps its copy
    assert_eq!(retrieve(&mut daemon, "terminal_0"), Ok(7));
    assert_eq!(delete(&mut daemon, "terminal_0"), Ok(()));
    assert_eq!(daemon.held(), 0);
    assert_eq!(
        retrieve(&mut daemon, "terminal_0"),
        Err("daemon error: ERR key not found".to_string())
    );
}

#[test]
fn fds_outlive_the_connection_that_stored_them() {
    let mut daemon = Daemon::new();
    assert_eq!(store(&mut daemon, "terminal_0", 10), Ok(()));
    assert_eq!(store(&mut daemon, "terminal_1", 11), Ok(()));
    let step = message(&mut daemon, b"", &[]);
    assert!(step.finished && !step.quit && step.actions.is_empty());
    assert_eq!(list(&mut daemon), vec!["terminal_0", "terminal_1"]);
    assert_eq!(retrieve(&mut daemon, "terminal_0"), Ok(10));
    assert_eq!(retrieve(&mut daemon, "terminal_1"), Ok(11));
}

#[test]
fn keys_are_listed_in_order() {
    let mut daemon = Daemon::new();
    for (key, fd) in [("terminal_2", 2), ("terminal_10", 10), ("a", 1), ("Z", 0)] {
        assert_eq!(store(&mut daemon, key, fd), Ok(()));
    }
    assert_eq!(
        reply(&mut daemon, "LIST\n", &[]).0,
        "Z\na\nterminal_10\nterminal_2\n.\n"
    );
}

#[test]
fn empty_daemon_lists_only_the_dot() {
    let mut daemon = Daemon::new();
    assert_eq!(reply(&mut daemon, "LIST\n", &[]), (".\n".to_string(), None));
    assert!(list(&mut daemon).is_empty());
}

#[test]
fn storing_again_closes_the_old_fd() {
    let mut daemon = Daemon::new();
    assert_eq!(store(&mut daemon, "k", 3), Ok(()));
    let step = message(&mut daemon, b"STORE k\n", &[4]);
    assert_eq!(closed(&step), vec![3]);
    assert_eq!(replies(&step), vec![("OK\n".to_string(), None)]);
    assert_eq!(retrieve(&mut daemon, "k"), Ok(4));
    assert_eq!(daemon.held(), 1);
}

#[test]
fn deleting_closes_the_fd() {
    let mut daemon = Daemon::new();
    assert_eq!(store(&mut daemon, "k", 3), Ok(()));
    let step = message(&mut daemon, b"DELETE k\n", &[]);
    assert_eq!(closed(&step), vec![3]);
    assert_eq!(
        delete(&mut daemon, "k"),
        Err("daemon error: ERR key not found".to_string())
    );
}

#[test]
fn refused_requests_are_answered_with_their_reason() {
    let mut daemon = Daemon::new();
    for (request, fds, answer) in [
        ("STORE\n", vec![5], "ERR missing key\n"),
        ("STORE k\n", vec![], "ERR no fd received\n"),
        ("RETRIEVE\n", vec![], "ERR missing key\n"),
        ("RETRIEVE k\n", vec![], "ERR key not found\n"),
        ("DELETE\n", vec![], "ERR missing key\n"),
        ("DELETE k\n", vec![], "ERR key not found\n"),
        ("store k\n", vec![5], "ERR unknown command: store\n"),
        ("NONSENSE a b\n", vec![], "ERR unknown command: NONSENSE\n"),
    ] {
        let step = message(&mut daemon, request.as_bytes(), &fds);
        assert_eq!(replies(&step), vec![(answer.to_string(), None)]);
        assert!(!step.finished && !step.quit);
        assert_eq!(daemon.held(), 0);
    }
}

#[test]
fn bytes_that_are_no_text_are_refused() {
    let mut daemon = Daemon::new();
    let step = message(&mut daemon, &[0xff, 0xfe], &[]);
    assert_eq!(replies(&step), vec![("ERR invalid utf8\n".to_string(), None)]);
    assert!(!step.finished);
}

#[test]
fn blank_message_is_not_answered() {
    let mut daemon = Daemon::new();
    let step = message(&mut daemon, b" \n", &[]);
    assert!(step.actions.is_empty());
    assert!(!step.finished);
}

#[test]
fn quit_ends_connection_and_daemon() {
    let mut daemon = Daemon::new();
    let step = message(&mut daemon, quit_request().as_bytes(), &[]);
    assert_eq!(replies(&step), vec![("OK\n".to_string(), None)]);
    assert!(step.finished && step.quit);
}

#[test]
fn several_lines_in_one_message_are_answered_in_turn() {
    let mut daemon = Daemon::new();
    let step = message(&mut daemon, b"PING\r\nSTORE a b \nQUIT\nPING\n", &[9]);
    let texts: Vec<String> = replies(&step).into_iter().map(|r| r.0).collect();
    assert_eq!(texts, vec!["PONG\n", "OK\n", "OK\n", "PONG\n"]);
    assert!(step.quit);
    assert_eq!(retrieve(&mut daemon, "a b"), Ok(9));
}

#[test]
fn failed_read_ends_the_connection() {
    let mut daemon = Daemon::new();
    let step = daemon.handle_client(ClientEvent::Failed);
    assert!(step.finished && !step.quit && step.actions.is_empty());
}

#[test]
fn cleanup_gives_up_everything() {
    let mut daemon = Daemon::new();
    assert_eq!(store(&mut daemon, "b", 2), Ok(()));
    assert_eq!(store(&mut daemon, "a", 1), Ok(()));
    assert_eq!(
        daemon.cleanup(),
        vec![("a".to_string(), 1), ("b".to_string(), 2)]
    );
    assert_eq!(daemon.held(), 0);
    assert!(daemon.cleanup().is_empty());
}

#[test]
fn requests_are_read_word_by_word() {
    assert!(matches!(parse_request("STORE  key  "), Request::Store(Some(k)) if k == "key"));
    assert!(matches!(parse_request("STORE "), Request::Store(Some(k)) if k.is_empty()));
    assert!(matches!(parse_request("STORE"), Request::Store(None)));
    assert!(matches!(parse_request("RETRIEVE x y"), Request::Retrieve(Some(k)) if k == "x y"));
    assert!(matches!(parse_request("LIST all"), Request::List));
    assert!(matches!(parse_request("PING"), Request::Ping));
    assert!(matches!(parse_request("QUIT"), Request::Quit));
    assert!(matches!(parse_request(""), Request::Unknown(w) if w.is_empty()));
    assert!(matches!(parse_request("DELETE\tk"), Request::Unknown(w) if w == "DELETE\tk"));
}

#[test]
fn replies_end_in_one_line_feed() {
    assert_eq!(frame("OK"), "OK\n");
    assert_eq!(frame("OK\n"), "OK\n");
    assert_eq!(frame(""), "\n");
}

#[test]
fn client_reads_every_kind_of_reply() {
    assert_eq!(read_ok_response(b"OK\n"), Ok(()));
    assert_eq!(
        read_ok_response(b"OKAY\n"),
        Err("daemon error: OKAY".to_string())
    );
    assert_eq!(read_ok_response(b""), Err("daemon error: ".to_string()));
    assert_eq!(read_fd_response(b"OK\n", &[4, 5]), Ok(4));
    assert_eq!(read_fd_response(b"OKAY\n", &[4]), Ok(4));
    assert_eq!(
        read_fd_response(b"OK\n", &[]),
        Err("no fd received in response".to_string())
    );
    assert_eq!(
        read_fd_response(b"ERR key not found\n", &[4]),
        Err("daemon error: ERR key not found".to_string())
    );
    assert_eq!(
        read_list_response(b"a\nb\n.\nc\n"),
        Ok(vec!["a".to_string(), "b".to_string()])
    );
    assert_eq!(read_list_response(b"a\n"), Ok(vec!["a".to_string()]));
}

#[test]
fn client_tells_what_is_wrong_with_bytes() {
    let bytes = [b'O', b'K', 0xc3, 0x28];
    let wrong = format!(
        "invalid utf8: {}",
        std::str::from_utf8(&bytes).unwrap_err()
    );
    assert_eq!(read_ok_response(&bytes), Err(wrong.clone()));
    assert_eq!(read_fd_response(&bytes, &[1]), Err(wrong.clone()));
    assert_eq!(read_list_response(&bytes), Err(wrong));
    assert_eq!(
        read_list_response("größe\n.\n".as_bytes()),
        Ok(vec!["größe".to_string()])
    );
}

#[test]
fn retrieved_fds_are_gathered_by_key() {
    let mut found = FdTable::new();
    record_retrieved(&mut found, "b".to_string(), &Ok(2));
    record_retrieved(&mut found, "x".to_string(), &Err("gone".to_string()));
    record_retrieved(&mut found, "a".to_string(), &Ok(1));
    assert_eq!(found.len(), 2);
    assert_eq!(found.get("x"), None);
    assert_eq!(
        found.drain(),
        vec![("a".to_string(), 1), ("b".to_string(), 2)]
    );
}

#[test]
fn table_holds_one_fd_under_each_key() {
    let mut table = FdTable::new();
    assert!(table.is_empty());
    assert_eq!(table.insert("k".to_string(), 1), None);
    assert_eq!(table.insert("k".to_string(), 2), Some(1));
    assert_eq!(table.insert("".to_string(), 3), None);
    assert_eq!(table.insert("K".to_string(), 4), None);
    assert_eq!(table.list(), vec!["", "K", "k"]);
    assert_eq!(table.get("k"), Some(2));
    assert_eq!(table.remove("k"), Some(2));
    assert_eq!(table.remove("k"), None);
    assert_eq!(table.len(), 2);
}

#[test]
fn socket_is_named_after_the_session() {
    assert_eq!(socket_name("main"), "zellij-fd-daemon-main.sock");
    assert_eq!(
        socket_path("/tmp", "main"),
        "/tmp/zellij-fd-daemon-main.sock"
    );
    assert_eq!(
        socket_path("/tmp/", "my session"),
        "/tmp/zellij-fd-daemon-my session.sock"
    );
}

#[test]
fn daemon_is_looked_for_in_three_places() {
    assert_eq!(
        daemon_beside("/usr/bin/zellij"),
        Some("/usr/bin/zellij-fd-daemon".to_string())
    );
    assert_eq!(daemon_beside("zellij"), Some("zellij-fd-daemon".to_string()));
    assert_eq!(daemon_beside("/"), None);

    let here = "/usr/bin/zellij-fd-daemon".to_string();
    assert!(matches!(
        after_lookup(Lookup::BesideExe, Some(here.clone()), true),
        Found::Use(path) if path == here
    ));
    assert!(matches!(
        after_lookup(Lookup::BesideExe, Some(here.clone()), false),
        Found::TryNext(Lookup::BesideCanonicalExe)
    ));
    assert!(matches!(
        after_lookup(Lookup::BesideCanonicalExe, None, true),
        Found::TryNext(Lookup::SearchPath)
    ));
    assert!(matches!(
        after_lookup(Lookup::SearchPath, None, false),
        Found::NotFound(why)
            if why == "zellij-fd-daemon not found next to current exe or in PATH"
    ));
    assert_eq!(
        which_candidate(true, b"/usr/bin/zellij-fd-daemon\n"),
        Some(here.clone())
    );
    assert_eq!(
        printed_candidate(true, " /usr/bin/zellij-fd-daemon\n"),
        Some(here)
    );
    assert_eq!(which_candidate(false, b"/usr/bin/zellij-fd-daemon\n"), None);
    assert_eq!(printed_candidate(false, "x"), None);
    assert_eq!(
        which_candidate(true, b"/a\xff\n"),
        Some(String::from_utf8_lossy(b"/a\xff").to_string())
    );
    assert_eq!(
        which_candidate(true, "/größe\n".as_bytes()),
        Some("/größe".to_string())
    );
}

#[test]
fn daemon_is_started_once_and_awaited_for_a_second() {
    assert_eq!(after_connect(None, true), Startup::Running);
    assert_eq!(after_connect(None, false), Startup::Spawn);
    let mut tries = 0;
    while after_connect(Some(tries), false) == Startup::Pause {
        tries += 1;
    }
    assert_eq!(tries, 50);
    assert_eq!(tries, STARTUP_TRIES);
    assert_eq!(u64::from(STARTUP_TRIES) * STARTUP_PAUSE_MS, 1000);
    assert_eq!(after_connect(Some(tries), false), Startup::GiveUp);
    assert_eq!(after_connect(Some(tries), true), Startup::Running);
    assert_eq!(
        startup_failure(),
        "fd daemon failed to start within 1 second"
    );
}

#[test]
fn daemon_exits_when_it_was_idle_for_five_minutes() {
    let idle = |elapsed_nanos: u128| run_step(RunEvent::Idle { elapsed_nanos });
    assert_eq!(idle(0), RunAction::Poll { timeout_ms: 300_000 });
    assert_eq!(idle(1), RunAction::Poll { timeout_ms: 299_999 });
    assert_eq!(
        idle(IDLE_TIMEOUT_NANOS - 1),
        RunAction::Poll { timeout_ms: 0 }
    );
    assert_eq!(idle(IDLE_TIMEOUT_NANOS), RunAction::Stop);
    assert_eq!(idle(u128::MAX), RunAction::Stop);
}

#[test]
fn accept_loop_goes_on_until_it_is_told_to_stop() {
    assert_eq!(run_step(RunEvent::Polled { ready: 0 }), RunAction::CheckIdle);
    assert_eq!(run_step(RunEvent::Polled { ready: 1 }), RunAction::Accept);
    assert_eq!(run_step(RunEvent::PollInterrupted), RunAction::CheckIdle);
    assert_eq!(run_step(RunEvent::PollFailed), RunAction::Stop);
    assert_eq!(
        run_step(RunEvent::Accepted { client: 6 }),
        RunAction::Serve { client: 6 }
    );
    assert_eq!(run_step(RunEvent::AcceptFailed), RunAction::CheckIdle);
    assert_eq!(run_step(RunEvent::Served { quit: false }), RunAction::CheckIdle);
    assert_eq!(run_step(RunEvent::Served { quit: true }), RunAction::Stop);
}

#[test]
fn listing_is_whole_with_its_closing_line() {
    let mut daemon = Daemon::new();
    for (key, fd) in [("größe", 1), (".hidden", 2), ("terminal_0", 3)] {
        assert_eq!(store(&mut daemon, key, fd), Ok(()));
    }
    let (text, _) = reply(&mut daemon, "LIST\n", &[]);
    let bytes = text.as_bytes();
    assert!(listing_is_whole(bytes));
    for n in 0..bytes.len() {
        assert!(!listing_is_whole(&bytes[..n]));
    }
    assert!(listing_is_whole(b".\n"));
    assert!(listing_is_whole(b"a\n.\r\n"));
    assert!(!listing_is_whole(b"a.\n"));
    assert!(!listing_is_whole(b""));
    assert!(!listing_is_whole(&[0xff, b'\n', b'.', b'\n']));
    // what follows does not matter
    assert!(listing_is_whole(b"a\n.\nb"));
    assert_eq!(read_list_response(b"a\n.\nb"), read_list_response(b"a\n.\n"));
}

#[test]
fn long_listing_is_read_in_parts() {
    let mut daemon = Daemon::new();
    let mut keys = Vec::new();
    for id in 0..1000 {
        let key = format!("terminal_{:04}", id);
        assert_eq!(store(&mut daemon, &key, id), Ok(()));
        keys.push(key);
    }
    let (text, _) = reply(&mut daemon, "LIST\n", &[]);
    let mut received: Vec<u8> = Vec::new();
    let mut parts = 0;
    for part in text.as_bytes().chunks(4096) {
        assert!(!listing_is_whole(&received));
        received.extend_from_slice(part);
        parts += 1;
    }
    assert_eq!(parts, 4);
    assert!(listing_is_whole(&received));
    assert_eq!(read_list_response(&received), Ok(keys));
}

#[test]
fn startup_run_starts_one_daemon_and_counts_its_tries() {
    let mut run = StartupRun::new();
    assert_eq!(run.step(true), Startup::Running);

    let mut run = StartupRun::new();
    assert_eq!(run.step(false), Startup::Spawn);
    let mut tries = 1;
    loop {
        match run.step(false) {
            Startup::Pause => tries += 1,
            Startup::GiveUp => break,
            other => panic!("{:?}", other),
        }
    }
    assert_eq!(tries, STARTUP_TRIES);
    assert_eq!(run.step(false), Startup::GiveUp);

    let mut run = StartupRun::new();
    assert_eq!(run.step(false), Startup::Spawn);
    assert_eq!(run.step(false), Startup::Pause);
    assert_eq!(run.step(true), Startup::Running);
}

#[test]
fn client_gathers_all_that_a_daemon_holds() {
    let mut daemon = Daemon::new();
    let held = [("a b", 5), ("terminal_0", 6), ("terminal_1", 7)];
    for (key, fd) in held {
        assert_eq!(store(&mut daemon, key, fd), Ok(()));
    }
    let mut found = FdTable::new();
    for key in list(&mut daemon) {
        let outcome = retrieve(&mut daemon, &key);
        record_retrieved(&mut found, key, &outcome);
    }
    let expected: Vec<(String, i32)> =
        held.iter().map(|(key, fd)| (key.to_string(), *fd)).collect();
    assert_eq!(found.drain(), expected);
    assert_eq!(daemon.held(), 3);
    assert_eq!(daemon.cleanup(), expected);
}

#[test]
fn last_success_of_a_key_stands() {
    let mut found = FdTable::new();
    record_retrieved(&mut found, "k".to_string(), &Ok(1));
    record_retrieved(&mut found, "k".to_string(), &Ok(2));
    record_retrieved(&mut found, "k".to_string(), &Err("gone".to_string()));
    assert_eq!(found.get("k"), Some(2));
}
