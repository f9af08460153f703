use zellij_core::logging::{
    current_log_file, current_log_roll_pattern, debug_log_file, dir_is_there, log_plan,
    sanitize_for_filename, Appender, DirCreation, Verbosity, LOG_DIR_MODE, LOG_FILE_MODE,
    LOG_MAX_BYTES, ROLL_BASE, ROLL_COUNT,
};

#[test]
fn unsafe_characters_are_replaced() {
    assert_eq!(sanitize_for_filename("my-session_1.2"), "my-session_1.2");
    assert_eq!(sanitize_for_filename("../a b/ü\0"), ".._a_b___");
    assert_eq!(sanitize_for_filename(""), "");
}

#[test]
fn session_has_its_own_log() {
    let dir = "/tmp/zellij-1000/zellij-log";
    let shared = "/tmp/zellij-1000/zellij-log/zellij.log";
    assert_eq!(
        current_log_file(Some("work"), dir, shared),
        "/tmp/zellij-1000/zellij-log/zellij-work.log"
    );
    assert_eq!(
        current_log_file(Some("../../etc"), dir, shared),
        "/tmp/zellij-1000/zellij-log/zellij-.._.._etc.log"
    );
    assert_eq!(current_log_file(Some(""), dir, shared), shared);
    assert_eq!(current_log_file(None, dir, shared), shared);
}

#[test]
fn log_rolls_over_beside_itself() {
    assert_eq!(
        current_log_roll_pattern("/tmp/log/zellij-work.log", "/tmp/log"),
        "/tmp/log/zellij-work.log.old.{}"
    );
    assert_eq!(
        current_log_roll_pattern("/tmp/log/zellij.log", "/tmp/log"),
        "/tmp/log/zellij.log.old.{}"
    );
    assert_eq!(
        current_log_roll_pattern("/", "/tmp/log"),
        "/tmp/log/zellij.log.old.{}"
    );
    assert_eq!(ROLL_BASE, 1);
    assert_eq!(ROLL_COUNT, 1);
    assert_eq!(LOG_MAX_BYTES, 16 * 1024 * 1024);
}

#[test]
fn debug_output_goes_to_the_log_of_its_process() {
    assert_eq!(debug_log_file("/tmp/log", 42), "/tmp/log/zellij-42.log");
    assert_eq!(debug_log_file("/tmp/log", -1), "/tmp/log/zellij--1.log");
    assert_eq!(LOG_FILE_MODE, 0o600);
    assert_eq!(LOG_DIR_MODE, 0o700);
}

#[test]
fn directory_may_be_there_before() {
    assert!(dir_is_there(DirCreation::Created));
    assert!(dir_is_there(DirCreation::AlreadyExists));
    assert!(!dir_is_there(DirCreation::Failed));
}

#[test]
fn plan_routes_every_module() {
    let plan = log_plan(Some("a b"), "/tmp/log", "/tmp/log/zellij.log");
    assert_eq!(plan.log_file, "/tmp/log/zellij-a_b.log");
    assert_eq!(plan.roll_pattern, "/tmp/log/zellij-a_b.log.old.{}");
    assert_eq!(plan.plugin_format, "{highlight({level:<6})} {message} {n}");
    assert!(plan.file_format.starts_with("{highlight({level:<6})} |{module:<25.25}| "));
    assert_eq!(plan.root_appender, Appender::LogFile);
    assert_eq!(plan.root_level, Verbosity::Info);
    let rules: Vec<(&str, Appender, bool, Verbosity)> = plan
        .rules
        .iter()
        .map(|r| (r.module.as_str(), r.appender, r.additive, r.level))
        .collect();
    assert_eq!(
        rules,
        vec![
            ("isahc", Appender::LogFile, true, Verbosity::Error),
            ("wasmtime_wasi", Appender::LogPlugin, true, Verbosity::Warn),
            ("zellij_server::logging_pipe", Appender::LogPlugin, false, Verbosity::Trace),
        ]
    );
}
