//! Where the log goes and what goes into it.

use crate::path::{
    extended, file_name_of, file_stem, join, last_dot, lemma_last_component, names_are_components,
    stem_of, stem_stands_before_the_last_dot,
};
use crate::text::{chars_of, decimal_int, decimal_int_text};
use vstd::prelude::*;

verus! {

/// How large a log grows before it is rolled over: 16 MiB.
pub const LOG_MAX_BYTES: u64 = 16_777_216;

/// The index of the oldest log that is kept, as it stands in its file name.
pub const ROLL_BASE: u32 = 1;

/// How many old logs are kept.
pub const ROLL_COUNT: u32 = 1;

/// The permissions of a log file.
pub const LOG_FILE_MODE: u32 = 0o600;

/// The permissions of a log directory.
pub const LOG_DIR_MODE: u32 = 0o700;

/// Whether a character is safe in a file name: a letter or digit of ASCII, a
/// dash, an underscore or a dot.
pub open spec fn is_file_char(c: char) -> bool {
    ||| 'a' <= c <= 'z'
    ||| 'A' <= c <= 'Z'
    ||| '0' <= c <= '9'
    ||| c == '-'
    ||| c == '_'
    ||| c == '.'
}

/// A name with every character that is not safe in a file name replaced by
/// an underscore.
pub open spec fn sanitized(name: Seq<char>) -> Seq<char> {
    name.map_values(
        |c: char|
            if is_file_char(c) {
                c
            } else {
                '_'
            },
    )
}

/// Replaces every character that is not safe in a file name by an underscore.
pub fn sanitize_for_filename(name: &str) -> (r: String)
    ensures
        r@ == sanitized(name@),
{
    let chars = chars_of(name);
    let mut r = String::new();
    let mut i: usize = 0;
    while i < chars.len()
        invariant
            chars@ == name@,
            i <= chars@.len(),
            r@ == sanitized(name@).take(i as int),
        decreases chars@.len() - i,
    {
        let c = chars[i];
        if ('a' <= c && c <= 'z') || ('A' <= c && c <= 'Z') || ('0' <= c && c <= '9') || c == '-'
            || c == '_' || c == '.' {
            r.push(c);
        } else {
            r.push('_');
        }
        assert(sanitized(name@).take(i + 1) =~= sanitized(name@).take(i as int).push(
            sanitized(name@)[i as int],
        ));
        i += 1;
    }
    assert(sanitized(name@).take(i as int) =~= sanitized(name@));
    r
}

/// A sanitized name is safe throughout, as long as the name itself, and
/// stays as it is when it is sanitized again.
pub proof fn sanitized_name_is_safe(name: Seq<char>)
    ensures
        sanitized(name).len() == name.len(),
        forall|i: int| 0 <= i < name.len() ==> is_file_char(#[trigger] sanitized(name)[i]),
        sanitized(sanitized(name)) == sanitized(name),
{
    assert(sanitized(sanitized(name)) =~= sanitized(name));
}

/// The name of the log file of a session.
pub open spec fn session_log_name(session_name: Seq<char>) -> Seq<char> {
    "zellij-"@ + sanitized(session_name) + ".log"@
}

/// The log file of a process: that of its session, or the shared one outside
/// of any session.
pub open spec fn log_file_of(
    session_name: Option<Seq<char>>,
    log_dir: Seq<char>,
    shared_log: Seq<char>,
) -> Seq<char> {
    match session_name {
        Some(name) => if name.len() > 0 {
            extended(log_dir, session_log_name(name))
        } else {
            shared_log
        },
        None => shared_log,
    }
}

/// The log file of a process. `session_name` is the session that the
/// environment names, if any.
pub fn current_log_file(session_name: Option<&str>, log_dir: &str, shared_log: &str) -> (path:
    String)
    ensures
        path@ == log_file_of(
            match session_name {
                Some(name) => Some(name@),
                None => None,
            },
            log_dir@,
            shared_log@,
        ),
{
    if let Some(name) = session_name {
        if !name.is_empty() {
            let mut file = "zellij-".to_string();
            file.append(sanitize_for_filename(name).as_str());
            file.append(".log");
            return join(log_dir, file.as_str());
        }
    }
    shared_log.to_string()
}

/// The pattern for the names of old logs; `{}` stands for the index.
pub open spec fn roll_pattern_of(log_file: Seq<char>, log_dir: Seq<char>) -> Seq<char> {
    let stem = match file_name_of(log_file) {
        Some(name) => stem_of(name),
        None => "zellij"@,
    };
    extended(log_dir, stem + ".log.old.{}"@)
}

/// The pattern for the names of old logs; `{}` stands for the index.
pub fn current_log_roll_pattern(log_file: &str, log_dir: &str) -> (pattern: String)
    ensures
        pattern@ == roll_pattern_of(log_file@, log_dir@),
{
    let mut name = match file_stem(log_file) {
        Some(stem) => stem,
        None => "zellij".to_string(),
    };
    name.append(".log.old.{}");
    join(log_dir, name.as_str())
}

proof fn lemma_session_log_name(session_name: Seq<char>)
    ensures
        !session_log_name(session_name).contains('/'),
        session_log_name(session_name).len() > 10,
        last_dot(session_log_name(session_name)) == session_log_name(session_name).len() - 4,
{
    reveal_strlit("zellij-");
    reveal_strlit(".log");
    let name = session_log_name(session_name);
    let n = sanitized(session_name).len() as int;
    sanitized_name_is_safe(session_name);
    if name.contains('/') {
        let i = choose|i: int| 0 <= i < name.len() && name[i] == '/';
        if i < 7 {
            assert(name[i] == "zellij-"@[i]);
        } else if i < 7 + n {
            assert(name[i] == sanitized(session_name)[i - 7]);
            assert(is_file_char(sanitized(session_name)[i - 7]));
        } else {
            assert(name[i] == ".log"@[i - 7 - n]);
        }
    }
    assert(name.last() == 'g');
    let a = name.drop_last();
    assert(a.last() == 'o');
    let b = a.drop_last();
    assert(b.last() == 'l');
    let c = b.drop_last();
    assert(c.last() == '.');
    reveal_with_fuel(last_dot, 5);
}

/// Whatever a session is called, its log is one file right in the log
/// directory.
pub proof fn session_log_stays_in_its_directory(session_name: Seq<char>, log_dir: Seq<char>)
    requires
        session_name.len() > 0,
    ensures
        ({
            let path = log_file_of(Some(session_name), log_dir, Seq::empty());
            &&& path == extended(log_dir, session_log_name(session_name))
            &&& !session_log_name(session_name).contains('/')
            &&& file_name_of(path) == Some(session_log_name(session_name))
        }),
{
    lemma_session_log_name(session_name);
    lemma_last_component(log_dir, session_log_name(session_name));
}

/// The log `zellij-<session>.log` is rolled over to `zellij-<session>.log.old.<index>`
/// in the log directory.
pub proof fn session_log_rolls_beside_itself(session_name: Seq<char>, log_dir: Seq<char>)
    requires
        session_name.len() > 0,
    ensures
        roll_pattern_of(log_file_of(Some(session_name), log_dir, Seq::empty()), log_dir)
            == extended(log_dir, session_log_name(session_name) + ".old.{}"@),
{
    session_log_stays_in_its_directory(session_name, log_dir);
    lemma_session_log_name(session_name);
    reveal_strlit(".log");
    reveal_strlit(".old.{}");
    reveal_strlit(".log.old.{}");
    let name = session_log_name(session_name);
    let stem = stem_of(name);
    assert(stem =~= "zellij-"@ + sanitized(session_name));
    assert(".log"@ + ".old.{}"@ =~= ".log.old.{}"@);
    assert(stem + ".log.old.{}"@ =~= name + ".old.{}"@);
}

/// Whatever a log file is called, what stands before its extension names the old
/// logs.
pub proof fn logs_roll_under_their_stem(
    dir: Seq<char>,
    stem: Seq<char>,
    extension: Seq<char>,
    log_dir: Seq<char>,
)
    requires
        dir.len() > 0,
        stem.len() > 0,
        stem != seq!['.'],
        forall|i: int| 0 <= i < stem.len() ==> stem[i] != '/',
        forall|i: int| 0 <= i < extension.len() ==> extension[i] != '/' && extension[i] != '.',
    ensures
        roll_pattern_of(dir + seq!['/'] + (stem + seq!['.'] + extension), log_dir) == extended(
            log_dir,
            stem + ".log.old.{}"@,
        ),
{
    let name = stem + seq!['.'] + extension;
    assert forall|i: int| 0 <= i < name.len() implies name[i] != '/' by {
        if i > stem.len() {
            assert(name[i] == extension[i - stem.len() - 1]);
        }
    }
    assert(name[0] == stem[0]);
    assert(name != seq!['.']);
    assert(name != seq!['.', '.']) by {
        if name == seq!['.', '.'] {
            assert(name[stem.len() as int] == '.');
            if stem.len() == 1 {
                assert(stem =~= seq!['.']);
            }
        }
    }
    names_are_components(dir, name);
    stem_stands_before_the_last_dot(stem, extension);
}

/// The file that debugging output of one process goes to.
pub fn debug_log_file(log_dir: &str, pid: i32) -> (path: String)
    ensures
        path@ == extended(log_dir@, "zellij-"@ + decimal_int(pid as int) + ".log"@),
{
    let mut name = "zellij-".to_string();
    name.append(decimal_int_text(pid).as_str());
    name.append(".log");
    join(log_dir, name.as_str())
}

/// What an attempt to create a directory came to.
#[derive(Clone, Copy, Debug, PartialEq, Eq, Structural)]
pub enum DirCreation {
    Created,
    AlreadyExists,
    Failed,
}

/// Whether a directory is there after an attempt to create it, so that its
/// permissions are to be set.
pub fn dir_is_there(outcome: DirCreation) -> (r: bool)
    ensures
        r == (outcome != DirCreation::Failed),
{
    match outcome {
        DirCreation::Failed => false,
        _ => true,
    }
}

/// How much of what is reported gets logged.
#[derive(Clone, Copy, Debug, PartialEq, Eq, Structural)]
pub enum Verbosity {
    Error,
    Warn,
    Info,
    Trace,
}

/// The two ways into the log file: the ordinary one, and the one for what
/// plugins print, which is formatted before it gets here.
#[derive(Clone, Copy, Debug, PartialEq, Eq, Structural)]
pub enum Appender {
    LogFile,
    LogPlugin,
}

/// How what one module reports is logged. What is not `additive` goes to the
/// rule's own appender only.
pub struct LoggerRule {
    pub module: String,
    pub appender: Appender,
    pub additive: bool,
    pub level: Verbosity,
}

/// All that logging is set up by.
pub struct LogPlan {
    pub log_file: String,
    pub roll_pattern: String,
    /// How lines of the ordinary appender are formatted.
    pub file_format: String,
    /// How lines of the plugin appender are formatted.
    pub plugin_format: String,
    pub rules: Vec<LoggerRule>,
    pub root_appender: Appender,
    pub root_level: Verbosity,
}

/// Whether a rule is the given one.
pub open spec fn is_rule(
    rule: LoggerRule,
    module: Seq<char>,
    appender: Appender,
    additive: bool,
    level: Verbosity,
) -> bool {
    &&& rule.module@ == module
    &&& rule.appender == appender
    &&& rule.additive == additive
    &&& rule.level == level
}

/// Plans the logging of a process: everything from `Info` up goes to the log
/// file; chatty modules are held down; what plugins print goes through the
/// plugin appender alone.
pub fn log_plan(session_name: Option<&str>, log_dir: &str, shared_log: &str) -> (plan: LogPlan)
    ensures
        plan.log_file@ == log_file_of(
            match session_name {
                Some(name) => Some(name@),
                None => None,
            },
            log_dir@,
            shared_log@,
        ),
        plan.roll_pattern@ == roll_pattern_of(plan.log_file@, log_dir@),
        plan.file_format@
            == "{highlight({level:<6})} |{module:<25.25}| {date(%Y-%m-%d %H:%M:%S.%3f)} [{thread:<10.15}] [{file}:{line}]: {message} {n}"@,
        plan.plugin_format@ == "{highlight({level:<6})} {message} {n}"@,
        plan.rules@.len() == 3,
        is_rule(plan.rules@[0], "isahc"@, Appender::LogFile, true, Verbosity::Error),
        is_rule(plan.rules@[1], "wasmtime_wasi"@, Appender::LogPlugin, true, Verbosity::Warn),
        is_rule(
            plan.rules@[2],
            "zellij_server::logging_pipe"@,
            Appender::LogPlugin,
            false,
            Verbosity::Trace,
        ),
        plan.root_appender == Appender::LogFile,
        plan.root_level == Verbosity::Info,
{
    let log_file = current_log_file(session_name, log_dir, shared_log);
    let roll_pattern = current_log_roll_pattern(log_file.as_str(), log_dir);
    let mut rules: Vec<LoggerRule> = Vec::new();
    rules.push(
        LoggerRule {
            module: "isahc".to_string(),
            appender: Appender::LogFile,
            additive: true,
            level: Verbosity::Error,
        },
    );
    rules.push(
        LoggerRule {
            module: "wasmtime_wasi".to_string(),
            appender: Appender::LogPlugin,
            additive: true,
            level: Verbosity::Warn,
        },
    );
    rules.push(
        LoggerRule {
            module: "zellij_server::logging_pipe".to_string(),
            appender: Appender::LogPlugin,
            additive: false,
            level: Verbosity::Trace,
        },
    );
    LogPlan {
        log_file,
        roll_pattern,
        file_format:
            "{highlight({level:<6})} |{module:<25.25}| {date(%Y-%m-%d %H:%M:%S.%3f)} [{thread:<10.15}] [{file}:{line}]: {message} {n}".to_string(),
        plugin_format: "{highlight({level:<6})} {message} {n}".to_string(),
        rules,
        root_appender: Appender::LogFile,
        root_level: Verbosity::Info,
    }
}

/// Every roll pattern has the place for the index in it, at its end.
pub proof fn roll_pattern_has_its_index(log_file: Seq<char>, log_dir: Seq<char>)
    ensures
        ({
            let pattern = roll_pattern_of(log_file, log_dir);
            &&& pattern.len() >= 2
            &&& pattern[pattern.len() - 2] == '{'
            &&& pattern[pattern.len() - 1] == '}'
        }),
{
    reveal_strlit(".log.old.{}");
}

/// Letters and digits of ASCII, dashes, underscores and dots of a name stay in
/// their places, and an underscore stands in the place of every other character.
pub proof fn safe_characters_stay(name: Seq<char>, i: int)
    requires
        0 <= i < name.len(),
    ensures
        sanitized(name).len() == name.len(),
        ({
            let c = name[i];
            if 'a' <= c <= 'z' || 'A' <= c <= 'Z' || '0' <= c <= '9' || c == '-' || c == '_' || c
                == '.' {
                sanitized(name)[i] == c
            } else {
                sanitized(name)[i] == '_'
            }
        }),
{
}

/// The log of a process is the shared one where it has no session, or one without
/// a name, and else `zellij-<name>.log` in the log directory, where the name may
/// be any.
pub proof fn each_session_has_its_log(
    session_name: Seq<char>,
    log_dir: Seq<char>,
    shared_log: Seq<char>,
)
    ensures
        log_file_of(None, log_dir, shared_log) == shared_log,
        session_name.len() == 0 ==> log_file_of(Some(session_name), log_dir, shared_log)
            == shared_log,
        session_name.len() > 0 ==> log_file_of(Some(session_name), log_dir, shared_log)
            == extended(log_dir, "zellij-"@ + sanitized(session_name) + ".log"@),
{
}

} // verus!
