use std::collections::{BTreeMap, HashMap};
use zellij_core::client_metadata::ClientMetadata;
use zellij_core::layout::{
    Constraint, Dimension, Layout, PaneGeom, PaneId, PluginAliases, Run, RunCommand, RunPlugin,
    RunPluginOrAlias,
};
use zellij_core::manifest::GlobalLayoutManifest;
use zellij_core::session_layout_metadata::{PaneLayoutMetadata, SessionLayoutMetadata};

fn geom() -> PaneGeom {
    let whole = Dimension {
        constraint: Constraint::Percent { bits: 100.0f64.to_bits() },
        inner: 80,
    };
    PaneGeom { x: 0, y: 0, rows: whole, cols: whole, stacked: None }
}

fn stacked(fixed: bool) -> PaneGeom {
    let mut geom = geom();
    geom.stacked = Some(0);
    if fixed {
        geom.rows.constraint = Constraint::Fixed(1);
    }
    geom
}

fn command(line: &[&str]) -> Run {
    let mut run = RunCommand::new(line[0].to_string());
    run.args = line[1..].iter().map(|a| a.to_string()).collect();
    Run::Command(run)
}

fn plugin(location: &str) -> RunPlugin {
    RunPlugin { location: location.to_string(), configuration: Vec::new() }
}

fn plugin_run(location: &str) -> Run {
    Run::Plugin(RunPluginOrAlias::RunPlugin(plugin(location)))
}

fn pane(id: PaneId, run: Option<Run>) -> PaneLayoutMetadata {
    pane_with(id, run, &[])
}

fn pane_with(id: PaneId, run: Option<Run>, clients: &[u16]) -> PaneLayoutMetadata {
    PaneLayoutMetadata::new(id, geom(), false, run, None, false, None, clients.to_vec())
}

fn terminal(id: u32) -> PaneLayoutMetadata {
    pane(PaneId::Terminal(id), None)
}

fn session(panes: usize) -> SessionLayoutMetadata {
    SessionLayoutMetadata::new(Box::new(Layout { panes, plugins: Vec::new() }))
}

fn with_tab(
    panes: usize,
    tiled: Vec<PaneLayoutMetadata>,
    floating: Vec<PaneLayoutMetadata>,
) -> SessionLayoutMetadata {
    let mut session = session(panes);
    session.add_tab("Tab #1".to_string(), true, false, tiled, floating);
    session
}

/// The command lines of all panes, the tiled ones before the floating ones.
fn commands(session: &SessionLayoutMetadata) -> Vec<Option<String>> {
    let manifest: GlobalLayoutManifest = session.clone().into();
    let mut all = Vec::new();
    for (_, tab) in &manifest.tabs {
        for pane in tab.tiled_panes.iter().chain(tab.floating_panes.iter()) {
            all.push(match &pane.run {
                Some(Run::Command(c)) => {
                    let mut line = vec![c.command.clone()];
                    line.extend(c.args.iter().cloned());
                    Some(line.join("|"))
                },
                Some(Run::Plugin(p)) => Some(p.location_string()),
                _ => None,
            });
        }
    }
    all
}

/// The directories of all panes.
fn directories(session: &SessionLayoutMetadata) -> Vec<Option<String>> {
    let manifest: GlobalLayoutManifest = session.clone().into();
    let mut all = Vec::new();
    for (_, tab) in &manifest.tabs {
        for pane in tab.tiled_panes.iter().chain(tab.floating_panes.iter()) {
            all.push(pane.cwd.clone());
        }
    }
    all
}

fn lines(entries: &[(u32, &[&str])]) -> HashMap<u32, Vec<String>> {
    entries
        .iter()
        .map(|(id, line)| (*id, line.iter().map(|w| w.to_string()).collect()))
        .collect()
}

fn cwds(entries: &[(u32, &str)]) -> HashMap<u32, String> {
    entries.iter().map(|(id, cwd)| (*id, cwd.to_string())).collect()
}

#[test]
fn untouched_session_is_clean() {
    assert!(!session(0).is_dirty());
    assert!(session(1).is_dirty());
    assert!(!with_tab(2, vec![terminal(0)], vec![terminal(1)]).is_dirty());
    assert!(with_tab(1, vec![terminal(0)], vec![terminal(1)]).is_dirty());
    assert!(!SessionLayoutMetadata::default().is_dirty());
}

#[test]
fn running_command_makes_a_session_dirty() {
    let vim = pane(PaneId::Terminal(0), Some(command(&["vim"])));
    let mut session = with_tab(1, vec![vim], vec![]);
    assert!(session.is_dirty());
    session.update_default_shell("vim".to_string());
    assert!(!session.is_dirty());
    let vim = pane(PaneId::Terminal(0), Some(command(&["vim", "x"])));
    let mut session = with_tab(1, vec![], vec![vim]);
    session.update_default_shell("vim".to_string());
    assert!(session.is_dirty());
}

#[test]
fn passing_plugins_do_not_count() {
    let passing = [
        "zellij:about",
        "zellij:session-manager",
        "zellij:plugin-manager",
        "zellij:configuration-manager",
        "zellij:share",
    ];
    let panes = passing
        .iter()
        .map(|l| pane(PaneId::Plugin(0), Some(plugin_run(l))))
        .collect();
    assert!(!with_tab(0, panes, vec![]).is_dirty());
    let bar = pane(PaneId::Plugin(0), Some(plugin_run("zellij:tab-bar")));
    assert!(with_tab(0, vec![bar], vec![]).is_dirty());
    let alias = RunPluginOrAlias::Alias { name: "zellij:about".to_string(), run_plugin: None };
    let aliased = pane(PaneId::Plugin(0), Some(Run::Plugin(alias)));
    assert!(!with_tab(0, vec![], vec![aliased]).is_dirty());
}

#[test]
fn default_shell_is_taken_out_of_panes() {
    let tiled = vec![
        pane(PaneId::Terminal(0), Some(command(&["/bin/zsh"]))),
        pane(PaneId::Terminal(1), Some(command(&["/bin/zsh", "-l"]))),
    ];
    let floating = vec![
        pane(PaneId::Terminal(2), Some(command(&["/bin/zsh"]))),
        pane(PaneId::Terminal(3), Some(command(&["htop"]))),
    ];
    let mut session = with_tab(4, tiled, floating);
    session.update_default_shell("/bin/zsh".to_string());
    let expected = vec![
        None,
        Some("/bin/zsh|-l".to_string()),
        None,
        Some("htop".to_string()),
    ];
    assert_eq!(commands(&session), expected);
    // the first shell stays
    session.update_default_shell("htop".to_string());
    assert_eq!(session.default_shell, Some("/bin/zsh".to_string()));
    assert_eq!(commands(&session), expected);
}

#[test]
fn terminals_are_stripped_of_commands() {
    let tiled = vec![
        pane(PaneId::Terminal(0), Some(command(&["make", "a b"]))),
        pane(PaneId::Plugin(0), Some(command(&["odd"]))),
        pane(PaneId::Terminal(1), Some(Run::Cwd("/x".to_string()))),
    ];
    let floating = vec![pane(PaneId::Plugin(1), Some(plugin_run("zellij:strider")))];
    let mut session = with_tab(4, tiled, floating);
    session.strip_command_runs_from_terminal_panes();
    let expected = vec![
        None,
        Some("odd".to_string()),
        None,
        Some("zellij:strider".to_string()),
    ];
    assert_eq!(commands(&session), expected);
    let manifest: GlobalLayoutManifest = session.clone().into();
    assert!(matches!(
        &manifest.tabs[0].1.tiled_panes[2].run,
        Some(Run::Cwd(cwd)) if cwd == "/x"
    ));
    session.strip_command_runs_from_terminal_panes();
    assert_eq!(commands(&session), expected);
}

#[test]
fn ids_are_listed_by_kind_in_order() {
    let mut session = with_tab(
        0,
        vec![terminal(3), pane(PaneId::Plugin(1), None), terminal(0)],
        vec![terminal(9), pane(PaneId::Plugin(0), None)],
    );
    session.add_tab("2".to_string(), false, true, vec![terminal(4)], vec![]);
    assert_eq!(session.all_terminal_ids(), vec![3, 0, 9, 4]);
    assert_eq!(session.all_plugin_ids(), vec![1, 0]);
}

#[test]
fn terminals_are_told_their_commands() {
    let mut session = with_tab(
        0,
        vec![terminal(0), terminal(1), pane(PaneId::Plugin(2), None)],
        vec![terminal(2), pane(PaneId::Terminal(3), Some(command(&["old"]))), terminal(0)],
    );
    session.default_shell = Some("bash".to_string());
    session.update_terminal_commands(lines(&[
        (0, &["vim", "a b", "c"]),
        (1, &["bash"]),
        (2, &["bash", "-c"]),
        (3, &[]),
        (7, &["nobody"]),
    ]));
    assert_eq!(
        commands(&session),
        vec![
            Some("vim|a b|c".to_string()),
            None,
            None,
            Some("bash|-c".to_string()),
            Some("old".to_string()),
            // the second pane of a number is told nothing
            None,
        ]
    );
}

#[test]
fn command_that_is_the_shell_clears_what_ran() {
    let vim = pane(PaneId::Terminal(0), Some(command(&["vim"])));
    let mut session = with_tab(1, vec![vim], vec![]);
    session.default_shell = Some("bash".to_string());
    session.update_terminal_commands(lines(&[(0, &["bash"])]));
    assert_eq!(commands(&session), vec![None]);
    assert!(!session.is_dirty());
}

#[test]
fn directories_are_told_relative_to_what_they_share() {
    let mut session = with_tab(
        0,
        vec![terminal(0), terminal(1)],
        vec![terminal(2), terminal(3)],
    );
    session.update_terminal_cwds(cwds(&[(0, "/home/u/a"), (1, "/home/u/b/c"), (2, "/home/u")]));
    assert_eq!(
        directories(&session),
        vec![
            Some("a".to_string()),
            Some("b/c".to_string()),
            Some("".to_string()),
            None,
        ]
    );
    let manifest: GlobalLayoutManifest = session.clone().into();
    assert_eq!(manifest.global_cwd, Some("/home/u".to_string()));
    // directories that share nothing leave the directory of the session alone
    session.update_terminal_cwds(cwds(&[(0, "x/y"), (1, "/z")]));
    let manifest: GlobalLayoutManifest = session.clone().into();
    assert_eq!(manifest.global_cwd, Some("/home/u".to_string()));
    assert_eq!(directories(&session)[0], Some("x/y".to_string()));
    assert_eq!(directories(&session)[1], Some("/z".to_string()));
    session.update_terminal_cwds(HashMap::new());
    let manifest: GlobalLayoutManifest = session.into();
    assert_eq!(manifest.global_cwd, Some("/home/u".to_string()));
}

#[test]
fn plugin_panes_are_told_their_plugins() {
    let mut session = with_tab(
        0,
        vec![terminal(1), pane(PaneId::Plugin(1), None)],
        vec![pane(PaneId::Plugin(2), Some(plugin_run("file:/old.wasm")))],
    );
    let mut plugins = HashMap::new();
    plugins.insert(1, plugin("zellij:strider"));
    session.update_plugin_cmds(plugins);
    assert_eq!(
        commands(&session),
        vec![
            None,
            Some("zellij:strider".to_string()),
            Some("file:/old.wasm".to_string()),
        ]
    );
}

#[test]
fn editor_is_given_or_named_or_vi() {
    let some = |s: &str| Some(s.to_string());
    let mut session = session(0);
    session.update_default_editor(&some("hx"), some("emacs"), some("nano"));
    assert_eq!(session.default_editor, some("hx"));
    session.update_default_editor(&None, some("emacs"), some("nano"));
    assert_eq!(session.default_editor, some("emacs"));
    session.update_default_editor(&None, None, some("nano"));
    assert_eq!(session.default_editor, some("nano"));
    session.update_default_editor(&None, None, None);
    assert_eq!(session.default_editor, some("vi"));
}

#[test]
fn aliases_in_the_layout_are_looked_up() {
    let alias = |name: &str| RunPluginOrAlias::Alias {
        name: name.to_string(),
        run_plugin: Some(plugin("stale")),
    };
    let layout = Layout {
        panes: 3,
        plugins: vec![
            alias("filepicker"),
            RunPluginOrAlias::RunPlugin(plugin("zellij:tab-bar")),
            alias("unknown"),
        ],
    };
    let mut session = SessionLayoutMetadata::new(Box::new(layout));
    session.update_plugin_aliases_in_default_layout(&PluginAliases {
        aliases: vec![("filepicker".to_string(), plugin("zellij:strider"))],
    });
    let manifest: GlobalLayoutManifest = session.into();
    let plugins = &manifest.default_layout.plugins;
    assert_eq!(manifest.default_layout.pane_count(), 3);
    assert!(matches!(
        &plugins[0],
        RunPluginOrAlias::Alias { name, run_plugin: Some(p) }
            if name == "filepicker" && p.location == "zellij:strider"
    ));
    assert_eq!(plugins[1].location_string(), "zellij:tab-bar");
    assert!(matches!(
        &plugins[2],
        RunPluginOrAlias::Alias { name, run_plugin: None } if name == "unknown"
    ));
}

#[test]
fn clients_are_shown_in_a_table() {
    let mut session = session(0);
    session.add_tab(
        "front".to_string(),
        true,
        true,
        vec![
            pane_with(PaneId::Terminal(0), Some(command(&["vim", "a", "b"])), &[10, 2]),
            pane_with(PaneId::Plugin(7), Some(plugin_run("zellij:strider")), &[3]),
        ],
        vec![pane_with(PaneId::Terminal(9), None, &[4])],
    );
    session.add_tab(
        "second".to_string(),
        false,
        false,
        vec![pane_with(PaneId::Terminal(8), None, &[5])],
        vec![pane_with(
            PaneId::Terminal(1),
            Some(Run::EditFile("/x/file.rs".to_string(), Some(3), None)),
            &[2, 6],
        )],
    );
    session.update_default_editor(&Some("hx".to_string()), None, None);
    assert_eq!(
        session.list_clients_metadata(),
        "CLIENT_ID ZELLIJ_PANE_ID RUNNING_COMMAND\n\
         2         terminal_1     hx /x/file.rs  \n\
         3         plugin_7       zellij:strider \n\
         6         terminal_1     hx /x/file.rs  \n\
         10        terminal_0     vim a b        "
    );
    let clients = session.all_clients_metadata();
    let ids: Vec<u16> = clients.keys().copied().collect();
    assert_eq!(ids, vec![2, 3, 6, 10]);
    assert_eq!(clients[&2].get_pane_id(), PaneId::Terminal(1));
    assert_eq!(clients[&3].stringify_pane_id(), "plugin_7");
    assert_eq!(clients[&6].stringify_command(&None), "N/A");
}

#[test]
fn client_commands_are_told_by_kind() {
    let told = |run: Option<Run>| {
        ClientMetadata::new(PaneId::Terminal(0), run).stringify_command(&Some("vi".to_string()))
    };
    assert_eq!(told(None), "N/A");
    assert_eq!(told(Some(Run::Cwd("/x".to_string()))), "N/A");
    assert_eq!(told(Some(command(&["top"]))), "top ");
    assert_eq!(told(Some(command(&["a", "b", "c d"]))), "a b c d");
    assert_eq!(told(Some(plugin_run("file:/p.wasm"))), "file:/p.wasm");
    assert_eq!(
        told(Some(Run::EditFile("f".to_string(), None, None))),
        "vi f"
    );
}

#[test]
fn table_without_clients_is_its_heading() {
    assert_eq!(
        ClientMetadata::render_many(BTreeMap::new(), &None),
        "CLIENT_ID ZELLIJ_PANE_ID RUNNING_COMMAND"
    );
}

#[test]
fn panes_are_listed_as_json() {
    let mut session = session(0);
    assert_eq!(session.list_panes_metadata(&HashMap::new()), "[]");
    session.add_tab(
        "a \"b\"".to_string(),
        true,
        false,
        vec![PaneLayoutMetadata::new(
            PaneId::Terminal(4),
            stacked(false),
            false,
            Some(command(&["vim", "x\\y"])),
            Some("title".to_string()),
            true,
            None,
            vec![],
        )],
        vec![PaneLayoutMetadata::new(
            PaneId::Plugin(4),
            stacked(true),
            false,
            None,
            None,
            false,
            None,
            vec![],
        )],
    );
    session.add_tab("".to_string(), false, false, vec![terminal(5)], vec![]);
    session.update_terminal_cwds(cwds(&[(5, "/w")]));
    let mut pids = HashMap::new();
    pids.insert(4, 1234);
    assert_eq!(
        session.list_panes_metadata(&pids),
        concat(&[
            "[{\"tab_name\":\"a \\\"b\\\"\",\"tab_index\":0,\"is_tab_focused\":true,",
            "\"pane_id\":\"terminal_4\",\"title\":\"title\",\"command\":\"vim x\\\\y\",",
            "\"cwd\":null,\"pid\":1234,\"is_focused\":true,\"is_stacked\":true,",
            "\"is_expanded\":true,\"is_floating\":false},",
            "{\"tab_name\":\"a \\\"b\\\"\",\"tab_index\":0,\"is_tab_focused\":true,",
            "\"pane_id\":\"plugin_4\",\"title\":null,\"command\":null,",
            "\"cwd\":null,\"pid\":null,\"is_focused\":false,\"is_stacked\":true,",
            "\"is_expanded\":false,\"is_floating\":true},",
            "{\"tab_name\":\"\",\"tab_index\":1,\"is_tab_focused\":false,",
            "\"pane_id\":\"terminal_5\",\"title\":null,\"command\":null,",
            "\"cwd\":\"\",\"pid\":null,\"is_focused\":false,\"is_stacked\":false,",
            "\"is_expanded\":false,\"is_floating\":false}]",
        ])
    );
}

fn concat(parts: &[&str]) -> String {
    let mut all = String::new();
    for part in parts {
        all.push_str(part);
    }
    all
}

#[test]
fn manifest_holds_the_whole_session() {
    let mut session = with_tab(
        1,
        vec![PaneLayoutMetadata::new(
            PaneId::Terminal(6),
            stacked(true),
            true,
            Some(command(&["top"])),
            Some("t".to_string()),
            true,
            Some("contents".to_string()),
            vec![1],
        )],
        vec![pane(PaneId::Plugin(6), None)],
    );
    session.add_tab("two".to_string(), false, true, vec![], vec![]);
    session.update_default_shell("fish".to_string());
    let manifest: GlobalLayoutManifest = session.into();
    assert_eq!(manifest.default_shell, Some("fish".to_string()));
    assert_eq!(manifest.global_cwd, None);
    let names: Vec<&str> = manifest.tabs.iter().map(|t| t.0.as_str()).collect();
    assert_eq!(names, vec!["Tab #1", "two"]);
    let tab = &manifest.tabs[0].1;
    assert!(tab.is_focused && !tab.hide_floating_panes);
    assert!(!manifest.tabs[1].1.is_focused && manifest.tabs[1].1.hide_floating_panes);
    let first = &tab.tiled_panes[0];
    assert_eq!(first.geom, stacked(true));
    assert_eq!(first.title, Some("t".to_string()));
    assert_eq!(first.pane_contents, Some("contents".to_string()));
    assert!(first.is_borderless && first.is_focused);
    assert_eq!(first.preferred_terminal_id, Some(6));
    assert_eq!(first.cwd, None);
    assert_eq!(tab.floating_panes[0].preferred_terminal_id, None);
}

#[test]
fn updates_keep_the_panes_of_a_session() {
    let mut session = with_tab(
        0,
        vec![pane(PaneId::Terminal(2), Some(command(&["sh"]))), pane(PaneId::Plugin(1), None)],
        vec![terminal(0), terminal(2)],
    );
    let before = (session.all_terminal_ids(), session.all_plugin_ids());
    session.update_default_shell("sh".to_string());
    session.update_terminal_commands(lines(&[(2, &["vim"]), (1, &["top"])]));
    session.update_terminal_cwds(cwds(&[(2, "/a"), (0, "/b")]));
    session.update_plugin_cmds(HashMap::from([(1, plugin("zellij:share"))]));
    session.strip_command_runs_from_terminal_panes();
    assert_eq!((session.all_terminal_ids(), session.all_plugin_ids()), before);
    let listed = session.list_panes_metadata(&HashMap::new());
    assert_eq!(listed.matches("\"pane_id\"").count(), 4);
    assert_eq!(
        directories(&session),
        vec![Some("a".to_string()), None, Some("b".to_string()), None]
    );
}

#[test]
fn clones_and_defaults_hold_what_they_should() {
    let mut session = with_tab(2, vec![terminal(1)], vec![]);
    let copy = session.clone();
    session.add_tab("more".to_string(), false, false, vec![terminal(2)], vec![]);
    assert_eq!(copy.all_terminal_ids(), vec![1]);
    assert_eq!(session.all_terminal_ids(), vec![1, 2]);
    assert_eq!(Layout::default().pane_count(), 0);
    let manifest: GlobalLayoutManifest = SessionLayoutMetadata::default().into();
    assert!(manifest.tabs.is_empty());
}
