//! What the updates of a session, its lists and its manifest are for, pane by
//! pane: stated on what the tabs and panes hold before and after.

use crate::layout::{ClientId, PaneId, PluginView, RunPlugin, RunPluginView, RunView};
use crate::manifest::{PaneManifestView, TabManifestView};
use crate::path::{
    are_components, common_ancestor, components, components_are_components, extended,
    is_longest_shared, spelled, spelled_reads_back, split_path_is_whole_again, starts_all,
};
use crate::session_laws::{first_pane_of_a_number_takes_the_value, lemma_longest_shared_exists};
use crate::session_layout_metadata::{
    all_front_panes, all_panes, clients_among, clients_at, counts, differs_from_base, directories,
    each_pane, front_panes, handed_tabs, plugin_id, session_manifest, stripped, terminal_id,
    with_command_line, with_default_shell, with_directories, with_directory, with_plugin, PaneView,
    SessionView, TabView,
};
use crate::text::texts;
use vstd::prelude::*;

verus! {

proof fn lemma_all_panes_concat(a: Seq<TabView>, b: Seq<TabView>)
    ensures
        all_panes(a + b) == all_panes(a) + all_panes(b),
    decreases b.len(),
{
    if b.len() == 0 {
        assert(a + b =~= a);
        assert(all_panes(a) + all_panes(b) =~= all_panes(a));
    } else {
        lemma_all_panes_concat(a, b.drop_last());
        assert((a + b).drop_last() =~= a + b.drop_last());
        assert(all_panes(a + b) =~= all_panes(a) + all_panes(b));
    }
}

/// All panes are gone through tab by tab, and none is left out: those of a tab,
/// the tiled ones first, stand between those of the tabs before and after it.
pub proof fn no_pane_is_left_out(tabs: Seq<TabView>, t: int)
    requires
        0 <= t < tabs.len(),
    ensures
        all_panes(tabs) == all_panes(tabs.take(t)) + tabs[t].tiled_panes + tabs[t].floating_panes
            + all_panes(tabs.skip(t + 1)),
        all_panes(Seq::empty()) == Seq::<PaneView>::empty(),
{
    let upto = tabs.take(t + 1);
    assert(upto.drop_last() =~= tabs.take(t));
    assert(upto + tabs.skip(t + 1) =~= tabs);
    lemma_all_panes_concat(upto, tabs.skip(t + 1));
}

/// The ids of the terminals and of the plugins are those of the panes, each pane
/// with its own, in the order of the panes: one more pane adds its number to the
/// ids of its kind, and nothing to the others.
pub proof fn each_pane_adds_its_id(panes: Seq<PaneView>, pane: PaneView)
    ensures
        Seq::<PaneView>::empty().filter_map(terminal_id()).len() == 0,
        Seq::<PaneView>::empty().filter_map(plugin_id()).len() == 0,
        pane.id matches PaneId::Terminal(n) ==> panes.push(pane).filter_map(terminal_id())
            == panes.filter_map(terminal_id()).push(n) && panes.push(pane).filter_map(plugin_id())
            == panes.filter_map(plugin_id()),
        pane.id matches PaneId::Plugin(n) ==> panes.push(pane).filter_map(plugin_id())
            == panes.filter_map(plugin_id()).push(n) && panes.push(pane).filter_map(terminal_id())
            == panes.filter_map(terminal_id()),
{
    assert(panes.push(pane).drop_last() =~= panes);
    if let PaneId::Terminal(n) = pane.id {
        assert(panes.push(pane).filter_map(terminal_id()) =~= panes.filter_map(
            terminal_id(),
        ).push(n));
    }
    if let PaneId::Plugin(n) = pane.id {
        assert(panes.push(pane).filter_map(plugin_id()) =~= panes.filter_map(plugin_id()).push(n));
    }
}

/// The pane at a place of a tab.
pub open spec fn pane_at(tab: TabView, floating: bool, i: int) -> PaneView {
    if floating {
        tab.floating_panes[i]
    } else {
        tab.tiled_panes[i]
    }
}

/// Whether a tab has a pane at this place.
pub open spec fn is_place(tab: TabView, floating: bool, i: int) -> bool {
    if floating {
        0 <= i < tab.floating_panes.len()
    } else {
        0 <= i < tab.tiled_panes.len()
    }
}

/// Whether two lists of tabs have the same tabs but for what the panes hold.
pub open spec fn same_shape(a: Seq<TabView>, b: Seq<TabView>) -> bool {
    &&& a.len() == b.len()
    &&& forall|t: int| #![trigger a[t]] #![trigger b[t]]
        0 <= t < a.len() ==> {
            &&& a[t].name == b[t].name
            &&& a[t].is_focused == b[t].is_focused
            &&& a[t].hide_floating_panes == b[t].hide_floating_panes
            &&& a[t].tiled_panes.len() == b[t].tiled_panes.len()
            &&& a[t].floating_panes.len() == b[t].floating_panes.len()
        }
}

/// Stripping takes the run from exactly the panes that are terminals and run a
/// command, and changes nothing else.
pub proof fn stripping_takes_commands_from_terminals(
    tabs: Seq<TabView>,
    t: int,
    floating: bool,
    i: int,
)
    requires
        0 <= t < tabs.len(),
        is_place(tabs[t], floating, i),
    ensures
        ({
            let after = each_pane(tabs, stripped());
            let before_pane = pane_at(tabs[t], floating, i);
            let after_pane = pane_at(after[t], floating, i);
            &&& same_shape(after, tabs)
            &&& after_pane == (PaneView { run: after_pane.run, ..before_pane })
            &&& (before_pane.id is Terminal && before_pane.run is Some
                && before_pane.run->0 is Command) ==> after_pane.run is None
            &&& before_pane.id is Plugin ==> after_pane.run == before_pane.run
            &&& !(before_pane.run is Some && before_pane.run->0 is Command) ==> after_pane.run
                == before_pane.run
        }),
{
}

/// Told of a default shell, a session keeps the first that it was told of, and
/// takes the run from exactly the panes that run this shell without arguments.
pub proof fn default_shell_is_no_command(
    session: SessionView,
    told: Seq<char>,
    t: int,
    floating: bool,
    i: int,
)
    requires
        0 <= t < session.tabs.len(),
        is_place(session.tabs[t], floating, i),
    ensures
        ({
            let after = with_default_shell(session, told);
            let before_pane = pane_at(session.tabs[t], floating, i);
            let after_pane = pane_at(after.tabs[t], floating, i);
            &&& session.default_shell is Some ==> after.default_shell == session.default_shell
            &&& session.default_shell is None ==> after.default_shell == Some(told)
            &&& after == (SessionView {
                default_shell: after.default_shell,
                tabs: after.tabs,
                ..session
            })
            &&& same_shape(after.tabs, session.tabs)
            &&& after_pane == (PaneView { run: after_pane.run, ..before_pane })
            &&& before_pane.run matches Some(RunView::Command(c)) ==> (if after.default_shell
                == Some(c.command) && c.args.len() == 0 {
                after_pane.run is None
            } else {
                after_pane.run == before_pane.run
            })
            &&& !(before_pane.run is Some && before_pane.run->0 is Command) ==> after_pane.run
                == before_pane.run
        }),
{
}

proof fn lemma_handed_shape<V>(
    tabs: Seq<TabView>,
    values: Map<u32, V>,
    number: spec_fn(PaneView) -> Option<u32>,
    put: spec_fn(PaneView, V) -> PaneView,
)
    ensures
        same_shape(handed_tabs(tabs, values, number, put).0, tabs),
    decreases tabs.len(),
{
    let (after, left) = handed_tabs(tabs, values, number, put);
    if tabs.len() > 0 {
        let before = tabs.drop_last();
        let tab = tabs.last();
        lemma_handed_shape(before, values, number, put);
        let (done, left1) = handed_tabs(before, values, number, put);
        lemma_handed_len(tab.tiled_panes, left1, number, put);
        let left2 = crate::session_layout_metadata::handed_panes(
            tab.tiled_panes,
            left1,
            number,
            put,
        ).1;
        lemma_handed_len(tab.floating_panes, left2, number, put);
        assert forall|t: int| #![trigger after[t]] #![trigger tabs[t]]
            0 <= t < after.len() implies {
            &&& after[t].name == tabs[t].name
            &&& after[t].is_focused == tabs[t].is_focused
            &&& after[t].hide_floating_panes == tabs[t].hide_floating_panes
            &&& after[t].tiled_panes.len() == tabs[t].tiled_panes.len()
            &&& after[t].floating_panes.len() == tabs[t].floating_panes.len()
        } by {
            if t < before.len() {
                assert(after[t] == done[t]);
                assert(before[t] == tabs[t]);
            }
        }
    }
}

proof fn lemma_handed_len<V>(
    panes: Seq<PaneView>,
    values: Map<u32, V>,
    number: spec_fn(PaneView) -> Option<u32>,
    put: spec_fn(PaneView, V) -> PaneView,
)
    ensures
        crate::session_layout_metadata::handed_panes(panes, values, number, put).0.len()
            == panes.len(),
    decreases panes.len(),
{
    if panes.len() > 0 {
        lemma_handed_len(panes.drop_last(), values, number, put);
    }
}

/// Whether no pane before the one at `i` is the same terminal or plugin.
pub open spec fn is_first_with_its_id(panes: Seq<PaneView>, i: int) -> bool {
    forall|j: int| 0 <= j < i ==> (#[trigger] panes[j]).id != panes[i].id
}

proof fn lemma_terminal_first(panes: Seq<PaneView>, i: int)
    requires
        0 <= i < panes.len(),
        panes[i].id is Terminal,
    ensures
        crate::session_laws::is_first_of_number(panes, terminal_id(), i) <==> is_first_with_its_id(
            panes,
            i,
        ),
{
    let number = terminal_id();
    if is_first_with_its_id(panes, i) {
        assert forall|j: int| 0 <= j < i implies number(#[trigger] panes[j]) != number(
            panes[i],
        ) by {
            assert(panes[j].id != panes[i].id);
        }
    }
    if crate::session_laws::is_first_of_number(panes, number, i) {
        assert forall|j: int| 0 <= j < i implies (#[trigger] panes[j]).id != panes[i].id by {
            assert(number(panes[j]) != number(panes[i]));
        }
    }
}

proof fn lemma_plugin_first(panes: Seq<PaneView>, i: int)
    requires
        0 <= i < panes.len(),
        panes[i].id is Plugin,
    ensures
        crate::session_laws::is_first_of_number(panes, plugin_id(), i) <==> is_first_with_its_id(
            panes,
            i,
        ),
{
    let number = plugin_id();
    if is_first_with_its_id(panes, i) {
        assert forall|j: int| 0 <= j < i implies number(#[trigger] panes[j]) != number(
            panes[i],
        ) by {
            assert(panes[j].id != panes[i].id);
        }
    }
    if crate::session_laws::is_first_of_number(panes, number, i) {
        assert forall|j: int| 0 <= j < i implies (#[trigger] panes[j]).id != panes[i].id by {
            assert(number(panes[j]) != number(panes[i]));
        }
    }
}

/// A terminal that is told a command line runs that command with the rest of the
/// line as its arguments, or nothing where the line is the default shell alone.
/// An empty line tells nothing; of several panes of one terminal the first is
/// told; and all else stays.
pub proof fn terminals_run_what_they_are_told(
    session: SessionView,
    lines: Map<u32, Vec<String>>,
    i: int,
)
    requires
        0 <= i < all_panes(session.tabs).len(),
    ensures
        ({
            let tabs = handed_tabs(
                session.tabs,
                lines,
                terminal_id(),
                with_command_line(session.default_shell),
            ).0;
            let before = all_panes(session.tabs);
            let after = all_panes(tabs);
            let told = before[i].id matches PaneId::Terminal(n) && lines.contains_key(n)
                && lines[n]@.len() > 0 && is_first_with_its_id(before, i);
            &&& same_shape(tabs, session.tabs)
            &&& after.len() == before.len()
            &&& !told ==> after[i] == before[i]
            &&& after[i] == (PaneView { run: after[i].run, ..before[i] })
            &&& told ==> {
                let line = lines[before[i].id->Terminal_0]@;
                if line.len() == 1 && session.default_shell == Some(line[0]@) {
                    after[i].run is None
                } else {
                    &&& after[i].run matches Some(RunView::Command(c))
                    &&& c.command == line[0]@
                    &&& c.args.len() == line.len() - 1
                    &&& forall|k: int| 0 <= k < line.len() - 1 ==> #[trigger] c.args[k] == line[k
                        + 1]@
                    &&& c.cwd is None && !c.hold_on_close && !c.hold_on_start
                }
            }
        }),
{
    let put = with_command_line(session.default_shell);
    let before = all_panes(session.tabs);
    lemma_handed_shape(session.tabs, lines, terminal_id(), put);
    first_pane_of_a_number_takes_the_value(session.tabs, lines, terminal_id(), put, i);
    if before[i].id is Terminal {
        lemma_terminal_first(before, i);
        let n = before[i].id->Terminal_0;
        if lines.contains_key(n) {
            let line = texts(lines[n]@);
            assert(line.len() == lines[n]@.len());
            if line.len() > 0 {
                assert(line.skip(1).len() == line.len() - 1);
                assert(line[0] == lines[n]@[0]@);
                assert forall|k: int| 0 <= k < line.len() - 1 implies #[trigger] line.skip(1)[k]
                    == lines[n]@[k + 1]@ by {}
            }
        }
    }
}

/// A plugin pane that is told its plugin runs that plugin; of several panes of
/// one number the first is told; and all else stays.
pub proof fn plugins_are_what_they_are_told(
    session: SessionView,
    plugins: Map<u32, RunPlugin>,
    i: int,
)
    requires
        0 <= i < all_panes(session.tabs).len(),
    ensures
        ({
            let tabs = handed_tabs(session.tabs, plugins, plugin_id(), with_plugin()).0;
            let before = all_panes(session.tabs);
            let after = all_panes(tabs);
            let told = before[i].id matches PaneId::Plugin(n) && plugins.contains_key(n)
                && is_first_with_its_id(before, i);
            &&& same_shape(tabs, session.tabs)
            &&& after.len() == before.len()
            &&& !told ==> after[i] == before[i]
            &&& told ==> after[i] == (PaneView {
                run: Some(
                    RunView::Plugin(PluginView::RunPlugin(plugins[before[i].id->Plugin_0]@)),
                ),
                ..before[i]
            })
        }),
{
    let before = all_panes(session.tabs);
    lemma_handed_shape(session.tabs, plugins, plugin_id(), with_plugin());
    first_pane_of_a_number_takes_the_value(session.tabs, plugins, plugin_id(), with_plugin(), i);
    if before[i].id is Plugin {
        lemma_plugin_first(before, i);
    }
}

/// Whether `parts` starts the path of every directory.
pub open spec fn starts_every_cwd(parts: Seq<Seq<char>>, cwds: Map<u32, String>) -> bool {
    forall|n: u32| #[trigger]
        cwds.contains_key(n) ==> parts.is_prefix_of(components(cwds[n]@))
}

/// Whether the directories have a first component in common.
pub open spec fn share_an_ancestor(cwds: Map<u32, String>) -> bool {
    exists|first: Seq<Seq<char>>| first.len() == 1 && #[trigger] starts_every_cwd(first, cwds)
}

proof fn lemma_starts_all(parts: Seq<Seq<char>>, cwds: Map<u32, String>)
    ensures
        starts_every_cwd(parts, cwds) <==> starts_all(parts, directories(cwds)),
{
    let paths = directories(cwds);
    if starts_every_cwd(parts, cwds) {
        assert forall|p: Seq<char>| #[trigger] paths.contains(p) implies parts.is_prefix_of(
            components(p),
        ) by {
            let cwd = choose|cwd: String| #[trigger] cwds.values().contains(cwd) && cwd@ == p;
            let n = choose|n: u32| #[trigger] cwds.contains_key(n) && cwds[n] == cwd;
            assert(cwds.contains_key(n));
        }
    }
    if starts_all(parts, paths) {
        assert forall|n: u32| #[trigger] cwds.contains_key(n) implies parts.is_prefix_of(
            components(cwds[n]@),
        ) by {
            assert(cwds.values().contains(cwds[n]));
            assert(paths.contains(cwds[n]@));
        }
    }
}

proof fn lemma_ancestor(cwds: Map<u32, String>, n: u32) -> (shared: Seq<Seq<char>>)
    requires
        cwds.contains_key(n),
    ensures
        share_an_ancestor(cwds) ==> {
            &&& shared.len() > 0
            &&& common_ancestor(directories(cwds)) == Some(spelled(shared))
            &&& shared.is_prefix_of(components(cwds[n]@))
            &&& components(spelled(shared)) == shared
            &&& starts_every_cwd(shared, cwds)
            &&& forall|parts: Seq<Seq<char>>| #[trigger]
                starts_every_cwd(parts, cwds) ==> parts.len() <= shared.len()
        },
        !share_an_ancestor(cwds) ==> common_ancestor(directories(cwds)) is None,
{
    let paths = directories(cwds);
    let whole = cwds[n]@;
    assert(cwds.values().contains(cwds[n]));
    assert(paths.contains(whole));
    assert forall|other: Seq<Seq<char>>| #[trigger] starts_all(other, paths) implies other.len()
        <= components(whole).len() by {
        assert(other.is_prefix_of(components(whole)));
    }
    lemma_longest_shared_exists(paths, whole, components(whole).len() as int);
    let shared = choose|shared: Seq<Seq<char>>| is_longest_shared(shared, paths);
    assert(shared.is_prefix_of(components(whole)));
    lemma_starts_all(shared, cwds);
    assert forall|parts: Seq<Seq<char>>| #[trigger] starts_every_cwd(parts, cwds) implies parts.len()
        <= shared.len() by {
        lemma_starts_all(parts, cwds);
    }
    if share_an_ancestor(cwds) {
        let first = choose|first: Seq<Seq<char>>|
            first.len() == 1 && #[trigger] starts_every_cwd(first, cwds);
        assert(shared.len() >= 1);
        components_are_components(whole);
        let all = components(whole);
        assert forall|k: int| 0 <= k < shared.len() implies {
            let part = #[trigger] shared[k];
            ||| k == 0 && part == seq!['/']
            ||| part.len() > 0 && !part.contains('/') && (k == 0 || part != seq!['.'])
        } by {
            assert(shared =~= all.subrange(0, shared.len() as int));
            assert(shared[k] == all[k]);
        }
        assert(are_components(shared));
        spelled_reads_back(shared);
    } else if shared.len() > 0 {
        let first = shared.take(1);
        assert forall|m: u32| #[trigger] cwds.contains_key(m) implies first.is_prefix_of(
            components(cwds[m]@),
        ) by {
            assert(shared.is_prefix_of(components(cwds[m]@)));
            assert(first =~= components(cwds[m]@).subrange(0, 1));
        }
        assert(starts_every_cwd(first, cwds));
    }
    shared
}

/// Told the directories of its terminals, a session has in its own directory,
/// extended by that of each pane that was told one, the directory of this pane,
/// wherever the directories have an ancestor in common; one directory alone is
/// its own ancestor. The session's directory is then the deepest of all. Where
/// there is no ancestor in common, each pane has its whole directory, and that
/// of the session stays.
pub proof fn directories_are_kept(session: SessionView, cwds: Map<u32, String>, i: int)
    requires
        0 <= i < all_panes(session.tabs).len(),
    ensures
        ({
            let after = with_directories(session, cwds);
            let old_panes = all_panes(session.tabs);
            let new_panes = all_panes(after.tabs);
            let told = old_panes[i].id matches PaneId::Terminal(n) && cwds.contains_key(n)
                && is_first_with_its_id(old_panes, i);
            &&& after == (SessionView {
                global_cwd: after.global_cwd,
                tabs: after.tabs,
                ..session
            })
            &&& same_shape(after.tabs, session.tabs)
            &&& new_panes.len() == old_panes.len()
            &&& new_panes[i] == (PaneView { cwd: new_panes[i].cwd, ..old_panes[i] })
            &&& !told ==> new_panes[i] == old_panes[i]
            &&& told ==> {
                let whole = cwds[old_panes[i].id->Terminal_0]@;
                if share_an_ancestor(cwds) {
                    &&& after.global_cwd matches Some(shared)
                    &&& new_panes[i].cwd matches Some(own)
                    &&& components(extended(shared, own)) == components(whole)
                    &&& starts_every_cwd(components(shared), cwds)
                    &&& forall|parts: Seq<Seq<char>>| #[trigger]
                        starts_every_cwd(parts, cwds) ==> parts.len() <= components(shared).len()
                } else {
                    &&& after.global_cwd == session.global_cwd
                    &&& new_panes[i].cwd == Some(whole)
                }
            }
        }),
{
    let paths = directories(cwds);
    let put = with_directory(common_ancestor(paths));
    let old_panes = all_panes(session.tabs);
    let after = with_directories(session, cwds);
    let new_panes = all_panes(after.tabs);
    lemma_handed_shape(session.tabs, cwds, terminal_id(), put);
    first_pane_of_a_number_takes_the_value(session.tabs, cwds, terminal_id(), put, i);
    if old_panes[i].id is Terminal {
        lemma_terminal_first(old_panes, i);
        let n = old_panes[i].id->Terminal_0;
        if cwds.contains_key(n) && is_first_with_its_id(old_panes, i) {
            let whole = cwds[n]@;
            let shared = lemma_ancestor(cwds, n);
            if share_an_ancestor(cwds) {
                split_path_is_whole_again(whole, shared);
            }
        }
    }
}

/// Told the directories of its terminals, a session is in the deepest directory that
/// holds them all, whichever of them its panes are; told none, or such as have no
/// ancestor in common, it stays where it was.
pub proof fn session_is_where_its_terminals_are(session: SessionView, cwds: Map<u32, String>)
    ensures
        ({
            let after = with_directories(session, cwds).global_cwd;
            let any = exists|n: u32| #[trigger] cwds.contains_key(n);
            if any && share_an_ancestor(cwds) {
                &&& after matches Some(shared)
                &&& starts_every_cwd(components(shared), cwds)
                &&& forall|parts: Seq<Seq<char>>| #[trigger]
                    starts_every_cwd(parts, cwds) ==> parts.len() <= components(shared).len()
            } else {
                after == session.global_cwd
            }
        }),
{
    let paths = directories(cwds);
    if exists|n: u32| #[trigger] cwds.contains_key(n) {
        let n = choose|n: u32| #[trigger] cwds.contains_key(n);
        let shared = lemma_ancestor(cwds, n);
    } else {
        assert forall|p: Seq<char>| !#[trigger] paths.contains(p) by {
            if paths.contains(p) {
                let cwd = choose|cwd: String| #[trigger] cwds.values().contains(cwd) && cwd@ == p;
                let n = choose|n: u32| #[trigger] cwds.contains_key(n) && cwds[n] == cwd;
                assert(cwds.contains_key(n));
            }
        }
        assert(paths =~= Set::empty());
    }
}

/// How many of the panes the user opened: all but those of the five plugins that
/// come and go by themselves.
pub open spec fn opened(panes: Seq<PaneView>) -> nat
    decreases panes.len(),
{
    if panes.len() == 0 {
        0
    } else {
        let passing = match panes.last().run {
            Some(RunView::Plugin(PluginView::RunPlugin(RunPluginView { location, .. })))
                => is_passing_plugin(location),
            Some(RunView::Plugin(PluginView::Alias { name, .. })) => is_passing_plugin(name),
            _ => false,
        };
        opened(panes.drop_last()) + if passing {
            0nat
        } else {
            1nat
        }
    }
}

/// Whether this is one of the plugins that come and go by themselves.
pub open spec fn is_passing_plugin(name: Seq<char>) -> bool {
    seq![
        "zellij:about"@,
        "zellij:session-manager"@,
        "zellij:plugin-manager"@,
        "zellij:configuration-manager"@,
        "zellij:share"@,
    ].contains(name)
}

proof fn lemma_passing(name: Seq<char>)
    ensures
        is_passing_plugin(name) <==> crate::session_layout_metadata::is_transient(name),
{
    let all = seq![
        "zellij:about"@,
        "zellij:session-manager"@,
        "zellij:plugin-manager"@,
        "zellij:configuration-manager"@,
        "zellij:share"@,
    ];
    assert(all[0] == "zellij:about"@);
    assert(all[1] == "zellij:session-manager"@);
    assert(all[2] == "zellij:plugin-manager"@);
    assert(all[3] == "zellij:configuration-manager"@);
    assert(all[4] == "zellij:share"@);
}

proof fn lemma_opened(panes: Seq<PaneView>)
    ensures
        opened(panes) == panes.filter(counts()).len(),
    decreases panes.len(),
{
    reveal(Seq::filter);
    if panes.len() > 0 {
        lemma_opened(panes.drop_last());
        match panes.last().run {
            Some(RunView::Plugin(PluginView::RunPlugin(p))) => lemma_passing(p.location),
            Some(RunView::Plugin(PluginView::Alias { name, .. })) => lemma_passing(name),
            _ => {},
        }
    }
}

/// A session differs from its layout exactly where it has not as many panes that
/// the user opened, or where a pane runs a command that is not the default shell
/// without arguments.
pub proof fn dirty_means_panes_or_commands(session: SessionView)
    ensures
        differs_from_base(session) <==> (opened(all_panes(session.tabs))
            != session.default_layout.panes || exists|t: int, floating: bool, i: int|
            0 <= t < session.tabs.len() && #[trigger] is_place(session.tabs[t], floating, i)
                && runs_command_but_shell(
                pane_at(session.tabs[t], floating, i),
                session.default_shell,
            )),
{
    let panes = all_panes(session.tabs);
    let shell = session.default_shell;
    lemma_opened(panes);
    if exists|t: int, floating: bool, i: int|
        0 <= t < session.tabs.len() && #[trigger] is_place(session.tabs[t], floating, i)
            && runs_command_but_shell(pane_at(session.tabs[t], floating, i), shell) {
        let (t, floating, i) = choose|t: int, floating: bool, i: int|
            0 <= t < session.tabs.len() && #[trigger] is_place(session.tabs[t], floating, i)
                && runs_command_but_shell(pane_at(session.tabs[t], floating, i), shell);
        let k = lemma_place_in_all(session.tabs, t, floating, i);
        assert(crate::session_layout_metadata::runs_other_command(panes[k], shell));
    }
    if exists|k: int|
        0 <= k < panes.len() && crate::session_layout_metadata::runs_other_command(
            #[trigger] panes[k],
            shell,
        ) {
        let k = choose|k: int|
            0 <= k < panes.len() && crate::session_layout_metadata::runs_other_command(
                #[trigger] panes[k],
                shell,
            );
        let (t, floating, i) = lemma_place_of(session.tabs, k);
        assert(is_place(session.tabs[t], floating, i));
        assert(runs_command_but_shell(pane_at(session.tabs[t], floating, i), shell));
    }
}

/// Whether a pane runs a command that is not this shell without arguments.
pub open spec fn runs_command_but_shell(pane: PaneView, shell: Option<Seq<char>>) -> bool {
    pane.run matches Some(RunView::Command(c)) && (shell != Some(c.command) || c.args.len() > 0)
}

proof fn lemma_place_in_all(tabs: Seq<TabView>, t: int, floating: bool, i: int) -> (k: int)
    requires
        0 <= t < tabs.len(),
        is_place(tabs[t], floating, i),
    ensures
        0 <= k < all_panes(tabs).len(),
        all_panes(tabs)[k] == pane_at(tabs[t], floating, i),
{
    no_pane_is_left_out(tabs, t);
    let before = all_panes(tabs.take(t)).len();
    if floating {
        (before + tabs[t].tiled_panes.len() + i) as int
    } else {
        before + i
    }
}

proof fn lemma_place_of(tabs: Seq<TabView>, k: int) -> (place: (int, bool, int))
    requires
        0 <= k < all_panes(tabs).len(),
    ensures
        0 <= place.0 < tabs.len(),
        is_place(tabs[place.0], place.1, place.2),
        all_panes(tabs)[k] == pane_at(tabs[place.0], place.1, place.2),
    decreases tabs.len(),
{
    let before = all_panes(tabs.drop_last());
    let tab = tabs.last();
    if k < before.len() {
        let place = lemma_place_of(tabs.drop_last(), k);
        assert(tabs.drop_last()[place.0] == tabs[place.0]);
        place
    } else if k < before.len() + tab.tiled_panes.len() {
        (tabs.len() - 1, false, k - before.len())
    } else {
        (tabs.len() - 1, true, k - before.len() - tab.tiled_panes.len())
    }
}

/// Whether a client focuses the pane at a place that can be seen: a floating one
/// of a tab that does not hide these, or a tiled one of a tab that does.
pub open spec fn focuses_in_front(
    tabs: Seq<TabView>,
    id: ClientId,
    t: int,
    floating: bool,
    i: int,
) -> bool {
    &&& 0 <= t < tabs.len()
    &&& is_place(tabs[t], floating, i)
    &&& floating == !tabs[t].hide_floating_panes
    &&& pane_at(tabs[t], floating, i).focused_clients.contains(id)
}

proof fn lemma_front_place(tabs: Seq<TabView>, t: int, floating: bool, i: int) -> (k: int)
    requires
        0 <= t < tabs.len(),
        is_place(tabs[t], floating, i),
        floating == !tabs[t].hide_floating_panes,
    ensures
        0 <= k < all_front_panes(tabs).len(),
        all_front_panes(tabs)[k] == pane_at(tabs[t], floating, i),
        k == all_front_panes(tabs.take(t)).len() + i,
    decreases tabs.len(),
{
    let before = tabs.drop_last();
    if t < before.len() {
        let k = lemma_front_place(before, t, floating, i);
        assert(before.take(t) =~= tabs.take(t));
        k
    } else {
        assert(tabs.take(t) =~= before);
        all_front_panes(before).len() + i
    }
}

proof fn lemma_front_place_of(tabs: Seq<TabView>, k: int) -> (place: (int, int))
    requires
        0 <= k < all_front_panes(tabs).len(),
    ensures
        ({
            let (t, i) = place;
            &&& 0 <= t < tabs.len()
            &&& is_place(tabs[t], !tabs[t].hide_floating_panes, i)
            &&& all_front_panes(tabs)[k] == pane_at(tabs[t], !tabs[t].hide_floating_panes, i)
            &&& k == all_front_panes(tabs.take(t)).len() + i
        }),
    decreases tabs.len(),
{
    let before = tabs.drop_last();
    let n = all_front_panes(before).len();
    if k < n {
        let (t, i) = lemma_front_place_of(before, k);
        assert(before[t] == tabs[t]);
        assert(before.take(t) =~= tabs.take(t));
        (t, i)
    } else {
        assert(tabs.take(tabs.len() - 1) =~= before);
        (tabs.len() - 1, k - n)
    }
}

proof fn lemma_front_len(tabs: Seq<TabView>, s: int, t: int)
    requires
        0 <= s < t <= tabs.len(),
    ensures
        all_front_panes(tabs.take(s)).len() + front_panes(tabs[s]).len() <= all_front_panes(
            tabs.take(t),
        ).len(),
    decreases t,
{
    assert(tabs.take(t).drop_last() =~= tabs.take(t - 1));
    if s < t - 1 {
        lemma_front_len(tabs, s, t - 1);
    }
}

/// The clients of a session are those that focus a pane in front, whether its tab
/// is focused or not: a floating pane of a tab that does not hide these, or a
/// tiled pane of a tab that does. Who focuses only other panes is none of them.
pub proof fn clients_are_those_in_front(tabs: Seq<TabView>, id: ClientId)
    ensures
        clients_among(all_front_panes(tabs)).contains_key(id) <==> exists|
            t: int,
            floating: bool,
            i: int,
        | #[trigger]
            focuses_in_front(tabs, id, t, floating, i),
{
    let panes = all_front_panes(tabs);
    if exists|t: int, floating: bool, i: int| #[trigger]
        focuses_in_front(tabs, id, t, floating, i) {
        let (t, floating, i) = choose|t: int, floating: bool, i: int| #[trigger]
            focuses_in_front(tabs, id, t, floating, i);
        let k = lemma_front_place(tabs, t, floating, i);
        lemma_client_shown(panes, id, k);
    }
    if clients_among(panes).contains_key(id) {
        let k = lemma_client_focuses(panes, id);
        let (t, i) = lemma_front_place_of(tabs, k);
        assert(focuses_in_front(tabs, id, t, !tabs[t].hide_floating_panes, i));
    }
}

proof fn lemma_client_shown(panes: Seq<PaneView>, id: ClientId, k: int)
    requires
        0 <= k < panes.len(),
        panes[k].focused_clients.contains(id),
    ensures
        clients_among(panes).contains_key(id),
    decreases panes.len(),
{
    if k < panes.len() - 1 {
        lemma_client_shown(panes.drop_last(), id, k);
    } else {
        assert(clients_at(panes.last()).contains_key(id));
    }
}

proof fn lemma_client_focuses(panes: Seq<PaneView>, id: ClientId) -> (k: int)
    requires
        clients_among(panes).contains_key(id),
    ensures
        0 <= k < panes.len(),
        panes[k].focused_clients.contains(id),
    decreases panes.len(),
{
    if clients_at(panes.last()).contains_key(id) {
        panes.len() - 1
    } else {
        lemma_client_focuses(panes.drop_last(), id)
    }
}

/// A client is shown with the pane in front that it focuses, and with what runs
/// there; of several, with the last one of the last tab.
pub proof fn client_is_shown_with_its_pane(
    tabs: Seq<TabView>,
    id: ClientId,
    t: int,
    floating: bool,
    i: int,
)
    requires
        focuses_in_front(tabs, id, t, floating, i),
        forall|t2: int, floating2: bool, i2: int| #[trigger]
            focuses_in_front(tabs, id, t2, floating2, i2) ==> t2 < t || (t2 == t && i2 <= i),
    ensures
        ({
            let client = clients_among(all_front_panes(tabs))[id];
            &&& client.pane_id == pane_at(tabs[t], floating, i).id
            &&& client.command == pane_at(tabs[t], floating, i).run
        }),
{
    let panes = all_front_panes(tabs);
    let k = lemma_front_place(tabs, t, floating, i);
    assert forall|j: int| k < j < panes.len() implies !(
    #[trigger] panes[j]).focused_clients.contains(id) by {
        if panes[j].focused_clients.contains(id) {
            let (t2, i2) = lemma_front_place_of(tabs, j);
            assert(focuses_in_front(tabs, id, t2, !tabs[t2].hide_floating_panes, i2));
            if t2 < t {
                lemma_front_len(tabs, t2, t);
            }
        }
    }
    crate::session_laws::client_is_at_the_last_pane_it_focuses(panes, id, k);
}

/// No update of a session makes a tab appear, disappear, or change in anything but
/// what its panes run and where, nor touches more of the session than it is
/// for: whether the session has panes or not.
pub proof fn updates_keep_the_tabs(
    session: SessionView,
    lines: Map<u32, Vec<String>>,
    cwds: Map<u32, String>,
    plugins: Map<u32, RunPlugin>,
    told: Seq<char>,
)
    ensures
        ({
            let shell = session.default_shell;
            let commanded = handed_tabs(session.tabs, lines, terminal_id(), with_command_line(shell));
            let plugged = handed_tabs(session.tabs, plugins, plugin_id(), with_plugin());
            let placed = with_directories(session, cwds);
            let shelled = with_default_shell(session, told);
            &&& same_shape(commanded.0, session.tabs)
            &&& same_shape(plugged.0, session.tabs)
            &&& same_shape(placed.tabs, session.tabs)
            &&& same_shape(shelled.tabs, session.tabs)
            &&& same_shape(each_pane(session.tabs, stripped()), session.tabs)
            &&& placed.default_layout == session.default_layout
            &&& placed.default_shell == session.default_shell
            &&& placed.default_editor == session.default_editor
            &&& shelled.default_layout == session.default_layout
            &&& shelled.global_cwd == session.global_cwd
            &&& shelled.default_editor == session.default_editor
            &&& session.default_shell is Some ==> shelled.default_shell == session.default_shell
            &&& session.default_shell is None ==> shelled.default_shell == Some(told)
        }),
{
    let put = with_directory(common_ancestor(directories(cwds)));
    lemma_handed_shape(
        session.tabs,
        lines,
        terminal_id(),
        with_command_line(session.default_shell),
    );
    lemma_handed_shape(session.tabs, plugins, plugin_id(), with_plugin());
    lemma_handed_shape(session.tabs, cwds, terminal_id(), put);
}

/// The manifest of a session has every tab in its place, under its name, whether
/// the tab has panes or not; a tab without a name has an empty one.
pub proof fn manifest_holds_every_tab(session: SessionView, t: int)
    ensures
        ({
            let manifest = session_manifest(session);
            &&& manifest.default_layout == session.default_layout
            &&& manifest.default_shell == session.default_shell
            &&& manifest.global_cwd == session.global_cwd
            &&& manifest.tabs.len() == session.tabs.len()
            &&& 0 <= t < session.tabs.len() ==> {
                let tab = session.tabs[t];
                let (name, written) = manifest.tabs[t];
                &&& tab.name is Some ==> name == tab.name->0
                &&& tab.name is None ==> name.len() == 0
                &&& written.is_focused == tab.is_focused
                &&& written.hide_floating_panes == tab.hide_floating_panes
                &&& written.tiled_panes.len() == tab.tiled_panes.len()
                &&& written.floating_panes.len() == tab.floating_panes.len()
            }
        }),
{
}

/// The pane at a place of a tab that is written down.
pub open spec fn manifest_pane_at(tab: TabManifestView, floating: bool, i: int) -> PaneManifestView {
    if floating {
        tab.floating_panes[i]
    } else {
        tab.tiled_panes[i]
    }
}

/// The manifest of a session has every tab and pane of the session in its place,
/// with all that the session knows of it. Each terminal asks for its own number
/// again, and a plugin asks for none.
pub proof fn manifest_holds_every_pane(session: SessionView, t: int, floating: bool, i: int)
    requires
        0 <= t < session.tabs.len(),
        is_place(session.tabs[t], floating, i),
    ensures
        ({
            let manifest = session_manifest(session);
            let tab = session.tabs[t];
            let written = manifest.tabs[t].1;
            let pane = pane_at(tab, floating, i);
            let kept = manifest_pane_at(written, floating, i);
            &&& manifest.default_layout == session.default_layout
            &&& manifest.default_shell == session.default_shell
            &&& manifest.global_cwd == session.global_cwd
            &&& manifest.tabs.len() == session.tabs.len()
            &&& tab.name matches Some(name) ==> manifest.tabs[t].0 == name
            &&& tab.name is None ==> manifest.tabs[t].0.len() == 0
            &&& written.is_focused == tab.is_focused
            &&& written.hide_floating_panes == tab.hide_floating_panes
            &&& written.tiled_panes.len() == tab.tiled_panes.len()
            &&& written.floating_panes.len() == tab.floating_panes.len()
            &&& pane.id matches PaneId::Terminal(n) ==> kept.preferred_terminal_id == Some(n)
            &&& pane.id is Plugin ==> kept.preferred_terminal_id is None
            &&& kept.geom == pane.geom
            &&& kept.run == pane.run
            &&& kept.cwd == pane.cwd
            &&& kept.is_borderless == pane.is_borderless
            &&& kept.title == pane.title
            &&& kept.is_focused == pane.is_focused
            &&& kept.pane_contents == pane.pane_contents
        }),
{
}

/// The terminal numbers that the panes of a list ask for.
pub open spec fn asked_by(panes: Seq<PaneManifestView>) -> Seq<u32>
    decreases panes.len(),
{
    if panes.len() == 0 {
        Seq::empty()
    } else {
        match panes.last().preferred_terminal_id {
            Some(n) => asked_by(panes.drop_last()).push(n),
            None => asked_by(panes.drop_last()),
        }
    }
}

/// The terminal numbers that the panes of a manifest ask for, tab by tab.
pub open spec fn asked_for(tabs: Seq<(Seq<char>, TabManifestView)>) -> Seq<u32>
    decreases tabs.len(),
{
    if tabs.len() == 0 {
        Seq::empty()
    } else {
        asked_for(tabs.drop_last()) + asked_by(tabs.last().1.tiled_panes) + asked_by(
            tabs.last().1.floating_panes,
        )
    }
}

proof fn lemma_asked_by(panes: Seq<PaneView>)
    ensures
        asked_by(
            panes.map_values(
                |p: PaneView| crate::session_layout_metadata::pane_manifest(p),
            ),
        ) == panes.filter_map(terminal_id()),
    decreases panes.len(),
{
    let f = |p: PaneView| crate::session_layout_metadata::pane_manifest(p);
    let kept = panes.map_values(f);
    if panes.len() > 0 {
        let before = panes.drop_last();
        lemma_asked_by(before);
        assert(kept.drop_last() =~= before.map_values(f));
        each_pane_adds_its_id(before, panes.last());
        assert(before.push(panes.last()) =~= panes);
    }
    assert(asked_by(kept) =~= panes.filter_map(terminal_id()));
}

proof fn lemma_filter_map_concat(a: Seq<PaneView>, b: Seq<PaneView>)
    ensures
        (a + b).filter_map(terminal_id()) == a.filter_map(terminal_id()) + b.filter_map(
            terminal_id(),
        ),
    decreases b.len(),
{
    if b.len() == 0 {
        assert(a + b =~= a);
    } else {
        lemma_filter_map_concat(a, b.drop_last());
        assert((a + b).drop_last() =~= a + b.drop_last());
        assert((a + b).last() == b.last());
    }
    assert((a + b).filter_map(terminal_id()) =~= a.filter_map(terminal_id()) + b.filter_map(
        terminal_id(),
    ));
}

/// The numbers that the panes of a manifest ask for, in order, are those of all
/// terminals of the session.
pub proof fn manifest_asks_for_every_terminal(session: SessionView)
    ensures
        asked_for(session_manifest(session).tabs) == all_panes(session.tabs).filter_map(
            terminal_id(),
        ),
    decreases session.tabs.len(),
{
    let tabs = session.tabs;
    let kept = session_manifest(session).tabs;
    if tabs.len() > 0 {
        let earlier = SessionView { tabs: tabs.drop_last(), ..session };
        let tab = tabs.last();
        manifest_asks_for_every_terminal(earlier);
        assert(kept.drop_last() =~= session_manifest(earlier).tabs);
        lemma_asked_by(tab.tiled_panes);
        lemma_asked_by(tab.floating_panes);
        lemma_filter_map_concat(all_panes(tabs.drop_last()), tab.tiled_panes);
        lemma_filter_map_concat(
            all_panes(tabs.drop_last()) + tab.tiled_panes,
            tab.floating_panes,
        );
    }
}

} // verus!
