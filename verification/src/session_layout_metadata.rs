//! What a session tells of its tabs and panes: lists for its users, and the
//! manifest from which the session can be brought back.

use crate::client_metadata::{
    client_table, client_views, pane_id_text, set_client, text_of_pane_id, ClientMetadata, ClientView,
};
use crate::json::{
    array, field, json_opt_string, json_string, object, quoted, quoted_or_null, text_of_array,
    text_of_field, text_of_object, text_of_truth, truth,
};
use crate::layout::{
    bare_command, copy_opt_run, copy_opt_text, location_of, opt_run, resolved_layout, ClientId,
    Layout, LayoutView, PaneGeom, PaneId, PluginAliases, PluginView, Run, RunCommand,
    RunCommandView, RunPlugin, RunPluginOrAlias, RunView,
};
use crate::manifest::{
    named_tab_views, pane_manifest_views, GlobalLayoutManifest, GlobalManifestView, PaneLayoutManifest,
    PaneManifestView, TabLayoutManifest, TabManifestView,
};
use crate::path::{common_ancestor, common_path_all, relative_to, strip_prefix};
use crate::text::{
    decimal, decimal_int, decimal_int_text, decimal_text, join_texts, joined, opt_text, same_text,
    texts,
};
use std::collections::{BTreeMap, HashMap};
use vstd::prelude::*;
use vstd::std_specs::iter::IteratorSpec;

verus! {

/// A pane of a session.
#[derive(Debug)]
pub struct PaneLayoutMetadata {
    id: PaneId,
    geom: PaneGeom,
    run: Option<Run>,
    cwd: Option<String>,
    is_borderless: bool,
    title: Option<String>,
    is_focused: bool,
    pane_contents: Option<String>,
    focused_clients: Vec<ClientId>,
}

/// The contents of a `PaneLayoutMetadata`.
#[verifier::ext_equal]
pub struct PaneView {
    pub id: PaneId,
    pub geom: PaneGeom,
    pub run: Option<RunView>,
    pub cwd: Option<Seq<char>>,
    pub is_borderless: bool,
    pub title: Option<Seq<char>>,
    pub is_focused: bool,
    pub pane_contents: Option<Seq<char>>,
    pub focused_clients: Seq<ClientId>,
}

impl View for PaneLayoutMetadata {
    type V = PaneView;

    closed spec fn view(&self) -> PaneView {
        PaneView {
            id: self.id,
            geom: self.geom,
            run: opt_run(self.run),
            cwd: opt_text(self.cwd),
            is_borderless: self.is_borderless,
            title: opt_text(self.title),
            is_focused: self.is_focused,
            pane_contents: opt_text(self.pane_contents),
            focused_clients: self.focused_clients@,
        }
    }
}

/// The contents of a list of panes.
pub open spec fn pane_views(panes: Seq<PaneLayoutMetadata>) -> Seq<PaneView> {
    panes.map_values(|p: PaneLayoutMetadata| p@)
}

impl PaneLayoutMetadata {
    /// A pane of which no directory is known.
    pub fn new(
        id: PaneId,
        geom: PaneGeom,
        is_borderless: bool,
        run: Option<Run>,
        title: Option<String>,
        is_focused: bool,
        pane_contents: Option<String>,
        focused_clients: Vec<ClientId>,
    ) -> (pane: Self)
        ensures
            pane@ == (PaneView {
                id,
                geom,
                run: opt_run(run),
                cwd: None,
                is_borderless,
                title: opt_text(title),
                is_focused,
                pane_contents: opt_text(pane_contents),
                focused_clients: focused_clients@,
            }),
    {
        PaneLayoutMetadata {
            id,
            geom,
            run,
            cwd: None,
            is_borderless,
            title,
            is_focused,
            pane_contents,
            focused_clients,
        }
    }
}

impl Clone for PaneLayoutMetadata {
    fn clone(&self) -> (r: Self)
        ensures
            r@ == self@,
    {
        let focused_clients = self.focused_clients.clone();
        assert(focused_clients@ =~= self.focused_clients@);
        PaneLayoutMetadata {
            id: self.id,
            geom: self.geom,
            run: copy_opt_run(&self.run),
            cwd: copy_opt_text(&self.cwd),
            is_borderless: self.is_borderless,
            title: copy_opt_text(&self.title),
            is_focused: self.is_focused,
            pane_contents: copy_opt_text(&self.pane_contents),
            focused_clients,
        }
    }
}

fn copy_panes(panes: &Vec<PaneLayoutMetadata>) -> (r: Vec<PaneLayoutMetadata>)
    ensures
        pane_views(r@) == pane_views(panes@),
{
    let mut r: Vec<PaneLayoutMetadata> = Vec::new();
    let ghost whole = pane_views(panes@);
    let mut i: usize = 0;
    while i < panes.len()
        invariant
            i <= panes@.len(),
            whole == pane_views(panes@),
            pane_views(r@) == whole.take(i as int),
        decreases panes@.len() - i,
    {
        let ghost before = r@;
        let pane = panes[i].clone();
        r.push(pane);
        assert(pane_views(r@) =~= pane_views(before).push(pane@));
        assert(whole.take(i + 1) =~= whole.take(i as int).push(pane@));
        i += 1;
    }
    assert(whole.take(i as int) =~= whole);
    r
}

/// A tab of a session.
#[derive(Debug)]
pub struct TabLayoutMetadata {
    name: Option<String>,
    tiled_panes: Vec<PaneLayoutMetadata>,
    floating_panes: Vec<PaneLayoutMetadata>,
    is_focused: bool,
    hide_floating_panes: bool,
}

/// The contents of a `TabLayoutMetadata`.
#[verifier::ext_equal]
pub struct TabView {
    pub name: Option<Seq<char>>,
    pub tiled_panes: Seq<PaneView>,
    pub floating_panes: Seq<PaneView>,
    pub is_focused: bool,
    pub hide_floating_panes: bool,
}

impl View for TabLayoutMetadata {
    type V = TabView;

    closed spec fn view(&self) -> TabView {
        TabView {
            name: opt_text(self.name),
            tiled_panes: pane_views(self.tiled_panes@),
            floating_panes: pane_views(self.floating_panes@),
            is_focused: self.is_focused,
            hide_floating_panes: self.hide_floating_panes,
        }
    }
}

/// The contents of a list of tabs.
pub open spec fn tab_views(tabs: Seq<TabLayoutMetadata>) -> Seq<TabView> {
    tabs.map_values(|t: TabLayoutMetadata| t@)
}

impl Default for TabLayoutMetadata {
    /// A tab without a name and without panes.
    fn default() -> (r: Self)
        ensures
            r@ == (TabView {
                name: None,
                tiled_panes: Seq::empty(),
                floating_panes: Seq::empty(),
                is_focused: false,
                hide_floating_panes: false,
            }),
    {
        let r = TabLayoutMetadata {
            name: None,
            tiled_panes: Vec::new(),
            floating_panes: Vec::new(),
            is_focused: false,
            hide_floating_panes: false,
        };
        assert(r@.tiled_panes =~= Seq::empty());
        assert(r@.floating_panes =~= Seq::empty());
        r
    }
}

impl Clone for TabLayoutMetadata {
    fn clone(&self) -> (r: Self)
        ensures
            r@ == self@,
    {
        TabLayoutMetadata {
            name: copy_opt_text(&self.name),
            tiled_panes: copy_panes(&self.tiled_panes),
            floating_panes: copy_panes(&self.floating_panes),
            is_focused: self.is_focused,
            hide_floating_panes: self.hide_floating_panes,
        }
    }
}

/// All that is told of a session: the layout it started from, the directory
/// that the panes share, the programs that it runs by default, and its tabs.
#[derive(Debug)]
pub struct SessionLayoutMetadata {
    pub default_layout: Box<Layout>,
    pub global_cwd: Option<String>,
    pub default_shell: Option<String>,
    pub default_editor: Option<String>,
    pub tabs: Vec<TabLayoutMetadata>,
}

/// The contents of a `SessionLayoutMetadata`.
#[verifier::ext_equal]
pub struct SessionView {
    pub default_layout: LayoutView,
    pub global_cwd: Option<Seq<char>>,
    pub default_shell: Option<Seq<char>>,
    pub default_editor: Option<Seq<char>>,
    pub tabs: Seq<TabView>,
}

impl View for SessionLayoutMetadata {
    type V = SessionView;

    open spec fn view(&self) -> SessionView {
        SessionView {
            default_layout: self.default_layout@,
            global_cwd: opt_text(self.global_cwd),
            default_shell: opt_text(self.default_shell),
            default_editor: opt_text(self.default_editor),
            tabs: tab_views(self.tabs@),
        }
    }
}

impl Default for SessionLayoutMetadata {
    /// A session without tabs, that started from a layout that opens nothing.
    fn default() -> (r: Self)
        ensures
            r@ == (SessionView {
                default_layout: LayoutView { panes: 0, plugins: Seq::empty() },
                global_cwd: None,
                default_shell: None,
                default_editor: None,
                tabs: Seq::empty(),
            }),
    {
        SessionLayoutMetadata::new(Box::new(Layout::default()))
    }
}

impl Clone for SessionLayoutMetadata {
    fn clone(&self) -> (r: Self)
        ensures
            r@ == self@,
    {
        let mut tabs: Vec<TabLayoutMetadata> = Vec::new();
        let ghost whole = tab_views(self.tabs@);
        let mut i: usize = 0;
        while i < self.tabs.len()
            invariant
                i <= self.tabs@.len(),
                whole == tab_views(self.tabs@),
                tab_views(tabs@) == whole.take(i as int),
            decreases self.tabs@.len() - i,
        {
            let ghost before = tabs@;
            let tab = self.tabs[i].clone();
            tabs.push(tab);
            assert(tab_views(tabs@) =~= tab_views(before).push(tab@));
            assert(whole.take(i + 1) =~= whole.take(i as int).push(tab@));
            i += 1;
        }
        assert(whole.take(i as int) =~= whole);
        SessionLayoutMetadata {
            default_layout: Box::new((*self.default_layout).clone()),
            global_cwd: copy_opt_text(&self.global_cwd),
            default_shell: copy_opt_text(&self.default_shell),
            default_editor: copy_opt_text(&self.default_editor),
            tabs,
        }
    }
}

/// Tabs with each pane, tiled or floating, changed by `f`.
pub open spec fn each_pane(tabs: Seq<TabView>, f: spec_fn(PaneView) -> PaneView) -> Seq<TabView> {
    tabs.map_values(
        |t: TabView|
            TabView {
                tiled_panes: t.tiled_panes.map_values(f),
                floating_panes: t.floating_panes.map_values(f),
                ..t
            },
    )
}

/// A pane without what runs in it, where that is a command in a terminal.
pub open spec fn stripped() -> spec_fn(PaneView) -> PaneView {
    |p: PaneView|
        if p.id is Terminal && p.run matches Some(RunView::Command(_)) {
            PaneView { run: None, ..p }
        } else {
            p
        }
}

fn strip_panes(panes: &mut Vec<PaneLayoutMetadata>)
    ensures
        pane_views(final(panes)@) == pane_views(old(panes)@).map_values(stripped()),
{
    let ghost before = pane_views(panes@);
    let mut i: usize = 0;
    while i < panes.len()
        invariant
            i <= panes@.len(),
            panes@.len() == before.len(),
            forall|j: int| 0 <= j < i ==> (#[trigger] panes@[j])@ == stripped()(before[j]),
            forall|j: int| i <= j < panes@.len() ==> (#[trigger] panes@[j])@ == before[j],
        decreases panes@.len() - i,
    {
        assert(panes@[i as int]@ == before[i as int]);
        if let PaneId::Terminal(_) = panes[i].id {
            if let Some(Run::Command(_)) = &panes[i].run {
                panes[i].run = None;
            }
        }
        i += 1;
    }
    assert(pane_views(panes@) =~= before.map_values(stripped()));
}

impl SessionLayoutMetadata {
    /// Takes the commands out of the terminal panes. A terminal that outlives
    /// the server needs no command to be launched again.
    pub fn strip_command_runs_from_terminal_panes(&mut self)
        ensures
            final(self)@ == (SessionView {
                tabs: each_pane(old(self)@.tabs, stripped()),
                ..old(self)@
            }),
    {
        let ghost before = self@;
        let ghost goal = each_pane(before.tabs, stripped());
        let mut i: usize = 0;
        while i < self.tabs.len()
            invariant
                i <= self.tabs@.len(),
                self.tabs@.len() == before.tabs.len(),
                self@ == (SessionView { tabs: self@.tabs, ..before }),
                goal == each_pane(before.tabs, stripped()),
                forall|j: int| 0 <= j < i ==> (#[trigger] self.tabs@[j])@ == goal[j],
                forall|j: int|
                    i <= j < self.tabs@.len() ==> (#[trigger] self.tabs@[j])@ == before.tabs[j],
            decreases self.tabs@.len() - i,
        {
            assert(self.tabs@[i as int]@ == before.tabs[i as int]);
            strip_panes(&mut self.tabs[i].tiled_panes);
            strip_panes(&mut self.tabs[i].floating_panes);
            i += 1;
        }
        assert(self@.tabs =~= goal);
    }
}

/// The panes of all tabs in order, the tiled panes of a tab before its floating
/// ones.
pub open spec fn all_panes(tabs: Seq<TabView>) -> Seq<PaneView>
    decreases tabs.len(),
{
    if tabs.len() == 0 {
        Seq::empty()
    } else {
        all_panes(tabs.drop_last()) + tabs.last().tiled_panes + tabs.last().floating_panes
    }
}

spec fn ref_views(panes: Seq<&PaneLayoutMetadata>) -> Seq<PaneView> {
    panes.map_values(|p: &PaneLayoutMetadata| p@)
}

fn gather<'a>(panes: &'a Vec<PaneLayoutMetadata>, all: &mut Vec<&'a PaneLayoutMetadata>)
    ensures
        ref_views(final(all)@) == ref_views(old(all)@) + pane_views(panes@),
{
    let ghost before = ref_views(all@);
    let ghost whole = pane_views(panes@);
    let mut i: usize = 0;
    assert(ref_views(all@) =~= before + whole.take(0));
    while i < panes.len()
        invariant
            i <= panes@.len(),
            whole == pane_views(panes@),
            ref_views(all@) == before + whole.take(i as int),
        decreases panes@.len() - i,
    {
        let ghost sofar = all@;
        all.push(&panes[i]);
        assert(ref_views(all@) =~= ref_views(sofar).push(whole[i as int]));
        assert(whole.take(i + 1) =~= whole.take(i as int).push(whole[i as int]));
        i += 1;
    }
    assert(whole.take(i as int) =~= whole);
}

impl SessionLayoutMetadata {
    /// The panes of all tabs in order.
    fn panes(&self) -> (all: Vec<&PaneLayoutMetadata>)
        ensures
            ref_views(all@) == all_panes(self@.tabs),
    {
        let mut all: Vec<&PaneLayoutMetadata> = Vec::new();
        let ghost tabs = self@.tabs;
        let mut i: usize = 0;
        assert(ref_views(all@) =~= all_panes(tabs.take(0)));
        while i < self.tabs.len()
            invariant
                i <= self.tabs@.len(),
                tabs == tab_views(self.tabs@),
                ref_views(all@) == all_panes(tabs.take(i as int)),
            decreases self.tabs@.len() - i,
        {
            gather(&self.tabs[i].tiled_panes, &mut all);
            gather(&self.tabs[i].floating_panes, &mut all);
            assert(tabs.take(i + 1).drop_last() =~= tabs.take(i as int));
            i += 1;
        }
        assert(tabs.take(i as int) =~= tabs);
        all
    }
}

/// The number of a pane that is a terminal.
pub open spec fn terminal_id() -> spec_fn(PaneView) -> Option<u32> {
    |p: PaneView|
        match p.id {
            PaneId::Terminal(id) => Some(id),
            PaneId::Plugin(_) => None,
        }
}

/// The number of a pane that is a plugin.
pub open spec fn plugin_id() -> spec_fn(PaneView) -> Option<u32> {
    |p: PaneView|
        match p.id {
            PaneId::Terminal(_) => None,
            PaneId::Plugin(id) => Some(id),
        }
}

/// Whether a command line is that of the default shell: its name alone.
pub open spec fn is_shell(
    shell: Option<Seq<char>>,
    command: Seq<char>,
    args: Seq<Seq<char>>,
) -> bool {
    shell == Some(command) && args.len() == 0
}

/// Whether a pane runs the default shell by name.
pub open spec fn runs_shell(pane: PaneView, shell: Option<Seq<char>>) -> bool {
    pane.run matches Some(RunView::Command(c)) && is_shell(shell, c.command, c.args)
}

/// Whether a pane runs a command other than the default shell.
pub open spec fn runs_other_command(pane: PaneView, shell: Option<Seq<char>>) -> bool {
    pane.run matches Some(RunView::Command(c)) && !is_shell(shell, c.command, c.args)
}

/// Whether a plugin comes and goes by itself, so that a pane of it tells
/// nothing of how a session was changed.
pub open spec fn is_transient(location: Seq<char>) -> bool {
    ||| location == "zellij:about"@
    ||| location == "zellij:session-manager"@
    ||| location == "zellij:plugin-manager"@
    ||| location == "zellij:configuration-manager"@
    ||| location == "zellij:share"@
}

/// Whether a pane counts as one that the user opened.
pub open spec fn counts() -> spec_fn(PaneView) -> bool {
    |p: PaneView| !(p.run matches Some(RunView::Plugin(plugin)) && is_transient(location_of(plugin)))
}

/// Whether the layout of a session is another than the one it started from: a
/// pane was opened or closed, or one runs a command other than the default
/// shell.
pub open spec fn differs_from_base(session: SessionView) -> bool {
    let panes = all_panes(session.tabs);
    ||| panes.filter(counts()).len() != session.default_layout.panes
    ||| exists|i: int|
        0 <= i < panes.len() && runs_other_command(#[trigger] panes[i], session.default_shell)
}

impl SessionLayoutMetadata {
    /// The numbers of all terminal panes in order.
    pub fn all_terminal_ids(&self) -> (ids: Vec<u32>)
        ensures
            ids@ == all_panes(self@.tabs).filter_map(terminal_id()),
    {
        let all = self.panes();
        let ghost views = all_panes(self@.tabs);
        let mut ids: Vec<u32> = Vec::new();
        let mut i: usize = 0;
        while i < all.len()
            invariant
                i <= all@.len(),
                views == ref_views(all@),
                ids@ == views.take(i as int).filter_map(terminal_id()),
            decreases all@.len() - i,
        {
            assert(views[i as int] == all@[i as int]@);
            proof {
                views.lemma_filter_map_take_succ(terminal_id(), i as int);
            }
            if let PaneId::Terminal(id) = all[i].id {
                ids.push(id);
            }
            i += 1;
        }
        assert(views.take(i as int) =~= views);
        ids
    }

    /// The numbers of all plugin panes in order.
    pub fn all_plugin_ids(&self) -> (ids: Vec<u32>)
        ensures
            ids@ == all_panes(self@.tabs).filter_map(plugin_id()),
    {
        let all = self.panes();
        let ghost views = all_panes(self@.tabs);
        let mut ids: Vec<u32> = Vec::new();
        let mut i: usize = 0;
        while i < all.len()
            invariant
                i <= all@.len(),
                views == ref_views(all@),
                ids@ == views.take(i as int).filter_map(plugin_id()),
            decreases all@.len() - i,
        {
            assert(views[i as int] == all@[i as int]@);
            proof {
                views.lemma_filter_map_take_succ(plugin_id(), i as int);
            }
            if let PaneId::Plugin(id) = all[i].id {
                ids.push(id);
            }
            i += 1;
        }
        assert(views.take(i as int) =~= views);
        ids
    }

    fn is_default_shell(
        default_shell: Option<&String>,
        command_name: &String,
        args: &Vec<String>,
    ) -> (r: bool)
        ensures
            r == (default_shell matches Some(shell) && shell@ == command_name@ && args@.len() == 0),
    {
        match default_shell {
            Some(shell) => same_text(shell.as_str(), command_name.as_str()) && args.is_empty(),
            None => false,
        }
    }

    /// Whether a pane is left out when panes are counted.
    fn should_exclude_from_count(&self, pane: &PaneLayoutMetadata) -> (r: bool)
        ensures
            r == !counts()(pane@),
    {
        if let Some(Run::Plugin(run_plugin)) = &pane.run {
            let location = run_plugin.location_string();
            let location = location.as_str();
            same_text(location, "zellij:about") || same_text(location, "zellij:session-manager")
                || same_text(location, "zellij:plugin-manager") || same_text(
                location,
                "zellij:configuration-manager",
            ) || same_text(location, "zellij:share")
        } else {
            false
        }
    }

    /// How many panes count.
    fn pane_count(&self) -> (n: usize)
        ensures
            n == all_panes(self@.tabs).filter(counts()).len(),
    {
        let all = self.panes();
        let ghost views = all_panes(self@.tabs);
        let mut n: usize = 0;
        let mut i: usize = 0;
        proof {
            reveal(Seq::filter);
        }
        while i < all.len()
            invariant
                i <= all@.len(),
                views == ref_views(all@),
                n == views.take(i as int).filter(counts()).len(),
                n <= i,
            decreases all@.len() - i,
        {
            assert(views[i as int] == all@[i as int]@);
            proof {
                reveal(Seq::filter);
                assert(views.take(i + 1).drop_last() =~= views.take(i as int));
            }
            if !self.should_exclude_from_count(all[i]) {
                n += 1;
            }
            i += 1;
        }
        assert(views.take(i as int) =~= views);
        n
    }

    /// Whether the layout of the session is another than the one it started
    /// from.
    pub fn is_dirty(&self) -> (dirty: bool)
        ensures
            dirty == differs_from_base(self@),
    {
        if self.pane_count() != self.default_layout.pane_count() {
            return true;
        }
        let all = self.panes();
        let ghost views = all_panes(self@.tabs);
        let mut i: usize = 0;
        while i < all.len()
            invariant
                i <= all@.len(),
                views == ref_views(all@),
                views == all_panes(self@.tabs),
                forall|j: int|
                    0 <= j < i ==> !runs_other_command(#[trigger] views[j], self@.default_shell),
            decreases all@.len() - i,
        {
            assert(views[i as int] == all@[i as int]@);
            if let Some(Run::Command(run_command)) = &all[i].run {
                if !Self::is_default_shell(
                    self.default_shell.as_ref(),
                    &run_command.command,
                    &run_command.args,
                ) {
                    return true;
                }
            }
            i += 1;
        }
        false
    }
}

/// A pane without what runs in it, where that is the default shell by name.
pub open spec fn without_shell(shell: Option<Seq<char>>) -> spec_fn(PaneView) -> PaneView {
    |p: PaneView|
        if runs_shell(p, shell) {
            PaneView { run: None, ..p }
        } else {
            p
        }
}

/// The default shell of a session that is told of one: the first that it was
/// told of.
pub open spec fn shell_from(known: Option<Seq<char>>, told: Seq<char>) -> Option<Seq<char>> {
    if known is Some {
        known
    } else {
        Some(told)
    }
}

/// A session that was told of a default shell.
pub open spec fn with_default_shell(session: SessionView, told: Seq<char>) -> SessionView {
    let shell = shell_from(session.default_shell, told);
    SessionView {
        default_shell: shell,
        tabs: each_pane(session.tabs, without_shell(shell)),
        ..session
    }
}

fn drop_shell(panes: &mut Vec<PaneLayoutMetadata>, shell: &Option<String>)
    ensures
        pane_views(final(panes)@) == pane_views(old(panes)@).map_values(
            without_shell(opt_text(*shell)),
        ),
{
    let ghost text = opt_text(*shell);
    let ghost before = pane_views(panes@);
    let mut i: usize = 0;
    while i < panes.len()
        invariant
            i <= panes@.len(),
            panes@.len() == before.len(),
            text == opt_text(*shell),
            forall|j: int| 0 <= j < i ==> (#[trigger] panes@[j])@ == without_shell(text)(before[j]),
            forall|j: int| i <= j < panes@.len() ==> (#[trigger] panes@[j])@ == before[j],
        decreases panes@.len() - i,
    {
        assert(panes@[i as int]@ == before[i as int]);
        let default = match &panes[i].run {
            Some(Run::Command(run_command)) => SessionLayoutMetadata::is_default_shell(
                shell.as_ref(),
                &run_command.command,
                &run_command.args,
            ),
            _ => false,
        };
        if default {
            panes[i].run = None;
        }
        i += 1;
    }
    assert(pane_views(panes@) =~= before.map_values(without_shell(text)));
}

impl SessionLayoutMetadata {
    /// A session without tabs, that started from a layout.
    pub fn new(default_layout: Box<Layout>) -> (session: Self)
        ensures
            session@ == (SessionView {
                default_layout: default_layout@,
                global_cwd: None,
                default_shell: None,
                default_editor: None,
                tabs: Seq::empty(),
            }),
    {
        let session = SessionLayoutMetadata {
            default_layout,
            global_cwd: None,
            default_shell: None,
            default_editor: None,
            tabs: Vec::new(),
        };
        assert(session@.tabs =~= Seq::empty());
        session
    }

    /// Adds a tab behind the others.
    pub fn add_tab(
        &mut self,
        name: String,
        is_focused: bool,
        hide_floating_panes: bool,
        tiled_panes: Vec<PaneLayoutMetadata>,
        floating_panes: Vec<PaneLayoutMetadata>,
    )
        ensures
            final(self)@ == (SessionView {
                tabs: old(self)@.tabs.push(
                    TabView {
                        name: Some(name@),
                        tiled_panes: pane_views(tiled_panes@),
                        floating_panes: pane_views(floating_panes@),
                        is_focused,
                        hide_floating_panes,
                    },
                ),
                ..old(self)@
            }),
    {
        let ghost before = self.tabs@;
        self.tabs.push(
            TabLayoutMetadata {
                name: Some(name),
                tiled_panes,
                floating_panes,
                is_focused,
                hide_floating_panes,
            },
        );
        assert(tab_views(self.tabs@) =~= tab_views(before).push(self.tabs@.last()@));
    }

    /// Tells the session of its default shell, unless it knows one, and takes
    /// that shell out of the panes that run it by name.
    pub fn update_default_shell(&mut self, default_shell: String)
        ensures
            final(self)@ == with_default_shell(old(self)@, default_shell@),
    {
        let ghost before = self@;
        if self.default_shell.is_none() {
            self.default_shell = Some(default_shell);
        }
        let ghost shell = shell_from(before.default_shell, default_shell@);
        let ghost goal = each_pane(before.tabs, without_shell(shell));
        let mut i: usize = 0;
        while i < self.tabs.len()
            invariant
                i <= self.tabs@.len(),
                self.tabs@.len() == before.tabs.len(),
                self@ == (SessionView { default_shell: shell, tabs: self@.tabs, ..before }),
                goal == each_pane(before.tabs, without_shell(shell)),
                forall|j: int| 0 <= j < i ==> (#[trigger] self.tabs@[j])@ == goal[j],
                forall|j: int|
                    i <= j < self.tabs@.len() ==> (#[trigger] self.tabs@[j])@ == before.tabs[j],
            decreases self.tabs@.len() - i,
        {
            assert(self.tabs@[i as int]@ == before.tabs[i as int]);
            drop_shell(&mut self.tabs[i].tiled_panes, &self.default_shell);
            drop_shell(&mut self.tabs[i].floating_panes, &self.default_shell);
            i += 1;
        }
        assert(self@.tabs =~= goal);
    }
}

/// Panes that are handed values by number, and the values that are left: the
/// first pane of a number takes its value.
pub open spec fn handed_panes<V>(
    panes: Seq<PaneView>,
    values: Map<u32, V>,
    number: spec_fn(PaneView) -> Option<u32>,
    put: spec_fn(PaneView, V) -> PaneView,
) -> (Seq<PaneView>, Map<u32, V>)
    decreases panes.len(),
{
    if panes.len() == 0 {
        (panes, values)
    } else {
        let (done, left) = handed_panes(panes.drop_last(), values, number, put);
        let pane = panes.last();
        match number(pane) {
            Some(id) if left.contains_key(id) => (done.push(put(pane, left[id])), left.remove(id)),
            _ => (done.push(pane), left),
        }
    }
}

/// Tabs whose panes are handed values by number, and the values that are left.
pub open spec fn handed_tabs<V>(
    tabs: Seq<TabView>,
    values: Map<u32, V>,
    number: spec_fn(PaneView) -> Option<u32>,
    put: spec_fn(PaneView, V) -> PaneView,
) -> (Seq<TabView>, Map<u32, V>)
    decreases tabs.len(),
{
    if tabs.len() == 0 {
        (tabs, values)
    } else {
        let (done, left) = handed_tabs(tabs.drop_last(), values, number, put);
        let tab = tabs.last();
        let (tiled_panes, left) = handed_panes(tab.tiled_panes, left, number, put);
        let (floating_panes, left) = handed_panes(tab.floating_panes, left, number, put);
        (done.push(TabView { tiled_panes, floating_panes, ..tab }), left)
    }
}

/// What runs in a terminal with this command line: nothing to speak of where
/// it is the default shell, else the command.
pub open spec fn run_of_command_line(
    line: Seq<Seq<char>>,
    shell: Option<Seq<char>>,
) -> Option<RunView>
    recommends
        line.len() > 0,
{
    if is_shell(shell, line[0], line.skip(1)) {
        None
    } else {
        Some(RunView::Command(RunCommandView { args: line.skip(1), ..bare_command(line[0]) }))
    }
}

/// A pane that is told its command line. An empty one tells nothing.
pub open spec fn with_command_line(
    shell: Option<Seq<char>>,
) -> spec_fn(PaneView, Vec<String>) -> PaneView {
    |p: PaneView, line: Vec<String>|
        if line@.len() == 0 {
            p
        } else {
            PaneView { run: run_of_command_line(texts(line@), shell), ..p }
        }
}

/// What runs in a terminal with this command line.
fn command_line_run(line: &Vec<String>, shell: &Option<String>) -> (run: Option<Run>)
    requires
        line@.len() > 0,
    ensures
        opt_run(run) == run_of_command_line(texts(line@), opt_text(*shell)),
{
    let ghost whole = texts(line@);
    let mut args: Vec<String> = Vec::new();
    let mut i: usize = 1;
    assert(texts(args@) =~= whole.subrange(1, 1));
    while i < line.len()
        invariant
            1 <= i <= line@.len(),
            whole == texts(line@),
            texts(args@) == whole.subrange(1, i as int),
        decreases line@.len() - i,
    {
        let ghost before = args@;
        let arg = line[i].clone();
        args.push(arg);
        assert(texts(args@) =~= texts(before).push(arg@));
        assert(whole.subrange(1, i + 1) =~= whole.subrange(1, i as int).push(arg@));
        i += 1;
    }
    assert(whole.subrange(1, i as int) =~= whole.skip(1));
    if SessionLayoutMetadata::is_default_shell(shell.as_ref(), &line[0], &args) {
        None
    } else {
        let mut run_command = RunCommand::new(line[0].clone());
        run_command.args = args;
        Some(Run::Command(run_command))
    }
}

fn hand_command_lines(
    panes: &mut Vec<PaneLayoutMetadata>,
    lines: &mut HashMap<u32, Vec<String>>,
    shell: &Option<String>,
)
    ensures
        (pane_views(final(panes)@), final(lines)@) == handed_panes(
            pane_views(old(panes)@),
            old(lines)@,
            terminal_id(),
            with_command_line(opt_text(*shell)),
        ),
{
    let ghost before = pane_views(panes@);
    let ghost values = lines@;
    let ghost put = with_command_line(opt_text(*shell));
    let mut i: usize = 0;
    assert(before.take(0) =~= Seq::empty());
    while i < panes.len()
        invariant
            i <= panes@.len(),
            panes@.len() == before.len(),
            put == with_command_line(opt_text(*shell)),
            (pane_views(panes@).take(i as int), lines@) == handed_panes(
                before.take(i as int),
                values,
                terminal_id(),
                put,
            ),
            forall|j: int| i <= j < panes@.len() ==> (#[trigger] panes@[j])@ == before[j],
        decreases panes@.len() - i,
    {
        let ghost sofar = pane_views(panes@);
        assert(panes@[i as int]@ == before[i as int]);
        assert(before.take(i + 1).drop_last() =~= before.take(i as int));
        if let PaneId::Terminal(id) = panes[i].id {
            if let Some(line) = lines.remove(&id) {
                if line.len() > 0 {
                    panes[i].run = command_line_run(&line, shell);
                }
            }
        }
        assert(pane_views(panes@).take(i + 1) =~= sofar.take(i as int).push(
            panes@[i as int]@,
        ));
        i += 1;
    }
    assert(pane_views(panes@).take(i as int) =~= pane_views(panes@));
    assert(before.take(i as int) =~= before);
}

impl SessionLayoutMetadata {
    /// Tells the session the command lines that run in its terminals.
    pub fn update_terminal_commands(
        &mut self,
        terminal_ids_to_commands: HashMap<u32, Vec<String>>,
    )
        ensures
            final(self)@ == (SessionView {
                tabs: handed_tabs(
                    old(self)@.tabs,
                    terminal_ids_to_commands@,
                    terminal_id(),
                    with_command_line(old(self)@.default_shell),
                ).0,
                ..old(self)@
            }),
    {
        let ghost before = self@;
        let mut lines = terminal_ids_to_commands;
        let ghost values = lines@;
        let ghost put = with_command_line(before.default_shell);
        let mut i: usize = 0;
        assert(before.tabs.take(0) =~= Seq::empty());
        while i < self.tabs.len()
            invariant
                i <= self.tabs@.len(),
                self.tabs@.len() == before.tabs.len(),
                self@ == (SessionView { tabs: self@.tabs, ..before }),
                put == with_command_line(before.default_shell),
                (self@.tabs.take(i as int), lines@) == handed_tabs(
                    before.tabs.take(i as int),
                    values,
                    terminal_id(),
                    put,
                ),
                forall|j: int|
                    i <= j < self.tabs@.len() ==> (#[trigger] self.tabs@[j])@ == before.tabs[j],
            decreases self.tabs@.len() - i,
        {
            let ghost sofar = self@.tabs;
            assert(self.tabs@[i as int]@ == before.tabs[i as int]);
            assert(before.tabs.take(i + 1).drop_last() =~= before.tabs.take(i as int));
            hand_command_lines(&mut self.tabs[i].tiled_panes, &mut lines, &self.default_shell);
            hand_command_lines(&mut self.tabs[i].floating_panes, &mut lines, &self.default_shell);
            assert(self@.tabs.take(i + 1) =~= sofar.take(i as int).push(self.tabs@[i as int]@));
            i += 1;
        }
        assert(self@.tabs.take(i as int) =~= self@.tabs);
        assert(before.tabs.take(i as int) =~= before.tabs);
    }
}

/// The directories among the values of a map.
pub open spec fn directories(cwds: Map<u32, String>) -> Set<Seq<char>> {
    cwds.values().map(|cwd: String| cwd@)
}

/// What a pane is told of its directory: the path relative to the directory
/// that all panes share, or the whole path where they share none.
pub open spec fn told_directory(cwd: Seq<char>, shared: Option<Seq<char>>) -> Seq<char> {
    match shared {
        Some(base) => match relative_to(cwd, base) {
            Some(rest) => rest,
            None => cwd,
        },
        None => cwd,
    }
}

/// A pane that is told its directory.
pub open spec fn with_directory(
    shared: Option<Seq<char>>,
) -> spec_fn(PaneView, String) -> PaneView {
    |p: PaneView, cwd: String| PaneView { cwd: Some(told_directory(cwd@, shared)), ..p }
}

/// A session that is told the directories of its terminals. What these share
/// becomes the directory of the session; sharing nothing leaves that as it was.
pub open spec fn with_directories(session: SessionView, cwds: Map<u32, String>) -> SessionView {
    let shared = common_ancestor(directories(cwds));
    SessionView {
        global_cwd: if shared is Some {
            shared
        } else {
            session.global_cwd
        },
        tabs: handed_tabs(session.tabs, cwds, terminal_id(), with_directory(shared)).0,
        ..session
    }
}

/// The directory that the values of a map share.
fn shared_directory(cwds: &HashMap<u32, String>) -> (shared: Option<String>)
    ensures
        opt_text(shared) == common_ancestor(directories(cwds@)),
{
    let mut paths: Vec<String> = Vec::new();
    let ghost all = cwds.values().remaining();
    for cwd in it: cwds.values()
        invariant
            it.seq() == all,
            paths@ == all.unref().take(it.index()),
    {
        paths.push(cwd.clone());
    }
    proof {
        assert(paths@ =~= all.unref());
        let set = texts(paths@).to_set();
        assert forall|d: Seq<char>| set.contains(d) <==> directories(cwds@).contains(d) by {
            if set.contains(d) {
                let i = choose|i: int| 0 <= i < texts(paths@).len() && texts(paths@)[i] == d;
                assert(paths@.to_set().contains(paths@[i]));
                assert(cwds@.values().contains(paths@[i]));
            }
            if directories(cwds@).contains(d) {
                let cwd = choose|cwd: String| #[trigger] cwds@.values().contains(cwd) && cwd@ == d;
                assert(paths@.to_set().contains(cwd));
                let i = choose|i: int| 0 <= i < paths@.len() && paths@[i] == cwd;
                assert(texts(paths@)[i] == d);
            }
        }
        assert(set =~= directories(cwds@));
    }
    common_path_all(&paths)
}

/// What a pane is told of its directory.
fn tell_directory(cwd: String, shared: &Option<String>) -> (told: String)
    ensures
        told@ == told_directory(cwd@, opt_text(*shared)),
{
    match shared {
        Some(base) => match strip_prefix(cwd.as_str(), base.as_str()) {
            Some(rest) => rest,
            None => cwd,
        },
        None => cwd,
    }
}

fn hand_directories(
    panes: &mut Vec<PaneLayoutMetadata>,
    cwds: &mut HashMap<u32, String>,
    shared: &Option<String>,
)
    ensures
        (pane_views(final(panes)@), final(cwds)@) == handed_panes(
            pane_views(old(panes)@),
            old(cwds)@,
            terminal_id(),
            with_directory(opt_text(*shared)),
        ),
{
    let ghost before = pane_views(panes@);
    let ghost values = cwds@;
    let ghost put = with_directory(opt_text(*shared));
    let mut i: usize = 0;
    assert(before.take(0) =~= Seq::empty());
    while i < panes.len()
        invariant
            i <= panes@.len(),
            panes@.len() == before.len(),
            put == with_directory(opt_text(*shared)),
            (pane_views(panes@).take(i as int), cwds@) == handed_panes(
                before.take(i as int),
                values,
                terminal_id(),
                put,
            ),
            forall|j: int| i <= j < panes@.len() ==> (#[trigger] panes@[j])@ == before[j],
        decreases panes@.len() - i,
    {
        let ghost sofar = pane_views(panes@);
        assert(panes@[i as int]@ == before[i as int]);
        assert(before.take(i + 1).drop_last() =~= before.take(i as int));
        if let PaneId::Terminal(id) = panes[i].id {
            if let Some(cwd) = cwds.remove(&id) {
                panes[i].cwd = Some(tell_directory(cwd, shared));
            }
        }
        assert(pane_views(panes@).take(i + 1) =~= sofar.take(i as int).push(
            panes@[i as int]@,
        ));
        i += 1;
    }
    assert(pane_views(panes@).take(i as int) =~= pane_views(panes@));
    assert(before.take(i as int) =~= before);
}

impl SessionLayoutMetadata {
    /// Tells the session the directories of its terminals.
    pub fn update_terminal_cwds(&mut self, terminal_ids_to_cwds: HashMap<u32, String>)
        ensures
            final(self)@ == with_directories(old(self)@, terminal_ids_to_cwds@),
    {
        let ghost before = self@;
        let mut cwds = terminal_ids_to_cwds;
        let ghost values = cwds@;
        let shared = shared_directory(&cwds);
        if shared.is_some() {
            self.global_cwd = copy_opt_text(&shared);
        }
        let ghost middle = self@;
        let ghost put = with_directory(opt_text(shared));
        let mut i: usize = 0;
        assert(before.tabs.take(0) =~= Seq::empty());
        while i < self.tabs.len()
            invariant
                i <= self.tabs@.len(),
                self.tabs@.len() == before.tabs.len(),
                self@ == (SessionView { tabs: self@.tabs, ..middle }),
                put == with_directory(opt_text(shared)),
                (self@.tabs.take(i as int), cwds@) == handed_tabs(
                    before.tabs.take(i as int),
                    values,
                    terminal_id(),
                    put,
                ),
                forall|j: int|
                    i <= j < self.tabs@.len() ==> (#[trigger] self.tabs@[j])@ == before.tabs[j],
            decreases self.tabs@.len() - i,
        {
            let ghost sofar = self@.tabs;
            assert(self.tabs@[i as int]@ == before.tabs[i as int]);
            assert(before.tabs.take(i + 1).drop_last() =~= before.tabs.take(i as int));
            hand_directories(&mut self.tabs[i].tiled_panes, &mut cwds, &shared);
            hand_directories(&mut self.tabs[i].floating_panes, &mut cwds, &shared);
            assert(self@.tabs.take(i + 1) =~= sofar.take(i as int).push(self.tabs@[i as int]@));
            i += 1;
        }
        assert(self@.tabs.take(i as int) =~= self@.tabs);
        assert(before.tabs.take(i as int) =~= before.tabs);
    }
}

/// A pane that is told the plugin in it.
pub open spec fn with_plugin() -> spec_fn(PaneView, RunPlugin) -> PaneView {
    |p: PaneView, plugin: RunPlugin|
        PaneView { run: Some(RunView::Plugin(PluginView::RunPlugin(plugin@))), ..p }
}

fn hand_plugins(panes: &mut Vec<PaneLayoutMetadata>, plugins: &mut HashMap<u32, RunPlugin>)
    ensures
        (pane_views(final(panes)@), final(plugins)@) == handed_panes(
            pane_views(old(panes)@),
            old(plugins)@,
            plugin_id(),
            with_plugin(),
        ),
{
    let ghost before = pane_views(panes@);
    let ghost values = plugins@;
    let mut i: usize = 0;
    assert(before.take(0) =~= Seq::empty());
    while i < panes.len()
        invariant
            i <= panes@.len(),
            panes@.len() == before.len(),
            (pane_views(panes@).take(i as int), plugins@) == handed_panes(
                before.take(i as int),
                values,
                plugin_id(),
                with_plugin(),
            ),
            forall|j: int| i <= j < panes@.len() ==> (#[trigger] panes@[j])@ == before[j],
        decreases panes@.len() - i,
    {
        let ghost sofar = pane_views(panes@);
        assert(panes@[i as int]@ == before[i as int]);
        assert(before.take(i + 1).drop_last() =~= before.take(i as int));
        if let PaneId::Plugin(id) = panes[i].id {
            if let Some(plugin) = plugins.remove(&id) {
                panes[i].run = Some(Run::Plugin(RunPluginOrAlias::RunPlugin(plugin)));
            }
        }
        assert(pane_views(panes@).take(i + 1) =~= sofar.take(i as int).push(
            panes@[i as int]@,
        ));
        i += 1;
    }
    assert(pane_views(panes@).take(i as int) =~= pane_views(panes@));
    assert(before.take(i as int) =~= before);
}

impl SessionLayoutMetadata {
    /// Tells the session the plugins in its plugin panes.
    pub fn update_plugin_cmds(&mut self, plugin_ids_to_run_plugins: HashMap<u32, RunPlugin>)
        ensures
            final(self)@ == (SessionView {
                tabs: handed_tabs(
                    old(self)@.tabs,
                    plugin_ids_to_run_plugins@,
                    plugin_id(),
                    with_plugin(),
                ).0,
                ..old(self)@
            }),
    {
        let ghost before = self@;
        let mut plugins = plugin_ids_to_run_plugins;
        let ghost values = plugins@;
        let mut i: usize = 0;
        assert(before.tabs.take(0) =~= Seq::empty());
        while i < self.tabs.len()
            invariant
                i <= self.tabs@.len(),
                self.tabs@.len() == before.tabs.len(),
                self@ == (SessionView { tabs: self@.tabs, ..before }),
                (self@.tabs.take(i as int), plugins@) == handed_tabs(
                    before.tabs.take(i as int),
                    values,
                    plugin_id(),
                    with_plugin(),
                ),
                forall|j: int|
                    i <= j < self.tabs@.len() ==> (#[trigger] self.tabs@[j])@ == before.tabs[j],
            decreases self.tabs@.len() - i,
        {
            let ghost sofar = self@.tabs;
            assert(self.tabs@[i as int]@ == before.tabs[i as int]);
            assert(before.tabs.take(i + 1).drop_last() =~= before.tabs.take(i as int));
            hand_plugins(&mut self.tabs[i].tiled_panes, &mut plugins);
            hand_plugins(&mut self.tabs[i].floating_panes, &mut plugins);
            assert(self@.tabs.take(i + 1) =~= sofar.take(i as int).push(self.tabs@[i as int]@));
            i += 1;
        }
        assert(self@.tabs.take(i as int) =~= self@.tabs);
        assert(before.tabs.take(i as int) =~= before.tabs);
    }

    /// Sets the default editor: the one that is given, else the one that the
    /// environment names as `EDITOR` or as `VISUAL`, else `vi`.
    pub fn update_default_editor(
        &mut self,
        default_editor: &Option<String>,
        editor: Option<String>,
        visual: Option<String>,
    )
        ensures
            final(self)@ == (SessionView {
                default_editor: Some(
                    match (opt_text(*default_editor), opt_text(editor), opt_text(visual)) {
                        (Some(given), _, _) => given,
                        (None, Some(named), _) => named,
                        (None, None, Some(named)) => named,
                        (None, None, None) => "vi"@,
                    },
                ),
                ..old(self)@
            }),
    {
        let chosen = match default_editor {
            Some(given) => given.clone(),
            None => match editor {
                Some(named) => named,
                None => match visual {
                    Some(named) => named,
                    None => "vi".to_string(),
                },
            },
        };
        self.default_editor = Some(chosen);
    }

    /// Looks up the plugins behind the aliases in the layout that the session
    /// started from.
    pub fn update_plugin_aliases_in_default_layout(&mut self, plugin_aliases: &PluginAliases)
        ensures
            final(self)@ == (SessionView {
                default_layout: resolved_layout(old(self)@.default_layout, plugin_aliases@),
                ..old(self)@
            }),
    {
        self.default_layout.populate_plugin_aliases_in_layout(plugin_aliases);
    }
}

/// The command line that runs in a pane, its parts with blanks between them.
pub open spec fn command_text(run: Option<RunView>) -> Option<Seq<char>> {
    match run {
        Some(RunView::Command(c)) => Some(
            if c.args.len() == 0 {
                c.command
            } else {
                c.command + " "@ + joined(c.args, " "@)
            },
        ),
        _ => None,
    }
}

fn text_of_command(run: &Option<Run>) -> (s: Option<String>)
    ensures
        opt_text(s) == command_text(opt_run(*run)),
{
    match run {
        Some(Run::Command(c)) => {
            let mut s = c.command.clone();
            if !c.args.is_empty() {
                s.append(" ");
                s.append(join_texts(&c.args, " ").as_str());
            }
            Some(s)
        },
        _ => None,
    }
}

/// The process in a pane; only terminals have one.
pub open spec fn process_of(id: PaneId, pids: Map<u32, i32>) -> Option<i32> {
    match id {
        PaneId::Terminal(n) if pids.contains_key(n) => Some(pids[n]),
        _ => None,
    }
}

/// What is told of a pane of the tab at `tab_index`, field by field. In a
/// stack, the pane whose rows are not fixed is the expanded one.
pub open spec fn pane_fields(
    tab_index: int,
    tab: TabView,
    pane: PaneView,
    is_floating: bool,
    pids: Map<u32, i32>,
) -> Seq<Seq<char>> {
    let stacked = pane.geom.stacked is Some;
    seq![
        field("tab_name"@, quoted(name_of(tab))),
        field("tab_index"@, decimal(tab_index as nat)),
        field("is_tab_focused"@, truth(tab.is_focused)),
        field("pane_id"@, quoted(pane_id_text(pane.id))),
        field("title"@, quoted_or_null(pane.title)),
        field("command"@, quoted_or_null(command_text(pane.run))),
        field("cwd"@, quoted_or_null(pane.cwd)),
        field("pid"@, match process_of(pane.id, pids) {
            Some(pid) => decimal_int(pid as int),
            None => "null"@,
        }),
        field("is_focused"@, truth(pane.is_focused)),
        field("is_stacked"@, truth(stacked)),
        field("is_expanded"@, truth(stacked && !(pane.geom.rows.constraint is Fixed))),
        field("is_floating"@, truth(is_floating)),
    ]
}

/// What is told of a pane, as a JSON object.
pub open spec fn pane_object(
    tab_index: int,
    tab: TabView,
    pane: PaneView,
    is_floating: bool,
    pids: Map<u32, i32>,
) -> Seq<char> {
    object(pane_fields(tab_index, tab, pane, is_floating, pids))
}

/// What is told of all panes of a tab: the tiled ones, and the floating ones
/// after them.
pub open spec fn tab_objects(tab_index: int, tab: TabView, pids: Map<u32, i32>) -> Seq<Seq<char>> {
    tab.tiled_panes.map_values(|p: PaneView| pane_object(tab_index, tab, p, false, pids))
        + tab.floating_panes.map_values(|p: PaneView| pane_object(tab_index, tab, p, true, pids))
}

/// What is told of all panes of the tabs.
pub open spec fn session_objects(tabs: Seq<TabView>, pids: Map<u32, i32>) -> Seq<Seq<char>>
    decreases tabs.len(),
{
    if tabs.len() == 0 {
        Seq::empty()
    } else {
        session_objects(tabs.drop_last(), pids) + tab_objects(tabs.len() - 1, tabs.last(), pids)
    }
}

fn child_pid(id: PaneId, pids: &HashMap<u32, i32>) -> (pid: Option<i32>)
    ensures
        pid == process_of(id, pids@),
{
    match id {
        PaneId::Terminal(n) => match pids.get(&n) {
            Some(pid) => Some(*pid),
            None => None,
        },
        PaneId::Plugin(_) => None,
    }
}

impl TabLayoutMetadata {
    fn pane_json(
        &self,
        tab_index: usize,
        pane: &PaneLayoutMetadata,
        is_floating: bool,
        pids: &HashMap<u32, i32>,
    ) -> (json: String)
        ensures
            json@ == pane_object(tab_index as int, self@, pane@, is_floating, pids@),
    {
        let name = match &self.name {
            Some(name) => json_string(name.as_str()),
            None => json_string(""),
        };
        let pid = match child_pid(pane.id, pids) {
            Some(pid) => decimal_int_text(pid),
            None => "null".to_string(),
        };
        let is_stacked = pane.geom.is_stacked();
        let is_expanded = is_stacked && !pane.geom.rows.is_fixed();
        let mut fields: Vec<String> = Vec::new();
        fields.push(text_of_field("tab_name", name));
        fields.push(text_of_field("tab_index", decimal_text(tab_index as u64)));
        fields.push(text_of_field("is_tab_focused", text_of_truth(self.is_focused)));
        fields.push(text_of_field("pane_id", json_string(text_of_pane_id(pane.id).as_str())));
        fields.push(text_of_field("title", json_opt_string(&pane.title)));
        fields.push(text_of_field("command", json_opt_string(&text_of_command(&pane.run))));
        fields.push(text_of_field("cwd", json_opt_string(&pane.cwd)));
        fields.push(text_of_field("pid", pid));
        fields.push(text_of_field("is_focused", text_of_truth(pane.is_focused)));
        fields.push(text_of_field("is_stacked", text_of_truth(is_stacked)));
        fields.push(text_of_field("is_expanded", text_of_truth(is_expanded)));
        fields.push(text_of_field("is_floating", text_of_truth(is_floating)));
        proof {
            reveal_strlit("");
            assert(""@ =~= Seq::empty());
            assert(texts(fields@) =~= pane_fields(
                tab_index as int,
                self@,
                pane@,
                is_floating,
                pids@,
            ));
        }
        text_of_object(&fields)
    }

    fn push_pane_jsons(
        &self,
        tab_index: usize,
        panes: &Vec<PaneLayoutMetadata>,
        is_floating: bool,
        pids: &HashMap<u32, i32>,
        jsons: &mut Vec<String>,
    )
        ensures
            texts(final(jsons)@) == texts(old(jsons)@) + pane_views(panes@).map_values(
                |p: PaneView| pane_object(tab_index as int, self@, p, is_floating, pids@),
            ),
    {
        let ghost before = texts(jsons@);
        let ghost goal = pane_views(panes@).map_values(
            |p: PaneView| pane_object(tab_index as int, self@, p, is_floating, pids@),
        );
        let mut i: usize = 0;
        assert(texts(jsons@) =~= before + goal.take(0));
        while i < panes.len()
            invariant
                i <= panes@.len(),
                goal == pane_views(panes@).map_values(
                    |p: PaneView| pane_object(tab_index as int, self@, p, is_floating, pids@),
                ),
                texts(jsons@) == before + goal.take(i as int),
            decreases panes@.len() - i,
        {
            let ghost sofar = jsons@;
            let json = self.pane_json(tab_index, &panes[i], is_floating, pids);
            jsons.push(json);
            assert(texts(jsons@) =~= texts(sofar).push(json@));
            assert(goal.take(i + 1) =~= goal.take(i as int).push(json@));
            i += 1;
        }
        assert(goal.take(i as int) =~= goal);
    }
}

impl SessionLayoutMetadata {
    /// Lists all panes as a JSON array, with the processes that run in the
    /// terminals.
    pub fn list_panes_metadata(&self, id_to_child_pid: &HashMap<u32, i32>) -> (json: String)
        ensures
            json@ == array(session_objects(self@.tabs, id_to_child_pid@)),
    {
        let ghost tabs = self@.tabs;
        let mut panes: Vec<String> = Vec::new();
        let mut i: usize = 0;
        assert(texts(panes@) =~= session_objects(tabs.take(0), id_to_child_pid@));
        while i < self.tabs.len()
            invariant
                i <= self.tabs@.len(),
                tabs == tab_views(self.tabs@),
                texts(panes@) == session_objects(tabs.take(i as int), id_to_child_pid@),
            decreases self.tabs@.len() - i,
        {
            let ghost before = texts(panes@);
            let tab = &self.tabs[i];
            tab.push_pane_jsons(i, &tab.tiled_panes, false, id_to_child_pid, &mut panes);
            tab.push_pane_jsons(i, &tab.floating_panes, true, id_to_child_pid, &mut panes);
            assert(tabs.take(i + 1).drop_last() =~= tabs.take(i as int));
            assert(texts(panes@) =~= before + tab_objects(i as int, tab@, id_to_child_pid@));
            i += 1;
        }
        assert(tabs.take(i as int) =~= tabs);
        text_of_array(&panes)
    }
}

/// The panes of a tab that are in front.
pub open spec fn front_panes(tab: TabView) -> Seq<PaneView> {
    if tab.hide_floating_panes {
        tab.tiled_panes
    } else {
        tab.floating_panes
    }
}

/// The clients that focus a pane, each with that pane.
pub open spec fn clients_at(pane: PaneView) -> Map<ClientId, ClientView> {
    Map::new(
        |id: ClientId| pane.focused_clients.contains(id),
        |id: ClientId| ClientView { pane_id: pane.id, command: pane.run },
    )
}

/// The clients that focus one of the panes, each with the last that it focuses.
pub open spec fn clients_among(panes: Seq<PaneView>) -> Map<ClientId, ClientView>
    decreases panes.len(),
{
    if panes.len() == 0 {
        Map::empty()
    } else {
        clients_among(panes.drop_last()).union_prefer_right(clients_at(panes.last()))
    }
}

/// The panes in front, of all tabs in order.
pub open spec fn all_front_panes(tabs: Seq<TabView>) -> Seq<PaneView>
    decreases tabs.len(),
{
    if tabs.len() == 0 {
        Seq::empty()
    } else {
        all_front_panes(tabs.drop_last()) + front_panes(tabs.last())
    }
}

fn add_clients_at(
    pane: &PaneLayoutMetadata,
    clients: &mut BTreeMap<ClientId, ClientMetadata>,
)
    ensures
        client_views(final(clients)@) == client_views(old(clients)@).union_prefer_right(
            clients_at(pane@),
        ),
{
    let ghost before = client_views(clients@);
    let ghost client = ClientView { pane_id: pane@.id, command: pane@.run };
    let mut i: usize = 0;
    while i < pane.focused_clients.len()
        invariant
            i <= pane.focused_clients@.len(),
            client == (ClientView { pane_id: pane@.id, command: pane@.run }),
            forall|id: ClientId| #[trigger]
                client_views(clients@).contains_key(id) <==> before.contains_key(id)
                    || pane.focused_clients@.take(i as int).contains(id),
            forall|id: ClientId|
                client_views(clients@).contains_key(id) ==> #[trigger] client_views(clients@)[id]
                    == (if pane.focused_clients@.take(i as int).contains(id) {
                    client
                } else {
                    before[id]
                }),
        decreases pane.focused_clients@.len() - i,
    {
        let id = pane.focused_clients[i];
        let ghost seen = pane.focused_clients@.take(i as int);
        set_client(
            clients,
            id,
            ClientMetadata::new(pane.id, copy_opt_run(&pane.run)),
        );
        assert(pane.focused_clients@.take(i + 1) =~= seen.push(id));
        assert forall|k: ClientId| #[trigger] seen.push(id).contains(k) <==> seen.contains(k) || k
            == id by {
            vstd::seq_lib::lemma_seq_contains_after_push(seen, id, k);
        }
        i += 1;
    }
    assert(pane.focused_clients@.take(i as int) =~= pane.focused_clients@);
    assert(client_views(clients@) =~= before.union_prefer_right(clients_at(pane@)));
}

impl SessionLayoutMetadata {
    /// The panes in front, of all tabs in order.
    fn panes_in_front(&self) -> (all: Vec<&PaneLayoutMetadata>)
        ensures
            ref_views(all@) == all_front_panes(self@.tabs),
    {
        let mut all: Vec<&PaneLayoutMetadata> = Vec::new();
        let ghost tabs = self@.tabs;
        let mut i: usize = 0;
        assert(ref_views(all@) =~= all_front_panes(tabs.take(0)));
        while i < self.tabs.len()
            invariant
                i <= self.tabs@.len(),
                tabs == tab_views(self.tabs@),
                ref_views(all@) == all_front_panes(tabs.take(i as int)),
            decreases self.tabs@.len() - i,
        {
            if self.tabs[i].hide_floating_panes {
                gather(&self.tabs[i].tiled_panes, &mut all);
            } else {
                gather(&self.tabs[i].floating_panes, &mut all);
            }
            assert(tabs.take(i + 1).drop_last() =~= tabs.take(i as int));
            i += 1;
        }
        assert(tabs.take(i as int) =~= tabs);
        all
    }

    /// What each client has in front of it.
    pub fn all_clients_metadata(&self) -> (clients: BTreeMap<ClientId, ClientMetadata>)
        ensures
            client_views(clients@) == clients_among(all_front_panes(self@.tabs)),
    {
        let panes = self.panes_in_front();
        let ghost views = all_front_panes(self@.tabs);
        let mut clients: BTreeMap<ClientId, ClientMetadata> = BTreeMap::new();
        let mut i: usize = 0;
        assert(client_views(clients@) =~= clients_among(views.take(0)));
        while i < panes.len()
            invariant
                i <= panes@.len(),
                views == ref_views(panes@),
                client_views(clients@) == clients_among(views.take(i as int)),
            decreases panes@.len() - i,
        {
            assert(views[i as int] == panes@[i as int]@);
            add_clients_at(panes[i], &mut clients);
            assert(views.take(i + 1).drop_last() =~= views.take(i as int));
            i += 1;
        }
        assert(views.take(i as int) =~= views);
        clients
    }

    /// The table of all clients and what they have in front of them.
    pub fn list_clients_metadata(&self) -> (table: String)
        ensures
            table@ == client_table(
                clients_among(all_front_panes(self@.tabs)),
                self@.default_editor,
            ),
    {
        ClientMetadata::render_many(self.all_clients_metadata(), &self.default_editor)
    }
}

/// What is written down of a pane.
pub open spec fn pane_manifest(pane: PaneView) -> PaneManifestView {
    PaneManifestView {
        geom: pane.geom,
        run: pane.run,
        cwd: pane.cwd,
        is_borderless: pane.is_borderless,
        title: pane.title,
        is_focused: pane.is_focused,
        pane_contents: pane.pane_contents,
        preferred_terminal_id: terminal_id()(pane),
    }
}

/// What is written down of a tab.
pub open spec fn tab_manifest(tab: TabView) -> TabManifestView {
    TabManifestView {
        tiled_panes: tab.tiled_panes.map_values(|p: PaneView| pane_manifest(p)),
        floating_panes: tab.floating_panes.map_values(|p: PaneView| pane_manifest(p)),
        is_focused: tab.is_focused,
        hide_floating_panes: tab.hide_floating_panes,
    }
}

/// The name of a tab, which is empty where it has none.
pub open spec fn name_of(tab: TabView) -> Seq<char> {
    match tab.name {
        Some(name) => name,
        None => Seq::empty(),
    }
}

/// What is written down of a session.
pub open spec fn session_manifest(session: SessionView) -> GlobalManifestView {
    GlobalManifestView {
        default_layout: session.default_layout,
        default_shell: session.default_shell,
        global_cwd: session.global_cwd,
        tabs: session.tabs.map_values(|t: TabView| (name_of(t), tab_manifest(t))),
    }
}

impl From<PaneLayoutMetadata> for PaneLayoutManifest {
    fn from(pane: PaneLayoutMetadata) -> (r: PaneLayoutManifest)
        ensures
            r@ == pane_manifest(pane@),
    {
        let preferred_terminal_id = match pane.id {
            PaneId::Terminal(id) => Some(id),
            PaneId::Plugin(_) => None,
        };
        PaneLayoutManifest {
            geom: pane.geom,
            run: pane.run,
            cwd: pane.cwd,
            is_borderless: pane.is_borderless,
            title: pane.title,
            is_focused: pane.is_focused,
            pane_contents: pane.pane_contents,
            preferred_terminal_id,
        }
    }
}

impl vstd::std_specs::convert::FromSpecImpl<PaneLayoutMetadata> for PaneLayoutManifest {
    open spec fn obeys_from_spec() -> bool {
        false
    }

    open spec fn from_spec(pane: PaneLayoutMetadata) -> PaneLayoutManifest {
        arbitrary()
    }
}

fn pane_manifests(panes: Vec<PaneLayoutMetadata>) -> (r: Vec<PaneLayoutManifest>)
    ensures
        pane_manifest_views(r@) == pane_views(panes@).map_values(|p: PaneView| pane_manifest(p)),
{
    let ghost all = panes@;
    let ghost goal = pane_views(all).map_values(|p: PaneView| pane_manifest(p));
    let mut r: Vec<PaneLayoutManifest> = Vec::new();
    assert(pane_manifest_views(r@) =~= goal.take(0));
    for pane in it: panes
        invariant
            it.seq() == all,
            goal == pane_views(all).map_values(|p: PaneView| pane_manifest(p)),
            pane_manifest_views(r@) == goal.take(it.index()),
    {
        let ghost before = r@;
        let manifest = PaneLayoutManifest::from(pane);
        r.push(manifest);
        assert(pane_manifest_views(r@) =~= pane_manifest_views(before).push(manifest@));
        assert(goal.take(it.index() + 1) =~= goal.take(it.index()).push(goal[it.index()]));
    }
    assert(goal.take(all.len() as int) =~= goal);
    r
}

impl From<TabLayoutMetadata> for TabLayoutManifest {
    fn from(tab: TabLayoutMetadata) -> (r: TabLayoutManifest)
        ensures
            r@ == tab_manifest(tab@),
    {
        TabLayoutManifest {
            tiled_panes: pane_manifests(tab.tiled_panes),
            floating_panes: pane_manifests(tab.floating_panes),
            is_focused: tab.is_focused,
            hide_floating_panes: tab.hide_floating_panes,
        }
    }
}

impl vstd::std_specs::convert::FromSpecImpl<TabLayoutMetadata> for TabLayoutManifest {
    open spec fn obeys_from_spec() -> bool {
        false
    }

    open spec fn from_spec(tab: TabLayoutMetadata) -> TabLayoutManifest {
        arbitrary()
    }
}

impl From<SessionLayoutMetadata> for GlobalLayoutManifest {
    fn from(session: SessionLayoutMetadata) -> (r: GlobalLayoutManifest)
        ensures
            r@ == session_manifest(session@),
    {
        let ghost all = session.tabs@;
        let ghost goal = session_manifest(session@).tabs;
        let mut tabs: Vec<(String, TabLayoutManifest)> = Vec::new();
        assert(named_tab_views(tabs@) =~= goal.take(0));
        for tab in it: session.tabs
            invariant
                it.seq() == all,
                goal == tab_views(all).map_values(|t: TabView| (name_of(t), tab_manifest(t))),
                named_tab_views(tabs@) == goal.take(it.index()),
        {
            let ghost before = tabs@;
            let name = match &tab.name {
                Some(name) => name.clone(),
                None => String::new(),
            };
            let manifest = TabLayoutManifest::from(tab);
            tabs.push((name, manifest));
            assert(name@ =~= name_of(tab@));
            assert(named_tab_views(tabs@) =~= named_tab_views(before).push((name@, manifest@)));
            assert(goal.take(it.index() + 1) =~= goal.take(it.index()).push(goal[it.index()]));
        }
        assert(goal.take(all.len() as int) =~= goal);
        GlobalLayoutManifest {
            default_layout: session.default_layout,
            default_shell: session.default_shell,
            global_cwd: session.global_cwd,
            tabs,
        }
    }
}

impl vstd::std_specs::convert::FromSpecImpl<SessionLayoutMetadata> for GlobalLayoutManifest {
    open spec fn obeys_from_spec() -> bool {
        false
    }

    open spec fn from_spec(session: SessionLayoutMetadata) -> GlobalLayoutManifest {
        arbitrary()
    }
}

} // verus!
