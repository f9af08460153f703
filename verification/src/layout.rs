//! Panes, what runs in them, and the layouts that they come from.

use crate::text::{opt_text, same_text, texts};
use vstd::prelude::*;

verus! {

/// A client that is attached to a session.
pub type ClientId = u16;

/// A pane: a terminal or a plugin, each numbered on its own.
#[derive(Clone, Copy, Debug, PartialEq, Eq, Structural)]
pub enum PaneId {
    Terminal(u32),
    Plugin(u32),
}

/// How the extent of a pane is given: as a number of cells, or as a share of
/// what there is, by the bits of its floating-point percentage.
#[derive(Clone, Copy, Debug, PartialEq, Eq, Structural)]
pub enum Constraint {
    Fixed(usize),
    Percent { bits: u64 },
}

/// The extent of a pane in one direction.
#[derive(Clone, Copy, Debug, PartialEq, Eq, Structural)]
pub struct Dimension {
    pub constraint: Constraint,
    pub inner: usize,
}

impl Dimension {
    /// Whether the extent is given as a number of cells.
    pub fn is_fixed(&self) -> (r: bool)
        ensures
            r == (self.constraint is Fixed),
    {
        match self.constraint {
            Constraint::Fixed(_) => true,
            Constraint::Percent { .. } => false,
        }
    }
}

/// Where a pane is and how large; in a stack, which one.
#[derive(Clone, Copy, Debug, PartialEq, Eq, Structural)]
pub struct PaneGeom {
    pub x: usize,
    pub y: usize,
    pub rows: Dimension,
    pub cols: Dimension,
    pub stacked: Option<usize>,
}

impl PaneGeom {
    /// Whether the pane is part of a stack.
    pub fn is_stacked(&self) -> (r: bool)
        ensures
            r == (self.stacked is Some),
    {
        self.stacked.is_some()
    }
}

/// A command line that runs in a terminal pane.
#[derive(Debug)]
pub struct RunCommand {
    pub command: String,
    pub args: Vec<String>,
    pub cwd: Option<String>,
    pub hold_on_close: bool,
    pub hold_on_start: bool,
}

/// A command line, with its texts as character sequences.
pub struct RunCommandView {
    pub command: Seq<char>,
    pub args: Seq<Seq<char>>,
    pub cwd: Option<Seq<char>>,
    pub hold_on_close: bool,
    pub hold_on_start: bool,
}

impl View for RunCommand {
    type V = RunCommandView;

    open spec fn view(&self) -> RunCommandView {
        RunCommandView {
            command: self.command@,
            args: texts(self.args@),
            cwd: opt_text(self.cwd),
            hold_on_close: self.hold_on_close,
            hold_on_start: self.hold_on_start,
        }
    }
}

/// A command without arguments, in no directory of its own.
pub open spec fn bare_command(command: Seq<char>) -> RunCommandView {
    RunCommandView {
        command,
        args: Seq::empty(),
        cwd: None,
        hold_on_close: false,
        hold_on_start: false,
    }
}

/// Copies an optional string.
pub fn copy_opt_text(s: &Option<String>) -> (r: Option<String>)
    ensures
        opt_text(r) == opt_text(*s),
{
    match s {
        Some(t) => Some(t.clone()),
        None => None,
    }
}

/// Copies a list of strings.
pub fn copy_texts(v: &Vec<String>) -> (r: Vec<String>)
    ensures
        texts(r@) == texts(v@),
{
    let mut r: Vec<String> = Vec::new();
    let mut i: usize = 0;
    while i < v.len()
        invariant
            i <= v@.len(),
            texts(r@) == texts(v@).take(i as int),
        decreases v@.len() - i,
    {
        let ghost before = r@;
        let t = v[i].clone();
        r.push(t);
        assert(texts(r@) =~= texts(before).push(t@));
        assert(texts(v@).take(i + 1) =~= texts(v@).take(i as int).push(t@));
        i += 1;
    }
    assert(texts(v@).take(i as int) =~= texts(v@));
    r
}

impl RunCommand {
    /// A command without arguments, in no directory of its own.
    pub fn new(command: String) -> (r: RunCommand)
        ensures
            r@ == bare_command(command@),
    {
        let r = RunCommand {
            command,
            args: Vec::new(),
            cwd: None,
            hold_on_close: false,
            hold_on_start: false,
        };
        assert(r@.args =~= Seq::<Seq<char>>::empty());
        r
    }
}

impl Clone for RunCommand {
    fn clone(&self) -> (r: Self)
        ensures
            r@ == self@,
    {
        RunCommand {
            command: self.command.clone(),
            args: copy_texts(&self.args),
            cwd: copy_opt_text(&self.cwd),
            hold_on_close: self.hold_on_close,
            hold_on_start: self.hold_on_start,
        }
    }
}

/// A plugin: where its code is, and how it is configured.
#[derive(Debug)]
pub struct RunPlugin {
    /// The location as it is displayed, such as `zellij:about`.
    pub location: String,
    pub configuration: Vec<(String, String)>,
}

/// A plugin, with its texts as character sequences.
pub struct RunPluginView {
    pub location: Seq<char>,
    pub configuration: Seq<(Seq<char>, Seq<char>)>,
}

/// The texts of a list of pairs.
pub open spec fn pair_texts(v: Seq<(String, String)>) -> Seq<(Seq<char>, Seq<char>)> {
    v.map_values(|e: (String, String)| (e.0@, e.1@))
}

impl View for RunPlugin {
    type V = RunPluginView;

    open spec fn view(&self) -> RunPluginView {
        RunPluginView {
            location: self.location@,
            configuration: pair_texts(self.configuration@),
        }
    }
}

impl Clone for RunPlugin {
    fn clone(&self) -> (r: Self)
        ensures
            r@ == self@,
    {
        let mut configuration: Vec<(String, String)> = Vec::new();
        let mut i: usize = 0;
        let ghost whole = pair_texts(self.configuration@);
        while i < self.configuration.len()
            invariant
                i <= self.configuration@.len(),
                whole == pair_texts(self.configuration@),
                pair_texts(configuration@) == whole.take(i as int),
            decreases self.configuration@.len() - i,
        {
            let ghost before = configuration@;
            let key = self.configuration[i].0.clone();
            let value = self.configuration[i].1.clone();
            configuration.push((key, value));
            assert(pair_texts(configuration@) =~= pair_texts(before).push((key@, value@)));
            assert(whole.take(i + 1) =~= whole.take(i as int).push((key@, value@)));
            i += 1;
        }
        assert(whole.take(i as int) =~= whole);
        RunPlugin { location: self.location.clone(), configuration }
    }
}

/// A plugin, or a name that stands for one. The plugin behind the name is
/// absent until it is looked up.
#[derive(Debug)]
pub enum RunPluginOrAlias {
    RunPlugin(RunPlugin),
    Alias { name: String, run_plugin: Option<RunPlugin> },
}

/// A plugin or an alias, with its texts as character sequences.
pub enum PluginView {
    RunPlugin(RunPluginView),
    Alias { name: Seq<char>, run_plugin: Option<RunPluginView> },
}

/// An optional plugin, with its texts as character sequences.
pub open spec fn opt_plugin(p: Option<RunPlugin>) -> Option<RunPluginView> {
    match p {
        Some(plugin) => Some(plugin@),
        None => None,
    }
}

impl View for RunPluginOrAlias {
    type V = PluginView;

    open spec fn view(&self) -> PluginView {
        match *self {
            RunPluginOrAlias::RunPlugin(plugin) => PluginView::RunPlugin(plugin@),
            RunPluginOrAlias::Alias { name, run_plugin } => PluginView::Alias {
                name: name@,
                run_plugin: opt_plugin(run_plugin),
            },
        }
    }
}

/// What a plugin goes by: its location, or the name that stands for it.
pub open spec fn location_of(plugin: PluginView) -> Seq<char> {
    match plugin {
        PluginView::RunPlugin(p) => p.location,
        PluginView::Alias { name, .. } => name,
    }
}

fn copy_opt_plugin(p: &Option<RunPlugin>) -> (r: Option<RunPlugin>)
    ensures
        opt_plugin(r) == opt_plugin(*p),
{
    match p {
        Some(plugin) => Some(plugin.clone()),
        None => None,
    }
}

impl RunPluginOrAlias {
    /// What the plugin goes by.
    pub fn location_string(&self) -> (s: String)
        ensures
            s@ == location_of(self@),
    {
        match self {
            RunPluginOrAlias::RunPlugin(p) => p.location.clone(),
            RunPluginOrAlias::Alias { name, .. } => name.clone(),
        }
    }
}

impl Clone for RunPluginOrAlias {
    fn clone(&self) -> (r: Self)
        ensures
            r@ == self@,
    {
        match self {
            RunPluginOrAlias::RunPlugin(p) => RunPluginOrAlias::RunPlugin(p.clone()),
            RunPluginOrAlias::Alias { name, run_plugin } => RunPluginOrAlias::Alias {
                name: name.clone(),
                run_plugin: copy_opt_plugin(run_plugin),
            },
        }
    }
}

/// What runs in a pane.
#[derive(Debug)]
pub enum Run {
    Plugin(RunPluginOrAlias),
    Command(RunCommand),
    /// An editor with a file open, at a line, in a directory.
    EditFile(String, Option<usize>, Option<String>),
    /// The default shell, in a directory.
    Cwd(String),
}

/// What runs in a pane, with its texts as character sequences.
pub enum RunView {
    Plugin(PluginView),
    Command(RunCommandView),
    EditFile(Seq<char>, Option<usize>, Option<Seq<char>>),
    Cwd(Seq<char>),
}

impl View for Run {
    type V = RunView;

    open spec fn view(&self) -> RunView {
        match *self {
            Run::Plugin(plugin) => RunView::Plugin(plugin@),
            Run::Command(command) => RunView::Command(command@),
            Run::EditFile(file, line, cwd) => RunView::EditFile(file@, line, opt_text(cwd)),
            Run::Cwd(cwd) => RunView::Cwd(cwd@),
        }
    }
}

/// What runs in a pane, if anything but the default shell does.
pub open spec fn opt_run(run: Option<Run>) -> Option<RunView> {
    match run {
        Some(r) => Some(r@),
        None => None,
    }
}

impl Clone for Run {
    fn clone(&self) -> (r: Self)
        ensures
            r@ == self@,
    {
        match self {
            Run::Plugin(plugin) => Run::Plugin(plugin.clone()),
            Run::Command(command) => Run::Command(command.clone()),
            Run::EditFile(file, line, cwd) => Run::EditFile(
                file.clone(),
                *line,
                copy_opt_text(cwd),
            ),
            Run::Cwd(cwd) => Run::Cwd(cwd.clone()),
        }
    }
}

/// Copies what runs in a pane.
pub fn copy_opt_run(run: &Option<Run>) -> (r: Option<Run>)
    ensures
        opt_run(r) == opt_run(*run),
{
    match run {
        Some(x) => Some(x.clone()),
        None => None,
    }
}

/// The plugins that names stand for.
#[derive(Debug)]
pub struct PluginAliases {
    pub aliases: Vec<(String, RunPlugin)>,
}

/// The names and plugins of a list of aliases.
pub open spec fn alias_views(v: Seq<(String, RunPlugin)>) -> Seq<(Seq<char>, RunPluginView)> {
    v.map_values(|e: (String, RunPlugin)| (e.0@, e.1@))
}

impl View for PluginAliases {
    type V = Seq<(Seq<char>, RunPluginView)>;

    open spec fn view(&self) -> Seq<(Seq<char>, RunPluginView)> {
        alias_views(self.aliases@)
    }
}

/// The plugin that a name stands for: that of the first alias of this name.
pub open spec fn plugin_behind(
    aliases: Seq<(Seq<char>, RunPluginView)>,
    name: Seq<char>,
) -> Option<RunPluginView>
    decreases aliases.len(),
{
    if aliases.len() == 0 {
        None
    } else if aliases[0].0 == name {
        Some(aliases[0].1)
    } else {
        plugin_behind(aliases.skip(1), name)
    }
}

impl PluginAliases {
    /// The plugin that a name stands for.
    pub fn find(&self, name: &str) -> (r: Option<RunPlugin>)
        ensures
            opt_plugin(r) == plugin_behind(self@, name@),
    {
        let mut i: usize = 0;
        assert(self@.skip(0) =~= self@);
        while i < self.aliases.len()
            invariant
                i <= self.aliases@.len(),
                plugin_behind(self@, name@) == plugin_behind(self@.skip(i as int), name@),
            decreases self.aliases@.len() - i,
        {
            assert(self@.skip(i as int)[0] == (
                self.aliases@[i as int].0@,
                self.aliases@[i as int].1@,
            ));
            if same_text(self.aliases[i].0.as_str(), name) {
                return Some(self.aliases[i].1.clone());
            }
            assert(self@.skip(i as int).skip(1) =~= self@.skip(i + 1));
            i += 1;
        }
        None
    }
}

/// What a session needs to know of the layout it started from: how many panes
/// that opens, and the plugins that run in them.
#[derive(Debug)]
pub struct Layout {
    pub panes: usize,
    pub plugins: Vec<RunPluginOrAlias>,
}

/// The contents of a `Layout`.
pub struct LayoutView {
    pub panes: usize,
    pub plugins: Seq<PluginView>,
}

/// The plugins of a list.
pub open spec fn plugin_views(v: Seq<RunPluginOrAlias>) -> Seq<PluginView> {
    v.map_values(|p: RunPluginOrAlias| p@)
}

impl View for Layout {
    type V = LayoutView;

    open spec fn view(&self) -> LayoutView {
        LayoutView { panes: self.panes, plugins: plugin_views(self.plugins@) }
    }
}

/// A plugin reference with the plugin behind it looked up, where it is an alias.
pub open spec fn resolved(
    plugin: PluginView,
    aliases: Seq<(Seq<char>, RunPluginView)>,
) -> PluginView {
    match plugin {
        PluginView::Alias { name, .. } => PluginView::Alias {
            name,
            run_plugin: plugin_behind(aliases, name),
        },
        _ => plugin,
    }
}

/// A layout with the plugins behind all of its aliases looked up.
pub open spec fn resolved_layout(
    layout: LayoutView,
    aliases: Seq<(Seq<char>, RunPluginView)>,
) -> LayoutView {
    LayoutView {
        plugins: layout.plugins.map_values(|p: PluginView| resolved(p, aliases)),
        ..layout
    }
}

impl Default for Layout {
    /// A layout that opens nothing.
    fn default() -> (r: Self)
        ensures
            r@ == (LayoutView { panes: 0, plugins: Seq::empty() }),
    {
        let r = Layout { panes: 0, plugins: Vec::new() };
        assert(r@.plugins =~= Seq::empty());
        r
    }
}

impl Clone for Layout {
    fn clone(&self) -> (r: Self)
        ensures
            r@ == self@,
    {
        let mut plugins: Vec<RunPluginOrAlias> = Vec::new();
        let ghost whole = plugin_views(self.plugins@);
        let mut i: usize = 0;
        while i < self.plugins.len()
            invariant
                i <= self.plugins@.len(),
                whole == plugin_views(self.plugins@),
                plugin_views(plugins@) == whole.take(i as int),
            decreases self.plugins@.len() - i,
        {
            let ghost before = plugins@;
            let plugin = self.plugins[i].clone();
            plugins.push(plugin);
            assert(plugin_views(plugins@) =~= plugin_views(before).push(plugin@));
            assert(whole.take(i + 1) =~= whole.take(i as int).push(plugin@));
            i += 1;
        }
        assert(whole.take(i as int) =~= whole);
        Layout { panes: self.panes, plugins }
    }
}

impl Layout {
    /// How many panes the layout opens.
    pub fn pane_count(&self) -> (n: usize)
        ensures
            n == self@.panes,
    {
        self.panes
    }

    /// Looks up the plugins behind all aliases in the layout.
    pub fn populate_plugin_aliases_in_layout(&mut self, aliases: &PluginAliases)
        ensures
            final(self)@ == resolved_layout(old(self)@, aliases@),
    {
        let ghost before = self@;
        let ghost goal = resolved_layout(before, aliases@).plugins;
        let mut i: usize = 0;
        while i < self.plugins.len()
            invariant
                i <= self.plugins@.len(),
                self.plugins@.len() == before.plugins.len(),
                self.panes == before.panes,
                goal == resolved_layout(before, aliases@).plugins,
                forall|j: int| 0 <= j < i ==> (#[trigger] self.plugins@[j])@ == goal[j],
                forall|j: int|
                    i <= j < self.plugins@.len() ==> (#[trigger] self.plugins@[j])@
                        == before.plugins[j],
            decreases self.plugins@.len() - i,
        {
            let replacement = match &self.plugins[i] {
                RunPluginOrAlias::Alias { name, .. } => {
                    let run_plugin = aliases.find(name.as_str());
                    Some(RunPluginOrAlias::Alias { name: name.clone(), run_plugin })
                },
                RunPluginOrAlias::RunPlugin(_) => None,
            };
            assert(self.plugins@[i as int]@ == before.plugins[i as int]);
            if let Some(plugin) = replacement {
                self.plugins.set(i, plugin);
            }
            i += 1;
        }
        assert(self@.plugins =~= goal);
    }
}

/// Looking up aliases gives each alias of a layout the plugin of the first entry
/// of its name, or none where there is no such entry, and leaves plugins and the
/// number of panes as they are.
pub proof fn aliases_get_their_plugins(
    layout: LayoutView,
    aliases: Seq<(Seq<char>, RunPluginView)>,
    i: int,
)
    requires
        0 <= i < layout.plugins.len(),
    ensures
        ({
            let after = resolved_layout(layout, aliases);
            &&& after.panes == layout.panes
            &&& after.plugins.len() == layout.plugins.len()
            &&& layout.plugins[i] is RunPlugin ==> after.plugins[i] == layout.plugins[i]
            &&& layout.plugins[i] matches PluginView::Alias { name, .. } ==> {
                &&& forall|k: int|
                    0 <= k < aliases.len() && (#[trigger] aliases[k]).0 == name && (forall|j: int|
                        0 <= j < k ==> (#[trigger] aliases[j]).0 != name) ==> after.plugins[i] == (
                    PluginView::Alias { name, run_plugin: Some(aliases[k].1) })
                &&& (forall|k: int| 0 <= k < aliases.len() ==> (#[trigger] aliases[k]).0 != name)
                    ==> after.plugins[i] == (PluginView::Alias { name, run_plugin: None })
            }
        }),
{
    if let PluginView::Alias { name, .. } = layout.plugins[i] {
        lemma_plugin_behind(aliases, name);
    }
}

proof fn lemma_plugin_behind(aliases: Seq<(Seq<char>, RunPluginView)>, name: Seq<char>)
    ensures
        forall|k: int|
            0 <= k < aliases.len() && (#[trigger] aliases[k]).0 == name && (forall|j: int|
                0 <= j < k ==> (#[trigger] aliases[j]).0 != name) ==> plugin_behind(aliases, name)
                == Some(aliases[k].1),
        (forall|k: int| 0 <= k < aliases.len() ==> (#[trigger] aliases[k]).0 != name)
            ==> plugin_behind(aliases, name) is None,
    decreases aliases.len(),
{
    if aliases.len() > 0 && aliases[0].0 != name {
        let rest = aliases.skip(1);
        lemma_plugin_behind(rest, name);
        assert forall|k: int|
            0 <= k < aliases.len() && (#[trigger] aliases[k]).0 == name && (forall|j: int|
                0 <= j < k ==> (#[trigger] aliases[j]).0 != name) implies plugin_behind(
            aliases,
            name,
        ) == Some(aliases[k].1) by {
            assert(rest[k - 1] == aliases[k]);
            assert forall|j: int| 0 <= j < k - 1 implies (#[trigger] rest[j]).0 != name by {
                assert(rest[j] == aliases[j + 1]);
            }
        }
        if forall|k: int| 0 <= k < aliases.len() ==> (#[trigger] aliases[k]).0 != name {
            assert forall|k: int| 0 <= k < rest.len() implies (#[trigger] rest[k]).0 != name by {
                assert(rest[k] == aliases[k + 1]);
            }
        }
    }
}

} // verus!
