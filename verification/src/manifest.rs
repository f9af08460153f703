//! The manifest of a session: what is written down of it, so that it can be
//! brought back.

use crate::layout::{opt_run, Layout, LayoutView, PaneGeom, Run, RunView};
use crate::text::opt_text;
use vstd::prelude::*;

verus! {

/// What is written down of a pane. A terminal asks for its number again.
#[derive(Debug)]
pub struct PaneLayoutManifest {
    pub geom: PaneGeom,
    pub run: Option<Run>,
    pub cwd: Option<String>,
    pub is_borderless: bool,
    pub title: Option<String>,
    pub is_focused: bool,
    pub pane_contents: Option<String>,
    pub preferred_terminal_id: Option<u32>,
}

/// The contents of a `PaneLayoutManifest`.
#[verifier::ext_equal]
pub struct PaneManifestView {
    pub geom: PaneGeom,
    pub run: Option<RunView>,
    pub cwd: Option<Seq<char>>,
    pub is_borderless: bool,
    pub title: Option<Seq<char>>,
    pub is_focused: bool,
    pub pane_contents: Option<Seq<char>>,
    pub preferred_terminal_id: Option<u32>,
}

impl View for PaneLayoutManifest {
    type V = PaneManifestView;

    open spec fn view(&self) -> PaneManifestView {
        PaneManifestView {
            geom: self.geom,
            run: opt_run(self.run),
            cwd: opt_text(self.cwd),
            is_borderless: self.is_borderless,
            title: opt_text(self.title),
            is_focused: self.is_focused,
            pane_contents: opt_text(self.pane_contents),
            preferred_terminal_id: self.preferred_terminal_id,
        }
    }
}

/// The contents of a list of panes.
pub open spec fn pane_manifest_views(panes: Seq<PaneLayoutManifest>) -> Seq<PaneManifestView> {
    panes.map_values(|p: PaneLayoutManifest| p@)
}

/// What is written down of a tab.
#[derive(Debug)]
pub struct TabLayoutManifest {
    pub tiled_panes: Vec<PaneLayoutManifest>,
    pub floating_panes: Vec<PaneLayoutManifest>,
    pub is_focused: bool,
    pub hide_floating_panes: bool,
}

/// The contents of a `TabLayoutManifest`.
#[verifier::ext_equal]
pub struct TabManifestView {
    pub tiled_panes: Seq<PaneManifestView>,
    pub floating_panes: Seq<PaneManifestView>,
    pub is_focused: bool,
    pub hide_floating_panes: bool,
}

impl View for TabLayoutManifest {
    type V = TabManifestView;

    open spec fn view(&self) -> TabManifestView {
        TabManifestView {
            tiled_panes: pane_manifest_views(self.tiled_panes@),
            floating_panes: pane_manifest_views(self.floating_panes@),
            is_focused: self.is_focused,
            hide_floating_panes: self.hide_floating_panes,
        }
    }
}

/// The contents of a list of named tabs.
pub open spec fn named_tab_views(
    tabs: Seq<(String, TabLayoutManifest)>,
) -> Seq<(Seq<char>, TabManifestView)> {
    tabs.map_values(|t: (String, TabLayoutManifest)| (t.0@, t.1@))
}

/// What is written down of a session; the tabs are named.
#[derive(Debug)]
pub struct GlobalLayoutManifest {
    pub default_layout: Box<Layout>,
    pub default_shell: Option<String>,
    pub global_cwd: Option<String>,
    pub tabs: Vec<(String, TabLayoutManifest)>,
}

/// The contents of a `GlobalLayoutManifest`.
#[verifier::ext_equal]
pub struct GlobalManifestView {
    pub default_layout: LayoutView,
    pub default_shell: Option<Seq<char>>,
    pub global_cwd: Option<Seq<char>>,
    pub tabs: Seq<(Seq<char>, TabManifestView)>,
}

impl View for GlobalLayoutManifest {
    type V = GlobalManifestView;

    open spec fn view(&self) -> GlobalManifestView {
        GlobalManifestView {
            default_layout: self.default_layout@,
            default_shell: opt_text(self.default_shell),
            global_cwd: opt_text(self.global_cwd),
            tabs: named_tab_views(self.tabs@),
        }
    }
}

} // verus!
