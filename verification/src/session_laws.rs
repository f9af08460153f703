//! What holds of a session across its updates and listings.

use crate::client_metadata::ClientView;
use crate::json::{array, object, truth};
use crate::json_reader::{
    ends_bare, is_bare, is_entry, is_object, is_plain_text, json_array_reads_back, read_array,
    written_fields, written_objects, JsonValue,
};
use crate::layout::{ClientId, PaneId, RunPlugin, RunView};
use crate::path::{
    common_ancestor, components, extended, is_longest_shared, split_path_is_whole_again, starts_all,
};
use crate::session_layout_metadata::{
    all_panes, clients_among, clients_at, counts, differs_from_base, directories, each_pane,
    handed_panes, handed_tabs, pane_fields, pane_object, plugin_id, runs_other_command, runs_shell,
    session_objects, shell_from, stripped, tab_objects, terminal_id, told_directory,
    with_command_line, with_default_shell, with_directories, with_directory, with_plugin,
    without_shell, PaneView, SessionView, TabView,
};
use crate::text::{decimal, decimal_int, decimal_reads_back, is_digit, joined};
use vstd::prelude::*;

verus! {

proof fn lemma_each_pane(tabs: Seq<TabView>, f: spec_fn(PaneView) -> PaneView)
    ensures
        all_panes(each_pane(tabs, f)) == all_panes(tabs).map_values(f),
    decreases tabs.len(),
{
    let changed = each_pane(tabs, f);
    if tabs.len() > 0 {
        lemma_each_pane(tabs.drop_last(), f);
        assert(changed.drop_last() =~= each_pane(tabs.drop_last(), f));
    }
    assert(all_panes(changed) =~= all_panes(tabs).map_values(f));
}

/// Once the commands are taken out of the terminals, no terminal runs one, and
/// every other pane is as it was. Taking them out again changes nothing.
pub proof fn stripping_takes_every_terminal_command(tabs: Seq<TabView>)
    ensures
        ({
            let before = all_panes(tabs);
            let after = all_panes(each_pane(tabs, stripped()));
            &&& after.len() == before.len()
            &&& forall|i: int| #![trigger after[i]]
                0 <= i < after.len() ==> !(after[i].id is Terminal && after[i].run matches Some(
                    RunView::Command(_),
                ))
            &&& forall|i: int| #![trigger after[i]]
                0 <= i < after.len() && !(before[i].id is Terminal && before[i].run matches Some(
                    RunView::Command(_),
                )) ==> after[i] == before[i]
            &&& each_pane(each_pane(tabs, stripped()), stripped()) == each_pane(tabs, stripped())
        }),
{
    lemma_each_pane(tabs, stripped());
    let once = each_pane(tabs, stripped());
    let twice = each_pane(once, stripped());
    assert forall|i: int| 0 <= i < tabs.len() implies #[trigger] twice[i] == once[i] by {
        assert(twice[i].tiled_panes =~= once[i].tiled_panes);
        assert(twice[i].floating_panes =~= once[i].floating_panes);
    }
    assert(twice =~= once);
}

/// Once a session is told of its default shell, no pane runs that shell by
/// name.
pub proof fn no_pane_runs_the_default_shell(session: SessionView, told: Seq<char>, i: int)
    requires
        0 <= i < all_panes(session.tabs).len(),
    ensures
        ({
            let after = with_default_shell(session, told);
            &&& all_panes(after.tabs).len() == all_panes(session.tabs).len()
            &&& !runs_shell(all_panes(after.tabs)[i], after.default_shell)
        }),
{
    lemma_each_pane(session.tabs, without_shell(shell_from(session.default_shell, told)));
}

/// A session keeps the first default shell that it is told of.
pub proof fn first_default_shell_stays(session: SessionView, first: Seq<char>, second: Seq<char>)
    ensures
        with_default_shell(with_default_shell(session, first), second) == with_default_shell(
            session,
            first,
        ),
{
    let once = with_default_shell(session, first);
    let twice = with_default_shell(once, second);
    assert forall|i: int| 0 <= i < once.tabs.len() implies #[trigger] twice.tabs[i]
        == once.tabs[i] by {
        assert(twice.tabs[i].tiled_panes =~= once.tabs[i].tiled_panes);
        assert(twice.tabs[i].floating_panes =~= once.tabs[i].floating_panes);
    }
    assert(twice.tabs =~= once.tabs);
}

proof fn lemma_counted_alike(panes: Seq<PaneView>, f: spec_fn(PaneView) -> PaneView)
    requires
        forall|p: PaneView| #[trigger] counts()(f(p)) == counts()(p),
    ensures
        panes.map_values(f).filter(counts()).len() == panes.filter(counts()).len(),
    decreases panes.len(),
{
    reveal(Seq::filter);
    if panes.len() > 0 {
        lemma_counted_alike(panes.drop_last(), f);
        assert(panes.map_values(f).drop_last() =~= panes.drop_last().map_values(f));
        assert(counts()(f(panes.last())) == counts()(panes.last()));
    }
}

/// Taking the default shell out of the panes does not make a session differ
/// from the layout it started from, nor does it hide that it does: only the
/// shell that commands are compared with matters.
pub proof fn default_shell_is_no_difference(session: SessionView, told: Seq<char>)
    ensures
        differs_from_base(with_default_shell(session, told)) == differs_from_base(
            SessionView {
                default_shell: shell_from(session.default_shell, told),
                ..session
            },
        ),
{
    let shell = shell_from(session.default_shell, told);
    let f = without_shell(shell);
    let before = all_panes(session.tabs);
    let after = all_panes(with_default_shell(session, told).tabs);
    lemma_each_pane(session.tabs, f);
    lemma_counted_alike(before, f);
    assert forall|i: int| 0 <= i < before.len() implies runs_other_command(
        #[trigger] after[i],
        shell,
    ) == runs_other_command(before[i], shell) by {
        assert(after[i] == f(before[i]));
    }
    if differs_from_base(SessionView { default_shell: shell, ..session }) {
        if before.filter(counts()).len() == session.default_layout.panes {
            let i = choose|i: int|
                0 <= i < before.len() && runs_other_command(#[trigger] before[i], shell);
            assert(runs_other_command(after[i], shell));
        }
    }
    if differs_from_base(with_default_shell(session, told)) {
        if after.filter(counts()).len() == session.default_layout.panes {
            let i = choose|i: int|
                0 <= i < after.len() && runs_other_command(#[trigger] after[i], shell);
            assert(runs_other_command(before[i], shell));
        }
    }
}

/// Whether the pane at `i` is the first of its number.
pub open spec fn is_first_of_number(
    panes: Seq<PaneView>,
    number: spec_fn(PaneView) -> Option<u32>,
    i: int,
) -> bool {
    forall|j: int| 0 <= j < i ==> number(#[trigger] panes[j]) != number(panes[i])
}

proof fn lemma_handed_concat<V>(
    a: Seq<PaneView>,
    b: Seq<PaneView>,
    values: Map<u32, V>,
    number: spec_fn(PaneView) -> Option<u32>,
    put: spec_fn(PaneView, V) -> PaneView,
)
    ensures
        ({
            let (first, left) = handed_panes(a, values, number, put);
            let (second, rest) = handed_panes(b, left, number, put);
            handed_panes(a + b, values, number, put) == (first + second, rest)
        }),
    decreases b.len(),
{
    let (first, left) = handed_panes(a, values, number, put);
    if b.len() == 0 {
        assert(a + b =~= a);
        assert(first + b =~= first);
    } else {
        lemma_handed_concat(a, b.drop_last(), values, number, put);
        assert((a + b).drop_last() =~= a + b.drop_last());
        let (second, rest) = handed_panes(b.drop_last(), left, number, put);
        let (whole, end) = handed_panes(b, left, number, put);
        assert(whole =~= second.push(whole.last()));
        assert(first + whole =~= (first + second).push(whole.last()));
    }
}

proof fn lemma_handed_tabs<V>(
    tabs: Seq<TabView>,
    values: Map<u32, V>,
    number: spec_fn(PaneView) -> Option<u32>,
    put: spec_fn(PaneView, V) -> PaneView,
)
    ensures
        ({
            let (after, left) = handed_tabs(tabs, values, number, put);
            &&& after.len() == tabs.len()
            &&& (all_panes(after), left) == handed_panes(all_panes(tabs), values, number, put)
        }),
    decreases tabs.len(),
{
    if tabs.len() > 0 {
        let (done, left) = handed_tabs(tabs.drop_last(), values, number, put);
        lemma_handed_tabs(tabs.drop_last(), values, number, put);
        let before = all_panes(tabs.drop_last());
        let tab = tabs.last();
        lemma_handed_concat(before, tab.tiled_panes, values, number, put);
        lemma_handed_concat(
            before + tab.tiled_panes,
            tab.floating_panes,
            values,
            number,
            put,
        );
        let after = handed_tabs(tabs, values, number, put).0;
        assert(after.drop_last() =~= done);
    }
}

proof fn lemma_handed_panes<V>(
    panes: Seq<PaneView>,
    values: Map<u32, V>,
    number: spec_fn(PaneView) -> Option<u32>,
    put: spec_fn(PaneView, V) -> PaneView,
)
    ensures
        ({
            let (after, left) = handed_panes(panes, values, number, put);
            &&& after.len() == panes.len()
            &&& forall|i: int| #![trigger after[i]]
                0 <= i < panes.len() ==> after[i] == match number(panes[i]) {
                    Some(id) if values.contains_key(id) && is_first_of_number(panes, number, i)
                        => put(panes[i], values[id]),
                    _ => panes[i],
                }
            &&& forall|id: u32| #[trigger]
                left.contains_key(id) <==> values.contains_key(id) && forall|j: int|
                    0 <= j < panes.len() ==> number(#[trigger] panes[j]) != Some(id)
            &&& forall|id: u32| #[trigger] left.contains_key(id) ==> left[id] == values[id]
        }),
    decreases panes.len(),
{
    let (after, left) = handed_panes(panes, values, number, put);
    if panes.len() > 0 {
        let before = panes.drop_last();
        let (done, kept) = handed_panes(before, values, number, put);
        lemma_handed_panes(before, values, number, put);
        let n = before.len() as int;
        assert forall|i: int| 0 <= i < n implies (#[trigger] is_first_of_number(panes, number, i)
            <==> is_first_of_number(before, number, i)) by {
            if is_first_of_number(panes, number, i) {
                assert forall|j: int| 0 <= j < i implies number(#[trigger] before[j]) != number(
                    before[i],
                ) by {
                    assert(panes[j] == before[j]);
                }
            }
            if is_first_of_number(before, number, i) {
                assert forall|j: int| 0 <= j < i implies number(#[trigger] panes[j]) != number(
                    panes[i],
                ) by {
                    assert(panes[j] == before[j]);
                }
            }
        }
        if number(panes[n]) is Some {
            let id = number(panes[n])->0;
            if is_first_of_number(panes, number, n) {
                assert forall|j: int| 0 <= j < n implies number(#[trigger] before[j]) != Some(
                    id,
                ) by {
                    assert(panes[j] == before[j]);
                }
            } else {
                let j = choose|j: int|
                    0 <= j < n && number(#[trigger] panes[j]) == number(panes[n]);
                assert(number(before[j]) == Some(id));
            }
        }
        assert forall|id: u32| #[trigger]
            left.contains_key(id) <==> values.contains_key(id) && forall|j: int|
                0 <= j < panes.len() ==> number(#[trigger] panes[j]) != Some(id) by {
            if left.contains_key(id) {
                assert(kept.contains_key(id));
                assert forall|j: int| 0 <= j < panes.len() implies number(#[trigger] panes[j])
                    != Some(id) by {
                    if j < n {
                        assert(panes[j] == before[j]);
                    }
                }
            }
            if values.contains_key(id) && forall|j: int|
                0 <= j < panes.len() ==> number(#[trigger] panes[j]) != Some(id) {
                assert forall|j: int| 0 <= j < n implies number(#[trigger] before[j]) != Some(
                    id,
                ) by {
                    assert(panes[j] == before[j]);
                }
                assert(kept.contains_key(id));
                assert(number(panes[n]) != Some(id));
            }
        }
        assert forall|i: int| #![trigger after[i]] 0 <= i < panes.len() implies after[i]
            == match number(panes[i]) {
            Some(id) if values.contains_key(id) && is_first_of_number(panes, number, i) => put(
                panes[i],
                values[id],
            ),
            _ => panes[i],
        } by {
            if i < n {
                assert(after[i] == done[i]);
                assert(panes[i] == before[i]);
                assert(is_first_of_number(panes, number, i) <==> is_first_of_number(
                    before,
                    number,
                    i,
                ));
            }
        }
    }
}

/// Of the panes of a number that has a value, the first one takes it, and all
/// others stay as they are.
pub proof fn first_pane_of_a_number_takes_the_value<V>(
    tabs: Seq<TabView>,
    values: Map<u32, V>,
    number: spec_fn(PaneView) -> Option<u32>,
    put: spec_fn(PaneView, V) -> PaneView,
    i: int,
)
    requires
        0 <= i < all_panes(tabs).len(),
    ensures
        ({
            let before = all_panes(tabs);
            let after = all_panes(handed_tabs(tabs, values, number, put).0);
            &&& after.len() == before.len()
            &&& after[i] == match number(before[i]) {
                Some(id) if values.contains_key(id) && is_first_of_number(before, number, i) => put(
                    before[i],
                    values[id],
                ),
                _ => before[i],
            }
        }),
{
    lemma_handed_tabs(tabs, values, number, put);
    lemma_handed_panes(all_panes(tabs), values, number, put);
}

/// No update of a session makes a pane appear, disappear or change its number:
/// after each, the session has the panes that it had, in the same order.
pub proof fn updates_keep_the_panes(
    session: SessionView,
    lines: Map<u32, Vec<String>>,
    cwds: Map<u32, String>,
    plugins: Map<u32, RunPlugin>,
    told: Seq<char>,
    i: int,
)
    requires
        0 <= i < all_panes(session.tabs).len(),
    ensures
        ({
            let before = all_panes(session.tabs);
            let shell = session.default_shell;
            let commanded = all_panes(
                handed_tabs(session.tabs, lines, terminal_id(), with_command_line(shell)).0,
            );
            let placed = all_panes(with_directories(session, cwds).tabs);
            let plugged = all_panes(
                handed_tabs(session.tabs, plugins, plugin_id(), with_plugin()).0,
            );
            let shelled = all_panes(with_default_shell(session, told).tabs);
            let bare = all_panes(each_pane(session.tabs, stripped()));
            &&& commanded.len() == before.len()
            &&& placed.len() == before.len()
            &&& plugged.len() == before.len()
            &&& shelled.len() == before.len()
            &&& bare.len() == before.len()
            &&& commanded[i] == (PaneView { run: commanded[i].run, ..before[i] })
            &&& placed[i] == (PaneView { cwd: placed[i].cwd, ..before[i] })
            &&& plugged[i] == (PaneView { run: plugged[i].run, ..before[i] })
            &&& shelled[i] == (PaneView { run: shelled[i].run, ..before[i] })
            &&& bare[i] == (PaneView { run: bare[i].run, ..before[i] })
        }),
{
    first_pane_of_a_number_takes_the_value(
        session.tabs,
        lines,
        terminal_id(),
        with_command_line(session.default_shell),
        i,
    );
    first_pane_of_a_number_takes_the_value(
        session.tabs,
        cwds,
        terminal_id(),
        with_directory(common_ancestor(directories(cwds))),
        i,
    );
    first_pane_of_a_number_takes_the_value(
        session.tabs,
        plugins,
        plugin_id(),
        with_plugin(),
        i,
    );
    lemma_each_pane(session.tabs, without_shell(shell_from(session.default_shell, told)));
    lemma_each_pane(session.tabs, stripped());
}

/// There is a longest list of components that all the paths start with.
pub proof fn lemma_longest_shared_exists(paths: Set<Seq<char>>, member: Seq<char>, n: int)
    requires
        paths.contains(member),
        0 <= n <= components(member).len(),
        forall|other: Seq<Seq<char>>| #[trigger] starts_all(other, paths) ==> other.len() <= n,
    ensures
        exists|shared: Seq<Seq<char>>| is_longest_shared(shared, paths),
    decreases n,
{
    let shared = components(member).take(n);
    if starts_all(shared, paths) {
        assert(is_longest_shared(shared, paths));
    } else {
        assert(n > 0) by {
            if n == 0 {
                assert forall|p: Seq<char>| #[trigger] paths.contains(p) implies shared.is_prefix_of(
                    components(p),
                ) by {
                    assert(shared =~= components(p).subrange(0, 0));
                }
            }
        }
        assert forall|other: Seq<Seq<char>>| #[trigger] starts_all(other, paths) implies other.len()
            <= n - 1 by {
            if other.len() == n {
                assert(other.is_prefix_of(components(member)));
                assert(other =~= shared);
            }
        }
        lemma_longest_shared_exists(paths, member, n - 1);
    }
}

/// Telling directories relative to what they share loses nothing: the shared
/// directory, extended by what a pane is told, has the components of the
/// directory of that pane.
pub proof fn told_directories_lead_back(cwds: Map<u32, String>, id: u32)
    requires
        cwds.contains_key(id),
    ensures
        common_ancestor(directories(cwds)) matches Some(base) ==> components(
            extended(base, told_directory(cwds[id]@, Some(base))),
        ) == components(cwds[id]@),
{
    let paths = directories(cwds);
    let cwd = cwds[id]@;
    if common_ancestor(paths) is Some {
        assert(cwds.values().contains(cwds[id]));
        assert(paths.contains(cwd));
        assert forall|other: Seq<Seq<char>>| #[trigger] starts_all(other, paths) implies other.len()
            <= components(cwd).len() by {
            assert(other.is_prefix_of(components(cwd)));
        }
        lemma_longest_shared_exists(paths, cwd, components(cwd).len() as int);
        let shared = choose|shared: Seq<Seq<char>>| is_longest_shared(shared, paths);
        assert(shared.is_prefix_of(components(cwd)));
        split_path_is_whole_again(cwd, shared);
    }
}

/// A client is shown with the last of the panes that it focuses.
pub proof fn client_is_at_the_last_pane_it_focuses(panes: Seq<PaneView>, id: ClientId, i: int)
    requires
        0 <= i < panes.len(),
        panes[i].focused_clients.contains(id),
        forall|j: int| i < j < panes.len() ==> !(#[trigger] panes[j]).focused_clients.contains(id),
    ensures
        clients_among(panes).contains_key(id),
        clients_among(panes)[id] == (ClientView { pane_id: panes[i].id, command: panes[i].run }),
    decreases panes.len(),
{
    if i < panes.len() - 1 {
        let before = panes.drop_last();
        assert forall|j: int| i < j < before.len() implies !(
        #[trigger] before[j]).focused_clients.contains(id) by {
            assert(before[j] == panes[j]);
        }
        client_is_at_the_last_pane_it_focuses(before, id, i);
        assert(!clients_at(panes.last()).contains_key(id));
    } else {
        assert(clients_at(panes.last()).contains_key(id));
    }
}

/// A client that focuses none of the panes is not shown.
pub proof fn client_without_a_pane_is_not_shown(panes: Seq<PaneView>, id: ClientId)
    requires
        forall|j: int| 0 <= j < panes.len() ==> !(#[trigger] panes[j]).focused_clients.contains(id),
    ensures
        !clients_among(panes).contains_key(id),
    decreases panes.len(),
{
    if panes.len() > 0 {
        let before = panes.drop_last();
        assert forall|j: int| 0 <= j < before.len() implies !(
        #[trigger] before[j]).focused_clients.contains(id) by {
            assert(before[j] == panes[j]);
        }
        client_without_a_pane_is_not_shown(before, id);
        assert(!panes[panes.len() - 1].focused_clients.contains(id));
    }
}

/// The list of panes has one entry for each pane.
pub proof fn each_pane_is_listed_once(tabs: Seq<TabView>, pids: Map<u32, i32>)
    ensures
        session_objects(tabs, pids).len() == all_panes(tabs).len(),
    decreases tabs.len(),
{
    if tabs.len() > 0 {
        each_pane_is_listed_once(tabs.drop_last(), pids);
    }
}

/// A text, or `null` where there is none.
pub open spec fn text_or_null(text: Option<Seq<char>>) -> JsonValue {
    match text {
        Some(t) => JsonValue::Text(t),
        None => JsonValue::Bare("null"@),
    }
}

/// What the list tells of a pane, by name.
pub open spec fn pane_entries(
    tab_index: int,
    tab: TabView,
    pane: PaneView,
    is_floating: bool,
    pids: Map<u32, i32>,
) -> Seq<(Seq<char>, JsonValue)> {
    let stacked = pane.geom.stacked is Some;
    let yes_or_no = |b: bool|
        JsonValue::Bare(
            if b {
                "true"@
            } else {
                "false"@
            },
        );
    seq![
        ("tab_name"@, JsonValue::Text(match tab.name {
            Some(name) => name,
            None => Seq::empty(),
        })),
        ("tab_index"@, JsonValue::Bare(decimal(tab_index as nat))),
        ("is_tab_focused"@, yes_or_no(tab.is_focused)),
        ("pane_id"@, JsonValue::Text(match pane.id {
            PaneId::Terminal(n) => "terminal_"@ + decimal(n as nat),
            PaneId::Plugin(n) => "plugin_"@ + decimal(n as nat),
        })),
        ("title"@, text_or_null(pane.title)),
        ("command"@, match pane.run {
            Some(RunView::Command(c)) => JsonValue::Text(
                if c.args.len() == 0 {
                    c.command
                } else {
                    c.command + " "@ + joined(c.args, " "@)
                },
            ),
            _ => JsonValue::Bare("null"@),
        }),
        ("cwd"@, text_or_null(pane.cwd)),
        ("pid"@, JsonValue::Bare(match pane.id {
            PaneId::Terminal(n) => if pids.contains_key(n) {
                decimal_int(pids[n] as int)
            } else {
                "null"@
            },
            PaneId::Plugin(_) => "null"@,
        })),
        ("is_focused"@, yes_or_no(pane.is_focused)),
        ("is_stacked"@, yes_or_no(stacked)),
        ("is_expanded"@, yes_or_no(stacked && !(pane.geom.rows.constraint is Fixed))),
        ("is_floating"@, yes_or_no(is_floating)),
    ]
}

/// What the list tells of the panes of a tab.
pub open spec fn tab_entries(
    tab_index: int,
    tab: TabView,
    pids: Map<u32, i32>,
) -> Seq<Seq<(Seq<char>, JsonValue)>> {
    tab.tiled_panes.map_values(|p: PaneView| pane_entries(tab_index, tab, p, false, pids))
        + tab.floating_panes.map_values(|p: PaneView| pane_entries(tab_index, tab, p, true, pids))
}

/// What the list tells of all panes.
pub open spec fn session_entries(
    tabs: Seq<TabView>,
    pids: Map<u32, i32>,
) -> Seq<Seq<(Seq<char>, JsonValue)>>
    decreases tabs.len(),
{
    if tabs.len() == 0 {
        Seq::empty()
    } else {
        session_entries(tabs.drop_last(), pids) + tab_entries(tabs.len() - 1, tabs.last(), pids)
    }
}

proof fn lemma_decimal_is_bare(n: nat)
    ensures
        is_bare(decimal(n)),
{
    decimal_reads_back(n);
    let s = decimal(n);
    assert forall|i: int| 0 <= i < s.len() implies !ends_bare(#[trigger] s[i]) by {
        assert(is_digit(s[i]));
    }
    assert(is_digit(s[0]));
}

proof fn lemma_spelled_values_are_bare(n: int, b: bool)
    ensures
        is_bare(decimal_int(n)),
        is_bare(truth(b)),
        is_bare("null"@),
{
    reveal_strlit("null");
    reveal_strlit("true");
    reveal_strlit("false");
    if n >= 0 {
        lemma_decimal_is_bare(n as nat);
    } else {
        let digits = decimal((-n) as nat);
        let s = decimal_int(n);
        lemma_decimal_is_bare((-n) as nat);
        assert forall|i: int| 0 <= i < s.len() implies !ends_bare(#[trigger] s[i]) by {
            if i > 0 {
                assert(s[i] == digits[i - 1]);
            }
        }
    }
}

proof fn lemma_names_are_plain()
    ensures
        is_plain_text("tab_name"@),
        is_plain_text("tab_index"@),
        is_plain_text("is_tab_focused"@),
        is_plain_text("pane_id"@),
        is_plain_text("title"@),
        is_plain_text("command"@),
        is_plain_text("cwd"@),
        is_plain_text("pid"@),
        is_plain_text("is_focused"@),
        is_plain_text("is_stacked"@),
        is_plain_text("is_expanded"@),
        is_plain_text("is_floating"@),
{
    reveal_strlit("tab_name");
    reveal_strlit("tab_index");
    reveal_strlit("is_tab_focused");
    reveal_strlit("pane_id");
    reveal_strlit("title");
    reveal_strlit("command");
    reveal_strlit("cwd");
    reveal_strlit("pid");
    reveal_strlit("is_focused");
    reveal_strlit("is_stacked");
    reveal_strlit("is_expanded");
    reveal_strlit("is_floating");
}

proof fn lemma_pane_entries(
    tab_index: int,
    tab: TabView,
    pane: PaneView,
    is_floating: bool,
    pids: Map<u32, i32>,
)
    requires
        tab_index >= 0,
    ensures
        is_object(pane_entries(tab_index, tab, pane, is_floating, pids)),
        object(written_fields(pane_entries(tab_index, tab, pane, is_floating, pids)))
            == pane_object(tab_index, tab, pane, is_floating, pids),
{
    let entries = pane_entries(tab_index, tab, pane, is_floating, pids);
    lemma_names_are_plain();
    lemma_decimal_is_bare(tab_index as nat);
    lemma_spelled_values_are_bare(
        match pane.id {
            PaneId::Terminal(n) => pids[n] as int,
            PaneId::Plugin(_) => 0,
        },
        true,
    );
    lemma_spelled_values_are_bare(0, false);
    assert(written_fields(entries) =~= pane_fields(tab_index, tab, pane, is_floating, pids));
    assert forall|i: int| 0 <= i < entries.len() implies is_entry(#[trigger] entries[i]) by {
        assert(i < 12);
    }
}

proof fn lemma_session_entries(tabs: Seq<TabView>, pids: Map<u32, i32>)
    ensures
        forall|i: int|
            0 <= i < session_entries(tabs, pids).len() ==> is_object(
                #[trigger] session_entries(tabs, pids)[i],
            ),
        written_objects(session_entries(tabs, pids)) == session_objects(tabs, pids),
    decreases tabs.len(),
{
    let all = session_entries(tabs, pids);
    if tabs.len() > 0 {
        let before = session_entries(tabs.drop_last(), pids);
        let tab = tabs.last();
        let at = tabs.len() - 1;
        let here = tab_entries(at, tab, pids);
        lemma_session_entries(tabs.drop_last(), pids);
        let tiled = tab.tiled_panes.len();
        assert forall|i: int| 0 <= i < here.len() implies is_object(#[trigger] here[i])
            && object(written_fields(here[i])) == tab_objects(at, tab, pids)[i] by {
            if i < tiled {
                lemma_pane_entries(at, tab, tab.tiled_panes[i], false, pids);
            } else {
                lemma_pane_entries(at, tab, tab.floating_panes[i - tiled], true, pids);
            }
        }
        assert forall|i: int| 0 <= i < all.len() implies is_object(#[trigger] all[i]) by {
            if i < before.len() {
                assert(all[i] == before[i]);
            } else {
                assert(all[i] == here[i - before.len()]);
            }
        }
        assert(written_objects(here) =~= tab_objects(at, tab, pids));
        assert(written_objects(all) =~= written_objects(before) + written_objects(here));
    } else {
        assert(written_objects(all) =~= Seq::empty());
    }
}

/// The list of panes is read back as what it tells of each pane, whatever the
/// names, titles, commands and directories hold.
pub proof fn pane_list_reads_back(tabs: Seq<TabView>, pids: Map<u32, i32>)
    ensures
        read_array(array(session_objects(tabs, pids))) == Some(session_entries(tabs, pids)),
{
    lemma_session_entries(tabs, pids);
    json_array_reads_back(session_entries(tabs, pids));
}

} // verus!
