//! What the clients of a session have in front of them.

use crate::layout::{location_of, opt_run, ClientId, PaneId, PluginView, Run, RunView};
use crate::text::{
    decimal, decimal_text, join_texts, joined, opt_text, pad_text, padded, push_decimal, texts,
};
use std::collections::BTreeMap;
use vstd::prelude::*;
use vstd::std_specs::cmp::OrdSpec;
use vstd::std_specs::iter::IteratorSpec;

verus! {

/// A pane by its kind and number.
pub open spec fn pane_id_text(id: PaneId) -> Seq<char> {
    match id {
        PaneId::Terminal(n) => "terminal_"@ + decimal(n as nat),
        PaneId::Plugin(n) => "plugin_"@ + decimal(n as nat),
    }
}

/// Writes a pane by its kind and number.
pub fn text_of_pane_id(id: PaneId) -> (s: String)
    ensures
        s@ == pane_id_text(id),
{
    match id {
        PaneId::Terminal(n) => {
            let mut s = "terminal_".to_string();
            push_decimal(&mut s, n as u64);
            s
        },
        PaneId::Plugin(n) => {
            let mut s = "plugin_".to_string();
            push_decimal(&mut s, n as u64);
            s
        },
    }
}

/// What a client has in front of it: the pane that it focuses, and what runs
/// there.
#[derive(Debug)]
pub struct ClientMetadata {
    pane_id: PaneId,
    command: Option<Run>,
}

/// The contents of a `ClientMetadata`.
pub struct ClientView {
    pub pane_id: PaneId,
    pub command: Option<RunView>,
}

impl View for ClientMetadata {
    type V = ClientView;

    closed spec fn view(&self) -> ClientView {
        ClientView { pane_id: self.pane_id, command: opt_run(self.command) }
    }
}

/// The contents of a map of clients.
pub open spec fn client_views(clients: Map<ClientId, ClientMetadata>) -> Map<ClientId, ClientView> {
    clients.map_values(|c: ClientMetadata| c@)
}

/// What a client is shown to run: a command line, an editor and its file, or a
/// plugin.
pub open spec fn shown_command(run: Option<RunView>, editor: Option<Seq<char>>) -> Seq<char> {
    match run {
        Some(RunView::Command(c)) => c.command + " "@ + joined(c.args, " "@),
        Some(RunView::EditFile(file, _, _)) => match editor {
            Some(program) => program + " "@ + file,
            None => "N/A"@,
        },
        Some(RunView::Plugin(plugin)) => location_of(plugin),
        _ => "N/A"@,
    }
}

/// The line about a client: its number, its pane and its command in columns.
pub open spec fn client_line(
    id: ClientId,
    client: ClientView,
    editor: Option<Seq<char>>,
) -> Seq<char> {
    padded(decimal(id as nat), 9) + " "@ + padded(pane_id_text(client.pane_id), 14) + " "@ + padded(
        shown_command(client.command, editor),
        15,
    )
}

/// Whether the numbers ascend.
pub open spec fn clients_ascend(ids: Seq<ClientId>) -> bool {
    forall|i: int, j: int| 0 <= i < j < ids.len() ==> ids[i] < ids[j]
}

/// Whether the list holds the clients of a map in ascending order.
pub open spec fn is_client_list(
    ids: Seq<ClientId>,
    clients: Map<ClientId, ClientView>,
) -> bool {
    &&& clients_ascend(ids)
    &&& forall|id: ClientId| #[trigger] ids.contains(id) <==> clients.contains_key(id)
}

/// A map has one list of its clients only.
pub proof fn client_list_is_unique(
    a: Seq<ClientId>,
    b: Seq<ClientId>,
    clients: Map<ClientId, ClientView>,
)
    requires
        is_client_list(a, clients),
        is_client_list(b, clients),
    ensures
        a == b,
{
    assert forall|id: ClientId| #[trigger] a.contains(id) <==> b.contains(id) by {
        assert(a.contains(id) <==> clients.contains_key(id));
        assert(b.contains(id) <==> clients.contains_key(id));
    }
    lemma_ascending_unique(a, b);
}

proof fn lemma_ascending_unique(a: Seq<ClientId>, b: Seq<ClientId>)
    requires
        clients_ascend(a),
        clients_ascend(b),
        forall|id: ClientId| #[trigger] a.contains(id) <==> b.contains(id),
    ensures
        a == b,
    decreases a.len(),
{
    if a.len() == 0 {
        if b.len() > 0 {
            assert(b.contains(b[0]));
            assert(a.contains(b[0]));
        }
        assert(a =~= b);
    } else {
        assert(a.contains(a.last()));
        assert(b.contains(a.last()));
        assert(b.len() > 0);
        assert(b.contains(b.last()));
        assert(a.contains(b.last()));
        assert(a.last() == b.last());
        let a1 = a.drop_last();
        let b1 = b.drop_last();
        assert forall|id: ClientId| #[trigger] a1.contains(id) <==> b1.contains(id) by {
            if a1.contains(id) {
                let n = choose|n: int| 0 <= n < a1.len() && a1[n] == id;
                assert(a[n] == id);
                assert(a.contains(id));
                assert(b.contains(id));
                let m = choose|m: int| 0 <= m < b.len() && b[m] == id;
                assert(b1[m] == id);
            }
            if b1.contains(id) {
                let n = choose|n: int| 0 <= n < b1.len() && b1[n] == id;
                assert(b[n] == id);
                assert(b.contains(id));
                assert(a.contains(id));
                let m = choose|m: int| 0 <= m < a.len() && a[m] == id;
                assert(a1[m] == id);
            }
        }
        lemma_ascending_unique(a1, b1);
        assert(a =~= a1.push(a.last()));
        assert(b =~= b1.push(b.last()));
    }
}

/// The table of all clients: a heading, and a line for each, by number.
pub open spec fn client_table(
    clients: Map<ClientId, ClientView>,
    editor: Option<Seq<char>>,
) -> Seq<char> {
    let ids = choose|ids: Seq<ClientId>| is_client_list(ids, clients);
    joined(
        seq!["CLIENT_ID ZELLIJ_PANE_ID RUNNING_COMMAND"@] + ids.map_values(
            |id: ClientId| client_line(id, clients[id], editor),
        ),
        "\n"@,
    )
}

/// The numbers of the clients, in ascending order.
fn client_ids(clients: &BTreeMap<ClientId, ClientMetadata>) -> (ids: Vec<ClientId>)
    ensures
        is_client_list(ids@, client_views(clients@)),
{
    broadcast use vstd::laws_cmp::group_laws_cmp;

    let keys = clients.keys();
    let ghost all = keys.remaining();
    let mut ids: Vec<ClientId> = Vec::new();
    for key in it: keys
        invariant
            it.seq() == all,
            ids@ == all.unref().take(it.index()),
    {
        ids.push(*key);
    }
    proof {
        assert(ids@ =~= all.unref());
        assert(vstd::std_specs::btree::increasing_seq(all));
        assert forall|i: int, j: int| 0 <= i < j < ids@.len() implies ids@[i] < ids@[j] by {
            assert(OrdSpec::cmp_spec(&all[i], &all[j]) is Less);
        }
        assert forall|id: ClientId| #[trigger]
            ids@.contains(id) <==> client_views(clients@).contains_key(id) by {
            assert(all.unref().to_set().contains(id) <==> clients@.dom().contains(id));
        }
    }
    ids
}

/// The client of a number.
fn client_of(clients: &BTreeMap<ClientId, ClientMetadata>, id: ClientId) -> (client: Option<
    &ClientMetadata,
>)
    ensures
        client == (if clients@.contains_key(id) {
            Some(&clients@[id])
        } else {
            None
        }),
{
    broadcast use vstd::laws_cmp::group_laws_cmp;

    clients.get(&id)
}

/// Puts a client under its number, in place of the one that was there.
pub fn set_client(
    clients: &mut BTreeMap<ClientId, ClientMetadata>,
    id: ClientId,
    client: ClientMetadata,
)
    ensures
        client_views(final(clients)@) == client_views(old(clients)@).insert(id, client@),
{
    broadcast use vstd::laws_cmp::group_laws_cmp;

    let ghost before = client_views(clients@);
    clients.insert(id, client);
    assert(client_views(clients@) =~= before.insert(id, client@));
}

impl ClientMetadata {
    /// A client that focuses a pane in which this runs.
    pub fn new(pane_id: PaneId, command: Option<Run>) -> (client: ClientMetadata)
        ensures
            client@ == (ClientView { pane_id, command: opt_run(command) }),
    {
        ClientMetadata { pane_id, command }
    }

    /// The pane that the client focuses, by kind and number.
    pub fn stringify_pane_id(&self) -> (s: String)
        ensures
            s@ == pane_id_text(self@.pane_id),
    {
        text_of_pane_id(self.pane_id)
    }

    /// What runs in the pane that the client focuses; `N/A` where that cannot
    /// be told.
    pub fn stringify_command(&self, editor: &Option<String>) -> (s: String)
        ensures
            s@ == shown_command(self@.command, opt_text(*editor)),
    {
        match &self.command {
            Some(Run::Command(c)) => {
                let mut s = c.command.clone();
                s.append(" ");
                s.append(join_texts(&c.args, " ").as_str());
                s
            },
            Some(Run::EditFile(file, _, _)) => match editor {
                Some(program) => {
                    let mut s = program.clone();
                    s.append(" ");
                    s.append(file.as_str());
                    s
                },
                None => "N/A".to_string(),
            },
            Some(Run::Plugin(plugin)) => plugin.location_string(),
            _ => "N/A".to_string(),
        }
    }

    /// The pane that the client focuses.
    pub fn get_pane_id(&self) -> (id: PaneId)
        ensures
            id == self@.pane_id,
    {
        self.pane_id
    }

    /// The line about the client of this number.
    fn render(&self, id: ClientId, default_editor: &Option<String>) -> (line: String)
        ensures
            line@ == client_line(id, self@, opt_text(*default_editor)),
    {
        let mut line = pad_text(decimal_text(id as u64).as_str(), 9);
        line.append(" ");
        line.append(pad_text(self.stringify_pane_id().as_str(), 14).as_str());
        line.append(" ");
        line.append(pad_text(self.stringify_command(default_editor).as_str(), 15).as_str());
        line
    }

    /// The table of all clients.
    pub fn render_many(
        clients_metadata: BTreeMap<ClientId, ClientMetadata>,
        default_editor: &Option<String>,
    ) -> (table: String)
        ensures
            table@ == client_table(client_views(clients_metadata@), opt_text(*default_editor)),
    {
        let ids = client_ids(&clients_metadata);
        let ghost clients = client_views(clients_metadata@);
        let ghost editor = opt_text(*default_editor);
        let ghost heading = "CLIENT_ID ZELLIJ_PANE_ID RUNNING_COMMAND"@;
        let ghost goal = ids@.map_values(|id: ClientId| client_line(id, clients[id], editor));
        let mut lines: Vec<String> = Vec::new();
        lines.push("CLIENT_ID ZELLIJ_PANE_ID RUNNING_COMMAND".to_string());
        let mut i: usize = 0;
        assert(texts(lines@) =~= seq![heading] + goal.take(0));
        while i < ids.len()
            invariant
                i <= ids@.len(),
                is_client_list(ids@, clients),
                clients == client_views(clients_metadata@),
                editor == opt_text(*default_editor),
                goal == ids@.map_values(|id: ClientId| client_line(id, clients[id], editor)),
                texts(lines@) == seq![heading] + goal.take(i as int),
            decreases ids@.len() - i,
        {
            let id = ids[i];
            assert(ids@.contains(id));
            assert(clients.contains_key(id));
            if let Some(client) = client_of(&clients_metadata, id) {
                let ghost before = lines@;
                let line = client.render(id, default_editor);
                lines.push(line);
                assert(texts(lines@) =~= texts(before).push(line@));
                assert(goal.take(i + 1) =~= goal.take(i as int).push(line@));
            }
            i += 1;
        }
        assert(goal.take(i as int) =~= goal);
        proof {
            let listed = choose|l: Seq<ClientId>| is_client_list(l, clients);
            client_list_is_unique(ids@, listed, clients);
        }
        join_texts(&lines, "\n")
    }
}

/// What a client is shown to run: a command with its arguments, each behind a
/// blank; the editor with the file that is open in it; or the plugin, by its
/// location or the name that stands for it. `N/A` stands for all else, and for a
/// file without a known editor.
pub proof fn shown_commands_name_what_runs(run: RunView, editor: Option<Seq<char>>)
    ensures
        run matches RunView::Command(c) ==> {
            &&& c.args.len() == 0 ==> shown_command(Some(run), editor) == c.command + seq![' ']
            &&& c.args.len() > 0 ==> shown_command(Some(run), editor) == c.command + seq![' ']
                + joined(c.args, seq![' '])
        },
        run matches RunView::EditFile(file, _, _) ==> {
            &&& editor matches Some(program) ==> shown_command(Some(run), editor) == program + seq![
                ' ',
            ] + file
            &&& editor is None ==> shown_command(Some(run), editor) == seq!['N', '/', 'A']
        },
        run matches RunView::Plugin(PluginView::RunPlugin(p)) ==> shown_command(Some(run), editor)
            == p.location,
        run matches RunView::Plugin(PluginView::Alias { name, .. }) ==> shown_command(
            Some(run),
            editor,
        ) == name,
        run is Cwd ==> shown_command(Some(run), editor) == seq!['N', '/', 'A'],
        shown_command(None, editor) == seq!['N', '/', 'A'],
{
    reveal_strlit(" ");
    reveal_strlit("N/A");
    assert(" "@ =~= seq![' ']);
    assert("N/A"@ =~= seq!['N', '/', 'A']);
    if let RunView::Command(c) = run {
        if c.args.len() == 0 {
            assert(shown_command(Some(run), editor) =~= c.command + seq![' ']);
        }
    }
}

/// A line of the table of clients has the number of the client, the kind and
/// number of its pane, and what it is shown to run, each from where its column of
/// the heading starts; only a pane that is too long for its column moves what
/// follows it.
pub proof fn lines_stand_under_the_heading(
    id: ClientId,
    client: ClientView,
    editor: Option<Seq<char>>,
)
    ensures
        ({
            let line = client_line(id, client, editor);
            let number = decimal(id as nat);
            let pane = pane_id_text(client.pane_id);
            let shown = shown_command(client.command, editor);
            let third: int = if pane.len() <= 14 {
                25
            } else {
                11 + pane.len() as int
            };
            &&& line.len() == third + (if shown.len() < 15 {
                15
            } else {
                shown.len() as int
            })
            &&& number.len() <= 9
            &&& line.take(number.len() as int) == number
            &&& forall|i: int| number.len() <= i < 10 ==> #[trigger] line[i] == ' '
            &&& line.skip(10).take(pane.len() as int) == pane
            &&& forall|i: int| 10 + pane.len() <= i < third ==> #[trigger] line[i] == ' '
            &&& line.skip(third).take(shown.len() as int) == shown
            &&& forall|i: int| third + shown.len() <= i < line.len() ==> #[trigger] line[i] == ' '
        }),
{
    reveal_strlit(" ");
    let line = client_line(id, client, editor);
    let number = decimal(id as nat);
    let pane = pane_id_text(client.pane_id);
    let shown = shown_command(client.command, editor);
    let third: int = if pane.len() <= 14 {
        25
    } else {
        11 + pane.len() as int
    };
    lemma_short_decimal(id as nat);
    let a = padded(number, 9);
    let b = padded(pane, 14);
    let c = padded(shown, 15);
    assert(a.len() == 9 && b.len() == third - 11);
    assert(line =~= a + " "@ + b + " "@ + c);
    assert(line.take(number.len() as int) =~= number);
    assert forall|i: int| 10 <= i < third - 1 implies #[trigger] line[i] == b[i - 10] by {}
    assert forall|i: int| third <= i < line.len() implies #[trigger] line[i] == c[i - third] by {}
    assert(line.skip(10).take(pane.len() as int) =~= pane);
    assert(line.skip(third).take(shown.len() as int) =~= shown);
}

proof fn lemma_short_decimal(n: nat)
    requires
        n < 100_000,
    ensures
        decimal(n).len() <= 5,
{
    reveal_with_fuel(decimal, 6);
}

/// A pane is named by its kind and its number.
pub proof fn panes_are_named_by_kind_and_number(n: u32)
    ensures
        pane_id_text(PaneId::Terminal(n)) == "terminal_"@ + decimal(n as nat),
        pane_id_text(PaneId::Plugin(n)) == "plugin_"@ + decimal(n as nat),
{
}

/// The table of clients has a heading and one line for each client, in ascending
/// order of their numbers.
pub proof fn table_has_a_line_for_each_client(
    clients: Map<ClientId, ClientView>,
    editor: Option<Seq<char>>,
    ids: Seq<ClientId>,
    last: ClientId,
    client: ClientView,
)
    requires
        is_client_list(ids, clients),
        forall|id: ClientId| #[trigger] clients.contains_key(id) ==> id < last,
    ensures
        client_table(Map::empty(), editor) == "CLIENT_ID ZELLIJ_PANE_ID RUNNING_COMMAND"@,
        client_table(clients.insert(last, client), editor) == client_table(clients, editor) + seq![
            '\n',
        ] + client_line(last, client, editor),
{
    let heading = "CLIENT_ID ZELLIJ_PANE_ID RUNNING_COMMAND"@;
    reveal_strlit("\n");
    assert("\n"@ =~= seq!['\n']);
    let none = Seq::<ClientId>::empty();
    let nobody = Map::<ClientId, ClientView>::empty();
    assert(is_client_list(none, nobody));
    client_list_is_unique(
        none,
        choose|l: Seq<ClientId>| is_client_list(l, nobody),
        nobody,
    );
    assert(seq![heading] + none.map_values(|id: ClientId| client_line(id, nobody[id], editor))
        =~= seq![heading]);
    let more = clients.insert(last, client);
    let longer = ids.push(last);
    assert forall|i: int, j: int| 0 <= i < j < longer.len() implies longer[i] < longer[j] by {
        if j == ids.len() {
            assert(ids.contains(ids[i]));
            assert(clients.contains_key(ids[i]));
        }
    }
    assert forall|id: ClientId| #[trigger] longer.contains(id) <==> more.contains_key(id) by {
        vstd::seq_lib::lemma_seq_contains_after_push(ids, last, id);
        assert(ids.contains(id) <==> clients.contains_key(id));
    }
    assert(is_client_list(longer, more));
    client_list_is_unique(
        longer,
        choose|l: Seq<ClientId>| is_client_list(l, more),
        more,
    );
    client_list_is_unique(
        ids,
        choose|l: Seq<ClientId>| is_client_list(l, clients),
        clients,
    );
    let before = seq![heading] + ids.map_values(
        |id: ClientId| client_line(id, clients[id], editor),
    );
    let after = seq![heading] + longer.map_values(
        |id: ClientId| client_line(id, more[id], editor),
    );
    assert forall|i: int| 0 <= i < ids.len() implies clients[ids[i]] == more[#[trigger] ids[i]] by {
        assert(ids.contains(ids[i]));
        assert(clients.contains_key(ids[i]));
    }
    assert(after.drop_last() =~= before);
    assert(after.last() == client_line(last, client, editor));
}

} // verus!
