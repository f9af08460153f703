//! Hot reload: PTY master descriptors outlive the server in the descriptor
//! daemon.
//!
//! The server that exits hands its live descriptors to the daemon, each under
//! a key made of its terminal id. The server that starts takes them back and
//! looks them up by terminal id, so that the order in which panes come back
//! need not match the order in which descriptors were stored.

use crate::fd_client::{
    client_learns_every_key, client_retrieves_everything, gathered, list_response, retrieve_answer,
};
use crate::fd_daemon::{is_plain_key, request_outcome, ActionView, RequestView};
use crate::fd_table::is_key_list;
use crate::text::{
    chars_of, decimal, decimal_reads_back, decimal_value, is_digit, parse_u32, push_decimal,
    starts_with_text, text_of, texts, trimmed, u32_of_text,
};
use std::collections::{BTreeMap, HashMap};
use vstd::prelude::*;
use vstd::std_specs::cmp::OrdSpec;
use vstd::std_specs::iter::IteratorSpec;
use vstd::utf8::encode_utf8;

verus! {

/// The key under which a terminal's descriptor is stored.
pub open spec fn key_of_terminal(terminal_id: u32) -> Seq<char> {
    "terminal_"@ + decimal(terminal_id as nat)
}

/// The terminal that a key belongs to; absent where it belongs to none.
pub open spec fn terminal_of_key(key: Seq<char>) -> Option<u32> {
    if "terminal_"@.is_prefix_of(key) {
        u32_of_text(key.skip("terminal_"@.len() as int))
    } else {
        None
    }
}

/// The key under which a terminal's descriptor is stored.
pub fn terminal_key(terminal_id: u32) -> (key: String)
    ensures
        key@ == key_of_terminal(terminal_id),
{
    let mut key = "terminal_".to_string();
    push_decimal(&mut key, terminal_id as u64);
    key
}

/// The terminal that a key belongs to; `None` where it belongs to none.
pub fn parse_terminal_key(key: &str) -> (terminal_id: Option<u32>)
    ensures
        terminal_id == terminal_of_key(key@),
{
    if !starts_with_text(key, "terminal_") {
        return None;
    }
    let chars = chars_of(key);
    proof {
        reveal_strlit("terminal_");
    }
    let rest = text_of(&chars, 9, chars.len());
    assert(rest@ =~= key@.skip(9));
    parse_u32(rest.as_str())
}

/// A terminal's key leads back to that terminal, and can travel in a request
/// to the daemon.
pub proof fn terminal_key_reads_back(terminal_id: u32)
    ensures
        terminal_of_key(key_of_terminal(terminal_id)) == Some(terminal_id),
        is_plain_key(key_of_terminal(terminal_id)),
{
    reveal_strlit("terminal_");
    let prefix = "terminal_"@;
    let digits = decimal(terminal_id as nat);
    let key = key_of_terminal(terminal_id);
    decimal_reads_back(terminal_id as nat);
    assert(prefix =~= key.subrange(0, 9));
    assert(key.skip(9) =~= digits);
    assert(key[0] == 't');
    assert(key.last() == digits[digits.len() - 1]);
    assert(is_digit(digits[digits.len() - 1]));
    assert(trimmed(key) == key);
    if key.contains('\n') {
        let i = choose|i: int| 0 <= i < key.len() && key[i] == '\n';
        if i < 9 {
            assert(key[i] == prefix[i]);
        } else {
            assert(key[i] == digits[i - 9]);
            assert(is_digit(digits[i - 9]));
        }
    }
}

/// Two terminals never share a key.
pub proof fn terminal_keys_differ(a: u32, b: u32)
    requires
        a != b,
    ensures
        key_of_terminal(a) != key_of_terminal(b),
{
    terminal_key_reads_back(a);
    terminal_key_reads_back(b);
}

/// What a server knows of a hot reload: the descriptors that wait to be
/// claimed, by terminal id; whether the server is exiting for a reload; and
/// the session whose descriptors were taken back.
pub struct HotReload {
    fds: HashMap<u32, i32>,
    in_progress: bool,
    session: Option<String>,
}

/// The contents of `HotReload`.
pub struct HotReloadView {
    pub fds: Map<u32, i32>,
    pub in_progress: bool,
    pub session: Option<Seq<char>>,
}

impl View for HotReload {
    type V = HotReloadView;

    closed spec fn view(&self) -> HotReloadView {
        HotReloadView {
            fds: self.fds@,
            in_progress: self.in_progress,
            session: crate::text::opt_text(self.session),
        }
    }
}

impl HotReload {
    /// No reload: nothing waits to be claimed.
    pub fn new() -> (state: HotReload)
        ensures
            state@ == (HotReloadView {
                fds: Map::empty(),
                in_progress: false,
                session: None,
            }),
    {
        HotReload { fds: HashMap::new(), in_progress: false, session: None }
    }
}

/// Marks that the server is exiting for a hot reload.
pub fn set_hot_reload_in_progress(state: &mut HotReload)
    ensures
        final(state)@ == (HotReloadView { in_progress: true, ..old(state)@ }),
{
    state.in_progress = true;
}

/// Whether the server is exiting for a hot reload.
pub fn is_hot_reload_in_progress(state: &HotReload) -> (r: bool)
    ensures
        r == state@.in_progress,
{
    state.in_progress
}

/// Whether any descriptor waits to be claimed.
pub fn has_hot_reload_fds(state: &HotReload) -> (r: bool)
    ensures
        r == (state@.fds != Map::<u32, i32>::empty()),
{
    let empty: bool = state.fds.is_empty();
    assert(empty ==> state.fds@ =~= Map::<u32, i32>::empty());
    !empty
}

/// The descriptor that a terminal gets when it claims its own.
pub open spec fn claim(state: HotReloadView, terminal_id: u32) -> Option<i32> {
    if state.fds.contains_key(terminal_id) {
        Some(state.fds[terminal_id])
    } else {
        None
    }
}

/// Claims the descriptor of a terminal. `None` where none was stored for it;
/// the caller then starts a fresh terminal.
pub fn pop_hot_reload_fd(state: &mut HotReload, terminal_id: u32) -> (fd: Option<i32>)
    ensures
        fd == claim(old(state)@, terminal_id),
        fd == (if old(state)@.fds.contains_key(terminal_id) {
            Some(old(state)@.fds[terminal_id])
        } else {
            None
        }),
        final(state)@ == (HotReloadView {
            fds: old(state)@.fds.remove(terminal_id),
            ..old(state)@
        }),
{
    let fd = state.fds.remove(&terminal_id);
    fd
}

/// Whether every id is smaller than all that follow it.
pub open spec fn ids_ascend(ids: Seq<u32>) -> bool {
    forall|i: int, j: int| 0 <= i < j < ids.len() ==> ids[i] < ids[j]
}

/// Puts `id` at its place in an ascending list that lacks it.
fn insert_id(ids: &mut Vec<u32>, id: u32)
    requires
        ids_ascend(old(ids)@),
        !old(ids)@.contains(id),
    ensures
        ids_ascend(final(ids)@),
        forall|k: u32| #[trigger] final(ids)@.contains(k) <==> k == id || old(ids)@.contains(k),
{
    let ghost before = ids@;
    let mut at: usize = 0;
    while at < ids.len() && ids[at] < id
        invariant
            ids@ == before,
            at <= ids@.len(),
            forall|j: int| 0 <= j < at ==> ids@[j] < id,
        decreases ids@.len() - at,
    {
        at += 1;
    }
    assert(at < before.len() ==> before[at as int] > id) by {
        if at < before.len() {
            assert(before.contains(before[at as int]));
        }
    }
    ids.insert(at, id);
    proof {
        assert(ids@ =~= before.insert(at as int, id));
        assert forall|k: u32| #[trigger] ids@.contains(k) <==> k == id || before.contains(k) by {
            if before.contains(k) {
                let j = choose|j: int| 0 <= j < before.len() && before[j] == k;
                if j < at {
                    assert(ids@[j] == k);
                } else {
                    assert(ids@[j + 1] == k);
                }
            }
            if k == id {
                assert(ids@[at as int] == k);
            }
            if ids@.contains(k) && k != id {
                let j = choose|j: int| 0 <= j < ids@.len() && ids@[j] == k;
                if j < at {
                    assert(before[j] == k);
                } else {
                    assert(before[j - 1] == k);
                }
            }
        }
    }
}

/// The terminal ids of a map, in ascending order.
pub fn sorted_ids(fds: &HashMap<u32, i32>) -> (ids: Vec<u32>)
    ensures
        ids_ascend(ids@),
        forall|id: u32| #[trigger] ids@.contains(id) <==> fds@.contains_key(id),
{
    let mut ids: Vec<u32> = Vec::new();
    let ghost all = fds.keys().remaining();
    for key in it: fds.keys()
        invariant
            it.seq() == all,
            all.no_duplicates(),
            ids_ascend(ids@),
            forall|id: u32| #[trigger]
                ids@.contains(id) <==> all.unref().take(it.index()).contains(id),
    {
        let ghost seen = all.unref().take(it.index());
        assert(all.unref().take(it.index() + 1) =~= seen.push(*key));
        assert(!seen.contains(*key)) by {
            if seen.contains(*key) {
                let j = choose|j: int| 0 <= j < seen.len() && seen[j] == *key;
                assert(all[j] == all[it.index()]);
            }
        }
        insert_id(&mut ids, *key);
        assert forall|id: u32| #[trigger] ids@.contains(id) <==> seen.push(*key).contains(id) by {
            vstd::seq_lib::lemma_seq_contains_after_push(seen, *key, id);
        }
    }
    proof {
        assert(all.unref().take(all.len() as int) =~= all.unref());
        assert forall|id: u32| #[trigger] ids@.contains(id) <==> fds@.contains_key(id) by {
            assert(all.unref().to_set().contains(id) <==> fds@.dom().contains(id));
        }
    }
    ids
}

/// Forgets the session of the reload and tells which terminals have not
/// claimed their descriptor yet, in ascending order.
///
/// The descriptors stay: panes in inactive tabs start only when their tab is
/// first shown, and may claim them any time later.
pub fn cleanup_unused_hot_reload_fds(state: &mut HotReload) -> (unclaimed: Vec<u32>)
    ensures
        final(state)@ == (HotReloadView { session: None, ..old(state)@ }),
        ids_ascend(unclaimed@),
        forall|id: u32| #[trigger]
            unclaimed@.contains(id) <==> old(state)@.fds.contains_key(id),
{
    let unclaimed = sorted_ids(&state.fds);
    state.session = None;
    unclaimed
}

/// The terminal ids of an ordered map, in ascending order.
fn map_ids(fds: &BTreeMap<u32, Option<i32>>) -> (ids: Vec<u32>)
    ensures
        ids_ascend(ids@),
        forall|id: u32| #[trigger] ids@.contains(id) <==> fds@.contains_key(id),
        ids@.len() == fds@.len(),
{
    broadcast use vstd::laws_cmp::group_laws_cmp;

    let keys = fds.keys();
    let ghost all = keys.remaining();
    let mut ids: Vec<u32> = Vec::new();
    for key in it: keys
        invariant
            it.seq() == all,
            ids@ == all.unref().take(it.index()),
    {
        ids.push(*key);
    }
    proof {
        assert(ids@ =~= all.unref());
        assert(vstd::std_specs::btree::increasing_seq(all));
        assert forall|i: int, j: int| 0 <= i < j < ids@.len() implies ids@[i] < ids@[j] by {
            assert(OrdSpec::cmp_spec(&all[i], &all[j]) is Less);
        }
        assert forall|id: u32| #[trigger] ids@.contains(id) <==> fds@.contains_key(id) by {
            assert(all.unref().to_set().contains(id) <==> fds@.dom().contains(id));
        }
    }
    ids
}

/// The descriptor of a terminal that the map knows.
fn map_entry(fds: &BTreeMap<u32, Option<i32>>, id: u32) -> (fd: Option<i32>)
    requires
        fds@.contains_key(id),
    ensures
        fd == fds@[id],
{
    broadcast use vstd::laws_cmp::group_laws_cmp;

    match fds.get(&id) {
        Some(fd) => *fd,
        None => None,
    }
}

/// Whether `pending` lists the terminals that have a descriptor, in ascending
/// order, each with its descriptor.
pub open spec fn lists_set_fds(pending: Seq<(u32, i32)>, fds: Map<u32, Option<i32>>) -> bool {
    &&& forall|i: int, j: int| 0 <= i < j < pending.len() ==> pending[i].0 < pending[j].0
    &&& forall|id: u32, fd: i32| #[trigger]
        pending.contains((id, fd)) <==> fds.contains_key(id) && fds[id] == Some(fd)
}

/// A run that stores the descriptors of a server with the daemon, one after
/// another. A descriptor is probed first, so that none that is already closed
/// gets stored.
pub struct StoreRun {
    /// The terminals that have a descriptor.
    pub pending: Vec<(u32, i32)>,
    /// How many of them are dealt with.
    pub next: usize,
    pub stored: usize,
    pub skipped_dead: usize,
    /// How many terminals have no descriptor.
    pub skipped_unset: usize,
}

/// What came of the last thing that a store run asked for.
pub enum StoreEvent {
    Begin,
    Probed { alive: bool },
    Stored(Result<(), String>),
}

/// What a store run asks for.
pub enum StoreAction {
    /// Find out whether this descriptor is alive.
    Probe { terminal_id: u32, fd: i32 },
    /// Store this descriptor under this key.
    Store { key: String, fd: i32 },
    /// Every descriptor is dealt with.
    Finished,
    /// Storing failed; the remaining descriptors are left alone.
    Failed(String),
}

/// The contents of a `StoreRun`.
pub struct StoreView {
    pub pending: Seq<(u32, i32)>,
    pub next: int,
    pub stored: int,
    pub skipped_dead: int,
    pub skipped_unset: int,
}

/// What a store run asks for, with its texts as character sequences.
pub enum StoreActionView {
    Probe { terminal_id: u32, fd: i32 },
    Store { key: Seq<char>, fd: i32 },
    Finished,
    Failed(Seq<char>),
}

impl View for StoreRun {
    type V = StoreView;

    open spec fn view(&self) -> StoreView {
        StoreView {
            pending: self.pending@,
            next: self.next as int,
            stored: self.stored as int,
            skipped_dead: self.skipped_dead as int,
            skipped_unset: self.skipped_unset as int,
        }
    }
}

impl View for StoreAction {
    type V = StoreActionView;

    open spec fn view(&self) -> StoreActionView {
        match *self {
            StoreAction::Probe { terminal_id, fd } => StoreActionView::Probe { terminal_id, fd },
            StoreAction::Store { key, fd } => StoreActionView::Store { key: key@, fd },
            StoreAction::Finished => StoreActionView::Finished,
            StoreAction::Failed(message) => StoreActionView::Failed(message@),
        }
    }
}

/// What is due at the terminal whose turn it is.
pub open spec fn store_due(run: StoreView) -> (StoreView, StoreActionView) {
    if run.next < run.pending.len() {
        let (terminal_id, fd) = run.pending[run.next];
        (run, StoreActionView::Probe { terminal_id, fd })
    } else {
        (run, StoreActionView::Finished)
    }
}

/// What comes after an event: a live descriptor is stored under its terminal's
/// key, a dead one is skipped, and a failure to store ends the run.
pub open spec fn store_next(run: StoreView, event: StoreEvent) -> (StoreView, StoreActionView) {
    let turn = run.next < run.pending.len();
    match event {
        StoreEvent::Begin => store_due(run),
        StoreEvent::Probed { alive } => if !turn {
            store_due(run)
        } else if alive {
            let (terminal_id, fd) = run.pending[run.next];
            (run, StoreActionView::Store { key: key_of_terminal(terminal_id), fd })
        } else {
            store_due(
                StoreView { next: run.next + 1, skipped_dead: run.skipped_dead + 1, ..run },
            )
        },
        StoreEvent::Stored(Ok(_)) => if turn {
            store_due(StoreView { next: run.next + 1, stored: run.stored + 1, ..run })
        } else {
            store_due(run)
        },
        StoreEvent::Stored(Err(message)) => (run, StoreActionView::Failed(message@)),
    }
}

impl StoreRun {
    /// The terminals dealt with are those stored and those skipped as dead.
    pub open spec fn wf(self) -> bool {
        &&& self.next <= self.pending@.len()
        &&& self.stored + self.skipped_dead == self.next
    }

    /// A run over the descriptors of a server, by terminal id. A terminal
    /// without a descriptor is skipped.
    pub fn new(fds: &BTreeMap<u32, Option<i32>>) -> (run: StoreRun)
        ensures
            run.wf(),
            run.next == 0,
            lists_set_fds(run.pending@, fds@),
            run.pending@.len() + run.skipped_unset == fds@.len(),
    {
        let ids = map_ids(fds);
        let mut pending: Vec<(u32, i32)> = Vec::new();
        let mut skipped_unset: usize = 0;
        let mut i: usize = 0;
        while i < ids.len()
            invariant
                i <= ids@.len(),
                ids_ascend(ids@),
                forall|id: u32| #[trigger] ids@.contains(id) <==> fds@.contains_key(id),
                forall|a: int, b: int|
                    0 <= a < b < pending@.len() ==> pending@[a].0 < pending@[b].0,
                forall|a: int|
                    0 <= a < pending@.len() ==> (i < ids@.len() ==> (#[trigger] pending@[a]).0
                        < ids@[i as int]) && fds@.contains_key(pending@[a].0)
                        && fds@[pending@[a].0] == Some(pending@[a].1),
                forall|b: int|
                    0 <= b < i && fds@[#[trigger] ids@[b]] is Some ==> pending@.contains(
                        (ids@[b], fds@[ids@[b]]->0),
                    ),
                pending@.len() + skipped_unset == i,
            decreases ids@.len() - i,
        {
            let id: u32 = ids[i];
            assert(ids@.contains(id));
            let ghost before = pending@;
            match map_entry(fds, id) {
                Some(fd) => {
                    pending.push((id, fd));
                    proof {
                        assert(pending@.last() == (id, fd));
                        assert forall|e: (u32, i32)|
                            before.contains(e) || e == (id, fd) implies pending@.contains(e) by {
                            vstd::seq_lib::lemma_seq_contains_after_push(before, (id, fd), e);
                        }
                    }
                },
                None => {
                    skipped_unset += 1;
                },
            }
            i += 1;
        }
        proof {
            assert forall|id: u32, fd: i32| #[trigger]
                pending@.contains((id, fd)) <==> fds@.contains_key(id) && fds@[id] == Some(fd) by {
                if fds@.contains_key(id) && fds@[id] == Some(fd) {
                    assert(ids@.contains(id));
                    let b = choose|b: int| 0 <= b < ids@.len() && ids@[b] == id;
                    assert(fds@[ids@[b]] is Some);
                }
            }
        }
        StoreRun { pending, next: 0, stored: 0, skipped_dead: 0, skipped_unset }
    }

    fn due(&self) -> (action: StoreAction)
        ensures
            (self@, action@) == store_due(self@),
    {
        if self.next < self.pending.len() {
            let (terminal_id, fd) = self.pending[self.next];
            StoreAction::Probe { terminal_id, fd }
        } else {
            StoreAction::Finished
        }
    }

    /// What comes after an event.
    pub fn step(&mut self, event: StoreEvent) -> (action: StoreAction)
        requires
            old(self).wf(),
        ensures
            final(self).wf(),
            (final(self)@, action@) == store_next(old(self)@, event),
    {
        let turn: bool = self.next < self.pending.len();
        match event {
            StoreEvent::Probed { alive } => {
                if turn && alive {
                    let (terminal_id, fd) = self.pending[self.next];
                    return StoreAction::Store { key: terminal_key(terminal_id), fd };
                }
                if turn {
                    self.skipped_dead = self.skipped_dead + 1;
                    self.next = self.next + 1;
                }
                self.due()
            },
            StoreEvent::Stored(Ok(_)) => {
                if turn {
                    self.stored = self.stored + 1;
                    self.next = self.next + 1;
                }
                self.due()
            },
            StoreEvent::Stored(Err(message)) => StoreAction::Failed(message),
            StoreEvent::Begin => self.due(),
        }
    }
}

/// What is left of a store run for each event: a probe comes before the
/// request to store.
pub open spec fn store_phase(event: StoreEvent) -> int {
    match event {
        StoreEvent::Begin => 2,
        StoreEvent::Probed { .. } => 1,
        StoreEvent::Stored(_) => 0,
    }
}

/// A store run from an event to its end, with a daemon that holds `held` and
/// stores what it is given: the run, and what the daemon holds after it.
/// `alive` tells which descriptors are alive.
pub open spec fn store_to_end(
    run: StoreView,
    event: StoreEvent,
    alive: spec_fn(i32) -> bool,
    held: Map<Seq<char>, i32>,
) -> (StoreView, Map<Seq<char>, i32>)
    decreases run.pending.len() - run.next, store_phase(event),
    when 0 <= run.next <= run.pending.len()
{
    let (next, action) = store_next(run, event);
    match action {
        StoreActionView::Probe { fd, .. } => if next.next > run.next || event is Begin {
            store_to_end(next, StoreEvent::Probed { alive: alive(fd) }, alive, held)
        } else {
            (next, held)
        },
        StoreActionView::Store { key, fd } => store_to_end(
            next,
            StoreEvent::Stored(Ok(())),
            alive,
            held.insert(key, fd),
        ),
        _ => (next, held),
    }
}

/// What a daemon that held `held` holds once the live ones among the first `n`
/// descriptors are stored with it.
pub open spec fn with_live_fds(
    held: Map<Seq<char>, i32>,
    pending: Seq<(u32, i32)>,
    alive: spec_fn(i32) -> bool,
    n: int,
) -> Map<Seq<char>, i32>
    decreases n,
{
    if n <= 0 {
        held
    } else {
        let (terminal_id, fd) = pending[n - 1];
        let earlier = with_live_fds(held, pending, alive, n - 1);
        if alive(fd) {
            earlier.insert(key_of_terminal(terminal_id), fd)
        } else {
            earlier
        }
    }
}

/// A store run hands every live descriptor to the daemon under its terminal's
/// key, and no dead one.
pub proof fn store_run_stores_live_fds(
    run: StoreView,
    alive: spec_fn(i32) -> bool,
    held: Map<Seq<char>, i32>,
)
    requires
        run.next == 0,
    ensures
        ({
            let (end, after) = store_to_end(run, StoreEvent::Begin, alive, held);
            &&& end.next == run.pending.len()
            &&& after == with_live_fds(held, run.pending, alive, run.pending.len() as int)
        }),
{
    lemma_store_to_end(run, StoreEvent::Begin, alive, held, held);
}

proof fn lemma_store_to_end(
    run: StoreView,
    event: StoreEvent,
    alive: spec_fn(i32) -> bool,
    start: Map<Seq<char>, i32>,
    held: Map<Seq<char>, i32>,
)
    requires
        0 <= run.next <= run.pending.len(),
        match event {
            StoreEvent::Begin => held == with_live_fds(start, run.pending, alive, run.next),
            StoreEvent::Probed { alive: probed } => {
                &&& run.next < run.pending.len()
                &&& probed == alive(run.pending[run.next].1)
                &&& held == with_live_fds(start, run.pending, alive, run.next)
            },
            StoreEvent::Stored(outcome) => {
                &&& outcome is Ok
                &&& run.next < run.pending.len()
                &&& held == with_live_fds(start, run.pending, alive, run.next + 1)
            },
        },
    ensures
        ({
            let (end, after) = store_to_end(run, event, alive, held);
            &&& end.next == run.pending.len()
            &&& after == with_live_fds(start, run.pending, alive, run.pending.len() as int)
        }),
    decreases run.pending.len() - run.next, store_phase(event),
{
    let (next, action) = store_next(run, event);
    match action {
        StoreActionView::Probe { fd, .. } => {
            lemma_store_to_end(
                next,
                StoreEvent::Probed { alive: alive(fd) },
                alive,
                start,
                held,
            );
        },
        StoreActionView::Store { key, fd } => {
            lemma_store_to_end(
                next,
                StoreEvent::Stored(Ok(())),
                alive,
                start,
                held.insert(key, fd),
            );
        },
        _ => {},
    }
}

/// A run that takes descriptors back from the daemon. Each key is read as a
/// terminal's, and each descriptor is probed; what belongs to no terminal or
/// is dead is closed.
pub struct RetrieveRun {
    pending: Vec<(String, i32)>,
    next: usize,
    typed: HashMap<u32, i32>,
    unparseable: Vec<String>,
    dead: Vec<u32>,
}

/// The contents of a `RetrieveRun`: what the daemon handed over and how much
/// of it is dealt with; the live descriptors by terminal; the keys that
/// belong to no terminal; and the terminals whose descriptor is dead.
pub struct RetrieveView {
    pub pending: Seq<(Seq<char>, i32)>,
    pub next: int,
    pub typed: Map<u32, i32>,
    pub unparseable: Seq<Seq<char>>,
    pub dead: Seq<u32>,
}

/// What came of the last thing that a retrieve run asked for.
pub enum RetrieveEvent {
    Begin,
    Probed { alive: bool },
    Closed,
}

/// What a retrieve run asks for.
#[derive(Clone, Copy, Debug, PartialEq, Eq, Structural)]
pub enum RetrieveAction {
    /// Find out whether this descriptor is alive.
    Probe { terminal_id: u32, fd: i32 },
    /// Close this descriptor.
    Close { fd: i32 },
    /// Every descriptor is dealt with.
    Finished,
}

/// What is due at the entry whose turn it is.
pub open spec fn retrieve_due(run: RetrieveView) -> (RetrieveView, RetrieveAction) {
    if run.next < run.pending.len() {
        let (key, fd) = run.pending[run.next];
        match terminal_of_key(key) {
            Some(terminal_id) => (run, RetrieveAction::Probe { terminal_id, fd }),
            None => (
                RetrieveView {
                    next: run.next + 1,
                    unparseable: run.unparseable.push(key),
                    ..run
                },
                RetrieveAction::Close { fd },
            ),
        }
    } else {
        (run, RetrieveAction::Finished)
    }
}

/// What comes after an event.
pub open spec fn retrieve_next(run: RetrieveView, event: RetrieveEvent) -> (
    RetrieveView,
    RetrieveAction,
) {
    match event {
        RetrieveEvent::Probed { alive } => if run.next < run.pending.len() && terminal_of_key(
            run.pending[run.next].0,
        ) is Some {
            let (key, fd) = run.pending[run.next];
            let terminal_id = terminal_of_key(key)->0;
            if alive {
                retrieve_due(
                    RetrieveView {
                        next: run.next + 1,
                        typed: run.typed.insert(terminal_id, fd),
                        ..run
                    },
                )
            } else {
                (
                    RetrieveView { next: run.next + 1, dead: run.dead.push(terminal_id), ..run },
                    RetrieveAction::Close { fd },
                )
            }
        } else {
            retrieve_due(run)
        },
        _ => retrieve_due(run),
    }
}

/// Entries, with their keys as character sequences.
pub open spec fn entry_texts(entries: Seq<(String, i32)>) -> Seq<(Seq<char>, i32)> {
    entries.map_values(|e: (String, i32)| (e.0@, e.1))
}

impl View for RetrieveRun {
    type V = RetrieveView;

    closed spec fn view(&self) -> RetrieveView {
        RetrieveView {
            pending: entry_texts(self.pending@),
            next: self.next as int,
            typed: self.typed@,
            unparseable: texts(self.unparseable@),
            dead: self.dead@,
        }
    }
}

impl RetrieveRun {
    /// No more is dealt with than there is.
    pub closed spec fn wf(self) -> bool {
        self.next <= self.pending@.len()
    }

    /// A run over what the daemon handed over.
    pub fn new(entries: Vec<(String, i32)>) -> (run: RetrieveRun)
        ensures
            run.wf(),
            run@ == (RetrieveView {
                pending: entry_texts(entries@),
                next: 0,
                typed: Map::empty(),
                unparseable: Seq::empty(),
                dead: Seq::empty(),
            }),
    {
        let run = RetrieveRun {
            pending: entries,
            next: 0,
            typed: HashMap::new(),
            unparseable: Vec::new(),
            dead: Vec::new(),
        };
        assert(run@.unparseable =~= Seq::empty());
        assert(run@.dead =~= Seq::empty());
        run
    }

    fn due(&mut self) -> (action: RetrieveAction)
        requires
            old(self).wf(),
        ensures
            final(self).wf(),
            (final(self)@, action) == retrieve_due(old(self)@),
    {
        let ghost before = self@;
        if self.next >= self.pending.len() {
            return RetrieveAction::Finished;
        }
        let fd: i32 = self.pending[self.next].1;
        assert(before.pending[before.next] == (self.pending@[self.next as int].0@, fd));
        match parse_terminal_key(self.pending[self.next].0.as_str()) {
            Some(terminal_id) => RetrieveAction::Probe { terminal_id, fd },
            None => {
                let key = self.pending[self.next].0.clone();
                self.unparseable.push(key);
                self.next = self.next + 1;
                assert(self@.unparseable =~= before.unparseable.push(key@));
                RetrieveAction::Close { fd }
            },
        }
    }

    /// What comes after an event.
    pub fn step(&mut self, event: RetrieveEvent) -> (action: RetrieveAction)
        requires
            old(self).wf(),
        ensures
            final(self).wf(),
            (final(self)@, action) == retrieve_next(old(self)@, event),
    {
        let ghost before = self@;
        if let RetrieveEvent::Probed { alive } = event {
            if self.next < self.pending.len() {
                let fd: i32 = self.pending[self.next].1;
                assert(before.pending[before.next] == (self.pending@[self.next as int].0@, fd));
                if let Some(terminal_id) = parse_terminal_key(self.pending[self.next].0.as_str()) {
                    self.next = self.next + 1;
                    if alive {
                        self.typed.insert(terminal_id, fd);
                    } else {
                        self.dead.push(terminal_id);
                        return RetrieveAction::Close { fd };
                    }
                }
            }
        }
        self.due()
    }

    /// How many keys belong to no terminal.
    pub fn unparseable_count(&self) -> (n: usize)
        ensures
            n == self@.unparseable.len(),
    {
        self.unparseable.len()
    }

    /// How many descriptors were dead.
    pub fn dead_count(&self) -> (n: usize)
        ensures
            n == self@.dead.len(),
    {
        self.dead.len()
    }

    /// The terminals that got their descriptor back, in ascending order.
    pub fn live_ids(&self) -> (ids: Vec<u32>)
        ensures
            ids_ascend(ids@),
            forall|id: u32| #[trigger] ids@.contains(id) <==> self@.typed.contains_key(id),
    {
        sorted_ids(&self.typed)
    }
}

/// Makes what a run took back the descriptors that wait to be claimed.
pub fn install_retrieved(state: &mut HotReload, session_name: &str, run: RetrieveRun)
    ensures
        final(state)@ == (HotReloadView {
            fds: run@.typed,
            session: Some(session_name@),
            ..old(state)@
        }),
{
    state.fds = run.typed;
    state.session = Some(session_name.to_string());
}

/// What a server knows after it tried to take descriptors back for a session.
/// A try that found no daemon (`None`), that failed, or that came back with
/// nothing leaves everything as it was.
pub open spec fn after_retrieval(
    state: HotReloadView,
    session_name: Seq<char>,
    outcome: Option<Result<RetrieveRun, String>>,
) -> HotReloadView {
    match outcome {
        Some(Ok(run)) if run@.pending.len() > 0 => HotReloadView {
            fds: run@.typed,
            session: Some(session_name),
            ..state
        },
        _ => state,
    }
}

/// Ends a try to take descriptors back for a session: what a run took back
/// waits to be claimed. Without a daemon, after a failure, and where the daemon
/// held nothing, what waited before goes on waiting.
pub fn settle_retrieval(
    state: &mut HotReload,
    session_name: &str,
    outcome: Option<Result<RetrieveRun, String>>,
)
    ensures
        final(state)@ == after_retrieval(old(state)@, session_name@, outcome),
        final(state)@.in_progress == old(state)@.in_progress,
        outcome is None ==> final(state)@ == old(state)@,
        outcome matches Some(Err(_)) ==> final(state)@ == old(state)@,
        outcome matches Some(Ok(run)) ==> (if run@.pending.len() == 0 {
            final(state)@ == old(state)@
        } else {
            final(state)@.fds == run@.typed && final(state)@.session == Some(session_name@)
        }),
{
    if let Some(Ok(run)) = outcome {
        if run.pending.len() > 0 {
            install_retrieved(state, session_name, run);
        }
    }
}

/// How many descriptors wait to be claimed.
pub fn unclaimed_fds(state: &HotReload) -> (n: usize)
    ensures
        n == state@.fds.len(),
{
    state.fds.len()
}

/// A retrieve run from an event to its end, where `alive` tells which
/// descriptors are alive.
pub open spec fn retrieve_to_end(
    run: RetrieveView,
    event: RetrieveEvent,
    alive: spec_fn(i32) -> bool,
) -> RetrieveView
    decreases
            run.pending.len() - run.next,
            (if event is Probed {
                0int
            } else {
                1int
            }),
    when 0 <= run.next <= run.pending.len()
{
    let (next, action) = retrieve_next(run, event);
    match action {
        RetrieveAction::Finished => next,
        RetrieveAction::Close { fd } => retrieve_to_end(next, RetrieveEvent::Closed, alive),
        RetrieveAction::Probe { terminal_id, fd } => if next.next > run.next || !(event is Probed) {
            retrieve_to_end(next, RetrieveEvent::Probed { alive: alive(fd) }, alive)
        } else {
            next
        },
    }
}

/// The live descriptors among the first `n` entries, by terminal. Where two
/// keys belong to one terminal, the later entry stands.
pub open spec fn live_fds(
    pending: Seq<(Seq<char>, i32)>,
    alive: spec_fn(i32) -> bool,
    n: int,
) -> Map<u32, i32>
    decreases n,
{
    if n <= 0 {
        Map::empty()
    } else {
        let (key, fd) = pending[n - 1];
        let earlier = live_fds(pending, alive, n - 1);
        match terminal_of_key(key) {
            Some(terminal_id) => if alive(fd) {
                earlier.insert(terminal_id, fd)
            } else {
                earlier
            },
            None => earlier,
        }
    }
}

/// A retrieve run keeps exactly the live descriptors whose keys belong to terminals.
pub proof fn retrieve_run_keeps_live_fds(
    pending: Seq<(Seq<char>, i32)>,
    alive: spec_fn(i32) -> bool,
)
    ensures
        ({
            let start = RetrieveView {
                pending,
                next: 0,
                typed: Map::empty(),
                unparseable: Seq::empty(),
                dead: Seq::empty(),
            };
            let end = retrieve_to_end(start, RetrieveEvent::Begin, alive);
            end.next == pending.len() && end.typed == live_fds(
                pending,
                alive,
                pending.len() as int,
            )
        }),
{
    let start = RetrieveView {
        pending,
        next: 0,
        typed: Map::empty(),
        unparseable: Seq::empty(),
        dead: Seq::empty(),
    };
    lemma_retrieve_to_end(start, RetrieveEvent::Begin, alive);
}

proof fn lemma_retrieve_to_end(
    run: RetrieveView,
    event: RetrieveEvent,
    alive: spec_fn(i32) -> bool,
)
    requires
        0 <= run.next <= run.pending.len(),
        run.typed == live_fds(run.pending, alive, run.next),
        event is Probed ==> run.next < run.pending.len() && event == (RetrieveEvent::Probed {
            alive: alive(run.pending[run.next].1),
        }) && terminal_of_key(run.pending[run.next].0) is Some,
    ensures
        ({
            let end = retrieve_to_end(run, event, alive);
            &&& end.next == run.pending.len()
            &&& end.typed == live_fds(run.pending, alive, run.pending.len() as int)
        }),
    decreases
            run.pending.len() - run.next,
            (if event is Probed {
                0int
            } else {
                1int
            }),
{
    let (next, action) = retrieve_next(run, event);
    reveal_with_fuel(live_fds, 3);
    match action {
        RetrieveAction::Finished => {},
        RetrieveAction::Close { fd } => {
            lemma_retrieve_to_end(next, RetrieveEvent::Closed, alive);
        },
        RetrieveAction::Probe { terminal_id, fd } => {
            lemma_retrieve_to_end(next, RetrieveEvent::Probed { alive: alive(fd) }, alive);
        },
    }
}

/// A live descriptor that was stored under a terminal's key comes back for
/// that terminal, wherever it stands among the others, unless a later key
/// belongs to the same terminal and its descriptor is alive too.
pub proof fn stored_descriptor_comes_back(
    pending: Seq<(Seq<char>, i32)>,
    alive: spec_fn(i32) -> bool,
    i: int,
    terminal_id: u32,
)
    requires
        0 <= i < pending.len(),
        pending[i].0 == key_of_terminal(terminal_id),
        alive(pending[i].1),
        forall|j: int|
            i < j < pending.len() ==> terminal_of_key((#[trigger] pending[j]).0) != Some(
                terminal_id,
            ) || !alive(pending[j].1),
    ensures
        live_fds(pending, alive, pending.len() as int).contains_key(terminal_id),
        live_fds(pending, alive, pending.len() as int)[terminal_id] == pending[i].1,
{
    terminal_key_reads_back(terminal_id);
    lemma_live_fd_stays(pending, alive, i, terminal_id, pending.len() as int);
}

proof fn lemma_live_fd_stays(
    pending: Seq<(Seq<char>, i32)>,
    alive: spec_fn(i32) -> bool,
    i: int,
    terminal_id: u32,
    n: int,
)
    requires
        0 <= i < n <= pending.len(),
        terminal_of_key(pending[i].0) == Some(terminal_id),
        alive(pending[i].1),
        forall|j: int|
            i < j < pending.len() ==> terminal_of_key((#[trigger] pending[j]).0) != Some(
                terminal_id,
            ) || !alive(pending[j].1),
    ensures
        live_fds(pending, alive, n).contains_key(terminal_id),
        live_fds(pending, alive, n)[terminal_id] == pending[i].1,
    decreases n,
{
    if n > i + 1 {
        lemma_live_fd_stays(pending, alive, i, terminal_id, n - 1);
        assert(terminal_of_key(pending[n - 1].0) != Some(terminal_id) || !alive(pending[n - 1].1));
    }
}

/// What is claimed is claimed once: a second claim for the same terminal
/// comes away empty, and claims for other terminals are unaffected.
pub proof fn descriptor_is_claimed_once(fds: Map<u32, i32>, terminal_id: u32, other: u32)
    ensures
        !fds.remove(terminal_id).contains_key(terminal_id),
        other != terminal_id ==> (fds.remove(terminal_id).contains_key(other)
            <==> fds.contains_key(other)),
        other != terminal_id && fds.contains_key(other) ==> fds.remove(terminal_id)[other]
            == fds[other],
{
}

proof fn lemma_stored_fds(
    pending: Seq<(u32, i32)>,
    alive: spec_fn(i32) -> bool,
    n: int,
    key: Seq<char>,
)
    requires
        0 <= n <= pending.len(),
        forall|i: int, j: int| 0 <= i < j < pending.len() ==> pending[i].0 < pending[j].0,
    ensures
        ({
            let held = with_live_fds(Map::empty(), pending, alive, n);
            &&& held.contains_key(key) <==> exists|i: int|
                0 <= i < n && key_of_terminal((#[trigger] pending[i]).0) == key && alive(
                    pending[i].1,
                )
            &&& forall|i: int|
                0 <= i < n && key_of_terminal((#[trigger] pending[i]).0) == key && alive(
                    pending[i].1,
                ) ==> held[key] == pending[i].1
        }),
    decreases n,
{
    if n > 0 {
        let earlier = with_live_fds(Map::empty(), pending, alive, n - 1);
        let held = with_live_fds(Map::empty(), pending, alive, n);
        lemma_stored_fds(pending, alive, n - 1, key);
        let (id, fd) = pending[n - 1];
        if alive(fd) && key_of_terminal(id) == key {
            assert(held.contains_key(key) && held[key] == fd);
        } else {
            assert(held.contains_key(key) == earlier.contains_key(key));
        }
        assert forall|i: int|
            0 <= i < n && key_of_terminal((#[trigger] pending[i]).0) == key && alive(
                pending[i].1,
            ) implies held[key] == pending[i].1 by {
            if i < n - 1 {
                terminal_keys_differ(pending[i].0, id);
            }
        }
    }
}

proof fn lemma_retrieved_fds(
    entries: Seq<(Seq<char>, i32)>,
    alive: spec_fn(i32) -> bool,
    n: int,
    terminal_id: u32,
)
    requires
        0 <= n <= entries.len(),
    ensures
        ({
            let back = live_fds(entries, alive, n);
            &&& back.contains_key(terminal_id) <==> exists|j: int|
                0 <= j < n && terminal_of_key((#[trigger] entries[j]).0) == Some(terminal_id)
                    && alive(entries[j].1)
            &&& back.contains_key(terminal_id) ==> exists|j: int|
                0 <= j < n && terminal_of_key((#[trigger] entries[j]).0) == Some(terminal_id)
                    && back[terminal_id] == entries[j].1
        }),
    decreases n,
{
    if n > 0 {
        lemma_retrieved_fds(entries, alive, n - 1, terminal_id);
        let back = live_fds(entries, alive, n);
        let earlier = live_fds(entries, alive, n - 1);
        let (key, fd) = entries[n - 1];
        if terminal_of_key(key) == Some(terminal_id) && alive(fd) {
            assert(back.contains_key(terminal_id) && back[terminal_id] == fd);
        } else {
            assert(back.contains_key(terminal_id) == earlier.contains_key(terminal_id));
            if earlier.contains_key(terminal_id) {
                assert(back[terminal_id] == earlier[terminal_id]);
            }
        }
    }
}

/// What a hot reload is for: once the live descriptors of a server are stored
/// with a fresh daemon, and all that the daemon lists is taken back, every
/// terminal has its own descriptor again, and no terminal has another's.
pub proof fn hot_reload_brings_live_fds_back(
    fds: Map<u32, Option<i32>>,
    pending: Seq<(u32, i32)>,
    alive: spec_fn(i32) -> bool,
    keys: Seq<Seq<char>>,
    terminal_id: u32,
)
    requires
        lists_set_fds(pending, fds),
        is_key_list(keys, with_live_fds(Map::empty(), pending, alive, pending.len() as int)),
    ensures
        ({
            let held = with_live_fds(Map::empty(), pending, alive, pending.len() as int);
            let entries = keys.map_values(|key: Seq<char>| (key, held[key]));
            let back = live_fds(entries, alive, entries.len() as int);
            &&& back.contains_key(terminal_id) <==> (fds.contains_key(terminal_id)
                && fds[terminal_id] is Some && alive(fds[terminal_id]->0))
            &&& back.contains_key(terminal_id) ==> Some(back[terminal_id]) == fds[terminal_id]
        }),
{
    let n = pending.len() as int;
    let held = with_live_fds(Map::empty(), pending, alive, n);
    let entries = keys.map_values(|key: Seq<char>| (key, held[key]));
    let back = live_fds(entries, alive, entries.len() as int);
    let own = key_of_terminal(terminal_id);
    terminal_key_reads_back(terminal_id);
    lemma_stored_fds(pending, alive, n, own);
    lemma_retrieved_fds(entries, alive, entries.len() as int, terminal_id);
    if back.contains_key(terminal_id) {
        let j = choose|j: int|
            0 <= j < entries.len() && terminal_of_key((#[trigger] entries[j]).0) == Some(
                terminal_id,
            ) && back[terminal_id] == entries[j].1;
        let key = keys[j];
        assert(keys.contains(key));
        assert(held.contains_key(key));
        lemma_stored_fds(pending, alive, n, key);
        let i = choose|i: int|
            0 <= i < n && key_of_terminal((#[trigger] pending[i]).0) == key && alive(pending[i].1);
        terminal_key_reads_back(pending[i].0);
        assert(pending[i].0 == terminal_id);
        assert(pending.contains((pending[i].0, pending[i].1)));
    }
    if fds.contains_key(terminal_id) && fds[terminal_id] is Some && alive(fds[terminal_id]->0) {
        let fd = fds[terminal_id]->0;
        assert(pending.contains((terminal_id, fd)));
        let i = choose|i: int| 0 <= i < n && pending[i] == (terminal_id, fd);
        assert(key_of_terminal(pending[i].0) == own);
        assert(held.contains_key(own) && held[own] == fd);
        assert(keys.contains(own));
        let j = choose|j: int| 0 <= j < keys.len() && keys[j] == own;
        assert(entries[j] == (own, fd));
        assert(terminal_of_key(entries[j].0) == Some(terminal_id));
    }
}

/// A hot reload over the wire: from a fresh daemon with which the live
/// descriptors of a server were stored, a client learns all keys, asks for each,
/// and so has what the daemon holds; and out of that every terminal has its own
/// descriptor again, and no terminal has another's.
pub proof fn hot_reload_round_trip(
    fds: Map<u32, Option<i32>>,
    pending: Seq<(u32, i32)>,
    alive: spec_fn(i32) -> bool,
    keys: Seq<Seq<char>>,
    terminal_id: u32,
)
    requires
        lists_set_fds(pending, fds),
        is_key_list(keys, with_live_fds(Map::empty(), pending, alive, pending.len() as int)),
    ensures
        ({
            let held = with_live_fds(Map::empty(), pending, alive, pending.len() as int);
            let reply = request_outcome(held, RequestView::List, None).actions.last();
            let found = gathered(
                keys,
                keys.map_values(|key: Seq<char>| retrieve_answer(held, key)),
            );
            let entries = keys.map_values(|key: Seq<char>| (key, found[key]));
            let back = live_fds(entries, alive, entries.len() as int);
            &&& reply matches ActionView::Send { text, .. } && list_response(encode_utf8(text))
                == Ok::<Seq<Seq<char>>, Seq<char>>(keys)
            &&& is_key_list(keys, found)
            &&& back.contains_key(terminal_id) <==> (fds.contains_key(terminal_id)
                && fds[terminal_id] is Some && alive(fds[terminal_id]->0))
            &&& back.contains_key(terminal_id) ==> Some(back[terminal_id]) == fds[terminal_id]
        }),
{
    let n = pending.len() as int;
    let held = with_live_fds(Map::empty(), pending, alive, n);
    reveal_strlit("terminal_");
    reveal_strlit(".");
    assert forall|key: Seq<char>| #[trigger] held.contains_key(key) implies is_plain_key(key)
        && key != "."@ by {
        lemma_stored_fds(pending, alive, n, key);
        let i = choose|i: int|
            0 <= i < n && key_of_terminal((#[trigger] pending[i]).0) == key && alive(pending[i].1);
        terminal_key_reads_back(pending[i].0);
        assert(key[0] == 't');
        assert("."@[0] == '.');
    }
    client_learns_every_key(held, keys);
    client_retrieves_everything(held, keys);
    hot_reload_brings_live_fds_back(fds, pending, alive, keys, terminal_id);
}

/// The start of a run over what the daemon handed over.
pub open spec fn fresh_retrieval(entries: Seq<(Seq<char>, i32)>) -> RetrieveView {
    RetrieveView {
        pending: entries,
        next: 0,
        typed: Map::empty(),
        unparseable: Seq::empty(),
        dead: Seq::empty(),
    }
}

proof fn lemma_retrieval_keeps_entries(
    run: RetrieveView,
    event: RetrieveEvent,
    alive: spec_fn(i32) -> bool,
)
    requires
        0 <= run.next <= run.pending.len(),
    ensures
        retrieve_to_end(run, event, alive).pending == run.pending,
    decreases
            run.pending.len() - run.next,
            (if event is Probed {
                0int
            } else {
                1int
            }),
{
    let (next, action) = retrieve_next(run, event);
    match action {
        RetrieveAction::Finished => {},
        RetrieveAction::Close { fd } => {
            lemma_retrieval_keeps_entries(next, RetrieveEvent::Closed, alive);
        },
        RetrieveAction::Probe { terminal_id, fd } => {
            if next.next > run.next || !(event is Probed) {
                lemma_retrieval_keeps_entries(
                    next,
                    RetrieveEvent::Probed { alive: alive(fd) },
                    alive,
                );
            }
        },
    }
}

/// After a retrieval in which the daemon handed over something, however much,
/// each terminal whose descriptor is alive gets this descriptor when it claims
/// its own. A terminal of which the daemon handed over nothing that is alive gets
/// none, whatever waited for it before.
pub proof fn retrieved_fds_can_be_claimed(
    state: HotReloadView,
    session_name: Seq<char>,
    entries: Seq<(Seq<char>, i32)>,
    run: RetrieveRun,
    alive: spec_fn(i32) -> bool,
    terminal_id: u32,
)
    requires
        entries.len() > 0,
        run@ == retrieve_to_end(fresh_retrieval(entries), RetrieveEvent::Begin, alive),
    ensures
        ({
            let after = after_retrieval(state, session_name, Some(Ok(run)));
            &&& after.session == Some(session_name)
            &&& after.in_progress == state.in_progress
            &&& forall|i: int|
                0 <= i < entries.len() && (#[trigger] entries[i]).0 == "terminal_"@ + decimal(
                    terminal_id as nat,
                ) && alive(entries[i].1) && (forall|j: int|
                    i < j < entries.len() ==> terminal_of_key((#[trigger] entries[j]).0) != Some(
                        terminal_id,
                    ) || !alive(entries[j].1)) ==> claim(after, terminal_id) == Some(entries[i].1)
            &&& (forall|j: int|
                0 <= j < entries.len() ==> terminal_of_key((#[trigger] entries[j]).0) != Some(
                    terminal_id,
                ) || !alive(entries[j].1)) ==> claim(after, terminal_id) is None
        }),
{
    let after = after_retrieval(state, session_name, Some(Ok(run)));
    let n = entries.len() as int;
    retrieve_run_keeps_live_fds(entries, alive);
    lemma_retrieval_keeps_entries(fresh_retrieval(entries), RetrieveEvent::Begin, alive);
    assert(run@.pending == entries);
    assert(after.fds == live_fds(entries, alive, n));
    assert forall|i: int|
        0 <= i < entries.len() && (#[trigger] entries[i]).0 == "terminal_"@ + decimal(
            terminal_id as nat,
        ) && alive(entries[i].1) && (forall|j: int|
            i < j < entries.len() ==> terminal_of_key((#[trigger] entries[j]).0) != Some(
                terminal_id,
            ) || !alive(entries[j].1)) implies claim(after, terminal_id) == Some(entries[i].1) by {
        stored_descriptor_comes_back(entries, alive, i, terminal_id);
    }
    lemma_retrieved_fds(entries, alive, n, terminal_id);
}

/// A try to take descriptors back that finds no daemon, fails, or brings nothing
/// leaves every descriptor to be claimed as before.
pub proof fn vain_retrieval_changes_nothing(
    state: HotReloadView,
    session_name: Seq<char>,
    error: String,
    empty: RetrieveRun,
    terminal_id: u32,
)
    requires
        empty@.pending.len() == 0,
    ensures
        after_retrieval(state, session_name, None) == state,
        after_retrieval(state, session_name, Some(Err(error))) == state,
        after_retrieval(state, session_name, Some(Ok(empty))) == state,
{
}

/// What a claim takes, no other claim gets, and every other terminal's claim
/// stays what it was.
pub proof fn claims_do_not_meet(state: HotReloadView, terminal_id: u32, other: u32)
    ensures
        ({
            let after = HotReloadView { fds: state.fds.remove(terminal_id), ..state };
            &&& claim(after, terminal_id) is None
            &&& other != terminal_id ==> claim(after, other) == claim(state, other)
        }),
{
}

/// Every descriptor that a retrieve run does not keep it has closed at once: one
/// whose key is no terminal's, and one that proves dead. One that proves alive is
/// kept for its terminal, and not closed.
pub proof fn retrieve_run_closes_what_it_drops(run: RetrieveView, terminal_id: u32)
    requires
        0 <= run.next < run.pending.len(),
    ensures
        ({
            let (key, fd) = run.pending[run.next];
            let (begun, first) = retrieve_next(run, RetrieveEvent::Begin);
            let (kept, _) = retrieve_next(run, RetrieveEvent::Probed { alive: true });
            let (dropped, last) = retrieve_next(run, RetrieveEvent::Probed { alive: false });
            &&& !"terminal_"@.is_prefix_of(key) ==> first == (RetrieveAction::Close { fd })
                && begun.next == run.next + 1 && begun.typed == run.typed && begun.unparseable
                == run.unparseable.push(key)
            &&& key == "terminal_"@ + decimal(terminal_id as nat) ==> {
                &&& first == (RetrieveAction::Probe { terminal_id, fd })
                &&& begun == run
                &&& kept.typed.contains_key(terminal_id) && kept.typed[terminal_id] == fd
                &&& last == (RetrieveAction::Close { fd })
                &&& dropped.typed == run.typed
                &&& dropped.next == run.next + 1
                &&& dropped.dead == run.dead.push(terminal_id)
            }
        }),
{
    terminal_key_reads_back(terminal_id);
}

/// A store run probes each descriptor before it stores it, stores one that is
/// alive under the key of its terminal, goes on past one that is dead, and ends
/// at the first failure with the reason of it.
pub proof fn store_run_probes_and_stores(run: StoreView, message: String)
    requires
        0 <= run.next < run.pending.len(),
    ensures
        ({
            let (terminal_id, fd) = run.pending[run.next];
            let (begun, first) = store_next(run, StoreEvent::Begin);
            let (probed, store) = store_next(run, StoreEvent::Probed { alive: true });
            let (skipped, _) = store_next(run, StoreEvent::Probed { alive: false });
            let (stored, _) = store_next(run, StoreEvent::Stored(Ok(())));
            let (failed, end) = store_next(run, StoreEvent::Stored(Err(message)));
            &&& begun == run && first == (StoreActionView::Probe { terminal_id, fd })
            &&& probed == run && store == (StoreActionView::Store {
                key: "terminal_"@ + decimal(terminal_id as nat),
                fd,
            })
            &&& skipped == (StoreView {
                next: run.next + 1,
                skipped_dead: run.skipped_dead + 1,
                ..run
            })
            &&& stored == (StoreView { next: run.next + 1, stored: run.stored + 1, ..run })
            &&& failed == run && end == StoreActionView::Failed(message@)
        }),
{
}

/// Only `terminal_` and a number is a terminal's key: the number may have a plus
/// sign and leading zeros, and must be one that a terminal can have.
pub proof fn only_numbers_are_terminal_keys(digits: Seq<char>, key: Seq<char>)
    requires
        digits.len() > 0,
        forall|i: int| 0 <= i < digits.len() ==> '0' <= #[trigger] digits[i] <= '9',
    ensures
        terminal_of_key("terminal_"@ + digits) == (if decimal_value(digits) <= u32::MAX {
            Some(decimal_value(digits) as u32)
        } else {
            None
        }),
        terminal_of_key("terminal_"@ + seq!['+'] + digits) == terminal_of_key(
            "terminal_"@ + digits,
        ),
        !"terminal_"@.is_prefix_of(key) ==> terminal_of_key(key) is None,
        terminal_of_key("terminal_"@) is None,
        (exists|i: int|
            9 < i < key.len() && !('0' <= #[trigger] key[i] <= '9')) ==> terminal_of_key(
            key,
        ) is None,
        key.len() > 9 && key[9] != '+' && !('0' <= key[9] <= '9') ==> terminal_of_key(key) is None,
{
    reveal_strlit("terminal_");
    let prefix = "terminal_"@;
    let plain = prefix + digits;
    let signed = prefix + seq!['+'] + digits;
    assert(plain.subrange(0, 9) =~= prefix);
    assert(signed.subrange(0, 9) =~= prefix);
    assert(prefix.subrange(0, 9) =~= prefix);
    assert(plain.skip(9) =~= digits);
    assert(signed.skip(9) =~= seq!['+'] + digits);
    assert(signed.skip(9).skip(1) =~= digits);
    assert('0' <= digits[0] <= '9');
    assert(prefix.skip(9).len() == 0);
    if prefix.is_prefix_of(key) && key.len() > 9 {
        let rest = key.skip(9);
        let tail = crate::text::unsigned_digits(rest);
        if exists|i: int| 9 < i < key.len() && !('0' <= #[trigger] key[i] <= '9') {
            let i = choose|i: int| 9 < i < key.len() && !('0' <= #[trigger] key[i] <= '9');
            if rest[0] == '+' {
                assert(tail[i - 10] == key[i]);
            } else {
                assert(tail[i - 9] == key[i]);
            }
        }
        if key[9] != '+' && !('0' <= key[9] <= '9') {
            assert(tail[0] == key[9]);
        }
    }
}

} // verus!
