//! The daemon that keeps PTY master descriptors across binary upgrades.
//!
//! Requests and replies are lines of text over a Unix socket; descriptors
//! travel beside them as ancillary data:
//!
//! ```text
//! STORE <key>    + descriptor   -> OK / ERR ...
//! RETRIEVE <key>                -> OK + descriptor / ERR ...
//! LIST                          -> key1\nkey2\n.\n
//! DELETE <key>                  -> OK / ERR ...
//! QUIT                          -> the daemon exits
//! ```
//!
//! This module decides; the process around it owns the sockets and carries
//! out the actions that it is handed.

use crate::fd_table::{is_key_list, key_list_counts_the_map, key_list_is_unique, FdTable};
use crate::text::{
    chars_of, find_char, first_of, is_space, lemma_first_of, lemma_first_of_unique,
    lemma_trimmed_ends, lemma_trimmed_fixpoint, lines, opt_text, same_text, split_lines, text_of, texts,
    trim_end, trim_start, trim_text, trimmed, without_cr,
};
use crate::utf8::text_from_utf8;
use vstd::prelude::*;
use vstd::utf8::{
    decode_utf8, encode_utf8, encode_utf8_decode_utf8, encode_utf8_valid_utf8, valid_utf8,
};

verus! {

/// What one line asks for. The key is absent where the line holds no blank.
pub enum Request {
    Store(Option<String>),
    Retrieve(Option<String>),
    List,
    Delete(Option<String>),
    Quit,
    Ping,
    Unknown(String),
}

/// A request, with its texts as character sequences.
pub enum RequestView {
    Store(Option<Seq<char>>),
    Retrieve(Option<Seq<char>>),
    List,
    Delete(Option<Seq<char>>),
    Quit,
    Ping,
    Unknown(Seq<char>),
}

impl View for Request {
    type V = RequestView;

    open spec fn view(&self) -> RequestView {
        match *self {
            Request::Store(key) => RequestView::Store(opt_text(key)),
            Request::Retrieve(key) => RequestView::Retrieve(opt_text(key)),
            Request::List => RequestView::List,
            Request::Delete(key) => RequestView::Delete(opt_text(key)),
            Request::Quit => RequestView::Quit,
            Request::Ping => RequestView::Ping,
            Request::Unknown(word) => RequestView::Unknown(word@),
        }
    }
}

/// The word before the first blank.
pub open spec fn command_of(line: Seq<char>) -> Seq<char> {
    line.take(first_of(line, ' '))
}

/// What follows the first blank, trimmed; absent where there is no blank.
pub open spec fn argument_of(line: Seq<char>) -> Option<Seq<char>> {
    let at = first_of(line, ' ');
    if at < line.len() {
        Some(trimmed(line.skip(at + 1)))
    } else {
        None
    }
}

/// The request that a line stands for.
pub open spec fn request_of(line: Seq<char>) -> RequestView {
    let word = command_of(line);
    if word == "STORE"@ {
        RequestView::Store(argument_of(line))
    } else if word == "RETRIEVE"@ {
        RequestView::Retrieve(argument_of(line))
    } else if word == "LIST"@ {
        RequestView::List
    } else if word == "DELETE"@ {
        RequestView::Delete(argument_of(line))
    } else if word == "QUIT"@ {
        RequestView::Quit
    } else if word == "PING"@ {
        RequestView::Ping
    } else {
        RequestView::Unknown(word)
    }
}

/// Reads one line as a request.
pub fn parse_request(line: &str) -> (request: Request)
    ensures
        request@ == request_of(line@),
{
    let chars = chars_of(line);
    assert(chars@.skip(0) == chars@);
    let at = find_char(&chars, 0, ' ');
    let word = text_of(&chars, 0, at);
    assert(word@ == command_of(line@));
    let mut argument: Option<String> = None;
    if at < chars.len() {
        let rest = text_of(&chars, at + 1, chars.len());
        assert(rest@ == line@.skip(at + 1));
        argument = Some(trim_text(rest.as_str()));
    }
    assert(opt_text(argument) == argument_of(line@));
    if same_text(word.as_str(), "STORE") {
        Request::Store(argument)
    } else if same_text(word.as_str(), "RETRIEVE") {
        Request::Retrieve(argument)
    } else if same_text(word.as_str(), "LIST") {
        Request::List
    } else if same_text(word.as_str(), "DELETE") {
        Request::Delete(argument)
    } else if same_text(word.as_str(), "QUIT") {
        Request::Quit
    } else if same_text(word.as_str(), "PING") {
        Request::Ping
    } else {
        Request::Unknown(word)
    }
}

/// One thing for the process to do: close a descriptor, or send text to the
/// client, with a descriptor beside it where there is one.
pub enum Action {
    Close(i32),
    Send { text: String, fd: Option<i32> },
}

/// An action, with its text as a character sequence.
pub enum ActionView {
    Close(i32),
    Send { text: Seq<char>, fd: Option<i32> },
}

impl View for Action {
    type V = ActionView;

    open spec fn view(&self) -> ActionView {
        match *self {
            Action::Close(fd) => ActionView::Close(fd),
            Action::Send { text, fd } => ActionView::Send { text: text@, fd },
        }
    }
}

/// A list of actions, with their texts as character sequences.
pub open spec fn action_views(actions: Seq<Action>) -> Seq<ActionView> {
    actions.map_values(|a: Action| a@)
}

/// A reply as it goes over the wire: the message, ended by a line feed.
pub open spec fn framed(message: Seq<char>) -> Seq<char> {
    if message.len() > 0 && message.last() == '\n' {
        message
    } else {
        message.push('\n')
    }
}

/// Ends a reply with a line feed unless it has one.
pub fn frame(message: &str) -> (text: String)
    ensures
        text@ == framed(message@),
{
    let chars = chars_of(message);
    let mut text = message.to_string();
    if chars.len() == 0 || chars[chars.len() - 1] != '\n' {
        text.push('\n');
    }
    text
}

/// Every key on a line of its own, then a line with a single dot.
pub open spec fn listing(keys: Seq<Seq<char>>) -> Seq<char>
    decreases keys.len(),
{
    if keys.len() == 0 {
        ".\n"@
    } else {
        keys[0].push('\n') + listing(keys.skip(1))
    }
}

/// The keys of a map in ascending order.
pub open spec fn key_list(m: Map<Seq<char>, i32>) -> Seq<Seq<char>> {
    choose|keys: Seq<Seq<char>>| is_key_list(keys, m)
}

/// What the daemon does about a request: the descriptors it holds
/// afterwards, what it has the process do, and whether it is to exit.
pub struct Outcome {
    pub fds: Map<Seq<char>, i32>,
    pub actions: Seq<ActionView>,
    pub quit: bool,
}

/// An outcome that only answers.
pub open spec fn answer(fds: Map<Seq<char>, i32>, message: Seq<char>) -> Outcome {
    Outcome {
        fds,
        actions: seq![ActionView::Send { text: framed(message), fd: None }],
        quit: false,
    }
}

/// The outcome of one request, with the descriptor that came beside it.
pub open spec fn request_outcome(
    fds: Map<Seq<char>, i32>,
    request: RequestView,
    received: Option<i32>,
) -> Outcome {
    match request {
        RequestView::Store(None) => answer(fds, "ERR missing key"@),
        RequestView::Store(Some(key)) => match received {
            None => answer(fds, "ERR no fd received"@),
            Some(fd) => {
                let reply = ActionView::Send { text: framed("OK"@), fd: None };
                Outcome {
                    fds: fds.insert(key, fd),
                    actions: if fds.contains_key(key) {
                        seq![ActionView::Close(fds[key]), reply]
                    } else {
                        seq![reply]
                    },
                    quit: false,
                }
            },
        },
        RequestView::Retrieve(None) => answer(fds, "ERR missing key"@),
        RequestView::Retrieve(Some(key)) => if fds.contains_key(key) {
            Outcome {
                fds,
                actions: seq![ActionView::Send { text: "OK\n"@, fd: Some(fds[key]) }],
                quit: false,
            }
        } else {
            answer(fds, "ERR key not found"@)
        },
        RequestView::List => answer(fds, listing(key_list(fds))),
        RequestView::Delete(None) => answer(fds, "ERR missing key"@),
        RequestView::Delete(Some(key)) => if fds.contains_key(key) {
            Outcome {
                fds: fds.remove(key),
                actions: seq![
                    ActionView::Close(fds[key]),
                    ActionView::Send { text: framed("OK"@), fd: None },
                ],
                quit: false,
            }
        } else {
            answer(fds, "ERR key not found"@)
        },
        RequestView::Quit => Outcome {
            fds,
            actions: seq![ActionView::Send { text: framed("OK"@), fd: None }],
            quit: true,
        },
        RequestView::Ping => answer(fds, "PONG"@),
        RequestView::Unknown(word) => answer(fds, "ERR unknown command: "@ + word),
    }
}

/// The outcome of several lines that came in one message.
pub open spec fn lines_outcome(
    fds: Map<Seq<char>, i32>,
    requests: Seq<Seq<char>>,
    received: Option<i32>,
) -> Outcome
    decreases requests.len(),
{
    if requests.len() == 0 {
        Outcome { fds, actions: Seq::empty(), quit: false }
    } else {
        let earlier = lines_outcome(fds, requests.drop_last(), received);
        let here = request_outcome(earlier.fds, request_of(requests.last()), received);
        Outcome {
            fds: here.fds,
            actions: earlier.actions + here.actions,
            quit: earlier.quit || here.quit,
        }
    }
}

/// The outcome of a message: its trimmed text is read line by line; bytes
/// that are no text are answered with an error.
pub open spec fn message_outcome(
    fds: Map<Seq<char>, i32>,
    bytes: Seq<u8>,
    received: Option<i32>,
) -> Outcome {
    if valid_utf8(bytes) {
        lines_outcome(fds, lines(trimmed(decode_utf8(bytes))), received)
    } else {
        answer(fds, "ERR invalid utf8"@)
    }
}

/// What waiting for a client's message came to.
pub enum ClientEvent {
    Failed,
    Received { bytes: Vec<u8>, fds: Vec<i32> },
}

/// What to do about it: the actions, in order; whether the connection is
/// over; and whether the daemon is to exit.
pub struct ClientStep {
    pub actions: Vec<Action>,
    pub finished: bool,
    pub quit: bool,
}

/// The daemon's state: the descriptors it holds.
pub struct Daemon {
    fds: FdTable,
}

impl View for Daemon {
    type V = Map<Seq<char>, i32>;

    closed spec fn view(&self) -> Map<Seq<char>, i32> {
        self.fds@
    }
}

/// The listing of the given keys.
fn listing_text(keys: &Vec<String>) -> (text: String)
    ensures
        text@ == listing(texts(keys@)),
{
    let mut text = String::new();
    let mut i: usize = 0;
    assert(texts(keys@).skip(0) == texts(keys@));
    while i < keys.len()
        invariant
            i <= keys@.len(),
            text@ + listing(texts(keys@).skip(i as int)) == listing(texts(keys@)),
        decreases keys@.len() - i,
    {
        let ghost rest = texts(keys@).skip(i as int);
        let ghost before = text@;
        text.append(keys[i].as_str());
        text.push('\n');
        assert(rest[0] == keys@[i as int]@);
        assert(rest.skip(1) == texts(keys@).skip(i + 1));
        assert(text@ == before + rest[0].push('\n'));
        i += 1;
    }
    text.append(".\n");
    text
}

impl Daemon {
    /// The table's keys ascend.
    pub closed spec fn wf(self) -> bool {
        self.fds.wf()
    }

    /// A daemon that holds nothing.
    pub fn new() -> (d: Daemon)
        ensures
            d.wf(),
            d@ == Map::<Seq<char>, i32>::empty(),
    {
        Daemon { fds: FdTable::new() }
    }

    /// A daemon's key list has every key that it holds, each once.
    pub proof fn keys_are_listed(self)
        requires
            self.wf(),
        ensures
            is_key_list(key_list(self@), self@),
            self@.dom().finite(),
            key_list(self@).len() == self@.len(),
    {
        self.fds.keys_list_the_map();
        assert(is_key_list(self.fds.keys(), self@));
        key_list_counts_the_map(key_list(self@), self@);
    }

    /// How many descriptors the daemon holds.
    pub fn held(&self) -> (n: usize)
        requires
            self.wf(),
        ensures
            n == self@.len(),
    {
        proof {
            self.fds.keys_list_the_map();
            key_list_counts_the_map(self.fds.keys(), self@);
        }
        self.fds.len()
    }

    /// Carries out one request and puts what the process is to do at the end
    /// of `actions`. True where the daemon is to exit.
    fn handle_request(
        &mut self,
        request: Request,
        received: Option<i32>,
        actions: &mut Vec<Action>,
    ) -> (quit: bool)
        requires
            old(self).wf(),
        ensures
            final(self).wf(),
            ({
                let outcome = request_outcome(old(self)@, request@, received);
                &&& final(self)@ == outcome.fds
                &&& action_views(final(actions)@) == action_views(old(actions)@) + outcome.actions
                &&& quit == outcome.quit
            }),
    {
        let ghost earlier = actions@;
        let mut quit: bool = false;
        let mut reply_fd: Option<i32> = None;
        let reply: String = match request {
            Request::Store(None) => frame("ERR missing key"),
            Request::Store(Some(key)) => match received {
                None => frame("ERR no fd received"),
                Some(fd) => {
                    let displaced = self.fds.insert(key, fd);
                    if let Some(old_fd) = displaced {
                        actions.push(Action::Close(old_fd));
                    }
                    frame("OK")
                },
            },
            Request::Retrieve(None) => frame("ERR missing key"),
            Request::Retrieve(Some(key)) => match self.fds.get(key.as_str()) {
                Some(fd) => {
                    reply_fd = Some(fd);
                    "OK\n".to_string()
                },
                None => frame("ERR key not found"),
            },
            Request::List => {
                let keys = self.fds.list();
                proof {
                    key_list_is_unique(texts(keys@), key_list(self@), self@);
                }
                frame(listing_text(&keys).as_str())
            },
            Request::Delete(None) => frame("ERR missing key"),
            Request::Delete(Some(key)) => match self.fds.remove(key.as_str()) {
                Some(fd) => {
                    actions.push(Action::Close(fd));
                    frame("OK")
                },
                None => frame("ERR key not found"),
            },
            Request::Quit => {
                quit = true;
                frame("OK")
            },
            Request::Ping => frame("PONG"),
            Request::Unknown(word) => {
                let mut message = "ERR unknown command: ".to_string();
                message.append(word.as_str());
                frame(message.as_str())
            },
        };
        actions.push(Action::Send { text: reply, fd: reply_fd });
        proof {
            let outcome = request_outcome(old(self)@, request@, received);
            assert(action_views(actions@) =~= action_views(earlier) + outcome.actions);
        }
        quit
    }

    /// Carries out a message that holds at least one byte.
    fn handle_message(&mut self, bytes: &[u8], received: Option<i32>) -> (step: ClientStep)
        requires
            old(self).wf(),
        ensures
            final(self).wf(),
            ({
                let outcome = message_outcome(old(self)@, bytes@, received);
                &&& final(self)@ == outcome.fds
                &&& action_views(step.actions@) == outcome.actions
                &&& step.quit == outcome.quit
                &&& step.finished == outcome.quit
            }),
    {
        let mut actions: Vec<Action> = Vec::new();
        let text = match text_from_utf8(bytes) {
            Ok(text) => text,
            Err(_) => {
                actions.push(Action::Send { text: frame("ERR invalid utf8"), fd: None });
                assert(action_views(actions@) =~= answer(self@, "ERR invalid utf8"@).actions);
                return ClientStep { actions, finished: false, quit: false };
            },
        };
        let requests = split_lines(trim_text(text.as_str()).as_str());
        let ghost all = texts(requests@);
        let ghost start = self@;
        let mut quit: bool = false;
        let mut i: usize = 0;
        assert(action_views(actions@) =~= Seq::<ActionView>::empty());
        while i < requests.len()
            invariant
                self.wf(),
                i <= requests@.len(),
                all == texts(requests@),
                self@ == lines_outcome(start, all.take(i as int), received).fds,
                action_views(actions@) == lines_outcome(
                    start,
                    all.take(i as int),
                    received,
                ).actions,
                quit == lines_outcome(start, all.take(i as int), received).quit,
            decreases requests@.len() - i,
        {
            assert(all.take(i + 1).drop_last() == all.take(i as int));
            assert(all.take(i + 1).last() == requests@[i as int]@);
            let request = parse_request(requests[i].as_str());
            if self.handle_request(request, received, &mut actions) {
                quit = true;
            }
            i += 1;
        }
        assert(all.take(i as int) == all);
        ClientStep { actions, finished: quit, quit }
    }

    /// What to do about what a client sent. An error or an empty read ends
    /// the connection; so does a request to exit. Anything else leaves the
    /// connection open for the next message.
    pub fn handle_client(&mut self, event: ClientEvent) -> (step: ClientStep)
        requires
            old(self).wf(),
        ensures
            final(self).wf(),
            is_key_list(key_list(old(self)@), old(self)@),
            ({
                match event {
                    ClientEvent::Received { bytes, fds } if bytes@.len() > 0 => {
                        let received = if fds@.len() > 0 {
                            Some(fds@[0])
                        } else {
                            None
                        };
                        let outcome = message_outcome(old(self)@, bytes@, received);
                        &&& final(self)@ == outcome.fds
                        &&& action_views(step.actions@) == outcome.actions
                        &&& step.quit == outcome.quit
                        &&& step.finished == outcome.quit
                    },
                    _ => {
                        &&& final(self)@ == old(self)@
                        &&& step.actions@.len() == 0
                        &&& step.finished
                        &&& !step.quit
                    },
                }
            }),
    {
        proof {
            self.keys_are_listed();
        }
        match event {
            ClientEvent::Received { bytes, fds } => {
                if bytes.len() == 0 {
                    return ClientStep { actions: Vec::new(), finished: true, quit: false };
                }
                let mut received: Option<i32> = None;
                if fds.len() > 0 {
                    received = Some(fds[0]);
                }
                self.handle_message(bytes.as_slice(), received)
            },
            ClientEvent::Failed => {
                ClientStep { actions: Vec::new(), finished: true, quit: false }
            },
        }
    }

    /// Gives up every descriptor that the daemon holds, for the process to
    /// close, in ascending order of the keys.
    pub fn cleanup(&mut self) -> (entries: Vec<(String, i32)>)
        requires
            old(self).wf(),
        ensures
            final(self).wf(),
            final(self)@ == Map::<Seq<char>, i32>::empty(),
            entries@.map_values(|e: (String, i32)| e.0@) == key_list(old(self)@),
            is_key_list(key_list(old(self)@), old(self)@),
            forall|i: int|
                0 <= i < entries@.len() ==> old(self)@.contains_key(#[trigger] entries@[i].0@)
                    && old(self)@[entries@[i].0@] == entries@[i].1,
    {
        proof {
            self.fds.keys_list_the_map();
            key_list_is_unique(self.fds.keys(), key_list(self@), self@);
        }
        self.fds.drain()
    }
}

/// How long the daemon waits for a client before it exits, in nanoseconds:
/// five minutes. With no client in that window the hot reload was given up,
/// and exiting keeps the PTY masters from leaking.
pub const IDLE_TIMEOUT_NANOS: u128 = 300_000_000_000;

/// What happened to the daemon's accept loop.
pub enum RunEvent {
    /// The loop is at its top, this long after the last client.
    Idle { elapsed_nanos: u128 },
    /// `poll` came back with this many descriptors ready.
    Polled { ready: i32 },
    PollInterrupted,
    PollFailed,
    Accepted { client: i32 },
    AcceptFailed,
    /// A client's connection is over.
    Served { quit: bool },
}

/// What the accept loop does next.
#[derive(Clone, Copy, Debug, PartialEq, Eq, Structural)]
pub enum RunAction {
    /// Go to the top of the loop.
    CheckIdle,
    /// Wait for the listener, at most this long.
    Poll { timeout_ms: i32 },
    Accept,
    /// Restart the idle window, then serve this client.
    Serve { client: i32 },
    /// Clean up and exit.
    Stop,
}

/// What the accept loop does about an event.
pub open spec fn run_action(event: RunEvent) -> RunAction {
    match event {
        RunEvent::Idle { elapsed_nanos } => if elapsed_nanos >= IDLE_TIMEOUT_NANOS {
            RunAction::Stop
        } else {
            RunAction::Poll {
                timeout_ms: ((IDLE_TIMEOUT_NANOS - elapsed_nanos) / 1_000_000) as i32,
            }
        },
        RunEvent::Polled { ready } => if ready == 0 {
            RunAction::CheckIdle
        } else {
            RunAction::Accept
        },
        RunEvent::PollInterrupted => RunAction::CheckIdle,
        RunEvent::PollFailed => RunAction::Stop,
        RunEvent::Accepted { client } => RunAction::Serve { client },
        RunEvent::AcceptFailed => RunAction::CheckIdle,
        RunEvent::Served { quit } => if quit {
            RunAction::Stop
        } else {
            RunAction::CheckIdle
        },
    }
}

/// Decides what the accept loop does about an event.
pub fn run_step(event: RunEvent) -> (action: RunAction)
    ensures
        action == run_action(event),
{
    match event {
        RunEvent::Idle { elapsed_nanos } => {
            if elapsed_nanos >= IDLE_TIMEOUT_NANOS {
                RunAction::Stop
            } else {
                let remaining: u128 = IDLE_TIMEOUT_NANOS - elapsed_nanos;
                let timeout_ms: i32 = (remaining / 1_000_000) as i32;
                RunAction::Poll { timeout_ms }
            }
        },
        RunEvent::Polled { ready } => {
            if ready == 0 {
                RunAction::CheckIdle
            } else {
                RunAction::Accept
            }
        },
        RunEvent::PollInterrupted => RunAction::CheckIdle,
        RunEvent::PollFailed => RunAction::Stop,
        RunEvent::Accepted { client } => RunAction::Serve { client },
        RunEvent::AcceptFailed => RunAction::CheckIdle,
        RunEvent::Served { quit } => {
            if quit {
                RunAction::Stop
            } else {
                RunAction::CheckIdle
            }
        },
    }
}

/// The daemon exits exactly when the idle window is over, and before that no
/// wait reaches past its end.
pub proof fn idle_window_bounds_every_wait(elapsed_nanos: u128)
    ensures
        run_action(RunEvent::Idle { elapsed_nanos }) == RunAction::Stop <==> elapsed_nanos
            >= IDLE_TIMEOUT_NANOS,
        run_action(RunEvent::Idle { elapsed_nanos }) matches RunAction::Poll { timeout_ms } ==> {
            &&& 0 <= timeout_ms <= 300_000
            &&& elapsed_nanos + timeout_ms * 1_000_000 <= IDLE_TIMEOUT_NANOS
            &&& IDLE_TIMEOUT_NANOS < elapsed_nanos + (timeout_ms + 1) * 1_000_000
        },
{
}

/// Every request is answered once, after whatever else it has the process do.
pub proof fn every_request_is_answered_once(
    fds: Map<Seq<char>, i32>,
    request: RequestView,
    received: Option<i32>,
)
    ensures
        ({
            let actions = request_outcome(fds, request, received).actions;
            &&& actions.len() > 0
            &&& actions.last() is Send
            &&& forall|i: int| 0 <= i < actions.len() - 1 ==> #[trigger] actions[i] is Close
        }),
{
}

/// A message is answered once for each of its lines.
pub proof fn every_line_is_answered_once(
    fds: Map<Seq<char>, i32>,
    requests: Seq<Seq<char>>,
    received: Option<i32>,
)
    ensures
        lines_outcome(fds, requests, received).actions.filter(|a: ActionView| a is Send).len()
            == requests.len(),
    decreases requests.len(),
{
    let sent = |a: ActionView| a is Send;
    if requests.len() == 0 {
        assert(Seq::<ActionView>::empty().filter(sent) =~= Seq::<ActionView>::empty()) by {
            reveal(Seq::filter);
        }
    } else {
        every_line_is_answered_once(fds, requests.drop_last(), received);
        let earlier = lines_outcome(fds, requests.drop_last(), received);
        let here = request_outcome(earlier.fds, request_of(requests.last()), received);
        Seq::filter_distributes_over_add(earlier.actions, here.actions, sent);
        assert(here.actions.filter(sent).len() == 1) by {
            reveal(Seq::filter);
            reveal_with_fuel(Seq::filter, 3);
            if here.actions.len() == 1 {
                assert(here.actions.drop_last() =~= Seq::<ActionView>::empty());
            } else {
                assert(here.actions.drop_last() =~= seq![here.actions[0]]);
                assert(here.actions.drop_last().drop_last() =~= Seq::<ActionView>::empty());
            }
        }
    }
}

/// The message that a client sends for a command with a key.
pub open spec fn keyed_request(command: Seq<char>, key: Seq<char>) -> Seq<char> {
    command + seq![' '] + key + seq!['\n']
}

/// Whether a key survives the journey in a request: it is not empty, has no
/// white space at its ends, and holds no line feed.
pub open spec fn is_plain_key(key: Seq<char>) -> bool {
    &&& key.len() > 0
    &&& trimmed(key) == key
    &&& !key.contains('\n')
}

/// A keyed request is one line, and reads back as its command and its key.
pub proof fn keyed_request_reads_back(command: Seq<char>, key: Seq<char>)
    requires
        is_plain_key(key),
        command.len() > 0,
        forall|i: int| 0 <= i < command.len() ==> !is_space(#[trigger] command[i]),
    ensures
        ({
            let line = command + seq![' '] + key;
            &&& lines(trimmed(keyed_request(command, key))) == seq![line]
            &&& command_of(line) == command
            &&& argument_of(line) == Some(key)
        }),
{
    let text = keyed_request(command, key);
    let line = command + seq![' '] + key;
    lemma_trimmed_ends(key);
    assert(text[0] == command[0]);
    assert(trim_start(text) == text);
    assert(text.drop_last() =~= line);
    assert(text.last() == '\n');
    assert(line.last() == key.last());
    assert(trim_end(line) == line);
    assert(!line.contains('\n')) by {
        if line.contains('\n') {
            let i = choose|i: int| 0 <= i < line.len() && line[i] == '\n';
            if i < command.len() {
                assert(line[i] == command[i]);
            } else if i > command.len() {
                assert(key[i - command.len() - 1] == '\n');
            }
        }
    }
    lemma_first_of(line, '\n');
    lemma_first_of_unique(line, ' ', command.len() as int);
    assert(line.take(command.len() as int) =~= command);
    assert(line.skip(command.len() as int + 1) =~= key);
}

/// A message with one keyed request comes to what that request comes to.
pub proof fn keyed_message_is_its_request(
    fds: Map<Seq<char>, i32>,
    command: Seq<char>,
    key: Seq<char>,
    received: Option<i32>,
)
    requires
        is_plain_key(key),
        command == "STORE"@ || command == "RETRIEVE"@ || command == "DELETE"@,
    ensures
        message_outcome(fds, encode_utf8(keyed_request(command, key)), received)
            == request_outcome(
            fds,
            if command == "STORE"@ {
                RequestView::Store(Some(key))
            } else if command == "RETRIEVE"@ {
                RequestView::Retrieve(Some(key))
            } else {
                RequestView::Delete(Some(key))
            },
            received,
        ),
{
    reveal_strlit("STORE");
    reveal_strlit("RETRIEVE");
    reveal_strlit("DELETE");
    reveal_strlit("LIST");
    let text = keyed_request(command, key);
    keyed_request_reads_back(command, key);
    encode_utf8_valid_utf8(text);
    encode_utf8_decode_utf8(text);
    let line = command + seq![' '] + key;
    assert(lines_outcome(fds, seq![line].drop_last(), received).actions
        =~= Seq::<ActionView>::empty());
    let here = request_outcome(fds, request_of(line), received);
    assert(Seq::<ActionView>::empty() + here.actions =~= here.actions);
    assert(seq![line].last() == line);
    assert("STORE"@.len() != "RETRIEVE"@.len());
    assert("STORE"@.len() != "LIST"@.len());
    assert("STORE"@.len() != "DELETE"@.len());
    assert("RETRIEVE"@.len() != "DELETE"@.len());
    assert("DELETE"@.len() != "LIST"@.len());
}

/// A descriptor that was stored comes back when it is retrieved, the daemon
/// keeps it, and nothing else that the daemon holds changes.
pub proof fn stored_descriptor_is_retrieved(
    fds: Map<Seq<char>, i32>,
    key: Seq<char>,
    fd: i32,
    received: Option<i32>,
)
    requires
        is_plain_key(key),
    ensures
        ({
            let stored = message_outcome(
                fds,
                encode_utf8(keyed_request("STORE"@, key)),
                Some(fd),
            );
            let retrieved = message_outcome(
                stored.fds,
                encode_utf8(keyed_request("RETRIEVE"@, key)),
                received,
            );
            &&& stored.actions.last() == (ActionView::Send { text: framed("OK"@), fd: None })
            &&& retrieved.actions == seq![ActionView::Send { text: "OK\n"@, fd: Some(fd) }]
            &&& retrieved.fds == stored.fds
            &&& stored.fds == fds.insert(key, fd)
            &&& forall|other: Seq<char>|
                other != key ==> (stored.fds.contains_key(other) <==> fds.contains_key(other))
                    && (fds.contains_key(other) ==> stored.fds[other] == fds[other])
            &&& !stored.quit && !retrieved.quit
        }),
{
    reveal_strlit("STORE");
    reveal_strlit("RETRIEVE");
    keyed_message_is_its_request(fds, "STORE"@, key, Some(fd));
    let stored = message_outcome(fds, encode_utf8(keyed_request("STORE"@, key)), Some(fd));
    keyed_message_is_its_request(stored.fds, "RETRIEVE"@, key, received);
    assert("STORE"@.len() != "RETRIEVE"@.len());
}

/// A descriptor that was deleted is closed and can no longer be retrieved.
pub proof fn deleted_descriptor_is_gone(
    fds: Map<Seq<char>, i32>,
    key: Seq<char>,
    received: Option<i32>,
)
    requires
        is_plain_key(key),
        fds.contains_key(key),
    ensures
        ({
            let deleted = message_outcome(
                fds,
                encode_utf8(keyed_request("DELETE"@, key)),
                received,
            );
            let retrieved = message_outcome(
                deleted.fds,
                encode_utf8(keyed_request("RETRIEVE"@, key)),
                received,
            );
            &&& deleted.actions == seq![
                ActionView::Close(fds[key]),
                ActionView::Send { text: framed("OK"@), fd: None },
            ]
            &&& deleted.fds == fds.remove(key)
            &&& retrieved == answer(deleted.fds, "ERR key not found"@)
        }),
{
    reveal_strlit("STORE");
    reveal_strlit("RETRIEVE");
    reveal_strlit("DELETE");
    assert("STORE"@.len() != "RETRIEVE"@.len());
    assert("STORE"@.len() != "DELETE"@.len());
    assert("RETRIEVE"@.len() != "DELETE"@.len());
    keyed_message_is_its_request(fds, "DELETE"@, key, received);
    keyed_message_is_its_request(fds.remove(key), "RETRIEVE"@, key, received);
}

/// A request that is answered with an error changes nothing and closes nothing.
pub proof fn refused_request_changes_nothing(
    fds: Map<Seq<char>, i32>,
    request: RequestView,
    received: Option<i32>,
)
    ensures
        ({
            let outcome = request_outcome(fds, request, received);
            outcome.actions.last() matches ActionView::Send { text, fd } ==> ("ERR"@.is_prefix_of(
                text,
            ) ==> outcome.fds == fds && outcome.actions.len() == 1 && fd is None && !outcome.quit)
        }),
{
    reveal_strlit("ERR");
    reveal_strlit("OK");
    reveal_strlit("OK\n");
    let outcome = request_outcome(fds, request, received);
    if let ActionView::Send { text, fd } = outcome.actions.last() {
        if "ERR"@.is_prefix_of(text) {
            assert("ERR"@[0] == 'E');
            assert(text.subrange(0, 3)[0] == 'E');
            assert("OK"@[0] == 'O');
            assert(framed("OK"@)[0] == 'O');
            assert("OK\n"@[0] == 'O');
        }
    }
}

/// No descriptor gets lost: one that the daemon held and holds no longer is closed.
pub proof fn no_descriptor_is_lost(
    fds: Map<Seq<char>, i32>,
    request: RequestView,
    received: Option<i32>,
    key: Seq<char>,
)
    requires
        fds.contains_key(key),
    ensures
        ({
            let outcome = request_outcome(fds, request, received);
            ||| outcome.fds.contains_key(key) && outcome.fds[key] == fds[key]
            ||| outcome.actions.contains(ActionView::Close(fds[key]))
        }),
{
    let outcome = request_outcome(fds, request, received);
    if !(outcome.fds.contains_key(key) && outcome.fds[key] == fds[key]) {
        assert(outcome.actions[0] == ActionView::Close(fds[key]));
    }
}

/// Whether every key that the daemon holds can travel on a line of its own.
pub open spec fn keys_are_lines(fds: Map<Seq<char>, i32>) -> bool {
    forall|key: Seq<char>| #[trigger]
        fds.contains_key(key) ==> trimmed(key) == key && !key.contains('\n')
}

/// No line of a text holds a line feed.
proof fn lemma_lines_hold_no_line_feed(s: Seq<char>)
    ensures
        forall|i: int| 0 <= i < lines(s).len() ==> !(#[trigger] lines(s)[i]).contains('\n'),
    decreases s.len(),
{
    if s.len() > 0 {
        let at = first_of(s, '\n');
        lemma_first_of(s, '\n');
        if at < s.len() {
            let rest = s.skip(at + 1);
            lemma_lines_hold_no_line_feed(rest);
            assert forall|i: int| 0 <= i < lines(s).len() implies !(#[trigger] lines(
                s,
            )[i]).contains('\n') by {
                if i == 0 {
                    let line = without_cr(s.take(at));
                    assert(lines(s)[0] == line);
                    if line.contains('\n') {
                        let j = choose|j: int| 0 <= j < line.len() && line[j] == '\n';
                        assert(s[j] == '\n');
                    }
                } else {
                    assert(lines(s)[i] == lines(rest)[i - 1]);
                }
            }
        }
    }
}

/// The keys of a daemon that started empty can always travel on lines of
/// their own: whatever message it handles, it keeps that property.
pub proof fn keys_stay_lines(fds: Map<Seq<char>, i32>, bytes: Seq<u8>, received: Option<i32>)
    requires
        keys_are_lines(fds),
    ensures
        keys_are_lines(message_outcome(fds, bytes, received).fds),
{
    if valid_utf8(bytes) {
        let text = trimmed(decode_utf8(bytes));
        lemma_lines_hold_no_line_feed(text);
        lemma_keys_stay_lines(fds, lines(text), received);
    }
}

proof fn lemma_keys_stay_lines(
    fds: Map<Seq<char>, i32>,
    requests: Seq<Seq<char>>,
    received: Option<i32>,
)
    requires
        keys_are_lines(fds),
        forall|i: int| 0 <= i < requests.len() ==> !(#[trigger] requests[i]).contains('\n'),
    ensures
        keys_are_lines(lines_outcome(fds, requests, received).fds),
    decreases requests.len(),
{
    if requests.len() > 0 {
        assert forall|i: int| 0 <= i < requests.drop_last().len() implies !(
        #[trigger] requests.drop_last()[i]).contains('\n') by {
            assert(!requests[i].contains('\n'));
        }
        lemma_keys_stay_lines(fds, requests.drop_last(), received);
        let line = requests.last();
        assert(!requests[requests.len() - 1].contains('\n'));
        let at = first_of(line, ' ');
        lemma_first_of(line, ' ');
        if at < line.len() {
            let rest = line.skip(at + 1);
            lemma_trimmed_ends(rest);
            lemma_trimmed_fixpoint(trimmed(rest));
            if trimmed(rest).contains('\n') {
                assert(rest.contains('\n'));
                let j = choose|j: int| 0 <= j < rest.len() && rest[j] == '\n';
                assert(line[at + 1 + j] == '\n');
            }
        }
    }
}

} // verus!
