//! What the daemon answers to whom, stated on the messages themselves.

use crate::fd_daemon::{
    argument_of, command_of, framed, is_plain_key, keyed_message_is_its_request, keyed_request,
    keyed_request_reads_back, lines_outcome, message_outcome, request_of, request_outcome,
    run_action, ActionView, Outcome, RunAction, RunEvent,
};
use crate::fd_client::{fd_response, list_response, ok_response};
use crate::text::{
    is_space, lemma_first_of_unique, lines, trim_end, trim_start, trimmed,
};
use crate::text_laws::trimming_takes_only_white_space;
use crate::utf8::utf8_error_text;
use vstd::prelude::*;
use vstd::utf8::{encode_utf8, encode_utf8_decode_utf8, encode_utf8_valid_utf8, valid_utf8};

verus! {

/// Whether a message was only answered, with this text: the daemon holds what it
/// held, closes nothing, hands out nothing, and goes on.
pub open spec fn only_answers(
    outcome: Outcome,
    fds: Map<Seq<char>, i32>,
    text: Seq<char>,
) -> bool {
    &&& outcome.fds == fds
    &&& outcome.actions.len() == 1
    &&& outcome.actions[0] == (ActionView::Send { text, fd: None })
    &&& !outcome.quit
}

/// Whether a word is a command of the daemon's.
pub open spec fn is_command(word: Seq<char>) -> bool {
    ||| word == "STORE"@
    ||| word == "RETRIEVE"@
    ||| word == "LIST"@
    ||| word == "DELETE"@
    ||| word == "QUIT"@
    ||| word == "PING"@
}

/// Whether a text is a word: not empty, and without white space.
pub open spec fn is_word(word: Seq<char>) -> bool {
    &&& word.len() > 0
    &&& forall|i: int| 0 <= i < word.len() ==> !is_space(#[trigger] word[i])
}

proof fn lemma_one_line(fds: Map<Seq<char>, i32>, line: Seq<char>, received: Option<i32>)
    ensures
        lines_outcome(fds, seq![line], received) == request_outcome(
            fds,
            request_of(line),
            received,
        ),
{
    let here = request_outcome(fds, request_of(line), received);
    let earlier = lines_outcome(fds, seq![line].drop_last(), received);
    assert(earlier.actions =~= Seq::<ActionView>::empty());
    assert(earlier.fds == fds && !earlier.quit);
    assert(seq![line].last() == line);
    assert(earlier.actions + here.actions =~= here.actions);
}

proof fn lemma_word_message(fds: Map<Seq<char>, i32>, word: Seq<char>, received: Option<i32>)
    requires
        is_word(word),
    ensures
        message_outcome(fds, encode_utf8(word.push('\n')), received) == request_outcome(
            fds,
            request_of(word),
            received,
        ),
        command_of(word) == word,
        argument_of(word) is None,
{
    let text = word.push('\n');
    encode_utf8_valid_utf8(text);
    encode_utf8_decode_utf8(text);
    assert(!is_space(word[0]));
    assert(!is_space(word[word.len() - 1]));
    assert(text[0] == word[0]);
    assert(trim_start(text) == text);
    assert(text.drop_last() =~= word);
    assert(trim_end(word) == word);
    assert(trimmed(text) == word);
    assert forall|i: int| 0 <= i < word.len() implies word[i] != '\n' && word[i] != ' ' by {
        assert(!is_space(word[i]));
    }
    lemma_first_of_unique(word, '\n', word.len() as int);
    lemma_first_of_unique(word, ' ', word.len() as int);
    assert(lines(word) == seq![word]);
    assert(word.take(word.len() as int) =~= word);
    lemma_one_line(fds, word, received);
}

proof fn lemma_commands_differ()
    ensures
        "STORE"@.len() == 5,
        "RETRIEVE"@.len() == 8,
        "DELETE"@.len() == 6,
        "LIST"@.len() == 4 && "LIST"@[0] == 'L',
        "QUIT"@.len() == 4 && "QUIT"@[0] == 'Q',
        "PING"@.len() == 4 && "PING"@[0] == 'P',
{
    reveal_strlit("STORE");
    reveal_strlit("RETRIEVE");
    reveal_strlit("DELETE");
    reveal_strlit("LIST");
    reveal_strlit("QUIT");
    reveal_strlit("PING");
}

proof fn lemma_replies()
    ensures
        framed("OK"@) == "OK\n"@,
        framed("PONG"@) == "PONG\n"@,
        framed("ERR missing key"@) == "ERR missing key\n"@,
        framed("ERR no fd received"@) == "ERR no fd received\n"@,
        framed("ERR key not found"@) == "ERR key not found\n"@,
        framed("ERR invalid utf8"@) == "ERR invalid utf8\n"@,
{
    reveal_strlit("OK");
    reveal_strlit("OK\n");
    reveal_strlit("PONG");
    reveal_strlit("PONG\n");
    reveal_strlit("ERR missing key");
    reveal_strlit("ERR missing key\n");
    reveal_strlit("ERR no fd received");
    reveal_strlit("ERR no fd received\n");
    reveal_strlit("ERR key not found");
    reveal_strlit("ERR key not found\n");
    reveal_strlit("ERR invalid utf8");
    reveal_strlit("ERR invalid utf8\n");
    assert(framed("OK"@) =~= "OK\n"@);
    assert(framed("PONG"@) =~= "PONG\n"@);
    assert(framed("ERR missing key"@) =~= "ERR missing key\n"@);
    assert(framed("ERR no fd received"@) =~= "ERR no fd received\n"@);
    assert(framed("ERR key not found"@) =~= "ERR key not found\n"@);
    assert(framed("ERR invalid utf8"@) =~= "ERR invalid utf8\n"@);
}

/// A message of one word: the commands that need a key miss it, `PING` and `QUIT`
/// are answered, `QUIT` alone makes the daemon exit, and any other word is
/// unknown and named in the answer.
pub proof fn single_words_are_answered(
    fds: Map<Seq<char>, i32>,
    word: Seq<char>,
    received: Option<i32>,
)
    requires
        is_word(word),
    ensures
        ({
            let outcome = message_outcome(fds, encode_utf8(word.push('\n')), received);
            &&& word == "STORE"@ || word == "RETRIEVE"@ || word == "DELETE"@ ==> only_answers(
                outcome,
                fds,
                "ERR missing key\n"@,
            )
            &&& word == "PING"@ ==> only_answers(outcome, fds, "PONG\n"@)
            &&& word == "QUIT"@ ==> only_answers(Outcome { quit: false, ..outcome }, fds, "OK\n"@)
            &&& outcome.quit == (word == "QUIT"@)
            &&& !is_command(word) ==> only_answers(
                outcome,
                fds,
                "ERR unknown command: "@ + word + seq!['\n'],
            )
        }),
{
    lemma_word_message(fds, word, received);
    lemma_commands_differ();
    lemma_replies();
    if !is_command(word) {
        let message = "ERR unknown command: "@ + word;
        assert(message.last() == word.last());
        assert(!is_space(word[word.len() - 1]));
        assert(framed(message) =~= "ERR unknown command: "@ + word + seq!['\n']);
    }
}

/// A message of a command and a key. What is stored under the key is the
/// descriptor that came with the message, and one that was there before is closed
/// first; without a descriptor nothing is stored. What is asked for or deleted is
/// what is held under the key, if anything is.
pub proof fn keyed_messages_are_answered(
    fds: Map<Seq<char>, i32>,
    key: Seq<char>,
    received: Option<i32>,
)
    requires
        is_plain_key(key),
    ensures
        ({
            let store = message_outcome(fds, encode_utf8("STORE "@ + key + seq!['\n']), received);
            let retrieve = message_outcome(
                fds,
                encode_utf8("RETRIEVE "@ + key + seq!['\n']),
                received,
            );
            let delete = message_outcome(fds, encode_utf8("DELETE "@ + key + seq!['\n']), received);
            let ok = ActionView::Send { text: "OK\n"@, fd: None };
            &&& received is None ==> only_answers(store, fds, "ERR no fd received\n"@)
            &&& received matches Some(fd) ==> {
                &&& store.fds == fds.insert(key, fd)
                &&& fds.contains_key(key) ==> store.actions == seq![
                    ActionView::Close(fds[key]),
                    ok,
                ]
                &&& !fds.contains_key(key) ==> store.actions == seq![ok]
            }
            &&& retrieve.fds == fds
            &&& fds.contains_key(key) ==> retrieve.actions == seq![
                ActionView::Send { text: "OK\n"@, fd: Some(fds[key]) },
            ]
            &&& !fds.contains_key(key) ==> only_answers(retrieve, fds, "ERR key not found\n"@)
            &&& delete.fds == fds.remove(key)
            &&& fds.contains_key(key) ==> delete.actions == seq![ActionView::Close(fds[key]), ok]
            &&& !fds.contains_key(key) ==> only_answers(delete, fds, "ERR key not found\n"@)
            &&& !store.quit && !retrieve.quit && !delete.quit
        }),
{
    lemma_commands_differ();
    lemma_replies();
    reveal_strlit("STORE");
    reveal_strlit("RETRIEVE");
    reveal_strlit("DELETE");
    reveal_strlit("STORE ");
    reveal_strlit("RETRIEVE ");
    reveal_strlit("DELETE ");
    assert("STORE "@ + key + seq!['\n'] =~= keyed_request("STORE"@, key));
    assert("RETRIEVE "@ + key + seq!['\n'] =~= keyed_request("RETRIEVE"@, key));
    assert("DELETE "@ + key + seq!['\n'] =~= keyed_request("DELETE"@, key));
    keyed_message_is_its_request(fds, "STORE"@, key, received);
    keyed_message_is_its_request(fds, "RETRIEVE"@, key, received);
    keyed_message_is_its_request(fds, "DELETE"@, key, received);
    if !fds.contains_key(key) {
        assert(fds.remove(key) =~= fds);
    }
}

/// What follows the word of a command that needs no key, or of no command, makes
/// no difference.
pub proof fn needless_arguments_are_ignored(
    fds: Map<Seq<char>, i32>,
    word: Seq<char>,
    rest: Seq<char>,
    received: Option<i32>,
)
    requires
        is_word(word),
        word != "STORE"@ && word != "RETRIEVE"@ && word != "DELETE"@,
        is_plain_key(rest),
    ensures
        message_outcome(fds, encode_utf8(word + seq![' '] + rest + seq!['\n']), received)
            == message_outcome(fds, encode_utf8(word.push('\n')), received),
{
    let text = word + seq![' '] + rest + seq!['\n'];
    let line = word + seq![' '] + rest;
    assert(text =~= keyed_request(word, rest));
    keyed_request_reads_back(word, rest);
    encode_utf8_valid_utf8(text);
    encode_utf8_decode_utf8(text);
    lemma_one_line(fds, line, received);
    lemma_word_message(fds, word, received);
}

/// Bytes that are no text are answered with an error, and nothing else happens.
pub proof fn noise_is_refused(fds: Map<Seq<char>, i32>, bytes: Seq<u8>, received: Option<i32>)
    requires
        !valid_utf8(bytes),
    ensures
        only_answers(message_outcome(fds, bytes, received), fds, "ERR invalid utf8\n"@),
{
    lemma_replies();
}

/// Lines that come in one message are carried out one after another, each on what
/// the lines before it left.
pub proof fn lines_are_carried_out_in_turn(
    fds: Map<Seq<char>, i32>,
    first: Seq<Seq<char>>,
    second: Seq<Seq<char>>,
    received: Option<i32>,
)
    ensures
        ({
            let before = lines_outcome(fds, first, received);
            let after = lines_outcome(before.fds, second, received);
            lines_outcome(fds, first + second, received) == (Outcome {
                fds: after.fds,
                actions: before.actions + after.actions,
                quit: before.quit || after.quit,
            })
        }),
        lines_outcome(fds, Seq::empty(), received) == (Outcome {
            fds,
            actions: Seq::empty(),
            quit: false,
        }),
    decreases second.len(),
{
    let before = lines_outcome(fds, first, received);
    let after = lines_outcome(before.fds, second, received);
    let whole = lines_outcome(fds, first + second, received);
    if second.len() == 0 {
        assert(first + second =~= first);
        assert(before.actions + after.actions =~= before.actions);
    } else {
        lines_are_carried_out_in_turn(fds, first, second.drop_last(), received);
        assert((first + second).drop_last() =~= first + second.drop_last());
        assert((first + second).last() == second.last());
        assert(whole.actions =~= before.actions + after.actions);
    }
}

/// The daemon stops for three reasons: nobody came for five minutes, it can wait
/// for clients no longer, or a client told it to. Whatever else happens, it goes
/// on: an interrupted wait, a wait in vain, a client that could not be accepted.
pub proof fn daemon_stops_for_three_reasons(event: RunEvent)
    ensures
        run_action(event) == RunAction::Stop <==> (match event {
            RunEvent::Idle { elapsed_nanos } => elapsed_nanos >= 300_000_000_000,
            RunEvent::PollFailed => true,
            RunEvent::Served { quit } => quit,
            _ => false,
        }),
        event matches RunEvent::Polled { ready } ==> (run_action(event) == RunAction::Accept
            <==> ready != 0),
        event matches RunEvent::Accepted { client } ==> run_action(event) == (RunAction::Serve {
            client,
        }),
        (event is PollInterrupted || event is AcceptFailed || event == (RunEvent::Polled {
            ready: 0,
        }) || event == (RunEvent::Served { quit: false })) ==> run_action(event)
            == RunAction::CheckIdle,
{
}

/// Whether the text is blanks and ends of lines only.
pub open spec fn is_blank(text: Seq<char>) -> bool {
    forall|i: int|
        0 <= i < text.len() ==> (#[trigger] text[i] == ' ' || text[i] == '\n' || text[i] == '\r')
}

/// A client goes by the words of a reply, whatever blanks and ends of lines stand
/// around them. A request that hands out nothing succeeded where the reply is `OK`
/// and nothing else; a request for a descriptor, where the reply starts with `OK`
/// and a descriptor came beside it: the first of them. Any other words are the
/// error, as they are.
pub proof fn replies_are_taken_at_their_word(
    before: Seq<char>,
    words: Seq<char>,
    after: Seq<char>,
    fds: Seq<i32>,
)
    requires
        is_blank(before),
        is_blank(after),
        words.len() > 0,
        '!' <= words[0] <= '~',
        '!' <= words.last() <= '~',
    ensures
        ({
            let bytes = encode_utf8(before + words + after);
            let granted = words.len() >= 2 && words[0] == 'O' && words[1] == 'K';
            &&& granted && words.len() == 2 <==> ok_response(bytes) is Ok
            &&& !(granted && words.len() == 2) ==> ok_response(bytes) == Err::<(), Seq<char>>(
                "daemon error: "@ + words,
            )
            &&& granted && fds.len() > 0 ==> fd_response(bytes, fds) == Ok::<i32, Seq<char>>(fds[0])
            &&& granted && fds.len() == 0 ==> fd_response(bytes, fds) == Err::<i32, Seq<char>>(
                "no fd received in response"@,
            )
            &&& !granted ==> fd_response(bytes, fds) == Err::<i32, Seq<char>>(
                "daemon error: "@ + words,
            )
        }),
{
    let text = before + words + after;
    let bytes = encode_utf8(text);
    encode_utf8_decode_utf8(text);
    encode_utf8_valid_utf8(text);
    let start = before.len() as int;
    let end = start + words.len();
    let (from, to) = trimming_takes_only_white_space(text);
    assert(text[start] == words[0]);
    assert(text[end - 1] == words.last());
    assert(!is_space(text[start]) && !is_space(text[end - 1]));
    assert forall|i: int| 0 <= i < start implies is_space(#[trigger] text[i]) by {
        assert(text[i] == before[i]);
    }
    assert forall|i: int| end <= i < text.len() implies is_space(#[trigger] text[i]) by {
        assert(text[i] == after[i - end]);
    }
    assert(from <= start && end <= to);
    assert(from == start && to == end);
    assert(text.subrange(start, end) =~= words);
    reveal_strlit("OK");
    let granted = words.len() >= 2 && words[0] == 'O' && words[1] == 'K';
    if granted {
        assert("OK"@ =~= words.subrange(0, 2));
        if words.len() == 2 {
            assert(words =~= "OK"@);
        }
    } else if "OK"@.is_prefix_of(words) {
        assert(words.subrange(0, 2)[0] == 'O' && words.subrange(0, 2)[1] == 'K');
    }
}

/// Bytes that are no text are an error for a client, whatever it asked for.
pub proof fn garbled_replies_are_refused(bytes: Seq<u8>, fds: Seq<i32>)
    requires
        !valid_utf8(bytes),
    ensures
        ok_response(bytes) == Err::<(), Seq<char>>("invalid utf8: "@ + utf8_error_text(bytes)),
        fd_response(bytes, fds) == Err::<i32, Seq<char>>(
            "invalid utf8: "@ + utf8_error_text(bytes),
        ),
        list_response(bytes) == Err::<Seq<Seq<char>>, Seq<char>>(
            "invalid utf8: "@ + utf8_error_text(bytes),
        ),
{
}

} // verus!
