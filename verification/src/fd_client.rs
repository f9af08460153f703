//! The client's side of the descriptor daemon: what it sends, how it reads
//! the replies, where it finds the daemon and how it starts one.

use crate::fd_daemon::{
    framed, is_plain_key, key_list, keyed_message_is_its_request, keyed_request, keys_are_lines,
    listing, message_outcome, request_outcome, ActionView, RequestView,
};
use crate::fd_table::{is_key_list, FdTable};
use crate::path::{
    components, extended, join, parent, parent_is_the_directory, parent_of,
    siblings_share_their_directory,
};
use crate::text::{
    chars_of, first_of, is_space, lemma_first_of, lemma_first_of_unique, lemma_trimmed_ends, lines,
    opt_text, same_text, split_lines, starts_with_text, texts, trim_end, trim_start, trim_text,
    trimmed, without_cr,
};
use crate::utf8::{lossy_text, text_from_utf8, text_from_utf8_lossy, utf8_error_text};
use vstd::prelude::*;
use vstd::utf8::{
    decode_first_scalar, decode_utf8, encode_utf8, encode_utf8_decode_utf8,
    encode_utf8_valid_utf8, length_of_first_scalar, pop_first_scalar, valid_utf8,
};

verus! {

/// A result with its error as a character sequence.
pub open spec fn failure_text<T>(r: Result<T, String>) -> Result<T, Seq<char>> {
    match r {
        Ok(v) => Ok(v),
        Err(e) => Err(e@),
    }
}

/// A command, a blank, the key and a line feed.
fn keyed(command: &str, key: &str) -> (text: String)
    ensures
        text@ == keyed_request(command@, key@),
{
    let mut text = command.to_string();
    text.push(' ');
    text.append(key);
    text.push('\n');
    assert(text@ =~= keyed_request(command@, key@));
    text
}

/// The message that stores a descriptor under `key`.
pub fn store_request(key: &str) -> (text: String)
    ensures
        text@ == keyed_request("STORE"@, key@),
{
    keyed("STORE", key)
}

/// The message that asks for the descriptor under `key`.
pub fn retrieve_request(key: &str) -> (text: String)
    ensures
        text@ == keyed_request("RETRIEVE"@, key@),
{
    keyed("RETRIEVE", key)
}

/// The message that deletes the descriptor under `key`.
pub fn delete_request(key: &str) -> (text: String)
    ensures
        text@ == keyed_request("DELETE"@, key@),
{
    keyed("DELETE", key)
}

/// The message that asks for all keys.
pub fn list_request() -> (text: String)
    ensures
        text@ == "LIST\n"@,
{
    "LIST\n".to_string()
}

/// The message that tells the daemon to exit.
pub fn quit_request() -> (text: String)
    ensures
        text@ == "QUIT\n"@,
{
    "QUIT\n".to_string()
}

/// The text of a reply, or why its bytes are none.
pub open spec fn reply_text(bytes: Seq<u8>) -> Result<Seq<char>, Seq<char>> {
    if valid_utf8(bytes) {
        Ok(decode_utf8(bytes))
    } else {
        Err("invalid utf8: "@ + utf8_error_text(bytes))
    }
}

fn read_reply(bytes: &[u8]) -> (r: Result<String, String>)
    ensures
        match (r, reply_text(bytes@)) {
            (Ok(s), Ok(t)) => s@ == t,
            (Err(s), Err(t)) => s@ == t,
            _ => false,
        },
{
    match text_from_utf8(bytes) {
        Ok(text) => Ok(text),
        Err(e) => {
            let mut message = "invalid utf8: ".to_string();
            message.append(e.as_str());
            Err(message)
        },
    }
}

/// What a client makes of the reply to a request that hands out nothing: only
/// `OK` is a success.
pub open spec fn ok_response(bytes: Seq<u8>) -> Result<(), Seq<char>> {
    match reply_text(bytes) {
        Err(e) => Err(e),
        Ok(text) => if trimmed(text) == "OK"@ {
            Ok(())
        } else {
            Err("daemon error: "@ + trimmed(text))
        },
    }
}

/// Reads the reply to a request that hands out nothing.
pub fn read_ok_response(bytes: &[u8]) -> (r: Result<(), String>)
    ensures
        failure_text(r) == ok_response(bytes@),
{
    match read_reply(bytes) {
        Err(e) => Err(e),
        Ok(text) => {
            let response = trim_text(text.as_str());
            if same_text(response.as_str(), "OK") {
                Ok(())
            } else {
                let mut message = "daemon error: ".to_string();
                message.append(response.as_str());
                Err(message)
            }
        },
    }
}

/// What a client makes of the reply to a request for a descriptor: the first
/// descriptor that came beside a reply which starts with `OK`.
pub open spec fn fd_response(bytes: Seq<u8>, fds: Seq<i32>) -> Result<i32, Seq<char>> {
    match reply_text(bytes) {
        Err(e) => Err(e),
        Ok(text) => if !"OK"@.is_prefix_of(trimmed(text)) {
            Err("daemon error: "@ + trimmed(text))
        } else if fds.len() > 0 {
            Ok(fds[0])
        } else {
            Err("no fd received in response"@)
        },
    }
}

/// Reads the reply to a request for a descriptor. `fds` are the descriptors
/// that came beside it.
pub fn read_fd_response(bytes: &[u8], fds: &[i32]) -> (r: Result<i32, String>)
    ensures
        failure_text(r) == fd_response(bytes@, fds@),
{
    match read_reply(bytes) {
        Err(e) => Err(e),
        Ok(text) => {
            let response = trim_text(text.as_str());
            if !starts_with_text(response.as_str(), "OK") {
                let mut message = "daemon error: ".to_string();
                message.append(response.as_str());
                return Err(message);
            }
            if fds.len() > 0 {
                Ok(fds[0])
            } else {
                Err("no fd received in response".to_string())
            }
        },
    }
}

/// The lines before the first that is a single dot.
pub open spec fn before_dot(all: Seq<Seq<char>>) -> Seq<Seq<char>>
    decreases all.len(),
{
    if all.len() == 0 || all[0] == "."@ {
        Seq::empty()
    } else {
        seq![all[0]] + before_dot(all.skip(1))
    }
}

/// What a client makes of the reply to a request for all keys.
pub open spec fn list_response(bytes: Seq<u8>) -> Result<Seq<Seq<char>>, Seq<char>> {
    match reply_text(bytes) {
        Err(e) => Err(e),
        Ok(text) => Ok(before_dot(lines(text))),
    }
}

/// Reads the reply to a request for all keys.
pub fn read_list_response(bytes: &[u8]) -> (r: Result<Vec<String>, String>)
    ensures
        match (r, list_response(bytes@)) {
            (Ok(keys), Ok(all)) => texts(keys@) == all,
            (Err(e), Err(t)) => e@ == t,
            _ => false,
        },
{
    let text = match read_reply(bytes) {
        Err(e) => return Err(e),
        Ok(text) => text,
    };
    let all = split_lines(text.as_str());
    let mut keys: Vec<String> = Vec::new();
    let mut i: usize = 0;
    let ghost whole = texts(all@);
    assert(whole.skip(0) =~= whole);
    while i < all.len() && !same_text(all[i].as_str(), ".")
        invariant
            i <= all@.len(),
            whole == texts(all@),
            texts(keys@) + before_dot(whole.skip(i as int)) == before_dot(whole),
        decreases all@.len() - i,
    {
        let ghost before = texts(keys@);
        let key = all[i].clone();
        keys.push(key);
        assert(texts(keys@) =~= before.push(key@));
        assert(whole.skip(i as int)[0] == key@);
        assert(whole.skip(i as int).skip(1) =~= whole.skip(i + 1));
        i += 1;
    }
    assert(before_dot(whole.skip(i as int)) =~= Seq::<Seq<char>>::empty());
    assert(texts(keys@) =~= before_dot(whole));
    Ok(keys)
}

/// Whether a line that starts at `i` is a single dot and has come in whole: the
/// line feed that ends it is there.
pub open spec fn is_dot_line(text: Seq<char>, i: int) -> bool {
    &&& 0 <= i < text.len() - 1
    &&& text[i] == '.'
    &&& i == 0 || text[i - 1] == '\n'
    &&& text[i + 1] == '\n' || (i + 2 < text.len() && text[i + 1] == '\r' && text[i + 2] == '\n')
}

/// Whether a text has the line that closes a listing. (A dot without the end of
/// its line does not do: it may be where a longer key was cut.)
pub open spec fn has_dot_line(text: Seq<char>) -> bool {
    exists|i: int| is_dot_line(text, i)
}

/// Whether the bytes that have come in are a listing up to its closing dot.
pub open spec fn is_whole_listing(bytes: Seq<u8>) -> bool {
    valid_utf8(bytes) && has_dot_line(decode_utf8(bytes))
}

/// Whether a reply to a request for all keys has come in whole; if not, there is
/// more to read.
pub fn listing_is_whole(bytes: &[u8]) -> (r: bool)
    ensures
        r == is_whole_listing(bytes@),
{
    let text = match text_from_utf8(bytes) {
        Ok(text) => text,
        Err(_) => return false,
    };
    let chars = chars_of(text.as_str());
    let n: usize = chars.len();
    let mut i: usize = 0;
    while i < n
        invariant
            valid_utf8(bytes@),
            chars@ == decode_utf8(bytes@),
            n == chars@.len(),
            i <= n,
            forall|j: int| 0 <= j < i ==> !is_dot_line(chars@, j),
        decreases n - i,
    {
        let starts: bool = i == 0 || chars[i - 1] == '\n';
        let left: usize = n - i;
        if starts && chars[i] == '.' && left > 1 {
            if chars[i + 1] == '\n' || (left > 2 && chars[i + 1] == '\r' && chars[i + 2] == '\n') {
                assert(is_dot_line(chars@, i as int));
                return true;
            }
        }
        i += 1;
    }
    false
}

/// What is known of the descriptors after asking for one more key: a descriptor
/// is kept under the key, a failure leaves the key out.
pub open spec fn noted(
    found: Map<Seq<char>, i32>,
    key: Seq<char>,
    outcome: Result<i32, Seq<char>>,
) -> Map<Seq<char>, i32> {
    match outcome {
        Ok(fd) => found.insert(key, fd),
        Err(_) => found,
    }
}

/// Takes note of what asking for one key of many came to.
pub fn record_retrieved(found: &mut FdTable, key: String, outcome: &Result<i32, String>)
    requires
        old(found).wf(),
    ensures
        final(found).wf(),
        final(found)@ == noted(old(found)@, key@, failure_text(*outcome)),
{
    if let Ok(fd) = outcome {
        found.insert(key, *fd);
    }
}

/// What is known of the descriptors after asking for the keys one by one, where
/// `outcomes` tells what came of each.
pub open spec fn gathered(
    keys: Seq<Seq<char>>,
    outcomes: Seq<Result<i32, Seq<char>>>,
) -> Map<Seq<char>, i32>
    decreases keys.len(),
{
    if keys.len() == 0 {
        Map::empty()
    } else {
        noted(gathered(keys.drop_last(), outcomes), keys.last(), outcomes[keys.len() - 1])
    }
}

/// Whether the one at `i` asked for `key` and brought a descriptor.
pub open spec fn is_success(
    keys: Seq<Seq<char>>,
    outcomes: Seq<Result<i32, Seq<char>>>,
    key: Seq<char>,
    i: int,
) -> bool {
    0 <= i < keys.len() && keys[i] == key && outcomes[i] is Ok
}

/// Asking for keys one by one gathers exactly those for which a descriptor came,
/// each with its descriptor; of a key that was asked for several times, the last
/// descriptor stands.
pub proof fn successes_are_gathered(
    keys: Seq<Seq<char>>,
    outcomes: Seq<Result<i32, Seq<char>>>,
    key: Seq<char>,
)
    ensures
        gathered(keys, outcomes).contains_key(key) <==> exists|i: int| #[trigger]
            is_success(keys, outcomes, key, i),
        forall|i: int| #[trigger]
            is_success(keys, outcomes, key, i) && (forall|j: int| #[trigger]
                is_success(keys, outcomes, key, j) ==> j <= i) ==> gathered(keys, outcomes)[key]
                == outcomes[i]->Ok_0,
    decreases keys.len(),
{
    if keys.len() > 0 {
        let before = keys.drop_last();
        let n = keys.len() - 1;
        let all = gathered(keys, outcomes);
        let earlier = gathered(before, outcomes);
        successes_are_gathered(before, outcomes, key);
        assert forall|i: int| #[trigger]
            is_success(before, outcomes, key, i) <==> is_success(keys, outcomes, key, i) && i
                < n by {
            if 0 <= i < n {
                assert(before[i] == keys[i]);
            }
        }
        if is_success(keys, outcomes, key, n) {
            assert(all == earlier.insert(key, outcomes[n]->Ok_0));
            assert forall|i: int| #[trigger]
                is_success(keys, outcomes, key, i) && (forall|j: int| #[trigger]
                    is_success(keys, outcomes, key, j) ==> j <= i) implies all[key]
                == outcomes[i]->Ok_0 by {
                assert(i == n);
            }
        } else {
            assert(all.contains_key(key) == earlier.contains_key(key));
            assert(earlier.contains_key(key) ==> all[key] == earlier[key]);
            if earlier.contains_key(key) {
                let i = choose|i: int| #[trigger] is_success(before, outcomes, key, i);
                assert(is_success(keys, outcomes, key, i));
            }
            assert forall|i: int| #[trigger]
                is_success(keys, outcomes, key, i) implies earlier.contains_key(key) && i < n by {
                assert(is_success(before, outcomes, key, i));
            }
            assert forall|i: int| #[trigger]
                is_success(keys, outcomes, key, i) && (forall|j: int| #[trigger]
                    is_success(keys, outcomes, key, j) ==> j <= i) implies all[key]
                == outcomes[i]->Ok_0 by {
                assert(is_success(before, outcomes, key, i));
                assert forall|j: int| #[trigger]
                    is_success(before, outcomes, key, j) implies j <= i by {
                    assert(is_success(keys, outcomes, key, j));
                }
            }
        }
    }
}

/// What a client makes of the answer of a daemon that holds `fds` and is asked
/// for the descriptor under `key`.
pub open spec fn retrieve_answer(fds: Map<Seq<char>, i32>, key: Seq<char>) -> Result<
    i32,
    Seq<char>,
> {
    let outcome = message_outcome(fds, encode_utf8(keyed_request("RETRIEVE"@, key)), None);
    match outcome.actions.last() {
        ActionView::Send { text, fd } => fd_response(
            encode_utf8(text),
            match fd {
                Some(sent) => seq![sent],
                None => Seq::empty(),
            },
        ),
        ActionView::Close(_) => Err(Seq::empty()),
    }
}

/// A client that asks a daemon for each key that the daemon lists has all of its
/// descriptors, each under its key, and the daemon still holds them.
pub proof fn client_retrieves_everything(fds: Map<Seq<char>, i32>, keys: Seq<Seq<char>>)
    requires
        is_key_list(keys, fds),
        forall|key: Seq<char>| #[trigger] fds.contains_key(key) ==> is_plain_key(key),
    ensures
        gathered(keys, keys.map_values(|key: Seq<char>| retrieve_answer(fds, key))) == fds,
        forall|i: int|
            0 <= i < keys.len() ==> message_outcome(
                fds,
                encode_utf8(keyed_request("RETRIEVE"@, #[trigger] keys[i])),
                None,
            ).fds == fds,
{
    let outcomes = keys.map_values(|key: Seq<char>| retrieve_answer(fds, key));
    let all = gathered(keys, outcomes);
    assert forall|i: int| 0 <= i < keys.len() implies outcomes[i] == Ok::<i32, Seq<char>>(
        fds[#[trigger] keys[i]],
    ) && message_outcome(fds, encode_utf8(keyed_request("RETRIEVE"@, keys[i])), None).fds
        == fds by {
        let key = keys[i];
        assert(keys.contains(key));
        assert(fds.contains_key(key));
        reveal_strlit("STORE");
        reveal_strlit("RETRIEVE");
        assert("STORE"@.len() != "RETRIEVE"@.len());
        keyed_message_is_its_request(fds, "RETRIEVE"@, key, None);
        reveal_strlit("ERR");
        client_reads_answers(fds[key], "ERR"@);
    }
    assert forall|key: Seq<char>| #![trigger all.dom().contains(key)] #![trigger all[key]]
        all.dom().contains(key) == fds.dom().contains(key) && (fds.dom().contains(key) ==> all[key]
            == fds[key]) by {
        successes_are_gathered(keys, outcomes, key);
        if all.contains_key(key) {
            let i = choose|i: int| #[trigger] is_success(keys, outcomes, key, i);
            assert(keys.contains(keys[i]));
        }
        if fds.contains_key(key) {
            assert(keys.contains(key));
            let i = choose|i: int| 0 <= i < keys.len() && keys[i] == key;
            crate::fd_table::key_list_counts_the_map(keys, fds);
            assert(outcomes[i] == Ok::<i32, Seq<char>>(fds[keys[i]]));
            assert(is_success(keys, outcomes, key, i));
        }
    }
    assert(all =~= fds);
}

/// The keys of a listing are read back, in their order, unless one of them
/// is a single dot.
pub proof fn listing_reads_back(keys: Seq<Seq<char>>)
    requires
        forall|i: int|
            0 <= i < keys.len() ==> {
                let key = #[trigger] keys[i];
                &&& !key.contains('\n')
                &&& key.len() > 0 ==> key.last() != '\r'
                &&& key != "."@
            },
    ensures
        before_dot(lines(listing(keys))) == keys,
    decreases keys.len(),
{
    reveal_strlit(".");
    reveal_strlit(".\n");
    if keys.len() == 0 {
        let text = ".\n"@;
        assert(text =~= seq!['.', '\n']);
        lemma_first_of_unique(text, '\n', 1);
        assert(text.take(1) =~= "."@);
        assert(lines(text)[0] == "."@);
        assert(before_dot(lines(text)) =~= keys);
    } else {
        let key = keys[0];
        let rest = keys.skip(1);
        assert forall|i: int| 0 <= i < rest.len() implies {
            let k = #[trigger] rest[i];
            &&& !k.contains('\n')
            &&& k.len() > 0 ==> k.last() != '\r'
            &&& k != "."@
        } by {
            assert(rest[i] == keys[i + 1]);
        }
        listing_reads_back(rest);
        let text = listing(keys);
        let at = key.len() as int;
        assert(text[at] == '\n');
        assert forall|i: int| 0 <= i < at implies text[i] != '\n' by {
            assert(text[i] == key[i]);
            if key[i] == '\n' {
                assert(key.contains('\n'));
            }
        }
        lemma_first_of_unique(text, '\n', at);
        assert(text.take(at) =~= key);
        assert(text.skip(at + 1) =~= listing(rest));
        let all = lines(text);
        assert(all =~= seq![key] + lines(listing(rest)));
        assert(all[0] == key);
        assert(all.skip(1) =~= lines(listing(rest)));
        assert(seq![key] + rest =~= keys);
    }
}

/// A client that asks a daemon for its keys learns them all, in ascending
/// order, unless one of them is a single dot.
pub proof fn client_learns_every_key(fds: Map<Seq<char>, i32>, keys: Seq<Seq<char>>)
    requires
        keys_are_lines(fds),
        is_key_list(keys, fds),
        !fds.contains_key("."@),
    ensures
        ({
            let reply = request_outcome(fds, RequestView::List, None).actions.last();
            &&& reply matches ActionView::Send { text, .. } && list_response(encode_utf8(text))
                == Ok::<Seq<Seq<char>>, Seq<char>>(keys)
        }),
{
    let list = key_list(fds);
    crate::fd_table::key_list_is_unique(keys, list, fds);
    assert forall|i: int| 0 <= i < keys.len() implies {
        let key = #[trigger] keys[i];
        &&& !key.contains('\n')
        &&& key.len() > 0 ==> key.last() != '\r'
        &&& key != "."@
    } by {
        assert(keys.contains(keys[i]));
        assert(fds.contains_key(keys[i]));
        lemma_trimmed_ends(keys[i]);
    }
    listing_reads_back(keys);
    let text = listing(keys);
    lemma_listing_ends_line(keys);
    assert(framed(text) == text);
    encode_utf8_valid_utf8(text);
    encode_utf8_decode_utf8(text);
}

proof fn lemma_listing_ends_line(keys: Seq<Seq<char>>)
    ensures
        listing(keys).len() > 0,
        listing(keys).last() == '\n',
    decreases keys.len(),
{
    reveal_strlit(".\n");
    if keys.len() > 0 {
        lemma_listing_ends_line(keys.skip(1));
    }
}

proof fn lemma_listing_has_dot_line(keys: Seq<Seq<char>>)
    ensures
        ({
            let text = listing(keys);
            &&& text.len() >= 2
            &&& is_dot_line(text, text.len() - 2)
        }),
    decreases keys.len(),
{
    reveal_strlit(".\n");
    if keys.len() > 0 {
        let rest = listing(keys.skip(1));
        let text = listing(keys);
        lemma_listing_has_dot_line(keys.skip(1));
        let shift = keys[0].len() + 1;
        assert(text.len() == shift + rest.len());
        assert(text[text.len() - 2] == rest[rest.len() - 2]);
        assert(text[text.len() - 1] == rest[rest.len() - 1]);
        if rest.len() > 2 {
            assert(text[text.len() - 3] == rest[rest.len() - 3]);
        } else {
            assert(text[text.len() - 3] == '\n');
        }
    }
}

proof fn lemma_cut_listing(keys: Seq<Seq<char>>, m: int, i: int)
    requires
        forall|k: int|
            0 <= k < keys.len() ==> {
                let key = #[trigger] keys[k];
                &&& !key.contains('\n')
                &&& key.len() > 0 ==> key.last() != '\r'
                &&& key != "."@
            },
        0 <= m < listing(keys).len(),
    ensures
        !is_dot_line(listing(keys).take(m), i),
    decreases keys.len(),
{
    reveal_strlit(".");
    reveal_strlit(".\n");
    let text = listing(keys);
    let cut = text.take(m);
    if keys.len() > 0 && is_dot_line(cut, i) {
        let key = keys[0];
        let n = key.len() as int;
        let rest = keys.skip(1);
        assert forall|k: int| 0 <= k < rest.len() implies {
            let r = #[trigger] rest[k];
            &&& !r.contains('\n')
            &&& r.len() > 0 ==> r.last() != '\r'
            &&& r != "."@
        } by {
            assert(rest[k] == keys[k + 1]);
        }
        assert(text[n] == '\n');
        assert forall|j: int| 0 <= j < n implies text[j] != '\n' by {
            assert(text[j] == key[j]);
            if key[j] == '\n' {
                assert(key.contains('\n'));
            }
        }
        if i <= n {
            assert(i == 0) by {
                if i > 0 {
                    assert(text[i - 1] == '\n');
                }
            }
            assert(n > 0 && key[0] == '.');
            if text[1] == '\n' {
                assert(n == 1);
                assert(key =~= "."@);
            } else {
                assert(n == 2);
                assert(key.last() == text[1]);
            }
        } else {
            let shift = n + 1;
            let later = listing(rest).take(m - shift);
            assert(text.skip(shift) =~= listing(rest));
            assert(cut.skip(shift) =~= later);
            assert forall|j: int| 0 <= j < later.len() implies later[j] == cut[j + shift] by {
                assert(cut.skip(shift)[j] == cut[j + shift]);
            }
            lemma_cut_listing(rest, m - shift, i - shift);
            assert(is_dot_line(later, i - shift));
        }
    }
}

/// A cut through valid bytes that leaves valid bytes cuts the text.
proof fn lemma_cut_bytes(bytes: Seq<u8>, n: int)
    requires
        valid_utf8(bytes),
        0 <= n < bytes.len(),
        valid_utf8(bytes.take(n)),
    ensures
        ({
            let m = decode_utf8(bytes.take(n)).len() as int;
            &&& m < decode_utf8(bytes).len()
            &&& decode_utf8(bytes.take(n)) == decode_utf8(bytes).take(m)
        }),
    decreases bytes.len(),
{
    let cut = bytes.take(n);
    let whole = decode_utf8(bytes);
    let k = length_of_first_scalar(bytes);
    if n == 0 {
        assert(decode_utf8(cut) =~= whole.take(0));
    } else {
        assert(forall|j: int| 0 <= j < n ==> cut[j] == bytes[j]);
        assert(length_of_first_scalar(cut) == k);
        assert(decode_first_scalar(cut) == decode_first_scalar(bytes));
        assert(pop_first_scalar(cut) =~= pop_first_scalar(bytes).take(n - k));
        lemma_cut_bytes(pop_first_scalar(bytes), n - k);
        let m = decode_utf8(cut).len() as int;
        assert(decode_utf8(cut) =~= whole.take(m));
    }
}

/// A daemon's listing is whole once all of it has come in and not before: no
/// part that is cut short passes for it, unless a key is a single dot.
pub proof fn listing_is_whole_at_its_end(
    fds: Map<Seq<char>, i32>,
    keys: Seq<Seq<char>>,
    n: int,
)
    requires
        keys_are_lines(fds),
        is_key_list(keys, fds),
        !fds.contains_key("."@),
    ensures
        ({
            let reply = request_outcome(fds, RequestView::List, None).actions.last();
            &&& reply matches ActionView::Send { text, .. } && {
                let bytes = encode_utf8(text);
                &&& is_whole_listing(bytes)
                &&& 0 <= n < bytes.len() ==> !is_whole_listing(bytes.take(n))
            }
        }),
{
    crate::fd_table::key_list_is_unique(keys, key_list(fds), fds);
    assert forall|i: int| 0 <= i < keys.len() implies {
        let key = #[trigger] keys[i];
        &&& !key.contains('\n')
        &&& key.len() > 0 ==> key.last() != '\r'
        &&& key != "."@
    } by {
        assert(keys.contains(keys[i]));
        assert(fds.contains_key(keys[i]));
        lemma_trimmed_ends(keys[i]);
    }
    let text = listing(keys);
    let bytes = encode_utf8(text);
    lemma_listing_ends_line(keys);
    assert(framed(text) == text);
    encode_utf8_valid_utf8(text);
    encode_utf8_decode_utf8(text);
    lemma_listing_has_dot_line(keys);
    if 0 <= n < bytes.len() && is_whole_listing(bytes.take(n)) {
        lemma_cut_bytes(bytes, n);
        let cut = decode_utf8(bytes.take(n));
        let i = choose|i: int| is_dot_line(cut, i);
        lemma_cut_listing(keys, cut.len() as int, i);
    }
}

/// What follows a whole listing changes nothing of what is read of it.
pub proof fn whole_listing_needs_no_more(text: Seq<char>, more: Seq<char>)
    requires
        has_dot_line(text),
    ensures
        before_dot(lines(text + more)) == before_dot(lines(text)),
    decreases text.len(),
{
    reveal_strlit(".");
    let all = text + more;
    let i = choose|i: int| is_dot_line(text, i);
    let at = first_of(text, '\n');
    lemma_first_of(text, '\n');
    let end = if text[i + 1] == '\n' {
        i + 1
    } else {
        i + 2
    };
    assert(text[end] == '\n');
    assert(at <= end);
    lemma_first_of_unique(all, '\n', at);
    assert(all.take(at) =~= text.take(at));
    assert(all.skip(at + 1) =~= text.skip(at + 1) + more);
    let rest = text.skip(at + 1);
    let line = without_cr(text.take(at));
    assert(lines(text) =~= seq![line] + lines(rest));
    assert(lines(all) =~= seq![line] + lines(rest + more));
    if line != "."@ {
        assert(i > at) by {
            if i <= at {
                if i > 0 {
                    assert(text[i - 1] == '\n');
                }
                assert(i == 0);
                assert(line =~= "."@);
            }
        }
        assert forall|j: int| 0 <= j < rest.len() implies rest[j] == text[j + at + 1] by {}
        assert(is_dot_line(rest, i - at - 1));
        whole_listing_needs_no_more(rest, more);
        assert((seq![line] + lines(rest)).skip(1) =~= lines(rest));
        assert((seq![line] + lines(rest + more)).skip(1) =~= lines(rest + more));
    }
}

/// A client reads the daemon's answers as they are meant: `OK` is a success,
/// `OK` with a descriptor hands that descriptor over, and the message of an
/// error comes back behind `daemon error: `.
pub proof fn client_reads_answers(fd: i32, error: Seq<char>)
    requires
        error.len() > 0,
        error[0] == 'E',
        !is_space(error.last()),
    ensures
        ok_response(encode_utf8(framed("OK"@))) == Ok::<(), Seq<char>>(()),
        fd_response(encode_utf8("OK\n"@), seq![fd]) == Ok::<i32, Seq<char>>(fd),
        ok_response(encode_utf8(framed(error))) == Err::<(), Seq<char>>(
            "daemon error: "@ + error,
        ),
        fd_response(encode_utf8(framed(error)), Seq::empty()) == Err::<i32, Seq<char>>(
            "daemon error: "@ + error,
        ),
{
    reveal_strlit("OK");
    reveal_strlit("OK\n");
    let ok = framed("OK"@);
    assert("OK\n"@ =~= ok);
    lemma_framed_trims("OK"@);
    lemma_framed_trims(error);
    encode_utf8_valid_utf8(ok);
    encode_utf8_decode_utf8(ok);
    encode_utf8_valid_utf8(framed(error));
    encode_utf8_decode_utf8(framed(error));
    assert("OK"@.is_prefix_of("OK"@)) by {
        assert("OK"@ =~= "OK"@.subrange(0, 2));
    }
    assert("OK"@[0] == 'O');
    assert(!"OK"@.is_prefix_of(error)) by {
        if "OK"@.is_prefix_of(error) {
            assert(error.subrange(0, 2)[0] == error[0]);
        }
    }
}

proof fn lemma_framed_trims(message: Seq<char>)
    requires
        message.len() > 0,
        !is_space(message[0]),
        !is_space(message.last()),
    ensures
        trimmed(framed(message)) == message,
{
    let text = framed(message);
    assert(text.last() == '\n');
    assert(text.drop_last() =~= message);
    assert(text[0] == message[0]);
    assert(trim_start(text) == text);
    assert(trim_end(message) == message);
}

/// The name of the socket of the daemon that serves a session.
pub fn socket_name(session_name: &str) -> (name: String)
    ensures
        name@ == "zellij-fd-daemon-"@ + session_name@ + ".sock"@,
{
    let mut name = "zellij-fd-daemon-".to_string();
    name.append(session_name);
    name.append(".sock");
    name
}

/// The socket of the daemon that serves a session, in the directory for
/// temporary files.
pub fn socket_path(temp_dir: &str, session_name: &str) -> (path: String)
    ensures
        path@ == extended(temp_dir@, "zellij-fd-daemon-"@ + session_name@ + ".sock"@),
{
    join(temp_dir, socket_name(session_name).as_str())
}

/// The daemon's program beside another program: in the same directory.
pub open spec fn sibling_program(exe: Seq<char>) -> Option<Seq<char>> {
    match parent_of(exe) {
        Some(dir) => Some(extended(dir, "zellij-fd-daemon"@)),
        None => None,
    }
}

/// The daemon's program beside the running one, whose path is `exe`.
pub fn daemon_beside(exe: &str) -> (path: Option<String>)
    ensures
        opt_text(path) == sibling_program(exe@),
{
    match parent(exe) {
        Some(dir) => Some(join(dir.as_str(), "zellij-fd-daemon")),
        None => None,
    }
}

/// The daemon's program stands in the directory of the program that looks for it.
pub proof fn daemon_stands_beside_the_program(dir: Seq<char>, program: Seq<char>)
    requires
        dir.len() > 0,
        program.len() > 0,
        program != seq!['.'],
        forall|i: int| 0 <= i < program.len() ==> program[i] != '/',
    ensures
        ({
            let found = sibling_program(dir + seq!['/'] + program);
            found is Some && components(found->0) == components(dir).push("zellij-fd-daemon"@)
        }),
        sibling_program(program) == Some("zellij-fd-daemon"@),
        sibling_program(seq!['/']) is None,
        sibling_program(Seq::empty()) is None,
{
    reveal_strlit("zellij-fd-daemon");
    siblings_share_their_directory(dir, program, "zellij-fd-daemon"@);
    parent_is_the_directory(dir, program);
    assert(Seq::<char>::empty() + "zellij-fd-daemon"@ =~= "zellij-fd-daemon"@);
}

/// The places to look for the daemon's program, in the order in which they
/// are tried.
pub enum Lookup {
    /// Beside the running program.
    BesideExe,
    /// Beside the running program once its symbolic links are resolved.
    BesideCanonicalExe,
    /// On the search path.
    SearchPath,
}

/// What looking in one place for the daemon's program calls for.
pub enum Found {
    /// Use this program.
    Use(String),
    /// Look in this place next.
    TryNext(Lookup),
    /// There is no place left; this is why there is no daemon.
    NotFound(String),
}

/// What comes after looking in `place`. `candidate` is the path found there,
/// and `exists` tells whether there is a file at it.
pub fn after_lookup(place: Lookup, candidate: Option<String>, exists: bool) -> (found: Found)
    ensures
        match candidate {
            Some(path) if exists => found == Found::Use(path),
            _ => match place {
                Lookup::BesideExe => found == Found::TryNext(Lookup::BesideCanonicalExe),
                Lookup::BesideCanonicalExe => found == Found::TryNext(Lookup::SearchPath),
                Lookup::SearchPath => found matches Found::NotFound(message) && message@
                    == "zellij-fd-daemon not found next to current exe or in PATH"@,
            },
        },
{
    if let Some(path) = candidate {
        if exists {
            return Found::Use(path);
        }
    }
    match place {
        Lookup::BesideExe => Found::TryNext(Lookup::BesideCanonicalExe),
        Lookup::BesideCanonicalExe => Found::TryNext(Lookup::SearchPath),
        Lookup::SearchPath => Found::NotFound(
            "zellij-fd-daemon not found next to current exe or in PATH".to_string(),
        ),
    }
}

/// The program that a search printed: the text, trimmed, if it succeeded.
pub fn printed_candidate(success: bool, text: &str) -> (path: Option<String>)
    ensures
        opt_text(path) == (if success {
            Some(trimmed(text@))
        } else {
            None
        }),
{
    if success {
        Some(trim_text(text))
    } else {
        None
    }
}

/// The program that `which` found: what it printed, as text and trimmed, if it
/// succeeded.
pub fn which_candidate(success: bool, output: &[u8]) -> (path: Option<String>)
    ensures
        opt_text(path) == (if success {
            Some(trimmed(lossy_text(output@)))
        } else {
            None
        }),
        success && valid_utf8(output@) ==> opt_text(path) == Some(trimmed(decode_utf8(output@))),
{
    printed_candidate(success, text_from_utf8_lossy(output).as_str())
}

/// How often a daemon that was just started is tried.
pub const STARTUP_TRIES: u32 = 50;

/// The pause before each try, in milliseconds.
pub const STARTUP_PAUSE_MS: u64 = 20;

/// What to do on the way to a running daemon.
#[derive(Clone, Copy, Debug, PartialEq, Eq, Structural)]
pub enum Startup {
    /// The daemon answers.
    Running,
    /// Start the daemon, then pause and try to connect.
    Spawn,
    /// Pause, then try to connect again.
    Pause,
    /// The daemon did not come up in time.
    GiveUp,
}

/// What to do after an attempt to connect. `tries` counts the attempts made
/// since the daemon was started; it is absent before that.
pub fn after_connect(tries: Option<u32>, connected: bool) -> (next: Startup)
    ensures
        next == (if connected {
            Startup::Running
        } else {
            match tries {
                None => Startup::Spawn,
                Some(n) => if n < STARTUP_TRIES {
                    Startup::Pause
                } else {
                    Startup::GiveUp
                },
            }
        }),
{
    if connected {
        return Startup::Running;
    }
    match tries {
        None => Startup::Spawn,
        Some(n) => {
            if n < STARTUP_TRIES {
                Startup::Pause
            } else {
                Startup::GiveUp
            }
        },
    }
}

/// How far the way to a running daemon is: whether the daemon was started, and
/// how often it was tried since.
pub struct StartupRun {
    tries: Option<u32>,
}

impl View for StartupRun {
    type V = Option<u32>;

    closed spec fn view(&self) -> Option<u32> {
        self.tries
    }
}

/// What comes after an attempt to connect, and how often the daemon was tried
/// by then; `tries` is absent before the daemon is started.
pub open spec fn startup_next(tries: Option<u32>, connected: bool) -> (Option<u32>, Startup) {
    match tries {
        None => if connected {
            (None, Startup::Running)
        } else {
            (Some(0), Startup::Spawn)
        },
        Some(n) => {
            let made = if n < STARTUP_TRIES {
                (n + 1) as u32
            } else {
                n
            };
            if connected {
                (Some(made), Startup::Running)
            } else if made < STARTUP_TRIES {
                (Some(made), Startup::Pause)
            } else {
                (Some(made), Startup::GiveUp)
            }
        },
    }
}

impl StartupRun {
    /// The daemon was tried `STARTUP_TRIES` times at most.
    pub open spec fn wf(self) -> bool {
        self@ matches Some(n) ==> n <= STARTUP_TRIES
    }

    /// The way to a daemon that was not started yet.
    pub fn new() -> (run: StartupRun)
        ensures
            run.wf(),
            run@ == None::<u32>,
    {
        StartupRun { tries: None }
    }

    /// What to do after an attempt to connect.
    pub fn step(&mut self, connected: bool) -> (next: Startup)
        requires
            old(self).wf(),
        ensures
            final(self).wf(),
            (final(self)@, next) == startup_next(old(self)@, connected),
    {
        match self.tries {
            None => {
                let next = after_connect(None, connected);
                if !connected {
                    self.tries = Some(0);
                }
                next
            },
            Some(n) => {
                let made: u32 = if n < STARTUP_TRIES {
                    n + 1
                } else {
                    n
                };
                self.tries = Some(made);
                after_connect(Some(made), connected)
            },
        }
    }
}

/// What a run does about the attempts to connect, of which `answers` tells
/// whether each succeeded. The run ends once the daemon answers or is given up.
pub open spec fn startup_steps(tries: Option<u32>, answers: Seq<bool>) -> Seq<Startup>
    decreases answers.len(),
{
    if answers.len() == 0 {
        Seq::empty()
    } else {
        let (made, next) = startup_next(tries, answers[0]);
        if next == Startup::Running || next == Startup::GiveUp {
            seq![next]
        } else {
            seq![next] + startup_steps(made, answers.skip(1))
        }
    }
}

/// On the way to a running daemon the first attempt alone can start one, and
/// after that the daemon is tried `STARTUP_TRIES` times at most.
pub proof fn daemon_is_started_once(answers: Seq<bool>)
    ensures
        ({
            let steps = startup_steps(None, answers);
            &&& steps.len() <= 1 + STARTUP_TRIES
            &&& forall|i: int| 0 < i < steps.len() ==> #[trigger] steps[i] != Startup::Spawn
            &&& steps.len() > 1 ==> steps[0] == Startup::Spawn
        }),
{
    if answers.len() > 0 {
        lemma_startup_tries(0, answers.skip(1));
        let (made, next) = startup_next(None, answers[0]);
        if next == Startup::Spawn {
            let steps = startup_steps(None, answers);
            let later = startup_steps(made, answers.skip(1));
            assert(steps =~= seq![next] + later);
            assert forall|i: int| 0 < i < steps.len() implies #[trigger] steps[i]
                != Startup::Spawn by {
                assert(steps[i] == later[i - 1]);
            }
        }
    }
}

proof fn lemma_startup_tries(n: u32, answers: Seq<bool>)
    requires
        n < STARTUP_TRIES,
    ensures
        ({
            let steps = startup_steps(Some(n), answers);
            &&& steps.len() <= STARTUP_TRIES - n
            &&& forall|i: int| 0 <= i < steps.len() ==> #[trigger] steps[i] != Startup::Spawn
        }),
    decreases answers.len(),
{
    if answers.len() > 0 {
        let (made, next) = startup_next(Some(n), answers[0]);
        if next == Startup::Pause {
            lemma_startup_tries(made->0, answers.skip(1));
            let steps = startup_steps(Some(n), answers);
            let later = startup_steps(made, answers.skip(1));
            assert(steps =~= seq![next] + later);
            assert forall|i: int| 0 <= i < steps.len() implies #[trigger] steps[i]
                != Startup::Spawn by {
                if i > 0 {
                    assert(steps[i] == later[i - 1]);
                }
            }
        }
    }
}

/// A daemon that never answers is given up, after `STARTUP_TRIES` tries.
pub proof fn silent_daemon_is_given_up(answers: Seq<bool>)
    requires
        answers.len() == 1 + STARTUP_TRIES,
        forall|i: int| 0 <= i < answers.len() ==> !#[trigger] answers[i],
    ensures
        startup_steps(None, answers).len() == 1 + STARTUP_TRIES,
        startup_steps(None, answers).last() == Startup::GiveUp,
{
    assert(!answers[0]);
    let later = answers.skip(1);
    assert forall|i: int| 0 <= i < later.len() implies !#[trigger] later[i] by {
        assert(later[i] == answers[i + 1]);
    }
    lemma_silent_daemon(0, later);
    assert(startup_steps(None, answers) =~= seq![Startup::Spawn] + startup_steps(Some(0), later));
}

proof fn lemma_silent_daemon(n: u32, answers: Seq<bool>)
    requires
        n < STARTUP_TRIES,
        answers.len() == STARTUP_TRIES - n,
        forall|i: int| 0 <= i < answers.len() ==> !#[trigger] answers[i],
    ensures
        startup_steps(Some(n), answers).len() == STARTUP_TRIES - n,
        startup_steps(Some(n), answers).last() == Startup::GiveUp,
    decreases answers.len(),
{
    assert(!answers[0]);
    if n + 1 < STARTUP_TRIES {
        let later = answers.skip(1);
        assert forall|i: int| 0 <= i < later.len() implies !#[trigger] later[i] by {
            assert(later[i] == answers[i + 1]);
        }
        lemma_silent_daemon((n + 1) as u32, later);
        assert(startup_steps(Some(n), answers) =~= seq![Startup::Pause] + startup_steps(
            Some((n + 1) as u32),
            later,
        ));
    }
}

/// Why a daemon that was started is given up.
pub fn startup_failure() -> (message: String)
    ensures
        message@ == "fd daemon failed to start within 1 second"@,
{
    "fd daemon failed to start within 1 second".to_string()
}

} // verus!
