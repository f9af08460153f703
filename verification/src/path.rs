//! Unix paths as text: components, parents, joining and stripping.

use crate::text::{
    chars_of, find_char, first_of, lemma_first_of, lemma_first_of_unique, opt_text, same_text,
    text_of, texts,
};
use vstd::prelude::*;

verus! {

/// The components of the part of a path that follows its root. Neighbouring
/// separators count as one, and a dot is a component only where the path
/// starts with it.
pub open spec fn body_components(s: Seq<char>, at_start: bool) -> Seq<Seq<char>>
    decreases s.len(),
    via body_components_decreases
{
    let end = first_of(s, '/');
    let piece = s.take(end);
    let here = if is_component(piece, at_start) {
        seq![piece]
    } else {
        Seq::empty()
    };
    if end < s.len() {
        here + body_components(s.skip(end + 1), false)
    } else {
        here
    }
}

#[via_fn]
proof fn body_components_decreases(s: Seq<char>, at_start: bool) {
    lemma_first_of(s, '/');
}

/// Whether the text between two separators is a component.
pub open spec fn is_component(piece: Seq<char>, at_start: bool) -> bool {
    piece.len() > 0 && (at_start || piece != seq!['.'])
}

/// Whether a path starts at the root.
pub open spec fn is_absolute(path: Seq<char>) -> bool {
    path.len() > 0 && path[0] == '/'
}

/// The components of a path. The root is a component of its own.
pub open spec fn components(path: Seq<char>) -> Seq<Seq<char>> {
    if is_absolute(path) {
        seq![seq!['/']] + body_components(path.skip(1), false)
    } else {
        body_components(path, true)
    }
}

/// Where the components of `path[from..]` stand in the path.
pub open spec fn body_spans(path: Seq<char>, from: int, at_start: bool) -> Seq<(int, int)>
    decreases path.len() - from,
    via body_spans_decreases
{
    if from < 0 || from > path.len() {
        Seq::empty()
    } else {
        let end = from + first_of(path.skip(from), '/');
        let here = if is_component(path.subrange(from, end), at_start) {
            seq![(from, end)]
        } else {
            Seq::empty()
        };
        if end < path.len() {
            here + body_spans(path, end + 1, false)
        } else {
            here
        }
    }
}

#[via_fn]
proof fn body_spans_decreases(path: Seq<char>, from: int, at_start: bool) {
    if 0 <= from <= path.len() {
        lemma_first_of(path.skip(from), '/');
    }
}

/// Where the components of a path stand in it.
pub open spec fn spans(path: Seq<char>) -> Seq<(int, int)> {
    if is_absolute(path) {
        seq![(0int, 1int)] + body_spans(path, 1, false)
    } else {
        body_spans(path, 0, true)
    }
}

/// The stretch of text that a span covers.
pub open spec fn covered(path: Seq<char>, span: (int, int)) -> Seq<char> {
    path.subrange(span.0, span.1)
}

/// The spans of a path lie in it, in order, and cover its components.
#[verifier::spinoff_prover]
#[verifier::rlimit(60)]
proof fn lemma_body_spans(path: Seq<char>, from: int, at_start: bool)
    requires
        0 <= from <= path.len(),
    ensures
        body_spans(path, from, at_start).len() == body_components(path.skip(from), at_start).len(),
        forall|i: int|
            0 <= i < body_spans(path, from, at_start).len() ==> {
                let span = #[trigger] body_spans(path, from, at_start)[i];
                &&& from <= span.0 < span.1 <= path.len()
                &&& covered(path, span) == body_components(path.skip(from), at_start)[i]
                &&& is_component(covered(path, span), at_start && span.0 == from)
                &&& i + 1 < body_spans(path, from, at_start).len() ==> span.1
                    < body_spans(path, from, at_start)[i + 1].0
            },
    decreases path.len() - from,
{
    let rest = path.skip(from);
    let k = first_of(rest, '/');
    lemma_first_of(rest, '/');
    let end = from + k;
    assert(path.subrange(from, end) =~= rest.take(k));
    if end < path.len() {
        lemma_body_spans(path, end + 1, false);
        assert(rest.skip(k + 1) =~= path.skip(end + 1));
        let tail = body_spans(path, end + 1, false);
        let all = body_spans(path, from, at_start);
        let shift: int = if is_component(rest.take(k), at_start) {
            1
        } else {
            0
        };
        assert forall|i: int| 0 <= i < all.len() implies {
            let span = #[trigger] all[i];
            &&& from <= span.0 < span.1 <= path.len()
            &&& covered(path, span) == body_components(rest, at_start)[i]
            &&& is_component(covered(path, span), at_start && span.0 == from)
            &&& i + 1 < all.len() ==> span.1 < all[i + 1].0
        } by {
            if i >= shift {
                assert(all[i] == tail[i - shift]);
                assert(body_components(rest, at_start)[i] == body_components(
                    path.skip(end + 1),
                    false,
                )[i - shift]);
            }
            if i + 1 < all.len() {
                assert(all[i + 1] == tail[i + 1 - shift]);
            }
        }
    }
}

/// The spans of a path lie in it, in order, and cover its components.
proof fn lemma_spans(path: Seq<char>)
    ensures
        spans(path).len() == components(path).len(),
        forall|i: int|
            0 <= i < spans(path).len() ==> {
                let span = #[trigger] spans(path)[i];
                &&& 0 <= span.0 < span.1 <= path.len()
                &&& covered(path, span) == components(path)[i]
                &&& i + 1 < spans(path).len() ==> span.1 <= spans(path)[i + 1].0
            },
{
    if is_absolute(path) {
        lemma_body_spans(path, 1, false);
        assert(path.subrange(0, 1) =~= seq!['/']);
        assert forall|i: int| 0 <= i < spans(path).len() implies {
            let span = #[trigger] spans(path)[i];
            &&& 0 <= span.0 < span.1 <= path.len()
            &&& covered(path, span) == components(path)[i]
            &&& i + 1 < spans(path).len() ==> span.1 <= spans(path)[i + 1].0
        } by {
            if i > 0 {
                assert(spans(path)[i] == body_spans(path, 1, false)[i - 1]);
            }
            if i + 1 < spans(path).len() {
                assert(spans(path)[i + 1] == body_spans(path, 1, false)[i]);
            }
        }
    } else {
        lemma_body_spans(path, 0, true);
        assert(path.skip(0) =~= path);
    }
}

/// Spans as the program holds them.
pub open spec fn span_ints(v: Seq<(usize, usize)>) -> Seq<(int, int)> {
    v.map_values(|s: (usize, usize)| (s.0 as int, s.1 as int))
}

/// Finds where the components of a path stand in it.
fn find_spans(chars: &Vec<char>) -> (v: Vec<(usize, usize)>)
    ensures
        span_ints(v@) == spans(chars@),
{
    let mut v: Vec<(usize, usize)> = Vec::new();
    let mut from: usize = 0;
    let mut at_start: bool = true;
    if chars.len() > 0 && chars[0] == '/' {
        v.push((0usize, 1usize));
        from = 1;
        at_start = false;
    }
    let mut done: bool = false;
    let ghost all = spans(chars@);
    assert(span_ints(v@) + body_spans(chars@, from as int, at_start) =~= all);
    while !done
        invariant
            all == spans(chars@),
            from <= chars@.len(),
            !done ==> span_ints(v@) + body_spans(chars@, from as int, at_start) == all,
            done ==> span_ints(v@) == all,
        decreases chars@.len() - from, (if done { 0int } else { 1int }),
    {
        let end = find_char(chars, from, '/');
        let ghost before = span_ints(v@);
        let ghost piece = chars@.subrange(from as int, end as int);
        let dot: bool = end - from == 1 && chars[from] == '.';
        assert(dot <==> piece == seq!['.']) by {
            if dot {
                assert(piece =~= seq!['.']);
            }
            if piece == seq!['.'] {
                assert(piece.len() == 1 && piece[0] == '.');
            }
        }
        if end > from && (at_start || !dot) {
            v.push((from, end));
            assert(span_ints(v@) =~= before.push((from as int, end as int)));
        }
        if end < chars.len() {
            from = end + 1;
            at_start = false;
        } else {
            done = true;
        }
        assert(!done ==> span_ints(v@) + body_spans(chars@, from as int, at_start) =~= all);
        assert(done ==> span_ints(v@) =~= all);
    }
    v
}

/// The components of a path.
pub fn split_components(path: &str) -> (v: Vec<String>)
    ensures
        texts(v@) == components(path@),
{
    let chars = chars_of(path);
    let found = find_spans(&chars);
    let mut v: Vec<String> = Vec::new();
    let mut i: usize = 0;
    proof {
        lemma_spans(chars@);
    }
    while i < found.len()
        invariant
            chars@ == path@,
            i <= found@.len(),
            span_ints(found@) == spans(chars@),
            spans(chars@).len() == components(chars@).len(),
            forall|j: int|
                0 <= j < spans(chars@).len() ==> {
                    let span = #[trigger] spans(chars@)[j];
                    &&& 0 <= span.0 < span.1 <= chars@.len()
                    &&& covered(chars@, span) == components(chars@)[j]
                },
            texts(v@) == components(chars@).take(i as int),
        decreases found@.len() - i,
    {
        assert(spans(chars@)[i as int] == span_ints(found@)[i as int]);
        let piece = text_of(&chars, found[i].0, found[i].1);
        let ghost before = v@;
        v.push(piece);
        assert(texts(v@) =~= texts(before).push(piece@));
        assert(components(chars@).take(i + 1) =~= components(chars@).take(i as int).push(piece@));
        i += 1;
    }
    assert(components(chars@).take(i as int) =~= components(chars@));
    v
}

/// What is left of a path after its first `n` components, as it is written there.
pub open spec fn after_components(path: Seq<char>, n: int) -> Seq<char> {
    if n < spans(path).len() {
        path.subrange(spans(path)[n].0, spans(path).last().1)
    } else {
        Seq::empty()
    }
}

/// The path relative to `base`; absent where `base` is no ancestor of it.
pub open spec fn relative_to(path: Seq<char>, base: Seq<char>) -> Option<Seq<char>> {
    if components(base).is_prefix_of(components(path)) {
        Some(after_components(path, components(base).len() as int))
    } else {
        None
    }
}

/// Whether the strings of `a` start those of `b`.
fn is_prefix(a: &Vec<String>, b: &Vec<String>) -> (r: bool)
    ensures
        r == texts(a@).is_prefix_of(texts(b@)),
{
    if a.len() > b.len() {
        return false;
    }
    let mut i: usize = 0;
    while i < a.len()
        invariant
            a@.len() <= b@.len(),
            i <= a@.len(),
            forall|j: int| 0 <= j < i ==> a@[j]@ == b@[j]@,
        decreases a@.len() - i,
    {
        if !same_text(a[i].as_str(), b[i].as_str()) {
            assert(texts(a@)[i as int] != texts(b@).subrange(0, a@.len() as int)[i as int]);
            return false;
        }
        i += 1;
    }
    assert(texts(a@) =~= texts(b@).subrange(0, a@.len() as int));
    true
}

/// The path relative to `base`; `None` where `base` is no ancestor of it.
pub fn strip_prefix(path: &str, base: &str) -> (r: Option<String>)
    ensures
        opt_text(r) == relative_to(path@, base@),
{
    let of_path = split_components(path);
    let of_base = split_components(base);
    if !is_prefix(&of_base, &of_path) {
        return None;
    }
    let n: usize = of_base.len();
    assert(n == components(base@).len());
    let chars = chars_of(path);
    let found = find_spans(&chars);
    proof {
        lemma_spans(path@);
    }
    if n < found.len() {
        assert(spans(path@)[n as int] == span_ints(found@)[n as int]);
        assert(spans(path@).last() == span_ints(found@)[found@.len() - 1]);
        proof {
            lemma_spans_ordered(path@, n as int, found@.len() - 1);
        }
        let last: usize = found.len() - 1;
        Some(text_of(&chars, found[n].0, found[last].1))
    } else {
        Some(String::new())
    }
}

proof fn lemma_spans_ordered(path: Seq<char>, i: int, j: int)
    requires
        0 <= i <= j < spans(path).len(),
    ensures
        spans(path)[i].0 <= spans(path)[j].0,
        spans(path)[i].0 < spans(path)[j].1 <= path.len(),
    decreases j - i,
{
    lemma_spans(path);
    let here = spans(path)[j];
    if i < j {
        let before = spans(path)[j - 1];
        lemma_spans_ordered(path, i, j - 1);
        assert(before.1 <= spans(path)[j - 1 + 1].0);
    }
}

/// The directory that holds what a path leads to; absent for the root and for
/// the empty path.
pub open spec fn parent_of(path: Seq<char>) -> Option<Seq<char>> {
    let n = components(path).len();
    if n == 0 || components(path).last() == seq!['/'] {
        None
    } else if n == 1 {
        Some(Seq::empty())
    } else {
        Some(path.take(spans(path)[n - 2].1))
    }
}

/// The directory that holds what a path leads to; `None` for the root and for
/// the empty path.
pub fn parent(path: &str) -> (r: Option<String>)
    ensures
        opt_text(r) == parent_of(path@),
{
    let parts = split_components(path);
    let n: usize = parts.len();
    assert(n == components(path@).len());
    if n == 0 {
        return None;
    }
    let last: usize = n - 1;
    assert(components(path@)[n - 1] == parts@[n - 1]@);
    assert("/"@ =~= seq!['/']) by {
        reveal_strlit("/");
    }
    if same_text(parts[last].as_str(), "/") {
        return None;
    }
    if n == 1 {
        return Some(String::new());
    }
    let chars = chars_of(path);
    let found = find_spans(&chars);
    proof {
        lemma_spans(path@);
        assert(spans(path@)[n - 2] == span_ints(found@)[n - 2]);
    }
    Some(text_of(&chars, 0, found[n - 2].1))
}

/// A path extended by another: an absolute one takes its place, a relative
/// one follows it, after a separator where there is none yet.
pub open spec fn extended(base: Seq<char>, path: Seq<char>) -> Seq<char> {
    if is_absolute(path) {
        path
    } else if base.len() > 0 && base.last() != '/' {
        base + seq!['/'] + path
    } else {
        base + path
    }
}

/// Extends a path by another.
pub fn join(base: &str, path: &str) -> (r: String)
    ensures
        r@ == extended(base@, path@),
{
    let of_base = chars_of(base);
    let of_path = chars_of(path);
    if of_path.len() > 0 && of_path[0] == '/' {
        return path.to_string();
    }
    let mut r = base.to_string();
    if of_base.len() > 0 && of_base[of_base.len() - 1] != '/' {
        r.push('/');
    }
    r.append(path);
    assert(r@ =~= extended(base@, path@));
    r
}

/// The last component, where it is a name.
pub open spec fn file_name_of(path: Seq<char>) -> Option<Seq<char>> {
    let parts = components(path);
    if parts.len() == 0 || parts.last() == seq!['/'] || parts.last() == seq!['.'] || parts.last()
        == seq!['.', '.'] {
        None
    } else {
        Some(parts.last())
    }
}

/// A file name without its extension: what stands before the last dot, unless
/// that dot is the first character or there is none.
pub open spec fn stem_of(name: Seq<char>) -> Seq<char> {
    let at = last_dot(name);
    if at <= 0 {
        name
    } else {
        name.take(at)
    }
}

/// The place of the last dot, or -1 where there is none.
pub open spec fn last_dot(name: Seq<char>) -> int
    decreases name.len(),
{
    if name.len() == 0 {
        -1
    } else if name.last() == '.' {
        name.len() - 1
    } else {
        last_dot(name.drop_last())
    }
}

/// The file name that a path ends in, without its extension; `None` where
/// the path ends in no name.
pub fn file_stem(path: &str) -> (r: Option<String>)
    ensures
        opt_text(r) == (match file_name_of(path@) {
            Some(name) => Some(stem_of(name)),
            None => None,
        }),
{
    let parts = split_components(path);
    let n: usize = parts.len();
    assert(n == components(path@).len());
    if n == 0 {
        return None;
    }
    let last: usize = n - 1;
    assert(components(path@)[n - 1] == parts@[n - 1]@);
    proof {
        reveal_strlit("/");
        reveal_strlit(".");
        reveal_strlit("..");
        assert("/"@ =~= seq!['/']);
        assert("."@ =~= seq!['.']);
        assert(".."@ =~= seq!['.', '.']);
    }
    let name = parts[last].as_str();
    if same_text(name, "/") || same_text(name, ".") || same_text(name, "..") {
        return None;
    }
    let chars = chars_of(name);
    let mut end: usize = chars.len();
    assert(chars@.take(end as int) =~= chars@);
    while end > 0 && chars[end - 1] != '.'
        invariant
            end <= chars@.len(),
            last_dot(chars@.take(end as int)) == last_dot(chars@),
        decreases end,
    {
        assert(chars@.take(end as int).drop_last() =~= chars@.take(end - 1));
        end -= 1;
    }
    if end <= 1 {
        Some(name.to_string())
    } else {
        Some(text_of(&chars, 0, end - 1))
    }
}

/// Whether `shared` starts every one of the component lists.
pub open spec fn starts_all(shared: Seq<Seq<char>>, paths: Set<Seq<char>>) -> bool {
    forall|p: Seq<char>| #[trigger] paths.contains(p) ==> shared.is_prefix_of(components(p))
}

/// Whether `shared` is the longest list of components that every path starts with.
pub open spec fn is_longest_shared(shared: Seq<Seq<char>>, paths: Set<Seq<char>>) -> bool {
    &&& starts_all(shared, paths)
    &&& forall|other: Seq<Seq<char>>| #[trigger]
        starts_all(other, paths) ==> other.len() <= shared.len()
}

/// Paths have one longest list of shared components only.
pub proof fn longest_shared_is_unique(
    a: Seq<Seq<char>>,
    b: Seq<Seq<char>>,
    paths: Set<Seq<char>>,
    member: Seq<char>,
)
    requires
        is_longest_shared(a, paths),
        is_longest_shared(b, paths),
        paths.contains(member),
    ensures
        a == b,
{
    let c = components(member);
    assert(a =~= c.subrange(0, a.len() as int));
    assert(b =~= c.subrange(0, b.len() as int));
}

/// The path that a list of components spells: each extends what came before.
pub open spec fn spelled(parts: Seq<Seq<char>>) -> Seq<char>
    decreases parts.len(),
{
    if parts.len() == 0 {
        Seq::empty()
    } else {
        extended(spelled(parts.drop_last()), parts.last())
    }
}

/// The deepest directory that all the paths lie in; absent where there is no
/// path, or where the paths have no component in common.
pub open spec fn common_ancestor(paths: Set<Seq<char>>) -> Option<Seq<char>> {
    let shared = choose|shared: Seq<Seq<char>>| is_longest_shared(shared, paths);
    if paths != Set::<Seq<char>>::empty() && shared.len() > 0 {
        Some(spelled(shared))
    } else {
        None
    }
}

/// Spells a list of components as a path.
fn spell(parts: &Vec<String>) -> (path: String)
    ensures
        path@ == spelled(texts(parts@)),
{
    let mut path = String::new();
    let mut i: usize = 0;
    while i < parts.len()
        invariant
            i <= parts@.len(),
            path@ == spelled(texts(parts@).take(i as int)),
        decreases parts@.len() - i,
    {
        assert(texts(parts@).take(i + 1).drop_last() =~= texts(parts@).take(i as int));
        path = join(path.as_str(), parts[i].as_str());
        i += 1;
    }
    assert(texts(parts@).take(i as int) =~= texts(parts@));
    path
}

/// Shortens `a` to what it has in common with the start of `b`.
fn keep_shared(a: &mut Vec<String>, b: &Vec<String>)
    ensures
        texts(final(a)@).is_prefix_of(texts(old(a)@)),
        texts(final(a)@).is_prefix_of(texts(b@)),
        forall|other: Seq<Seq<char>>|
            other.is_prefix_of(texts(old(a)@)) && #[trigger] other.is_prefix_of(texts(b@))
                ==> other.is_prefix_of(texts(final(a)@)),
{
    let ghost before = a@;
    let mut n: usize = 0;
    while n < a.len() && n < b.len() && same_text(a[n].as_str(), b[n].as_str())
        invariant
            a@ == before,
            n <= a@.len(),
            n <= b@.len(),
            forall|j: int| 0 <= j < n ==> a@[j]@ == b@[j]@,
        decreases a@.len() - n,
    {
        n += 1;
    }
    a.truncate(n);
    proof {
        let x = texts(before);
        let y = texts(b@);
        let z = texts(a@);
        assert(z =~= x.subrange(0, n as int));
        assert(z =~= y.subrange(0, n as int));
        assert forall|other: Seq<Seq<char>>|
            other.is_prefix_of(x) && #[trigger] other.is_prefix_of(y) implies other.is_prefix_of(
            z,
        ) by {
            if other.len() > n {
                assert(x.subrange(0, other.len() as int)[n as int] == x[n as int]);
                assert(y.subrange(0, other.len() as int)[n as int] == y[n as int]);
            } else {
                assert(other =~= z.subrange(0, other.len() as int));
            }
        }
    }
}

/// The deepest directory that all the paths lie in; `None` where there is no
/// path, or where the paths have no component in common.
pub fn common_path_all(paths: &Vec<String>) -> (r: Option<String>)
    ensures
        opt_text(r) == common_ancestor(texts(paths@).to_set()),
{
    let ghost all = texts(paths@);
    if paths.len() == 0 {
        assert(all.to_set() =~= Set::empty());
        return None;
    }
    let mut shared = split_components(paths[0].as_str());
    let mut i: usize = 1;
    assert(texts(shared@) =~= components(all[0]).subrange(0, shared@.len() as int));
    while i < paths.len()
        invariant
            all == texts(paths@),
            1 <= i <= paths@.len(),
            forall|j: int|
                0 <= j < i ==> texts(shared@).is_prefix_of(components(#[trigger] all[j])),
            forall|other: Seq<Seq<char>>|
                (forall|j: int| 0 <= j < i ==> other.is_prefix_of(components(#[trigger] all[j])))
                    ==> #[trigger] other.is_prefix_of(texts(shared@)),
        decreases paths@.len() - i,
    {
        let parts = split_components(paths[i].as_str());
        let ghost before = texts(shared@);
        keep_shared(&mut shared, &parts);
        let ghost after = texts(shared@);
        proof {
            assert(texts(parts@) == components(all[i as int]));
            assert forall|j: int| 0 <= j < i + 1 implies after.is_prefix_of(
                components(#[trigger] all[j]),
            ) by {
                if j < i {
                    let c = components(all[j]);
                    assert(before.is_prefix_of(c));
                    assert(after =~= c.subrange(0, after.len() as int)) by {
                        assert(after =~= before.subrange(0, after.len() as int));
                    }
                }
            }
            assert forall|other: Seq<Seq<char>>|
                (forall|j: int|
                    0 <= j < i + 1 ==> other.is_prefix_of(components(#[trigger] all[j])))
                implies #[trigger] other.is_prefix_of(after) by {
                assert(other.is_prefix_of(before));
                assert(other.is_prefix_of(components(all[i as int])));
            }
        }
        i += 1;
    }
    proof {
        let set = all.to_set();
        let s = texts(shared@);
        assert forall|p: Seq<char>| #[trigger] set.contains(p) implies s.is_prefix_of(
            components(p),
        ) by {
            let j = choose|j: int| 0 <= j < all.len() && all[j] == p;
            assert(s.is_prefix_of(components(all[j])));
        }
        assert forall|other: Seq<Seq<char>>| #[trigger] starts_all(other, set) implies other.len()
            <= s.len() by {
            assert forall|j: int| 0 <= j < all.len() implies other.is_prefix_of(
                components(#[trigger] all[j]),
            ) by {
                assert(set.contains(all[j]));
            }
            assert(other.is_prefix_of(s));
        }
        assert(is_longest_shared(s, set));
        assert(set.contains(all[0]));
        longest_shared_is_unique(
            s,
            choose|shared: Seq<Seq<char>>| is_longest_shared(shared, set),
            set,
            all[0],
        );
    }
    if shared.len() > 0 {
        Some(spell(&shared))
    } else {
        None
    }
}

proof fn lemma_body_concat(a: Seq<char>, b: Seq<char>, at_start: bool)
    ensures
        body_components(a + seq!['/'] + b, at_start) == body_components(a, at_start)
            + body_components(b, false),
    decreases a.len(),
{
    let whole = a + seq!['/'] + b;
    let end = first_of(a, '/');
    lemma_first_of(a, '/');
    assert forall|i: int| 0 <= i < end implies whole[i] != '/' by {
        assert(whole[i] == a[i]);
    }
    assert(whole[end] == '/');
    lemma_first_of_unique(whole, '/', end);
    assert(whole.take(end) =~= a.take(end));
    let here = if is_component(a.take(end), at_start) {
        seq![a.take(end)]
    } else {
        Seq::empty()
    };
    if end < a.len() {
        let rest = a.skip(end + 1);
        lemma_body_concat(rest, b, false);
        assert(whole.skip(end + 1) =~= rest + seq!['/'] + b);
        assert(here + (body_components(rest, false) + body_components(b, false)) =~= (here
            + body_components(rest, false)) + body_components(b, false));
    } else {
        assert(whole.skip(end + 1) =~= b);
    }
}

/// One piece without a separator is at most one component.
proof fn lemma_body_piece(piece: Seq<char>, at_start: bool)
    requires
        !piece.contains('/'),
    ensures
        body_components(piece, at_start) == (if is_component(piece, at_start) {
            seq![piece]
        } else {
            Seq::empty()
        }),
{
    lemma_first_of(piece, '/');
    assert(piece.take(piece.len() as int) =~= piece);
}

/// Nothing after the last component adds to a path.
#[verifier::spinoff_prover]
#[verifier::rlimit(60)]
proof fn lemma_trim_right(path: Seq<char>, from: int, at_start: bool)
    requires
        0 <= from <= path.len(),
        body_spans(path, from, at_start).len() > 0,
    ensures
        ({
            let end = body_spans(path, from, at_start).last().1;
            &&& from < end <= path.len()
            &&& body_components(path.subrange(from, end), at_start) == body_components(
                path.skip(from),
                at_start,
            )
        }),
    decreases path.len() - from,
{
    let rest = path.skip(from);
    let k = first_of(rest, '/');
    lemma_first_of(rest, '/');
    lemma_body_spans(path, from, at_start);
    let end = from + k;
    let piece = rest.take(k);
    assert(path.subrange(from, end) =~= piece);
    assert(!piece.contains('/')) by {
        if piece.contains('/') {
            let i = choose|i: int| 0 <= i < piece.len() && piece[i] == '/';
            assert(rest[i] == '/');
        }
    }
    if end < path.len() {
        let tail = body_spans(path, end + 1, false);
        lemma_body_spans(path, end + 1, false);
        assert(rest.skip(k + 1) =~= path.skip(end + 1));
        if tail.len() > 0 {
            lemma_trim_right(path, end + 1, false);
            let last = tail.last().1;
            assert(body_spans(path, from, at_start).last() == tail.last());
            let kept = path.subrange(from, last);
            assert(kept =~= piece + seq!['/'] + path.subrange(end + 1, last));
            lemma_body_concat(piece, path.subrange(end + 1, last), at_start);
            lemma_body_concat(piece, path.skip(end + 1), at_start);
            assert(rest =~= piece + seq!['/'] + path.skip(end + 1));
        } else {
            assert(body_components(path.skip(end + 1), false).len() == 0);
            assert(body_components(path.skip(end + 1), false) =~= Seq::<Seq<char>>::empty());
            lemma_body_piece(piece, at_start);
            assert(body_spans(path, from, at_start).last() == (from, end));
            assert(body_components(rest, at_start) =~= seq![piece]);
        }
    } else {
        assert(path.subrange(from, end) =~= rest);
        assert(body_spans(path, from, at_start).last() == (from, end));
    }
}

/// From one component on, a path has the components from that one on.
#[verifier::spinoff_prover]
#[verifier::rlimit(60)]
proof fn lemma_from_component(path: Seq<char>, from: int, at_start: bool, k: int)
    requires
        0 <= from <= path.len(),
        0 <= k < body_spans(path, from, at_start).len(),
        k > 0 || !at_start,
    ensures
        ({
            let all = body_spans(path, from, at_start);
            body_components(path.subrange(all[k].0, all.last().1), false) == body_components(
                path.skip(from),
                at_start,
            ).skip(k)
        }),
    decreases path.len() - from,
{
    let rest = path.skip(from);
    let n = first_of(rest, '/');
    lemma_first_of(rest, '/');
    lemma_body_spans(path, from, at_start);
    let end = from + n;
    assert(path.subrange(from, end) =~= rest.take(n));
    let kept = is_component(rest.take(n), at_start);
    let all = body_spans(path, from, at_start);
    if k == 0 && kept {
        lemma_trim_right(path, from, at_start);
        assert(body_components(rest, at_start).skip(0) =~= body_components(rest, at_start));
    } else {
        assert(end < path.len());
        let tail = body_spans(path, end + 1, false);
        assert(rest.skip(n + 1) =~= path.skip(end + 1));
        let j = if kept {
            k - 1
        } else {
            k
        };
        lemma_from_component(path, end + 1, false, j);
        assert(all[k] == tail[j]);
        assert(all.last() == tail.last());
        assert(body_components(rest, at_start).skip(k) =~= body_components(
            path.skip(end + 1),
            false,
        ).skip(j));
    }
}

/// Whether a list of components can be read off a path.
pub open spec fn are_components(parts: Seq<Seq<char>>) -> bool {
    forall|i: int|
        0 <= i < parts.len() ==> {
            let part = #[trigger] parts[i];
            ||| i == 0 && part == seq!['/']
            ||| part.len() > 0 && !part.contains('/') && (i == 0 || part != seq!['.'])
        }
}

proof fn lemma_body_are_components(s: Seq<char>, at_start: bool)
    ensures
        forall|i: int|
            0 <= i < body_components(s, at_start).len() ==> {
                let part = #[trigger] body_components(s, at_start)[i];
                part.len() > 0 && !part.contains('/') && (i == 0 && at_start || part != seq!['.'])
            },
    decreases s.len(),
{
    let end = first_of(s, '/');
    lemma_first_of(s, '/');
    let piece = s.take(end);
    assert(!piece.contains('/')) by {
        if piece.contains('/') {
            let i = choose|i: int| 0 <= i < piece.len() && piece[i] == '/';
            assert(s[i] == '/');
        }
    }
    if end < s.len() {
        let rest = body_components(s.skip(end + 1), false);
        lemma_body_are_components(s.skip(end + 1), false);
        let all = body_components(s, at_start);
        let shift: int = if is_component(piece, at_start) {
            1
        } else {
            0
        };
        assert forall|i: int| 0 <= i < all.len() implies {
            let part = #[trigger] all[i];
            part.len() > 0 && !part.contains('/') && (i == 0 && at_start || part != seq!['.'])
        } by {
            if i >= shift {
                assert(all[i] == rest[i - shift]);
            }
        }
    }
}

/// What is read off a path are components.
pub proof fn components_are_components(path: Seq<char>)
    ensures
        are_components(components(path)),
{
    if is_absolute(path) {
        lemma_body_are_components(path.skip(1), false);
        assert forall|i: int| 0 <= i < components(path).len() implies {
            let part = #[trigger] components(path)[i];
            ||| i == 0 && part == seq!['/']
            ||| part.len() > 0 && !part.contains('/') && (i == 0 || part != seq!['.'])
        } by {
            if i > 0 {
                assert(components(path)[i] == body_components(path.skip(1), false)[i - 1]);
            }
        }
    } else {
        lemma_body_are_components(path, true);
    }
}

/// A relative path that starts with no dot puts its components after those of its base.
proof fn lemma_extended_components(base: Seq<char>, path: Seq<char>)
    requires
        base.len() > 0,
        base.last() == '/' ==> base == seq!['/'],
        !is_absolute(path),
    ensures
        components(extended(base, path)) == components(base) + body_components(path, false),
{
    let whole = extended(base, path);
    if base.last() == '/' {
        assert(whole.skip(1) =~= path);
        lemma_body_piece(Seq::empty(), false);
        assert(base.skip(1) =~= Seq::<char>::empty());
        assert(components(base) =~= seq![seq!['/']]);
    } else if is_absolute(base) {
        lemma_body_concat(base.skip(1), path, false);
        assert(whole.skip(1) =~= base.skip(1) + seq!['/'] + path);
        assert(components(whole) =~= components(base) + body_components(path, false));
    } else {
        lemma_body_concat(base, path, true);
    }
}

/// The path that components spell has those components.
pub proof fn spelled_reads_back(parts: Seq<Seq<char>>)
    requires
        are_components(parts),
    ensures
        components(spelled(parts)) == parts,
        parts.len() > 0 ==> spelled(parts).len() > 0,
        parts.len() > 0 && spelled(parts).last() == '/' ==> spelled(parts) == seq!['/'],
    decreases parts.len(),
{
    if parts.len() == 0 {
        lemma_body_piece(Seq::empty(), true);
        assert(components(spelled(parts)) =~= parts);
    } else {
        let before = parts.drop_last();
        let last = parts.last();
        assert(parts[parts.len() - 1] == last);
        assert forall|i: int| 0 <= i < before.len() implies {
            let part = #[trigger] before[i];
            ||| i == 0 && part == seq!['/']
            ||| part.len() > 0 && !part.contains('/') && (i == 0 || part != seq!['.'])
        } by {
            assert(before[i] == parts[i]);
        }
        spelled_reads_back(before);
        if last == seq!['/'] {
            assert(last.contains('/')) by {
                assert(last[0] == '/');
            }
            assert(parts.len() == 1);
            lemma_body_piece(Seq::empty(), false);
            assert(last.skip(1) =~= Seq::<char>::empty());
            assert(components(spelled(parts)) =~= parts);
        } else {
            assert(!is_absolute(last)) by {
                if is_absolute(last) {
                    assert(last[0] == '/');
                }
            }
            assert(last.last() != '/') by {
                if last.last() == '/' {
                    assert(last[last.len() - 1] == '/');
                }
            }
            lemma_body_piece(last, before.len() == 0);
            if before.len() == 0 {
                assert(spelled(parts) =~= last);
                assert(components(spelled(parts)) =~= parts);
            } else {
                lemma_extended_components(spelled(before), last);
                assert(components(spelled(parts)) =~= parts);
            }
        }
    }
}

/// Splitting a path into an ancestor and the rest loses nothing: the ancestor,
/// extended by what is relative to it, has the components of the path.
pub proof fn split_path_is_whole_again(path: Seq<char>, shared: Seq<Seq<char>>)
    requires
        shared.len() > 0,
        shared.is_prefix_of(components(path)),
    ensures
        relative_to(path, spelled(shared)) matches Some(rest) ==> components(
            extended(spelled(shared), rest),
        ) == components(path),
        relative_to(path, spelled(shared)) is Some,
{
    components_are_components(path);
    let all = components(path);
    assert(shared =~= all.subrange(0, shared.len() as int));
    assert forall|i: int| 0 <= i < shared.len() implies {
        let part = #[trigger] shared[i];
        ||| i == 0 && part == seq!['/']
        ||| part.len() > 0 && !part.contains('/') && (i == 0 || part != seq!['.'])
    } by {
        assert(shared[i] == all[i]);
    }
    spelled_reads_back(shared);
    let base = spelled(shared);
    let n = shared.len() as int;
    let rest = after_components(path, n);
    assert(relative_to(path, base) == Some(rest));
    lemma_spans(path);
    if n < spans(path).len() {
        if is_absolute(path) {
            lemma_from_component(path, 1, false, n - 1);
            assert(spans(path)[n] == body_spans(path, 1, false)[n - 1]);
            assert(spans(path).last() == body_spans(path, 1, false).last());
            assert(body_components(path.skip(1), false).skip(n - 1) =~= all.skip(n));
        } else {
            assert(path.skip(0) =~= path);
            lemma_from_component(path, 0, true, n);
        }
        assert(body_components(rest, false) == all.skip(n));
        lemma_spans_ordered(path, n, spans(path).len() - 1);
        assert(covered(path, spans(path)[n]) == all[n]);
        assert(!is_absolute(rest)) by {
            assert(rest[0] == path[spans(path)[n].0]);
            assert(all[n][0] == path[spans(path)[n].0]);
            if all[n][0] == '/' {
                assert(all[n].contains('/'));
            }
        }
    } else {
        lemma_body_piece(Seq::empty(), false);
        assert(all.skip(n) =~= Seq::<Seq<char>>::empty());
    }
    lemma_extended_components(base, rest);
    assert(shared + all.skip(n) =~= all);
}

/// A directory extended by a plain name ends in that name.
pub proof fn lemma_last_component(dir: Seq<char>, name: Seq<char>)
    requires
        name.len() > 1,
        !name.contains('/'),
        name != seq!['.', '.'],
    ensures
        components(extended(dir, name)).len() > 0,
        components(extended(dir, name)).last() == name,
        file_name_of(extended(dir, name)) == Some(name),
{
    assert(!is_absolute(name)) by {
        if is_absolute(name) {
            assert(name[0] == '/');
        }
    }
    let whole = extended(dir, name);
    lemma_body_piece(name, true);
    lemma_body_piece(name, false);
    assert(name != seq!['.'] && name != seq!['/']);
    if dir.len() == 0 {
        assert(whole =~= name);
    } else {
        let d = if dir.last() == '/' {
            dir.drop_last()
        } else {
            dir
        };
        assert(whole =~= d + seq!['/'] + name);
        if is_absolute(dir) {
            if d.len() == 0 {
                assert(whole.skip(1) =~= name);
            } else {
                lemma_body_concat(d.skip(1), name, false);
                assert(whole.skip(1) =~= d.skip(1) + seq!['/'] + name);
            }
        } else {
            lemma_body_concat(d, name, true);
            assert(whole[0] == dir[0]);
        }
    }
}

/// Separators that follow each other, a single dot between two of them and one
/// at the end make no component.
pub proof fn needless_separators_are_ignored(a: Seq<char>, b: Seq<char>)
    requires
        a.len() > 0,
    ensures
        components(a + seq!['/', '/'] + b) == components(a + seq!['/'] + b),
        components(a + seq!['/', '.', '/'] + b) == components(a + seq!['/'] + b),
        components(a + seq!['/']) == components(a),
        components(a + seq!['/', '.']) == components(a),
{
    let at_start = !is_absolute(a);
    let body = if at_start { a } else { a.skip(1) };
    let none = Seq::<char>::empty();
    let dot = seq!['.'];
    lemma_body_piece(none, false);
    lemma_body_piece(dot, false);
    lemma_body_concat(body, b, at_start);
    lemma_body_concat(body, none, at_start);
    lemma_body_concat(body, dot, at_start);
    lemma_body_concat(body, seq!['/'] + b, at_start);
    lemma_body_concat(body, dot + seq!['/'] + b, at_start);
    lemma_body_concat(none, b, false);
    lemma_body_concat(dot, b, false);
    assert(none + seq!['/'] + b =~= seq!['/'] + b);
    let twice = a + seq!['/', '/'] + b;
    let dotted = a + seq!['/', '.', '/'] + b;
    let once = a + seq!['/'] + b;
    let ended = a + seq!['/'];
    let ended_dotted = a + seq!['/', '.'];
    assert(twice[0] == a[0] && dotted[0] == a[0] && once[0] == a[0]);
    assert(ended[0] == a[0] && ended_dotted[0] == a[0]);
    let from: int = if at_start { 0 } else { 1 };
    assert(body =~= a.skip(from));
    assert(twice.skip(from) =~= body + seq!['/'] + (seq!['/'] + b));
    assert(dotted.skip(from) =~= body + seq!['/'] + (dot + seq!['/'] + b));
    assert(once.skip(from) =~= body + seq!['/'] + b);
    assert(ended.skip(from) =~= body + seq!['/'] + none);
    assert(ended_dotted.skip(from) =~= body + seq!['/'] + dot);
    assert(twice.skip(0) =~= twice && dotted.skip(0) =~= dotted && once.skip(0) =~= once);
    assert(ended.skip(0) =~= ended && ended_dotted.skip(0) =~= ended_dotted);
}

/// A name behind a directory and a separator is one more component, and a path
/// without a separator is a component itself.
pub proof fn names_are_components(dir: Seq<char>, name: Seq<char>)
    requires
        name.len() > 0,
        forall|i: int| 0 <= i < name.len() ==> name[i] != '/',
    ensures
        components(name) == seq![name],
        dir.len() > 0 && name != seq!['.'] ==> components(dir + seq!['/'] + name) == components(
            dir,
        ).push(name),
        name != seq!['.'] ==> components(seq!['/'] + name) == seq![seq!['/'], name],
        components(seq!['/']) == seq![seq!['/']],
        components(Seq::empty()).len() == 0,
{
    let none = Seq::<char>::empty();
    let root = seq!['/'];
    lemma_body_piece(name, true);
    lemma_body_piece(name, false);
    lemma_body_piece(none, true);
    lemma_body_piece(none, false);
    assert(root.skip(1) =~= none);
    assert((root + name).skip(1) =~= name);
    assert(components(root) =~= seq![root]);
    if name != seq!['.'] {
        assert(components(root + name) =~= seq![root, name]);
        if dir.len() > 0 {
            let whole = dir + seq!['/'] + name;
            assert(whole[0] == dir[0]);
            if is_absolute(dir) {
                let body = dir.skip(1);
                lemma_body_concat(body, name, false);
                assert(whole.skip(1) =~= body + seq!['/'] + name);
            } else {
                lemma_body_concat(dir, name, true);
            }
            assert(components(whole) =~= components(dir).push(name));
        }
    }
}

proof fn lemma_last_span(dir: Seq<char>, name: Seq<char>, from: int, at_start: bool)
    requires
        0 <= from <= dir.len(),
        !name.contains('/'),
        is_component(name, false),
    ensures
        ({
            let whole = dir + seq!['/'] + name;
            body_spans(whole, from, at_start) == body_spans(dir, from, at_start).push(
                (dir.len() as int + 1, whole.len() as int),
            )
        }),
    decreases dir.len() - from,
{
    let whole = dir + seq!['/'] + name;
    let rest = dir.skip(from);
    let k = first_of(rest, '/');
    lemma_first_of(rest, '/');
    let end = from + k;
    assert forall|i: int| 0 <= i < k implies whole.skip(from)[i] != '/' by {
        assert(whole.skip(from)[i] == rest[i]);
    }
    assert(whole.skip(from)[k] == '/') by {
        assert(whole.skip(from)[k] == whole[end]);
        if end < dir.len() {
            assert(rest[k] == dir[end]);
        }
    }
    lemma_first_of_unique(whole.skip(from), '/', k);
    assert(whole.subrange(from, end) =~= dir.subrange(from, end));
    if end < dir.len() {
        lemma_last_span(dir, name, end + 1, false);
    } else {
        let at = dir.len() as int + 1;
        assert(whole.skip(at) =~= name);
        lemma_first_of(name, '/');
        assert(whole.subrange(at, whole.len() as int) =~= name);
        assert(body_spans(whole, at, false) =~= seq![(at, whole.len() as int)]);
    }
    assert(body_spans(whole, from, at_start) =~= body_spans(dir, from, at_start).push(
        (dir.len() as int + 1, whole.len() as int),
    ));
}

/// What holds a name in a directory is that directory; a bare name is held by
/// the empty path, a name at the root by the root, and nothing holds the root or
/// the empty path.
pub proof fn parent_is_the_directory(dir: Seq<char>, name: Seq<char>)
    requires
        name.len() > 0,
        name != seq!['.'],
        forall|i: int| 0 <= i < name.len() ==> name[i] != '/',
    ensures
        dir.len() > 0 ==> ({
            let parent = parent_of(dir + seq!['/'] + name);
            parent is Some && components(parent->0) == components(dir)
        }),
        parent_of(name) == Some(Seq::<char>::empty()),
        parent_of(seq!['/'] + name) == Some(seq!['/']),
        parent_of(seq!['/']) is None,
        parent_of(Seq::empty()) is None,
{
    names_are_components(dir, name);
    let root = seq!['/'];
    assert(name[0] != '/');
    assert(name != root);
    lemma_spans(root + name);
    assert(spans(root + name)[0] == (0int, 1int));
    assert((root + name).take(1) =~= root);
    if dir.len() > 0 {
        let whole = dir + seq!['/'] + name;
        assert(whole[0] == dir[0]);
        let from: int = if is_absolute(dir) { 1 } else { 0 };
        lemma_last_span(dir, name, from, from == 0);
        lemma_spans(dir);
        lemma_spans(whole);
        let held = spans(dir);
        assert(spans(whole) =~= held.push((dir.len() as int + 1, whole.len() as int)));
        assert(held.len() > 0) by {
            if from == 0 {
                lemma_first_of(dir, '/');
                assert(dir.take(first_of(dir, '/')).len() > 0);
            }
        }
        let n = components(whole).len() as int;
        assert(spans(whole)[n - 2] == held.last());
        let end = held.last().1;
        let parent = whole.take(end);
        assert(parent =~= dir.take(end));
        assert(parent[0] == dir[0]);
        let inner = body_spans(dir, from, from == 0);
        lemma_body_spans(dir, from, from == 0);
        if inner.len() > 0 {
            assert(inner.last() == held.last());
            lemma_trim_right(dir, from, from == 0);
            assert(parent.skip(from) =~= dir.subrange(from, end));
            assert(dir.skip(0) =~= dir && parent.skip(0) =~= parent);
        } else {
            assert(parent =~= root);
            assert(components(dir) =~= seq![root]);
        }
    }
}

/// Paths that lie in the same directory have the same components but the last.
pub proof fn siblings_share_their_directory(dir: Seq<char>, name: Seq<char>, other: Seq<char>)
    requires
        dir.len() > 0,
        name.len() > 0,
        name != seq!['.'],
        forall|i: int| 0 <= i < name.len() ==> name[i] != '/',
        other.len() > 0,
        other != seq!['.'],
        forall|i: int| 0 <= i < other.len() ==> other[i] != '/',
    ensures
        ({
            let parent = parent_of(dir + seq!['/'] + name);
            parent is Some && components(extended(parent->0, other)) == components(dir).push(other)
        }),
{
    parent_is_the_directory(dir, name);
    let parent = parent_of(dir + seq!['/'] + name)->0;
    names_are_components(parent, other);
    names_are_components(dir, name);
    assert(parent.len() > 0) by {
        lemma_spans(parent);
        lemma_spans(dir);
        if parent.len() == 0 {
            assert(parent =~= Seq::empty());
            assert(components(dir).len() == 0);
            if is_absolute(dir) {
                assert(components(dir)[0] == seq!['/']);
            } else {
                lemma_first_of(dir, '/');
                assert(dir.take(first_of(dir, '/')).len() > 0);
            }
        }
    }
    assert(other[0] != '/');
    if parent.last() == '/' {
        let cut = parent.drop_last();
        assert(extended(parent, other) =~= cut + seq!['/'] + other);
        if cut.len() > 0 {
            names_are_components(cut, other);
            needless_separators_are_ignored(cut, Seq::empty());
            assert(cut + seq!['/'] =~= parent);
        } else {
            assert(parent =~= seq!['/']);
            assert(extended(parent, other) =~= seq!['/'] + other);
        }
    }
    assert(components(extended(parent, other)) =~= components(dir).push(other));
}

/// The stem of a file name is what stands before its last dot. A dot that the name
/// starts with is part of the stem.
pub proof fn stem_stands_before_the_last_dot(stem: Seq<char>, extension: Seq<char>)
    requires
        forall|i: int| 0 <= i < extension.len() ==> extension[i] != '.',
    ensures
        stem.len() > 0 ==> stem_of(stem + seq!['.'] + extension) == stem,
        stem_of(seq!['.'] + extension) == seq!['.'] + extension,
        stem_of(extension) == extension,
{
    lemma_last_dot(stem, extension);
    lemma_last_dot(Seq::empty(), extension);
    lemma_no_dot(extension);
    assert(Seq::<char>::empty() + seq!['.'] + extension =~= seq!['.'] + extension);
    assert((stem + seq!['.'] + extension).take(stem.len() as int) =~= stem);
}

proof fn lemma_last_dot(stem: Seq<char>, extension: Seq<char>)
    requires
        forall|i: int| 0 <= i < extension.len() ==> extension[i] != '.',
    ensures
        last_dot(stem + seq!['.'] + extension) == stem.len(),
    decreases extension.len(),
{
    let name = stem + seq!['.'] + extension;
    if extension.len() > 0 {
        let rest = extension.drop_last();
        lemma_last_dot(stem, rest);
        assert(name.drop_last() =~= stem + seq!['.'] + rest);
        assert(name.last() == extension.last());
    } else {
        assert(name.last() == '.');
    }
}

proof fn lemma_no_dot(name: Seq<char>)
    requires
        forall|i: int| 0 <= i < name.len() ==> name[i] != '.',
    ensures
        last_dot(name) == -1,
    decreases name.len(),
{
    if name.len() > 0 {
        lemma_no_dot(name.drop_last());
    }
}

} // verus!
