//! One-key hints for jumping to a tab.

use crate::text::chars_of;
use vstd::prelude::*;

verus! {

/// Whether `c` is an ASCII letter.
pub open spec fn is_letter(c: char) -> bool {
    'a' <= c <= 'z' || 'A' <= c <= 'Z'
}

/// The lower case of an ASCII letter.
pub open spec fn lower(c: char) -> char {
    if 'A' <= c <= 'Z' {
        (c as int + 32) as char
    } else {
        c
    }
}

/// The ASCII letters of a name, in lower case.
pub open spec fn letters(name: Seq<char>) -> Seq<char>
    decreases name.len(),
{
    if name.len() == 0 {
        Seq::empty()
    } else if is_letter(name.last()) {
        letters(name.drop_last()).push(lower(name.last()))
    } else {
        letters(name.drop_last())
    }
}

/// The characters to fall back on, in the order in which they are tried: the
/// digits from 1 to 9, then 0, then the letters from a to z.
pub open spec fn pool() -> Seq<char> {
    Seq::new(
        36,
        |i: int|
            if i < 9 {
                ('1' as int + i) as char
            } else if i == 9 {
                '0'
            } else {
                ('a' as int + i - 10) as char
            },
    )
}

/// Whether some tab has the hint `c`.
pub open spec fn taken(hints: Seq<Option<char>>, c: char) -> bool {
    exists|i: int| 0 <= i < hints.len() && #[trigger] hints[i] == Some(c)
}

/// The first of the candidates that no tab has.
pub open spec fn first_free(candidates: Seq<char>, hints: Seq<Option<char>>) -> Option<char>
    decreases candidates.len(),
{
    if candidates.len() == 0 {
        None
    } else if !taken(hints, candidates[0]) {
        Some(candidates[0])
    } else {
        first_free(candidates.skip(1), hints)
    }
}

/// The hint that a tab gets by the first letter of its name: that letter,
/// unless the name of an earlier tab has the same first letter.
pub open spec fn initial_hint(names: Seq<Seq<char>>, i: int) -> Option<char> {
    if letters(names[i]).len() > 0 && (forall|j: int|
        0 <= j < i && letters(#[trigger] names[j]).len() > 0 ==> letters(names[j])[0] != letters(
            names[i],
        )[0]) {
        Some(letters(names[i])[0])
    } else {
        None
    }
}

/// The hints after the first pass.
pub open spec fn initial_hints(names: Seq<Seq<char>>) -> Seq<Option<char>> {
    Seq::new(names.len(), |i: int| initial_hint(names, i))
}

/// The letters of a name after its first.
pub open spec fn later_letters(name: Seq<char>) -> Seq<char> {
    if letters(name).len() > 0 {
        letters(name).skip(1)
    } else {
        Seq::empty()
    }
}

/// Gives the tab at `i` a hint from the candidates, if it has none.
pub open spec fn fill(
    hints: Seq<Option<char>>,
    i: int,
    candidates: Seq<char>,
) -> Seq<Option<char>> {
    if hints[i] is Some {
        hints
    } else {
        hints.update(i, first_free(candidates, hints))
    }
}

/// The hints after the second pass reached the tab at `n`: each tab without a
/// hint takes the first later letter of its name that is free.
pub open spec fn letter_hints(names: Seq<Seq<char>>, n: int) -> Seq<Option<char>>
    decreases n,
{
    if n <= 0 {
        initial_hints(names)
    } else {
        fill(letter_hints(names, n - 1), n - 1, later_letters(names[n - 1]))
    }
}

/// The hints after the third pass reached the tab at `n`: each tab without a
/// hint takes the first free character of the pool.
pub open spec fn pool_hints(names: Seq<Seq<char>>, n: int) -> Seq<Option<char>>
    decreases n,
{
    if n <= 0 {
        letter_hints(names, names.len() as int)
    } else {
        fill(pool_hints(names, n - 1), n - 1, pool())
    }
}

/// The hint of every tab, by the names of the tabs in their order.
pub open spec fn tab_hints(names: Seq<Seq<char>>) -> Seq<Option<char>> {
    pool_hints(names, names.len() as int)
}

/// The names as character sequences.
pub open spec fn name_texts(names: Seq<&str>) -> Seq<Seq<char>> {
    names.map_values(|n: &str| n@)
}

/// The ASCII letters of a name, in lower case.
fn letters_of(name: &str) -> (v: Vec<char>)
    ensures
        v@ == letters(name@),
{
    let chars = chars_of(name);
    let mut v: Vec<char> = Vec::new();
    let mut i: usize = 0;
    while i < chars.len()
        invariant
            i <= chars@.len(),
            v@ == letters(chars@.take(i as int)),
        decreases chars@.len() - i,
    {
        let c = chars[i];
        assert(chars@.take(i + 1).drop_last() =~= chars@.take(i as int));
        if 'a' <= c && c <= 'z' {
            v.push(c);
        } else if 'A' <= c && c <= 'Z' {
            v.push((c as u8 + 32) as char);
        }
        i += 1;
    }
    assert(chars@.take(i as int) =~= chars@);
    v
}

/// Whether some tab has the hint `c`.
fn is_taken(hints: &Vec<Option<char>>, c: char) -> (r: bool)
    ensures
        r == taken(hints@, c),
{
    let mut i: usize = 0;
    while i < hints.len()
        invariant
            i <= hints@.len(),
            forall|j: int| 0 <= j < i ==> hints@[j] != Some(c),
        decreases hints@.len() - i,
    {
        if let Some(d) = hints[i] {
            if d == c {
                assert(hints@[i as int] == Some(c));
                return true;
            }
        }
        i += 1;
    }
    false
}

/// The first of `candidates[from..]` that no tab has.
fn find_free(candidates: &Vec<char>, from: usize, hints: &Vec<Option<char>>) -> (r: Option<char>)
    ensures
        r == (if from <= candidates@.len() {
            first_free(candidates@.skip(from as int), hints@)
        } else {
            None
        }),
{
    if from > candidates.len() {
        return None;
    }
    let mut i: usize = from;
    while i < candidates.len()
        invariant
            from <= i <= candidates@.len(),
            first_free(candidates@.skip(from as int), hints@) == first_free(
                candidates@.skip(i as int),
                hints@,
            ),
        decreases candidates@.len() - i,
    {
        let c = candidates[i];
        assert(candidates@.skip(i as int)[0] == c);
        if !is_taken(hints, c) {
            return Some(c);
        }
        assert(candidates@.skip(i as int).skip(1) =~= candidates@.skip(i + 1));
        i += 1;
    }
    None
}

/// The characters to fall back on.
fn fallback_pool() -> (v: Vec<char>)
    ensures
        v@ == pool(),
{
    let mut v: Vec<char> = Vec::new();
    let mut d: u8 = 49;
    while d <= 57
        invariant
            49 <= d <= 58,
            v@ == pool().take(d - 49),
        decreases 58 - d,
    {
        v.push(d as char);
        assert(pool().take(d - 49 + 1) =~= pool().take(d - 49).push(pool()[d - 49]));
        d += 1;
    }
    v.push('0');
    assert(v@ =~= pool().take(10));
    let mut l: u8 = 97;
    while l <= 122
        invariant
            97 <= l <= 123,
            v@ == pool().take(l - 87),
        decreases 123 - l,
    {
        v.push(l as char);
        assert(pool().take(l - 87 + 1) =~= pool().take(l - 87).push(pool()[l - 87]));
        l += 1;
    }
    assert(pool().take(36) =~= pool());
    v
}

proof fn lemma_initial_taken(names: Seq<Seq<char>>, partial: Seq<Option<char>>, i: int)
    requires
        0 <= i < names.len(),
        partial.len() == names.len(),
        forall|j: int| 0 <= j < i ==> partial[j] == initial_hint(names, j),
        forall|j: int| i <= j < names.len() ==> partial[j] is None,
        letters(names[i]).len() > 0,
    ensures
        taken(partial, letters(names[i])[0]) <==> initial_hint(names, i) is None,
{
    let c = letters(names[i])[0];
    if taken(partial, c) {
        let j = choose|j: int| 0 <= j < partial.len() && #[trigger] partial[j] == Some(c);
        assert(letters(names[j])[0] == c);
    }
    if initial_hint(names, i) is None {
        let j = choose|j: int|
            0 <= j < i && letters(#[trigger] names[j]).len() > 0 && letters(names[j])[0] == c;
        lemma_first_owner(names, j, c);
        let k = choose|k: int| 0 <= k <= j && #[trigger] initial_hint(names, k) == Some(c);
        assert(partial[k] == Some(c));
    }
}

/// Where a name starts with a letter, that name's tab or an earlier one has it.
proof fn lemma_first_owner(names: Seq<Seq<char>>, j: int, c: char)
    requires
        0 <= j < names.len(),
        letters(names[j]).len() > 0,
        letters(names[j])[0] == c,
    ensures
        exists|k: int| 0 <= k <= j && #[trigger] initial_hint(names, k) == Some(c),
    decreases j,
{
    if initial_hint(names, j) is None {
        let k = choose|k: int|
            0 <= k < j && letters(#[trigger] names[k]).len() > 0 && letters(names[k])[0] == c;
        lemma_first_owner(names, k, c);
    }
}

/// Gives one hint to each tab, by the names of the tabs in their order.
///
/// A tab prefers the first letter of its name; if an earlier tab has it, the
/// next letter of its name that is free; and if none is, the first free one of
/// the digits from 1 to 9, then 0, then the letters. A tab that finds
/// everything taken gets no hint.
pub fn assign_tab_hints(tab_names: &[&str]) -> (hints: Vec<Option<char>>)
    ensures
        hints@ == tab_hints(name_texts(tab_names@)),
{
    let ghost names = name_texts(tab_names@);
    let n: usize = tab_names.len();
    let mut hints: Vec<Option<char>> = Vec::new();
    let mut i: usize = 0;
    while i < n
        invariant
            i <= n,
            hints@.len() == i,
            forall|j: int| 0 <= j < i ==> hints@[j] is None,
        decreases n - i,
    {
        hints.push(None);
        i += 1;
    }
    i = 0;
    while i < n
        invariant
            i <= n,
            n == tab_names@.len(),
            names == name_texts(tab_names@),
            hints@.len() == n,
            forall|j: int| 0 <= j < i ==> hints@[j] == initial_hint(names, j),
            forall|j: int| i <= j < n ==> hints@[j] is None,
        decreases n - i,
    {
        let found = letters_of(tab_names[i]);
        assert(names[i as int] == tab_names@[i as int]@);
        if found.len() > 0 {
            let c = found[0];
            proof {
                lemma_initial_taken(names, hints@, i as int);
            }
            if !is_taken(&hints, c) {
                hints.set(i, Some(c));
            }
        }
        i += 1;
    }
    assert(hints@ =~= initial_hints(names));
    i = 0;
    while i < n
        invariant
            i <= n,
            n == tab_names@.len(),
            names == name_texts(tab_names@),
            hints@.len() == n,
            hints@ == letter_hints(names, i as int),
        decreases n - i,
    {
        if hints[i].is_none() {
            let found = letters_of(tab_names[i]);
            assert(names[i as int] == tab_names@[i as int]@);
            let hint = find_free(&found, 1, &hints);
            hints.set(i, hint);
        }
        i += 1;
    }
    let fallback = fallback_pool();
    assert(fallback@.skip(0) =~= fallback@);
    i = 0;
    while i < n
        invariant
            i <= n,
            n == names.len(),
            hints@.len() == n,
            fallback@ == pool(),
            fallback@.skip(0) == fallback@,
            hints@ == pool_hints(names, i as int),
        decreases n - i,
    {
        if hints[i].is_none() {
            let hint = find_free(&fallback, 0, &hints);
            hints.set(i, hint);
        }
        i += 1;
    }
    hints
}

/// Whether no two tabs have the same hint.
pub open spec fn hints_differ(hints: Seq<Option<char>>) -> bool {
    forall|i: int, j: int|
        0 <= i < j < hints.len() && #[trigger] hints[i] is Some ==> hints[i] != #[trigger] hints[j]
}

/// Whether every hint is one of the pool.
pub open spec fn hints_from_pool(hints: Seq<Option<char>>) -> bool {
    forall|i: int|
        0 <= i < hints.len() && #[trigger] hints[i] is Some ==> pool().contains(hints[i]->0)
}

proof fn lemma_first_free(candidates: Seq<char>, hints: Seq<Option<char>>)
    ensures
        first_free(candidates, hints) matches Some(c) ==> !taken(hints, c) && candidates.contains(
            c,
        ),
        first_free(candidates, hints) is None ==> forall|i: int|
            0 <= i < candidates.len() ==> taken(hints, #[trigger] candidates[i]),
    decreases candidates.len(),
{
    if candidates.len() > 0 {
        if !taken(hints, candidates[0]) {
            assert(candidates.contains(candidates[0]));
        } else {
            let rest = candidates.skip(1);
            lemma_first_free(rest, hints);
            if let Some(c) = first_free(rest, hints) {
                let i = choose|i: int| 0 <= i < rest.len() && rest[i] == c;
                assert(candidates[i + 1] == c);
            } else {
                assert forall|i: int| 0 <= i < candidates.len() implies taken(
                    hints,
                    #[trigger] candidates[i],
                ) by {
                    if i > 0 {
                        assert(candidates[i] == rest[i - 1]);
                    }
                }
            }
        }
    }
}

proof fn lemma_letters_in_pool(name: Seq<char>)
    ensures
        forall|i: int| 0 <= i < letters(name).len() ==> pool().contains(#[trigger] letters(name)[i]),
    decreases name.len(),
{
    if name.len() > 0 {
        lemma_letters_in_pool(name.drop_last());
        let c = lower(name.last());
        if is_letter(name.last()) {
            assert(pool()[c as int - 'a' as int + 10] == c);
            assert forall|i: int| 0 <= i < letters(name).len() implies pool().contains(
                #[trigger] letters(name)[i],
            ) by {
                if i < letters(name.drop_last()).len() {
                    assert(letters(name)[i] == letters(name.drop_last())[i]);
                }
            }
        }
    }
}

proof fn lemma_fill(hints: Seq<Option<char>>, i: int, candidates: Seq<char>)
    requires
        0 <= i < hints.len(),
        hints_differ(hints),
        hints_from_pool(hints),
        forall|k: int| 0 <= k < candidates.len() ==> pool().contains(#[trigger] candidates[k]),
    ensures
        hints_differ(fill(hints, i, candidates)),
        hints_from_pool(fill(hints, i, candidates)),
        fill(hints, i, candidates).len() == hints.len(),
        forall|j: int|
            0 <= j < hints.len() && hints[j] is Some ==> #[trigger] fill(hints, i, candidates)[j]
                == hints[j],
        forall|j: int|
            0 <= j < hints.len() && j != i ==> #[trigger] fill(hints, i, candidates)[j]
                == hints[j],
        fill(hints, i, candidates)[i] is None ==> forall|k: int|
            0 <= k < candidates.len() ==> taken(hints, #[trigger] candidates[k]),
        forall|c: char| taken(hints, c) ==> #[trigger] taken(fill(hints, i, candidates), c),
{
    lemma_first_free(candidates, hints);
    let after = fill(hints, i, candidates);
    if hints[i] is None {
        assert forall|a: int, b: int|
            0 <= a < b < after.len() && #[trigger] after[a] is Some implies after[a]
            != #[trigger] after[b] by {
            if after[a] == after[b] {
                let c = after[a]->0;
                let other = if a == i {
                    b
                } else {
                    a
                };
                if a == i || b == i {
                    assert(hints[other] == Some(c));
                    assert(taken(hints, c));
                }
            }
        }
        assert forall|c: char| taken(hints, c) implies #[trigger] taken(after, c) by {
            let j = choose|j: int| 0 <= j < hints.len() && #[trigger] hints[j] == Some(c);
            assert(after[j] == Some(c));
        }
        assert forall|j: int| 0 <= j < after.len() && #[trigger] after[j] is Some implies
            pool().contains(after[j]->0) by {
            if j == i {
                let c = after[j]->0;
                let k = choose|k: int| 0 <= k < candidates.len() && candidates[k] == c;
                assert(pool().contains(candidates[k]));
            }
        }
    }
}

proof fn lemma_letter_hints(names: Seq<Seq<char>>, n: int)
    requires
        0 <= n <= names.len(),
    ensures
        letter_hints(names, n).len() == names.len(),
        hints_differ(letter_hints(names, n)),
        hints_from_pool(letter_hints(names, n)),
        forall|i: int|
            0 <= i < names.len() && initial_hint(names, i) is Some ==> #[trigger] letter_hints(
                names,
                n,
            )[i] == initial_hint(names, i),
    decreases n,
{
    if n > 0 {
        let name = names[n - 1];
        lemma_letter_hints(names, n - 1);
        lemma_letters_in_pool(name);
        let candidates = later_letters(name);
        assert forall|k: int| 0 <= k < candidates.len() implies pool().contains(
            #[trigger] candidates[k],
        ) by {
            assert(candidates[k] == letters(name)[k + 1]);
        }
        lemma_fill(letter_hints(names, n - 1), n - 1, candidates);
    } else {
        let hints = initial_hints(names);
        assert forall|i: int| 0 <= i < hints.len() && #[trigger] hints[i] is Some implies
            pool().contains(hints[i]->0) by {
            lemma_letters_in_pool(names[i]);
            assert(letters(names[i])[0] == hints[i]->0);
        }
        assert forall|i: int, j: int|
            0 <= i < j < hints.len() && #[trigger] hints[i] is Some implies hints[i]
            != #[trigger] hints[j] by {
            assert(letters(names[i]).len() > 0);
        }
    }
}

proof fn lemma_pool_hints(names: Seq<Seq<char>>, n: int)
    requires
        0 <= n <= names.len(),
    ensures
        pool_hints(names, n).len() == names.len(),
        hints_differ(pool_hints(names, n)),
        hints_from_pool(pool_hints(names, n)),
        forall|i: int|
            0 <= i < names.len() && initial_hint(names, i) is Some ==> #[trigger] pool_hints(
                names,
                n,
            )[i] == initial_hint(names, i),
        forall|i: int, k: int|
            0 <= i < n && #[trigger] pool_hints(names, n)[i] is None && 0 <= k < 36 ==> taken(
                pool_hints(names, n),
                #[trigger] pool()[k],
            ),
    decreases n,
{
    if n > 0 {
        lemma_pool_hints(names, n - 1);
        let before = pool_hints(names, n - 1);
        assert forall|k: int| 0 <= k < pool().len() implies pool().contains(
            #[trigger] pool()[k],
        ) by {}
        lemma_fill(before, n - 1, pool());
        let after = pool_hints(names, n);
        assert forall|i: int, k: int|
            0 <= i < n && #[trigger] after[i] is None && 0 <= k < 36 implies taken(
            after,
            #[trigger] pool()[k],
        ) by {
            if i < n - 1 {
                assert(before[i] is None);
            }
            assert(taken(before, pool()[k]));
        }
    } else {
        lemma_letter_hints(names, names.len() as int);
    }
}

/// No two tabs get the same hint, and every hint is a digit or a lower-case letter.
pub proof fn no_hint_is_shared(names: Seq<Seq<char>>)
    ensures
        tab_hints(names).len() == names.len(),
        hints_differ(tab_hints(names)),
        hints_from_pool(tab_hints(names)),
{
    lemma_pool_hints(names, names.len() as int);
}

/// The first of the tabs whose names start with the same letter gets that letter.
pub proof fn first_tab_gets_its_letter(names: Seq<Seq<char>>, i: int)
    requires
        0 <= i < names.len(),
        letters(names[i]).len() > 0,
        forall|j: int|
            0 <= j < i && letters(#[trigger] names[j]).len() > 0 ==> letters(names[j])[0]
                != letters(names[i])[0],
    ensures
        tab_hints(names)[i] == Some(letters(names[i])[0]),
{
    lemma_pool_hints(names, names.len() as int);
    assert(initial_hint(names, i) is Some);
}

/// The hints that are given.
pub open spec fn given(hints: Seq<Option<char>>) -> Set<char>
    decreases hints.len(),
{
    if hints.len() == 0 {
        Set::empty()
    } else {
        match hints.last() {
            Some(c) => given(hints.drop_last()).insert(c),
            None => given(hints.drop_last()),
        }
    }
}

proof fn lemma_given(hints: Seq<Option<char>>)
    ensures
        given(hints).finite(),
        given(hints).len() <= hints.len(),
        (exists|i: int| 0 <= i < hints.len() && #[trigger] hints[i] is None) ==> given(hints).len()
            < hints.len(),
        forall|c: char| taken(hints, c) ==> #[trigger] given(hints).contains(c),
    decreases hints.len(),
{
    if hints.len() > 0 {
        let before = hints.drop_last();
        lemma_given(before);
        if exists|i: int| 0 <= i < hints.len() && #[trigger] hints[i] is None {
            let i = choose|i: int| 0 <= i < hints.len() && #[trigger] hints[i] is None;
            if i < before.len() {
                assert(before[i] is None);
            }
        }
        assert forall|c: char| taken(hints, c) implies #[trigger] given(hints).contains(c) by {
            let i = choose|i: int| 0 <= i < hints.len() && #[trigger] hints[i] == Some(c);
            if i < before.len() {
                assert(before[i] == Some(c));
                assert(taken(before, c));
            }
        }
    }
}

/// A tab goes without a hint only when all of the pool is taken, and so only
/// among more tabs than the pool has characters.
pub proof fn hints_run_out_last(names: Seq<Seq<char>>, i: int)
    requires
        0 <= i < names.len(),
        tab_hints(names)[i] is None,
    ensures
        forall|k: int| 0 <= k < pool().len() ==> taken(tab_hints(names), #[trigger] pool()[k]),
        names.len() > pool().len(),
{
    let hints = tab_hints(names);
    lemma_pool_hints(names, names.len() as int);
    assert forall|k: int| 0 <= k < pool().len() implies taken(hints, #[trigger] pool()[k]) by {
        assert(hints[i] is None);
    }
    lemma_given(hints);
    let all = pool().to_set();
    assert(pool().no_duplicates());
    pool().unique_seq_to_set();
    assert(all.subset_of(given(hints))) by {
        assert forall|c: char| all.contains(c) implies given(hints).contains(c) by {
            let k = choose|k: int| 0 <= k < pool().len() && pool()[k] == c;
            assert(taken(hints, pool()[k]));
        }
    }
    vstd::set_lib::lemma_len_subset(all, given(hints));
}

/// Whether `c` is the ASCII letter `l`, in lower or in upper case.
pub open spec fn spells(c: char, l: char) -> bool {
    ||| 'a' <= c <= 'z' && l == c
    ||| 'A' <= c <= 'Z' && l as int == c as int + 32
}

/// Whether a letter occurs in a name, in either case.
pub open spec fn has_letter(name: Seq<char>, l: char) -> bool {
    exists|p: int| 0 <= p < name.len() && spells(#[trigger] name[p], l)
}

/// Whether `l` is the first ASCII letter of a name, in either case.
pub open spec fn first_letter_is(name: Seq<char>, l: char) -> bool {
    exists|p: int|
        0 <= p < name.len() && spells(#[trigger] name[p], l) && forall|q: int|
            0 <= q < p ==> !('a' <= #[trigger] name[q] <= 'z') && !('A' <= name[q] <= 'Z')
}

proof fn lemma_letters_prefix(name: Seq<char>, m: int)
    requires
        0 <= m <= name.len(),
    ensures
        letters(name.take(m)).len() <= letters(name).len(),
        letters(name.take(m)) == letters(name).take(letters(name.take(m)).len() as int),
    decreases name.len() - m,
{
    if m == name.len() {
        assert(name.take(m) =~= name);
        assert(letters(name).take(letters(name).len() as int) =~= letters(name));
    } else {
        lemma_letters_prefix(name, m + 1);
        assert(name.take(m + 1).drop_last() =~= name.take(m));
        let a = letters(name.take(m));
        let b = letters(name.take(m + 1));
        assert(b.take(a.len() as int) =~= a);
        assert(letters(name).take(b.len() as int).take(a.len() as int) =~= letters(name).take(
            a.len() as int,
        ));
    }
}

/// Where each letter of a name stands.
proof fn lemma_letter_position(name: Seq<char>, k: int)
    requires
        0 <= k < letters(name).len(),
    ensures
        exists|p: int|
            0 <= p < name.len() && spells(#[trigger] name[p], letters(name)[k]) && letters(
                name.take(p + 1),
            ).len() == k + 1,
    decreases name.len(),
{
    let before = name.drop_last();
    if k < letters(before).len() {
        lemma_letter_position(before, k);
        let p = choose|p: int|
            0 <= p < before.len() && spells(#[trigger] before[p], letters(before)[k]) && letters(
                before.take(p + 1),
            ).len() == k + 1;
        assert(before.take(p + 1) =~= name.take(p + 1));
        assert(name[p] == before[p]);
        assert(letters(name)[k] == letters(before)[k]);
    } else {
        let p = name.len() - 1;
        assert(name.take(p + 1) =~= name);
        assert(spells(name[p], letters(name)[k]));
    }
}

/// Which letter stands at a place of a name.
proof fn lemma_letter_at(name: Seq<char>, p: int, l: char)
    requires
        0 <= p < name.len(),
        spells(name[p], l),
    ensures
        ({
            let k = letters(name.take(p + 1)).len() - 1;
            0 <= k < letters(name).len() && letters(name)[k] == l && k == letters(
                name.take(p),
            ).len()
        }),
{
    let upto = name.take(p + 1);
    assert(upto.drop_last() =~= name.take(p));
    assert(upto.last() == name[p]);
    lemma_letters_prefix(name, p + 1);
    let k = letters(upto).len() - 1;
    assert(letters(upto).last() == l);
    assert(letters(name).take(k + 1)[k] == letters(name)[k]);
}

proof fn lemma_no_letters(name: Seq<char>)
    requires
        forall|q: int|
            0 <= q < name.len() ==> !('a' <= #[trigger] name[q] <= 'z') && !('A' <= name[q] <= 'Z'),
    ensures
        letters(name).len() == 0,
    decreases name.len(),
{
    if name.len() > 0 {
        let before = name.drop_last();
        assert forall|q: int| 0 <= q < before.len() implies !('a' <= #[trigger] before[q] <= 'z')
            && !('A' <= before[q] <= 'Z') by {
            assert(before[q] == name[q]);
        }
        lemma_no_letters(before);
        assert(!is_letter(name[name.len() - 1]));
    }
}

proof fn lemma_first_letter(name: Seq<char>, l: char)
    ensures
        first_letter_is(name, l) <==> letters(name).len() > 0 && letters(name)[0] == l,
{
    if first_letter_is(name, l) {
        let p = choose|p: int|
            0 <= p < name.len() && spells(#[trigger] name[p], l) && forall|q: int|
                0 <= q < p ==> !('a' <= #[trigger] name[q] <= 'z') && !('A' <= name[q] <= 'Z');
        let before = name.take(p);
        assert forall|q: int| 0 <= q < before.len() implies !('a' <= #[trigger] before[q] <= 'z')
            && !('A' <= before[q] <= 'Z') by {
            assert(before[q] == name[q]);
        }
        lemma_no_letters(before);
        lemma_letter_at(name, p, l);
    }
    if letters(name).len() > 0 && letters(name)[0] == l {
        lemma_letter_position(name, 0);
        let p = choose|p: int|
            0 <= p < name.len() && spells(#[trigger] name[p], letters(name)[0]) && letters(
                name.take(p + 1),
            ).len() == 1;
        assert forall|q: int| 0 <= q < p implies !('a' <= #[trigger] name[q] <= 'z') && !('A'
            <= name[q] <= 'Z') by {
            if is_letter(name[q]) {
                let before = name.take(p + 1);
                lemma_letter_at(before, q, lower(name[q]));
                lemma_letter_at(before, p, l);
                assert(before.take(q + 1) =~= name.take(q + 1));
                assert(before.take(p + 1) =~= before);
                lemma_letters_prefix(before.take(p), q + 1);
                assert(before.take(p).take(q + 1) =~= before.take(q + 1));
            }
        }
        assert(spells(name[p], l));
    }
}

/// A tab gets the first letter of its name, in lower case, unless a tab before
/// it has a name with the same first letter. Case makes no difference.
pub proof fn tab_gets_its_first_letter(names: Seq<Seq<char>>, i: int, l: char)
    requires
        0 <= i < names.len(),
        first_letter_is(names[i], l),
        forall|j: int| 0 <= j < i ==> !first_letter_is(#[trigger] names[j], l),
    ensures
        tab_hints(names)[i] == Some(l),
{
    lemma_first_letter(names[i], l);
    assert forall|j: int| 0 <= j < i && letters(#[trigger] names[j]).len() > 0 implies letters(
        names[j],
    )[0] != letters(names[i])[0] by {
        lemma_first_letter(names[j], l);
    }
    first_tab_gets_its_letter(names, i);
}

proof fn lemma_first_free_skips(candidates: Seq<char>, hints: Seq<Option<char>>, m: int)
    requires
        0 <= m < candidates.len(),
        first_free(candidates, hints) matches Some(c) ==> forall|k: int|
            0 <= k <= m ==> #[trigger] candidates[k] != c,
    ensures
        taken(hints, candidates[m]),
    decreases m,
{
    assert(first_free(candidates, hints) != Some(candidates[0]));
    if m > 0 {
        let rest = candidates.skip(1);
        if let Some(c) = first_free(candidates, hints) {
            assert forall|k: int| 0 <= k <= m - 1 implies #[trigger] rest[k] != c by {
                assert(rest[k] == candidates[k + 1]);
            }
        }
        lemma_first_free_skips(rest, hints, m - 1);
        assert(rest[m - 1] == candidates[m]);
    }
}

proof fn lemma_letter_pass(names: Seq<Seq<char>>, n: int, k: int)
    requires
        0 <= n <= names.len(),
        0 <= k < names.len(),
    ensures
        letter_hints(names, n).len() == names.len(),
        letter_hints(names, n)[k] == (if initial_hint(names, k) is Some {
            initial_hint(names, k)
        } else if k >= n {
            None
        } else {
            first_free(later_letters(names[k]), letter_hints(names, k))
        }),
    decreases n,
{
    if n > 0 {
        lemma_letter_pass(names, n - 1, k);
    }
}

proof fn lemma_pool_pass(names: Seq<Seq<char>>, n: int, k: int)
    requires
        0 <= n <= names.len(),
        0 <= k < names.len(),
    ensures
        pool_hints(names, n).len() == names.len(),
        pool_hints(names, n)[k] == (if letter_hints(names, names.len() as int)[k] is Some {
            letter_hints(names, names.len() as int)[k]
        } else if k >= n {
            None
        } else {
            first_free(pool(), pool_hints(names, k))
        }),
    decreases n,
{
    if n > 0 {
        lemma_pool_pass(names, n - 1, k);
    } else {
        lemma_letter_pass(names, names.len() as int, k);
    }
}

/// A hint of the first two passes is a letter of the tab's own name.
proof fn lemma_letter_hint_is_own(names: Seq<Seq<char>>, k: int)
    requires
        0 <= k < names.len(),
        letter_hints(names, names.len() as int)[k] is Some,
    ensures
        has_letter(names[k], letter_hints(names, names.len() as int)[k]->0),
{
    let name = names[k];
    let c = letter_hints(names, names.len() as int)[k]->0;
    lemma_letter_pass(names, names.len() as int, k);
    if initial_hint(names, k) is Some {
        lemma_letter_position(name, 0);
    } else {
        lemma_first_free(later_letters(name), letter_hints(names, k));
        let m = choose|m: int| 0 <= m < later_letters(name).len() && later_letters(name)[m] == c;
        assert(letters(name)[m + 1] == c);
        lemma_letter_position(name, m + 1);
    }
}

/// Whether some other tab has the hint `l` for a reason that comes before tab
/// `i`: the letter starts its name, or its turn came earlier.
pub open spec fn went_before(names: Seq<Seq<char>>, i: int, l: char) -> bool {
    exists|j: int|
        0 <= j < names.len() && j != i && #[trigger] tab_hints(names)[j] == Some(l) && (j < i
            || first_letter_is(names[j], l))
}

/// A tab passes over a letter of its own name only for one that stands before it
/// in the name, or where another tab has that letter with better right: all
/// letters that stand before its hint, and all letters if its hint is none of
/// them or it has none, went to such tabs.
pub proof fn earlier_letters_are_taken(names: Seq<Seq<char>>, i: int, q: int, l: char)
    requires
        0 <= i < names.len(),
        0 <= q < names[i].len(),
        spells(names[i][q], l),
        tab_hints(names)[i] matches Some(c) ==> forall|r: int|
            0 <= r <= q ==> !spells(#[trigger] names[i][r], c),
    ensures
        went_before(names, i, l),
{
    let n = names.len() as int;
    let name = names[i];
    let hints = tab_hints(names);
    lemma_letter_at(name, q, l);
    let k = letters(name.take(q + 1)).len() - 1;
    lemma_pool_pass(names, n, i);
    lemma_letter_pass(names, n, i);
    assert forall|m: int| 0 <= m <= k && hints[i] == Some(#[trigger] letters(name)[m]) implies false by {
        let upto = name.take(q + 1);
        lemma_letters_prefix(name, q + 1);
        assert(letters(name).take(k + 1)[m] == letters(name)[m]);
        lemma_letter_position(upto, m);
        let p = choose|p: int|
            0 <= p < upto.len() && spells(#[trigger] upto[p], letters(upto)[m]) && letters(
                upto.take(p + 1),
            ).len() == m + 1;
        assert(name[p] == upto[p]);
    }
    if initial_hint(names, i) is Some {
        assert(hints[i] == Some(letters(name)[0]));
        assert(false);
    }
    if k == 0 {
        let j = choose|j: int|
            0 <= j < i && letters(#[trigger] names[j]).len() > 0 && letters(names[j])[0]
                == letters(name)[0];
        lemma_first_owner(names, j, l);
        let o = choose|o: int| 0 <= o <= j && #[trigger] initial_hint(names, o) == Some(l);
        lemma_pool_pass(names, n, o);
        lemma_letter_pass(names, n, o);
        assert(hints[o] == Some(l));
    } else {
        let later = later_letters(name);
        let then_hints = letter_hints(names, i);
        assert(later[k - 1] == l);
        if let Some(c) = first_free(later, then_hints) {
            assert(hints[i] == Some(c));
            assert forall|m: int| 0 <= m <= k - 1 implies #[trigger] later[m] != c by {
                assert(later[m] == letters(name)[m + 1]);
            }
        }
        lemma_first_free_skips(later, then_hints, k - 1);
        let j = choose|j: int| 0 <= j < then_hints.len() && #[trigger] then_hints[j] == Some(l);
        lemma_letter_pass(names, i, i);
        lemma_letter_pass(names, i, j);
        lemma_letter_pass(names, n, j);
        lemma_pool_pass(names, n, j);
        assert(hints[j] == Some(l));
        if j >= i {
            assert(initial_hint(names, j) == Some(l));
            lemma_first_letter(names[j], l);
        }
    }
}

/// The place of a character among those to fall back on: the digits from 1 to 9,
/// then 0, then the letters from a to z.
pub open spec fn fallback_place(c: char) -> int {
    if '1' <= c <= '9' {
        c as int - '1' as int
    } else if c == '0' {
        9
    } else {
        c as int - 'a' as int + 10
    }
}

/// A tab whose hint is no letter of its name passes over a digit or letter only
/// where a tab whose turn came earlier has it, or one in whose name it stands.
/// Where such a tab gets no hint, that holds of all digits and letters.
pub proof fn fallbacks_are_taken_in_order(names: Seq<Seq<char>>, i: int, d: char)
    requires
        0 <= i < names.len(),
        '0' <= d <= '9' || 'a' <= d <= 'z',
        tab_hints(names)[i] matches Some(c) ==> !has_letter(names[i], c) && fallback_place(d)
            < fallback_place(c),
    ensures
        exists|j: int|
            0 <= j < names.len() && j != i && #[trigger] tab_hints(names)[j] == Some(d) && (j < i
                || has_letter(names[j], d)),
{
    let n = names.len() as int;
    let hints = tab_hints(names);
    lemma_pool_pass(names, n, i);
    if letter_hints(names, n)[i] is Some {
        lemma_letter_hint_is_own(names, i);
        assert(false);
    }
    let then_hints = pool_hints(names, i);
    let m = fallback_place(d);
    assert(pool()[m] == d);
    if let Some(c) = first_free(pool(), then_hints) {
        lemma_first_free(pool(), then_hints);
        let w = choose|w: int| 0 <= w < pool().len() && pool()[w] == c;
        assert(fallback_place(c) == w);
        assert forall|k: int| 0 <= k <= m implies #[trigger] pool()[k] != c by {
            assert(fallback_place(pool()[k]) == k);
        }
    }
    lemma_first_free_skips(pool(), then_hints, m);
    let j = choose|j: int| 0 <= j < then_hints.len() && #[trigger] then_hints[j] == Some(d);
    lemma_pool_pass(names, i, i);
    lemma_pool_pass(names, i, j);
    lemma_pool_pass(names, n, j);
    assert(hints[j] == Some(d));
    if letter_hints(names, n)[j] is Some {
        lemma_letter_hint_is_own(names, j);
    }
}

/// Every hint is a digit or a lower-case letter of ASCII, and leads to one tab
/// only.
pub proof fn hints_can_be_typed(names: Seq<Seq<char>>, i: int, j: int)
    requires
        0 <= i < names.len(),
        0 <= j < names.len(),
        i != j,
    ensures
        tab_hints(names).len() == names.len(),
        tab_hints(names)[i] matches Some(c) ==> '0' <= c <= '9' || 'a' <= c <= 'z',
        tab_hints(names)[i] is Some ==> tab_hints(names)[i] != tab_hints(names)[j],
{
    no_hint_is_shared(names);
    if let Some(c) = tab_hints(names)[i] {
        let w = choose|w: int| 0 <= w < pool().len() && pool()[w] == c;
        assert(pool()[w] == c);
    }
}

} // verus!
