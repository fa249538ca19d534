//! What holds of the grammar on every text.

use crate::grammar::{
    array_at, char_at, element_at, elements_at, key_at, lemma_run_len_bound, map_at, message_at,
    more_elements_at, more_pairs_at, pair_at, pairs_at, run1_at, run_len, string_at, value_at,
    CharClass, Parsed,
};
use crate::value::{
    fold_pairs, has_key, is_last_of_key, lemma_fold_pairs_keys, lemma_fold_pairs_last, Node, Pair,
};
use vstd::prelude::*;

verus! {

/// `rest` is what is left of `s` once some of its characters, possibly
/// none, have been read from its start.
pub open spec fn is_rest_of(rest: Seq<char>, s: Seq<char>) -> bool {
    rest.len() <= s.len() && rest == s.skip(s.len() - rest.len())
}

/// A production reads a prefix: on a match the text left over is a rest
/// of the text given, and so is the place of a failure.
pub open spec fn reads_prefix<T>(found: Parsed<T>, s: Seq<char>) -> bool {
    match found {
        Ok((rest, _)) => is_rest_of(rest, s),
        Err(at) => is_rest_of(at, s),
    }
}

/// A production that reads a prefix and, where it matches, reads at
/// least one character.
pub open spec fn reads_some<T>(found: Parsed<T>, s: Seq<char>) -> bool {
    match found {
        Ok((rest, _)) => is_rest_of(rest, s) && rest.len() < s.len(),
        Err(at) => is_rest_of(at, s),
    }
}

/// A rest of a rest is a rest.
pub proof fn lemma_rest_of_rest(a: Seq<char>, b: Seq<char>, c: Seq<char>)
    requires
        is_rest_of(a, b),
        is_rest_of(b, c),
    ensures
        is_rest_of(a, c),
{
    assert(a =~= c.skip(c.len() - a.len()));
}

/// What follows the first `n` characters of a text is a rest of it.
pub proof fn lemma_skip_is_rest(s: Seq<char>, n: int)
    requires
        0 <= n <= s.len(),
    ensures
        is_rest_of(s.skip(n), s),
{
}

/// The single-character matcher reads one character or fails in place.
pub proof fn lemma_char_reads(s: Seq<char>, c: char)
    ensures
        reads_some(char_at(s, c), s),
{
    if s.len() > 0 {
        lemma_skip_is_rest(s, 1);
    }
    lemma_skip_is_rest(s, 0);
    assert(s.skip(0) =~= s);
}

/// A string reads at least its two quotes, and fails within the text.
pub proof fn lemma_string_reads(s: Seq<char>)
    ensures
        reads_some(string_at(s), s),
{
    lemma_char_reads(s, '"');
    if let Ok((inner, _)) = char_at(s, '"') {
        let class = CharClass::Except('"');
        lemma_run_len_bound(inner, class);
        let n = run_len(inner, class) as int;
        lemma_skip_is_rest(inner, 0);
        assert(inner.skip(0) =~= inner);
        lemma_skip_is_rest(inner, n);
        lemma_rest_of_rest(inner.skip(n), inner, s);
        if let Ok((tail, _)) = run1_at(inner, class) {
            lemma_char_reads(tail, '"');
            if let Ok((rest, _)) = char_at(tail, '"') {
                lemma_rest_of_rest(rest, tail, s);
            }
        }
    }
}

/// An array reads at least its two brackets, and fails within the text.
pub proof fn lemma_array_reads(s: Seq<char>)
    ensures
        reads_some(array_at(s), s),
    decreases s.len(), 0nat,
{
    lemma_char_reads(s, '[');
    if let Ok((inner, _)) = char_at(s, '[') {
        lemma_elements_read(inner);
        let (tail, _) = elements_at(inner);
        lemma_rest_of_rest(tail, inner, s);
        lemma_char_reads(tail, ']');
        match char_at(tail, ']') {
            Ok((rest, _)) => lemma_rest_of_rest(rest, tail, s),
            Err(at) => {},
        }
    }
}

/// An element of an array reads at least one character, and fails within
/// the text.
pub proof fn lemma_element_reads(s: Seq<char>)
    ensures
        reads_some(element_at(s), s),
    decreases s.len(), 1nat,
{
    lemma_string_reads(s);
    if string_at(s) is Err {
        lemma_array_reads(s);
    }
}

/// The elements after the first end within the text.
pub proof fn lemma_more_elements_read(s: Seq<char>)
    ensures
        is_rest_of(more_elements_at(s).0, s),
    decreases s.len(), 2nat,
{
    lemma_skip_is_rest(s, 0);
    assert(s.skip(0) =~= s);
    lemma_char_reads(s, ' ');
    if let Ok((next, _)) = char_at(s, ' ') {
        lemma_element_reads(next);
        if let Ok((rest, _)) = element_at(next) {
            lemma_rest_of_rest(rest, next, s);
            lemma_more_elements_read(rest);
            lemma_rest_of_rest(more_elements_at(rest).0, rest, s);
        }
    }
}

/// The elements of an array end within the text.
pub proof fn lemma_elements_read(s: Seq<char>)
    ensures
        is_rest_of(elements_at(s).0, s),
    decreases s.len(), 3nat,
{
    lemma_skip_is_rest(s, 0);
    assert(s.skip(0) =~= s);
    lemma_element_reads(s);
    if let Ok((rest, _)) = element_at(s) {
        lemma_more_elements_read(rest);
        lemma_rest_of_rest(more_elements_at(rest).0, rest, s);
    }
}

/// What is left after a run is a rest of the text.
pub proof fn lemma_run_reads(s: Seq<char>, class: CharClass)
    ensures
        is_rest_of(s.skip(run_len(s, class) as int), s),
        is_rest_of(s, s),
{
    lemma_run_len_bound(s, class);
    lemma_skip_is_rest(s, run_len(s, class) as int);
    lemma_skip_is_rest(s, 0);
    assert(s.skip(0) =~= s);
}

/// A key leaves a text that starts with `=`, and fails in place.
pub proof fn lemma_key_reads(s: Seq<char>)
    ensures
        reads_prefix(key_at(s), s),
        match key_at(s) {
            Ok((rest, key)) => char_at(rest, '=') is Ok && !key.contains('='),
            Err(at) => at == s && !s.contains('='),
        },
{
    lemma_run_reads(s, CharClass::Except('='));
    lemma_run_stops(s, CharClass::Except('='));
}

/// Every character of a run is in its class, and the character behind
/// the run, if there is one, is not.
pub proof fn lemma_run_stops(s: Seq<char>, class: CharClass)
    ensures
        run_len(s, class) <= s.len(),
        forall|i: int| 0 <= i < run_len(s, class) ==> class.holds(#[trigger] s[i]),
        run_len(s, class) < s.len() ==> !class.holds(s[run_len(s, class) as int]),
    decreases s.len(),
{
    if s.len() > 0 && class.holds(s[0]) {
        let tail = s.skip(1);
        lemma_run_stops(tail, class);
        assert forall|i: int| 0 <= i < run_len(s, class) implies class.holds(#[trigger] s[i]) by {
            if i > 0 {
                assert(s[i] == tail[i - 1]);
            }
        }
        if run_len(s, class) < s.len() {
            assert(s[run_len(s, class) as int] == tail[run_len(tail, class) as int]);
        }
    }
}

/// A value reads at least one character, and fails within the text.
pub proof fn lemma_value_reads(s: Seq<char>)
    ensures
        reads_some(value_at(s), s),
    decreases s.len(), 1nat,
{
    lemma_string_reads(s);
    lemma_array_reads(s);
    if string_at(s) is Err && array_at(s) is Err {
        lemma_map_reads(s);
    }
}

/// A map reads at least its two braces, and fails within the text.
pub proof fn lemma_map_reads(s: Seq<char>)
    ensures
        reads_some(map_at(s), s),
    decreases s.len(), 0nat,
{
    lemma_char_reads(s, '{');
    if let Ok((inner, _)) = char_at(s, '{') {
        lemma_pairs_read(inner);
        let (tail, _) = pairs_at(inner);
        lemma_rest_of_rest(tail, inner, s);
        lemma_char_reads(tail, '}');
        match char_at(tail, '}') {
            Ok((rest, _)) => lemma_rest_of_rest(rest, tail, s),
            Err(at) => {},
        }
    }
}

/// A pair reads at least its `=` and one character of its value, and
/// fails within the text.
pub proof fn lemma_pair_reads(s: Seq<char>)
    ensures
        reads_some(pair_at(s), s),
    decreases s.len(), 2nat,
{
    lemma_key_reads(s);
    if let Ok((tail, _)) = key_at(s) {
        lemma_char_reads(tail, '=');
        if let Ok((next, _)) = char_at(tail, '=') {
            lemma_rest_of_rest(next, tail, s);
            lemma_value_reads(next);
            match value_at(next) {
                Ok((rest, _)) => lemma_rest_of_rest(rest, next, s),
                Err(at) => lemma_rest_of_rest(at, next, s),
            }
        }
    }
}

/// The pairs after the first end within the text.
pub proof fn lemma_more_pairs_read(s: Seq<char>)
    ensures
        is_rest_of(more_pairs_at(s).0, s),
    decreases s.len(), 3nat,
{
    lemma_run_reads(s, CharClass::Space);
    let next = s.skip(run_len(s, CharClass::Space) as int);
    lemma_pair_reads(next);
    if let Ok((rest, _)) = pair_at(next) {
        lemma_rest_of_rest(rest, next, s);
        lemma_more_pairs_read(rest);
        lemma_rest_of_rest(more_pairs_at(rest).0, rest, s);
    }
}

/// The pairs of a map end within the text.
pub proof fn lemma_pairs_read(s: Seq<char>)
    ensures
        is_rest_of(pairs_at(s).0, s),
    decreases s.len(), 4nat,
{
    lemma_run_reads(s, CharClass::Space);
    lemma_pair_reads(s);
    if let Ok((rest, _)) = pair_at(s) {
        lemma_more_pairs_read(rest);
        lemma_rest_of_rest(more_pairs_at(rest).0, rest, s);
    }
}

/// A message that matches gives a map. Its keys are the keys of the
/// pairs that stand between the braces, and each key has the value of
/// the last pair that holds it.
pub proof fn lemma_message_last_wins(s: Seq<char>)
    requires
        message_at(s) is Ok,
    ensures
        char_at(s, '{') is Ok,
        char_at(pairs_at(s.skip(1)).0, '}') is Ok,
        message_at(s) matches Ok((rest, Node::Dict(m))) && {
            let (tail, pairs) = pairs_at(s.skip(1));
            &&& rest == tail.skip(1)
            &&& m == fold_pairs(pairs)
            &&& forall|key: Seq<char>| #[trigger] m.contains_key(key) <==> has_key(pairs, key)
            &&& forall|i: int| #[trigger]
                is_last_of_key(pairs, i) ==> m.contains_key(pairs[i].0) && m[pairs[i].0]
                    == pairs[i].1
        },
{
    let (tail, pairs) = pairs_at(s.skip(1));
    lemma_fold_pairs_keys(pairs);
    assert forall|i: int| #[trigger] is_last_of_key(pairs, i) implies fold_pairs(
        pairs,
    ).contains_key(pairs[i].0) && fold_pairs(pairs)[pairs[i].0] == pairs[i].1 by {
        lemma_fold_pairs_last(pairs, i);
    }
}

/// At most one of the three kinds of value matches a text, so the order
/// in which a value tries them decides nothing where one matches: a
/// value matches exactly where one of them does, and gives what it
/// gives.
pub proof fn lemma_value_kinds_disjoint(s: Seq<char>)
    ensures
        !(string_at(s) is Ok && array_at(s) is Ok),
        !(string_at(s) is Ok && map_at(s) is Ok),
        !(array_at(s) is Ok && map_at(s) is Ok),
        string_at(s) is Ok ==> value_at(s) == string_at(s),
        array_at(s) is Ok ==> value_at(s) == array_at(s),
        map_at(s) is Ok ==> value_at(s) == map_at(s),
        value_at(s) is Ok ==> string_at(s) is Ok || array_at(s) is Ok || map_at(s) is Ok,
{
}

/// The elements of an array, as the grammar reads: none where no element
/// stands, else one element and those that follow it. The test on the
/// lengths in the definition never fails.
pub proof fn lemma_elements_unfold(s: Seq<char>)
    ensures
        elements_at(s) == match element_at(s) {
            Err(_) => (s, Seq::<Node>::empty()),
            Ok((rest, item)) => (more_elements_at(rest).0, seq![item] + more_elements_at(rest).1),
        },
        more_elements_at(s) == match char_at(s, ' ') {
            Err(_) => (s, Seq::<Node>::empty()),
            Ok((next, _)) => match element_at(next) {
                Err(_) => (s, Seq::<Node>::empty()),
                Ok((rest, item)) => (
                    more_elements_at(rest).0,
                    seq![item] + more_elements_at(rest).1,
                ),
            },
        },
{
    lemma_element_reads(s);
    lemma_char_reads(s, ' ');
    if let Ok((next, _)) = char_at(s, ' ') {
        lemma_element_reads(next);
    }
}

/// The pairs of a map, as the grammar reads: none where no pair stands,
/// else one pair and those that follow it. The test on the lengths in
/// the definition never fails.
pub proof fn lemma_pairs_unfold(s: Seq<char>)
    ensures
        pairs_at(s) == match pair_at(s) {
            Err(_) => (s, Seq::<Pair>::empty()),
            Ok((rest, pair)) => (more_pairs_at(rest).0, seq![pair] + more_pairs_at(rest).1),
        },
        more_pairs_at(s) == match pair_at(s.skip(run_len(s, CharClass::Space) as int)) {
            Err(_) => (s, Seq::<Pair>::empty()),
            Ok((rest, pair)) => (more_pairs_at(rest).0, seq![pair] + more_pairs_at(rest).1),
        },
{
    lemma_pair_reads(s);
    lemma_run_reads(s, CharClass::Space);
    lemma_pair_reads(s.skip(run_len(s, CharClass::Space) as int));
}

/// A run of characters of a class that is followed by the end of the
/// text, or by a character outside the class, is the longest one.
pub proof fn lemma_run_of(run: Seq<char>, rest: Seq<char>, class: CharClass)
    requires
        forall|i: int| 0 <= i < run.len() ==> class.holds(#[trigger] run[i]),
        rest.len() > 0 ==> !class.holds(rest[0]),
    ensures
        run_len(run + rest, class) == run.len(),
        (run + rest).take(run.len() as int) == run,
        (run + rest).skip(run.len() as int) == rest,
    decreases run.len(),
{
    let s = run + rest;
    assert(s.take(run.len() as int) =~= run);
    assert(s.skip(run.len() as int) =~= rest);
    if run.len() == 0 {
        assert(s =~= rest);
    } else {
        assert(s[0] == run[0]);
        assert(s.skip(1) =~= run.skip(1) + rest);
        assert forall|i: int| 0 <= i < run.skip(1).len() implies class.holds(
            #[trigger] run.skip(1)[i],
        ) by {
            assert(run.skip(1)[i] == run[i + 1]);
        }
        lemma_run_of(run.skip(1), rest, class);
    }
}

/// Two brackets with nothing between them are the empty array, whatever
/// follows.
pub proof fn lemma_empty_array(rest: Seq<char>)
    ensures
        array_at(seq!['[', ']'] + rest) == Ok::<(Seq<char>, Node), Seq<char>>(
            (rest, Node::Array(Seq::empty())),
        ),
{
    let s = seq!['[', ']'] + rest;
    let inner = seq![']'] + rest;
    assert(s.skip(1) =~= inner);
    assert(inner.skip(1) =~= rest);
    assert(inner[0] == ']');
    assert(array_at(inner) is Err);
    assert(string_at(inner) is Err);
    assert(element_at(inner) is Err);
}

/// Every text of one or more characters that are no quote, written
/// between two quotes, is a string, whatever follows it.
pub proof fn lemma_string_matches(content: Seq<char>, rest: Seq<char>)
    requires
        content.len() > 0,
        !content.contains('"'),
    ensures
        string_at(seq!['"'] + content + seq!['"'] + rest) == Ok::<(Seq<char>, Node), Seq<char>>(
            (rest, Node::Str(content)),
        ),
{
    let s = seq!['"'] + content + seq!['"'] + rest;
    let inner = content + (seq!['"'] + rest);
    assert(s.skip(1) =~= inner);
    assert forall|i: int| 0 <= i < content.len() implies CharClass::Except('"').holds(
        #[trigger] content[i],
    ) by {
        assert(content.contains(content[i]));
    }
    lemma_run_of(content, seq!['"'] + rest, CharClass::Except('"'));
    assert((seq!['"'] + rest).skip(1) =~= rest);
}

/// A string is a quote, one or more characters that are no quote, and a
/// quote: nothing else matches, the empty string `""` and a text without
/// the closing quote included.
pub proof fn lemma_string_shape(s: Seq<char>)
    requires
        string_at(s) is Ok,
    ensures
        string_at(s) matches Ok((rest, Node::Str(content))) && {
            &&& content.len() > 0
            &&& !content.contains('"')
            &&& s == seq!['"'] + content + seq!['"'] + rest
        },
{
    let inner = s.skip(1);
    let class = CharClass::Except('"');
    lemma_run_stops(inner, class);
    let n = run_len(inner, class) as int;
    let content = inner.take(n);
    let rest = inner.skip(n).skip(1);
    if content.contains('"') {
        let i = choose|i: int| 0 <= i < content.len() && content[i] == '"';
        assert(inner[i] == '"');
    }
    assert(s =~= seq!['"'] + content + seq!['"'] + rest);
}

/// Every text without `=`, written before an `=`, is a key, whatever
/// follows; and a text without `=` holds no key.
pub proof fn lemma_key_matches(key: Seq<char>, rest: Seq<char>)
    requires
        !key.contains('='),
    ensures
        key_at(key + seq!['='] + rest) == Ok::<(Seq<char>, Seq<char>), Seq<char>>(
            (seq!['='] + rest, key),
        ),
        key_at(key) == Err::<(Seq<char>, Seq<char>), Seq<char>>(key),
{
    assert forall|i: int| 0 <= i < key.len() implies CharClass::Except('=').holds(
        #[trigger] key[i],
    ) by {
        assert(key.contains(key[i]));
    }
    lemma_run_of(key, seq!['='] + rest, CharClass::Except('='));
    assert(key + seq!['='] + rest =~= key + (seq!['='] + rest));
    lemma_run_of(key, Seq::empty(), CharClass::Except('='));
    assert(key + Seq::<char>::empty() =~= key);
}

} // verus!
