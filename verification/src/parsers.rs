//! The parsers of the grammar's productions. Each is proved to give what
//! the grammar gives on the text of its input.

use crate::grammar::{
    array_at, char_at, element_at, elements_at, map_at, message_at, more_elements_at,
    more_pairs_at, pair_at, pairs_at, string_at, value_at, CharClass, Parsed,
};
use crate::laws::{
    lemma_element_reads, lemma_key_reads, lemma_message_last_wins, lemma_pair_reads,
    lemma_run_reads,
};
use crate::matchers::{literal, one_char, parse_key, unquoted_run, whitespace, NoMatch};
use crate::value::{
    all_wf, entries_wf, fold_pairs, has_key, is_last_of_key, lemma_fold_pairs_push, nodes_of,
    pairs_of, put_entry, Node, Pair, Value,
};
use vstd::prelude::*;

verus! {

/// The result of a parser that gives a value.
pub type ValueResult<'a> = Result<(&'a str, Value<'a>), NoMatch<'a>>;

/// What a result of a value parser says, in the terms of the grammar.
pub open spec fn outcome(r: ValueResult) -> Parsed<Node> {
    match r {
        Ok((rest, value)) => Ok((rest@, value@)),
        Err(e) => Err(e@),
    }
}

/// A value that a parser gave is well formed.
pub open spec fn sound(r: ValueResult) -> bool {
    match r {
        Ok((_, value)) => value.wf(),
        Err(_) => true,
    }
}

/// Matches a text of one character, `c`, and gives the text behind it.
fn symbol<'a>(input: &'a str, tag: &str, Ghost(c): Ghost<char>) -> (r: Option<&'a str>)
    requires
        tag@.len() == 1,
        tag@[0] == c,
    ensures
        match r {
            Some(rest) => char_at(input@, c) == Ok::<(Seq<char>, char), Seq<char>>((rest@, c)),
            None => char_at(input@, c) is Err,
        },
{
    proof {
        if tag@.is_prefix_of(input@) {
            assert(input@[0] == tag@[0]);
        } else if input@.len() > 0 && input@[0] == c {
            assert(tag@ =~= input@.subrange(0, 1));
        }
    }
    match literal(input, tag) {
        Ok((rest, _)) => Some(rest),
        Err(_) => None,
    }
}

/// Parses a string: a quote, one or more characters that are no quote,
/// and a quote. The value borrows the characters between the quotes.
pub fn parse_string<'a>(input: &'a str) -> (r: ValueResult<'a>)
    ensures
        outcome(r) == string_at(input@),
        sound(r),
{
    match one_char(input, '"') {
        Err(_) => Err(NoMatch { rest: input }),
        Ok((inner, _)) => match unquoted_run(inner) {
            Err(_) => Err(NoMatch { rest: inner }),
            Ok((tail, content)) => match one_char(tail, '"') {
                Err(_) => Err(NoMatch { rest: tail }),
                Ok((rest, _)) => Ok((rest, Value::Str(content))),
            },
        },
    }
}

/// Parses an element of an array: a string or, failing that, an array.
fn parse_element<'a>(input: &'a str) -> (r: ValueResult<'a>)
    ensures
        outcome(r) == element_at(input@),
        sound(r),
    decreases input@.len(), 1nat,
{
    match parse_string(input) {
        Ok(found) => Ok(found),
        Err(_) => parse_array(input),
    }
}

/// Parses the elements of an array, with one space between each two, up
/// to the place where no further element follows.
fn parse_elements<'a>(input: &'a str) -> (r: (&'a str, Vec<Value<'a>>))
    ensures
        (r.0@, nodes_of(r.1@)) == elements_at(input@),
        all_wf(r.1@),
    decreases input@.len(), 3nat,
{
    let mut items: Vec<Value<'a>> = Vec::new();
    let mut cur = input;
    let mut open = true;
    match parse_element(input) {
        Err(_) => {
            open = false;
            assert(nodes_of(items@) =~= Seq::empty());
        },
        Ok((rest, item)) => {
            proof {
                lemma_element_reads(input@);
                assert(nodes_of(items@.push(item)) =~= seq![item@]);
            }
            items.push(item);
            cur = rest;
        },
    }
    while open
        invariant
            cur@.len() <= input@.len(),
            all_wf(items@),
            open ==> elements_at(input@) == (
                more_elements_at(cur@).0,
                nodes_of(items@) + more_elements_at(cur@).1,
            ),
            !open ==> elements_at(input@) == (cur@, nodes_of(items@)),
        decreases cur@.len() + if open { 1nat } else { 0nat },
    {
        let ghost before = nodes_of(items@);
        proof {
            reveal_strlit(" ");
        }
        match symbol(cur, " ", Ghost(' ')) {
            None => {
                open = false;
                assert(before + Seq::<Node>::empty() =~= before);
            },
            Some(next) => match parse_element(next) {
                Err(_) => {
                    open = false;
                    assert(before + Seq::<Node>::empty() =~= before);
                },
                Ok((rest, item)) => {
                    proof {
                        lemma_element_reads(next@);
                        assert(nodes_of(items@.push(item)) =~= before + seq![item@]);
                        assert(before + (seq![item@] + more_elements_at(rest@).1) =~= (before
                            + seq![item@]) + more_elements_at(rest@).1);
                    }
                    items.push(item);
                    cur = rest;
                },
            },
        }
    }
    (cur, items)
}

/// Parses an array: `[`, elements with one space between each two, `]`.
/// An array may be empty. An element is a string or an array.
pub fn parse_array<'a>(input: &'a str) -> (r: ValueResult<'a>)
    ensures
        outcome(r) == array_at(input@),
        sound(r),
    decreases input@.len(), 0nat,
{
    proof {
        reveal_strlit("[");
        reveal_strlit("]");
    }
    match symbol(input, "[", Ghost('[')) {
        None => Err(NoMatch { rest: input }),
        Some(inner) => {
            let (tail, items) = parse_elements(inner);
            match symbol(tail, "]", Ghost(']')) {
                None => Err(NoMatch { rest: tail }),
                Some(rest) => Ok((rest, Value::Array(items))),
            }
        },
    }
}

/// The result of the parser of one pair.
pub type PairResult<'a> = Result<(&'a str, (&'a str, Value<'a>)), NoMatch<'a>>;

/// What a result of the pair parser says, in the terms of the grammar.
pub open spec fn pair_outcome(r: PairResult) -> Parsed<Pair> {
    match r {
        Ok((rest, (key, value))) => Ok((rest@, (key@, value@))),
        Err(e) => Err(e@),
    }
}

/// The result of the parser of a map's pairs.
pub type EntriesResult<'a> = Result<(&'a str, Vec<(&'a str, Value<'a>)>), NoMatch<'a>>;

/// Parses a value: a string or, failing that, an array or, failing
/// that, a map.
pub fn parse_value<'a>(input: &'a str) -> (r: ValueResult<'a>)
    ensures
        outcome(r) == value_at(input@),
        sound(r),
    decreases input@.len(), 1nat,
{
    match parse_string(input) {
        Ok(found) => Ok(found),
        Err(_) => match parse_array(input) {
            Ok(found) => Ok(found),
            Err(_) => parse_map(input),
        },
    }
}

/// Parses a map: `{`, pairs, `}`. Of two pairs with the same key the
/// later one counts.
pub fn parse_map<'a>(input: &'a str) -> (r: ValueResult<'a>)
    ensures
        outcome(r) == map_at(input@),
        sound(r),
    decreases input@.len(), 0nat,
{
    match one_char(input, '{') {
        Err(_) => Err(NoMatch { rest: input }),
        Ok((inner, _)) => match parse_key_value(inner) {
            Err(e) => Err(e),
            Ok((tail, entries)) => match one_char(tail, '}') {
                Err(_) => Err(NoMatch { rest: tail }),
                Ok((rest, _)) => Ok((rest, Value::Dict(entries))),
            },
        },
    }
}

/// Parses a pair: a key, `=`, a value.
pub fn parse_pair<'a>(input: &'a str) -> (r: PairResult<'a>)
    ensures
        pair_outcome(r) == pair_at(input@),
        r matches Ok((_, (_, value))) ==> value.wf(),
    decreases input@.len(), 2nat,
{
    proof {
        lemma_key_reads(input@);
    }
    match parse_key(input) {
        Err(e) => Err(e),
        Ok((tail, key)) => match one_char(tail, '=') {
            Err(_) => Err(NoMatch { rest: tail }),
            Ok((next, _)) => match parse_value(next) {
                Err(e) => Err(e),
                Ok((rest, value)) => Ok((rest, (key, value))),
            },
        },
    }
}

/// Parses the pairs of a map, with a possibly empty run of whitespace
/// between each two, up to the place where no further pair follows. It
/// never fails. The entries hold each key once, with the value of its
/// last pair.
pub fn parse_key_value<'a>(input: &'a str) -> (r: EntriesResult<'a>)
    ensures
        match r {
            Ok((rest, entries)) => {
                &&& rest@ == pairs_at(input@).0
                &&& fold_pairs(pairs_of(entries@)) == fold_pairs(pairs_at(input@).1)
                &&& entries_wf(entries@)
            },
            Err(_) => false,
        },
    decreases input@.len(), 4nat,
{
    let mut entries: Vec<(&'a str, Value<'a>)> = Vec::new();
    let ghost mut seen: Seq<Pair> = Seq::empty();
    let mut cur = input;
    let mut open = true;
    proof {
        assert(pairs_of(entries@) =~= seen);
    }
    match parse_pair(input) {
        Err(_) => {
            open = false;
        },
        Ok((rest, (key, value))) => {
            proof {
                lemma_pair_reads(input@);
                lemma_fold_pairs_push(seen, (key@, value@));
                seen = seen.push((key@, value@));
                assert(seen =~= seq![(key@, value@)]);
            }
            put_entry(&mut entries, key, value);
            cur = rest;
        },
    }
    while open
        invariant
            cur@.len() <= input@.len(),
            entries_wf(entries@),
            fold_pairs(pairs_of(entries@)) == fold_pairs(seen),
            open ==> pairs_at(input@) == (more_pairs_at(cur@).0, seen + more_pairs_at(cur@).1),
            !open ==> pairs_at(input@) == (cur@, seen),
        decreases
                cur@.len() + if open {
                    1nat
                } else {
                    0nat
                },
    {
        let next = match whitespace(cur) {
            Ok((next, _)) => next,
            Err(_) => cur,
        };
        proof {
            lemma_run_reads(cur@, CharClass::Space);
        }
        match parse_pair(next) {
            Err(_) => {
                open = false;
                assert(seen + Seq::<Pair>::empty() =~= seen);
            },
            Ok((rest, (key, value))) => {
                proof {
                    lemma_pair_reads(next@);
                    lemma_fold_pairs_push(seen, (key@, value@));
                    assert(seen + (seq![(key@, value@)] + more_pairs_at(rest@).1) =~= seen.push(
                        (key@, value@),
                    ) + more_pairs_at(rest@).1);
                    seen = seen.push((key@, value@));
                }
                put_entry(&mut entries, key, value);
                cur = rest;
            },
        }
    }
    Ok((cur, entries))
}

/// Parses a message: one map at the start of the text. What follows the
/// closing brace is left over. The keys of the map are the keys of the
/// pairs between the braces, each with the value of its last pair.
pub fn parse_message<'a>(input: &'a str) -> (r: ValueResult<'a>)
    ensures
        outcome(r) == message_at(input@),
        sound(r),
        match r {
            Ok((rest, value)) => value@ matches Node::Dict(m) && {
                let pairs = pairs_at(input@.skip(1)).1;
                &&& forall|key: Seq<char>| #[trigger] m.contains_key(key) <==> has_key(pairs, key)
                &&& forall|i: int| #[trigger]
                    is_last_of_key(pairs, i) ==> m.contains_key(pairs[i].0) && m[pairs[i].0]
                        == pairs[i].1
            },
            Err(_) => true,
        },
{
    let r = parse_map(input);
    proof {
        if r is Ok {
            lemma_message_last_wins(input@);
        }
    }
    r
}

} // verus!
