//! The grammar, stated as functions on sequences of characters.
//!
//! ```text
//! value   = string | array | map
//! string  = '"' , char-not-quote+ , '"'
//! array   = '[' , [ element , (' ' , element)* ] , ']'
//! element = string | array
//! key     = char-not-'='*
//! pair    = key , '=' , value
//! map     = '{' , [ pair , (whitespace* , pair)* ] , '}'
//! message = map
//! ```
//!
//! Every production reads a prefix of the text it is given. It either
//! matches, and gives its result with the text left over, or fails, and
//! gives the text at which the failing match was attempted. An alternation
//! tries its productions in order on the same text and fails as the last
//! of them does. A list ends, without failing, before the first separator
//! that no further item follows.

use crate::value::{fold_pairs, Node, Pair};
use vstd::prelude::*;

verus! {

/// What a production gives on a text: the text left over with the result,
/// or the text at which it failed.
pub type Parsed<T> = Result<(Seq<char>, T), Seq<char>>;

/// The sets of characters that the grammar takes runs of.
pub enum CharClass {
    /// The ten ASCII digits.
    Digit,
    /// Space, tab, carriage return and line feed.
    Space,
    /// Every character but the given one.
    Except(char),
}

impl CharClass {
    /// Whether `c` is in the class.
    pub open spec fn holds(self, c: char) -> bool {
        match self {
            CharClass::Digit => 0x30 <= c as u32 <= 0x39,
            CharClass::Space => c == ' ' || c == '\t' || c == '\r' || c == '\n',
            CharClass::Except(stop) => c != stop,
        }
    }
}

/// The number of characters at the start of `s` that are all in `class`.
pub open spec fn run_len(s: Seq<char>, class: CharClass) -> nat
    decreases s.len(),
{
    if s.len() > 0 && class.holds(s[0]) {
        1 + run_len(s.skip(1), class)
    } else {
        0
    }
}

/// A run is no longer than the text it starts.
pub proof fn lemma_run_len_bound(s: Seq<char>, class: CharClass)
    ensures
        run_len(s, class) <= s.len(),
    decreases s.len(),
{
    if s.len() > 0 && class.holds(s[0]) {
        lemma_run_len_bound(s.skip(1), class);
    }
}

/// One given character.
pub open spec fn char_at(s: Seq<char>, c: char) -> Parsed<char> {
    if s.len() > 0 && s[0] == c {
        Ok((s.skip(1), c))
    } else {
        Err(s)
    }
}

/// A given text.
pub open spec fn tag_at(s: Seq<char>, tag: Seq<char>) -> Parsed<Seq<char>> {
    if tag.is_prefix_of(s) {
        Ok((s.skip(tag.len() as int), tag))
    } else {
        Err(s)
    }
}

/// The longest run of characters of `class`, which must not be empty.
pub open spec fn run1_at(s: Seq<char>, class: CharClass) -> Parsed<Seq<char>> {
    let n = run_len(s, class) as int;
    if n > 0 {
        Ok((s.skip(n), s.take(n)))
    } else {
        Err(s)
    }
}

/// The text before the first occurrence of `stop`, which must occur.
pub open spec fn until_at(s: Seq<char>, stop: char) -> Parsed<Seq<char>> {
    let n = run_len(s, CharClass::Except(stop)) as int;
    if n < s.len() {
        Ok((s.skip(n), s.take(n)))
    } else {
        Err(s)
    }
}

/// A key: the text before the next `=`.
pub open spec fn key_at(s: Seq<char>) -> Parsed<Seq<char>> {
    until_at(s, '=')
}

/// A string: a quote, one or more characters that are no quote, a quote.
pub open spec fn string_at(s: Seq<char>) -> Parsed<Node> {
    match char_at(s, '"') {
        Err(at) => Err(at),
        Ok((inner, _)) => match run1_at(inner, CharClass::Except('"')) {
            Err(at) => Err(at),
            Ok((tail, content)) => match char_at(tail, '"') {
                Err(at) => Err(at),
                Ok((rest, _)) => Ok((rest, Node::Str(content))),
            },
        },
    }
}

/// An array: `[`, elements with one space between each two, `]`.
pub open spec fn array_at(s: Seq<char>) -> Parsed<Node>
    decreases s.len(), 0nat,
{
    match char_at(s, '[') {
        Err(at) => Err(at),
        Ok((inner, _)) => {
            let (tail, items) = elements_at(inner);
            match char_at(tail, ']') {
                Err(at) => Err(at),
                Ok((rest, _)) => Ok((rest, Node::Array(items))),
            }
        },
    }
}

/// An element of an array: a string or, failing that, an array.
pub open spec fn element_at(s: Seq<char>) -> Parsed<Node>
    decreases s.len(), 1nat,
{
    match string_at(s) {
        Ok(found) => Ok(found),
        Err(_) => array_at(s),
    }
}

/// The text at which the elements that follow one element of an array
/// end, and those elements, each after one space. The test on the lengths
/// serves termination alone: an element always reads a character, as
/// `laws::lemma_elements_unfold` shows.
pub open spec fn more_elements_at(s: Seq<char>) -> (Seq<char>, Seq<Node>)
    decreases s.len(), 2nat,
{
    match char_at(s, ' ') {
        Err(_) => (s, Seq::empty()),
        Ok((next, _)) => match element_at(next) {
            Err(_) => (s, Seq::empty()),
            Ok((rest, item)) => if rest.len() < s.len() {
                let (end, more) = more_elements_at(rest);
                (end, seq![item] + more)
            } else {
                (rest, seq![item])
            },
        },
    }
}

/// The text at which the elements of an array end, and the elements,
/// possibly none. The test on the lengths serves termination alone.
pub open spec fn elements_at(s: Seq<char>) -> (Seq<char>, Seq<Node>)
    decreases s.len(), 3nat,
{
    match element_at(s) {
        Err(_) => (s, Seq::empty()),
        Ok((rest, item)) => if rest.len() <= s.len() {
            let (end, more) = more_elements_at(rest);
            (end, seq![item] + more)
        } else {
            (rest, seq![item])
        },
    }
}

/// A value: a string or, failing that, an array or, failing that, a map.
pub open spec fn value_at(s: Seq<char>) -> Parsed<Node>
    decreases s.len(), 1nat,
{
    match string_at(s) {
        Ok(found) => Ok(found),
        Err(_) => match array_at(s) {
            Ok(found) => Ok(found),
            Err(_) => map_at(s),
        },
    }
}

/// A map: `{`, pairs, `}`. A key that is written twice keeps the value
/// that was written last.
pub open spec fn map_at(s: Seq<char>) -> Parsed<Node>
    decreases s.len(), 0nat,
{
    match char_at(s, '{') {
        Err(at) => Err(at),
        Ok((inner, _)) => {
            let (tail, pairs) = pairs_at(inner);
            match char_at(tail, '}') {
                Err(at) => Err(at),
                Ok((rest, _)) => Ok((rest, Node::Dict(fold_pairs(pairs)))),
            }
        },
    }
}

/// A pair: a key, `=`, a value.
pub open spec fn pair_at(s: Seq<char>) -> Parsed<Pair>
    decreases s.len(), 2nat,
{
    match key_at(s) {
        Err(at) => Err(at),
        Ok((tail, key)) => match char_at(tail, '=') {
            Err(at) => Err(at),
            Ok((next, _)) => match value_at(next) {
                Err(at) => Err(at),
                Ok((rest, node)) => Ok((rest, (key, node))),
            },
        },
    }
}

/// The text at which the pairs that follow one pair of a map end, and
/// those pairs, each after a possibly empty run of whitespace. The test on
/// the lengths serves termination alone: a pair always reads a character,
/// as `laws::lemma_pairs_unfold` shows.
pub open spec fn more_pairs_at(s: Seq<char>) -> (Seq<char>, Seq<Pair>)
    decreases s.len(), 3nat,
    via more_pairs_at_decreases
{
    match pair_at(s.skip(run_len(s, CharClass::Space) as int)) {
        Err(_) => (s, Seq::empty()),
        Ok((rest, pair)) => if rest.len() < s.len() {
            let (end, more) = more_pairs_at(rest);
            (end, seq![pair] + more)
        } else {
            (rest, seq![pair])
        },
    }
}

/// The run of whitespace is no longer than the text, so what follows it
/// is no longer either.
#[via_fn]
proof fn more_pairs_at_decreases(s: Seq<char>) {
    lemma_run_len_bound(s, CharClass::Space);
}

/// The text at which the pairs of a map end, and the pairs, possibly
/// none. The test on the lengths serves termination alone.
pub open spec fn pairs_at(s: Seq<char>) -> (Seq<char>, Seq<Pair>)
    decreases s.len(), 4nat,
{
    match pair_at(s) {
        Err(_) => (s, Seq::empty()),
        Ok((rest, pair)) => if rest.len() <= s.len() {
            let (end, more) = more_pairs_at(rest);
            (end, seq![pair] + more)
        } else {
            (rest, seq![pair])
        },
    }
}

/// A message: one map at the start of the text.
pub open spec fn message_at(s: Seq<char>) -> Parsed<Node> {
    map_at(s)
}

} // verus!
