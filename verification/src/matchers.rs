//! The primitive matchers. Each reads a prefix of the text it is given
//! and either matches, giving the text left over and the matched text,
//! or fails and consumes nothing.
//!
//! The matching itself is done by `nom`. The functions that call it are
//! the only ones in this crate whose contracts are taken on trust: each
//! holds one call and nothing else.

use crate::grammar::{
    char_at, key_at, run1_at, run_len, tag_at, until_at, CharClass, Parsed,
};
use crate::laws::lemma_key_reads;
use vstd::prelude::*;

verus! {

/// A failed match, with the text at which the match was attempted.
#[derive(Debug, Clone, Copy, PartialEq, Eq)]
pub struct NoMatch<'a> {
    pub rest: &'a str,
}

impl<'a> View for NoMatch<'a> {
    type V = Seq<char>;

    open spec fn view(&self) -> Seq<char> {
        self.rest@
    }
}

/// The result of a matcher that gives text.
pub type TextResult<'a> = Result<(&'a str, &'a str), NoMatch<'a>>;

/// What a result of a text matcher says, in the terms of the grammar.
pub open spec fn text_outcome(r: TextResult) -> Parsed<Seq<char>> {
    match r {
        Ok((rest, found)) => Ok((rest@, found@)),
        Err(e) => Err(e@),
    }
}

/// The error of a `nom` parser. Nothing is read from it.
#[verifier::external_type_specification]
#[verifier::external_body]
#[verifier::reject_recursive_types(Failure)]
#[verifier::reject_recursive_types(Error)]
pub struct ExNomErr<Failure, Error>(nom::Err<Failure, Error>);

/// The place and kind that `nom` gives of a failed match. Nothing is
/// read from it.
#[verifier::external_type_specification]
#[verifier::external_body]
#[verifier::reject_recursive_types(I)]
pub struct ExNomError<I>(nom::error::Error<I>);

/// A result of `nom` is as the grammar has it: a match with the same text
/// left over and the same text found, or a failure where the grammar
/// fails.
pub open spec fn as_grammar(r: nom::IResult<&str, &str>, want: Parsed<Seq<char>>) -> bool {
    match r {
        Ok((rest, found)) => want == Ok::<(Seq<char>, Seq<char>), Seq<char>>((rest@, found@)),
        Err(_) => want is Err,
    }
}

/// Trusted: `nom::character::complete::char`. It matches when the text
/// starts with `c`, and then leaves the text behind that character.
#[verifier::external_body]
pub(crate) fn one_char<'a>(input: &'a str, c: char) -> (r: nom::IResult<&'a str, char>)
    ensures
        match r {
            Ok((rest, found)) => char_at(input@, c) == Ok::<(Seq<char>, char), Seq<char>>(
                (rest@, found),
            ),
            Err(_) => char_at(input@, c) is Err,
        },
{
    nom::character::complete::char(c)(input)
}

/// Trusted: `nom::bytes::complete::tag`. It matches when the text starts
/// with `tag`, and then gives the text behind the tag and the tag as it
/// stands in the text.
#[verifier::external_body]
pub(crate) fn literal<'a>(input: &'a str, tag: &str) -> (r: nom::IResult<&'a str, &'a str>)
    ensures
        as_grammar(r, tag_at(input@, tag@)),
{
    nom::bytes::complete::tag(tag)(input)
}

/// Trusted: `nom::character::complete::digit1`. It matches the longest
/// run of ASCII digits at the start of the text, and fails when that run
/// is empty.
#[verifier::external_body]
pub(crate) fn digits<'a>(input: &'a str) -> (r: nom::IResult<&'a str, &'a str>)
    ensures
        as_grammar(r, run1_at(input@, CharClass::Digit)),
{
    nom::character::complete::digit1(input)
}

/// Trusted: `nom::character::complete::multispace0`. It always matches,
/// and takes the longest run of spaces, tabs, carriage returns and line
/// feeds at the start of the text, which may be empty.
#[verifier::external_body]
pub(crate) fn whitespace<'a>(input: &'a str) -> (r: nom::IResult<&'a str, &'a str>)
    ensures
        r is Ok,
        as_grammar(
            r,
            Ok(
                (
                    input@.skip(run_len(input@, CharClass::Space) as int),
                    input@.take(run_len(input@, CharClass::Space) as int),
                ),
            ),
        ),
{
    nom::character::complete::multispace0(input)
}

/// Whether a character may stand inside a string.
pub fn is_unquoted(c: char) -> (b: bool)
    ensures
        b == CharClass::Except('"').holds(c),
{
    c != '"'
}

/// Trusted: `nom::bytes::complete::take_while1`, with `is_unquoted` as
/// its predicate. It matches the longest run of characters that are no
/// quote at the start of the text, and fails when that run is empty.
#[verifier::external_body]
pub(crate) fn unquoted_run<'a>(input: &'a str) -> (r: nom::IResult<&'a str, &'a str>)
    ensures
        as_grammar(r, run1_at(input@, CharClass::Except('"'))),
{
    nom::bytes::complete::take_while1(is_unquoted)(input)
}

/// Trusted: `nom::bytes::complete::take_until`, for a pattern of one
/// character. It matches when the pattern occurs in the text, and then
/// gives the text from its first occurrence on and the text before it.
#[verifier::external_body]
pub(crate) fn text_until<'a>(input: &'a str, pattern: &str) -> (r: nom::IResult<
    &'a str,
    &'a str,
>)
    requires
        pattern@.len() == 1,
    ensures
        as_grammar(r, until_at(input@, pattern@[0])),
{
    nom::bytes::complete::take_until(pattern)(input)
}

/// Matches the text `abc`.
pub fn tag_basic<'a>(input: &'a str) -> (r: TextResult<'a>)
    ensures
        text_outcome(r) == tag_at(input@, seq!['a', 'b', 'c']),
{
    proof {
        reveal_strlit("abc");
        assert("abc"@ =~= seq!['a', 'b', 'c']);
    }
    match literal(input, "abc") {
        Ok((rest, found)) => Ok((rest, found)),
        Err(_) => Err(NoMatch { rest: input }),
    }
}

/// Matches one or more ASCII digits.
pub fn parse_digits<'a>(input: &'a str) -> (r: TextResult<'a>)
    ensures
        text_outcome(r) == run1_at(input@, CharClass::Digit),
{
    match digits(input) {
        Ok((rest, found)) => Ok((rest, found)),
        Err(_) => Err(NoMatch { rest: input }),
    }
}

/// Matches a key: the text before the next `=`, which must occur. The
/// key holds no `=`, and the text left over starts with one.
pub fn parse_key<'a>(input: &'a str) -> (r: TextResult<'a>)
    ensures
        text_outcome(r) == key_at(input@),
        match r {
            Ok((rest, key)) => !key@.contains('=') && rest@.len() > 0 && rest@[0] == '=',
            Err(e) => !input@.contains('='),
        },
{
    proof {
        reveal_strlit("=");
        lemma_key_reads(input@);
    }
    match text_until(input, "=") {
        Ok((rest, found)) => Ok((rest, found)),
        Err(_) => Err(NoMatch { rest: input }),
    }
}

} // verus!
