//! The words of a digit string: what every parser returns.
//!
//! A word comes from cutting the digits into consecutive tokens and writing
//! the symbol of each. The words are listed by the length of their first
//! token, shortest first, and for one first token in the order of the words
//! of the rest.

use crate::error::ParseError;
use crate::table::{all_in_alphabet, first_invalid_at, symbol_of, token_symbols};
use vstd::prelude::*;

verus! {

/// Each word of `words`, with `prefix` in front of it.
pub open spec fn prefix_each(prefix: Seq<char>, words: Seq<Seq<char>>) -> Seq<Seq<char>> {
    Seq::new(words.len(), |i: int| prefix + words[i])
}

/// The words of `digits` whose first token is the first `len` digits.
pub open spec fn decodings_with_first(
    symbols: Map<Seq<char>, char>,
    digits: Seq<char>,
    len: int,
) -> Seq<Seq<char>>
    decreases digits.len(), 0int, 0int,
{
    if 1 <= len <= digits.len() && symbols.dom().contains(digits.take(len)) {
        prefix_each(
            seq![symbol_of(symbols, digits.take(len))],
            decodings(symbols, digits.skip(len)),
        )
    } else {
        Seq::empty()
    }
}

/// The words of `digits` whose first token has at most `len` digits.
pub open spec fn decodings_up_to(
    symbols: Map<Seq<char>, char>,
    digits: Seq<char>,
    len: int,
) -> Seq<Seq<char>>
    decreases digits.len(), 1int, len,
{
    if len <= 0 {
        Seq::empty()
    } else {
        decodings_up_to(symbols, digits, len - 1) + decodings_with_first(symbols, digits, len)
    }
}

/// The words of `digits`: one for each way to cut `digits` into tokens of
/// `symbols`. The empty string has one word, the empty one.
pub open spec fn decodings(symbols: Map<Seq<char>, char>, digits: Seq<char>) -> Seq<Seq<char>>
    decreases digits.len(), 2int, 0int,
{
    if digits.len() == 0 {
        seq![Seq::empty()]
    } else {
        decodings_up_to(symbols, digits, digits.len() as int)
    }
}

/// Whether `outcome` is what a parser with the configuration `pairs` owes
/// for `digits`. Where every character of `digits` occurs in some token,
/// that is `Ok` with the words of `digits` in their order, be they many or
/// none. Otherwise it is the error that names the first character of
/// `digits` that occurs in no token.
pub open spec fn is_parse_of(
    pairs: Seq<(Seq<char>, char)>,
    digits: Seq<char>,
    outcome: Result<Vec<String>, ParseError>,
) -> bool {
    match outcome {
        Ok(words) => all_in_alphabet(pairs, digits) && words.deep_view() == decodings(
            token_symbols(pairs),
            digits,
        ),
        Err(ParseError::InvalidCharacter(c)) => exists|k: int|
            first_invalid_at(pairs, digits, k) && digits[k] == c,
    }
}

/// Putting a prefix in front of each word goes through concatenation.
pub proof fn lemma_prefix_each_concat(prefix: Seq<char>, a: Seq<Seq<char>>, b: Seq<Seq<char>>)
    ensures
        prefix_each(prefix, a + b) == prefix_each(prefix, a) + prefix_each(prefix, b),
{
}

/// Two prefixes, one after the other, are one prefix.
pub proof fn lemma_prefix_each_twice(outer: Seq<char>, inner: Seq<char>, words: Seq<Seq<char>>)
    ensures
        prefix_each(outer, prefix_each(inner, words)) == prefix_each(outer + inner, words),
{
    assert forall|i: int| 0 <= i < words.len() implies outer + (inner + words[i]) == (outer
        + inner) + words[i] by {
        assert(outer + (inner + words[i]) =~= (outer + inner) + words[i]);
    }
}

/// The empty prefix changes nothing.
pub proof fn lemma_prefix_each_empty(words: Seq<Seq<char>>)
    ensures
        prefix_each(Seq::empty(), words) == words,
{
}

/// Where no token is longer than `bound`, first tokens longer than `bound`
/// add no word.
pub proof fn lemma_decodings_beyond_bound(
    symbols: Map<Seq<char>, char>,
    digits: Seq<char>,
    bound: int,
    len: int,
)
    requires
        forall|token: Seq<char>| symbols.dom().contains(token) ==> token.len() <= bound,
        0 <= bound <= len,
    ensures
        decodings_up_to(symbols, digits, len) == decodings_up_to(symbols, digits, bound),
    decreases len - bound,
{
    if bound < len {
        lemma_decodings_beyond_bound(symbols, digits, bound, len - 1);
        assert(decodings_with_first(symbols, digits, len) =~= Seq::<Seq<char>>::empty());
    }
}

} // verus!
