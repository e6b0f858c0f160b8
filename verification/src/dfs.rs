//! The backtracking parser: one buffer, grown and cut back along the search.

use crate::config::Config;
use crate::decoding::{
    decodings, decodings_up_to, decodings_with_first, is_parse_of, lemma_decodings_beyond_bound,
    lemma_prefix_each_concat, lemma_prefix_each_empty, lemma_prefix_each_twice, prefix_each,
};
use crate::error::ParseError;
use crate::table::{lemma_token_length, token_symbols, Table};
use crate::text::{chars_of, string_of};
use vstd::prelude::*;
use vstd::slice::slice_subrange;

verus! {

/// A parser that searches depth first and keeps the word under construction
/// in one buffer.
pub struct DfsParser {
    table: Table,
}

impl View for DfsParser {
    type V = Seq<(Seq<char>, char)>;

    /// The configuration that the parser was built from.
    closed spec fn view(&self) -> Seq<(Seq<char>, char)> {
        self.table@
    }
}

impl DfsParser {
    /// Builds the parser of `config`.
    pub fn new(config: &Config) -> (parser: DfsParser)
        ensures
            parser@ == config.deep_view(),
    {
        DfsParser { table: Table::new(config) }
    }

    /// Decodes `digits`: all its words, or the first character that occurs
    /// in no token.
    pub fn parse(&self, digits: &str) -> (outcome: Result<Vec<String>, ParseError>)
        ensures
            is_parse_of(self@, digits@, outcome),
    {
        let chars = chars_of(digits);
        match self.table.validate(chars.as_slice()) {
            Err(error) => Err(error),
            Ok(_) => {
                let mut results: Vec<String> = Vec::new();
                let mut buffer: Vec<char> = Vec::new();
                self.dfs(chars.as_slice(), 0, &mut buffer, &mut results);
                proof {
                    let words = decodings(token_symbols(self@), chars@);
                    assert(chars@.skip(0) =~= chars@);
                    lemma_prefix_each_empty(words);
                }
                Ok(results)
            },
        }
    }

    /// Adds to `results` the words of `chars` from `index` on, each behind
    /// what `buffer` holds, and leaves `buffer` as it was.
    fn dfs(&self, chars: &[char], index: usize, buffer: &mut Vec<char>, results: &mut Vec<String>)
        requires
            index <= chars@.len(),
        ensures
            final(buffer)@ == old(buffer)@,
            final(results).deep_view() == old(results).deep_view() + prefix_each(
                old(buffer)@,
                decodings(token_symbols(self@), chars@.skip(index as int)),
            ),
        decreases chars@.len() - index,
    {
        let ghost symbols = token_symbols(self@);
        let ghost suffix = chars@.skip(index as int);
        let ghost found = results.deep_view();
        let ghost path = buffer@;
        if index == chars.len() {
            let word = string_of(buffer.as_slice());
            results.push(word);
            return ;
        }
        let max_lookahead = self.table.max_lookahead();
        let left = chars.len() - index;
        let reach = if max_lookahead < left {
            max_lookahead
        } else {
            left
        };
        let mut len: usize = 0;
        while len < reach
            invariant
                len <= reach <= left,
                index + left == chars.len(),
                symbols == token_symbols(self@),
                suffix == chars@.skip(index as int),
                buffer@ == path,
                results.deep_view() == found + prefix_each(
                    path,
                    decodings_up_to(symbols, suffix, len as int),
                ),
            decreases reach - len,
        {
            len += 1;
            let ghost shorter = decodings_up_to(symbols, suffix, len - 1);
            let ghost first = decodings_with_first(symbols, suffix, len as int);
            assert(chars@.subrange(index as int, index + len) =~= suffix.take(len as int));
            match self.table.lookup(slice_subrange(chars, index, index + len)) {
                Some(symbol) => {
                    buffer.push(symbol);
                    self.dfs(chars, index + len, buffer, results);
                    buffer.pop();
                    proof {
                        let rest = decodings(symbols, suffix.skip(len as int));
                        assert(chars@.skip(index + len) =~= suffix.skip(len as int));
                        assert(path.push(symbol) =~= path + seq![symbol]);
                        lemma_prefix_each_twice(path, seq![symbol], rest);
                    }
                },
                None => {},
            }
            proof {
                lemma_prefix_each_concat(path, shorter, first);
            }
        }
        proof {
            assert forall|token: Seq<char>| symbols.dom().contains(token) implies token.len()
                <= max_lookahead by {
                lemma_token_length(self@, token);
            }
            if reach < left {
                lemma_decodings_beyond_bound(symbols, suffix, reach as int, left as int);
            }
        }
    }
}

} // verus!
