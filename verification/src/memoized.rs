//! The memoized parser: it compiles the digits into a decode graph, counts
//! the words, and writes them out by walking the graph.

use crate::config::Config;
use crate::decoding::is_parse_of;
use crate::error::ParseError;
use crate::graph::{lemma_paths_are_decodings, DecodeGraph};
use crate::table::{token_symbols, Table};
use crate::text::chars_of;
use vstd::prelude::*;

verus! {

/// A parser that looks each token up once, and knows the number of words
/// before it writes the first.
pub struct MemoizedParser {
    table: Table,
}

impl View for MemoizedParser {
    type V = Seq<(Seq<char>, char)>;

    /// The configuration that the parser was built from.
    closed spec fn view(&self) -> Seq<(Seq<char>, char)> {
        self.table@
    }
}

impl MemoizedParser {
    /// Builds the parser of `config`.
    pub fn new(config: &Config) -> (parser: MemoizedParser)
        ensures
            parser@ == config.deep_view(),
    {
        MemoizedParser { table: Table::new(config) }
    }

    /// Decodes `digits`: all its words, or the first character that occurs
    /// in no token.
    pub fn parse(&self, digits: &str) -> (outcome: Result<Vec<String>, ParseError>)
        ensures
            is_parse_of(self@, digits@, outcome),
    {
        let chars = chars_of(digits);
        match self.table.validate(chars.as_slice()) {
            Err(error) => Err(error),
            Ok(_) => {
                let graph = DecodeGraph::build(&self.table, chars.as_slice());
                let counts = graph.completion_counts();
                let words = graph.generate(counts[0]);
                proof {
                    assert(chars@.len() == chars.len());
                    lemma_paths_are_decodings(token_symbols(self@), chars@, 0);
                    assert(chars@.skip(0) =~= chars@);
                }
                Ok(words)
            },
        }
    }
}

} // verus!
