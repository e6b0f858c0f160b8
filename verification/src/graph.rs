//! The decode graph of a digit string: its positions, joined by the tokens
//! that lie between them.

use crate::decoding::{
    decodings, decodings_up_to, decodings_with_first, lemma_prefix_each_concat,
    lemma_prefix_each_empty, lemma_prefix_each_twice, prefix_each,
};
use crate::table::{lemma_token_length, symbol_of, token_symbols, Table};
use crate::text::string_of;
use vstd::prelude::*;
use vstd::seq_lib::lemma_seq_contains_after_push;
use vstd::slice::slice_subrange;

verus! {

/// An edge of a decode graph: a token that ends before position `target`
/// and stands for `symbol`.
#[derive(Clone, Copy, Debug, PartialEq, Eq)]
pub struct Edge {
    /// The symbol that the token stands for.
    pub symbol: char,
    /// The position behind the token.
    pub target: usize,
}

/// The edges that leave position `from` of `digits` for the tokens of at
/// most `len` digits that begin there, shortest token first.
pub open spec fn edges_up_to(
    symbols: Map<Seq<char>, char>,
    digits: Seq<char>,
    from: int,
    len: int,
) -> Seq<Edge>
    decreases len,
{
    if len <= 0 {
        Seq::empty()
    } else {
        let shorter = edges_up_to(symbols, digits, from, len - 1);
        let token = digits.subrange(from, from + len);
        if from + len <= digits.len() && symbols.dom().contains(token) {
            shorter.push(Edge { symbol: symbol_of(symbols, token), target: (from + len) as usize })
        } else {
            shorter
        }
    }
}

/// The decode graph of `digits`: for each position from 0 to the length of
/// `digits`, the edges that leave it. An edge leads from `i` to `i + len`
/// with symbol `c` exactly if the `len` digits from `i` on are a token that
/// stands for `c`.
pub open spec fn decode_graph(symbols: Map<Seq<char>, char>, digits: Seq<char>) -> Seq<Seq<Edge>> {
    Seq::new(
        digits.len() + 1,
        |from: int| edges_up_to(symbols, digits, from, digits.len() - from),
    )
}

/// Whether every edge of `graph` leads to a later position of `graph`.
pub open spec fn leads_forward(graph: Seq<Seq<Edge>>) -> bool {
    forall|from: int, k: int|
        0 <= from < graph.len() && 0 <= k < graph[from].len() ==> from < (
        #[trigger] graph[from][k]).target < graph.len()
}

/// The words along the paths that leave `from` by one of `edges` and end at
/// the last position of `graph`, in the order of `edges`.
pub open spec fn paths_along(graph: Seq<Seq<Edge>>, from: int, edges: Seq<Edge>) -> Seq<Seq<char>>
    decreases graph.len() - from, 0int, edges.len(),
{
    if edges.len() == 0 {
        Seq::empty()
    } else {
        let edge = edges.last();
        let earlier = paths_along(graph, from, edges.drop_last());
        if from < edge.target < graph.len() {
            earlier + prefix_each(seq![edge.symbol], paths_from(graph, edge.target as int))
        } else {
            earlier
        }
    }
}

/// The words along the paths from `from` to the last position of `graph`.
pub open spec fn paths_from(graph: Seq<Seq<Edge>>, from: int) -> Seq<Seq<char>>
    decreases graph.len() - from, 1int, 0int,
{
    if from == graph.len() - 1 {
        seq![Seq::empty()]
    } else if 0 <= from < graph.len() {
        paths_along(graph, from, graph[from])
    } else {
        Seq::empty()
    }
}

/// The number of paths that leave `from` by one of `edges` and end at the
/// last position of `graph`.
pub open spec fn count_along(graph: Seq<Seq<Edge>>, from: int, edges: Seq<Edge>) -> nat
    decreases graph.len() - from, 0int, edges.len(),
{
    if edges.len() == 0 {
        0
    } else {
        let edge = edges.last();
        let earlier = count_along(graph, from, edges.drop_last());
        if from < edge.target < graph.len() {
            earlier + count_from(graph, edge.target as int)
        } else {
            earlier
        }
    }
}

/// The completion count of `from`: the number of paths from `from` to the
/// last position of `graph`. It is 1 at the last position, and elsewhere the
/// sum of the counts at the targets of the edges that leave `from`.
pub open spec fn count_from(graph: Seq<Seq<Edge>>, from: int) -> nat
    decreases graph.len() - from, 1int, 0int,
{
    if from == graph.len() - 1 {
        1
    } else if 0 <= from < graph.len() {
        count_along(graph, from, graph[from])
    } else {
        0
    }
}

/// `count`, or the largest `usize` where `count` is beyond it.
pub open spec fn saturated(count: nat) -> usize {
    if count > usize::MAX {
        usize::MAX
    } else {
        count as usize
    }
}

/// There are as many words along the paths from a position as its
/// completion count says.
pub proof fn lemma_paths_count(graph: Seq<Seq<Edge>>, from: int)
    ensures
        paths_from(graph, from).len() == count_from(graph, from),
    decreases graph.len() - from, 1int, 0int,
{
    if from != graph.len() - 1 && 0 <= from < graph.len() {
        lemma_paths_count_along(graph, from, graph[from]);
    }
}

/// There are as many words along the paths that leave by `edges` as the
/// counts at their targets add up to.
pub proof fn lemma_paths_count_along(graph: Seq<Seq<Edge>>, from: int, edges: Seq<Edge>)
    ensures
        paths_along(graph, from, edges).len() == count_along(graph, from, edges),
    decreases graph.len() - from, 0int, edges.len(),
{
    if edges.len() > 0 {
        let edge = edges.last();
        lemma_paths_count_along(graph, from, edges.drop_last());
        if from < edge.target < graph.len() {
            lemma_paths_count(graph, edge.target as int);
        }
    }
}

/// Every edge for a token that begins at `from` leads to a later position
/// of the digits.
pub proof fn lemma_edges_lead_forward(
    symbols: Map<Seq<char>, char>,
    digits: Seq<char>,
    from: int,
    len: int,
    k: int,
)
    requires
        0 <= from,
        digits.len() <= usize::MAX,
        0 <= k < edges_up_to(symbols, digits, from, len).len(),
    ensures
        from < edges_up_to(symbols, digits, from, len)[k].target <= digits.len(),
    decreases len,
{
    if len > 0 {
        let shorter = edges_up_to(symbols, digits, from, len - 1);
        if k < shorter.len() {
            lemma_edges_lead_forward(symbols, digits, from, len - 1, k);
        }
    }
}

/// Among the edges for tokens of at most `len` digits, an edge leads from
/// `from` to `target` with `symbol` exactly if the digits between are such
/// a token, and it stands for `symbol`.
pub proof fn lemma_edges_are_tokens(
    symbols: Map<Seq<char>, char>,
    digits: Seq<char>,
    from: int,
    len: int,
    edge: Edge,
)
    requires
        0 <= from,
        digits.len() <= usize::MAX,
    ensures
        edges_up_to(symbols, digits, from, len).contains(edge) <==> {
            &&& from < edge.target <= from + len
            &&& edge.target <= digits.len()
            &&& symbols.dom().contains(digits.subrange(from, edge.target as int))
            &&& edge.symbol == symbol_of(symbols, digits.subrange(from, edge.target as int))
        },
    decreases len,
{
    if len > 0 {
        let shorter = edges_up_to(symbols, digits, from, len - 1);
        let token = digits.subrange(from, from + len);
        lemma_edges_are_tokens(symbols, digits, from, len - 1, edge);
        if from + len <= digits.len() && symbols.dom().contains(token) {
            let last = Edge { symbol: symbol_of(symbols, token), target: (from + len) as usize };
            lemma_seq_contains_after_push(shorter, last, edge);
        }
    }
}

/// The decode graph has an edge from `from` to `target` with `symbol`
/// exactly if the digits from `from` up to `target` are a token that stands
/// for `symbol`.
pub proof fn lemma_graph_edges_are_tokens(
    symbols: Map<Seq<char>, char>,
    digits: Seq<char>,
    from: int,
    edge: Edge,
)
    requires
        0 <= from <= digits.len() <= usize::MAX,
    ensures
        decode_graph(symbols, digits)[from].contains(edge) <==> {
            &&& from < edge.target <= digits.len()
            &&& symbols.dom().contains(digits.subrange(from, edge.target as int))
            &&& edge.symbol == symbol_of(symbols, digits.subrange(from, edge.target as int))
        },
{
    lemma_edges_are_tokens(symbols, digits, from, digits.len() - from, edge);
}

/// Where no token is longer than `bound`, tokens longer than `bound` add no
/// edge.
pub proof fn lemma_edges_beyond_bound(
    symbols: Map<Seq<char>, char>,
    digits: Seq<char>,
    from: int,
    bound: int,
    len: int,
)
    requires
        forall|token: Seq<char>| symbols.dom().contains(token) ==> token.len() <= bound,
        0 <= from,
        0 <= bound <= len,
    ensures
        edges_up_to(symbols, digits, from, len) == edges_up_to(symbols, digits, from, bound),
    decreases len - bound,
{
    if bound < len {
        lemma_edges_beyond_bound(symbols, digits, from, bound, len - 1);
    }
}

/// The words along the paths of the decode graph from a position are the
/// words of the digits from that position on.
pub proof fn lemma_paths_are_decodings(
    symbols: Map<Seq<char>, char>,
    digits: Seq<char>,
    from: int,
)
    requires
        0 <= from <= digits.len() <= usize::MAX,
    ensures
        paths_from(decode_graph(symbols, digits), from) == decodings(symbols, digits.skip(from)),
    decreases digits.len() - from, 1int, 0int,
{
    if from < digits.len() {
        lemma_paths_along_are_decodings(symbols, digits, from, digits.len() - from);
    }
}

/// The words along the paths that begin with a token of at most `len`
/// digits are the words whose first token has at most `len` digits.
pub proof fn lemma_paths_along_are_decodings(
    symbols: Map<Seq<char>, char>,
    digits: Seq<char>,
    from: int,
    len: int,
)
    requires
        0 <= from < digits.len() <= usize::MAX,
        0 <= len <= digits.len() - from,
    ensures
        paths_along(
            decode_graph(symbols, digits),
            from,
            edges_up_to(symbols, digits, from, len),
        ) == decodings_up_to(symbols, digits.skip(from), len),
    decreases digits.len() - from, 0int, len,
{
    if len > 0 {
        let suffix = digits.skip(from);
        let shorter = edges_up_to(symbols, digits, from, len - 1);
        let token = digits.subrange(from, from + len);
        lemma_paths_along_are_decodings(symbols, digits, from, len - 1);
        assert(token =~= suffix.take(len));
        if symbols.dom().contains(token) {
            let edge = Edge { symbol: symbol_of(symbols, token), target: (from + len) as usize };
            let edges = shorter.push(edge);
            assert(edges.drop_last() =~= shorter);
            lemma_paths_are_decodings(symbols, digits, from + len);
            assert(digits.skip(from + len) =~= suffix.skip(len));
            assert(decodings_with_first(symbols, suffix, len) == prefix_each(
                seq![edge.symbol],
                decodings(symbols, suffix.skip(len)),
            ));
        } else {
            assert(decodings_with_first(symbols, suffix, len) =~= Seq::<Seq<char>>::empty());
        }
    }
}

/// The edge lists that `nodes` hold, position by position.
spec fn nodes_view(nodes: Seq<Vec<Edge>>) -> Seq<Seq<Edge>> {
    Seq::new(nodes.len(), |from: int| nodes[from]@)
}

/// The sum of two saturated counts, saturated, is the saturated sum.
proof fn lemma_saturated_sum(a: nat, b: nat)
    ensures
        saturated(a + b) == saturated((saturated(a) + saturated(b)) as nat),
{
}

/// A decode graph: a list of edges for each position of a digit string,
/// the position behind its last digit included. Every edge leads to a later
/// position.
pub struct DecodeGraph {
    nodes: Vec<Vec<Edge>>,
}

impl View for DecodeGraph {
    type V = Seq<Seq<Edge>>;

    /// The list of edges of each position.
    closed spec fn view(&self) -> Seq<Seq<Edge>> {
        nodes_view(self.nodes@)
    }
}

impl DecodeGraph {
    #[verifier::type_invariant]
    spec fn well_formed(&self) -> bool {
        &&& self.nodes@.len() > 0
        &&& leads_forward(self@)
    }

    /// Builds the decode graph of `chars`: at each position it looks up the
    /// tokens that begin there, shortest first, as far as the longest token
    /// of `table` reaches.
    pub fn build(table: &Table, chars: &[char]) -> (graph: DecodeGraph)
        ensures
            graph@ == decode_graph(token_symbols(table@), chars@),
            leads_forward(graph@),
    {
        let ghost symbols = token_symbols(table@);
        let ghost whole = decode_graph(symbols, chars@);
        let max_lookahead = table.max_lookahead();
        proof {
            assert forall|token: Seq<char>| symbols.dom().contains(token) implies token.len()
                <= max_lookahead by {
                lemma_token_length(table@, token);
            }
        }
        let mut nodes: Vec<Vec<Edge>> = Vec::new();
        let mut from: usize = 0;
        while from < chars.len()
            invariant
                from <= chars.len(),
                symbols == token_symbols(table@),
                whole == decode_graph(symbols, chars@),
                forall|token: Seq<char>|
                    symbols.dom().contains(token) ==> token.len() <= max_lookahead,
                nodes_view(nodes@) == whole.take(from as int),
            decreases chars.len() - from,
        {
            let left = chars.len() - from;
            let reach = if max_lookahead < left {
                max_lookahead
            } else {
                left
            };
            let mut edges: Vec<Edge> = Vec::new();
            let mut len: usize = 0;
            while len < reach
                invariant
                    len <= reach <= left,
                    from + left == chars.len(),
                    symbols == token_symbols(table@),
                    edges@ == edges_up_to(symbols, chars@, from as int, len as int),
                decreases reach - len,
            {
                len += 1;
                match table.lookup(slice_subrange(chars, from, from + len)) {
                    Some(symbol) => {
                        edges.push(Edge { symbol, target: from + len });
                    },
                    None => {},
                }
            }
            proof {
                if reach < left {
                    lemma_edges_beyond_bound(
                        symbols,
                        chars@,
                        from as int,
                        reach as int,
                        left as int,
                    );
                }
            }
            nodes.push(edges);
            assert(whole.take(from + 1) =~= whole.take(from as int).push(whole[from as int]));
            from += 1;
        }
        let ghost earlier = nodes_view(nodes@);
        nodes.push(Vec::new());
        proof {
            assert(nodes_view(nodes@) =~= earlier.push(Seq::<Edge>::empty()));
            assert forall|from: int, k: int|
                0 <= from < whole.len() && 0 <= k < whole[from].len() implies from < (
            #[trigger] whole[from][k]).target < whole.len() by {
                lemma_edges_lead_forward(symbols, chars@, from, chars@.len() - from, k);
            }
        }
        DecodeGraph { nodes }
    }

    /// The number of positions: one more than the digits that the graph was
    /// built for.
    pub fn positions(&self) -> (count: usize)
        ensures
            count == self@.len(),
            count > 0,
    {
        proof {
            use_type_invariant(self);
        }
        self.nodes.len()
    }

    /// The edges that leave position `from`, if the graph has that position.
    pub fn edges_from(&self, from: usize) -> (edges: Option<&Vec<Edge>>)
        ensures
            match edges {
                Some(list) => from < self@.len() && list@ == self@[from as int],
                None => from >= self@.len(),
            },
    {
        if from < self.nodes.len() {
            Some(&self.nodes[from])
        } else {
            None
        }
    }

    /// The completion count of each position, computed from the last
    /// position back to the first. A count beyond the largest `usize` is
    /// held as the largest `usize`.
    pub fn completion_counts(&self) -> (counts: Vec<usize>)
        ensures
            counts@.len() == self@.len(),
            forall|from: int|
                0 <= from < self@.len() ==> #[trigger] counts@[from] == saturated(
                    count_from(self@, from),
                ),
    {
        proof {
            use_type_invariant(self);
        }
        let last = self.nodes.len() - 1;
        let mut counts: Vec<usize> = vec![0usize; self.nodes.len()];
        counts.set(last, 1);
        let mut from: usize = last;
        while from > 0
            invariant
                from <= last == self.nodes.len() - 1,
                counts@.len() == self.nodes.len(),
                leads_forward(self@),
                forall|at: int|
                    from <= at <= last ==> #[trigger] counts@[at] == saturated(
                        count_from(self@, at),
                    ),
            decreases from,
        {
            from -= 1;
            let edges = &self.nodes[from];
            let mut total: usize = 0;
            let mut k: usize = 0;
            while k < edges.len()
                invariant
                    k <= edges.len(),
                    from < last == self.nodes.len() - 1,
                    counts@.len() == self.nodes.len(),
                    edges@ == self@[from as int],
                    leads_forward(self@),
                    forall|at: int|
                        from < at <= last ==> #[trigger] counts@[at] == saturated(
                            count_from(self@, at),
                        ),
                    total == saturated(count_along(self@, from as int, edges@.take(k as int))),
                decreases edges.len() - k,
            {
                let edge = edges[k];
                proof {
                    let taken = edges@.take(k + 1);
                    assert(taken.drop_last() =~= edges@.take(k as int));
                    lemma_saturated_sum(
                        count_along(self@, from as int, edges@.take(k as int)),
                        count_from(self@, edge.target as int),
                    );
                }
                total = total.saturating_add(counts[edge.target]);
                k += 1;
            }
            assert(edges@.take(edges@.len() as int) =~= edges@);
            counts.set(from, total);
        }
        counts
    }

    /// The words along all paths from the first position to the last, found
    /// by walking the graph with one buffer. Room for `capacity` words is
    /// asked for before the walk.
    pub fn generate(&self, capacity: usize) -> (words: Vec<String>)
        ensures
            words.deep_view() == paths_from(self@, 0),
            words@.len() == count_from(self@, 0),
    {
        proof {
            use_type_invariant(self);
            lemma_paths_count(self@, 0);
        }
        let mut words: Vec<String> = Vec::new();
        let _ = words.try_reserve(capacity);
        let mut buffer: Vec<char> = Vec::new();
        self.walk(0, &mut buffer, &mut words);
        proof {
            lemma_prefix_each_empty(paths_from(self@, 0));
        }
        words
    }

    /// Adds to `results` the words along the paths from `from` to the last
    /// position, each behind what `buffer` holds, and leaves `buffer` as it
    /// was.
    fn walk(&self, from: usize, buffer: &mut Vec<char>, results: &mut Vec<String>)
        requires
            from < self@.len(),
        ensures
            final(buffer)@ == old(buffer)@,
            final(results).deep_view() == old(results).deep_view() + prefix_each(
                old(buffer)@,
                paths_from(self@, from as int),
            ),
        decreases self@.len() - from,
    {
        proof {
            use_type_invariant(self);
        }
        let ghost found = results.deep_view();
        let ghost path = buffer@;
        if from == self.nodes.len() - 1 {
            let word = string_of(buffer.as_slice());
            results.push(word);
            return ;
        }
        let edges = &self.nodes[from];
        let mut k: usize = 0;
        while k < edges.len()
            invariant
                k <= edges.len(),
                from < self@.len() - 1,
                self@.len() == self.nodes.len(),
                edges@ == self@[from as int],
                leads_forward(self@),
                buffer@ == path,
                results.deep_view() == found + prefix_each(
                    path,
                    paths_along(self@, from as int, edges@.take(k as int)),
                ),
            decreases edges.len() - k,
        {
            let edge = edges[k];
            let ghost earlier = paths_along(self@, from as int, edges@.take(k as int));
            let ghost onward = paths_from(self@, edge.target as int);
            proof {
                let taken = edges@.take(k + 1);
                assert(taken.drop_last() =~= edges@.take(k as int));
            }
            buffer.push(edge.symbol);
            self.walk(edge.target, buffer, results);
            buffer.pop();
            proof {
                assert(path.push(edge.symbol) =~= path + seq![edge.symbol]);
                lemma_prefix_each_twice(path, seq![edge.symbol], onward);
                lemma_prefix_each_concat(path, earlier, prefix_each(seq![edge.symbol], onward));
            }
            k += 1;
        }
        assert(edges@.take(edges@.len() as int) =~= edges@);
    }
}

} // verus!
