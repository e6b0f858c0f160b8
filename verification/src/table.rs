//! The token table: which symbol a token stands for, how long tokens get,
//! and which characters occur in them.

use crate::config::Config;
use crate::error::ParseError;
use crate::text::chars_of;
use vstd::prelude::*;
use vstd::seq_lib::lemma_seq_contains_after_push;

verus! {

/// The symbol of each token of `pairs`. Where a token occurs more than once,
/// its last pair decides.
pub open spec fn token_symbols(pairs: Seq<(Seq<char>, char)>) -> Map<Seq<char>, char>
    decreases pairs.len(),
{
    if pairs.len() == 0 {
        Map::empty()
    } else {
        token_symbols(pairs.drop_last()).insert(pairs.last().0, pairs.last().1)
    }
}

/// The symbol that `token` stands for in `symbols`.
pub open spec fn symbol_of(symbols: Map<Seq<char>, char>, token: Seq<char>) -> char
    recommends
        symbols.dom().contains(token),
{
    symbols[token]
}

/// The length of the longest token of `pairs`, and 0 where there is none.
pub open spec fn longest_token(pairs: Seq<(Seq<char>, char)>) -> nat
    decreases pairs.len(),
{
    if pairs.len() == 0 {
        0
    } else {
        let rest = longest_token(pairs.drop_last());
        if pairs.last().0.len() > rest {
            pairs.last().0.len()
        } else {
            rest
        }
    }
}

/// Whether `c` occurs in some token of `pairs`.
pub open spec fn in_alphabet(pairs: Seq<(Seq<char>, char)>, c: char) -> bool {
    exists|i: int| 0 <= i < pairs.len() && (#[trigger] pairs[i]).0.contains(c)
}

/// Whether every character of `digits` occurs in some token of `pairs`.
pub open spec fn all_in_alphabet(pairs: Seq<(Seq<char>, char)>, digits: Seq<char>) -> bool {
    forall|k: int| 0 <= k < digits.len() ==> in_alphabet(pairs, #[trigger] digits[k])
}

/// Whether `digits[k]` is the first character of `digits` that occurs in no
/// token of `pairs`.
pub open spec fn first_invalid_at(
    pairs: Seq<(Seq<char>, char)>,
    digits: Seq<char>,
    k: int,
) -> bool {
    &&& 0 <= k < digits.len()
    &&& !in_alphabet(pairs, digits[k])
    &&& forall|j: int| 0 <= j < k ==> in_alphabet(pairs, #[trigger] digits[j])
}

/// A token that no pair holds is not in the symbol map.
pub proof fn lemma_token_absent(pairs: Seq<(Seq<char>, char)>, token: Seq<char>)
    requires
        forall|j: int| 0 <= j < pairs.len() ==> (#[trigger] pairs[j]).0 != token,
    ensures
        !token_symbols(pairs).dom().contains(token),
    decreases pairs.len(),
{
    if pairs.len() > 0 {
        lemma_token_absent(pairs.drop_last(), token);
    }
}

/// A token has the symbol of the last pair that holds it.
pub proof fn lemma_token_present(pairs: Seq<(Seq<char>, char)>, token: Seq<char>, i: int)
    requires
        0 <= i < pairs.len(),
        pairs[i].0 == token,
        forall|j: int| i < j < pairs.len() ==> (#[trigger] pairs[j]).0 != token,
    ensures
        token_symbols(pairs).dom().contains(token),
        token_symbols(pairs)[token] == pairs[i].1,
    decreases pairs.len(),
{
    if i < pairs.len() - 1 {
        lemma_token_present(pairs.drop_last(), token, i);
    }
}

/// No token of `pairs` is longer than the longest, and one of them is as
/// long, where there is any.
pub proof fn lemma_longest_token(pairs: Seq<(Seq<char>, char)>)
    ensures
        forall|i: int|
            0 <= i < pairs.len() ==> (#[trigger] pairs[i]).0.len() <= longest_token(pairs),
        pairs.len() > 0 ==> exists|i: int|
            0 <= i < pairs.len() && (#[trigger] pairs[i]).0.len() == longest_token(pairs),
        pairs.len() == 0 ==> longest_token(pairs) == 0,
    decreases pairs.len(),
{
    if pairs.len() > 0 {
        let front = pairs.drop_last();
        lemma_longest_token(front);
        assert forall|i: int| 0 <= i < pairs.len() implies (#[trigger] pairs[i]).0.len()
            <= longest_token(pairs) by {
            if i < front.len() {
                assert(front[i] == pairs[i]);
            }
        }
        if pairs.last().0.len() > longest_token(front) || front.len() == 0 {
            assert(pairs[pairs.len() - 1].0.len() == longest_token(pairs));
        } else {
            let i = choose|i: int|
                0 <= i < front.len() && (#[trigger] front[i]).0.len() == longest_token(front);
            assert(pairs[i] == front[i]);
        }
    }
}

/// No token of the symbol map is longer than the longest token.
pub proof fn lemma_token_length(pairs: Seq<(Seq<char>, char)>, token: Seq<char>)
    requires
        token_symbols(pairs).dom().contains(token),
    ensures
        token.len() <= longest_token(pairs),
    decreases pairs.len(),
{
    if pairs.len() > 0 && pairs.last().0 != token {
        lemma_token_length(pairs.drop_last(), token);
    }
}

/// One pair more adds the characters of its token to the alphabet, and
/// nothing else.
proof fn lemma_alphabet_push(pairs: Seq<(Seq<char>, char)>, pair: (Seq<char>, char), c: char)
    ensures
        in_alphabet(pairs.push(pair), c) <==> in_alphabet(pairs, c) || pair.0.contains(c),
{
    let more = pairs.push(pair);
    if in_alphabet(pairs, c) {
        let i = choose|i: int| 0 <= i < pairs.len() && (#[trigger] pairs[i]).0.contains(c);
        assert(more[i].0.contains(c));
    }
    if pair.0.contains(c) {
        assert(more[pairs.len() as int].0.contains(c));
    }
    if in_alphabet(more, c) {
        let i = choose|i: int| 0 <= i < more.len() && (#[trigger] more[i]).0.contains(c);
        if i < pairs.len() {
        }
    }
}

/// The pairs that `entries` hold, in order.
spec fn entries_view(entries: Seq<(Vec<char>, char)>) -> Seq<(Seq<char>, char)> {
    Seq::new(entries.len(), |i: int| (entries[i].0@, entries[i].1))
}

/// Whether `a` and `b` hold the same characters.
fn chars_equal(a: &[char], b: &[char]) -> (equal: bool)
    ensures
        equal == (a@ == b@),
{
    if a.len() != b.len() {
        return false;
    }
    let mut i: usize = 0;
    while i < a.len()
        invariant
            i <= a.len(),
            a.len() == b.len(),
            a@.take(i as int) == b@.take(i as int),
        decreases a.len() - i,
    {
        if a[i] != b[i] {
            return false;
        }
        assert(b@.take(i + 1) =~= b@.take(i as int).push(b@[i as int]));
        i += 1;
    }
    assert(a@ =~= a@.take(a.len() as int));
    assert(b@ =~= b@.take(b.len() as int));
    true
}

/// Whether `c` is among `chars`.
fn holds_char(chars: &Vec<char>, c: char) -> (found: bool)
    ensures
        found == chars@.contains(c),
{
    let mut i: usize = 0;
    while i < chars.len()
        invariant
            i <= chars.len(),
            forall|j: int| 0 <= j < i ==> chars@[j] != c,
        decreases chars.len() - i,
    {
        if chars[i] == c {
            return true;
        }
        i += 1;
    }
    false
}

/// Adds to `alphabet` the characters of `token` that it does not hold yet.
fn add_chars(alphabet: &mut Vec<char>, token: &Vec<char>)
    ensures
        forall|c: char|
            final(alphabet)@.contains(c) <==> old(alphabet)@.contains(c) || token@.contains(c),
{
    let ghost start = alphabet@;
    let mut j: usize = 0;
    assert(token@.take(0) =~= Seq::<char>::empty());
    while j < token.len()
        invariant
            j <= token.len(),
            forall|c: char|
                alphabet@.contains(c) <==> start.contains(c) || token@.take(j as int).contains(c),
        decreases token.len() - j,
    {
        let c = token[j];
        let ghost before = alphabet@;
        let known = holds_char(alphabet, c);
        if !known {
            alphabet.push(c);
        }
        proof {
            let seen = token@.take(j as int);
            assert(known == before.contains(c));
            assert(forall|d: char| before.contains(d) <==> start.contains(d) || seen.contains(d));
            let next = token@.take(j + 1);
            assert(next =~= seen.push(c));
            assert forall|d: char|
                alphabet@.contains(d) <==> start.contains(d) || next.contains(d) by {
                lemma_seq_contains_after_push(seen, c, d);
                lemma_seq_contains_after_push(before, c, d);
            }
        }
        j += 1;
    }
    assert(token@.take(token.len() as int) =~= token@);
}

/// A token table, built once from a configuration and not changed after.
pub struct Table {
    /// The pairs of the configuration, in its order.
    entries: Vec<(Vec<char>, char)>,
    /// The characters that occur in the tokens, each once.
    alphabet: Vec<char>,
    /// The length of the longest token.
    max_lookahead: usize,
}

impl View for Table {
    type V = Seq<(Seq<char>, char)>;

    /// The configuration that the table was built from.
    closed spec fn view(&self) -> Seq<(Seq<char>, char)> {
        entries_view(self.entries@)
    }
}

impl Table {
    #[verifier::type_invariant]
    spec fn well_formed(&self) -> bool {
        &&& self.max_lookahead == longest_token(self@)
        &&& forall|c: char| self.alphabet@.contains(c) <==> in_alphabet(self@, c)
    }

    /// Builds the table of `config`. Where `config` holds a token more than
    /// once, the last of its pairs decides what the token stands for.
    pub fn new(config: &Config) -> (table: Table)
        ensures
            table@ == config.deep_view(),
    {
        let ghost pairs = config.deep_view();
        let mut entries: Vec<(Vec<char>, char)> = Vec::new();
        let mut alphabet: Vec<char> = Vec::new();
        let mut max_lookahead: usize = 0;
        let mut i: usize = 0;
        while i < config.len()
            invariant
                i <= config.len(),
                pairs == config.deep_view(),
                entries_view(entries@) == pairs.take(i as int),
                max_lookahead == longest_token(pairs.take(i as int)),
                forall|c: char| alphabet@.contains(c) <==> in_alphabet(pairs.take(i as int), c),
            decreases config.len() - i,
        {
            let token = chars_of(config[i].0.as_str());
            let symbol = config[i].1;
            proof {
                let seen = pairs.take(i as int);
                let next = pairs.take(i + 1);
                assert(pairs[i as int] == (token@, symbol));
                assert(next =~= seen.push(pairs[i as int]));
                assert(next.drop_last() =~= seen);
                assert forall|c: char|
                    in_alphabet(next, c) <==> in_alphabet(seen, c) || token@.contains(c) by {
                    lemma_alphabet_push(seen, pairs[i as int], c);
                }
            }
            if token.len() > max_lookahead {
                max_lookahead = token.len();
            }
            add_chars(&mut alphabet, &token);
            entries.push((token, symbol));
            i += 1;
        }
        Table { entries, alphabet, max_lookahead }
    }

    /// The length of the longest token, which bounds how far a parser looks
    /// ahead.
    pub fn max_lookahead(&self) -> (len: usize)
        ensures
            len == longest_token(self@),
    {
        proof {
            use_type_invariant(self);
        }
        self.max_lookahead
    }

    /// The symbol that `token` stands for, if it is a token of the table.
    pub fn lookup(&self, token: &[char]) -> (symbol: Option<char>)
        ensures
            match symbol {
                Some(c) => token_symbols(self@).dom().contains(token@) && c == symbol_of(
                    token_symbols(self@),
                    token@,
                ),
                None => !token_symbols(self@).dom().contains(token@),
            },
    {
        let mut i: usize = self.entries.len();
        while i > 0
            invariant
                i <= self.entries.len(),
                forall|j: int| i <= j < self.entries.len() ==> (#[trigger] self@[j]).0 != token@,
            decreases i,
        {
            i -= 1;
            if chars_equal(self.entries[i].0.as_slice(), token) {
                proof {
                    lemma_token_present(self@, token@, i as int);
                }
                return Some(self.entries[i].1);
            }
        }
        proof {
            lemma_token_absent(self@, token@);
        }
        None
    }

    /// Checks that every character of `digits` occurs in some token, and
    /// names the first that does not.
    pub fn validate(&self, digits: &[char]) -> (checked: Result<(), ParseError>)
        ensures
            match checked {
                Ok(_) => all_in_alphabet(self@, digits@),
                Err(ParseError::InvalidCharacter(c)) => exists|k: int|
                    first_invalid_at(self@, digits@, k) && digits@[k] == c,
            },
    {
        proof {
            use_type_invariant(self);
        }
        let mut k: usize = 0;
        while k < digits.len()
            invariant
                k <= digits.len(),
                forall|c: char| self.alphabet@.contains(c) <==> in_alphabet(self@, c),
                forall|j: int| 0 <= j < k ==> in_alphabet(self@, #[trigger] digits@[j]),
            decreases digits.len() - k,
        {
            if !holds_char(&self.alphabet, digits[k]) {
                return Err(ParseError::InvalidCharacter(digits[k]));
            }
            k += 1;
        }
        Ok(())
    }
}

} // verus!
