//! Partitions: the ways to cut a digit string into tokens. The words of a
//! digit string are the decodings of its partitions, one word for each.

use crate::decoding::{decodings, decodings_up_to, decodings_with_first};
use crate::table::symbol_of;
use vstd::prelude::*;

verus! {

/// Whether `cuts` is a partition of `digits`: the lengths of consecutive
/// tokens of `symbols` that together make up `digits`.
pub open spec fn is_partition(
    symbols: Map<Seq<char>, char>,
    digits: Seq<char>,
    cuts: Seq<int>,
) -> bool
    decreases cuts.len(),
{
    if cuts.len() == 0 {
        digits.len() == 0
    } else {
        &&& 1 <= cuts[0] <= digits.len()
        &&& symbols.dom().contains(digits.take(cuts[0]))
        &&& is_partition(symbols, digits.skip(cuts[0]), cuts.drop_first())
    }
}

/// The word of a partition: the symbol of each of its tokens, in order.
pub open spec fn decoded(symbols: Map<Seq<char>, char>, digits: Seq<char>, cuts: Seq<int>) -> Seq<
    char,
>
    decreases cuts.len(),
{
    if cuts.len() == 0 {
        Seq::empty()
    } else {
        seq![symbol_of(symbols, digits.take(cuts[0]))] + decoded(
            symbols,
            digits.skip(cuts[0]),
            cuts.drop_first(),
        )
    }
}

/// Each of `tails`, with `first` in front of it.
pub open spec fn lead_each(first: int, tails: Seq<Seq<int>>) -> Seq<Seq<int>> {
    Seq::new(tails.len(), |i: int| seq![first] + tails[i])
}

/// The partitions of `digits` whose first token has `len` digits.
pub open spec fn partitions_with_first(
    symbols: Map<Seq<char>, char>,
    digits: Seq<char>,
    len: int,
) -> Seq<Seq<int>>
    decreases digits.len(), 0int, 0int,
{
    if 1 <= len <= digits.len() && symbols.dom().contains(digits.take(len)) {
        lead_each(len, partitions(symbols, digits.skip(len)))
    } else {
        Seq::empty()
    }
}

/// The partitions of `digits` whose first token has at most `len` digits.
pub open spec fn partitions_up_to(
    symbols: Map<Seq<char>, char>,
    digits: Seq<char>,
    len: int,
) -> Seq<Seq<int>>
    decreases digits.len(), 1int, len,
{
    if len <= 0 {
        Seq::empty()
    } else {
        partitions_up_to(symbols, digits, len - 1) + partitions_with_first(symbols, digits, len)
    }
}

/// The partitions of `digits`, in the order of the words that they decode
/// to.
pub open spec fn partitions(symbols: Map<Seq<char>, char>, digits: Seq<char>) -> Seq<Seq<int>>
    decreases digits.len(), 2int, 0int,
{
    if digits.len() == 0 {
        seq![Seq::empty()]
    } else {
        partitions_up_to(symbols, digits, digits.len() as int)
    }
}

/// Whether `listed` and `words` go together item by item: each of `listed`
/// is a partition of `digits` with a first token of at least `low` and at
/// most `high` digits, and the word at its place in `words` is its
/// decoding.
pub open spec fn decode_one_for_one(
    symbols: Map<Seq<char>, char>,
    digits: Seq<char>,
    listed: Seq<Seq<int>>,
    words: Seq<Seq<char>>,
    low: int,
    high: int,
) -> bool {
    &&& listed.len() == words.len()
    &&& forall|i: int|
        0 <= i < listed.len() ==> {
            let cuts = #[trigger] listed[i];
            &&& cuts.len() > 0
            &&& low <= cuts[0] <= high
            &&& is_partition(symbols, digits, cuts)
            &&& decoded(symbols, digits, cuts) == words[i]
        }
}

/// The partitions with a first token of `len` digits decode, one for one,
/// to the words with that first token.
pub proof fn lemma_with_first_decodes(
    symbols: Map<Seq<char>, char>,
    digits: Seq<char>,
    len: int,
)
    ensures
        decode_one_for_one(
            symbols,
            digits,
            partitions_with_first(symbols, digits, len),
            decodings_with_first(symbols, digits, len),
            len,
            len,
        ),
    decreases digits.len(), 0int, 0int,
{
    if 1 <= len <= digits.len() && symbols.dom().contains(digits.take(len)) {
        let rest = digits.skip(len);
        let tails = partitions(symbols, rest);
        let listed = partitions_with_first(symbols, digits, len);
        let words = decodings_with_first(symbols, digits, len);
        lemma_partitions_decode(symbols, rest);
        assert forall|i: int| 0 <= i < listed.len() implies {
            let cuts = #[trigger] listed[i];
            &&& cuts.len() > 0
            &&& len <= cuts[0] <= len
            &&& is_partition(symbols, digits, cuts)
            &&& decoded(symbols, digits, cuts) == words[i]
        } by {
            let cuts = listed[i];
            assert(cuts.drop_first() =~= tails[i]);
        }
    }
}

/// The partitions with a first token of at most `len` digits decode, one
/// for one, to the words with such a first token.
pub proof fn lemma_up_to_decodes(symbols: Map<Seq<char>, char>, digits: Seq<char>, len: int)
    ensures
        decode_one_for_one(
            symbols,
            digits,
            partitions_up_to(symbols, digits, len),
            decodings_up_to(symbols, digits, len),
            1,
            len,
        ),
    decreases digits.len(), 1int, len,
{
    if len > 0 {
        lemma_up_to_decodes(symbols, digits, len - 1);
        lemma_with_first_decodes(symbols, digits, len);
        let shorter = partitions_up_to(symbols, digits, len - 1);
        let longest = partitions_with_first(symbols, digits, len);
        let listed = partitions_up_to(symbols, digits, len);
        assert forall|i: int| 0 <= i < listed.len() implies {
            let cuts = #[trigger] listed[i];
            &&& cuts.len() > 0
            &&& 1 <= cuts[0] <= len
            &&& is_partition(symbols, digits, cuts)
            &&& decoded(symbols, digits, cuts) == decodings_up_to(symbols, digits, len)[i]
        } by {
            if i < shorter.len() {
                assert(listed[i] == shorter[i]);
            } else {
                assert(listed[i] == longest[i - shorter.len()]);
            }
        }
    }
}

/// The words of a digit string are the decodings of its partitions, one for
/// one: there are as many words as partitions, each listed item is a
/// partition, and the word at its place is its decoding.
pub proof fn lemma_partitions_decode(symbols: Map<Seq<char>, char>, digits: Seq<char>)
    ensures
        partitions(symbols, digits).len() == decodings(symbols, digits).len(),
        forall|i: int|
            0 <= i < partitions(symbols, digits).len() ==> {
                let cuts = #[trigger] partitions(symbols, digits)[i];
                &&& is_partition(symbols, digits, cuts)
                &&& decoded(symbols, digits, cuts) == decodings(symbols, digits)[i]
            },
    decreases digits.len(), 2int, 0int,
{
    if digits.len() > 0 {
        lemma_up_to_decodes(symbols, digits, digits.len() as int);
    }
}

/// A partition that begins with a token of `len` digits is among the
/// partitions whose first token has at most `bound` digits, for every
/// `bound` from `len` on.
pub proof fn lemma_with_first_is_listed(
    symbols: Map<Seq<char>, char>,
    digits: Seq<char>,
    len: int,
    bound: int,
    cuts: Seq<int>,
)
    requires
        1 <= len <= bound,
        partitions_with_first(symbols, digits, len).contains(cuts),
    ensures
        partitions_up_to(symbols, digits, bound).contains(cuts),
    decreases bound - len,
{
    let shorter = partitions_up_to(symbols, digits, bound - 1);
    let longest = partitions_with_first(symbols, digits, bound);
    if len < bound {
        lemma_with_first_is_listed(symbols, digits, len, bound - 1, cuts);
        let i = choose|i: int| 0 <= i < shorter.len() && shorter[i] == cuts;
        assert((shorter + longest)[i] == cuts);
    } else {
        let i = choose|i: int| 0 <= i < longest.len() && longest[i] == cuts;
        assert((shorter + longest)[shorter.len() + i] == cuts);
    }
}

/// Every partition of a digit string is listed among its partitions.
pub proof fn lemma_partition_is_listed(
    symbols: Map<Seq<char>, char>,
    digits: Seq<char>,
    cuts: Seq<int>,
)
    requires
        is_partition(symbols, digits, cuts),
    ensures
        partitions(symbols, digits).contains(cuts),
    decreases cuts.len(),
{
    if cuts.len() == 0 {
        assert(partitions(symbols, digits)[0] == cuts);
    } else {
        let len = cuts[0];
        let rest = digits.skip(len);
        let tail = cuts.drop_first();
        lemma_partition_is_listed(symbols, rest, tail);
        let tails = partitions(symbols, rest);
        let i = choose|i: int| 0 <= i < tails.len() && tails[i] == tail;
        assert(partitions_with_first(symbols, digits, len)[i] == cuts);
        lemma_with_first_is_listed(symbols, digits, len, digits.len() as int, cuts);
    }
}

/// No partition is listed twice among those with a first token of `len`
/// digits.
pub proof fn lemma_with_first_distinct(symbols: Map<Seq<char>, char>, digits: Seq<char>, len: int)
    ensures
        partitions_with_first(symbols, digits, len).no_duplicates(),
    decreases digits.len(), 0int, 0int,
{
    if 1 <= len <= digits.len() && symbols.dom().contains(digits.take(len)) {
        let tails = partitions(symbols, digits.skip(len));
        let listed = partitions_with_first(symbols, digits, len);
        lemma_partitions_distinct(symbols, digits.skip(len));
        assert forall|i: int, j: int|
            0 <= i < listed.len() && 0 <= j < listed.len() && i != j implies listed[i]
            != listed[j] by {
            assert(listed[i].drop_first() =~= tails[i]);
            assert(listed[j].drop_first() =~= tails[j]);
        }
    }
}

/// No partition is listed twice among those with a first token of at most
/// `len` digits.
pub proof fn lemma_up_to_distinct(symbols: Map<Seq<char>, char>, digits: Seq<char>, len: int)
    ensures
        partitions_up_to(symbols, digits, len).no_duplicates(),
    decreases digits.len(), 1int, len,
{
    if len > 0 {
        let shorter = partitions_up_to(symbols, digits, len - 1);
        let longest = partitions_with_first(symbols, digits, len);
        let listed = partitions_up_to(symbols, digits, len);
        lemma_up_to_distinct(symbols, digits, len - 1);
        lemma_with_first_distinct(symbols, digits, len);
        lemma_up_to_decodes(symbols, digits, len - 1);
        lemma_with_first_decodes(symbols, digits, len);
        assert forall|i: int, j: int|
            0 <= i < listed.len() && 0 <= j < listed.len() && i != j implies listed[i]
            != listed[j] by {
            // A partition of `shorter` begins with a shorter token than one
            // of `longest`.
            if i < shorter.len() {
                assert(listed[i] == shorter[i]);
            } else {
                assert(listed[i] == longest[i - shorter.len()]);
            }
            if j < shorter.len() {
                assert(listed[j] == shorter[j]);
            } else {
                assert(listed[j] == longest[j - shorter.len()]);
            }
        }
    }
}

/// No partition is listed twice: each way to cut the digits gives one word
/// of its own, also where two of them spell the same.
pub proof fn lemma_partitions_distinct(symbols: Map<Seq<char>, char>, digits: Seq<char>)
    ensures
        partitions(symbols, digits).no_duplicates(),
    decreases digits.len(), 2int, 0int,
{
    if digits.len() > 0 {
        lemma_up_to_distinct(symbols, digits, digits.len() as int);
    }
}

} // verus!
