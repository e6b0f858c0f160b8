//! Configurations: ordered lists of (token, symbol) pairs.

use vstd::prelude::*;

verus! {

/// A configuration: (token, symbol) pairs, in the order in which they were
/// given. Its mathematical form is `config.deep_view()`, a
/// `Seq<(Seq<char>, char)>`.
pub type Config = Vec<(String, char)>;

/// The character for the decimal digit `d`, for `d` below ten.
pub open spec fn digit_char(d: nat) -> char {
    ('0' as nat + d) as char
}

/// The decimal numeral of `n`, without leading zeros.
pub open spec fn decimal(n: nat) -> Seq<char>
    decreases n,
{
    if n < 10 {
        seq![digit_char(n)]
    } else {
        decimal(n / 10).push(digit_char(n % 10))
    }
}

/// The `i`-th capital letter, counted from zero.
pub open spec fn capital(i: nat) -> char {
    ('A' as nat + i) as char
}

/// The default configuration: the numerals `"1"` to `"26"`, mapped to the
/// letters `'A'` to `'Z'`.
pub open spec fn default_pairs() -> Seq<(Seq<char>, char)> {
    Seq::new(26, |i: int| (decimal((i + 1) as nat), capital(i as nat)))
}

/// Appends the decimal numeral of `n` to `text`.
fn push_decimal(text: &mut String, n: u8)
    ensures
        final(text)@ == old(text)@ + decimal(n as nat),
    decreases n,
{
    if n >= 10 {
        push_decimal(text, n / 10);
    }
    text.push(('0' as u8 + n % 10) as char);
}

/// The default configuration, which maps the numerals `"1"` to `"26"` to the
/// letters `'A'` to `'Z'`.
pub fn default_config() -> (config: Config)
    ensures
        config.deep_view() == default_pairs(),
{
    let mut config: Config = Vec::new();
    let mut i: u8 = 0;
    while i < 26
        invariant
            i <= 26,
            config.deep_view() == default_pairs().take(i as int),
        decreases 26 - i,
    {
        let mut token = String::new();
        push_decimal(&mut token, i + 1);
        let ghost before = config.deep_view();
        config.push((token, ('A' as u8 + i) as char));
        assert(config.deep_view() =~= before.push((decimal((i + 1) as nat), capital(i as nat))));
        i += 1;
    }
    config
}

} // verus!
