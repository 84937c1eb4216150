//! Splitting a venue-native symbol into base and quote currency.
use vstd::prelude::*;
use vstd::string::{StrSliceExecFns, StringExecFns};

verus! {

/// `suffix` ends `s`.
pub open spec fn ends_with(s: Seq<char>, suffix: Seq<char>) -> bool {
    suffix.len() <= s.len() && s.subrange(s.len() - suffix.len(), s.len() as int) == suffix
}

/// Split used when no rule matches: halves for a symbol longer than three
/// characters, else the whole symbol against USDT.
pub open spec fn split_fallback(s: Seq<char>) -> (Seq<char>, Seq<char>) {
    if s.len() > 3 {
        (s.take(s.len() as int / 2), s.skip(s.len() as int / 2))
    } else {
        (s, "USDT"@)
    }
}

/// Split at the first of `quotes` that ends `s`, else `split_fallback`.
pub open spec fn split_known_quote(s: Seq<char>, quotes: Seq<&str>) -> (Seq<char>, Seq<char>)
    decreases quotes.len(),
{
    if quotes.len() == 0 {
        split_fallback(s)
    } else if ends_with(s, quotes[0]@) {
        (s.take(s.len() - quotes[0]@.len()), quotes[0]@)
    } else {
        split_known_quote(s, quotes.drop_first())
    }
}

/// The position of the first `d` in `s`.
pub open spec fn first_index_of(s: Seq<char>, d: char) -> Option<int>
    decreases s.len(),
{
    if s.len() == 0 {
        None
    } else if s[0] == d {
        Some(0)
    } else {
        match first_index_of(s.drop_first(), d) {
            Some(k) => Some(k + 1),
            None => None,
        }
    }
}

/// Split around the first `d`, else the whole symbol against USDT.
pub open spec fn split_at_delimiter(s: Seq<char>, d: char) -> (Seq<char>, Seq<char>) {
    match first_index_of(s, d) {
        Some(k) => (s.take(k), s.skip(k + 1)),
        None => (s, "USDT"@),
    }
}

pub proof fn lemma_first_index_of(s: Seq<char>, d: char, k: int)
    requires
        0 <= k <= s.len(),
        forall|m: int| 0 <= m < k ==> s[m] != d,
    ensures
        k < s.len() && s[k] == d ==> first_index_of(s, d) == Some(k),
        k == s.len() ==> first_index_of(s, d) is None,
    decreases k,
{
    if k > 0 {
        lemma_first_index_of(s.drop_first(), d, k - 1);
    }
}

fn has_suffix(s: &str, suffix: &str) -> (r: bool)
    ensures
        r == ends_with(s@, suffix@),
{
    let n = s.unicode_len();
    let m = suffix.unicode_len();
    if m > n {
        return false;
    }
    let mut k: usize = 0;
    while k < m
        invariant
            n == s@.len(),
            m == suffix@.len(),
            m <= n,
            0 <= k <= m,
            forall|t: int| 0 <= t < k ==> s@[n - m + t] == suffix@[t],
        decreases m - k,
    {
        if s.get_char(n - m + k) != suffix.get_char(k) {
            assert(s@.subrange(n - m, n as int)[k as int] != suffix@[k as int]);
            return false;
        }
        k = k + 1;
    }
    assert(s@.subrange(n - m, n as int) =~= suffix@);
    true
}

fn fallback_split(symbol: &str) -> (r: (String, String))
    ensures
        (r.0@, r.1@) == split_fallback(symbol@),
{
    let n = symbol.unicode_len();
    if n > 3 {
        let mid = n / 2;
        (
            String::from_str(symbol.substring_char(0, mid)),
            String::from_str(symbol.substring_char(mid, n)),
        )
    } else {
        (String::from_str(symbol), String::from_str("USDT"))
    }
}

/// Splits `symbol` at the first of `quotes` that ends it; without one, falls
/// back to `split_fallback`.
pub fn split_by_known_quote(symbol: &str, quotes: &[&str]) -> (r: (String, String))
    ensures
        (r.0@, r.1@) == split_known_quote(symbol@, quotes@),
{
    let mut k: usize = 0;
    assert(quotes@.skip(0) =~= quotes@);
    while k < quotes.len()
        invariant
            0 <= k <= quotes@.len(),
            split_known_quote(symbol@, quotes@) == split_known_quote(
                symbol@,
                quotes@.skip(k as int),
            ),
        decreases quotes@.len() - k,
    {
        let quote = quotes[k];
        assert(quotes@.skip(k as int)[0] == quote);
        assert(quotes@.skip(k as int).drop_first() =~= quotes@.skip(k + 1));
        if has_suffix(symbol, quote) {
            let n = symbol.unicode_len();
            let m = quote.unicode_len();
            return (String::from_str(symbol.substring_char(0, n - m)), String::from_str(quote));
        }
        k = k + 1;
    }
    assert(quotes@.skip(k as int).len() == 0);
    fallback_split(symbol)
}

/// Splits `symbol` around the first `delimiter`; without one, the whole symbol
/// is the base currency and USDT the quote currency.
pub fn split_by_delimiter(symbol: &str, delimiter: char) -> (r: (String, String))
    ensures
        (r.0@, r.1@) == split_at_delimiter(symbol@, delimiter),
{
    let n = symbol.unicode_len();
    let mut k: usize = 0;
    while k < n
        invariant
            n == symbol@.len(),
            0 <= k <= n,
            forall|m: int| 0 <= m < k ==> symbol@[m] != delimiter,
        decreases n - k,
    {
        if symbol.get_char(k) == delimiter {
            proof {
                lemma_first_index_of(symbol@, delimiter, k as int);
            }
            return (
                String::from_str(symbol.substring_char(0, k)),
                String::from_str(symbol.substring_char(k + 1, n)),
            );
        }
        k = k + 1;
    }
    proof {
        lemma_first_index_of(symbol@, delimiter, k as int);
    }
    (String::from_str(symbol), String::from_str("USDT"))
}

} // verus!
