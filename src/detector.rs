//! The detection pass: index the batch, enumerate closing cycles, evaluate
//! each one, and rank those that clear the threshold.
use vstd::prelude::*;
use vstd::hash_map::StringHashMap;
use vstd::string::StringExecFns;
use crate::market::{MAX_PRICE, Ticker, TriangularArbitrageOpportunity, prices_valid};
use crate::profit::{
    ESTIMATED_FEES,
    buy_closing_gross,
    buy_closing_profit,
    lemma_buy_gross_range,
    lemma_sell_gross_range,
    sell_closing_gross,
    sell_closing_profit,
};
use crate::ranking::{
    Candidate,
    Closing,
    MAX_RESULTS,
    insert_ranked,
    lemma_ranked_keeps_largest,
    lemma_ranked_push,
    lemma_sort_members,
    lemma_sort_sorted,
    ranked,
    sort_desc,
};

verus! {

/// The index of the last of the first `n` tickers whose symbol is `sym`.
pub open spec fn last_with_symbol_upto(ts: Seq<Ticker>, n: int, sym: Seq<char>) -> Option<int>
    decreases n,
{
    if n <= 0 {
        None
    } else if ts[n - 1].symbol@ == sym {
        Some(n - 1)
    } else {
        last_with_symbol_upto(ts, n - 1, sym)
    }
}

/// The symbol index: the last ticker of the batch with symbol `sym`, as later
/// entries overwrite earlier ones.
pub open spec fn last_with_symbol(ts: Seq<Ticker>, sym: Seq<char>) -> Option<int> {
    last_with_symbol_upto(ts, ts.len() as int, sym)
}

/// Intermediate currency followed by the first leg's base currency.
pub open spec fn reverse_symbol(ts: Seq<Ticker>, i: int, j: int) -> Seq<char> {
    ts[j].base_currency@ + ts[i].base_currency@
}

/// The first leg's base currency followed by the intermediate currency.
pub open spec fn forward_symbol(ts: Seq<Ticker>, i: int, j: int) -> Seq<char> {
    ts[i].base_currency@ + ts[j].base_currency@
}

pub open spec fn make_candidate(i: int, j: int, k: int, closing: Closing, gross: int) -> Candidate {
    Candidate {
        first: i as usize,
        second: j as usize,
        third: k as usize,
        closing,
        gross: gross as i128,
        net: (gross - ESTIMATED_FEES) as i128,
    }
}

/// The cycle with first leg `i` and second leg `j`, if the two legs share
/// their quote currency and a closing leg exists; the reverse closing symbol
/// is tried first.
pub open spec fn cycle_at(ts: Seq<Ticker>, i: int, j: int) -> Option<Candidate> {
    if ts[i].quote_currency@ != ts[j].quote_currency@ {
        None
    } else {
        match last_with_symbol(ts, reverse_symbol(ts, i, j)) {
            Some(k) => Some(
                make_candidate(
                    i,
                    j,
                    k,
                    Closing::Sell,
                    sell_closing_gross(
                        ts[i].ask_price as int,
                        ts[j].ask_price as int,
                        ts[k].bid_price as int,
                    ),
                ),
            ),
            None => match last_with_symbol(ts, forward_symbol(ts, i, j)) {
                Some(k) => Some(
                    make_candidate(
                        i,
                        j,
                        k,
                        Closing::Buy,
                        buy_closing_gross(
                            ts[i].ask_price as int,
                            ts[j].ask_price as int,
                            ts[k].ask_price as int,
                        ),
                    ),
                ),
                None => None,
            },
        }
    }
}

/// The cycle at `(i, j)` if its net profit strictly exceeds `min_profit`.
pub open spec fn qualifying(ts: Seq<Ticker>, i: int, j: int, min_profit: int) -> Option<Candidate> {
    match cycle_at(ts, i, j) {
        Some(c) => if c.net > min_profit {
            Some(c)
        } else {
            None
        },
        None => None,
    }
}

/// Qualifying cycles with first leg `i` and second leg among the first `n`
/// tickers, in batch order.
pub open spec fn found_in_row(ts: Seq<Ticker>, i: int, n: int, min_profit: int) -> Seq<Candidate>
    decreases n,
{
    if n <= 0 {
        Seq::empty()
    } else {
        match qualifying(ts, i, n - 1, min_profit) {
            Some(c) => found_in_row(ts, i, n - 1, min_profit).push(c),
            None => found_in_row(ts, i, n - 1, min_profit),
        }
    }
}

/// Qualifying cycles whose first leg is among the first `n` tickers, in
/// discovery order.
pub open spec fn found_upto(ts: Seq<Ticker>, n: int, min_profit: int) -> Seq<Candidate>
    decreases n,
{
    if n <= 0 {
        Seq::empty()
    } else {
        found_upto(ts, n - 1, min_profit) + found_in_row(ts, n - 1, ts.len() as int, min_profit)
    }
}

/// Every qualifying cycle of the batch, in discovery order.
pub open spec fn found(ts: Seq<Ticker>, min_profit: int) -> Seq<Candidate> {
    found_upto(ts, ts.len() as int, min_profit)
}

/// The cycles a detection pass reports, best first.
pub open spec fn detected(ts: Seq<Ticker>, min_profit: int) -> Seq<Candidate> {
    ranked(found(ts, min_profit))
}

/// The currencies of a cycle: base, quote, intermediate, base.
pub open spec fn path_of(ts: Seq<Ticker>, c: Candidate) -> Seq<char> {
    ts[c.first as int].base_currency@ + " → "@ + ts[c.first as int].quote_currency@ + " → "@
        + ts[c.second as int].base_currency@ + " → "@ + ts[c.first as int].base_currency@
}

/// The symbols of a cycle's three legs, in evaluation order.
pub open spec fn pairs_of(ts: Seq<Ticker>, c: Candidate) -> Seq<char> {
    ts[c.first as int].symbol@ + ", "@ + ts[c.second as int].symbol@ + ", "@
        + ts[c.third as int].symbol@
}

/// `o` reports cycle `c` of batch `ts`, found on venue `exchange`.
pub open spec fn describes(
    o: TriangularArbitrageOpportunity,
    ts: Seq<Ticker>,
    exchange: Seq<char>,
    c: Candidate,
) -> bool {
    &&& o.exchange@ == exchange
    &&& o.path@ == path_of(ts, c)
    &&& o.pairs@ == pairs_of(ts, c)
    &&& o.gross_profit_percentage == c.gross
    &&& o.estimated_fees == ESTIMATED_FEES
    &&& o.net_profit_percentage == c.net
}

/// `r` reports, in order, the cycles that a pass over `ts` with threshold
/// `min_profit` detects on venue `exchange`.
pub open spec fn reports(
    r: Seq<TriangularArbitrageOpportunity>,
    ts: Seq<Ticker>,
    exchange: Seq<char>,
    min_profit: int,
) -> bool {
    &&& r.len() == detected(ts, min_profit).len()
    &&& forall|p: int|
        0 <= p < r.len() ==> describes(#[trigger] r[p], ts, exchange, detected(ts, min_profit)[p])
}

/// Two passes over the same batch with the same threshold report the same
/// paths with the same gross profits, in the same order; only identifiers and
/// timestamps may differ.
pub proof fn lemma_detection_deterministic(
    ts: Seq<Ticker>,
    exchange: Seq<char>,
    min_profit: int,
    r1: Seq<TriangularArbitrageOpportunity>,
    r2: Seq<TriangularArbitrageOpportunity>,
)
    requires
        reports(r1, ts, exchange, min_profit),
        reports(r2, ts, exchange, min_profit),
    ensures
        r1.len() == r2.len(),
        forall|p: int|
            0 <= p < r1.len() ==> #[trigger] r1[p].path@ == r2[p].path@
                && r1[p].gross_profit_percentage == r2[p].gross_profit_percentage,
{
    assert forall|p: int| 0 <= p < r1.len() implies #[trigger] r1[p].path@ == r2[p].path@
        && r1[p].gross_profit_percentage == r2[p].gross_profit_percentage by {
        assert(describes(r1[p], ts, exchange, detected(ts, min_profit)[p]));
        assert(describes(r2[p], ts, exchange, detected(ts, min_profit)[p]));
    }
}

/// A reported cycle clears the threshold, its net profit is its gross profit
/// less the fees, and its legs are tickers of the batch.
pub open spec fn qualifies(ts: Seq<Ticker>, c: Candidate, min_profit: int) -> bool {
    &&& c.net > min_profit
    &&& c.net == c.gross - ESTIMATED_FEES
    &&& c.first < ts.len()
    &&& c.second < ts.len()
    &&& c.third < ts.len()
}

proof fn lemma_last_with_symbol_range(ts: Seq<Ticker>, n: int, sym: Seq<char>)
    ensures
        last_with_symbol_upto(ts, n, sym) matches Some(k) ==> 0 <= k < n,
    decreases n,
{
    if n > 0 {
        lemma_last_with_symbol_range(ts, n - 1, sym);
    }
}

proof fn lemma_cycle_qualifies(ts: Seq<Ticker>, i: int, j: int, min_profit: int)
    requires
        0 <= i < ts.len(),
        0 <= j < ts.len(),
        ts.len() <= usize::MAX,
        prices_valid(ts),
    ensures
        qualifying(ts, i, j, min_profit) matches Some(c) ==> qualifies(ts, c, min_profit),
{
    lemma_last_with_symbol_range(ts, ts.len() as int, reverse_symbol(ts, i, j));
    lemma_last_with_symbol_range(ts, ts.len() as int, forward_symbol(ts, i, j));
    assert(ts[i].ask_price > 0 && ts[j].ask_price > 0);
    match last_with_symbol(ts, reverse_symbol(ts, i, j)) {
        Some(k) => {
            assert(ts[k].ask_price > 0 && ts[k].bid_price <= MAX_PRICE);
            lemma_sell_gross_range(
                ts[i].ask_price as int,
                ts[j].ask_price as int,
                ts[k].bid_price as int,
            );
        },
        None => match last_with_symbol(ts, forward_symbol(ts, i, j)) {
            Some(k) => {
                assert(ts[k].ask_price > 0);
                lemma_buy_gross_range(
                    ts[i].ask_price as int,
                    ts[j].ask_price as int,
                    ts[k].ask_price as int,
                );
            },
            None => {},
        },
    }
}

proof fn lemma_found_qualifies(ts: Seq<Ticker>, n: int, min_profit: int)
    requires
        0 <= n <= ts.len(),
        ts.len() <= usize::MAX,
        prices_valid(ts),
    ensures
        forall|p: int|
            0 <= p < found_upto(ts, n, min_profit).len() ==> qualifies(
                ts,
                #[trigger] found_upto(ts, n, min_profit)[p],
                min_profit,
            ),
    decreases n,
{
    if n > 0 {
        lemma_found_qualifies(ts, n - 1, min_profit);
        lemma_row_qualifies(ts, n - 1, ts.len() as int, min_profit);
        let a = found_upto(ts, n - 1, min_profit);
        let b = found_in_row(ts, n - 1, ts.len() as int, min_profit);
        assert forall|p: int| 0 <= p < (a + b).len() implies qualifies(
            ts,
            #[trigger] (a + b)[p],
            min_profit,
        ) by {
            if p >= a.len() {
                assert((a + b)[p] == b[p - a.len()]);
            }
        }
    }
}

proof fn lemma_row_qualifies(ts: Seq<Ticker>, i: int, n: int, min_profit: int)
    requires
        0 <= i < ts.len(),
        0 <= n <= ts.len(),
        ts.len() <= usize::MAX,
        prices_valid(ts),
    ensures
        forall|p: int|
            0 <= p < found_in_row(ts, i, n, min_profit).len() ==> qualifies(
                ts,
                #[trigger] found_in_row(ts, i, n, min_profit)[p],
                min_profit,
            ),
    decreases n,
{
    if n > 0 {
        lemma_row_qualifies(ts, i, n - 1, min_profit);
        lemma_cycle_qualifies(ts, i, n - 1, min_profit);
        let prev = found_in_row(ts, i, n - 1, min_profit);
        match qualifying(ts, i, n - 1, min_profit) {
            Some(c) => {
                assert forall|p: int| 0 <= p < prev.push(c).len() implies qualifies(
                    ts,
                    #[trigger] prev.push(c)[p],
                    min_profit,
                ) by {
                    if p < prev.len() {
                        assert(prev.push(c)[p] == prev[p]);
                    }
                }
            },
            None => {},
        }
    }
}

/// What every detection pass reports: at most `MAX_RESULTS` cycles, best
/// first, each clearing the threshold with its net profit equal to its gross
/// profit less the fees.
pub proof fn lemma_detected_laws(ts: Seq<Ticker>, min_profit: int)
    requires
        ts.len() <= usize::MAX,
        prices_valid(ts),
    ensures
        detected(ts, min_profit).len() <= MAX_RESULTS,
        forall|p: int|
            0 <= p < detected(ts, min_profit).len() ==> qualifies(
                ts,
                #[trigger] detected(ts, min_profit)[p],
                min_profit,
            ),
        forall|p: int, q: int|
            0 <= p < q < detected(ts, min_profit).len() ==> detected(ts, min_profit)[p].net
                >= detected(ts, min_profit)[q].net,
{
    let f = found(ts, min_profit);
    lemma_found_qualifies(ts, ts.len() as int, min_profit);
    lemma_sort_sorted(f);
    lemma_sort_members(f);
    let d = detected(ts, min_profit);
    assert forall|p: int| 0 <= p < d.len() implies qualifies(ts, #[trigger] d[p], min_profit) by {
        assert(d[p] == sort_desc(f)[p]);
        assert(f.contains(sort_desc(f)[p]));
    }
    assert forall|p: int, q: int| 0 <= p < q < d.len() implies d[p].net >= d[q].net by {
        assert(d[p] == sort_desc(f)[p]);
        assert(d[q] == sort_desc(f)[q]);
    }
}

/// A pass reports the most profitable qualifying cycles: all of them when
/// there are at most `MAX_RESULTS`, else `MAX_RESULTS` of them; each reported
/// cycle qualifies, and any qualifying cycle left out earns no more than the
/// last one reported.
pub proof fn lemma_detected_keeps_largest(ts: Seq<Ticker>, min_profit: int)
    ensures
        detected(ts, min_profit).len() == if found(ts, min_profit).len() <= MAX_RESULTS {
            found(ts, min_profit).len()
        } else {
            MAX_RESULTS as nat
        },
        forall|p: int|
            0 <= p < detected(ts, min_profit).len() ==> found(ts, min_profit).contains(
                #[trigger] detected(ts, min_profit)[p],
            ),
        forall|k: int|
            0 <= k < found(ts, min_profit).len() && !detected(ts, min_profit).contains(
                #[trigger] found(ts, min_profit)[k],
            ) ==> detected(ts, min_profit).len() == MAX_RESULTS && found(ts, min_profit)[k].net
                <= detected(ts, min_profit)[MAX_RESULTS - 1].net,
{
    let f = found(ts, min_profit);
    let d = detected(ts, min_profit);
    lemma_ranked_keeps_largest(f);
    lemma_sort_members(f);
    lemma_sort_sorted(f);
    assert forall|p: int| 0 <= p < d.len() implies f.contains(#[trigger] d[p]) by {
        assert(d[p] == sort_desc(f)[p]);
        assert(f.contains(sort_desc(f)[p]));
    }
}

/// `m` is the symbol index of the first `n` tickers: each symbol among them
/// maps to the last ticker that has it.
pub open spec fn indexes_symbols(m: Map<Seq<char>, usize>, ts: Seq<Ticker>, n: int) -> bool {
    forall|sym: Seq<char>|
        #![trigger m.contains_key(sym)]
        #![trigger last_with_symbol_upto(ts, n, sym)]
        match last_with_symbol_upto(ts, n, sym) {
            Some(k) => m.contains_key(sym) && m[sym] as int == k,
            None => !m.contains_key(sym),
        }
}

/// Maps each symbol of the batch to its last ticker.
fn index_symbols(ts: &[Ticker]) -> (m: StringHashMap<usize>)
    ensures
        indexes_symbols(m@, ts@, ts@.len() as int),
{
    let mut m: StringHashMap<usize> = StringHashMap::new();
    let mut i: usize = 0;
    while i < ts.len()
        invariant
            0 <= i <= ts@.len(),
            indexes_symbols(m@, ts@, i as int),
        decreases ts@.len() - i,
    {
        let ghost before = m@;
        m.insert(ts[i].symbol.clone(), i);
        assert forall|sym: Seq<char>|
            #![trigger m@.contains_key(sym)]
            #![trigger last_with_symbol_upto(ts@, i + 1, sym)]
            match last_with_symbol_upto(ts@, i + 1, sym) {
                Some(k) => m@.contains_key(sym) && m@[sym] as int == k,
                None => !m@.contains_key(sym),
            } by {
            if sym != ts@[i as int].symbol@ {
                assert(last_with_symbol_upto(ts@, i as int, sym) == last_with_symbol_upto(
                    ts@,
                    i + 1,
                    sym,
                ));
                assert(before.contains_key(sym) == m@.contains_key(sym));
            }
        }
        i = i + 1;
    }
    m
}

/// Evaluates the cycle with first leg `i` and second leg `j`, which share
/// their quote currency.
fn cycle_from(ts: &[Ticker], index: &StringHashMap<usize>, i: usize, j: usize) -> (r: Option<
    Candidate,
>)
    requires
        indexes_symbols(index@, ts@, ts@.len() as int),
        i < ts@.len(),
        j < ts@.len(),
        prices_valid(ts@),
        ts@[i as int].quote_currency@ == ts@[j as int].quote_currency@,
    ensures
        r == cycle_at(ts@, i as int, j as int),
{
    let ghost s = ts@;
    assert(s[i as int].ask_price > 0 && s[j as int].ask_price > 0);
    let mut reverse = ts[j].base_currency.clone();
    reverse.append(ts[i].base_currency.as_str());
    match index.get(reverse.as_str()) {
        Some(k) => {
            let k = *k;
            assert(index@.contains_key(reverse@));
            proof {
                lemma_last_with_symbol_range(s, s.len() as int, reverse@);
            }
            assert(index@[reverse@] == k);
            assert(last_with_symbol(s, reverse@) == Some(k as int));
            assert(k < s.len());
            assert(s[k as int].ask_price > 0 && s[k as int].bid_price <= MAX_PRICE);
            let gross = sell_closing_profit(ts[i].ask_price, ts[j].ask_price, ts[k].bid_price);
            Some(
                Candidate {
                    first: i,
                    second: j,
                    third: k,
                    closing: Closing::Sell,
                    gross,
                    net: gross - ESTIMATED_FEES,
                },
            )
        },
        None => {
            let mut forward = ts[i].base_currency.clone();
            forward.append(ts[j].base_currency.as_str());
            assert(!index@.contains_key(reverse@));
            match index.get(forward.as_str()) {
                Some(k) => {
                    let k = *k;
                    assert(index@.contains_key(forward@));
                    proof {
                        lemma_last_with_symbol_range(s, s.len() as int, forward@);
                    }
                    assert(s[k as int].ask_price > 0);
                    let gross = buy_closing_profit(
                        ts[i].ask_price,
                        ts[j].ask_price,
                        ts[k].ask_price,
                    );
                    Some(
                        Candidate {
                            first: i,
                            second: j,
                            third: k,
                            closing: Closing::Buy,
                            gross,
                            net: gross - ESTIMATED_FEES,
                        },
                    )
                },
                None => {
                    assert(!index@.contains_key(forward@));
                    None
                },
            }
        },
    }
}

/// Every cycle of the batch that clears `min_profit`, ranked best first and
/// truncated to `MAX_RESULTS`.
pub fn rank_cycles(tickers: &[Ticker], min_profit: i128) -> (r: Vec<Candidate>)
    requires
        prices_valid(tickers@),
    ensures
        r@ == detected(tickers@, min_profit as int),
{
    let ghost ts = tickers@;
    let ghost m = min_profit as int;
    let n = tickers.len();
    let index = index_symbols(tickers);
    let mut top: Vec<Candidate> = Vec::new();
    assert(top@ =~= ranked(found_upto(ts, 0, m)));
    let mut i: usize = 0;
    while i < n
        invariant
            n == ts.len(),
            tickers@ == ts,
            m == min_profit as int,
            prices_valid(ts),
            indexes_symbols(index@, ts, n as int),
            0 <= i <= n,
            top@ == ranked(found_upto(ts, i as int, m)),
            top@.len() <= MAX_RESULTS,
        decreases n - i,
    {
        let ghost before = found_upto(ts, i as int, m);
        assert(before + found_in_row(ts, i as int, 0, m) =~= before);
        let mut j: usize = 0;
        while j < n
            invariant
                n == ts.len(),
                tickers@ == ts,
                m == min_profit as int,
                prices_valid(ts),
                indexes_symbols(index@, ts, n as int),
                0 <= i < n,
                0 <= j <= n,
                before == found_upto(ts, i as int, m),
                top@ == ranked(before + found_in_row(ts, i as int, j as int, m)),
                top@.len() <= MAX_RESULTS,
            decreases n - j,
        {
            let ghost row = found_in_row(ts, i as int, j as int, m);
            if tickers[i].quote_currency == tickers[j].quote_currency {
                match cycle_from(tickers, &index, i, j) {
                    Some(c) => {
                        if c.net > min_profit {
                            proof {
                                lemma_ranked_push(before + row, c);
                                assert((before + row).push(c) =~= before + row.push(c));
                            }
                            insert_ranked(&mut top, c);
                        }
                    },
                    None => {},
                }
            }
            j = j + 1;
        }
        i = i + 1;
    }
    top
}

/// Relies on uuid::Uuid::new_v4, written in its hyphenated form: a fresh
/// random identifier for each opportunity.
#[verifier::external_body]
fn new_opportunity_id() -> String {
    uuid::Uuid::new_v4().to_string()
}

/// Relies on chrono::Utc::now and DateTime::timestamp_millis: the current
/// time in epoch milliseconds.
#[verifier::external_body]
fn now_millis() -> i64 {
    chrono::Utc::now().timestamp_millis()
}

/// The opportunity that reports cycle `c`, with identifier `id`, detected at
/// `timestamp`.
pub fn describe_cycle(
    tickers: &[Ticker],
    exchange_name: &str,
    c: Candidate,
    id: String,
    timestamp: i64,
) -> (o: TriangularArbitrageOpportunity)
    requires
        c.first < tickers@.len(),
        c.second < tickers@.len(),
        c.third < tickers@.len(),
    ensures
        describes(o, tickers@, exchange_name@, c),
        o.id == id,
        o.timestamp == timestamp,
{
    let first = &tickers[c.first];
    let second = &tickers[c.second];
    let third = &tickers[c.third];
    let mut path = first.base_currency.clone();
    path.append(" → ");
    path.append(first.quote_currency.as_str());
    path.append(" → ");
    path.append(second.base_currency.as_str());
    path.append(" → ");
    path.append(first.base_currency.as_str());
    let mut pairs = first.symbol.clone();
    pairs.append(", ");
    pairs.append(second.symbol.as_str());
    pairs.append(", ");
    pairs.append(third.symbol.as_str());
    TriangularArbitrageOpportunity {
        id,
        exchange: String::from_str(exchange_name),
        path,
        pairs,
        gross_profit_percentage: c.gross,
        estimated_fees: ESTIMATED_FEES,
        net_profit_percentage: c.net,
        timestamp,
    }
}

/// Detects three-leg cycles in one venue's quote batch.
pub struct ArbitrageDetector;

impl ArbitrageDetector {
    /// Reports the cycles of `tickers` whose net profit strictly exceeds
    /// `min_profit` (in percentage units), best first, at most `MAX_RESULTS`
    /// of them; each gets a fresh identifier and the detection time.
    pub fn find_triangular_opportunities(
        tickers: &[Ticker],
        exchange_name: &str,
        min_profit: i128,
    ) -> (r: Vec<TriangularArbitrageOpportunity>)
        requires
            prices_valid(tickers@),
        ensures
            reports(r@, tickers@, exchange_name@, min_profit as int),
            r@.len() <= MAX_RESULTS,
            forall|p: int|
                0 <= p < r@.len() ==> #[trigger] r@[p].net_profit_percentage > min_profit,
            forall|p: int|
                0 <= p < r@.len() ==> #[trigger] r@[p].net_profit_percentage
                    == r@[p].gross_profit_percentage - ESTIMATED_FEES,
            forall|p: int, q: int|
                0 <= p < q < r@.len() ==> r@[p].net_profit_percentage
                    >= r@[q].net_profit_percentage,
    {
        let ghost d = detected(tickers@, min_profit as int);
        let n = tickers.len();
        proof {
            lemma_detected_laws(tickers@, min_profit as int);
        }
        let top = rank_cycles(tickers, min_profit);
        let mut r: Vec<TriangularArbitrageOpportunity> = Vec::new();
        let mut p: usize = 0;
        while p < top.len()
            invariant
                top@ == d,
                n == tickers@.len(),
                0 <= p <= top@.len(),
                r@.len() == p,
                forall|k: int| 0 <= k < d.len() ==> qualifies(tickers@, #[trigger] d[k], min_profit as int),
                forall|k: int|
                    0 <= k < p ==> describes(#[trigger] r@[k], tickers@, exchange_name@, d[k]),
            decreases top@.len() - p,
        {
            let c = top[p];
            assert(qualifies(tickers@, d[p as int], min_profit as int));
            let id = new_opportunity_id();
            let timestamp = now_millis();
            r.push(describe_cycle(tickers, exchange_name, c, id, timestamp));
            p = p + 1;
        }
        proof {
            assert forall|p: int, q: int| 0 <= p < q < r@.len() implies r@[p].net_profit_percentage
                >= r@[q].net_profit_percentage by {
                assert(describes(r@[p], tickers@, exchange_name@, d[p]));
                assert(describes(r@[q], tickers@, exchange_name@, d[q]));
            }
            assert forall|p: int| 0 <= p < r@.len() implies #[trigger] r@[p].net_profit_percentage > min_profit && r@[p].net_profit_percentage
                == r@[p].gross_profit_percentage - ESTIMATED_FEES by {
                assert(describes(r@[p], tickers@, exchange_name@, d[p]));
                assert(qualifies(tickers@, d[p], min_profit as int));
            }
        }
        r
    }
}

} // verus!
