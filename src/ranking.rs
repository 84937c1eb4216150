//! Ranking of candidate cycles: a stable descending order by net profit,
//! truncated to a fixed number of results.
use vstd::prelude::*;

verus! {

/// The most opportunities one detection pass returns.
pub const MAX_RESULTS: usize = 20;

/// How a cycle returns to the first leg's base currency.
#[derive(Clone, Copy, Debug, PartialEq, Eq, Structural)]
pub enum Closing {
    /// The closing symbol is intermediate-then-base: sell into its bid.
    Sell,
    /// The closing symbol is base-then-intermediate: buy at its ask.
    Buy,
}

/// A cycle found in a batch: the indices of its three legs, its orientation
/// and its profits in percentage units.
#[derive(Clone, Copy, Debug)]
pub struct Candidate {
    pub first: usize,
    pub second: usize,
    pub third: usize,
    pub closing: Closing,
    pub gross: i128,
    pub net: i128,
}

/// Where `c` goes in `s`: after the leading run of entries whose net profit is
/// at least that of `c`, so that equal keys keep their order of arrival.
pub open spec fn insert_pos(s: Seq<Candidate>, c: Candidate) -> int
    decreases s.len(),
{
    if s.len() == 0 {
        0
    } else if s[0].net >= c.net {
        1 + insert_pos(s.drop_first(), c)
    } else {
        0
    }
}

pub open spec fn insert_desc(s: Seq<Candidate>, c: Candidate) -> Seq<Candidate> {
    s.insert(insert_pos(s, c), c)
}

/// The stable sort of `s` by non-increasing net profit.
pub open spec fn sort_desc(s: Seq<Candidate>) -> Seq<Candidate>
    decreases s.len(),
{
    if s.len() == 0 {
        s
    } else {
        insert_desc(sort_desc(s.drop_last()), s.last())
    }
}

/// The first `MAX_RESULTS` entries of `s`, or all of them if there are fewer.
pub open spec fn cap(s: Seq<Candidate>) -> Seq<Candidate> {
    if s.len() <= MAX_RESULTS {
        s
    } else {
        s.take(MAX_RESULTS as int)
    }
}

/// What the ranker returns for the candidates `s`, taken in discovery order.
pub open spec fn ranked(s: Seq<Candidate>) -> Seq<Candidate> {
    cap(sort_desc(s))
}

pub open spec fn sorted_desc(s: Seq<Candidate>) -> bool {
    forall|i: int, j: int| 0 <= i < j < s.len() ==> s[i].net >= s[j].net
}

proof fn lemma_insert_pos_bounds(s: Seq<Candidate>, c: Candidate)
    ensures
        0 <= insert_pos(s, c) <= s.len(),
        forall|k: int| 0 <= k < insert_pos(s, c) ==> s[k].net >= c.net,
        insert_pos(s, c) < s.len() ==> s[insert_pos(s, c)].net < c.net,
    decreases s.len(),
{
    if s.len() > 0 && s[0].net >= c.net {
        lemma_insert_pos_bounds(s.drop_first(), c);
        assert forall|k: int| 0 <= k < insert_pos(s, c) implies s[k].net >= c.net by {
            if k > 0 {
                assert(s[k] == s.drop_first()[k - 1]);
            }
        }
    }
}

proof fn lemma_insert_pos_at(s: Seq<Candidate>, c: Candidate, p: int)
    requires
        0 <= p <= s.len(),
        forall|k: int| 0 <= k < p ==> s[k].net >= c.net,
        p < s.len() ==> s[p].net < c.net,
    ensures
        insert_pos(s, c) == p,
    decreases s.len(),
{
    if s.len() > 0 && p > 0 {
        lemma_insert_pos_at(s.drop_first(), c, p - 1);
    }
}

proof fn lemma_insert_sorted(s: Seq<Candidate>, c: Candidate)
    requires
        sorted_desc(s),
    ensures
        sorted_desc(insert_desc(s, c)),
        insert_desc(s, c).len() == s.len() + 1,
{
    lemma_insert_pos_bounds(s, c);
    let p = insert_pos(s, c);
    let r = insert_desc(s, c);
    assert forall|i: int, j: int| 0 <= i < j < r.len() implies r[i].net >= r[j].net by {
        if j < p {
        } else if j == p {
        } else if i < p {
            assert(s[i].net >= s[j - 1].net || i == j - 1);
        } else if i == p {
            assert(s[p].net >= s[j - 1].net || p == j - 1);
        }
    }
}

/// The sort yields a non-increasing sequence of the same length.
pub proof fn lemma_sort_sorted(s: Seq<Candidate>)
    ensures
        sorted_desc(sort_desc(s)),
        sort_desc(s).len() == s.len(),
    decreases s.len(),
{
    if s.len() > 0 {
        lemma_sort_sorted(s.drop_last());
        lemma_insert_sorted(sort_desc(s.drop_last()), s.last());
    }
}

/// Every entry of the sort is an entry of the input.
pub proof fn lemma_sort_members(s: Seq<Candidate>)
    ensures
        forall|i: int| 0 <= i < sort_desc(s).len() ==> s.contains(#[trigger] sort_desc(s)[i]),
    decreases s.len(),
{
    if s.len() > 0 {
        let t = s.drop_last();
        lemma_sort_members(t);
        lemma_sort_sorted(t);
        lemma_insert_pos_bounds(sort_desc(t), s.last());
        let p = insert_pos(sort_desc(t), s.last());
        assert forall|i: int| 0 <= i < sort_desc(s).len() implies s.contains(
            #[trigger] sort_desc(s)[i],
        ) by {
            if i == p {
                assert(s[s.len() - 1] == s.last());
            } else {
                let e = if i < p { sort_desc(t)[i] } else { sort_desc(t)[i - 1] };
                assert(t.contains(e));
                let k = choose|k: int| 0 <= k < t.len() && t[k] == e;
                assert(s[k] == e);
            }
        }
    }
}

/// Every entry of the input appears in its sort.
pub proof fn lemma_sort_keeps(s: Seq<Candidate>)
    ensures
        forall|k: int| 0 <= k < s.len() ==> sort_desc(s).contains(#[trigger] s[k]),
    decreases s.len(),
{
    if s.len() > 0 {
        let t = s.drop_last();
        lemma_sort_keeps(t);
        lemma_sort_sorted(t);
        let u = sort_desc(t);
        lemma_insert_pos_bounds(u, s.last());
        let p = insert_pos(u, s.last());
        let v = sort_desc(s);
        assert(v == u.insert(p, s.last()));
        assert forall|k: int| 0 <= k < s.len() implies v.contains(#[trigger] s[k]) by {
            if k == s.len() - 1 {
                assert(v[p] == s[k]);
            } else {
                assert(s[k] == t[k]);
                assert(u.contains(t[k]));
                let m = choose|m: int| 0 <= m < u.len() && u[m] == t[k];
                if m < p {
                    assert(v[m] == u[m]);
                } else {
                    assert(v[m + 1] == u[m]);
                }
            }
        }
    }
}

/// Ranking keeps the best entries: all of them when there are at most
/// `MAX_RESULTS`, else `MAX_RESULTS` of them, and any entry it leaves out
/// earns no more than the last one it keeps.
pub proof fn lemma_ranked_keeps_largest(s: Seq<Candidate>)
    ensures
        ranked(s).len() == if s.len() <= MAX_RESULTS {
            s.len()
        } else {
            MAX_RESULTS as nat
        },
        forall|k: int|
            0 <= k < s.len() && !ranked(s).contains(#[trigger] s[k]) ==> ranked(s).len()
                == MAX_RESULTS && s[k].net <= ranked(s)[MAX_RESULTS - 1].net,
{
    lemma_sort_sorted(s);
    lemma_sort_keeps(s);
    let v = sort_desc(s);
    let r = ranked(s);
    assert forall|k: int|
        0 <= k < s.len() && !r.contains(#[trigger] s[k]) implies r.len() == MAX_RESULTS
        && s[k].net <= r[MAX_RESULTS - 1].net by {
        assert(v.contains(s[k]));
        let m = choose|m: int| 0 <= m < v.len() && v[m] == s[k];
        if v.len() <= MAX_RESULTS {
            assert(r[m] == s[k]);
        } else if m < MAX_RESULTS {
            assert(r[m] == v[m]);
        } else {
            assert(r[MAX_RESULTS - 1] == v[MAX_RESULTS - 1]);
        }
    }
}

/// Inserting into the truncated ranking and truncating again gives the same
/// sequence as inserting into the full one.
proof fn lemma_cap_insert(s: Seq<Candidate>, c: Candidate)
    ensures
        cap(insert_desc(cap(s), c)) == cap(insert_desc(s, c)),
{
    lemma_insert_pos_bounds(s, c);
    if s.len() > MAX_RESULTS {
        let s2 = s.take(MAX_RESULTS as int);
        let p = insert_pos(s, c);
        let p2 = if p < MAX_RESULTS { p } else { MAX_RESULTS as int };
        lemma_insert_pos_at(s2, c, p2);
        assert(cap(insert_desc(s2, c)) =~= cap(insert_desc(s, c)));
    }
}

/// Ranking one more candidate only needs the ranking of those before it.
pub proof fn lemma_ranked_push(s: Seq<Candidate>, c: Candidate)
    ensures
        ranked(s.push(c)) == cap(insert_desc(ranked(s), c)),
{
    assert(s.push(c).drop_last() =~= s);
    lemma_cap_insert(sort_desc(s), c);
}

/// Adds `c` to a ranking, keeping it in stable non-increasing order of net
/// profit and at most `MAX_RESULTS` long.
pub fn insert_ranked(top: &mut Vec<Candidate>, c: Candidate)
    requires
        old(top)@.len() <= MAX_RESULTS,
    ensures
        final(top)@ == cap(insert_desc(old(top)@, c)),
        final(top)@.len() <= MAX_RESULTS,
{
    let mut p: usize = 0;
    while p < top.len() && top[p].net >= c.net
        invariant
            0 <= p <= top@.len(),
            top@ == old(top)@,
            forall|k: int| 0 <= k < p ==> top@[k].net >= c.net,
        decreases top@.len() - p,
    {
        p = p + 1;
    }
    proof {
        lemma_insert_pos_at(top@, c, p as int);
    }
    if p < MAX_RESULTS {
        top.insert(p, c);
        if top.len() > MAX_RESULTS {
            top.pop();
            assert(top@ =~= cap(insert_desc(old(top)@, c)));
        }
    } else {
        assert(top@ =~= cap(insert_desc(old(top)@, c)));
    }
}

} // verus!
