//! The two kinds of metric the monitor collects.

use vstd::prelude::*;

verus! {

/// A record of API consumption: which provider, which model, how many
/// tokens, at what cost, at what time (seconds since the epoch).
///
/// The cost in US dollars is held as its decimal text, exactly as it is
/// written into the line protocol; the library never does arithmetic on it.
#[derive(Debug, Clone)]
pub struct UsageRecord {
    pub provider: String,
    pub model: Option<String>,
    pub tokens_used: i64,
    pub cost_usd: String,
    pub ts: i64,
}

/// A snapshot of rate-limit state for a provider and model: hard limit,
/// optional soft limit, remaining requests, reset time and sample time.
#[derive(Debug, Clone)]
pub struct RateLimitRecord {
    pub provider: String,
    pub model: Option<String>,
    pub hard_limit: i64,
    pub soft_limit: Option<i64>,
    pub remaining: i64,
    pub reset_ts: i64,
    pub ts: i64,
}

/// The sum of a sequence of token counts.
pub open spec fn sum_tokens(counts: Seq<i64>) -> int
    decreases counts.len(),
{
    if counts.len() == 0 {
        0
    } else {
        sum_tokens(counts.drop_last()) + counts.last()
    }
}

/// True when every partial sum of `counts`, taken from the left, fits in an `i64`
/// (adding them up one by one then never overflows).
pub open spec fn partial_sums_fit(counts: Seq<i64>) -> bool {
    forall|k: int|
        0 <= k <= counts.len() ==> i64::MIN <= #[trigger] sum_tokens(counts.take(k)) <= i64::MAX
}

/// Adds up token counts from left to right, as `i64` addition does; `None`
/// when a partial sum overflows (where unchecked addition would panic).
pub fn total_tokens(counts: &[i64]) -> (total: Option<i64>)
    ensures
        partial_sums_fit(counts@) ==> total == Some(sum_tokens(counts@) as i64),
        !partial_sums_fit(counts@) ==> total is None,
{
    let mut total: i64 = 0;
    let mut i: usize = 0;
    assert(counts@.take(0) =~= Seq::<i64>::empty());
    while i < counts.len()
        invariant
            i <= counts@.len(),
            total == sum_tokens(counts@.take(i as int)),
            forall|k: int| 0 <= k <= i ==> i64::MIN <= #[trigger] sum_tokens(counts@.take(k)) <= i64::MAX,
        decreases counts@.len() - i,
    {
        assert(counts@.take(i + 1).drop_last() =~= counts@.take(i as int));
        match total.checked_add(counts[i]) {
            Some(t) => {
                total = t;
            },
            None => {
                assert(!(i64::MIN <= sum_tokens(counts@.take(i + 1)) <= i64::MAX));
                return None;
            },
        }
        i = i + 1;
    }
    assert(counts@.take(counts@.len() as int) =~= counts@);
    Some(total)
}

/// Token counts as a provider reports them, a missing count read as zero.
pub open spec fn reported_counts(counts: Seq<Option<i64>>) -> Seq<i64> {
    counts.map_values(|c: Option<i64>| match c {
        Some(n) => n,
        None => 0,
    })
}

/// Adds up the token counts of a usage report, where an entry without a
/// count contributes zero; `None` when a partial sum overflows.
pub fn total_reported_tokens(counts: &[Option<i64>]) -> (total: Option<i64>)
    ensures
        partial_sums_fit(reported_counts(counts@)) ==> total == Some(
            sum_tokens(reported_counts(counts@)) as i64,
        ),
        !partial_sums_fit(reported_counts(counts@)) ==> total is None,
{
    let mut v: Vec<i64> = Vec::new();
    let mut i: usize = 0;
    while i < counts.len()
        invariant
            i <= counts@.len(),
            v@ == reported_counts(counts@).take(i as int),
        decreases counts@.len() - i,
    {
        let n: i64 = match counts[i] {
            Some(n) => n,
            None => 0,
        };
        v.push(n);
        assert(v@ =~= reported_counts(counts@).take(i + 1));
        i = i + 1;
    }
    assert(v@ =~= reported_counts(counts@));
    total_tokens(v.as_slice())
}

} // verus!
