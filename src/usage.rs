use vstd::prelude::*;

use crate::money::{
    checked_add, lemma_pow10_add, lemma_pow10_positive, pow10, sum_spec, Usdc, MAX_MANTISSA,
};

verus! {

/// A completed credit purchase, joined with the price of its package.
#[derive(Clone, Copy, Debug, PartialEq, Eq, Structural)]
pub struct Transaction {
    pub id: i32,
    pub package_id: i32,
    pub amount_usdc: Usdc,
    /// Creation time, in microseconds since the Unix epoch.
    pub created_at: i64,
}

/// A user's usage summary.
#[derive(Clone, Copy, Debug, PartialEq, Eq, Structural)]
pub struct UsageResponse {
    pub remaining_credits: i64,
    pub last_transaction: Option<Transaction>,
    pub total_spent_usdc: Usdc,
}

/// Every amount in `s` is a valid decimal.
pub open spec fn amounts_wf(s: Seq<Transaction>) -> bool {
    forall|i: int| 0 <= i < s.len() ==> (#[trigger] s[i]).amount_usdc.wf()
}

/// The most recent transaction by creation time; of equal times, the one recorded later.
pub open spec fn latest(s: Seq<Transaction>) -> Option<Transaction>
    decreases s.len(),
{
    if s.len() == 0 {
        None
    } else {
        match latest(s.drop_last()) {
            None => Some(s.last()),
            Some(t) => if s.last().created_at >= t.created_at {
                Some(s.last())
            } else {
                Some(t)
            },
        }
    }
}

/// The running sum of all amounts, or `None` once a partial sum leaves the decimal range.
pub open spec fn total_spec(s: Seq<Transaction>) -> Option<Usdc>
    decreases s.len(),
{
    if s.len() == 0 {
        Some(Usdc { mantissa: 0, scale: 0 })
    } else {
        match total_spec(s.drop_last()) {
            None => None,
            Some(t) => sum_spec(t, s.last().amount_usdc),
        }
    }
}

/// The largest scale among the amounts of `s` (0 for none).
pub open spec fn max_scale(s: Seq<Transaction>) -> nat
    decreases s.len(),
{
    if s.len() == 0 {
        0
    } else {
        let m = max_scale(s.drop_last());
        if s.last().amount_usdc.scale >= m {
            s.last().amount_usdc.scale as nat
        } else {
            m
        }
    }
}

/// The sum of all amounts, as a mantissa at scale `k`.
pub open spec fn scaled_sum(s: Seq<Transaction>, k: nat) -> int
    decreases s.len(),
{
    if s.len() == 0 {
        0
    } else {
        scaled_sum(s.drop_last(), k) + s.last().amount_usdc.at_scale(k)
    }
}

/// The latest transaction is one of `s`, and none of `s` is more recent.
pub proof fn lemma_latest(s: Seq<Transaction>)
    ensures
        s.len() == 0 <==> latest(s) is None,
        latest(s) matches Some(t) ==> s.contains(t),
        latest(s) matches Some(t) ==> forall|i: int|
            0 <= i < s.len() ==> (#[trigger] s[i]).created_at <= t.created_at,
    decreases s.len(),
{
    if s.len() > 0 {
        let p = s.drop_last();
        lemma_latest(p);
        let t = latest(s)->0;
        if t == s.last() {
            assert(s[s.len() - 1] == t);
        } else {
            let j = choose|j: int| 0 <= j < p.len() && p[j] == t;
            assert(s[j] == t);
        }
        assert forall|i: int| 0 <= i < s.len() implies (#[trigger] s[i]).created_at
            <= t.created_at by {
            if i < s.len() - 1 {
                assert(s[i] == p[i]);
            }
        }
    }
}

/// A total that is in range is the exact sum of all amounts, at the largest scale among them.
pub proof fn lemma_total_is_sum(s: Seq<Transaction>)
    requires
        amounts_wf(s),
    ensures
        total_spec(s) matches Some(t) ==> t.wf() && t.scale == max_scale(s) && t.mantissa
            == scaled_sum(s, max_scale(s)),
    decreases s.len(),
{
    if s.len() > 0 {
        let p = s.drop_last();
        assert(amounts_wf(p)) by {
            assert forall|i: int| 0 <= i < p.len() implies (#[trigger] p[i]).amount_usdc.wf() by {
                assert(p[i] == s[i]);
            }
        }
        lemma_total_is_sum(p);
        assert(s[s.len() - 1].amount_usdc.wf());
        if let Some(t) = total_spec(p) {
            let k = max_scale(s);
            let d = (k - t.scale) as nat;
            lemma_max_scale(p);
            lemma_scaled_sum_rescale(p, t.scale as nat, d);
            lemma_pow10_positive(d);
            assert(t.at_scale(k) == scaled_sum(p, t.scale as nat) * pow10(d));
        }
    }
}

/// With non-negative amounts, the scaled sum is non-negative.
pub proof fn lemma_scaled_sum_nonneg(s: Seq<Transaction>, k: nat)
    requires
        forall|i: int| 0 <= i < s.len() ==> (#[trigger] s[i]).amount_usdc.mantissa >= 0,
    ensures
        scaled_sum(s, k) >= 0,
    decreases s.len(),
{
    if s.len() > 0 {
        let p = s.drop_last();
        assert forall|i: int| 0 <= i < p.len() implies (#[trigger] p[i]).amount_usdc.mantissa >= 0 by {
            assert(p[i] == s[i]);
        }
        lemma_scaled_sum_nonneg(p, k);
        let a = s.last().amount_usdc;
        assert(s[s.len() - 1].amount_usdc.mantissa >= 0);
        lemma_pow10_positive((k - a.scale) as nat);
        assert(a.mantissa * pow10((k - a.scale) as nat) >= 0) by (nonlinear_arith)
            requires
                a.mantissa >= 0,
                pow10((k - a.scale) as nat) >= 1,
        ;
    }
}

/// Prices are never negative in practice: then the total is produced whenever the exact
/// sum of all amounts fits the decimal range.
pub proof fn lemma_total_in_range(s: Seq<Transaction>)
    requires
        amounts_wf(s),
        forall|i: int| 0 <= i < s.len() ==> (#[trigger] s[i]).amount_usdc.mantissa >= 0,
        scaled_sum(s, max_scale(s)) <= MAX_MANTISSA,
    ensures
        total_spec(s) is Some,
    decreases s.len(),
{
    if s.len() > 0 {
        let p = s.drop_last();
        let a = s.last().amount_usdc;
        let k = max_scale(s);
        let kp = max_scale(p);
        let d = (k - kp) as nat;
        assert forall|i: int| 0 <= i < p.len() implies (#[trigger] p[i]).amount_usdc.mantissa >= 0 && p[i].amount_usdc.wf() by {
            assert(p[i] == s[i]);
        }
        assert(s[s.len() - 1].amount_usdc.mantissa >= 0);
        lemma_max_scale(p);
        lemma_scaled_sum_rescale(p, kp, d);
        lemma_scaled_sum_nonneg(p, kp);
        lemma_pow10_positive(d);
        lemma_pow10_positive((k - a.scale) as nat);
        assert(scaled_sum(p, kp) <= scaled_sum(p, kp) * pow10(d)) by (nonlinear_arith)
            requires
                scaled_sum(p, kp) >= 0,
                pow10(d) >= 1,
        ;
        assert(a.at_scale(k) >= 0) by (nonlinear_arith)
            requires
                a.mantissa >= 0,
                pow10((k - a.scale) as nat) >= 1,
        ;
        lemma_total_in_range(p);
        lemma_total_is_sum(p);
        let t = total_spec(p)->0;
        assert(t.at_scale(k) == scaled_sum(p, kp) * pow10(d));
    }
}

/// Raising the scale by `d` multiplies the scaled sum by `10^d`.
pub proof fn lemma_scaled_sum_rescale(s: Seq<Transaction>, k: nat, d: nat)
    requires
        forall|i: int| 0 <= i < s.len() ==> (#[trigger] s[i]).amount_usdc.scale <= k,
    ensures
        scaled_sum(s, k + d) == scaled_sum(s, k) * pow10(d),
    decreases s.len(),
{
    if s.len() > 0 {
        let p = s.drop_last();
        assert forall|i: int| 0 <= i < p.len() implies (#[trigger] p[i]).amount_usdc.scale <= k by {
            assert(p[i] == s[i]);
        }
        lemma_scaled_sum_rescale(p, k, d);
        let a = s.last().amount_usdc;
        assert(s[s.len() - 1].amount_usdc.scale <= k);
        let e = (k - a.scale) as nat;
        lemma_pow10_add(e, d);
        assert((k + d - a.scale) as nat == e + d);
        assert(a.mantissa * (pow10(e) * pow10(d)) == (a.mantissa * pow10(e)) * pow10(d))
            by (nonlinear_arith);
        assert((scaled_sum(p, k) + a.at_scale(k)) * pow10(d) == scaled_sum(p, k) * pow10(d)
            + a.at_scale(k) * pow10(d)) by (nonlinear_arith);
    }
}

/// Every amount of `s` has a scale no larger than `max_scale(s)`.
pub proof fn lemma_max_scale(s: Seq<Transaction>)
    ensures
        forall|i: int| 0 <= i < s.len() ==> (#[trigger] s[i]).amount_usdc.scale <= max_scale(s),
    decreases s.len(),
{
    if s.len() > 0 {
        lemma_max_scale(s.drop_last());
        assert forall|i: int| 0 <= i < s.len() implies (#[trigger] s[i]).amount_usdc.scale
            <= max_scale(s) by {
            if i < s.len() - 1 {
                assert(s[i] == s.drop_last()[i]);
            }
        }
    }
}

/// The sum of the amounts of `history`, exactly; `None` when a partial sum leaves the
/// decimal range.
pub fn total_spent(history: &Vec<Transaction>) -> (r: Option<Usdc>)
    requires
        amounts_wf(history@),
    ensures
        r == total_spec(history@),
{
    let mut acc: Usdc = Usdc::zero();
    let mut i: usize = 0;
    while i < history.len()
        invariant
            i <= history@.len(),
            amounts_wf(history@),
            total_spec(history@.take(i as int)) == Some(acc),
            acc.wf(),
        decreases history@.len() - i,
    {
        assert(history@.take(i + 1).drop_last() =~= history@.take(i as int));
        assert(history@[i as int].amount_usdc.wf());
        match checked_add(acc, history[i].amount_usdc) {
            None => {
                proof {
                    lemma_total_none_stays(history@, i as int + 1);
                }
                return None;
            },
            Some(v) => {
                acc = v;
            },
        }
        i = i + 1;
    }
    assert(history@.take(history@.len() as int) =~= history@);
    Some(acc)
}

/// Once the running total leaves the range, it stays out of it.
pub proof fn lemma_total_none_stays(s: Seq<Transaction>, n: int)
    requires
        0 <= n <= s.len(),
        total_spec(s.take(n)) is None,
    ensures
        total_spec(s) is None,
    decreases s.len() - n,
{
    if n < s.len() {
        assert(s.take(n + 1).drop_last() =~= s.take(n));
        lemma_total_none_stays(s, n + 1);
    } else {
        assert(s.take(n) =~= s);
    }
}

/// The most recent transaction of `history`.
pub fn latest_transaction(history: &Vec<Transaction>) -> (r: Option<Transaction>)
    ensures
        r == latest(history@),
{
    let mut best: Option<Transaction> = None;
    let mut i: usize = 0;
    while i < history.len()
        invariant
            i <= history@.len(),
            best == latest(history@.take(i as int)),
        decreases history@.len() - i,
    {
        assert(history@.take(i + 1).drop_last() =~= history@.take(i as int));
        let t = history[i];
        best = match best {
            None => Some(t),
            Some(b) => if t.created_at >= b.created_at {
                Some(t)
            } else {
                Some(b)
            },
        };
        i = i + 1;
    }
    assert(history@.take(history@.len() as int) =~= history@);
    best
}

/// The credits that a ledger row reports: its value, or 0 when the user has no row.
pub open spec fn credits_or_zero(row: Option<i64>) -> int {
    match row {
        Some(v) => v as int,
        None => 0,
    }
}

/// Composes a usage summary from the user's ledger row and priced transactions.
/// `None` only when the total spend leaves the decimal range.
pub fn summarize_usage(remaining: Option<i64>, history: &Vec<Transaction>) -> (r: Option<
    UsageResponse,
>)
    requires
        amounts_wf(history@),
    ensures
        r is Some <==> total_spec(history@) is Some,
        r matches Some(u) ==> u.remaining_credits == credits_or_zero(remaining),
        r matches Some(u) ==> u.last_transaction == latest(history@),
        r matches Some(u) ==> Some(u.total_spent_usdc) == total_spec(history@),
{
    let total = match total_spent(history) {
        Some(t) => t,
        None => {
            return None;
        },
    };
    let remaining_credits: i64 = match remaining {
        Some(v) => v,
        None => 0,
    };
    Some(
        UsageResponse {
            remaining_credits,
            last_transaction: latest_transaction(history),
            total_spent_usdc: total,
        },
    )
}

} // verus!
