use vstd::prelude::*;

use crate::ledger::{Holding, all_nonnegative};
use crate::tranche::{Effect, TrancheType};

verus! {

/// What one holder receives when `pool` is shared over `total` shares:
/// nothing for an empty holding, otherwise `pool * shares / total`
/// (rounded down) as a transfer followed by a `Paid` event when it is
/// positive; `None` when `pool * shares` leaves the range of `i128`.
pub open spec fn payout_step(h: Holding, pool: i128, total: i128, t: TrancheType) -> Option<
    Seq<Effect>,
> {
    if h.shares == 0 {
        Some(Seq::empty())
    } else {
        let p = pool * h.shares;
        if p < i128::MIN || p > i128::MAX {
            None
        } else {
            let pay = p / (total as int);
            if pay > 0 {
                Some(
                    seq![
                        Effect::TransferOut { to: h.account, amount: pay as i128 },
                        Effect::Paid { to: h.account, tranche: t, amount: pay as i128 },
                    ],
                )
            } else {
                Some(Seq::empty())
            }
        }
    }
}

/// The payouts to all holders, in the order of the holdings, or `None`
/// when any holder's product overflows.
pub open spec fn payout_plan(s: Seq<Holding>, pool: i128, total: i128, t: TrancheType) -> Option<
    Seq<Effect>,
>
    decreases s.len(),
{
    if s.len() == 0 {
        Some(Seq::empty())
    } else {
        match (payout_plan(s.drop_last(), pool, total, t), payout_step(s.last(), pool, total, t)) {
            (Some(a), Some(b)) => Some(a + b),
            _ => None,
        }
    }
}

/// Once a prefix of the holdings overflows, every longer prefix does.
pub proof fn lemma_plan_overflow_persists(
    s: Seq<Holding>,
    pool: i128,
    total: i128,
    t: TrancheType,
    i: int,
    k: int,
)
    requires
        0 <= i <= k <= s.len(),
        payout_plan(s.take(i), pool, total, t) is None,
    ensures
        payout_plan(s.take(k), pool, total, t) is None,
    decreases k - i,
{
    if k > i {
        lemma_plan_overflow_persists(s, pool, total, t, i, k - 1);
        assert(s.take(k).drop_last() =~= s.take(k - 1));
    }
}

/// Appends to `out` the payouts of `pool` shared over `total` among the
/// holdings; returns false on overflow, with the payouts of the holders
/// before the overflowing one appended.
pub fn push_payouts(
    s: &Vec<Holding>,
    pool: i128,
    total: i128,
    t: TrancheType,
    out: &mut Vec<Effect>,
) -> (ok: bool)
    requires
        all_nonnegative(s@),
        pool > 0,
        total > 0,
    ensures
        match payout_plan(s@, pool, total, t) {
            Some(e) => ok && final(out)@ == old(out)@ + e,
            None => !ok,
        },
        final(out)@.len() >= old(out)@.len(),
        final(out)@.subrange(0, old(out)@.len() as int) == old(out)@,
{
    let ghost start = out@;
    let mut i: usize = 0;
    proof {
        assert(s@.take(0) =~= Seq::<Holding>::empty());
        assert(start + Seq::<Effect>::empty() =~= start);
    }
    while i < s.len()
        invariant
            i <= s.len(),
            all_nonnegative(s@),
            pool > 0,
            total > 0,
            payout_plan(s@.take(i as int), pool, total, t) matches Some(e) && out@ == start + e,
            start == old(out)@,
            out@.len() >= start.len(),
            out@.subrange(0, start.len() as int) == start,
        decreases s.len() - i,
    {
        let h = s[i];
        let ghost before = out@;
        let ghost prefix = payout_plan(s@.take(i as int), pool, total, t)->Some_0;
        proof {
            assert(s@.take(i + 1).drop_last() =~= s@.take(i as int));
            assert(s@.take(i + 1).last() == h);
            assert(h.shares >= 0);
        }
        if h.shares != 0 {
            match pool.checked_mul(h.shares) {
                None => {
                    proof {
                        lemma_plan_overflow_persists(s@, pool, total, t, i + 1, s.len() as int);
                        assert(s@.take(s.len() as int) =~= s@);
                    }
                    return false;
                },
                Some(p) => {
                    assert(p >= 0) by (nonlinear_arith)
                        requires
                            h.shares >= 0,
                            pool > 0,
                            p == pool * h.shares,
                    ;
                    let pay = p / total;
                    if pay > 0 {
                        out.push(Effect::TransferOut { to: h.account, amount: pay });
                        out.push(Effect::Paid { to: h.account, tranche: t, amount: pay });
                        proof {
                            assert(out@ =~= start + (prefix + seq![
                                Effect::TransferOut { to: h.account, amount: pay },
                                Effect::Paid { to: h.account, tranche: t, amount: pay },
                            ]));
                            assert(out@.subrange(0, start.len() as int) =~= start);
                        }
                    } else {
                        proof {
                            assert(prefix + Seq::<Effect>::empty() =~= prefix);
                        }
                    }
                },
            }
        } else {
            proof {
                assert(prefix + Seq::<Effect>::empty() =~= prefix);
            }
        }
        i = i + 1;
    }
    proof {
        assert(s@.take(s.len() as int) =~= s@);
    }
    true
}

} // verus!
