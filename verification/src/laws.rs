use vstd::prelude::*;

use crate::account::AccountId;
use crate::ledger::{
    lemma_shares_absent,
    lemma_shares_push,
    Holding,
    all_nonnegative,
    lemma_assign,
    lemma_scale_holdings,
    lemma_shares_bounded,
    lemma_total_shares_nonnegative,
    shares_of,
    strictly_sorted,
    total_shares,
};
use crate::payout::{payout_plan, payout_step};
use crate::tranche::{
    Effect,
    TrancheError,
    TrancheState,
    initialize_outcome,
    notify_pool_payout_outcome,
    set_minimums_outcome,
    set_paused_outcome,
    tranche_plan,
    TrancheType,
    apply_loss_outcome,
    admin_rejection,
    junior_after_loss,
    payout_base,
    redeem_outcome,
    senior_after_loss,
    senior_part,
    subscribe_outcome,
};

verus! {

/// In a valid ledger neither tranche total is negative.
pub proof fn lemma_totals_nonnegative(s: TrancheState)
    requires
        s.valid(),
    ensures
        s.senior_total >= 0,
        s.junior_total >= 0,
{
    lemma_total_shares_nonnegative(s.senior);
    lemma_total_shares_nonnegative(s.junior);
}

/// With no negative holding, a prefix never sums to more than the whole.
pub proof fn lemma_prefix_sum_bound(h: Seq<Holding>, k: int)
    requires
        0 <= k <= h.len(),
    ensures
        all_nonnegative(h) ==> total_shares(h.take(k)) <= total_shares(h),
    decreases h.len() - k,
{
    if k < h.len() && all_nonnegative(h) {
        lemma_prefix_sum_bound(h, k + 1);
        assert(h.take(k + 1).drop_last() =~= h.take(k));
        assert(h.take(k + 1).last() == h[k]);
    }
    if k == h.len() {
        assert(h.take(k) =~= h);
    }
}

/// Rescaled holdings stay within the rescaled total.
proof fn lemma_scaled_within(s: Seq<Holding>, old_total: i128, new_total: i128)
    requires
        strictly_sorted(s),
        all_nonnegative(s),
        total_shares(s) <= old_total,
        0 <= new_total <= old_total,
        old_total > 0,
    ensures
        scale_holdings_valid(s, new_total, old_total),
{
    lemma_scale_holdings(s, new_total, old_total);
    lemma_total_shares_nonnegative(s);
    if let Some(out) = crate::ledger::scale_holdings(s, new_total, old_total) {
        let a = total_shares(out);
        let b = total_shares(s);
        assert(a <= new_total) by (nonlinear_arith)
            requires
                a * old_total <= b * new_total,
                0 <= b <= old_total,
                new_total >= 0,
                old_total > 0,
        ;
    }
}

/// Rescaling by `num / den` gives sorted, nonnegative holdings summing to
/// at most `num`.
pub open spec fn scale_holdings_valid(s: Seq<Holding>, num: i128, den: i128) -> bool {
    crate::ledger::scale_holdings(s, num, den) matches Some(out) ==> {
        &&& strictly_sorted(out)
        &&& all_nonnegative(out)
        &&& total_shares(out) <= num
    }
}

/// Recording `v >= 0` shares keeps a tranche valid when the new sum stays
/// within `total`.
proof fn lemma_assign_keeps_tranche(h: Seq<Holding>, who: AccountId, v: i128)
    requires
        strictly_sorted(h),
        all_nonnegative(h),
        v >= 0,
    ensures
        strictly_sorted(crate::ledger::assign(h, who, v)),
        all_nonnegative(crate::ledger::assign(h, who, v)),
        total_shares(crate::ledger::assign(h, who, v)) == total_shares(h) - shares_of(h, who) + v,
{
    lemma_assign(h, who, v);
    let r = crate::ledger::assign(h, who, v);
    assert forall|k: int| 0 <= k < r.len() implies (#[trigger] r[k]).shares >= 0 by {
        if r[k] != (Holding { account: who, shares: v }) {
            let j = choose|j: int| 0 <= j < h.len() && h[j] == r[k];
        }
    }
}

/// Every accepted subscription keeps the ledger invariant.
pub proof fn lemma_subscribe_keeps_valid(
    s: TrancheState,
    from: AccountId,
    t: TrancheType,
    amount: i128,
)
    requires
        s.valid(),
    ensures
        subscribe_outcome(s, from, t, amount) matches Ok((n, _)) ==> n.valid(),
{
    let h = s.holdings(t);
    lemma_shares_bounded(h, from);
    if let Ok((n, _)) = subscribe_outcome(s, from, t, amount) {
        let prev = shares_of(h, from);
        lemma_assign_keeps_tranche(h, from, (prev + amount) as i128);
    }
}

/// Every accepted redemption keeps the ledger invariant.
pub proof fn lemma_redeem_keeps_valid(s: TrancheState, from: AccountId, t: TrancheType, amount: i128)
    requires
        s.valid(),
    ensures
        redeem_outcome(s, from, t, amount) matches Ok((n, _)) ==> n.valid(),
{
    let h = s.holdings(t);
    lemma_shares_bounded(h, from);
    if let Ok((n, _)) = redeem_outcome(s, from, t, amount) {
        let balance = shares_of(h, from);
        lemma_assign_keeps_tranche(h, from, (balance - amount) as i128);
    }
}

/// Every accepted loss keeps the ledger invariant.
pub proof fn lemma_apply_loss_keeps_valid(s: TrancheState, admin: AccountId, loss: i128)
    requires
        s.valid(),
    ensures
        apply_loss_outcome(s, admin, loss) matches Ok((n, _)) ==> n.valid(),
{
    lemma_totals_nonnegative(s);
    if admin_rejection(s, admin) is None && loss > 0 {
        let jt = s.junior_total;
        let st = s.senior_total;
        if jt >= loss {
            lemma_scaled_within(s.junior, jt, (jt - loss) as i128);
        }
        let (new_jt, junior, remaining) = junior_after_loss(s, loss);
        if remaining > 0 && st > 0 {
            let new_st: i128 = if remaining >= st {
                0
            } else {
                (st - remaining) as i128
            };
            if new_st > 0 {
                lemma_scaled_within(s.senior, st, new_st);
            }
        }
        assert(total_shares(Seq::<Holding>::empty()) == 0);
    }
}

/// When a payout is split, the combined base is the plain sum of the
/// totals and the senior part lies between 0 and the amount.
pub proof fn lemma_notify_split_bounds(s: TrancheState, amount: i128)
    requires
        s.valid(),
        amount > 0,
        payout_base(s) != 0,
    ensures
        payout_base(s) == s.senior_total + s.junior_total,
        payout_base(s) > 0,
        0 <= senior_part(s, amount) <= amount,
{
    lemma_totals_nonnegative(s);
    let st = s.senior_total as int;
    let base = payout_base(s);
    let q = (amount * st) / base;
    assert(0 <= q <= amount) by (nonlinear_arith)
        requires
            0 <= st <= base,
            base > 0,
            amount > 0,
            q == (amount * st) / base,
    ;
}

/// The token amount that an effect moves out of the contract.
pub open spec fn out_amount(x: Effect) -> int {
    match x {
        Effect::TransferOut { amount, .. } => amount as int,
        _ => 0,
    }
}

/// The token amount that an effect moves into the contract.
pub open spec fn in_amount(x: Effect) -> int {
    match x {
        Effect::TransferIn { amount, .. } => amount as int,
        _ => 0,
    }
}

pub proof fn lemma_paid_pair(x: Effect, y: Effect)
    ensures
        paid_out(seq![x]) == out_amount(x),
        paid_in(seq![x]) == in_amount(x),
        paid_out(seq![x, y]) == out_amount(x) + out_amount(y),
        paid_in(seq![x, y]) == in_amount(x) + in_amount(y),
{
    let one = seq![x];
    let two = seq![x, y];
    assert(one.drop_last() =~= Seq::<Effect>::empty());
    assert(one.last() == x);
    assert(two.drop_last() =~= one);
    assert(two.last() == y);
    assert(paid_out(Seq::<Effect>::empty()) == 0);
    assert(paid_in(Seq::<Effect>::empty()) == 0);
    assert(paid_out(one) == out_amount(x));
    assert(paid_in(one) == in_amount(x));
}

/// The sum of the token amounts that leave the contract.
pub open spec fn paid_out(e: Seq<Effect>) -> int
    decreases e.len(),
{
    if e.len() == 0 {
        0
    } else {
        paid_out(e.drop_last()) + out_amount(e.last())
    }
}

/// The sum of the token amounts that enter the contract.
pub open spec fn paid_in(e: Seq<Effect>) -> int
    decreases e.len(),
{
    if e.len() == 0 {
        0
    } else {
        paid_in(e.drop_last()) + in_amount(e.last())
    }
}

pub proof fn lemma_paid_concat(a: Seq<Effect>, b: Seq<Effect>)
    ensures
        paid_out(a + b) == paid_out(a) + paid_out(b),
        paid_in(a + b) == paid_in(a) + paid_in(b),
    decreases b.len(),
{
    if b.len() == 0 {
        assert(a + b =~= a);
    } else {
        lemma_paid_concat(a, b.drop_last());
        assert((a + b).drop_last() =~= a + b.drop_last());
        assert((a + b).last() == b.last());
    }
}

/// Paying `pool` over `total` shares never pays more, in proportion, than
/// the holders' share of `total`: the sum paid times `total` is at most
/// `pool` times the holdings' sum.
pub proof fn lemma_plan_paid_bound(s: Seq<Holding>, pool: i128, total: i128, t: TrancheType)
    requires
        all_nonnegative(s),
        pool > 0,
        total > 0,
    ensures
        payout_plan(s, pool, total, t) matches Some(e) ==> {
            &&& 0 <= paid_out(e)
            &&& paid_out(e) * total <= pool * total_shares(s)
        },
    decreases s.len(),
{
    if s.len() > 0 {
        let init = s.drop_last();
        lemma_plan_paid_bound(init, pool, total, t);
        if let (Some(a), Some(b)) = (
            payout_plan(init, pool, total, t),
            payout_step(s.last(), pool, total, t),
        ) {
            lemma_paid_concat(a, b);
            let h = s.last().shares;
            assert(h >= 0);
            let pb = paid_out(b);
            if h == 0 {
                assert(pb == 0);
            } else {
                let p = pool * h;
                let pay = p / (total as int);
                assert(p >= 0 && pay * total <= p && pay >= 0) by (nonlinear_arith)
                    requires
                        pool > 0,
                        h >= 0,
                        total > 0,
                        p == pool * h,
                        pay == p / (total as int),
                ;
                if pay > 0 {
                    let b2 = seq![
                        Effect::TransferOut { to: s.last().account, amount: pay as i128 },
                        Effect::Paid { to: s.last().account, tranche: t, amount: pay as i128 },
                    ];
                    assert(b == b2);
                    lemma_paid_pair(b2[0], b2[1]);
                    assert(b2 =~= seq![b2[0], b2[1]]);
                    assert(pb == pay);
                } else {
                    assert(pb == 0);
                }
            }
            assert(pb * total <= pool * h && pb >= 0);
            let pa = paid_out(a);
            let ta = total_shares(init);
            assert((pa + pb) * total <= pool * (ta + h)) by (nonlinear_arith)
                requires
                    pa * total <= pool * ta,
                    pb * total <= pool * h,
            ;
        }
    }
}

/// A payout never moves more tokens out of the contract than the amount
/// that was reported, the holders of each tranche together receive at most
/// that tranche's part, and the ledger stays as it was.
pub proof fn law_payout_bounded(s: TrancheState, caller: AccountId, amount: i128)
    requires
        s.valid(),
    ensures
        notify_pool_payout_outcome(s, caller, amount) matches Ok((n, e)) ==> {
            &&& n == s
            &&& 0 <= paid_out(e) <= amount
            &&& payout_base(s) != 0 ==> 0 <= tranche_paid(e, TrancheType::Senior) <= tranche_pool(
                s,
                amount,
                TrancheType::Senior,
            )
            &&& payout_base(s) != 0 ==> 0 <= tranche_paid(e, TrancheType::Junior) <= tranche_pool(
                s,
                amount,
                TrancheType::Junior,
            )
            &&& payout_base(s) == 0 ==> paid_out(e) == 0
        },
{
    if let Ok((n, e)) = notify_pool_payout_outcome(s, caller, amount) {
        lemma_totals_nonnegative(s);
        if payout_base(s) == 0 {
            let x = Effect::Refunded { caller, amount };
            lemma_paid_pair(x, x);
        } else {
            lemma_notify_split_bounds(s, amount);
            let sa = senior_part(s, amount);
            let ja = amount - sa;
            let se = tranche_plan(s, TrancheType::Senior, sa)->Some_0;
            let je = tranche_plan(s, TrancheType::Junior, ja)->Some_0;
            let tail = seq![
                Effect::PayoutSummary {
                    caller,
                    amount,
                    senior_amount: sa as i128,
                    junior_amount: ja as i128,
                },
            ];
            lemma_paid_concat(se, je);
            lemma_paid_concat(se + je, tail);
            lemma_paid_pair(tail[0], tail[0]);
            assert(tail =~= seq![tail[0]]);
            assert(paid_out(tail) == 0);
            lemma_paid_to_concat(se, je, caller, TrancheType::Senior);
            lemma_paid_to_concat(se + je, tail, caller, TrancheType::Senior);
            lemma_paid_to_concat(se, je, caller, TrancheType::Junior);
            lemma_paid_to_concat(se + je, tail, caller, TrancheType::Junior);
            lemma_paid_to_pair(tail[0], tail[0], caller, TrancheType::Senior);
            lemma_paid_to_pair(tail[0], tail[0], caller, TrancheType::Junior);
            if sa > 0 && s.senior_total > 0 {
                lemma_plan_tagged(s.senior, sa as i128, s.senior_total, TrancheType::Senior);
            }
            if ja > 0 && s.junior_total > 0 {
                lemma_plan_tagged(s.junior, ja as i128, s.junior_total, TrancheType::Junior);
            }
            lemma_total_shares_nonnegative(s.senior);
            lemma_total_shares_nonnegative(s.junior);
            if sa > 0 && s.senior_total > 0 {
                lemma_plan_paid_bound(s.senior, sa as i128, s.senior_total, TrancheType::Senior);
                let ps = paid_out(se);
                let ts = total_shares(s.senior);
                let st = s.senior_total;
                assert(ps <= sa) by (nonlinear_arith)
                    requires
                        ps * st <= sa * ts,
                        0 <= ts <= st,
                        st > 0,
                        sa > 0,
                ;
            } else {
                assert(paid_out(se) == 0);
            }
            if ja > 0 && s.junior_total > 0 {
                lemma_plan_paid_bound(s.junior, ja as i128, s.junior_total, TrancheType::Junior);
                let pj = paid_out(je);
                let tj = total_shares(s.junior);
                let jt = s.junior_total;
                assert(pj <= ja) by (nonlinear_arith)
                    requires
                        pj * jt <= ja * tj,
                        0 <= tj <= jt,
                        jt > 0,
                        ja > 0,
                ;
            } else {
                assert(paid_out(je) == 0);
            }
        }
    }
}

/// A subscription credits exactly the amount: the token comes in, the
/// holder's shares, the tranche total and the sum of holdings each grow by
/// the amount, and nothing else changes.
pub proof fn law_subscribe_credits(s: TrancheState, from: AccountId, t: TrancheType, amount: i128)
    requires
        s.valid(),
    ensures
        subscribe_outcome(s, from, t, amount) matches Ok((n, e)) ==> {
            &&& n.total(t) == s.total(t) + amount
            &&& shares_of(n.holdings(t), from) == shares_of(s.holdings(t), from) + amount
            &&& forall|a: AccountId|
                a != from ==> #[trigger] shares_of(n.holdings(t), a) == shares_of(s.holdings(t), a)
            &&& total_shares(n.holdings(t)) == total_shares(s.holdings(t)) + amount
            &&& n == s.with_tranche(t, n.total(t), n.holdings(t))
            &&& paid_in(e) == amount
            &&& paid_out(e) == 0
        },
{
    if let Ok((n, e)) = subscribe_outcome(s, from, t, amount) {
        let h = s.holdings(t);
        let prev = shares_of(h, from);
        lemma_assign(h, from, (prev + amount) as i128);
        lemma_paid_pair(e[0], e[1]);
        assert(e =~= seq![e[0], e[1]]);
    }
}

/// A redemption debits exactly the amount: the token goes out, the
/// holder's shares and the tranche total shrink by the amount, nothing
/// else changes, and it never takes more than the holder has.
pub proof fn law_redeem_debits(s: TrancheState, from: AccountId, t: TrancheType, amount: i128)
    requires
        s.valid(),
    ensures
        redeem_outcome(s, from, t, amount) matches Ok((n, e)) ==> {
            &&& 0 < amount <= shares_of(s.holdings(t), from)
            &&& n.total(t) == s.total(t) - amount
            &&& shares_of(n.holdings(t), from) == shares_of(s.holdings(t), from) - amount
            &&& forall|a: AccountId|
                a != from ==> #[trigger] shares_of(n.holdings(t), a) == shares_of(s.holdings(t), a)
            &&& total_shares(n.holdings(t)) == total_shares(s.holdings(t)) - amount
            &&& n == s.with_tranche(t, n.total(t), n.holdings(t))
            &&& paid_out(e) == amount
            &&& paid_in(e) == 0
        },
{
    if let Ok((n, e)) = redeem_outcome(s, from, t, amount) {
        let h = s.holdings(t);
        let bal = shares_of(h, from);
        lemma_shares_bounded(h, from);
        lemma_assign(h, from, (bal - amount) as i128);
        lemma_paid_pair(e[0], e[1]);
        assert(e =~= seq![e[0], e[1]]);
    }
}

/// Redeeming right after subscribing the same amount gives back the
/// tokens and restores every holder's shares and the tranche total.
pub proof fn law_redeem_undoes_subscribe(
    s: TrancheState,
    from: AccountId,
    t: TrancheType,
    amount: i128,
)
    requires
        s.valid(),
        subscribe_outcome(s, from, t, amount) is Ok,
    ensures
        ({
            let s1 = subscribe_outcome(s, from, t, amount)->Ok_0.0;
            redeem_outcome(s1, from, t, amount) matches Ok((s2, _)) && {
                &&& s2.total(t) == s.total(t)
                &&& forall|a: AccountId| #[trigger]
                    shares_of(s2.holdings(t), a) == shares_of(s.holdings(t), a)
                &&& total_shares(s2.holdings(t)) == total_shares(s.holdings(t))
                &&& s2 == s.with_tranche(t, s2.total(t), s2.holdings(t))
            }
        }),
{
    let s1 = subscribe_outcome(s, from, t, amount)->Ok_0.0;
    lemma_shares_bounded(s.holdings(t), from);
    lemma_subscribe_keeps_valid(s, from, t, amount);
    law_subscribe_credits(s, from, t, amount);
    law_redeem_debits(s1, from, t, amount);
    let s2 = redeem_outcome(s1, from, t, amount)->Ok_0.0;
    assert forall|a: AccountId| #[trigger]
        shares_of(s2.holdings(t), a) == shares_of(s.holdings(t), a) by {
        if a != from {
            assert(shares_of(s1.holdings(t), a) == shares_of(s.holdings(t), a));
        }
    }
}

/// A holder can always take out its whole balance while the contract is
/// not paused.
pub proof fn law_redeem_available(s: TrancheState, from: AccountId, t: TrancheType)
    requires
        s.valid(),
        !s.paused,
        shares_of(s.holdings(t), from) > 0,
    ensures
        redeem_outcome(s, from, t, shares_of(s.holdings(t), from)) is Ok,
{
    if !s.initialized {
        assert(s.holdings(t).len() == 0);
    }
}

/// While paused, subscriptions and redemptions are refused.
pub proof fn law_pause_blocks(s: TrancheState, from: AccountId, t: TrancheType, amount: i128)
    requires
        s.paused,
    ensures
        subscribe_outcome(s, from, t, amount) == Err::<(TrancheState, Seq<Effect>), TrancheError>(
            TrancheError::Paused,
        ),
        redeem_outcome(s, from, t, amount) == Err::<(TrancheState, Seq<Effect>), TrancheError>(
            TrancheError::Paused,
        ),
{
}

/// Only the administrator of an initialized contract may pause, set the
/// minimums, report a payout or apply a loss.
pub proof fn law_admin_only(
    s: TrancheState,
    caller: AccountId,
    paused: bool,
    min_senior: i128,
    min_junior: i128,
    amount: i128,
)
    requires
        !s.initialized || caller != s.admin,
    ensures
        set_paused_outcome(s, caller, paused) is Err,
        set_minimums_outcome(s, caller, min_senior, min_junior) is Err,
        notify_pool_payout_outcome(s, caller, amount) is Err,
        apply_loss_outcome(s, caller, amount) is Err,
{
}

/// A contract is initialized once; a second attempt is refused.
pub proof fn law_initialize_once(
    s: TrancheState,
    admin: AccountId,
    token: AccountId,
    pool: AccountId,
    min_senior: i128,
    min_junior: i128,
)
    ensures
        initialize_outcome(s, admin, token, pool, min_senior, min_junior) matches Ok((n, _)) ==> (
        n.initialized && initialize_outcome(n, admin, token, pool, min_senior, min_junior)
            == Err::<(TrancheState, Seq<Effect>), TrancheError>(TrancheError::AlreadyInitialized)),
        s.initialized ==> initialize_outcome(s, admin, token, pool, min_senior, min_junior) == Err::<
            (TrancheState, Seq<Effect>),
            TrancheError,
        >(TrancheError::AlreadyInitialized),
{
}

/// The junior tranche absorbs a loss first: the senior tranche is untouched
/// while the junior total covers the loss, and the combined total drops by
/// the loss but never below zero.
pub proof fn law_loss_junior_first(s: TrancheState, admin: AccountId, loss: i128)
    requires
        s.valid(),
    ensures
        apply_loss_outcome(s, admin, loss) matches Ok((n, _)) ==> {
            &&& loss > 0 ==> n.senior_total + n.junior_total == if s.senior_total + s.junior_total
                >= loss {
                s.senior_total + s.junior_total - loss
            } else {
                0
            }
            &&& loss <= s.junior_total ==> n.senior == s.senior && n.senior_total == s.senior_total
            &&& loss > 0 && loss <= s.junior_total ==> n.junior_total == s.junior_total - loss
            &&& loss > s.junior_total ==> n.junior_total == 0 && n.junior.len() == 0
            &&& n.senior_total <= s.senior_total
            &&& n.junior_total <= s.junior_total
            &&& n == TrancheState {
                senior_total: n.senior_total,
                junior_total: n.junior_total,
                senior: n.senior,
                junior: n.junior,
                ..s
            }
        },
{
    lemma_totals_nonnegative(s);
}

/// After a loss, every holder keeps shares in proportion to the new
/// tranche total, rounded down: `shares * new_total / old_total`.
pub proof fn law_loss_pro_rata(
    s: TrancheState,
    admin: AccountId,
    loss: i128,
    t: TrancheType,
    a: AccountId,
)
    requires
        s.valid(),
        loss > 0,
        s.total(t) > 0,
    ensures
        apply_loss_outcome(s, admin, loss) matches Ok((n, _)) ==> shares_of(n.holdings(t), a) == (
        shares_of(s.holdings(t), a) * n.total(t)) / (s.total(t) as int),
{
    lemma_totals_nonnegative(s);
    if let Ok((n, _)) = apply_loss_outcome(s, admin, loss) {
        let x = shares_of(s.holdings(t), a) as int;
        let old_t = s.total(t) as int;
        let new_t = n.total(t) as int;
        if n.holdings(t) == s.holdings(t) && new_t == old_t {
            assert(x * old_t / old_t == x) by (nonlinear_arith)
                requires
                    old_t > 0,
            ;
        } else if n.holdings(t).len() == 0 && new_t == 0 {
            assert(shares_of(n.holdings(t), a) == 0);
            assert(x * 0 / old_t == 0) by (nonlinear_arith)
                requires
                    old_t > 0,
            ;
        } else {
            crate::ledger::lemma_scale_shares(s.holdings(t), n.total(t), s.total(t), a);
        }
    }
}

/// The amount that an effect pays to `to` as a holder of tranche `t`.
pub open spec fn paid_amount(x: Effect, to: AccountId, t: TrancheType) -> int {
    match x {
        Effect::Paid { to: y, tranche: u, amount } => if y == to && u == t {
            amount as int
        } else {
            0
        },
        _ => 0,
    }
}

/// The amount that an effect pays to any holder of tranche `t`.
pub open spec fn tranche_amount(x: Effect, t: TrancheType) -> int {
    match x {
        Effect::Paid { tranche: u, amount, .. } => if u == t {
            amount as int
        } else {
            0
        },
        _ => 0,
    }
}

/// What `to` is paid as a holder of tranche `t` (0 when nothing).
pub open spec fn paid_to(e: Seq<Effect>, to: AccountId, t: TrancheType) -> int
    decreases e.len(),
{
    if e.len() == 0 {
        0
    } else {
        paid_to(e.drop_last(), to, t) + paid_amount(e.last(), to, t)
    }
}

/// What the holders of tranche `t` are paid together.
pub open spec fn tranche_paid(e: Seq<Effect>, t: TrancheType) -> int
    decreases e.len(),
{
    if e.len() == 0 {
        0
    } else {
        tranche_paid(e.drop_last(), t) + tranche_amount(e.last(), t)
    }
}

pub proof fn lemma_paid_to_concat(a: Seq<Effect>, b: Seq<Effect>, to: AccountId, t: TrancheType)
    ensures
        paid_to(a + b, to, t) == paid_to(a, to, t) + paid_to(b, to, t),
        tranche_paid(a + b, t) == tranche_paid(a, t) + tranche_paid(b, t),
    decreases b.len(),
{
    if b.len() == 0 {
        assert(a + b =~= a);
    } else {
        lemma_paid_to_concat(a, b.drop_last(), to, t);
        assert((a + b).drop_last() =~= a + b.drop_last());
        assert((a + b).last() == b.last());
    }
}

pub proof fn lemma_paid_to_pair(x: Effect, y: Effect, to: AccountId, t: TrancheType)
    ensures
        paid_to(seq![x], to, t) == paid_amount(x, to, t),
        tranche_paid(seq![x], t) == tranche_amount(x, t),
        paid_to(seq![x, y], to, t) == paid_amount(x, to, t) + paid_amount(y, to, t),
        tranche_paid(seq![x, y], t) == tranche_amount(x, t) + tranche_amount(y, t),
{
    let one = seq![x];
    let two = seq![x, y];
    assert(one.drop_last() =~= Seq::<Effect>::empty());
    assert(one.last() == x);
    assert(two.drop_last() =~= one);
    assert(two.last() == y);
    assert(paid_to(Seq::<Effect>::empty(), to, t) == 0);
    assert(tranche_paid(Seq::<Effect>::empty(), t) == 0);
    assert(paid_to(one, to, t) == paid_amount(x, to, t));
    assert(tranche_paid(one, t) == tranche_amount(x, t));
}

/// The payouts of one tranche are tagged with that tranche, and what its
/// holders are paid together is what leaves the contract.
pub proof fn lemma_plan_tagged(s: Seq<Holding>, pool: i128, total: i128, t: TrancheType)
    ensures
        payout_plan(s, pool, total, t) matches Some(e) ==> {
            &&& tranche_paid(e, t) == paid_out(e)
            &&& forall|u: TrancheType| u != t ==> #[trigger] tranche_paid(e, u) == 0
            &&& forall|a: AccountId, u: TrancheType| u != t ==> #[trigger] paid_to(e, a, u) == 0
        },
    decreases s.len(),
{
    if s.len() > 0 {
        lemma_plan_tagged(s.drop_last(), pool, total, t);
        if let (Some(a), Some(b)) = (
            payout_plan(s.drop_last(), pool, total, t),
            payout_step(s.last(), pool, total, t),
        ) {
            lemma_paid_concat(a, b);
            assert forall|u: TrancheType| #[trigger] tranche_paid(a + b, u) == tranche_paid(a, u)
                + tranche_paid(b, u) by {
                lemma_paid_to_concat(a, b, s.last().account, u);
            }
            assert forall|x: AccountId, u: TrancheType| #[trigger] paid_to(a + b, x, u) == paid_to(
                a,
                x,
                u,
            ) + paid_to(b, x, u) by {
                lemma_paid_to_concat(a, b, x, u);
            }
            if b.len() == 0 {
                assert(paid_out(b) == 0);
                assert forall|u: TrancheType| #[trigger] tranche_paid(b, u) == 0 by {}
                assert forall|x: AccountId, u: TrancheType| #[trigger] paid_to(b, x, u) == 0 by {}
            } else {
                lemma_paid_pair(b[0], b[1]);
                assert(b =~= seq![b[0], b[1]]);
                assert forall|u: TrancheType| #[trigger] tranche_paid(b, u) == tranche_amount(b[0], u)
                    + tranche_amount(b[1], u) by {
                    lemma_paid_to_pair(b[0], b[1], s.last().account, u);
                }
                assert forall|x: AccountId, u: TrancheType| #[trigger] paid_to(b, x, u) == paid_amount(
                    b[0],
                    x,
                    u,
                ) + paid_amount(b[1], x, u) by {
                    lemma_paid_to_pair(b[0], b[1], x, u);
                }
            }
        }
    }
}

/// Each holder of a paid tranche receives `pool * shares / total`, rounded down.
pub proof fn lemma_plan_pays(
    s: Seq<Holding>,
    pool: i128,
    total: i128,
    t: TrancheType,
    who: AccountId,
)
    requires
        strictly_sorted(s),
        all_nonnegative(s),
        pool > 0,
        total > 0,
    ensures
        payout_plan(s, pool, total, t) matches Some(e) ==> paid_to(e, who, t) == (pool * shares_of(
            s,
            who,
        )) / (total as int),
    decreases s.len(),
{
    if s.len() == 0 {
        assert(shares_of(s, who) == 0);
        assert((pool * 0) / (total as int) == 0) by (nonlinear_arith)
            requires
                total > 0,
        ;
    } else {
        let init = s.drop_last();
        let h = s.last();
        lemma_plan_pays(init, pool, total, t, who);
        assert(init.push(h) =~= s);
        assert forall|j: int| 0 <= j < init.len() implies (#[trigger] init[j]).account
            != h.account by {
            assert(init[j] == s[j]);
            assert(crate::account::precedes(s[j].account, s[s.len() - 1].account));
            crate::account::lemma_precedes_total(s[j].account, h.account);
        }
        lemma_shares_push(init, h, who);
        if let (Some(a), Some(b)) = (
            payout_plan(init, pool, total, t),
            payout_step(h, pool, total, t),
        ) {
            lemma_paid_to_concat(a, b, who, t);
            assert(h.shares >= 0);
            if who == h.account {
                lemma_shares_absent(init, who);
                assert((pool * 0) / (total as int) == 0) by (nonlinear_arith)
                    requires
                        total > 0,
                ;
            }
            if b.len() == 0 {
                assert(paid_to(b, who, t) == 0);
                if who == h.account && h.shares != 0 {
                    let p = pool * h.shares;
                    assert(p / (total as int) >= 0) by (nonlinear_arith)
                        requires
                            p == pool * h.shares,
                            h.shares >= 0,
                            pool > 0,
                            total > 0,
                    ;
                }
                if who == h.account && h.shares == 0 {
                    assert((pool * 0) / (total as int) == 0) by (nonlinear_arith)
                        requires
                            total > 0,
                    ;
                }
            } else {
                lemma_paid_to_pair(b[0], b[1], who, t);
                assert(b =~= seq![b[0], b[1]]);
            }
        }
    }
}

/// The part of a payout that goes to tranche `t`.
pub open spec fn tranche_pool(s: TrancheState, amount: i128, t: TrancheType) -> int {
    match t {
        TrancheType::Senior => senior_part(s, amount),
        TrancheType::Junior => amount - senior_part(s, amount),
    }
}

/// Each holder of a tranche is paid its tranche's part times its shares,
/// divided by the tranche total and rounded down; nothing when the payout
/// is refunded or the tranche gets nothing.
pub proof fn law_payout_per_holder(
    s: TrancheState,
    caller: AccountId,
    amount: i128,
    t: TrancheType,
    who: AccountId,
)
    requires
        s.valid(),
    ensures
        notify_pool_payout_outcome(s, caller, amount) matches Ok((_, e)) ==> paid_to(e, who, t) == if payout_base(s) != 0 && tranche_pool(s, amount, t) > 0 && s.total(t) > 0 {
            (tranche_pool(s, amount, t) * shares_of(s.holdings(t), who)) / (s.total(t) as int)
        } else {
            0
        },
{
    if let Ok((_, e)) = notify_pool_payout_outcome(s, caller, amount) {
        if payout_base(s) == 0 {
            let x = Effect::Refunded { caller, amount };
            lemma_paid_to_pair(x, x, who, t);
        } else {
            lemma_notify_split_bounds(s, amount);
            let sa = senior_part(s, amount);
            let ja = amount - sa;
            let se = tranche_plan(s, TrancheType::Senior, sa)->Some_0;
            let je = tranche_plan(s, TrancheType::Junior, ja)->Some_0;
            let tail = seq![
                Effect::PayoutSummary {
                    caller,
                    amount,
                    senior_amount: sa as i128,
                    junior_amount: ja as i128,
                },
            ];
            lemma_paid_to_concat(se, je, who, t);
            lemma_paid_to_concat(se + je, tail, who, t);
            lemma_paid_to_pair(tail[0], tail[0], who, t);
            assert(tail =~= seq![tail[0]]);
            if sa > 0 && s.senior_total > 0 {
                lemma_plan_tagged(s.senior, sa as i128, s.senior_total, TrancheType::Senior);
                lemma_plan_pays(s.senior, sa as i128, s.senior_total, TrancheType::Senior, who);
            } else {
                assert(paid_to(se, who, t) == 0);
            }
            if ja > 0 && s.junior_total > 0 {
                lemma_plan_tagged(s.junior, ja as i128, s.junior_total, TrancheType::Junior);
                lemma_plan_pays(s.junior, ja as i128, s.junior_total, TrancheType::Junior, who);
            } else {
                assert(paid_to(je, who, t) == 0);
            }
        }
    }
}

/// A holder with at least as many shares as another in the same tranche is
/// paid at least as much; equal holdings are paid equally.
pub proof fn law_payout_monotone(
    s: TrancheState,
    caller: AccountId,
    amount: i128,
    t: TrancheType,
    u: AccountId,
    v: AccountId,
)
    requires
        s.valid(),
        shares_of(s.holdings(t), u) >= shares_of(s.holdings(t), v),
    ensures
        notify_pool_payout_outcome(s, caller, amount) matches Ok((_, e)) ==> paid_to(e, u, t)
            >= paid_to(e, v, t),
{
    law_payout_per_holder(s, caller, amount, t, u);
    law_payout_per_holder(s, caller, amount, t, v);
    let pool = tranche_pool(s, amount, t);
    let x = shares_of(s.holdings(t), u) as int;
    let y = shares_of(s.holdings(t), v) as int;
    let tot = s.total(t) as int;
    if pool > 0 && tot > 0 {
        assert((pool * x) / tot >= (pool * y) / tot) by (nonlinear_arith)
            requires
                x >= y,
                pool > 0,
                tot > 0,
        ;
    }
}

/// A positive transfer out to a holder followed by the `Paid` event that
/// reports the same holder and amount.
pub open spec fn transfer_then_paid(x: Effect, y: Effect) -> bool {
    match x {
        Effect::TransferOut { to, amount } => amount > 0 && match y {
            Effect::Paid { to: to2, amount: a2, .. } => to2 == to && a2 == amount,
            _ => false,
        },
        _ => false,
    }
}

/// The effects come in pairs, each a transfer followed by its `Paid` event.
pub open spec fn paired(e: Seq<Effect>) -> bool
    decreases e.len(),
{
    if e.len() == 0 {
        true
    } else if e.len() == 1 {
        false
    } else {
        paired(e.subrange(0, e.len() - 2)) && transfer_then_paid(e[e.len() - 2], e[e.len() - 1])
    }
}

pub open spec fn is_paid(x: Effect) -> bool {
    x is Paid
}

/// One `Paid` event comes before another: senior before junior, and within
/// a tranche in strictly increasing address order.
pub open spec fn paid_before(x: Effect, y: Effect) -> bool {
    match (x, y) {
        (
            Effect::Paid { to: a, tranche: ta, .. },
            Effect::Paid { to: b, tranche: tb, .. },
        ) => (ta == TrancheType::Senior && tb == TrancheType::Junior) || (ta == tb
            && crate::account::precedes(a, b)),
        _ => false,
    }
}

/// Every two `Paid` events appear in payout order.
pub open spec fn paid_in_order(e: Seq<Effect>) -> bool {
    forall|i: int, j: int|
        0 <= i < j < e.len() && is_paid(#[trigger] e[i]) && is_paid(#[trigger] e[j]) ==> paid_before(
            e[i],
            e[j],
        )
}

pub proof fn lemma_paired_concat(a: Seq<Effect>, b: Seq<Effect>)
    requires
        paired(a),
        paired(b),
    ensures
        paired(a + b),
    decreases b.len(),
{
    if b.len() == 0 {
        assert(a + b =~= a);
    } else {
        let c = a + b;
        let bb = b.subrange(0, b.len() - 2);
        lemma_paired_concat(a, bb);
        assert(c.subrange(0, c.len() - 2) =~= a + bb);
        assert(c[c.len() - 2] == b[b.len() - 2]);
        assert(c[c.len() - 1] == b[b.len() - 1]);
    }
}

/// The payouts of one tranche are transfer/event pairs, their events all
/// name that tranche and holders of it, and they follow the address order.
pub proof fn lemma_plan_shape(s: Seq<Holding>, pool: i128, total: i128, t: TrancheType)
    requires
        strictly_sorted(s),
        total > 0,
    ensures
        payout_plan(s, pool, total, t) matches Some(e) ==> {
            &&& paired(e)
            &&& paid_in_order(e)
            &&& forall|i: int|
                0 <= i < e.len() && is_paid(#[trigger] e[i]) ==> {
                    &&& e[i]->Paid_tranche == t
                    &&& exists|k: int| 0 <= k < s.len() && s[k].account == e[i]->Paid_to
                }
        },
    decreases s.len(),
{
    if s.len() > 0 {
        let init = s.drop_last();
        let h = s.last();
        lemma_plan_shape(init, pool, total, t);
        if let (Some(a), Some(b)) = (
            payout_plan(init, pool, total, t),
            payout_step(h, pool, total, t),
        ) {
            let e = a + b;
            assert(payout_plan(s, pool, total, t) == Some(e));
            if b.len() == 0 {
                assert(e =~= a);
                assert forall|i: int| 0 <= i < e.len() && is_paid(#[trigger] e[i]) implies exists|
                    k: int,
                | 0 <= k < s.len() && s[k].account == e[i]->Paid_to by {
                    let k = choose|k: int| 0 <= k < init.len() && init[k].account == a[i]->Paid_to;
                    assert(s[k] == init[k]);
                }
            } else {
                assert(b.len() == 2);
                assert(b.subrange(0, 0) =~= Seq::<Effect>::empty());
                assert(paired(Seq::<Effect>::empty()));
                let p = pool * h.shares;
                let pay = p / (total as int);
                assert(pay <= p) by (nonlinear_arith)
                    requires
                        pay == p / (total as int),
                        total > 0,
                        pay > 0,
                ;
                assert(b == seq![
                    Effect::TransferOut { to: h.account, amount: pay as i128 },
                    Effect::Paid { to: h.account, tranche: t, amount: pay as i128 },
                ]);
                assert(transfer_then_paid(b[0], b[1]));
                assert(paired(b));
                lemma_paired_concat(a, b);
                assert forall|i: int| 0 <= i < e.len() && is_paid(#[trigger] e[i]) implies {
                    &&& e[i]->Paid_tranche == t
                    &&& exists|k: int| 0 <= k < s.len() && s[k].account == e[i]->Paid_to
                } by {
                    if i < a.len() {
                        assert(e[i] == a[i]);
                        let k = choose|k: int|
                            0 <= k < init.len() && init[k].account == a[i]->Paid_to;
                        assert(s[k] == init[k]);
                    } else {
                        assert(e[i] == b[i - a.len()]);
                        assert(s[s.len() - 1].account == h.account);
                    }
                }
                assert forall|i: int, j: int|
                    0 <= i < j < e.len() && is_paid(#[trigger] e[i]) && is_paid(
                        #[trigger] e[j],
                    ) implies paid_before(e[i], e[j]) by {
                    if j < a.len() {
                        assert(e[i] == a[i] && e[j] == a[j]);
                    } else if i < a.len() {
                        assert(e[i] == a[i]);
                        assert(e[j] == b[j - a.len()]);
                        assert(b[1]->Paid_to == h.account);
                        let k = choose|k: int|
                            0 <= k < init.len() && init[k].account == a[i]->Paid_to;
                        assert(s[k] == init[k]);
                        assert(crate::account::precedes(s[k].account, s[s.len() - 1].account));
                    } else {
                        assert(e[i] == b[i - a.len()] && e[j] == b[j - a.len()]);
                    }
                }
            }
        }
    }
}

/// The effects of an accepted payout split between the tranches: pairs of
/// a positive transfer and its `Paid` event, senior holders before junior
/// holders and each tranche in address order, then one summary reporting
/// the amount, the senior part `amount * senior_total / (senior_total +
/// junior_total)` (rounded down) and the junior part, the rest.
pub proof fn law_payout_shape(s: TrancheState, caller: AccountId, amount: i128)
    requires
        s.valid(),
    ensures
        payout_base(s) != 0 ==> (notify_pool_payout_outcome(s, caller, amount) matches Ok((_, e))
            ==> {
            let sa = (amount * s.senior_total) / (s.senior_total + s.junior_total);
            &&& e.len() >= 1
            &&& e.last() == Effect::PayoutSummary {
                caller,
                amount,
                senior_amount: sa as i128,
                junior_amount: (amount - sa) as i128,
            }
            &&& paired(e.drop_last())
            &&& paid_in_order(e)
        }),
{
    if let Ok((_, e)) = notify_pool_payout_outcome(s, caller, amount) {
        if payout_base(s) != 0 {
            lemma_notify_split_bounds(s, amount);
            let sa = senior_part(s, amount);
            let ja = amount - sa;
            let se = tranche_plan(s, TrancheType::Senior, sa)->Some_0;
            let je = tranche_plan(s, TrancheType::Junior, ja)->Some_0;
            let tail = seq![
                Effect::PayoutSummary {
                    caller,
                    amount,
                    senior_amount: sa as i128,
                    junior_amount: ja as i128,
                },
            ];
            if sa > 0 && s.senior_total > 0 {
                lemma_plan_shape(s.senior, sa as i128, s.senior_total, TrancheType::Senior);
            }
            if ja > 0 && s.junior_total > 0 {
                lemma_plan_shape(s.junior, ja as i128, s.junior_total, TrancheType::Junior);
            }
            lemma_paired_concat(se, je);
            let body = se + je;
            assert(e == body + tail);
            assert(e.drop_last() =~= body);
            assert forall|i: int, j: int|
                0 <= i < j < e.len() && is_paid(#[trigger] e[i]) && is_paid(
                    #[trigger] e[j],
                ) implies paid_before(e[i], e[j]) by {
                assert(j < body.len());
                if j < se.len() {
                    assert(e[i] == se[i] && e[j] == se[j]);
                } else if i < se.len() {
                    assert(e[i] == se[i] && e[j] == je[j - se.len()]);
                } else {
                    assert(e[i] == je[i - se.len()] && e[j] == je[j - se.len()]);
                }
            }
        }
    }
}

/// A loss writes every holding of a reduced tranche down, and holders left
/// with nothing leave the tranche: the junior tranche after any positive
/// loss, and the senior tranche once the junior tranche is exhausted, hold
/// only positive holdings.
pub proof fn law_loss_drops_empty(s: TrancheState, admin: AccountId, loss: i128)
    requires
        s.valid(),
        loss > 0,
    ensures
        apply_loss_outcome(s, admin, loss) matches Ok((n, _)) ==> {
            &&& forall|i: int| 0 <= i < n.junior.len() ==> (#[trigger] n.junior[i]).shares > 0
            &&& loss > s.junior_total && s.senior_total > 0 ==> forall|i: int|
                0 <= i < n.senior.len() ==> (#[trigger] n.senior[i]).shares > 0
        },
{
    lemma_totals_nonnegative(s);
    let jt = s.junior_total;
    let st = s.senior_total;
    if jt >= loss {
        lemma_scale_holdings(s.junior, (jt - loss) as i128, jt);
    }
    if loss > jt && st > 0 && st > loss - jt {
        lemma_scale_holdings(s.senior, (st - (loss - jt)) as i128, st);
    }
}

} // verus!
