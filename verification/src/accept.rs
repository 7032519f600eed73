use vstd::prelude::*;

use crate::account::AccountId;
use crate::ledger::{Holding, all_nonnegative, scale_holdings, shares_of, total_shares};
use crate::laws::{lemma_notify_split_bounds, lemma_totals_nonnegative};
use crate::payout::payout_plan;
use crate::tranche::{
    Effect,
    TrancheError,
    TrancheState,
    TrancheType,
    apply_loss_outcome,
    initialize_outcome,
    notify_pool_payout_outcome,
    payout_base,
    redeem_outcome,
    senior_part,
    set_minimums_outcome,
    set_paused_outcome,
    subscribe_outcome,
};

verus! {

/// Every holder's product with `pool` fits in `i128`.
pub open spec fn products_fit(s: Seq<Holding>, factor: int) -> bool {
    forall|i: int| 0 <= i < s.len() ==> #[trigger] (factor * s[i].shares) <= i128::MAX
}

/// A payout plan is only refused when some holder's product overflows;
/// a holder whose part rounds down to nothing is simply not paid.
pub proof fn lemma_plan_some(s: Seq<Holding>, pool: i128, total: i128, t: TrancheType)
    requires
        all_nonnegative(s),
        pool > 0,
        total > 0,
        products_fit(s, pool as int),
    ensures
        payout_plan(s, pool, total, t) is Some,
    decreases s.len(),
{
    if s.len() > 0 {
        let init = s.drop_last();
        assert(all_nonnegative(init)) by {
            assert forall|i: int| 0 <= i < init.len() implies (#[trigger] init[i]).shares >= 0 by {
                assert(init[i] == s[i]);
            }
        }
        assert(products_fit(init, pool as int)) by {
            assert forall|i: int| 0 <= i < init.len() implies #[trigger] (pool * init[i].shares)
                <= i128::MAX by {
                assert(init[i] == s[i]);
            }
        }
        lemma_plan_some(init, pool, total, t);
        let h = s.last();
        assert(pool * h.shares <= i128::MAX);
        assert(pool * h.shares >= 0) by (nonlinear_arith)
            requires
                pool > 0,
                h.shares >= 0,
        ;
    }
}

/// Rescaling is only refused when some holder's product overflows.
pub proof fn lemma_scale_some(s: Seq<Holding>, num: i128, den: i128)
    requires
        all_nonnegative(s),
        num >= 0,
        den > 0,
        products_fit(s, num as int),
    ensures
        scale_holdings(s, num, den) is Some,
    decreases s.len(),
{
    if s.len() > 0 {
        let init = s.drop_last();
        assert(all_nonnegative(init)) by {
            assert forall|i: int| 0 <= i < init.len() implies (#[trigger] init[i]).shares >= 0 by {
                assert(init[i] == s[i]);
            }
        }
        assert(products_fit(init, num as int)) by {
            assert forall|i: int| 0 <= i < init.len() implies #[trigger] (num * init[i].shares)
                <= i128::MAX by {
                assert(init[i] == s[i]);
            }
        }
        lemma_scale_some(init, num, den);
        let h = s.last();
        assert(num * h.shares <= i128::MAX);
        assert(h.shares * num == num * h.shares && num * h.shares >= 0) by (nonlinear_arith)
            requires
                num >= 0,
                h.shares >= 0,
        ;
    }
}

/// Initialization of a fresh contract is accepted, and the contract then
/// holds exactly the given administrator, token and pool, the minimums
/// (negative ones taken as 0), empty tranches, and no pause; the event
/// reports the same values.
pub proof fn law_initialize_sets_parties(
    s: TrancheState,
    admin: AccountId,
    token: AccountId,
    pool: AccountId,
    min_senior: i128,
    min_junior: i128,
)
    ensures
        !s.initialized ==> initialize_outcome(s, admin, token, pool, min_senior, min_junior) is Ok,
        initialize_outcome(s, admin, token, pool, min_senior, min_junior) matches Ok((n, e)) ==> {
            let ms: i128 = if min_senior < 0 {
                0
            } else {
                min_senior
            };
            let mj: i128 = if min_junior < 0 {
                0
            } else {
                min_junior
            };
            &&& n.initialized
            &&& n.admin == admin
            &&& n.token == token
            &&& n.pool == pool
            &&& n.min_senior == ms
            &&& n.min_junior == mj
            &&& n.senior_total == 0
            &&& n.junior_total == 0
            &&& n.senior.len() == 0
            &&& n.junior.len() == 0
            &&& !n.paused
            &&& e == seq![
                Effect::Initialized { admin, token, pool, min_senior: ms, min_junior: mj },
            ]
        },
{
}

/// The administrator of an initialized contract can always set the pause
/// flag; it then holds exactly the given value and nothing else changes.
pub proof fn law_set_paused_sets_flag(s: TrancheState, admin: AccountId, paused: bool)
    ensures
        s.initialized && admin == s.admin ==> set_paused_outcome(s, admin, paused) is Ok,
        set_paused_outcome(s, admin, paused) matches Ok((n, e)) ==> {
            &&& n == TrancheState { paused, ..s }
            &&& e == seq![Effect::PauseSet { paused }]
        },
{
}

/// The administrator of an initialized contract can always set the
/// minimums; afterwards they are exactly the given values (a negative one
/// taken as 0), whether higher or lower than before, and nothing else
/// changes.
pub proof fn law_set_minimums_sets_values(
    s: TrancheState,
    admin: AccountId,
    min_senior: i128,
    min_junior: i128,
)
    ensures
        s.initialized && admin == s.admin ==> set_minimums_outcome(s, admin, min_senior, min_junior)
            is Ok,
        set_minimums_outcome(s, admin, min_senior, min_junior) matches Ok((n, e)) ==> {
            let ms: i128 = if min_senior < 0 {
                0
            } else {
                min_senior
            };
            let mj: i128 = if min_junior < 0 {
                0
            } else {
                min_junior
            };
            &&& n == TrancheState { min_senior: ms, min_junior: mj, ..s }
            &&& e == seq![Effect::MinimumsUpdated { admin, min_senior: ms, min_junior: mj }]
        },
{
}

/// A subscription is accepted whenever the contract is initialized and not
/// paused, the amount is positive and at least the minimum of the chosen
/// tranche (the other tranche's minimum plays no part), and the tranche
/// total and the holder's shares stay within `i128`.
pub proof fn law_subscribe_accepted(
    s: TrancheState,
    from: AccountId,
    t: TrancheType,
    amount: i128,
)
    requires
        s.initialized,
        !s.paused,
        amount > 0,
        t == TrancheType::Senior ==> amount >= s.min_senior,
        t == TrancheType::Junior ==> amount >= s.min_junior,
        s.total(t) + amount <= i128::MAX,
        shares_of(s.holdings(t), from) + amount <= i128::MAX,
    ensures
        subscribe_outcome(s, from, t, amount) is Ok,
{
}

/// A subscription below the minimum of its own tranche is refused with
/// that tranche's error, while the contract runs and the amount is positive.
pub proof fn law_subscribe_below_minimum(
    s: TrancheState,
    from: AccountId,
    t: TrancheType,
    amount: i128,
)
    requires
        !s.paused,
        amount > 0,
    ensures
        t == TrancheType::Senior && amount < s.min_senior ==> subscribe_outcome(s, from, t, amount)
            == Err::<(TrancheState, Seq<Effect>), TrancheError>(TrancheError::BelowSeniorMinimum),
        t == TrancheType::Junior && amount < s.min_junior ==> subscribe_outcome(s, from, t, amount)
            == Err::<(TrancheState, Seq<Effect>), TrancheError>(TrancheError::BelowJuniorMinimum),
{
}

/// While the contract is not paused, a holder can redeem any positive
/// amount up to its balance, whatever the minimums.
pub proof fn law_redeem_any_amount(s: TrancheState, from: AccountId, t: TrancheType, amount: i128)
    requires
        s.valid(),
        !s.paused,
        0 < amount <= shares_of(s.holdings(t), from),
    ensures
        redeem_outcome(s, from, t, amount) is Ok,
{
    if !s.initialized {
        assert(s.holdings(t).len() == 0);
    }
}

/// A payout reported by the administrator is refused only on overflow:
/// when the senior product `amount * senior_total` and every holder's
/// product with its tranche's part fit in `i128`, it is accepted, also when
/// some holder's part rounds down to nothing.
pub proof fn law_payout_refused_only_on_overflow(s: TrancheState, caller: AccountId, amount: i128)
    requires
        s.valid(),
        s.initialized,
        caller == s.admin,
        amount > 0,
        amount * s.senior_total <= i128::MAX,
        s.senior_total + s.junior_total > 0 ==> products_fit(
            s.senior,
            (amount * s.senior_total) / (s.senior_total + s.junior_total),
        ),
        s.senior_total + s.junior_total > 0 ==> products_fit(
            s.junior,
            amount - (amount * s.senior_total) / (s.senior_total + s.junior_total),
        ),
    ensures
        notify_pool_payout_outcome(s, caller, amount) is Ok,
{
    lemma_totals_nonnegative(s);
    let st = s.senior_total;
    assert(amount * st >= 0) by (nonlinear_arith)
        requires
            amount > 0,
            st >= 0,
    ;
    if payout_base(s) != 0 {
        lemma_notify_split_bounds(s, amount);
        let sa = senior_part(s, amount);
        let ja = amount - sa;
        if sa > 0 && s.senior_total > 0 {
            lemma_plan_some(s.senior, sa as i128, s.senior_total, TrancheType::Senior);
        }
        if ja > 0 && s.junior_total > 0 {
            lemma_plan_some(s.junior, ja as i128, s.junior_total, TrancheType::Junior);
        }
    }
}

/// A loss applied by the administrator is refused only on overflow: when
/// the holdings of each tranche that is written down, multiplied by that
/// tranche's new total, fit in `i128`, it is accepted.
pub proof fn law_loss_refused_only_on_overflow(s: TrancheState, admin: AccountId, loss: i128)
    requires
        s.valid(),
        s.initialized,
        admin == s.admin,
        loss <= s.junior_total ==> products_fit(s.junior, s.junior_total - loss),
        loss > s.junior_total && s.senior_total > loss - s.junior_total ==> products_fit(
            s.senior,
            s.senior_total - (loss - s.junior_total),
        ),
    ensures
        apply_loss_outcome(s, admin, loss) is Ok,
{
    lemma_totals_nonnegative(s);
    if loss > 0 {
        let jt = s.junior_total;
        let st = s.senior_total;
        if jt >= loss {
            lemma_scale_some(s.junior, (jt - loss) as i128, jt);
        } else if st > loss - jt {
            lemma_scale_some(s.senior, (st - (loss - jt)) as i128, st);
        }
    }
}

/// The refusals of a subscription, in the order in which they are
/// checked: pause, a non-positive amount, the tranche's minimum, a contract
/// that was never initialized, then overflow of the tranche total and of
/// the holder's shares.
pub proof fn law_subscribe_refusals(s: TrancheState, from: AccountId, t: TrancheType, amount: i128)
    ensures
        ({
            let r = subscribe_outcome(s, from, t, amount);
            let below = (t == TrancheType::Senior && amount < s.min_senior) || (t
                == TrancheType::Junior && amount < s.min_junior);
            &&& s.paused ==> r == Err::<(TrancheState, Seq<Effect>), TrancheError>(
                TrancheError::Paused,
            )
            &&& !s.paused && amount <= 0 ==> r == Err::<(TrancheState, Seq<Effect>), TrancheError>(
                TrancheError::NonPositiveAmount,
            )
            &&& !s.paused && amount > 0 && !below && !s.initialized ==> r == Err::<
                (TrancheState, Seq<Effect>),
                TrancheError,
            >(TrancheError::NotInitialized)
            &&& !s.paused && amount > 0 && !below && s.initialized && s.total(t) + amount
                > i128::MAX ==> r == Err::<(TrancheState, Seq<Effect>), TrancheError>(
                if t == TrancheType::Senior {
                    TrancheError::SeniorTotalOverflow
                } else {
                    TrancheError::JuniorTotalOverflow
                },
            )
            &&& !s.paused && amount > 0 && !below && s.initialized && s.total(t) + amount
                <= i128::MAX && shares_of(s.holdings(t), from) + amount > i128::MAX ==> r == Err::<
                (TrancheState, Seq<Effect>),
                TrancheError,
            >(TrancheError::BalanceOverflow)
            &&& r matches Ok((_, e)) ==> e == seq![
                Effect::TransferIn { from, amount },
                Effect::Subscribed { from, tranche: t, amount },
            ]
        }),
{
}

/// The refusals of a redemption, in the order in which they are checked:
/// pause, a non-positive amount, then a balance smaller than the amount;
/// an accepted redemption sends the amount back and reports it.
pub proof fn law_redeem_refusals(s: TrancheState, from: AccountId, t: TrancheType, amount: i128)
    ensures
        ({
            let r = redeem_outcome(s, from, t, amount);
            &&& s.paused ==> r == Err::<(TrancheState, Seq<Effect>), TrancheError>(
                TrancheError::Paused,
            )
            &&& !s.paused && amount <= 0 ==> r == Err::<(TrancheState, Seq<Effect>), TrancheError>(
                TrancheError::NonPositiveAmount,
            )
            &&& !s.paused && amount > 0 && shares_of(s.holdings(t), from) < amount ==> r == Err::<
                (TrancheState, Seq<Effect>),
                TrancheError,
            >(
                if t == TrancheType::Senior {
                    TrancheError::InsufficientSeniorBalance
                } else {
                    TrancheError::InsufficientJuniorBalance
                },
            )
            &&& r matches Ok((_, e)) ==> e == seq![
                Effect::TransferOut { to: from, amount },
                Effect::Redeemed { from, tranche: t, amount },
            ]
        }),
{
}

/// Who may run the administrator's operations: before initialization
/// every one of them is refused as not initialized, afterwards every caller
/// other than the administrator is refused as not the administrator.
pub proof fn law_admin_refusals(
    s: TrancheState,
    caller: AccountId,
    paused: bool,
    min_senior: i128,
    min_junior: i128,
    amount: i128,
)
    ensures
        ({
            let e = if !s.initialized {
                TrancheError::NotInitialized
            } else {
                TrancheError::NotAdmin
            };
            (!s.initialized || caller != s.admin) ==> {
                &&& set_paused_outcome(s, caller, paused) == Err::<
                    (TrancheState, Seq<Effect>),
                    TrancheError,
                >(e)
                &&& set_minimums_outcome(s, caller, min_senior, min_junior) == Err::<
                    (TrancheState, Seq<Effect>),
                    TrancheError,
                >(e)
                &&& notify_pool_payout_outcome(s, caller, amount) == Err::<
                    (TrancheState, Seq<Effect>),
                    TrancheError,
                >(e)
                &&& apply_loss_outcome(s, caller, amount) == Err::<
                    (TrancheState, Seq<Effect>),
                    TrancheError,
                >(e)
            }
        }),
{
}

/// For the administrator, a payout of a non-positive amount is refused,
/// one whose senior product overflows is refused as an overflow, and one
/// over a ledger with no shares at all (or whose combined total leaves
/// `i128`) is answered by a refund event alone.
pub proof fn law_payout_amount_cases(s: TrancheState, amount: i128)
    requires
        s.valid(),
        s.initialized,
    ensures
        amount <= 0 ==> notify_pool_payout_outcome(s, s.admin, amount) == Err::<
            (TrancheState, Seq<Effect>),
            TrancheError,
        >(TrancheError::NonPositiveAmount),
        amount > 0 && (s.senior_total + s.junior_total == 0 || s.senior_total + s.junior_total
            > i128::MAX) ==> notify_pool_payout_outcome(
            s,
            s.admin,
            amount,
        ) == Ok::<(TrancheState, Seq<Effect>), TrancheError>(
            (s, seq![Effect::Refunded { caller: s.admin, amount }]),
        ),
        amount > 0 && 0 < s.senior_total + s.junior_total <= i128::MAX && amount * s.senior_total
            > i128::MAX ==> notify_pool_payout_outcome(s, s.admin, amount) == Err::<
            (TrancheState, Seq<Effect>),
            TrancheError,
        >(TrancheError::ArithmeticOverflow),
{
    lemma_totals_nonnegative(s);
}

/// For the administrator, a non-positive loss changes nothing and reports
/// nothing; an accepted positive loss reports exactly itself.
pub proof fn law_loss_effects(s: TrancheState, loss: i128)
    requires
        s.initialized,
    ensures
        loss <= 0 ==> apply_loss_outcome(s, s.admin, loss) == Ok::<
            (TrancheState, Seq<Effect>),
            TrancheError,
        >((s, Seq::empty())),
        loss > 0 ==> (apply_loss_outcome(s, s.admin, loss) matches Ok((_, e)) ==> e == seq![
            Effect::LossApplied { admin: s.admin, amount: loss },
        ]),
{
}

} // verus!
