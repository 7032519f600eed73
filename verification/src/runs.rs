use vstd::prelude::*;

use crate::account::AccountId;
use crate::ledger::{Holding, total_shares};
use crate::laws::{
    lemma_apply_loss_keeps_valid,
    lemma_redeem_keeps_valid,
    lemma_subscribe_keeps_valid,
};
use crate::tranche::{
    TrancheState,
    TrancheType,
    Transition,
    apply_loss_outcome,
    initialize_outcome,
    notify_pool_payout_outcome,
    redeem_outcome,
    set_minimums_outcome,
    set_paused_outcome,
    subscribe_outcome,
};

verus! {

/// A call to one of the contract's state-changing operations.
pub enum Call {
    Initialize {
        admin: AccountId,
        token: AccountId,
        pool: AccountId,
        min_senior: i128,
        min_junior: i128,
    },
    SetPaused { admin: AccountId, paused: bool },
    SetMinimums { admin: AccountId, min_senior: i128, min_junior: i128 },
    Subscribe { from: AccountId, tranche: TrancheType, amount: i128 },
    Redeem { from: AccountId, tranche: TrancheType, amount: i128 },
    NotifyPoolPayout { caller: AccountId, amount: i128 },
    ApplyLoss { admin: AccountId, loss: i128 },
}

/// The outcome of a call on a ledger.
pub open spec fn step(s: TrancheState, c: Call) -> Transition {
    match c {
        Call::Initialize { admin, token, pool, min_senior, min_junior } => initialize_outcome(
            s,
            admin,
            token,
            pool,
            min_senior,
            min_junior,
        ),
        Call::SetPaused { admin, paused } => set_paused_outcome(s, admin, paused),
        Call::SetMinimums { admin, min_senior, min_junior } => set_minimums_outcome(
            s,
            admin,
            min_senior,
            min_junior,
        ),
        Call::Subscribe { from, tranche, amount } => subscribe_outcome(s, from, tranche, amount),
        Call::Redeem { from, tranche, amount } => redeem_outcome(s, from, tranche, amount),
        Call::NotifyPoolPayout { caller, amount } => notify_pool_payout_outcome(s, caller, amount),
        Call::ApplyLoss { admin, loss } => apply_loss_outcome(s, admin, loss),
    }
}

/// The ledger after a call: the next ledger when accepted, the same ledger
/// when refused.
pub open spec fn after(s: TrancheState, c: Call) -> TrancheState {
    match step(s, c) {
        Ok((n, _)) => n,
        Err(_) => s,
    }
}

/// The ledger after a sequence of calls.
pub open spec fn run(s: TrancheState, calls: Seq<Call>) -> TrancheState
    decreases calls.len(),
{
    if calls.len() == 0 {
        s
    } else {
        after(run(s, calls.drop_last()), calls.last())
    }
}

/// The argument of the last accepted `set_paused` in `calls`, or the flag
/// of `s` when there is none.
pub open spec fn last_pause(s: TrancheState, calls: Seq<Call>) -> bool
    decreases calls.len(),
{
    if calls.len() == 0 {
        s.paused
    } else {
        match calls.last() {
            Call::SetPaused { admin, paused } => if set_paused_outcome(
                run(s, calls.drop_last()),
                admin,
                paused,
            ) is Ok {
                paused
            } else {
                last_pause(s, calls.drop_last())
            },
            _ => last_pause(s, calls.drop_last()),
        }
    }
}

/// Every call keeps the ledger invariant.
pub proof fn lemma_step_keeps_valid(s: TrancheState, c: Call)
    requires
        s.valid(),
    ensures
        after(s, c).valid(),
{
    assert(total_shares(Seq::<Holding>::empty()) == 0);
    match c {
        Call::Subscribe { from, tranche, amount } => {
            lemma_subscribe_keeps_valid(s, from, tranche, amount);
        },
        Call::Redeem { from, tranche, amount } => {
            lemma_redeem_keeps_valid(s, from, tranche, amount);
        },
        Call::ApplyLoss { admin, loss } => {
            lemma_apply_loss_keeps_valid(s, admin, loss);
        },
        _ => {},
    }
}

/// Every sequence of calls keeps the ledger invariant.
pub proof fn lemma_run_keeps_valid(s: TrancheState, calls: Seq<Call>)
    requires
        s.valid(),
    ensures
        run(s, calls).valid(),
    decreases calls.len(),
{
    if calls.len() > 0 {
        lemma_run_keeps_valid(s, calls.drop_last());
        lemma_step_keeps_valid(run(s, calls.drop_last()), calls.last());
    }
}

/// Once initialized, a contract stays initialized and keeps its
/// administrator, whatever calls follow.
pub proof fn law_admin_fixed(s: TrancheState, calls: Seq<Call>)
    requires
        s.initialized,
    ensures
        run(s, calls).initialized,
        run(s, calls).admin == s.admin,
    decreases calls.len(),
{
    if calls.len() > 0 {
        law_admin_fixed(s, calls.drop_last());
    }
}

/// After a successful initialization with administrator `admin`, the
/// administrator is `admin` whatever calls follow.
pub proof fn law_admin_after_initialize(
    s: TrancheState,
    admin: AccountId,
    token: AccountId,
    pool: AccountId,
    min_senior: i128,
    min_junior: i128,
    calls: Seq<Call>,
)
    ensures
        initialize_outcome(s, admin, token, pool, min_senior, min_junior) matches Ok((n, _)) ==> {
            &&& run(n, calls).initialized
            &&& run(n, calls).admin == admin
        },
{
    if let Ok((n, _)) = initialize_outcome(s, admin, token, pool, min_senior, min_junior) {
        law_admin_fixed(n, calls);
    }
}

/// The pause flag is the argument of the last accepted `set_paused`; no
/// other call changes it. A contract that was never initialized is not
/// paused, so there the flag is false until an accepted `set_paused`.
pub proof fn law_pause_flag(s: TrancheState, calls: Seq<Call>)
    requires
        s.valid(),
    ensures
        run(s, calls).paused == last_pause(s, calls),
        !s.initialized ==> !s.paused,
    decreases calls.len(),
{
    if calls.len() > 0 {
        law_pause_flag(s, calls.drop_last());
        lemma_run_keeps_valid(s, calls.drop_last());
    }
}

} // verus!
