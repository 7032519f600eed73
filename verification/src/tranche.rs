use vstd::prelude::*;

use crate::account::AccountId;
use crate::ledger::{
    Holding,
    all_nonnegative,
    assign,
    assign_shares,
    scale_holdings,
    scaled_holdings,
    shares_in,
    shares_of,
    strictly_sorted,
    total_shares,
};
use crate::payout::{payout_plan, push_payouts};
use crate::laws::{
    lemma_apply_loss_keeps_valid,
    lemma_notify_split_bounds,
    lemma_redeem_keeps_valid,
    lemma_subscribe_keeps_valid,
};

verus! {

/// The two layers of the pool: senior is paid alongside junior and loses last,
/// junior absorbs losses first.
#[derive(Clone, Copy, PartialEq, Eq, Structural, Debug)]
pub enum TrancheType {
    Senior,
    Junior,
}

/// Why an operation was refused. A refused operation leaves the ledger as it was.
#[derive(Clone, Copy, PartialEq, Eq, Structural, Debug)]
pub enum TrancheError {
    AlreadyInitialized,
    NotInitialized,
    NotAdmin,
    Paused,
    NonPositiveAmount,
    BelowSeniorMinimum,
    BelowJuniorMinimum,
    InsufficientSeniorBalance,
    InsufficientJuniorBalance,
    SeniorTotalOverflow,
    JuniorTotalOverflow,
    BalanceOverflow,
    ArithmeticOverflow,
}

/// The text that reports each refusal.
pub open spec fn error_text(e: TrancheError) -> Seq<char> {
    match e {
        TrancheError::AlreadyInitialized => "already initialized"@,
        TrancheError::NotInitialized => "not initialized"@,
        TrancheError::NotAdmin => "only admin"@,
        TrancheError::Paused => "contract is paused"@,
        TrancheError::NonPositiveAmount => "amount must > 0"@,
        TrancheError::BelowSeniorMinimum => "amount below senior minimum"@,
        TrancheError::BelowJuniorMinimum => "amount below junior minimum"@,
        TrancheError::InsufficientSeniorBalance => "insufficient senior balance"@,
        TrancheError::InsufficientJuniorBalance => "insufficient junior balance"@,
        TrancheError::SeniorTotalOverflow => "overflow on senior total"@,
        TrancheError::JuniorTotalOverflow => "overflow on junior total"@,
        TrancheError::BalanceOverflow => "overflow on user balance"@,
        TrancheError::ArithmeticOverflow => "overflow"@,
    }
}

impl TrancheError {
    /// The text that reports this refusal.
    pub fn message(&self) -> (m: &'static str)
        ensures
            m@ == error_text(*self),
    {
        match self {
            TrancheError::AlreadyInitialized => "already initialized",
            TrancheError::NotInitialized => "not initialized",
            TrancheError::NotAdmin => "only admin",
            TrancheError::Paused => "contract is paused",
            TrancheError::NonPositiveAmount => "amount must > 0",
            TrancheError::BelowSeniorMinimum => "amount below senior minimum",
            TrancheError::BelowJuniorMinimum => "amount below junior minimum",
            TrancheError::InsufficientSeniorBalance => "insufficient senior balance",
            TrancheError::InsufficientJuniorBalance => "insufficient junior balance",
            TrancheError::SeniorTotalOverflow => "overflow on senior total",
            TrancheError::JuniorTotalOverflow => "overflow on junior total",
            TrancheError::BalanceOverflow => "overflow on user balance",
            TrancheError::ArithmeticOverflow => "overflow",
        }
    }
}

/// What the host must do after an accepted operation, in order: move
/// tokens between a holder and the contract, or publish an event.
#[derive(Clone, Copy, PartialEq, Eq, Structural, Debug)]
pub enum Effect {
    /// Move `amount` of the pool token from `from` to the contract.
    TransferIn { from: AccountId, amount: i128 },
    /// Move `amount` of the pool token from the contract to `to`.
    TransferOut { to: AccountId, amount: i128 },
    /// Event: the contract was set up with these parties and minimums.
    Initialized {
        admin: AccountId,
        token: AccountId,
        pool: AccountId,
        min_senior: i128,
        min_junior: i128,
    },
    /// Event: the pause flag was set.
    PauseSet { paused: bool },
    /// Event: the minimum investments were updated.
    MinimumsUpdated { admin: AccountId, min_senior: i128, min_junior: i128 },
    /// Event: `from` subscribed `amount` to `tranche`.
    Subscribed { from: AccountId, tranche: TrancheType, amount: i128 },
    /// Event: `from` redeemed `amount` from `tranche`.
    Redeemed { from: AccountId, tranche: TrancheType, amount: i128 },
    /// Event: a payout found no shares to pay.
    Refunded { caller: AccountId, amount: i128 },
    /// Event: `to` was paid `amount` as a holder of `tranche`.
    Paid { to: AccountId, tranche: TrancheType, amount: i128 },
    /// Event: a payout of `amount` was split between the tranches.
    PayoutSummary { caller: AccountId, amount: i128, senior_amount: i128, junior_amount: i128 },
    /// Event: a loss of `amount` was applied.
    LossApplied { admin: AccountId, amount: i128 },
}

/// The whole ledger of the contract as plain values.
pub struct TrancheRecord {
    pub initialized: bool,
    pub admin: AccountId,
    pub token: AccountId,
    pub pool: AccountId,
    pub senior_total: i128,
    pub junior_total: i128,
    pub senior: Vec<Holding>,
    pub junior: Vec<Holding>,
    pub min_senior: i128,
    pub min_junior: i128,
    pub paused: bool,
}

/// The mathematical model of the ledger.
pub struct TrancheState {
    pub initialized: bool,
    pub admin: AccountId,
    pub token: AccountId,
    pub pool: AccountId,
    pub senior_total: i128,
    pub junior_total: i128,
    pub senior: Seq<Holding>,
    pub junior: Seq<Holding>,
    pub min_senior: i128,
    pub min_junior: i128,
    pub paused: bool,
}

impl View for TrancheRecord {
    type V = TrancheState;

    open spec fn view(&self) -> TrancheState {
        TrancheState {
            initialized: self.initialized,
            admin: self.admin,
            token: self.token,
            pool: self.pool,
            senior_total: self.senior_total,
            junior_total: self.junior_total,
            senior: self.senior@,
            junior: self.junior@,
            min_senior: self.min_senior,
            min_junior: self.min_junior,
            paused: self.paused,
        }
    }
}

impl TrancheState {
    /// The holdings of one tranche.
    pub open spec fn holdings(self, t: TrancheType) -> Seq<Holding> {
        match t {
            TrancheType::Senior => self.senior,
            TrancheType::Junior => self.junior,
        }
    }

    /// The total shares of one tranche.
    pub open spec fn total(self, t: TrancheType) -> i128 {
        match t {
            TrancheType::Senior => self.senior_total,
            TrancheType::Junior => self.junior_total,
        }
    }

    /// The ledger with one tranche's total and holdings replaced.
    pub open spec fn with_tranche(self, t: TrancheType, total: i128, h: Seq<Holding>) -> TrancheState {
        match t {
            TrancheType::Senior => TrancheState { senior_total: total, senior: h, ..self },
            TrancheType::Junior => TrancheState { junior_total: total, junior: h, ..self },
        }
    }

    /// What every reachable ledger satisfies: holdings sorted and never
    /// negative, their sum within the tranche total, minimums never
    /// negative, and, before initialization, every value at its default.
    pub open spec fn valid(self) -> bool {
        &&& strictly_sorted(self.senior)
        &&& strictly_sorted(self.junior)
        &&& all_nonnegative(self.senior)
        &&& all_nonnegative(self.junior)
        &&& total_shares(self.senior) <= self.senior_total
        &&& total_shares(self.junior) <= self.junior_total
        &&& self.min_senior >= 0
        &&& self.min_junior >= 0
        &&& !self.initialized ==> {
            &&& self.senior_total == 0
            &&& self.junior_total == 0
            &&& self.senior.len() == 0
            &&& self.junior.len() == 0
            &&& self.min_senior == 0
            &&& self.min_junior == 0
            &&& !self.paused
        }
    }
}

/// A negative minimum is taken as 0.
pub open spec fn clamp_minimum(v: i128) -> i128 {
    if v >= 0 {
        v
    } else {
        0
    }
}

/// Why `caller` may not act as the administrator, if it may not.
pub open spec fn admin_rejection(s: TrancheState, caller: AccountId) -> Option<TrancheError> {
    if !s.initialized {
        Some(TrancheError::NotInitialized)
    } else if caller != s.admin {
        Some(TrancheError::NotAdmin)
    } else {
        None
    }
}

/// The result of an operation: the next ledger and the effects to carry
/// out, or the refusal.
pub type Transition = Result<(TrancheState, Seq<Effect>), TrancheError>;

pub open spec fn initialize_outcome(
    s: TrancheState,
    admin: AccountId,
    token: AccountId,
    pool: AccountId,
    min_senior: i128,
    min_junior: i128,
) -> Transition {
    if s.initialized {
        Err(TrancheError::AlreadyInitialized)
    } else {
        Ok(
            (
                TrancheState {
                    initialized: true,
                    admin,
                    token,
                    pool,
                    senior_total: 0,
                    junior_total: 0,
                    senior: Seq::empty(),
                    junior: Seq::empty(),
                    min_senior: clamp_minimum(min_senior),
                    min_junior: clamp_minimum(min_junior),
                    paused: false,
                },
                seq![
                    Effect::Initialized {
                        admin,
                        token,
                        pool,
                        min_senior: clamp_minimum(min_senior),
                        min_junior: clamp_minimum(min_junior),
                    },
                ],
            ),
        )
    }
}

pub open spec fn set_paused_outcome(s: TrancheState, admin: AccountId, paused: bool) -> Transition {
    match admin_rejection(s, admin) {
        Some(e) => Err(e),
        None => Ok((TrancheState { paused, ..s }, seq![Effect::PauseSet { paused }])),
    }
}

pub open spec fn set_minimums_outcome(
    s: TrancheState,
    admin: AccountId,
    min_senior: i128,
    min_junior: i128,
) -> Transition {
    match admin_rejection(s, admin) {
        Some(e) => Err(e),
        None => {
            let ms = clamp_minimum(min_senior);
            let mj = clamp_minimum(min_junior);
            Ok(
                (
                    TrancheState { min_senior: ms, min_junior: mj, ..s },
                    seq![Effect::MinimumsUpdated { admin, min_senior: ms, min_junior: mj }],
                ),
            )
        },
    }
}

pub open spec fn subscribe_outcome(
    s: TrancheState,
    from: AccountId,
    t: TrancheType,
    amount: i128,
) -> Transition {
    let h = s.holdings(t);
    let prev = shares_of(h, from);
    if s.paused {
        Err(TrancheError::Paused)
    } else if amount <= 0 {
        Err(TrancheError::NonPositiveAmount)
    } else if t == TrancheType::Senior && amount < s.min_senior {
        Err(TrancheError::BelowSeniorMinimum)
    } else if t == TrancheType::Junior && amount < s.min_junior {
        Err(TrancheError::BelowJuniorMinimum)
    } else if !s.initialized {
        Err(TrancheError::NotInitialized)
    } else if s.total(t) + amount > i128::MAX {
        Err(
            match t {
                TrancheType::Senior => TrancheError::SeniorTotalOverflow,
                TrancheType::Junior => TrancheError::JuniorTotalOverflow,
            },
        )
    } else if prev + amount > i128::MAX {
        Err(TrancheError::BalanceOverflow)
    } else {
        Ok(
            (
                s.with_tranche(
                    t,
                    (s.total(t) + amount) as i128,
                    assign(h, from, (prev + amount) as i128),
                ),
                seq![
                    Effect::TransferIn { from, amount },
                    Effect::Subscribed { from, tranche: t, amount },
                ],
            ),
        )
    }
}

pub open spec fn redeem_outcome(
    s: TrancheState,
    from: AccountId,
    t: TrancheType,
    amount: i128,
) -> Transition {
    let h = s.holdings(t);
    let balance = shares_of(h, from);
    if s.paused {
        Err(TrancheError::Paused)
    } else if amount <= 0 {
        Err(TrancheError::NonPositiveAmount)
    } else if balance < amount {
        Err(
            match t {
                TrancheType::Senior => TrancheError::InsufficientSeniorBalance,
                TrancheType::Junior => TrancheError::InsufficientJuniorBalance,
            },
        )
    } else if !s.initialized {
        Err(TrancheError::NotInitialized)
    } else {
        Ok(
            (
                s.with_tranche(
                    t,
                    (s.total(t) - amount) as i128,
                    assign(h, from, (balance - amount) as i128),
                ),
                seq![
                    Effect::TransferOut { to: from, amount },
                    Effect::Redeemed { from, tranche: t, amount },
                ],
            ),
        )
    }
}

/// The combined total used to split a payout; a sum beyond `i128` counts as 0.
pub open spec fn payout_base(s: TrancheState) -> int {
    let sum = s.senior_total + s.junior_total;
    if sum < i128::MIN || sum > i128::MAX {
        0
    } else {
        sum
    }
}

/// The senior part of a payout: `amount * senior_total / base`, rounded down.
pub open spec fn senior_part(s: TrancheState, amount: i128) -> int {
    (amount * s.senior_total) / payout_base(s)
}

/// The payouts of one tranche when `pool` is to be shared over `total`.
pub open spec fn tranche_plan(s: TrancheState, t: TrancheType, pool: int) -> Option<Seq<Effect>> {
    if pool > 0 && s.total(t) > 0 {
        payout_plan(s.holdings(t), pool as i128, s.total(t), t)
    } else {
        Some(Seq::empty())
    }
}

pub open spec fn notify_pool_payout_outcome(
    s: TrancheState,
    caller: AccountId,
    amount: i128,
) -> Transition {
    match admin_rejection(s, caller) {
        Some(e) => Err(e),
        None => {
            if amount <= 0 {
                Err(TrancheError::NonPositiveAmount)
            } else if payout_base(s) == 0 {
                Ok((s, seq![Effect::Refunded { caller, amount }]))
            } else if amount * s.senior_total < i128::MIN || amount * s.senior_total > i128::MAX {
                Err(TrancheError::ArithmeticOverflow)
            } else {
                let sa = senior_part(s, amount);
                let ja = amount - sa;
                match (tranche_plan(s, TrancheType::Senior, sa), tranche_plan(s, TrancheType::Junior, ja)) {
                    (Some(se), Some(je)) => Ok(
                        (
                            s,
                            se + je + seq![
                                Effect::PayoutSummary {
                                    caller,
                                    amount,
                                    senior_amount: sa as i128,
                                    junior_amount: ja as i128,
                                },
                            ],
                        ),
                    ),
                    _ => Err(TrancheError::ArithmeticOverflow),
                }
            }
        },
    }
}

/// The junior tranche after a loss: its new total, the holdings (or `None`
/// on overflow), and the part of the loss it could not absorb.
pub open spec fn junior_after_loss(s: TrancheState, loss: i128) -> (i128, Option<Seq<Holding>>, int) {
    let jt = s.junior_total;
    if jt >= loss {
        let new_jt = (jt - loss) as i128;
        (
            new_jt,
            if jt > 0 {
                scale_holdings(s.junior, new_jt, jt)
            } else {
                Some(Seq::empty())
            },
            0,
        )
    } else {
        (0, Some(Seq::empty()), loss - jt)
    }
}

/// The senior tranche after the junior tranche absorbed what it could:
/// its new total and the holdings (or `None` on overflow).
pub open spec fn senior_after_loss(s: TrancheState, remaining: int) -> (i128, Option<Seq<Holding>>) {
    let st = s.senior_total;
    if remaining > 0 && st > 0 {
        let new_st: i128 = if remaining >= st {
            0
        } else {
            (st - remaining) as i128
        };
        (
            new_st,
            if new_st > 0 && st > 0 {
                scale_holdings(s.senior, new_st, st)
            } else {
                Some(Seq::empty())
            },
        )
    } else {
        (st, Some(s.senior))
    }
}

pub open spec fn apply_loss_outcome(s: TrancheState, admin: AccountId, loss: i128) -> Transition {
    match admin_rejection(s, admin) {
        Some(e) => Err(e),
        None => {
            if loss <= 0 {
                Ok((s, Seq::empty()))
            } else {
                let (new_jt, junior, remaining) = junior_after_loss(s, loss);
                let (new_st, senior) = senior_after_loss(s, remaining);
                match (junior, senior) {
                    (Some(j), Some(sn)) => Ok(
                        (
                            TrancheState {
                                junior_total: new_jt,
                                junior: j,
                                senior_total: new_st,
                                senior: sn,
                                ..s
                            },
                            seq![Effect::LossApplied { admin, amount: loss }],
                        ),
                    ),
                    _ => Err(TrancheError::ArithmeticOverflow),
                }
            }
        },
    }
}

/// The tranche contract: the ledger of a senior/junior structured pool.
pub struct TrancheContract {
    record: TrancheRecord,
}

impl View for TrancheContract {
    type V = TrancheState;

    closed spec fn view(&self) -> TrancheState {
        self.record@
    }
}

/// The condition on the result of a mutating operation: on acceptance the
/// ledger moves to the next state and the effects are returned; on refusal
/// the ledger is unchanged and the refusal is returned.
pub open spec fn follows(
    outcome: Transition,
    before: TrancheState,
    after: TrancheState,
    r: Result<Vec<Effect>, TrancheError>,
) -> bool {
    match outcome {
        Ok((next, effects)) => r matches Ok(v) && v@ == effects && after == next,
        Err(e) => r matches Err(x) && x == e && after == before,
    }
}

impl TrancheContract {
    /// Every ledger held by a contract satisfies the ledger invariant.
    #[verifier::type_invariant]
    spec fn well_formed(self) -> bool {
        self.record@.valid()
    }

    /// The record of a contract that was never initialized.
    fn vacant_record() -> (r: TrancheRecord)
        ensures
            r@.valid(),
            !r@.initialized,
            r@.admin == (AccountId { kind: 0, high: 0, low: 0 }),
            r@.token == (AccountId { kind: 0, high: 0, low: 0 }),
            r@.pool == (AccountId { kind: 0, high: 0, low: 0 }),
    {
        let zero = AccountId { kind: 0, high: 0, low: 0 };
        let r = TrancheRecord {
            initialized: false,
            admin: zero,
            token: zero,
            pool: zero,
            senior_total: 0,
            junior_total: 0,
            senior: Vec::new(),
            junior: Vec::new(),
            min_senior: 0,
            min_junior: 0,
            paused: false,
        };
        proof {
            assert(total_shares(Seq::<Holding>::empty()) == 0);
        }
        r
    }

    /// The ledger of a contract that was never initialized.
    pub fn new() -> (c: TrancheContract)
        ensures
            c@.valid(),
            !c@.initialized,
            c@.admin == (AccountId { kind: 0, high: 0, low: 0 }),
            c@.token == (AccountId { kind: 0, high: 0, low: 0 }),
            c@.pool == (AccountId { kind: 0, high: 0, low: 0 }),
    {
        TrancheContract { record: Self::vacant_record() }
    }

    /// Takes up a stored ledger, if it satisfies the ledger invariant.
    pub fn restore(record: TrancheRecord) -> (r: Option<TrancheContract>)
        ensures
            r is Some <==> record@.valid(),
            r matches Some(c) ==> c@ == record@,
    {
        if Self::check_record(&record) {
            Some(TrancheContract { record })
        } else {
            None
        }
    }

    /// Gives up the ledger for storage.
    pub fn into_record(self) -> (r: TrancheRecord)
        ensures
            r@ == self@,
    {
        self.record
    }

    fn check_holdings(h: &Vec<Holding>, total: i128) -> (r: bool)
        ensures
            r == (strictly_sorted(h@) && all_nonnegative(h@) && total_shares(h@) <= total),
    {
        if total < 0 {
            proof {
                if all_nonnegative(h@) {
                    crate::ledger::lemma_total_shares_nonnegative(h@);
                }
            }
            return false;
        }
        let mut sum: i128 = 0;
        let mut i: usize = 0;
        proof {
            assert(h@.take(0) =~= Seq::<Holding>::empty());
        }
        while i < h.len()
            invariant
                i <= h.len(),
                strictly_sorted(h@.take(i as int)),
                all_nonnegative(h@.take(i as int)),
                sum == total_shares(h@.take(i as int)),
                0 <= sum <= total,
            decreases h.len() - i,
        {
            let x = h[i];
            proof {
                assert(h@.take(i + 1).drop_last() =~= h@.take(i as int));
                assert(h@.take(i + 1).last() == x);
            }
            if x.shares < 0 {
                return false;
            }
            if i > 0 && !h[i - 1].account.precedes(&x.account) {
                return false;
            }
            if x.shares > total - sum {
                proof {
                    crate::laws::lemma_prefix_sum_bound(h@, (i + 1) as int);
                }
                return false;
            }
            proof {
                assert forall|a: int, b: int| 0 <= a < b < i + 1 implies crate::account::precedes(
                    #[trigger] h@.take(i + 1)[a].account,
                    #[trigger] h@.take(i + 1)[b].account,
                ) by {
                    if b == i && a < i - 1 {
                        assert(crate::account::precedes(h@.take(i as int)[a].account, h@.take(i as int)[i - 1].account));
                    }
                }
            }
            sum = sum + x.shares;
            i = i + 1;
        }
        proof {
            assert(h@.take(h.len() as int) =~= h@);
        }
        true
    }

    fn check_record(r: &TrancheRecord) -> (ok: bool)
        ensures
            ok == r@.valid(),
    {
        if !Self::check_holdings(&r.senior, r.senior_total) {
            return false;
        }
        if !Self::check_holdings(&r.junior, r.junior_total) {
            return false;
        }
        if r.min_senior < 0 || r.min_junior < 0 {
            return false;
        }
        if !r.initialized {
            if r.senior_total != 0 || r.junior_total != 0 || r.senior.len() != 0 || r.junior.len()
                != 0 || r.min_senior != 0 || r.min_junior != 0 || r.paused {
                return false;
            }
        }
        true
    }

    /// Sets up the contract once: administrator, token, pool, and minimum
    /// investments (a negative minimum is taken as 0).
    pub fn initialize(
        &mut self,
        admin: AccountId,
        token_contract_id: AccountId,
        pool_contract_id: AccountId,
        min_senior: i128,
        min_junior: i128,
    ) -> (r: Result<Vec<Effect>, TrancheError>)
        ensures
            final(self)@.valid(),
            follows(
                initialize_outcome(
                    old(self)@,
                    admin,
                    token_contract_id,
                    pool_contract_id,
                    min_senior,
                    min_junior,
                ),
                old(self)@,
                final(self)@,
                r,
            ),
    {
        proof {
            use_type_invariant(&*self);
        }
        if self.record.initialized {
            return Err(TrancheError::AlreadyInitialized);
        }
        let min_s = if min_senior >= 0 {
            min_senior
        } else {
            0i128
        };
        let min_j = if min_junior >= 0 {
            min_junior
        } else {
            0i128
        };
        proof {
            assert(total_shares(Seq::<Holding>::empty()) == 0);
        }
        self.record = TrancheRecord {
            initialized: true,
            admin,
            token: token_contract_id,
            pool: pool_contract_id,
            senior_total: 0,
            junior_total: 0,
            senior: Vec::new(),
            junior: Vec::new(),
            min_senior: min_s,
            min_junior: min_j,
            paused: false,
        };
        proof {
            assert(total_shares(Seq::<Holding>::empty()) == 0);
            assert(self@ == initialize_outcome(
                old(self)@,
                admin,
                token_contract_id,
                pool_contract_id,
                min_senior,
                min_junior,
            )->Ok_0.0);
        }
        let mut effects: Vec<Effect> = Vec::new();
        effects.push(
            Effect::Initialized {
                admin,
                token: token_contract_id,
                pool: pool_contract_id,
                min_senior: min_s,
                min_junior: min_j,
            },
        );
        proof {
            assert(effects@ =~= seq![
                Effect::Initialized {
                    admin,
                    token: token_contract_id,
                    pool: pool_contract_id,
                    min_senior: min_s,
                    min_junior: min_j,
                },
            ]);
        }
        Ok(effects)
    }

    /// Pauses or resumes subscriptions and redemptions (administrator only).
    pub fn set_paused(&mut self, admin: AccountId, paused: bool) -> (r: Result<
        Vec<Effect>,
        TrancheError,
    >)
        ensures
            final(self)@.valid(),
            follows(set_paused_outcome(old(self)@, admin, paused), old(self)@, final(self)@, r),
    {
        proof {
            use_type_invariant(&*self);
        }
        match self.require_admin(&admin) {
            Err(e) => Err(e),
            Ok(()) => {
                self.record.paused = paused;
                let mut effects: Vec<Effect> = Vec::new();
                effects.push(Effect::PauseSet { paused });
                proof {
                    assert(effects@ =~= seq![Effect::PauseSet { paused }]);
                }
                Ok(effects)
            },
        }
    }

    /// Updates the minimum investments (administrator only); a negative
    /// minimum is taken as 0.
    pub fn set_minimums(&mut self, admin: AccountId, min_senior: i128, min_junior: i128) -> (r:
        Result<Vec<Effect>, TrancheError>)
        ensures
            final(self)@.valid(),
            follows(
                set_minimums_outcome(old(self)@, admin, min_senior, min_junior),
                old(self)@,
                final(self)@,
                r,
            ),
    {
        proof {
            use_type_invariant(&*self);
        }
        match self.require_admin(&admin) {
            Err(e) => Err(e),
            Ok(()) => {
                let min_s = if min_senior >= 0 {
                    min_senior
                } else {
                    0i128
                };
                let min_j = if min_junior >= 0 {
                    min_junior
                } else {
                    0i128
                };
                self.record.min_senior = min_s;
                self.record.min_junior = min_j;
                let mut effects: Vec<Effect> = Vec::new();
                effects.push(Effect::MinimumsUpdated { admin, min_senior: min_s, min_junior: min_j });
                proof {
                    assert(effects@ =~= seq![
                        Effect::MinimumsUpdated { admin, min_senior: min_s, min_junior: min_j },
                    ]);
                }
                Ok(effects)
            },
        }
    }

    /// Subscribes `amount` of the token to a tranche: the token moves from
    /// `from` to the contract and `from`'s shares and the tranche total grow
    /// by `amount`.
    pub fn subscribe(&mut self, from: AccountId, tranche: TrancheType, amount: i128) -> (r: Result<
        Vec<Effect>,
        TrancheError,
    >)
        ensures
            final(self)@.valid(),
            follows(subscribe_outcome(old(self)@, from, tranche, amount), old(self)@, final(self)@, r),
    {
        proof {
            use_type_invariant(&*self);
            lemma_subscribe_keeps_valid(self@, from, tranche, amount);
        }
        match self.require_not_paused() {
            Err(e) => {
                return Err(e);
            },
            Ok(()) => {},
        }
        if amount <= 0 {
            return Err(TrancheError::NonPositiveAmount);
        }
        match tranche {
            TrancheType::Senior => {
                if amount < self.record.min_senior {
                    return Err(TrancheError::BelowSeniorMinimum);
                }
            },
            TrancheType::Junior => {
                if amount < self.record.min_junior {
                    return Err(TrancheError::BelowJuniorMinimum);
                }
            },
        }
        if !self.record.initialized {
            return Err(TrancheError::NotInitialized);
        }
        match tranche {
            TrancheType::Senior => {
                let st = match self.record.senior_total.checked_add(amount) {
                    Some(v) => v,
                    None => {
                        return Err(TrancheError::SeniorTotalOverflow);
                    },
                };
                let prev = shares_in(&self.record.senior, &from);
                let next = match prev.checked_add(amount) {
                    Some(v) => v,
                    None => {
                        return Err(TrancheError::BalanceOverflow);
                    },
                };
                let mut rec = Self::vacant_record();
                std::mem::swap(&mut rec, &mut self.record);
                rec.senior_total = st;
                assign_shares(&mut rec.senior, from, next);
                self.record = rec;
            },
            TrancheType::Junior => {
                let jt = match self.record.junior_total.checked_add(amount) {
                    Some(v) => v,
                    None => {
                        return Err(TrancheError::JuniorTotalOverflow);
                    },
                };
                let prev = shares_in(&self.record.junior, &from);
                let next = match prev.checked_add(amount) {
                    Some(v) => v,
                    None => {
                        return Err(TrancheError::BalanceOverflow);
                    },
                };
                let mut rec = Self::vacant_record();
                std::mem::swap(&mut rec, &mut self.record);
                rec.junior_total = jt;
                assign_shares(&mut rec.junior, from, next);
                self.record = rec;
            },
        }
        let mut effects: Vec<Effect> = Vec::new();
        effects.push(Effect::TransferIn { from, amount });
        effects.push(Effect::Subscribed { from, tranche, amount });
        proof {
            assert(effects@ =~= seq![
                Effect::TransferIn { from, amount },
                Effect::Subscribed { from, tranche, amount },
            ]);
        }
        Ok(effects)
    }

    /// Redeems `amount` of `from`'s shares in a tranche: the shares and the
    /// tranche total shrink by `amount` and the token moves back to `from`.
    pub fn redeem(&mut self, from: AccountId, tranche: TrancheType, amount: i128) -> (r: Result<
        Vec<Effect>,
        TrancheError,
    >)
        ensures
            final(self)@.valid(),
            follows(redeem_outcome(old(self)@, from, tranche, amount), old(self)@, final(self)@, r),
    {
        proof {
            use_type_invariant(&*self);
            lemma_redeem_keeps_valid(self@, from, tranche, amount);
            crate::ledger::lemma_shares_bounded(self@.senior, from);
            crate::ledger::lemma_shares_bounded(self@.junior, from);
        }
        match self.require_not_paused() {
            Err(e) => {
                return Err(e);
            },
            Ok(()) => {},
        }
        if amount <= 0 {
            return Err(TrancheError::NonPositiveAmount);
        }
        match tranche {
            TrancheType::Senior => {
                let balance = shares_in(&self.record.senior, &from);
                if balance < amount {
                    return Err(TrancheError::InsufficientSeniorBalance);
                }
                if !self.record.initialized {
                    return Err(TrancheError::NotInitialized);
                }
                let mut rec = Self::vacant_record();
                std::mem::swap(&mut rec, &mut self.record);
                rec.senior_total = rec.senior_total - amount;
                assign_shares(&mut rec.senior, from, balance - amount);
                self.record = rec;
            },
            TrancheType::Junior => {
                let balance = shares_in(&self.record.junior, &from);
                if balance < amount {
                    return Err(TrancheError::InsufficientJuniorBalance);
                }
                if !self.record.initialized {
                    return Err(TrancheError::NotInitialized);
                }
                let mut rec = Self::vacant_record();
                std::mem::swap(&mut rec, &mut self.record);
                rec.junior_total = rec.junior_total - amount;
                assign_shares(&mut rec.junior, from, balance - amount);
                self.record = rec;
            },
        }
        let mut effects: Vec<Effect> = Vec::new();
        effects.push(Effect::TransferOut { to: from, amount });
        effects.push(Effect::Redeemed { from, tranche, amount });
        proof {
            assert(effects@ =~= seq![
                Effect::TransferOut { to: from, amount },
                Effect::Redeemed { from, tranche, amount },
            ]);
        }
        Ok(effects)
    }

    /// Distributes a yield of `amount` (administrator only): the amount is
    /// split between the tranches in proportion to their totals, and each
    /// tranche's part is paid to its holders in proportion to their shares,
    /// in address order. The ledger itself does not change.
    pub fn notify_pool_payout(&self, caller: AccountId, amount: i128) -> (r: Result<
        Vec<Effect>,
        TrancheError,
    >)
        ensures
            follows(notify_pool_payout_outcome(self@, caller, amount), self@, self@, r),
    {
        proof {
            use_type_invariant(self);
        }
        match self.require_admin(&caller) {
            Err(e) => {
                return Err(e);
            },
            Ok(()) => {},
        }
        if amount <= 0 {
            return Err(TrancheError::NonPositiveAmount);
        }
        let st = self.record.senior_total;
        let jt = self.record.junior_total;
        proof {
            crate::ledger::lemma_total_shares_nonnegative(self@.senior);
            crate::ledger::lemma_total_shares_nonnegative(self@.junior);
        }
        let tot = match st.checked_add(jt) {
            Some(v) => v,
            None => 0,
        };
        if tot == 0 {
            let mut effects: Vec<Effect> = Vec::new();
            effects.push(Effect::Refunded { caller, amount });
            proof {
                assert(effects@ =~= seq![Effect::Refunded { caller, amount }]);
            }
            return Ok(effects);
        }
        let product = match amount.checked_mul(st) {
            Some(p) => p,
            None => {
                return Err(TrancheError::ArithmeticOverflow);
            },
        };
        proof {
            lemma_notify_split_bounds(self@, amount);
        }
        let senior_amount = product / tot;
        let junior_amount = amount - senior_amount;
        let mut effects: Vec<Effect> = Vec::new();
        if senior_amount > 0 && st > 0 {
            if !push_payouts(&self.record.senior, senior_amount, st, TrancheType::Senior, &mut effects) {
                return Err(TrancheError::ArithmeticOverflow);
            }
        }
        let ghost after_senior = effects@;
        if junior_amount > 0 && jt > 0 {
            if !push_payouts(&self.record.junior, junior_amount, jt, TrancheType::Junior, &mut effects) {
                return Err(TrancheError::ArithmeticOverflow);
            }
        }
        effects.push(
            Effect::PayoutSummary { caller, amount, senior_amount, junior_amount },
        );
        proof {
            let se = tranche_plan(self@, TrancheType::Senior, senior_amount as int);
            let je = tranche_plan(self@, TrancheType::Junior, junior_amount as int);
            assert(se == Some(after_senior));
            assert(effects@ =~= se->Some_0 + je->Some_0 + seq![
                Effect::PayoutSummary { caller, amount, senior_amount, junior_amount },
            ]);
        }
        Ok(effects)
    }

    /// Applies a loss of `loss_amount` (administrator only): the junior
    /// tranche absorbs it first and the senior tranche takes what is left;
    /// each holder of a reduced tranche keeps shares in proportion to the
    /// new total, rounded down, and holders left with nothing are dropped.
    pub fn apply_loss(&mut self, admin: AccountId, loss_amount: i128) -> (r: Result<
        Vec<Effect>,
        TrancheError,
    >)
        ensures
            final(self)@.valid(),
            follows(apply_loss_outcome(old(self)@, admin, loss_amount), old(self)@, final(self)@, r),
    {
        proof {
            use_type_invariant(&*self);
            lemma_apply_loss_keeps_valid(self@, admin, loss_amount);
            crate::ledger::lemma_total_shares_nonnegative(self@.senior);
            crate::ledger::lemma_total_shares_nonnegative(self@.junior);
        }
        match self.require_admin(&admin) {
            Err(e) => {
                return Err(e);
            },
            Ok(()) => {},
        }
        if loss_amount <= 0 {
            return Ok(Vec::new());
        }
        let jt = self.record.junior_total;
        let st = self.record.senior_total;
        let mut remaining = loss_amount;
        let new_jt: i128;
        let new_junior: Vec<Holding>;
        if jt >= remaining {
            new_jt = jt - remaining;
            let old_jt = jt;
            if old_jt > 0 {
                match scaled_holdings(&self.record.junior, new_jt, old_jt) {
                    Some(v) => {
                        new_junior = v;
                    },
                    None => {
                        return Err(TrancheError::ArithmeticOverflow);
                    },
                }
            } else {
                new_junior = Vec::new();
            }
            remaining = 0;
        } else {
            remaining = remaining - jt;
            new_junior = Vec::new();
            new_jt = 0;
        }
        let mut new_senior: Option<(i128, Vec<Holding>)> = None;
        if remaining > 0 && st > 0 {
            let new_st = if remaining >= st {
                0i128
            } else {
                st - remaining
            };
            let old_st = st;
            if new_st > 0 && old_st > 0 {
                match scaled_holdings(&self.record.senior, new_st, old_st) {
                    Some(v) => {
                        new_senior = Some((new_st, v));
                    },
                    None => {
                        return Err(TrancheError::ArithmeticOverflow);
                    },
                }
            } else {
                new_senior = Some((new_st, Vec::new()));
            }
        }
        let mut rec = Self::vacant_record();
        std::mem::swap(&mut rec, &mut self.record);
        rec.junior = new_junior;
        rec.junior_total = new_jt;
        match new_senior {
            Some((t, v)) => {
                rec.senior = v;
                rec.senior_total = t;
            },
            None => {},
        }
        self.record = rec;
        let mut effects: Vec<Effect> = Vec::new();
        effects.push(Effect::LossApplied { admin, amount: loss_amount });
        proof {
            assert(effects@ =~= seq![Effect::LossApplied { admin, amount: loss_amount }]);
        }
        Ok(effects)
    }

    /// The minimum investments (senior, junior).
    pub fn get_minimums(&self) -> (r: (i128, i128))
        ensures
            r == (self@.min_senior, self@.min_junior),
    {
        (self.record.min_senior, self.record.min_junior)
    }

    /// The tranche totals (senior, junior).
    pub fn get_totals(&self) -> (r: (i128, i128))
        ensures
            r == (self@.senior_total, self@.junior_total),
    {
        (self.record.senior_total, self.record.junior_total)
    }

    /// The shares `user` holds in a tranche, 0 when none.
    pub fn get_user_share(&self, user: AccountId, tranche: TrancheType) -> (r: i128)
        ensures
            r == shares_of(self@.holdings(tranche), user),
    {
        proof {
            use_type_invariant(self);
        }
        match tranche {
            TrancheType::Senior => shares_in(&self.record.senior, &user),
            TrancheType::Junior => shares_in(&self.record.junior, &user),
        }
    }

    /// The administrator, once the contract is initialized.
    pub fn get_admin(&self) -> (r: Result<AccountId, TrancheError>)
        ensures
            self@.initialized ==> r == Ok::<AccountId, TrancheError>(self@.admin),
            !self@.initialized ==> r == Err::<AccountId, TrancheError>(TrancheError::NotInitialized),
    {
        if self.record.initialized {
            Ok(self.record.admin)
        } else {
            Err(TrancheError::NotInitialized)
        }
    }

    /// Whether subscriptions and redemptions are paused.
    pub fn is_paused(&self) -> (r: bool)
        ensures
            r == self@.paused,
    {
        self.record.paused
    }

    /// Accepts `caller` only as the administrator of an initialized contract.
    pub fn require_admin(&self, caller: &AccountId) -> (r: Result<(), TrancheError>)
        ensures
            match admin_rejection(self@, *caller) {
                Some(e) => r == Err::<(), TrancheError>(e),
                None => r == Ok::<(), TrancheError>(()),
            },
    {
        if !self.record.initialized {
            return Err(TrancheError::NotInitialized);
        }
        if !caller.same_as(&self.record.admin) {
            return Err(TrancheError::NotAdmin);
        }
        Ok(())
    }

    /// Refuses while the contract is paused.
    pub fn require_not_paused(&self) -> (r: Result<(), TrancheError>)
        ensures
            self@.paused ==> r == Err::<(), TrancheError>(TrancheError::Paused),
            !self@.paused ==> r == Ok::<(), TrancheError>(()),
    {
        if self.record.paused {
            Err(TrancheError::Paused)
        } else {
            Ok(())
        }
    }
}

} // verus!
