use tranche::account::AccountId;
use tranche::ledger::Holding;
use tranche::tranche::{Effect, TrancheContract, TrancheError, TrancheRecord, TrancheType};

fn acct(kind: u8, low: u128) -> AccountId {
    AccountId { kind, high: 0, low }
}

fn admin() -> AccountId {
    acct(0, 1)
}

fn token() -> AccountId {
    acct(1, 100)
}

fn pool() -> AccountId {
    acct(1, 200)
}

fn ready(min_senior: i128, min_junior: i128) -> TrancheContract {
    let mut c = TrancheContract::new();
    let r = c.initialize(admin(), token(), pool(), min_senior, min_junior);
    assert_eq!(
        r,
        Ok(vec![Effect::Initialized {
            admin: admin(),
            token: token(),
            pool: pool(),
            min_senior: min_senior.max(0),
            min_junior: min_junior.max(0),
        }])
    );
    c
}

#[test]
fn fresh_contract_reports_defaults() {
    let c = TrancheContract::new();
    assert_eq!(c.get_minimums(), (0, 0));
    assert_eq!(c.get_totals(), (0, 0));
    assert!(!c.is_paused());
    assert_eq!(c.get_admin(), Err(TrancheError::NotInitialized));
    assert_eq!(c.get_user_share(acct(0, 5), TrancheType::Senior), 0);
}

#[test]
fn initialize_sets_up_once() {
    let mut c = ready(-5, 10);
    assert_eq!(c.get_admin(), Ok(admin()));
    assert_eq!(c.get_minimums(), (0, 10));
    assert_eq!(c.get_totals(), (0, 0));
    let again = c.initialize(acct(0, 9), token(), pool(), 1, 1);
    assert_eq!(again, Err(TrancheError::AlreadyInitialized));
    assert_eq!(c.get_admin(), Ok(admin()));
    assert_eq!(c.get_minimums(), (0, 10));
}

#[test]
fn subscribe_credits_shares_and_total() {
    let mut c = ready(10, 5);
    let u = acct(0, 7);
    let r = c.subscribe(u, TrancheType::Senior, 50);
    assert_eq!(
        r,
        Ok(vec![
            Effect::TransferIn { from: u, amount: 50 },
            Effect::Subscribed { from: u, tranche: TrancheType::Senior, amount: 50 },
        ])
    );
    assert_eq!(c.get_user_share(u, TrancheType::Senior), 50);
    assert_eq!(c.get_user_share(u, TrancheType::Junior), 0);
    assert_eq!(c.get_totals(), (50, 0));
    c.subscribe(u, TrancheType::Senior, 20).unwrap();
    c.subscribe(u, TrancheType::Junior, 5).unwrap();
    assert_eq!(c.get_user_share(u, TrancheType::Senior), 70);
    assert_eq!(c.get_user_share(u, TrancheType::Junior), 5);
    assert_eq!(c.get_totals(), (70, 5));
}

#[test]
fn subscribe_refusals() {
    let mut c = ready(10, 5);
    let u = acct(0, 7);
    assert_eq!(c.subscribe(u, TrancheType::Senior, 0), Err(TrancheError::NonPositiveAmount));
    assert_eq!(c.subscribe(u, TrancheType::Senior, -3), Err(TrancheError::NonPositiveAmount));
    assert_eq!(c.subscribe(u, TrancheType::Senior, 9), Err(TrancheError::BelowSeniorMinimum));
    assert_eq!(c.subscribe(u, TrancheType::Junior, 4), Err(TrancheError::BelowJuniorMinimum));
    assert_eq!(c.get_totals(), (0, 0));

    let mut fresh = TrancheContract::new();
    assert_eq!(fresh.subscribe(u, TrancheType::Senior, 5), Err(TrancheError::NotInitialized));
}

#[test]
fn subscribe_overflow_is_refused() {
    let mut c = ready(0, 0);
    let u = acct(0, 7);
    let v = acct(0, 8);
    c.subscribe(u, TrancheType::Senior, i128::MAX).unwrap();
    assert_eq!(c.subscribe(v, TrancheType::Senior, 1), Err(TrancheError::SeniorTotalOverflow));
    c.subscribe(u, TrancheType::Junior, i128::MAX).unwrap();
    assert_eq!(c.subscribe(v, TrancheType::Junior, 1), Err(TrancheError::JuniorTotalOverflow));
    assert_eq!(c.get_totals(), (i128::MAX, i128::MAX));
    assert_eq!(c.get_user_share(v, TrancheType::Senior), 0);
}

#[test]
fn redeem_debits_and_pays_back() {
    let mut c = ready(0, 0);
    let u = acct(0, 7);
    c.subscribe(u, TrancheType::Junior, 80).unwrap();
    let r = c.redeem(u, TrancheType::Junior, 30);
    assert_eq!(
        r,
        Ok(vec![
            Effect::TransferOut { to: u, amount: 30 },
            Effect::Redeemed { from: u, tranche: TrancheType::Junior, amount: 30 },
        ])
    );
    assert_eq!(c.get_user_share(u, TrancheType::Junior), 50);
    assert_eq!(c.get_totals(), (0, 50));
    assert_eq!(
        c.redeem(u, TrancheType::Junior, 51),
        Err(TrancheError::InsufficientJuniorBalance)
    );
    assert_eq!(
        c.redeem(u, TrancheType::Senior, 1),
        Err(TrancheError::InsufficientSeniorBalance)
    );
    assert_eq!(c.redeem(u, TrancheType::Junior, 0), Err(TrancheError::NonPositiveAmount));
    assert_eq!(c.get_user_share(u, TrancheType::Junior), 50);
}

#[test]
fn redeem_undoes_subscribe() {
    let mut c = ready(0, 0);
    let u = acct(0, 7);
    let w = acct(0, 3);
    c.subscribe(w, TrancheType::Senior, 40).unwrap();
    c.subscribe(u, TrancheType::Senior, 25).unwrap();
    c.redeem(u, TrancheType::Senior, 25).unwrap();
    assert_eq!(c.get_user_share(u, TrancheType::Senior), 0);
    assert_eq!(c.get_user_share(w, TrancheType::Senior), 40);
    assert_eq!(c.get_totals(), (40, 0));
    // the emptied holder keeps an entry with no shares
    let rec = c.into_record();
    assert_eq!(
        rec.senior,
        vec![Holding { account: w, shares: 40 }, Holding { account: u, shares: 0 }]
    );
}

#[test]
fn pause_blocks_subscribe_and_redeem() {
    let mut c = ready(0, 0);
    let u = acct(0, 7);
    c.subscribe(u, TrancheType::Senior, 10).unwrap();
    assert_eq!(c.set_paused(admin(), true), Ok(vec![Effect::PauseSet { paused: true }]));
    assert!(c.is_paused());
    assert_eq!(c.subscribe(u, TrancheType::Senior, 10), Err(TrancheError::Paused));
    assert_eq!(c.redeem(u, TrancheType::Senior, 10), Err(TrancheError::Paused));
    assert_eq!(c.require_not_paused(), Err(TrancheError::Paused));
    c.set_paused(admin(), false).unwrap();
    assert_eq!(c.require_not_paused(), Ok(()));
    assert!(c.redeem(u, TrancheType::Senior, 10).is_ok());
}

#[test]
fn admin_only_operations() {
    let mut c = ready(0, 0);
    let other = acct(0, 99);
    assert_eq!(c.set_paused(other, true), Err(TrancheError::NotAdmin));
    assert_eq!(c.set_minimums(other, 1, 1), Err(TrancheError::NotAdmin));
    assert_eq!(c.notify_pool_payout(other, 10), Err(TrancheError::NotAdmin));
    assert_eq!(c.apply_loss(other, 10), Err(TrancheError::NotAdmin));
    assert_eq!(c.require_admin(&other), Err(TrancheError::NotAdmin));
    assert_eq!(c.require_admin(&admin()), Ok(()));
    let mut fresh = TrancheContract::new();
    assert_eq!(fresh.set_paused(admin(), true), Err(TrancheError::NotInitialized));
    assert_eq!(fresh.require_admin(&admin()), Err(TrancheError::NotInitialized));
}

#[test]
fn set_minimums_clamps_and_reports() {
    let mut c = ready(1, 1);
    assert_eq!(
        c.set_minimums(admin(), 100, -1),
        Ok(vec![Effect::MinimumsUpdated { admin: admin(), min_senior: 100, min_junior: 0 }])
    );
    assert_eq!(c.get_minimums(), (100, 0));
}

#[test]
fn payout_splits_pro_rata_in_address_order() {
    let mut c = ready(0, 0);
    let a = acct(0, 20);
    let b = acct(0, 10);
    let j = acct(1, 5);
    c.subscribe(a, TrancheType::Senior, 200).unwrap();
    c.subscribe(b, TrancheType::Senior, 100).unwrap();
    c.subscribe(j, TrancheType::Junior, 100).unwrap();
    let r = c.notify_pool_payout(admin(), 100);
    assert_eq!(
        r,
        Ok(vec![
            Effect::TransferOut { to: b, amount: 25 },
            Effect::Paid { to: b, tranche: TrancheType::Senior, amount: 25 },
            Effect::TransferOut { to: a, amount: 50 },
            Effect::Paid { to: a, tranche: TrancheType::Senior, amount: 50 },
            Effect::TransferOut { to: j, amount: 25 },
            Effect::Paid { to: j, tranche: TrancheType::Junior, amount: 25 },
            Effect::PayoutSummary { caller: admin(), amount: 100, senior_amount: 75, junior_amount: 25 },
        ])
    );
    // a payout leaves the ledger unchanged
    assert_eq!(c.get_totals(), (300, 100));
    assert_eq!(c.get_user_share(a, TrancheType::Senior), 200);
}

#[test]
fn payout_rounds_down_and_skips_empty_holdings() {
    let mut c = ready(0, 0);
    let a = acct(0, 1);
    let b = acct(0, 2);
    let z = acct(0, 3);
    c.subscribe(a, TrancheType::Senior, 1).unwrap();
    c.subscribe(b, TrancheType::Senior, 2).unwrap();
    c.subscribe(z, TrancheType::Senior, 5).unwrap();
    c.redeem(z, TrancheType::Senior, 5).unwrap();
    let r = c.notify_pool_payout(admin(), 10).unwrap();
    assert_eq!(
        r,
        vec![
            Effect::TransferOut { to: a, amount: 3 },
            Effect::Paid { to: a, tranche: TrancheType::Senior, amount: 3 },
            Effect::TransferOut { to: b, amount: 6 },
            Effect::Paid { to: b, tranche: TrancheType::Senior, amount: 6 },
            Effect::PayoutSummary { caller: admin(), amount: 10, senior_amount: 10, junior_amount: 0 },
        ]
    );
}

#[test]
fn payout_without_shares_is_refunded() {
    let c = ready(0, 0);
    assert_eq!(
        c.notify_pool_payout(admin(), 40),
        Ok(vec![Effect::Refunded { caller: admin(), amount: 40 }])
    );
    assert_eq!(c.notify_pool_payout(admin(), 0), Err(TrancheError::NonPositiveAmount));
}

#[test]
fn payout_overflow_is_refused() {
    let mut c = ready(0, 0);
    let a = acct(0, 1);
    c.subscribe(a, TrancheType::Senior, i128::MAX / 2).unwrap();
    assert_eq!(c.notify_pool_payout(admin(), 4), Err(TrancheError::ArithmeticOverflow));
}

#[test]
fn loss_is_absorbed_by_junior_first() {
    let mut c = ready(0, 0);
    let s = acct(0, 1);
    let j1 = acct(0, 2);
    let j2 = acct(0, 3);
    c.subscribe(s, TrancheType::Senior, 100).unwrap();
    c.subscribe(j1, TrancheType::Junior, 30).unwrap();
    c.subscribe(j2, TrancheType::Junior, 70).unwrap();
    let r = c.apply_loss(admin(), 40);
    assert_eq!(r, Ok(vec![Effect::LossApplied { admin: admin(), amount: 40 }]));
    assert_eq!(c.get_totals(), (100, 60));
    assert_eq!(c.get_user_share(s, TrancheType::Senior), 100);
    assert_eq!(c.get_user_share(j1, TrancheType::Junior), 18);
    assert_eq!(c.get_user_share(j2, TrancheType::Junior), 42);
}

#[test]
fn loss_beyond_junior_reaches_senior() {
    let mut c = ready(0, 0);
    let s1 = acct(0, 1);
    let s2 = acct(0, 2);
    let j = acct(0, 3);
    c.subscribe(s1, TrancheType::Senior, 50).unwrap();
    c.subscribe(s2, TrancheType::Senior, 150).unwrap();
    c.subscribe(j, TrancheType::Junior, 100).unwrap();
    c.apply_loss(admin(), 150).unwrap();
    assert_eq!(c.get_totals(), (150, 0));
    assert_eq!(c.get_user_share(j, TrancheType::Junior), 0);
    assert_eq!(c.get_user_share(s1, TrancheType::Senior), 37);
    assert_eq!(c.get_user_share(s2, TrancheType::Senior), 112);
    let rec = c.into_record();
    assert!(rec.junior.is_empty());
}

#[test]
fn loss_wiping_everything_empties_both_tranches() {
    let mut c = ready(0, 0);
    let s1 = acct(0, 1);
    let j = acct(0, 3);
    c.subscribe(s1, TrancheType::Senior, 50).unwrap();
    c.subscribe(j, TrancheType::Junior, 10).unwrap();
    c.apply_loss(admin(), 1000).unwrap();
    assert_eq!(c.get_totals(), (0, 0));
    assert_eq!(c.get_user_share(s1, TrancheType::Senior), 0);
    let rec = c.into_record();
    assert!(rec.senior.is_empty() && rec.junior.is_empty());
}

#[test]
fn loss_rounding_drops_holders_left_with_nothing() {
    let mut c = ready(0, 0);
    let small = acct(0, 1);
    let big = acct(0, 2);
    c.subscribe(small, TrancheType::Junior, 1).unwrap();
    c.subscribe(big, TrancheType::Junior, 9).unwrap();
    c.apply_loss(admin(), 5).unwrap();
    assert_eq!(c.get_totals(), (0, 5));
    let rec = c.into_record();
    assert_eq!(rec.junior, vec![Holding { account: big, shares: 4 }]);
}

#[test]
fn non_positive_loss_changes_nothing() {
    let mut c = ready(0, 0);
    let j = acct(0, 3);
    c.subscribe(j, TrancheType::Junior, 10).unwrap();
    assert_eq!(c.apply_loss(admin(), 0), Ok(vec![]));
    assert_eq!(c.apply_loss(admin(), -4), Ok(vec![]));
    assert_eq!(c.get_totals(), (0, 10));
}

#[test]
fn loss_overflow_is_refused() {
    let mut c = ready(0, 0);
    let j = acct(0, 3);
    c.subscribe(j, TrancheType::Junior, i128::MAX).unwrap();
    assert_eq!(c.apply_loss(admin(), 1), Err(TrancheError::ArithmeticOverflow));
    assert_eq!(c.get_totals(), (0, i128::MAX));
}

#[test]
fn holdings_are_kept_in_address_order() {
    let mut c = ready(0, 0);
    let x = AccountId { kind: 1, high: 0, low: 0 };
    let y = AccountId { kind: 0, high: 5, low: 0 };
    let z = AccountId { kind: 0, high: 0, low: 9 };
    c.subscribe(x, TrancheType::Senior, 1).unwrap();
    c.subscribe(y, TrancheType::Senior, 2).unwrap();
    c.subscribe(z, TrancheType::Senior, 3).unwrap();
    c.subscribe(y, TrancheType::Senior, 4).unwrap();
    let rec = c.into_record();
    assert_eq!(
        rec.senior,
        vec![
            Holding { account: z, shares: 3 },
            Holding { account: y, shares: 6 },
            Holding { account: x, shares: 1 },
        ]
    );
}

#[test]
fn records_round_trip_and_bad_records_are_refused() {
    let mut c = ready(3, 4);
    let u = acct(0, 7);
    c.subscribe(u, TrancheType::Senior, 10).unwrap();
    let rec = c.into_record();
    let back = TrancheContract::restore(rec).expect("valid record");
    assert_eq!(back.get_user_share(u, TrancheType::Senior), 10);
    assert_eq!(back.get_minimums(), (3, 4));

    let bad_sum = TrancheRecord {
        initialized: true,
        admin: admin(),
        token: token(),
        pool: pool(),
        senior_total: 5,
        junior_total: 0,
        senior: vec![Holding { account: u, shares: 10 }],
        junior: vec![],
        min_senior: 0,
        min_junior: 0,
        paused: false,
    };
    assert!(TrancheContract::restore(bad_sum).is_none());

    let bad_order = TrancheRecord {
        initialized: true,
        admin: admin(),
        token: token(),
        pool: pool(),
        senior_total: 10,
        junior_total: 0,
        senior: vec![Holding { account: acct(0, 2), shares: 5 }, Holding { account: acct(0, 1), shares: 5 }],
        junior: vec![],
        min_senior: 0,
        min_junior: 0,
        paused: false,
    };
    assert!(TrancheContract::restore(bad_order).is_none());

    let bad_fresh = TrancheRecord {
        initialized: false,
        admin: admin(),
        token: token(),
        pool: pool(),
        senior_total: 0,
        junior_total: 0,
        senior: vec![],
        junior: vec![],
        min_senior: 0,
        min_junior: 0,
        paused: true,
    };
    assert!(TrancheContract::restore(bad_fresh).is_none());
}

#[test]
fn error_messages() {
    assert_eq!(TrancheError::AlreadyInitialized.message(), "already initialized");
    assert_eq!(TrancheError::NotAdmin.message(), "only admin");
    assert_eq!(TrancheError::Paused.message(), "contract is paused");
    assert_eq!(TrancheError::NonPositiveAmount.message(), "amount must > 0");
    assert_eq!(TrancheError::BelowSeniorMinimum.message(), "amount below senior minimum");
    assert_eq!(TrancheError::InsufficientJuniorBalance.message(), "insufficient junior balance");
    assert_eq!(TrancheError::BalanceOverflow.message(), "overflow on user balance");
    assert_eq!(TrancheError::ArithmeticOverflow.message(), "overflow");
}

#[test]
fn address_order_helpers() {
    let a = AccountId { kind: 0, high: 1, low: 0 };
    let b = AccountId { kind: 0, high: 1, low: 1 };
    let c = AccountId { kind: 1, high: 0, low: 0 };
    assert!(a.precedes(&b));
    assert!(b.precedes(&c));
    assert!(!b.precedes(&a));
    assert!(!a.precedes(&a));
    assert!(a.same_as(&a));
    assert!(!a.same_as(&b));
}

#[test]
fn equal_holdings_are_paid_equally_and_larger_ones_more() {
    let mut c = ready(0, 0);
    let a = acct(0, 1);
    let b = acct(0, 2);
    let d = acct(0, 3);
    c.subscribe(a, TrancheType::Junior, 7).unwrap();
    c.subscribe(b, TrancheType::Junior, 7).unwrap();
    c.subscribe(d, TrancheType::Junior, 9).unwrap();
    let r = c.notify_pool_payout(admin(), 50).unwrap();
    let paid = |who: AccountId| -> i128 {
        r.iter()
            .map(|e| match e {
                Effect::Paid { to, tranche: TrancheType::Junior, amount } if *to == who => *amount,
                _ => 0,
            })
            .sum()
    };
    assert_eq!(paid(a), 15);
    assert_eq!(paid(a), paid(b));
    assert_eq!(paid(d), 19);
    assert!(paid(a) + paid(b) + paid(d) <= 50);
}

#[test]
fn admin_stays_after_initialize() {
    let mut c = ready(0, 0);
    let other = acct(0, 42);
    let _ = c.initialize(other, token(), pool(), 0, 0);
    let _ = c.set_paused(other, true);
    c.subscribe(other, TrancheType::Senior, 10).unwrap();
    c.apply_loss(admin(), 3).unwrap();
    c.set_minimums(admin(), 1, 2).unwrap();
    assert_eq!(c.get_admin(), Ok(admin()));
    assert!(!c.is_paused());
}
