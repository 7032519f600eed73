use vstd::prelude::*;

use crate::account::{AccountId, precedes, lemma_precedes_total};

verus! {

/// One holder's position in a tranche: the holder and its share count.
#[derive(Clone, Copy, PartialEq, Eq, Structural, Debug)]
pub struct Holding {
    pub account: AccountId,
    pub shares: i128,
}

/// Holdings are kept in strictly increasing address order, so that each
/// holder appears at most once and iteration follows the address order.
pub open spec fn strictly_sorted(s: Seq<Holding>) -> bool {
    forall|i: int, j: int|
        0 <= i < j < s.len() ==> precedes(#[trigger] s[i].account, #[trigger] s[j].account)
}

/// No holding is negative.
pub open spec fn all_nonnegative(s: Seq<Holding>) -> bool {
    forall|i: int| 0 <= i < s.len() ==> (#[trigger] s[i]).shares >= 0
}

/// The shares recorded for `who`, or 0 when `who` holds no entry.
pub open spec fn shares_of(s: Seq<Holding>, who: AccountId) -> i128
    decreases s.len(),
{
    if s.len() == 0 {
        0
    } else if s[0].account == who {
        s[0].shares
    } else {
        shares_of(s.drop_first(), who)
    }
}

/// The sum of all recorded shares.
pub open spec fn total_shares(s: Seq<Holding>) -> int
    decreases s.len(),
{
    if s.len() == 0 {
        0
    } else {
        total_shares(s.drop_last()) + s.last().shares
    }
}

/// The holdings after recording `v` shares for `who`: the entry of `who`
/// is replaced, or a new entry is put at its place in address order.
pub open spec fn assign(s: Seq<Holding>, who: AccountId, v: i128) -> Seq<Holding>
    decreases s.len(),
{
    let h = Holding { account: who, shares: v };
    if s.len() == 0 {
        seq![h]
    } else if s[0].account == who {
        s.update(0, h)
    } else if precedes(who, s[0].account) {
        seq![h] + s
    } else {
        seq![s[0]] + assign(s.drop_first(), who, v)
    }
}

/// The holdings rescaled by `num / den`: each holder keeps
/// `shares * num / den` (rounded down), holders left with nothing are
/// dropped, and the result is `None` when a product `shares * num` leaves
/// the range of `i128`.
pub open spec fn scale_holdings(s: Seq<Holding>, num: i128, den: i128) -> Option<Seq<Holding>>
    decreases s.len(),
{
    if s.len() == 0 {
        Some(Seq::empty())
    } else {
        match scale_holdings(s.drop_last(), num, den) {
            None => None,
            Some(prev) => {
                let h = s.last();
                let p = h.shares * num;
                if p < i128::MIN || p > i128::MAX {
                    None
                } else if p / (den as int) > 0 {
                    Some(prev.push(Holding { account: h.account, shares: (p / (den as int)) as i128 }))
                } else {
                    Some(prev)
                }
            },
        }
    }
}

pub proof fn lemma_total_shares_first(s: Seq<Holding>)
    requires
        s.len() > 0,
    ensures
        total_shares(s) == s[0].shares + total_shares(s.drop_first()),
    decreases s.len(),
{
    if s.len() == 1 {
        assert(s.drop_first().len() == 0);
        assert(s.drop_last().len() == 0);
        assert(s.last() == s[0]);
        assert(total_shares(s.drop_last()) == 0);
        assert(total_shares(s.drop_first()) == 0);
    } else {
        lemma_total_shares_first(s.drop_last());
        assert(s.drop_last().drop_first() =~= s.drop_first().drop_last());
        assert(s.drop_first().last() == s.last());
        assert(total_shares(s.drop_first()) == total_shares(s.drop_first().drop_last())
            + s.drop_first().last().shares);
    }
}

pub proof fn lemma_total_shares_push(s: Seq<Holding>, h: Holding)
    ensures
        total_shares(s.push(h)) == total_shares(s) + h.shares,
{
    assert(s.push(h).drop_last() =~= s);
}

pub proof fn lemma_total_shares_nonnegative(s: Seq<Holding>)
    requires
        all_nonnegative(s),
    ensures
        total_shares(s) >= 0,
    decreases s.len(),
{
    if s.len() > 0 {
        lemma_total_shares_nonnegative(s.drop_last());
    }
}

/// In sorted holdings, the shares of the holder at index `i` are found.
pub proof fn lemma_shares_at(s: Seq<Holding>, i: int)
    requires
        strictly_sorted(s),
        0 <= i < s.len(),
    ensures
        shares_of(s, s[i].account) == s[i].shares,
    decreases i,
{
    if i > 0 {
        lemma_precedes_total(s[0].account, s[i].account);
        lemma_shares_at(s.drop_first(), i - 1);
    }
}

/// A holder with no entry has no shares.
pub proof fn lemma_shares_absent(s: Seq<Holding>, who: AccountId)
    requires
        forall|j: int| 0 <= j < s.len() ==> (#[trigger] s[j]).account != who,
    ensures
        shares_of(s, who) == 0,
    decreases s.len(),
{
    if s.len() > 0 {
        assert(s[0].account != who);
        assert forall|j: int| 0 <= j < s.drop_first().len() implies (#[trigger] s.drop_first()[j]).account
            != who by {
            assert(s.drop_first()[j] == s[j + 1]);
        }
        lemma_shares_absent(s.drop_first(), who);
    }
}

/// With no negative holding, one holder's shares lie between 0 and the sum.
pub proof fn lemma_shares_bounded(s: Seq<Holding>, who: AccountId)
    requires
        all_nonnegative(s),
    ensures
        0 <= shares_of(s, who) <= total_shares(s),
    decreases s.len(),
{
    if s.len() > 0 {
        lemma_total_shares_first(s);
        assert(all_nonnegative(s.drop_first())) by {
            assert forall|i: int| 0 <= i < s.drop_first().len() implies (
            #[trigger] s.drop_first()[i]).shares >= 0 by {
                assert(s.drop_first()[i] == s[i + 1]);
            }
        }
        lemma_shares_bounded(s.drop_first(), who);
        lemma_total_shares_nonnegative(s.drop_first());
        assert(s[0].shares >= 0);
    }
}

/// Recording shares at the place found by a scan in address order.
pub proof fn lemma_assign_at_position(s: Seq<Holding>, who: AccountId, v: i128, p: int)
    requires
        strictly_sorted(s),
        0 <= p <= s.len(),
        forall|j: int| 0 <= j < p ==> precedes(#[trigger] s[j].account, who),
        p < s.len() ==> !precedes(s[p].account, who),
    ensures
        assign(s, who, v) == (if p < s.len() && s[p].account == who {
            s.update(p, Holding { account: who, shares: v })
        } else {
            s.insert(p, Holding { account: who, shares: v })
        }),
    decreases p,
{
    let h = Holding { account: who, shares: v };
    if p == 0 {
        if s.len() == 0 {
            assert(s.insert(0, h) =~= seq![h]);
        } else if s[0].account != who {
            lemma_precedes_total(s[0].account, who);
            assert(seq![h] + s =~= s.insert(0, h));
        }
    } else {
        lemma_precedes_total(s[0].account, who);
        let rest = s.drop_first();
        assert forall|j: int| 0 <= j < p - 1 implies precedes(#[trigger] rest[j].account, who) by {
            assert(rest[j] == s[j + 1]);
        }
        lemma_assign_at_position(rest, who, v, p - 1);
        if p < s.len() && s[p].account == who {
            assert(seq![s[0]] + rest.update(p - 1, h) =~= s.update(p, h));
        } else {
            assert(seq![s[0]] + rest.insert(p - 1, h) =~= s.insert(p, h));
        }
    }
}

/// What recording `v` shares for `who` does to sorted holdings.
pub proof fn lemma_assign(s: Seq<Holding>, who: AccountId, v: i128)
    requires
        strictly_sorted(s),
    ensures
        strictly_sorted(assign(s, who, v)),
        forall|k: int|
            0 <= k < assign(s, who, v).len() ==> (#[trigger] assign(s, who, v)[k] == Holding {
                account: who,
                shares: v,
            } || exists|j: int| 0 <= j < s.len() && s[j] == assign(s, who, v)[k]),
        forall|a: AccountId|
            #[trigger] shares_of(assign(s, who, v), a) == if a == who {
                v
            } else {
                shares_of(s, a)
            },
        total_shares(assign(s, who, v)) == total_shares(s) - shares_of(s, who) + v,
    decreases s.len(),
{
    let h = Holding { account: who, shares: v };
    let r = assign(s, who, v);
    if s.len() == 0 {
        assert(r.drop_last() =~= Seq::<Holding>::empty());
        assert(r.drop_first() =~= Seq::<Holding>::empty());
        assert(r.last() == h);
        assert(total_shares(r.drop_last()) == 0);
        assert(total_shares(r) == v);
        assert forall|a: AccountId| #[trigger]
            shares_of(r, a) == if a == who {
                v
            } else {
                shares_of(s, a)
            } by {
            assert(shares_of(r.drop_first(), a) == 0);
        }
    } else if s[0].account == who {
        assert(r.drop_first() =~= s.drop_first());
        lemma_total_shares_first(s);
        lemma_total_shares_first(r);
        assert forall|k: int| 0 <= k < r.len() implies (#[trigger] r[k] == h || exists|j: int|
            0 <= j < s.len() && s[j] == r[k]) by {
            if k > 0 {
                assert(s[k] == r[k]);
            }
        }
        assert forall|a: AccountId| #[trigger]
            shares_of(r, a) == if a == who {
                v
            } else {
                shares_of(s, a)
            } by {}
    } else if precedes(who, s[0].account) {
        assert(r.drop_first() =~= s);
        lemma_total_shares_first(r);
        assert forall|j: int| 0 <= j < s.len() implies (#[trigger] s[j]).account != who by {
            if j > 0 {
                assert(precedes(s[0].account, s[j].account));
            }
            lemma_precedes_total(who, s[j].account);
        }
        lemma_shares_absent(s, who);
        assert forall|i: int, j: int| 0 <= i < j < r.len() implies precedes(
            #[trigger] r[i].account,
            #[trigger] r[j].account,
        ) by {
            if i > 0 {
                assert(r[i] == s[i - 1] && r[j] == s[j - 1]);
            } else {
                assert(r[j] == s[j - 1]);
                if j > 1 {
                    assert(precedes(s[0].account, s[j - 1].account));
                }
            }
        }
        assert forall|k: int| 0 <= k < r.len() implies (#[trigger] r[k] == h || exists|j: int|
            0 <= j < s.len() && s[j] == r[k]) by {
            if k > 0 {
                assert(s[k - 1] == r[k]);
            }
        }
        assert forall|a: AccountId| #[trigger]
            shares_of(r, a) == if a == who {
                v
            } else {
                shares_of(s, a)
            } by {}
    } else {
        let rest = s.drop_first();
        let ra = assign(rest, who, v);
        lemma_precedes_total(s[0].account, who);
        lemma_assign(rest, who, v);
        assert(r == seq![s[0]] + ra);
        assert(r.drop_first() =~= ra);
        lemma_total_shares_first(r);
        lemma_total_shares_first(s);
        assert forall|k: int| 0 <= k < r.len() implies (#[trigger] r[k] == h || exists|j: int|
            0 <= j < s.len() && s[j] == r[k]) by {
            if k == 0 {
                assert(s[0] == r[0]);
            } else {
                assert(r[k] == ra[k - 1]);
                if ra[k - 1] != h {
                    let j = choose|j: int| 0 <= j < rest.len() && rest[j] == ra[k - 1];
                    assert(s[j + 1] == r[k]);
                }
            }
        }
        assert forall|i: int, j: int| 0 <= i < j < r.len() implies precedes(
            #[trigger] r[i].account,
            #[trigger] r[j].account,
        ) by {
            if i > 0 {
                assert(r[i] == ra[i - 1] && r[j] == ra[j - 1]);
            } else {
                assert(r[j] == ra[j - 1]);
                if ra[j - 1] != h {
                    let jj = choose|jj: int| 0 <= jj < rest.len() && rest[jj] == ra[j - 1];
                    assert(rest[jj] == s[jj + 1]);
                    assert(precedes(s[0].account, s[jj + 1].account));
                }
            }
        }
        assert forall|a: AccountId| #[trigger]
            shares_of(r, a) == if a == who {
                v
            } else {
                shares_of(s, a)
            } by {
            assert(shares_of(r, a) == if s[0].account == a {
                s[0].shares
            } else {
                shares_of(ra, a)
            });
        }
    }
}

/// Once a prefix overflows when rescaled, every longer prefix does.
pub proof fn lemma_scale_overflow_persists(s: Seq<Holding>, num: i128, den: i128, i: int, k: int)
    requires
        0 <= i <= k <= s.len(),
        scale_holdings(s.take(i), num, den) is None,
    ensures
        scale_holdings(s.take(k), num, den) is None,
    decreases k - i,
{
    if k > i {
        lemma_scale_overflow_persists(s, num, den, i, k - 1);
        assert(s.take(k).drop_last() =~= s.take(k - 1));
    }
}

/// Rescaling keeps the order, keeps only positive holdings of holders that
/// were present, and (rounding down) never creates shares:
/// the rescaled sum times `den` is at most the old sum times `num`.
pub proof fn lemma_scale_holdings(s: Seq<Holding>, num: i128, den: i128)
    requires
        strictly_sorted(s),
        all_nonnegative(s),
        num >= 0,
        den > 0,
    ensures
        scale_holdings(s, num, den) matches Some(out) ==> {
            &&& strictly_sorted(out)
            &&& forall|k: int| 0 <= k < out.len() ==> (#[trigger] out[k]).shares > 0
            &&& forall|k: int|
                0 <= k < out.len() ==> exists|j: int|
                    0 <= j < s.len() && s[j].account == (#[trigger] out[k]).account
            &&& total_shares(out) * den <= total_shares(s) * num
        },
    decreases s.len(),
{
    if s.len() > 0 {
        let init = s.drop_last();
        lemma_scale_holdings(init, num, den);
        if let Some(prev) = scale_holdings(init, num, den) {
            let h = s.last();
            let p = h.shares * num;
            assert(p >= 0) by (nonlinear_arith)
                requires
                    h.shares >= 0,
                    num >= 0,
                    p == h.shares * num,
            ;
            let q = p / (den as int);
            assert(q * den <= p && q >= 0) by (nonlinear_arith)
                requires
                    p >= 0,
                    den > 0,
                    q == p / (den as int),
            ;
            assert(total_shares(s) == total_shares(init) + h.shares);
            assert(total_shares(s) * num == total_shares(init) * num + p) by (nonlinear_arith)
                requires
                    total_shares(s) == total_shares(init) + h.shares,
                    p == h.shares * num,
            ;
            if p >= i128::MIN && p <= i128::MAX && q > 0 {
                let nh = Holding { account: h.account, shares: q as i128 };
                let out = prev.push(nh);
                lemma_total_shares_push(prev, nh);
                assert(total_shares(out) * den == total_shares(prev) * den + q * den)
                    by (nonlinear_arith)
                    requires
                        total_shares(out) == total_shares(prev) + q,
                ;
                assert forall|k: int| 0 <= k < out.len() implies exists|j: int|
                    0 <= j < s.len() && s[j].account == (#[trigger] out[k]).account by {
                    if k < prev.len() {
                        assert(out[k] == prev[k]);
                        let j = choose|j: int| 0 <= j < init.len() && init[j].account == prev[k].account;
                        assert(s[j] == init[j]);
                    } else {
                        assert(s[s.len() - 1].account == out[k].account);
                    }
                }
                assert forall|a: int, b: int| 0 <= a < b < out.len() implies precedes(
                    #[trigger] out[a].account,
                    #[trigger] out[b].account,
                ) by {
                    assert(out[a] == prev[a]);
                    if b < prev.len() {
                        assert(out[b] == prev[b]);
                    } else {
                        let j = choose|j: int| 0 <= j < init.len() && init[j].account == prev[a].account;
                        assert(s[j] == init[j]);
                        assert(precedes(s[j].account, s[s.len() - 1].account));
                    }
                }
                assert forall|k: int| 0 <= k < out.len() implies (#[trigger] out[k]).shares > 0 by {
                    if k < prev.len() {
                        assert(out[k] == prev[k]);
                    }
                }
            }
        }
    }
}

/// Appending a holder that is not yet present.
pub proof fn lemma_shares_push(s: Seq<Holding>, h: Holding, a: AccountId)
    requires
        forall|j: int| 0 <= j < s.len() ==> (#[trigger] s[j]).account != h.account,
    ensures
        shares_of(s.push(h), a) == if a == h.account {
            h.shares
        } else {
            shares_of(s, a)
        },
    decreases s.len(),
{
    if s.len() == 0 {
        assert(s.push(h).drop_first() =~= Seq::<Holding>::empty());
        assert(s.push(h)[0] == h);
        assert(shares_of(Seq::<Holding>::empty(), a) == 0);
        assert(shares_of(s, a) == 0);
    } else {
        assert(s.push(h).drop_first() =~= s.drop_first().push(h));
        assert(s.push(h)[0] == s[0]);
        assert forall|j: int| 0 <= j < s.drop_first().len() implies (
        #[trigger] s.drop_first()[j]).account != h.account by {
            assert(s.drop_first()[j] == s[j + 1]);
        }
        lemma_shares_push(s.drop_first(), h, a);
    }
}

/// Rescaling gives each holder `shares * num / den`, rounded down.
pub proof fn lemma_scale_shares(s: Seq<Holding>, num: i128, den: i128, a: AccountId)
    requires
        strictly_sorted(s),
        all_nonnegative(s),
        num >= 0,
        den > 0,
    ensures
        scale_holdings(s, num, den) matches Some(out) ==> shares_of(out, a) == (shares_of(s, a)
            * num) / (den as int),
    decreases s.len(),
{
    if s.len() == 0 {
        assert(0 * num / (den as int) == 0) by (nonlinear_arith)
            requires
                den > 0,
        ;
    } else {
        let init = s.drop_last();
        let h = s.last();
        lemma_scale_shares(init, num, den, a);
        lemma_scale_holdings(init, num, den);
        assert(init.push(h) =~= s);
        assert forall|j: int| 0 <= j < init.len() implies (#[trigger] init[j]).account
            != h.account by {
            assert(init[j] == s[j]);
            assert(precedes(s[j].account, s[s.len() - 1].account));
            lemma_precedes_total(s[j].account, h.account);
        }
        lemma_shares_push(init, h, a);
        if let Some(prev) = scale_holdings(init, num, den) {
            let p = h.shares * num;
            assert(p >= 0) by (nonlinear_arith)
                requires
                    h.shares >= 0,
                    num >= 0,
                    p == h.shares * num,
            ;
            let q = p / (den as int);
            assert forall|j: int| 0 <= j < prev.len() implies (#[trigger] prev[j]).account
                != h.account by {
                let jj = choose|jj: int| 0 <= jj < init.len() && init[jj].account == prev[j].account;
            }
            if a == h.account {
                lemma_shares_absent(prev, a);
            }
            if p >= i128::MIN && p <= i128::MAX && q > 0 {
                lemma_shares_push(prev, Holding { account: h.account, shares: q as i128 }, a);
            }
            if a == h.account {
                assert(q >= 0) by (nonlinear_arith)
                    requires
                        p >= 0,
                        den > 0,
                        q == p / (den as int),
                ;
            }
        }
    }
}

/// Index of the first holding whose address does not come before `who`.
pub fn position_of(s: &Vec<Holding>, who: &AccountId) -> (p: usize)
    requires
        strictly_sorted(s@),
    ensures
        p <= s.len(),
        forall|j: int| 0 <= j < p ==> precedes(#[trigger] s@[j].account, *who),
        p < s.len() ==> !precedes(s@[p as int].account, *who),
{
    let mut p: usize = 0;
    while p < s.len() && s[p].account.precedes(who)
        invariant
            p <= s.len(),
            forall|j: int| 0 <= j < p ==> precedes(#[trigger] s@[j].account, *who),
        decreases s.len() - p,
    {
        p = p + 1;
    }
    p
}

/// The shares recorded for `who`, 0 when `who` has no entry.
pub fn shares_in(s: &Vec<Holding>, who: &AccountId) -> (r: i128)
    requires
        strictly_sorted(s@),
    ensures
        r == shares_of(s@, *who),
{
    let p = position_of(s, who);
    if p < s.len() && s[p].account.same_as(who) {
        proof {
            lemma_shares_at(s@, p as int);
        }
        s[p].shares
    } else {
        proof {
            assert forall|j: int| 0 <= j < s.len() implies (#[trigger] s@[j]).account != *who by {
                if j >= p {
                    lemma_precedes_total(s@[p as int].account, *who);
                    if j > p {
                        assert(precedes(s@[p as int].account, s@[j].account));
                    }
                } else {
                    assert(precedes(s@[j].account, *who));
                }
            }
            lemma_shares_absent(s@, *who);
        }
        0
    }
}

/// Records `v` shares for `who`, keeping the address order.
pub fn assign_shares(s: &mut Vec<Holding>, who: AccountId, v: i128)
    requires
        strictly_sorted(old(s)@),
    ensures
        final(s)@ == assign(old(s)@, who, v),
{
    let p = position_of(s, &who);
    proof {
        lemma_assign_at_position(s@, who, v, p as int);
    }
    let h = Holding { account: who, shares: v };
    if p < s.len() && s[p].account.same_as(&who) {
        s.set(p, h);
    } else {
        s.insert(p, h);
    }
}

/// The holdings rescaled by `num / den`, or `None` on overflow.
pub fn scaled_holdings(s: &Vec<Holding>, num: i128, den: i128) -> (r: Option<Vec<Holding>>)
    requires
        all_nonnegative(s@),
        num >= 0,
        den > 0,
    ensures
        match scale_holdings(s@, num, den) {
            Some(t) => r matches Some(v) && v@ == t,
            None => r is None,
        },
{
    let mut out: Vec<Holding> = Vec::new();
    let mut i: usize = 0;
    proof {
        assert(s@.take(0) =~= Seq::<Holding>::empty());
    }
    while i < s.len()
        invariant
            i <= s.len(),
            all_nonnegative(s@),
            num >= 0,
            den > 0,
            scale_holdings(s@.take(i as int), num, den) == Some(out@),
        decreases s.len() - i,
    {
        let h = s[i];
        proof {
            assert(s@.take(i + 1).drop_last() =~= s@.take(i as int));
            assert(s@.take(i + 1).last() == h);
            assert(h.shares >= 0);
        }
        match h.shares.checked_mul(num) {
            None => {
                proof {
                    lemma_scale_overflow_persists(s@, num, den, i + 1, s.len() as int);
                    assert(s@.take(s.len() as int) =~= s@);
                }
                return None;
            },
            Some(p) => {
                assert(p >= 0) by (nonlinear_arith)
                    requires
                        h.shares >= 0,
                        num >= 0,
                        p == h.shares * num,
                ;
                let q = p / den;
                if q > 0 {
                    out.push(Holding { account: h.account, shares: q });
                }
            },
        }
        i = i + 1;
    }
    proof {
        assert(s@.take(s.len() as int) =~= s@);
    }
    Some(out)
}

} // verus!
