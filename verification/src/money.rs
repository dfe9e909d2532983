//! Shares, totals and slashes, in whole units of a token.
//!
//! Amounts are `i128`. Where an amount on the way to a result does not fit,
//! there is no result: the functions here give `None`.

use vstd::prelude::*;

use crate::types::{Address, VouchRecord};

verus! {

/// Basis points in a whole.
pub const BPS: i128 = 10_000;

/// Whether an amount fits in `i128`.
pub open spec fn fits(x: int) -> bool {
    i128::MIN <= x <= i128::MAX
}

/// `a` divided by a positive `b`, rounded toward zero.
pub open spec fn quotient(a: int, b: int) -> int {
    if a >= 0 {
        a / b
    } else {
        -((-a) / b)
    }
}

/// A quotient is no further from zero than what was divided.
pub proof fn lemma_quotient_bounds(a: int, b: int)
    requires
        b > 0,
    ensures
        a >= 0 ==> 0 <= quotient(a, b) <= a,
        a <= 0 ==> a <= quotient(a, b) <= 0,
{
    if a >= 0 {
        assert(0 <= a / b <= a) by (nonlinear_arith)
            requires
                a >= 0,
                b > 0,
        ;
    } else {
        let c = -a;
        assert(0 <= c / b <= c) by (nonlinear_arith)
            requires
                c >= 0,
                b > 0,
        ;
    }
}

/// The stakes in `token`, added up.
pub open spec fn stake_total(vouches: Seq<VouchRecord>, token: Address) -> int
    decreases vouches.len(),
{
    if vouches.len() == 0 {
        0
    } else {
        stake_total(vouches.drop_last(), token) + if vouches.last().token == token {
            vouches.last().stake as int
        } else {
            0
        }
    }
}

/// Whether every running total of the stakes in `token` fits.
pub open spec fn stake_totals_fit(vouches: Seq<VouchRecord>, token: Address) -> bool {
    forall|k: int| 0 <= k <= vouches.len() ==> fits(#[trigger] stake_total(vouches.take(k), token))
}

/// The part of a yield that falls to one stake out of a total.
pub open spec fn yield_share(total_yield: i128, stake: i128, total_stake: int) -> int {
    if total_stake > 0 {
        quotient(total_yield * stake, total_stake)
    } else {
        0
    }
}

pub open spec fn payout_fits(vouch: VouchRecord, total_yield: i128, total_stake: int) -> bool {
    &&& total_stake > 0 ==> fits(total_yield * vouch.stake)
    &&& fits(vouch.stake + yield_share(total_yield, vouch.stake, total_stake))
}

/// What each stake in `token` gets back with its part of the yield, in the order
/// of the stakes.
pub open spec fn payouts(
    vouches: Seq<VouchRecord>,
    token: Address,
    total_yield: i128,
    total_stake: int,
) -> Seq<(Address, i128)>
    decreases vouches.len(),
{
    if vouches.len() == 0 {
        Seq::empty()
    } else {
        let earlier = payouts(vouches.drop_last(), token, total_yield, total_stake);
        let vouch = vouches.last();
        if vouch.token == token {
            earlier.push(
                (
                    vouch.voucher,
                    (vouch.stake + yield_share(total_yield, vouch.stake, total_stake)) as i128,
                ),
            )
        } else {
            earlier
        }
    }
}

/// Whether everything on the way to the payouts fits.
pub open spec fn payouts_fit(
    vouches: Seq<VouchRecord>,
    token: Address,
    total_yield: i128,
) -> bool {
    &&& stake_totals_fit(vouches, token)
    &&& forall|i: int|
        0 <= i < vouches.len() && (#[trigger] vouches[i]).token == token ==> payout_fits(
            vouches[i],
            total_yield,
            stake_total(vouches, token),
        )
}

/// What one stake loses at a rate in basis points.
pub open spec fn slash_of(stake: i128, rate: int) -> int {
    quotient(stake * rate, BPS as int)
}

/// What the stakes in `token` lose together.
pub open spec fn slash_total(vouches: Seq<VouchRecord>, token: Address, rate: int) -> int
    decreases vouches.len(),
{
    if vouches.len() == 0 {
        0
    } else {
        slash_total(vouches.drop_last(), token, rate) + if vouches.last().token == token {
            slash_of(vouches.last().stake, rate)
        } else {
            0
        }
    }
}

/// What each stake in `token` has left after the slash, in the order of the
/// stakes; a stake with nothing left is passed over.
pub open spec fn remainders(vouches: Seq<VouchRecord>, token: Address, rate: int) -> Seq<
    (Address, i128),
>
    decreases vouches.len(),
{
    if vouches.len() == 0 {
        Seq::empty()
    } else {
        let earlier = remainders(vouches.drop_last(), token, rate);
        let vouch = vouches.last();
        let left = vouch.stake - slash_of(vouch.stake, rate);
        if vouch.token == token && left > 0 {
            earlier.push((vouch.voucher, left as i128))
        } else {
            earlier
        }
    }
}

/// Whether everything on the way to the slash fits.
pub open spec fn slashes_fit(vouches: Seq<VouchRecord>, token: Address, rate: int) -> bool {
    &&& forall|k: int|
        0 <= k <= vouches.len() ==> fits(#[trigger] slash_total(vouches.take(k), token, rate))
    &&& forall|i: int|
        0 <= i < vouches.len() && (#[trigger] vouches[i]).token == token ==> {
            &&& fits(vouches[i].stake * rate)
            &&& fits(vouches[i].stake - slash_of(vouches[i].stake, rate))
        }
}

/// `a` divided by a positive `b`, rounded toward zero.
pub fn divide(a: i128, b: i128) -> (r: i128)
    requires
        b > 0,
    ensures
        r == quotient(a as int, b as int),
{
    proof {
        lemma_quotient_bounds(a as int, b as int);
    }
    a / b
}

/// `a` times `b`, divided by a positive `c`, rounded toward zero.
pub fn scale(a: i128, b: i128, c: i128) -> (r: Option<i128>)
    requires
        c > 0,
    ensures
        r is Some <==> fits(a * b),
        r matches Some(x) ==> x == quotient(a * b, c as int),
{
    match a.checked_mul(b) {
        Some(product) => Some(divide(product, c)),
        None => None,
    }
}

/// Adds up the stakes in `token`.
pub fn add_stakes(vouches: &Vec<VouchRecord>, token: Address) -> (r: Option<i128>)
    ensures
        r is Some <==> stake_totals_fit(vouches@, token),
        r matches Some(total) ==> total == stake_total(vouches@, token),
{
    let mut total: i128 = 0;
    for i in 0..vouches.len()
        invariant
            total == stake_total(vouches@.take(i as int), token),
            forall|k: int| 0 <= k <= i ==> fits(#[trigger] stake_total(vouches@.take(k), token)),
    {
        assert(vouches@.take(i + 1).drop_last() =~= vouches@.take(i as int));
        if vouches[i].token == token {
            match total.checked_add(vouches[i].stake) {
                Some(sum) => total = sum,
                None => {
                    assert(!fits(stake_total(vouches@.take(i + 1), token)));
                    return None;
                },
            }
        }
    }
    assert(vouches@.take(vouches@.len() as int) =~= vouches@);
    Some(total)
}

/// Works out what each stake in `token` gets back with its part of the yield.
pub fn work_out_payouts(vouches: &Vec<VouchRecord>, token: Address, total_yield: i128) -> (r: Option<
    Vec<(Address, i128)>,
>)
    ensures
        r is Some <==> payouts_fit(vouches@, token, total_yield),
        r matches Some(list) ==> list@ == payouts(
            vouches@,
            token,
            total_yield,
            stake_total(vouches@, token),
        ),
{
    let total_stake = match add_stakes(vouches, token) {
        Some(total) => total,
        None => return None,
    };
    let mut list: Vec<(Address, i128)> = Vec::new();
    for i in 0..vouches.len()
        invariant
            total_stake == stake_total(vouches@, token),
            list@ == payouts(vouches@.take(i as int), token, total_yield, total_stake as int),
            forall|j: int|
                0 <= j < i && (#[trigger] vouches@[j]).token == token ==> payout_fits(
                    vouches@[j],
                    total_yield,
                    total_stake as int,
                ),
    {
        assert(vouches@.take(i + 1).drop_last() =~= vouches@.take(i as int));
        let vouch = vouches[i];
        if vouch.token == token {
            let share: i128 = if total_stake > 0 {
                match scale(total_yield, vouch.stake, total_stake) {
                    Some(share) => share,
                    None => {
                        assert(!payout_fits(vouches@[i as int], total_yield, total_stake as int));
                        return None;
                    },
                }
            } else {
                0
            };
            match vouch.stake.checked_add(share) {
                Some(amount) => list.push((vouch.voucher, amount)),
                None => {
                    assert(!payout_fits(vouches@[i as int], total_yield, total_stake as int));
                    return None;
                },
            }
        }
    }
    assert(vouches@.take(vouches@.len() as int) =~= vouches@);
    Some(list)
}

/// Works out what the stakes in `token` lose together, and what each has left.
pub fn work_out_slash(vouches: &Vec<VouchRecord>, token: Address, rate: i128) -> (r: Option<
    (i128, Vec<(Address, i128)>),
>)
    ensures
        r is Some <==> slashes_fit(vouches@, token, rate as int),
        r matches Some((total, list)) ==> {
            &&& total == slash_total(vouches@, token, rate as int)
            &&& list@ == remainders(vouches@, token, rate as int)
        },
{
    let mut total: i128 = 0;
    let mut list: Vec<(Address, i128)> = Vec::new();
    for i in 0..vouches.len()
        invariant
            total == slash_total(vouches@.take(i as int), token, rate as int),
            list@ == remainders(vouches@.take(i as int), token, rate as int),
            forall|k: int|
                0 <= k <= i ==> fits(
                    #[trigger] slash_total(vouches@.take(k), token, rate as int),
                ),
            forall|j: int|
                0 <= j < i && (#[trigger] vouches@[j]).token == token ==> {
                    &&& fits(vouches@[j].stake * rate)
                    &&& fits(vouches@[j].stake - slash_of(vouches@[j].stake, rate as int))
                },
    {
        assert(vouches@.take(i + 1).drop_last() =~= vouches@.take(i as int));
        let vouch = vouches[i];
        if vouch.token == token {
            let slash = match scale(vouch.stake, rate, BPS) {
                Some(slash) => slash,
                None => {
                    assert(!fits(vouches@[i as int].stake * rate));
                    return None;
                },
            };
            match total.checked_add(slash) {
                Some(sum) => total = sum,
                None => {
                    assert(!fits(slash_total(vouches@.take(i + 1), token, rate as int)));
                    return None;
                },
            }
            let left = match vouch.stake.checked_sub(slash) {
                Some(left) => left,
                None => {
                    assert(!fits(
                        vouches@[i as int].stake - slash_of(vouches@[i as int].stake, rate as int),
                    ));
                    return None;
                },
            };
            if left > 0 {
                list.push((vouch.voucher, left));
            }
        }
    }
    assert(vouches@.take(vouches@.len() as int) =~= vouches@);
    Some((total, list))
}

} // verus!
