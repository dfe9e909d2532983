//! What each call comes to, stated over its arguments, the stored entries and the
//! actions due.
//!
//! The statements speak of the entries themselves, of sums, and of divisions by what
//! they leave over. They name a call only by its answer, by what it leaves behind and by
//! whether it has an answer at all.

use vstd::prelude::*;

use crate::contract::lemma_batch_stops;
use crate::env::{Effect, EffectView, Env, EnvView, Event, EventView};
use crate::ledger::{entry, LedgerView};
use crate::money::{
    fits, lemma_quotient_bounds, payout_fits, payouts, payouts_fit, quotient, remainders, slash_of, slash_total, slashes_fit, stake_total,
    stake_totals_fit, yield_share,
};
use crate::rules::{
    batch_check, batch_entry_defined, batch_entry_post, batch_repay_defined, batch_repay_post,
    batch_repay_result, batch_run, forgive_default_post, forgive_default_result, initialize_post,
    initialize_result, mark_partial_default_defined, mark_partial_default_post,
    mark_partial_default_result, repaid_bps, repay_defined, repay_post, repay_result,
    request_loan_defined, request_loan_post, request_loan_result, settle_defined, settle_result,
    slash_rate,
};
use crate::types::{
    Address, Config, ContractError, Defaults, LoanRecord, LoanStatus, LoanView, SlashRecord,
    SlashView, VouchRecord,
};

verus! {

// --- Whole units -----------------------------------------------------------

/// Whether `q` is what `a` over a positive `b` comes to, rounded toward zero.
pub open spec fn divides(a: int, b: int, q: int) -> bool {
    if a >= 0 {
        0 <= q && q * b <= a < q * b + b
    } else {
        q <= 0 && q * b - b < a <= q * b
    }
}

/// The amounts, added up.
pub open spec fn sum(amounts: Seq<int>) -> int {
    amounts.fold_left(0, |total: int, amount: int| total + amount)
}

/// The stakes in `token`, in order.
pub open spec fn stakes_in(vouches: Seq<VouchRecord>, token: Address) -> Seq<VouchRecord> {
    vouches.filter(|vouch: VouchRecord| vouch.token == token)
}

/// What the stakes come to.
pub open spec fn staked(stakes: Seq<VouchRecord>) -> int {
    sum(stakes.map_values(|vouch: VouchRecord| vouch.stake as int))
}

/// Whether an amount can be held at all.
pub open spec fn holds(x: int) -> bool {
    i128::MIN <= x <= i128::MAX
}

/// Whether no running total of the stakes in `token` is out of range.
pub open spec fn running_totals_hold(vouches: Seq<VouchRecord>, token: Address) -> bool {
    forall|k: int|
        0 <= k <= vouches.len() ==> holds(staked(stakes_in(#[trigger] vouches.take(k), token)))
}

proof fn lemma_divides(a: int, b: int)
    requires
        b > 0,
    ensures
        divides(a, b, quotient(a, b)),
        forall|q: int| #[trigger] divides(a, b, q) ==> q == quotient(a, b),
{
    let m = if a >= 0 {
        a
    } else {
        -a
    };
    let d = m / b;
    assert(d >= 0 && d * b <= m < d * b + b) by (nonlinear_arith)
        requires
            m >= 0,
            b > 0,
            d == m / b,
    ;
    assert((-d) * b == -(d * b)) by (nonlinear_arith);
    assert forall|q: int| #[trigger] divides(a, b, q) implies q == quotient(a, b) by {
        let p = if a >= 0 {
            q
        } else {
            -q
        };
        assert((-q) * b == -(q * b)) by (nonlinear_arith);
        assert(p == d) by (nonlinear_arith)
            requires
                b > 0,
                p * b <= m < p * b + b,
                d * b <= m < d * b + b,
        ;
    }
}

/// A division leaves a whole number and a rest that is smaller than the divisor; the
/// whole number is the one nearest to the exact result on the side of zero.
pub proof fn division_rounds_toward_zero(a: int, b: int)
    requires
        b > 0,
    ensures
        divides(a, b, quotient(a, b)),
{
    lemma_divides(a, b);
}

proof fn lemma_sum_push(amounts: Seq<int>, amount: int)
    ensures
        sum(amounts.push(amount)) == sum(amounts) + amount,
        sum(Seq::empty()) == 0,
{
    reveal_with_fuel(Seq::fold_left, 2);
    assert(amounts.push(amount).drop_last() =~= amounts);
}

proof fn lemma_stakes_in_step(vouches: Seq<VouchRecord>, token: Address)
    requires
        vouches.len() > 0,
    ensures
        stakes_in(vouches, token) == if vouches.last().token == token {
            stakes_in(vouches.drop_last(), token).push(vouches.last())
        } else {
            stakes_in(vouches.drop_last(), token)
        },
{
    reveal_with_fuel(Seq::filter, 2);
}

proof fn lemma_no_stakes(token: Address)
    ensures
        stakes_in(Seq::empty(), token) == Seq::<VouchRecord>::empty(),
        staked(Seq::empty()) == 0,
{
    reveal_with_fuel(Seq::filter, 1);
    let none = Seq::<VouchRecord>::empty();
    assert(none.map_values(|vouch: VouchRecord| vouch.stake as int) =~= Seq::<int>::empty());
    lemma_sum_push(Seq::empty(), 0);
}

proof fn lemma_staked_push(stakes: Seq<VouchRecord>, vouch: VouchRecord)
    ensures
        staked(stakes.push(vouch)) == staked(stakes) + vouch.stake,
{
    let amount = |v: VouchRecord| v.stake as int;
    assert(stakes.push(vouch).map_values(amount) =~= stakes.map_values(amount).push(
        vouch.stake as int,
    ));
    lemma_sum_push(stakes.map_values(amount), vouch.stake as int);
}

proof fn lemma_stake_total(vouches: Seq<VouchRecord>, token: Address)
    ensures
        stake_total(vouches, token) == staked(stakes_in(vouches, token)),
    decreases vouches.len(),
{
    if vouches.len() == 0 {
        assert(vouches =~= Seq::empty());
        lemma_no_stakes(token);
    } else {
        lemma_stake_total(vouches.drop_last(), token);
        lemma_stakes_in_step(vouches, token);
        lemma_staked_push(stakes_in(vouches.drop_last(), token), vouches.last());
    }
}

/// A stake in `token` is one of the stakes, and the other way round.
proof fn lemma_stakes_in(vouches: Seq<VouchRecord>, token: Address)
    ensures
        forall|i: int|
            0 <= i < stakes_in(vouches, token).len() ==> (#[trigger] stakes_in(vouches, token)[i]).token
                == token && vouches.contains(stakes_in(vouches, token)[i]),
        forall|j: int|
            0 <= j < vouches.len() && (#[trigger] vouches[j]).token == token ==> stakes_in(
                vouches,
                token,
            ).contains(vouches[j]),
    decreases vouches.len(),
{
    let own = stakes_in(vouches, token);
    if vouches.len() == 0 {
        assert(vouches =~= Seq::empty());
        lemma_no_stakes(token);
    } else {
        let less = vouches.drop_last();
        lemma_stakes_in(less, token);
        lemma_stakes_in_step(vouches, token);
        assert(vouches[vouches.len() - 1] == vouches.last());
        assert forall|i: int| 0 <= i < own.len() implies (#[trigger] own[i]).token == token
            && vouches.contains(own[i]) by {
            if i < stakes_in(less, token).len() {
                assert(own[i] == stakes_in(less, token)[i]);
                let j = choose|j: int| 0 <= j < less.len() && less[j] == own[i];
                assert(vouches[j] == own[i]);
            }
        }
        assert forall|j: int| 0 <= j < vouches.len() && (
        #[trigger] vouches[j]).token == token implies own.contains(vouches[j]) by {
            if j < less.len() {
                assert(less[j] == vouches[j]);
                let i = choose|i: int|
                    0 <= i < stakes_in(less, token).len() && stakes_in(less, token)[i] == less[j];
                assert(own[i] == vouches[j]);
            } else {
                assert(own[own.len() - 1] == vouches[j]);
            }
        }
    }
}

/// Stakes are added up token by token: nothing but the stakes in the token counts, and
/// each of them counts once. The total can be worked out exactly where no running total
/// on the way is out of range.
pub proof fn stakes_add_up(vouches: Seq<VouchRecord>, token: Address)
    ensures
        stake_total(vouches, token) == staked(stakes_in(vouches, token)),
        stake_totals_fit(vouches, token) <==> running_totals_hold(vouches, token),
{
    lemma_stake_total(vouches, token);
    assert forall|k: int| 0 <= k <= vouches.len() implies staked(
        stakes_in(#[trigger] vouches.take(k), token),
    ) == stake_total(vouches.take(k), token) by {
        lemma_stake_total(vouches.take(k), token);
    }
    if stake_totals_fit(vouches, token) {
        assert forall|k: int| 0 <= k <= vouches.len() implies holds(
            staked(stakes_in(#[trigger] vouches.take(k), token)),
        ) by {
            assert(fits(stake_total(vouches.take(k), token)));
        }
    }
}

// --- What goes back to the vouchers ----------------------------------------

/// Whether the shares are the parts of a yield that fall to the stakes, each in
/// proportion to what is staked in all; where nothing is staked there is none.
pub open spec fn shares_of_yield(
    stakes: Seq<VouchRecord>,
    total_yield: int,
    shares: Seq<int>,
) -> bool {
    &&& shares.len() == stakes.len()
    &&& forall|i: int|
        0 <= i < stakes.len() ==> if staked(stakes) > 0 {
            divides(total_yield * stakes[i].stake, staked(stakes), #[trigger] shares[i])
        } else {
            shares[i] == 0
        }
}

/// Whether the slashes are what the stakes lose at a rate in basis points.
pub open spec fn slashes_at_rate(stakes: Seq<VouchRecord>, rate: int, slashes: Seq<int>) -> bool {
    &&& slashes.len() == stakes.len()
    &&& forall|i: int|
        0 <= i < stakes.len() ==> divides(stakes[i].stake * rate, 10_000, #[trigger] slashes[i])
}

/// Whether every product on the way to the shares, and every stake with its share, is in
/// range.
pub open spec fn payments_hold(
    stakes: Seq<VouchRecord>,
    total_yield: int,
    shares: Seq<int>,
) -> bool {
    forall|i: int|
        0 <= i < stakes.len() ==> {
            &&& staked(stakes) > 0 ==> holds(total_yield * stakes[i].stake)
            &&& holds(stakes[i].stake + #[trigger] shares[i])
        }
}

/// Whether no running total of the slashes is out of range, nor any product on the way to
/// them, nor what a stake has left.
pub open spec fn slashes_hold(
    vouches: Seq<VouchRecord>,
    token: Address,
    rate: int,
    slashes: Seq<int>,
) -> bool {
    let stakes = stakes_in(vouches, token);
    &&& forall|k: int|
        0 <= k <= vouches.len() ==> holds(
            sum(slashes.take(stakes_in(#[trigger] vouches.take(k), token).len() as int)),
        )
    &&& forall|i: int|
        0 <= i < stakes.len() ==> {
            &&& holds(stakes[i].stake * rate)
            &&& holds(stakes[i].stake - #[trigger] slashes[i])
        }
}

/// What is paid to `who` where the i-th of the stakes is paid the i-th of the amounts.
pub open spec fn paid_for_stakes_of(
    stakes: Seq<VouchRecord>,
    amounts: Seq<int>,
    who: Address,
) -> int {
    sum(
        Seq::new(
            stakes.len(),
            |i: int|
                if stakes[i].voucher == who {
                    amounts[i]
                } else {
                    0
                },
        ),
    )
}

/// What the payments bring `who`.
pub open spec fn received(payments: Seq<(Address, i128)>, who: Address) -> int {
    sum(
        payments.map_values(
            |payment: (Address, i128)|
                if payment.0 == who {
                    payment.1 as int
                } else {
                    0
                },
        ),
    )
}

spec fn shares_for(stakes: Seq<VouchRecord>, total_yield: i128, total: int) -> Seq<int> {
    Seq::new(stakes.len(), |i: int| yield_share(total_yield, stakes[i].stake, total))
}

spec fn slashes_for(stakes: Seq<VouchRecord>, rate: int) -> Seq<int> {
    Seq::new(stakes.len(), |i: int| slash_of(stakes[i].stake, rate))
}

proof fn lemma_payouts_are_for_stakes(
    vouches: Seq<VouchRecord>,
    token: Address,
    total_yield: i128,
    total: int,
)
    ensures
        ({
            let stakes = stakes_in(vouches, token);
            let list = payouts(vouches, token, total_yield, total);
            &&& list.len() == stakes.len()
            &&& forall|i: int|
                0 <= i < stakes.len() ==> #[trigger] list[i] == (
                    stakes[i].voucher,
                    (stakes[i].stake + yield_share(total_yield, stakes[i].stake, total)) as i128,
                )
        }),
    decreases vouches.len(),
{
    if vouches.len() == 0 {
        assert(vouches =~= Seq::empty());
        lemma_no_stakes(token);
    } else {
        lemma_payouts_are_for_stakes(vouches.drop_last(), token, total_yield, total);
        lemma_stakes_in_step(vouches, token);
    }
}

/// Each stake in the token goes back to its own voucher, with its own part of the yield:
/// the i-th payment is to the voucher of the i-th stake, and there are as many payments as
/// stakes. So each voucher gets their own stakes and the parts of those, and nothing else.
pub proof fn each_stake_goes_back_to_its_voucher(
    vouches: Seq<VouchRecord>,
    token: Address,
    total_yield: i128,
) -> (shares: Seq<int>)
    requires
        payouts_fit(vouches, token, total_yield),
    ensures
        ({
            let stakes = stakes_in(vouches, token);
            let list = payouts(vouches, token, total_yield, stake_total(vouches, token));
            &&& shares_of_yield(stakes, total_yield as int, shares)
            &&& list.len() == stakes.len()
            &&& forall|i: int|
                0 <= i < stakes.len() ==> (#[trigger] list[i]).0 == stakes[i].voucher && list[i].1
                    == stakes[i].stake + shares[i]
            &&& forall|who: Address| #[trigger]
                received(list, who) == paid_for_stakes_of(
                    stakes,
                    Seq::new(stakes.len(), |i: int| stakes[i].stake + shares[i]),
                    who,
                )
        }),
{
    let stakes = stakes_in(vouches, token);
    let total = stake_total(vouches, token);
    let list = payouts(vouches, token, total_yield, total);
    let shares = shares_for(stakes, total_yield, total);
    lemma_stake_total(vouches, token);
    lemma_payouts_are_for_stakes(vouches, token, total_yield, total);
    lemma_stakes_in(vouches, token);
    if total > 0 {
        assert forall|i: int| 0 <= i < stakes.len() implies divides(
            total_yield * stakes[i].stake,
            total,
            #[trigger] shares[i],
        ) by {
            lemma_divides(total_yield * stakes[i].stake, total);
        }
    }
    assert forall|i: int| 0 <= i < stakes.len() implies (#[trigger] list[i]).0 == stakes[i].voucher
        && list[i].1 == stakes[i].stake + shares[i] by {
        let j = choose|j: int| 0 <= j < vouches.len() && vouches[j] == stakes[i];
        assert(stakes_in(vouches, token)[i].token == token);
        assert(vouches[j].token == token);
    }
    assert forall|who: Address| #[trigger] received(list, who) == paid_for_stakes_of(
        stakes,
        Seq::new(stakes.len(), |i: int| stakes[i].stake + shares[i]),
        who,
    ) by {
        let amounts = Seq::new(stakes.len(), |i: int| stakes[i].stake + shares[i]);
        assert(list.map_values(
            |payment: (Address, i128)|
                if payment.0 == who {
                    payment.1 as int
                } else {
                    0
                },
        ) =~= Seq::new(
            stakes.len(),
            |i: int|
                if stakes[i].voucher == who {
                    amounts[i]
                } else {
                    0
                },
        ));
    }
    shares
}

/// The payouts can be worked out exactly where the stakes can be added up and every
/// product and every payment on the way is in range.
pub proof fn payouts_need_amounts_in_range(
    vouches: Seq<VouchRecord>,
    token: Address,
    total_yield: i128,
    shares: Seq<int>,
)
    requires
        shares_of_yield(stakes_in(vouches, token), total_yield as int, shares),
    ensures
        payouts_fit(vouches, token, total_yield) <==> running_totals_hold(vouches, token)
            && payments_hold(stakes_in(vouches, token), total_yield as int, shares),
{
    let stakes = stakes_in(vouches, token);
    let total = stake_total(vouches, token);
    stakes_add_up(vouches, token);
    lemma_stakes_in(vouches, token);
    assert forall|i: int| 0 <= i < stakes.len() implies #[trigger] shares[i] == yield_share(
        total_yield,
        stakes[i].stake,
        total,
    ) by {
        if total > 0 {
            lemma_divides(total_yield * stakes[i].stake, total);
        }
    }
    if payouts_fit(vouches, token, total_yield) {
        assert forall|i: int| 0 <= i < stakes.len() implies {
            &&& total > 0 ==> holds(total_yield * stakes[i].stake)
            &&& holds(stakes[i].stake + #[trigger] shares[i])
        } by {
            assert(stakes_in(vouches, token)[i].token == token);
            let j = choose|j: int| 0 <= j < vouches.len() && vouches[j] == stakes[i];
            assert(vouches[j].token == token);
        }
    } else if stake_totals_fit(vouches, token) {
        let j = choose|j: int|
            0 <= j < vouches.len() && (#[trigger] vouches[j]).token == token && !payout_fits(
                vouches[j],
                total_yield,
                total,
            );
        let i = choose|i: int| 0 <= i < stakes.len() && stakes[i] == vouches[j];
        assert(shares[i] == yield_share(total_yield, stakes[i].stake, total));
    }
}

proof fn lemma_slash_total(vouches: Seq<VouchRecord>, token: Address, rate: int)
    ensures
        slash_total(vouches, token, rate) == sum(slashes_for(stakes_in(vouches, token), rate)),
    decreases vouches.len(),
{
    if vouches.len() == 0 {
        assert(vouches =~= Seq::empty());
        lemma_no_stakes(token);
        assert(slashes_for(stakes_in(vouches, token), rate) =~= Seq::<int>::empty());
        lemma_sum_push(Seq::empty(), 0);
    } else {
        let less = stakes_in(vouches.drop_last(), token);
        let vouch = vouches.last();
        lemma_slash_total(vouches.drop_last(), token, rate);
        lemma_stakes_in_step(vouches, token);
        lemma_sum_push(slashes_for(less, rate), slash_of(vouch.stake, rate));
        assert(slashes_for(less.push(vouch), rate) =~= slashes_for(less, rate).push(
            slash_of(vouch.stake, rate),
        ));
    }
}

/// What the stakes have left after the slashes, each with its voucher, in order; a stake
/// with nothing left is passed over.
pub open spec fn left_of_stakes(stakes: Seq<VouchRecord>, slashes: Seq<int>) -> Seq<
    (Address, int),
> {
    Seq::new(
        stakes.len(),
        |i: int| (stakes[i].voucher, stakes[i].stake - slashes[i]),
    ).filter(|left: (Address, int)| left.1 > 0)
}

proof fn lemma_left_push(
    stakes: Seq<VouchRecord>,
    slashes: Seq<int>,
    vouch: VouchRecord,
    slash: int,
)
    requires
        stakes.len() == slashes.len(),
    ensures
        left_of_stakes(stakes.push(vouch), slashes.push(slash)) == if vouch.stake - slash > 0 {
            left_of_stakes(stakes, slashes).push((vouch.voucher, vouch.stake - slash))
        } else {
            left_of_stakes(stakes, slashes)
        },
        left_of_stakes(Seq::empty(), Seq::empty()) == Seq::<(Address, int)>::empty(),
{
    reveal_with_fuel(Seq::filter, 2);
    let (more, amounts) = (stakes.push(vouch), slashes.push(slash));
    let all = Seq::new(more.len(), |i: int| (more[i].voucher, more[i].stake - amounts[i]));
    assert(all.drop_last() =~= Seq::new(
        stakes.len(),
        |i: int| (stakes[i].voucher, stakes[i].stake - slashes[i]),
    ));
}

proof fn lemma_remainders(vouches: Seq<VouchRecord>, token: Address, rate: int)
    requires
        forall|i: int|
            0 <= i < vouches.len() && (#[trigger] vouches[i]).token == token ==> holds(
                vouches[i].stake - slash_of(vouches[i].stake, rate),
            ),
    ensures
        ({
            let stakes = stakes_in(vouches, token);
            let list = remainders(vouches, token, rate);
            let left = left_of_stakes(stakes, slashes_for(stakes, rate));
            &&& list.len() == left.len()
            &&& forall|i: int|
                0 <= i < list.len() ==> (#[trigger] list[i]).0 == left[i].0 && list[i].1
                    == left[i].1
        }),
    decreases vouches.len(),
{
    if vouches.len() == 0 {
        assert(vouches =~= Seq::empty());
        lemma_no_stakes(token);
        let none = Seq::<VouchRecord>::empty();
        assert(slashes_for(none, rate) =~= Seq::<int>::empty());
        lemma_left_push(none, Seq::empty(), arbitrary(), 0);
    } else {
        let short = vouches.drop_last();
        assert forall|i: int| 0 <= i < short.len() && (
        #[trigger] short[i]).token == token implies holds(
            short[i].stake - slash_of(short[i].stake, rate),
        ) by {
            assert(vouches[i] == short[i]);
        }
        lemma_remainders(short, token, rate);
        lemma_stakes_in_step(vouches, token);
        let vouch = vouches.last();
        assert(vouches[vouches.len() - 1] == vouch);
        let less = stakes_in(short, token);
        if vouch.token == token {
            lemma_left_push(less, slashes_for(less, rate), vouch, slash_of(vouch.stake, rate));
            assert(slashes_for(less.push(vouch), rate) =~= slashes_for(less, rate).push(
                slash_of(vouch.stake, rate),
            ));
        }
    }
}

proof fn lemma_slashes(stakes: Seq<VouchRecord>, rate: int)
    ensures
        slashes_at_rate(stakes, rate, slashes_for(stakes, rate)),
        forall|slashes: Seq<int>| #[trigger]
            slashes_at_rate(stakes, rate, slashes) ==> slashes == slashes_for(stakes, rate),
{
    let all = slashes_for(stakes, rate);
    assert forall|i: int| 0 <= i < stakes.len() implies divides(
        stakes[i].stake * rate,
        10_000,
        #[trigger] all[i],
    ) by {
        lemma_divides(stakes[i].stake * rate, 10_000);
    }
    assert forall|slashes: Seq<int>| #[trigger] slashes_at_rate(
        stakes,
        rate,
        slashes,
    ) implies slashes == all by {
        assert forall|i: int| 0 <= i < stakes.len() implies slashes[i] == all[i] by {
            lemma_divides(stakes[i].stake * rate, 10_000);
            assert(divides(stakes[i].stake * rate, 10_000, slashes[i]));
        }
        assert(slashes =~= all);
    }
}

/// Each stake in the token is slashed by itself, at the same rate; the slashes together
/// are the total, and what each stake has left goes to its own voucher, in order.
pub proof fn each_stake_is_slashed_by_itself(
    vouches: Seq<VouchRecord>,
    token: Address,
    rate: int,
) -> (slashes: Seq<int>)
    requires
        slashes_fit(vouches, token, rate),
    ensures
        ({
            let stakes = stakes_in(vouches, token);
            let list = remainders(vouches, token, rate);
            let left = left_of_stakes(stakes, slashes);
            &&& slashes_at_rate(stakes, rate, slashes)
            &&& slash_total(vouches, token, rate) == sum(slashes)
            &&& list.len() == left.len()
            &&& forall|i: int|
                0 <= i < list.len() ==> (#[trigger] list[i]).0 == left[i].0 && list[i].1
                    == left[i].1
        }),
{
    let stakes = stakes_in(vouches, token);
    lemma_slashes(stakes, rate);
    lemma_slash_total(vouches, token, rate);
    lemma_remainders(vouches, token, rate);
    slashes_for(stakes, rate)
}

/// The slash can be worked out exactly where every running total, every product and
/// every remainder on the way is in range.
pub proof fn slashes_need_amounts_in_range(
    vouches: Seq<VouchRecord>,
    token: Address,
    rate: int,
    slashes: Seq<int>,
)
    requires
        slashes_at_rate(stakes_in(vouches, token), rate, slashes),
    ensures
        slashes_fit(vouches, token, rate) <==> slashes_hold(vouches, token, rate, slashes),
{
    let stakes = stakes_in(vouches, token);
    lemma_slashes(stakes, rate);
    lemma_stakes_in(vouches, token);
    assert forall|k: int| 0 <= k <= vouches.len() implies sum(
        slashes.take(stakes_in(#[trigger] vouches.take(k), token).len() as int),
    ) == slash_total(vouches.take(k), token, rate) by {
        let (first, rest) = (vouches.take(k), vouches.skip(k));
        assert(first + rest =~= vouches);
        Seq::filter_distributes_over_add(first, rest, |vouch: VouchRecord| vouch.token == token);
        assert(stakes == stakes_in(first, token) + stakes_in(rest, token));
        lemma_slash_total(first, token, rate);
        assert(slashes.take(stakes_in(first, token).len() as int) =~= slashes_for(
            stakes_in(first, token),
            rate,
        ));
    }
    if slashes_fit(vouches, token, rate) {
        assert forall|k: int| 0 <= k <= vouches.len() implies holds(
            sum(slashes.take(stakes_in(#[trigger] vouches.take(k), token).len() as int)),
        ) by {
            assert(fits(slash_total(vouches.take(k), token, rate)));
        }
        assert forall|i: int| 0 <= i < stakes.len() implies {
            &&& holds(stakes[i].stake * rate)
            &&& holds(stakes[i].stake - #[trigger] slashes[i])
        } by {
            assert(stakes_in(vouches, token)[i].token == token);
            let j = choose|j: int| 0 <= j < vouches.len() && vouches[j] == stakes[i];
            assert(vouches[j].token == token);
        }
    } else if forall|k: int|
        0 <= k <= vouches.len() ==> holds(
            sum(slashes.take(stakes_in(#[trigger] vouches.take(k), token).len() as int)),
        ) {
        assert forall|k: int| 0 <= k <= vouches.len() implies fits(
            #[trigger] slash_total(vouches.take(k), token, rate),
        ) by {
            assert(holds(sum(slashes.take(stakes_in(vouches.take(k), token).len() as int))));
        }
        let j = choose|j: int|
            0 <= j < vouches.len() && (#[trigger] vouches[j]).token == token && !(fits(
                vouches[j].stake * rate,
            ) && fits(vouches[j].stake - slash_of(vouches[j].stake, rate)));
        let i = choose|i: int| 0 <= i < stakes.len() && stakes[i] == vouches[j];
        assert(slashes[i] == slash_of(stakes[i].stake, rate));
    }
}

// --- What is stored --------------------------------------------------------

/// The record of the loan that `borrower` has open.
pub open spec fn open_loan(ledger: LedgerView, borrower: Address) -> Option<LoanView> {
    if ledger.active_loans.dom().contains(borrower) && ledger.loans.dom().contains(
        ledger.active_loans[borrower],
    ) {
        Some(ledger.loans[ledger.active_loans[borrower]])
    } else {
        None
    }
}

/// The stakes that are stored behind `borrower`.
pub open spec fn behind(ledger: LedgerView, borrower: Address) -> Seq<VouchRecord> {
    if ledger.vouches.dom().contains(borrower) {
        ledger.vouches[borrower]
    } else {
        Seq::empty()
    }
}

/// Reading gives back what was stored last. An entry that is not there reads as no loan,
/// no stakes, no record, or none counted; an entry under another key is not seen.
pub proof fn reading_gives_back_what_was_stored(
    ledger: LedgerView,
    borrower: Address,
    other: Address,
    loan_id: u64,
    other_id: u64,
    loan: LoanView,
    record: SlashView,
    stakes: Seq<VouchRecord>,
    count: u32,
)
    requires
        other != borrower,
        other_id != loan_id,
    ensures
        ledger.active_loan(borrower) == open_loan(ledger, borrower),
        ledger.has_active_loan(borrower) <==> open_loan(ledger, borrower) is Some && open_loan(
            ledger,
            borrower,
        )->0.status == LoanStatus::Active,
        ledger.vouches_of(borrower) == behind(ledger, borrower),
        ({
            let lent = LedgerView {
                loans: ledger.loans.insert(loan_id, loan),
                active_loans: ledger.active_loans.insert(borrower, loan_id),
                ..ledger
            };
            let closed = LedgerView { active_loans: ledger.active_loans.remove(borrower), ..ledger };
            &&& lent.active_loan(borrower) == Some(loan)
            &&& closed.active_loan(borrower) is None
            &&& closed.active_loan(other) == ledger.active_loan(other)
        }),
        ({
            let backed = LedgerView { vouches: ledger.vouches.insert(borrower, stakes), ..ledger };
            let bare = LedgerView { vouches: ledger.vouches.remove(borrower), ..ledger };
            &&& backed.vouches_of(borrower) == stakes
            &&& backed.vouches_of(other) == ledger.vouches_of(other)
            &&& bare.vouches_of(borrower).len() == 0
        }),
        ({
            let slashed = LedgerView {
                slash_records: ledger.slash_records.insert(loan_id, record),
                ..ledger
            };
            let clean = LedgerView { slash_records: ledger.slash_records.remove(loan_id), ..ledger };
            &&& slashed.slash_record(loan_id) == Some(record)
            &&& slashed.slash_record(other_id) == ledger.slash_record(other_id)
            &&& clean.slash_record(loan_id) is None
        }),
        ({
            let counted = LedgerView {
                partial_default_counts: ledger.partial_default_counts.insert(borrower, count),
                default_counts: ledger.default_counts.insert(borrower, count),
                ..ledger
            };
            let uncounted = LedgerView {
                partial_default_counts: ledger.partial_default_counts.remove(borrower),
                default_counts: ledger.default_counts.remove(borrower),
                ..ledger
            };
            &&& counted.partial_default_count(borrower) == count
            &&& counted.default_count(borrower) == count
            &&& counted.partial_default_count(other) == ledger.partial_default_count(other)
            &&& counted.default_count(other) == ledger.default_count(other)
            &&& uncounted.partial_default_count(borrower) == 0
            &&& uncounted.default_count(borrower) == 0
        }),
        ledger.loan_counter is None ==> ledger.loans_numbered() == 0,
        ledger.loan_counter is Some ==> ledger.loans_numbered() == ledger.loan_counter->0,
        entry(ledger.loans.insert(loan_id, loan), loan_id) == Some(loan),
        entry(ledger.active_loans.insert(borrower, loan_id), borrower) == Some(loan_id),
        entry(ledger.active_loans.remove(borrower), borrower) is None,
        entry(ledger.default_counts.insert(borrower, count), borrower) == Some(count),
        entry(ledger.default_counts.remove(borrower), borrower) is None,
{
}

/// A token passes the host's check exactly where it is among those admitted; the answer
/// for any other is the host's refusal.
pub proof fn admitted_tokens_pass(env: EnvView, token: Address)
    ensures
        env.token_check(token) is Ok <==> exists|i: int|
            0 <= i < env.admitted_tokens.len() && #[trigger] env.admitted_tokens[i] == token,
        env.token_check(token) is Err ==> env.token_check(token)->Err_0 == env.token_refusal,
{
}

/// Nothing is stored to begin with.
pub proof fn nothing_is_stored_to_begin_with(borrower: Address, loan_id: u64)
    ensures
        ({
            let start = LedgerView::empty();
            &&& start.deployer is None
            &&& start.config is None
            &&& start.loan_counter is None
            &&& !start.loans.dom().contains(loan_id)
            &&& !start.active_loans.dom().contains(borrower)
            &&& !start.vouches.dom().contains(borrower)
            &&& !start.slash_records.dom().contains(loan_id)
            &&& !start.partial_default_counts.dom().contains(borrower)
            &&& !start.default_counts.dom().contains(borrower)
        }),
{
}

/// The views show the records as they are, field by field.
pub proof fn views_show_the_records(
    config: Config,
    loan: LoanRecord,
    record: SlashRecord,
    env: Env,
)
    ensures
        config@.admins == config.admins@,
        config@.admin_threshold == config.admin_threshold,
        config@.token == config.token,
        config@.allowed_tokens == config.allowed_tokens@,
        config@.yield_bps == config.yield_bps,
        config@.slash_bps == config.slash_bps,
        config@.max_vouchers == config.max_vouchers,
        config@.min_loan_amount == config.min_loan_amount,
        config@.loan_duration == config.loan_duration,
        config@.max_loan_to_stake_ratio == config.max_loan_to_stake_ratio,
        config@.grace_period == config.grace_period,
        config@.min_vouch_age_secs == config.min_vouch_age_secs,
        config@.prepayment_penalty_bps == config.prepayment_penalty_bps,
        config@.liquidity_mining_rate_bps == config.liquidity_mining_rate_bps,
        config@.partial_default_threshold_bps == config.partial_default_threshold_bps,
        loan@.id == loan.id,
        loan@.borrower == loan.borrower,
        loan@.co_borrowers == loan.co_borrowers@,
        loan@.amount == loan.amount,
        loan@.amount_repaid == loan.amount_repaid,
        loan@.total_yield == loan.total_yield,
        loan@.status == loan.status,
        loan@.created_at == loan.created_at,
        loan@.disbursement_timestamp == loan.disbursement_timestamp,
        loan@.repayment_timestamp == loan.repayment_timestamp,
        loan@.deadline == loan.deadline,
        loan@.loan_purpose == loan.loan_purpose@,
        loan@.token_address == loan.token_address,
        loan@.amortization_schedule == loan.amortization_schedule@,
        loan@.reminder_sent == loan.reminder_sent,
        loan@.risk_score == loan.risk_score,
        record@.loan_id == record.loan_id,
        record@.borrower == record.borrower,
        record@.total_slashed == record.total_slashed,
        record@.slash_timestamp == record.slash_timestamp,
        record@.forgiven == record.forgiven,
        record@.forgiveness_reason == record.forgiveness_reason@,
        record@.forgiven_at == record.forgiven_at,
        env@.ledger == env.ledger@,
        env@.outbox == env.outbox@,
        env@.contract == env.contract,
        env@.timestamp == env.timestamp,
        env@.not_paused == env.not_paused,
        env@.admitted_tokens == env.admitted_tokens@,
        env@.token_refusal == env.token_refusal,
{
}

/// An action is seen as what it is, and an event is published under the name of what
/// happened, whatever it is about.
pub proof fn actions_are_seen_as_they_are(
    effect: Effect,
    who: Address,
    token: Address,
    to: Address,
    amount: i128,
    loan_id: u64,
    reason: String,
)
    ensures
        effect == (Effect::RequireAuth { who }) ==> effect@ == (EffectView::RequireAuth { who }),
        effect == (Effect::Transfer { token, from: who, to, amount }) ==> effect@ == (
        EffectView::Transfer { token, from: who, to, amount }),
        effect == (Effect::ProcessWithdrawalQueue { borrower: who }) ==> effect@ == (
        EffectView::ProcessWithdrawalQueue { borrower: who }),
        effect == (Effect::Publish { event: Event::LoanCreated { borrower: who, amount } })
            ==> effect@ == (EffectView::Publish {
            event: EventView::LoanCreated { borrower: who, amount },
        }) && effect@->event.topic() == "created"@,
        effect == (Effect::Publish { event: Event::LoanRepaid { borrower: who, amount } })
            ==> effect@ == (EffectView::Publish {
            event: EventView::LoanRepaid { borrower: who, amount },
        }) && effect@->event.topic() == "repaid"@,
        effect == (Effect::Publish {
            event: Event::BatchPayment { borrower: who, payment: amount },
        }) ==> effect@ == (EffectView::Publish {
            event: EventView::BatchPayment { borrower: who, payment: amount },
        }) && effect@->event.topic() == "batch_pay"@,
        effect == (Effect::Publish {
            event: Event::PartialDefault { borrower: who, total_slashed: amount },
        }) ==> effect@ == (EffectView::Publish {
            event: EventView::PartialDefault { borrower: who, total_slashed: amount },
        }) && effect@->event.topic() == "part_def"@,
        effect == (Effect::Publish {
            event: Event::DefaultForgiven { borrower: who, loan_id, reason },
        }) ==> effect@ == (EffectView::Publish {
            event: EventView::DefaultForgiven { borrower: who, loan_id, reason: reason@ },
        }) && effect@->event.topic() == "forgiven"@,
{
}

// --- Setting up ------------------------------------------------------------

/// A contract that has no terms yet can be set up with any number of approvals from one
/// to the number of its administrators, and with no other. It then has the deployer and
/// exactly the terms that were given; nothing else that is stored changes. Whatever the
/// answer, the deployer's authorisation is asked for, and nothing else is due.
pub proof fn any_threshold_up_to_the_admins_will_do(
    env: EnvView,
    deployer: Address,
    admins: Seq<Address>,
    admin_threshold: u32,
    token: Address,
    defaults: Defaults,
)
    ensures
        ({
            let result = initialize_result(env, admins, admin_threshold);
            let after = initialize_post(env, deployer, admins, admin_threshold, token, defaults);
            let asked = env.outbox.push(EffectView::RequireAuth { who: deployer });
            &&& env.ledger.config is None ==> (result is Ok <==> 1 <= admin_threshold
                && admin_threshold <= admins.len())
            &&& env.ledger.config is None && result is Err ==> result->Err_0
                == ContractError::InvalidAmount
            &&& env.ledger.config is Some ==> result is Err && result->Err_0
                == ContractError::AlreadyInitialized
            &&& result is Err ==> after == (EnvView { outbox: asked, ..env })
            &&& result is Ok ==> {
                &&& after == (EnvView {
                    outbox: asked,
                    ledger: LedgerView {
                        deployer: after.ledger.deployer,
                        config: after.ledger.config,
                        ..env.ledger
                    },
                    ..env
                })
                &&& after.ledger.deployer == Some(deployer)
                &&& after.ledger.config matches Some(config)
                &&& config.admins == admins
                &&& config.admin_threshold == admin_threshold
                &&& config.token == token
                &&& config.yield_bps == defaults.yield_bps
                &&& config.slash_bps == defaults.slash_bps
                &&& config.max_vouchers == defaults.max_vouchers
                &&& config.min_loan_amount == defaults.min_loan_amount
                &&& config.loan_duration == defaults.loan_duration
                &&& config.max_loan_to_stake_ratio == defaults.max_loan_to_stake_ratio
                &&& config.min_vouch_age_secs == defaults.min_vouch_age_secs
                &&& config.liquidity_mining_rate_bps == defaults.liquidity_mining_rate_bps
                &&& config.allowed_tokens.len() == 0
                &&& config.grace_period == 0
                &&& config.prepayment_penalty_bps == 0
                &&& config.partial_default_threshold_bps == 0
            }
        }),
{
}

// --- Requesting a loan -----------------------------------------------------

/// A loan is granted exactly where the contract runs, the borrower has no running loan,
/// the token is admitted, the amount is no less than the least that is lent, and the
/// stakes behind the borrower in that token come to the threshold. Of what stands in the
/// way, the first in this order is the answer.
pub proof fn loans_are_granted_on_stakes(
    env: EnvView,
    borrower: Address,
    amount: i128,
    threshold: i128,
    token: Address,
)
    requires
        request_loan_defined(env, borrower, amount, threshold, token),
    ensures
        ({
            let result = request_loan_result(env, borrower, amount, threshold, token);
            let runs = env.not_paused is Ok;
            let busy = open_loan(env.ledger, borrower) is Some && open_loan(
                env.ledger,
                borrower,
            )->0.status == LoanStatus::Active;
            let admitted = env.admitted_tokens.contains(token);
            let least = env.ledger.config->0.min_loan_amount;
            let total = staked(stakes_in(behind(env.ledger, borrower), token));
            &&& result is Ok <==> runs && !busy && admitted && least <= amount && threshold
                <= total
            &&& !runs ==> result == env.not_paused
            &&& runs && busy ==> result->Err_0 == ContractError::ActiveLoanExists
            &&& runs && !busy && !admitted ==> result->Err_0 == env.token_refusal
            &&& runs && !busy && admitted && amount < least ==> result->Err_0
                == ContractError::LoanBelowMinAmount
            &&& runs && !busy && admitted && least <= amount && total < threshold
                ==> result->Err_0 == ContractError::InsufficientFunds
        }),
{
    lemma_stake_total(env.ledger.vouches_of(borrower), token);
}

/// A request that comes to the terms has an answer where there are terms; it has one in
/// the end where the stakes can be added up and, if the loan is granted, its number, its
/// yield and its deadline are in range. Any other request has an answer.
pub proof fn loan_requests_have_an_answer(
    env: EnvView,
    borrower: Address,
    amount: i128,
    threshold: i128,
    token: Address,
)
    ensures
        ({
            let vouches = behind(env.ledger, borrower);
            let busy = open_loan(env.ledger, borrower) is Some && open_loan(
                env.ledger,
                borrower,
            )->0.status == LoanStatus::Active;
            let config = env.ledger.config->0;
            let numbered = match env.ledger.loan_counter {
                Some(n) => n as int,
                None => 0,
            };
            let defined = request_loan_defined(env, borrower, amount, threshold, token);
            if env.not_paused is Err || busy || !env.admitted_tokens.contains(token) {
                defined
            } else if env.ledger.config is None {
                !defined
            } else if amount < config.min_loan_amount {
                defined
            } else if threshold > staked(stakes_in(vouches, token)) {
                defined <==> running_totals_hold(vouches, token)
            } else {
                defined <==> {
                    &&& running_totals_hold(vouches, token)
                    &&& numbered < 0xffff_ffff_ffff_ffff
                    &&& holds(amount * config.yield_bps)
                    &&& env.timestamp + config.loan_duration <= 0xffff_ffff_ffff_ffff
                }
            }
        }),
{
    stakes_add_up(env.ledger.vouches_of(borrower), token);
}

/// A loan that is granted takes the next number and is stored under it as the borrower's
/// open loan, on the terms asked for and in force: it earns the yield of the terms, is due
/// after their duration, and nothing of it is repaid. The amount goes out to the borrower,
/// in the token asked for, after their authorisation, and the loan is announced. Nothing
/// else that is stored changes. A refused request asks for the authorisation alone.
pub proof fn granted_loans_are_on_the_terms_in_force(
    env: EnvView,
    borrower: Address,
    amount: i128,
    threshold: i128,
    loan_purpose: Seq<char>,
    token: Address,
)
    requires
        request_loan_defined(env, borrower, amount, threshold, token),
    ensures
        ({
            let result = request_loan_result(env, borrower, amount, threshold, token);
            let after = request_loan_post(env, borrower, amount, threshold, loan_purpose, token);
            let asked = EffectView::RequireAuth { who: borrower };
            let config = env.ledger.config->0;
            &&& result is Err ==> after == (EnvView { outbox: env.outbox.push(asked), ..env })
            &&& result is Ok ==> {
                &&& after.outbox == env.outbox + seq![
                    asked,
                    EffectView::Transfer { token, from: env.contract, to: borrower, amount },
                    EffectView::Publish { event: EventView::LoanCreated { borrower, amount } },
                ]
                &&& after.ledger.loan_counter matches Some(id)
                &&& id == 1 + match env.ledger.loan_counter {
                    Some(n) => n as int,
                    None => 0,
                }
                &&& after.ledger.loans.dom().contains(id)
                &&& after.ledger.loans == env.ledger.loans.insert(id, after.ledger.loans[id])
                &&& after.ledger.active_loans == env.ledger.active_loans.insert(borrower, id)
                &&& after == (EnvView {
                    outbox: after.outbox,
                    ledger: LedgerView {
                        loan_counter: after.ledger.loan_counter,
                        loans: after.ledger.loans,
                        active_loans: after.ledger.active_loans,
                        ..env.ledger
                    },
                    ..env
                })
                &&& ({
                    let loan = after.ledger.loans[id];
                    &&& loan.id == id
                    &&& loan.borrower == borrower
                    &&& loan.amount == amount
                    &&& loan.amount_repaid == 0
                    &&& divides(amount * config.yield_bps, 10_000, loan.total_yield as int)
                    &&& loan.status == LoanStatus::Active
                    &&& loan.created_at == env.timestamp
                    &&& loan.disbursement_timestamp == env.timestamp
                    &&& loan.repayment_timestamp is None
                    &&& loan.deadline == env.timestamp + config.loan_duration
                    &&& loan.loan_purpose == loan_purpose
                    &&& loan.token_address == token
                    &&& loan.co_borrowers.len() == 0
                    &&& loan.amortization_schedule.len() == 0
                    &&& !loan.reminder_sent
                    &&& loan.risk_score == 0
                })
            }
        }),
{
    let config = env.ledger.config->0;
    lemma_divides(amount * config.yield_bps, 10_000);
    lemma_quotient_bounds(amount * config.yield_bps, 10_000);
    let after = request_loan_post(env, borrower, amount, threshold, loan_purpose, token);
    if request_loan_result(env, borrower, amount, threshold, token) is Ok {
        let ask = EffectView::RequireAuth { who: borrower };
        let send = EffectView::Transfer { token, from: env.contract, to: borrower, amount };
        let tell = EffectView::Publish { event: EventView::LoanCreated { borrower, amount } };
        assert(env.outbox.push(ask).push(send).push(tell) =~= env.outbox + seq![ask, send, tell]);
    }
}

// --- Repaying --------------------------------------------------------------

/// A payment is taken exactly where the contract runs, the borrower has a loan open, the
/// payment is more than nothing and no more than principal and yield less what was repaid,
/// and the token of the loan is admitted. Of what stands in the way, the first in this
/// order is the answer.
pub proof fn payments_are_taken_up_to_what_is_owed(env: EnvView, borrower: Address, payment: i128)
    ensures
        ({
            let result = repay_result(env, borrower, payment);
            let runs = env.not_paused is Ok;
            let open = open_loan(env.ledger, borrower) is Some;
            let loan = open_loan(env.ledger, borrower)->0;
            let due = loan.amount + loan.total_yield - loan.amount_repaid;
            let right = 0 < payment && payment <= due;
            let admitted = env.admitted_tokens.contains(loan.token_address);
            &&& result is Ok <==> runs && open && right && admitted
            &&& !runs ==> result == env.not_paused
            &&& runs && !open ==> result->Err_0 == ContractError::NoActiveLoan
            &&& runs && open && !right ==> result->Err_0 == ContractError::InvalidAmount
            &&& runs && open && right && !admitted ==> result->Err_0 == env.token_refusal
        }),
{
}

/// A payment has an answer unless an amount on the way to it is out of range: what is
/// owed, what is due, or, where the payment closes the loan, what goes to the vouchers.
pub proof fn payments_have_an_answer(
    env: EnvView,
    borrower: Address,
    payment: i128,
    shares: Seq<int>,
)
    requires
        open_loan(env.ledger, borrower) matches Some(loan) ==> shares_of_yield(
            stakes_in(behind(env.ledger, borrower), loan.token_address),
            loan.total_yield as int,
            shares,
        ),
    ensures
        ({
            let defined = repay_defined(env, borrower, payment);
            let loan = open_loan(env.ledger, borrower)->0;
            let owed = loan.amount + loan.total_yield;
            let due = owed - loan.amount_repaid;
            let vouches = behind(env.ledger, borrower);
            let stakes = stakes_in(vouches, loan.token_address);
            if env.not_paused is Err || open_loan(env.ledger, borrower) is None || payment <= 0 {
                defined
            } else if payment == due && env.admitted_tokens.contains(loan.token_address) {
                defined <==> {
                    &&& holds(owed)
                    &&& holds(due)
                    &&& running_totals_hold(vouches, loan.token_address)
                    &&& payments_hold(stakes, loan.total_yield as int, shares)
                }
            } else {
                defined <==> holds(owed) && holds(due)
            }
        }),
{
    if open_loan(env.ledger, borrower) is Some {
        let loan = open_loan(env.ledger, borrower)->0;
        payouts_need_amounts_in_range(
            env.ledger.vouches_of(borrower),
            loan.token_address,
            loan.total_yield,
            shares,
        );
    }
}

/// A refused payment asks for the borrower's authorisation and does nothing else. One
/// that is taken goes from the borrower to the contract, in the token of the loan, after
/// that authorisation, and is added to what was repaid.
///
/// One that leaves something due changes nothing else. One that leaves nothing due closes
/// the loan: it is repaid as of now, and the borrower has neither an open loan nor stakes
/// behind them any more. Then one transfer for each stake in the token of the loan goes
/// from the contract to the voucher of that stake, in the order of the stakes; it is the
/// stake and its own share of the yield. After that the withdrawals queued are processed
/// and the loan is announced as repaid. Nobody else's entries change.
pub proof fn closing_payment_pays_each_voucher_their_own(
    env: EnvView,
    borrower: Address,
    payment: i128,
) -> (shares: Seq<int>)
    requires
        repay_defined(env, borrower, payment),
    ensures
        ({
            let result = repay_result(env, borrower, payment);
            let after = repay_post(env, borrower, payment);
            let loan = open_loan(env.ledger, borrower)->0;
            let token = loan.token_address;
            let due = loan.amount + loan.total_yield - loan.amount_repaid;
            let stakes = stakes_in(behind(env.ledger, borrower), token);
            let ask = EffectView::RequireAuth { who: borrower };
            let taken = env.outbox.push(ask).push(
                EffectView::Transfer { token, from: borrower, to: env.contract, amount: payment },
            );
            let stored = after.ledger.loans[loan.id];
            &&& result is Err ==> after == (EnvView { outbox: env.outbox.push(ask), ..env })
            &&& result is Ok ==> {
                &&& after.ledger.loans.dom().contains(loan.id)
                &&& stored.amount_repaid == loan.amount_repaid + payment
                &&& after.ledger.loans == env.ledger.loans.insert(loan.id, stored)
            }
            &&& result is Ok && payment < due ==> {
                &&& stored == (LoanView { amount_repaid: stored.amount_repaid, ..loan })
                &&& after == (EnvView {
                    outbox: taken,
                    ledger: LedgerView { loans: after.ledger.loans, ..env.ledger },
                    ..env
                })
            }
            &&& result is Ok && payment == due ==> {
                &&& stored.amount_repaid == loan.amount + loan.total_yield
                &&& stored == (LoanView {
                    amount_repaid: stored.amount_repaid,
                    status: LoanStatus::Repaid,
                    repayment_timestamp: Some(env.timestamp),
                    ..loan
                })
                &&& after == (EnvView {
                    outbox: after.outbox,
                    ledger: LedgerView {
                        loans: after.ledger.loans,
                        active_loans: env.ledger.active_loans.remove(borrower),
                        vouches: env.ledger.vouches.remove(borrower),
                        ..env.ledger
                    },
                    ..env
                })
                &&& shares_of_yield(stakes, loan.total_yield as int, shares)
                &&& after.outbox.len() == taken.len() + stakes.len() + 2
                &&& after.outbox.take(taken.len() as int) == taken
                &&& forall|i: int|
                    0 <= i < stakes.len() ==> {
                        &&& (#[trigger] after.outbox[taken.len() + i]) matches EffectView::Transfer {
                            token: sent,
                            from,
                            to,
                            amount,
                        }
                        &&& sent == token
                        &&& from == env.contract
                        &&& to == stakes[i].voucher
                        &&& amount == stakes[i].stake + shares[i]
                    }
                &&& after.outbox[(taken.len() + stakes.len()) as int] == (
                EffectView::ProcessWithdrawalQueue { borrower })
                &&& after.outbox[(taken.len() + stakes.len() + 1) as int] == (EffectView::Publish {
                    event: EventView::LoanRepaid { borrower, amount: loan.amount },
                })
            }
        }),
{
    let loan = open_loan(env.ledger, borrower)->0;
    let token = loan.token_address;
    let vouches = env.ledger.vouches_of(borrower);
    let stakes = stakes_in(vouches, token);
    let due = loan.amount + loan.total_yield - loan.amount_repaid;
    if repay_result(env, borrower, payment) is Ok && payment == due {
        let shares = each_stake_goes_back_to_its_voucher(vouches, token, loan.total_yield);
        let list = payouts(vouches, token, loan.total_yield, stake_total(vouches, token));
        let after = repay_post(env, borrower, payment);
        let taken = env.outbox.push(EffectView::RequireAuth { who: borrower }).push(
            EffectView::Transfer { token, from: borrower, to: env.contract, amount: payment },
        );
        assert(after.outbox.take(taken.len() as int) =~= taken);
        assert forall|i: int| 0 <= i < stakes.len() implies (#[trigger] after.outbox[taken.len()
            + i]) == (EffectView::Transfer {
            token,
            from: env.contract,
            to: stakes[i].voucher,
            amount: list[i].1,
        }) && list[i].1 == stakes[i].stake + shares[i] by {
            assert(list[i].0 == stakes[i].voucher);
        }
        shares
    } else {
        Seq::empty()
    }
}

/// What a voucher is paid by a payment that closes a loan is their own stakes in its
/// token with the shares of those stakes, however many there are.
pub proof fn vouchers_are_paid_for_their_own_stakes(
    env: EnvView,
    borrower: Address,
    payment: i128,
    who: Address,
) -> (shares: Seq<int>)
    requires
        repay_defined(env, borrower, payment),
        repay_result(env, borrower, payment) is Ok,
        open_loan(env.ledger, borrower) matches Some(loan) && payment == loan.amount
            + loan.total_yield - loan.amount_repaid,
    ensures
        ({
            let loan = open_loan(env.ledger, borrower)->0;
            let stakes = stakes_in(behind(env.ledger, borrower), loan.token_address);
            let start = env.outbox.len() + 2;
            let sent = repay_post(env, borrower, payment).outbox.subrange(
                start as int,
                (start + stakes.len()) as int,
            );
            &&& shares_of_yield(stakes, loan.total_yield as int, shares)
            &&& sum(
                sent.map_values(
                    |effect: EffectView|
                        if effect->to == who {
                            effect->amount as int
                        } else {
                            0
                        },
                ),
            ) == paid_for_stakes_of(
                stakes,
                Seq::new(stakes.len(), |i: int| stakes[i].stake + shares[i]),
                who,
            )
        }),
{
    let loan = open_loan(env.ledger, borrower)->0;
    let stakes = stakes_in(behind(env.ledger, borrower), loan.token_address);
    let shares = closing_payment_pays_each_voucher_their_own(env, borrower, payment);
    let outbox = repay_post(env, borrower, payment).outbox;
    let start = env.outbox.len() + 2;
    let sent = outbox.subrange(start as int, (start + stakes.len()) as int);
    let amounts = Seq::new(stakes.len(), |i: int| stakes[i].stake + shares[i]);
    assert forall|i: int| 0 <= i < stakes.len() implies (#[trigger] sent[i])->to
        == stakes[i].voucher && sent[i]->amount == amounts[i] by {
        assert(sent[i] == outbox[start + i]);
    }
    assert(sent.map_values(
        |effect: EffectView|
            if effect->to == who {
                effect->amount as int
            } else {
                0
            },
    ) =~= Seq::new(
        stakes.len(),
        |i: int|
            if stakes[i].voucher == who {
                amounts[i]
            } else {
                0
            },
    ));
    shares
}

// --- Repaying in a batch ---------------------------------------------------

/// An entry of a batch is a repayment, answered as one and doing what one does; where it
/// is taken, the entry is announced after it.
pub proof fn batch_entries_are_repayments(env: EnvView, borrower: Address, payment: i128)
    ensures
        ({
            let running = EnvView { not_paused: Ok(()), ..env };
            let single = repay_post(running, borrower, payment);
            let entry = batch_entry_post(env, borrower, payment);
            let told = EffectView::Publish { event: EventView::BatchPayment { borrower, payment } };
            &&& settle_result(env, borrower, payment) == repay_result(running, borrower, payment)
            &&& settle_defined(env, borrower, payment) == repay_defined(running, borrower, payment)
            &&& entry == (EnvView {
                ledger: single.ledger,
                outbox: if repay_result(running, borrower, payment) is Ok {
                    single.outbox.push(told)
                } else {
                    single.outbox
                },
                ..env
            })
        }),
{
}

/// A batch is looked at exactly where the contract runs and there are as many payments as
/// borrowers, and at least one. Otherwise it does nothing at all.
pub proof fn batches_match_payments_to_borrowers(
    env: EnvView,
    borrowers: Seq<Address>,
    payments: Seq<i128>,
)
    ensures
        ({
            let check = batch_check(env, borrowers, payments);
            let runs = env.not_paused is Ok;
            &&& check is Ok <==> runs && borrowers.len() == payments.len() && borrowers.len() > 0
            &&& !runs ==> check == env.not_paused
            &&& runs && check is Err ==> check->Err_0 == ContractError::InvalidAmount
            &&& check is Err ==> {
                &&& batch_repay_result(env, borrowers, payments) == check
                &&& batch_repay_post(env, borrowers, payments) == env
                &&& batch_repay_defined(env, borrowers, payments)
            }
        }),
{
}

/// A batch makes the payments in order, each on what the ones before it left, up to the
/// first that is refused, and announces each that is taken. `states` are the invocations
/// between the entries: there is one more of them than entries that were looked at.
pub proof fn batches_make_the_payments_in_order(
    env: EnvView,
    borrowers: Seq<Address>,
    payments: Seq<i128>,
) -> (states: Seq<EnvView>)
    requires
        env.not_paused is Ok,
        borrowers.len() == payments.len(),
        borrowers.len() > 0,
    ensures
        2 <= states.len() <= borrowers.len() + 1,
        states[0] == env,
        states.last() == batch_repay_post(env, borrowers, payments),
        forall|i: int|
            0 <= i < states.len() - 1 ==> {
                let single = repay_post(#[trigger] states[i], borrowers[i], payments[i]);
                let answer = repay_result(states[i], borrowers[i], payments[i]);
                &&& answer is Ok ==> states[i + 1] == (EnvView {
                    outbox: single.outbox.push(
                        EffectView::Publish {
                            event: EventView::BatchPayment {
                                borrower: borrowers[i],
                                payment: payments[i],
                            },
                        },
                    ),
                    ..single
                })
                &&& answer is Err ==> states[i + 1] == single
                &&& i < states.len() - 2 ==> answer is Ok
                &&& i == states.len() - 2 ==> answer == batch_repay_result(
                    env,
                    borrowers,
                    payments,
                )
            },
        batch_repay_result(env, borrowers, payments) is Ok ==> states.len() == borrowers.len() + 1,
        batch_repay_defined(env, borrowers, payments) <==> forall|i: int|
            0 <= i < states.len() - 1 ==> repay_defined(
                #[trigger] states[i],
                borrowers[i],
                payments[i],
            ),
{
    let size = borrowers.len();
    let k = lemma_entries_looked_at(env, borrowers, payments, size);
    let states = Seq::new(k + 1, |i: int| batch_run(env, borrowers, payments, i as nat).1);
    assert forall|n: nat| n <= k implies (#[trigger] batch_run(
        env,
        borrowers,
        payments,
        n,
    )).1.not_paused is Ok by {
        lemma_batch_keeps_running(env, borrowers, payments, n);
    }
    assert forall|i: int| 0 <= i < k implies {
        let single = repay_post(#[trigger] states[i], borrowers[i], payments[i]);
        let answer = repay_result(states[i], borrowers[i], payments[i]);
        &&& answer is Ok ==> states[i + 1] == (EnvView {
            outbox: single.outbox.push(
                EffectView::Publish {
                    event: EventView::BatchPayment { borrower: borrowers[i], payment: payments[i] },
                },
            ),
            ..single
        })
        &&& answer is Err ==> states[i + 1] == single
        &&& i < k - 1 ==> answer is Ok
        &&& i == k - 1 ==> answer == batch_repay_result(env, borrowers, payments)
    } by {
        let before = batch_run(env, borrowers, payments, i as nat);
        assert(before.0 is Ok);
        assert(before.1.not_paused is Ok);
        assert(batch_run(env, borrowers, payments, (i + 1) as nat).1 == states[i + 1]);
        if i < k - 1 {
            assert(batch_run(env, borrowers, payments, (i + 1) as nat).0 is Ok);
        }
    }
    if batch_repay_defined(env, borrowers, payments) {
        assert forall|i: int| 0 <= i < k implies repay_defined(
            #[trigger] states[i],
            borrowers[i],
            payments[i],
        ) by {
            assert(batch_entry_defined(env, borrowers, payments, i as nat));
            assert(batch_run(env, borrowers, payments, i as nat).0 is Ok);
        }
    }
    if forall|i: int|
        0 <= i < k ==> repay_defined(#[trigger] states[i], borrowers[i], payments[i]) {
        assert forall|n: nat| n < size implies #[trigger] batch_entry_defined(
            env,
            borrowers,
            payments,
            n,
        ) by {
            if n < k {
                assert(repay_defined(states[n as int], borrowers[n as int], payments[n as int]));
                assert(batch_run(env, borrowers, payments, n).1.not_paused is Ok);
            } else {
                lemma_batch_stops(env, borrowers, payments, k, n);
            }
        }
    }
    states
}

proof fn lemma_batch_keeps_running(
    env: EnvView,
    borrowers: Seq<Address>,
    payments: Seq<i128>,
    n: nat,
)
    requires
        env.not_paused is Ok,
    ensures
        batch_run(env, borrowers, payments, n).1.not_paused is Ok,
    decreases n,
{
    if n > 0 {
        lemma_batch_keeps_running(env, borrowers, payments, (n - 1) as nat);
    }
}

/// How many of the first `n` entries are looked at.
proof fn lemma_entries_looked_at(
    env: EnvView,
    borrowers: Seq<Address>,
    payments: Seq<i128>,
    n: nat,
) -> (k: nat)
    requires
        n > 0,
    ensures
        1 <= k <= n,
        forall|i: nat| i < k ==> (#[trigger] batch_run(env, borrowers, payments, i)).0 is Ok,
        batch_run(env, borrowers, payments, n) == batch_run(env, borrowers, payments, k),
        k < n ==> batch_run(env, borrowers, payments, k).0 is Err,
        batch_run(env, borrowers, payments, n).0 is Ok ==> k == n,
    decreases n,
{
    if n == 1 {
        assert(batch_run(env, borrowers, payments, 0).0 is Ok);
        1
    } else {
        let last = (n - 1) as nat;
        let k = lemma_entries_looked_at(env, borrowers, payments, last);
        if batch_run(env, borrowers, payments, last).0 is Ok {
            n
        } else {
            k
        }
    }
}

// --- Partial default -------------------------------------------------------

/// Whether `rate` is the full rate cut down to the part of a loan that is unpaid, where
/// `repaid` is the part that was repaid; both are in basis points.
pub open spec fn rate_on_what_is_unpaid(
    slash_bps: int,
    loan: LoanView,
    repaid: int,
    rate: int,
) -> bool {
    let owed = loan.amount + loan.total_yield;
    &&& if owed > 0 {
        divides(loan.amount_repaid * 10_000, owed, repaid)
    } else {
        repaid == 0
    }
    &&& divides(slash_bps * (10_000 - repaid), 10_000, rate)
}

proof fn lemma_rate(slash_bps: i128, loan: LoanView)
    ensures
        rate_on_what_is_unpaid(
            slash_bps as int,
            loan,
            repaid_bps(loan),
            slash_rate(slash_bps, loan),
        ),
        forall|repaid: int, rate: int| #[trigger]
            rate_on_what_is_unpaid(slash_bps as int, loan, repaid, rate) ==> repaid == repaid_bps(
                loan,
            ) && rate == slash_rate(slash_bps, loan),
{
    let owed = loan.amount + loan.total_yield;
    if owed > 0 {
        lemma_divides(loan.amount_repaid * 10_000, owed);
    }
    lemma_divides(slash_bps * (10_000 - repaid_bps(loan)), 10_000);
}

/// Marking a loan as a partial default goes through exactly where the contract runs, the
/// administrators approve, partial defaults are enabled, the borrower has a loan open that
/// is running, of which something has been repaid and the deadline has passed, what has
/// been repaid is less than the part of what is owed that the terms ask for, and the token
/// of the loan is admitted. Of what stands in the way, the first in this order is the
/// answer.
pub proof fn loans_are_marked_below_the_threshold(
    env: EnvView,
    approval: Result<(), ContractError>,
    borrower: Address,
)
    requires
        mark_partial_default_defined(env, approval, borrower),
    ensures
        ({
            let result = mark_partial_default_result(env, approval, borrower);
            let runs = env.not_paused is Ok;
            let approved = runs && approval is Ok;
            let threshold = env.ledger.config->0.partial_default_threshold_bps;
            let enabled = approved && threshold > 0;
            let open = enabled && open_loan(env.ledger, borrower) is Some;
            let loan = open_loan(env.ledger, borrower)->0;
            let owed = loan.amount + loan.total_yield;
            let due = {
                &&& loan.status == LoanStatus::Active
                &&& loan.amount_repaid > 0
                &&& env.timestamp > loan.deadline
                &&& owed > 0 ==> loan.amount_repaid * 10_000 < threshold * owed
            };
            let admitted = env.admitted_tokens.contains(loan.token_address);
            &&& result is Ok <==> open && due && admitted
            &&& !runs ==> result == env.not_paused
            &&& runs && !approved ==> result == approval
            &&& approved && !enabled ==> result->Err_0 == ContractError::InvalidStateTransition
            &&& enabled && !open ==> result->Err_0 == ContractError::NoActiveLoan
            &&& open && !due ==> result->Err_0 == ContractError::InvalidStateTransition
            &&& open && due && !admitted ==> result->Err_0 == env.token_refusal
        }),
{
    let loan = open_loan(env.ledger, borrower)->0;
    let owed = loan.amount + loan.total_yield;
    let threshold = env.ledger.config->0.partial_default_threshold_bps as int;
    let repaid = loan.amount_repaid * 10_000;
    if owed > 0 && repaid > 0 {
        lemma_divides(repaid, owed);
        let part = quotient(repaid, owed);
        assert(part >= threshold <==> repaid >= threshold * owed) by (nonlinear_arith)
            requires
                owed > 0,
                part * owed <= repaid < part * owed + owed,
        ;
    }
}

/// A request to mark a loan has an answer unless, on the way to it, the terms are missing
/// or an amount or the count is out of range.
pub proof fn marks_have_an_answer(
    env: EnvView,
    approval: Result<(), ContractError>,
    borrower: Address,
    repaid: int,
    rate: int,
    slashes: Seq<int>,
)
    requires
        env.ledger.config matches Some(config) ==> (open_loan(env.ledger, borrower) matches Some(
            loan,
        ) ==> {
            &&& rate_on_what_is_unpaid(config.slash_bps as int, loan, repaid, rate)
            &&& slashes_at_rate(
                stakes_in(behind(env.ledger, borrower), loan.token_address),
                rate,
                slashes,
            )
        }),
    ensures
        ({
            let defined = mark_partial_default_defined(env, approval, borrower);
            let config = env.ledger.config->0;
            let threshold = config.partial_default_threshold_bps;
            let loan = open_loan(env.ledger, borrower)->0;
            let owed = loan.amount + loan.total_yield;
            let vouches = behind(env.ledger, borrower);
            let count = if env.ledger.partial_default_counts.dom().contains(borrower) {
                env.ledger.partial_default_counts[borrower] as int
            } else {
                0
            };
            if env.not_paused is Err || approval is Err {
                defined
            } else if env.ledger.config is None {
                !defined
            } else if threshold == 0 || open_loan(env.ledger, borrower) is None || loan.status
                != LoanStatus::Active || loan.amount_repaid <= 0 || env.timestamp <= loan.deadline {
                defined
            } else {
                defined <==> {
                    &&& holds(owed)
                    &&& owed > 0 ==> holds(loan.amount_repaid * 10_000)
                    &&& repaid < threshold ==> {
                        &&& holds(10_000 - repaid)
                        &&& holds(config.slash_bps * (10_000 - repaid))
                        &&& env.admitted_tokens.contains(loan.token_address) ==> {
                            &&& slashes_hold(vouches, loan.token_address, rate, slashes)
                            &&& count < 0xffff_ffff
                        }
                    }
                }
            }
        }),
{
    if env.ledger.config is Some && open_loan(env.ledger, borrower) is Some {
        let loan = open_loan(env.ledger, borrower)->0;
        lemma_rate(env.ledger.config->0.slash_bps, loan);
        slashes_need_amounts_in_range(
            env.ledger.vouches_of(borrower),
            loan.token_address,
            rate,
            slashes,
        );
    }
}

/// A request that is refused does nothing. A loan that is marked changes in its status
/// alone, and the borrower has neither an open loan nor stakes behind them any more. Each
/// stake in the token of the loan is slashed by itself, at the full rate cut down to what
/// is unpaid; what it has left goes from the contract to its own voucher, in the order of
/// the stakes. The slashes together are put on record and announced, and the borrower has
/// one partial default more. Nobody else's entries change.
pub proof fn marking_slashes_each_voucher_for_what_is_unpaid(
    env: EnvView,
    approval: Result<(), ContractError>,
    borrower: Address,
) -> (found: (int, int, Seq<int>))
    requires
        mark_partial_default_defined(env, approval, borrower),
    ensures
        ({
            let (repaid, rate, slashes) = found;
            let result = mark_partial_default_result(env, approval, borrower);
            let after = mark_partial_default_post(env, approval, borrower);
            let loan = open_loan(env.ledger, borrower)->0;
            let token = loan.token_address;
            let stakes = stakes_in(behind(env.ledger, borrower), token);
            let left = left_of_stakes(stakes, slashes);
            let start = env.outbox.len();
            let record = after.ledger.slash_records[loan.id];
            let count = after.ledger.partial_default_counts[borrower];
            &&& result is Err ==> after == env
            &&& result is Ok ==> {
                &&& rate_on_what_is_unpaid(
                    env.ledger.config->0.slash_bps as int,
                    loan,
                    repaid,
                    rate,
                )
                &&& slashes_at_rate(stakes, rate, slashes)
                &&& record.loan_id == loan.id
                &&& record.borrower == borrower
                &&& record.total_slashed == sum(slashes)
                &&& record.slash_timestamp == env.timestamp
                &&& !record.forgiven
                &&& record.forgiveness_reason.len() == 0
                &&& record.forgiven_at == 0
                &&& count == 1 + if env.ledger.partial_default_counts.dom().contains(borrower) {
                    env.ledger.partial_default_counts[borrower] as int
                } else {
                    0
                }
                &&& after == (EnvView {
                    outbox: after.outbox,
                    ledger: LedgerView {
                        loans: env.ledger.loans.insert(
                            loan.id,
                            LoanView { status: LoanStatus::PartialDefault, ..loan },
                        ),
                        active_loans: env.ledger.active_loans.remove(borrower),
                        vouches: env.ledger.vouches.remove(borrower),
                        slash_records: env.ledger.slash_records.insert(loan.id, record),
                        partial_default_counts: env.ledger.partial_default_counts.insert(
                            borrower,
                            count,
                        ),
                        ..env.ledger
                    },
                    ..env
                })
                &&& after.outbox.len() == start + left.len() + 1
                &&& after.outbox.take(start as int) == env.outbox
                &&& forall|i: int|
                    0 <= i < left.len() ==> {
                        &&& (#[trigger] after.outbox[start + i]) matches EffectView::Transfer {
                            token: sent,
                            from,
                            to,
                            amount,
                        }
                        &&& sent == token
                        &&& from == env.contract
                        &&& to == left[i].0
                        &&& amount == left[i].1
                    }
                &&& after.outbox.last() == (EffectView::Publish {
                    event: EventView::PartialDefault {
                        borrower,
                        total_slashed: record.total_slashed,
                    },
                })
            }
        }),
{
    let loan = open_loan(env.ledger, borrower)->0;
    let token = loan.token_address;
    let vouches = env.ledger.vouches_of(borrower);
    let slash_bps = env.ledger.config->0.slash_bps;
    if mark_partial_default_result(env, approval, borrower) is Ok {
        lemma_rate(slash_bps, loan);
        let rate = slash_rate(slash_bps, loan);
        let slashes = each_stake_is_slashed_by_itself(vouches, token, rate);
        assert(vouches.take(vouches.len() as int) =~= vouches);
        assert(fits(slash_total(vouches.take(vouches.len() as int), token, rate)));
        let after = mark_partial_default_post(env, approval, borrower);
        let list = remainders(vouches, token, rate);
        assert(after.outbox.take(env.outbox.len() as int) =~= env.outbox);
        assert forall|i: int| 0 <= i < list.len() implies (#[trigger] after.outbox[env.outbox.len()
            + i]) == (EffectView::Transfer {
            token,
            from: env.contract,
            to: list[i].0,
            amount: list[i].1,
        }) by {}
        (repaid_bps(loan), rate, slashes)
    } else {
        (0, 0, Seq::empty())
    }
}

// --- Forgiving a default ---------------------------------------------------

/// Forgiving goes through exactly where the contract runs, the administrators approve,
/// the loan is stored, is the borrower's, and is a default, partial or not. Of what stands
/// in the way, the first in this order is the answer.
pub proof fn any_default_can_be_forgiven(
    env: EnvView,
    approval: Result<(), ContractError>,
    borrower: Address,
    loan_id: u64,
)
    ensures
        ({
            let result = forgive_default_result(env, approval, borrower, loan_id);
            let runs = env.not_paused is Ok;
            let approved = runs && approval is Ok;
            let stored = approved && env.ledger.loans.dom().contains(loan_id);
            let loan = env.ledger.loans[loan_id];
            let own = stored && loan.borrower == borrower;
            let default = loan.status == LoanStatus::Defaulted || loan.status
                == LoanStatus::PartialDefault;
            &&& result is Ok <==> own && default
            &&& !runs ==> result == env.not_paused
            &&& runs && !approved ==> result == approval
            &&& approved && !stored ==> result->Err_0 == ContractError::NoActiveLoan
            &&& stored && !own ==> result->Err_0 == ContractError::UnauthorizedCaller
            &&& own && !default ==> result->Err_0 == ContractError::InvalidStateTransition
        }),
{
}

/// Forgiving a default keeps its slash on record: whatever else is stored, what was
/// slashed, when, for which loan and whose, is as it was; only the forgiveness is added,
/// with the reason and the time. A default that had no record gets one, with nothing
/// slashed.
pub proof fn forgiving_keeps_the_slash_on_record(
    env: EnvView,
    approval: Result<(), ContractError>,
    borrower: Address,
    loan_id: u64,
    reason: Seq<char>,
)
    requires
        forgive_default_result(env, approval, borrower, loan_id) is Ok,
    ensures
        ({
            let after = forgive_default_post(env, approval, borrower, loan_id, reason).ledger;
            let record = after.slash_records[loan_id];
            &&& after.slash_records.dom().contains(loan_id)
            &&& record.forgiven
            &&& record.forgiveness_reason == reason
            &&& record.forgiven_at == env.timestamp
            &&& env.ledger.slash_records.dom().contains(loan_id) ==> {
                let before = env.ledger.slash_records[loan_id];
                &&& record.loan_id == before.loan_id
                &&& record.borrower == before.borrower
                &&& record.total_slashed == before.total_slashed
                &&& record.slash_timestamp == before.slash_timestamp
            }
            &&& !env.ledger.slash_records.dom().contains(loan_id) ==> {
                &&& record.loan_id == loan_id
                &&& record.borrower == borrower
                &&& record.total_slashed == 0
                &&& record.slash_timestamp == 0
            }
        }),
{
}

/// A request to forgive that is refused does nothing. One that goes through changes the
/// status of that loan, its slash record and, where the borrower has defaults counted, the
/// count by one; the forgiveness is announced with its reason. No money moves, and nothing
/// else that is stored changes.
pub proof fn forgiving_changes_the_default_alone(
    env: EnvView,
    approval: Result<(), ContractError>,
    borrower: Address,
    loan_id: u64,
    reason: Seq<char>,
)
    ensures
        ({
            let result = forgive_default_result(env, approval, borrower, loan_id);
            let after = forgive_default_post(env, approval, borrower, loan_id, reason);
            let counted = env.ledger.default_counts.dom().contains(borrower)
                && env.ledger.default_counts[borrower] > 0;
            &&& result is Err ==> after == env
            &&& result is Ok ==> after == (EnvView {
                outbox: env.outbox.push(
                    EffectView::Publish {
                        event: EventView::DefaultForgiven { borrower, loan_id, reason },
                    },
                ),
                ledger: LedgerView {
                    loans: env.ledger.loans.insert(
                        loan_id,
                        LoanView {
                            status: LoanStatus::ForgivenDefault,
                            ..env.ledger.loans[loan_id]
                        },
                    ),
                    slash_records: env.ledger.slash_records.insert(
                        loan_id,
                        after.ledger.slash_records[loan_id],
                    ),
                    default_counts: after.ledger.default_counts,
                    ..env.ledger
                },
                ..env
            })
            &&& result is Ok && !counted ==> after.ledger.default_counts
                == env.ledger.default_counts
            &&& result is Ok && counted ==> {
                let left = after.ledger.default_counts[borrower];
                &&& left == env.ledger.default_counts[borrower] - 1
                &&& after.ledger.default_counts == env.ledger.default_counts.insert(borrower, left)
            }
        }),
{
}

} // verus!
