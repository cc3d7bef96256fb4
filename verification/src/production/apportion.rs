//! Capped proportional apportionment of a whole-number budget.
//!
//! A budget of indivisible units is shared among places in proportion to
//! their weights. No place receives more than its cap, what a capped place
//! cannot take is shared among the others by the same rule, and the shares
//! always add up to the budget exactly.

use vstd::prelude::*;

verus! {

/// `a - b`, or zero where `b` is the greater.
pub open spec fn minus(a: nat, b: nat) -> nat {
    if a >= b {
        (a - b) as nat
    } else {
        0
    }
}

/// The sum of the first `n` values.
pub open spec fn sum_to(values: Seq<nat>, n: int) -> nat
    decreases n,
{
    if n <= 0 {
        0
    } else {
        sum_to(values, n - 1) + values[n - 1]
    }
}

/// The sum of all values.
pub open spec fn total(values: Seq<nat>) -> nat {
    sum_to(values, values.len() as int)
}

/// How many of the first `n` places are picked.
pub open spec fn picked_count(pick: Seq<bool>, n: int) -> nat
    decreases n,
{
    if n <= 0 {
        0
    } else {
        picked_count(pick, n - 1) + if pick[n - 1] { 1nat } else { 0nat }
    }
}

/// The sum of the values at the picked places among the first `n`.
pub open spec fn picked_sum(values: Seq<nat>, pick: Seq<bool>, n: int) -> nat
    decreases n,
{
    if n <= 0 {
        0
    } else {
        picked_sum(values, pick, n - 1) + if pick[n - 1] { values[n - 1] } else { 0nat }
    }
}

/// The first place among the first `n` that is open and whose weight no other
/// open place among them exceeds; -1 where none of them is open.
pub open spec fn lead(weights: Seq<nat>, open: Seq<bool>, n: int) -> int
    decreases n,
{
    if n <= 0 {
        -1
    } else {
        let before = lead(weights, open, n - 1);
        if open[n - 1] && (before < 0 || weights[n - 1] > weights[before]) {
            n - 1
        } else {
            before
        }
    }
}

/// The weight that place `i` competes with: its own, or 1 where the open
/// places have no weight at all, so that they then share evenly.
pub open spec fn stake(weights: Seq<nat>, open: Seq<bool>, i: int) -> nat {
    if picked_sum(weights, open, open.len() as int) == 0 {
        1
    } else {
        weights[i]
    }
}

/// The sum of the stakes of the open places.
pub open spec fn stakes(weights: Seq<nat>, open: Seq<bool>) -> nat {
    if picked_sum(weights, open, open.len() as int) == 0 {
        picked_count(open, open.len() as int)
    } else {
        picked_sum(weights, open, open.len() as int)
    }
}

/// The part of `budget` that falls to the open place `i` by its stake,
/// rounded down; zero for a closed place.
pub open spec fn quota(weights: Seq<nat>, open: Seq<bool>, budget: nat, i: int) -> nat {
    if open[i] && stakes(weights, open) > 0 {
        (stake(weights, open, i) * budget) / stakes(weights, open)
    } else {
        0
    }
}

/// The quotas of all places.
pub open spec fn quotas(weights: Seq<nat>, open: Seq<bool>, budget: nat) -> Seq<nat> {
    Seq::new(open.len(), |i: int| quota(weights, open, budget, i))
}

/// What place `i` is offered in this round: its quota, and for the leading
/// place also the units that rounding down left over.
pub open spec fn offer(weights: Seq<nat>, open: Seq<bool>, budget: nat, i: int) -> nat {
    if !open[i] {
        0
    } else if i == lead(weights, open, open.len() as int) {
        minus(
            budget,
            minus(total(quotas(weights, open, budget)), quota(weights, open, budget, i)),
        )
    } else {
        quota(weights, open, budget, i)
    }
}

/// The offers of all places.
pub open spec fn offers(weights: Seq<nat>, open: Seq<bool>, budget: nat) -> Seq<nat> {
    Seq::new(open.len(), |i: int| offer(weights, open, budget, i))
}

/// Whether the open place `i` is offered more than its cap.
pub open spec fn over(
    weights: Seq<nat>,
    caps: Seq<nat>,
    open: Seq<bool>,
    budget: nat,
    i: int,
) -> bool {
    open[i] && offer(weights, open, budget, i) > caps[i]
}

/// For each place, whether it is offered more than its cap.
pub open spec fn overs(weights: Seq<nat>, caps: Seq<nat>, open: Seq<bool>, budget: nat) -> Seq<
    bool,
> {
    Seq::new(open.len(), |i: int| over(weights, caps, open, budget, i))
}

/// The open places that stay open after a round.
pub open spec fn still_open(open: Seq<bool>, closing: Seq<bool>) -> Seq<bool> {
    Seq::new(open.len(), |i: int| open[i] && !closing[i])
}

/// The shares given so far, with each closing place given its cap.
pub open spec fn capped(given: Seq<nat>, caps: Seq<nat>, closing: Seq<bool>) -> Seq<nat> {
    Seq::new(given.len(), |i: int| if closing[i] { caps[i] } else { given[i] })
}

/// The shares when a round closes no place: each open place takes its offer.
pub open spec fn accepted(weights: Seq<nat>, open: Seq<bool>, given: Seq<nat>, budget: nat) -> Seq<
    nat,
> {
    Seq::new(
        open.len(),
        |i: int| if open[i] { offer(weights, open, budget, i) } else { given[i] },
    )
}

/// The final shares, from a state in which the closed places hold `given`
/// and `budget` is still to be shared among the open ones.
///
/// Each round offers every open place its part of the budget. The places
/// offered more than their cap are closed at their cap, and the round is
/// repeated with what is left. A round that closes no place ends it.
pub open spec fn settle(
    weights: Seq<nat>,
    caps: Seq<nat>,
    open: Seq<bool>,
    given: Seq<nat>,
    budget: nat,
) -> Seq<nat>
    decreases picked_count(open, open.len() as int),
{
    let closing = overs(weights, caps, open, budget);
    if picked_count(closing, open.len() as int) > 0 {
        proof {
            lemma_closing_shrinks(open, closing);
        }
        settle(
            weights,
            caps,
            still_open(open, closing),
            capped(given, caps, closing),
            minus(budget, picked_sum(caps, closing, open.len() as int)),
        )
    } else {
        accepted(weights, open, given, budget)
    }
}

/// The shares of `budget` among places with the given weights and caps.
pub open spec fn allot(weights: Seq<nat>, caps: Seq<nat>, budget: nat) -> Seq<nat> {
    settle(
        weights,
        caps,
        Seq::new(weights.len(), |i: int| true),
        Seq::new(weights.len(), |i: int| 0nat),
        budget,
    )
}

/// Closing some open places leaves fewer open: the count of the open places
/// is that of the closing ones and of those that stay open together.
pub proof fn lemma_closing_counts(open: Seq<bool>, closing: Seq<bool>, n: int)
    requires
        closing.len() == open.len(),
        0 <= n <= open.len(),
        forall|i: int| 0 <= i < open.len() && closing[i] ==> open[i],
    ensures
        picked_count(open, n) == picked_count(closing, n) + picked_count(
            still_open(open, closing),
            n,
        ),
    decreases n,
{
    if n > 0 {
        lemma_closing_counts(open, closing, n - 1);
    }
}

/// Where a round closes a place, fewer places stay open.
pub proof fn lemma_closing_shrinks(open: Seq<bool>, closing: Seq<bool>)
    requires
        closing.len() == open.len(),
        forall|i: int| 0 <= i < open.len() && closing[i] ==> open[i],
        picked_count(closing, open.len() as int) > 0,
    ensures
        picked_count(still_open(open, closing), open.len() as int) < picked_count(
            open,
            open.len() as int,
        ),
{
    lemma_closing_counts(open, closing, open.len() as int);
}

/// A sum grows with the number of values summed.
pub proof fn lemma_sum_to_grows(values: Seq<nat>, i: int, j: int)
    requires
        i <= j,
    ensures
        sum_to(values, i) <= sum_to(values, j),
    decreases j - i,
{
    if i < j {
        lemma_sum_to_grows(values, i, j - 1);
    }
}

/// A sum of values that a bound holds of is at most their number times the
/// bound.
pub proof fn lemma_sum_to_bounded(values: Seq<nat>, bound: nat, n: int)
    requires
        0 <= n <= values.len(),
        forall|i: int| 0 <= i < n ==> values[i] <= bound,
    ensures
        sum_to(values, n) <= n * bound,
    decreases n,
{
    if n > 0 {
        lemma_sum_to_bounded(values, bound, n - 1);
        assert((n - 1) * bound + bound == n * bound) by (nonlinear_arith);
    } else {
        assert(0 * bound == 0) by (nonlinear_arith);
    }
}

/// The picked values sum to no more than all of them.
pub proof fn lemma_picked_within_sum(values: Seq<nat>, pick: Seq<bool>, n: int)
    ensures
        picked_sum(values, pick, n) <= sum_to(values, n),
    decreases n,
{
    if n > 0 {
        lemma_picked_within_sum(values, pick, n - 1);
    }
}

/// Where every value that is not picked is zero, the picked values sum to
/// what all of them sum to.
pub proof fn lemma_picked_is_sum(values: Seq<nat>, pick: Seq<bool>, n: int)
    requires
        forall|i: int| 0 <= i < n && !pick[i] ==> values[i] == 0,
    ensures
        picked_sum(values, pick, n) == sum_to(values, n),
    decreases n,
{
    if n > 0 {
        lemma_picked_is_sum(values, pick, n - 1);
    }
}

/// A picked value is part of the picked sum, and counts.
pub proof fn lemma_picked_member(values: Seq<nat>, pick: Seq<bool>, n: int, i: int)
    requires
        0 <= i < n,
        pick[i],
    ensures
        values[i] <= picked_sum(values, pick, n),
        picked_count(pick, n) >= 1,
    decreases n,
{
    if i < n - 1 {
        lemma_picked_member(values, pick, n - 1, i);
    }
}

/// With nothing picked the picked sum is zero.
pub proof fn lemma_none_picked(values: Seq<nat>, pick: Seq<bool>, n: int)
    requires
        picked_count(pick, n) == 0,
    ensures
        picked_sum(values, pick, n) == 0,
        forall|i: int| 0 <= i < n ==> !pick[i],
    decreases n,
{
    if n > 0 {
        lemma_none_picked(values, pick, n - 1);
    }
}

/// The sum over the open places is the sum over the closing ones and the sum
/// over those that stay open.
pub proof fn lemma_closing_sums(values: Seq<nat>, open: Seq<bool>, closing: Seq<bool>, n: int)
    requires
        closing.len() == open.len(),
        0 <= n <= open.len(),
        forall|i: int| 0 <= i < open.len() && closing[i] ==> open[i],
    ensures
        picked_sum(values, open, n) == picked_sum(values, closing, n) + picked_sum(
            values,
            still_open(open, closing),
            n,
        ),
    decreases n,
{
    if n > 0 {
        lemma_closing_sums(values, open, closing, n - 1);
    }
}

/// A picked sum is monotone in the values at the picked places.
pub proof fn lemma_picked_sum_ordered(a: Seq<nat>, b: Seq<nat>, pick: Seq<bool>, n: int)
    requires
        forall|i: int| 0 <= i < n && pick[i] ==> a[i] <= b[i],
    ensures
        picked_sum(a, pick, n) <= picked_sum(b, pick, n),
    decreases n,
{
    if n > 0 {
        lemma_picked_sum_ordered(a, b, pick, n - 1);
    }
}

/// Sums of sequences that agree on the first `n` places are equal.
pub proof fn lemma_sum_to_agrees(a: Seq<nat>, b: Seq<nat>, n: int)
    requires
        forall|i: int| 0 <= i < n ==> a[i] == b[i],
    ensures
        sum_to(a, n) == sum_to(b, n),
    decreases n,
{
    if n > 0 {
        lemma_sum_to_agrees(a, b, n - 1);
    }
}

/// Replacing one value changes the sum by the difference.
pub proof fn lemma_sum_to_replaced(values: Seq<nat>, at: int, value: nat, n: int)
    requires
        0 <= at < values.len(),
        n <= values.len(),
    ensures
        sum_to(values.update(at, value), n) + (if at < n { values[at] } else { 0 }) == sum_to(
            values,
            n,
        ) + (if at < n { value } else { 0 }),
    decreases n,
{
    if n > 0 {
        lemma_sum_to_replaced(values, at, value, n - 1);
    }
}

/// What `lead` names: nothing where no place is open, else the first of the
/// open places of greatest weight.
pub proof fn lemma_lead(weights: Seq<nat>, open: Seq<bool>, n: int)
    requires
        weights.len() == open.len(),
        0 <= n <= open.len(),
    ensures
        picked_count(open, n) == 0 ==> lead(weights, open, n) == -1,
        picked_count(open, n) > 0 ==> {
            let m = lead(weights, open, n);
            &&& 0 <= m < n
            &&& open[m]
            &&& forall|j: int| 0 <= j < n && #[trigger] open[j] ==> weights[j] <= weights[m]
            &&& forall|j: int| 0 <= j < m && #[trigger] open[j] ==> weights[j] < weights[m]
        },
    decreases n,
{
    if n > 0 {
        lemma_lead(weights, open, n - 1);
        let before = lead(weights, open, n - 1);
        let m = lead(weights, open, n);
        if picked_count(open, n - 1) == 0 {
            lemma_none_picked(weights, open, n - 1);
        }
        if picked_count(open, n) > 0 {
            assert forall|j: int| 0 <= j < n && #[trigger] open[j] implies weights[j]
                <= weights[m] by {
                if j < n - 1 {
                    lemma_picked_member(weights, open, n - 1, j);
                }
            }
            assert forall|j: int| 0 <= j < m && #[trigger] open[j] implies weights[j]
                < weights[m] by {
                lemma_picked_member(weights, open, n - 1, j);
            }
        }
    }
}

/// The stakes of all places.
pub open spec fn stake_list(weights: Seq<nat>, open: Seq<bool>) -> Seq<nat> {
    Seq::new(open.len(), |i: int| stake(weights, open, i))
}

/// Where every value is 1, the picked sum is the picked count.
pub proof fn lemma_picked_ones(values: Seq<nat>, pick: Seq<bool>, n: int)
    requires
        forall|i: int| 0 <= i < n ==> values[i] == 1,
    ensures
        picked_sum(values, pick, n) == picked_count(pick, n),
    decreases n,
{
    if n > 0 {
        lemma_picked_ones(values, pick, n - 1);
    }
}

/// `stakes` is the sum of the stakes of the open places. It is positive
/// where a place is open, and no open place's stake exceeds it.
pub proof fn lemma_stakes(weights: Seq<nat>, open: Seq<bool>)
    requires
        weights.len() == open.len(),
    ensures
        picked_sum(stake_list(weights, open), open, open.len() as int) == stakes(weights, open),
        picked_count(open, open.len() as int) > 0 ==> stakes(weights, open) > 0,
        forall|i: int|
            0 <= i < open.len() && #[trigger] open[i] ==> stake(weights, open, i) <= stakes(
                weights,
                open,
            ) && stakes(weights, open) > 0,
{
    let n = open.len() as int;
    let list = stake_list(weights, open);
    if picked_sum(weights, open, n) == 0 {
        lemma_picked_ones(list, open, n);
    } else {
        lemma_picked_sum_ordered(list, weights, open, n);
        lemma_picked_sum_ordered(weights, list, open, n);
    }
    assert forall|i: int| 0 <= i < open.len() && #[trigger] open[i] implies stake(
        weights,
        open,
        i,
    ) <= stakes(weights, open) && stakes(weights, open) > 0 by {
        lemma_picked_member(weights, open, n, i);
    }
    if picked_count(open, n) > 0 && picked_sum(weights, open, n) == 0 {
    }
}

/// Rounding a quotient down and multiplying back gives no more than was
/// divided, and a part of a whole has a quotient within the budget.
pub proof fn lemma_part_of(part: nat, whole: nat, budget: nat)
    by (nonlinear_arith)
    requires
        whole > 0,
        part <= whole,
    ensures
        ((part * budget) / whole) * whole <= part * budget,
        (part * budget) / whole <= budget,
{
}

/// No quota exceeds the budget.
pub proof fn lemma_quota_within(weights: Seq<nat>, open: Seq<bool>, budget: nat, i: int)
    requires
        weights.len() == open.len(),
        0 <= i < open.len(),
    ensures
        quota(weights, open, budget, i) <= budget,
{
    lemma_stakes(weights, open);
    if open[i] {
        lemma_part_of(stake(weights, open, i), stakes(weights, open), budget);
    }
}

/// The quotas of the first `n` places, multiplied by the sum of all stakes,
/// come to no more than the budget multiplied by the stakes of those places.
proof fn lemma_quotas_scaled(weights: Seq<nat>, open: Seq<bool>, budget: nat, n: int)
    requires
        weights.len() == open.len(),
        0 <= n <= open.len(),
    ensures
        picked_sum(quotas(weights, open, budget), open, n) * stakes(weights, open) <= budget
            * picked_sum(stake_list(weights, open), open, n),
    decreases n,
{
    let whole = stakes(weights, open);
    if n > 0 {
        lemma_quotas_scaled(weights, open, budget, n - 1);
        let before = picked_sum(quotas(weights, open, budget), open, n - 1);
        let staked = picked_sum(stake_list(weights, open), open, n - 1);
        if open[n - 1] {
            lemma_stakes(weights, open);
            let part = stake(weights, open, n - 1);
            let q = quota(weights, open, budget, n - 1);
            lemma_part_of(part, whole, budget);
            assert(q * whole <= part * budget);
            assert((before + q) * whole <= budget * (staked + part)) by (nonlinear_arith)
                requires
                    before * whole <= budget * staked,
                    q * whole <= part * budget,
            ;
        }
    } else {
        assert(0 * whole <= budget * 0) by (nonlinear_arith);
    }
}

/// The quotas together come to no more than the budget.
pub proof fn lemma_quotas_within(weights: Seq<nat>, open: Seq<bool>, budget: nat)
    requires
        weights.len() == open.len(),
    ensures
        total(quotas(weights, open, budget)) <= budget,
{
    let n = open.len() as int;
    let list = quotas(weights, open, budget);
    let whole = stakes(weights, open);
    lemma_picked_is_sum(list, open, n);
    if picked_count(open, n) == 0 {
        lemma_none_picked(list, open, n);
    } else {
        lemma_stakes(weights, open);
        lemma_quotas_scaled(weights, open, budget, n);
        let all = picked_sum(list, open, n);
        assert(all <= budget) by (nonlinear_arith)
            requires
                all * whole <= budget * whole,
                whole > 0,
        ;
    }
}

/// While a place is open the offers come to the budget exactly. Each offer
/// is at least the quota and at most the budget.
pub proof fn lemma_offers(weights: Seq<nat>, open: Seq<bool>, budget: nat)
    requires
        weights.len() == open.len(),
        picked_count(open, open.len() as int) > 0,
    ensures
        total(offers(weights, open, budget)) == budget,
        forall|i: int|
            0 <= i < open.len() ==> quota(weights, open, budget, i) <= #[trigger] offer(
                weights,
                open,
                budget,
                i,
            ) <= budget,
{
    let n = open.len() as int;
    let qs = quotas(weights, open, budget);
    let os = offers(weights, open, budget);
    let m = lead(weights, open, n);
    lemma_lead(weights, open, n);
    lemma_quotas_within(weights, open, budget);
    lemma_sum_to_replaced(qs, m, os[m], n);
    lemma_sum_to_agrees(qs.update(m, os[m]), os, n);
    lemma_sum_to_grows(qs, m + 1, n);
    assert(sum_to(qs, m + 1) == sum_to(qs, m) + qs[m]);
    assert(qs[m] <= total(qs));
    assert forall|i: int| 0 <= i < open.len() implies quota(weights, open, budget, i)
        <= #[trigger] offer(weights, open, budget, i) <= budget by {
        lemma_quota_within(weights, open, budget, i);
    }
}

/// Whether the caps of the open places have room for the budget.
pub open spec fn feasible(caps: Seq<nat>, open: Seq<bool>, budget: nat) -> bool {
    budget <= picked_sum(caps, open, open.len() as int)
}

/// The places that are not open.
pub open spec fn closed_of(open: Seq<bool>) -> Seq<bool> {
    Seq::new(open.len(), |i: int| !open[i])
}

/// A round that closes places takes no more than the budget for their caps,
/// leaves room for the rest among the places that stay open, and leaves
/// fewer places open.
pub proof fn lemma_round_closes(weights: Seq<nat>, caps: Seq<nat>, open: Seq<bool>, budget: nat)
    requires
        weights.len() == open.len(),
        caps.len() == open.len(),
        feasible(caps, open, budget),
        picked_count(overs(weights, caps, open, budget), open.len() as int) > 0,
    ensures
        forall|n: int|
            0 <= n <= open.len() ==> #[trigger] picked_sum(
                caps,
                overs(weights, caps, open, budget),
                n,
            ) <= budget,
        feasible(
            caps,
            still_open(open, overs(weights, caps, open, budget)),
            minus(
                budget,
                picked_sum(caps, overs(weights, caps, open, budget), open.len() as int),
            ),
        ),
        picked_count(still_open(open, overs(weights, caps, open, budget)), open.len() as int)
            < picked_count(open, open.len() as int),
{
    let len = open.len() as int;
    let closing = overs(weights, caps, open, budget);
    let os = offers(weights, open, budget);
    lemma_closing_counts(open, closing, len);
    lemma_offers(weights, open, budget);
    assert forall|n: int| 0 <= n <= open.len() implies #[trigger] picked_sum(caps, closing, n)
        <= budget by {
        lemma_picked_sum_ordered(caps, os, closing, n);
        lemma_picked_within_sum(os, closing, n);
        lemma_sum_to_grows(os, n, len);
    }
    lemma_closing_sums(caps, open, closing, len);
}

/// The sum of all values is that of the open places and that of the closed
/// places together.
pub proof fn lemma_open_and_closed(values: Seq<nat>, open: Seq<bool>, n: int)
    requires
        0 <= n <= open.len(),
    ensures
        sum_to(values, n) == picked_sum(values, open, n) + picked_sum(
            values,
            closed_of(open),
            n,
        ),
    decreases n,
{
    if n > 0 {
        lemma_open_and_closed(values, open, n - 1);
    }
}

/// Picked sums of sequences that agree at the picked places are equal.
pub proof fn lemma_picked_sum_agrees(a: Seq<nat>, b: Seq<nat>, pick: Seq<bool>, n: int)
    requires
        forall|i: int| 0 <= i < n && pick[i] ==> a[i] == b[i],
    ensures
        picked_sum(a, pick, n) == picked_sum(b, pick, n),
{
    lemma_picked_sum_ordered(a, b, pick, n);
    lemma_picked_sum_ordered(b, a, pick, n);
}

/// What holds of the final shares from any state with room for the budget:
/// a closed place keeps what it was given, an open place stays within its
/// cap, and the shares come to what was given plus the budget.
pub proof fn lemma_settle(
    weights: Seq<nat>,
    caps: Seq<nat>,
    open: Seq<bool>,
    given: Seq<nat>,
    budget: nat,
)
    requires
        weights.len() == open.len(),
        caps.len() == open.len(),
        given.len() == open.len(),
        feasible(caps, open, budget),
    ensures
        settle(weights, caps, open, given, budget).len() == open.len(),
        forall|i: int|
            0 <= i < open.len() && !open[i] ==> #[trigger] settle(
                weights,
                caps,
                open,
                given,
                budget,
            )[i] == given[i],
        forall|i: int|
            0 <= i < open.len() && open[i] ==> #[trigger] settle(
                weights,
                caps,
                open,
                given,
                budget,
            )[i] <= caps[i],
        total(settle(weights, caps, open, given, budget)) == picked_sum(
            given,
            closed_of(open),
            open.len() as int,
        ) + budget,
    decreases picked_count(open, open.len() as int),
{
    let len = open.len() as int;
    let closing = overs(weights, caps, open, budget);
    let shares = settle(weights, caps, open, given, budget);
    if picked_count(closing, len) > 0 {
        let open2 = still_open(open, closing);
        let given2 = capped(given, caps, closing);
        let budget2 = minus(budget, picked_sum(caps, closing, len));
        lemma_round_closes(weights, caps, open, budget);
        lemma_settle(weights, caps, open2, given2, budget2);
        assert(shares == settle(weights, caps, open2, given2, budget2));
        let closed2 = closed_of(open2);
        lemma_closing_sums(given2, closed2, closing, len);
        assert(still_open(closed2, closing) =~= closed_of(open));
        lemma_picked_sum_agrees(given2, caps, closing, len);
        lemma_picked_sum_agrees(given2, given, closed_of(open), len);
        assert(picked_sum(caps, closing, len) <= budget);
    } else {
        lemma_none_picked(caps, closing, len);
        assert(shares == accepted(weights, open, given, budget));
        assert forall|i: int| 0 <= i < open.len() && open[i] implies #[trigger] shares[i]
            <= caps[i] by {
            assert(!closing[i]);
        }
        lemma_open_and_closed(shares, open, len);
        lemma_picked_sum_agrees(shares, given, closed_of(open), len);
        let os = offers(weights, open, budget);
        lemma_picked_sum_agrees(shares, os, open, len);
        lemma_picked_is_sum(os, open, len);
        if picked_count(open, len) > 0 {
            lemma_offers(weights, open, budget);
        } else {
            lemma_none_picked(caps, open, len);
            lemma_none_picked(os, open, len);
        }
    }
}

/// What holds of the shares of a budget that the caps have room for: there
/// is one for each place, none is above the cap of its place, and together
/// they are the budget.
pub proof fn lemma_allot(weights: Seq<nat>, caps: Seq<nat>, budget: nat)
    requires
        weights.len() == caps.len(),
        budget <= total(caps),
    ensures
        allot(weights, caps, budget).len() == weights.len(),
        forall|i: int|
            0 <= i < weights.len() ==> #[trigger] allot(weights, caps, budget)[i] <= caps[i],
        total(allot(weights, caps, budget)) == budget,
{
    let n = weights.len() as int;
    let open = Seq::new(weights.len(), |i: int| true);
    let given = Seq::new(weights.len(), |i: int| 0nat);
    lemma_picked_is_sum(caps, open, n);
    lemma_settle(weights, caps, open, given, budget);
    lemma_none_closed(given, open, n);
}

/// Where every place is open the closed places sum to nothing.
proof fn lemma_none_closed(values: Seq<nat>, open: Seq<bool>, n: int)
    requires
        0 <= n <= open.len(),
        forall|i: int| 0 <= i < n ==> open[i],
    ensures
        picked_sum(values, closed_of(open), n) == 0,
    decreases n,
{
    if n > 0 {
        lemma_none_closed(values, open, n - 1);
    }
}

/// A quota is monotone in the stake.
proof fn lemma_parts_ordered(small: nat, large: nat, whole: nat, budget: nat)
    by (nonlinear_arith)
    requires
        small <= large,
        whole > 0,
    ensures
        (small * budget) / whole <= (large * budget) / whole,
{
    assert(small * budget <= large * budget);
}

/// Of two open places with the same cap, the one of smaller weight ends
/// with no more than the other.
pub proof fn lemma_settle_ordered(
    weights: Seq<nat>,
    caps: Seq<nat>,
    open: Seq<bool>,
    given: Seq<nat>,
    budget: nat,
    a: int,
    b: int,
)
    requires
        weights.len() == open.len(),
        caps.len() == open.len(),
        given.len() == open.len(),
        feasible(caps, open, budget),
        0 <= a < open.len(),
        0 <= b < open.len(),
        open[a],
        open[b],
        weights[a] < weights[b],
        caps[a] == caps[b],
    ensures
        settle(weights, caps, open, given, budget)[a] <= settle(
            weights,
            caps,
            open,
            given,
            budget,
        )[b],
    decreases picked_count(open, open.len() as int),
{
    let len = open.len() as int;
    let shares = settle(weights, caps, open, given, budget);
    let closing = overs(weights, caps, open, budget);
    lemma_picked_member(weights, open, len, a);
    lemma_picked_member(weights, open, len, b);
    lemma_lead(weights, open, len);
    lemma_stakes(weights, open);
    lemma_offers(weights, open, budget);
    lemma_parts_ordered(
        stake(weights, open, a),
        stake(weights, open, b),
        stakes(weights, open),
        budget,
    );
    assert(offer(weights, open, budget, a) == quota(weights, open, budget, a));
    assert(offer(weights, open, budget, a) <= offer(weights, open, budget, b));
    if picked_count(closing, len) > 0 {
        let open2 = still_open(open, closing);
        let given2 = capped(given, caps, closing);
        let left = minus(budget, picked_sum(caps, closing, len));
        lemma_round_closes(weights, caps, open, budget);
        lemma_settle(weights, caps, open2, given2, left);
        assert(shares == settle(weights, caps, open2, given2, left));
        if closing[a] {
            assert(closing[b]);
            assert(!open2[a] && !open2[b]);
        } else if closing[b] {
            assert(!open2[b] && open2[a]);
        } else {
            assert(open2[a] && open2[b]);
            lemma_settle_ordered(weights, caps, open2, given2, left, a, b);
        }
    } else {
        assert(shares == accepted(weights, open, given, budget));
    }
}

/// Of two places with the same cap, the one of smaller weight gets no more
/// of the budget than the other.
pub proof fn lemma_allot_ordered(weights: Seq<nat>, caps: Seq<nat>, budget: nat, a: int, b: int)
    requires
        weights.len() == caps.len(),
        budget <= total(caps),
        0 <= a < weights.len(),
        0 <= b < weights.len(),
        weights[a] < weights[b],
        caps[a] == caps[b],
    ensures
        allot(weights, caps, budget)[a] <= allot(weights, caps, budget)[b],
{
    let open = Seq::new(weights.len(), |i: int| true);
    let given = Seq::new(weights.len(), |i: int| 0nat);
    lemma_picked_is_sum(caps, open, weights.len() as int);
    lemma_settle_ordered(weights, caps, open, given, budget, a, b);
}

/// Rounding down keeps a quotient under a bound that the exact quotient is
/// under: where twice the part is less than the whole, twice the quota is
/// less than the budget.
proof fn lemma_minor_part(part: nat, whole: nat, budget: nat)
    by (nonlinear_arith)
    requires
        2 * part < whole,
        budget > 0,
    ensures
        2 * ((part * budget) / whole) < budget,
{
    let q = (part * budget) / whole;
    assert(q * whole <= part * budget);
    assert(2 * part * budget < whole * budget);
}

/// Half of an even budget is the quota of one of two equal stakes.
proof fn lemma_half_part(part: nat, budget: nat)
    by (nonlinear_arith)
    requires
        part > 0,
        budget % 2 == 0,
    ensures
        (part * budget) / (part + part) == budget / 2,
{
    let half = budget / 2;
    assert(part * budget == half * (part + part));
    assert((half * (part + part)) / (part + part) == half);
}

/// Of two places with the same cap, the one of smaller weight gets less than
/// half of the budget and the other the rest, provided that the cap is more
/// than half of the budget.
pub proof fn lemma_pair_ordered(weights: Seq<nat>, caps: Seq<nat>, budget: nat, a: int, b: int)
    requires
        weights.len() == 2,
        caps.len() == 2,
        (a == 0 && b == 1) || (a == 1 && b == 0),
        weights[a] < weights[b],
        caps[a] == caps[b],
        0 < budget < 2 * caps[a],
    ensures
        allot(weights, caps, budget).len() == 2,
        allot(weights, caps, budget)[a] + allot(weights, caps, budget)[b] == budget,
        2 * allot(weights, caps, budget)[a] < budget,
        allot(weights, caps, budget)[b] <= caps[b],
{
    let open = Seq::new(2, |i: int| true);
    let given = Seq::new(2, |i: int| 0nat);
    let shares = allot(weights, caps, budget);
    assert(sum_to(caps, 2) == caps[0] + caps[1]) by {
        reveal_with_fuel(sum_to, 3);
    }
    lemma_allot(weights, caps, budget);
    assert(sum_to(shares, 2) == shares[0] + shares[1]) by {
        reveal_with_fuel(sum_to, 3);
    }
    assert(picked_sum(weights, open, 2) == weights[0] + weights[1]) by {
        reveal_with_fuel(picked_sum, 3);
    }
    assert(picked_count(open, 2) == 2) by {
        reveal_with_fuel(picked_count, 3);
    }
    assert(lead(weights, open, 2) == b) by {
        reveal_with_fuel(lead, 3);
    }
    let whole = stakes(weights, open);
    let qs = quotas(weights, open, budget);
    assert(sum_to(qs, 2) == qs[0] + qs[1]) by {
        reveal_with_fuel(sum_to, 3);
    }
    lemma_minor_part(weights[a], whole, budget);
    lemma_quotas_within(weights, open, budget);
    assert(qs[a] == quota(weights, open, budget, a));
    assert(qs[b] == quota(weights, open, budget, b));
    assert(offer(weights, open, budget, a) == qs[a]);
    assert(offer(weights, open, budget, b) == budget - qs[a]);
    let closing = overs(weights, caps, open, budget);
    assert(!closing[a]);
    assert(picked_count(closing, 2) == (if closing[b] { 1nat } else { 0nat })) by {
        reveal_with_fuel(picked_count, 3);
    }
    if closing[b] {
        let open2 = still_open(open, closing);
        let given2 = capped(given, caps, closing);
        let left = minus(budget, picked_sum(caps, closing, 2));
        lemma_picked_is_sum(caps, open, 2);
        lemma_round_closes(weights, caps, open, budget);
        lemma_settle(weights, caps, open2, given2, left);
        assert(shares == settle(weights, caps, open2, given2, left));
        assert(!open2[b]);
        assert(shares[b] == caps[b]);
    } else {
        assert(shares == accepted(weights, open, given, budget));
        assert(shares[a] == qs[a]);
    }
}

/// Two places of the same weight and cap each get half of an even budget
/// that their caps have room for.
pub proof fn lemma_pair_even(weights: Seq<nat>, caps: Seq<nat>, budget: nat)
    requires
        weights.len() == 2,
        caps.len() == 2,
        weights[0] == weights[1],
        caps[0] == caps[1],
        budget <= 2 * caps[0],
        budget % 2 == 0,
    ensures
        allot(weights, caps, budget).len() == 2,
        allot(weights, caps, budget)[0] == budget / 2,
        allot(weights, caps, budget)[1] == budget / 2,
{
    let open = Seq::new(2, |i: int| true);
    let given = Seq::new(2, |i: int| 0nat);
    let shares = allot(weights, caps, budget);
    assert(picked_sum(weights, open, 2) == weights[0] + weights[1]) by {
        reveal_with_fuel(picked_sum, 3);
    }
    assert(picked_count(open, 2) == 2) by {
        reveal_with_fuel(picked_count, 3);
    }
    assert(lead(weights, open, 2) == 0) by {
        reveal_with_fuel(lead, 3);
    }
    let qs = quotas(weights, open, budget);
    assert(sum_to(qs, 2) == qs[0] + qs[1]) by {
        reveal_with_fuel(sum_to, 3);
    }
    let part = stake(weights, open, 0);
    assert(part == stake(weights, open, 1));
    assert(stakes(weights, open) == part + part);
    lemma_half_part(part, budget);
    assert(qs[0] == quota(weights, open, budget, 0));
    assert(qs[1] == quota(weights, open, budget, 1));
    assert(offer(weights, open, budget, 0) == budget / 2);
    assert(offer(weights, open, budget, 1) == budget / 2);
    let closing = overs(weights, caps, open, budget);
    assert(!closing[0] && !closing[1]);
    assert(picked_count(closing, 2) == 0) by {
        reveal_with_fuel(picked_count, 3);
    }
    assert(shares == accepted(weights, open, given, budget));
}

/// With no place picked the count is zero.
proof fn lemma_count_none(pick: Seq<bool>, n: int)
    requires
        forall|i: int| 0 <= i < n ==> !pick[i],
    ensures
        picked_count(pick, n) == 0,
    decreases n,
{
    if n > 0 {
        lemma_count_none(pick, n - 1);
    }
}

/// Where every place is picked the count is the number of places.
pub proof fn lemma_count_all(pick: Seq<bool>, n: int)
    requires
        0 <= n,
        forall|i: int| 0 <= i < n ==> pick[i],
    ensures
        picked_count(pick, n) == n,
    decreases n,
{
    if n > 0 {
        lemma_count_all(pick, n - 1);
    }
}

/// Where no cap is below the budget, no place is closed: every place takes
/// what the first round offers it.
pub proof fn lemma_allot_free(weights: Seq<nat>, caps: Seq<nat>, budget: nat)
    requires
        weights.len() == caps.len(),
        forall|i: int| 0 <= i < caps.len() ==> caps[i] >= budget,
    ensures
        allot(weights, caps, budget) == offers(
            weights,
            Seq::new(weights.len(), |i: int| true),
            budget,
        ),
{
    let n = weights.len() as int;
    let open = Seq::new(weights.len(), |i: int| true);
    let given = Seq::new(weights.len(), |i: int| 0nat);
    let closing = overs(weights, caps, open, budget);
    if n > 0 {
        lemma_count_all(open, n);
        lemma_offers(weights, open, budget);
    }
    assert forall|i: int| 0 <= i < n implies !closing[i] by {
        assert(offer(weights, open, budget, i) <= budget);
    }
    lemma_count_none(closing, n);
    assert(accepted(weights, open, given, budget) =~= offers(weights, open, budget));
}

/// Rounding down loses less than one unit at each open place: the quotas
/// and the number of open places together come to more than the budget.
proof fn lemma_quotas_nearly_scaled(weights: Seq<nat>, open: Seq<bool>, budget: nat, n: int)
    requires
        weights.len() == open.len(),
        0 <= n <= open.len(),
    ensures
        (picked_sum(quotas(weights, open, budget), open, n) + picked_count(open, n)) * stakes(
            weights,
            open,
        ) >= budget * picked_sum(stake_list(weights, open), open, n) + picked_count(open, n),
    decreases n,
{
    let whole = stakes(weights, open);
    if n > 0 {
        lemma_quotas_nearly_scaled(weights, open, budget, n - 1);
        let before = picked_sum(quotas(weights, open, budget), open, n - 1);
        let counted = picked_count(open, n - 1);
        let staked = picked_sum(stake_list(weights, open), open, n - 1);
        if open[n - 1] {
            lemma_stakes(weights, open);
            let part = stake(weights, open, n - 1);
            let q = quota(weights, open, budget, n - 1);
            assert((q + 1) * whole >= part * budget + 1) by (nonlinear_arith)
                requires
                    q == (part * budget) / whole,
                    whole > 0,
            ;
            assert((before + q + counted + 1) * whole >= budget * (staked + part) + counted + 1)
                by (nonlinear_arith)
                requires
                    (before + counted) * whole >= budget * staked + counted,
                    (q + 1) * whole >= part * budget + 1,
            ;
        }
    } else {
        assert((0 + 0) * whole >= budget * 0 + 0) by (nonlinear_arith);
    }
}

/// What rounding down leaves over is less than the number of open places.
pub proof fn lemma_quotas_nearly(weights: Seq<nat>, open: Seq<bool>, budget: nat)
    requires
        weights.len() == open.len(),
        picked_count(open, open.len() as int) > 0,
    ensures
        total(quotas(weights, open, budget)) + picked_count(open, open.len() as int) > budget,
{
    let n = open.len() as int;
    let list = quotas(weights, open, budget);
    let whole = stakes(weights, open);
    let count = picked_count(open, n);
    lemma_picked_is_sum(list, open, n);
    lemma_stakes(weights, open);
    lemma_quotas_nearly_scaled(weights, open, budget, n);
    let all = picked_sum(list, open, n);
    assert(all + count > budget) by (nonlinear_arith)
        requires
            (all + count) * whole >= budget * whole + count,
            whole > 0,
            count > 0,
    ;
}

/// The sum of values multiplied by a factor is the factor times their sum.
pub proof fn lemma_sum_to_scaled(values: Seq<nat>, scaled: Seq<nat>, factor: nat, n: int)
    requires
        0 <= n <= values.len(),
        n <= scaled.len(),
        forall|i: int| 0 <= i < n ==> scaled[i] == factor * values[i],
    ensures
        sum_to(scaled, n) == factor * sum_to(values, n),
    decreases n,
{
    if n > 0 {
        lemma_sum_to_scaled(values, scaled, factor, n - 1);
        assert(factor * (sum_to(values, n - 1) + values[n - 1]) == factor * sum_to(values, n - 1)
            + factor * values[n - 1]) by (nonlinear_arith);
    } else {
        assert(factor * 0 == 0) by (nonlinear_arith);
    }
}

/// A quotient of two products with a common factor.
proof fn lemma_exact_part(factor: nat, share: nat, budget: nat)
    by (nonlinear_arith)
    requires
        factor > 0,
        budget > 0,
    ensures
        ((factor * share) * budget) / (factor * budget) == share,
{
    assert((factor * share) * budget == share * (factor * budget));
    assert(factor * budget > 0);
    assert((share * (factor * budget)) / (factor * budget) == share);
}

/// Where the weights are shares of the budget, all multiplied by one
/// factor, and no share is above its cap, each place gets its share exactly.
pub proof fn lemma_allot_exact(
    weights: Seq<nat>,
    caps: Seq<nat>,
    budget: nat,
    factor: nat,
    shares: Seq<nat>,
)
    requires
        weights.len() == caps.len(),
        shares.len() == caps.len(),
        factor > 0,
        budget > 0,
        total(shares) == budget,
        forall|i: int| 0 <= i < shares.len() ==> weights[i] == factor * shares[i],
        forall|i: int| 0 <= i < shares.len() ==> shares[i] <= caps[i],
    ensures
        allot(weights, caps, budget) == shares,
{
    let n = weights.len() as int;
    let open = Seq::new(weights.len(), |i: int| true);
    let given = Seq::new(weights.len(), |i: int| 0nat);
    lemma_sum_to_scaled(shares, weights, factor, n);
    lemma_picked_is_sum(weights, open, n);
    assert(factor * budget > 0) by (nonlinear_arith)
        requires
            factor > 0,
            budget > 0,
    ;
    let qs = quotas(weights, open, budget);
    assert forall|i: int| 0 <= i < n implies qs[i] == shares[i] by {
        lemma_exact_part(factor, shares[i], budget);
    }
    assert(qs =~= shares);
    assert(n > 0);
    lemma_count_all(open, n);
    lemma_lead(weights, open, n);
    let m = lead(weights, open, n);
    lemma_sum_to_grows(qs, m + 1, n);
    assert(sum_to(qs, m + 1) == sum_to(qs, m) + qs[m]);
    let os = offers(weights, open, budget);
    assert forall|i: int| 0 <= i < n implies os[i] == shares[i] by {
    }
    let closing = overs(weights, caps, open, budget);
    assert forall|i: int| 0 <= i < n implies !closing[i] by {
        assert(os[i] == offer(weights, open, budget, i));
    }
    lemma_count_none(closing, n);
    assert(accepted(weights, open, given, budget) =~= shares);
}

/// The values as natural numbers.
pub open spec fn widen64(values: Seq<u64>) -> Seq<nat> {
    Seq::new(values.len(), |i: int| values[i] as nat)
}

/// The values as natural numbers.
pub open spec fn widen128(values: Seq<u128>) -> Seq<nat> {
    Seq::new(values.len(), |i: int| values[i] as nat)
}

/// Counts the open places, sums their weights and finds the leading one.
fn survey(weights: &Vec<u128>, open: &Vec<bool>) -> (found: (usize, u128, usize))
    requires
        weights.len() == open.len(),
        total(widen128(weights@)) <= u128::MAX,
    ensures
        found.0 == picked_count(open@, open.len() as int),
        found.1 == picked_sum(widen128(weights@), open@, open.len() as int),
        found.0 > 0 ==> found.2 == lead(widen128(weights@), open@, open.len() as int),
{
    let n: usize = open.len();
    let ghost wide = widen128(weights@);
    let mut count: usize = 0;
    let mut sum: u128 = 0;
    let mut first: usize = 0;
    let mut i: usize = 0;
    while i < n
        invariant
            n == open.len(),
            n == weights.len(),
            wide == widen128(weights@),
            total(wide) <= u128::MAX,
            i <= n,
            count <= i,
            count == picked_count(open@, i as int),
            sum == picked_sum(wide, open@, i as int),
            count > 0 ==> first == lead(wide, open@, i as int),
            count == 0 ==> lead(wide, open@, i as int) == -1,
        decreases n - i,
    {
        proof {
            lemma_picked_within_sum(wide, open@, i + 1);
            lemma_sum_to_grows(wide, i + 1, n as int);
            lemma_lead(wide, open@, i as int);
        }
        if open[i] {
            if count == 0 || weights[i] > weights[first] {
                first = i;
            }
            count = count + 1;
            sum = sum + weights[i];
        }
        i = i + 1;
    }
    (count, sum, first)
}

/// The quota of every place, and their sum.
fn quotas_of(weights: &Vec<u128>, open: &Vec<bool>, budget: u64, count: usize, sum: u128) -> (found:
    (Vec<u64>, u64))
    requires
        weights.len() == open.len(),
        forall|i: int| 0 <= i < weights.len() ==> weights@[i] * budget <= u128::MAX,
        count == picked_count(open@, open.len() as int),
        sum == picked_sum(widen128(weights@), open@, open.len() as int),
    ensures
        widen64(found.0@) == quotas(widen128(weights@), open@, budget as nat),
        found.1 == total(quotas(widen128(weights@), open@, budget as nat)),
{
    let n: usize = open.len();
    let ghost wide = widen128(weights@);
    let ghost list = quotas(wide, open@, budget as nat);
    let whole: u128 = if sum == 0 {
        count as u128
    } else {
        sum
    };
    let mut found: Vec<u64> = Vec::new();
    let mut all: u64 = 0;
    let mut i: usize = 0;
    proof {
        lemma_quotas_within(wide, open@, budget as nat);
        lemma_stakes(wide, open@);
    }
    while i < n
        invariant
            n == open.len(),
            n == weights.len(),
            wide == widen128(weights@),
            list == quotas(wide, open@, budget as nat),
            forall|j: int| 0 <= j < weights.len() ==> weights@[j] * budget <= u128::MAX,
            sum == picked_sum(wide, open@, n as int),
            count == picked_count(open@, n as int),
            whole == stakes(wide, open@),
            forall|j: int|
                0 <= j < n && #[trigger] open@[j] ==> stake(wide, open@, j) <= stakes(
                    wide,
                    open@,
                ) && stakes(wide, open@) > 0,
            total(list) <= budget,
            i <= n,
            found.len() == i,
            forall|j: int| 0 <= j < i ==> found@[j] == list[j],
            all == sum_to(list, i as int),
        decreases n - i,
    {
        proof {
            lemma_sum_to_grows(list, i + 1, n as int);
            lemma_quota_within(wide, open@, budget as nat, i as int);
        }
        let mut part: u64 = 0;
        if open[i] {
            let staked: u128 = if sum == 0 {
                1
            } else {
                weights[i]
            };
            assert(staked * budget <= u128::MAX) by {
                assert(weights@[i as int] * budget <= u128::MAX);
                assert(1 * budget <= u128::MAX);
            }
            part = ((staked * (budget as u128)) / whole) as u64;
        }
        assert(part == list[i as int]);
        found.push(part);
        all = all + part;
        i = i + 1;
    }
    assert(widen64(found@) =~= list);
    (found, all)
}

/// What one round of sharing left.
struct Round {
    /// Whether the round closed a place.
    closed: bool,
    /// The places that are open after the round.
    open: Vec<bool>,
    /// The shares after the round: where it closed no place the final
    /// shares, else what the closed places hold.
    given: Vec<u64>,
    /// What is left to share among the open places.
    budget: u64,
}

/// Offers every open place its part of the budget and closes, at their caps,
/// the places that were offered more; or, where no place was, lets every
/// open place take its offer.
fn round(
    weights: &Vec<u128>,
    caps: &Vec<u64>,
    open: &Vec<bool>,
    given: &Vec<u64>,
    budget: u64,
) -> (after: Round)
    requires
        weights.len() == open.len(),
        caps.len() == open.len(),
        given.len() == open.len(),
        total(widen128(weights@)) <= u128::MAX,
        forall|i: int| 0 <= i < weights.len() ==> weights@[i] * budget <= u128::MAX,
        feasible(widen64(caps@), open@, budget as nat),
    ensures
        after.closed == (picked_count(
            overs(widen128(weights@), widen64(caps@), open@, budget as nat),
            open.len() as int,
        ) > 0),
        after.closed ==> {
            let closing = overs(widen128(weights@), widen64(caps@), open@, budget as nat);
            &&& after.open@ == still_open(open@, closing)
            &&& widen64(after.given@) == capped(widen64(given@), widen64(caps@), closing)
            &&& after.budget == minus(
                budget as nat,
                picked_sum(widen64(caps@), closing, open.len() as int),
            )
        },
        !after.closed ==> widen64(after.given@) == accepted(
            widen128(weights@),
            open@,
            widen64(given@),
            budget as nat,
        ),
{
    let n: usize = open.len();
    let ghost wide = widen128(weights@);
    let ghost roofs = widen64(caps@);
    let ghost had = widen64(given@);
    let ghost closing = overs(wide, roofs, open@, budget as nat);
    let (count, sum, first) = survey(weights, open);
    let (parts, parts_sum) = quotas_of(weights, open, budget, count, sum);
    let ghost list = quotas(wide, open@, budget as nat);
    proof {
        lemma_lead(wide, open@, n as int);
        lemma_quotas_within(wide, open@, budget as nat);
        if count > 0 {
            lemma_offers(wide, open@, budget as nat);
        }
        assert(widen64(parts@)[first as int] == list[first as int] || count == 0);
        if count > 0 {
            lemma_sum_to_grows(list, first + 1, n as int);
        } else {
            lemma_none_picked(wide, open@, n as int);
        }
    }
    let mut closed: usize = 0;
    let mut taken: u64 = 0;
    let mut open_after: Vec<bool> = Vec::new();
    let mut capped_after: Vec<u64> = Vec::new();
    let mut accepted_after: Vec<u64> = Vec::new();
    let mut i: usize = 0;
    while i < n
        invariant
            n == open.len(),
            n == weights.len(),
            n == caps.len(),
            n == given.len(),
            n == parts.len(),
            wide == widen128(weights@),
            roofs == widen64(caps@),
            had == widen64(given@),
            closing == overs(wide, roofs, open@, budget as nat),
            list == quotas(wide, open@, budget as nat),
            widen64(parts@) == list,
            parts_sum == total(list),
            parts_sum <= budget,
            count == picked_count(open@, n as int),
            count > 0 ==> first == lead(wide, open@, n as int) && first < n && parts@[first as int]
                <= parts_sum,
            count == 0 ==> forall|j: int| 0 <= j < n ==> !open@[j],
            feasible(roofs, open@, budget as nat),
            i <= n,
            closed <= i,
            closed == picked_count(closing, i as int),
            taken == picked_sum(roofs, closing, i as int),
            taken <= budget,
            open_after.len() == i,
            capped_after.len() == i,
            accepted_after.len() == i,
            forall|j: int| 0 <= j < i ==> #[trigger] open_after@[j] == (open@[j] && !closing[j]),
            forall|j: int|
                0 <= j < i ==> #[trigger] capped_after@[j] == (if closing[j] {
                    roofs[j]
                } else {
                    had[j]
                }),
            forall|j: int|
                0 <= j < i ==> #[trigger] accepted_after@[j] == (if open@[j] {
                    offer(wide, open@, budget as nat, j)
                } else {
                    had[j]
                }),
        decreases n - i,
    {
        assert(widen64(parts@)[i as int] == parts@[i as int]);
        let mut offered: u64 = 0;
        if open[i] {
            if i == first {
                offered = budget - (parts_sum - parts[i]);
            } else {
                offered = parts[i];
            }
        }
        assert(offered == offer(wide, open@, budget as nat, i as int));
        let exceeds: bool = open[i] && offered > caps[i];
        assert(exceeds == closing[i as int]);
        proof {
            if exceeds {
                lemma_picked_member(roofs, closing, i + 1, i as int);
                lemma_picked_member(roofs, closing, n as int, i as int);
                lemma_round_closes(wide, roofs, open@, budget as nat);
                assert(picked_sum(roofs, closing, i + 1) <= budget);
            }
        }
        if exceeds {
            closed = closed + 1;
            taken = taken + caps[i];
            open_after.push(false);
            capped_after.push(caps[i]);
        } else {
            open_after.push(open[i]);
            capped_after.push(given[i]);
        }
        if open[i] {
            accepted_after.push(offered);
        } else {
            accepted_after.push(given[i]);
        }
        i = i + 1;
    }
    if closed > 0 {
        assert(open_after@ =~= still_open(open@, closing));
        assert(widen64(capped_after@) =~= capped(had, roofs, closing));
        Round { closed: true, open: open_after, given: capped_after, budget: budget - taken }
    } else {
        assert(widen64(accepted_after@) =~= accepted(wide, open@, had, budget as nat));
        Round { closed: false, open: open_after, given: accepted_after, budget }
    }
}

/// Shares `budget` among places with the given weights, none above its cap.
///
/// The caps must have room for the budget, and the weights must be small
/// enough for the products with the budget to be computed.
pub(crate) fn allocate(weights: &Vec<u128>, caps: &Vec<u64>, budget: u64) -> (shares: Vec<u64>)
    requires
        weights.len() == caps.len(),
        total(widen128(weights@)) <= u128::MAX,
        forall|i: int| 0 <= i < weights.len() ==> weights@[i] * budget <= u128::MAX,
        budget <= total(widen64(caps@)),
    ensures
        widen64(shares@) == allot(widen128(weights@), widen64(caps@), budget as nat),
{
    let n: usize = weights.len();
    let ghost wide = widen128(weights@);
    let ghost roofs = widen64(caps@);
    let mut open: Vec<bool> = Vec::new();
    let mut given: Vec<u64> = Vec::new();
    let mut i: usize = 0;
    while i < n
        invariant
            i <= n,
            open.len() == i,
            given.len() == i,
            forall|j: int| 0 <= j < i ==> open@[j],
            forall|j: int| 0 <= j < i ==> given@[j] == 0,
        decreases n - i,
    {
        open.push(true);
        given.push(0);
        i = i + 1;
    }
    let mut left: u64 = budget;
    proof {
        assert(open@ =~= Seq::new(wide.len(), |i: int| true));
        assert(widen64(given@) =~= Seq::new(wide.len(), |i: int| 0nat));
        lemma_picked_is_sum(roofs, open@, n as int);
    }
    loop
        invariant
            n == weights.len(),
            n == caps.len(),
            n == open.len(),
            n == given.len(),
            wide == widen128(weights@),
            roofs == widen64(caps@),
            total(wide) <= u128::MAX,
            forall|i: int| 0 <= i < weights.len() ==> weights@[i] * budget <= u128::MAX,
            left <= budget,
            feasible(roofs, open@, left as nat),
            settle(wide, roofs, open@, widen64(given@), left as nat) == allot(
                wide,
                roofs,
                budget as nat,
            ),
        decreases picked_count(open@, n as int),
    {
        assert forall|i: int| 0 <= i < weights.len() implies weights@[i] * left <= u128::MAX by {
            assert(weights@[i] * left <= weights@[i] * budget) by (nonlinear_arith)
                requires
                    left <= budget,
            ;
        }
        let after = round(weights, caps, &open, &given, left);
        if !after.closed {
            return after.given;
        }
        proof {
            lemma_round_closes(wide, roofs, open@, left as nat);
            assert(widen64(after.given@).len() == n);
        }
        open = after.open;
        given = after.given;
        left = after.budget;
    }
}

} // verus!
