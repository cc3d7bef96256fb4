//! The planner: from the processes that share an output to their new shares.
//!
//! Every process has a cost, which grows with what it consumes of scarce
//! resources and of its feedstock, and with its footprint in the dimension
//! that the priority names. Cost turns into fitness, fitness into a target
//! share, and the new share lies between the current share and the target,
//! as far towards the target as the speed says. Limits are kept, and the new
//! shares of a group always come to [`ONE`].

use vstd::prelude::*;
use crate::kinds::{FeedstockMap, ResourceMap};
use crate::production::apportion::{
    allocate, allot, lemma_allot, lemma_allot_exact, lemma_allot_free, lemma_allot_ordered,
    lemma_count_all, lemma_lead, lemma_offers, lemma_pair_even, lemma_pair_ordered,
    lemma_picked_is_sum, lemma_quotas_nearly, lemma_sum_to_bounded, lemma_sum_to_grows, offer,
    quota, quotas, stakes, sum_to, total, widen128, widen64,
};
use crate::production::processes::{Process, ProcessStatus};
use crate::units::ONE;

verus! {

/// The dimension that weighs most in a planning pass.
#[derive(Debug, Copy, Clone, PartialEq, Eq, Structural)]
pub enum Priority {
    /// No dimension beyond the scarcity of what is consumed.
    Scarcity,
    Land,
    Water,
    /// Electricity and fuel together.
    Energy,
    /// Greenhouse gases, as carbon dioxide of the same effect.
    Emissions,
}

/// Why the planner turned its input down.
#[derive(Debug, Copy, Clone, PartialEq, Eq, Structural)]
pub enum InvalidInput {
    /// The current shares and the processes differ in number.
    LengthMismatch,
    /// The speed is above [`ONE`].
    SpeedAboveOne,
    /// More than [`MAX_GROUP`] processes share an output.
    GroupTooLarge,
    /// A current share is above [`ONE`].
    ShareAboveOne,
    /// The limits of the processes of an output come to less than [`ONE`],
    /// so that no mix can both keep them and serve the whole demand.
    LimitsTooTight,
}

impl InvalidInput {
    /// What is wrong, in words.
    pub open spec fn spec_message(self) -> Seq<char> {
        match self {
            InvalidInput::LengthMismatch => "the shares and the processes differ in number"@,
            InvalidInput::SpeedAboveOne => "the speed is above one"@,
            InvalidInput::GroupTooLarge => "too many processes share an output"@,
            InvalidInput::ShareAboveOne => "a share is above one"@,
            InvalidInput::LimitsTooTight => "the limits of a group come to less than one"@,
        }
    }

    /// What is wrong, in words.
    pub fn message(&self) -> (text: &'static str)
        ensures
            text@ == self.spec_message(),
    {
        match self {
            InvalidInput::LengthMismatch => "the shares and the processes differ in number",
            InvalidInput::SpeedAboveOne => "the speed is above one",
            InvalidInput::GroupTooLarge => "too many processes share an output",
            InvalidInput::ShareAboveOne => "a share is above one",
            InvalidInput::LimitsTooTight => "the limits of a group come to less than one",
        }
    }
}

/// The cost that stands for 1: the product of two quantities of [`ONE`].
pub const COST_ONE: u128 = 1_000_000_000_000;

/// The numerator of fitness, so that a process without cost has a fitness of
/// `FITNESS_TOP / COST_ONE + 1`.
pub const FITNESS_TOP: u128 = 1_000_000_000_000_000_000_000_000;

/// The factor by which promotion multiplies fitness.
pub const PROMOTION: u128 = 2;

/// The greatest number of processes that may share an output.
pub const MAX_GROUP: usize = 1_000_000;

/// What a unit of output costs in scarce resources and feedstock: each
/// footprint multiplied by the weight of what it consumes.
pub open spec fn scarcity(
    process: Process,
    resource_weights: ResourceMap<u64>,
    feedstock_weights: FeedstockMap<u64>,
) -> nat {
    process.resources.spec_weighed(resource_weights)
        + (process.feedstock.1 as nat) * (feedstock_weights.at(process.feedstock.0) as nat)
}

/// The weight of the dimension that the priority names: [`ONE`] more than
/// all the weights of resources and feedstocks together.
pub open spec fn emphasis(
    resource_weights: ResourceMap<u64>,
    feedstock_weights: FeedstockMap<u64>,
) -> nat {
    (ONE as nat) + resource_weights.spec_total() + feedstock_weights.spec_total()
}

/// The footprint of a process in the dimension that the priority names.
pub open spec fn focus(process: Process, priority: Priority) -> nat {
    match priority {
        Priority::Scarcity => 0,
        Priority::Land => process.resources.land as nat,
        Priority::Water => process.resources.water as nat,
        Priority::Energy => {
            (process.resources.electricity as nat) + (process.resources.fuel as nat)
        },
        Priority::Emissions => process.byproducts.spec_co2eq(),
    }
}

/// The cost of a process, in units of [`COST_ONE`].
pub open spec fn cost(
    process: Process,
    resource_weights: ResourceMap<u64>,
    feedstock_weights: FeedstockMap<u64>,
    priority: Priority,
) -> nat {
    scarcity(process, resource_weights, feedstock_weights) + emphasis(
        resource_weights,
        feedstock_weights,
    ) * focus(process, priority)
}

/// The fitness that a cost leaves: `1 / (1 + cost)` on the scale of
/// [`FITNESS_TOP`], rounded down, and one unit more, so that no cost brings
/// it to zero.
pub open spec fn vigor(cost: nat) -> nat {
    (FITNESS_TOP as nat) / ((COST_ONE as nat) + cost) + 1
}

/// The fitness of a process: none when it is banned, that of its cost when
/// neutral, and [`PROMOTION`] times as much when promoted.
pub open spec fn fitness(
    process: Process,
    resource_weights: ResourceMap<u64>,
    feedstock_weights: FeedstockMap<u64>,
    priority: Priority,
) -> nat {
    match process.status {
        ProcessStatus::Banned => 0,
        ProcessStatus::Neutral => vigor(
            cost(process, resource_weights, feedstock_weights, priority),
        ),
        ProcessStatus::Promoted => (PROMOTION as nat) * vigor(
            cost(process, resource_weights, feedstock_weights, priority),
        ),
    }
}

/// The fitness of each process.
pub open spec fn fitnesses(
    processes: Seq<Process>,
    resource_weights: ResourceMap<u64>,
    feedstock_weights: FeedstockMap<u64>,
    priority: Priority,
) -> Seq<nat> {
    Seq::new(
        processes.len(),
        |i: int| fitness(processes[i], resource_weights, feedstock_weights, priority),
    )
}

/// What draws demand to place `i`: its fitness, or 1 where no process of the
/// group has any fitness, so that the target is then the even mix.
pub open spec fn pull(fitnesses: Seq<nat>, i: int) -> nat {
    if total(fitnesses) == 0 {
        1
    } else {
        fitnesses[i]
    }
}

/// The sum of the pulls of a group.
pub open spec fn pulls(fitnesses: Seq<nat>) -> nat {
    if total(fitnesses) == 0 {
        fitnesses.len()
    } else {
        total(fitnesses)
    }
}

/// The weight with which place `i` enters the apportionment. Divided by
/// `ONE * ONE * pulls`, it is `(1 - speed) * share + speed * pull / pulls`.
pub open spec fn weight(mix: Seq<u64>, fitnesses: Seq<nat>, speed: u64, i: int) -> nat {
    ((ONE - speed) as nat) * (mix[i] as nat) * pulls(fitnesses) + (speed as nat) * (ONE as nat)
        * pull(fitnesses, i)
}

/// The weight of each place.
pub open spec fn weights(mix: Seq<u64>, fitnesses: Seq<nat>, speed: u64) -> Seq<nat> {
    Seq::new(mix.len(), |i: int| weight(mix, fitnesses, speed, i))
}

/// The cap of each process.
pub open spec fn caps(processes: Seq<Process>) -> Seq<nat> {
    Seq::new(processes.len(), |i: int| processes[i].cap())
}

/// The processes that the references point to.
pub open spec fn plain(processes: Seq<&Process>) -> Seq<Process> {
    Seq::new(processes.len(), |i: int| *processes[i])
}

/// What is wrong with the input of the planner, if anything: the first of
/// the faults in the order of [`InvalidInput`].
pub open spec fn fault(mix: Seq<u64>, processes: Seq<Process>, speed: u64) -> Option<
    InvalidInput,
> {
    if mix.len() != processes.len() {
        Some(InvalidInput::LengthMismatch)
    } else if speed > ONE {
        Some(InvalidInput::SpeedAboveOne)
    } else if processes.len() > MAX_GROUP {
        Some(InvalidInput::GroupTooLarge)
    } else if exists|i: int| 0 <= i < mix.len() && mix[i] > ONE {
        Some(InvalidInput::ShareAboveOne)
    } else if processes.len() > 0 && total(caps(processes)) < ONE {
        Some(InvalidInput::LimitsTooTight)
    } else {
        None
    }
}

/// The new shares of a group: [`ONE`] apportioned by the weights of its
/// processes, none above its cap.
pub open spec fn planned_mix(
    mix: Seq<u64>,
    processes: Seq<Process>,
    resource_weights: ResourceMap<u64>,
    feedstock_weights: FeedstockMap<u64>,
    priority: Priority,
    speed: u64,
) -> Seq<nat> {
    allot(
        weights(
            mix,
            fitnesses(processes, resource_weights, feedstock_weights, priority),
            speed,
        ),
        caps(processes),
        ONE as nat,
    )
}

/// What holds of the new shares of a group without a fault: there is one
/// for each process, none is above the cap of its process, and, unless the
/// group is empty, together they are [`ONE`].
pub proof fn lemma_planned_mix(
    mix: Seq<u64>,
    processes: Seq<Process>,
    resource_weights: ResourceMap<u64>,
    feedstock_weights: FeedstockMap<u64>,
    priority: Priority,
    speed: u64,
)
    requires
        fault(mix, processes, speed) is None,
    ensures
        planned_mix(
            mix,
            processes,
            resource_weights,
            feedstock_weights,
            priority,
            speed,
        ).len() == processes.len(),
        forall|i: int|
            0 <= i < processes.len() ==> #[trigger] planned_mix(
                mix,
                processes,
                resource_weights,
                feedstock_weights,
                priority,
                speed,
            )[i] <= processes[i].cap() <= ONE,
        processes.len() > 0 ==> total(
            planned_mix(mix, processes, resource_weights, feedstock_weights, priority, speed),
        ) == ONE,
{
    let heavy = weights(
        mix,
        fitnesses(processes, resource_weights, feedstock_weights, priority),
        speed,
    );
    if processes.len() > 0 {
        lemma_allot(heavy, caps(processes), ONE as nat);
    } else {
        assert(planned_mix(
            mix,
            processes,
            resource_weights,
            feedstock_weights,
            priority,
            speed,
        ).len() == 0);
    }
}

/// The greatest fitness a process can have.
pub const FITNESS_MAX: u128 = 2_000_000_000_002;

/// Fitness falls, weakly, as cost rises. It is never zero, it is greatest
/// without cost, and it is one unit for any cost beyond [`FITNESS_TOP`].
pub proof fn lemma_vigor(low: nat, high: nat)
    requires
        low <= high,
    ensures
        1 <= vigor(high) <= vigor(low) <= vigor(0) == 1_000_000_000_001,
        high > FITNESS_TOP ==> vigor(high) == 1,
{
    let top = FITNESS_TOP as nat;
    let one = COST_ONE as nat;
    assert(top / (one + high) <= top / (one + low) <= top / one) by (nonlinear_arith)
        requires
            low <= high,
            one > 0,
    ;
    assert(top / (one + high) >= 0) by (nonlinear_arith)
        requires
            one > 0,
    ;
    assert(1_000_000_000_000_000_000_000_000nat / 1_000_000_000_000nat == 1_000_000_000_000nat)
        by (nonlinear_arith);
    if high > top {
        assert(top / (one + high) == 0) by (nonlinear_arith)
            requires
                high > top,
                one > 0,
        ;
    }
}

/// Whether two costs differ by enough for fitness, which is rounded, to tell
/// them apart.
pub open spec fn tells_apart(low: nat, high: nat) -> bool {
    low < high && (COST_ONE + low) * (COST_ONE + high) <= FITNESS_TOP * (high - low)
}

/// Costs that fitness can tell apart give different fitness: the lower
/// cost the greater.
pub proof fn lemma_vigor_strict(low: nat, high: nat)
    requires
        tells_apart(low, high),
    ensures
        vigor(low) > vigor(high),
{
    let top = FITNESS_TOP as int;
    let near = (COST_ONE + low) as int;
    let far = (COST_ONE + high) as int;
    let least = top / far;
    assert(least * far <= top) by (nonlinear_arith)
        requires
            least == top / far,
            far > 0,
            top >= 0,
    ;
    assert((least + 1) * near * far <= top * far) by (nonlinear_arith)
        requires
            least * far <= top,
            near * far <= top * (far - near),
            0 < near < far,
            least >= 0,
    {
        assert(least * far * near <= top * near);
        assert((least + 1) * near * far == least * far * near + near * far);
        assert(top * near + top * (far - near) == top * far);
    }
    assert((least + 1) * near <= top) by (nonlinear_arith)
        requires
            (least + 1) * near * far <= top * far,
            far > 0,
    ;
    assert(top / near >= least + 1) by (nonlinear_arith)
        requires
            (least + 1) * near <= top,
            near > 0,
    ;
}

/// Of two processes of the same status the one that costs no more is no
/// less fit, and fitter where fitness can tell the costs apart and the
/// processes are not banned.
pub proof fn lemma_fitness_ordered(
    cheap: Process,
    dear: Process,
    resource_weights: ResourceMap<u64>,
    feedstock_weights: FeedstockMap<u64>,
    priority: Priority,
)
    requires
        cheap.status == dear.status,
        cost(cheap, resource_weights, feedstock_weights, priority) <= cost(
            dear,
            resource_weights,
            feedstock_weights,
            priority,
        ),
    ensures
        fitness(cheap, resource_weights, feedstock_weights, priority) >= fitness(
            dear,
            resource_weights,
            feedstock_weights,
            priority,
        ),
        cheap.status != ProcessStatus::Banned && tells_apart(
            cost(cheap, resource_weights, feedstock_weights, priority),
            cost(dear, resource_weights, feedstock_weights, priority),
        ) ==> fitness(cheap, resource_weights, feedstock_weights, priority) > fitness(
            dear,
            resource_weights,
            feedstock_weights,
            priority,
        ),
{
    let low = cost(cheap, resource_weights, feedstock_weights, priority);
    let high = cost(dear, resource_weights, feedstock_weights, priority);
    lemma_vigor(low, high);
    if tells_apart(low, high) {
        lemma_vigor_strict(low, high);
    }
}

/// A process that is not banned has some fitness.
pub proof fn lemma_fitness_positive(
    process: Process,
    resource_weights: ResourceMap<u64>,
    feedstock_weights: FeedstockMap<u64>,
    priority: Priority,
)
    ensures
        process.status != ProcessStatus::Banned ==> fitness(
            process,
            resource_weights,
            feedstock_weights,
            priority,
        ) > 0,
        process.status == ProcessStatus::Banned ==> fitness(
            process,
            resource_weights,
            feedstock_weights,
            priority,
        ) == 0,
{
    let worth = cost(process, resource_weights, feedstock_weights, priority);
    lemma_vigor(worth, worth);
}

/// No value exceeds the sum that it is part of.
proof fn lemma_total_holds(values: Seq<nat>, i: int)
    requires
        0 <= i < values.len(),
    ensures
        values[i] <= total(values),
{
    lemma_sum_to_grows(values, i + 1, values.len() as int);
    lemma_sum_to_grows(values, 0, i);
}

/// Of two places with the same current share, the one of lesser fitness has
/// no greater a weight, and a smaller one where the fitness is smaller and
/// the speed is not zero.
pub proof fn lemma_weight_ordered(mix: Seq<u64>, fitnesses: Seq<nat>, speed: u64, a: int, b: int)
    requires
        mix.len() == fitnesses.len(),
        0 <= a < mix.len(),
        0 <= b < mix.len(),
        mix[a] == mix[b],
        fitnesses[a] <= fitnesses[b],
        speed <= ONE,
    ensures
        weight(mix, fitnesses, speed, a) <= weight(mix, fitnesses, speed, b),
        fitnesses[a] < fitnesses[b] && speed > 0 ==> weight(mix, fitnesses, speed, a) < weight(
            mix,
            fitnesses,
            speed,
            b,
        ),
        fitnesses[a] == fitnesses[b] || speed == 0 ==> weight(mix, fitnesses, speed, a) == weight(
            mix,
            fitnesses,
            speed,
            b,
        ),
{
    lemma_total_holds(fitnesses, b);
    let near = pull(fitnesses, a);
    let far = pull(fitnesses, b);
    let go = (speed as nat) * (ONE as nat);
    assert(go * near <= go * far) by (nonlinear_arith)
        requires
            near <= far,
    ;
    if fitnesses[a] < fitnesses[b] && speed > 0 {
        assert(go * near < go * far) by (nonlinear_arith)
            requires
                near < far,
                go == (speed as nat) * (ONE as nat),
                speed > 0,
                ONE == 1_000_000,
        ;
    }
    if speed == 0 {
        assert(go * near == 0 && go * far == 0) by (nonlinear_arith)
            requires
                go == (speed as nat) * (ONE as nat),
                speed == 0,
        ;
    }
}

/// Of two processes of a group with the same current share and the same
/// cap, the one of lesser fitness is planned no greater a share, whatever
/// the size of the group, provided the speed is not zero.
pub proof fn lemma_plan_ordered(
    mix: Seq<u64>,
    processes: Seq<Process>,
    resource_weights: ResourceMap<u64>,
    feedstock_weights: FeedstockMap<u64>,
    priority: Priority,
    speed: u64,
    a: int,
    b: int,
)
    requires
        fault(mix, processes, speed) is None,
        0 <= a < processes.len(),
        0 <= b < processes.len(),
        mix[a] == mix[b],
        processes[a].cap() == processes[b].cap(),
        fitness(processes[a], resource_weights, feedstock_weights, priority) < fitness(
            processes[b],
            resource_weights,
            feedstock_weights,
            priority,
        ),
        speed > 0,
    ensures
        planned_mix(mix, processes, resource_weights, feedstock_weights, priority, speed)[a]
            <= planned_mix(mix, processes, resource_weights, feedstock_weights, priority, speed)[b],
{
    let fits = fitnesses(processes, resource_weights, feedstock_weights, priority);
    let heavy = weights(mix, fits, speed);
    lemma_weight_ordered(mix, fits, speed, a, b);
    lemma_allot_ordered(heavy, caps(processes), ONE as nat, a, b);
}

/// The plan of a group of two processes with the same current share and the
/// same cap: the one of lesser fitness is planned no more than the other,
/// and less than half where its fitness is smaller, the speed is not zero
/// and the cap is above one half.
pub proof fn lemma_plan_pair(
    mix: Seq<u64>,
    processes: Seq<Process>,
    resource_weights: ResourceMap<u64>,
    feedstock_weights: FeedstockMap<u64>,
    priority: Priority,
    speed: u64,
    a: int,
    b: int,
)
    requires
        fault(mix, processes, speed) is None,
        processes.len() == 2,
        (a == 0 && b == 1) || (a == 1 && b == 0),
        mix[a] == mix[b],
        processes[a].cap() == processes[b].cap(),
        fitness(processes[a], resource_weights, feedstock_weights, priority) <= fitness(
            processes[b],
            resource_weights,
            feedstock_weights,
            priority,
        ),
    ensures
        planned_mix(mix, processes, resource_weights, feedstock_weights, priority, speed)[a]
            + planned_mix(mix, processes, resource_weights, feedstock_weights, priority, speed)[b]
            == ONE,
        planned_mix(mix, processes, resource_weights, feedstock_weights, priority, speed)[a]
            <= planned_mix(mix, processes, resource_weights, feedstock_weights, priority, speed)[b],
        fitness(processes[a], resource_weights, feedstock_weights, priority) < fitness(
            processes[b],
            resource_weights,
            feedstock_weights,
            priority,
        ) && speed > 0 && 2 * processes[a].cap() > ONE ==> 2 * planned_mix(
            mix,
            processes,
            resource_weights,
            feedstock_weights,
            priority,
            speed,
        )[a] < ONE,
{
    let fits = fitnesses(processes, resource_weights, feedstock_weights, priority);
    let heavy = weights(mix, fits, speed);
    let roofs = caps(processes);
    let shares = planned_mix(
        mix,
        processes,
        resource_weights,
        feedstock_weights,
        priority,
        speed,
    );
    lemma_weight_ordered(mix, fits, speed, a, b);
    lemma_allot(heavy, roofs, ONE as nat);
    assert(sum_to(roofs, 2) == roofs[0] + roofs[1]) by {
        reveal_with_fuel(sum_to, 3);
    }
    assert(sum_to(shares, 2) == shares[0] + shares[1]) by {
        reveal_with_fuel(sum_to, 3);
    }
    if heavy[a] == heavy[b] {
        lemma_pair_even(heavy, roofs, ONE as nat);
    } else if 2 * roofs[a] > ONE {
        lemma_pair_ordered(heavy, roofs, ONE as nat, a, b);
    }
}

/// The pull of each place.
pub open spec fn pull_list(fitnesses: Seq<nat>) -> Seq<nat> {
    Seq::new(fitnesses.len(), |i: int| pull(fitnesses, i))
}

/// The pulls of a group sum to `pulls`, which is zero only for the empty
/// group, and no pull exceeds it.
pub proof fn lemma_pulls(fitnesses: Seq<nat>)
    ensures
        total(pull_list(fitnesses)) == pulls(fitnesses),
        fitnesses.len() > 0 ==> pulls(fitnesses) > 0,
        forall|i: int| 0 <= i < fitnesses.len() ==> pull(fitnesses, i) <= pulls(fitnesses),
{
    let n = fitnesses.len() as int;
    let list = pull_list(fitnesses);
    if total(fitnesses) == 0 {
        lemma_ones(list, n);
    } else {
        assert(list =~= fitnesses);
    }
    assert forall|i: int| 0 <= i < fitnesses.len() implies pull(fitnesses, i) <= pulls(
        fitnesses,
    ) by {
        lemma_total_holds(fitnesses, i);
    }
}

/// Ones sum to their number.
proof fn lemma_ones(ones: Seq<nat>, n: int)
    requires
        0 <= n <= ones.len(),
        forall|i: int| 0 <= i < n ==> ones[i] == 1,
    ensures
        sum_to(ones, n) == n,
    decreases n,
{
    if n > 0 {
        lemma_ones(ones, n - 1);
    }
}

/// The weights of the first `n` places sum to what the current shares and
/// the pulls of those places come to, each with its part of the speed.
proof fn lemma_weights_sum(mix: Seq<u64>, fitnesses: Seq<nat>, speed: u64, n: int)
    requires
        mix.len() == fitnesses.len(),
        0 <= n <= mix.len(),
        speed <= ONE,
    ensures
        sum_to(weights(mix, fitnesses, speed), n) == ((ONE - speed) as nat) * pulls(fitnesses)
            * sum_to(widen64(mix), n) + (speed as nat) * (ONE as nat) * sum_to(
            pull_list(fitnesses),
            n,
        ),
    decreases n,
{
    let stay = (ONE - speed) as nat;
    let go = (speed as nat) * (ONE as nat);
    let whole = pulls(fitnesses);
    if n > 0 {
        lemma_weights_sum(mix, fitnesses, speed, n - 1);
        let shares = sum_to(widen64(mix), n - 1);
        let drawn = sum_to(pull_list(fitnesses), n - 1);
        let share = mix[n - 1] as nat;
        let part = pull(fitnesses, n - 1);
        assert(stay * whole * (shares + share) + go * (drawn + part) == (stay * whole * shares + go
            * drawn) + (stay * share * whole + go * part)) by (nonlinear_arith);
    } else {
        assert(stay * whole * 0 + go * 0 == 0) by (nonlinear_arith);
    }
}

/// The weights of a group whose current shares come to [`ONE`] sum to
/// `ONE * ONE * pulls`.
pub proof fn lemma_weights_total(mix: Seq<u64>, fitnesses: Seq<nat>, speed: u64)
    requires
        mix.len() == fitnesses.len(),
        speed <= ONE,
        total(widen64(mix)) == ONE,
    ensures
        total(weights(mix, fitnesses, speed)) == (ONE as nat) * (ONE as nat) * pulls(fitnesses),
{
    let n = mix.len() as int;
    let whole = pulls(fitnesses);
    lemma_weights_sum(mix, fitnesses, speed, n);
    lemma_pulls(fitnesses);
    let stay = (ONE - speed) as nat;
    let go = (speed as nat) * (ONE as nat);
    assert(stay * whole * (ONE as nat) + go * whole == (ONE as nat) * (ONE as nat) * whole)
        by (nonlinear_arith)
        requires
            stay == (ONE - speed) as nat,
            go == (speed as nat) * (ONE as nat),
            speed <= ONE,
    ;
}

/// At a speed of zero a group whose current shares come to [`ONE`], none
/// above the cap of its process, is planned the shares that it has.
pub proof fn lemma_plan_at_rest(
    mix: Seq<u64>,
    processes: Seq<Process>,
    resource_weights: ResourceMap<u64>,
    feedstock_weights: FeedstockMap<u64>,
    priority: Priority,
)
    requires
        fault(mix, processes, 0) is None,
        total(widen64(mix)) == ONE,
        forall|i: int| 0 <= i < mix.len() ==> mix[i] <= processes[i].cap(),
    ensures
        planned_mix(mix, processes, resource_weights, feedstock_weights, priority, 0) == widen64(
            mix,
        ),
{
    let fits = fitnesses(processes, resource_weights, feedstock_weights, priority);
    let heavy = weights(mix, fits, 0);
    let factor = (ONE as nat) * pulls(fits);
    assert(mix.len() > 0);
    lemma_pulls(fits);
    assert(factor > 0) by (nonlinear_arith)
        requires
            factor == (ONE as nat) * pulls(fits),
            pulls(fits) > 0,
            ONE == 1_000_000,
    ;
    assert forall|i: int| 0 <= i < mix.len() implies heavy[i] == factor * widen64(mix)[i] by {
        let share = mix[i] as nat;
        let whole = pulls(fits);
        let part = pull(fits, i);
        assert(((ONE - 0) as nat) * share * whole + (0 as nat) * (ONE as nat) * part == ((
        ONE as nat) * whole) * share) by (nonlinear_arith);
    }
    lemma_allot_exact(heavy, caps(processes), ONE as nat, factor, widen64(mix));
}

/// The new share is the blend of the current share and the target. In a
/// group without limits whose current shares come to [`ONE`], the new share
/// of a process, multiplied by `ONE * pulls`, is its weight, which is
/// `(ONE - speed) * share * pulls + speed * ONE * pull`, but for the units
/// that rounding moves: less than one down, and fewer than the processes of
/// the group up.
pub proof fn lemma_plan_blend(
    mix: Seq<u64>,
    processes: Seq<Process>,
    resource_weights: ResourceMap<u64>,
    feedstock_weights: FeedstockMap<u64>,
    priority: Priority,
    speed: u64,
    i: int,
)
    requires
        fault(mix, processes, speed) is None,
        total(widen64(mix)) == ONE,
        forall|j: int| 0 <= j < processes.len() ==> (#[trigger] processes[j]).cap() == ONE,
        0 <= i < processes.len(),
    ensures
        ({
            let fits = fitnesses(processes, resource_weights, feedstock_weights, priority);
            let share = planned_mix(
                mix,
                processes,
                resource_weights,
                feedstock_weights,
                priority,
                speed,
            )[i];
            &&& ONE * pulls(fits) * (share + 1) > weight(mix, fits, speed, i)
            &&& ONE * pulls(fits) * share
                <= weight(mix, fits, speed, i) + ONE * pulls(fits) * (processes.len() - 1)
        }),
{
    let n = processes.len() as int;
    let fits = fitnesses(processes, resource_weights, feedstock_weights, priority);
    let heavy = weights(mix, fits, speed);
    let roofs = caps(processes);
    let open = Seq::new(heavy.len(), |j: int| true);
    let whole = pulls(fits);
    let one = ONE as nat;
    lemma_allot_free(heavy, roofs, one);
    lemma_weights_total(mix, fits, speed);
    lemma_pulls(fits);
    lemma_picked_is_sum(heavy, open, n);
    assert(one * one * whole > 0) by (nonlinear_arith)
        requires
            whole > 0,
            one == 1_000_000,
    ;
    assert(stakes(heavy, open) == one * one * whole);
    lemma_count_all(open, n);
    lemma_offers(heavy, open, one);
    lemma_quotas_nearly(heavy, open, one);
    lemma_lead(heavy, open, n);
    let q = quota(heavy, open, one, i);
    let given = offer(heavy, open, one, i);
    assert(quotas(heavy, open, one)[i] == q);
    lemma_total_holds(quotas(heavy, open, one), i);
    assert(q <= given <= q + n - 1);
    let mine = heavy[i];
    let unit = one * whole;
    assert(q == (mine * one) / (one * one * whole));
    assert(unit * (q + 1) > mine && unit * q <= mine) by (nonlinear_arith)
        requires
            q == (mine * one) / (one * one * whole),
            unit == one * whole,
            whole > 0,
            one == 1_000_000,
    {
        let under = one * one * whole;
        assert(q * under <= mine * one);
        assert((q + 1) * under > mine * one);
        assert(under == unit * one);
        assert((q + 1) * unit * one > mine * one);
        assert(q * unit * one <= mine * one);
    }
    assert(unit * (given + 1) >= unit * (q + 1)) by (nonlinear_arith)
        requires
            given >= q,
    ;
    assert(unit * given <= unit * q + unit * (n - 1)) by (nonlinear_arith)
        requires
            given <= q + n - 1,
    ;
}

/// A gap in fitness shows in the shares. In a group without limits whose
/// current shares come to [`ONE`], of two processes with the same current
/// share the one of lesser pull is planned less than the other, if the
/// step towards the targets moves the two at least one unit apart: if
/// `speed` times the difference of the pulls is at least `pulls`.
pub proof fn lemma_plan_apart(
    mix: Seq<u64>,
    processes: Seq<Process>,
    resource_weights: ResourceMap<u64>,
    feedstock_weights: FeedstockMap<u64>,
    priority: Priority,
    speed: u64,
    a: int,
    b: int,
)
    requires
        fault(mix, processes, speed) is None,
        total(widen64(mix)) == ONE,
        forall|j: int| 0 <= j < processes.len() ==> (#[trigger] processes[j]).cap() == ONE,
        0 <= a < processes.len(),
        0 <= b < processes.len(),
        mix[a] == mix[b],
        ({
            let fits = fitnesses(processes, resource_weights, feedstock_weights, priority);
            speed * (pull(fits, b) - pull(fits, a)) >= pulls(fits)
        }),
    ensures
        planned_mix(mix, processes, resource_weights, feedstock_weights, priority, speed)[a]
            < planned_mix(mix, processes, resource_weights, feedstock_weights, priority, speed)[b],
        ONE * pulls(fitnesses(processes, resource_weights, feedstock_weights, priority))
            * planned_mix(mix, processes, resource_weights, feedstock_weights, priority, speed)[a]
            <= weight(
            mix,
            fitnesses(processes, resource_weights, feedstock_weights, priority),
            speed,
            a,
        ),
{
    let n = processes.len() as int;
    let fits = fitnesses(processes, resource_weights, feedstock_weights, priority);
    let heavy = weights(mix, fits, speed);
    let roofs = caps(processes);
    let open = Seq::new(heavy.len(), |j: int| true);
    let whole = pulls(fits);
    let one = ONE as nat;
    lemma_allot_free(heavy, roofs, one);
    lemma_weights_total(mix, fits, speed);
    lemma_pulls(fits);
    lemma_picked_is_sum(heavy, open, n);
    assert(one * one * whole > 0) by (nonlinear_arith)
        requires
            whole > 0,
            one == 1_000_000,
    ;
    assert(stakes(heavy, open) == one * one * whole);
    lemma_count_all(open, n);
    lemma_offers(heavy, open, one);
    lemma_lead(heavy, open, n);
    let low = quota(heavy, open, one, a);
    assert(one * whole * low <= heavy[a]) by (nonlinear_arith)
        requires
            low == (heavy[a] * one) / (one * one * whole),
            whole > 0,
            one == 1_000_000,
    {
        let under = one * one * whole;
        assert(low * under <= heavy[a] * one);
        assert(low * under == (one * whole * low) * one);
    }
    let high = quota(heavy, open, one, b);
    let near = pull(fits, a);
    let far = pull(fits, b);
    let base = ((ONE - speed) as nat) * (mix[a] as nat) * whole;
    let go = (speed as nat) * one;
    assert(heavy[a] == base + go * near);
    assert(heavy[b] == base + go * far);
    assert(heavy[b] >= heavy[a] + one * whole && heavy[a] < heavy[b]) by (nonlinear_arith)
        requires
            heavy[a] == base + go * near,
            heavy[b] == base + go * far,
            go == (speed as nat) * one,
            speed * (far - near) >= whole,
            whole > 0,
            one == 1_000_000,
    {
        assert(go * far - go * near == one * (speed * (far - near)));
        assert(one * (speed * (far - near)) >= one * whole);
    }
    assert(low < high) by (nonlinear_arith)
        requires
            low == (heavy[a] * one) / (one * one * whole),
            high == (heavy[b] * one) / (one * one * whole),
            heavy[b] >= heavy[a] + one * whole,
            whole > 0,
            one == 1_000_000,
    {
        let under = one * one * whole;
        assert(heavy[b] * one >= heavy[a] * one + under);
        assert((heavy[a] * one + under) / under == (heavy[a] * one) / under + 1);
        assert((heavy[b] * one) / under >= (heavy[a] * one + under) / under);
    }
    assert(offer(heavy, open, one, a) == low);
    assert(offer(heavy, open, one, b) >= high);
}

/// How far a step can take a share, in a group without limits whose current
/// shares come to [`ONE`]: the new share is no less than the part
/// `1 - speed` of the current share, but for less than a unit lost in
/// rounding, and no more than that part and `speed`, but for the units that
/// rounding leaves, which are fewer than the processes of the group.
pub proof fn lemma_plan_step(
    mix: Seq<u64>,
    processes: Seq<Process>,
    resource_weights: ResourceMap<u64>,
    feedstock_weights: FeedstockMap<u64>,
    priority: Priority,
    speed: u64,
    i: int,
)
    requires
        fault(mix, processes, speed) is None,
        total(widen64(mix)) == ONE,
        forall|j: int| 0 <= j < processes.len() ==> (#[trigger] processes[j]).cap() == ONE,
        0 <= i < processes.len(),
    ensures
        ONE * planned_mix(mix, processes, resource_weights, feedstock_weights, priority, speed)[i]
            + ONE > (ONE - speed) * mix[i],
        ONE * planned_mix(mix, processes, resource_weights, feedstock_weights, priority, speed)[i]
            <= (ONE - speed) * mix[i] + speed * ONE + ONE * (processes.len() - 1),
{
    let n = processes.len() as int;
    let fits = fitnesses(processes, resource_weights, feedstock_weights, priority);
    let share = planned_mix(
        mix,
        processes,
        resource_weights,
        feedstock_weights,
        priority,
        speed,
    )[i];
    let whole = pulls(fits);
    let part = pull(fits, i);
    let one = ONE as nat;
    let base = ((ONE - speed) as nat) * (mix[i] as nat);
    let go = (speed as nat) * one;
    lemma_plan_blend(mix, processes, resource_weights, feedstock_weights, priority, speed, i);
    lemma_pulls(fits);
    assert(weight(mix, fits, speed, i) == base * whole + go * part);
    assert(one * share + one > base && one * share <= base + go + one * (n - 1))
        by (nonlinear_arith)
        requires
            one * whole * (share + 1) > base * whole + go * part,
            one * whole * share <= base * whole + go * part + one * whole * (n - 1),
            part <= whole,
            whole > 0,
    {
        assert(go * part <= go * whole);
        assert(one * whole * (share + 1) == (one * share + one) * whole);
        assert((one * share + one) * whole > base * whole);
        assert(one * whole * share + 0 == (one * share) * whole);
        assert(base * whole + go * whole + one * whole * (n - 1) == (base + go + one * (n - 1))
            * whole);
        assert((one * share) * whole <= (base + go + one * (n - 1)) * whole);
    }
}

/// Adds `a * b` to a sum that may already have left the range of `u128`.
fn add_product(sum: Option<u128>, a: u128, b: u128, Ghost(exact): Ghost<nat>) -> (next: Option<
    u128,
>)
    requires
        match sum {
            Some(held) => held == exact,
            None => exact > u128::MAX,
        },
    ensures
        match next {
            Some(held) => held == exact + a * b,
            None => exact + a * b > u128::MAX,
        },
{
    assert(a * b >= 0) by (nonlinear_arith);
    match sum {
        None => None,
        Some(held) => match a.checked_mul(b) {
            None => None,
            Some(product) => held.checked_add(product),
        },
    }
}

/// The cost of a process, or nothing where it is beyond the range of `u128`.
fn cost_of(
    process: &Process,
    resource_weights: &ResourceMap<u64>,
    feedstock_weights: &FeedstockMap<u64>,
    priority: &Priority,
) -> (found: Option<u128>)
    ensures
        match found {
            Some(held) => held == cost(
                *process,
                *resource_weights,
                *feedstock_weights,
                *priority,
            ),
            None => cost(*process, *resource_weights, *feedstock_weights, *priority) > u128::MAX,
        },
{
    let used: &ResourceMap<u64> = &process.resources;
    let ghost spent = used.spec_weighed(*resource_weights);
    let fed: u64 = *feedstock_weights.get(process.feedstock.0);
    let sum: Option<u128> = add_product(
        used.weighed(resource_weights),
        process.feedstock.1 as u128,
        fed as u128,
        Ghost(spent),
    );
    let ghost exact = scarcity(*process, *resource_weights, *feedstock_weights);
    let heavy: u128 = (ONE as u128) + resource_weights.total() + feedstock_weights.total();
    let narrow: u128 = match priority {
        Priority::Scarcity => 0,
        Priority::Land => used.land as u128,
        Priority::Water => used.water as u128,
        Priority::Energy => (used.electricity as u128) + (used.fuel as u128),
        Priority::Emissions => process.byproducts.co2eq(),
    };
    assert(heavy == emphasis(*resource_weights, *feedstock_weights));
    assert(narrow == focus(*process, *priority));
    add_product(sum, heavy, narrow, Ghost(exact))
}

/// The fitness of a process.
fn fitness_of(
    process: &Process,
    resource_weights: &ResourceMap<u64>,
    feedstock_weights: &FeedstockMap<u64>,
    priority: &Priority,
) -> (found: u128)
    ensures
        found == fitness(*process, *resource_weights, *feedstock_weights, *priority),
        found <= FITNESS_MAX,
{
    let ghost exact = cost(*process, *resource_weights, *feedstock_weights, *priority);
    proof {
        lemma_vigor(0, exact);
    }
    let base: u128 = match cost_of(process, resource_weights, feedstock_weights, priority) {
        None => 1,
        Some(held) => if held > FITNESS_TOP {
            1
        } else {
            FITNESS_TOP / (COST_ONE + held) + 1
        },
    };
    assert(base == vigor(exact));
    match process.status {
        ProcessStatus::Banned => 0,
        ProcessStatus::Neutral => base,
        ProcessStatus::Promoted => PROMOTION * base,
    }
}

/// The greatest sum of pulls a group can have.
const PULLS_MAX: u128 = 2_000_000_000_002_000_000;

/// The greatest weight a place can have.
const WEIGHT_MAX: u128 = 2_000_002_000_002_000_002_000_000_000_000;

/// The fitness of each process, and their sum.
fn fitnesses_of(
    processes: &Vec<&Process>,
    resource_weights: &ResourceMap<u64>,
    feedstock_weights: &FeedstockMap<u64>,
    priority: &Priority,
) -> (found: (Vec<u128>, u128))
    requires
        processes.len() <= MAX_GROUP,
    ensures
        widen128(found.0@) == fitnesses(
            plain(processes@),
            *resource_weights,
            *feedstock_weights,
            *priority,
        ),
        found.1 == total(widen128(found.0@)),
        found.1 <= PULLS_MAX,
        forall|i: int| 0 <= i < found.0.len() ==> found.0@[i] <= FITNESS_MAX,
{
    let n: usize = processes.len();
    let ghost list = fitnesses(
        plain(processes@),
        *resource_weights,
        *feedstock_weights,
        *priority,
    );
    let mut found: Vec<u128> = Vec::new();
    let mut sum: u128 = 0;
    let mut i: usize = 0;
    while i < n
        invariant
            n == processes.len(),
            n <= MAX_GROUP,
            list == fitnesses(
                plain(processes@),
                *resource_weights,
                *feedstock_weights,
                *priority,
            ),
            i <= n,
            found.len() == i,
            forall|j: int| 0 <= j < i ==> #[trigger] found@[j] == list[j],
            forall|j: int| 0 <= j < i ==> #[trigger] found@[j] <= FITNESS_MAX,
            sum == sum_to(list, i as int),
            sum <= i * FITNESS_MAX,
        decreases n - i,
    {
        let fit: u128 = fitness_of(processes[i], resource_weights, feedstock_weights, priority);
        assert(fit == list[i as int]);
        found.push(fit);
        sum = sum + fit;
        i = i + 1;
    }
    assert(widen128(found@) =~= list);
    (found, sum)
}

/// The weight of each place.
fn weights_of(mix: &Vec<u64>, fitnesses: &Vec<u128>, fitness_sum: u128, speed: u64) -> (found: Vec<
    u128,
>)
    requires
        mix.len() == fitnesses.len(),
        mix.len() <= MAX_GROUP,
        speed <= ONE,
        forall|i: int| 0 <= i < mix.len() ==> mix@[i] <= ONE,
        forall|i: int| 0 <= i < fitnesses.len() ==> fitnesses@[i] <= FITNESS_MAX,
        fitness_sum == total(widen128(fitnesses@)),
        fitness_sum <= PULLS_MAX,
    ensures
        widen128(found@) == weights(mix@, widen128(fitnesses@), speed),
        forall|i: int| 0 <= i < found.len() ==> found@[i] <= WEIGHT_MAX,
{
    let n: usize = mix.len();
    let ghost fits = widen128(fitnesses@);
    let ghost list = weights(mix@, fits, speed);
    let whole: u128 = if fitness_sum == 0 {
        n as u128
    } else {
        fitness_sum
    };
    let mut found: Vec<u128> = Vec::new();
    let mut i: usize = 0;
    while i < n
        invariant
            n == mix.len(),
            n == fitnesses.len(),
            n <= MAX_GROUP,
            speed <= ONE,
            forall|j: int| 0 <= j < mix.len() ==> mix@[j] <= ONE,
            forall|j: int| 0 <= j < fitnesses.len() ==> fitnesses@[j] <= FITNESS_MAX,
            fits == widen128(fitnesses@),
            list == weights(mix@, fits, speed),
            fitness_sum == total(fits),
            whole == pulls(fits),
            whole <= PULLS_MAX,
            i <= n,
            found.len() == i,
            forall|j: int| 0 <= j < i ==> #[trigger] found@[j] == list[j],
            forall|j: int| 0 <= j < i ==> #[trigger] found@[j] <= WEIGHT_MAX,
        decreases n - i,
    {
        let part: u128 = if fitness_sum == 0 {
            1
        } else {
            fitnesses[i]
        };
        assert(part == pull(fits, i as int));
        assert((ONE - speed) * mix@[i as int] <= 1_000_000_000_000) by (nonlinear_arith)
            requires
                ONE == 1_000_000,
                speed <= ONE,
                mix@[i as int] <= ONE,
        ;
        assert(speed * ONE <= 1_000_000_000_000) by (nonlinear_arith)
            requires
                ONE == 1_000_000,
                speed <= ONE,
        ;
        let stay: u128 = ((ONE - speed) as u128) * (mix[i] as u128);
        let go: u128 = (speed as u128) * (ONE as u128);
        assert(stay * whole <= 1_000_000_000_000 * PULLS_MAX) by (nonlinear_arith)
            requires
                stay <= 1_000_000_000_000,
                whole <= PULLS_MAX,
        ;
        assert(go * part <= 1_000_000_000_000 * FITNESS_MAX) by (nonlinear_arith)
            requires
                go <= 1_000_000_000_000,
                part <= FITNESS_MAX,
        ;
        let heavy: u128 = stay * whole + go * part;
        assert(heavy == list[i as int]);
        found.push(heavy);
        i = i + 1;
    }
    assert(widen128(found@) =~= list);
    found
}

/// The cap of each process, and their sum.
fn caps_of(processes: &Vec<&Process>) -> (found: (Vec<u64>, u64))
    requires
        processes.len() <= MAX_GROUP,
    ensures
        widen64(found.0@) == caps(plain(processes@)),
        found.1 == total(caps(plain(processes@))),
{
    let n: usize = processes.len();
    let ghost list = caps(plain(processes@));
    let mut found: Vec<u64> = Vec::new();
    let mut sum: u64 = 0;
    let mut i: usize = 0;
    while i < n
        invariant
            n == processes.len(),
            n <= MAX_GROUP,
            list == caps(plain(processes@)),
            i <= n,
            found.len() == i,
            forall|j: int| 0 <= j < i ==> #[trigger] found@[j] == list[j],
            sum == sum_to(list, i as int),
            sum <= i * ONE,
        decreases n - i,
    {
        let roof: u64 = match processes[i].limit {
            Some(limit) => if limit < ONE {
                limit
            } else {
                ONE
            },
            None => ONE,
        };
        assert(roof == list[i as int]);
        found.push(roof);
        sum = sum + roof;
        i = i + 1;
    }
    assert(widen64(found@) =~= list);
    (found, sum)
}

/// Plans the new shares of the processes that share one output.
///
/// `mix` holds the current share of each process. The new shares are
/// [`planned_mix`]: they come to [`ONE`], none is above the cap of its
/// process, and each lies between the current share and the share that the
/// fitness of the process would earn it, as far along as `speed` says. They
/// say how the capacity is split and do not depend on the demand.
///
/// The input is turned down, with the first fault that [`fault`] finds, where
/// the shares and processes differ in number, the speed or a share is above
/// [`ONE`], the group is larger than [`MAX_GROUP`], or the limits leave part
/// of the demand unserved.
pub fn calculate_mix(
    mix: Vec<u64>,
    _demand: u64,
    processes: &Vec<&Process>,
    resource_weights: &ResourceMap<u64>,
    feedstock_weights: &FeedstockMap<u64>,
    priority: &Priority,
    speed: u64,
) -> (planned: Result<Vec<u64>, InvalidInput>)
    ensures
        match planned {
            Ok(shares) => {
                &&& fault(mix@, plain(processes@), speed) is None
                &&& widen64(shares@) == planned_mix(
                    mix@,
                    plain(processes@),
                    *resource_weights,
                    *feedstock_weights,
                    *priority,
                    speed,
                )
                &&& shares.len() == processes.len()
                &&& forall|i: int|
                    0 <= i < shares.len() ==> #[trigger] shares@[i] <= processes@[i].cap()
                &&& processes.len() > 0 ==> total(widen64(shares@)) == ONE
            },
            Err(reason) => fault(mix@, plain(processes@), speed) == Some(reason),
        },
{
    let n: usize = processes.len();
    if mix.len() != n {
        return Err(InvalidInput::LengthMismatch);
    }
    if speed > ONE {
        return Err(InvalidInput::SpeedAboveOne);
    }
    if n > MAX_GROUP {
        return Err(InvalidInput::GroupTooLarge);
    }
    let mut i: usize = 0;
    while i < n
        invariant
            n == mix.len(),
            n == processes.len(),
            n <= MAX_GROUP,
            speed <= ONE,
            i <= n,
            forall|j: int| 0 <= j < i ==> mix@[j] <= ONE,
        decreases n - i,
    {
        if mix[i] > ONE {
            assert(0 <= i < mix@.len() && mix@[i as int] > ONE);
            return Err(InvalidInput::ShareAboveOne);
        }
        i = i + 1;
    }
    let (roofs, room) = caps_of(processes);
    if n > 0 && room < ONE {
        return Err(InvalidInput::LimitsTooTight);
    }
    let ghost wanted = planned_mix(
        mix@,
        plain(processes@),
        *resource_weights,
        *feedstock_weights,
        *priority,
        speed,
    );
    if n == 0 {
        let nothing: Vec<u64> = Vec::new();
        assert(widen64(nothing@) =~= wanted);
        return Ok(nothing);
    }
    let (fits, fit_sum) = fitnesses_of(processes, resource_weights, feedstock_weights, priority);
    let heavy: Vec<u128> = weights_of(&mix, &fits, fit_sum, speed);
    proof {
        let wide = widen128(heavy@);
        lemma_sum_to_bounded(wide, WEIGHT_MAX as nat, n as int);
        assert(n * WEIGHT_MAX <= MAX_GROUP * WEIGHT_MAX) by (nonlinear_arith)
            requires
                n <= MAX_GROUP,
        ;
    }
    let shares: Vec<u64> = allocate(&heavy, &roofs, ONE);
    proof {
        lemma_planned_mix(
            mix@,
            plain(processes@),
            *resource_weights,
            *feedstock_weights,
            *priority,
            speed,
        );
        assert(widen64(shares@).len() == n);
        assert forall|i: int| 0 <= i < shares.len() implies #[trigger] shares@[i]
            <= processes@[i].cap() by {
            assert(widen64(shares@)[i] <= plain(processes@)[i].cap());
        }
    }
    Ok(shares)
}

} // verus!
