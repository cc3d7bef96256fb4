//! What holds of every update of the mixes.
//!
//! Each law is stated of [`updated`], the processes as
//! [`update_mixes`](crate::production::processes::update_mixes) leaves them
//! when it finds no fault in its input.

use vstd::prelude::*;
use crate::kinds::{FeedstockMap, Output, ResourceMap};
use crate::production::apportion::{lemma_sum_to_grows, sum_to, total, widen64};
use crate::production::planner::{
    cost, emphasis, fitness, fitnesses, focus, lemma_fitness_ordered, lemma_fitness_positive,
    lemma_plan_apart, lemma_plan_at_rest, lemma_plan_blend, lemma_plan_ordered, lemma_plan_pair,
    lemma_plan_step,
    lemma_planned_mix, lemma_pulls, lemma_vigor, pull, pulls, scarcity, tells_apart, Priority,
};
use crate::production::processes::{
    group, group_fault, group_mix, group_plan, input_fault, lemma_member_at_rank,
    lemma_members_by_output, lemma_members_within, members, members_to, rank, updated,
    Process, ProcessChange, ProcessStatus,
};
use crate::units::ONE;

verus! {

/// Where an update finds no fault, no group has one.
pub proof fn lemma_no_group_fault(processes: Seq<Process>, speed: u64, output: Output)
    requires
        input_fault(processes, speed) is None,
    ensures
        group_fault(processes, output, speed) is None,
{
}

/// Where process `i` stands in its group, and that the update gives it what
/// the plan of the group holds there, which is within its cap.
pub proof fn lemma_place(
    processes: Seq<Process>,
    resource_weights: ResourceMap<u64>,
    feedstock_weights: FeedstockMap<u64>,
    priority: Priority,
    speed: u64,
    i: int,
)
    requires
        processes.len() <= usize::MAX,
        input_fault(processes, speed) is None,
        0 <= i < processes.len(),
    ensures
        0 <= rank(processes, i) < group(processes, processes[i].output).len(),
        members(processes, processes[i].output)[rank(processes, i)] == i,
        group(processes, processes[i].output)[rank(processes, i)] == processes[i],
        group_mix(processes, processes[i].output)[rank(processes, i)] == processes[i].mix_share,
        updated(processes, resource_weights, feedstock_weights, priority, speed)[i].mix_share
            == group_plan(
            processes,
            processes[i].output,
            resource_weights,
            feedstock_weights,
            priority,
            speed,
        )[rank(processes, i)],
        updated(processes, resource_weights, feedstock_weights, priority, speed)[i].mix_share
            <= processes[i].cap(),
{
    let output = processes[i].output;
    lemma_no_group_fault(processes, speed, output);
    lemma_member_at_rank(processes, i);
    lemma_planned_mix(
        group_mix(processes, output),
        group(processes, output),
        resource_weights,
        feedstock_weights,
        priority,
        speed,
    );
}

/// After an update the shares of the processes of a group that is not empty
/// come to [`ONE`] exactly, whatever the weights, the priority and the speed.
pub proof fn shares_are_normalized(
    processes: Seq<Process>,
    resource_weights: ResourceMap<u64>,
    feedstock_weights: FeedstockMap<u64>,
    priority: Priority,
    speed: u64,
    output: Output,
)
    requires
        processes.len() <= usize::MAX,
        input_fault(processes, speed) is None,
        members(processes, output).len() > 0,
    ensures
        total(
            widen64(
                group_mix(
                    updated(processes, resource_weights, feedstock_weights, priority, speed),
                    output,
                ),
            ),
        ) == ONE,
{
    let after = updated(processes, resource_weights, feedstock_weights, priority, speed);
    let plan = group_plan(
        processes,
        output,
        resource_weights,
        feedstock_weights,
        priority,
        speed,
    );
    let n = processes.len() as int;
    lemma_members_by_output(after, processes, output, n);
    lemma_members_within(processes, output, n);
    lemma_no_group_fault(processes, speed, output);
    lemma_planned_mix(
        group_mix(processes, output),
        group(processes, output),
        resource_weights,
        feedstock_weights,
        priority,
        speed,
    );
    let shares = widen64(group_mix(after, output));
    assert forall|k: int| 0 <= k < plan.len() implies shares[k] == plan[k] by {
        let i = members(processes, output)[k] as int;
        lemma_place(processes, resource_weights, feedstock_weights, priority, speed, i);
    }
    assert(shares =~= plan);
}

/// After an update every process is well formed, its share no more than the
/// whole, and no process holds more than its limit.
pub proof fn shares_keep_limits(
    processes: Seq<Process>,
    resource_weights: ResourceMap<u64>,
    feedstock_weights: FeedstockMap<u64>,
    priority: Priority,
    speed: u64,
    i: int,
)
    requires
        processes.len() <= usize::MAX,
        input_fault(processes, speed) is None,
        0 <= i < processes.len(),
    ensures
        updated(processes, resource_weights, feedstock_weights, priority, speed)[i].well_formed(),
        processes[i].limit matches Some(limit) ==> updated(
            processes,
            resource_weights,
            feedstock_weights,
            priority,
            speed,
        )[i].mix_share <= limit,
{
    lemma_place(processes, resource_weights, feedstock_weights, priority, speed, i);
}

/// The members of a group are the same in two collections that hold the
/// same processes of that output at the same places.
proof fn lemma_members_of_same_group(a: Seq<Process>, b: Seq<Process>, output: Output, n: int)
    requires
        forall|j: int|
            0 <= j < n ==> ((#[trigger] a[j]).output == output) == (b[j].output == output),
    ensures
        members_to(a, output, n) == members_to(b, output, n),
    decreases n,
{
    if n > 0 {
        lemma_members_of_same_group(a, b, output, n - 1);
    }
}

/// The new shares of the processes of an output depend on no process of
/// another output: two collections that hold the same processes of `output`
/// at the same places give each of them the same new share, whatever else
/// the two hold.
pub proof fn outputs_are_isolated(
    processes: Seq<Process>,
    others: Seq<Process>,
    resource_weights: ResourceMap<u64>,
    feedstock_weights: FeedstockMap<u64>,
    priority: Priority,
    speed: u64,
    output: Output,
    i: int,
)
    requires
        processes.len() == others.len(),
        processes.len() <= usize::MAX,
        forall|j: int|
            0 <= j < processes.len() ==> ((#[trigger] processes[j]).output == output) == (
            others[j].output == output),
        forall|j: int|
            0 <= j < processes.len() && (#[trigger] processes[j]).output == output
                ==> processes[j] == others[j],
        0 <= i < processes.len(),
        processes[i].output == output,
    ensures
        updated(processes, resource_weights, feedstock_weights, priority, speed)[i] == updated(
            others,
            resource_weights,
            feedstock_weights,
            priority,
            speed,
        )[i],
        group_fault(processes, output, speed) == group_fault(others, output, speed),
{
    let n = processes.len() as int;
    lemma_members_of_same_group(processes, others, output, n);
    lemma_members_of_same_group(processes, others, output, i);
    lemma_members_within(processes, output, n);
    assert(group(processes, output) =~= group(others, output));
    assert(group_mix(processes, output) =~= group_mix(others, output));
}

/// A process that is alone in its group holds the whole after an update,
/// whatever its cost and its status.
pub proof fn lone_process_holds_all(
    processes: Seq<Process>,
    resource_weights: ResourceMap<u64>,
    feedstock_weights: FeedstockMap<u64>,
    priority: Priority,
    speed: u64,
    i: int,
)
    requires
        processes.len() <= usize::MAX,
        input_fault(processes, speed) is None,
        0 <= i < processes.len(),
        members(processes, processes[i].output).len() == 1,
    ensures
        updated(processes, resource_weights, feedstock_weights, priority, speed)[i].mix_share
            == ONE,
{
    let output = processes[i].output;
    lemma_place(processes, resource_weights, feedstock_weights, priority, speed, i);
    lemma_planned_mix(
        group_mix(processes, output),
        group(processes, output),
        resource_weights,
        feedstock_weights,
        priority,
        speed,
    );
    let plan = group_plan(
        processes,
        output,
        resource_weights,
        feedstock_weights,
        priority,
        speed,
    );
    assert(sum_to(plan, 1) == plan[0]) by {
        reveal_with_fuel(sum_to, 2);
    }
}

/// The change of a process says which way its share moved in the update:
/// neutral exactly where the new share is the old one, expanding exactly
/// where it is greater, contracting exactly where it is smaller.
pub proof fn change_tells_direction(
    processes: Seq<Process>,
    resource_weights: ResourceMap<u64>,
    feedstock_weights: FeedstockMap<u64>,
    priority: Priority,
    speed: u64,
    i: int,
)
    requires
        0 <= i < processes.len(),
    ensures
        ({
            let after = updated(processes, resource_weights, feedstock_weights, priority, speed)[i];
            &&& after.change == ProcessChange::Neutral <==> after.mix_share
                == processes[i].mix_share
            &&& after.change == ProcessChange::Expanding <==> after.mix_share
                > processes[i].mix_share
            &&& after.change == ProcessChange::Contracting <==> after.mix_share
                < processes[i].mix_share
        }),
{
}

/// An update changes nothing of a process but its share and its change.
pub proof fn update_keeps_the_rest(
    processes: Seq<Process>,
    resource_weights: ResourceMap<u64>,
    feedstock_weights: FeedstockMap<u64>,
    priority: Priority,
    speed: u64,
    i: int,
)
    requires
        0 <= i < processes.len(),
    ensures
        ({
            let after = updated(processes, resource_weights, feedstock_weights, priority, speed)[i];
            after == (Process { mix_share: after.mix_share, change: after.change, ..processes[i] })
        }),
{
}

/// At a speed of zero nothing moves: in a group whose shares come to
/// [`ONE`], none above its limit, every process keeps its share, and its
/// change is neutral.
pub proof fn rest_is_kept(
    processes: Seq<Process>,
    resource_weights: ResourceMap<u64>,
    feedstock_weights: FeedstockMap<u64>,
    priority: Priority,
    i: int,
)
    requires
        processes.len() <= usize::MAX,
        input_fault(processes, 0) is None,
        0 <= i < processes.len(),
        total(widen64(group_mix(processes, processes[i].output))) == ONE,
        forall|j: int|
            0 <= j < processes.len() && (#[trigger] processes[j]).output == processes[i].output
                ==> processes[j].mix_share <= processes[j].cap(),
    ensures
        updated(processes, resource_weights, feedstock_weights, priority, 0)[i].mix_share
            == processes[i].mix_share,
        updated(processes, resource_weights, feedstock_weights, priority, 0)[i].change
            == ProcessChange::Neutral,
{
    let output = processes[i].output;
    lemma_place(processes, resource_weights, feedstock_weights, priority, 0, i);
    lemma_members_within(processes, output, processes.len() as int);
    lemma_plan_at_rest(
        group_mix(processes, output),
        group(processes, output),
        resource_weights,
        feedstock_weights,
        priority,
    );
}

/// The new share is the blend of the old share and the target share. In a
/// group without limits whose shares come to [`ONE`], the new share of a
/// process is `(1 - speed) * share + speed * pull / pulls`, where the pull
/// of a process is its fitness and `pulls` the sum of the pulls of its group,
/// but for the units that rounding moves: less than one down, and fewer than
/// the processes of the group up. Both sides are here multiplied by
/// `ONE * pulls`.
pub proof fn share_is_the_blend(
    processes: Seq<Process>,
    resource_weights: ResourceMap<u64>,
    feedstock_weights: FeedstockMap<u64>,
    priority: Priority,
    speed: u64,
    i: int,
)
    requires
        processes.len() <= usize::MAX,
        input_fault(processes, speed) is None,
        0 <= i < processes.len(),
        total(widen64(group_mix(processes, processes[i].output))) == ONE,
        forall|j: int|
            0 <= j < processes.len() && (#[trigger] processes[j]).output == processes[i].output
                ==> processes[j].cap() == ONE,
    ensures
        ({
            let after = updated(processes, resource_weights, feedstock_weights, priority, speed)[i];
            let fits = fitnesses(
                group(processes, processes[i].output),
                resource_weights,
                feedstock_weights,
                priority,
            );
            let blend = (ONE - speed) * processes[i].mix_share * pulls(fits) + speed * ONE * pull(
                fits,
                rank(processes, i),
            );
            let size = members(processes, processes[i].output).len();
            &&& ONE * pulls(fits) * (after.mix_share + 1) > blend
            &&& ONE * pulls(fits) * after.mix_share <= blend + ONE * pulls(fits) * (size - 1)
        }),
{
    let output = processes[i].output;
    lemma_place(processes, resource_weights, feedstock_weights, priority, speed, i);
    lemma_members_within(processes, output, processes.len() as int);
    lemma_plan_blend(
        group_mix(processes, output),
        group(processes, output),
        resource_weights,
        feedstock_weights,
        priority,
        speed,
        rank(processes, i),
    );
}

/// A banned process is driven down. In a group without limits whose shares
/// come to [`ONE`] and in which some process is not banned, a banned process
/// keeps no more than the part `1 - speed` of its share, but for the units
/// that rounding leaves, which are fewer than the processes of the group.
pub proof fn banned_is_driven_down(
    processes: Seq<Process>,
    resource_weights: ResourceMap<u64>,
    feedstock_weights: FeedstockMap<u64>,
    priority: Priority,
    speed: u64,
    banned: int,
    peer: int,
)
    requires
        processes.len() <= usize::MAX,
        input_fault(processes, speed) is None,
        0 <= banned < processes.len(),
        0 <= peer < processes.len(),
        processes[banned].output == processes[peer].output,
        processes[banned].status == ProcessStatus::Banned,
        processes[peer].status != ProcessStatus::Banned,
        total(widen64(group_mix(processes, processes[banned].output))) == ONE,
        forall|j: int|
            0 <= j < processes.len() && (#[trigger] processes[j]).output
                == processes[banned].output ==> processes[j].cap() == ONE,
    ensures
        ONE * updated(
            processes,
            resource_weights,
            feedstock_weights,
            priority,
            speed,
        )[banned].mix_share <= (ONE - speed) * processes[banned].mix_share + ONE * (members(
            processes,
            processes[banned].output,
        ).len() - 1),
{
    let output = processes[banned].output;
    let after = updated(
        processes,
        resource_weights,
        feedstock_weights,
        priority,
        speed,
    )[banned].mix_share as nat;
    let fits = fitnesses(group(processes, output), resource_weights, feedstock_weights, priority);
    let size = members(processes, output).len() as int;
    let whole = pulls(fits);
    let base = ((ONE - speed) as nat) * (processes[banned].mix_share as nat);
    let one = ONE as nat;
    share_is_the_blend(processes, resource_weights, feedstock_weights, priority, speed, banned);
    lemma_place(processes, resource_weights, feedstock_weights, priority, speed, banned);
    lemma_place(processes, resource_weights, feedstock_weights, priority, speed, peer);
    lemma_fitness_positive(processes[banned], resource_weights, feedstock_weights, priority);
    lemma_fitness_positive(processes[peer], resource_weights, feedstock_weights, priority);
    lemma_pulls(fits);
    let k = rank(processes, peer);
    lemma_sum_to_grows(fits, k + 1, fits.len() as int);
    lemma_sum_to_grows(fits, 0, k);
    assert(total(fits) > 0);
    assert(pull(fits, rank(processes, banned)) == 0);
    assert(speed * ONE * pull(fits, rank(processes, banned)) == 0) by (nonlinear_arith)
        requires
            pull(fits, rank(processes, banned)) == 0,
    ;
    assert(one * after <= base + one * (size - 1)) by (nonlinear_arith)
        requires
            one * whole * after <= base * whole + one * whole * (size - 1),
            whole > 0,
    {
        assert(one * whole * after == (one * after) * whole);
        assert(base * whole + one * whole * (size - 1) == (base + one * (size - 1)) * whole);
    }
}

/// A gap in fitness shows in the shares, in a group of any size. In a group
/// without limits whose shares come to [`ONE`], of two processes with the
/// same share the less fit ends with less than the other, if the step moves
/// the two at least one unit apart: if `speed` times the difference of
/// their fitness is at least the pull of the whole group.
pub proof fn gap_shows_in_any_group(
    processes: Seq<Process>,
    resource_weights: ResourceMap<u64>,
    feedstock_weights: FeedstockMap<u64>,
    priority: Priority,
    speed: u64,
    unfit: int,
    fit: int,
)
    requires
        processes.len() <= usize::MAX,
        input_fault(processes, speed) is None,
        0 <= unfit < processes.len(),
        0 <= fit < processes.len(),
        processes[unfit].output == processes[fit].output,
        processes[unfit].mix_share == processes[fit].mix_share,
        total(widen64(group_mix(processes, processes[fit].output))) == ONE,
        forall|j: int|
            0 <= j < processes.len() && (#[trigger] processes[j]).output == processes[fit].output
                ==> processes[j].cap() == ONE,
        speed * (fitness(processes[fit], resource_weights, feedstock_weights, priority) - fitness(
            processes[unfit],
            resource_weights,
            feedstock_weights,
            priority,
        )) >= pulls(
            fitnesses(
                group(processes, processes[fit].output),
                resource_weights,
                feedstock_weights,
                priority,
            ),
        ),
    ensures
        updated(processes, resource_weights, feedstock_weights, priority, speed)[unfit].mix_share
            < updated(
            processes,
            resource_weights,
            feedstock_weights,
            priority,
            speed,
        )[fit].mix_share,
        ONE * updated(
            processes,
            resource_weights,
            feedstock_weights,
            priority,
            speed,
        )[unfit].mix_share * pulls(
            fitnesses(
                group(processes, processes[fit].output),
                resource_weights,
                feedstock_weights,
                priority,
            ),
        ) <= (ONE - speed) * processes[unfit].mix_share * pulls(
            fitnesses(
                group(processes, processes[fit].output),
                resource_weights,
                feedstock_weights,
                priority,
            ),
        ) + speed * ONE * fitness(
            processes[unfit],
            resource_weights,
            feedstock_weights,
            priority,
        ),
{
    let output = processes[fit].output;
    let fits = fitnesses(group(processes, output), resource_weights, feedstock_weights, priority);
    lemma_place(processes, resource_weights, feedstock_weights, priority, speed, unfit);
    lemma_place(processes, resource_weights, feedstock_weights, priority, speed, fit);
    lemma_members_within(processes, output, processes.len() as int);
    let a = rank(processes, unfit);
    let b = rank(processes, fit);
    lemma_sum_to_grows(fits, b + 1, fits.len() as int);
    lemma_sum_to_grows(fits, 0, b);
    assert(fits[b] <= total(fits));
    lemma_pulls(fits);
    if total(fits) == 0 {
        assert(speed * (fits[b] - fits[a]) <= 0) by (nonlinear_arith)
            requires
                fits[b] == 0,
                fits[a] >= 0,
                speed >= 0,
        ;
    }
    assert(total(fits) > 0);
    lemma_plan_apart(
        group_mix(processes, output),
        group(processes, output),
        resource_weights,
        feedstock_weights,
        priority,
        speed,
        a,
        b,
    );
    let after = updated(
        processes,
        resource_weights,
        feedstock_weights,
        priority,
        speed,
    )[unfit].mix_share as nat;
    assert(ONE * pulls(fits) * after == ONE * after * pulls(fits)) by (nonlinear_arith);
}

/// A ban shows in a group of any size. In a group without limits whose
/// shares come to [`ONE`], a banned process ends with less than a process
/// that is not banned and had the same share, and contracts if it had any
/// share, provided that the step moves the two at least one unit apart: that
/// `speed` times the fitness of the other is at least the pull of the whole
/// group.
pub proof fn ban_shows_in_any_group(
    processes: Seq<Process>,
    resource_weights: ResourceMap<u64>,
    feedstock_weights: FeedstockMap<u64>,
    priority: Priority,
    speed: u64,
    banned: int,
    peer: int,
)
    requires
        processes.len() <= usize::MAX,
        input_fault(processes, speed) is None,
        0 <= banned < processes.len(),
        0 <= peer < processes.len(),
        processes[banned].output == processes[peer].output,
        processes[banned].status == ProcessStatus::Banned,
        processes[banned].mix_share == processes[peer].mix_share,
        total(widen64(group_mix(processes, processes[peer].output))) == ONE,
        forall|j: int|
            0 <= j < processes.len() && (#[trigger] processes[j]).output == processes[peer].output
                ==> processes[j].cap() == ONE,
        speed * fitness(processes[peer], resource_weights, feedstock_weights, priority) >= pulls(
            fitnesses(
                group(processes, processes[peer].output),
                resource_weights,
                feedstock_weights,
                priority,
            ),
        ),
    ensures
        ({
            let after = updated(processes, resource_weights, feedstock_weights, priority, speed);
            &&& after[banned].mix_share < after[peer].mix_share
            &&& processes[banned].mix_share > 0 ==> after[banned].change
                == ProcessChange::Contracting
        }),
{
    let output = processes[peer].output;
    let fits = fitnesses(group(processes, output), resource_weights, feedstock_weights, priority);
    let whole = pulls(fits);
    let before = processes[banned].mix_share as nat;
    let after = updated(
        processes,
        resource_weights,
        feedstock_weights,
        priority,
        speed,
    )[banned].mix_share as nat;
    lemma_fitness_positive(processes[banned], resource_weights, feedstock_weights, priority);
    gap_shows_in_any_group(
        processes,
        resource_weights,
        feedstock_weights,
        priority,
        speed,
        banned,
        peer,
    );
    lemma_pulls(fits);
    lemma_place(processes, resource_weights, feedstock_weights, priority, speed, banned);
    if before > 0 {
        assert(speed > 0) by (nonlinear_arith)
            requires
                speed * fitness(processes[peer], resource_weights, feedstock_weights, priority)
                    >= whole,
                whole > 0,
                speed >= 0,
        ;
        assert(after < before) by (nonlinear_arith)
            requires
                ONE * after * whole <= (ONE - speed) * before * whole + speed * ONE * 0,
                whole > 0,
                speed > 0,
                speed <= ONE,
                before > 0,
        {
            assert((ONE - speed) * before < ONE * before);
            assert((ONE - speed) * before * whole < ONE * before * whole);
        }
    }
}

/// A step is bounded by the speed. In a group without limits whose shares
/// come to [`ONE`], a share falls by no more than the part `speed` of
/// itself, and rises by no more than the part `speed` of what it lacks to
/// the whole, but for the units that rounding moves: less than one down,
/// and fewer than the processes of the group up.
pub proof fn step_is_bounded(
    processes: Seq<Process>,
    resource_weights: ResourceMap<u64>,
    feedstock_weights: FeedstockMap<u64>,
    priority: Priority,
    speed: u64,
    i: int,
)
    requires
        processes.len() <= usize::MAX,
        input_fault(processes, speed) is None,
        0 <= i < processes.len(),
        total(widen64(group_mix(processes, processes[i].output))) == ONE,
        forall|j: int|
            0 <= j < processes.len() && (#[trigger] processes[j]).output == processes[i].output
                ==> processes[j].cap() == ONE,
    ensures
        ({
            let after = updated(processes, resource_weights, feedstock_weights, priority, speed)[i];
            let before = processes[i].mix_share;
            let size = members(processes, processes[i].output).len();
            &&& ONE * after.mix_share + ONE > (ONE - speed) * before
            &&& ONE * after.mix_share <= (ONE - speed) * before + speed * ONE + ONE * (size - 1)
        }),
{
    let output = processes[i].output;
    lemma_place(processes, resource_weights, feedstock_weights, priority, speed, i);
    lemma_members_within(processes, output, processes.len() as int);
    lemma_plan_step(
        group_mix(processes, output),
        group(processes, output),
        resource_weights,
        feedstock_weights,
        priority,
        speed,
        rank(processes, i),
    );
}

/// Two processes that make up a group stand at its two places.
proof fn lemma_pair_places(processes: Seq<Process>, a: int, b: int)
    requires
        processes.len() <= usize::MAX,
        0 <= a < processes.len(),
        0 <= b < processes.len(),
        a != b,
        processes[a].output == processes[b].output,
        members(processes, processes[a].output).len() == 2,
    ensures
        (rank(processes, a) == 0 && rank(processes, b) == 1) || (rank(processes, a) == 1 && rank(
            processes,
            b,
        ) == 0),
{
    lemma_member_at_rank(processes, a);
    lemma_member_at_rank(processes, b);
}

/// A banned process never ends ahead of a process of its group that is not
/// banned, if the two had the same share and have the same limit and the
/// speed is not zero. This holds in a group of any size.
pub proof fn banned_never_ahead(
    processes: Seq<Process>,
    resource_weights: ResourceMap<u64>,
    feedstock_weights: FeedstockMap<u64>,
    priority: Priority,
    speed: u64,
    banned: int,
    peer: int,
)
    requires
        processes.len() <= usize::MAX,
        input_fault(processes, speed) is None,
        0 <= banned < processes.len(),
        0 <= peer < processes.len(),
        processes[banned].output == processes[peer].output,
        processes[banned].status == ProcessStatus::Banned,
        processes[peer].status != ProcessStatus::Banned,
        processes[banned].mix_share == processes[peer].mix_share,
        processes[banned].cap() == processes[peer].cap(),
        speed > 0,
    ensures
        updated(processes, resource_weights, feedstock_weights, priority, speed)[banned].mix_share
            <= updated(
            processes,
            resource_weights,
            feedstock_weights,
            priority,
            speed,
        )[peer].mix_share,
{
    let output = processes[banned].output;
    lemma_place(processes, resource_weights, feedstock_weights, priority, speed, banned);
    lemma_place(processes, resource_weights, feedstock_weights, priority, speed, peer);
    lemma_fitness_positive(processes[banned], resource_weights, feedstock_weights, priority);
    lemma_fitness_positive(processes[peer], resource_weights, feedstock_weights, priority);
    lemma_plan_ordered(
        group_mix(processes, output),
        group(processes, output),
        resource_weights,
        feedstock_weights,
        priority,
        speed,
        rank(processes, banned),
        rank(processes, peer),
    );
}

/// Of a banned process and one that is not banned which make up a group,
/// each at one half and both with the same limit above one half, the banned
/// one ends with the smaller share and contracts, and the other expands,
/// at any speed that is not zero.
pub proof fn ban_shifts_the_pair(
    processes: Seq<Process>,
    resource_weights: ResourceMap<u64>,
    feedstock_weights: FeedstockMap<u64>,
    priority: Priority,
    speed: u64,
    banned: int,
    peer: int,
)
    requires
        processes.len() <= usize::MAX,
        input_fault(processes, speed) is None,
        0 <= banned < processes.len(),
        0 <= peer < processes.len(),
        processes[banned].output == processes[peer].output,
        members(processes, processes[banned].output).len() == 2,
        processes[banned].status == ProcessStatus::Banned,
        processes[peer].status != ProcessStatus::Banned,
        processes[banned].mix_share == ONE / 2,
        processes[peer].mix_share == ONE / 2,
        processes[banned].cap() == processes[peer].cap(),
        2 * processes[banned].cap() > ONE,
        speed > 0,
    ensures
        ({
            let after = updated(processes, resource_weights, feedstock_weights, priority, speed);
            &&& after[banned].mix_share < after[peer].mix_share
            &&& after[banned].mix_share + after[peer].mix_share == ONE
            &&& after[banned].change == ProcessChange::Contracting
            &&& after[peer].change == ProcessChange::Expanding
        }),
{
    let output = processes[banned].output;
    lemma_place(processes, resource_weights, feedstock_weights, priority, speed, banned);
    lemma_place(processes, resource_weights, feedstock_weights, priority, speed, peer);
    lemma_pair_places(processes, banned, peer);
    lemma_fitness_positive(processes[banned], resource_weights, feedstock_weights, priority);
    lemma_fitness_positive(processes[peer], resource_weights, feedstock_weights, priority);
    lemma_plan_pair(
        group_mix(processes, output),
        group(processes, output),
        resource_weights,
        feedstock_weights,
        priority,
        speed,
        rank(processes, banned),
        rank(processes, peer),
    );
}

/// A process never ends behind a less fit process of its group, if the two
/// had the same share and have the same limit and the speed is not zero.
/// This holds in a group of any size.
pub proof fn fitter_never_behind(
    processes: Seq<Process>,
    resource_weights: ResourceMap<u64>,
    feedstock_weights: FeedstockMap<u64>,
    priority: Priority,
    speed: u64,
    fit: int,
    unfit: int,
)
    requires
        processes.len() <= usize::MAX,
        input_fault(processes, speed) is None,
        0 <= fit < processes.len(),
        0 <= unfit < processes.len(),
        processes[fit].output == processes[unfit].output,
        processes[fit].mix_share == processes[unfit].mix_share,
        processes[fit].cap() == processes[unfit].cap(),
        fitness(processes[fit], resource_weights, feedstock_weights, priority) > fitness(
            processes[unfit],
            resource_weights,
            feedstock_weights,
            priority,
        ),
        speed > 0,
    ensures
        updated(processes, resource_weights, feedstock_weights, priority, speed)[fit].mix_share
            >= updated(
            processes,
            resource_weights,
            feedstock_weights,
            priority,
            speed,
        )[unfit].mix_share,
{
    let output = processes[fit].output;
    lemma_place(processes, resource_weights, feedstock_weights, priority, speed, fit);
    lemma_place(processes, resource_weights, feedstock_weights, priority, speed, unfit);
    lemma_plan_ordered(
        group_mix(processes, output),
        group(processes, output),
        resource_weights,
        feedstock_weights,
        priority,
        speed,
        rank(processes, unfit),
        rank(processes, fit),
    );
}

/// A process never ends behind a process of its group, of the same status,
/// that costs more by enough for fitness to tell, if the two had the same
/// share and have the same limit, they are not banned and the speed is not
/// zero. This holds in a group of any size.
pub proof fn cheaper_never_behind(
    processes: Seq<Process>,
    resource_weights: ResourceMap<u64>,
    feedstock_weights: FeedstockMap<u64>,
    priority: Priority,
    speed: u64,
    cheap: int,
    dear: int,
)
    requires
        processes.len() <= usize::MAX,
        input_fault(processes, speed) is None,
        0 <= cheap < processes.len(),
        0 <= dear < processes.len(),
        processes[cheap].output == processes[dear].output,
        processes[cheap].status == processes[dear].status,
        processes[cheap].status != ProcessStatus::Banned,
        processes[cheap].mix_share == processes[dear].mix_share,
        processes[cheap].cap() == processes[dear].cap(),
        tells_apart(
            cost(processes[cheap], resource_weights, feedstock_weights, priority),
            cost(processes[dear], resource_weights, feedstock_weights, priority),
        ),
        speed > 0,
    ensures
        updated(processes, resource_weights, feedstock_weights, priority, speed)[cheap].mix_share
            >= updated(
            processes,
            resource_weights,
            feedstock_weights,
            priority,
            speed,
        )[dear].mix_share,
{
    lemma_fitness_ordered(
        processes[cheap],
        processes[dear],
        resource_weights,
        feedstock_weights,
        priority,
    );
    fitter_never_behind(
        processes,
        resource_weights,
        feedstock_weights,
        priority,
        speed,
        cheap,
        dear,
    );
}

/// A promoted process never ends behind a neutral process of its group that
/// costs no less, if the two had the same share and have the same limit and
/// the speed is not zero. This holds in a group of any size.
pub proof fn promoted_never_behind(
    processes: Seq<Process>,
    resource_weights: ResourceMap<u64>,
    feedstock_weights: FeedstockMap<u64>,
    priority: Priority,
    speed: u64,
    promoted: int,
    peer: int,
)
    requires
        processes.len() <= usize::MAX,
        input_fault(processes, speed) is None,
        0 <= promoted < processes.len(),
        0 <= peer < processes.len(),
        processes[promoted].output == processes[peer].output,
        processes[promoted].status == ProcessStatus::Promoted,
        processes[peer].status == ProcessStatus::Neutral,
        processes[promoted].mix_share == processes[peer].mix_share,
        processes[promoted].cap() == processes[peer].cap(),
        cost(processes[promoted], resource_weights, feedstock_weights, priority) <= cost(
            processes[peer],
            resource_weights,
            feedstock_weights,
            priority,
        ),
        speed > 0,
    ensures
        updated(processes, resource_weights, feedstock_weights, priority, speed)[promoted].mix_share
            >= updated(
            processes,
            resource_weights,
            feedstock_weights,
            priority,
            speed,
        )[peer].mix_share,
{
    lemma_vigor(
        cost(processes[promoted], resource_weights, feedstock_weights, priority),
        cost(processes[peer], resource_weights, feedstock_weights, priority),
    );
    fitter_never_behind(
        processes,
        resource_weights,
        feedstock_weights,
        priority,
        speed,
        promoted,
        peer,
    );
}

/// Of two processes that make up a group, each at one half, of the same
/// status and with the same limit, the one that costs no more ends with no
/// less than the other. Where fitness can tell the costs apart, the
/// processes are not banned, the limit is above one half and the speed is
/// not zero, the cheaper one ends with more and expands, and the other
/// contracts.
pub proof fn cheaper_gains_in_the_pair(
    processes: Seq<Process>,
    resource_weights: ResourceMap<u64>,
    feedstock_weights: FeedstockMap<u64>,
    priority: Priority,
    speed: u64,
    cheap: int,
    dear: int,
)
    requires
        processes.len() <= usize::MAX,
        input_fault(processes, speed) is None,
        0 <= cheap < processes.len(),
        0 <= dear < processes.len(),
        cheap != dear,
        processes[cheap].output == processes[dear].output,
        members(processes, processes[cheap].output).len() == 2,
        processes[cheap].status == processes[dear].status,
        processes[cheap].mix_share == ONE / 2,
        processes[dear].mix_share == ONE / 2,
        processes[cheap].cap() == processes[dear].cap(),
        cost(processes[cheap], resource_weights, feedstock_weights, priority) <= cost(
            processes[dear],
            resource_weights,
            feedstock_weights,
            priority,
        ),
    ensures
        ({
            let after = updated(processes, resource_weights, feedstock_weights, priority, speed);
            &&& after[cheap].mix_share >= after[dear].mix_share
            &&& after[cheap].mix_share + after[dear].mix_share == ONE
            &&& processes[cheap].status != ProcessStatus::Banned && tells_apart(
                cost(processes[cheap], resource_weights, feedstock_weights, priority),
                cost(processes[dear], resource_weights, feedstock_weights, priority),
            ) && 2 * processes[cheap].cap() > ONE && speed > 0 ==> {
                &&& after[cheap].mix_share > after[dear].mix_share
                &&& after[cheap].change == ProcessChange::Expanding
                &&& after[dear].change == ProcessChange::Contracting
            }
        }),
{
    let output = processes[cheap].output;
    lemma_place(processes, resource_weights, feedstock_weights, priority, speed, cheap);
    lemma_place(processes, resource_weights, feedstock_weights, priority, speed, dear);
    lemma_pair_places(processes, cheap, dear);
    lemma_fitness_ordered(
        processes[cheap],
        processes[dear],
        resource_weights,
        feedstock_weights,
        priority,
    );
    lemma_plan_pair(
        group_mix(processes, output),
        group(processes, output),
        resource_weights,
        feedstock_weights,
        priority,
        speed,
        rank(processes, dear),
        rank(processes, cheap),
    );
}

/// Where two processes weigh the same in scarcity, the priority decides
/// between them: the cost of the one with the smaller footprint in the
/// dimension of the priority is the smaller, by the emphasis on that
/// dimension times the difference of the footprints.
pub proof fn priority_decides_cost(
    one: Process,
    other: Process,
    resource_weights: ResourceMap<u64>,
    feedstock_weights: FeedstockMap<u64>,
    priority: Priority,
)
    requires
        scarcity(one, resource_weights, feedstock_weights) == scarcity(
            other,
            resource_weights,
            feedstock_weights,
        ),
        focus(one, priority) < focus(other, priority),
    ensures
        cost(one, resource_weights, feedstock_weights, priority) < cost(
            other,
            resource_weights,
            feedstock_weights,
            priority,
        ),
        cost(other, resource_weights, feedstock_weights, priority) - cost(
            one,
            resource_weights,
            feedstock_weights,
            priority,
        ) >= (focus(other, priority) - focus(one, priority)) * ONE,
{
    let heavy = emphasis(resource_weights, feedstock_weights);
    let near = focus(one, priority);
    let far = focus(other, priority);
    assert(heavy * far - heavy * near == heavy * (far - near)) by (nonlinear_arith);
    assert(heavy * (far - near) >= (far - near) * ONE) by (nonlinear_arith)
        requires
            heavy >= ONE,
            far > near,
    ;
}

/// Switching the priority switches which of two processes is favoured.
///
/// Of two processes that make up a group, each at one half, of the same
/// status and limit and of the same weight in scarcity: under a priority in
/// whose dimension the first has the smaller footprint the first ends with
/// no less than the second, and under a priority in whose dimension the
/// second has the smaller footprint the second ends with no less than the
/// first. Each ends with more than the other where fitness can tell their
/// costs apart, they are not banned, the limit is above one half and the
/// speed is not zero.
pub proof fn priority_switches_the_favoured(
    processes: Seq<Process>,
    resource_weights: ResourceMap<u64>,
    feedstock_weights: FeedstockMap<u64>,
    first_priority: Priority,
    second_priority: Priority,
    speed: u64,
    first: int,
    second: int,
)
    requires
        processes.len() <= usize::MAX,
        input_fault(processes, speed) is None,
        0 <= first < processes.len(),
        0 <= second < processes.len(),
        first != second,
        processes[first].output == processes[second].output,
        members(processes, processes[first].output).len() == 2,
        processes[first].status == processes[second].status,
        processes[first].mix_share == ONE / 2,
        processes[second].mix_share == ONE / 2,
        processes[first].cap() == processes[second].cap(),
        scarcity(processes[first], resource_weights, feedstock_weights) == scarcity(
            processes[second],
            resource_weights,
            feedstock_weights,
        ),
        focus(processes[first], first_priority) < focus(processes[second], first_priority),
        focus(processes[second], second_priority) < focus(processes[first], second_priority),
    ensures
        ({
            let under_first = updated(
                processes,
                resource_weights,
                feedstock_weights,
                first_priority,
                speed,
            );
            let under_second = updated(
                processes,
                resource_weights,
                feedstock_weights,
                second_priority,
                speed,
            );
            let strict = processes[first].status != ProcessStatus::Banned && 2
                * processes[first].cap() > ONE && speed > 0;
            &&& under_first[first].mix_share >= under_first[second].mix_share
            &&& under_second[second].mix_share >= under_second[first].mix_share
            &&& strict && tells_apart(
                cost(processes[first], resource_weights, feedstock_weights, first_priority),
                cost(processes[second], resource_weights, feedstock_weights, first_priority),
            ) ==> under_first[first].mix_share > under_first[second].mix_share
            &&& strict && tells_apart(
                cost(processes[second], resource_weights, feedstock_weights, second_priority),
                cost(processes[first], resource_weights, feedstock_weights, second_priority),
            ) ==> under_second[second].mix_share > under_second[first].mix_share
        }),
{
    priority_decides_cost(
        processes[first],
        processes[second],
        resource_weights,
        feedstock_weights,
        first_priority,
    );
    priority_decides_cost(
        processes[second],
        processes[first],
        resource_weights,
        feedstock_weights,
        second_priority,
    );
    cheaper_gains_in_the_pair(
        processes,
        resource_weights,
        feedstock_weights,
        first_priority,
        speed,
        first,
        second,
    );
    cheaper_gains_in_the_pair(
        processes,
        resource_weights,
        feedstock_weights,
        second_priority,
        speed,
        second,
        first,
    );
}

} // verus!
