//! Production processes and the update of their shares.

use vstd::prelude::*;
use crate::kinds::{ByproductMap, Feedstock, FeedstockMap, Output, OutputMap, ResourceMap};
use crate::production::apportion::widen64;
use crate::production::planner::{
    calculate_mix, fault, plain, planned_mix, InvalidInput, Priority,
};
use crate::production::ProductionOrder;
use crate::units::{scale, spec_scale, ONE};

verus! {

/// A trait of a process that policies and events look at.
#[derive(Debug, Copy, Clone, PartialEq, Eq, Structural)]
pub enum ProcessFeature {
    UsesPesticides,
    UsesSynFertilizer,
    UsesLivestock,
    IsIntermittent,
    IsNuclear,
    IsSolar,
    IsCCS,
    IsCombustion,
    IsFossil,
}

/// What the player has ruled on a process.
#[derive(Debug, Copy, Clone, PartialEq, Eq, Structural)]
pub enum ProcessStatus {
    Neutral,
    Banned,
    Promoted,
}

/// Which way the share of a process moved in the last update.
#[derive(Debug, Copy, Clone, PartialEq, Eq, Structural)]
pub enum ProcessChange {
    Neutral,
    Expanding,
    Contracting,
}

/// A coarse measure of how much a process needs of something.
#[derive(Debug, Copy, Clone, PartialEq, Eq, Structural)]
pub enum ProcessIntensity {
    Low,
    Medium,
    High,
}

/// One way of producing an output.
#[derive(Debug)]
pub struct Process {
    pub id: usize,
    pub name: &'static str,
    /// The part of the demand for `output` that this process serves.
    pub mix_share: u64,
    /// The greatest share this process may be given, if it is bounded.
    pub limit: Option<u64>,
    pub output: Output,
    /// Efficiency of the process; it starts at [`ONE`].
    pub output_modifier: u64,
    /// What a unit of output consumes of each resource.
    pub resources: ResourceMap<u64>,
    /// What a unit of output gives off of each byproduct.
    pub byproducts: ByproductMap<u64>,
    /// The raw material of the process and what a unit of output needs of it.
    pub feedstock: (Feedstock, u64),
    pub features: Vec<ProcessFeature>,
    /// Whether the player has yet to unlock this process.
    pub locked: bool,
    pub status: ProcessStatus,
    pub change: ProcessChange,
    pub supporters: Vec<usize>,
    pub opposers: Vec<usize>,
}

impl ProcessChange {
    /// The direction from an old share to a new one.
    pub open spec fn spec_between(old_share: u64, new_share: u64) -> ProcessChange {
        if new_share > old_share {
            ProcessChange::Expanding
        } else if new_share < old_share {
            ProcessChange::Contracting
        } else {
            ProcessChange::Neutral
        }
    }

    /// The direction from an old share to a new one: expanding where the
    /// new is greater, contracting where it is smaller, neutral where the
    /// two are the same number.
    pub fn between(old_share: u64, new_share: u64) -> (change: ProcessChange)
        ensures
            change == Self::spec_between(old_share, new_share),
    {
        if new_share > old_share {
            ProcessChange::Expanding
        } else if new_share < old_share {
            ProcessChange::Contracting
        } else {
            ProcessChange::Neutral
        }
    }
}

impl Clone for Process {
    /// A process with the same value in every field.
    fn clone(&self) -> (copy: Self)
        ensures
            copy.id == self.id,
            copy.name == self.name,
            copy.mix_share == self.mix_share,
            copy.limit == self.limit,
            copy.output == self.output,
            copy.output_modifier == self.output_modifier,
            copy.resources == self.resources,
            copy.byproducts == self.byproducts,
            copy.feedstock == self.feedstock,
            copy.features@ == self.features@,
            copy.locked == self.locked,
            copy.status == self.status,
            copy.change == self.change,
            copy.supporters@ == self.supporters@,
            copy.opposers@ == self.opposers@,
    {
        Process {
            id: self.id,
            name: self.name,
            mix_share: self.mix_share,
            limit: self.limit,
            output: self.output,
            output_modifier: self.output_modifier,
            resources: self.resources,
            byproducts: self.byproducts,
            feedstock: (self.feedstock.0, self.feedstock.1),
            features: self.features.clone(),
            locked: self.locked,
            status: self.status,
            change: self.change,
            supporters: self.supporters.clone(),
            opposers: self.opposers.clone(),
        }
    }
}

impl Process {
    /// Whether the share of this process is a part of one.
    pub open spec fn well_formed(self) -> bool {
        self.mix_share <= ONE
    }

    /// The greatest share this process can hold: its limit, and never more
    /// than the whole.
    pub open spec fn cap(self) -> nat {
        match self.limit {
            Some(limit) => if limit < ONE {
                limit as nat
            } else {
                ONE as nat
            },
            None => ONE as nat,
        }
    }

    /// The order for this process when `demand` is shared by the current
    /// mix: its share of the demand for its output, rounded down.
    pub fn production_order(&self, demand: &OutputMap<u64>) -> (order: ProductionOrder<'_>)
        requires
            self.well_formed(),
        ensures
            order.process == self,
            order.amount == spec_scale(demand.at(self.output), self.mix_share),
    {
        ProductionOrder { process: self, amount: scale(*demand.get(self.output), self.mix_share) }
    }

    /// Whether the player has banned this process.
    pub fn is_banned(&self) -> (banned: bool)
        ensures
            banned == (self.status == ProcessStatus::Banned),
    {
        self.status == ProcessStatus::Banned
    }

    /// Whether the player has promoted this process.
    pub fn is_promoted(&self) -> (promoted: bool)
        ensures
            promoted == (self.status == ProcessStatus::Promoted),
    {
        self.status == ProcessStatus::Promoted
    }
}

/// The indices, in rising order, of those among the first `n` processes that
/// produce `output`.
pub open spec fn members_to(processes: Seq<Process>, output: Output, n: int) -> Seq<usize>
    decreases n,
{
    if n <= 0 {
        Seq::empty()
    } else {
        let before = members_to(processes, output, n - 1);
        if processes[n - 1].output == output {
            before.push((n - 1) as usize)
        } else {
            before
        }
    }
}

/// The indices, in rising order, of the processes that produce `output`.
pub open spec fn members(processes: Seq<Process>, output: Output) -> Seq<usize> {
    members_to(processes, output, processes.len() as int)
}

/// The processes that produce `output`, in the order in which they stand.
pub open spec fn group(processes: Seq<Process>, output: Output) -> Seq<Process> {
    Seq::new(
        members(processes, output).len(),
        |k: int| processes[members(processes, output)[k] as int],
    )
}

/// The current shares of the processes that produce `output`.
pub open spec fn group_mix(processes: Seq<Process>, output: Output) -> Seq<u64> {
    Seq::new(
        members(processes, output).len(),
        |k: int| processes[members(processes, output)[k] as int].mix_share,
    )
}

/// The place of process `i` in its group: how many processes before it
/// produce the same output.
pub open spec fn rank(processes: Seq<Process>, i: int) -> int {
    members_to(processes, processes[i].output, i).len() as int
}

/// What is wrong with the group of `output`, if anything.
pub open spec fn group_fault(processes: Seq<Process>, output: Output, speed: u64) -> Option<
    InvalidInput,
> {
    fault(group_mix(processes, output), group(processes, output), speed)
}

/// What is wrong with the input of an update, if anything: the fault of the
/// first group that has one, in the order of the outputs.
pub open spec fn input_fault(processes: Seq<Process>, speed: u64) -> Option<InvalidInput> {
    if group_fault(processes, Output::Fuel, speed) is Some {
        group_fault(processes, Output::Fuel, speed)
    } else if group_fault(processes, Output::Electricity, speed) is Some {
        group_fault(processes, Output::Electricity, speed)
    } else if group_fault(processes, Output::PlantCalories, speed) is Some {
        group_fault(processes, Output::PlantCalories, speed)
    } else {
        group_fault(processes, Output::AnimalCalories, speed)
    }
}

/// The new shares of the processes that produce `output`.
pub open spec fn group_plan(
    processes: Seq<Process>,
    output: Output,
    resource_weights: ResourceMap<u64>,
    feedstock_weights: FeedstockMap<u64>,
    priority: Priority,
    speed: u64,
) -> Seq<nat> {
    planned_mix(
        group_mix(processes, output),
        group(processes, output),
        resource_weights,
        feedstock_weights,
        priority,
        speed,
    )
}

/// The new share of process `i`: what the plan of its group holds at its
/// place.
pub open spec fn new_share(
    processes: Seq<Process>,
    resource_weights: ResourceMap<u64>,
    feedstock_weights: FeedstockMap<u64>,
    priority: Priority,
    speed: u64,
    i: int,
) -> nat {
    group_plan(
        processes,
        processes[i].output,
        resource_weights,
        feedstock_weights,
        priority,
        speed,
    )[rank(processes, i)]
}

/// A process with a new share, and with the direction in which the share
/// moved; all else as it was.
pub open spec fn moved(process: Process, share: u64) -> Process {
    Process {
        mix_share: share,
        change: ProcessChange::spec_between(process.mix_share, share),
        ..process
    }
}

/// The processes after an update: each with its new share.
pub open spec fn updated(
    processes: Seq<Process>,
    resource_weights: ResourceMap<u64>,
    feedstock_weights: FeedstockMap<u64>,
    priority: Priority,
    speed: u64,
) -> Seq<Process> {
    Seq::new(
        processes.len(),
        |i: int|
            moved(
                processes[i],
                new_share(processes, resource_weights, feedstock_weights, priority, speed, i) as u64,
            ),
    )
}

/// The members of a group depend on the outputs of the processes alone.
pub proof fn lemma_members_by_output(a: Seq<Process>, b: Seq<Process>, output: Output, n: int)
    requires
        forall|i: int| 0 <= i < n ==> (#[trigger] a[i]).output == b[i].output,
    ensures
        members_to(a, output, n) == members_to(b, output, n),
    decreases n,
{
    if n > 0 {
        lemma_members_by_output(a, b, output, n - 1);
    }
}

/// The members among fewer processes are the first of the members among
/// more.
pub proof fn lemma_members_prefix(processes: Seq<Process>, output: Output, few: int, many: int)
    requires
        0 <= few <= many,
    ensures
        members_to(processes, output, few).len() <= members_to(processes, output, many).len(),
        forall|k: int|
            0 <= k < members_to(processes, output, few).len() ==> members_to(
                processes,
                output,
                few,
            )[k] == #[trigger] members_to(processes, output, many)[k],
    decreases many - few,
{
    if few < many {
        lemma_members_prefix(processes, output, few, many - 1);
    }
}

/// Each member is the index of a process of the group, and stands before
/// `n`; members rise with their place.
pub proof fn lemma_members_within(processes: Seq<Process>, output: Output, n: int)
    requires
        0 <= n <= processes.len(),
        processes.len() <= usize::MAX,
    ensures
        members_to(processes, output, n).len() <= n,
        forall|k: int|
            0 <= k < members_to(processes, output, n).len() ==> {
                let i = #[trigger] members_to(processes, output, n)[k];
                &&& 0 <= i < n
                &&& processes[i as int].output == output
                &&& rank(processes, i as int) == k
            },
    decreases n,
{
    if n > 0 {
        lemma_members_within(processes, output, n - 1);
    }
}

/// A process of the group stands among the members, at its rank.
pub proof fn lemma_member_at_rank(processes: Seq<Process>, i: int)
    requires
        0 <= i < processes.len(),
        processes.len() <= usize::MAX,
    ensures
        rank(processes, i) < members(processes, processes[i].output).len(),
        members(processes, processes[i].output)[rank(processes, i)] == i,
{
    let output = processes[i].output;
    lemma_members_prefix(processes, output, i + 1, processes.len() as int);
    assert(members_to(processes, output, i + 1) == members_to(processes, output, i).push(
        i as usize,
    ));
}

/// Sorts the indices of the processes by output.
fn partition(processes: &[Process]) -> (groups: OutputMap<Vec<usize>>)
    ensures
        groups.fuel@ == members(processes@, Output::Fuel),
        groups.electricity@ == members(processes@, Output::Electricity),
        groups.plant_calories@ == members(processes@, Output::PlantCalories),
        groups.animal_calories@ == members(processes@, Output::AnimalCalories),
{
    let n: usize = processes.len();
    let mut groups: OutputMap<Vec<usize>> = OutputMap {
        fuel: Vec::new(),
        electricity: Vec::new(),
        plant_calories: Vec::new(),
        animal_calories: Vec::new(),
    };
    let mut i: usize = 0;
    while i < n
        invariant
            n == processes.len(),
            i <= n,
            groups.fuel@ == members_to(processes@, Output::Fuel, i as int),
            groups.electricity@ == members_to(processes@, Output::Electricity, i as int),
            groups.plant_calories@ == members_to(processes@, Output::PlantCalories, i as int),
            groups.animal_calories@ == members_to(processes@, Output::AnimalCalories, i as int),
        decreases n - i,
    {
        match processes[i].output {
            Output::Fuel => {
                groups.fuel.push(i);
            },
            Output::Electricity => {
                groups.electricity.push(i);
            },
            Output::PlantCalories => {
                groups.plant_calories.push(i);
            },
            Output::AnimalCalories => {
                groups.animal_calories.push(i);
            },
        }
        i = i + 1;
    }
    groups
}

/// Plans the new shares of the group of `output`.
fn plan_group(
    processes: &[Process],
    indices: &Vec<usize>,
    output: Output,
    demand: u64,
    resource_weights: &ResourceMap<u64>,
    feedstock_weights: &FeedstockMap<u64>,
    priority: &Priority,
    speed: u64,
) -> (planned: Result<Vec<u64>, InvalidInput>)
    requires
        indices@ == members(processes@, output),
    ensures
        match planned {
            Ok(shares) => group_fault(processes@, output, speed) is None && widen64(shares@)
                == group_plan(
                processes@,
                output,
                *resource_weights,
                *feedstock_weights,
                *priority,
                speed,
            ) && shares.len() == indices.len(),
            Err(reason) => group_fault(processes@, output, speed) == Some(reason),
        },
{
    let n: usize = indices.len();
    let mut mix: Vec<u64> = Vec::new();
    let mut chosen: Vec<&Process> = Vec::new();
    let mut k: usize = 0;
    let all: usize = processes.len();
    proof {
        lemma_members_within(processes@, output, all as int);
    }
    while k < n
        invariant
            n == indices.len(),
            indices@ == members(processes@, output),
            forall|j: int| 0 <= j < n ==> 0 <= #[trigger] indices@[j] < processes@.len(),
            k <= n,
            mix.len() == k,
            chosen.len() == k,
            forall|j: int|
                0 <= j < k ==> #[trigger] mix@[j] == processes@[indices@[j] as int].mix_share,
            forall|j: int| 0 <= j < k ==> *#[trigger] chosen@[j] == processes@[indices@[j] as int],
        decreases n - k,
    {
        let at: usize = indices[k];
        mix.push(processes[at].mix_share);
        chosen.push(&processes[at]);
        k = k + 1;
    }
    assert(mix@ =~= group_mix(processes@, output));
    assert(plain(chosen@) =~= group(processes@, output));
    calculate_mix(mix, demand, &chosen, resource_weights, feedstock_weights, priority, speed)
}

/// Gives the processes of the group of `output` their new shares.
fn apply(processes: &mut [Process], indices: &Vec<usize>, shares: &Vec<u64>, Ghost(output): Ghost<
    Output,
>)
    requires
        indices@ == members(old(processes)@, output),
        shares.len() == indices.len(),
    ensures
        final(processes)@.len() == old(processes)@.len(),
        forall|i: int|
            0 <= i < old(processes)@.len() ==> #[trigger] final(processes)@[i] == (if old(processes)@[i].output
                == output {
                moved(old(processes)@[i], shares@[rank(old(processes)@, i)])
            } else {
                old(processes)@[i]
            }),
{
    let n: usize = indices.len();
    let all: usize = processes.len();
    let ghost before = processes@;
    let mut k: usize = 0;
    proof {
        lemma_members_within(before, output, all as int);
    }
    while k < n
        invariant
            n == indices.len(),
            n == shares.len(),
            before == old(processes)@,
            indices@ == members(before, output),
            processes@.len() == before.len(),
            before.len() == all,
            forall|j: int|
                0 <= j < n ==> {
                    let i = #[trigger] indices@[j];
                    &&& 0 <= i < before.len()
                    &&& before[i as int].output == output
                    &&& rank(before, i as int) == j
                },
            k <= n,
            forall|i: int|
                0 <= i < before.len() ==> #[trigger] processes@[i] == (if before[i].output
                    == output && rank(before, i) < k {
                    moved(before[i], shares@[rank(before, i)])
                } else {
                    before[i]
                }),
        decreases n - k,
    {
        let at: usize = indices[k];
        let share: u64 = shares[k];
        let ghost held = processes@;
        assert(held[at as int] == before[at as int]);
        processes[at].change = ProcessChange::between(processes[at].mix_share, share);
        processes[at].mix_share = share;
        proof {
            assert(processes@[at as int] == moved(before[at as int], share));
            assert forall|i: int| 0 <= i < before.len() implies #[trigger] processes@[i] == (
            if before[i].output == output && rank(before, i) < k + 1 {
                moved(before[i], shares@[rank(before, i)])
            } else {
                before[i]
            }) by {
                if i != at {
                    assert(processes@[i] == held[i]);
                    if before[i].output == output && rank(before, i) == k {
                        lemma_member_at_rank(before, i);
                    }
                }
            }
        }
        k = k + 1;
    }
    proof {
        assert forall|i: int| 0 <= i < before.len() && before[i].output == output implies rank(
            before,
            i,
        ) < n by {
            lemma_member_at_rank(before, i);
        }
    }
}

/// The rank of a process depends on the outputs of the processes alone.
pub proof fn lemma_rank_by_output(a: Seq<Process>, b: Seq<Process>, i: int)
    requires
        a.len() == b.len(),
        0 <= i < a.len(),
        forall|j: int| 0 <= j < a.len() ==> (#[trigger] a[j]).output == b[j].output,
    ensures
        rank(a, i) == rank(b, i),
{
    lemma_members_by_output(a, b, a[i].output, i);
}

/// Moves the mix of every output towards the processes that cost least.
///
/// The processes are grouped by output, and each group is given the shares
/// that [`calculate_mix`] plans for it from its current shares, the weights,
/// the priority and the speed. The speed, a part of [`ONE`], says how far
/// a step goes from the current mix to the mix that fitness alone would
/// give. Every process then holds its new share, and its `change` says which
/// way the share moved: expanding where the new share is greater than the
/// old, contracting where it is smaller, neutral where the two are the same
/// number. Nothing else changes, and no group bears on the shares of
/// another. The shares say how the capacity of an output is split, so they
/// are planned for every output, whatever the demand for it.
///
/// Where a group has a fault the update is turned down with the fault of the
/// first such group, and no process is changed.
pub fn update_mixes(
    processes: &mut [Process],
    demand: &OutputMap<u64>,
    resource_weights: &ResourceMap<u64>,
    feedstock_weights: &FeedstockMap<u64>,
    priority: &Priority,
    speed: u64,
) -> (outcome: Result<(), InvalidInput>)
    ensures
        match outcome {
            Ok(()) => input_fault(old(processes)@, speed) is None && final(processes)@ == updated(
                old(processes)@,
                *resource_weights,
                *feedstock_weights,
                *priority,
                speed,
            ),
            Err(reason) => input_fault(old(processes)@, speed) == Some(reason)
                && final(processes)@ == old(processes)@,
        },
{
    let groups: OutputMap<Vec<usize>> = partition(processes);
    let fuel: Vec<u64> = match plan_group(
        processes,
        &groups.fuel,
        Output::Fuel,
        demand.fuel,
        resource_weights,
        feedstock_weights,
        priority,
        speed,
    ) {
        Ok(shares) => shares,
        Err(reason) => {
            return Err(reason);
        },
    };
    let electricity: Vec<u64> = match plan_group(
        processes,
        &groups.electricity,
        Output::Electricity,
        demand.electricity,
        resource_weights,
        feedstock_weights,
        priority,
        speed,
    ) {
        Ok(shares) => shares,
        Err(reason) => {
            return Err(reason);
        },
    };
    let plant_calories: Vec<u64> = match plan_group(
        processes,
        &groups.plant_calories,
        Output::PlantCalories,
        demand.plant_calories,
        resource_weights,
        feedstock_weights,
        priority,
        speed,
    ) {
        Ok(shares) => shares,
        Err(reason) => {
            return Err(reason);
        },
    };
    let animal_calories: Vec<u64> = match plan_group(
        processes,
        &groups.animal_calories,
        Output::AnimalCalories,
        demand.animal_calories,
        resource_weights,
        feedstock_weights,
        priority,
        speed,
    ) {
        Ok(shares) => shares,
        Err(reason) => {
            return Err(reason);
        },
    };
    let count: usize = processes.len();
    let ghost before = processes@;
    let ghost n = count as int;
    apply(processes, &groups.fuel, &fuel, Ghost(Output::Fuel));
    let ghost first = processes@;
    proof {
        lemma_members_by_output(first, before, Output::Electricity, n);
    }
    apply(processes, &groups.electricity, &electricity, Ghost(Output::Electricity));
    let ghost second = processes@;
    proof {
        lemma_members_by_output(second, before, Output::PlantCalories, n);
    }
    apply(processes, &groups.plant_calories, &plant_calories, Ghost(Output::PlantCalories));
    let ghost third = processes@;
    proof {
        lemma_members_by_output(third, before, Output::AnimalCalories, n);
    }
    apply(processes, &groups.animal_calories, &animal_calories, Ghost(Output::AnimalCalories));
    proof {
        let after = updated(before, *resource_weights, *feedstock_weights, *priority, speed);
        assert forall|i: int| 0 <= i < n implies processes@[i] == after[i] by {
            lemma_rank_by_output(first, before, i);
            lemma_rank_by_output(second, before, i);
            lemma_rank_by_output(third, before, i);
            lemma_member_at_rank(before, i);
            let k = rank(before, i);
            let wanted = new_share(
                before,
                *resource_weights,
                *feedstock_weights,
                *priority,
                speed,
                i,
            );
            match before[i].output {
                Output::Fuel => {
                    assert(widen64(fuel@)[k] == wanted);
                    assert(first[i] == moved(before[i], fuel@[k]));
                    assert(second[i] == first[i]);
                    assert(third[i] == second[i]);
                },
                Output::Electricity => {
                    assert(widen64(electricity@)[k] == wanted);
                    assert(first[i] == before[i]);
                    assert(second[i] == moved(before[i], electricity@[k]));
                    assert(third[i] == second[i]);
                },
                Output::PlantCalories => {
                    assert(widen64(plant_calories@)[k] == wanted);
                    assert(first[i] == before[i]);
                    assert(second[i] == first[i]);
                    assert(third[i] == moved(before[i], plant_calories@[k]));
                },
                Output::AnimalCalories => {
                    assert(widen64(animal_calories@)[k] == wanted);
                    assert(first[i] == before[i]);
                    assert(second[i] == first[i]);
                    assert(third[i] == second[i]);
                },
            }
        }
        assert(processes@ =~= after);
    }
    Ok(())
}

} // verus!
