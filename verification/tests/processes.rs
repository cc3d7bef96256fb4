use engine::kinds::{
    ByproductMap, Feedstock, FeedstockMap, Output, OutputMap, ResourceMap,
};
use engine::production::planner::Priority;
use engine::production::processes::{
    update_mixes, Process, ProcessChange, ProcessStatus,
};
use engine::units::ONE;

/// A tenth of the way from the current mix to the target in each update.
const SPEED: u64 = ONE / 10;

fn process(id: usize, name: &'static str, mix_share: u64, output: Output, water: u64) -> Process {
    Process {
        id,
        name,
        mix_share,
        limit: None,
        change: ProcessChange::Neutral,
        output,
        output_modifier: ONE,
        resources: ResourceMap { water, ..ResourceMap::default() },
        byproducts: ByproductMap::default(),
        feedstock: (Feedstock::Oil, ONE),
        features: vec![],
        locked: false,
        status: ProcessStatus::Neutral,
        opposers: vec![],
        supporters: vec![],
    }
}

fn gen_processes() -> Vec<Process> {
    vec![
        process(0, "Test Process A", ONE / 2, Output::Fuel, 10 * ONE),
        process(1, "Test Process B", ONE / 2, Output::Fuel, 10 * ONE),
        process(2, "Test Process C", ONE, Output::Electricity, 2 * ONE),
    ]
}

#[test]
fn test_update_mix_share_resources() {
    let priority = Priority::Scarcity;
    let mut processes = gen_processes();
    processes[1].resources = ResourceMap { water: 2 * ONE, ..ResourceMap::default() };
    let demand = OutputMap { fuel: 100 * ONE, ..OutputMap::default() };
    let resource_weights = ResourceMap { water: 100 * ONE, ..ResourceMap::default() };
    let feedstock_weights = FeedstockMap::default();
    update_mixes(&mut processes, &demand, &resource_weights, &feedstock_weights, &priority, SPEED)
        .unwrap();

    // Less water intensive process should be favored
    assert!(processes[0].mix_share < processes[1].mix_share);

    assert_eq!(processes[0].change, ProcessChange::Contracting);
    assert_eq!(processes[1].change, ProcessChange::Expanding);

    // Should be normalized
    assert_eq!(processes[0].mix_share + processes[1].mix_share, ONE);

    // Unrelated process should be unaffected
    assert_eq!(processes[2].mix_share, ONE);
}

#[test]
fn test_update_mix_share_banned() {
    let priority = Priority::Scarcity;
    let mut processes = gen_processes();
    processes[0].status = ProcessStatus::Banned;
    let demand = OutputMap { fuel: 100 * ONE, ..OutputMap::default() };
    let resource_weights = ResourceMap::default();
    let feedstock_weights = FeedstockMap::default();
    update_mixes(&mut processes, &demand, &resource_weights, &feedstock_weights, &priority, SPEED)
        .unwrap();

    // Unbanned process should be favored
    assert!(processes[0].mix_share < processes[1].mix_share);

    assert_eq!(processes[0].change, ProcessChange::Contracting);
    assert_eq!(processes[1].change, ProcessChange::Expanding);

    // Should be normalized
    assert_eq!(processes[0].mix_share + processes[1].mix_share, ONE);
}

#[test]
fn test_update_mix_share_priority() {
    let mut processes = gen_processes();
    processes[0].resources.water = 10 * ONE;
    processes[1].resources.water = ONE;
    processes[0].resources.land = ONE;
    processes[1].resources.land = 10 * ONE;
    processes[0].resources.electricity = 10 * ONE;
    processes[1].resources.fuel = ONE;
    processes[0].byproducts.co2 = ONE;
    processes[1].byproducts.co2 = 10 * ONE;

    let demand = OutputMap { fuel: 100 * ONE, ..OutputMap::default() };
    let resource_weights = ResourceMap::default();
    let feedstock_weights = FeedstockMap::default();

    let priority = Priority::Land;
    processes[0].mix_share = ONE / 2;
    processes[1].mix_share = ONE / 2;
    update_mixes(&mut processes, &demand, &resource_weights, &feedstock_weights, &priority, SPEED)
        .unwrap();

    // Less land intensive process should be favored
    assert!(processes[0].mix_share > processes[1].mix_share);

    let priority = Priority::Water;
    processes[0].mix_share = ONE / 2;
    processes[1].mix_share = ONE / 2;
    update_mixes(&mut processes, &demand, &resource_weights, &feedstock_weights, &priority, SPEED)
        .unwrap();

    // Less water intensive process should be favored
    assert!(processes[1].mix_share > processes[0].mix_share);

    let priority = Priority::Energy;
    processes[0].mix_share = ONE / 2;
    processes[1].mix_share = ONE / 2;
    update_mixes(&mut processes, &demand, &resource_weights, &feedstock_weights, &priority, SPEED)
        .unwrap();

    // Less energy intensive process should be favored
    assert!(processes[1].mix_share > processes[0].mix_share);

    let priority = Priority::Emissions;
    processes[0].mix_share = ONE / 2;
    processes[1].mix_share = ONE / 2;
    update_mixes(&mut processes, &demand, &resource_weights, &feedstock_weights, &priority, SPEED)
        .unwrap();

    // Less emitting process should be favored
    assert!(processes[0].mix_share > processes[1].mix_share);
}

fn run(processes: &mut [Process], priority: Priority, speed: u64) {
    let demand = OutputMap { fuel: 100 * ONE, ..OutputMap::default() };
    update_mixes(
        processes,
        &demand,
        &ResourceMap::default(),
        &FeedstockMap::default(),
        &priority,
        speed,
    )
    .unwrap();
}

fn shares(processes: &[Process]) -> Vec<u64> {
    processes.iter().map(|p| p.mix_share).collect()
}

#[test]
fn resources_scenario_gives_exact_shares() {
    let mut processes = gen_processes();
    processes[1].resources.water = 2 * ONE;
    let demand = OutputMap { fuel: 100 * ONE, ..OutputMap::default() };
    let resource_weights = ResourceMap { water: 100 * ONE, ..ResourceMap::default() };
    update_mixes(
        &mut processes,
        &demand,
        &resource_weights,
        &FeedstockMap::default(),
        &Priority::Scarcity,
        SPEED,
    )
    .unwrap();
    // Costs 1000 and 200 give targets 201/1202 and 1001/1202; a tenth of the
    // way from one half: 0.45 + 0.0167221 and 0.45 + 0.0832779.
    assert_eq!(shares(&processes), vec![466_722, 533_278, ONE]);
    assert_eq!(processes[2].change, ProcessChange::Neutral);
}

#[test]
fn banned_scenario_gives_exact_shares() {
    let mut processes = gen_processes();
    processes[0].status = ProcessStatus::Banned;
    run(&mut processes, Priority::Scarcity, SPEED);
    assert_eq!(shares(&processes), vec![450_000, 550_000, ONE]);
    run(&mut processes, Priority::Scarcity, SPEED);
    assert_eq!(shares(&processes), vec![405_000, 595_000, ONE]);
    assert_eq!(processes[0].change, ProcessChange::Contracting);
    assert_eq!(processes[1].change, ProcessChange::Expanding);
}

#[test]
fn banned_process_is_driven_to_zero_at_full_speed() {
    let mut processes = gen_processes();
    processes[0].status = ProcessStatus::Banned;
    run(&mut processes, Priority::Scarcity, ONE);
    assert_eq!(shares(&processes), vec![0, ONE, ONE]);
    // Nothing is left to take from it.
    run(&mut processes, Priority::Scarcity, ONE);
    assert_eq!(shares(&processes), vec![0, ONE, ONE]);
    assert_eq!(processes[0].change, ProcessChange::Neutral);
    assert_eq!(processes[1].change, ProcessChange::Neutral);
}

#[test]
fn promoted_process_is_favoured() {
    let mut processes = gen_processes();
    processes[1].status = ProcessStatus::Promoted;
    run(&mut processes, Priority::Scarcity, ONE);
    // Twice the fitness of its peer: one third against two thirds.
    assert_eq!(shares(&processes), vec![333_333, 666_667, ONE]);
    assert!(processes[1].is_promoted());
    assert!(!processes[1].is_banned());
}

#[test]
fn each_priority_gives_exact_shares() {
    let mut processes = gen_processes();
    processes[0].resources =
        ResourceMap { land: ONE, water: 10 * ONE, electricity: 10 * ONE, fuel: 0 };
    processes[1].resources = ResourceMap { land: 10 * ONE, water: ONE, electricity: 0, fuel: ONE };
    processes[0].byproducts.co2 = ONE;
    processes[1].byproducts.co2 = 10 * ONE;
    let cases = [
        (Priority::Land, [534_616, 465_384]),
        (Priority::Water, [465_384, 534_616]),
        (Priority::Energy, [465_384, 534_616]),
        (Priority::Emissions, [534_616, 465_384]),
        (Priority::Scarcity, [500_000, 500_000]),
    ];
    for (priority, expected) in cases {
        processes[0].mix_share = ONE / 2;
        processes[1].mix_share = ONE / 2;
        run(&mut processes, priority, SPEED);
        assert_eq!(shares(&processes), vec![expected[0], expected[1], ONE]);
    }
}

#[test]
fn emissions_count_as_carbon_dioxide() {
    let mut processes = gen_processes();
    processes[0].byproducts = ByproductMap { ch4: ONE, ..ByproductMap::default() };
    processes[1].byproducts = ByproductMap { co2: 30 * ONE, ..ByproductMap::default() };
    run(&mut processes, Priority::Emissions, ONE);
    // Costs 36 and 30: fitness 1/37 against 1/31.
    assert_eq!(shares(&processes), vec![455_882, 544_118, ONE]);

    processes[0].byproducts = ByproductMap { n2o: ONE, ..ByproductMap::default() };
    processes[1].byproducts = ByproductMap { co2: 300 * ONE, ..ByproductMap::default() };
    run(&mut processes, Priority::Emissions, ONE);
    // Costs 298 and 300.
    assert_eq!(shares(&processes), vec![501_667, 498_333, ONE]);

    // Loss of biodiversity is no emission.
    processes[0].byproducts = ByproductMap { biodiversity: 50 * ONE, ..ByproductMap::default() };
    processes[1].byproducts = ByproductMap::default();
    run(&mut processes, Priority::Emissions, ONE);
    assert_eq!(shares(&processes), vec![ONE / 2, ONE / 2, ONE]);
}

#[test]
fn feedstock_weighs_by_its_kind() {
    let mut processes = gen_processes();
    processes[0].resources = ResourceMap::default();
    processes[1].resources = ResourceMap::default();
    processes[0].feedstock = (Feedstock::Oil, ONE);
    processes[1].feedstock = (Feedstock::Coal, ONE);
    let feedstock_weights = FeedstockMap { oil: 3 * ONE, coal: ONE, ..FeedstockMap::default() };
    update_mixes(
        &mut processes,
        &OutputMap::default(),
        &ResourceMap::default(),
        &feedstock_weights,
        &Priority::Scarcity,
        ONE,
    )
    .unwrap();
    // Costs 3 and 1: fitness 1/4 against 1/2.
    assert_eq!(shares(&processes), vec![333_333, 666_667, ONE]);
}

#[test]
fn priority_outweighs_the_scarcity_weights() {
    let mut processes = gen_processes();
    processes[0].resources = ResourceMap { water: ONE, ..ResourceMap::default() };
    processes[1].resources = ResourceMap { water: 3 * ONE, ..ResourceMap::default() };
    let resource_weights = ResourceMap { water: 2 * ONE, ..ResourceMap::default() };
    update_mixes(
        &mut processes,
        &OutputMap::default(),
        &resource_weights,
        &FeedstockMap::default(),
        &Priority::Water,
        ONE,
    )
    .unwrap();
    // Water weighs 2 for its scarcity and 1 + 2 more for the priority:
    // costs 5 and 15, fitness 1/6 against 1/16.
    assert_eq!(shares(&processes), vec![727_273, 272_727, ONE]);
}

#[test]
fn cost_beyond_any_range_leaves_the_least_fitness() {
    let max = u64::MAX;
    let mut processes = gen_processes();
    processes[0].resources = ResourceMap::splat(max);
    processes[0].feedstock = (Feedstock::Oil, max);
    let resource_weights = ResourceMap::splat(max);
    let feedstock_weights = FeedstockMap::splat(max);
    processes[1].resources = ResourceMap::default();
    processes[1].feedstock = (Feedstock::Oil, 0);
    update_mixes(
        &mut processes,
        &OutputMap::splat(max),
        &resource_weights,
        &feedstock_weights,
        &Priority::Energy,
        ONE,
    )
    .unwrap();
    assert_eq!(shares(&processes), vec![0, ONE, ONE]);
    assert_eq!(processes[0].change, ProcessChange::Contracting);
}

#[test]
fn limit_is_kept_and_the_rest_goes_to_the_peer() {
    let mut processes = gen_processes();
    processes[0].resources.water = 1000 * ONE;
    processes[1].resources.water = 0;
    processes[1].limit = Some(600_000);
    let resource_weights = ResourceMap { water: ONE, ..ResourceMap::default() };
    update_mixes(
        &mut processes,
        &OutputMap::default(),
        &resource_weights,
        &FeedstockMap::default(),
        &Priority::Scarcity,
        ONE,
    )
    .unwrap();
    assert_eq!(shares(&processes), vec![400_000, 600_000, ONE]);
}

#[test]
fn what_a_limit_holds_back_is_shared_by_weight() {
    let mut processes = vec![
        process(0, "A", 400_000, Output::Fuel, 0),
        process(1, "B", 300_000, Output::Fuel, 0),
        process(2, "C", 300_000, Output::Fuel, 0),
    ];
    processes[1].status = ProcessStatus::Promoted;
    processes[2].status = ProcessStatus::Promoted;
    processes[2].limit = Some(200_000);
    run(&mut processes, Priority::Scarcity, ONE);
    // Targets 0.2, 0.4, 0.4; C stops at 0.2 and the other 0.8 is split 1 : 2.
    assert_eq!(shares(&processes), vec![266_666, 533_334, 200_000]);

    processes[0].mix_share = 400_000;
    processes[1].mix_share = 300_000;
    processes[2].mix_share = 300_000;
    run(&mut processes, Priority::Scarcity, SPEED);
    // Weights 0.38, 0.31, 0.31; C stops at 0.2 and the other 0.8 is split
    // 38 : 31.
    assert_eq!(shares(&processes), vec![440_580, 359_420, 200_000]);
    assert_eq!(processes[0].change, ProcessChange::Expanding);
    assert_eq!(processes[2].change, ProcessChange::Contracting);
}

#[test]
fn limit_above_one_is_no_limit() {
    let mut processes = gen_processes();
    processes[0].status = ProcessStatus::Banned;
    processes[1].limit = Some(5 * ONE);
    run(&mut processes, Priority::Scarcity, ONE);
    assert_eq!(shares(&processes), vec![0, ONE, ONE]);
}

#[test]
fn limit_of_zero_shuts_a_process_out() {
    let mut processes = gen_processes();
    processes[0].limit = Some(0);
    run(&mut processes, Priority::Scarcity, SPEED);
    assert_eq!(shares(&processes), vec![0, ONE, ONE]);
}

#[test]
fn group_of_banned_processes_moves_to_the_even_mix() {
    let mut processes = gen_processes();
    processes[0].status = ProcessStatus::Banned;
    processes[1].status = ProcessStatus::Banned;
    processes[0].mix_share = 300_000;
    processes[1].mix_share = 700_000;
    run(&mut processes, Priority::Scarcity, SPEED);
    assert_eq!(shares(&processes), vec![320_000, 680_000, ONE]);
    run(&mut processes, Priority::Scarcity, ONE);
    assert_eq!(shares(&processes), vec![ONE / 2, ONE / 2, ONE]);
}

#[test]
fn single_process_holds_all_whatever_its_state() {
    for status in [ProcessStatus::Neutral, ProcessStatus::Banned, ProcessStatus::Promoted] {
        for start in [0, 250_000, ONE] {
            for speed in [0, SPEED, ONE] {
                let mut processes = vec![process(0, "alone", start, Output::PlantCalories, 7 * ONE)];
                processes[0].status = status;
                let resource_weights = ResourceMap::splat(9 * ONE);
                update_mixes(
                    &mut processes,
                    &OutputMap::default(),
                    &resource_weights,
                    &FeedstockMap::default(),
                    &Priority::Water,
                    speed,
                )
                .unwrap();
                assert_eq!(processes[0].mix_share, ONE);
            }
        }
    }
}

#[test]
fn three_equal_processes_come_to_one_exactly() {
    let mut processes = vec![
        process(0, "A", 333_333, Output::AnimalCalories, ONE),
        process(1, "B", 333_333, Output::AnimalCalories, ONE),
        process(2, "C", 333_333, Output::AnimalCalories, ONE),
    ];
    run(&mut processes, Priority::Scarcity, SPEED);
    // The unit that rounding leaves goes to the first of the heaviest.
    assert_eq!(shares(&processes), vec![333_334, 333_333, 333_333]);
    assert_eq!(processes[0].change, ProcessChange::Expanding);
    assert_eq!(processes[1].change, ProcessChange::Neutral);
    assert_eq!(shares(&processes).iter().sum::<u64>(), ONE);
}

#[test]
fn shares_that_do_not_come_to_one_are_brought_to_one() {
    let mut processes = gen_processes();
    processes[0].mix_share = ONE;
    processes[1].mix_share = ONE;
    run(&mut processes, Priority::Scarcity, SPEED);
    assert_eq!(shares(&processes), vec![ONE / 2, ONE / 2, ONE]);
    assert_eq!(processes[0].change, ProcessChange::Contracting);

    processes[0].mix_share = 0;
    processes[1].mix_share = 0;
    run(&mut processes, Priority::Scarcity, 0);
    assert_eq!(shares(&processes), vec![ONE / 2, ONE / 2, ONE]);
    assert_eq!(processes[1].change, ProcessChange::Expanding);
}

#[test]
fn speed_of_zero_leaves_a_normal_mix_as_it_is() {
    let mut processes = gen_processes();
    processes[0].mix_share = 250_000;
    processes[1].mix_share = 750_000;
    processes[0].change = ProcessChange::Expanding;
    processes[1].status = ProcessStatus::Banned;
    run(&mut processes, Priority::Land, 0);
    assert_eq!(shares(&processes), vec![250_000, 750_000, ONE]);
    assert_eq!(processes[0].change, ProcessChange::Neutral);
    assert_eq!(processes[1].change, ProcessChange::Neutral);
    assert_eq!(processes[2].change, ProcessChange::Neutral);
}

#[test]
fn demand_does_not_bear_on_the_shares() {
    let mut with_demand = gen_processes();
    let mut without = gen_processes();
    with_demand[1].resources.water = ONE;
    without[1].resources.water = ONE;
    let resource_weights = ResourceMap { water: 3 * ONE, ..ResourceMap::default() };
    update_mixes(
        &mut with_demand,
        &OutputMap::splat(u64::MAX),
        &resource_weights,
        &FeedstockMap::default(),
        &Priority::Scarcity,
        SPEED,
    )
    .unwrap();
    update_mixes(
        &mut without,
        &OutputMap::default(),
        &resource_weights,
        &FeedstockMap::default(),
        &Priority::Scarcity,
        SPEED,
    )
    .unwrap();
    assert_eq!(shares(&with_demand), shares(&without));
    assert_eq!(without[0].mix_share + without[1].mix_share, ONE);
}

#[test]
fn groups_do_not_bear_on_each_other() {
    let mut alone = gen_processes();
    alone[1].resources.water = 2 * ONE;
    let mut crowded = gen_processes();
    crowded[1].resources.water = 2 * ONE;
    crowded.insert(1, process(7, "D", 100_000, Output::Electricity, 50 * ONE));
    crowded.push(process(8, "E", 900_000, Output::PlantCalories, 0));
    crowded[4].status = ProcessStatus::Banned;
    let resource_weights = ResourceMap { water: 100 * ONE, ..ResourceMap::default() };
    for processes in [&mut alone, &mut crowded] {
        update_mixes(
            processes,
            &OutputMap::default(),
            &resource_weights,
            &FeedstockMap::default(),
            &Priority::Scarcity,
            SPEED,
        )
        .unwrap();
    }
    assert_eq!(alone[0].mix_share, crowded[0].mix_share);
    assert_eq!(alone[1].mix_share, crowded[2].mix_share);
    assert_eq!(crowded[0].mix_share, 466_722);
    assert_eq!(crowded[1].mix_share + crowded[3].mix_share, ONE);
    assert_eq!(crowded[4].mix_share, ONE);
}

#[test]
fn update_changes_shares_and_changes_only() {
    let mut processes = gen_processes();
    processes[1].resources.water = 2 * ONE;
    processes[0].features = vec![
        engine::production::processes::ProcessFeature::IsFossil,
        engine::production::processes::ProcessFeature::IsCombustion,
    ];
    processes[0].supporters = vec![3, 4];
    processes[0].opposers = vec![5];
    processes[0].locked = true;
    processes[0].output_modifier = 2 * ONE;
    let before = processes.clone();
    run(&mut processes, Priority::Water, SPEED);
    for (old, new) in before.iter().zip(processes.iter()) {
        assert_eq!(old.id, new.id);
        assert_eq!(old.name, new.name);
        assert_eq!(old.limit, new.limit);
        assert_eq!(old.output, new.output);
        assert_eq!(old.output_modifier, new.output_modifier);
        assert_eq!(old.resources, new.resources);
        assert_eq!(old.byproducts, new.byproducts);
        assert_eq!(old.feedstock, new.feedstock);
        assert_eq!(old.features, new.features);
        assert_eq!(old.locked, new.locked);
        assert_eq!(old.status, new.status);
        assert_eq!(old.supporters, new.supporters);
        assert_eq!(old.opposers, new.opposers);
        assert_eq!(new.change, ProcessChange::between(old.mix_share, new.mix_share));
    }
    assert!(processes[0].mix_share < before[0].mix_share);
}

#[test]
fn update_of_no_processes_does_nothing() {
    let mut processes: Vec<Process> = vec![];
    run(&mut processes, Priority::Scarcity, SPEED);
    assert!(processes.is_empty());
}

fn rejected(processes: &mut Vec<Process>, speed: u64) -> engine::production::planner::InvalidInput {
    let before = processes.clone();
    let outcome = update_mixes(
        processes,
        &OutputMap::default(),
        &ResourceMap::default(),
        &FeedstockMap::default(),
        &Priority::Scarcity,
        speed,
    );
    // Nothing is changed where the input is turned down.
    assert_eq!(shares(processes), shares(&before));
    for (old, new) in before.iter().zip(processes.iter()) {
        assert_eq!(old.change, new.change);
    }
    outcome.unwrap_err()
}

#[test]
fn update_turns_down_a_speed_above_one() {
    let mut processes = gen_processes();
    processes[0].status = ProcessStatus::Banned;
    assert_eq!(
        rejected(&mut processes, ONE + 1),
        engine::production::planner::InvalidInput::SpeedAboveOne
    );
}

#[test]
fn update_turns_down_a_share_above_one() {
    let mut processes = gen_processes();
    processes[0].status = ProcessStatus::Banned;
    processes[2].mix_share = ONE + 1;
    assert_eq!(
        rejected(&mut processes, SPEED),
        engine::production::planner::InvalidInput::ShareAboveOne
    );
}

#[test]
fn update_turns_down_limits_that_leave_demand_unserved() {
    let mut processes = gen_processes();
    processes[0].status = ProcessStatus::Banned;
    processes[0].limit = Some(400_000);
    processes[1].limit = Some(599_999);
    assert_eq!(
        rejected(&mut processes, SPEED),
        engine::production::planner::InvalidInput::LimitsTooTight
    );
    // One unit more and the limits have room for the whole.
    processes[1].limit = Some(600_000);
    run(&mut processes, Priority::Scarcity, SPEED);
    assert_eq!(shares(&processes), vec![400_000, 600_000, ONE]);

    // A process alone in its group cannot hold less than the whole.
    let mut lone = vec![process(0, "alone", ONE, Output::Fuel, 0)];
    lone[0].limit = Some(ONE - 1);
    assert_eq!(
        rejected(&mut lone, SPEED),
        engine::production::planner::InvalidInput::LimitsTooTight
    );
}

#[test]
fn update_reports_the_fault_of_the_first_group() {
    let mut processes = gen_processes();
    // Electricity has a share above one, fuel has limits that are too tight;
    // fuel comes first among the outputs.
    processes[2].mix_share = 2 * ONE;
    processes[0].limit = Some(0);
    processes[1].limit = Some(0);
    assert_eq!(
        rejected(&mut processes, SPEED),
        engine::production::planner::InvalidInput::LimitsTooTight
    );
    // The speed is looked at before the limits.
    assert_eq!(
        rejected(&mut processes, 2 * ONE),
        engine::production::planner::InvalidInput::SpeedAboveOne
    );
}

#[test]
fn production_order_is_the_share_of_the_demand() {
    let processes = gen_processes();
    let demand = OutputMap { fuel: 100 * ONE, electricity: 7, ..OutputMap::default() };
    let order = processes[0].production_order(&demand);
    assert_eq!(order.amount, 50 * ONE);
    assert_eq!(order.process.id, 0);
    let order = processes[2].production_order(&demand);
    assert_eq!(order.amount, 7);
    assert_eq!(order.process.name, "Test Process C");

    let mut small = process(3, "small", 333_333, Output::Electricity, 0);
    // 7 * 0.333333 = 2.333331, rounded down.
    assert_eq!(small.production_order(&demand).amount, 2);
    small.mix_share = 0;
    assert_eq!(small.production_order(&demand).amount, 0);
    small.mix_share = ONE;
    let all = OutputMap::splat(u64::MAX);
    assert_eq!(small.production_order(&all).amount, u64::MAX);
    small.mix_share = ONE / 2;
    assert_eq!(small.production_order(&all).amount, u64::MAX / 2);
}

#[test]
fn status_queries_tell_the_status() {
    let mut p = process(0, "p", ONE, Output::Fuel, 0);
    assert!(!p.is_banned());
    assert!(!p.is_promoted());
    p.status = ProcessStatus::Banned;
    assert!(p.is_banned());
    assert!(!p.is_promoted());
    p.status = ProcessStatus::Promoted;
    assert!(!p.is_banned());
    assert!(p.is_promoted());
}

#[test]
fn change_is_read_from_the_two_shares() {
    assert_eq!(ProcessChange::between(5, 5), ProcessChange::Neutral);
    assert_eq!(ProcessChange::between(5, 6), ProcessChange::Expanding);
    assert_eq!(ProcessChange::between(5, 4), ProcessChange::Contracting);
    assert_eq!(ProcessChange::between(0, 0), ProcessChange::Neutral);
    assert_eq!(ProcessChange::between(0, ONE), ProcessChange::Expanding);
}

#[test]
fn clone_copies_every_field() {
    let mut p = process(4, "copy", 123, Output::AnimalCalories, 9);
    p.limit = Some(456);
    p.features = vec![engine::production::processes::ProcessFeature::UsesLivestock];
    p.supporters = vec![1];
    p.opposers = vec![2, 3];
    p.status = ProcessStatus::Promoted;
    p.change = ProcessChange::Contracting;
    p.locked = true;
    let q = p.clone();
    assert_eq!(format!("{:?}", p), format!("{:?}", q));
}

#[test]
fn ban_shows_in_a_group_of_three() {
    let mut processes = vec![
        process(0, "A", 300_000, Output::Fuel, 0),
        process(1, "B", 300_000, Output::Fuel, 0),
        process(2, "C", 400_000, Output::Fuel, 0),
    ];
    processes[0].status = ProcessStatus::Banned;
    run(&mut processes, Priority::Scarcity, SPEED);
    // The targets are 0, 0.5 and 0.5.
    assert_eq!(shares(&processes), vec![270_000, 320_000, 410_000]);
    assert_eq!(processes[0].change, ProcessChange::Contracting);
    assert_eq!(processes[1].change, ProcessChange::Expanding);
    assert_eq!(processes[2].change, ProcessChange::Expanding);
}

#[test]
fn step_is_no_longer_than_the_speed() {
    for speed in [0, 1, 1_000, SPEED, ONE / 2, ONE] {
        let mut processes = vec![
            process(0, "A", 700_000, Output::Fuel, 90 * ONE),
            process(1, "B", 200_000, Output::Fuel, 0),
            process(2, "C", 100_000, Output::Fuel, 3 * ONE),
        ];
        processes[1].status = ProcessStatus::Promoted;
        let before = shares(&processes);
        let resource_weights = ResourceMap { water: 5 * ONE, ..ResourceMap::default() };
        update_mixes(
            &mut processes,
            &OutputMap::default(),
            &resource_weights,
            &FeedstockMap::default(),
            &Priority::Water,
            speed,
        )
        .unwrap();
        let after = shares(&processes);
        assert_eq!(after.iter().sum::<u64>(), ONE);
        for (old, new) in before.iter().zip(after.iter()) {
            let (old, new) = (*old as u128, *new as u128);
            let (one, speed) = (ONE as u128, speed as u128);
            assert!(one * new + one > (one - speed) * old);
            assert!(one * new <= (one - speed) * old + speed * one + one * 2);
        }
        if speed == 0 {
            assert_eq!(after, before);
        }
        if speed == ONE {
            // Water weighs 5 for its scarcity and 6 more for the priority:
            // costs 990, 0 and 33. The second is promoted, so the targets
            // are 1/991, 2 and 1/34 over their sum.
            assert_eq!(after, vec![496, 985_019, 14_485]);
        }
    }
}
