use engine::kinds::{ByproductMap, Feedstock, FeedstockMap, Output, ResourceMap};
use engine::production::planner::{calculate_mix, InvalidInput, Priority, MAX_GROUP};
use engine::production::processes::{Process, ProcessChange, ProcessStatus};
use engine::units::ONE;

fn plain_process(status: ProcessStatus, limit: Option<u64>) -> Process {
    Process {
        id: 0,
        name: "p",
        mix_share: 0,
        limit,
        change: ProcessChange::Neutral,
        output: Output::Fuel,
        output_modifier: ONE,
        resources: ResourceMap::default(),
        byproducts: ByproductMap::default(),
        feedstock: (Feedstock::Other, 0),
        features: vec![],
        locked: false,
        status,
        opposers: vec![],
        supporters: vec![],
    }
}

fn mix_of(mix: Vec<u64>, processes: &Vec<&Process>, speed: u64) -> Result<Vec<u64>, InvalidInput> {
    calculate_mix(
        mix,
        0,
        processes,
        &ResourceMap::default(),
        &FeedstockMap::default(),
        &Priority::Scarcity,
        speed,
    )
}

#[test]
fn planner_uses_the_mix_it_is_given() {
    // The shares that the processes themselves hold are not looked at.
    let mut a = plain_process(ProcessStatus::Banned, None);
    a.mix_share = 999;
    let b = plain_process(ProcessStatus::Neutral, None);
    let planned = mix_of(vec![200_000, 800_000], &vec![&a, &b], ONE / 2).unwrap();
    assert_eq!(planned, vec![100_000, 900_000]);
}

#[test]
fn planner_gives_nothing_to_an_empty_group() {
    assert_eq!(mix_of(vec![], &vec![], ONE), Ok(vec![]));
}

#[test]
fn planner_turns_down_a_length_mismatch() {
    let a = plain_process(ProcessStatus::Neutral, None);
    assert_eq!(mix_of(vec![ONE, 0], &vec![&a], 0), Err(InvalidInput::LengthMismatch));
    assert_eq!(mix_of(vec![], &vec![&a], 0), Err(InvalidInput::LengthMismatch));
    // The lengths are looked at first.
    assert_eq!(mix_of(vec![2 * ONE, 0], &vec![&a], 2 * ONE), Err(InvalidInput::LengthMismatch));
}

#[test]
fn planner_turns_down_a_speed_above_one() {
    let a = plain_process(ProcessStatus::Neutral, None);
    assert_eq!(mix_of(vec![ONE], &vec![&a], ONE + 1), Err(InvalidInput::SpeedAboveOne));
    assert_eq!(mix_of(vec![ONE], &vec![&a], u64::MAX), Err(InvalidInput::SpeedAboveOne));
    assert_eq!(mix_of(vec![ONE], &vec![&a], ONE), Ok(vec![ONE]));
}

#[test]
fn planner_turns_down_a_share_above_one() {
    let a = plain_process(ProcessStatus::Neutral, None);
    assert_eq!(mix_of(vec![0, ONE + 1], &vec![&a, &a], 0), Err(InvalidInput::ShareAboveOne));
    assert_eq!(mix_of(vec![ONE, ONE], &vec![&a, &a], 0), Ok(vec![ONE / 2, ONE / 2]));
}

#[test]
fn planner_turns_down_limits_that_are_too_tight() {
    let a = plain_process(ProcessStatus::Neutral, Some(ONE / 2));
    let b = plain_process(ProcessStatus::Neutral, Some(ONE / 2 - 1));
    assert_eq!(mix_of(vec![0, 0], &vec![&a, &b], 0), Err(InvalidInput::LimitsTooTight));
    assert_eq!(mix_of(vec![0, 0], &vec![&a, &a], 0), Ok(vec![ONE / 2, ONE / 2]));
    // A share above one is reported before the limits.
    assert_eq!(mix_of(vec![0, ONE + 1], &vec![&a, &b], 0), Err(InvalidInput::ShareAboveOne));
}

#[test]
fn planner_turns_down_a_group_that_is_too_large() {
    let a = plain_process(ProcessStatus::Neutral, None);
    let processes: Vec<&Process> = vec![&a; MAX_GROUP + 1];
    let mix: Vec<u64> = vec![0; MAX_GROUP + 1];
    assert_eq!(mix_of(mix, &processes, ONE), Err(InvalidInput::GroupTooLarge));
}

#[test]
fn planner_takes_the_largest_group() {
    let a = plain_process(ProcessStatus::Promoted, None);
    let processes: Vec<&Process> = vec![&a; MAX_GROUP];
    let mix: Vec<u64> = vec![ONE; MAX_GROUP];
    let planned = mix_of(mix, &processes, ONE / 2).unwrap();
    assert_eq!(planned.len(), MAX_GROUP);
    assert!(planned.iter().all(|share| *share == 1));
}

#[test]
fn planner_keeps_limits_when_all_are_tight() {
    let a = plain_process(ProcessStatus::Banned, Some(250_000));
    let b = plain_process(ProcessStatus::Promoted, Some(250_000));
    let c = plain_process(ProcessStatus::Neutral, Some(500_000));
    let planned = mix_of(vec![ONE, 0, 0], &vec![&a, &b, &c], ONE / 3).unwrap();
    assert_eq!(planned, vec![250_000, 250_000, 500_000]);
}

#[test]
fn planner_closes_limits_in_several_rounds() {
    // At full speed the targets are 0.4, 0.4, 0.2. The first process stops
    // at 0.1; of the 0.9 left two thirds would be 0.6, so the second stops
    // at 0.5, and the third takes 0.4.
    let a = plain_process(ProcessStatus::Promoted, Some(100_000));
    let b = plain_process(ProcessStatus::Promoted, Some(500_000));
    let c = plain_process(ProcessStatus::Neutral, None);
    let planned = mix_of(vec![0, 0, ONE], &vec![&a, &b, &c], ONE).unwrap();
    assert_eq!(planned, vec![100_000, 500_000, 400_000]);
}

#[test]
fn messages_name_the_fault() {
    assert_eq!(
        InvalidInput::LengthMismatch.message(),
        "the shares and the processes differ in number"
    );
    assert_eq!(InvalidInput::SpeedAboveOne.message(), "the speed is above one");
    assert_eq!(InvalidInput::GroupTooLarge.message(), "too many processes share an output");
    assert_eq!(InvalidInput::ShareAboveOne.message(), "a share is above one");
    assert_eq!(
        InvalidInput::LimitsTooTight.message(),
        "the limits of a group come to less than one"
    );
}
