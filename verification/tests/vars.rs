use engine::events::vars::{LocalVariable, PlayerVariable, WorldVariable};
use engine::production::processes::{ProcessFeature, ProcessIntensity};

#[test]
fn world_variables_are_a_closed_set() {
    let all = [
        WorldVariable::Year,
        WorldVariable::Population,
        WorldVariable::Emissions,
        WorldVariable::ExtinctionRate,
        WorldVariable::Outlook,
        WorldVariable::Temperature,
        WorldVariable::WaterStress,
        WorldVariable::SeaLevelRise,
        WorldVariable::Precipitation,
    ];
    for (i, a) in all.iter().enumerate() {
        for (j, b) in all.iter().enumerate() {
            assert_eq!(a == b, i == j);
        }
    }
    let copy = all[3];
    assert_eq!(format!("{:?}", copy), "ExtinctionRate");
}

#[test]
fn local_and_player_variables_are_closed_sets() {
    let local = [LocalVariable::Population, LocalVariable::Outlook, LocalVariable::Habitability];
    for (i, a) in local.iter().enumerate() {
        for (j, b) in local.iter().enumerate() {
            assert_eq!(a == b, i == j);
        }
    }
    assert_eq!(format!("{:?}", LocalVariable::Habitability), "Habitability");
    let capital = PlayerVariable::PoliticalCapital;
    assert_eq!(capital, capital.clone());
    assert_eq!(format!("{:?}", capital), "PoliticalCapital");
}

#[test]
fn features_and_intensities_are_closed_sets() {
    let features = [
        ProcessFeature::UsesPesticides,
        ProcessFeature::UsesSynFertilizer,
        ProcessFeature::UsesLivestock,
        ProcessFeature::IsIntermittent,
        ProcessFeature::IsNuclear,
        ProcessFeature::IsSolar,
        ProcessFeature::IsCCS,
        ProcessFeature::IsCombustion,
        ProcessFeature::IsFossil,
    ];
    for (i, a) in features.iter().enumerate() {
        for (j, b) in features.iter().enumerate() {
            assert_eq!(a == b, i == j);
        }
    }
    assert_ne!(ProcessIntensity::Low, ProcessIntensity::Medium);
    assert_ne!(ProcessIntensity::Medium, ProcessIntensity::High);
    assert_eq!(format!("{:?}", ProcessIntensity::High), "High");
}
