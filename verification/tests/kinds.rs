use engine::kinds::{
    Byproduct, ByproductMap, Feedstock, FeedstockMap, Output, OutputMap, Resource, ResourceMap,
};

#[test]
fn resource_map_reads_and_writes_by_kind() {
    let mut map: ResourceMap<u64> = ResourceMap::default();
    assert_eq!(map, ResourceMap { land: 0, water: 0, electricity: 0, fuel: 0 });
    map.set(Resource::Water, 5);
    map.set(Resource::Fuel, 7);
    assert_eq!(*map.get(Resource::Land), 0);
    assert_eq!(*map.get(Resource::Water), 5);
    assert_eq!(*map.get(Resource::Electricity), 0);
    assert_eq!(*map.get(Resource::Fuel), 7);
    assert_eq!(map.water, 5);
    map.set(Resource::Water, 6);
    assert_eq!(map, ResourceMap { land: 0, water: 6, electricity: 0, fuel: 7 });
    map.set(Resource::Land, 1);
    map.set(Resource::Electricity, 2);
    assert_eq!(
        map.items(),
        vec![
            (Resource::Land, 1),
            (Resource::Water, 6),
            (Resource::Electricity, 2),
            (Resource::Fuel, 7)
        ]
    );
}

#[test]
fn byproduct_map_reads_and_writes_by_kind() {
    let mut map: ByproductMap<u64> = ByproductMap::default();
    assert_eq!(map, ByproductMap::splat(0));
    map.set(Byproduct::Co2, 1);
    map.set(Byproduct::Ch4, 2);
    map.set(Byproduct::N2o, 3);
    map.set(Byproduct::Biodiversity, 4);
    assert_eq!(map, ByproductMap { co2: 1, ch4: 2, n2o: 3, biodiversity: 4 });
    assert_eq!(*map.get(Byproduct::Co2), 1);
    assert_eq!(*map.get(Byproduct::Ch4), 2);
    assert_eq!(*map.get(Byproduct::N2o), 3);
    assert_eq!(*map.get(Byproduct::Biodiversity), 4);
    assert_eq!(
        map.items(),
        vec![
            (Byproduct::Co2, 1),
            (Byproduct::Ch4, 2),
            (Byproduct::N2o, 3),
            (Byproduct::Biodiversity, 4)
        ]
    );
}

#[test]
fn output_map_reads_and_writes_by_kind() {
    let mut map: OutputMap<u64> = OutputMap::splat(9);
    map.set(Output::Electricity, 1);
    map.set(Output::AnimalCalories, 2);
    assert_eq!(map, OutputMap { fuel: 9, electricity: 1, plant_calories: 9, animal_calories: 2 });
    assert_eq!(*map.get(Output::Fuel), 9);
    assert_eq!(*map.get(Output::Electricity), 1);
    assert_eq!(*map.get(Output::PlantCalories), 9);
    assert_eq!(*map.get(Output::AnimalCalories), 2);
    assert_eq!(
        map.items(),
        vec![
            (Output::Fuel, 9),
            (Output::Electricity, 1),
            (Output::PlantCalories, 9),
            (Output::AnimalCalories, 2)
        ]
    );
}

#[test]
fn feedstock_map_reads_and_writes_by_kind() {
    let mut map: FeedstockMap<u64> = FeedstockMap::default();
    let kinds = Feedstock::all();
    for (i, kind) in kinds.iter().enumerate() {
        map.set(*kind, 10 + i as u64);
    }
    assert_eq!(
        map,
        FeedstockMap {
            oil: 10,
            coal: 11,
            natural_gas: 12,
            thorium: 13,
            uranium: 14,
            lithium: 15,
            soil: 16,
            other: 17
        }
    );
    for (i, kind) in kinds.iter().enumerate() {
        assert_eq!(*map.get(*kind), 10 + i as u64);
    }
    let items = map.items();
    assert_eq!(items.len(), 8);
    for (i, (kind, value)) in items.iter().enumerate() {
        assert_eq!(*kind, kinds[i]);
        assert_eq!(*value, 10 + i as u64);
    }
}

#[test]
fn kinds_come_in_a_fixed_order() {
    assert_eq!(
        Resource::all(),
        vec![Resource::Land, Resource::Water, Resource::Electricity, Resource::Fuel]
    );
    assert_eq!(
        Byproduct::all(),
        vec![Byproduct::Co2, Byproduct::Ch4, Byproduct::N2o, Byproduct::Biodiversity]
    );
    assert_eq!(
        Output::all(),
        vec![Output::Fuel, Output::Electricity, Output::PlantCalories, Output::AnimalCalories]
    );
    assert_eq!(
        Feedstock::all(),
        vec![
            Feedstock::Oil,
            Feedstock::Coal,
            Feedstock::NaturalGas,
            Feedstock::Thorium,
            Feedstock::Uranium,
            Feedstock::Lithium,
            Feedstock::Soil,
            Feedstock::Other
        ]
    );
    assert_eq!(Resource::all(), Resource::all());
}

#[test]
fn maps_hold_values_of_any_type() {
    let mut groups: OutputMap<Vec<usize>> = OutputMap {
        fuel: vec![],
        electricity: vec![],
        plant_calories: vec![],
        animal_calories: vec![],
    };
    groups.set(Output::PlantCalories, vec![1, 2]);
    groups.fuel.push(3);
    assert_eq!(groups.get(Output::PlantCalories), &vec![1, 2]);
    assert_eq!(groups.get(Output::Fuel), &vec![3]);
    assert!(groups.get(Output::Electricity).is_empty());
    let flags = ResourceMap::splat(true);
    assert!(*flags.get(Resource::Land) && flags.fuel);
}

#[test]
fn resource_map_sums_and_weighs() {
    let used = ResourceMap { land: 1, water: 2, electricity: 3, fuel: 4 };
    let weights = ResourceMap { land: 10, water: 100, electricity: 1000, fuel: 10000 };
    assert_eq!(used.total(), 10);
    assert_eq!(used.weighed(&weights), Some(43_210));
    assert_eq!(used.weighed(&ResourceMap::default()), Some(0));
    let max = ResourceMap::splat(u64::MAX);
    assert_eq!(max.total(), 4 * (u64::MAX as u128));
    // One such product is within range, two are not.
    assert_eq!(max.weighed(&max), None);
    let one = ResourceMap { water: u64::MAX, ..ResourceMap::default() };
    assert_eq!(one.weighed(&max), Some((u64::MAX as u128) * (u64::MAX as u128)));
    let two = ResourceMap { land: 1, fuel: u64::MAX, ..ResourceMap::default() };
    assert_eq!(two.weighed(&max), Some(u128::MAX - u64::MAX as u128));
    let most = ResourceMap { land: 2, fuel: u64::MAX, ..ResourceMap::default() };
    assert_eq!(most.weighed(&max), Some(u128::MAX));
    let more = ResourceMap { land: 3, fuel: u64::MAX, ..ResourceMap::default() };
    assert_eq!(more.weighed(&max), None);
    let both = ResourceMap { water: u64::MAX, electricity: u64::MAX, ..ResourceMap::default() };
    assert_eq!(both.weighed(&max), None);
}

#[test]
fn feedstock_map_sums() {
    let map = FeedstockMap {
        oil: 1,
        coal: 2,
        natural_gas: 4,
        thorium: 8,
        uranium: 16,
        lithium: 32,
        soil: 64,
        other: 128,
    };
    assert_eq!(map.total(), 255);
    assert_eq!(FeedstockMap::splat(u64::MAX).total(), 8 * (u64::MAX as u128));
}

#[test]
fn greenhouse_gases_count_as_carbon_dioxide() {
    let gases = ByproductMap { co2: 5, ch4: 2, n2o: 1, biodiversity: 1000 };
    assert_eq!(gases.co2eq(), 5 + 72 + 298);
    assert_eq!(ByproductMap::default().co2eq(), 0);
    assert_eq!(ByproductMap::splat(u64::MAX).co2eq(), 335 * (u64::MAX as u128));
}
