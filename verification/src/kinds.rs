//! The closed sets of kinds the engine knows, and the fixed-key maps over them.
//!
//! A map has one field per kind, so that every kind has a value and no lookup
//! can miss.

use vstd::prelude::*;
use crate::units::product;

verus! {

/// A resource that production consumes.
#[derive(Debug, Copy, Clone, PartialEq, Eq, Structural)]
pub enum Resource {
    Land,
    Water,
    Electricity,
    Fuel,
}

/// One value of type `T` for each [`Resource`].
#[derive(Debug, Copy, Clone, PartialEq, Eq)]
pub struct ResourceMap<T> {
    pub land: T,
    pub water: T,
    pub electricity: T,
    pub fuel: T,
}

impl Resource {
    /// The kinds in their fixed order.
    pub open spec fn spec_all() -> Seq<Resource> {
        seq![
            Resource::Land,
            Resource::Water,
            Resource::Electricity,
            Resource::Fuel,
        ]
    }

    /// The kinds in their fixed order, which is also the order of
    /// [`ResourceMap::items`].
    pub fn all() -> (kinds: Vec<Resource>)
        ensures
            kinds@ == Self::spec_all(),
    {
        let mut kinds: Vec<Resource> = Vec::new();
        kinds.push(Resource::Land);
        kinds.push(Resource::Water);
        kinds.push(Resource::Electricity);
        kinds.push(Resource::Fuel);
        assert(kinds@ =~= Self::spec_all());
        kinds
    }
}

impl<T> ResourceMap<T> {
    /// The value held for `kind`.
    pub open spec fn at(self, kind: Resource) -> T {
        match kind {
            Resource::Land => self.land,
            Resource::Water => self.water,
            Resource::Electricity => self.electricity,
            Resource::Fuel => self.fuel,
        }
    }

    /// This map with the value for `kind` replaced by `value`.
    pub open spec fn with(self, kind: Resource, value: T) -> Self {
        match kind {
            Resource::Land => ResourceMap { land: value, ..self },
            Resource::Water => ResourceMap { water: value, ..self },
            Resource::Electricity => ResourceMap { electricity: value, ..self },
            Resource::Fuel => ResourceMap { fuel: value, ..self },
        }
    }

    /// The map that holds `value` for every kind.
    pub open spec fn spec_splat(value: T) -> Self {
        ResourceMap {
            land: value,
            water: value,
            electricity: value,
            fuel: value,
        }
    }

    /// The pairs of kind and value, in the fixed order of the kinds.
    pub open spec fn spec_items(self) -> Seq<(Resource, T)> {
        seq![
            (Resource::Land, self.land),
            (Resource::Water, self.water),
            (Resource::Electricity, self.electricity),
            (Resource::Fuel, self.fuel),
        ]
    }

    /// Reads the value for `kind`.
    pub fn get(&self, kind: Resource) -> (value: &T)
        ensures
            *value == self.at(kind),
    {
        match kind {
            Resource::Land => &self.land,
            Resource::Water => &self.water,
            Resource::Electricity => &self.electricity,
            Resource::Fuel => &self.fuel,
        }
    }

    /// Replaces the value for `kind` and leaves every other kind as it was.
    pub fn set(&mut self, kind: Resource, value: T)
        ensures
            *final(self) == old(self).with(kind, value),
    {
        match kind {
            Resource::Land => {
                self.land = value;
            },
            Resource::Water => {
                self.water = value;
            },
            Resource::Electricity => {
                self.electricity = value;
            },
            Resource::Fuel => {
                self.fuel = value;
            },
        }
    }
}

impl<T: Copy> ResourceMap<T> {
    /// A map that holds `value` for every kind.
    pub fn splat(value: T) -> (map: Self)
        ensures
            map == Self::spec_splat(value),
    {
        ResourceMap {
            land: value,
            water: value,
            electricity: value,
            fuel: value,
        }
    }

    /// The pairs of kind and value, always in the same order.
    pub fn items(&self) -> (items: Vec<(Resource, T)>)
        ensures
            items@ == self.spec_items(),
    {
        let mut items: Vec<(Resource, T)> = Vec::new();
        items.push((Resource::Land, self.land));
        items.push((Resource::Water, self.water));
        items.push((Resource::Electricity, self.electricity));
        items.push((Resource::Fuel, self.fuel));
        assert(items@ =~= self.spec_items());
        items
    }
}

impl Default for ResourceMap<u64> {
    /// The map that holds zero for every kind.
    fn default() -> (map: Self)
        ensures
            map == Self::spec_splat(0),
    {
        ResourceMap::splat(0)
    }
}

impl ResourceMap<u64> {
    /// The sum of the values.
    pub open spec fn spec_total(self) -> nat {
        (self.land as nat)
            + (self.water as nat)
            + (self.electricity as nat)
            + (self.fuel as nat)
    }

    /// The sum over the kinds of the value times the weight of the kind.
    pub open spec fn spec_weighed(self, weights: ResourceMap<u64>) -> nat {
        (self.land as nat) * (weights.land as nat)
            + (self.water as nat) * (weights.water as nat)
            + (self.electricity as nat) * (weights.electricity as nat)
            + (self.fuel as nat) * (weights.fuel as nat)
    }

    /// The sum of the values.
    pub fn total(&self) -> (sum: u128)
        ensures
            sum == self.spec_total(),
    {
        (self.land as u128)
            + (self.water as u128)
            + (self.electricity as u128)
            + (self.fuel as u128)
    }

    /// The sum over the kinds of the value times the weight of the kind, or
    /// nothing where the sum is beyond the range of `u128`.
    pub fn weighed(&self, weights: &ResourceMap<u64>) -> (sum: Option<u128>)
        ensures
            match sum {
                Some(held) => held == self.spec_weighed(*weights),
                None => self.spec_weighed(*weights) > u128::MAX,
            },
    {
        let land: u128 = product(self.land, weights.land);
        let water: u128 = product(self.water, weights.water);
        let electricity: u128 = product(self.electricity, weights.electricity);
        let fuel: u128 = product(self.fuel, weights.fuel);
        match land.checked_add(water) {
            None => None,
            Some(two) => match two.checked_add(electricity) {
                None => None,
                Some(three) => three.checked_add(fuel),
            },
        }
    }
}

/// Reading a kind after replacing it gives the new value; reading any other
/// kind gives what the map held before.
pub proof fn resource_map_with_at<T>(map: ResourceMap<T>, kind: Resource, value: T, other: Resource)
    ensures
        map.with(kind, value).at(kind) == value,
        other != kind ==> map.with(kind, value).at(other) == map.at(other),
{
}

/// Something production gives off besides its output.
#[derive(Debug, Copy, Clone, PartialEq, Eq, Structural)]
pub enum Byproduct {
    Co2,
    Ch4,
    N2o,
    Biodiversity,
}

/// One value of type `T` for each [`Byproduct`].
#[derive(Debug, Copy, Clone, PartialEq, Eq)]
pub struct ByproductMap<T> {
    pub co2: T,
    pub ch4: T,
    pub n2o: T,
    pub biodiversity: T,
}

impl Byproduct {
    /// The kinds in their fixed order.
    pub open spec fn spec_all() -> Seq<Byproduct> {
        seq![
            Byproduct::Co2,
            Byproduct::Ch4,
            Byproduct::N2o,
            Byproduct::Biodiversity,
        ]
    }

    /// The kinds in their fixed order, which is also the order of
    /// [`ByproductMap::items`].
    pub fn all() -> (kinds: Vec<Byproduct>)
        ensures
            kinds@ == Self::spec_all(),
    {
        let mut kinds: Vec<Byproduct> = Vec::new();
        kinds.push(Byproduct::Co2);
        kinds.push(Byproduct::Ch4);
        kinds.push(Byproduct::N2o);
        kinds.push(Byproduct::Biodiversity);
        assert(kinds@ =~= Self::spec_all());
        kinds
    }
}

impl<T> ByproductMap<T> {
    /// The value held for `kind`.
    pub open spec fn at(self, kind: Byproduct) -> T {
        match kind {
            Byproduct::Co2 => self.co2,
            Byproduct::Ch4 => self.ch4,
            Byproduct::N2o => self.n2o,
            Byproduct::Biodiversity => self.biodiversity,
        }
    }

    /// This map with the value for `kind` replaced by `value`.
    pub open spec fn with(self, kind: Byproduct, value: T) -> Self {
        match kind {
            Byproduct::Co2 => ByproductMap { co2: value, ..self },
            Byproduct::Ch4 => ByproductMap { ch4: value, ..self },
            Byproduct::N2o => ByproductMap { n2o: value, ..self },
            Byproduct::Biodiversity => ByproductMap { biodiversity: value, ..self },
        }
    }

    /// The map that holds `value` for every kind.
    pub open spec fn spec_splat(value: T) -> Self {
        ByproductMap {
            co2: value,
            ch4: value,
            n2o: value,
            biodiversity: value,
        }
    }

    /// The pairs of kind and value, in the fixed order of the kinds.
    pub open spec fn spec_items(self) -> Seq<(Byproduct, T)> {
        seq![
            (Byproduct::Co2, self.co2),
            (Byproduct::Ch4, self.ch4),
            (Byproduct::N2o, self.n2o),
            (Byproduct::Biodiversity, self.biodiversity),
        ]
    }

    /// Reads the value for `kind`.
    pub fn get(&self, kind: Byproduct) -> (value: &T)
        ensures
            *value == self.at(kind),
    {
        match kind {
            Byproduct::Co2 => &self.co2,
            Byproduct::Ch4 => &self.ch4,
            Byproduct::N2o => &self.n2o,
            Byproduct::Biodiversity => &self.biodiversity,
        }
    }

    /// Replaces the value for `kind` and leaves every other kind as it was.
    pub fn set(&mut self, kind: Byproduct, value: T)
        ensures
            *final(self) == old(self).with(kind, value),
    {
        match kind {
            Byproduct::Co2 => {
                self.co2 = value;
            },
            Byproduct::Ch4 => {
                self.ch4 = value;
            },
            Byproduct::N2o => {
                self.n2o = value;
            },
            Byproduct::Biodiversity => {
                self.biodiversity = value;
            },
        }
    }
}

impl<T: Copy> ByproductMap<T> {
    /// A map that holds `value` for every kind.
    pub fn splat(value: T) -> (map: Self)
        ensures
            map == Self::spec_splat(value),
    {
        ByproductMap {
            co2: value,
            ch4: value,
            n2o: value,
            biodiversity: value,
        }
    }

    /// The pairs of kind and value, always in the same order.
    pub fn items(&self) -> (items: Vec<(Byproduct, T)>)
        ensures
            items@ == self.spec_items(),
    {
        let mut items: Vec<(Byproduct, T)> = Vec::new();
        items.push((Byproduct::Co2, self.co2));
        items.push((Byproduct::Ch4, self.ch4));
        items.push((Byproduct::N2o, self.n2o));
        items.push((Byproduct::Biodiversity, self.biodiversity));
        assert(items@ =~= self.spec_items());
        items
    }
}

impl Default for ByproductMap<u64> {
    /// The map that holds zero for every kind.
    fn default() -> (map: Self)
        ensures
            map == Self::spec_splat(0),
    {
        ByproductMap::splat(0)
    }
}

/// The mass of carbon dioxide that warms as much as a unit of methane.
pub const CH4_AS_CO2: u128 = 36;

/// The mass of carbon dioxide that warms as much as a unit of nitrous oxide.
pub const N2O_AS_CO2: u128 = 298;

impl ByproductMap<u64> {
    /// The greenhouse gases as the carbon dioxide that warms as much.
    pub open spec fn spec_co2eq(self) -> nat {
        (self.co2 as nat)
            + (CH4_AS_CO2 as nat) * (self.ch4 as nat)
            + (N2O_AS_CO2 as nat) * (self.n2o as nat)
    }

    /// The greenhouse gases as the carbon dioxide that warms as much.
    pub fn co2eq(&self) -> (mass: u128)
        ensures
            mass == self.spec_co2eq(),
    {
        (self.co2 as u128) + CH4_AS_CO2 * (self.ch4 as u128) + N2O_AS_CO2 * (self.n2o as u128)
    }
}

/// Reading a kind after replacing it gives the new value; reading any other
/// kind gives what the map held before.
pub proof fn byproduct_map_with_at<T>(map: ByproductMap<T>, kind: Byproduct, value: T, other: Byproduct)
    ensures
        map.with(kind, value).at(kind) == value,
        other != kind ==> map.with(kind, value).at(other) == map.at(other),
{
}

/// A good that processes compete to supply.
#[derive(Debug, Copy, Clone, PartialEq, Eq, Structural)]
pub enum Output {
    Fuel,
    Electricity,
    PlantCalories,
    AnimalCalories,
}

/// One value of type `T` for each [`Output`].
#[derive(Debug, Copy, Clone, PartialEq, Eq)]
pub struct OutputMap<T> {
    pub fuel: T,
    pub electricity: T,
    pub plant_calories: T,
    pub animal_calories: T,
}

impl Output {
    /// The kinds in their fixed order.
    pub open spec fn spec_all() -> Seq<Output> {
        seq![
            Output::Fuel,
            Output::Electricity,
            Output::PlantCalories,
            Output::AnimalCalories,
        ]
    }

    /// The kinds in their fixed order, which is also the order of
    /// [`OutputMap::items`].
    pub fn all() -> (kinds: Vec<Output>)
        ensures
            kinds@ == Self::spec_all(),
    {
        let mut kinds: Vec<Output> = Vec::new();
        kinds.push(Output::Fuel);
        kinds.push(Output::Electricity);
        kinds.push(Output::PlantCalories);
        kinds.push(Output::AnimalCalories);
        assert(kinds@ =~= Self::spec_all());
        kinds
    }
}

impl<T> OutputMap<T> {
    /// The value held for `kind`.
    pub open spec fn at(self, kind: Output) -> T {
        match kind {
            Output::Fuel => self.fuel,
            Output::Electricity => self.electricity,
            Output::PlantCalories => self.plant_calories,
            Output::AnimalCalories => self.animal_calories,
        }
    }

    /// This map with the value for `kind` replaced by `value`.
    pub open spec fn with(self, kind: Output, value: T) -> Self {
        match kind {
            Output::Fuel => OutputMap { fuel: value, ..self },
            Output::Electricity => OutputMap { electricity: value, ..self },
            Output::PlantCalories => OutputMap { plant_calories: value, ..self },
            Output::AnimalCalories => OutputMap { animal_calories: value, ..self },
        }
    }

    /// The map that holds `value` for every kind.
    pub open spec fn spec_splat(value: T) -> Self {
        OutputMap {
            fuel: value,
            electricity: value,
            plant_calories: value,
            animal_calories: value,
        }
    }

    /// The pairs of kind and value, in the fixed order of the kinds.
    pub open spec fn spec_items(self) -> Seq<(Output, T)> {
        seq![
            (Output::Fuel, self.fuel),
            (Output::Electricity, self.electricity),
            (Output::PlantCalories, self.plant_calories),
            (Output::AnimalCalories, self.animal_calories),
        ]
    }

    /// Reads the value for `kind`.
    pub fn get(&self, kind: Output) -> (value: &T)
        ensures
            *value == self.at(kind),
    {
        match kind {
            Output::Fuel => &self.fuel,
            Output::Electricity => &self.electricity,
            Output::PlantCalories => &self.plant_calories,
            Output::AnimalCalories => &self.animal_calories,
        }
    }

    /// Replaces the value for `kind` and leaves every other kind as it was.
    pub fn set(&mut self, kind: Output, value: T)
        ensures
            *final(self) == old(self).with(kind, value),
    {
        match kind {
            Output::Fuel => {
                self.fuel = value;
            },
            Output::Electricity => {
                self.electricity = value;
            },
            Output::PlantCalories => {
                self.plant_calories = value;
            },
            Output::AnimalCalories => {
                self.animal_calories = value;
            },
        }
    }
}

impl<T: Copy> OutputMap<T> {
    /// A map that holds `value` for every kind.
    pub fn splat(value: T) -> (map: Self)
        ensures
            map == Self::spec_splat(value),
    {
        OutputMap {
            fuel: value,
            electricity: value,
            plant_calories: value,
            animal_calories: value,
        }
    }

    /// The pairs of kind and value, always in the same order.
    pub fn items(&self) -> (items: Vec<(Output, T)>)
        ensures
            items@ == self.spec_items(),
    {
        let mut items: Vec<(Output, T)> = Vec::new();
        items.push((Output::Fuel, self.fuel));
        items.push((Output::Electricity, self.electricity));
        items.push((Output::PlantCalories, self.plant_calories));
        items.push((Output::AnimalCalories, self.animal_calories));
        assert(items@ =~= self.spec_items());
        items
    }
}

impl Default for OutputMap<u64> {
    /// The map that holds zero for every kind.
    fn default() -> (map: Self)
        ensures
            map == Self::spec_splat(0),
    {
        OutputMap::splat(0)
    }
}

/// Reading a kind after replacing it gives the new value; reading any other
/// kind gives what the map held before.
pub proof fn output_map_with_at<T>(map: OutputMap<T>, kind: Output, value: T, other: Output)
    ensures
        map.with(kind, value).at(kind) == value,
        other != kind ==> map.with(kind, value).at(other) == map.at(other),
{
}

/// The raw material a process is fed with.
#[derive(Debug, Copy, Clone, PartialEq, Eq, Structural)]
pub enum Feedstock {
    Oil,
    Coal,
    NaturalGas,
    Thorium,
    Uranium,
    Lithium,
    Soil,
    Other,
}

/// One value of type `T` for each [`Feedstock`].
#[derive(Debug, Copy, Clone, PartialEq, Eq)]
pub struct FeedstockMap<T> {
    pub oil: T,
    pub coal: T,
    pub natural_gas: T,
    pub thorium: T,
    pub uranium: T,
    pub lithium: T,
    pub soil: T,
    pub other: T,
}

impl Feedstock {
    /// The kinds in their fixed order.
    pub open spec fn spec_all() -> Seq<Feedstock> {
        seq![
            Feedstock::Oil,
            Feedstock::Coal,
            Feedstock::NaturalGas,
            Feedstock::Thorium,
            Feedstock::Uranium,
            Feedstock::Lithium,
            Feedstock::Soil,
            Feedstock::Other,
        ]
    }

    /// The kinds in their fixed order, which is also the order of
    /// [`FeedstockMap::items`].
    pub fn all() -> (kinds: Vec<Feedstock>)
        ensures
            kinds@ == Self::spec_all(),
    {
        let mut kinds: Vec<Feedstock> = Vec::new();
        kinds.push(Feedstock::Oil);
        kinds.push(Feedstock::Coal);
        kinds.push(Feedstock::NaturalGas);
        kinds.push(Feedstock::Thorium);
        kinds.push(Feedstock::Uranium);
        kinds.push(Feedstock::Lithium);
        kinds.push(Feedstock::Soil);
        kinds.push(Feedstock::Other);
        assert(kinds@ =~= Self::spec_all());
        kinds
    }
}

impl<T> FeedstockMap<T> {
    /// The value held for `kind`.
    pub open spec fn at(self, kind: Feedstock) -> T {
        match kind {
            Feedstock::Oil => self.oil,
            Feedstock::Coal => self.coal,
            Feedstock::NaturalGas => self.natural_gas,
            Feedstock::Thorium => self.thorium,
            Feedstock::Uranium => self.uranium,
            Feedstock::Lithium => self.lithium,
            Feedstock::Soil => self.soil,
            Feedstock::Other => self.other,
        }
    }

    /// This map with the value for `kind` replaced by `value`.
    pub open spec fn with(self, kind: Feedstock, value: T) -> Self {
        match kind {
            Feedstock::Oil => FeedstockMap { oil: value, ..self },
            Feedstock::Coal => FeedstockMap { coal: value, ..self },
            Feedstock::NaturalGas => FeedstockMap { natural_gas: value, ..self },
            Feedstock::Thorium => FeedstockMap { thorium: value, ..self },
            Feedstock::Uranium => FeedstockMap { uranium: value, ..self },
            Feedstock::Lithium => FeedstockMap { lithium: value, ..self },
            Feedstock::Soil => FeedstockMap { soil: value, ..self },
            Feedstock::Other => FeedstockMap { other: value, ..self },
        }
    }

    /// The map that holds `value` for every kind.
    pub open spec fn spec_splat(value: T) -> Self {
        FeedstockMap {
            oil: value,
            coal: value,
            natural_gas: value,
            thorium: value,
            uranium: value,
            lithium: value,
            soil: value,
            other: value,
        }
    }

    /// The pairs of kind and value, in the fixed order of the kinds.
    pub open spec fn spec_items(self) -> Seq<(Feedstock, T)> {
        seq![
            (Feedstock::Oil, self.oil),
            (Feedstock::Coal, self.coal),
            (Feedstock::NaturalGas, self.natural_gas),
            (Feedstock::Thorium, self.thorium),
            (Feedstock::Uranium, self.uranium),
            (Feedstock::Lithium, self.lithium),
            (Feedstock::Soil, self.soil),
            (Feedstock::Other, self.other),
        ]
    }

    /// Reads the value for `kind`.
    pub fn get(&self, kind: Feedstock) -> (value: &T)
        ensures
            *value == self.at(kind),
    {
        match kind {
            Feedstock::Oil => &self.oil,
            Feedstock::Coal => &self.coal,
            Feedstock::NaturalGas => &self.natural_gas,
            Feedstock::Thorium => &self.thorium,
            Feedstock::Uranium => &self.uranium,
            Feedstock::Lithium => &self.lithium,
            Feedstock::Soil => &self.soil,
            Feedstock::Other => &self.other,
        }
    }

    /// Replaces the value for `kind` and leaves every other kind as it was.
    pub fn set(&mut self, kind: Feedstock, value: T)
        ensures
            *final(self) == old(self).with(kind, value),
    {
        match kind {
            Feedstock::Oil => {
                self.oil = value;
            },
            Feedstock::Coal => {
                self.coal = value;
            },
            Feedstock::NaturalGas => {
                self.natural_gas = value;
            },
            Feedstock::Thorium => {
                self.thorium = value;
            },
            Feedstock::Uranium => {
                self.uranium = value;
            },
            Feedstock::Lithium => {
                self.lithium = value;
            },
            Feedstock::Soil => {
                self.soil = value;
            },
            Feedstock::Other => {
                self.other = value;
            },
        }
    }
}

impl<T: Copy> FeedstockMap<T> {
    /// A map that holds `value` for every kind.
    pub fn splat(value: T) -> (map: Self)
        ensures
            map == Self::spec_splat(value),
    {
        FeedstockMap {
            oil: value,
            coal: value,
            natural_gas: value,
            thorium: value,
            uranium: value,
            lithium: value,
            soil: value,
            other: value,
        }
    }

    /// The pairs of kind and value, always in the same order.
    pub fn items(&self) -> (items: Vec<(Feedstock, T)>)
        ensures
            items@ == self.spec_items(),
    {
        let mut items: Vec<(Feedstock, T)> = Vec::new();
        items.push((Feedstock::Oil, self.oil));
        items.push((Feedstock::Coal, self.coal));
        items.push((Feedstock::NaturalGas, self.natural_gas));
        items.push((Feedstock::Thorium, self.thorium));
        items.push((Feedstock::Uranium, self.uranium));
        items.push((Feedstock::Lithium, self.lithium));
        items.push((Feedstock::Soil, self.soil));
        items.push((Feedstock::Other, self.other));
        assert(items@ =~= self.spec_items());
        items
    }
}

impl Default for FeedstockMap<u64> {
    /// The map that holds zero for every kind.
    fn default() -> (map: Self)
        ensures
            map == Self::spec_splat(0),
    {
        FeedstockMap::splat(0)
    }
}

impl FeedstockMap<u64> {
    /// The sum of the values.
    pub open spec fn spec_total(self) -> nat {
        (self.oil as nat)
            + (self.coal as nat)
            + (self.natural_gas as nat)
            + (self.thorium as nat)
            + (self.uranium as nat)
            + (self.lithium as nat)
            + (self.soil as nat)
            + (self.other as nat)
    }

    /// The sum of the values.
    pub fn total(&self) -> (sum: u128)
        ensures
            sum == self.spec_total(),
    {
        (self.oil as u128)
            + (self.coal as u128)
            + (self.natural_gas as u128)
            + (self.thorium as u128)
            + (self.uranium as u128)
            + (self.lithium as u128)
            + (self.soil as u128)
            + (self.other as u128)
    }
}

/// Reading a kind after replacing it gives the new value; reading any other
/// kind gives what the map held before.
pub proof fn feedstock_map_with_at<T>(map: FeedstockMap<T>, kind: Feedstock, value: T, other: Feedstock)
    ensures
        map.with(kind, value).at(kind) == value,
        other != kind ==> map.with(kind, value).at(other) == map.at(other),
{
}

} // verus!
