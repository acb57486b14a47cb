//! The kinds of buildings and units that the sidebar offers.

use vstd::prelude::*;

verus! {

#[derive(Clone, Copy, Debug, PartialEq, Eq, Structural)]
pub enum Kind {
    EssenceReactor,
    HellCannon,
    SoulAltar,
    RiftAltar,
    PowerPlant,
    Reactor,
    Refinery,
    OreSilo,
    Barracks,
    Factory,
    TechCenter,
    Radar,
    GuardTower,
    Pillbox,
    CannonTower,
    MissileTurret,
    TeslaCoil,
    Obelisk,
    MissileSilo,
    RepairDepot,
    MedBay,
    House,
    Farm,
    FoodSilo,
    Wall,
    Gate,
    Road,
    Rifleman,
    Grenadier,
    Rocketeer,
    Flamer,
    Sniper,
    Engineer,
    Harvester,
    Buggy,
    Tank,
    HeavyTank,
    Artillery,
    Champion,
    Revenant,
}

/// The buildings, in the order of their tab.
pub open spec fn build_tab_of() -> Seq<Kind> {
    seq![
        Kind::EssenceReactor,
        Kind::HellCannon,
        Kind::SoulAltar,
        Kind::RiftAltar,
        Kind::PowerPlant,
        Kind::Reactor,
        Kind::Refinery,
        Kind::OreSilo,
        Kind::Barracks,
        Kind::Factory,
        Kind::TechCenter,
        Kind::Radar,
        Kind::GuardTower,
        Kind::Pillbox,
        Kind::CannonTower,
        Kind::MissileTurret,
        Kind::TeslaCoil,
        Kind::Obelisk,
        Kind::MissileSilo,
        Kind::RepairDepot,
        Kind::MedBay,
        Kind::House,
        Kind::Farm,
        Kind::FoodSilo,
        Kind::Wall,
        Kind::Gate,
        Kind::Road,
    ]
}

/// The units, in the order of their tab.
pub open spec fn unit_tab_of() -> Seq<Kind> {
    seq![
        Kind::Rifleman,
        Kind::Grenadier,
        Kind::Rocketeer,
        Kind::Flamer,
        Kind::Sniper,
        Kind::Engineer,
        Kind::Harvester,
        Kind::Buggy,
        Kind::Tank,
        Kind::HeavyTank,
        Kind::Artillery,
        Kind::Champion,
        Kind::Revenant,
    ]
}

/// The tab that is open.
pub fn tab(units: bool) -> (r: Vec<Kind>)
    ensures
        r@ == (if units {
            unit_tab_of()
        } else {
            build_tab_of()
        }),
{
    let r: Vec<Kind> = if units {
        vec![
            Kind::Rifleman,
            Kind::Grenadier,
            Kind::Rocketeer,
            Kind::Flamer,
            Kind::Sniper,
            Kind::Engineer,
            Kind::Harvester,
            Kind::Buggy,
            Kind::Tank,
            Kind::HeavyTank,
            Kind::Artillery,
            Kind::Champion,
            Kind::Revenant,
        ]
    } else {
        vec![
            Kind::EssenceReactor,
            Kind::HellCannon,
            Kind::SoulAltar,
            Kind::RiftAltar,
            Kind::PowerPlant,
            Kind::Reactor,
            Kind::Refinery,
            Kind::OreSilo,
            Kind::Barracks,
            Kind::Factory,
            Kind::TechCenter,
            Kind::Radar,
            Kind::GuardTower,
            Kind::Pillbox,
            Kind::CannonTower,
            Kind::MissileTurret,
            Kind::TeslaCoil,
            Kind::Obelisk,
            Kind::MissileSilo,
            Kind::RepairDepot,
            Kind::MedBay,
            Kind::House,
            Kind::Farm,
            Kind::FoodSilo,
            Kind::Wall,
            Kind::Gate,
            Kind::Road,
        ]
    };
    proof {
        assert(r@ =~= if units {
            unit_tab_of()
        } else {
            build_tab_of()
        });
    }
    r
}

/// The role of a kind in one line.
pub open spec fn blurb_of(k: Kind) -> Seq<char> {
    match k {
        Kind::PowerPlant => "Generates power. Build before everything draws it down."@,
        Kind::Reactor => "Huge power output. Needs a Tech Center first."@,
        Kind::Refinery => "Refines hauled ore into credits. Drop-off for harvesters."@,
        Kind::OreSilo => "Automates refining — trickles credits, expands storage."@,
        Kind::Barracks => "Trains infantry."@,
        Kind::Factory => "Builds vehicles and harvesters."@,
        Kind::TechCenter => "Unlocks advanced tech: Reactor, Missile Turret, Obelisk…"@,
        Kind::Radar => "Reveals the battlefield; powers the minimap."@,
        Kind::GuardTower => "Cheap automatic defense vs infantry."@,
        Kind::Pillbox => "Bunker — short-range, very tough for its price."@,
        Kind::CannonTower => "Long-range anti-armor defensive gun."@,
        Kind::MissileTurret => "Top-tier defense: long range, heavy missiles."@,
        Kind::Obelisk => "Tier-3 arcane death-ray. Costs Essence."@,
        Kind::MissileSilo => "Superweapon. Charges ~3 min, then nukes anywhere (press N when ready)."@,
        Kind::RepairDepot => "Repairs nearby vehicles over time."@,
        Kind::MedBay => "Heals nearby infantry over time."@,
        Kind::House => "Raises unit cap, stores food, slowly heals troops & cooks meat."@,
        Kind::Farm => "Grows food for your army. Build several to feed a big force."@,
        Kind::FoodSilo => "Stores a lot of food (raises your food cap)."@,
        Kind::Wall => "Blocks movement. Monsters can't break it — until a boss arms them."@,
        Kind::Gate => "A wall that opens only for your own troops."@,
        Kind::Road => "Paved terrain — your units move 25% faster on it."@,
        Kind::Rifleman => "Cheap all-purpose infantry."@,
        Kind::Grenadier => "Lobs grenades — good vs clustered foes."@,
        Kind::Rocketeer => "Anti-vehicle / anti-building rockets."@,
        Kind::Flamer => "Short-range area burn; shreds infantry."@,
        Kind::Sniper => "Very long range, one-shots most infantry. Needs Tech."@,
        Kind::Engineer => "Captures enemy & neutral buildings (consumed on use)."@,
        Kind::Harvester => "Gathers ore, wood and stone; trucks it home."@,
        Kind::Buggy => "Fast, fragile scout."@,
        Kind::Tank => "The mainline battle tank."@,
        Kind::HeavyTank => "Twin-cannon bruiser. Needs Tech."@,
        Kind::Artillery => "Devastating range, fragile up close. Needs Tech."@,
        Kind::Champion => "Tier-3 hero — a one-soldier army. Costs Essence."@,
        _ => ""@,
    }
}

/// A one-line role blurb shown in the build/unit tooltip.
pub fn kind_blurb(k: Kind) -> (r: &'static str)
    ensures
        r@ == blurb_of(k),
{
    match k {
        Kind::PowerPlant => "Generates power. Build before everything draws it down.",
        Kind::Reactor => "Huge power output. Needs a Tech Center first.",
        Kind::Refinery => "Refines hauled ore into credits. Drop-off for harvesters.",
        Kind::OreSilo => "Automates refining — trickles credits, expands storage.",
        Kind::Barracks => "Trains infantry.",
        Kind::Factory => "Builds vehicles and harvesters.",
        Kind::TechCenter => "Unlocks advanced tech: Reactor, Missile Turret, Obelisk…",
        Kind::Radar => "Reveals the battlefield; powers the minimap.",
        Kind::GuardTower => "Cheap automatic defense vs infantry.",
        Kind::Pillbox => "Bunker — short-range, very tough for its price.",
        Kind::CannonTower => "Long-range anti-armor defensive gun.",
        Kind::MissileTurret => "Top-tier defense: long range, heavy missiles.",
        Kind::Obelisk => "Tier-3 arcane death-ray. Costs Essence.",
        Kind::MissileSilo => "Superweapon. Charges ~3 min, then nukes anywhere (press N when ready).",
        Kind::RepairDepot => "Repairs nearby vehicles over time.",
        Kind::MedBay => "Heals nearby infantry over time.",
        Kind::House => "Raises unit cap, stores food, slowly heals troops & cooks meat.",
        Kind::Farm => "Grows food for your army. Build several to feed a big force.",
        Kind::FoodSilo => "Stores a lot of food (raises your food cap).",
        Kind::Wall => "Blocks movement. Monsters can't break it — until a boss arms them.",
        Kind::Gate => "A wall that opens only for your own troops.",
        Kind::Road => "Paved terrain — your units move 25% faster on it.",
        Kind::Rifleman => "Cheap all-purpose infantry.",
        Kind::Grenadier => "Lobs grenades — good vs clustered foes.",
        Kind::Rocketeer => "Anti-vehicle / anti-building rockets.",
        Kind::Flamer => "Short-range area burn; shreds infantry.",
        Kind::Sniper => "Very long range, one-shots most infantry. Needs Tech.",
        Kind::Engineer => "Captures enemy & neutral buildings (consumed on use).",
        Kind::Harvester => "Gathers ore, wood and stone; trucks it home.",
        Kind::Buggy => "Fast, fragile scout.",
        Kind::Tank => "The mainline battle tank.",
        Kind::HeavyTank => "Twin-cannon bruiser. Needs Tech.",
        Kind::Artillery => "Devastating range, fragile up close. Needs Tech.",
        Kind::Champion => "Tier-3 hero — a one-soldier army. Costs Essence.",
        _ => "",
    }
}

} // verus!
