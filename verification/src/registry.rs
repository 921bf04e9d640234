//! The static enchantment catalogue: what an enchantment is called, how far
//! it can be levelled, its cost weight, and which items it applies to.
//!
//! The catalogue itself is loaded from configuration by the surrounding
//! application; this module only defines its shape and the cost rule that
//! the solver draws from it.

use vstd::prelude::*;

verus! {

/// Every kind of item an enchantment can apply to. `NoItem` stands for an
/// enchanted book (no concrete item chosen).
#[derive(Debug, Copy, Clone, PartialEq, Eq, Structural)]
pub enum Item {
    NoItem,
    Helmet,
    Chestplate,
    Leggings,
    Boots,
    TurtleShell,
    Elytra,
    Sword,
    Axe,
    Trident,
    Pickaxe,
    Shovel,
    Hoe,
    Bow,
    Shield,
    Crossbow,
    FishingRod,
    Shears,
    ShearsBedrock,
    FlintAndSteel,
    Compass,
    CarrotOnAStick,
    Pumpkin,
    WarpedFungusOnAStick,
}

impl Item {
    /// The human-readable name of this item kind.
    pub open spec fn label_spec(self) -> Seq<char> {
        match self {
            Item::NoItem => "None"@,
            Item::Helmet => "Helmet"@,
            Item::Chestplate => "Chestplate"@,
            Item::Leggings => "Leggings"@,
            Item::Boots => "Boots"@,
            Item::TurtleShell => "Turtle Shell"@,
            Item::Elytra => "Elytra"@,
            Item::Sword => "Sword"@,
            Item::Axe => "Axe"@,
            Item::Trident => "Trident"@,
            Item::Pickaxe => "Pickaxe"@,
            Item::Shovel => "Shovel"@,
            Item::Hoe => "Hoe"@,
            Item::Bow => "Bow"@,
            Item::Shield => "Shield"@,
            Item::Crossbow => "Crossbow"@,
            Item::FishingRod => "Fishing Rod"@,
            Item::Shears => "Shears"@,
            Item::ShearsBedrock => "Shears (Bedrock Edition)"@,
            Item::FlintAndSteel => "Flint And Steel"@,
            Item::Compass => "Compass"@,
            Item::CarrotOnAStick => "Carrot On A Stick"@,
            Item::Pumpkin => "Pumpkin"@,
            Item::WarpedFungusOnAStick => "Warped Fungus On A Stick"@,
        }
    }

    /// The human-readable name of this item kind.
    pub fn label(&self) -> (r: String)
        ensures
            r@ == self.label_spec(),
    {
        match self {
            Item::NoItem => "None".to_owned(),
            Item::Helmet => "Helmet".to_owned(),
            Item::Chestplate => "Chestplate".to_owned(),
            Item::Leggings => "Leggings".to_owned(),
            Item::Boots => "Boots".to_owned(),
            Item::TurtleShell => "Turtle Shell".to_owned(),
            Item::Elytra => "Elytra".to_owned(),
            Item::Sword => "Sword".to_owned(),
            Item::Axe => "Axe".to_owned(),
            Item::Trident => "Trident".to_owned(),
            Item::Pickaxe => "Pickaxe".to_owned(),
            Item::Shovel => "Shovel".to_owned(),
            Item::Hoe => "Hoe".to_owned(),
            Item::Bow => "Bow".to_owned(),
            Item::Shield => "Shield".to_owned(),
            Item::Crossbow => "Crossbow".to_owned(),
            Item::FishingRod => "Fishing Rod".to_owned(),
            Item::Shears => "Shears".to_owned(),
            Item::ShearsBedrock => "Shears (Bedrock Edition)".to_owned(),
            Item::FlintAndSteel => "Flint And Steel".to_owned(),
            Item::Compass => "Compass".to_owned(),
            Item::CarrotOnAStick => "Carrot On A Stick".to_owned(),
            Item::Pumpkin => "Pumpkin".to_owned(),
            Item::WarpedFungusOnAStick => "Warped Fungus On A Stick".to_owned(),
        }
    }
}

/// One catalogue entry: an enchantment's identity and its merge-cost data.
#[derive(Debug, Clone)]
pub struct Enchant {
    pub name: String,
    pub level_max: u32,
    pub weight: u32,
    pub incompatible: Vec<String>,
    pub items: Vec<Item>,
}

/// The mathematical value of a catalogue entry.
#[verifier::ext_equal]
pub ghost struct EnchantView {
    pub name: Seq<char>,
    pub level_max: u32,
    pub weight: u32,
    pub incompatible: Seq<Seq<char>>,
    pub items: Seq<Item>,
}

impl View for Enchant {
    type V = EnchantView;

    open spec fn view(&self) -> EnchantView {
        EnchantView {
            name: self.name@,
            level_max: self.level_max,
            weight: self.weight,
            incompatible: self.incompatible.deep_view(),
            items: self.items@,
        }
    }
}

impl Enchant {
    /// An identical, independent copy of this catalogue entry.
    pub fn duplicate(&self) -> (r: Self)
        ensures
            r@ =~= self@,
    {
        let mut incompatible: Vec<String> = Vec::new();
        let mut i: usize = 0;
        while i < self.incompatible.len()
            invariant
                i <= self.incompatible.len(),
                incompatible@.len() == i,
                forall|k: int| 0 <= k < i ==> incompatible@[k]@ == self.incompatible@[k]@,
            decreases self.incompatible.len() - i,
        {
            incompatible.push(self.incompatible[i].clone());
            i += 1;
        }
        let mut items: Vec<Item> = Vec::new();
        let mut j: usize = 0;
        while j < self.items.len()
            invariant
                j <= self.items.len(),
                items@ =~= self.items@.take(j as int),
            decreases self.items.len() - j,
        {
            items.push(self.items[j]);
            j += 1;
            proof {
                assert(items@ =~= self.items@.take(j as int));
            }
        }
        proof {
            assert(self.items@.take(self.items@.len() as int) =~= self.items@);
            assert(incompatible.deep_view() =~= self.incompatible.deep_view());
        }
        Enchant {
            name: self.name.clone(),
            level_max: self.level_max,
            weight: self.weight,
            incompatible,
            items,
        }
    }

    /// The number of enchantment levels this enchantment contributes when
    /// sacrificed at `enchant_level`: its weight times the chosen level.
    pub fn levels_required(&self, enchant_level: u32) -> (r: u32)
        requires
            self.weight * enchant_level <= u32::MAX,
        ensures
            r == self.weight * enchant_level,
    {
        self.weight * enchant_level
    }
}

/// The whole catalogue, one entry per enchantment.
#[derive(Debug, Clone)]
pub struct Registry {
    pub enchants: Vec<Enchant>,
}

} // verus!
