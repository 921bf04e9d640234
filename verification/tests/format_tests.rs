use enchant_calc::registry;
use enchant_calc::solver::{Enchant, ResolvedStepItem};
use enchant_calc::step_ext::{u32_decimal, StepExt};

fn sel(name: &str, weight: u32, level: u32) -> Enchant {
    Enchant::new(
        registry::Enchant {
            name: name.to_string(),
            level_max: 5,
            weight,
            incompatible: Vec::new(),
            items: vec![registry::Item::Sword],
        },
        level,
    )
}

#[test]
fn decimal_rendering() {
    assert_eq!(u32_decimal(0), "0");
    assert_eq!(u32_decimal(7), "7");
    assert_eq!(u32_decimal(10), "10");
    assert_eq!(u32_decimal(12345), "12345");
    assert_eq!(u32_decimal(u32::MAX), "4294967295");
}

#[test]
fn item_labels_match_their_kind() {
    assert_eq!(registry::Item::NoItem.label(), "None");
    assert_eq!(registry::Item::Sword.label(), "Sword");
    assert_eq!(registry::Item::ShearsBedrock.label(), "Shears (Bedrock Edition)");
    assert_eq!(registry::Item::WarpedFungusOnAStick.label(), "Warped Fungus On A Stick");
}

#[test]
fn bare_item_entry_renders_as_the_item_kind() {
    let entry = ResolvedStepItem::Item;
    assert_eq!(entry.format(registry::Item::Pickaxe), "Pickaxe");
}

#[test]
fn level_one_enchant_renders_without_its_level() {
    let entry = ResolvedStepItem::Enchant(sel("Mending", 2, 1));
    assert_eq!(entry.format(registry::Item::Sword), "Mending");
}

#[test]
fn higher_level_enchant_renders_with_its_level() {
    let entry = ResolvedStepItem::Enchant(sel("Sharpness", 1, 5));
    assert_eq!(entry.format(registry::Item::Sword), "Sharpness 5");
}

#[test]
fn single_entry_side_renders_bare() {
    let side = vec![ResolvedStepItem::Enchant(sel("Sharpness", 1, 5))];
    assert_eq!(side.format(registry::Item::Sword), "Sharpness 5");
}

#[test]
fn combined_side_lists_the_extra_entries() {
    let side = vec![
        ResolvedStepItem::Item,
        ResolvedStepItem::Enchant(sel("Sharpness", 1, 5)),
        ResolvedStepItem::Enchant(sel("Mending", 2, 1)),
    ];
    assert_eq!(side.format(registry::Item::Sword), "Sword (w/ Sharpness 5 + Mending)");
}
