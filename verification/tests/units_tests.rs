use enchant_calc::units::{ItemKey, ItemKeyCombination};

#[test]
fn use_penalty_zero_on_fresh_carrier() {
    let unit = ItemKeyCombination::single_item(ItemKey::Enchant(3, 0), 0);
    assert_eq!(unit.use_penalty(), 0);
}

#[test]
fn use_penalty_escalates_as_powers_of_two_minus_one() {
    let expected = [0u32, 1, 3, 7, 15, 31, 63];
    for (uses, want) in expected.iter().enumerate() {
        let unit = ItemKeyCombination::single_item(ItemKey::Enchant(1, 0), uses as u32);
        assert_eq!(unit.use_penalty(), *want);
    }
}

#[test]
fn use_penalty_monotonic_over_a_run_of_uses() {
    let mut last = 0u32;
    for uses in 0..40u32 {
        let unit = ItemKeyCombination::single_item(ItemKey::Enchant(1, 0), uses);
        let pen = unit.use_penalty();
        assert!(pen >= last);
        last = pen;
    }
}

#[test]
fn cost_sums_entry_scores() {
    let a = ItemKeyCombination::single_item(ItemKey::Enchant(3, 0), 0);
    let b = ItemKeyCombination::single_item(ItemKey::Enchant(2, 1), 0);
    let merged = a.combine(&b);
    assert_eq!(merged.cost(), 5);
}

#[test]
fn combine_orders_entries_by_selection_index() {
    let later = ItemKeyCombination::single_item(ItemKey::Enchant(9, 2), 0);
    let earlier = ItemKeyCombination::single_item(ItemKey::Enchant(4, 1), 0);
    let merged = later.combine(&earlier);
    assert_eq!(
        merged.combination,
        vec![ItemKey::Enchant(4, 1), ItemKey::Enchant(9, 2)]
    );
}

#[test]
fn combine_puts_bare_item_first_and_bumps_use_count() {
    let item = ItemKeyCombination::single_item(ItemKey::Item, 2);
    let ench = ItemKeyCombination::single_item(ItemKey::Enchant(4, 0), 1);
    let merged = item.combine(&ench);
    assert_eq!(
        merged.combination,
        vec![ItemKey::Item, ItemKey::Enchant(4, 0)]
    );
    assert_eq!(merged.anvil_use_count, 3);
}

#[test]
fn carries_bare_item_looks_at_the_front_entry() {
    let item = ItemKeyCombination::single_item(ItemKey::Item, 0);
    let ench = ItemKeyCombination::single_item(ItemKey::Enchant(1, 0), 0);
    assert!(item.carries_bare_item());
    assert!(!ench.carries_bare_item());
    assert!(item.combine(&ench).carries_bare_item());
}
