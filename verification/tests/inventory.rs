use basebuilder::inventory::{
    drop_within_inventory, transfer_between_slots, transfer_between_stacks, Inventory, Item,
    ProductFilter, Stack, MAX_STACK_SIZE,
};

#[test]
fn has_items() {
    let mut inventory = Inventory::new(12);
    inventory.add_items(&[
        (Item::new("Stone".into()), 10),
        (Item::new("Wood".into()), 20),
    ]);
    assert!(inventory.has_items(&[
        (Item::new("Stone".into()), 5),
        (Item::new("Wood".into()), 10)
    ]));
    assert!(!inventory.has_items(&[
        (Item::new("Stone".into()), 5),
        (Item::new("Wood".into()), 30)
    ]));
}

#[test]
fn remove_items() {
    let mut inventory = Inventory::new(12);
    inventory.add_items(&[
        (Item::new("Stone".into()), 10),
        (Item::new("Wood".into()), 20),
    ]);
    inventory.remove_items(&[
        (Item::new("Stone".into()), 5),
        (Item::new("Wood".into()), 10),
    ]);
    assert_eq!(
        inventory.slots[0],
        Some(Stack::new(Item::new("Stone".into()), 5))
    );
    assert_eq!(
        inventory.slots[1],
        Some(Stack::new(Item::new("Wood".into()), 10))
    );
}

#[test]
fn remove_items_empty() {
    let mut inventory = Inventory::new(12);
    inventory.add_items(&[
        (Item::new("Stone".into()), 10),
        (Item::new("Wood".into()), 20),
    ]);
    inventory.remove_items(&[
        (Item::new("Stone".into()), 10),
        (Item::new("Wood".into()), 20),
    ]);
    assert!(inventory.slots.iter().all(|s| s.is_none()));
}

#[test]
fn remove_items_not_enough() {
    let mut inventory = Inventory::new(12);
    inventory.add_items(&[
        (Item::new("Stone".into()), 10),
        (Item::new("Wood".into()), 20),
    ]);
    assert!(!inventory.remove_items(&[
        (Item::new("Stone".into()), 5),
        (Item::new("Wood".into()), 30)
    ]));
    assert_eq!(
        inventory.slots[0],
        Some(Stack::new(Item::new("Stone".into()), 10))
    );
    assert_eq!(
        inventory.slots[1],
        Some(Stack::new(Item::new("Wood".into()), 20))
    );
}

#[test]
fn add_items() {
    let mut inventory = Inventory::new(12);
    inventory.add_items(&[
        (Item::new("Stone".into()), 10),
        (Item::new("Wood".into()), 20),
    ]);
    assert_eq!(
        inventory.slots[0],
        Some(Stack::new(Item::new("Stone".into()), 10))
    );
    assert_eq!(
        inventory.slots[1],
        Some(Stack::new(Item::new("Wood".into()), 20))
    );
}

#[test]
fn add_items_remainder() {
    let mut inventory = Inventory::new(1);
    let remainder = inventory.add_items(&[
        (Item::new("Stone".into()), 10),
        (Item::new("Wood".into()), 20),
    ]);
    assert_eq!(
        inventory.slots[0],
        Some(Stack::new(Item::new("Stone".into()), 10))
    );
    assert_eq!(remainder, vec![(Item::new("Wood".into()), 20)]);
}

#[test]
fn add_items_stack() {
    let mut inventory = Inventory::new(2);
    inventory.slots[1] = Some(Stack::new(Item::new("Stone furnace".into()), 10));
    inventory.add_items(&[(Item::new("Stone furnace".into()), 1)]);
    assert_eq!(
        inventory.slots[1],
        Some(Stack::new(Item::new("Stone furnace".into()), 11))
    );
}

#[test]
fn add_stack() {
    let mut inventory = Inventory::new(12);
    inventory.add_stack(Stack::new(Item::new("Stone".into()), 10));
    assert_eq!(
        inventory.slots[0],
        Some(Stack::new(Item::new("Stone".into()), 10))
    );
}

#[test]
fn add_stack_remainder() {
    let mut inventory = Inventory::new(0);
    let remainder = inventory.add_stack(Stack::new(Item::new("Stone".into()), 10));
    assert_eq!(remainder, Some(Stack::new(Item::new("Stone".into()), 10)));
}

#[test]
fn take_stack() {
    let mut inventory = Inventory::new(12);
    inventory.add_stack(Stack::new(Item::new("Stone".into()), 10));
    let taken = inventory.take_stack(100);

    assert_eq!(taken, Some(Stack::new(Item::new("Stone".into()), 10)));
    assert!(inventory.slots.iter().all(|s| s.is_none()));
}

#[test]
fn take_stack_multiple_slots() {
    let mut inventory = Inventory::new(12);
    inventory.slots[0] = Some(Stack::new(Item::new("Stone".into()), 10));
    inventory.slots[1] = Some(Stack::new(Item::new("Stone".into()), 10));
    let taken = inventory.take_stack(100);

    assert_eq!(taken, Some(Stack::new(Item::new("Stone".into()), 20)));
    assert!(inventory.slots.iter().all(|s| s.is_none()));
}

#[test]
fn transfer_between_stacks_swap() {
    let mut source_stack = Stack::new(Item::new("Stone".into()), 10);
    let mut target_stack = Stack::new(Item::new("Iron ore".into()), 20);

    transfer_between_stacks(&mut source_stack, &mut target_stack);

    assert_eq!(source_stack, Stack::new(Item::new("Iron ore".into()), 20));
    assert_eq!(target_stack, Stack::new(Item::new("Stone".into()), 10));
}

#[test]
fn transfer_between_stacks_same() {
    let mut source_stack = Stack::new(Item::new("Stone".into()), 10);
    let mut target_stack = Stack::new(Item::new("Stone".into()), 20);

    transfer_between_stacks(&mut source_stack, &mut target_stack);

    assert_eq!(source_stack, Stack::new(Item::new("Stone".into()), 0));
    assert_eq!(target_stack, Stack::new(Item::new("Stone".into()), 30));
}

#[test]
fn transfer_between_slots_swap() {
    let mut source_slot = Some(Stack::new(Item::new("Stone".into()), 10));
    let mut target_slot = Some(Stack::new(Item::new("Iron ore".into()), 20));

    transfer_between_slots(&mut source_slot, &mut target_slot);

    assert_eq!(
        source_slot,
        Some(Stack::new(Item::new("Iron ore".into()), 20))
    );
    assert_eq!(target_slot, Some(Stack::new(Item::new("Stone".into()), 10)));
}

#[test]
fn transfer_between_slots_merge_stacks() {
    let mut source_slot = Some(Stack::new(Item::new("Stone".into()), 10));
    let mut target_slot = Some(Stack::new(Item::new("Stone".into()), 20));

    transfer_between_slots(&mut source_slot, &mut target_slot);

    assert_eq!(source_slot, None);
    assert_eq!(target_slot, Some(Stack::new(Item::new("Stone".into()), 30)));
}

#[test]
fn transfer_between_slots_empty() {
    let mut source_slot = Some(Stack::new(Item::new("Stone".into()), 10));
    let mut target_slot = None;

    transfer_between_slots(&mut source_slot, &mut target_slot);

    assert_eq!(source_slot, None);
    assert_eq!(target_slot, Some(Stack::new(Item::new("Stone".into()), 10)));
}

#[test]
fn drop_within_inventory_swap() {
    let mut inventory = Inventory::new(12);

    inventory.slots[0] = Some(Stack::new(Item::new("Stone".into()), 10));
    inventory.slots[1] = Some(Stack::new(Item::new("Iron ore".into()), 20));

    drop_within_inventory(&mut inventory, 1, 0);

    assert_eq!(
        inventory.slots[0],
        Some(Stack::new(Item::new("Iron ore".into()), 20))
    );
    assert_eq!(
        inventory.slots[1],
        Some(Stack::new(Item::new("Stone".into()), 10))
    );
}

// Further cases.

fn stone(amount: u32) -> Stack {
    Stack::new(Item::new("Stone"), amount)
}

#[test]
fn stack_add_overflow_is_returned() {
    let mut stack = stone(990);
    let overflow = stack.add(25);
    assert_eq!(stack.amount, MAX_STACK_SIZE);
    assert_eq!(overflow, 15);
    let mut small = stone(5);
    assert_eq!(small.add(7), 0);
    assert_eq!(small.amount, 12);
}

#[test]
fn add_items_fills_existing_stack_then_empty_slot() {
    let mut inventory = Inventory::new(3);
    inventory.slots[1] = Some(stone(995));
    let remainder = inventory.add_item(Item::new("Stone"), 20);
    assert!(remainder.is_empty());
    assert_eq!(inventory.slots[1], Some(stone(1000)));
    assert_eq!(inventory.slots[0], Some(stone(15)));
    assert_eq!(inventory.slots[2], None);
}

#[test]
fn add_items_goes_on_after_a_request_placed_in_existing_stacks() {
    let mut inventory = Inventory::new(2);
    inventory.slots[0] = Some(stone(10));
    let remainder = inventory.add_items(&[(Item::new("Stone"), 5), (Item::new("Wood"), 20)]);
    assert!(remainder.is_empty());
    assert_eq!(inventory.slots[0], Some(stone(15)));
    assert_eq!(inventory.slots[1], Some(Stack::new(Item::new("Wood"), 20)));
}

#[test]
fn add_items_caps_new_slot_at_stack_limit_and_hands_back_the_rest() {
    let mut inventory = Inventory::new(1);
    let remainder = inventory.add_item(Item::new("Stone"), 1500);
    assert_eq!(remainder, vec![(Item::new("Stone"), 500)]);
    assert_eq!(inventory.slots[0], Some(stone(1000)));
}

#[test]
fn add_items_spreads_an_excess_over_further_empty_slots() {
    let mut inventory = Inventory::new(3);
    let remainder = inventory.add_item(Item::new("Stone"), 1500);
    assert!(remainder.is_empty());
    assert_eq!(inventory.slots[0], Some(stone(1000)));
    assert_eq!(inventory.slots[1], Some(stone(500)));
    assert_eq!(inventory.slots[2], None);
    assert!(Inventory::new(2).can_add(&[(Item::new("Stone"), 1500)]));
    let mut two = Inventory::new(2);
    let remainder = two.add_item(Item::new("Stone"), 2500);
    assert_eq!(remainder, vec![(Item::new("Stone"), 500)]);
    assert_eq!(two.slots[1], Some(stone(1000)));
}

#[test]
fn can_add_counts_the_stack_limit_of_an_empty_slot() {
    let inventory = Inventory::new(1);
    assert!(!inventory.can_add(&[(Item::new("Stone"), 1500)]));
    assert!(inventory.can_add(&[(Item::new("Stone"), 1000)]));
    let two = Inventory::new(2);
    assert!(two.can_add(&[(Item::new("Stone"), 500), (Item::new("Wood"), 500)]));
    assert!(!two.can_add(&[(Item::new("Stone"), 500), (Item::new("Wood"), 500), (Item::new("Iron"), 1)]));
}

#[test]
fn remove_items_checks_the_total_asked_for_each_item() {
    let mut inventory = Inventory::new(12);
    inventory.slots[0] = Some(stone(10));
    assert!(!inventory.remove_items(&[(Item::new("Stone"), 6), (Item::new("Stone"), 6)]));
    assert_eq!(inventory.slots[0], Some(stone(10)));
    assert!(inventory.remove_items(&[(Item::new("Stone"), 6), (Item::new("Stone"), 4)]));
    assert_eq!(inventory.slots[0], None);
}

#[test]
fn removing_lowers_each_item_by_its_total() {
    let mut inventory = Inventory::new(3);
    inventory.slots[0] = Some(stone(10));
    inventory.slots[1] = Some(Stack::new(Item::new("Wood"), 5));
    inventory.slots[2] = Some(stone(4));
    assert!(inventory.remove_items(&[(Item::new("Stone"), 3), (Item::new("Wood"), 2), (Item::new("Stone"), 8)]));
    assert_eq!(inventory.slots[0], None);
    assert_eq!(inventory.slots[1], Some(Stack::new(Item::new("Wood"), 3)));
    assert_eq!(inventory.slots[2], Some(stone(3)));
}

#[test]
fn adding_hands_back_exactly_what_is_not_stored() {
    let mut inventory = Inventory::new(2);
    inventory.slots[0] = Some(stone(900));
    let remainder = inventory.add_items(&[(Item::new("Stone"), 1200), (Item::new("Wood"), 5)]);
    assert_eq!(inventory.slots[0], Some(stone(1000)));
    assert_eq!(inventory.slots[1], Some(stone(1000)));
    assert_eq!(remainder, vec![(Item::new("Stone"), 100), (Item::new("Wood"), 5)]);
}

#[test]
fn can_add_respects_space_and_filter() {
    let mut inventory = Inventory::new(1);
    inventory.slots[0] = Some(stone(990));
    assert!(inventory.can_add(&[(Item::new("Stone"), 10)]));
    assert!(!inventory.can_add(&[(Item::new("Stone"), 11)]));
    assert!(!inventory.can_add(&[(Item::new("Wood"), 1)]));

    let filter = ProductFilter::from_items(&[Item::new("Wood")]);
    assert!(filter.allows(&Item::new("Wood")));
    assert!(!filter.allows(&Item::new("Stone")));
    let filtered = Inventory::new_with_filter(2, filter);
    assert!(filtered.can_add(&[(Item::new("Wood"), 10)]));
    assert!(!filtered.can_add(&[(Item::new("Stone"), 10)]));
}

#[test]
fn has_items_counts_across_slots() {
    let mut inventory = Inventory::new(3);
    inventory.slots[0] = Some(stone(4));
    inventory.slots[2] = Some(stone(6));
    assert!(inventory.has_items(&[(Item::new("Stone"), 10)]));
    assert!(!inventory.has_items(&[(Item::new("Stone"), 11)]));
    assert!(inventory.remove_items(&[(Item::new("Stone"), 7)]));
    assert_eq!(inventory.slots[0], None);
    assert_eq!(inventory.slots[2], Some(stone(3)));
}

#[test]
fn add_stack_merges_then_uses_empty_slot() {
    let mut inventory = Inventory::new(2);
    inventory.slots[0] = Some(stone(900));
    let leftover = inventory.add_stack(stone(300));
    assert_eq!(leftover, None);
    assert_eq!(inventory.slots[0], Some(stone(1000)));
    assert_eq!(inventory.slots[1], Some(stone(200)));
}

#[test]
fn take_stack_takes_first_item_only_up_to_max_per_slot() {
    let mut inventory = Inventory::new(3);
    inventory.slots[0] = Some(stone(30));
    inventory.slots[1] = Some(Stack::new(Item::new("Wood"), 5));
    inventory.slots[2] = Some(stone(8));
    let taken = inventory.take_stack(10);
    assert_eq!(taken, Some(stone(18)));
    assert_eq!(inventory.slots[0], Some(stone(20)));
    assert_eq!(inventory.slots[1], Some(Stack::new(Item::new("Wood"), 5)));
    assert_eq!(inventory.slots[2], None);
    let mut empty = Inventory::new(2);
    assert_eq!(empty.take_stack(10), None);
}

#[test]
fn drop_within_inventory_merges_and_moves() {
    let mut inventory = Inventory::new(3);
    inventory.slots[0] = Some(stone(10));
    inventory.slots[1] = Some(stone(995));
    drop_within_inventory(&mut inventory, 0, 1);
    assert_eq!(inventory.slots[1], Some(stone(1000)));
    assert_eq!(inventory.slots[0], Some(stone(5)));
    drop_within_inventory(&mut inventory, 0, 2);
    assert_eq!(inventory.slots[0], None);
    assert_eq!(inventory.slots[2], Some(stone(5)));
    drop_within_inventory(&mut inventory, 0, 1);
    assert_eq!(inventory.slots[1], Some(stone(1000)));
}

#[test]
fn transfer_between_equal_stacks_changes_nothing() {
    let mut a = stone(7);
    let mut b = stone(7);
    transfer_between_stacks(&mut a, &mut b);
    assert_eq!(a, stone(7));
    assert_eq!(b, stone(7));
}

#[test]
fn item_identity_includes_colour() {
    let a = Item::new("Stone");
    let b = a.duplicate();
    assert!(a.same_as(&b));
    assert!(!a.same_as(&Item::new("Wood")));
    assert_eq!(a.color.channels(), (0, 0, 0));
}

#[test]
fn added_items_are_held_and_removed_again() {
    let mut inventory = Inventory::new(3);
    inventory.add_items(&[(Item::new("Wood"), 4)]);
    let remainder = inventory.add_items(&[(Item::new("Stone"), 10)]);
    assert!(remainder.is_empty());
    assert!(inventory.has_items(&[(Item::new("Stone"), 10)]));
    assert!(inventory.remove_items(&[(Item::new("Stone"), 10)]));
    assert!(!inventory.has_items(&[(Item::new("Stone"), 1)]));
    assert!(inventory.has_items(&[(Item::new("Wood"), 4)]));
}
