use slotplan::SlotDto;
use slotplan::SlotDtos;
use slotplan::TimeSlotConfig;
use slotplan::t;

fn mk(name: &str, length: u64, fixed_length: bool, start: Option<u64>) -> SlotDto {
    SlotDto {
        name: name.to_string(),
        act: None,
        config: TimeSlotConfig { start, length, fixed_length },
    }
}

#[test]
fn insert_into_an_empty_list() {
    let mut list = SlotDtos::new();
    assert!(list.is_empty());
    list.insert(0, mk("a", 600, false, None));
    assert_eq!(list.len(), 1);
    assert_eq!(list.slots()[0].name, "a");
}

#[test]
fn insert_past_the_end_appends() {
    let mut list = SlotDtos::new();
    list.insert(0, mk("a", 600, false, None));
    list.insert(17, mk("b", 600, false, None));
    assert_eq!(list.len(), 2);
    assert_eq!(list.slots()[1].name, "b");
}

#[test]
fn insert_with_an_earlier_fixed_start_is_a_no_op() {
    let mut list = SlotDtos::new();
    list.insert(0, mk("a", 600, false, Some(t(9, 0))));
    assert_eq!(list.len(), 1);
    list.insert(1, mk("b", 600, false, Some(t(8, 0))));
    assert_eq!(list.len(), 1);
    assert_eq!(list.slots()[0].name, "a");
}

#[test]
fn insert_before_a_later_fixed_start_is_kept() {
    let mut list = SlotDtos::new();
    list.insert(0, mk("a", 600, false, Some(t(9, 0))));
    list.insert(0, mk("b", 600, false, Some(t(8, 0))));
    assert_eq!(list.len(), 2);
    assert_eq!(list.slots()[0].name, "b");
    assert_eq!(list.slots()[1].name, "a");
}

#[test]
fn remove_in_range_takes_the_slot_out() {
    let mut list = SlotDtos::new();
    list.insert(0, mk("a", 600, false, None));
    list.insert(1, mk("b", 600, false, None));
    list.remove(0);
    assert_eq!(list.len(), 1);
    assert_eq!(list.slots()[0].name, "b");
}

#[test]
fn remove_out_of_range_is_a_no_op() {
    let mut list = SlotDtos::new();
    list.insert(0, mk("a", 600, false, None));
    list.remove(5);
    assert_eq!(list.len(), 1);
}

#[test]
fn set_start_in_order_is_applied() {
    let mut list = SlotDtos::new();
    list.insert(0, mk("a", 600, false, None));
    list.insert(1, mk("b", 600, false, None));
    list.set_start(1, t(9, 0));
    assert_eq!(list.slots()[1].config.start, Some(t(9, 0)));
}

#[test]
fn set_start_out_of_order_is_a_no_op() {
    let mut list = SlotDtos::new();
    list.insert(0, mk("a", 600, false, Some(t(9, 0))));
    list.insert(1, mk("b", 600, false, None));
    list.set_start(1, t(8, 0));
    assert_eq!(list.slots()[1].config.start, None);
}

#[test]
fn unset_start_clears_the_field() {
    let mut list = SlotDtos::new();
    list.insert(0, mk("a", 600, false, Some(t(9, 0))));
    list.unset_start(0);
    assert_eq!(list.slots()[0].config.start, None);
}

#[test]
fn swap_without_fixed_starts_exchanges_the_slots() {
    let mut list = SlotDtos::new();
    list.insert(0, mk("a", 600, false, None));
    list.insert(1, mk("b", 900, false, None));
    list.swap(0, 1);
    assert_eq!(list.slots()[0].name, "b");
    assert_eq!(list.slots()[1].name, "a");
}

#[test]
fn swap_that_breaks_the_order_is_a_no_op() {
    let mut list = SlotDtos::new();
    list.insert(0, mk("a", 600, false, Some(t(8, 0))));
    list.insert(1, mk("b", 600, false, Some(t(9, 0))));
    list.swap(0, 1);
    assert_eq!(list.slots()[0].name, "a");
    assert_eq!(list.slots()[1].name, "b");
}

#[test]
fn swap_out_of_range_is_a_no_op() {
    let mut list = SlotDtos::new();
    list.insert(0, mk("a", 600, false, None));
    list.swap(0, 3);
    assert_eq!(list.slots()[0].name, "a");
}

#[test]
fn over_ride_replaces_one_slot() {
    let mut list = SlotDtos::new();
    list.insert(0, mk("a", 600, false, None));
    list.over_ride(0, mk("z", 900, true, None));
    assert_eq!(list.len(), 1);
    assert_eq!(list.slots()[0].name, "z");
    assert!(list.slots()[0].config.fixed_length);
}

#[test]
fn over_ride_out_of_range_is_a_no_op() {
    let mut list = SlotDtos::new();
    list.insert(0, mk("a", 600, false, None));
    list.over_ride(3, mk("z", 900, true, None));
    assert_eq!(list.len(), 1);
    assert_eq!(list.slots()[0].name, "a");
}

#[test]
fn over_ride_that_breaks_the_order_is_a_no_op() {
    let mut list = SlotDtos::new();
    list.insert(0, mk("a", 600, false, Some(t(9, 0))));
    list.insert(1, mk("b", 600, false, Some(t(10, 0))));
    list.over_ride(1, mk("z", 600, false, Some(t(8, 0))));
    assert_eq!(list.slots()[1].name, "b");
}

#[test]
fn make_valid_strips_backwards_fixed_starts() {
    let raw = vec![
        mk("a", 600, false, Some(t(10, 0))),
        mk("b", 600, false, Some(t(9, 0))),
        mk("c", 600, false, Some(t(10, 30))),
        mk("d", 600, false, None),
    ];
    let mut list = SlotDtos::from_vec(raw);
    list.make_valid();
    assert_eq!(list.slots()[0].config.start, Some(t(10, 0)));
    assert_eq!(list.slots()[1].config.start, None);
    assert_eq!(list.slots()[2].config.start, Some(t(10, 30)));
    assert_eq!(list.slots()[3].config.start, None);
    assert_eq!(list.len(), 4);
}

#[test]
fn make_valid_keeps_an_ordered_list_unchanged() {
    let raw = vec![
        mk("a", 600, false, Some(t(8, 0))),
        mk("b", 600, false, None),
        mk("c", 600, false, Some(t(9, 0))),
    ];
    let mut list = SlotDtos::from_vec(raw.clone());
    list.make_valid();
    assert_eq!(list.slots().clone(), raw);
}

#[test]
fn invariant_holds_after_a_burst_of_mutations() {
    let mut list = SlotDtos::from_vec(vec![
        mk("a", 600, false, Some(t(11, 0))),
        mk("b", 600, false, Some(t(9, 0))),
    ]);
    list.make_valid();
    list.insert(0, mk("c", 300, false, None));
    list.set_start(0, t(8, 0));
    list.insert(1, mk("d", 300, true, None));
    list.swap(1, 2);
    list.over_ride(1, mk("e", 120, false, Some(t(7, 0))));
    list.remove(2);
    list.unset_start(0);
    let mut last: Option<u64> = None;
    for slot in list.slots().iter() {
        if let Some(s) = slot.config.start {
            if let Some(prev) = last {
                assert!(prev <= s);
            }
            last = Some(s);
        }
    }
}

#[test]
fn cloned_lists_are_independent() {
    let mut list = SlotDtos::new();
    list.insert(0, mk("a", 600, false, None));
    let copy = list.clone();
    list.insert(1, mk("b", 600, false, None));
    assert_eq!(copy.len(), 1);
    assert_eq!(list.len(), 2);
}

#[test]
fn default_list_is_empty() {
    let list: SlotDtos = Default::default();
    assert!(list.is_empty());
    assert_eq!(list.len(), 0);
}

#[test]
fn upswap_is_allowed_only_below_a_free_anchor() {
    let mut list = SlotDtos::new();
    list.insert(0, mk("a", 600, false, None));
    list.insert(1, mk("b", 600, false, None));
    list.insert(2, mk("c", 600, false, None));
    assert!(!list.can_upswap(0));
    assert!(list.can_upswap(1));
    assert!(list.can_upswap(2));
    assert!(!list.can_upswap(3));
    let mut anchored = SlotDtos::new();
    anchored.insert(0, mk("a", 600, false, Some(t(8, 0))));
    anchored.insert(1, mk("b", 600, false, None));
    assert!(!anchored.can_upswap(1));
}
