use slotplan::ScheduleError;
use slotplan::SlotDto;
use slotplan::TimeSlotConfig;
use slotplan::calculate_slots;
use slotplan::dur;
use slotplan::schedule_inputs_ok;
use slotplan::t;

fn mk(name: &str, length: u64, fixed_length: bool, start: Option<u64>) -> SlotDto {
    SlotDto {
        name: name.to_string(),
        act: None,
        config: TimeSlotConfig { start, length, fixed_length },
    }
}

#[test]
fn two_elastic_slots_share_the_window() {
    let requests = vec![mk("a", 600, false, None), mk("b", 1200, false, None)];
    let r = calculate_slots(t(8, 0), dur(60), requests.clone());
    assert_eq!(r.len(), 2);
    assert_eq!(r[0].start, t(8, 0));
    assert_eq!(r[0].length, 1200);
    assert_eq!(r[0].warning, Ok(()));
    assert_eq!(r[1].start, t(8, 20));
    assert_eq!(r[1].length, 2400);
    assert_eq!(r[1].warning, Ok(()));
    assert_eq!(r[0].configured, requests[0]);
    assert_eq!(r[1].configured, requests[1]);
}

#[test]
fn fixed_start_splits_the_day_into_two_blocks() {
    let requests = vec![
        mk("a", 600, false, None),
        mk("b", 600, false, Some(t(9, 0))),
    ];
    let r = calculate_slots(t(8, 0), dur(90), requests);
    assert_eq!(r.len(), 2);
    assert_eq!(r[0].start, t(8, 0));
    assert_eq!(r[0].length, 3600);
    assert_eq!(r[1].start, t(9, 0));
    assert_eq!(r[1].length, 1800);
}

#[test]
fn overfull_fixed_block_is_compressed_and_tagged() {
    let requests = vec![
        mk("a", 900, true, Some(t(8, 0))),
        mk("b", 1200, true, Some(t(8, 10))),
    ];
    let r = calculate_slots(t(8, 0), dur(60), requests);
    assert_eq!(r.len(), 2);
    assert_eq!(r[0].start, t(8, 0));
    assert_eq!(r[0].length, 600);
    assert_eq!(r[0].warning, Err(ScheduleError::InsufficientFixedTime));
    assert_eq!(r[1].start, t(8, 10));
    assert_eq!(r[1].length, 3000);
    assert_eq!(r[1].warning, Err(ScheduleError::NoElasticSlots));
}

#[test]
fn empty_requests_give_an_empty_schedule() {
    let r = calculate_slots(t(8, 0), dur(60), Vec::new());
    assert!(r.is_empty());
}

#[test]
fn result_order_and_sources_match_the_requests() {
    let requests = vec![
        mk("a", 300, false, None),
        mk("b", 600, true, None),
        mk("c", 900, false, Some(t(10, 0))),
        mk("d", 60, true, None),
    ];
    let r = calculate_slots(t(8, 0), dur(8 * 60), requests.clone());
    assert_eq!(r.len(), requests.len());
    for i in 0..requests.len() {
        assert_eq!(r[i].configured, requests[i]);
    }
}

#[test]
fn recomputing_the_same_inputs_is_bit_identical() {
    let requests = vec![
        mk("a", 300, false, None),
        mk("b", 600, true, None),
        mk("c", 900, false, Some(t(10, 0))),
    ];
    let r1 = calculate_slots(t(8, 0), dur(8 * 60), requests.clone());
    let r2 = calculate_slots(t(8, 0), dur(8 * 60), requests);
    assert_eq!(r1, r2);
}

#[test]
fn block_lengths_sum_to_the_block_span_despite_rounding() {
    // one block, elastic demands 3 and 7 stretched into 11 seconds: the
    // rounded lengths still cover the span exactly
    let requests = vec![mk("a", 3, false, None), mk("b", 7, false, None)];
    let r = calculate_slots(t(8, 0), 11, requests);
    assert_eq!(r[0].length, 3);
    assert_eq!(r[1].length, 8);
    assert_eq!(r[0].length + r[1].length, 11);
}

#[test]
fn block_lengths_sum_to_the_block_span_when_infeasible() {
    let requests = vec![
        mk("a", 900, true, Some(t(8, 0))),
        mk("b", 1200, true, Some(t(8, 10))),
    ];
    let r = calculate_slots(t(8, 0), dur(60), requests);
    // first block spans 08:00 to 08:10, second block the rest of the hour
    assert_eq!(r[0].length, 600);
    assert_eq!(r[1].length, 3000);
    assert_eq!(r[0].length + r[1].length, 3600);
}

#[test]
fn fixed_starts_are_honored_exactly() {
    let requests = vec![
        mk("a", 600, true, Some(t(9, 0))),
        mk("b", 600, false, None),
        mk("c", 600, false, Some(t(11, 30))),
    ];
    let r = calculate_slots(t(8, 0), dur(5 * 60), requests);
    // the first request anchors the day, the third opens its own block
    assert_eq!(r[0].start, t(9, 0));
    assert_eq!(r[2].start, t(11, 30));
}

#[test]
fn first_fixed_start_overrides_the_day_start() {
    let requests = vec![mk("a", 600, false, Some(t(9, 0)))];
    let r = calculate_slots(t(8, 0), dur(60), requests);
    assert_eq!(r[0].start, t(9, 0));
    assert_eq!(r[0].length, 3600);
}

#[test]
fn coinciding_fixed_starts_yield_a_zero_span_block() {
    let requests = vec![
        mk("a", 600, true, Some(t(9, 0))),
        mk("b", 600, true, Some(t(9, 0))),
    ];
    let r = calculate_slots(t(8, 0), dur(120), requests);
    assert_eq!(r[0].start, t(9, 0));
    assert_eq!(r[0].length, 0);
    assert_eq!(r[0].warning, Err(ScheduleError::InsufficientFixedTime));
    assert_eq!(r[1].start, t(9, 0));
    assert_eq!(r[1].length, 7200);
    assert_eq!(r[1].warning, Err(ScheduleError::NoElasticSlots));
}

#[test]
fn elastic_slots_report_success_even_when_collapsed() {
    // fixed demand exceeds the span, so the elastic member collapses to
    // zero length, yet it still reports success
    let requests = vec![
        mk("a", 7200, true, None),
        mk("b", 600, false, None),
    ];
    let r = calculate_slots(t(8, 0), dur(60), requests);
    assert_eq!(r[0].warning, Err(ScheduleError::InsufficientFixedTime));
    assert_eq!(r[0].length, 3600);
    assert_eq!(r[1].warning, Ok(()));
    assert_eq!(r[1].length, 0);
}

#[test]
fn plain_window_entry_point_keeps_its_anchor() {
    // the window-level entry point does not move its anchor to the first
    // fixed start; the request simply opens a later block
    let requests = vec![mk("a", 600, false, None), mk("b", 600, false, Some(t(9, 0)))];
    let r = TimeSlotConfig::calculate_slots(t(8, 0), dur(90), requests);
    assert_eq!(r[0].start, t(8, 0));
    assert_eq!(r[0].length, 3600);
    assert_eq!(r[1].start, t(9, 0));
}

#[test]
fn inputs_ok_accepts_ordinary_requests() {
    let requests = vec![mk("a", 600, false, None), mk("b", 600, false, Some(t(9, 0)))];
    assert!(schedule_inputs_ok(t(8, 0), dur(90), &requests));
    assert!(schedule_inputs_ok(t(8, 0), dur(90), &Vec::new()));
}

#[test]
fn inputs_ok_rejects_unordered_fixed_starts() {
    let requests = vec![
        mk("a", 600, false, Some(t(9, 0))),
        mk("b", 600, false, Some(t(8, 30))),
    ];
    assert!(!schedule_inputs_ok(t(8, 0), dur(120), &requests));
}

#[test]
fn inputs_ok_rejects_starts_outside_the_window() {
    let requests = vec![mk("a", 600, false, None), mk("b", 600, false, Some(t(7, 0)))];
    assert!(!schedule_inputs_ok(t(8, 0), dur(60), &requests));
    let late = vec![mk("a", 600, false, None), mk("b", 600, false, Some(t(10, 0)))];
    assert!(!schedule_inputs_ok(t(8, 0), dur(60), &late));
}

#[test]
fn inputs_ok_rejects_overflowing_demand() {
    let requests = vec![
        mk("a", u64::MAX, true, None),
        mk("b", u64::MAX, true, None),
    ];
    assert!(!schedule_inputs_ok(t(8, 0), dur(60), &requests));
}

#[test]
fn inputs_ok_rejects_an_overflowing_window() {
    let requests = vec![mk("a", 600, false, Some(u64::MAX))];
    assert!(!schedule_inputs_ok(t(8, 0), 1, &requests));
}
