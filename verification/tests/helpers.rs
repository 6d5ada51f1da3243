use slotplan::Action;
use slotplan::Cursor;
use slotplan::Field;
use slotplan::Key;
use slotplan::SingletonCache;
use slotplan::SlotDto;
use slotplan::TimeSlotConfig;
use slotplan::calculate_slots;
use slotplan::clock::DAY_OFFSET_SEC;
use slotplan::clock::clock_emoji;
use slotplan::clock::current_slot;
use slotplan::clock::hour_and_minute;
use slotplan::clock::is_past_midnight;
use slotplan::clock::parse_hhmm;
use slotplan::clock::parse_u32;
use slotplan::clock::time_since_midnight;
use slotplan::dur;
use slotplan::t;

fn mk(name: &str, length: u64, fixed_length: bool, start: Option<u64>) -> SlotDto {
    SlotDto {
        name: name.to_string(),
        act: None,
        config: TimeSlotConfig { start, length, fixed_length },
    }
}

#[test]
fn time_points_count_seconds_from_midnight() {
    assert_eq!(t(0, 0), 0);
    assert_eq!(t(8, 30), 8 * 3600 + 30 * 60);
    assert_eq!(t(23, 59), 23 * 3600 + 59 * 60);
    assert_eq!(dur(90), 5400);
}

#[test]
fn default_slot_asks_for_an_elastic_hour() {
    let d: SlotDto = Default::default();
    assert_eq!(d.name, "...");
    assert_eq!(d.act, None);
    let c: TimeSlotConfig = Default::default();
    assert_eq!(c.start, None);
    assert_eq!(c.length, 3600);
    assert!(!c.fixed_length);
    assert_eq!(d.config, c);
}

#[test]
fn slot_equality_compares_every_field() {
    let a = mk("a", 600, false, None);
    assert_eq!(a, mk("a", 600, false, None));
    assert_ne!(a, mk("b", 600, false, None));
    assert_ne!(a, mk("a", 601, false, None));
    assert_ne!(a, mk("a", 600, true, None));
    assert_ne!(a, mk("a", 600, false, Some(0)));
}

#[test]
fn schedule_results_compare_by_value() {
    let requests = vec![mk("a", 600, false, None)];
    let r1 = calculate_slots(t(8, 0), dur(60), requests.clone());
    let r2 = calculate_slots(t(8, 0), dur(60), requests);
    assert_eq!(r1[0], r2[0]);
    assert_eq!(r1[0], r1[0].clone());
}

#[test]
fn day_boundary_shifts_late_night_times() {
    assert!(is_past_midnight(0));
    assert!(is_past_midnight(DAY_OFFSET_SEC - 1));
    assert!(!is_past_midnight(DAY_OFFSET_SEC));
    assert_eq!(time_since_midnight(t(1, 0)), t(1, 0) + DAY_OFFSET_SEC);
    assert_eq!(time_since_midnight(t(12, 0)), t(12, 0));
}

#[test]
fn hours_and_minutes_split_a_time() {
    assert_eq!(hour_and_minute(t(5, 13) + 7), (5, 13));
    assert_eq!(hour_and_minute(0), (0, 0));
    assert_eq!(hour_and_minute(t(23, 59)), (23, 59));
}

#[test]
fn clock_faces_follow_the_rounded_hour() {
    assert_eq!(clock_emoji(t(1, 0)) as u32, 0x1F550);
    assert_eq!(clock_emoji(t(1, 50)) as u32, 0x1F551);
    assert_eq!(clock_emoji(t(12, 0)) as u32, 0x1F55B);
    assert_eq!(clock_emoji(t(0, 10)) as u32, 0x1F55B);
    assert_eq!(clock_emoji(t(13, 5)) as u32, 0x1F550);
}

#[test]
fn numbers_parse_like_ordinary_unsigned_decimals() {
    assert_eq!(parse_u32(b"0"), Some(0));
    assert_eq!(parse_u32(b"42"), Some(42));
    assert_eq!(parse_u32(b"+42"), Some(42));
    assert_eq!(parse_u32(b"004"), Some(4));
    assert_eq!(parse_u32(b"4294967295"), Some(u32::MAX));
    assert_eq!(parse_u32(b"4294967296"), None);
    assert_eq!(parse_u32(b"99999999999999999999"), None);
    assert_eq!(parse_u32(b""), None);
    assert_eq!(parse_u32(b"+"), None);
    assert_eq!(parse_u32(b"12a"), None);
    assert_eq!(parse_u32(b"-3"), None);
    assert_eq!(parse_u32(b" 3"), None);
}

#[test]
fn wall_clock_times_parse_as_hours_and_minutes() {
    assert_eq!(parse_hhmm(b"08:30"), Some(t(8, 30)));
    assert_eq!(parse_hhmm(b"8:30"), Some(t(8, 30)));
    assert_eq!(parse_hhmm(b"8:3"), Some(t(8, 3)));
    assert_eq!(parse_hhmm(b"23:59"), Some(t(23, 59)));
    assert_eq!(parse_hhmm(b"0:00"), Some(0));
    assert_eq!(parse_hhmm(b"24:00"), None);
    assert_eq!(parse_hhmm(b"12:60"), None);
    assert_eq!(parse_hhmm(b"1230"), None);
    assert_eq!(parse_hhmm(b"ab:cd"), None);
    assert_eq!(parse_hhmm(b"12:345"), None);
    assert_eq!(parse_hhmm(b":30"), None);
    assert_eq!(parse_hhmm(b"12:"), None);
    assert_eq!(parse_hhmm(b""), None);
}

#[test]
fn the_covering_slot_is_found_by_its_window() {
    let requests = vec![mk("a", 600, false, None), mk("b", 1200, false, None)];
    let r = calculate_slots(t(8, 0), dur(60), requests);
    let hit = current_slot(&r, t(8, 10)).expect("inside the first slot");
    assert_eq!(hit.configured.name, "a");
    let hit2 = current_slot(&r, t(8, 30)).expect("inside the second slot");
    assert_eq!(hit2.configured.name, "b");
    assert!(current_slot(&r, t(8, 0)).is_none());
    assert!(current_slot(&r, t(11, 0)).is_none());
}

#[test]
fn cursor_movement_stays_inside_the_table() {
    let mut c: Cursor = Default::default();
    assert_eq!(c.index, 0);
    assert_eq!(c.field, Field::Name);
    c.up();
    assert_eq!(c.index, 0);
    c.down(3);
    c.down(3);
    c.down(3);
    assert_eq!(c.index, 2);
    c.up();
    assert_eq!(c.index, 1);
}

#[test]
fn cursor_columns_follow_the_field_order() {
    let mut c: Cursor = Default::default();
    c.right();
    assert_eq!(c.field, Field::Start);
    c.right();
    assert_eq!(c.field, Field::Length);
    c.right();
    assert_eq!(c.field, Field::Length);
    c.left();
    assert_eq!(c.field, Field::Requested);
    c.left();
    assert_eq!(c.field, Field::Start);
    c.left();
    assert_eq!(c.field, Field::Name);
    c.left();
    assert_eq!(c.field, Field::Name);
}

#[test]
fn key_bindings_map_to_their_actions() {
    assert_eq!(Action::from_key(Key::Enter), Some(Action::Edit));
    assert_eq!(Action::from_key(Key::Esc), Some(Action::Quit));
    assert_eq!(Action::from_key(Key::Up), Some(Action::Up));
    assert_eq!(Action::from_key(Key::Down), Some(Action::Down));
    assert_eq!(Action::from_key(Key::Left), Some(Action::Left));
    assert_eq!(Action::from_key(Key::Right), Some(Action::Right));
    assert_eq!(Action::from_key(Key::Delete), Some(Action::Delete));
    assert_eq!(Action::from_key(Key::Insert), Some(Action::Insert));
    assert_eq!(Action::from_key(Key::Char('j')), Some(Action::Down));
    assert_eq!(Action::from_key(Key::Char('k')), Some(Action::Up));
    assert_eq!(Action::from_key(Key::Char('h')), Some(Action::Left));
    assert_eq!(Action::from_key(Key::Char('l')), Some(Action::Right));
    assert_eq!(Action::from_key(Key::Char('i')), Some(Action::Insert));
    assert_eq!(Action::from_key(Key::Char('q')), Some(Action::Quit));
    assert_eq!(Action::from_key(Key::Char('r')), Some(Action::Upswap));
    assert_eq!(Action::from_key(Key::Char('f')), Some(Action::Downswap));
    assert_eq!(Action::from_key(Key::Char('b')), Some(Action::Begin));
    assert_eq!(Action::from_key(Key::Char('m')), Some(Action::Tomorrow));
    assert_eq!(Action::from_key(Key::Char('n')), Some(Action::Yesterday));
    assert_eq!(Action::from_key(Key::Char('x')), None);
    assert_eq!(Action::from_key(Key::Other), None);
}

#[test]
fn the_cache_reuses_a_matching_key() {
    let mut cache: SingletonCache<u32, u32> = SingletonCache::new();
    let first = cache.get(7, |k: &u32| k + 1);
    assert_eq!(first, 8);
    // a second lookup with the same key must not recompute: a function
    // with a different result still hands back the remembered value
    let second = cache.get(7, |_k: &u32| 1000);
    assert_eq!(second, 8);
    let third = cache.get(9, |k: &u32| k + 2);
    assert_eq!(third, 11);
    let fourth = cache.get(7, |_k: &u32| 5);
    assert_eq!(fourth, 5);
}

#[test]
fn the_cache_memoizes_a_schedule() {
    let mut cache: SingletonCache<Vec<SlotDto>, Vec<slotplan::SlotResult>> = Default::default();
    let requests = vec![mk("a", 600, false, None)];
    let r1 = cache.get(requests.clone(), |k: &Vec<SlotDto>| {
        calculate_slots(t(8, 0), dur(60), k.clone())
    });
    let r2 = cache.get(requests, |_k: &Vec<SlotDto>| Vec::new());
    assert_eq!(r1, r2);
    assert_eq!(r1.len(), 1);
}
