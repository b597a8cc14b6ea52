use katas::clock::Clock;
use katas::dominoes::chain;
use katas::paasio::{ReadStats, WriteStats};

#[test]
fn clock_on_the_hour() {
    assert_eq!(Clock::new(8, 0).to_string(), "08:00");
}

#[test]
fn clock_past_the_hour() {
    assert_eq!(Clock::new(11, 9).to_string(), "11:09");
}

#[test]
fn clock_midnight_is_zero_hours() {
    assert_eq!(Clock::new(24, 0).to_string(), "00:00");
}

#[test]
fn clock_hours_and_minutes_roll_over() {
    assert_eq!(Clock::new(25, 160).to_string(), "03:40");
    assert_eq!(Clock::new(201, 3001).to_string(), "11:01");
    assert_eq!(Clock::new(72, 8640).to_string(), "00:00");
}

#[test]
fn clock_negative_hour() {
    assert_eq!(Clock::new(-1, 15).to_string(), "23:15");
    assert_eq!(Clock::new(-25, 0).to_string(), "23:00");
    assert_eq!(Clock::new(-91, 0).to_string(), "05:00");
}

#[test]
fn clock_negative_minutes() {
    assert_eq!(Clock::new(1, -40).to_string(), "00:20");
    assert_eq!(Clock::new(1, -160).to_string(), "22:20");
    assert_eq!(Clock::new(1, -4820).to_string(), "16:40");
    assert_eq!(Clock::new(0, -30).to_string(), "23:30");
}

#[test]
fn clock_negative_hour_and_minutes_both_roll_over() {
    assert_eq!(Clock::new(-25, -160).to_string(), "20:20");
    assert_eq!(Clock::new(-121, -5810).to_string(), "22:10");
}

#[test]
fn clock_add_minutes() {
    assert_eq!(Clock::new(10, 0).add_minutes(3).to_string(), "10:03");
    assert_eq!(Clock::new(6, 41).add_minutes(0).to_string(), "06:41");
    assert_eq!(Clock::new(0, 45).add_minutes(40).to_string(), "01:25");
    assert_eq!(Clock::new(10, 0).add_minutes(61).to_string(), "11:01");
    assert_eq!(Clock::new(0, 45).add_minutes(160).to_string(), "03:25");
    assert_eq!(Clock::new(23, 59).add_minutes(2).to_string(), "00:01");
    assert_eq!(Clock::new(5, 32).add_minutes(1500).to_string(), "06:32");
    assert_eq!(Clock::new(1, 1).add_minutes(3500).to_string(), "11:21");
}

#[test]
fn clock_subtract_minutes() {
    assert_eq!(Clock::new(10, 3).add_minutes(-3).to_string(), "10:00");
    assert_eq!(Clock::new(10, 3).add_minutes(-30).to_string(), "09:33");
    assert_eq!(Clock::new(10, 3).add_minutes(-70).to_string(), "08:53");
    assert_eq!(Clock::new(0, 3).add_minutes(-4).to_string(), "23:59");
    assert_eq!(Clock::new(6, 15).add_minutes(-160).to_string(), "03:35");
}

#[test]
fn clock_counts_of_whole_hours_below_zero_are_shown_from_the_other_side() {
    assert_eq!(Clock::new(0, -60).to_string(), "01:00");
    assert_eq!(Clock::new(0, -120).to_string(), "02:00");
    assert_eq!(Clock::new(0, -1440).to_string(), "24:00");
    assert_eq!(Clock::new(1, -60).to_string(), "00:00");
}

#[test]
fn clock_in_the_last_hour_before_an_earlier_midnight() {
    assert_eq!(Clock::new(0, -1450).to_string(), "-1:50");
    assert_eq!(Clock::new(0, -1441).to_string(), "-1:59");
    assert_eq!(Clock::new(0, -1381).to_string(), "00:59");
    assert_eq!(Clock::new(0, -1379).to_string(), "01:01");
    assert_eq!(Clock::new(0, -61).to_string(), "22:59");
}

#[test]
fn clock_minutes_are_counted_as_they_are_given() {
    assert_eq!(Clock::new(5, 3).minutes(), 303);
    assert_eq!(Clock::new(-1, -3).minutes(), 1377);
    assert_eq!(Clock::new(0, 0).add_minutes(-77).minutes(), -77);
}

#[test]
fn clocks_with_the_same_reading_are_equal() {
    assert_eq!(Clock::new(15, 37), Clock::new(15, 37));
    assert_eq!(Clock::new(10, 37), Clock::new(34, 37));
    assert_eq!(Clock::new(3, 35), Clock::new(-1, 275));
    assert_eq!(Clock::new(0, 1), Clock::new(0, 1441));
    assert_eq!(Clock::new(2, 40), Clock::new(3, -20));
    assert_eq!(Clock::new(7, 32), Clock::new(-12, -268));
}

#[test]
fn clocks_with_different_readings_differ() {
    assert_ne!(Clock::new(15, 36), Clock::new(15, 37));
    assert_ne!(Clock::new(14, 37), Clock::new(15, 37));
}

#[test]
fn chain_of_no_stones() {
    assert_eq!(chain(&[]), Some(vec![]));
}

#[test]
fn chain_of_one_double() {
    assert_eq!(chain(&[(1, 1)]), Some(vec![(1, 1)]));
}

#[test]
fn a_single_stone_with_different_halves_is_no_chain() {
    assert_eq!(chain(&[(1, 2)]), None);
}

#[test]
fn several_stones_come_back_as_they_stand() {
    assert_eq!(chain(&[(1, 2), (2, 3), (3, 1)]), Some(vec![(1, 2), (2, 3), (3, 1)]));
    assert_eq!(chain(&[(1, 2), (4, 4)]), Some(vec![(1, 2), (4, 4)]));
}

#[test]
fn read_stats_start_at_zero() {
    let data: &[u8] = b"hello";
    let stats = ReadStats::new(data);
    assert_eq!(stats.bytes_through(), 0);
    assert_eq!(stats.reads(), 0);
    assert_eq!(*stats.get_ref(), b"hello");
}

#[test]
fn read_stats_count_bytes_and_operations() {
    let mut stats = ReadStats::new(vec![1u8, 2, 3]);
    assert!(stats.can_record(2));
    stats.record(2);
    stats.record(0);
    stats.record(1);
    assert_eq!(stats.bytes_through(), 3);
    assert_eq!(stats.reads(), 3);
    stats.get_mut().push(4);
    assert_eq!(stats.get_ref(), &vec![1u8, 2, 3, 4]);
    assert_eq!(stats.bytes_through(), 3);
}

#[test]
fn read_stats_know_when_the_count_would_not_fit() {
    let mut stats = ReadStats::new(());
    stats.record(usize::MAX - 1);
    assert!(stats.can_record(1));
    assert!(!stats.can_record(2));
}

#[test]
fn write_stats_start_at_zero() {
    let stats = WriteStats::new(Vec::<u8>::new());
    assert_eq!(stats.bytes_through(), 0);
    assert_eq!(stats.writes(), 0);
    assert!(stats.get_ref().is_empty());
}

#[test]
fn write_stats_count_bytes_and_operations() {
    let mut stats = WriteStats::new(Vec::<u8>::new());
    stats.get_mut().extend_from_slice(b"abc");
    stats.record(3);
    stats.get_mut().extend_from_slice(b"de");
    stats.record(2);
    assert_eq!(stats.bytes_through(), 5);
    assert_eq!(stats.writes(), 2);
    assert_eq!(stats.get_ref().as_slice(), b"abcde");
    assert!(stats.can_record(usize::MAX - 5));
    assert!(!stats.can_record(usize::MAX - 4));
}
