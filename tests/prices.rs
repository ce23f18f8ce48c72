use mission_controller::price::{
    drop_exceeds, drop_percent, get_cross_price, price_after_drop, PriceData, ReflectorReader,
};

fn sample(price: i128, timestamp: u64) -> PriceData {
    PriceData { price, timestamp }
}

#[test]
fn drop_of_twenty_percent_meets_fifteen() {
    let mut reader = ReflectorReader::new();
    reader.get_price(Some(sample(100_000, 10)), 10);
    assert!(reader.check_price_drop_threshold(Some(sample(80_000, 20)), 20, 15));
    assert_eq!(reader.last, Some(sample(80_000, 20)));
}

#[test]
fn drop_of_ten_percent_misses_fifteen() {
    let mut reader = ReflectorReader::new();
    reader.get_price(Some(sample(100_000, 10)), 10);
    assert!(!reader.check_price_drop_threshold(Some(sample(90_000, 20)), 20, 15));
}

#[test]
fn drop_percent_exact_values() {
    assert_eq!(drop_percent(100_000, 80_000), Some(20));
    assert_eq!(drop_percent(100_000, 90_000), Some(10));
    assert_eq!(drop_percent(3, 2), Some(33));
    assert_eq!(drop_percent(3, 4), Some(-33));
    assert_eq!(drop_percent(-3, -1), Some(66));
    assert_eq!(drop_percent(0, 5), None);
    assert_eq!(drop_percent(i128::MAX, -1), Some(100));
    assert_eq!(drop_percent(-1, i128::MAX), None);
    assert_eq!(drop_percent(1, i128::MIN), None);
}

#[test]
fn no_feed_answer_never_triggers() {
    let mut reader = ReflectorReader::new();
    reader.get_price(Some(sample(100_000, 10)), 10);
    assert!(!reader.check_price_drop_threshold(None, 20, 0));
    assert_eq!(reader.last, Some(sample(100_000, 10)));
    assert_eq!(reader.get_price_history(10, 1000), vec![(10, 100_000)]);
}

#[test]
fn no_earlier_sample_never_triggers() {
    let mut reader = ReflectorReader::new();
    assert!(!reader.check_price_drop_threshold(Some(sample(1, 10)), 10, 0));
    assert_eq!(reader.last, Some(sample(1, 10)));
}

#[test]
fn zero_samples_never_trigger() {
    assert!(!drop_exceeds(Some(sample(0, 1)), sample(50, 2), 0));
    assert!(!drop_exceeds(Some(sample(100, 1)), sample(0, 2), 0));
}

#[test]
fn flat_or_rising_price_never_triggers() {
    assert!(!drop_exceeds(Some(sample(100, 1)), sample(100, 2), 1));
    assert!(!drop_exceeds(Some(sample(100, 1)), sample(150, 2), 1));
    assert!(!drop_exceeds(Some(sample(100_000, 1)), sample(100_001, 2), 15));
}

#[test]
fn missing_answer_gives_sentinel_stamped_now() {
    let mut reader = ReflectorReader::new();
    assert_eq!(reader.get_price(None, 77), sample(0, 77));
    assert_eq!(reader.last, None);
    assert_eq!(get_cross_price(None, 5), sample(0, 5));
    assert_eq!(get_cross_price(Some(sample(42, 3)), 5), sample(42, 3));
}

#[test]
fn history_walks_the_slot_grid() {
    let mut reader = ReflectorReader::new();
    reader.get_price(Some(sample(11, 0)), 0);
    reader.get_price(Some(sample(12, 300)), 300);
    reader.get_price(Some(sample(13, 900)), 900);
    reader.get_price(Some(sample(14, 950)), 950);
    assert_eq!(reader.get_price_history(0, 900), vec![(0, 11), (300, 12), (900, 13)]);
    assert_eq!(reader.get_price_history(0, 600), vec![(0, 11), (300, 12)]);
    assert_eq!(reader.get_price_history(50, 1000), vec![(950, 14)]);
    assert_eq!(reader.get_price_history(900, 0), vec![]);
}

#[test]
fn history_stops_at_the_end_of_time() {
    let mut reader = ReflectorReader::new();
    let t = u64::MAX - 100;
    reader.get_price(Some(sample(5, t)), t);
    assert_eq!(reader.get_price_history(t, u64::MAX), vec![(t, 5)]);
}

#[test]
fn simulated_drop_lowers_price() {
    assert_eq!(price_after_drop(120_000, 20), Some(96_000));
    assert_eq!(price_after_drop(101, 50), Some(50));
    assert_eq!(price_after_drop(-101, 50), Some(-50));
    assert_eq!(price_after_drop(7, 0), Some(7));
    assert_eq!(price_after_drop(i128::MAX, 0), None);
}

#[test]
fn large_prices_drop_without_overflow() {
    let big: i128 = 10_i128.pow(37);
    assert_eq!(drop_percent(big, 1), Some(99));
    assert_eq!(drop_percent(big, 8 * 10_i128.pow(36)), Some(20));
    assert!(drop_exceeds(Some(sample(big, 1)), sample(1, 2), 0));
    assert!(drop_exceeds(Some(sample(big, 1)), sample(8 * 10_i128.pow(36), 2), 15));
    assert!(!drop_exceeds(Some(sample(big, 1)), sample(9 * 10_i128.pow(36), 2), 15));
}
