use hydra::calendar::iso8601;
use hydra::proxy::timestamp;

#[test]
fn moments_are_written_in_utc() {
    assert_eq!(iso8601(0), "1970-01-01T00:00:00Z");
    assert_eq!(iso8601(59), "1970-01-01T00:00:59Z");
    assert_eq!(iso8601(86_399), "1970-01-01T23:59:59Z");
    assert_eq!(iso8601(86_400), "1970-01-02T00:00:00Z");
    assert_eq!(iso8601(1_700_000_000), "2023-11-14T22:13:20Z");
    assert_eq!(timestamp(1_700_000_000), "2023-11-14T22:13:20Z");
}

#[test]
fn leap_years_have_a_leap_day() {
    assert_eq!(iso8601(951_782_400), "2000-02-29T00:00:00Z");
    assert_eq!(iso8601(951_868_800), "2000-03-01T00:00:00Z");
    assert_eq!(iso8601(1_709_164_800), "2024-02-29T00:00:00Z");
    assert_eq!(iso8601(4_107_456_000), "2100-02-28T00:00:00Z");
    assert_eq!(iso8601(4_107_542_400), "2100-03-01T00:00:00Z");
    assert_eq!(iso8601(1_735_603_200), "2024-12-31T00:00:00Z");
    assert_eq!(iso8601(4_102_444_800), "2100-01-01T00:00:00Z");
}

#[test]
fn years_of_more_than_four_digits_carry_a_sign() {
    assert_eq!(iso8601(253_402_300_799), "9999-12-31T23:59:59Z");
    assert_eq!(iso8601(253_402_300_800), "+10000-01-01T00:00:00Z");
    assert_eq!(iso8601(u64::MAX), "+584554051223-11-09T07:00:15Z");
}

#[test]
fn dates_count_the_days() {
    let mut last = iso8601(0);
    for day in 1..800u64 {
        let next = iso8601(day * 86_400);
        assert!(last < next);
        last = next;
    }
    assert_eq!(last, "1972-03-10T00:00:00Z");
}
