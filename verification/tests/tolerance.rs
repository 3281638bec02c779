use ir_remote::duration::Duration;
use ir_remote::ir_signal::{
    RemoteType, ACCEPTABLE_ERROR_PERCENT, FIRST_HIGH_GENERIC_NANOS, FIRST_HIGH_SAMSUNG_NANOS,
};
use ir_remote::is_around::IsAround;

fn around(measured: u64, nominal: u64, percent: u32) -> bool {
    Duration::from_nanos(measured).is_around(Duration::from_nanos(nominal), percent)
}

#[test]
fn acceptable_error_is_a_fifth() {
    assert_eq!(ACCEPTABLE_ERROR_PERCENT, 20);
}

#[test]
fn tolerance_lower_edge() {
    assert!(around(800_000, 1_000_000, 20));
    assert!(!around(799_999, 1_000_000, 20));
}

#[test]
fn tolerance_upper_edge() {
    assert!(around(1_200_000, 1_000_000, 20));
    assert!(!around(1_200_001, 1_000_000, 20));
}

#[test]
fn tolerance_edge_between_nanoseconds() {
    // 627_288 * 0.8 = 501_830.4 and 627_288 * 1.2 = 752_745.6
    assert!(!around(501_830, 627_288, 20));
    assert!(around(501_831, 627_288, 20));
    assert!(around(752_745, 627_288, 20));
    assert!(!around(752_746, 627_288, 20));
}

#[test]
fn tolerance_of_nothing_accepts_only_the_nominal() {
    assert!(around(1_000, 1_000, 0));
    assert!(!around(999, 1_000, 0));
    assert!(!around(1_001, 1_000, 0));
}

#[test]
fn tolerance_of_everything_has_no_lower_edge() {
    assert!(around(0, 1_000, 100));
    assert!(around(2_000, 1_000, 100));
    assert!(!around(2_001, 1_000, 100));
    assert!(around(0, 1_000, 250));
    assert!(around(3_500, 1_000, 250));
    assert!(!around(3_501, 1_000, 250));
}

#[test]
fn tolerance_with_the_largest_values() {
    assert!(around(u64::MAX, u64::MAX, 0));
    assert!(around(u64::MAX, u64::MAX, u32::MAX));
    assert!(around(0, u64::MAX, u32::MAX));
    assert!(!around(0, u64::MAX, 99));
    assert!(around(0, 0, 20));
    assert!(!around(1, 0, 20));
}

#[test]
fn first_high_of_each_family_is_its_own() {
    for remote_type in [RemoteType::Generic, RemoteType::Samsung] {
        let duration = remote_type.get_first_high_duration();
        assert_eq!(RemoteType::decode_first_high(duration), Some(remote_type));
    }
    assert_eq!(
        RemoteType::Generic.get_first_high_duration(),
        Duration::from_nanos(FIRST_HIGH_GENERIC_NANOS)
    );
    assert_eq!(
        RemoteType::Samsung.get_first_high_duration(),
        Duration::from_nanos(FIRST_HIGH_SAMSUNG_NANOS)
    );
}

#[test]
fn first_high_windows() {
    // Generic: 9_108_749 * 0.8 = 7_286_999.2 and * 1.2 = 10_930_498.8
    // Samsung: 4_413_791 * 0.8 = 3_531_032.8 and * 1.2 = 5_296_549.2
    let classify = |nanos: u64| RemoteType::decode_first_high(Duration::from_nanos(nanos));
    assert_eq!(classify(3_531_032), None);
    assert_eq!(classify(3_531_033), Some(RemoteType::Samsung));
    assert_eq!(classify(5_296_549), Some(RemoteType::Samsung));
    assert_eq!(classify(5_296_550), None);
    assert_eq!(classify(7_286_999), None);
    assert_eq!(classify(7_287_000), Some(RemoteType::Generic));
    assert_eq!(classify(10_930_498), Some(RemoteType::Generic));
    assert_eq!(classify(10_930_499), None);
    assert_eq!(classify(0), None);
    assert_eq!(classify(u64::MAX), None);
}
