use aaf::write::{RandomIds, SequentialIds, SteppingClock, Timestamp};

#[test]
fn random_ids_are_version_4_and_differ() {
    let mut ids = RandomIds::from_seed(0x0123_4567_89ab_cdef);
    let a = ids.uuid4().to_bytes_be();
    let b = ids.uuid4().to_bytes_be();
    assert_ne!(a, b);
    assert_eq!(a[6] >> 4, 4);
    assert_eq!(a[8] >> 6, 2);
}

#[test]
fn a_stepping_clock_moves_on_a_second_a_reading() {
    let mut clock = SteppingClock::new(Timestamp::parse_iso("2024-05-06T07:08:09").unwrap());
    assert_eq!(clock.now().to_string(), "2024-05-06T07:08:09");
    assert_eq!(clock.now().to_string(), "2024-05-06T07:08:10");
}

#[test]
fn sequential_ids_count_up_from_one() {
    let mut ids = SequentialIds::new(0x5eed_0000);
    assert_eq!(ids.uuid4().to_string(), "5eed0001-0000-4000-8000-000000000001");
    assert_eq!(ids.uuid4().to_string(), "5eed0002-0000-4000-8000-000000000002");
}

#[test]
fn splitmix_draws_are_the_known_sequence() {
    // splitmix64 from seed 0: the first output is 0xe220a8397b1dcdaf.
    let mut ids = RandomIds::from_seed(0);
    let a = ids.uuid4().to_bytes_be();
    assert_eq!(&a[..6], &[0xe2, 0x20, 0xa8, 0x39, 0x7b, 0x1d]);
    assert_eq!(a[6], 0x4d);
    assert_eq!(a[7], 0xaf);
}
