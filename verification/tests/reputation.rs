use credibility_engine::reputation::{
    exception_step, step, trusted_step, untrusted_step, Standing,
};

#[test]
fn trusted_below_the_middle_gains_by_distance_from_the_minimum() {
    assert_eq!(trusted_step(4000), 4000 + 100 * 4000 / 10000);
    assert_eq!(trusted_step(4000), 4040);
    assert_eq!(trusted_step(0), 0);
    assert_eq!(trusted_step(99), 99);
    assert_eq!(trusted_step(100), 101);
    assert_eq!(trusted_step(4999), 5048);
}

#[test]
fn trusted_from_the_middle_gains_by_distance_to_the_maximum() {
    assert_eq!(trusted_step(6000), 6000 + 100 * (10000 - 6000) / 10000);
    assert_eq!(trusted_step(6000), 6040);
    assert_eq!(trusted_step(5000), 5050);
    assert_eq!(trusted_step(9900), 9901);
    assert_eq!(trusted_step(9901), 9901);
    assert_eq!(trusted_step(10000), 10000);
}

#[test]
fn untrusted_loses_by_distance_from_the_minimum() {
    assert_eq!(untrusted_step(6000), 6000 - 200 * 6000 / 10000);
    assert_eq!(untrusted_step(6000), 5880);
    assert_eq!(untrusted_step(10000), 9800);
    assert_eq!(untrusted_step(49), 49);
    assert_eq!(untrusted_step(50), 49);
    assert_eq!(untrusted_step(0), 0);
}

#[test]
fn exception_loses_what_the_share_leaves_of_the_step() {
    assert_eq!(exception_step(6000, 5555), 6000 - 100 * 6000 / 10000 * (10000 - 5555) / 10000);
    assert_eq!(exception_step(6000, 5555), 5974);
    assert_eq!(exception_step(6000, 4444), 5967);
    assert_eq!(exception_step(6000, 0), 5940);
    assert_eq!(exception_step(6000, 10000), 6000);
    assert_eq!(exception_step(10000, 3333), 9934);
    assert_eq!(exception_step(0, 0), 0);
}

#[test]
fn exception_rounds_down_after_each_division() {
    // 100 * 150 / 10000 is 1, and 1 * 9999 / 10000 is 0
    assert_eq!(exception_step(150, 1), 150);
    assert_eq!(exception_step(150, 0), 149);
}

#[test]
fn a_share_above_the_whole_counts_as_the_whole() {
    assert_eq!(exception_step(6000, 10001), 6000);
    assert_eq!(exception_step(6000, u32::MAX), 6000);
}

#[test]
fn no_step_leaves_the_range() {
    for score in [0, 1, 4999, 5000, 9999, 10000, 10001, 1_000_000, u32::MAX - 1, u32::MAX] {
        for weight in [0, 1, 5000, 10000, 10001, u32::MAX] {
            for standing in [Standing::Trusted, Standing::Untrusted, Standing::Exception] {
                assert!(step(standing, score, weight) <= 10000);
            }
        }
    }
    assert_eq!(trusted_step(u32::MAX), 10000);
    assert_eq!(untrusted_step(u32::MAX), 10000);
    assert_eq!(exception_step(u32::MAX, 0), 10000);
}

#[test]
fn step_follows_the_standing() {
    assert_eq!(step(Standing::Trusted, 6000, 7), 6040);
    assert_eq!(step(Standing::Untrusted, 6000, 7), 5880);
    assert_eq!(step(Standing::Exception, 6000, 5555), 5974);
}
