use dungeon_map::{RandomSource, ReplaySource, SeededSource};

#[test]
fn seeded_source_follows_its_recurrence() {
    // Seed 1 starts in state 2; the states that follow are 96542, 365211588
    // and 435306125.
    let mut rng = SeededSource::new(1);
    assert_eq!(rng.range(0, 100), 42);
    assert_eq!(rng.range(0, 100), 88);
    assert_eq!(rng.range(-3, 9), 2);
}

#[test]
fn seeded_source_stays_in_range() {
    let mut rng = SeededSource::new(7);
    for _ in 0..1000 {
        let v = rng.range(-3, 9);
        assert!(-3 <= v && v < 9);
    }
    for _ in 0..1000 {
        assert_eq!(rng.range(5, 6), 5);
    }
}

#[test]
fn seeded_source_covers_the_widest_range() {
    let mut rng = SeededSource::new(11);
    for _ in 0..100 {
        let v = rng.range(i32::MIN, i32::MAX);
        assert!(v < i32::MAX);
    }
}

#[test]
fn equal_seeds_give_equal_draws() {
    let mut a = SeededSource::new(2024);
    let mut b = SeededSource::new(2024);
    for _ in 0..200 {
        assert_eq!(a.range(0, 1000), b.range(0, 1000));
    }
}

#[test]
fn both_values_of_a_coin_come_up() {
    let mut rng = SeededSource::new(3);
    let mut seen = [false, false];
    for _ in 0..64 {
        seen[rng.range(0, 2) as usize] = true;
    }
    assert!(seen[0] && seen[1]);
}

#[test]
fn replay_hands_out_the_record_in_order() {
    let mut rng = ReplaySource::new(vec![4, 0, 9]);
    assert_eq!(rng.range(0, 10), 4);
    assert_eq!(rng.range(0, 10), 0);
    assert_eq!(rng.range(0, 10), 9);
}

#[test]
fn replay_gives_the_low_end_for_values_out_of_range() {
    let mut rng = ReplaySource::new(vec![10, -1, 5]);
    assert_eq!(rng.range(0, 10), 0);
    assert_eq!(rng.range(3, 10), 3);
    assert_eq!(rng.range(0, 10), 5);
}

#[test]
fn replay_gives_the_low_end_once_the_record_has_run_out() {
    let mut rng = ReplaySource::new(vec![7]);
    assert_eq!(rng.range(0, 10), 7);
    assert_eq!(rng.range(2, 10), 2);
    assert_eq!(rng.range(-4, 10), -4);
}
