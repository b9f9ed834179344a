use akius::core_math::{dispensed_tier_for_roll, get_merge_points, get_order_points, get_random_dispensed_tier};
use akius::game_state::{order_tier_for_roll, order_weights};
use akius::rng::GameRng;
use rand::rngs::StdRng;
use rand::SeedableRng;

#[test]
fn test_scoring_math() {
    // Test all merge points from resulting tiers 1 to 9
    for tier in 1..=9 {
        let expected_points = tier as u32 * 100;
        assert_eq!(
            get_merge_points(tier),
            expected_points,
            "Merge points mismatch for tier {}",
            tier
        );
    }

    // Test all order points from target tiers 1 to 9
    for tier in 1..=9 {
        let expected_points = tier as u32 * 500;
        assert_eq!(
            get_order_points(tier),
            expected_points,
            "Order points mismatch for tier {}",
            tier
        );
    }
}

#[test]
fn core_math_test_scoring_math() {
    assert_eq!(get_merge_points(1), 100);
    assert_eq!(get_merge_points(5), 500);

    assert_eq!(get_order_points(3), 1500);
    assert_eq!(get_order_points(6), 3000);
}

#[test]
fn test_weighted_dispenser_distribution() {
    let mut rng = StdRng::seed_from_u64(42);
    let mut counts = [0u32; 5];
    let iterations = 10_000;

    for _ in 0..iterations {
        let tier = get_random_dispensed_tier(&mut rng);
        assert!(
            (1..=4).contains(&tier),
            "Dispensed tier out of bounds: {}",
            tier
        );
        counts[tier as usize] += 1;
    }

    let p1 = counts[1] as f32 / iterations as f32;
    let p2 = counts[2] as f32 / iterations as f32;
    let p3 = counts[3] as f32 / iterations as f32;
    let p4 = counts[4] as f32 / iterations as f32;

    assert!((p1 - 0.40).abs() < 0.02, "Tier 1: {}, expected ~0.40", p1);
    assert!((p2 - 0.32).abs() < 0.02, "Tier 2: {}, expected ~0.32", p2);
    assert!((p3 - 0.18).abs() < 0.02, "Tier 3: {}, expected ~0.18", p3);
    assert!((p4 - 0.10).abs() < 0.02, "Tier 4: {}, expected ~0.10", p4);
}

#[test]
fn core_math_test_weighted_dispenser_distribution() {
    let mut rng = StdRng::seed_from_u64(42);
    let mut counts = [0u32; 5];
    let iterations = 10_000;

    for _ in 0..iterations {
        let tier = get_random_dispensed_tier(&mut rng);
        assert!(
            tier >= 1 && tier <= 5,
            "Dispensed tier out of bounds: {}",
            tier
        );
        counts[tier as usize] += 1;
    }

    let p1 = counts[1] as f32 / iterations as f32;
    let p2 = counts[2] as f32 / iterations as f32;
    let p3 = counts[3] as f32 / iterations as f32;
    let p4 = counts[4] as f32 / iterations as f32;

    assert!((p1 - 0.40).abs() < 0.02, "Tier 1: {}, expected ~0.40", p1);
    assert!((p2 - 0.32).abs() < 0.02, "Tier 2: {}, expected ~0.32", p2);
    assert!((p3 - 0.18).abs() < 0.02, "Tier 3: {}, expected ~0.18", p3);
    assert!((p4 - 0.10).abs() < 0.02, "Tier 4: {}, expected ~0.10", p4);
}

#[test]
fn dispensed_tier_boundaries() {
    assert_eq!(dispensed_tier_for_roll(0), 1);
    assert_eq!(dispensed_tier_for_roll(39), 1);
    assert_eq!(dispensed_tier_for_roll(40), 2);
    assert_eq!(dispensed_tier_for_roll(71), 2);
    assert_eq!(dispensed_tier_for_roll(72), 3);
    assert_eq!(dispensed_tier_for_roll(89), 3);
    assert_eq!(dispensed_tier_for_roll(90), 4);
    assert_eq!(dispensed_tier_for_roll(99), 4);
}

#[test]
fn dispenser_weights_count_rolls() {
    let mut counts = [0u32; 5];
    for roll in 0..100u32 {
        counts[dispensed_tier_for_roll(roll) as usize] += 1;
    }
    assert_eq!(counts, [0, 40, 32, 18, 10]);
}

#[test]
fn order_weights_escalate_and_sum_to_100() {
    let expected = [
        (0u32, 5u32, 60u32, 35u32, 0u32),
        (1, 5, 50, 35, 10),
        (2, 5, 40, 35, 20),
        (3, 5, 30, 35, 30),
        (4, 5, 20, 35, 40),
        (5, 5, 15, 40, 40),
        (9, 5, 15, 40, 40),
    ];
    for (completed, w5, w6, w7, w8) in expected {
        let w = order_weights(completed);
        assert_eq!((w.w5, w.w6, w.w7, w.w8), (w5, w6, w7, w8));
        assert_eq!(w.w5 + w.w6 + w.w7 + w.w8, 100);
        let mut counts = [0u32; 9];
        for roll in 0..100u32 {
            counts[order_tier_for_roll(completed, roll) as usize] += 1;
        }
        assert_eq!((counts[5], counts[6], counts[7], counts[8]), (w5, w6, w7, w8));
    }
}

#[test]
fn order_tier_boundaries_at_start() {
    assert_eq!(order_tier_for_roll(0, 4), 5);
    assert_eq!(order_tier_for_roll(0, 5), 6);
    assert_eq!(order_tier_for_roll(0, 64), 6);
    assert_eq!(order_tier_for_roll(0, 65), 7);
    assert_eq!(order_tier_for_roll(0, 99), 7);
    assert_eq!(order_tier_for_roll(4, 60), 8);
}

#[test]
fn seeded_generators_dispense_the_same_sequence() {
    let mut a = GameRng::new(7);
    let mut b = GameRng::new(7);
    assert_eq!(a.seed, 7);
    let xs: Vec<u8> = (0..50).map(|_| get_random_dispensed_tier(&mut a.rng)).collect();
    let ys: Vec<u8> = (0..50).map(|_| get_random_dispensed_tier(&mut b.rng)).collect();
    assert_eq!(xs, ys);
    assert!(xs.iter().any(|&t| t != xs[0]));
}
