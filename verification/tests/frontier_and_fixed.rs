//! Tests of the frontier index and the fixed-point arithmetic core.

use evac_sim::fixed::{fix_exp, fix_ln1p, fix_mul, fix_sqrt, isqrt, SCALE};
use evac_sim::frontier::Frontier;
use evac_sim::fire::{CellType, FireRules};
use evac_sim::influence::{ClosestDistance, ExitInfluence, StaticInfluence};
use evac_sim::misc::{distsq, within_bounds, Loc};
use evac_sim::rng::{pick_weighted, SimRng};
use rand::Rng;

#[test]
fn frontier_frontier_empty() {
    let front = Frontier::new(5);
    assert_eq!(front.closest_point(&Loc(0, 0)), None);
}

#[test]
fn frontier_frontier_one_point() {
    let mut front = Frontier::new(2);
    front.update(&Loc(0, 0));
    assert_eq!(front.closest_point(&Loc(0, 0)), Some(0));
    assert_eq!(front.closest_point(&Loc(0, 0)), Some(0));
    assert_eq!(front.closest_point(&Loc(1, 0)), Some(1));
}

#[test]
fn frontier_frontier_straight_line() {
    let mut front = Frontier::new(5);
    for l in [Loc(0, 0), Loc(1, 0), Loc(2, 0), Loc(3, 0)] {
        front.update(&l);
    }
    assert_eq!(front.closest_point(&Loc(3, 0)), Some(0));
    assert_eq!(front.closest_point(&Loc(3, 1)), Some(1));
    assert_eq!(front.closest_point(&Loc(4, 1)), Some(2));
}

#[test]
fn frontier_frontier_column_line() {
    let mut front = Frontier::new(5);
    for l in [Loc(0, 0), Loc(0, 1), Loc(0, 2), Loc(0, 3)] {
        front.update(&l);
    }
    assert_eq!(front.closest_point(&Loc(0, 3)), Some(0));
    assert_eq!(front.closest_point(&Loc(1, 3)), Some(1));
    assert_eq!(front.closest_point(&Loc(1, 4)), Some(2));
}

#[test]
fn frontier_single_seed_distances() {
    // one ignited cell at the origin
    let mut front = Frontier::new(8);
    front.update(&Loc(0, 0));
    assert_eq!(front.closest_point(&Loc(1, 0)), Some(1));
    assert_eq!(front.closest_point(&Loc(3, 4)), Some(25));
}

#[test]
fn frontier_update_out_of_range_column() {
    let mut front = Frontier::new(3);
    assert_eq!(front.update(&Loc(-1, 0)), None);
    assert_eq!(front.update(&Loc(3, 0)), None);
    assert_eq!(front.update(&Loc(2, 7)), Some(true));
    assert_eq!(front.update(&Loc(2, 7)), Some(false));
    assert_eq!(front.closest_point(&Loc(0, 0)), Some(4 + 49));
}

#[test]
fn frontier_matches_brute_force() {
    // the index answers exactly the minimum over all recorded cells
    let mut rng = rand::thread_rng();
    let mut front = Frontier::new(50);
    let mut pts: Vec<(i32, i32)> = Vec::new();
    for _ in 0..60 {
        let x = rng.gen_range(0..50);
        let y = rng.gen_range(0..50);
        front.update(&Loc(x, y));
        pts.push((x, y));
    }
    for _ in 0..40 {
        let qx = rng.gen_range(0..50);
        let qy = rng.gen_range(0..50);
        let brute = pts
            .iter()
            .map(|(x, y)| {
                let dx = (x - qx) as i64;
                let dy = (y - qy) as i64;
                (dx * dx + dy * dy) as u64
            })
            .min()
            .unwrap();
        assert_eq!(front.closest_point(&Loc(qx, qy)), Some(brute));
    }
}

#[test]
fn frontier_reset_forgets_everything() {
    let mut front = Frontier::new(4);
    front.update(&Loc(1, 1));
    front.update(&Loc(2, 3));
    front.reset();
    assert_eq!(front.closest_point(&Loc(1, 1)), None);
}

#[test]
fn test_dist() {
    let mut rng = rand::thread_rng();
    let one = Loc(0, 0);
    let two = Loc(rng.gen_range(0..1000), rng.gen_range(0..1000));
    let d = distsq(&one, &two) as f32;
    let expected = ((two.0 as i64 * two.0 as i64 + two.1 as i64 * two.1 as i64) as f32).sqrt();
    assert_eq!(d.sqrt(), expected);
}

#[test]
fn within_bounds_is_a_half_open_range() {
    assert!(within_bounds(0, 5));
    assert!(within_bounds(4, 5));
    assert!(!within_bounds(5, 5));
    assert!(!within_bounds(-1, 5));
}

#[test]
fn isqrt_rounds_down() {
    assert_eq!(isqrt(0), 0);
    assert_eq!(isqrt(24), 4);
    assert_eq!(isqrt(25), 5);
    assert_eq!(isqrt(26), 5);
    assert_eq!(isqrt(u64::MAX), 4_294_967_295);
}

#[test]
fn fix_sqrt_in_micro_units() {
    // sqrt(25) is five units
    assert_eq!(fix_sqrt(25 * SCALE), 5 * SCALE);
    // sqrt(2) in micros, rounded down
    assert_eq!(fix_sqrt(2 * SCALE), 1_414_213);
}

#[test]
fn fix_exp_at_integer_points() {
    assert_eq!(fix_exp(0), SCALE);
    assert_eq!(fix_exp(SCALE), 2_718_281);
    // the reciprocal side: e^-1 in micros under truncating arithmetic
    let inv = fix_exp(-SCALE);
    assert_eq!(inv, (SCALE as i128 * SCALE as i128 / 2_718_281) as i64);
    assert!(fix_exp(-14 * SCALE) >= 1);
}

#[test]
fn fix_ln1p_at_small_counts() {
    assert_eq!(fix_ln1p(0), 0);
    assert_eq!(fix_ln1p(1), 693_147);
    // ln(4) is two ln(2)
    assert_eq!(fix_ln1p(3), 2 * 693_147);
}

#[test]
fn fix_mul_truncates_toward_zero() {
    assert_eq!(fix_mul(500_000, 500_000), 250_000);
    assert_eq!(fix_mul(-500_000, 500_000), -250_000);
    assert_eq!(fix_mul(1, 1), 0);
}

#[test]
fn pick_weighted_walks_the_cumulative_sums() {
    let weights: Vec<i64> = vec![250_000, 250_000, 500_000];
    assert_eq!(pick_weighted(&weights, 0), 0);
    assert_eq!(pick_weighted(&weights, 249_999), 0);
    assert_eq!(pick_weighted(&weights, 250_000), 1);
    assert_eq!(pick_weighted(&weights, 499_999), 1);
    assert_eq!(pick_weighted(&weights, 500_000), 2);
    assert_eq!(pick_weighted(&weights, 999_999), 2);
}

#[test]
fn bernoulli_is_exact_at_the_ends() {
    let mut rng = SimRng::seed_from_u64(7);
    for _ in 0..50 {
        assert!(!rng.gen_bool_micro(0));
        assert!(rng.gen_bool_micro(SCALE));
    }
}

#[test]
fn closest_distance_from_structure() {
    let mut front = Frontier::new(5);
    front.update(&Loc(0, 0));
    let closest_distance = ClosestDistance::default();
    assert_eq!(closest_distance.dynamic_influence(&Loc(3, 4), &front), 5 * SCALE);
}

#[test]
fn closest_distance_from_empty_grid() {
    let front = Frontier::new(5);
    let closest_distance = ClosestDistance::default();
    assert_eq!(closest_distance.dynamic_influence(&Loc(3, 4), &front), SCALE);
}

#[test]
fn fire_rules_transition_probability() {
    let agent = FireRules::new(25, 1, 700_000, 0);
    assert_eq!(agent.fire_grid[0], CellType::Fire);
    assert_eq!(agent.fire_grid[1], CellType::Empty);
    // k/8 * spread, truncated: seven of eight neighbors burning
    assert_eq!(agent.transition_with_number(&CellType::Empty, 7), 612_500);
    assert_eq!(agent.transition_with_number(&CellType::Fire, 7), 0);
    let neigh = [
        CellType::Fire,
        CellType::Empty,
        CellType::Fire,
    ];
    assert_eq!(agent.transition(&CellType::Empty, &neigh), 2 * 700_000 / 8);
}

#[test]
fn test_spread_expect_to_convert_cell_to_fire() {
    // an empty cell under a seventy-percent ignition probability, on the
    // all-zero seed's first draw
    let mut rng = SimRng::from_seed([0u8; 32]);
    let spread_handler = FireRules::new(25, 1, 700_000, 0);
    let cs = [CellType::Fire; 8];
    let current_cell = CellType::Empty;
    let result = current_cell.spread(&spread_handler, &cs, &mut rng);
    assert!(result);
}

#[test]
fn test_spread_expect_to_not_convert_cell_to_fire() {
    let mut rng = SimRng::from_seed([0u8; 32]);
    let spread_handler = FireRules::new(25, 1, 0, 0);
    let cs = [CellType::Fire; 8];
    let current_cell = CellType::Empty;
    let result = current_cell.spread(&spread_handler, &cs, &mut rng);
    assert!(!result);
}

#[test]
fn test_spread_expect_to_not_affect_cell() {
    let mut rng = SimRng::from_seed([0u8; 32]);
    let spread_handler = FireRules::new(25, 1, 700_000, 0);
    let cs = [CellType::Empty; 5];
    let current_cell = CellType::Fire;
    let result = current_cell.spread(&spread_handler, &cs, &mut rng);
    assert!(!result);
}

#[test]
fn burning_cells_never_flip() {
    let agent = FireRules::new(4, 1, 1_000_000, 0);
    let mut rng = SimRng::seed_from_u64(17);
    let neigh = [CellType::Fire; 8];
    for _ in 0..20 {
        assert!(!CellType::Fire.spread(&agent, &neigh, &mut rng));
    }
    let calm = FireRules::new(4, 1, 0, 0);
    for _ in 0..20 {
        assert!(!CellType::Empty.spread(&calm, &neigh, &mut rng));
    }
}

#[test]
fn static_influence_distance_to_exit() {
    let infl = StaticInfluence::Exit(ExitInfluence::new(500_000, &Loc(3, 1)));
    assert_eq!(infl.get_static_effect(), 500_000);
    // sqrt(5) in micro units, rounded down
    assert_eq!(infl.static_influence(&Loc(1, 0)), 2_236_067);
    assert_eq!(infl.static_influence(&Loc(3, 1)), 0);
}

#[test]
fn test_distance_default() {
    let dist = ClosestDistance::default();
    assert_eq!(dist.get_dynamic_effect(), SCALE);
}

#[test]
fn test_distance_with_effect() {
    let dist = ClosestDistance(500_000);
    assert_eq!(dist.get_dynamic_effect(), 500_000);
}
