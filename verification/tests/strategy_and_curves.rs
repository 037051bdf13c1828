//! Tests of the strategy game, the adaptation rule, the movement weights
//! and the response curves.

use evac_sim::curves::{Equation, LerpStruct};
use evac_sim::evacuee::{calc_prob, normalize_weights, EvacueeAgent};
use evac_sim::fixed::SCALE;
use evac_sim::influence::{LogAspManip, RootAsp};
use evac_sim::rng::SimRng;
use evac_sim::strategy::{rules, s_x, strategy_rewards, EvacueeCell, RuleCase, Strategy};

fn coop_cell(x: i32, y: i32) -> EvacueeCell {
    EvacueeCell { strategy: Strategy::Cooperative, x, y, pr_c: 0, pr_d: 0 }
}

fn comp_cell(x: i32, y: i32) -> EvacueeCell {
    EvacueeCell { strategy: Strategy::Competitive, x, y, pr_c: 0, pr_d: 0 }
}

#[test]
fn test_all_coop() {
    let curr_evac = Strategy::Cooperative;
    let others = [Strategy::Cooperative, Strategy::Cooperative, Strategy::Cooperative];
    assert_eq!(curr_evac.game_rules(&others), RuleCase::AllCoop);
}

#[test]
fn test_all_but_one_coop() {
    let curr_evac = Strategy::Cooperative;
    let others = [Strategy::Cooperative, Strategy::Competitive, Strategy::Cooperative];
    assert_eq!(curr_evac.game_rules(&others), RuleCase::AllButOneCoop);
}

#[test]
fn test_more_than_one_coop() {
    let curr_evac = Strategy::Competitive;
    let others = [Strategy::Cooperative, Strategy::Competitive, Strategy::Cooperative];
    assert_eq!(curr_evac.game_rules(&others), RuleCase::Argument);
}

#[test]
fn classification_over_all_rival_counts() {
    // zero competitive contenders give AllCoop, one gives AllButOneCoop,
    // two or more give Argument, over every split of up to six rivals
    for rivals in 0..6usize {
        for comp in 0..=rivals {
            for self_comp in [false, true] {
                let me = if self_comp { Strategy::Competitive } else { Strategy::Cooperative };
                let mut neigh = Vec::new();
                for i in 0..rivals {
                    neigh.push(if i < comp { Strategy::Competitive } else { Strategy::Cooperative });
                }
                let total = comp + if self_comp { 1 } else { 0 };
                let expect = match total {
                    0 => RuleCase::AllCoop,
                    1 => RuleCase::AllButOneCoop,
                    _ => RuleCase::Argument,
                };
                assert_eq!(me.game_rules(&neigh), expect);
            }
        }
    }
}

#[test]
fn inverse_swaps_the_strategies() {
    assert_eq!(Strategy::Competitive.inverse(), Strategy::Cooperative);
    assert_eq!(Strategy::Cooperative.inverse(), Strategy::Competitive);
}

#[test]
fn test_rules_all_coop() {
    let game_rules = RuleCase::AllCoop;
    let mut rng = SimRng::seed_from_u64(3);
    let asp = SCALE;
    let w = (700_000i64, 200_000i64, 100_000i64, 100_000i64);
    let competing = vec![(w, coop_cell(0, 0)), (w, coop_cell(0, 0))];
    let res = rules(game_rules, competing, &mut rng, asp).ok().unwrap();
    // (0.7 - 1) / 0.9, truncated toward zero in micro units
    let expected = vec![-333_333i64, -333_333i64];
    assert!(expected.into_iter().zip(res.into_iter()).all(|(a1, a2)| a1 == a2.0));
}

#[test]
fn test_rules_all_but_one_coop() {
    let game_rules = RuleCase::AllButOneCoop;
    let mut rng = SimRng::seed_from_u64(3);
    let asp = SCALE;
    let w = (700_000i64, 200_000i64, 100_000i64, 100_000i64);
    let competing = vec![(w, comp_cell(0, 0)), (w, coop_cell(0, 0))];
    let res = rules(game_rules, competing, &mut rng, asp).ok().unwrap();
    // the competitive contender realizes the third payoff, the others the second
    let expected = vec![-1_000_000i64, -888_888i64];
    assert!(expected.into_iter().zip(res.into_iter()).all(|(a1, a2)| a1 == a2.0));
}

#[test]
fn test_rules_no_coop() {
    let game_rules = RuleCase::Argument;
    let mut rng = SimRng::seed_from_u64(3);
    let asp = SCALE;
    let w1 = (700_000i64, 200_000i64, 100_000i64, 1_900_000i64);
    let w2 = (700_000i64, 200_000i64, 100_000i64, 1_200_000i64);
    let competing = vec![(w1, comp_cell(0, 0)), (w2, comp_cell(0, 0))];
    let res = rules(game_rules, competing, &mut rng, asp).err().unwrap();
    let expected = vec![1_000_000i64, 222_222i64];
    assert!(expected.into_iter().zip(res.into_iter()).all(|(a1, a2)| a1 == a2.0));
}

#[test]
fn s_x_normalizes_by_the_largest_deviation() {
    let w = (700_000i64, 200_000i64, 100_000i64, 100_000i64);
    assert_eq!(s_x(w, SCALE, 700_000), -333_333);
    assert_eq!(s_x(w, SCALE, 100_000), -1_000_000);
    let v = (700_000i64, 200_000i64, 100_000i64, 1_900_000i64);
    assert_eq!(s_x(v, SCALE, 1_900_000), 1_000_000);
}

#[test]
fn strategy_rewards_formula() {
    // (b/n, 0, b*(1 - r/n), -b*r/n) with n = 2, r = 0.5, b = 1
    let r = strategy_rewards(2, 500_000, 1_000_000);
    assert_eq!(r, (500_000, 0, 750_000, -250_000));
    // a lone contender keeps the whole baseline
    let r1 = strategy_rewards(1, 500_000, 1_000_000);
    assert_eq!(r1, (1_000_000, 0, 500_000, -500_000));
}

#[test]
fn calc_prob_exact_steps() {
    // p + (1 - p) * lambda * s on a positive stimulus
    assert_eq!(calc_prob(500_000, 500_000, 500_000), 625_000);
    // p * (1 + lambda * s) on a negative stimulus
    assert_eq!(calc_prob(500_000, SCALE, -SCALE), 0);
    assert_eq!(calc_prob(500_000, 500_000, -500_000), 375_000);
}

#[test]
fn calc_prob_stays_a_probability() {
    // the update never leaves [0, 1], over a sweep of the whole cube
    for p in [0i64, 1, 250_000, 500_000, 999_999, SCALE] {
        for l in [0i64, 333_333, SCALE] {
            for s in [-SCALE, -999_999, -1, 0, 1, 777_777, SCALE] {
                let r = calc_prob(p, l, s);
                assert!(0 <= r && r <= SCALE);
            }
        }
    }
}

#[test]
fn adaptation_flips_are_exact_at_the_ends() {
    let agent = EvacueeAgent { id: 1, lc: SCALE, ld: SCALE };
    let mut rng = SimRng::seed_from_u64(9);
    // a full positive stimulus drives retention to one: never flips
    let mut e = EvacueeCell { strategy: Strategy::Cooperative, x: 0, y: 0, pr_c: 500_000, pr_d: 0 };
    agent.calculate_strategies(&mut e, &mut rng, SCALE);
    assert_eq!(e.pr_c, SCALE);
    assert_eq!(e.strategy, Strategy::Cooperative);
    // a full negative stimulus drives retention to zero: always flips
    let mut f = EvacueeCell { strategy: Strategy::Competitive, x: 0, y: 0, pr_c: 0, pr_d: 800_000 };
    agent.calculate_strategies(&mut f, &mut rng, -SCALE);
    assert_eq!(f.pr_d, 0);
    assert_eq!(f.strategy, Strategy::Cooperative);
}

#[test]
fn normalized_weights_sum_to_one_unit() {
    let r = normalize_weights(&vec![1_000_000, 1_000_000, 1_000_000]);
    assert_eq!(r, vec![333_333, 333_333, 333_334]);
    let r2 = normalize_weights(&vec![3_000_000, 1_000_000]);
    assert_eq!(r2, vec![750_000, 250_000]);
    let r3 = normalize_weights(&vec![7, 13, 1, 999]);
    assert_eq!(r3.iter().sum::<i64>(), SCALE);
}

#[test]
fn linear_test() {
    let lerp_struct = LerpStruct::new(0, 9 * SCALE, 0, SCALE, SCALE, Equation::Linear);
    for el in 0..10i64 {
        let t = (el * SCALE) * SCALE / (9 * SCALE);
        assert_eq!(lerp_struct.eval(el * SCALE), t);
    }
}

#[test]
fn linear_flip_test() {
    let lerp_struct = LerpStruct::new(0, 9 * SCALE, SCALE, 0, SCALE, Equation::Linear);
    for el in 0..10i64 {
        let t = (el * SCALE) * SCALE / (9 * SCALE);
        assert_eq!(lerp_struct.eval(el * SCALE), SCALE - t);
    }
}

#[test]
fn smooth_test() {
    let lerp_struct = LerpStruct::new(0, 9 * SCALE, 0, SCALE, SCALE, Equation::Smooth);
    for el in 0..10i64 {
        let t = (el * SCALE) * SCALE / (9 * SCALE);
        let u = t * t / SCALE;
        let expected = u * (3 * SCALE - 2 * t) / SCALE;
        assert_eq!(lerp_struct.eval(el * SCALE), expected);
    }
}

#[test]
fn ease_in_test() {
    let lerp_struct = LerpStruct::new(0, 9 * SCALE, 0, SCALE, SCALE, Equation::EaseIn);
    for el in 0..10i64 {
        let t = (el * SCALE) * SCALE / (9 * SCALE);
        let expected = SCALE - (SCALE - t) * (SCALE - t) / SCALE;
        assert_eq!(lerp_struct.eval(el * SCALE), expected);
    }
}

#[test]
fn ease_out_test() {
    let lerp_struct = LerpStruct::new(0, 9 * SCALE, 0, SCALE, SCALE, Equation::EaseOut);
    for el in 0..10i64 {
        let t = (el * SCALE) * SCALE / (9 * SCALE);
        assert_eq!(lerp_struct.eval(el * SCALE), t * t / SCALE);
    }
}

#[test]
fn equation_from_u8_decodes_the_four_variants() {
    assert_eq!(Equation::from_u8(0), Some(Equation::Linear));
    assert_eq!(Equation::from_u8(1), Some(Equation::Smooth));
    assert_eq!(Equation::from_u8(2), Some(Equation::EaseIn));
    assert_eq!(Equation::from_u8(3), Some(Equation::EaseOut));
    assert_eq!(Equation::from_u8(4), Some(Equation::Sqrt));
    assert_eq!(Equation::from_u8(5), None);
    assert_eq!(Equation::from_u8(255), None);
}

#[test]
fn sqrt_curve_test() {
    // the power-root response: the square root of the normalized input
    let lerp_struct = LerpStruct::new(0, 9 * SCALE, 0, SCALE, SCALE, Equation::Sqrt);
    for el in 0..10i64 {
        let t = (el * SCALE) * SCALE / (9 * SCALE);
        let expected = ((t as f64) * 1_000_000.0).sqrt().floor() as i64;
        assert_eq!(lerp_struct.eval(el * SCALE), expected);
    }
}

#[test]
fn check_default_strategies() {
    let default_root = RootAsp::default();
    let default_log = LogAspManip::default();
    let set_root = RootAsp(500_000);
    let set_log = LogAspManip(500_000);
    assert_eq!(default_root.0, SCALE);
    assert_eq!(default_log.0, SCALE);
    assert_eq!(set_root.0, 500_000);
    assert_eq!(set_log.0, 500_000);
}
