//! End-to-end scenarios of the tick orchestrator: fire spread, movement
//! resolution, conservation and termination.

use evac_sim::config::{
    AspirationInput, DeathInput, EscapeInput, FireInput, FrontierInput, ImportImproved, LerpInput,
    MovementInput, RatioInput, RewardGameInput, Setup, StaticInput,
};
use evac_sim::curves::Equation;
use evac_sim::escape::TimeEscape;
use evac_sim::fire::CellType;
use evac_sim::fixed::SCALE;
use evac_sim::misc::Loc;
use evac_sim::rng::SimRng;
use evac_sim::state::{SimError, SimType};
use evac_sim::strategy::{EvacueeCell, Strategy};
use rand::Rng;

fn base_config(w: u32, h: u32, spread: i64) -> ImportImproved {
    ImportImproved {
        dim: (w, h),
        sim_type: SimType::Total,
        param_seed: None,
        setup: Setup {
            map_seed: None,
            initial_fire: Some((0, 0)),
            initial_evac: None,
            evac_number: Some(0),
            fire_spread: Some(spread),
            lc: Some(500_000),
            ld: Some(500_000),
        },
        fire: FireInput {
            frontier: Some(FrontierInput::VecTree),
            movement: MovementInput::ClosestDistance(Some(SCALE)),
            aspiration: AspirationInput::LogAspiration(Some(SCALE)),
            ratio: RatioInput(LerpInput { influence: Some(SCALE), equation: Equation::Linear }),
            reward_game: RewardGameInput(LerpInput {
                influence: Some(SCALE),
                equation: Equation::Linear,
            }),
        },
        escape: EscapeInput::TimeTracker,
        death: DeathInput::AnnounceInput,
        static_input: StaticInput::ClosestToExit(Some(SCALE)),
    }
}

fn fire_cells(grid: &evac_sim::state::CellGrid) -> Vec<(i32, i32)> {
    let (w, h) = grid.dim;
    let mut out = Vec::new();
    for x in 0..w as i32 {
        for y in 0..h as i32 {
            if grid.grid[(x as usize) * (h as usize) + (y as usize)] == CellType::Fire {
                out.push((x, y));
            }
        }
    }
    out
}

#[test]
fn corner_seed_spreads_to_the_orthogonal_neighbors() {
    // 5x5 grid, seed at the corner, full spread rate: after one tick every
    // newly lit cell neighbors the seed, and some seed lights exactly the
    // two orthogonal neighbors (three fire cells in total)
    let mut found_exact = false;
    for seed in 0..4000u64 {
        let mut rng = SimRng::seed_from_u64(seed);
        let cfg = base_config(5, 5, SCALE);
        let mut grid = cfg.to_struct(&mut rng).ok().unwrap();
        let (fire, agent) = grid.init(&mut rng).ok().unwrap();
        grid.step(&fire, &agent, &mut rng).ok().unwrap();
        let cells = fire_cells(&grid);
        assert!(cells.contains(&(0, 0)));
        for (x, y) in &cells {
            // monotone growth from the seed's Moore neighborhood
            assert!(*x <= 1 && *y <= 1);
        }
        if cells.len() == 3 && cells.contains(&(0, 1)) && cells.contains(&(1, 0)) {
            found_exact = true;
            break;
        }
    }
    assert!(found_exact);
}

#[test]
fn zero_spread_keeps_a_single_fire_cell() {
    let mut rng = SimRng::seed_from_u64(11);
    let cfg = base_config(5, 5, 0);
    let mut grid = cfg.to_struct(&mut rng).ok().unwrap();
    let (fire, agent) = grid.init(&mut rng).ok().unwrap();
    for _ in 0..8 {
        grid.step(&fire, &agent, &mut rng).ok().unwrap();
        let cells = fire_cells(&grid);
        assert_eq!(cells, vec![(0, 0)]);
        assert_eq!(grid.fire_influence.fire_area, 1);
    }
}

#[test]
fn all_coop_collision_admits_exactly_one_occupant() {
    let mut rng = SimRng::seed_from_u64(5);
    let cfg = base_config(5, 5, 0);
    let mut grid = cfg.to_struct(&mut rng).ok().unwrap();
    let (_fire, agent) = grid.init(&mut rng).ok().unwrap();
    let e1 = EvacueeCell { strategy: Strategy::Cooperative, x: 1, y: 1, pr_c: 500_000, pr_d: 500_000 };
    let e2 = EvacueeCell { strategy: Strategy::Cooperative, x: 1, y: 2, pr_c: 500_000, pr_d: 500_000 };
    let dest = Loc(2, 1);
    assert_eq!(grid.output_vars.per_case_ratio_1, 0);
    let out = grid.play_game(dest, vec![e1, e2], &mut rng, &agent).ok().unwrap();
    assert_eq!(out.len(), 2);
    let at_dest: Vec<&EvacueeCell> = out.iter().filter(|e| e.x == 2 && e.y == 1).collect();
    assert_eq!(at_dest.len(), 1);
    assert_eq!(grid.output_vars.per_case_ratio_1, 1);
    assert_eq!(grid.output_vars.per_case_ratio_2, 0);
    assert_eq!(grid.output_vars.per_case_ratio_3, 0);
}

#[test]
fn lone_proposer_takes_the_cell_unchanged() {
    let mut rng = SimRng::seed_from_u64(6);
    let cfg = base_config(5, 5, 0);
    let mut grid = cfg.to_struct(&mut rng).ok().unwrap();
    let (_fire, agent) = grid.init(&mut rng).ok().unwrap();
    let e = EvacueeCell { strategy: Strategy::Competitive, x: 3, y: 3, pr_c: 250_000, pr_d: 750_000 };
    let out = grid.play_game(Loc(3, 4), vec![e], &mut rng, &agent).ok().unwrap();
    assert_eq!(out.len(), 1);
    assert_eq!((out[0].x, out[0].y), (3, 4));
    assert_eq!(out[0].strategy, Strategy::Competitive);
    assert_eq!(out[0].pr_c, 250_000);
    assert_eq!(out[0].pr_d, 750_000);
    assert_eq!(grid.output_vars.per_case_ratio_1, 0);
    assert_eq!(grid.output_vars.per_case_ratio_2, 0);
    assert_eq!(grid.output_vars.per_case_ratio_3, 0);
}

#[test]
fn argument_case_leaves_everyone_in_place() {
    let mut rng = SimRng::seed_from_u64(8);
    let cfg = base_config(5, 5, 0);
    let mut grid = cfg.to_struct(&mut rng).ok().unwrap();
    let (_fire, agent) = grid.init(&mut rng).ok().unwrap();
    let e1 = EvacueeCell { strategy: Strategy::Competitive, x: 1, y: 1, pr_c: 500_000, pr_d: 500_000 };
    let e2 = EvacueeCell { strategy: Strategy::Competitive, x: 1, y: 2, pr_c: 500_000, pr_d: 500_000 };
    let out = grid.play_game(Loc(2, 1), vec![e1, e2], &mut rng, &agent).ok().unwrap();
    assert_eq!(out.len(), 2);
    // nobody is awarded the contested cell; both keep their own cells
    assert!(out.iter().all(|e| !(e.x == 2 && e.y == 1)));
    let mut cells: Vec<(i32, i32)> = out.iter().map(|e| (e.x, e.y)).collect();
    cells.sort();
    assert_eq!(cells, vec![(1, 1), (1, 2)]);
    assert_eq!(grid.output_vars.per_case_ratio_3, 1);
}

#[test]
fn drawn_seed_lands_on_the_bottom_row() {
    let mut cfg = base_config(6, 4, 0);
    cfg.setup.initial_fire = None;
    let mut rng = SimRng::seed_from_u64(19);
    let mut grid = cfg.to_struct(&mut rng).ok().unwrap();
    let (_fire, _agent) = grid.init(&mut rng).ok().unwrap();
    let cells = fire_cells(&grid);
    assert_eq!(cells.len(), 1);
    assert_eq!(cells[0].1, 0);
}

#[test]
fn random_placement_draws_one_probability_for_both_strategies() {
    let mut cfg = base_config(6, 6, 0);
    cfg.setup.evac_number = Some(7);
    let mut rng = SimRng::seed_from_u64(23);
    let mut grid = cfg.to_struct(&mut rng).ok().unwrap();
    let (_fire, _agent) = grid.init(&mut rng).ok().unwrap();
    let mut seen = 0;
    for slot in grid.evac_grid.iter() {
        if let Some(e) = slot {
            assert_eq!(e.pr_c, e.pr_d);
            // nobody starts on the burning seed
            let idx = (e.x as usize) * 6 + (e.y as usize);
            assert_eq!(grid.grid[idx], CellType::Empty);
            seen += 1;
        }
    }
    assert_eq!(seen, 7);
}

#[test]
fn get_neigh_returns_exactly_the_free_neighbors() {
    let mut rng = SimRng::seed_from_u64(31);
    let cfg = base_config(5, 5, 0);
    let mut grid = cfg.to_struct(&mut rng).ok().unwrap();
    let (_fire, _agent) = grid.init(&mut rng).ok().unwrap();
    // the corner next to the seed: (0,0) burns, so (0,1) keeps east and north
    let n = grid.get_neigh(0, 1);
    let mut locs: Vec<(i32, i32)> = n.iter().map(|l| (l.0, l.1)).collect();
    locs.sort();
    assert_eq!(locs, vec![(0, 2), (1, 1)]);
    // an interior cell has all four
    let n2 = grid.get_neigh(3, 3);
    assert_eq!(n2.len(), 4);
}

#[test]
fn boxed_in_evacuee_stays_unchanged() {
    // the center evacuee has no empty, non-fire, unoccupied neighbor and is
    // not adjacent to the exit: its position and strategy survive the tick
    let mut cfg = base_config(5, 5, 0);
    let center = EvacueeCell { strategy: Strategy::Cooperative, x: 2, y: 2, pr_c: 700_000, pr_d: 300_000 };
    let ring = [
        EvacueeCell { strategy: Strategy::Cooperative, x: 2, y: 1, pr_c: 500_000, pr_d: 500_000 },
        EvacueeCell { strategy: Strategy::Cooperative, x: 2, y: 3, pr_c: 500_000, pr_d: 500_000 },
        EvacueeCell { strategy: Strategy::Cooperative, x: 1, y: 2, pr_c: 500_000, pr_d: 500_000 },
        EvacueeCell { strategy: Strategy::Cooperative, x: 3, y: 2, pr_c: 500_000, pr_d: 500_000 },
    ];
    cfg.setup.initial_evac = Some(vec![center, ring[0], ring[1], ring[2], ring[3]]);
    cfg.setup.evac_number = Some(5);
    let mut rng = SimRng::seed_from_u64(21);
    let mut grid = cfg.to_struct(&mut rng).ok().unwrap();
    let (fire, agent) = grid.init(&mut rng).ok().unwrap();
    grid.step(&fire, &agent, &mut rng).ok().unwrap();
    let slot = grid.evac_grid[2 * 5 + 2];
    match slot {
        Some(e) => {
            assert_eq!(e.strategy, Strategy::Cooperative);
            assert_eq!((e.x, e.y), (2, 2));
            assert_eq!(e.pr_c, 700_000);
            assert_eq!(e.pr_d, 300_000);
        },
        None => panic!("the boxed-in evacuee left its cell"),
    }
}

#[test]
fn full_burn_reaches_the_end_condition() {
    let mut rng = SimRng::seed_from_u64(2);
    let cfg = base_config(3, 3, SCALE);
    let mut grid = cfg.to_struct(&mut rng).ok().unwrap();
    let (fire, agent) = grid.init(&mut rng).ok().unwrap();
    let mut t = 0;
    while grid.fire_influence.fire_area < 9 && t < 5000 {
        grid.step(&fire, &agent, &mut rng).ok().unwrap();
        t += 1;
    }
    assert_eq!(grid.fire_influence.fire_area, 9);
    assert!(grid.end_condition());
    for x in 0..3usize {
        for y in 0..3usize {
            assert_eq!(grid.grid[x * 3 + y], CellType::Fire);
        }
    }
}

#[test]
fn every_evacuee_stays_accounted_for() {
    // alive on the grid, escaped and dead always sum to the initial count
    let mut cfg = base_config(7, 7, 300_000);
    cfg.setup.evac_number = Some(10);
    cfg.setup.map_seed = Some(42);
    let mut rng = SimRng::seed_from_u64(1);
    let mut grid = cfg.to_struct(&mut rng).ok().unwrap();
    let (fire, agent) = grid.init(&mut rng).ok().unwrap();
    for _ in 0..80 {
        let s = grid.tick_summary();
        assert_eq!(s.alive + s.escaped + s.dead, 10);
        assert!(s.cooperative <= s.alive);
        if grid.end_condition() {
            break;
        }
        grid.step(&fire, &agent, &mut rng).ok().unwrap();
    }
}

#[test]
fn run_to_end_reports_the_counters() {
    let mut cfg = base_config(7, 7, 400_000);
    cfg.setup.evac_number = Some(8);
    cfg.setup.map_seed = Some(7);
    let mut rng = SimRng::seed_from_u64(3);
    let mut grid = cfg.to_struct(&mut rng).ok().unwrap();
    let (fire, agent) = grid.init(&mut rng).ok().unwrap();
    let res = grid.run_to_end(&fire, &agent, 2000, &mut rng).ok().unwrap();
    assert!(res.ticks < 2000);
    assert_eq!(res.ticks, grid.step);
    assert_eq!(res.escaped, grid.escape_handler.get_escaped_number());
    assert_eq!(res.dead, grid.death_handler.get_dead());
    let s = grid.tick_summary();
    assert_eq!(s.alive + res.escaped + res.dead, 8);
}

#[test]
fn movement_weights_sum_to_one_unit() {
    let mut rng = SimRng::seed_from_u64(13);
    let cfg = base_config(5, 5, 0);
    let mut grid = cfg.to_struct(&mut rng).ok().unwrap();
    let (_fire, agent) = grid.init(&mut rng).ok().unwrap();
    let neigh = grid.get_neigh(2, 2);
    assert_eq!(neigh.len(), 4);
    let probs = agent.calculate_probabilities(&neigh, &grid.static_influence, &grid.fire_influence);
    assert_eq!(probs.len(), 4);
    assert_eq!(probs.iter().sum::<i64>(), SCALE);
    // the fire at the corner and the exit below skew the distribution
    assert!(!probs.iter().all(|p| *p == probs[0]));
    for p in probs {
        assert!(0 <= p && p <= SCALE);
    }
}

#[test]
fn out_of_range_dimensions_are_rejected() {
    let mut rng = SimRng::seed_from_u64(1);
    let cfg = base_config(0, 5, 0);
    assert!(matches!(cfg.to_struct(&mut rng), Err(SimError::InvalidConfig)));
    let cfg2 = base_config(5, 2000, 0);
    assert!(matches!(cfg2.to_struct(&mut rng), Err(SimError::InvalidConfig)));
}

#[test]
fn out_of_bounds_fire_seed_is_rejected() {
    let mut cfg = base_config(5, 5, 0);
    cfg.setup.initial_fire = Some((9, 9));
    let mut rng = SimRng::seed_from_u64(1);
    let mut grid = cfg.to_struct(&mut rng).ok().unwrap();
    assert!(matches!(grid.init(&mut rng), Err(SimError::InvalidConfig)));
}

#[test]
fn duplicate_evacuee_layout_is_rejected() {
    let mut cfg = base_config(5, 5, 0);
    let e = EvacueeCell { strategy: Strategy::Cooperative, x: 1, y: 1, pr_c: 0, pr_d: 0 };
    cfg.setup.initial_evac = Some(vec![e, e]);
    cfg.setup.evac_number = Some(2);
    let mut rng = SimRng::seed_from_u64(1);
    let mut grid = cfg.to_struct(&mut rng).ok().unwrap();
    assert!(matches!(grid.init(&mut rng), Err(SimError::InvalidConfig)));
}

#[test]
fn flat_payoffs_abort_the_game() {
    // with zeroed reward and aspiration curves every payoff equals the
    // aspiration: the stimulus denominator vanishes and the run aborts
    let mut cfg = base_config(5, 5, 0);
    cfg.fire.reward_game = RewardGameInput(LerpInput { influence: Some(0), equation: Equation::Linear });
    cfg.fire.ratio = RatioInput(LerpInput { influence: Some(0), equation: Equation::Linear });
    cfg.fire.aspiration = AspirationInput::LogAspiration(Some(0));
    let mut rng = SimRng::seed_from_u64(4);
    let mut grid = cfg.to_struct(&mut rng).ok().unwrap();
    let (_fire, agent) = grid.init(&mut rng).ok().unwrap();
    let e1 = EvacueeCell { strategy: Strategy::Cooperative, x: 1, y: 1, pr_c: 0, pr_d: 0 };
    let e2 = EvacueeCell { strategy: Strategy::Cooperative, x: 1, y: 2, pr_c: 0, pr_d: 0 };
    let r = grid.play_game(Loc(2, 1), vec![e1, e2], &mut rng, &agent);
    assert!(matches!(r, Err(SimError::InvariantViolation)));
}

#[test]
fn escape_handler_create() {
    let height = 51;
    let width = 51;
    let time = TimeEscape { escaped_evac: Vec::new(), exit: Loc(width / 2, height) };
    assert!(time.escaped_evac.is_empty());
    assert_eq!(time.exit, Loc(25, 51));
}

#[test]
fn escaped_handler_non_escape() {
    let mut time_escape = TimeEscape::default();
    let mut rng = rand::thread_rng();
    let step = 5;
    let cell = EvacueeCell {
        strategy: if rng.gen_range(0..2) == 0 { Strategy::Competitive } else { Strategy::Cooperative },
        x: 30,
        y: 30,
        pr_c: rng.gen_range(0..=1_000_000),
        pr_d: rng.gen_range(0..=1_000_000),
    };
    time_escape.escaped(cell, step);
    assert_eq!(time_escape.escaped_evac[0].loc, cell);
}

#[test]
fn escaped_check_exit() {
    let time_escape = TimeEscape { escaped_evac: Vec::new(), exit: Loc(25, 51) };
    assert!(time_escape.is_exit(&Loc(25, 51)));
}
