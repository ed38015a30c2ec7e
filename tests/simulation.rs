use sand_sim::{Gravity, GridError, Simulation};

fn grid(width: usize, height: usize, full: &[(usize, usize)]) -> Simulation {
    let mut sim = Simulation::new(width, height).unwrap();
    for c in sim.density.iter_mut() {
        *c = false;
    }
    for &(x, y) in full {
        sim.density[y * width + x] = true;
    }
    sim
}

fn full_count(sim: &Simulation) -> usize {
    sim.density.iter().filter(|c| **c).count()
}

fn full_cells(sim: &Simulation) -> Vec<(usize, usize)> {
    let mut out = Vec::new();
    for y in 0..sim.height {
        for x in 0..sim.width {
            if sim.cell(x, y) {
                out.push((x, y));
            }
        }
    }
    out
}

#[test]
fn new_fills_top_two_rows() {
    let sim = Simulation::new(4, 3).unwrap();
    assert_eq!(sim.dimensions(), (4, 3));
    for y in 0..3 {
        for x in 0..4 {
            assert_eq!(sim.cell(x, y), y < 2);
        }
    }
    assert_eq!(sim.gravity, Gravity::new(0, 1));
}

#[test]
fn new_single_row_is_full() {
    let sim = Simulation::new(3, 1).unwrap();
    assert_eq!(sim.density, vec![true, true, true]);
}

#[test]
fn new_rejects_zero_width() {
    assert_eq!(Simulation::new(0, 5).err(), Some(GridError::ZeroDimension));
}

#[test]
fn new_rejects_zero_height() {
    assert_eq!(Simulation::new(5, 0).err(), Some(GridError::ZeroDimension));
}

#[test]
fn reset_twice_gives_initial_pattern() {
    let mut sim = Simulation::new(5, 4).unwrap();
    let initial = sim.density.clone();
    sim.step();
    sim.step();
    sim.reset();
    assert_eq!(sim.density, initial);
    sim.reset();
    assert_eq!(sim.density, initial);
}

#[test]
fn reset_keeps_gravity() {
    let mut sim = Simulation::new(3, 3).unwrap();
    sim.set_gravity(Gravity::new(-2, 1));
    sim.step();
    sim.reset();
    assert_eq!(sim.gravity, Gravity::new(-2, 1));
    assert_eq!(full_cells(&sim), vec![(0, 0), (1, 0), (2, 0), (0, 1), (1, 1), (2, 1)]);
}

#[test]
fn step_conserves_full_cells() {
    let gravities = [(0, 1), (1, 0), (-1, 0), (0, -1), (3, 2), (-2, -5), (1, 1), (0, 0)];
    for &(gx, gy) in gravities.iter() {
        let mut sim = Simulation::new(7, 6).unwrap();
        sim.set_gravity(Gravity::new(gx, gy));
        let before = full_count(&sim);
        for _ in 0..20 {
            sim.step();
            assert_eq!(full_count(&sim), before);
            assert_eq!(sim.density.len(), 42);
        }
    }
}

#[test]
fn sand_settles_at_the_bottom() {
    let mut sim = Simulation::new(4, 5).unwrap();
    for _ in 0..10 {
        sim.step();
    }
    assert_eq!(full_cells(&sim), vec![(0, 3), (1, 3), (2, 3), (3, 3), (0, 4), (1, 4), (2, 4), (3, 4)]);
}

#[test]
fn full_grid_is_fixed() {
    let mut sim = Simulation::new(4, 2).unwrap();
    assert_eq!(full_count(&sim), 8);
    for &(gx, gy) in [(0, 1), (1, 0), (-3, -1)].iter() {
        sim.set_gravity(Gravity::new(gx, gy));
        sim.step();
        assert_eq!(sim.density, vec![true; 8]);
    }
}

#[test]
fn vertical_fall_with_fixed_coins() {
    let mut sim = grid(3, 3, &[(1, 0)]);
    sim.set_gravity(Gravity::new(0, 1));
    sim.step_with_coins(&vec![true; 9]);
    assert!(!sim.cell(1, 0));
    assert!(sim.cell(1, 1));
    assert_eq!(full_count(&sim), 1);
}

#[test]
fn horizontal_move_to_the_right() {
    let mut sim = grid(3, 1, &[(0, 0)]);
    sim.set_gravity(Gravity::new(1, 0));
    sim.step();
    assert!(!sim.cell(0, 0));
    assert!(sim.cell(1, 0));
    assert!(!sim.cell(2, 0));
}

#[test]
fn blocked_cell_stays() {
    let mut sim = grid(1, 2, &[(0, 0), (0, 1)]);
    sim.set_gravity(Gravity::new(0, 1));
    sim.step();
    assert!(sim.cell(0, 0));
    assert!(sim.cell(0, 1));
}

#[test]
fn coin_orders_the_diagonals() {
    // (1, 0) sits on (1, 1); both lower diagonals are free.
    let mut heads = grid(3, 2, &[(1, 0), (1, 1)]);
    heads.step_with_coins(&vec![true; 6]);
    assert_eq!(full_cells(&heads), vec![(1, 1), (2, 1)]);

    let mut tails = grid(3, 2, &[(1, 0), (1, 1)]);
    tails.step_with_coins(&vec![false; 6]);
    assert_eq!(full_cells(&tails), vec![(0, 1), (1, 1)]);
}

#[test]
fn negative_horizontal_sign_flips_first_diagonal() {
    let mut sim = grid(3, 2, &[(1, 0), (1, 1)]);
    sim.set_gravity(Gravity::new(-1, 5));
    sim.step_with_coins(&vec![true; 6]);
    assert_eq!(full_cells(&sim), vec![(0, 1), (1, 1)]);
}

#[test]
fn zero_component_counts_as_positive() {
    let mut sim = grid(3, 2, &[(1, 0), (1, 1)]);
    sim.set_gravity(Gravity::new(0, 0));
    sim.step_with_coins(&vec![true; 6]);
    assert_eq!(full_cells(&sim), vec![(1, 1), (2, 1)]);
}

#[test]
fn upward_gravity_lifts_cells() {
    let mut sim = grid(2, 3, &[(0, 2)]);
    sim.set_gravity(Gravity::new(0, -1));
    sim.step_with_coins(&vec![true; 6]);
    assert_eq!(full_cells(&sim), vec![(0, 1)]);
}

#[test]
fn horizontal_blocked_takes_diagonal() {
    // (0, 1) is blocked on the right by (1, 1); with gravity right and down,
    // heads tries (1, 2) first and tails tries (1, 0) first.
    let mut heads = grid(2, 3, &[(0, 1), (1, 1)]);
    heads.set_gravity(Gravity::new(2, 1));
    heads.step_with_coins(&vec![true; 6]);
    assert_eq!(full_cells(&heads), vec![(1, 1), (1, 2)]);

    let mut tails = grid(2, 3, &[(0, 1), (1, 1)]);
    tails.set_gravity(Gravity::new(2, 1));
    tails.step_with_coins(&vec![false; 6]);
    assert_eq!(full_cells(&tails), vec![(1, 0), (1, 2)]);
}

#[test]
fn horizontal_falls_back_to_vertical() {
    // Right and both right diagonals are blocked or outside: only down is free.
    let mut sim = grid(2, 2, &[(1, 0)]);
    sim.set_gravity(Gravity::new(3, 1));
    sim.step_with_coins(&vec![true; 4]);
    assert_eq!(full_cells(&sim), vec![(1, 1)]);
}

#[test]
fn tie_is_vertical_dominant() {
    assert!(Gravity::new(2, -2).is_vertical_dominant());
    assert!(Gravity::new(0, 0).is_vertical_dominant());
    assert!(!Gravity::new(-3, 2).is_vertical_dominant());
    assert!(Gravity::new(i32::MIN + 1, i32::MIN).is_vertical_dominant());
}

#[test]
fn neighbor_offsets_in_order() {
    assert_eq!(Gravity::new(0, 1).neighbor_offsets(true), vec![(0, 1), (1, 1), (-1, 1)]);
    assert_eq!(Gravity::new(0, 1).neighbor_offsets(false), vec![(0, 1), (-1, 1), (1, 1)]);
    assert_eq!(
        Gravity::new(-4, 1).neighbor_offsets(true),
        vec![(-1, 0), (-1, 1), (-1, -1), (0, 1)]
    );
    assert_eq!(
        Gravity::new(4, -1).neighbor_offsets(false),
        vec![(1, 0), (1, 1), (1, -1), (0, -1)]
    );
}

#[test]
fn first_claim_wins() {
    // Both (0, 0) and (2, 0) are blocked below and compete for (1, 1)
    // diagonally; the left one is visited first and takes it.
    let mut sim = grid(3, 2, &[(0, 0), (2, 0), (0, 1), (2, 1)]);
    sim.step_with_coins(&vec![true; 6]);
    assert_eq!(full_cells(&sim), vec![(2, 0), (0, 1), (1, 1), (2, 1)]);
}

#[test]
fn in_bounds_checks_both_axes() {
    let sim = Simulation::new(3, 2).unwrap();
    assert!(sim.in_bounds(0, 0));
    assert!(sim.in_bounds(2, 1));
    assert!(!sim.in_bounds(-1, 0));
    assert!(!sim.in_bounds(0, -1));
    assert!(!sim.in_bounds(3, 0));
    assert!(!sim.in_bounds(0, 2));
}

#[test]
fn set_gravity_leaves_cells() {
    let mut sim = Simulation::new(3, 3).unwrap();
    let before = sim.density.clone();
    sim.set_gravity(Gravity::new(5, -7));
    assert_eq!(sim.density, before);
    assert_eq!(sim.gravity, Gravity { x: 5, y: -7 });
}
