use std::cell::RefCell;

use aiomad::game::schedule::{world_side, Step, StepKind};
use aiomad::game::world_map::WorldMap;

fn step(kind: StepKind, row: usize, col: usize, reach: usize) -> Step {
    Step { kind, row, col, reach }
}

/// The mean of the values read: a blend without perturbation.
fn mean(read: &Vec<f32>) -> f32 {
    let mut sum = 0.0f32;
    for altitude in read.iter() {
        sum += altitude;
    }
    sum / read.len() as f32
}

/// The grid that the schedule gives when every perturbation is zero.
fn follow(n: usize, edge: f32, center: f32) -> Vec<Vec<f32>> {
    WorldMap::diamond_square(n, f32::NAN, edge, center, mean)
}

#[test]
fn side_is_a_power_of_two_plus_one() {
    assert_eq!(world_side(0), 2);
    assert_eq!(world_side(1), 3);
    assert_eq!(world_side(2), 5);
    assert_eq!(world_side(6), 65);
    assert_eq!(world_side(10), 1025);
}

#[test]
fn depth_zero_has_no_step() {
    assert!(WorldMap::diamond_square_steps(0).is_empty());
}

#[test]
fn depth_one_schedule() {
    let steps = WorldMap::diamond_square_steps(1);
    assert_eq!(
        steps,
        vec![
            step(StepKind::Diamond, 1, 1, 1),
            step(StepKind::Center, 1, 1, 0),
            step(StepKind::Square, 2, 1, 1),
            step(StepKind::Square, 0, 1, 1),
            step(StepKind::Square, 1, 2, 1),
            step(StepKind::Square, 1, 0, 1),
        ]
    );
}

#[test]
fn depth_two_schedule() {
    let steps = WorldMap::diamond_square_steps(2);
    assert_eq!(steps.len(), 30);
    assert_eq!(steps[0], step(StepKind::Diamond, 2, 2, 2));
    assert_eq!(steps[1], step(StepKind::Center, 2, 2, 0));
    assert_eq!(steps[2], step(StepKind::Square, 4, 2, 2));
    assert_eq!(steps[3], step(StepKind::Square, 0, 2, 2));
    assert_eq!(steps[4], step(StepKind::Square, 2, 4, 2));
    assert_eq!(steps[5], step(StepKind::Square, 2, 0, 2));
    // Second iteration: the four children, in the order in which they were
    // recorded, each followed by the center.
    assert_eq!(steps[6], step(StepKind::Diamond, 3, 3, 1));
    assert_eq!(steps[7], step(StepKind::Center, 2, 2, 0));
    assert_eq!(steps[8], step(StepKind::Diamond, 3, 1, 1));
    assert_eq!(steps[10], step(StepKind::Diamond, 1, 3, 1));
    assert_eq!(steps[12], step(StepKind::Diamond, 1, 1, 1));
    assert_eq!(steps[13], step(StepKind::Center, 2, 2, 0));
    // Then the squares around the first child.
    assert_eq!(steps[14], step(StepKind::Square, 4, 3, 1));
    assert_eq!(steps[15], step(StepKind::Square, 2, 3, 1));
    assert_eq!(steps[16], step(StepKind::Square, 3, 4, 1));
    assert_eq!(steps[17], step(StepKind::Square, 3, 2, 1));
    assert_eq!(steps[29], step(StepKind::Square, 1, 0, 1));
}

#[test]
fn schedule_length_grows_fourfold() {
    let mut cells: usize = 1;
    for n in 0..7 {
        assert_eq!(WorldMap::diamond_square_steps(n).len(), 2 * (cells - 1));
        cells *= 4;
    }
}

#[test]
fn reach_stays_constant_within_an_iteration_and_halves_between() {
    let steps = WorldMap::diamond_square_steps(3);
    let mut at = 0;
    let mut count = 1;
    for reach in [4usize, 2, 1] {
        for k in 0..6 * count {
            let s = steps[at + k];
            if s.kind == StepKind::Center {
                assert_eq!((s.row, s.col, s.reach), (4, 4, 0));
            } else {
                assert_eq!(s.reach, reach);
            }
        }
        at += 6 * count;
        count *= 4;
    }
    assert_eq!(at, steps.len());
}

#[test]
fn diamond_sources_are_the_four_diagonals_in_order() {
    let s = step(StepKind::Diamond, 2, 2, 2);
    assert_eq!(s.sources(5), vec![(4, 4), (4, 0), (0, 4), (0, 0)]);
}

#[test]
fn square_sources_leave_out_what_is_outside() {
    assert_eq!(step(StepKind::Square, 2, 1, 1).sources(3), vec![(1, 1), (2, 2), (2, 0)]);
    assert_eq!(step(StepKind::Square, 0, 1, 1).sources(3), vec![(1, 1), (0, 2), (0, 0)]);
    assert_eq!(step(StepKind::Square, 1, 2, 1).sources(3), vec![(2, 2), (0, 2), (1, 1)]);
    assert_eq!(step(StepKind::Square, 1, 0, 1).sources(3), vec![(2, 0), (0, 0), (1, 1)]);
    assert_eq!(
        step(StepKind::Square, 2, 2, 1).sources(5),
        vec![(3, 2), (1, 2), (2, 3), (2, 1)]
    );
}

#[test]
fn center_step_reads_nothing() {
    assert!(step(StepKind::Center, 1, 1, 0).sources(3).is_empty());
}

#[test]
fn sources_of_a_step_outside_the_grid() {
    assert!(step(StepKind::Square, 9, 9, 1).sources(3).is_empty());
    assert_eq!(step(StepKind::Square, 3, 1, 1).sources(3), vec![(2, 1)]);
    assert_eq!(step(StepKind::Diamond, 0, 0, 1).sources(3), vec![(1, 1)]);
    assert!(step(StepKind::Diamond, 1, 1, usize::MAX).sources(3).is_empty());
}

#[test]
fn every_read_is_resolved_and_every_cell_is_written() {
    for n in 0..7 {
        let side = world_side(n);
        let mut resolved = vec![vec![false; side]; side];
        resolved[0][0] = true;
        resolved[0][side - 1] = true;
        resolved[side - 1][0] = true;
        resolved[side - 1][side - 1] = true;
        for s in WorldMap::diamond_square_steps(n) {
            assert!(s.row < side && s.col < side);
            let sources = s.sources(side);
            match s.kind {
                StepKind::Diamond => assert_eq!(sources.len(), 4),
                StepKind::Square => assert!(sources.len() >= 3),
                StepKind::Center => assert!(sources.is_empty()),
            }
            for (row, col) in sources {
                assert!(resolved[row][col]);
            }
            resolved[s.row][s.col] = true;
        }
        for row in 0..side {
            for col in 0..side {
                assert!(resolved[row][col]);
            }
        }
    }
}

#[test]
fn two_runs_give_the_same_schedule() {
    assert_eq!(WorldMap::diamond_square_steps(5), WorldMap::diamond_square_steps(5));
}

#[test]
fn depth_one_without_roughness_takes_exact_means() {
    let steps = WorldMap::diamond_square_steps(1);
    // The diamond step takes the mean of the four corners.
    assert_eq!(steps[0].sources(3), vec![(2, 2), (2, 0), (0, 2), (0, 0)]);
    let corners = [-70.0f32; 4];
    assert_eq!(corners.iter().sum::<f32>() / 4.0, -70.0);

    let tiles = follow(1, -70.0, 100.0);
    // The center was set anew after its diamond step.
    assert_eq!(tiles[1][1], 100.0);
    // Each edge midpoint is the mean of its two corners and the center.
    let edge = (100.0f32 + -70.0 + -70.0) / 3.0;
    assert_eq!(tiles[2][1], edge);
    assert_eq!(tiles[0][1], (100.0f32 + -70.0 + -70.0) / 3.0);
    assert_eq!(tiles[1][2], (-70.0f32 + -70.0 + 100.0) / 3.0);
    assert_eq!(tiles[1][0], (-70.0f32 + -70.0 + 100.0) / 3.0);
    for row in [0, 2] {
        for col in [0, 2] {
            assert_eq!(tiles[row][col], -70.0);
        }
    }
}

#[test]
fn depth_one_with_equal_constants_is_flat() {
    let tiles = follow(1, 8.0, 8.0);
    for row in 0..3 {
        for col in 0..3 {
            assert_eq!(tiles[row][col], 8.0);
        }
    }
}

#[test]
fn no_cell_is_left_unresolved() {
    for n in 0..6 {
        let tiles = follow(n, -70.0, 100.0);
        for row in tiles.iter() {
            for altitude in row.iter() {
                assert!(!altitude.is_nan());
            }
        }
    }
}

#[test]
fn diamond_square_of_depth_zero_is_four_corners() {
    let tiles = WorldMap::diamond_square(0, 0i32, 7, 9, |_read: &Vec<i32>| 1);
    assert_eq!(tiles, vec![vec![7, 7], vec![7, 7]]);
}

#[test]
fn diamond_square_keeps_corners_and_center() {
    for n in 1..6 {
        let side = world_side(n);
        let tiles = WorldMap::diamond_square(n, 0i32, 7, 9, |_read: &Vec<i32>| 1);
        assert_eq!(tiles.len(), side);
        for (row, line) in tiles.iter().enumerate() {
            assert_eq!(line.len(), side);
            for (col, value) in line.iter().enumerate() {
                let corner = (row == 0 || row == side - 1) && (col == 0 || col == side - 1);
                let center = row == side / 2 && col == side / 2;
                let expected = if corner {
                    7
                } else if center {
                    9
                } else {
                    1
                };
                assert_eq!(*value, expected);
            }
        }
    }
}

#[test]
fn diamond_square_blends_once_for_each_diamond_and_square_step() {
    let calls = RefCell::new(Vec::new());
    let tiles = WorldMap::diamond_square(1, -1i32, 10, 20, |read: &Vec<i32>| {
        calls.borrow_mut().push(read.clone());
        100 + calls.borrow().len() as i32
    });
    // The diamond step reads the four corners; each square step reads the
    // cell beyond, the center and the two corners beside it, as far as they
    // lie in the grid, the center already set anew.
    assert_eq!(
        calls.into_inner(),
        vec![
            vec![10, 10, 10, 10],
            vec![20, 10, 10],
            vec![20, 10, 10],
            vec![10, 10, 20],
            vec![10, 10, 20],
        ]
    );
    assert_eq!(tiles, vec![vec![10, 103, 10], vec![105, 20, 104], vec![10, 102, 10]]);
}

#[test]
fn diamond_square_hands_blend_the_values_of_the_sources_in_order() {
    let n = 3;
    let side = world_side(n);
    let steps = WorldMap::diamond_square_steps(n);
    let calls = RefCell::new(Vec::new());
    let tiles = WorldMap::diamond_square(n, -1i64, 1000, 2000, |read: &Vec<i64>| {
        calls.borrow_mut().push(read.clone());
        calls.borrow().len() as i64
    });
    let calls = calls.into_inner();
    let mut shadow = vec![vec![-1i64; side]; side];
    for (row, col) in [(0, 0), (0, side - 1), (side - 1, 0), (side - 1, side - 1)] {
        shadow[row][col] = 1000;
    }
    let mut call = 0;
    for s in steps {
        if s.kind == StepKind::Center {
            shadow[s.row][s.col] = 2000;
        } else {
            let read: Vec<i64> =
                s.sources(side).iter().map(|(row, col)| shadow[*row][*col]).collect();
            assert!(read.iter().all(|value| *value != -1));
            assert_eq!(calls[call], read);
            call += 1;
            shadow[s.row][s.col] = call as i64;
        }
    }
    assert_eq!(call, calls.len());
    assert_eq!(tiles, shadow);
}

#[test]
fn diamond_square_with_a_fixed_source_of_perturbations_is_repeatable() {
    let run = || {
        let state = RefCell::new(12345u32);
        WorldMap::diamond_square(4, f32::NAN, -70.0, 100.0, |read: &Vec<f32>| {
            let mut s = state.borrow_mut();
            *s = s.wrapping_mul(1664525).wrapping_add(1013904223);
            let noise = (*s >> 8) as f32 / (1u32 << 24) as f32 * 60.0 - 30.0;
            mean(read) + noise
        })
    };
    let first = run();
    let second = run();
    assert_eq!(first.len(), 17);
    for row in 0..17 {
        for col in 0..17 {
            assert_eq!(first[row][col].to_bits(), second[row][col].to_bits());
        }
    }
}

#[test]
fn finished_grid_holds_the_blend_of_its_finished_neighbours() {
    // A blend that is a function of what it reads: every cell but the
    // corners and the center must then equal the blend of the values that
    // the cells it is resolved from hold at the end.
    let blend = |read: &Vec<i64>| {
        let mut value = read.len() as i64;
        for (i, v) in read.iter().enumerate() {
            value += (i as i64 + 1) * *v;
        }
        value % 1_000_003
    };
    for n in 1..6 {
        let side = world_side(n);
        let tiles = WorldMap::diamond_square(n, -1i64, 3, 5, blend);
        let mut written = vec![vec![false; side]; side];
        for s in WorldMap::diamond_square_steps(n) {
            if s.kind == StepKind::Center {
                assert_eq!((s.row, s.col), (side / 2, side / 2));
                continue;
            }
            written[s.row][s.col] = true;
            if (s.row, s.col) == (side / 2, side / 2) {
                continue;
            }
            let read: Vec<i64> =
                s.sources(side).iter().map(|(row, col)| tiles[*row][*col]).collect();
            assert_eq!(tiles[s.row][s.col], blend(&read));
        }
        for row in 0..side {
            for col in 0..side {
                let corner = (row == 0 || row == side - 1) && (col == 0 || col == side - 1);
                assert_eq!(written[row][col], !corner);
                if corner {
                    assert_eq!(tiles[row][col], 3);
                }
            }
        }
        assert_eq!(tiles[side / 2][side / 2], 5);
    }
}

#[test]
fn no_step_overwrites_what_was_read() {
    for n in 1..6 {
        let side = world_side(n);
        let mut read = vec![vec![false; side]; side];
        for s in WorldMap::diamond_square_steps(n) {
            if s.kind != StepKind::Center {
                assert!(!read[s.row][s.col]);
                for (row, col) in s.sources(side) {
                    assert!((row, col) != (s.row, s.col));
                    read[row][col] = true;
                }
            }
        }
    }
}
