use std::cell::Cell;

use aiomad::constants::{CHUNK_MAP_COLS, CHUNK_MAP_ROWS, PERLIN_GRID_COLS, PERLIN_GRID_ROWS};
use aiomad::game::chunk_map::{gradient_cell, ChunkMap, ChunkTileType, LatticePoint, Sample};

fn fade(t: f32) -> f32 {
    t * t * t * (t * (t * 6.0 - 15.0) + 10.0)
}

fn interpolate(a0: f32, a1: f32, w: f32) -> f32 {
    (1.0 - w) * a0 + w * a1
}

/// The noise at a sample of a chunk of `rows` by `cols` cells over a lattice
/// of `grid_rows` by `grid_cols` cells.
fn height(
    sample: &Sample<(f32, f32)>,
    rows: usize,
    cols: usize,
    grid_rows: usize,
    grid_cols: usize,
) -> f32 {
    let x = sample.col as f32 / (cols + 1) as f32 * grid_cols as f32 - sample.point.cell_col as f32;
    let y = sample.row as f32 / (rows + 1) as f32 * grid_rows as f32 - sample.point.cell_row as f32;
    let tl = sample.top_left.0 * x + sample.top_left.1 * y;
    let tr = sample.top_right.0 * (x - 1.0) + sample.top_right.1 * y;
    let bl = sample.bottom_left.0 * x + sample.bottom_left.1 * (y - 1.0);
    let br = sample.bottom_right.0 * (x - 1.0) + sample.bottom_right.1 * (y - 1.0);
    let value = interpolate(
        interpolate(tl, bl, fade(y)),
        interpolate(tr, br, fade(y)),
        fade(x),
    );
    if value < 0.0 {
        0.0
    } else {
        value * 10.0
    }
}

/// Unit vectors at fixed angles, one for each corner of the lattice.
fn gradients(grid_rows: usize, grid_cols: usize) -> Vec<Vec<(f32, f32)>> {
    let mut grid = Vec::new();
    for row in 0..=grid_rows {
        let mut line = Vec::new();
        for col in 0..=grid_cols {
            let theta = (row * 7 + col * 3) as f32 * 0.9;
            line.push((theta.cos(), theta.sin()));
        }
        grid.push(line);
    }
    grid
}

#[test]
fn gradient_cell_divides_and_keeps_the_rest() {
    assert_eq!(gradient_cell(0, 100, 3), (0, 0));
    assert_eq!(gradient_cell(50, 100, 3), (1, 49));
    assert_eq!(gradient_cell(33, 100, 3), (0, 99));
    assert_eq!(gradient_cell(34, 100, 3), (1, 1));
    assert_eq!(gradient_cell(100, 100, 3), (2, 98));
    assert_eq!(gradient_cell(100, 100, 4), (3, 97));
    assert_eq!(gradient_cell(1, 1, 1), (0, 1));
}

#[test]
fn gradient_cell_takes_large_indices() {
    let size = usize::MAX - 1;
    assert_eq!(gradient_cell(size, size, usize::MAX), (usize::MAX - 1, 0));
    assert_eq!(gradient_cell(size, size, usize::MAX - 1), (usize::MAX - 2, 1));
    assert_eq!(gradient_cell(size, size, 1), (0, size));
}

#[test]
fn unit_chunk_has_four_corners_over_four_vectors() {
    let lattice = ChunkMap::sample_lattice(1, 1, 1, 1);
    assert_eq!(lattice.len(), 2);
    let mut corners = 0;
    let mut vectors = Vec::new();
    for row in lattice.iter() {
        assert_eq!(row.len(), 2);
        for point in row.iter() {
            corners += 1;
            assert_eq!((point.cell_row, point.cell_col), (0, 0));
            for at in [
                (point.cell_row, point.cell_col),
                (point.cell_row, point.cell_col + 1),
                (point.cell_row + 1, point.cell_col),
                (point.cell_row + 1, point.cell_col + 1),
            ] {
                if !vectors.contains(&at) {
                    vectors.push(at);
                }
            }
        }
    }
    assert_eq!(corners, 4);
    assert_eq!(vectors.len(), 4);
    assert_eq!(
        lattice[1][1],
        LatticePoint { cell_row: 0, cell_col: 0, rest_row: 1, rest_col: 1 }
    );
    assert_eq!(
        lattice[0][1],
        LatticePoint { cell_row: 0, cell_col: 0, rest_row: 0, rest_col: 1 }
    );
}

#[test]
fn half_offset_blends_evenly() {
    let lattice = ChunkMap::sample_lattice(1, 1, 1, 1);
    let point = lattice[1][1];
    let x = point.rest_col as f32 / 2.0;
    let y = point.rest_row as f32 / 2.0;
    assert_eq!((x, y), (0.5, 0.5));
    assert_eq!(fade(0.5), 0.5);
    let (tl, tr, bl, br) = (0.25f32, -0.5f32, 0.75f32, 1.0f32);
    let height = interpolate(
        interpolate(tl, bl, fade(y)),
        interpolate(tr, br, fade(y)),
        fade(x),
    );
    let left = 0.5 * tl + 0.5 * bl;
    let right = 0.5 * tr + 0.5 * br;
    assert_eq!(height, 0.5 * left + 0.5 * right);
}

#[test]
fn lattice_of_the_default_chunk_stays_inside_the_gradient_grid() {
    let lattice = ChunkMap::sample_lattice(
        CHUNK_MAP_ROWS,
        CHUNK_MAP_COLS,
        PERLIN_GRID_ROWS,
        PERLIN_GRID_COLS,
    );
    assert_eq!(lattice.len(), CHUNK_MAP_ROWS + 1);
    for (row, line) in lattice.iter().enumerate() {
        assert_eq!(line.len(), CHUNK_MAP_COLS + 1);
        for (col, point) in line.iter().enumerate() {
            assert!(point.cell_row + 1 <= PERLIN_GRID_ROWS);
            assert!(point.cell_col + 1 <= PERLIN_GRID_COLS);
            assert_eq!(point.cell_row, row * PERLIN_GRID_ROWS / (CHUNK_MAP_ROWS + 1));
            assert_eq!(point.cell_col, col * PERLIN_GRID_COLS / (CHUNK_MAP_COLS + 1));
            assert_eq!(point.rest_row, row * PERLIN_GRID_ROWS % (CHUNK_MAP_ROWS + 1));
            assert_eq!(point.rest_col, col * PERLIN_GRID_COLS % (CHUNK_MAP_COLS + 1));
        }
    }
    assert_eq!(
        lattice[100][100],
        LatticePoint { cell_row: 3, cell_col: 2, rest_row: 97, rest_col: 98 }
    );
}

#[test]
fn lattice_rows_and_columns_are_kept_apart() {
    let lattice = ChunkMap::sample_lattice(2, 5, 3, 2);
    assert_eq!(lattice.len(), 3);
    assert_eq!(lattice[0].len(), 6);
    assert_eq!(
        lattice[2][5],
        LatticePoint { cell_row: 2, cell_col: 1, rest_row: 0, rest_col: 4 }
    );
    assert_eq!(
        lattice[1][3],
        LatticePoint { cell_row: 1, cell_col: 1, rest_row: 0, rest_col: 0 }
    );
}

#[test]
fn chunk_types_are_water_at_zero_and_grass_above() {
    let altitudes = vec![vec![0u32, 1, 2], vec![9, 0, u32::MAX]];
    let types = ChunkMap::give_types(&altitudes);
    assert_eq!(
        types,
        vec![
            vec![ChunkTileType::WATER, ChunkTileType::GRASS, ChunkTileType::GRASS],
            vec![ChunkTileType::GRASS, ChunkTileType::WATER, ChunkTileType::GRASS],
        ]
    );
}

#[test]
fn chunk_map_keeps_its_altitudes() {
    let altitudes = vec![vec![0u32, 4], vec![3, 0]];
    let map = ChunkMap::new(altitudes.clone());
    assert_eq!(map.altitudes, altitudes);
    assert_eq!(map.tile_types, ChunkMap::give_types(&altitudes));
    assert_eq!(map.tile_types[0][0], ChunkTileType::WATER);
    assert_eq!(map.tile_types[0][1], ChunkTileType::GRASS);
}

#[test]
fn noise_of_the_unit_chunk_reads_four_vectors_at_four_corners() {
    let vectors = vec![vec![1u8, 2], vec![3, 4]];
    let seen = ChunkMap::perlin_noise(1, 1, &vectors, |sample: Sample<u8>| {
        (
            (sample.row, sample.col),
            sample.point,
            [sample.top_left, sample.top_right, sample.bottom_left, sample.bottom_right],
        )
    });
    assert_eq!(seen.len(), 2);
    for row in 0..2 {
        assert_eq!(seen[row].len(), 2);
        for col in 0..2 {
            let (at, point, corners) = seen[row][col];
            assert_eq!(at, (row, col));
            assert_eq!(
                point,
                LatticePoint { cell_row: 0, cell_col: 0, rest_row: row, rest_col: col }
            );
            assert_eq!(corners, [1, 2, 3, 4]);
        }
    }
}

#[test]
fn noise_reads_the_corners_of_the_cell_of_each_sample() {
    let mut vectors = Vec::new();
    for row in 0..4usize {
        vectors.push((0..3usize).map(|col| (row, col)).collect::<Vec<_>>());
    }
    let seen = ChunkMap::perlin_noise(5, 7, &vectors, |sample: Sample<(usize, usize)>| sample);
    let lattice = ChunkMap::sample_lattice(5, 7, 3, 2);
    assert_eq!(seen.len(), 6);
    for row in 0..6 {
        assert_eq!(seen[row].len(), 8);
        for col in 0..8 {
            let sample = &seen[row][col];
            assert_eq!((sample.row, sample.col), (row, col));
            assert_eq!(sample.point, lattice[row][col]);
            let (r, c) = (row * 3 / 6, col * 2 / 8);
            assert_eq!(sample.top_left, (r, c));
            assert_eq!(sample.top_right, (r, c + 1));
            assert_eq!(sample.bottom_left, (r + 1, c));
            assert_eq!(sample.bottom_right, (r + 1, c + 1));
        }
    }
}

#[test]
fn noise_in_the_middle_of_the_unit_chunk_blends_evenly() {
    let vectors = gradients(1, 1);
    let ground = ChunkMap::perlin_noise(1, 1, &vectors, |sample: Sample<(f32, f32)>| {
        height(&sample, 1, 1, 1, 1)
    });
    // At offset (0.5, 0.5) both weights are one half.
    let tl = vectors[0][0].0 * 0.5 + vectors[0][0].1 * 0.5;
    let tr = vectors[0][1].0 * -0.5 + vectors[0][1].1 * 0.5;
    let bl = vectors[1][0].0 * 0.5 + vectors[1][0].1 * -0.5;
    let br = vectors[1][1].0 * -0.5 + vectors[1][1].1 * -0.5;
    let blended = 0.5 * (0.5 * tl + 0.5 * bl) + 0.5 * (0.5 * tr + 0.5 * br);
    let expected = if blended < 0.0 { 0.0 } else { blended * 10.0 };
    assert_eq!(ground[1][1], expected);
    // On a lattice corner the offset is zero, and so is the noise.
    assert_eq!(ground[0][0], 0.0);
}

#[test]
fn noise_is_never_negative() {
    let vectors = gradients(PERLIN_GRID_ROWS, PERLIN_GRID_COLS);
    let ground = ChunkMap::perlin_noise(
        CHUNK_MAP_ROWS,
        CHUNK_MAP_COLS,
        &vectors,
        |sample: Sample<(f32, f32)>| {
            height(&sample, CHUNK_MAP_ROWS, CHUNK_MAP_COLS, PERLIN_GRID_ROWS, PERLIN_GRID_COLS)
        },
    );
    assert_eq!(ground.len(), CHUNK_MAP_ROWS + 1);
    let mut positive = 0;
    for line in ground.iter() {
        assert_eq!(line.len(), CHUNK_MAP_COLS + 1);
        for altitude in line.iter() {
            assert!(*altitude >= 0.0);
            if *altitude > 0.0 {
                positive += 1;
            }
        }
    }
    assert!(positive > 0);
}

#[test]
fn cell_altitudes_are_means_of_four_corners() {
    let edges = vec![vec![0.0f32, 4.0, 8.0], vec![4.0, 8.0, 0.0], vec![1.0, 1.0, 1.0]];
    let altitudes = ChunkMap::give_altitudes(&edges, |tl: f32, bl: f32, tr: f32, br: f32| {
        (tl + bl + tr + br) / 4.0
    });
    assert_eq!(altitudes, vec![vec![4.0, 5.0], vec![3.5, 2.5]]);
}

#[test]
fn cell_altitudes_take_the_corners_in_order() {
    let edges = vec![vec![1u32, 2, 3], vec![4, 5, 6]];
    let seen = ChunkMap::give_altitudes(&edges, |tl: u32, bl: u32, tr: u32, br: u32| {
        tl * 1000 + bl * 100 + tr * 10 + br
    });
    assert_eq!(seen, vec![vec![1425, 2536]]);
    let single = ChunkMap::give_altitudes(&vec![vec![9u32]], |tl: u32, _: u32, _: u32, _: u32| tl);
    assert!(single.is_empty());
}

#[test]
fn cells_of_flat_sea_are_water() {
    let edges = vec![vec![0.0f32, 0.0, 3.0], vec![0.0, 0.0, 9.0]];
    let altitudes = ChunkMap::give_altitudes(&edges, |tl: f32, bl: f32, tr: f32, br: f32| {
        (tl + bl + tr + br) / 4.0
    });
    let whole: Vec<Vec<u32>> =
        altitudes.iter().map(|row| row.iter().map(|a| *a as u32).collect()).collect();
    assert_eq!(whole, vec![vec![0, 3]]);
    assert_eq!(
        ChunkMap::give_types(&whole),
        vec![vec![ChunkTileType::WATER, ChunkTileType::GRASS]]
    );
}

#[test]
fn gradient_grid_draws_once_for_each_corner() {
    let drawn = Cell::new(0u32);
    let grid = ChunkMap::gradient_grid(1, 1, || {
        drawn.set(drawn.get() + 1);
        drawn.get()
    });
    assert_eq!(drawn.get(), 4);
    assert_eq!(grid, vec![vec![1, 2], vec![3, 4]]);

    let drawn = Cell::new(0u32);
    let grid = ChunkMap::gradient_grid(PERLIN_GRID_ROWS, PERLIN_GRID_COLS, || {
        drawn.set(drawn.get() + 1);
        drawn.get()
    });
    assert_eq!(grid.len(), PERLIN_GRID_ROWS + 1);
    for (row, line) in grid.iter().enumerate() {
        assert_eq!(line.len(), PERLIN_GRID_COLS + 1);
        for (col, value) in line.iter().enumerate() {
            assert_eq!(*value as usize, row * (PERLIN_GRID_COLS + 1) + col + 1);
        }
    }
    assert_eq!(drawn.get() as usize, (PERLIN_GRID_ROWS + 1) * (PERLIN_GRID_COLS + 1));
}

#[test]
fn gradient_grid_feeds_the_noise() {
    let vectors = ChunkMap::gradient_grid(2, 2, || (1.0f32, 0.0f32));
    let ground = ChunkMap::perlin_noise(3, 3, &vectors, |sample: Sample<(f32, f32)>| {
        height(&sample, 3, 3, 2, 2)
    });
    assert_eq!(ground.len(), 4);
    for line in ground.iter() {
        assert_eq!(line.len(), 4);
        for altitude in line.iter() {
            assert!(*altitude >= 0.0);
        }
    }
}
