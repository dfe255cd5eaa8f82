//! The chunk map: where its sample points fall in the gradient lattice, and
//! the kinds of its cells.

use vstd::prelude::*;
use crate::game::world_map::{grid, rectangular};

verus! {

/// The kind of ground of a chunk cell.
#[derive(Copy, Clone, PartialEq, Eq, Structural, Debug)]
pub enum ChunkTileType {
    WATER,
    GRASS,
}

/// Where a sample point falls in the gradient lattice: the lattice cell it
/// lies in, and how far into that cell, as the remainders of the divisions
/// that give the cell. The offset into the cell is the remainder over the
/// number of sample points along that axis.
#[derive(Copy, Clone, PartialEq, Eq, Structural, Debug)]
pub struct LatticePoint {
    pub cell_row: usize,
    pub cell_col: usize,
    pub rest_row: usize,
    pub rest_col: usize,
}

/// What the noise at one sample point is made from: the point, its place
/// in the lattice, and the gradients at the four corners of its lattice
/// cell.
pub struct Sample<V> {
    pub row: usize,
    pub col: usize,
    pub point: LatticePoint,
    pub top_left: V,
    pub top_right: V,
    pub bottom_left: V,
    pub bottom_right: V,
}

/// The chunk map's cells: the whole part of each cell's altitude, and the
/// kind that it gives.
pub struct ChunkMap {
    pub tile_types: Vec<Vec<ChunkTileType>>,
    pub altitudes: Vec<Vec<u32>>,
}

/// The lattice cell of sample point `index` along an axis of `size + 1`
/// sample points over `cells` lattice cells.
pub open spec fn cell_of(index: int, size: int, cells: int) -> int {
    (index * cells) / (size + 1)
}

/// What the division that gives the lattice cell leaves over.
pub open spec fn rest_of(index: int, size: int, cells: int) -> int {
    (index * cells) % (size + 1)
}

/// The lattice point of the sample point at the given row and column.
pub open spec fn lattice_point(
    row: int,
    col: int,
    rows: int,
    cols: int,
    grid_rows: int,
    grid_cols: int,
) -> LatticePoint {
    LatticePoint {
        cell_row: cell_of(row, rows, grid_rows) as usize,
        cell_col: cell_of(col, cols, grid_cols) as usize,
        rest_row: rest_of(row, rows, grid_rows) as usize,
        rest_col: rest_of(col, cols, grid_cols) as usize,
    }
}

/// The lattice points of all sample points of a chunk of `rows` by `cols`
/// cells: one more row and one more column than the chunk has cells.
pub open spec fn lattice(rows: int, cols: int, grid_rows: int, grid_cols: int) -> Seq<
    Seq<LatticePoint>,
> {
    Seq::new(
        (rows + 1) as nat,
        |r: int|
            Seq::new(
                (cols + 1) as nat,
                |c: int| lattice_point(r, c, rows, cols, grid_rows, grid_cols),
            ),
    )
}

/// The sample at the given row and column of a chunk of `rows` by `cols`
/// cells, over a grid of gradients that has one more row and one more
/// column than the lattice has cells.
pub open spec fn sample_at<V>(gradients: Seq<Seq<V>>, row: int, col: int, rows: int, cols: int)
    -> Sample<V> {
    let point = lattice_point(
        row,
        col,
        rows,
        cols,
        gradients.len() - 1,
        gradients[0].len() - 1,
    );
    Sample {
        row: row as usize,
        col: col as usize,
        point,
        top_left: gradients[point.cell_row as int][point.cell_col as int],
        top_right: gradients[point.cell_row as int][point.cell_col + 1],
        bottom_left: gradients[point.cell_row + 1][point.cell_col as int],
        bottom_right: gradients[point.cell_row + 1][point.cell_col + 1],
    }
}

/// The kind of a cell whose altitude has the given whole part: water at
/// zero, grass above.
pub open spec fn chunk_band(altitude: u32) -> ChunkTileType {
    if altitude == 0 {
        ChunkTileType::WATER
    } else {
        ChunkTileType::GRASS
    }
}

/// A grid of altitudes, each cell classified.
pub open spec fn chunk_classified(altitudes: Seq<Seq<u32>>) -> Seq<Seq<ChunkTileType>> {
    Seq::new(
        altitudes.len(),
        |r: int| Seq::new(altitudes[r].len(), |c: int| chunk_band(altitudes[r][c])),
    )
}

/// Every sample point falls in a cell of the lattice, so the four gradient
/// vectors around it exist, and the division leaves less than the number of
/// sample points.
pub proof fn lemma_cell_in_lattice(index: int, size: int, cells: int)
    requires
        0 <= index <= size,
        0 < cells,
    ensures
        0 <= cell_of(index, size, cells) < cells,
        0 <= rest_of(index, size, cells) <= size,
        index * cells == cell_of(index, size, cells) * (size + 1) + rest_of(index, size, cells),
{
    let x = index * cells;
    let d = size + 1;
    assert(0 <= x < d * cells) by (nonlinear_arith)
        requires
            0 <= index < d,
            0 < cells,
            x == index * cells,
    ;
    assert(0 <= x / d < cells) by (nonlinear_arith)
        requires
            0 <= x < d * cells,
            0 < d,
    ;
    assert(0 <= x % d < d && x == (x / d) * d + x % d) by (nonlinear_arith)
        requires
            0 < d,
    ;
}

/// The lattice cell of a sample point along one axis, and what the division
/// leaves over.
pub fn gradient_cell(index: usize, size: usize, cells: usize) -> (at: (usize, usize))
    requires
        index <= size < usize::MAX,
        0 < cells,
    ensures
        at.0 == cell_of(index as int, size as int, cells as int),
        at.1 == rest_of(index as int, size as int, cells as int),
        at.0 < cells,
        at.1 <= size,
{
    proof {
        lemma_cell_in_lattice(index as int, size as int, cells as int);
        assert(0 <= index * cells <= 0xffff_ffff_ffff_ffff * 0xffff_ffff_ffff_ffff)
            by (nonlinear_arith)
            requires
                0 <= index <= 0xffff_ffff_ffff_ffff,
                0 <= cells <= 0xffff_ffff_ffff_ffff,
        ;
    }
    let scaled: u128 = (index as u128) * (cells as u128);
    let points: u128 = size as u128 + 1;
    ((scaled / points) as usize, (scaled % points) as usize)
}

impl ChunkMap {
    /// The chunk map of the given altitudes, taken by their whole parts.
    pub fn new(altitudes: Vec<Vec<u32>>) -> (map: ChunkMap)
        ensures
            map.altitudes == altitudes,
            grid(map.tile_types@) == chunk_classified(grid(altitudes@)),
    {
        let tile_types = Self::give_types(&altitudes);
        ChunkMap { tile_types, altitudes }
    }

    /// The lattice points of the sample points of a chunk of `rows` by
    /// `cols` cells, over a lattice of `grid_rows` by `grid_cols` cells.
    pub fn sample_lattice(rows: usize, cols: usize, grid_rows: usize, grid_cols: usize) -> (out:
        Vec<Vec<LatticePoint>>)
        requires
            rows < usize::MAX,
            cols < usize::MAX,
            0 < grid_rows,
            0 < grid_cols,
        ensures
            grid(out@) == lattice(rows as int, cols as int, grid_rows as int, grid_cols as int),
    {
        let ghost want = lattice(rows as int, cols as int, grid_rows as int, grid_cols as int);
        let mut out: Vec<Vec<LatticePoint>> = Vec::new();
        let mut row: usize = 0;
        while row <= rows
            invariant
                0 <= row <= rows + 1,
                rows < usize::MAX,
                cols < usize::MAX,
                0 < grid_rows,
                0 < grid_cols,
                want == lattice(rows as int, cols as int, grid_rows as int, grid_cols as int),
                grid(out@) == want.take(row as int),
            decreases rows + 1 - row,
        {
            let down = gradient_cell(row, rows, grid_rows);
            let mut line: Vec<LatticePoint> = Vec::new();
            let mut col: usize = 0;
            while col <= cols
                invariant
                    0 <= col <= cols + 1,
                    0 <= row <= rows,
                    cols < usize::MAX,
                    0 < grid_cols,
                    down.0 == cell_of(row as int, rows as int, grid_rows as int),
                    down.1 == rest_of(row as int, rows as int, grid_rows as int),
                    want == lattice(rows as int, cols as int, grid_rows as int, grid_cols as int),
                    line@ == want[row as int].take(col as int),
                decreases cols + 1 - col,
            {
                let across = gradient_cell(col, cols, grid_cols);
                line.push(
                    LatticePoint {
                        cell_row: down.0,
                        cell_col: across.0,
                        rest_row: down.1,
                        rest_col: across.1,
                    },
                );
                col = col + 1;
                assert(line@ =~= want[row as int].take(col as int));
            }
            assert(line@ =~= want[row as int]);
            let ghost above = out@;
            out.push(line);
            proof {
                assert(grid(above).len() == above.len());
                assert(above.len() == row);
                assert forall|r: int| 0 <= r < out@.len() implies grid(out@)[r] == want.take(
                    row + 1,
                )[r] by {
                    if r < row {
                        assert(grid(out@)[r] == grid(above)[r]);
                        assert(grid(above)[r] == want.take(row as int)[r]);
                    }
                }
                assert(grid(out@) =~= want.take(row + 1));
            }
            row = row + 1;
        }
        assert(grid(out@) =~= want);
        out
    }

    /// The gradients of a lattice of `grid_rows` by `grid_cols` cells, one
    /// at each corner of each cell: what `draw` returns, called once for
    /// each, row by row.
    pub fn gradient_grid<V, F: Fn() -> V>(
        grid_rows: usize,
        grid_cols: usize,
        draw: F,
    ) -> (gradients: Vec<Vec<V>>)
        requires
            grid_rows < usize::MAX,
            grid_cols < usize::MAX,
            draw.requires(()),
        ensures
            gradients.len() == grid_rows + 1,
            rectangular(grid(gradients@)),
            forall|r: int| 0 <= r <= grid_rows ==> (#[trigger] gradients[r]).len() == grid_cols + 1,
            forall|r: int, c: int|
                0 <= r <= grid_rows && 0 <= c <= grid_cols ==> draw.ensures(
                    (),
                    #[trigger] gradients[r][c],
                ),
    {
        let mut gradients: Vec<Vec<V>> = Vec::new();
        let mut row: usize = 0;
        while row <= grid_rows
            invariant
                0 <= row <= grid_rows + 1,
                grid_rows < usize::MAX,
                grid_cols < usize::MAX,
                draw.requires(()),
                gradients.len() == row,
                forall|r: int| 0 <= r < row ==> (#[trigger] gradients[r]).len() == grid_cols + 1,
                forall|r: int, c: int|
                    0 <= r < row && 0 <= c <= grid_cols ==> draw.ensures(
                        (),
                        #[trigger] gradients[r][c],
                    ),
            decreases grid_rows + 1 - row,
        {
            let mut line: Vec<V> = Vec::new();
            let mut col: usize = 0;
            while col <= grid_cols
                invariant
                    0 <= col <= grid_cols + 1,
                    grid_cols < usize::MAX,
                    draw.requires(()),
                    line.len() == col,
                    forall|c: int| 0 <= c < col ==> draw.ensures((), #[trigger] line[c]),
                decreases grid_cols + 1 - col,
            {
                let gradient = draw();
                line.push(gradient);
                col = col + 1;
            }
            gradients.push(line);
            row = row + 1;
        }
        assert forall|r: int| 0 <= r < grid(gradients@).len() implies (#[trigger] grid(
            gradients@,
        )[r]).len() == grid(gradients@)[0].len() by {
            assert(grid(gradients@)[r] == gradients[r]@);
            assert(grid(gradients@)[0] == gradients[0]@);
        }
        gradients
    }

    /// The noise at every sample point of a chunk of `rows` by `cols` cells:
    /// what `blend` makes of each sample, row by row. The gradients at the
    /// corners of a sample's lattice cell are always there to be read.
    pub fn perlin_noise<V: Copy, T, F: Fn(Sample<V>) -> T>(
        rows: usize,
        cols: usize,
        gradients: &Vec<Vec<V>>,
        blend: F,
    ) -> (ground: Vec<Vec<T>>)
        requires
            rows < usize::MAX,
            cols < usize::MAX,
            gradients.len() >= 2,
            gradients[0].len() >= 2,
            rectangular(grid(gradients@)),
            forall|r: int, c: int|
                0 <= r <= rows && 0 <= c <= cols ==> blend.requires(
                    (#[trigger] sample_at(grid(gradients@), r, c, rows as int, cols as int),),
                ),
        ensures
            ground.len() == rows + 1,
            forall|r: int| 0 <= r <= rows ==> (#[trigger] ground[r]).len() == cols + 1,
            forall|r: int, c: int|
                0 <= r <= rows && 0 <= c <= cols ==> blend.ensures(
                    (sample_at(grid(gradients@), r, c, rows as int, cols as int),),
                    #[trigger] ground[r][c],
                ),
    {
        let ghost g = grid(gradients@);
        let grid_rows = gradients.len() - 1;
        let grid_cols = gradients[0].len() - 1;
        assert(g[0] == gradients[0]@);
        let mut ground: Vec<Vec<T>> = Vec::new();
        let mut row: usize = 0;
        while row <= rows
            invariant
                0 <= row <= rows + 1,
                rows < usize::MAX,
                cols < usize::MAX,
                g == grid(gradients@),
                rectangular(g),
                grid_rows == gradients.len() - 1,
                grid_cols == g[0].len() - 1,
                grid_rows >= 1,
                grid_cols >= 1,
                ground.len() == row,
                forall|r: int, c: int|
                    0 <= r <= rows && 0 <= c <= cols ==> blend.requires(
                        (#[trigger] sample_at(g, r, c, rows as int, cols as int),),
                    ),
                forall|r: int| 0 <= r < row ==> (#[trigger] ground[r]).len() == cols + 1,
                forall|r: int, c: int|
                    0 <= r < row && 0 <= c <= cols ==> blend.ensures(
                        (sample_at(g, r, c, rows as int, cols as int),),
                        #[trigger] ground[r][c],
                    ),
            decreases rows + 1 - row,
        {
            let down = gradient_cell(row, rows, grid_rows);
            let mut line: Vec<T> = Vec::new();
            let mut col: usize = 0;
            while col <= cols
                invariant
                    0 <= col <= cols + 1,
                    0 <= row <= rows,
                    cols < usize::MAX,
                    g == grid(gradients@),
                    rectangular(g),
                    grid_rows == gradients.len() - 1,
                    grid_cols == g[0].len() - 1,
                    grid_rows >= 1,
                    grid_cols >= 1,
                    down.0 == cell_of(row as int, rows as int, grid_rows as int),
                    down.1 == rest_of(row as int, rows as int, grid_rows as int),
                    down.0 < grid_rows,
                    line.len() == col,
                    forall|r: int, c: int|
                        0 <= r <= rows && 0 <= c <= cols ==> blend.requires(
                            (#[trigger] sample_at(g, r, c, rows as int, cols as int),),
                        ),
                    forall|c: int|
                        0 <= c < col ==> blend.ensures(
                            (sample_at(g, row as int, c, rows as int, cols as int),),
                            #[trigger] line[c],
                        ),
                decreases cols + 1 - col,
            {
                let across = gradient_cell(col, cols, grid_cols);
                proof {
                    assert(g[down.0 as int] == gradients[down.0 as int]@);
                    assert(g[down.0 + 1] == gradients[down.0 + 1]@);
                    assert(g[down.0 as int].len() == g[0].len());
                    assert(g[down.0 + 1].len() == g[0].len());
                }
                let sample = Sample {
                    row,
                    col,
                    point: LatticePoint {
                        cell_row: down.0,
                        cell_col: across.0,
                        rest_row: down.1,
                        rest_col: across.1,
                    },
                    top_left: gradients[down.0][across.0],
                    top_right: gradients[down.0][across.0 + 1],
                    bottom_left: gradients[down.0 + 1][across.0],
                    bottom_right: gradients[down.0 + 1][across.0 + 1],
                };
                assert(sample == sample_at(g, row as int, col as int, rows as int, cols as int));
                let height = blend(sample);
                line.push(height);
                col = col + 1;
            }
            ground.push(line);
            row = row + 1;
        }
        ground
    }

    /// The altitude of every cell of a chunk: what `mean` makes of the
    /// samples at the cell's four corners, taken in the order top left,
    /// bottom left, top right, bottom right. The samples have one more row
    /// and one more column than the chunk has cells.
    pub fn give_altitudes<T: Copy, F: Fn(T, T, T, T) -> T>(
        edges: &Vec<Vec<T>>,
        mean: F,
    ) -> (altitudes: Vec<Vec<T>>)
        requires
            edges.len() >= 1,
            edges[0].len() >= 1,
            rectangular(grid(edges@)),
            forall|r: int, c: int|
                0 <= r < edges.len() - 1 && 0 <= c < edges[0].len() - 1 ==> mean.requires(
                    (#[trigger] edges[r][c], edges[r + 1][c], edges[r][c + 1], edges[r + 1][c + 1]),
                ),
        ensures
            altitudes.len() == edges.len() - 1,
            forall|r: int|
                0 <= r < altitudes.len() ==> (#[trigger] altitudes[r]).len() == edges[0].len() - 1,
            forall|r: int, c: int|
                0 <= r < edges.len() - 1 && 0 <= c < edges[0].len() - 1 ==> mean.ensures(
                    (edges[r][c], edges[r + 1][c], edges[r][c + 1], edges[r + 1][c + 1]),
                    #[trigger] altitudes[r][c],
                ),
    {
        let ghost e = grid(edges@);
        let rows = edges.len() - 1;
        let cols = edges[0].len() - 1;
        assert(e[0] == edges[0]@);
        let mut altitudes: Vec<Vec<T>> = Vec::new();
        let mut row: usize = 0;
        while row < rows
            invariant
                0 <= row <= rows,
                rows == edges.len() - 1,
                cols == edges[0].len() - 1,
                e == grid(edges@),
                rectangular(e),
                altitudes.len() == row,
                forall|r: int, c: int|
                    0 <= r < rows && 0 <= c < cols ==> mean.requires(
                        (
                            #[trigger] edges[r][c],
                            edges[r + 1][c],
                            edges[r][c + 1],
                            edges[r + 1][c + 1],
                        ),
                    ),
                forall|r: int| 0 <= r < row ==> (#[trigger] altitudes[r]).len() == cols,
                forall|r: int, c: int|
                    0 <= r < row && 0 <= c < cols ==> mean.ensures(
                        (edges[r][c], edges[r + 1][c], edges[r][c + 1], edges[r + 1][c + 1]),
                        #[trigger] altitudes[r][c],
                    ),
            decreases rows - row,
        {
            let mut line: Vec<T> = Vec::new();
            let mut col: usize = 0;
            proof {
                assert(e[row as int] == edges[row as int]@);
                assert(e[row + 1] == edges[row + 1]@);
                assert(e[row as int].len() == e[0].len());
                assert(e[row + 1].len() == e[0].len());
            }
            while col < cols
                invariant
                    0 <= col <= cols,
                    0 <= row < rows,
                    rows == edges.len() - 1,
                    cols == edges[0].len() - 1,
                    edges[row as int].len() == cols + 1,
                    edges[row + 1].len() == cols + 1,
                    line.len() == col,
                    forall|r: int, c: int|
                        0 <= r < rows && 0 <= c < cols ==> mean.requires(
                            (
                                #[trigger] edges[r][c],
                                edges[r + 1][c],
                                edges[r][c + 1],
                                edges[r + 1][c + 1],
                            ),
                        ),
                    forall|c: int|
                        0 <= c < col ==> mean.ensures(
                            (
                                edges[row as int][c],
                                edges[row + 1][c],
                                edges[row as int][c + 1],
                                edges[row + 1][c + 1],
                            ),
                            #[trigger] line[c],
                        ),
                decreases cols - col,
            {
                let altitude = mean(
                    edges[row][col],
                    edges[row + 1][col],
                    edges[row][col + 1],
                    edges[row + 1][col + 1],
                );
                line.push(altitude);
                col = col + 1;
            }
            altitudes.push(line);
            row = row + 1;
        }
        altitudes
    }

    /// Classifies every cell of a grid of altitudes, taken by their whole
    /// parts.
    pub fn give_types(altitudes: &Vec<Vec<u32>>) -> (types: Vec<Vec<ChunkTileType>>)
        ensures
            grid(types@) == chunk_classified(grid(altitudes@)),
    {
        let ghost a = grid(altitudes@);
        let mut types: Vec<Vec<ChunkTileType>> = Vec::new();
        let mut row: usize = 0;
        while row < altitudes.len()
            invariant
                0 <= row <= altitudes.len(),
                a == grid(altitudes@),
                grid(types@) == chunk_classified(a).take(row as int),
            decreases altitudes.len() - row,
        {
            let width = altitudes[row].len();
            let mut line: Vec<ChunkTileType> = Vec::new();
            let mut col: usize = 0;
            while col < width
                invariant
                    0 <= col <= width,
                    row < altitudes.len(),
                    width == altitudes[row as int].len(),
                    a == grid(altitudes@),
                    line@ == chunk_classified(a)[row as int].take(col as int),
                decreases width - col,
            {
                let tile_type = match altitudes[row][col] {
                    0 => ChunkTileType::WATER,
                    _ => ChunkTileType::GRASS,
                };
                line.push(tile_type);
                col = col + 1;
                assert(line@ =~= chunk_classified(a)[row as int].take(col as int));
            }
            assert(line@ =~= chunk_classified(a)[row as int]);
            let ghost above = types@;
            types.push(line);
            proof {
                assert(grid(above).len() == above.len());
                assert(chunk_classified(a).len() == altitudes.len());
                assert(above.len() == row);
                assert forall|r: int| 0 <= r < types@.len() implies grid(types@)[r]
                    == chunk_classified(a).take(row + 1)[r] by {
                    if r < row {
                        assert(grid(types@)[r] == grid(above)[r]);
                        assert(grid(above)[r] == chunk_classified(a).take(row as int)[r]);
                    }
                }
                assert(grid(types@) =~= chunk_classified(a).take(row + 1));
            }
            row = row + 1;
        }
        assert(grid(types@) =~= chunk_classified(a));
        types
    }
}

} // verus!
