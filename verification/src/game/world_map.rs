//! The world map: altitude bands and coastal smoothing.

use vstd::prelude::*;
use crate::constants::CA_ITER;
use crate::game::schedule::side;

verus! {

/// The kind of ground of a world tile.
#[derive(Copy, Clone, PartialEq, Eq, Structural, Debug)]
pub enum TileType {
    WATER,
    GRASS,
    WOODS,
    HILLS,
    MOUNTAINS,
    HIGHLANDS,
}

/// One cell of the world map.
#[derive(Copy, Clone, PartialEq, Eq, Structural, Debug)]
pub struct Tile {
    pub tile_type: TileType,
    pub altitude: u8,
}

/// The world map: a square grid of tiles, row by row.
pub struct WorldMap {
    pub tiles: Vec<Vec<Tile>>,
}

/// The band an altitude falls in.
pub open spec fn band(altitude: u8) -> TileType {
    if altitude == 0 {
        TileType::WATER
    } else if altitude <= 60 {
        TileType::GRASS
    } else if altitude <= 90 {
        TileType::WOODS
    } else if altitude <= 110 {
        TileType::HILLS
    } else if altitude <= 130 {
        TileType::MOUNTAINS
    } else {
        TileType::HIGHLANDS
    }
}

/// Classifies one altitude.
pub fn classify(altitude: u8) -> (tile_type: TileType)
    ensures
        tile_type == band(altitude),
{
    match altitude {
        0 => TileType::WATER,
        1..=60 => TileType::GRASS,
        61..=90 => TileType::WOODS,
        91..=110 => TileType::HILLS,
        111..=130 => TileType::MOUNTAINS,
        _ => TileType::HIGHLANDS,
    }
}

/// The rows of a nested vector, each by its view.
pub open spec fn grid<T>(rows: Seq<Vec<T>>) -> Seq<Seq<T>> {
    Seq::new(rows.len(), |r: int| rows[r]@)
}

/// Whether all rows of a grid have the length of the first.
pub open spec fn rectangular<T>(g: Seq<Seq<T>>) -> bool {
    forall|r: int| 0 <= r < g.len() ==> (#[trigger] g[r]).len() == g[0].len()
}

/// Whether a grid has `size` rows of `size` cells each.
pub open spec fn square<T>(g: Seq<Seq<T>>, size: int) -> bool {
    g.len() == size && forall|r: int| 0 <= r < g.len() ==> (#[trigger] g[r]).len() == size
}

/// The tile of an altitude: the altitude, and the band it falls in.
pub open spec fn tile_of(altitude: u8) -> Tile {
    Tile { tile_type: band(altitude), altitude }
}

/// A grid of altitudes, each cell classified.
pub open spec fn classified(altitudes: Seq<Seq<u8>>) -> Seq<Seq<Tile>> {
    Seq::new(
        altitudes.len(),
        |r: int| Seq::new(altitudes[r].len(), |c: int| tile_of(altitudes[r][c])),
    )
}

/// One if the tile at the given place is water, else zero.
pub open spec fn water_at(g: Seq<Seq<Tile>>, r: int, c: int) -> int {
    if g[r][c].tile_type == TileType::WATER {
        1
    } else {
        0
    }
}

/// The number of water tiles among the eight neighbours of a cell.
pub open spec fn water_neighbours(g: Seq<Seq<Tile>>, r: int, c: int) -> int {
    water_at(g, r - 1, c - 1) + water_at(g, r - 1, c) + water_at(g, r - 1, c + 1) + water_at(
        g,
        r,
        c - 1,
    ) + water_at(g, r, c + 1) + water_at(g, r + 1, c - 1) + water_at(g, r + 1, c) + water_at(
        g,
        r + 1,
        c + 1,
    )
}

/// Whether a cell has all eight neighbours in the grid.
pub open spec fn interior(g: Seq<Seq<Tile>>, r: int, c: int) -> bool {
    1 <= r < g.len() - 1 && 1 <= c < g[r].len() - 1
}

/// The tile of a cell after one smoothing pass. On the border it stays. In
/// the interior, grass with more than four water neighbours becomes water at
/// altitude 0, water with fewer than three becomes grass at altitude 1, and
/// everything else stays.
pub open spec fn smoothed_tile(g: Seq<Seq<Tile>>, r: int, c: int) -> Tile {
    let tile = g[r][c];
    if !interior(g, r, c) {
        tile
    } else if water_neighbours(g, r, c) > 4 && tile.tile_type == TileType::GRASS {
        Tile { tile_type: TileType::WATER, altitude: 0 }
    } else if water_neighbours(g, r, c) < 3 && tile.tile_type == TileType::WATER {
        Tile { tile_type: TileType::GRASS, altitude: 1 }
    } else {
        tile
    }
}

/// One smoothing pass: every cell is judged by the grid before the pass.
pub open spec fn smooth_pass(g: Seq<Seq<Tile>>) -> Seq<Seq<Tile>> {
    Seq::new(g.len(), |r: int| Seq::new(g[r].len(), |c: int| smoothed_tile(g, r, c)))
}

/// The grid after `passes` smoothing passes.
pub open spec fn smooth(g: Seq<Seq<Tile>>, passes: nat) -> Seq<Seq<Tile>>
    decreases passes,
{
    if passes == 0 {
        g
    } else {
        smooth_pass(smooth(g, (passes - 1) as nat))
    }
}

/// Smoothing keeps the number of rows and the length of each.
pub proof fn lemma_smooth_keeps_shape(g: Seq<Seq<Tile>>, passes: nat)
    ensures
        smooth(g, passes).len() == g.len(),
        forall|r: int| 0 <= r < g.len() ==> (#[trigger] smooth(g, passes)[r]).len() == g[r].len(),
    decreases passes,
{
    if passes > 0 {
        lemma_smooth_keeps_shape(g, (passes - 1) as nat);
    }
}

/// Smoothing never alters a cell of the first or last row or column,
/// whatever the number of passes.
pub proof fn lemma_smooth_keeps_border(g: Seq<Seq<Tile>>, passes: nat, r: int, c: int)
    requires
        0 <= r < g.len(),
        0 <= c < g[r].len(),
        r == 0 || r == g.len() - 1 || c == 0 || c == g[r].len() - 1,
    ensures
        smooth(g, passes)[r][c] == g[r][c],
    decreases passes,
{
    if passes > 0 {
        lemma_smooth_keeps_border(g, (passes - 1) as nat, r, c);
        lemma_smooth_keeps_shape(g, (passes - 1) as nat);
    }
}

/// Smoothing with no pass leaves the grid as it is.
pub proof fn lemma_smooth_zero_is_identity(g: Seq<Seq<Tile>>)
    ensures
        smooth(g, 0) == g,
{
}

/// A cell whose water neighbours number three or four is left as it is by a
/// pass, whatever its kind.
pub proof fn lemma_dead_zone(g: Seq<Seq<Tile>>, r: int, c: int)
    requires
        3 <= water_neighbours(g, r, c) <= 4,
    ensures
        smoothed_tile(g, r, c) == g[r][c],
{
}

/// One if the tile at the given place is water, else zero.
fn water(tiles: &Vec<Vec<Tile>>, row: usize, col: usize) -> (count: u8)
    requires
        row < tiles.len(),
        col < tiles[row as int].len(),
    ensures
        count == water_at(grid(tiles@), row as int, col as int),
{
    if tiles[row][col].tile_type == TileType::WATER {
        1
    } else {
        0
    }
}

/// The tile of an interior cell after one smoothing pass.
fn smooth_cell(tiles: &Vec<Vec<Tile>>, row: usize, col: usize) -> (tile: Tile)
    requires
        rectangular(grid(tiles@)),
        interior(grid(tiles@), row as int, col as int),
    ensures
        tile == smoothed_tile(grid(tiles@), row as int, col as int),
{
    let ghost g = grid(tiles@);
    assert(g[row - 1].len() == g[0].len());
    assert(g[row as int].len() == g[0].len());
    assert(g[row + 1].len() == g[0].len());
    assert(g[row as int] == tiles@[row as int]@);
    assert(g.len() == tiles.len());
    assert(col + 1 < tiles[row as int].len());
    let wall_counter: u8 = water(tiles, row - 1, col - 1) + water(tiles, row - 1, col) + water(
        tiles,
        row - 1,
        col + 1,
    ) + water(tiles, row, col - 1) + water(tiles, row, col + 1) + water(tiles, row + 1, col - 1)
        + water(tiles, row + 1, col) + water(tiles, row + 1, col + 1);
    let tile = tiles[row][col];
    if wall_counter > 4 && tile.tile_type == TileType::GRASS {
        Tile { tile_type: TileType::WATER, altitude: 0 }
    } else if wall_counter < 3 && tile.tile_type == TileType::WATER {
        Tile { tile_type: TileType::GRASS, altitude: 1 }
    } else {
        tile
    }
}

/// One smoothing pass over the whole grid, into a grid of its own.
fn smooth_once(tiles: &Vec<Vec<Tile>>) -> (out: Vec<Vec<Tile>>)
    requires
        rectangular(grid(tiles@)),
    ensures
        grid(out@) == smooth_pass(grid(tiles@)),
{
    let ghost g = grid(tiles@);
    let mut out: Vec<Vec<Tile>> = Vec::new();
    let mut row: usize = 0;
    while row < tiles.len()
        invariant
            0 <= row <= tiles.len(),
            g == grid(tiles@),
            rectangular(g),
            grid(out@) == smooth_pass(g).take(row as int),
        decreases tiles.len() - row,
    {
        let width = tiles[row].len();
        let mut line: Vec<Tile> = Vec::new();
        let mut col: usize = 0;
        while col < width
            invariant
                0 <= col <= width,
                row < tiles.len(),
                width == tiles[row as int].len(),
                g == grid(tiles@),
                rectangular(g),
                line@ == smooth_pass(g)[row as int].take(col as int),
            decreases width - col,
        {
            let inside = 1 <= row && row < tiles.len() - 1 && 1 <= col && col < width - 1;
            let tile = if inside {
                smooth_cell(tiles, row, col)
            } else {
                tiles[row][col]
            };
            line.push(tile);
            col = col + 1;
            assert(line@ =~= smooth_pass(g)[row as int].take(col as int));
        }
        assert(line@ =~= smooth_pass(g)[row as int]);
        let ghost above = out@;
        out.push(line);
        proof {
            assert(grid(above).len() == above.len());
            assert(smooth_pass(g).len() == tiles.len());
            assert(above.len() == row);
            assert forall|r: int| 0 <= r < out@.len() implies grid(out@)[r] == smooth_pass(g).take(
                row + 1,
            )[r] by {
                if r < row {
                    assert(grid(out@)[r] == grid(above)[r]);
                    assert(grid(above)[r] == smooth_pass(g).take(row as int)[r]);
                }
            }
            assert(grid(out@) =~= smooth_pass(g).take(row + 1));
        }
        row = row + 1;
    }
    assert(grid(out@) =~= smooth_pass(g));
    out
}

impl WorldMap {
    /// Whether the map is a square grid of the side that depth `n` gives.
    pub open spec fn well_formed(&self, n: nat) -> bool {
        square(grid(self.tiles@), side(n))
    }

    /// The world map of the given altitudes: each cell classified, then the
    /// coasts smoothed `CA_ITER` times.
    pub fn new(n: usize, altitudes: &Vec<Vec<u8>>) -> (map: WorldMap)
        requires
            n < 32,
            square(grid(altitudes@), side(n as nat)),
        ensures
            map.well_formed(n as nat),
            grid(map.tiles@) == smooth(classified(grid(altitudes@)), CA_ITER as nat),
    {
        let typed = Self::give_types(altitudes);
        let tiles = Self::coast_cellular_automata(typed, CA_ITER);
        proof {
            lemma_smooth_keeps_shape(classified(grid(altitudes@)), CA_ITER as nat);
        }
        WorldMap { tiles }
    }

    /// Classifies every cell of a grid of altitudes.
    pub fn give_types(altitudes: &Vec<Vec<u8>>) -> (tiles: Vec<Vec<Tile>>)
        ensures
            grid(tiles@) == classified(grid(altitudes@)),
    {
        let ghost a = grid(altitudes@);
        let mut tiles: Vec<Vec<Tile>> = Vec::new();
        let mut row: usize = 0;
        while row < altitudes.len()
            invariant
                0 <= row <= altitudes.len(),
                a == grid(altitudes@),
                grid(tiles@) == classified(a).take(row as int),
            decreases altitudes.len() - row,
        {
            let width = altitudes[row].len();
            let mut line: Vec<Tile> = Vec::new();
            let mut col: usize = 0;
            while col < width
                invariant
                    0 <= col <= width,
                    row < altitudes.len(),
                    width == altitudes[row as int].len(),
                    a == grid(altitudes@),
                    line@ == classified(a)[row as int].take(col as int),
                decreases width - col,
            {
                let altitude = altitudes[row][col];
                line.push(Tile { tile_type: classify(altitude), altitude });
                col = col + 1;
                assert(line@ =~= classified(a)[row as int].take(col as int));
            }
            assert(line@ =~= classified(a)[row as int]);
            let ghost above = tiles@;
            tiles.push(line);
            proof {
                assert(grid(above).len() == above.len());
                assert(classified(a).len() == altitudes.len());
                assert(above.len() == row);
                assert forall|r: int| 0 <= r < tiles@.len() implies grid(tiles@)[r] == classified(
                    a,
                ).take(row + 1)[r] by {
                    if r < row {
                        assert(grid(tiles@)[r] == grid(above)[r]);
                        assert(grid(above)[r] == classified(a).take(row as int)[r]);
                    }
                }
                assert(grid(tiles@) =~= classified(a).take(row + 1));
            }
            row = row + 1;
        }
        assert(grid(tiles@) =~= classified(a));
        tiles
    }

    /// Smooths the coasts of a classified grid: `iterations` passes, each
    /// judging every cell by the grid as the pass found it.
    pub fn coast_cellular_automata(tiles: Vec<Vec<Tile>>, iterations: usize) -> (out: Vec<
        Vec<Tile>,
    >)
        requires
            rectangular(grid(tiles@)),
        ensures
            grid(out@) == smooth(grid(tiles@), iterations as nat),
            iterations == 0 ==> grid(out@) == grid(tiles@),
            out.len() == tiles.len(),
            forall|r: int| 0 <= r < tiles.len() ==> (#[trigger] out[r]).len() == tiles[r].len(),
            forall|r: int, c: int|
                0 <= r < tiles.len() && 0 <= c < tiles[r].len() && (r == 0 || r == tiles.len() - 1
                    || c == 0 || c == tiles[r].len() - 1) ==> #[trigger] out[r][c] == tiles[r][c],
    {
        let ghost g = grid(tiles@);
        let mut current = tiles;
        let mut pass: usize = 0;
        while pass < iterations
            invariant
                0 <= pass <= iterations,
                rectangular(g),
                grid(current@) == smooth(g, pass as nat),
            decreases iterations - pass,
        {
            proof {
                lemma_smooth_keeps_shape(g, pass as nat);
            }
            current = smooth_once(&current);
            pass = pass + 1;
        }
        proof {
            lemma_smooth_keeps_shape(g, iterations as nat);
            assert forall|r: int| 0 <= r < tiles.len() implies (#[trigger] current[r]).len()
                == tiles[r].len() by {
                assert(grid(current@)[r] == current[r]@);
                assert(g[r] == tiles[r]@);
            }
            assert forall|r: int, c: int|
                0 <= r < tiles.len() && 0 <= c < tiles[r].len() && (r == 0 || r == tiles.len() - 1
                    || c == 0 || c == tiles[r].len() - 1) implies #[trigger] current[r][c]
                == tiles[r][c] by {
                assert(grid(current@)[r] == current[r]@);
                assert(g[r] == tiles[r]@);
                lemma_smooth_keeps_border(g, iterations as nat, r, c);
            }
        }
        current
    }
}

} // verus!
