//! The diamond-square generator, over altitudes of any kind.
//!
//! The altitudes of the world map are fractions, and each new one is a mean
//! with a random perturbation. Neither is known here: the caller hands in
//! the function that blends the values read into the value written. What is
//! done here is the bookkeeping around it: the grid is walked in the order
//! of the schedule, cell by cell.

use vstd::prelude::*;
use crate::game::schedule::{
    center, in_grid, points, schedule, side, views, world_side, StepKind, StepModel,
};
use crate::game::resolution::{
    is_corner, lemma_center_is_kept, lemma_every_cell_is_resolved, lemma_reads_are_final,
    lemma_reads_are_resolved, lemma_reads_enough, lemma_second_step_sets_center,
    lemma_writes_are_in_grid, resolved_before,
};
use crate::game::world_map::{grid, square, WorldMap};

verus! {

/// Whether a value is one that a followed schedule puts into a cell: the
/// constant of the corners, the constant of the center, or something that
/// `blend` returned.
pub open spec fn produced<T, F: Fn(&Vec<T>) -> T>(
    value: T,
    edge_init: T,
    center_init: T,
    blend: F,
) -> bool {
    value == edge_init || value == center_init || exists|read: Vec<T>|
        blend.ensures((&read,), value)
}

/// The values that the given cells hold in a grid, in the cells' order.
pub open spec fn values_at<T>(g: Seq<Seq<T>>, cells: Seq<(int, int)>) -> Seq<T> {
    Seq::new(cells.len(), |i: int| g[cells[i].0][cells[i].1])
}

/// Whether the cell that a step writes holds, in the grid `g`, what `blend`
/// returned for the values that the cells the step reads hold in `g`.
pub open spec fn settled<T, F: Fn(&Vec<T>) -> T>(
    g: Seq<Seq<T>>,
    step: StepModel,
    size: int,
    blend: F,
) -> bool {
    exists|read: Vec<T>|
        {
            &&& #[trigger] blend.ensures((&read,), g[step.row][step.col])
            &&& read@ == values_at(g, step.sources(size))
        }
}

/// Whether one of the first `upto` steps of a schedule is a diamond or
/// square step that writes the cell `p` and is settled in the grid `g`.
pub open spec fn cell_settled<T, F: Fn(&Vec<T>) -> T>(
    g: Seq<Seq<T>>,
    plan: Seq<StepModel>,
    upto: int,
    size: int,
    p: (int, int),
    blend: F,
) -> bool {
    exists|k: int|
        {
            &&& 0 <= k < upto && k < plan.len()
            &&& (#[trigger] plan[k]).target() == p
            &&& plan[k].kind != StepKind::Center
            &&& settled(g, plan[k], size, blend)
        }
}

/// Whether the four corners of a grid of the given side hold `value`.
pub open spec fn corners_hold<T>(g: Seq<Seq<T>>, size: int, value: T) -> bool {
    forall|r: int, c: int|
        in_grid((r, c), size) && is_corner((r, c), size) ==> #[trigger] g[r][c] == value
}

/// Whether `blend` accepts every three or four values that are themselves
/// produced: the only vectors it is ever called with.
pub open spec fn blends_produced<T, F: Fn(&Vec<T>) -> T>(
    edge_init: T,
    center_init: T,
    blend: F,
) -> bool {
    forall|read: Vec<T>|
        3 <= read.len() <= 4 && (forall|i: int|
            0 <= i < read.len() ==> produced(#[trigger] read[i], edge_init, center_init, blend))
            ==> blend.requires((&read,))
}

/// A grid of the given side with `edge_init` in its four corners and `blank`
/// everywhere else.
fn blank_grid<T: Copy>(size: usize, blank: T, edge_init: T) -> (tiles: Vec<Vec<T>>)
    requires
        size >= 1,
    ensures
        square(grid(tiles@), size as int),
        corners_hold(grid(tiles@), size as int, edge_init),
{
    let mut tiles: Vec<Vec<T>> = Vec::new();
    let mut row: usize = 0;
    while row < size
        invariant
            0 <= row <= size,
            tiles.len() == row,
            forall|r: int| 0 <= r < row ==> (#[trigger] tiles[r]).len() == size,
            forall|r: int, c: int|
                0 <= r < row && 0 <= c < size && is_corner((r, c), size as int)
                    ==> #[trigger] tiles[r][c] == edge_init,
        decreases size - row,
    {
        let mut line: Vec<T> = Vec::new();
        let mut col: usize = 0;
        while col < size
            invariant
                0 <= col <= size,
                row < size,
                line.len() == col,
                forall|c: int|
                    0 <= c < col && is_corner((row as int, c), size as int) ==> line[c]
                        == edge_init,
            decreases size - col,
        {
            let corner = (row == 0 || row == size - 1) && (col == 0 || col == size - 1);
            line.push(if corner { edge_init } else { blank });
            col = col + 1;
        }
        tiles.push(line);
        row = row + 1;
    }
    assert forall|r: int| 0 <= r < grid(tiles@).len() implies (#[trigger] grid(tiles@)[r]).len()
        == size by {
        assert(grid(tiles@)[r] == tiles[r]@);
    }
    assert forall|r: int, c: int|
        in_grid((r, c), size as int) && is_corner((r, c), size as int) implies #[trigger] grid(
        tiles@,
    )[r][c] == edge_init by {
        assert(grid(tiles@)[r] == tiles[r]@);
    }
    tiles
}

impl WorldMap {
    /// The grid of depth `n` that following the diamond-square schedule
    /// gives. The corners hold `edge_init`, the center holds `center_init`,
    /// and every other cell holds what `blend` returned for the values that
    /// the neighbours it is resolved from hold in the finished grid. No
    /// cell is left `blank`, and `blend` is never handed a value that was.
    ///
    /// `blend` is called once for each diamond and each square step, in the
    /// schedule's order, with the values of the cells that the step reads, in
    /// the order of `Step::sources`.
    pub fn diamond_square<T: Copy, F: Fn(&Vec<T>) -> T>(
        n: usize,
        blank: T,
        edge_init: T,
        center_init: T,
        blend: F,
    ) -> (tiles: Vec<Vec<T>>)
        requires
            n < 32,
            blends_produced(edge_init, center_init, blend),
        ensures
            square(grid(tiles@), side(n as nat)),
            forall|r: int, c: int|
                in_grid((r, c), side(n as nat)) ==> produced(
                    #[trigger] grid(tiles@)[r][c],
                    edge_init,
                    center_init,
                    blend,
                ),
            corners_hold(grid(tiles@), side(n as nat), edge_init),
            n >= 1 ==> grid(tiles@)[center(n as nat)][center(n as nat)] == center_init,
            forall|r: int, c: int|
                in_grid((r, c), side(n as nat)) && !is_corner((r, c), side(n as nat)) && (r, c) != (
                    center(n as nat),
                    center(n as nat),
                ) ==> #[trigger] cell_settled(
                    grid(tiles@),
                    schedule(n as nat),
                    schedule(n as nat).len() as int,
                    side(n as nat),
                    (r, c),
                    blend,
                ),
    {
        let size = world_side(n);
        let steps = Self::diamond_square_steps(n);
        let mut tiles = blank_grid(size, blank, edge_init);
        let ghost plan = schedule(n as nat);
        let mut k: usize = 0;
        while k < steps.len()
            invariant
                0 <= k <= steps.len(),
                size == side(n as nat),
                plan == schedule(n as nat),
                views(steps@) == plan,
                blends_produced(edge_init, center_init, blend),
                square(grid(tiles@), size as int),
                k >= 2 ==> grid(tiles@)[center(n as nat)][center(n as nat)] == center_init,
                forall|r: int, c: int|
                    in_grid((r, c), size as int) && !is_corner((r, c), size as int) && (r, c) != (
                        center(n as nat),
                        center(n as nat),
                    ) && resolved_before(
                        plan,
                        k as int,
                        size as int,
                        (r, c),
                    ) ==> #[trigger] cell_settled(
                        grid(tiles@),
                        plan,
                        k as int,
                        size as int,
                        (r, c),
                        blend,
                    ),
                corners_hold(grid(tiles@), size as int, edge_init),
                forall|r: int, c: int|
                    in_grid((r, c), size as int) && resolved_before(
                        plan,
                        k as int,
                        size as int,
                        (r, c),
                    ) ==> produced(#[trigger] grid(tiles@)[r][c], edge_init, center_init, blend),
            decreases steps.len() - k,
        {
            let step = steps[k];
            proof {
                assert(views(steps@)[k as int] == step@);
                lemma_writes_are_in_grid(n as nat, k as int);
                lemma_reads_enough(n as nat, k as int);
                lemma_center_is_kept(n as nat, k as int);
                if n >= 1 {
                    lemma_second_step_sets_center(n as nat);
                }
            }
            let ghost taken: Seq<T> = Seq::empty();
            let value = match step.kind {
                StepKind::Center => center_init,
                _ => {
                    let cells = step.sources(size);
                    let mut read: Vec<T> = Vec::new();
                    let mut i: usize = 0;
                    assert(points(cells@).len() == cells.len());
                    while i < cells.len()
                        invariant
                            0 <= i <= cells.len(),
                            0 <= k < steps.len(),
                            size == side(n as nat),
                            plan == schedule(n as nat),
                            plan[k as int] == step@,
                            k < plan.len(),
                            points(cells@) == step@.sources(size as int),
                            square(grid(tiles@), size as int),
                            read.len() == i,
                            forall|r: int, c: int|
                                in_grid((r, c), size as int) && resolved_before(
                                    plan,
                                    k as int,
                                    size as int,
                                    (r, c),
                                ) ==> produced(
                                    #[trigger] grid(tiles@)[r][c],
                                    edge_init,
                                    center_init,
                                    blend,
                                ),
                            forall|j: int|
                                0 <= j < i ==> produced(
                                    #[trigger] read[j],
                                    edge_init,
                                    center_init,
                                    blend,
                                ),
                            forall|j: int|
                                0 <= j < i ==> #[trigger] read[j] == values_at(
                                    grid(tiles@),
                                    step@.sources(size as int),
                                )[j],
                        decreases cells.len() - i,
                    {
                        let (row, col) = cells[i];
                        proof {
                            assert(points(cells@).len() == cells.len());
                            assert(points(cells@)[i as int] == (row as int, col as int));
                            lemma_reads_are_resolved(n as nat, k as int, i as int);
                            assert(grid(tiles@)[row as int] == tiles[row as int]@);
                            assert(grid(tiles@)[row as int].len() == size);
                        }
                        read.push(tiles[row][col]);
                        i = i + 1;
                    }
                    assert(read.len() == points(cells@).len());
                    assert(read@ =~= values_at(grid(tiles@), step@.sources(size as int)));
                    proof {
                        taken = read@;
                    }
                    blend(&read)
                },
            };
            assert(produced(value, edge_init, center_init, blend));
            assert(step.kind != StepKind::Center ==> taken == values_at(
                grid(tiles@),
                step@.sources(size as int),
            ) && exists|read: Vec<T>| #[trigger] blend.ensures((&read,), value) && read@ == taken);
            let ghost before = tiles@;
            proof {
                assert(grid(tiles@)[step.row as int] == tiles[step.row as int]@);
                assert(grid(tiles@)[step.row as int].len() == size);
            }
            tiles[step.row][step.col] = value;
            proof {
                let target = (step.row as int, step.col as int);
                assert(plan[k as int].target() == target);
                assert forall|r: int| 0 <= r < size implies grid(tiles@)[r] == (if r
                    == step.row {
                    grid(before)[r].update(step.col as int, value)
                } else {
                    grid(before)[r]
                }) by {
                    assert(grid(tiles@)[r] == tiles[r]@);
                    assert(grid(before)[r] == before[r]@);
                }
                assert forall|r: int, c: int|
                    in_grid((r, c), size as int) && resolved_before(
                        plan,
                        k + 1,
                        size as int,
                        (r, c),
                    ) implies produced(
                    #[trigger] grid(tiles@)[r][c],
                    edge_init,
                    center_init,
                    blend,
                ) by {
                    if (r, c) != target {
                        assert(grid(tiles@)[r][c] == grid(before)[r][c]);
                        assert(resolved_before(plan, k as int, size as int, (r, c)));
                    }
                }
                let ga = grid(tiles@);
                let gb = grid(before);
                let middle = (center(n as nat), center(n as nat));
                assert forall|r: int, c: int|
                        in_grid((r, c), size as int) && !is_corner((r, c), size as int) && (r, c)
                        != middle && resolved_before(plan, k + 1, size as int, (r, c))
                    implies #[trigger] cell_settled(
                    ga,
                    plan,
                    k + 1,
                    size as int,
                    (r, c),
                    blend,
                ) by {
                    let p = (r, c);
                    if p == target {
                        let cells = plan[k as int].sources(size as int);
                        assert(values_at(ga, cells) =~= taken) by {
                            assert forall|i: int| 0 <= i < cells.len() implies values_at(
                                ga,
                                cells,
                            )[i] == values_at(gb, cells)[i] by {
                                lemma_reads_are_final(n as nat, k as int, k as int, i);
                                lemma_reads_are_resolved(n as nat, k as int, i);
                                assert(ga[cells[i].0][cells[i].1] == gb[cells[i].0][cells[i].1]);
                            }
                        }
                        let read = choose|read: Vec<T>|
                            #[trigger] blend.ensures((&read,), value) && read@ == taken;
                        assert(ga[plan[k as int].row][plan[k as int].col] == value);
                        assert(blend.ensures(
                            (&read,),
                            ga[plan[k as int].row][plan[k as int].col],
                        ));
                        assert(read@ == values_at(ga, cells));
                        assert(settled(ga, plan[k as int], size as int, blend));
                    } else {
                        assert(gb[r][c] == ga[r][c]);
                        assert(resolved_before(plan, k as int, size as int, p));
                        assert(cell_settled(gb, plan, k as int, size as int, p, blend));
                        let j = choose|j: int|
                            {
                                &&& 0 <= j < k && j < plan.len()
                                &&& (#[trigger] plan[j]).target() == p
                                &&& plan[j].kind != StepKind::Center
                                &&& settled(gb, plan[j], size as int, blend)
                            };
                        let cells = plan[j].sources(size as int);
                        let read = choose|read: Vec<T>|
                            {
                                &&& #[trigger] blend.ensures((&read,), gb[plan[j].row][plan[j].col])
                                &&& read@ == values_at(gb, cells)
                            };
                        assert(values_at(ga, cells) =~= values_at(gb, cells)) by {
                            assert forall|i: int| 0 <= i < cells.len() implies values_at(
                                ga,
                                cells,
                            )[i] == values_at(gb, cells)[i] by {
                                lemma_reads_are_resolved(n as nat, j, i);
                                if plan[k as int].kind != StepKind::Center {
                                    lemma_reads_are_final(n as nat, j, k as int, i);
                                }
                                assert(ga[cells[i].0][cells[i].1] == gb[cells[i].0][cells[i].1]);
                            }
                        }
                        assert(blend.ensures((&read,), ga[plan[j].row][plan[j].col]));
                        assert(settled(ga, plan[j], size as int, blend));
                    }
                }
            }
            k = k + 1;
        }
        proof {
            if n >= 1 {
                lemma_second_step_sets_center(n as nat);
            }
            assert forall|r: int, c: int| in_grid((r, c), side(n as nat)) implies produced(
                #[trigger] grid(tiles@)[r][c],
                edge_init,
                center_init,
                blend,
            ) by {
                lemma_every_cell_is_resolved(n as nat, r, c);
            }
            assert forall|r: int, c: int|
                in_grid((r, c), side(n as nat)) && !is_corner((r, c), side(n as nat)) && (r, c) != (
                    center(n as nat),
                    center(n as nat),
                ) implies #[trigger] cell_settled(
                grid(tiles@),
                schedule(n as nat),
                schedule(n as nat).len() as int,
                side(n as nat),
                (r, c),
                blend,
            ) by {
                lemma_every_cell_is_resolved(n as nat, r, c);
            }
        }
        tiles
    }
}

} // verus!
