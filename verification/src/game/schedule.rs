//! The diamond-square schedule of the world map.
//!
//! The altitudes are fractional and perturbed at random, so the arithmetic on
//! them belongs to the caller. What is fixed is the bookkeeping: which cell
//! is resolved when, and from which of its neighbours. This module computes
//! that schedule for a grid of side two to the power `n`, plus one.

use vstd::prelude::*;
use vstd::arithmetic::power2::{
    lemma2_to64, lemma_pow2_strictly_increases, lemma_pow2_unfold, pow2,
};
use crate::constants::{N, WORLD_MAP_COLS, WORLD_MAP_ROWS};
use crate::game::world_map::WorldMap;

verus! {

/// What a step of the schedule does to its cell.
#[derive(Copy, Clone, PartialEq, Eq, Structural, Debug)]
pub enum StepKind {
    /// The cell becomes the mean of its four diagonal neighbours, perturbed.
    Diamond,
    /// The cell becomes the center constant.
    Center,
    /// The cell becomes the mean of those of its four axis neighbours that
    /// lie in the grid, perturbed.
    Square,
}

/// One step of the schedule: a cell, and how far away its neighbours are.
#[derive(Copy, Clone, PartialEq, Eq, Structural, Debug)]
pub struct Step {
    pub kind: StepKind,
    pub row: usize,
    pub col: usize,
    pub reach: usize,
}

/// A step over the mathematical integers.
pub struct StepModel {
    pub kind: StepKind,
    pub row: int,
    pub col: int,
    pub reach: int,
}

impl View for Step {
    type V = StepModel;

    open spec fn view(&self) -> StepModel {
        StepModel {
            kind: self.kind,
            row: self.row as int,
            col: self.col as int,
            reach: self.reach as int,
        }
    }
}

impl StepModel {
    /// The cell that the step writes.
    pub open spec fn target(self) -> (int, int) {
        (self.row, self.col)
    }
}

/// The steps of a vector, each by its view.
pub open spec fn views(steps: Seq<Step>) -> Seq<StepModel> {
    Seq::new(steps.len(), |k: int| steps[k]@)
}

/// The cells of a vector of index pairs.
pub open spec fn points(cells: Seq<(usize, usize)>) -> Seq<(int, int)> {
    Seq::new(cells.len(), |k: int| (cells[k].0 as int, cells[k].1 as int))
}

/// The side of the grid of depth `n`.
pub open spec fn side(n: nat) -> int {
    pow2(n) as int + 1
}

/// The row and column of the grid's center.
pub open spec fn center(n: nat) -> int {
    pow2(n) as int / 2
}

/// The distance between a cell and the neighbours it is resolved from at
/// iteration `level`, counted from 1: the grid's span halved `level` times.
pub open spec fn reach_at(n: nat, level: nat) -> int {
    if level <= n {
        pow2((n - level) as nat) as int
    } else {
        0
    }
}

/// Whether a cell lies in the grid of the given side.
pub open spec fn in_grid(p: (int, int), side: int) -> bool {
    0 <= p.0 < side && 0 <= p.1 < side
}

/// The diagonal neighbour number `q` of `p` at distance `h`.
pub open spec fn diagonal(p: (int, int), q: int, h: int) -> (int, int) {
    if q == 0 {
        (p.0 + h, p.1 + h)
    } else if q == 1 {
        (p.0 + h, p.1 - h)
    } else if q == 2 {
        (p.0 - h, p.1 + h)
    } else {
        (p.0 - h, p.1 - h)
    }
}

/// The axis neighbour number `q` of `p` at distance `h`.
pub open spec fn axial(p: (int, int), q: int, h: int) -> (int, int) {
    if q == 0 {
        (p.0 + h, p.1)
    } else if q == 1 {
        (p.0 - h, p.1)
    } else if q == 2 {
        (p.0, p.1 + h)
    } else {
        (p.0, p.1 - h)
    }
}

/// The anchors of iteration `level`, counted from 1: the centers of the
/// squares that the iteration's diamond phase resolves. The first iteration
/// has the grid's center alone; each later one has the four diagonal
/// neighbours of each anchor before it, at the iteration's own reach.
pub open spec fn anchors(n: nat, level: nat) -> Seq<(int, int)>
    decreases level,
{
    if level <= 1 {
        seq![(center(n), center(n))]
    } else {
        let before = anchors(n, (level - 1) as nat);
        Seq::new(4 * before.len(), |k: int| diagonal(before[k / 4], k % 4, reach_at(n, level)))
    }
}

/// The diamond phase over the given anchors: each anchor is resolved, and
/// right after it the center is set anew.
pub open spec fn diamond_phase(at: Seq<(int, int)>, reach: int, center: int) -> Seq<StepModel> {
    Seq::new(
        2 * at.len(),
        |k: int|
            if k % 2 == 0 {
                StepModel { kind: StepKind::Diamond, row: at[k / 2].0, col: at[k / 2].1, reach }
            } else {
                StepModel { kind: StepKind::Center, row: center, col: center, reach: 0 }
            },
    )
}

/// The square phase over the given anchors: the four axis neighbours of each
/// anchor are resolved.
pub open spec fn square_phase(at: Seq<(int, int)>, reach: int) -> Seq<StepModel> {
    Seq::new(
        4 * at.len(),
        |k: int|
            StepModel {
                kind: StepKind::Square,
                row: axial(at[k / 4], k % 4, reach).0,
                col: axial(at[k / 4], k % 4, reach).1,
                reach,
            },
    )
}

/// The schedule up to and including iteration `level`.
pub open spec fn schedule_to(n: nat, level: nat) -> Seq<StepModel>
    decreases level,
{
    if level == 0 {
        Seq::empty()
    } else {
        schedule_to(n, (level - 1) as nat) + diamond_phase(
            anchors(n, level),
            reach_at(n, level),
            center(n),
        ) + square_phase(anchors(n, level), reach_at(n, level))
    }
}

/// The whole schedule of the grid of depth `n`: `n` iterations.
pub open spec fn schedule(n: nat) -> Seq<StepModel> {
    schedule_to(n, n)
}

/// Every anchor of an iteration keeps the iteration's reach from each edge
/// of the grid.
pub proof fn lemma_anchor_margin(n: nat, level: nat, k: int)
    requires
        1 <= level <= n,
        0 <= k < anchors(n, level).len(),
    ensures
        reach_at(n, level) <= anchors(n, level)[k].0 <= pow2(n) - reach_at(n, level),
        reach_at(n, level) <= anchors(n, level)[k].1 <= pow2(n) - reach_at(n, level),
    decreases level,
{
    if level <= 1 {
        lemma_pow2_unfold(n);
    } else {
        lemma_anchor_margin(n, (level - 1) as nat, k / 4);
        lemma_pow2_unfold((n - level + 1) as nat);
    }
}

/// The cell `p` alone if it lies in the grid of the given side, else nothing.
pub open spec fn pick(p: (int, int), side: int) -> Seq<(int, int)> {
    if in_grid(p, side) {
        seq![p]
    } else {
        Seq::empty()
    }
}

impl StepModel {
    /// The neighbour number `q` that the step reads, in the grid or not:
    /// diagonal for a diamond step, along an axis for a square step.
    pub open spec fn neighbour(self, q: int) -> (int, int) {
        match self.kind {
            StepKind::Diamond => diagonal(self.target(), q, self.reach),
            _ => axial(self.target(), q, self.reach),
        }
    }

    /// The cells whose mean the step takes, in the order in which they are
    /// summed: its four neighbours, without those outside the grid. A center
    /// step reads nothing.
    pub open spec fn sources(self, side: int) -> Seq<(int, int)> {
        match self.kind {
            StepKind::Center => Seq::empty(),
            _ => pick(self.neighbour(0), side) + pick(self.neighbour(1), side) + pick(
                self.neighbour(2),
                side,
            ) + pick(self.neighbour(3), side),
        }
    }
}

/// The index `by` away from `base`, forward or backward.
pub open spec fn moved(base: int, by: int, forward: bool) -> int {
    if forward {
        base + by
    } else {
        base - by
    }
}

/// The index `by` away from `base`, where it is below `side`.
fn move_within(base: usize, by: usize, forward: bool, side: usize) -> (at: Option<usize>)
    ensures
        at is Some <==> 0 <= moved(base as int, by as int, forward) < side,
        at is Some ==> at->0 == moved(base as int, by as int, forward),
{
    if forward {
        if base < side && by < side - base {
            Some(base + by)
        } else {
            None
        }
    } else {
        if by <= base && base - by < side {
            Some(base - by)
        } else {
            None
        }
    }
}

/// Appends the cell of the given row and column where both are there.
fn gather(cells: &mut Vec<(usize, usize)>, row: Option<usize>, col: Option<usize>)
    ensures
        row is Some && col is Some ==> final(cells)@ == old(cells)@.push((row->0, col->0)),
        !(row is Some && col is Some) ==> final(cells)@ == old(cells)@,
{
    if let Some(r) = row {
        if let Some(c) = col {
            cells.push((r, c));
        }
    }
}

impl Step {
    /// The cells whose mean the step takes, in the order in which they are
    /// summed.
    pub fn sources(&self, side: usize) -> (cells: Vec<(usize, usize)>)
        ensures
            points(cells@) == self@.sources(side as int),
    {
        let mut cells: Vec<(usize, usize)> = Vec::new();
        let ghost s = self@;
        let ghost w = side as int;
        match self.kind {
            StepKind::Center => {
                assert(points(cells@) =~= s.sources(w));
            },
            StepKind::Diamond => {
                let up = move_within(self.row, self.reach, false, side);
                let down = move_within(self.row, self.reach, true, side);
                let left = move_within(self.col, self.reach, false, side);
                let right = move_within(self.col, self.reach, true, side);
                gather(&mut cells, down, right);
                assert(points(cells@) =~= pick(s.neighbour(0), w));
                gather(&mut cells, down, left);
                assert(points(cells@) =~= pick(s.neighbour(0), w) + pick(s.neighbour(1), w));
                gather(&mut cells, up, right);
                assert(points(cells@) =~= pick(s.neighbour(0), w) + pick(s.neighbour(1), w) + pick(
                    s.neighbour(2),
                    w,
                ));
                gather(&mut cells, up, left);
                assert(points(cells@) =~= s.sources(w));
            },
            StepKind::Square => {
                let up = move_within(self.row, self.reach, false, side);
                let down = move_within(self.row, self.reach, true, side);
                let left = move_within(self.col, self.reach, false, side);
                let right = move_within(self.col, self.reach, true, side);
                let row = move_within(self.row, 0, true, side);
                let col = move_within(self.col, 0, true, side);
                gather(&mut cells, down, col);
                assert(points(cells@) =~= pick(s.neighbour(0), w));
                gather(&mut cells, up, col);
                assert(points(cells@) =~= pick(s.neighbour(0), w) + pick(s.neighbour(1), w));
                gather(&mut cells, row, right);
                assert(points(cells@) =~= pick(s.neighbour(0), w) + pick(s.neighbour(1), w) + pick(
                    s.neighbour(2),
                    w,
                ));
                gather(&mut cells, row, left);
                assert(points(cells@) =~= s.sources(w));
            },
        }
        cells
    }
}

/// The world map's rows and columns are the side of the grid of its depth.
pub proof fn lemma_world_map_side()
    ensures
        WORLD_MAP_ROWS == side(N as nat),
        WORLD_MAP_COLS == side(N as nat),
{
    lemma2_to64();
}

/// The schedule of a depth is one sequence of steps: any two vectors of
/// steps that both are the schedule of the same depth are equal, step by
/// step and field by field.
pub proof fn lemma_schedule_is_unique(n: nat, first: Seq<Step>, second: Seq<Step>)
    requires
        views(first) == schedule(n),
        views(second) == schedule(n),
    ensures
        first == second,
{
    assert(first.len() == views(first).len());
    assert(second.len() == views(second).len());
    assert forall|k: int| 0 <= k < first.len() implies first[k] == second[k] by {
        assert(views(first)[k] == first[k]@);
        assert(views(second)[k] == second[k]@);
        assert(first[k]@.row == second[k]@.row);
        assert(first[k]@.col == second[k]@.col);
        assert(first[k]@.reach == second[k]@.reach);
        assert(first[k]@.kind == second[k]@.kind);
    }
    assert(first =~= second);
}

/// The side of the grid of depth `n`.
pub fn world_side(n: usize) -> (s: usize)
    requires
        n < 32,
    ensures
        s == side(n as nat),
{
    let mut span: usize = 1;
    let mut i: usize = 0;
    proof {
        lemma2_to64();
    }
    while i < n
        invariant
            i <= n < 32,
            span == pow2(i as nat),
        decreases n - i,
    {
        proof {
            lemma_pow2_unfold((i + 1) as nat);
            lemma2_to64();
            if i + 1 < 31 {
                lemma_pow2_strictly_increases((i + 1) as nat, 31);
            }
        }
        span = span * 2;
        i = i + 1;
    }
    proof {
        lemma2_to64();
        if n < 31 {
            lemma_pow2_strictly_increases(n as nat, 31);
        }
    }
    span + 1
}

impl WorldMap {
    /// The diamond-square schedule of the grid of depth `n`: the steps that
    /// resolve its cells, in the order in which they are to be taken.
    pub fn diamond_square_steps(n: usize) -> (steps: Vec<Step>)
        requires
            n < 32,
        ensures
            views(steps@) == schedule(n as nat),
    {
        let span = world_side(n) - 1;
        let middle = span / 2;
        let mut steps: Vec<Step> = Vec::new();
        let mut positions: Vec<(usize, usize)> = Vec::new();
        positions.push((middle, middle));
        let mut reach: usize = span;
        let mut level: usize = 1;
        assert(points(positions@) =~= anchors(n as nat, 1));
        assert(views(steps@) =~= schedule_to(n as nat, 0));
        while level <= n
            invariant
                1 <= level <= n + 1,
                n < 32,
                span == pow2(n as nat),
                middle == center(n as nat),
                reach == reach_at(n as nat, (level - 1) as nat),
                views(steps@) == schedule_to(n as nat, (level - 1) as nat),
                points(positions@) == anchors(n as nat, level as nat),
            decreases n + 1 - level,
        {
            proof {
                lemma_pow2_unfold((n - level + 1) as nat);
                if level < n {
                    lemma_pow2_unfold((n - level) as nat);
                }
                lemma2_to64();
            }
            reach = reach / 2;
            let half = reach / 2;
            let ghost done = schedule_to(n as nat, (level - 1) as nat);
            let ghost at = anchors(n as nat, level as nat);
            let ghost diamonds = diamond_phase(at, reach as int, middle as int);
            let ghost squares = square_phase(at, reach as int);
            let ghost next = anchors(n as nat, (level + 1) as nat);
            assert(half == reach_at(n as nat, (level + 1) as nat));
            assert(next.len() == 4 * at.len());
            let mut utility: Vec<(usize, usize)> = Vec::new();
            let mut k: usize = 0;
            while k < positions.len()
                invariant
                    0 <= k <= positions.len(),
                    1 <= level <= n < 32,
                    points(positions@) == at,
                    at == anchors(n as nat, level as nat),
                    next == anchors(n as nat, (level + 1) as nat),
                    next.len() == 4 * at.len(),
                    reach == reach_at(n as nat, level as nat),
                    half == reach_at(n as nat, (level + 1) as nat),
                    half == reach / 2,
                    span == pow2(n as nat),
                    diamonds == diamond_phase(at, reach as int, middle as int),
                    views(steps@) == done + diamonds.take(2 * k),
                    points(utility@) == next.take(4 * k),
                decreases positions.len() - k,
            {
                let pos = positions[k];
                proof {
                    lemma_anchor_margin(n as nat, level as nat, k as int);
                    assert(at[k as int] == (pos.0 as int, pos.1 as int));
                    assert(at.len() == positions.len());
                }
                let ghost steps_before = steps@;
                let ghost utility_before = utility@;
                steps.push(Step { kind: StepKind::Diamond, row: pos.0, col: pos.1, reach });
                steps.push(Step { kind: StepKind::Center, row: middle, col: middle, reach: 0 });
                utility.push((pos.0 + half, pos.1 + half));
                utility.push((pos.0 + half, pos.1 - half));
                utility.push((pos.0 - half, pos.1 + half));
                utility.push((pos.0 - half, pos.1 - half));
                proof {
                    let j = k as int;
                    assert(diamonds[2 * j] == steps@[steps_before.len() as int]@);
                    assert(diamonds[2 * j + 1] == steps@[steps_before.len() as int + 1]@);
                    assert(views(steps_before).len() == done.len() + 2 * j);
                    assert forall|i: int| 0 <= i < steps@.len() implies views(steps@)[i] == (done
                        + diamonds.take(2 * j + 2))[i] by {
                        if i < steps_before.len() {
                            assert(views(steps@)[i] == views(steps_before)[i]);
                            assert(views(steps_before)[i] == (done + diamonds.take(2 * j))[i]);
                        }
                    }
                    assert(views(steps@) =~= done + diamonds.take(2 * j + 2));
                    assert((4 * j) / 4 == j && (4 * j + 1) / 4 == j && (4 * j + 2) / 4 == j && (4
                        * j + 3) / 4 == j);
                    assert(points(utility_before).len() == 4 * j);
                    assert forall|i: int| 0 <= i < utility@.len() implies points(utility@)[i]
                        == next.take(4 * j + 4)[i] by {
                        if i < utility_before.len() {
                            assert(points(utility@)[i] == points(utility_before)[i]);
                            assert(points(utility_before)[i] == next.take(4 * j)[i]);
                        }
                    }
                    assert(points(utility@) =~= next.take(4 * j + 4));
                }
                k = k + 1;
            }
            assert(diamonds.take(2 * k) =~= diamonds);
            assert(next.take(4 * k) =~= next);
            let mut k: usize = 0;
            while k < positions.len()
                invariant
                    0 <= k <= positions.len(),
                    1 <= level <= n < 32,
                    points(positions@) == at,
                    at == anchors(n as nat, level as nat),
                    reach == reach_at(n as nat, level as nat),
                    span == pow2(n as nat),
                    squares == square_phase(at, reach as int),
                    views(steps@) == done + diamonds + squares.take(4 * k),
                decreases positions.len() - k,
            {
                let pos = positions[k];
                proof {
                    lemma_anchor_margin(n as nat, level as nat, k as int);
                    assert(at[k as int] == (pos.0 as int, pos.1 as int));
                    assert(at.len() == positions.len());
                }
                let ghost steps_before = steps@;
                steps.push(Step { kind: StepKind::Square, row: pos.0 + reach, col: pos.1, reach });
                steps.push(Step { kind: StepKind::Square, row: pos.0 - reach, col: pos.1, reach });
                steps.push(Step { kind: StepKind::Square, row: pos.0, col: pos.1 + reach, reach });
                steps.push(Step { kind: StepKind::Square, row: pos.0, col: pos.1 - reach, reach });
                proof {
                    let j = k as int;
                    assert((4 * j) / 4 == j && (4 * j + 1) / 4 == j && (4 * j + 2) / 4 == j && (4
                        * j + 3) / 4 == j);
                    assert(views(steps_before).len() == done.len() + diamonds.len() + 4 * j);
                    assert forall|i: int| 0 <= i < steps@.len() implies views(steps@)[i] == (done
                        + diamonds + squares.take(4 * j + 4))[i] by {
                        if i < steps_before.len() {
                            assert(views(steps@)[i] == views(steps_before)[i]);
                            assert(views(steps_before)[i] == (done + diamonds + squares.take(
                                4 * j,
                            ))[i]);
                        }
                    }
                    assert(views(steps@) =~= done + diamonds + squares.take(4 * j + 4));
                }
                k = k + 1;
            }
            assert(squares.take(4 * k) =~= squares);
            positions = utility;
            level = level + 1;
        }
        steps
    }
}

} // verus!
