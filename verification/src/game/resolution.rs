//! Why following the diamond-square schedule leaves no cell unresolved.
//!
//! At the start only the four corners of the grid hold a value. A step may
//! read a cell only if a corner or an earlier step resolved it, and at the
//! end every cell must have been written. Both are shown here of the
//! schedule of every depth.

use vstd::prelude::*;
use vstd::arithmetic::power2::{
    lemma2_to64, lemma_pow2_adds, lemma_pow2_pos, lemma_pow2_unfold, pow2,
};
use crate::game::schedule::{
    anchors, axial, center, diagonal, diamond_phase, in_grid, lemma_anchor_margin, pick, reach_at,
    schedule, schedule_to, side, square_phase, StepKind, StepModel,
};

verus! {

/// Whether a cell is one of the four corners of the grid.
pub open spec fn is_corner(p: (int, int), side: int) -> bool {
    (p.0 == 0 || p.0 == side - 1) && (p.1 == 0 || p.1 == side - 1)
}

/// Whether a cell holds a value before step `k` is taken: it is a corner,
/// or an earlier step wrote it.
pub open spec fn resolved_before(steps: Seq<StepModel>, k: int, side: int, p: (int, int)) -> bool {
    is_corner(p, side) || exists|j: int|
        0 <= j < k && j < steps.len() && (#[trigger] steps[j]).target() == p
}

/// The lattice point with the given coordinates, counted in units of
/// `unit` cells.
spec fn spot(a: int, b: int, unit: int) -> (int, int) {
    (a * unit, b * unit)
}

/// The anchors of an iteration, counted in units of the iteration's reach.
spec fn unit_anchors(level: nat) -> Seq<(int, int)>
    decreases level,
{
    if level <= 1 {
        seq![(1int, 1int)]
    } else {
        let before = unit_anchors((level - 1) as nat);
        Seq::new(
            4 * before.len(),
            |k: int| diagonal((2 * before[k / 4].0, 2 * before[k / 4].1), k % 4, 1),
        )
    }
}

/// From one iteration to the next the reach halves, and the grid's span is
/// the reach times two to the power of the iteration's number.
proof fn lemma_reach_halves(n: nat, level: nat)
    requires
        1 <= level <= n,
    ensures
        reach_at(n, (level - 1) as nat) == 2 * reach_at(n, level),
        reach_at(n, level) > 0,
        pow2(n) == pow2(level) * reach_at(n, level),
        pow2(level) == 2 * pow2((level - 1) as nat),
{
    lemma_pow2_unfold((n - level + 1) as nat);
    lemma_pow2_unfold(level);
    lemma_pow2_pos((n - level) as nat);
    lemma_pow2_adds(level, (n - level) as nat);
}

/// A lattice point keeps its place when the unit doubles and its
/// coordinates halve.
proof fn lemma_spot_double(a: int, b: int, unit: int)
    ensures
        spot(2 * a, 2 * b, unit) == spot(a, b, 2 * unit),
{
    assert((2 * a) * unit == a * (2 * unit)) by (nonlinear_arith);
    assert((2 * b) * unit == b * (2 * unit)) by (nonlinear_arith);
}

/// Moving a lattice point by whole units moves its place by as many units.
proof fn lemma_spot_shift(a: int, b: int, da: int, db: int, unit: int)
    ensures
        spot(a + da, b + db, unit) == (
            spot(a, b, unit).0 + da * unit,
            spot(a, b, unit).1 + db * unit,
        ),
        1 * unit == unit,
        (-1) * unit == -unit,
        0 * unit == 0,
{
    assert((a + da) * unit == a * unit + da * unit) by (nonlinear_arith);
    assert((b + db) * unit == b * unit + db * unit) by (nonlinear_arith);
}

/// A coordinate whose place lies within the span lies within it in units.
proof fn lemma_spot_bounds(a: int, span: int, unit: int)
    requires
        unit > 0,
        0 <= a * unit <= span * unit,
    ensures
        0 <= a <= span,
{
    assert(0 <= a <= span) by (nonlinear_arith)
        requires
            unit > 0,
            0 <= a * unit <= span * unit,
    ;
}

/// Different coordinates have different places.
proof fn lemma_spot_apart(a: int, b: int, unit: int)
    requires
        unit > 0,
        a != b,
    ensures
        a * unit != b * unit,
{
    assert(a * unit != b * unit) by (nonlinear_arith)
        requires
            unit > 0,
            a != b,
    ;
}

/// The anchors are the unit anchors, scaled by the iteration's reach.
proof fn lemma_anchors_scaled(n: nat, level: nat, k: int)
    requires
        1 <= level <= n,
        0 <= k < unit_anchors(level).len(),
    ensures
        anchors(n, level).len() == unit_anchors(level).len(),
        anchors(n, level)[k] == spot(
            unit_anchors(level)[k].0,
            unit_anchors(level)[k].1,
            reach_at(n, level),
        ),
    decreases level,
{
    let unit = reach_at(n, level);
    lemma_reach_halves(n, level);
    if level <= 1 {
        lemma2_to64();
        lemma_spot_shift(0, 0, 1, 1, unit);
    } else {
        let before = (level - 1) as nat;
        lemma_anchors_scaled(n, before, k / 4);
        let u = unit_anchors(before)[k / 4];
        lemma_spot_double(u.0, u.1, unit);
        let q = k % 4;
        let da: int = if q == 0 || q == 1 { 1 } else { -1 };
        let db: int = if q == 0 || q == 2 { 1 } else { -1 };
        lemma_spot_shift(2 * u.0, 2 * u.1, da, db, unit);
    }
}

/// Every unit anchor has odd coordinates strictly inside the grid.
proof fn lemma_unit_anchor_odd(level: nat, k: int)
    requires
        1 <= level,
        0 <= k < unit_anchors(level).len(),
    ensures
        unit_anchors(level)[k].0 % 2 == 1,
        unit_anchors(level)[k].1 % 2 == 1,
        0 < unit_anchors(level)[k].0 < pow2(level),
        0 < unit_anchors(level)[k].1 < pow2(level),
    decreases level,
{
    lemma_pow2_unfold(level);
    if level <= 1 {
        lemma2_to64();
    } else {
        lemma_unit_anchor_odd((level - 1) as nat, k / 4);
    }
}

/// Every point with odd coordinates strictly inside the grid is a unit
/// anchor: the result is its index.
proof fn lemma_find_unit_anchor(level: nat, a: int, b: int) -> (k: int)
    requires
        1 <= level,
        a % 2 == 1,
        b % 2 == 1,
        0 < a < pow2(level),
        0 < b < pow2(level),
    ensures
        0 <= k < unit_anchors(level).len(),
        unit_anchors(level)[k] == (a, b),
    decreases level,
{
    lemma_pow2_unfold(level);
    if level <= 1 {
        lemma2_to64();
        0
    } else {
        lemma_pow2_unfold((level - 1) as nat);
        let ua: int = if a % 4 == 1 { (a + 1) / 2 } else { (a - 1) / 2 };
        let ub: int = if b % 4 == 1 { (b + 1) / 2 } else { (b - 1) / 2 };
        let parent = lemma_find_unit_anchor((level - 1) as nat, ua, ub);
        let q: int = if a % 4 == 3 {
            if b % 4 == 3 { 0 } else { 1 }
        } else {
            if b % 4 == 3 { 2 } else { 3 }
        };
        let k = 4 * parent + q;
        assert(k / 4 == parent && k % 4 == q);
        k
    }
}

/// What a longer schedule adds to a shorter one undoes nothing: a cell
/// resolved in a prefix is resolved in the whole, at any later step.
proof fn lemma_resolved_in_prefix(
    part: Seq<StepModel>,
    whole: Seq<StepModel>,
    k: int,
    later: int,
    side: int,
    p: (int, int),
)
    requires
        part.len() <= whole.len(),
        forall|j: int| 0 <= j < part.len() ==> #[trigger] whole[j] == part[j],
        k <= later,
        resolved_before(part, k, side, p),
    ensures
        resolved_before(whole, later, side, p),
{
    if !is_corner(p, side) {
        let j = choose|j: int| 0 <= j < k && j < part.len() && (#[trigger] part[j]).target() == p;
        assert(whole[j].target() == p);
    }
}

/// After iteration `level`, every point of the lattice of that iteration's
/// reach is resolved.
proof fn lemma_lattice_resolved(n: nat, level: nat, a: int, b: int)
    requires
        level <= n,
        0 <= a <= pow2(level),
        0 <= b <= pow2(level),
    ensures
        resolved_before(
            schedule_to(n, level),
            schedule_to(n, level).len() as int,
            side(n),
            spot(a, b, reach_at(n, level)),
        ),
    decreases level,
{
    let unit = reach_at(n, level);
    let whole = schedule_to(n, level);
    if level == 0 {
        lemma2_to64();
        lemma_spot_shift(0, 0, a, b, unit);
    } else {
        let before = (level - 1) as nat;
        let part = schedule_to(n, before);
        let at = anchors(n, level);
        let diamonds = diamond_phase(at, unit, center(n));
        let squares = square_phase(at, unit);
        lemma_reach_halves(n, level);
        assert(whole == part + diamonds + squares);
        if a % 2 == 0 && b % 2 == 0 {
            lemma_lattice_resolved(n, before, a / 2, b / 2);
            lemma_spot_double(a / 2, b / 2, unit);
            lemma_resolved_in_prefix(
                part,
                whole,
                part.len() as int,
                whole.len() as int,
                side(n),
                spot(a, b, unit),
            );
        } else if a % 2 == 1 && b % 2 == 1 {
            let k = lemma_find_unit_anchor(level, a, b);
            lemma_anchors_scaled(n, level, k);
            let j = part.len() + 2 * k;
            assert((2 * k) / 2 == k && (2 * k) % 2 == 0);
            assert(whole[j] == diamonds[2 * k]);
            assert(whole[j].target() == spot(a, b, unit));
        } else if a % 2 == 0 {
            let up = a < pow2(level);
            let a2 = if up { a + 1 } else { a - 1 };
            let q: int = if up { 1 } else { 0 };
            let k = lemma_find_unit_anchor(level, a2, b);
            lemma_anchors_scaled(n, level, k);
            lemma_spot_shift(a2, b, a - a2, 0, unit);
            let j = part.len() + diamonds.len() + 4 * k + q;
            assert((4 * k + q) / 4 == k && (4 * k + q) % 4 == q);
            assert(whole[j] == squares[4 * k + q]);
            assert(whole[j].target() == spot(a, b, unit));
        } else {
            let up = b < pow2(level);
            let b2 = if up { b + 1 } else { b - 1 };
            let q: int = if up { 3 } else { 2 };
            let k = lemma_find_unit_anchor(level, a, b2);
            lemma_anchors_scaled(n, level, k);
            lemma_spot_shift(a, b2, 0, b - b2, unit);
            let j = part.len() + diamonds.len() + 4 * k + q;
            assert((4 * k + q) / 4 == k && (4 * k + q) % 4 == q);
            assert(whole[j] == squares[4 * k + q]);
            assert(whole[j].target() == spot(a, b, unit));
        }
    }
}

/// Each cell that a step reads is one of its four neighbours, and lies in
/// the grid: the result is the neighbour's number.
proof fn lemma_source_is_neighbour(s: StepModel, side: int, i: int) -> (q: int)
    requires
        0 <= i < s.sources(side).len(),
    ensures
        0 <= q < 4,
        s.kind != StepKind::Center,
        s.sources(side)[i] == s.neighbour(q),
        in_grid(s.neighbour(q), side),
{
    let p0 = pick(s.neighbour(0), side);
    let p1 = pick(s.neighbour(1), side);
    let p2 = pick(s.neighbour(2), side);
    let p3 = pick(s.neighbour(3), side);
    assert(s.sources(side) == p0 + p1 + p2 + p3);
    if i < p0.len() {
        0
    } else if i < p0.len() + p1.len() {
        1
    } else if i < p0.len() + p1.len() + p2.len() {
        2
    } else {
        3
    }
}

/// An iteration has as many anchors as unit anchors.
proof fn lemma_anchor_count(n: nat, level: nat)
    ensures
        anchors(n, level).len() == unit_anchors(level).len(),
    decreases level,
{
    if level > 1 {
        lemma_anchor_count(n, (level - 1) as nat);
    }
}

/// A lattice point of iteration `level` that lies in the grid is resolved
/// once the iterations before are done, if its coordinates are even, and
/// once the diamond phase is done, if they are odd.
proof fn lemma_spot_resolved(n: nat, level: nat, x: int, y: int, k: int)
    requires
        1 <= level <= n,
        in_grid(spot(x, y, reach_at(n, level)), side(n)),
        x % 2 == y % 2,
        schedule_to(n, (level - 1) as nat).len() <= k,
        x % 2 == 1 ==> schedule_to(n, (level - 1) as nat).len() + 2 * anchors(n, level).len() <= k,
    ensures
        resolved_before(schedule_to(n, level), k, side(n), spot(x, y, reach_at(n, level))),
{
    let whole = schedule_to(n, level);
    let w = side(n);
    let before = (level - 1) as nat;
    let part = schedule_to(n, before);
    let unit = reach_at(n, level);
    let at = anchors(n, level);
    let diamonds = diamond_phase(at, unit, center(n));
    let squares = square_phase(at, unit);
    let p = spot(x, y, unit);
    lemma_reach_halves(n, level);
    assert(whole == part + diamonds + squares);
    lemma_spot_bounds(x, pow2(level) as int, unit);
    lemma_spot_bounds(y, pow2(level) as int, unit);
    if x % 2 == 0 {
        lemma_lattice_resolved(n, before, x / 2, y / 2);
        lemma_spot_double(x / 2, y / 2, unit);
        lemma_resolved_in_prefix(part, whole, part.len() as int, k, w, p);
    } else {
        let found = lemma_find_unit_anchor(level, x, y);
        lemma_anchors_scaled(n, level, found);
        let j = part.len() + 2 * found;
        assert((2 * found) / 2 == found && (2 * found) % 2 == 0);
        assert(whole[j] == diamonds[2 * found]);
        assert(whole[j].target() == p);
    }
}

/// The neighbour number `q` of a diamond step, in units of the reach: both
/// coordinates are even.
proof fn lemma_diamond_neighbour(n: nat, level: nat, j: int, q: int) -> (at: (int, int))
    requires
        1 <= level <= n,
        0 <= j < anchors(n, level).len(),
        0 <= q < 4,
    ensures
        diagonal(anchors(n, level)[j], q, reach_at(n, level)) == spot(
            at.0,
            at.1,
            reach_at(n, level),
        ),
        at.0 % 2 == 0,
        at.1 % 2 == 0,
{
    let unit = reach_at(n, level);
    lemma_anchor_count(n, level);
    lemma_anchors_scaled(n, level, j);
    lemma_unit_anchor_odd(level, j);
    let u = unit_anchors(level)[j];
    let da: int = if q == 0 || q == 1 { 1 } else { -1 };
    let db: int = if q == 0 || q == 2 { 1 } else { -1 };
    lemma_spot_shift(u.0, u.1, da, db, unit);
    (u.0 + da, u.1 + db)
}

/// The neighbour number `q` of the square step number `e` around an anchor,
/// in units of the reach: both coordinates are even, or both are odd.
proof fn lemma_square_neighbour(n: nat, level: nat, j: int, e: int, q: int) -> (at: (int, int))
    requires
        1 <= level <= n,
        0 <= j < anchors(n, level).len(),
        0 <= e < 4,
        0 <= q < 4,
    ensures
        axial(axial(anchors(n, level)[j], e, reach_at(n, level)), q, reach_at(n, level)) == spot(
            at.0,
            at.1,
            reach_at(n, level),
        ),
        at.0 % 2 == at.1 % 2,
{
    let unit = reach_at(n, level);
    lemma_anchor_count(n, level);
    lemma_anchors_scaled(n, level, j);
    lemma_unit_anchor_odd(level, j);
    let u = unit_anchors(level)[j];
    let da: int = if e == 0 { 1 } else if e == 1 { -1 } else { 0 };
    let db: int = if e == 2 { 1 } else if e == 3 { -1 } else { 0 };
    lemma_spot_shift(u.0, u.1, da, db, unit);
    let ea: int = if q == 0 { 1 } else if q == 1 { -1 } else { 0 };
    let eb: int = if q == 2 { 1 } else if q == 3 { -1 } else { 0 };
    lemma_spot_shift(u.0 + da, u.1 + db, ea, eb, unit);
    (u.0 + da + ea, u.1 + db + eb)
}

/// Up to any iteration, every cell that a step reads was resolved before
/// the step.
proof fn lemma_reads_resolved_to(n: nat, level: nat, k: int, i: int)
    requires
        level <= n,
        0 <= k < schedule_to(n, level).len(),
        0 <= i < schedule_to(n, level)[k].sources(side(n)).len(),
    ensures
        resolved_before(
            schedule_to(n, level),
            k,
            side(n),
            schedule_to(n, level)[k].sources(side(n))[i],
        ),
    decreases level,
{
    let whole = schedule_to(n, level);
    let w = side(n);
    let before = (level - 1) as nat;
    let part = schedule_to(n, before);
    let unit = reach_at(n, level);
    let at = anchors(n, level);
    let diamonds = diamond_phase(at, unit, center(n));
    let squares = square_phase(at, unit);
    assert(whole == part + diamonds + squares);
    let s = whole[k];
    let p = s.sources(w)[i];
    if k < part.len() {
        lemma_reads_resolved_to(n, before, k, i);
        lemma_resolved_in_prefix(part, whole, k, k, w, p);
    } else {
        let q = lemma_source_is_neighbour(s, w, i);
        if k < part.len() + diamonds.len() {
            let kk = k - part.len();
            assert(s == diamonds[kk]);
            let (x, y) = lemma_diamond_neighbour(n, level, kk / 2, q);
            lemma_spot_resolved(n, level, x, y, k);
        } else {
            let kk = k - part.len() - diamonds.len();
            assert(s == squares[kk]);
            let (x, y) = lemma_square_neighbour(n, level, kk / 4, kk % 4, q);
            lemma_spot_resolved(n, level, x, y, k);
        }
    }
}

/// Up to any iteration, every step writes a cell of the grid, a diamond
/// step finds all four of its neighbours in the grid, and a square step at
/// least three.
proof fn lemma_writes_in_grid_to(n: nat, level: nat, k: int)
    requires
        level <= n,
        0 <= k < schedule_to(n, level).len(),
    ensures
        in_grid(schedule_to(n, level)[k].target(), side(n)),
        schedule_to(n, level)[k].kind == StepKind::Diamond ==> schedule_to(n, level)[k].sources(
            side(n),
        ).len() == 4,
        schedule_to(n, level)[k].kind == StepKind::Square ==> 3 <= schedule_to(
            n,
            level,
        )[k].sources(side(n)).len() <= 4,
        !is_corner(schedule_to(n, level)[k].target(), side(n)),
    decreases level,
{
    let whole = schedule_to(n, level);
    let before = (level - 1) as nat;
    let part = schedule_to(n, before);
    let unit = reach_at(n, level);
    let at = anchors(n, level);
    let diamonds = diamond_phase(at, unit, center(n));
    let squares = square_phase(at, unit);
    assert(whole == part + diamonds + squares);
    lemma_reach_halves(n, level);
    if k < part.len() {
        lemma_writes_in_grid_to(n, before, k);
    } else if k < part.len() + diamonds.len() {
        let kk = k - part.len();
        assert(whole[k] == diamonds[kk]);
        lemma_anchor_margin(n, level, kk / 2);
    } else {
        let kk = k - part.len() - diamonds.len();
        assert(whole[k] == squares[kk]);
        lemma_anchor_margin(n, level, kk / 4);
    }
}

/// A cell that a step reads, in units of the reach of any iteration that
/// the step belongs to or that comes after it: both coordinates are even,
/// or, for a square step of that very iteration, both are even or both odd.
proof fn lemma_source_units(n: nat, level: nat, j: int, i: int) -> (at: (int, int))
    requires
        level <= n,
        0 <= j < schedule_to(n, level).len(),
        0 <= i < schedule_to(n, level)[j].sources(side(n)).len(),
    ensures
        schedule_to(n, level)[j].sources(side(n))[i] == spot(at.0, at.1, reach_at(n, level)),
        at.0 % 2 == at.1 % 2,
        j < schedule_to(n, (level - 1) as nat).len() + 2 * anchors(n, level).len() ==> at.0 % 2
            == 0,
    decreases level,
{
    let whole = schedule_to(n, level);
    let before = (level - 1) as nat;
    let part = schedule_to(n, before);
    let unit = reach_at(n, level);
    let at = anchors(n, level);
    let diamonds = diamond_phase(at, unit, center(n));
    let squares = square_phase(at, unit);
    assert(whole == part + diamonds + squares);
    lemma_reach_halves(n, level);
    let s = whole[j];
    if j < part.len() {
        let (x, y) = lemma_source_units(n, before, j, i);
        lemma_spot_double(x, y, unit);
        (2 * x, 2 * y)
    } else {
        let q = lemma_source_is_neighbour(s, side(n), i);
        if j < part.len() + diamonds.len() {
            let jj = j - part.len();
            assert(s == diamonds[jj]);
            lemma_diamond_neighbour(n, level, jj / 2, q)
        } else {
            let jj = j - part.len() - diamonds.len();
            assert(s == squares[jj]);
            lemma_square_neighbour(n, level, jj / 4, jj % 4, q)
        }
    }
}

/// The cell that a diamond or square step of an iteration writes, in units
/// of the iteration's reach: both coordinates are odd for a diamond step,
/// and one of the two for a square step.
proof fn lemma_target_units(n: nat, level: nat, k: int) -> (at: (int, int))
    requires
        1 <= level <= n,
        schedule_to(n, (level - 1) as nat).len() <= k < schedule_to(n, level).len(),
        schedule_to(n, level)[k].kind != StepKind::Center,
    ensures
        schedule_to(n, level)[k].target() == spot(at.0, at.1, reach_at(n, level)),
        k < schedule_to(n, (level - 1) as nat).len() + 2 * anchors(n, level).len() ==> at.0 % 2
            == 1 && at.1 % 2 == 1,
        k >= schedule_to(n, (level - 1) as nat).len() + 2 * anchors(n, level).len() ==> at.0 % 2
            != at.1 % 2,
{
    let whole = schedule_to(n, level);
    let part = schedule_to(n, (level - 1) as nat);
    let unit = reach_at(n, level);
    let at = anchors(n, level);
    let diamonds = diamond_phase(at, unit, center(n));
    let squares = square_phase(at, unit);
    assert(whole == part + diamonds + squares);
    lemma_anchor_count(n, level);
    if k < part.len() + diamonds.len() {
        let kk = k - part.len();
        assert(whole[k] == diamonds[kk]);
        lemma_anchors_scaled(n, level, kk / 2);
        lemma_unit_anchor_odd(level, kk / 2);
        unit_anchors(level)[kk / 2]
    } else {
        let kk = k - part.len() - diamonds.len();
        assert(whole[k] == squares[kk]);
        lemma_anchors_scaled(n, level, kk / 4);
        lemma_unit_anchor_odd(level, kk / 4);
        let u = unit_anchors(level)[kk / 4];
        let e = kk % 4;
        let da: int = if e == 0 { 1 } else if e == 1 { -1 } else { 0 };
        let db: int = if e == 2 { 1 } else if e == 3 { -1 } else { 0 };
        lemma_spot_shift(u.0, u.1, da, db, unit);
        (u.0 + da, u.1 + db)
    }
}

/// Up to any iteration, no diamond or square step writes a cell that it
/// reads itself or that an earlier step has read.
proof fn lemma_reads_final_to(n: nat, level: nat, j: int, k: int, i: int)
    requires
        level <= n,
        0 <= j <= k < schedule_to(n, level).len(),
        schedule_to(n, level)[k].kind != StepKind::Center,
        0 <= i < schedule_to(n, level)[j].sources(side(n)).len(),
    ensures
        schedule_to(n, level)[j].sources(side(n))[i] != schedule_to(n, level)[k].target(),
    decreases level,
{
    let whole = schedule_to(n, level);
    let before = (level - 1) as nat;
    let part = schedule_to(n, before);
    let unit = reach_at(n, level);
    let at = anchors(n, level);
    let diamonds = diamond_phase(at, unit, center(n));
    let squares = square_phase(at, unit);
    assert(whole == part + diamonds + squares);
    if k < part.len() {
        lemma_reads_final_to(n, before, j, k, i);
    } else {
        lemma_reach_halves(n, level);
        let (x, y) = lemma_source_units(n, level, j, i);
        let (a, b) = lemma_target_units(n, level, k);
        if x != a {
            lemma_spot_apart(x, a, unit);
        } else {
            lemma_spot_apart(y, b, unit);
        }
    }
}

/// No diamond or square step of the schedule writes a cell that it reads
/// itself or that an earlier step has read: but for the center, set anew
/// time and again, a cell holds its last value when it is first read.
pub proof fn lemma_reads_are_final(n: nat, j: int, k: int, i: int)
    requires
        0 <= j <= k < schedule(n).len(),
        schedule(n)[k].kind != StepKind::Center,
        0 <= i < schedule(n)[j].sources(side(n)).len(),
    ensures
        schedule(n)[j].sources(side(n))[i] != schedule(n)[k].target(),
{
    lemma_reads_final_to(n, n, j, k, i);
}

/// Up to any iteration from the first on, the second step is a center step.
proof fn lemma_second_step(n: nat, level: nat)
    requires
        1 <= level <= n,
    ensures
        schedule_to(n, level).len() >= 2,
        schedule_to(n, level)[0].target() == (center(n), center(n)),
        schedule_to(n, level)[1].kind == StepKind::Center,
    decreases level,
{
    let whole = schedule_to(n, level);
    let part = schedule_to(n, (level - 1) as nat);
    let at = anchors(n, level);
    let diamonds = diamond_phase(at, reach_at(n, level), center(n));
    let squares = square_phase(at, reach_at(n, level));
    assert(whole == part + diamonds + squares);
    if level == 1 {
        assert(part.len() == 0);
        assert(at.len() == 1);
        assert(whole[0] == diamonds[0]);
        assert(whole[1] == diamonds[1]);
    } else {
        lemma_second_step(n, (level - 1) as nat);
        assert(whole[0] == part[0]);
        assert(whole[1] == part[1]);
    }
}

/// Up to any iteration from the first on, the second step sets the center,
/// a center step writes the center, and from the third step on nothing else
/// does.
proof fn lemma_center_kept_to(n: nat, level: nat, k: int)
    requires
        1 <= level <= n,
        0 <= k < schedule_to(n, level).len(),
    ensures
        schedule_to(n, level).len() >= 2,
        schedule_to(n, level)[1].kind == StepKind::Center,
        schedule_to(n, level)[k].kind == StepKind::Center ==> schedule_to(n, level)[k].target() == (
            center(n),
            center(n),
        ),
        k >= 2 && schedule_to(n, level)[k].kind != StepKind::Center ==> schedule_to(
            n,
            level,
        )[k].target() != (center(n), center(n)),
    decreases level,
{
    let whole = schedule_to(n, level);
    let before = (level - 1) as nat;
    let part = schedule_to(n, before);
    let unit = reach_at(n, level);
    let at = anchors(n, level);
    let diamonds = diamond_phase(at, unit, center(n));
    let squares = square_phase(at, unit);
    assert(whole == part + diamonds + squares);
    lemma_reach_halves(n, level);
    lemma_anchor_count(n, level);
    lemma_second_step(n, level);
    if level == 1 {
        assert(part.len() == 0);
        assert(at.len() == 1);
        if k >= 2 {
            assert(whole[k] == squares[k - 2]);
        } else {
            assert(whole[k] == diamonds[k]);
        }
    } else {
        lemma_second_step(n, before);
        assert(whole[1] == part[1]);
        if k < part.len() {
            lemma_center_kept_to(n, before, k);
        } else {
            lemma_reach_halves(n, before);
            let half = pow2(before) as int;
            assert(center(n) == half * unit) by (nonlinear_arith)
                requires
                    center(n) == pow2(n) as int / 2,
                    pow2(n) == pow2(level) * unit,
                    pow2(level) == 2 * half,
            ;
            assert(half % 2 == 0);
            let (j, da, db): (int, int, int) = if k < part.len() + diamonds.len() {
                let kk = k - part.len();
                assert(whole[k] == diamonds[kk]);
                (kk / 2, 0, 0)
            } else {
                let kk = k - part.len() - diamonds.len();
                assert(whole[k] == squares[kk]);
                let e = kk % 4;
                (
                    kk / 4,
                    if e == 0 { 1 } else if e == 1 { -1 } else { 0 },
                    if e == 2 { 1 } else if e == 3 { -1 } else { 0 },
                )
            };
            lemma_anchors_scaled(n, level, j);
            lemma_unit_anchor_odd(level, j);
            let u = unit_anchors(level)[j];
            lemma_spot_shift(u.0, u.1, da, db, unit);
            if whole[k].kind != StepKind::Center {
                assert(whole[k].target() == spot(u.0 + da, u.1 + db, unit));
                if u.0 + da != half {
                    lemma_spot_apart(u.0 + da, half, unit);
                } else {
                    lemma_spot_apart(u.1 + db, half, unit);
                }
            }
        }
    }
}

/// The first step of the schedule of any depth from 1 on writes the
/// center, and the second is a center step.
pub proof fn lemma_second_step_sets_center(n: nat)
    requires
        1 <= n,
    ensures
        schedule(n).len() >= 2,
        schedule(n)[0].target() == (center(n), center(n)),
        schedule(n)[1].kind == StepKind::Center,
{
    lemma_second_step(n, n);
}

/// Once the schedule's first two steps are taken the center holds the
/// center constant for good: every center step writes that cell, and from
/// the third step on no step of another kind does.
pub proof fn lemma_center_is_kept(n: nat, k: int)
    requires
        0 <= k < schedule(n).len(),
    ensures
        schedule(n)[k].kind == StepKind::Center ==> schedule(n)[k].target() == (
            center(n),
            center(n),
        ),
        k >= 2 && schedule(n)[k].kind != StepKind::Center ==> schedule(n)[k].target() != (
            center(n),
            center(n),
        ),
{
    lemma_center_kept_to(n, n, k);
}

/// Every step of the schedule writes a cell of the grid, and none of them
/// a corner: the corners keep the value they started with.
pub proof fn lemma_writes_are_in_grid(n: nat, k: int)
    requires
        0 <= k < schedule(n).len(),
    ensures
        in_grid(schedule(n)[k].target(), side(n)),
        !is_corner(schedule(n)[k].target(), side(n)),
{
    lemma_writes_in_grid_to(n, n, k);
}

/// A diamond step of the schedule reads all four of its diagonal
/// neighbours, and a square step three or four of its axis neighbours: no
/// mean is taken of nothing.
pub proof fn lemma_reads_enough(n: nat, k: int)
    requires
        0 <= k < schedule(n).len(),
    ensures
        schedule(n)[k].kind == StepKind::Diamond ==> schedule(n)[k].sources(side(n)).len() == 4,
        schedule(n)[k].kind == StepKind::Square ==> 3 <= schedule(n)[k].sources(side(n)).len()
            <= 4,
        schedule(n)[k].kind == StepKind::Center ==> schedule(n)[k].sources(side(n)).len() == 0,
{
    lemma_writes_in_grid_to(n, n, k);
}

/// Every cell that a step of the schedule reads is a corner or was written
/// by an earlier step: no step reads a cell that holds no value yet.
pub proof fn lemma_reads_are_resolved(n: nat, k: int, i: int)
    requires
        0 <= k < schedule(n).len(),
        0 <= i < schedule(n)[k].sources(side(n)).len(),
    ensures
        in_grid(schedule(n)[k].sources(side(n))[i], side(n)),
        resolved_before(schedule(n), k, side(n), schedule(n)[k].sources(side(n))[i]),
{
    lemma_reads_resolved_to(n, n, k, i);
    let q = lemma_source_is_neighbour(schedule(n)[k], side(n), i);
}

/// When the schedule has been followed to its end, every cell of the grid
/// is a corner or was written by a step: none is left without a value.
pub proof fn lemma_every_cell_is_resolved(n: nat, row: int, col: int)
    requires
        in_grid((row, col), side(n)),
    ensures
        resolved_before(schedule(n), schedule(n).len() as int, side(n), (row, col)),
{
    lemma2_to64();
    lemma_pow2_adds(n, 0);
    lemma_lattice_resolved(n, n, row, col);
    lemma_spot_shift(0, 0, row, col, 1);
    assert(row * 1 == row && col * 1 == col) by (nonlinear_arith);
}

} // verus!
