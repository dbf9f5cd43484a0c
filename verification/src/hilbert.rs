//! The Hilbert curve on a square grid of `2^level` cells a side, and what a
//! stretch of it looks like on the ground.
//!
//! The curve visits every cell once, always stepping to a neighbour, and any
//! aligned run of `4^j` consecutive keys fills one square of side `2^j`. Those
//! two facts are what the rest of the crate builds on, and both are proved here.

use vstd::prelude::*;

verus! {

/// Cells along one edge of the grid at `level`: two to the power of it.
pub open spec fn side(level: nat) -> int
    decreases level,
{
    if level == 0 {
        1
    } else {
        2 * side((level - 1) as nat)
    }
}

/// Cells in the whole grid at `level`: four to the power of it.
pub open spec fn cells(level: nat) -> int
    decreases level,
{
    if level == 0 {
        1
    } else {
        4 * cells((level - 1) as nat)
    }
}

/// How many cells the curve has been through when it enters a quadrant, where
/// each quadrant holds `c` of them. The order is top-left, bottom-left,
/// bottom-right, top-right.
pub open spec fn passed(c: int, right: bool, down: bool) -> int {
    if right {
        if down {
            2 * c
        } else {
            3 * c
        }
    } else {
        if down {
            c
        } else {
            0
        }
    }
}

/// How the curve is turned inside a quadrant of side `s`: mirrored on one
/// diagonal in the first, on the other in the last, untouched in between. Each
/// turn undoes itself.
pub open spec fn turn(s: int, right: bool, down: bool, x: int, y: int) -> (int, int) {
    if down {
        (x, y)
    } else if right {
        (s - 1 - y, s - 1 - x)
    } else {
        (y, x)
    }
}

/// Position of cell `(x, y)` along the curve that fills the grid at `level`.
pub open spec fn key(level: nat, x: int, y: int) -> int
    decreases level,
{
    if level == 0 {
        0
    } else {
        let below = (level - 1) as nat;
        let s = side(below);
        let right = x >= s;
        let down = y >= s;
        let (u, v) = turn(
            s,
            right,
            down,
            if right { x - s } else { x },
            if down { y - s } else { y },
        );
        passed(cells(below), right, down) + key(below, u, v)
    }
}

/// The cell the curve is at when it has passed `d` others.
pub open spec fn cell(level: nat, d: int) -> (int, int)
    decreases level,
{
    if level == 0 {
        (0, 0)
    } else {
        let below = (level - 1) as nat;
        let s = side(below);
        let c = cells(below);
        let right = d >= 2 * c;
        let down = c <= d < 3 * c;
        let (p, q) = cell(below, d - passed(c, right, down));
        let (u, v) = turn(s, right, down, p, q);
        (if right { u + s } else { u }, if down { v + s } else { v })
    }
}

/// Whether `(x, y)` lies on the grid at `level`.
pub open spec fn on_grid(level: nat, x: int, y: int) -> bool {
    0 <= x < side(level) && 0 <= y < side(level)
}

/// Whether two cells share an edge.
pub open spec fn adjacent(a: (int, int), b: (int, int)) -> bool {
    ||| a.0 == b.0 && (a.1 - b.1 == 1 || b.1 - a.1 == 1)
    ||| a.1 == b.1 && (a.0 - b.0 == 1 || b.0 - a.0 == 1)
}

pub(crate) proof fn lemma_side_positive(level: nat)
    ensures
        side(level) >= 1,
    decreases level,
{
    if level > 0 {
        lemma_side_positive((level - 1) as nat);
    }
}

pub(crate) proof fn lemma_cells_square(level: nat)
    ensures
        cells(level) == side(level) * side(level),
        cells(level) >= 1,
        side(level) >= 1,
    decreases level,
{
    if level > 0 {
        let s = side((level - 1) as nat);
        lemma_cells_square((level - 1) as nat);
        assert((2 * s) * (2 * s) == 4 * (s * s)) by (nonlinear_arith);
    }
}

pub(crate) proof fn lemma_side_adds(a: nat, b: nat)
    ensures
        side(a + b) == side(a) * side(b),
    decreases a,
{
    if a > 0 {
        let p = (a - 1) as nat;
        lemma_side_adds(p, b);
        assert((a + b - 1) as nat == p + b);
        assert((2 * side(p)) * side(b) == 2 * (side(p) * side(b))) by (nonlinear_arith);
    }
}

pub(crate) proof fn lemma_cells_adds(a: nat, b: nat)
    ensures
        cells(a + b) == cells(a) * cells(b),
    decreases a,
{
    if a > 0 {
        let p = (a - 1) as nat;
        lemma_cells_adds(p, b);
        assert((a + b - 1) as nat == p + b);
        assert((4 * cells(p)) * cells(b) == 4 * (cells(p) * cells(b))) by (nonlinear_arith);
    }
}

pub(crate) proof fn lemma_grows(a: nat, b: nat)
    requires
        a <= b,
    ensures
        side(a) <= side(b),
        cells(a) <= cells(b),
    decreases b,
{
    if a < b {
        lemma_grows(a, (b - 1) as nat);
        lemma_cells_square((b - 1) as nat);
    }
}

/// The two measures at the deepest level a pair of 32-bit coordinates reaches.
pub(crate) proof fn lemma_widths()
    ensures
        side(32) == 0x1_0000_0000,
        cells(32) == 0x1_0000_0000_0000_0000,
        side(31) == 0x8000_0000,
        side(24) == 0x100_0000,
        cells(24) == 0x1_0000_0000_0000,
{
    reveal_with_fuel(side, 33);
    reveal_with_fuel(cells, 33);
}

/// Every key the curve hands out lies below the number of cells, and every cell
/// it visits lies on the grid.
pub proof fn law_curve_stays_on_the_grid(level: nat, x: int, y: int, d: int)
    ensures
        on_grid(level, x, y) ==> 0 <= key(level, x, y) < cells(level),
        0 <= d < cells(level) ==> on_grid(level, cell(level, d).0, cell(level, d).1),
    decreases level,
{
    lemma_cells_square(level);
    if level > 0 {
        let below = (level - 1) as nat;
        let s = side(below);
        let c = cells(below);
        lemma_cells_square(below);
        let (u, v) = turn(
            s,
            x >= s,
            y >= s,
            if x >= s { x - s } else { x },
            if y >= s { y - s } else { y },
        );
        let rest = d - passed(c, d >= 2 * c, c <= d < 3 * c);
        law_curve_stays_on_the_grid(below, u, v, rest);
    }
}

/// The curve passes through each cell exactly once: a cell's key leads back to
/// the cell, and a key's cell back to the key.
pub proof fn law_key_and_cell_are_inverse(level: nat, x: int, y: int, d: int)
    ensures
        on_grid(level, x, y) ==> cell(level, key(level, x, y)) == (x, y),
        0 <= d < cells(level) ==> key(level, cell(level, d).0, cell(level, d).1) == d,
    decreases level,
{
    law_curve_stays_on_the_grid(level, x, y, d);
    if level > 0 {
        let below = (level - 1) as nat;
        let s = side(below);
        let c = cells(below);
        lemma_cells_square(below);
        let (u, v) = turn(
            s,
            x >= s,
            y >= s,
            if x >= s { x - s } else { x },
            if y >= s { y - s } else { y },
        );
        let rest = d - passed(c, d >= 2 * c, c <= d < 3 * c);
        law_key_and_cell_are_inverse(below, u, v, rest);
        law_curve_stays_on_the_grid(below, u, v, rest);
    }
}

/// The curve enters the grid at one end of its top row and leaves at the other.
proof fn lemma_ends(level: nat)
    ensures
        cell(level, 0) == (0int, 0int),
        cell(level, cells(level) - 1) == (side(level) - 1, 0int),
    decreases level,
{
    lemma_cells_square(level);
    if level > 0 {
        let below = (level - 1) as nat;
        lemma_cells_square(below);
        lemma_ends(below);
    }
}

/// Consecutive keys are cells that share an edge: the curve never jumps.
pub proof fn law_curve_walks(level: nat, d: int)
    requires
        0 <= d,
        d + 1 < cells(level),
    ensures
        adjacent(cell(level, d), cell(level, d + 1)),
    decreases level,
{
    if level > 0 {
        let below = (level - 1) as nat;
        let s = side(below);
        let c = cells(below);
        lemma_cells_square(below);
        lemma_ends(below);
        let rest = d - passed(c, d >= 2 * c, c <= d < 3 * c);
        if rest + 1 < c {
            law_curve_walks(below, rest);
        }
    }
}

/// Whether `(x, y)` lies in the square of side `edge` whose top-left cell is
/// `(left, top)`.
pub open spec fn in_square(left: int, top: int, edge: int, x: int, y: int) -> bool {
    left <= x < left + edge && top <= y < top + edge
}

/// Keys with the same quotient by `4^j` lie in one square of side `2^j`, and
/// where that square stands is the curve of the coarser grid.
proof fn lemma_run_in_square(level: nat, j: nat, m: int, r: int)
    requires
        j <= level,
        0 <= m < cells((level - j) as nat),
        0 <= r < cells(j),
    ensures
        in_square(
            cell((level - j) as nat, m).0 * side(j),
            cell((level - j) as nat, m).1 * side(j),
            side(j),
            cell(level, m * cells(j) + r).0,
            cell(level, m * cells(j) + r).1,
        ),
    decreases level,
{
    lemma_cells_square(j);
    let d = m * cells(j) + r;
    if level == j {
        assert(m == 0);
        assert(0 * cells(j) == 0 && 0 * side(j) == 0);
        law_curve_stays_on_the_grid(level, 0, 0, r);
    } else {
        let below = (level - 1) as nat;
        let coarse = (level - j - 1) as nat;
        let s = side(below);
        let c = cells(below);
        let sm = side(coarse);
        let cm = cells(coarse);
        let e = side(j);
        let f = cells(j);
        lemma_side_adds(coarse, j);
        lemma_cells_adds(coarse, j);
        lemma_cells_square(coarse);
        assert(coarse + j == below);
        assert(((level - j) as nat - 1) as nat == coarse);
        let right = m >= 2 * cm;
        let down = cm <= m < 3 * cm;
        assert(forall|k: int| #![trigger k * cm] 0 <= k <= 3 ==> (m >= k * cm <==> d >= k * c)) by {
            assert forall|k: int| #![trigger k * cm] 0 <= k <= 3 implies (m >= k * cm <==> d >= k
                * c) by {
                assert(m >= k * cm ==> m * f >= (k * cm) * f) by (nonlinear_arith)
                    requires
                        f >= 1,
                ;
                assert(m + 1 <= k * cm ==> (m + 1) * f <= (k * cm) * f) by (nonlinear_arith)
                    requires
                        f >= 1,
                ;
                assert((k * cm) * f == k * (cm * f)) by (nonlinear_arith);
                assert((m + 1) * f == m * f + f) by (nonlinear_arith);
            }
        }
        assert(1 * cm == cm && 2 * cm == cm + cm && 3 * cm == cm + cm + cm);
        assert(1 * c == c && 2 * c == c + c && 3 * c == c + c + c);
        assert(right == (d >= 2 * c));
        assert(down == (c <= d < 3 * c));
        let mm = m - passed(cm, right, down);
        let dd = d - passed(c, right, down);
        assert(dd == mm * f + r) by {
            assert((m - cm) * f == m * f - cm * f) by (nonlinear_arith);
            assert((m - 2 * cm) * f == m * f - 2 * (cm * f)) by (nonlinear_arith);
            assert((m - 3 * cm) * f == m * f - 3 * (cm * f)) by (nonlinear_arith);
        }
        lemma_run_in_square(below, j, mm, r);
        assert((below - j) as nat == coarse);
        let (xm, ym) = cell(coarse, mm);
        law_curve_stays_on_the_grid(coarse, 0, 0, mm);
        assert((sm - 1 - ym) * e == sm * e - e - ym * e) by (nonlinear_arith);
        assert((sm - 1 - xm) * e == sm * e - e - xm * e) by (nonlinear_arith);
        assert((xm + sm) * e == xm * e + sm * e) by (nonlinear_arith);
        assert((ym + sm) * e == ym * e + sm * e) by (nonlinear_arith);
        assert(((sm - 1 - ym) + sm) * e == (sm - 1 - ym) * e + sm * e) by (nonlinear_arith);
        let (p, q) = cell(below, dd);
        let (u, v) = turn(s, right, down, p, q);
        assert(cell(level, d) == (if right { u + s } else { u }, if down { v + s } else { v }));
        let (um, vm) = turn(sm, right, down, xm, ym);
        assert(cell((level - j) as nat, m) == (
            if right { um + sm } else { um },
            if down { vm + sm } else { vm },
        ));
    }
}

proof fn lemma_square_unique(a: int, b: int, e: int, x: int)
    requires
        e >= 1,
        a * e <= x < a * e + e,
        b * e <= x < b * e + e,
    ensures
        a == b,
{
    assert(a < b ==> (a + 1) * e <= b * e) by (nonlinear_arith)
        requires
            e >= 1,
    ;
    assert(b < a ==> (b + 1) * e <= a * e) by (nonlinear_arith)
        requires
            e >= 1,
    ;
    assert((a + 1) * e == a * e + e) by (nonlinear_arith);
    assert((b + 1) * e == b * e + e) by (nonlinear_arith);
}

/// Any aligned run of `4^j` keys, the `m`-th of them, is exactly one square of
/// side `2^j`: a cell lies in the square if and only if its key lies in the run.
pub proof fn law_aligned_runs_are_squares(level: nat, j: nat, m: int, x: int, y: int)
    requires
        j <= level,
        0 <= m < cells((level - j) as nat),
        on_grid(level, x, y),
    ensures
        in_square(
            cell((level - j) as nat, m).0 * side(j),
            cell((level - j) as nat, m).1 * side(j),
            side(j),
            x,
            y,
        ) <==> m * cells(j) <= key(level, x, y) < (m + 1) * cells(j),
{
    let coarse = (level - j) as nat;
    let f = cells(j);
    let e = side(j);
    lemma_cells_square(j);
    lemma_cells_adds(coarse, j);
    assert(coarse + j == level);
    law_curve_stays_on_the_grid(level, x, y, 0);
    law_key_and_cell_are_inverse(level, x, y, 0);
    let d = key(level, x, y);
    let n = d / f;
    let r = d % f;
    assert(d == n * f + r && 0 <= r < f) by {
        vstd::arithmetic::div_mod::lemma_fundamental_div_mod(d, f);
        vstd::arithmetic::mul::lemma_mul_is_commutative(f, n);
    }
    assert(0 <= n < cells(coarse)) by (nonlinear_arith)
        requires
            d == n * f + r,
            0 <= r < f,
            0 <= d < cells(coarse) * f,
    ;
    lemma_run_in_square(level, j, n, r);
    assert((m + 1) * f == m * f + f) by (nonlinear_arith);
    let a = cell(coarse, n);
    let b = cell(coarse, m);
    if in_square(b.0 * e, b.1 * e, e, x, y) {
        lemma_square_unique(a.0, b.0, e, x);
        lemma_square_unique(a.1, b.1, e, y);
        law_key_and_cell_are_inverse(coarse, 0, 0, n);
        law_key_and_cell_are_inverse(coarse, 0, 0, m);
    }
    if m * f <= d < m * f + f {
        lemma_square_unique(n, m, f, d);
    }
}

proof fn lemma_side_is_power(level: nat)
    ensures
        side(level) == vstd::arithmetic::power2::pow2(level),
        cells(level) == vstd::arithmetic::power2::pow2(2 * level),
    decreases level,
{
    vstd::arithmetic::power2::lemma2_to64();
    if level > 0 {
        lemma_side_is_power((level - 1) as nat);
        vstd::arithmetic::power2::lemma_pow2_unfold(level);
        vstd::arithmetic::power2::lemma_pow2_unfold(2 * level);
        vstd::arithmetic::power2::lemma_pow2_unfold((2 * level - 1) as nat);
        assert((2 * level - 2) as nat == 2 * ((level - 1) as nat));
    }
}

/// [`side`] as a machine word.
pub fn edge_of(level: u32) -> (n: u64)
    requires
        level <= 32,
    ensures
        n == side(level as nat),
{
    proof {
        lemma_side_is_power(level as nat);
        lemma_grows(level as nat, 32);
        lemma_widths();
        vstd::bits::lemma_u64_shl_is_mul(1, level as u64);
    }
    1u64 << level
}

/// [`cells`] as a machine word.
pub fn cells_of(level: u32) -> (n: u64)
    requires
        level <= 31,
    ensures
        n == cells(level as nat),
{
    proof {
        lemma_side_is_power(level as nat);
        lemma_grows(level as nat, 31);
        lemma_widths();
        lemma_cells_square(31);
        vstd::bits::lemma_u64_shl_is_mul(1, (2 * level) as u64);
    }
    1u64 << (2 * level)
}

/// Hilbert index of cell `(x, y)` on a `2^level` square. Only the low `level`
/// bits of a coordinate are read.
pub fn hilbert(level: u32, x: u32, y: u32) -> (d: u64)
    requires
        1 <= level <= 32,
    ensures
        d == key(
            level as nat,
            x as int % side(level as nat),
            y as int % side(level as nat),
        ),
{
    let n: u64 = edge_of(level);
    proof {
        lemma_side_positive(level as nat);
        lemma_grows(level as nat, 32);
        lemma_widths();
    }
    let mut x: u64 = x as u64 % n;
    let mut y: u64 = y as u64 % n;
    let mut d: u64 = 0;
    let mut s: u64 = n / 2;
    let ghost goal = key(level as nat, x as int, y as int);
    proof {
        law_curve_stays_on_the_grid(level as nat, x as int, y as int, 0);
    }
    let ghost mut left: nat = level as nat;
    while s > 0
        invariant
            left <= 32,
            goal < 0x1_0000_0000_0000_0000,
            s == (if left == 0 { 0 } else { side((left - 1) as nat) }),
            on_grid(left, x as int, y as int),
            d + key(left, x as int, y as int) == goal,
            0 <= key(left, x as int, y as int),
        decreases left,
    {
        let right = x >= s;
        let down = y >= s;
        let ghost below = (left - 1) as nat;
        proof {
            lemma_cells_square(below);
            lemma_grows(below, 31);
            lemma_widths();
            if below > 0 {
                lemma_side_positive((below - 1) as nat);
            }
            assert(s * s <= 0x8000_0000 * 0x8000_0000) by (nonlinear_arith)
                requires
                    0 <= s <= 0x8000_0000,
            ;
        }
        let u: u64 = if right { x - s } else { x };
        let v: u64 = if down { y - s } else { y };
        let ghost turned = turn(s as int, right, down, u as int, v as int);
        proof {
            law_curve_stays_on_the_grid(below, turned.0, turned.1, 0);
        }
        let c: u64 = s * s;
        if down {
            d = d + if right { 2 * c } else { c };
            x = u;
            y = v;
        } else if right {
            d = d + 3 * c;
            x = s - 1 - v;
            y = s - 1 - u;
        } else {
            x = v;
            y = u;
        }
        s = s / 2;
        proof {
            left = below;
        }
    }
    d
}

proof fn lemma_digit(d: int, c: int)
    requires
        d >= 0,
        c >= 1,
    ensures
        (d % (4 * c)) % c == d % c,
        d / c / 4 == d / (4 * c),
        d / c % 4 == 0 ==> d % (4 * c) == d % c,
        d / c % 4 == 1 ==> d % (4 * c) == c + d % c,
        d / c % 4 == 2 ==> d % (4 * c) == 2 * c + d % c,
        d / c % 4 == 3 ==> d % (4 * c) == 3 * c + d % c,
{
    vstd::arithmetic::div_mod::lemma_breakdown(d, c, 4);
    vstd::arithmetic::div_mod::lemma_div_denominator(d, c, 4);
    vstd::arithmetic::div_mod::lemma_mod_mod(d, c, 4);
    assert(c * 4 == 4 * c);
    assert(c * 0 == 0 && c * 1 == c && c * 2 == 2 * c && c * 3 == 3 * c);
}

/// The cell at Hilbert index `d`. Inverse of [`hilbert`]. Only the low
/// `2 * level` bits of the index are read.
pub fn cell_at(level: u32, d: u64) -> (at: (u32, u32))
    requires
        level <= 32,
    ensures
        (at.0 as int, at.1 as int) == cell(level as nat, d as int % cells(level as nat)),
{
    let mut x: u64 = 0;
    let mut y: u64 = 0;
    let mut t: u64 = d;
    let mut s: u64 = 1;
    let mut done: u32 = 0;
    proof {
        lemma_widths();
    }
    while done < level
        invariant
            done <= level <= 32,
            s == side(done as nat),
            t == d as int / cells(done as nat),
            (x as int, y as int) == cell(done as nat, d as int % cells(done as nat)),
            on_grid(done as nat, x as int, y as int),
            side(32) == 0x1_0000_0000,
        decreases level - done,
    {
        let ghost c = cells(done as nat);
        let ghost part = d as int % c;
        proof {
            lemma_cells_square(done as nat);
            lemma_digit(d as int, c);
            lemma_grows((done + 1) as nat, 32);
            vstd::arithmetic::div_mod::lemma_mod_bound(d as int, c);
        }
        let q: u64 = t % 4;
        let right = q >= 2;
        let down = q == 1 || q == 2;
        let ghost whole = d as int % (4 * c);
        assert(whole - passed(c, right, down) == part);
        assert(right == (whole >= 2 * c));
        assert(down == (c <= whole < 3 * c));
        let (u, v): (u64, u64) = if down {
            (x, y)
        } else if right {
            (s - 1 - y, s - 1 - x)
        } else {
            (y, x)
        };
        x = if right { u + s } else { u };
        y = if down { v + s } else { v };
        t = t / 4;
        s = s * 2;
        done = done + 1;
        assert(cells(done as nat) == 4 * c);
    }
    proof {
        lemma_grows(level as nat, 32);
    }
    (x as u32, y as u32)
}

/// Whether an aligned run of `4^j` keys starts at `a` and ends by `b`.
pub open spec fn run_fits(j: nat, a: int, b: int) -> bool {
    a % cells(j) == 0 && a + cells(j) <= b
}

/// The largest `j`, up to `most`, whose aligned run starting at `a` ends by `b`.
pub open spec fn largest_run(most: nat, a: int, b: int) -> nat
    decreases most,
{
    if most == 0 || run_fits(most, a, b) {
        most
    } else {
        largest_run((most - 1) as nat, a, b)
    }
}

/// The square filled by the aligned run of `4^j` keys that starts at `a`, as its
/// left column, its top row and its side.
pub open spec fn square_at(level: nat, j: nat, a: int) -> (int, int, int) {
    let (x, y) = cell((level - j) as nat, a / cells(j));
    (x * side(j), y * side(j), side(j))
}

/// The interval `[a, b)` of the curve chopped into maximal aligned runs, each as
/// the square it fills.
pub open spec fn squares(level: nat, a: int, b: int) -> Seq<(int, int, int)>
    decreases b - a,
{
    let run = cells(largest_run(level, a, b));
    if 0 <= a < b && 1 <= run <= b - a {
        seq![square_at(level, largest_run(level, a, b), a)] + squares(level, a + run, b)
    } else {
        Seq::empty()
    }
}

proof fn lemma_run_shrinks(j: nat, k: nat, a: int, b: int)
    requires
        j <= k,
        run_fits(k, a, b),
    ensures
        run_fits(j, a, b),
    decreases k,
{
    if j < k {
        let below = (k - 1) as nat;
        let c = cells(below);
        lemma_cells_square(below);
        assert(a % c == 0) by {
            vstd::arithmetic::div_mod::lemma_mod_mod(a, c, 4);
            assert(c * 4 == cells(k));
            assert(0int % c == 0) by {
                vstd::arithmetic::div_mod::lemma_small_mod(0, c as nat);
            }
        }
        lemma_run_shrinks(j, below, a, b);
    }
}

proof fn lemma_largest_run(most: nat, a: int, b: int)
    requires
        0 <= a < b,
    ensures
        largest_run(most, a, b) <= most,
        run_fits(largest_run(most, a, b), a, b),
    decreases most,
{
    if most == 0 {
        assert(cells(0) == 1);
        assert(a % 1 == 0);
    } else if !run_fits(most, a, b) {
        lemma_largest_run((most - 1) as nat, a, b);
    }
}

proof fn lemma_largest_run_is(most: nat, j: nat, a: int, b: int)
    requires
        j <= most,
        run_fits(j, a, b),
        j == most || !run_fits(j + 1, a, b),
    ensures
        largest_run(most, a, b) == j,
    decreases most,
{
    if j < most {
        if run_fits(most, a, b) {
            lemma_run_shrinks(j + 1, most, a, b);
        }
        lemma_largest_run_is((most - 1) as nat, j, a, b);
    }
}

/// A square of the decomposition holds exactly the cells of its run.
proof fn lemma_square_at(level: nat, j: nat, a: int, b: int, x: int, y: int)
    requires
        j <= level,
        0 <= a < b <= cells(level),
        run_fits(j, a, b),
    ensures
        0 <= a / cells(j) < cells((level - j) as nat),
        a == (a / cells(j)) * cells(j),
        0 <= square_at(level, j, a).0,
        square_at(level, j, a).0 + side(j) <= side(level),
        0 <= square_at(level, j, a).1,
        square_at(level, j, a).1 + side(j) <= side(level),
        on_grid(level, x, y) ==> (in_square(
            square_at(level, j, a).0,
            square_at(level, j, a).1,
            square_at(level, j, a).2,
            x,
            y,
        ) <==> a <= key(level, x, y) < a + cells(j)),
{
    let f = cells(j);
    let e = side(j);
    let coarse = (level - j) as nat;
    let m = a / f;
    lemma_cells_square(j);
    lemma_cells_square(coarse);
    lemma_cells_adds(coarse, j);
    lemma_side_adds(coarse, j);
    assert(coarse + j == level);
    vstd::arithmetic::div_mod::lemma_fundamental_div_mod(a, f);
    assert(f * m == m * f) by (nonlinear_arith);
    assert(0 <= m < cells(coarse)) by (nonlinear_arith)
        requires
            a == m * f,
            0 <= a < cells(coarse) * f,
            f >= 1,
    ;
    assert((m + 1) * f == m * f + f) by (nonlinear_arith);
    law_curve_stays_on_the_grid(coarse, 0, 0, m);
    let (p, q) = cell(coarse, m);
    let n = side(coarse);
    assert(0 <= p * e && p * e + e <= n * e) by (nonlinear_arith)
        requires
            0 <= p < n,
            e >= 1,
    ;
    assert(0 <= q * e && q * e + e <= n * e) by (nonlinear_arith)
        requires
            0 <= q < n,
            e >= 1,
    ;
    if on_grid(level, x, y) {
        law_aligned_runs_are_squares(level, j, m, x, y);
    }
}

/// Whether `(x, y)` lies in one of the squares from index `from` on.
pub open spec fn covered(quads: Seq<(int, int, int)>, x: int, y: int) -> bool {
    exists|i: int| 0 <= i < quads.len() && #[trigger] in_square(
        quads[i].0,
        quads[i].1,
        quads[i].2,
        x,
        y,
    )
}

/// The squares of an interval are exactly the interval: a cell lies in one of
/// them if and only if its key lies in `[a, b)`.
pub proof fn law_squares_cover_the_interval(level: nat, a: int, b: int, x: int, y: int)
    requires
        0 <= a <= b <= cells(level),
        on_grid(level, x, y),
    ensures
        covered(squares(level, a, b), x, y) <==> a <= key(level, x, y) < b,
    decreases b - a,
{
    let all = squares(level, a, b);
    if a < b {
        let j = largest_run(level, a, b);
        lemma_largest_run(level, a, b);
        lemma_cells_square(j);
        lemma_square_at(level, j, a, b, x, y);
        let first = square_at(level, j, a);
        let rest = squares(level, a + cells(j), b);
        law_squares_cover_the_interval(level, a + cells(j), b, x, y);
        assert(all =~= seq![first] + rest);
        if covered(all, x, y) {
            let i = choose|i: int|
                0 <= i < all.len() && #[trigger] in_square(all[i].0, all[i].1, all[i].2, x, y);
            if i > 0 {
                assert(all[i] == rest[i - 1]);
                assert(covered(rest, x, y));
            }
        }
        if a <= key(level, x, y) < a + cells(j) {
            assert(in_square(all[0].0, all[0].1, all[0].2, x, y));
        } else if covered(rest, x, y) {
            let i = choose|i: int|
                0 <= i < rest.len() && #[trigger] in_square(rest[i].0, rest[i].1, rest[i].2, x, y);
            assert(all[i + 1] == rest[i]);
            assert(in_square(all[i + 1].0, all[i + 1].1, all[i + 1].2, x, y));
        }
    } else {
        assert(all =~= Seq::empty());
    }
}

/// No cell lies in two of an interval's squares.
pub proof fn law_squares_are_disjoint(
    level: nat,
    a: int,
    b: int,
    i: int,
    k: int,
    x: int,
    y: int,
)
    requires
        0 <= a <= b <= cells(level),
        on_grid(level, x, y),
        0 <= i < k < squares(level, a, b).len(),
    ensures
        !({
            let p = squares(level, a, b)[i];
            let q = squares(level, a, b)[k];
            in_square(p.0, p.1, p.2, x, y) && in_square(q.0, q.1, q.2, x, y)
        }),
    decreases b - a,
{
    let all = squares(level, a, b);
    if a < b {
        let j = largest_run(level, a, b);
        lemma_largest_run(level, a, b);
        lemma_cells_square(j);
        lemma_square_at(level, j, a, b, x, y);
        let rest = squares(level, a + cells(j), b);
        assert(all =~= seq![square_at(level, j, a)] + rest);
        if i > 0 {
            law_squares_are_disjoint(level, a + cells(j), b, i - 1, k - 1, x, y);
        } else {
            law_squares_cover_the_interval(level, a + cells(j), b, x, y);
            let q = rest[k - 1];
            if in_square(q.0, q.1, q.2, x, y) {
                assert(covered(rest, x, y));
            }
        }
    }
}

proof fn lemma_squares_on_grid(level: nat, a: int, b: int, i: int)
    requires
        0 <= a <= b <= cells(level),
        0 <= i < squares(level, a, b).len(),
    ensures
        ({
            let q = squares(level, a, b)[i];
            &&& q.2 >= 1
            &&& 0 <= q.0 && q.0 + q.2 <= side(level)
            &&& 0 <= q.1 && q.1 + q.2 <= side(level)
        }),
    decreases b - a,
{
    let all = squares(level, a, b);
    if a < b {
        let j = largest_run(level, a, b);
        lemma_largest_run(level, a, b);
        lemma_cells_square(j);
        lemma_square_at(level, j, a, b, 0, 0);
        let rest = squares(level, a + cells(j), b);
        assert(all =~= seq![square_at(level, j, a)] + rest);
        if i > 0 {
            lemma_squares_on_grid(level, a + cells(j), b, i - 1);
        }
    }
}

/// A square of grid cells: its left column, its top row and its side.
#[derive(Clone, Copy, Debug, PartialEq, Eq, Structural)]
pub struct Quad {
    pub x: u32,
    pub y: u32,
    pub side: u32,
}

impl View for Quad {
    type V = (int, int, int);

    open spec fn view(&self) -> (int, int, int) {
        (self.x as int, self.y as int, self.side as int)
    }
}

/// A list of quads as plain triples.
pub open spec fn quads_view(quads: Seq<Quad>) -> Seq<(int, int, int)> {
    quads.map_values(|q: Quad| q@)
}

/// Rounds a coordinate down to a multiple of a square's side.
fn corner(x: u32, side: u32, Ghost(left): Ghost<int>) -> (c: u32)
    requires
        side >= 1,
        left * side <= x < left * side + side,
    ensures
        c == left * side,
{
    proof {
        vstd::arithmetic::div_mod::lemma_fundamental_div_mod_converse(
            x as int,
            side as int,
            left,
            x - left * side,
        );
        vstd::arithmetic::mul::lemma_mul_is_commutative(left, side as int);
    }
    x - x % side
}

/// The Hilbert interval `[a, b)` as squares of cells, one for each of the
/// maximal aligned runs it is made of, in the order the curve meets them.
pub fn quads_of(level: u32, a: u64, b: u64) -> (quads: Vec<Quad>)
    requires
        level <= 31,
        b <= cells(level as nat),
    ensures
        quads_view(quads@) == squares(level as nat, a as int, b as int),
{
    let mut quads: Vec<Quad> = Vec::new();
    let mut at: u64 = a;
    proof {
        lemma_widths();
        lemma_cells_square(31);
        lemma_grows(level as nat, 31);
        assert(quads_view(quads@) =~= Seq::<(int, int, int)>::empty());
    }
    while at < b
        invariant
            level <= 31,
            b <= cells(level as nat) <= 0x4000_0000_0000_0000,
            quads_view(quads@) + squares(level as nat, at as int, b as int) == squares(
                level as nat,
                a as int,
                b as int,
            ),
        decreases b - at,
    {
        let mut j: u32 = 0;
        let mut run: u64 = 1;
        let mut side: u64 = 1;
        assert(cells(0) == 1 && at as int % 1 == 0);
        while j < level && at % (4 * run) == 0 && 4 * run <= b - at
            invariant
                j <= level <= 31,
                at < b <= cells(level as nat) <= 0x4000_0000_0000_0000,
                run == cells(j as nat),
                1 <= run <= 0x4000_0000_0000_0000,
                j < 31 ==> run <= 0x1000_0000_0000_0000,
                side == crate::hilbert::side(j as nat),
                1 <= side <= 0x8000_0000,
                run_fits(j as nat, at as int, b as int),
            decreases level - j,
        {
            j = j + 1;
            run = 4 * run;
            side = 2 * side;
            proof {
                lemma_widths();
                lemma_grows(j as nat, 31);
                assert(cells(31) == 4 * cells(30));
                if j < 31 {
                    lemma_grows(j as nat, 30);
                }
            }
        }
        proof {
            lemma_widths();
            assert(j < level ==> cells((j + 1) as nat) == 4 * run);
            lemma_largest_run_is(level as nat, j as nat, at as int, b as int);
            lemma_square_at(level as nat, j as nat, at as int, b as int, 0, 0);
            lemma_run_in_square(level as nat, j as nat, at as int / cells(j as nat), 0);
            assert(at as int % cells(level as nat) == at) by {
                vstd::arithmetic::div_mod::lemma_small_mod(
                    at as nat,
                    cells(level as nat) as nat,
                );
            }
        }
        let (x, y) = cell_at(level, at);
        let ghost corner_cell = cell((level - j) as nat, at as int / cells(j as nat));
        let quad = Quad {
            x: corner(x, side as u32, Ghost(corner_cell.0)),
            y: corner(y, side as u32, Ghost(corner_cell.1)),
            side: side as u32,
        };
        let ghost before = quads@;
        let ghost rest = squares(level as nat, at + run, b as int);
        quads.push(quad);
        at = at + run;
        proof {
            assert(quads_view(quads@) =~= quads_view(before).push(quad@));
            assert(quads_view(quads@) + rest =~= quads_view(before) + (seq![quad@] + rest));
        }
    }
    proof {
        assert(quads_view(quads@) + Seq::<(int, int, int)>::empty() =~= quads_view(quads@));
    }
    quads
}

/// Everything about a stretch of the curve that follows from its two ends: the
/// box of cells it spans, in inclusive columns and rows, and how many cells it
/// holds.
#[derive(Clone, Copy, Debug, PartialEq, Eq, Structural)]
pub struct Extent {
    pub min_x: u32,
    pub min_y: u32,
    pub max_x: u32,
    pub max_y: u32,
    pub cells: u64,
}

impl Extent {
    /// Whether the box holds `(x, y)`.
    pub open spec fn holds(self, x: int, y: int) -> bool {
        self.min_x <= x <= self.max_x && self.min_y <= y <= self.max_y
    }

    /// Whether this is the tightest box around the cells of `[start, end)`: it
    /// holds them all, and one of them stands on each of its edges.
    pub open spec fn spans(self, level: nat, start: int, end: int) -> bool {
        &&& forall|d: int|
            start <= d < end ==> self.holds((#[trigger] cell(level, d)).0, cell(level, d).1)
        &&& exists|d: int| start <= d < end && (#[trigger] cell(level, d)).0 == self.min_x
        &&& exists|d: int| start <= d < end && (#[trigger] cell(level, d)).0 == self.max_x
        &&& exists|d: int| start <= d < end && (#[trigger] cell(level, d)).1 == self.min_y
        &&& exists|d: int| start <= d < end && (#[trigger] cell(level, d)).1 == self.max_y
        &&& self.cells == end - start
    }
}

/// An interval has one tightest box.
pub(crate) proof fn lemma_one_box(a: Extent, b: Extent, level: nat, start: int, end: int)
    requires
        a.spans(level, start, end),
        b.spans(level, start, end),
    ensures
        a == b,
{
    let w = choose|d: int| start <= d < end && (#[trigger] cell(level, d)).0 == a.min_x;
    let x = choose|d: int| start <= d < end && (#[trigger] cell(level, d)).0 == b.min_x;
    assert(a.holds(cell(level, x).0, cell(level, x).1) && b.holds(cell(level, w).0, cell(level, w).1));
    let w = choose|d: int| start <= d < end && (#[trigger] cell(level, d)).0 == a.max_x;
    let x = choose|d: int| start <= d < end && (#[trigger] cell(level, d)).0 == b.max_x;
    assert(a.holds(cell(level, x).0, cell(level, x).1) && b.holds(cell(level, w).0, cell(level, w).1));
    let w = choose|d: int| start <= d < end && (#[trigger] cell(level, d)).1 == a.min_y;
    let x = choose|d: int| start <= d < end && (#[trigger] cell(level, d)).1 == b.min_y;
    assert(a.holds(cell(level, x).0, cell(level, x).1) && b.holds(cell(level, w).0, cell(level, w).1));
    let w = choose|d: int| start <= d < end && (#[trigger] cell(level, d)).1 == a.max_y;
    let x = choose|d: int| start <= d < end && (#[trigger] cell(level, d)).1 == b.max_y;
    assert(a.holds(cell(level, x).0, cell(level, x).1) && b.holds(cell(level, w).0, cell(level, w).1));
}

/// A cell of the `i`-th square has its key in the interval.
proof fn lemma_square_cell(level: nat, a: int, b: int, i: int, x: int, y: int)
    requires
        0 <= a <= b <= cells(level),
        0 <= i < squares(level, a, b).len(),
        in_square(
            squares(level, a, b)[i].0,
            squares(level, a, b)[i].1,
            squares(level, a, b)[i].2,
            x,
            y,
        ),
    ensures
        a <= key(level, x, y) < b,
        cell(level, key(level, x, y)) == (x, y),
{
    lemma_squares_on_grid(level, a, b, i);
    assert(covered(squares(level, a, b), x, y));
    law_squares_cover_the_interval(level, a, b, x, y);
    law_key_and_cell_are_inverse(level, x, y, 0);
}

/// The geometry of Hilbert interval `[start, end)` at `level`.
pub fn extent_of(level: u32, start: u64, end: u64) -> (extent: Extent)
    requires
        level <= 31,
        start < end <= cells(level as nat),
    ensures
        extent.spans(level as nat, start as int, end as int),
{
    let quads: Vec<Quad> = quads_of(level, start, end);
    let ghost all = squares(level as nat, start as int, end as int);
    let ghost n = level as nat;
    proof {
        assert(quads@.len() == all.len());
        assert forall|i: int| 0 <= i < all.len() implies #[trigger] quads@[i]@ == all[i] by {
            assert(quads_view(quads@)[i] == all[i]);
        }
        lemma_widths();
        lemma_grows(n, 31);
        lemma_largest_run(n, start as int, end as int);
        lemma_cells_square(largest_run(n, start as int, end as int));
        assert(all.len() > 0);
        lemma_squares_on_grid(n, start as int, end as int, 0);
    }
    let mut min_x: u32 = quads[0].x;
    let mut min_y: u32 = quads[0].y;
    let mut max_x: u32 = quads[0].x + (quads[0].side - 1);
    let mut max_y: u32 = quads[0].y + (quads[0].side - 1);
    let ghost mut wl: int = 0;
    let ghost mut wt: int = 0;
    let ghost mut wr: int = 0;
    let ghost mut wb: int = 0;
    let mut i: usize = 1;
    while i < quads.len()
        invariant
            1 <= i <= quads@.len(),
            n == level as nat,
            level <= 31,
            start < end <= cells(n),
            side(n) <= 0x8000_0000,
            all == squares(n, start as int, end as int),
            quads@.len() == all.len(),
            forall|k: int| 0 <= k < all.len() ==> #[trigger] quads@[k]@ == all[k],
            forall|k: int|
                0 <= k < i ==> {
                    &&& min_x <= (#[trigger] all[k]).0
                    &&& min_y <= all[k].1
                    &&& all[k].0 + all[k].2 - 1 <= max_x
                    &&& all[k].1 + all[k].2 - 1 <= max_y
                },
            0 <= wl < i && all[wl].0 == min_x,
            0 <= wt < i && all[wt].1 == min_y,
            0 <= wr < i && all[wr].0 + all[wr].2 - 1 == max_x,
            0 <= wb < i && all[wb].1 + all[wb].2 - 1 == max_y,
        decreases quads@.len() - i,
    {
        let quad = quads[i];
        proof {
            assert(quads@[i as int]@ == all[i as int]);
            lemma_squares_on_grid(n, start as int, end as int, i as int);
        }
        let right: u32 = quad.x + (quad.side - 1);
        let below: u32 = quad.y + (quad.side - 1);
        if quad.x < min_x {
            min_x = quad.x;
            proof {
                wl = i as int;
            }
        }
        if quad.y < min_y {
            min_y = quad.y;
            proof {
                wt = i as int;
            }
        }
        if right > max_x {
            max_x = right;
            proof {
                wr = i as int;
            }
        }
        if below > max_y {
            max_y = below;
            proof {
                wb = i as int;
            }
        }
        i = i + 1;
    }
    let extent = Extent { min_x, min_y, max_x, max_y, cells: end - start };
    proof {
        let (a, b) = (start as int, end as int);
        assert forall|d: int| a <= d < b implies extent.holds(
            (#[trigger] cell(n, d)).0,
            cell(n, d).1,
        ) by {
            let (x, y) = cell(n, d);
            law_curve_stays_on_the_grid(n, 0, 0, d);
            law_key_and_cell_are_inverse(n, 0, 0, d);
            law_squares_cover_the_interval(n, a, b, x, y);
            let k = choose|k: int|
                0 <= k < all.len() && #[trigger] in_square(all[k].0, all[k].1, all[k].2, x, y);
            assert(min_x <= all[k].0);
        }
        lemma_squares_on_grid(n, a, b, wl);
        lemma_squares_on_grid(n, a, b, wt);
        lemma_squares_on_grid(n, a, b, wr);
        lemma_squares_on_grid(n, a, b, wb);
        lemma_square_cell(n, a, b, wl, all[wl].0, all[wl].1);
        lemma_square_cell(n, a, b, wt, all[wt].0, all[wt].1);
        lemma_square_cell(n, a, b, wr, all[wr].0 + all[wr].2 - 1, all[wr].1);
        lemma_square_cell(n, a, b, wb, all[wb].0, all[wb].1 + all[wb].2 - 1);
    }
    extent
}

/// **The curve begins in the top left corner and ends in the top right one**, at every
/// level.
pub proof fn law_the_curve_goes_from_corner_to_corner(level: nat)
    ensures
        key(level, 0, 0) == 0,
        key(level, side(level) - 1, 0) == cells(level) - 1,
    decreases level,
{
    if level > 0 {
        let below = (level - 1) as nat;
        law_the_curve_goes_from_corner_to_corner(below);
        lemma_side_positive(below);
        let s = side(below);
        let x = side(level) - 1;
        assert(x - s == s - 1);
        assert(turn(s, true, false, s - 1, 0) == (s - 1, 0int));
    }
}

/// **The curve goes through the quarters of the grid one after another**: down on the
/// left, across, and up on the right. Whatever lies in an earlier quarter is passed
/// before anything in a later one.
pub proof fn law_the_curve_goes_through_the_quarters(level: nat, x: int, y: int)
    requires
        level > 0,
        on_grid(level, x, y),
    ensures
        ({
            let half = side((level - 1) as nat);
            let quarter = cells((level - 1) as nat);
            &&& x < half && y < half <==> 0 <= key(level, x, y) < quarter
            &&& x < half && y >= half <==> quarter <= key(level, x, y) < 2 * quarter
            &&& x >= half && y >= half <==> 2 * quarter <= key(level, x, y) < 3 * quarter
            &&& x >= half && y < half <==> 3 * quarter <= key(level, x, y) < 4 * quarter
        }),
{
    let below = (level - 1) as nat;
    let s = side(below);
    let right = x >= s;
    let down = y >= s;
    let (u, v) = turn(s, right, down, if right { x - s } else { x }, if down { y - s } else { y });
    assert(on_grid(below, u, v));
    law_curve_stays_on_the_grid(below, u, v, 0);
}

} // verus!
