//! Fuel cell power levels and the square of cells with the largest total power.

use vstd::prelude::*;

verus! {

/// Width and height of the grid of fuel cells.
pub const GRID: usize = 300;

/// The power level of the fuel cell at `(x, y)` (counted from 1) for the
/// grid serial number `serial`: the hundreds digit of
/// `((x + 10) * y + serial) * (x + 10)`, less 5.
pub open spec fn power_level(x: int, y: int, serial: int) -> int {
    let rack = x + 10;
    ((rack * y + serial) * rack / 100) % 10 - 5
}

/// The grid of power levels: cell `(x, y)` at index `(x - 1) * GRID + (y - 1)`.
pub open spec fn is_grid(g: Seq<i32>, serial: int) -> bool {
    &&& g.len() == GRID * GRID
    &&& forall|a: int, b: int|
        0 <= a < GRID && 0 <= b < GRID ==> #[trigger] g[a * GRID + b] == power_level(a + 1, b + 1, serial)
}

/// The sum of the power levels of row `a` (counted from 0), columns `b..b + n`.
pub open spec fn row_sum(g: Seq<i32>, a: int, b: int, n: nat) -> int
    decreases n,
{
    if n == 0 {
        0
    } else {
        row_sum(g, a, b, (n - 1) as nat) + g[a * GRID + b + n - 1]
    }
}

/// The sum of the power levels of the first `d` rows of the square of side
/// `size` whose top left cell is `(a, b)` (counted from 0).
pub open spec fn square_rows(g: Seq<i32>, a: int, b: int, size: nat, d: nat) -> int
    decreases d,
{
    if d == 0 {
        0
    } else {
        square_rows(g, a, b, size, (d - 1) as nat) + row_sum(g, a + d - 1, b, size)
    }
}

/// The total power of the square of side `size` whose top left cell is `(a, b)`.
pub open spec fn square_power(g: Seq<i32>, a: int, b: int, size: nat) -> int {
    square_rows(g, a, b, size, size)
}

/// The best square found so far: its total power, its top left cell (counted
/// from 0) and its side.
pub type Best = (int, int, int, int);

/// The search over the squares of side `size` in row `a`, columns `0..b`,
/// from the best square `st`: a square replaces the best only where its
/// power is larger.
pub open spec fn scan_row(g: Seq<i32>, size: nat, a: int, b: nat, st: Best) -> Best
    decreases b,
{
    if b == 0 {
        st
    } else {
        let prev = scan_row(g, size, a, (b - 1) as nat, st);
        let t = square_power(g, a, b - 1, size);
        if t > prev.0 {
            (t, a, b - 1, size as int)
        } else {
            prev
        }
    }
}

/// The search over the squares of side `size` in rows `0..a`.
pub open spec fn scan_rows(g: Seq<i32>, size: nat, a: nat, st: Best) -> Best
    decreases a,
{
    if a == 0 {
        st
    } else {
        scan_row(g, size, (a - 1) as int, (GRID + 1 - size) as nat, scan_rows(g, size, (a - 1) as nat, st))
    }
}

/// The search over the squares of sides `1..=s`, smaller sides first.
pub open spec fn scan_sizes(g: Seq<i32>, s: nat) -> Best
    decreases s,
{
    if s == 0 {
        (i32::MIN as int, 0, 0, 0)
    } else {
        scan_rows(g, s, (GRID + 1 - s) as nat, scan_sizes(g, (s - 1) as nat))
    }
}

/// The power level of the cell `(a + 1, b + 1)`.
pub fn power(a: usize, b: usize, serial: u64) -> (r: i32)
    requires
        a < GRID,
        b < GRID,
        serial <= u32::MAX,
    ensures
        r == power_level(a + 1, b + 1, serial as int),
{
    let rack: u64 = a as u64 + 11;
    assert(rack * (b as u64 + 1) <= 310 * 300) by (nonlinear_arith)
        requires
            rack <= 310,
            b < 300,
    ;
    let v: u64 = rack * (b as u64 + 1) + serial;
    assert(v * rack <= (310 * 300 + 0xffff_ffffu64) * 310) by (nonlinear_arith)
        requires
            v <= 310 * 300 + 0xffff_ffffu64,
            rack <= 310,
    ;
    let w: u64 = v * rack;
    ((w / 100) % 10) as i32 - 5
}

/// The grid of power levels for the serial number.
pub fn build_grid(serial: u64) -> (r: Vec<i32>)
    requires
        serial <= u32::MAX,
    ensures
        is_grid(r@, serial as int),
{
    let mut g: Vec<i32> = Vec::new();
    let mut a: usize = 0;
    while a < GRID
        invariant
            serial <= u32::MAX,
            a <= GRID,
            g@.len() == a * GRID,
            forall|a2: int, b2: int|
                0 <= a2 < a && 0 <= b2 < GRID ==> #[trigger] g@[a2 * GRID + b2] == power_level(a2 + 1, b2 + 1, serial as int),
        decreases GRID - a,
    {
        let mut b: usize = 0;
        while b < GRID
            invariant
                serial <= u32::MAX,
                a < GRID,
                b <= GRID,
                g@.len() == a * GRID + b,
                forall|a2: int, b2: int|
                    0 <= a2 < a && 0 <= b2 < GRID ==> #[trigger] g@[a2 * GRID + b2] == power_level(a2 + 1, b2 + 1, serial as int),
                forall|b2: int| 0 <= b2 < b ==> #[trigger] g@[a * GRID + b2] == power_level(a + 1, b2 + 1, serial as int),
            decreases GRID - b,
        {
            g.push(power(a, b, serial));
            b = b + 1;
        }
        a = a + 1;
    }
    g
}

proof fn lemma_row_sum_bounded(g: Seq<i32>, serial: int, a: int, b: int, n: nat)
    requires
        serial >= 0,
        is_grid(g, serial),
        0 <= a < GRID,
        0 <= b,
        b + n <= GRID,
    ensures
        -5 * n <= row_sum(g, a, b, n) <= 4 * n,
    decreases n,
{
    if n > 0 {
        lemma_row_sum_bounded(g, serial, a, b, (n - 1) as nat);
        let v = g[a * GRID + b + n - 1];
        assert(g[a * GRID + (b + n - 1)] == power_level(a + 1, b + n, serial));
        let rack = a + 11;
        assert(0 <= (rack * (b + n) + serial) * rack / 100 % 10 < 10) by (nonlinear_arith)
            requires
                rack > 0,
                b + n > 0,
                serial >= 0,
        ;
    }
}

/// The total power of the square of side `size` whose top left cell is `(a, b)`.
pub fn square_total(g: &Vec<i32>, serial: u64, a: usize, b: usize, size: usize) -> (r: i64)
    requires
        is_grid(g@, serial as int),
        serial <= u32::MAX,
        a + size <= GRID,
        b + size <= GRID,
    ensures
        r == square_power(g@, a as int, b as int, size as nat),
{
    let mut total: i64 = 0;
    let mut d: usize = 0;
    while d < size
        invariant
            is_grid(g@, serial as int),
            a + size <= GRID,
            b + size <= GRID,
            d <= size,
            total == square_rows(g@, a as int, b as int, size as nat, d as nat),
            -5 * d * size <= total <= 4 * d * size,
        decreases size - d,
    {
        let mut row: i64 = 0;
        let mut e: usize = 0;
        while e < size
            invariant
                is_grid(g@, serial as int),
                a + size <= GRID,
                b + size <= GRID,
                d < size,
                e <= size,
                row == row_sum(g@, (a + d) as int, b as int, e as nat),
                -5 * e <= row <= 4 * e,
            decreases size - e,
        {
            proof {
                lemma_row_sum_bounded(g@, serial as int, (a + d) as int, b as int, (e + 1) as nat);
            }
            row = row + g[(a + d) * GRID + b + e] as i64;
            e = e + 1;
        }
        assert(-5 * (d + 1) * size <= total + row <= 4 * (d + 1) * size) by (nonlinear_arith)
            requires
                -5 * d * size <= total <= 4 * d * size,
                -5 * size <= row <= 4 * size,
        ;
        assert(4 * (d + 1) * size <= 4 * 300 * 300 && -5 * (d + 1) * size >= -5 * 300 * 300) by (nonlinear_arith)
            requires
                d + 1 <= size,
                size <= 300,
        ;
        total = total + row;
        d = d + 1;
    }
    total
}

/// Searches the squares of side `size` with top left corner in rows `0..=GRID - size`,
/// from the best square `best`.
fn scan_squares(g: &Vec<i32>, serial: u64, size: usize, best: (i64, usize, usize, usize)) -> (r: (
    i64,
    usize,
    usize,
    usize,
))
    requires
        is_grid(g@, serial as int),
        serial <= u32::MAX,
        1 <= size <= GRID,
        best.1 < GRID,
        best.2 < GRID,
        best.3 <= GRID,
    ensures
        r.1 < GRID,
        r.2 < GRID,
        r.3 <= GRID,
        (r.0 as int, r.1 as int, r.2 as int, r.3 as int) == scan_rows(
            g@,
            size as nat,
            (GRID + 1 - size) as nat,
            (best.0 as int, best.1 as int, best.2 as int, best.3 as int),
        ),
{
    let ghost st0 = (best.0 as int, best.1 as int, best.2 as int, best.3 as int);
    let n = GRID + 1 - size;
    let mut cur = best;
    let mut a: usize = 0;
    while a < n
        invariant
            is_grid(g@, serial as int),
            serial <= u32::MAX,
            1 <= size <= GRID,
            n == GRID + 1 - size,
            a <= n,
            cur.1 < GRID,
            cur.2 < GRID,
            cur.3 <= GRID,
            (cur.0 as int, cur.1 as int, cur.2 as int, cur.3 as int) == scan_rows(g@, size as nat, a as nat, st0),
        decreases n - a,
    {
        let ghost row_start = (cur.0 as int, cur.1 as int, cur.2 as int, cur.3 as int);
        let mut b: usize = 0;
        while b < n
            invariant
                is_grid(g@, serial as int),
                serial <= u32::MAX,
                1 <= size <= GRID,
                n == GRID + 1 - size,
                a < n,
                b <= n,
                cur.1 < GRID,
                cur.2 < GRID,
                cur.3 <= GRID,
                row_start == scan_rows(g@, size as nat, a as nat, st0),
                (cur.0 as int, cur.1 as int, cur.2 as int, cur.3 as int) == scan_row(g@, size as nat, a as int, b as nat, row_start),
            decreases n - b,
        {
            let t = square_total(g, serial, a, b, size);
            if t > cur.0 {
                cur = (t, a, b, size);
            }
            b = b + 1;
        }
        a = a + 1;
    }
    cur
}

/// The top left cell (counted from 1) of the square of side 3 with the
/// largest total power; the first in the order of the search where several
/// have it.
pub fn part1(serial_number: &usize) -> (r: (usize, usize))
    requires
        *serial_number <= u32::MAX,
    ensures
        ({
            let g = Seq::new((GRID * GRID) as nat, |k: int| power_level(k / GRID as int + 1, k % GRID as int + 1, *serial_number as int) as i32);
            let best = scan_rows(g, 3, (GRID - 2) as nat, (i32::MIN as int, 0, 0, 0));
            r == ((best.1 + 1) as usize, (best.2 + 1) as usize)
        }),
{
    let serial = *serial_number as u64;
    let g = build_grid(serial);
    assert(g@ =~= Seq::new((GRID * GRID) as nat, |k: int| power_level(k / GRID as int + 1, k % GRID as int + 1, serial as int) as i32)) by {
        assert forall|k: int| 0 <= k < GRID * GRID implies g@[k] == power_level(k / GRID as int + 1, k % GRID as int + 1, serial as int) as i32 by {
            let (a, b) = (k / GRID as int, k % GRID as int);
            assert(k == a * GRID + b);
        }
    }
    let best = scan_squares(&g, serial, 3, (i32::MIN as i64, 0, 0, 0));
    (best.1 + 1, best.2 + 1)
}

/// The top left cell (counted from 1) and the side of the square of any side
/// with the largest total power; the first in the order of the search (by
/// side, then row, then column) where several have it.
pub fn part2(serial_number: &usize) -> (r: (usize, usize, usize))
    requires
        *serial_number <= u32::MAX,
    ensures
        ({
            let g = Seq::new((GRID * GRID) as nat, |k: int| power_level(k / GRID as int + 1, k % GRID as int + 1, *serial_number as int) as i32);
            let best = scan_sizes(g, GRID as nat);
            r == ((best.1 + 1) as usize, (best.2 + 1) as usize, best.3 as usize)
        }),
{
    let serial = *serial_number as u64;
    let g = build_grid(serial);
    assert(g@ =~= Seq::new((GRID * GRID) as nat, |k: int| power_level(k / GRID as int + 1, k % GRID as int + 1, serial as int) as i32)) by {
        assert forall|k: int| 0 <= k < GRID * GRID implies g@[k] == power_level(k / GRID as int + 1, k % GRID as int + 1, serial as int) as i32 by {
            let (a, b) = (k / GRID as int, k % GRID as int);
            assert(k == a * GRID + b);
        }
    }
    let mut best: (i64, usize, usize, usize) = (i32::MIN as i64, 0, 0, 0);
    let mut size: usize = 1;
    while size <= GRID
        invariant
            is_grid(g@, serial as int),
            serial <= u32::MAX,
            1 <= size <= GRID + 1,
            (best.0 as int, best.1 as int, best.2 as int, best.3 as int) == scan_sizes(g@, (size - 1) as nat),
            0 <= best.1 < GRID,
            0 <= best.2 < GRID,
            best.3 <= GRID,
        decreases GRID + 1 - size,
    {
        best = scan_squares(&g, serial, size, best);
        size = size + 1;
    }
    (best.1 + 1, best.2 + 1, best.3)
}

} // verus!
