//! The cave system below the target: erosion levels and the risk of each region.

use vstd::prelude::*;

use crate::fabric::{find_char, first_index};
use crate::nanobots::starts_with_at;
use crate::parse::{chars_of, line_ranges, lines, number_of, parse_number};

verus! {

/// The modulus of erosion levels.
pub const EROSION_MOD: usize = 20183;

/// The largest depth and the largest side of the cave handled here: every
/// geologic index and every total risk then fits a `usize` of 32 bits.
pub const MAX_SIDE: usize = 0x8000;

/// The erosion level of the region `(x, y)` for the cave depth `d`: its
/// geologic index plus the depth, modulo `EROSION_MOD`. The geologic index is
/// 0 at the mouth, `x * 16807` along the top, `y * 48271` along the left
/// edge, and elsewhere the product of the erosion levels to the left and above.
pub open spec fn erosion(d: nat, x: nat, y: nat) -> nat
    decreases x + y,
{
    let geo = if x == 0 && y == 0 {
        0
    } else if y == 0 {
        x * 16807
    } else if x == 0 {
        y * 48271
    } else {
        erosion(d, (x - 1) as nat, y) * erosion(d, x, (y - 1) as nat)
    };
    (geo + d) % (EROSION_MOD as nat)
}

/// The risk level of the region `(x, y)`: its erosion level modulo 3, and 0
/// at the target `(tx, ty)`.
pub open spec fn risk(d: nat, tx: nat, ty: nat, x: nat, y: nat) -> nat {
    if x == tx && y == ty {
        0
    } else {
        erosion(d, x, y) % 3
    }
}

/// The total risk of row `y`, columns `0..w`.
pub open spec fn row_risk(d: nat, tx: nat, ty: nat, y: nat, w: nat) -> nat
    decreases w,
{
    if w == 0 {
        0
    } else {
        row_risk(d, tx, ty, y, (w - 1) as nat) + risk(d, tx, ty, (w - 1) as nat, y)
    }
}

/// The total risk of rows `0..h`, columns `0..w`.
pub open spec fn area_risk(d: nat, tx: nat, ty: nat, w: nat, h: nat) -> nat
    decreases h,
{
    if h == 0 {
        0
    } else {
        area_risk(d, tx, ty, w, (h - 1) as nat) + row_risk(d, tx, ty, (h - 1) as nat, w)
    }
}

/// The risk levels of the regions `(x, y)` with `x <= target.0 + extra.0` and
/// `y <= target.1 + extra.1`, one row per `y`.
pub fn build_grid(depth: &usize, target: &(usize, usize), extra: &(usize, usize)) -> (r: Vec<Vec<usize>>)
    requires
        *depth <= MAX_SIDE,
        target.0 + extra.0 < MAX_SIDE,
        target.1 + extra.1 < MAX_SIDE,
    ensures
        r@.len() == target.1 + extra.1 + 1,
        forall|y: int| 0 <= y < r@.len() ==> (#[trigger] r@[y])@.len() == target.0 + extra.0 + 1,
        forall|y: int, x: int|
            0 <= y < r@.len() && 0 <= x < target.0 + extra.0 + 1 ==> #[trigger] r@[y]@[x] == risk(
                *depth as nat,
                target.0 as nat,
                target.1 as nat,
                x as nat,
                y as nat,
            ),
{
    let d = *depth;
    let w = target.0 + extra.0 + 1;
    let h = target.1 + extra.1 + 1;
    let mut grid: Vec<Vec<usize>> = Vec::new();
    let mut prev: Vec<usize> = Vec::new();
    let mut y: usize = 0;
    while y < h
        invariant
            d <= MAX_SIDE,
            w <= MAX_SIDE,
            h <= MAX_SIDE,
            w == target.0 + extra.0 + 1,
            h == target.1 + extra.1 + 1,
            target.0 < w,
            target.1 < h,
            y <= h,
            grid@.len() == y,
            y > 0 ==> prev@.len() == w,
            y > 0 ==> forall|x: int| 0 <= x < w ==> #[trigger] prev@[x] == erosion(d as nat, x as nat, (y - 1) as nat),
            forall|yy: int| 0 <= yy < y ==> (#[trigger] grid@[yy])@.len() == w,
            forall|yy: int, x: int|
                0 <= yy < y && 0 <= x < w ==> #[trigger] grid@[yy]@[x] == risk(
                    d as nat,
                    target.0 as nat,
                    target.1 as nat,
                    x as nat,
                    yy as nat,
                ),
        decreases h - y,
    {
        let mut row: Vec<usize> = Vec::new();
        let mut risks: Vec<usize> = Vec::new();
        let mut x: usize = 0;
        while x < w
            invariant
                d <= MAX_SIDE,
                w <= MAX_SIDE,
                y < h <= MAX_SIDE,
                x <= w,
                row@.len() == x,
                risks@.len() == x,
                y > 0 ==> prev@.len() == w,
                y > 0 ==> forall|x2: int| 0 <= x2 < w ==> #[trigger] prev@[x2] == erosion(d as nat, x2 as nat, (y - 1) as nat),
                forall|x2: int| 0 <= x2 < x ==> #[trigger] row@[x2] == erosion(d as nat, x2 as nat, y as nat),
                forall|x2: int| 0 <= x2 < x ==> (#[trigger] risks@[x2]) == risk(
                    d as nat,
                    target.0 as nat,
                    target.1 as nat,
                    x2 as nat,
                    y as nat,
                ),
                forall|x2: int| 0 <= x2 < x ==> #[trigger] row@[x2] < EROSION_MOD,
            decreases w - x,
        {
            let geo: usize = if x == 0 && y == 0 {
                0
            } else if y == 0 {
                assert(x * 16807 <= 0x8000 * 16807) by (nonlinear_arith)
                    requires
                        x <= 0x8000,
                ;
                x * 16807
            } else if x == 0 {
                assert(y * 48271 <= 0x8000 * 48271) by (nonlinear_arith)
                    requires
                        y <= 0x8000,
                ;
                y * 48271
            } else {
                let (a, b) = (row[x - 1], prev[x]);
                assert(a * b <= 20183 * 20183) by (nonlinear_arith)
                    requires
                        a < 20183,
                        b < 20183,
                ;
                a * b
            };
            let e = (geo + d) % EROSION_MOD;
            row.push(e);
            let rk = if x == target.0 && y == target.1 {
                0
            } else {
                e % 3
            };
            risks.push(rk);
            x = x + 1;
        }
        grid.push(risks);
        prev = row;
        y = y + 1;
    }
    grid
}

/// The total risk of the rectangle from the mouth to the target.
pub fn part1(input: &(usize, (usize, usize))) -> (r: usize)
    requires
        input.0 <= MAX_SIDE,
        (input.1).0 < MAX_SIDE,
        (input.1).1 < MAX_SIDE,
    ensures
        r == area_risk(input.0 as nat, (input.1).0 as nat, (input.1).1 as nat, ((input.1).0 + 1) as nat, ((input.1).1 + 1) as nat),
{
    let (depth, target) = (input.0, input.1);
    let grid = build_grid(&depth, &target, &(0, 0));
    let w = target.0 + 1;
    let h = target.1 + 1;
    let ghost (dn, tx, ty) = (depth as nat, target.0 as nat, target.1 as nat);
    let mut total: usize = 0;
    let mut y: usize = 0;
    while y < h
        invariant
            w == target.0 + 1,
            h == target.1 + 1,
            w <= MAX_SIDE,
            h <= MAX_SIDE,
            dn == depth as nat,
            tx == target.0 as nat,
            ty == target.1 as nat,
            grid@.len() == h,
            forall|yy: int| 0 <= yy < h ==> (#[trigger] grid@[yy])@.len() == w,
            forall|yy: int, x: int| 0 <= yy < h && 0 <= x < w ==> #[trigger] grid@[yy]@[x] == risk(dn, tx, ty, x as nat, yy as nat),
            y <= h,
            total == area_risk(dn, tx, ty, w as nat, y as nat),
            total <= 2 * w * y,
        decreases h - y,
    {
        let mut x: usize = 0;
        let mut row_total: usize = 0;
        while x < w
            invariant
                w <= MAX_SIDE,
                y < h <= MAX_SIDE,
                grid@.len() == h,
                grid@[y as int]@.len() == w,
                forall|x2: int| 0 <= x2 < w ==> #[trigger] grid@[y as int]@[x2] == risk(dn, tx, ty, x2 as nat, y as nat),
                x <= w,
                row_total == row_risk(dn, tx, ty, y as nat, x as nat),
                row_total <= 2 * x,
            decreases w - x,
        {
            assert(risk(dn, tx, ty, x as nat, y as nat) <= 2);
            row_total = row_total + grid[y][x];
            x = x + 1;
        }
        assert(2 * w * y + row_total <= 2 * w * (y + 1)) by (nonlinear_arith)
            requires
                row_total <= 2 * w,
        ;
        assert(2 * w * (y + 1) <= 2 * 0x8000 * 0x8000) by (nonlinear_arith)
            requires
                w <= 0x8000,
                y + 1 <= 0x8000,
        ;
        total = total + row_total;
        y = y + 1;
    }
    total
}

/// The depth and the target that the text gives: a first line `depth: <d>`
/// and a second line `target: <x>,<y>`.
pub open spec fn scan_of(s: Seq<char>) -> Option<(usize, (usize, usize))> {
    let ls = lines(s);
    let dp = seq!['d', 'e', 'p', 't', 'h', ':', ' '];
    let tp = seq!['t', 'a', 'r', 'g', 'e', 't', ':', ' '];
    if ls.len() >= 2 && ls[0].len() >= 7 && ls[0].take(7) == dp && ls[1].len() >= 8 && ls[1].take(8) == tp {
        let rest = ls[1].skip(8);
        match (number_of(ls[0].skip(7)), first_index(rest, ',')) {
            (Some(d), Some(k)) => match (number_of(rest.take(k as int)), number_of(rest.skip(k + 1 as int))) {
                (Some(x), Some(y)) => Some((d, (x, y))),
                _ => None,
            },
            _ => None,
        }
    } else {
        None
    }
}

/// Reads the depth and the target.
pub fn parse_input(input: String) -> (r: Option<(usize, (usize, usize))>)
    ensures
        r == scan_of(input@),
{
    let cs = chars_of(input.as_str());
    let ls = line_ranges(&cs);
    if ls.len() < 2 {
        return None;
    }
    let ghost lv = lines(input@);
    let (a0, a1) = ls[0];
    let (b0, b1) = ls[1];
    assert(lv[0] == cs@.subrange(a0 as int, a1 as int));
    assert(lv[1] == cs@.subrange(b0 as int, b1 as int));
    let dp = ['d', 'e', 'p', 't', 'h', ':', ' '];
    let tp = ['t', 'a', 'r', 'g', 'e', 't', ':', ' '];
    assert(dp@ =~= seq!['d', 'e', 'p', 't', 'h', ':', ' ']);
    assert(tp@ =~= seq!['t', 'a', 'r', 'g', 'e', 't', ':', ' ']);
    if !starts_with_at(&cs, a0, a1, &dp) || !starts_with_at(&cs, b0, b1, &tp) {
        return None;
    }
    assert(lv[0].skip(7) =~= cs@.subrange(a0 + 7, a1 as int));
    let ghost rest = lv[1].skip(8);
    assert(rest =~= cs@.subrange(b0 + 8, b1 as int));
    let d = parse_number(&cs, a0 + 7, a1);
    let k = match find_char(&cs, b0 + 8, b1, ',') {
        None => {
            return None;
        },
        Some(k) => k,
    };
    assert(rest.take(k as int) =~= cs@.subrange(b0 + 8, b0 + 8 + k));
    assert(rest.skip(k + 1 as int) =~= cs@.subrange(b0 + 8 + k + 1, b1 as int));
    match (d, parse_number(&cs, b0 + 8, b0 + 8 + k), parse_number(&cs, b0 + 8 + k + 1, b1)) {
        (Some(d), Some(x), Some(y)) => Some((d, (x, y))),
        _ => None,
    }
}

} // verus!
