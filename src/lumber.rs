//! A lumber collection area that changes minute by minute.

use vstd::prelude::*;

use crate::box_ids::count_in;
use crate::parse::{chars_of, line_ranges, lines, pieces, ranges_within};

verus! {

/// Width and height of the lumber collection area.
pub const SIZE: usize = 50;

/// Number of acres of the area.
pub const CELLS: usize = 2500;

/// Minutes after which the second question is asked.
pub const LONG_RUN: usize = 1_000_000_000;

/// An area is a sequence of `CELLS` acres, row after row, each open ground
/// (`.`), trees (`|`) or a lumberyard (`#`).
pub open spec fn is_area(g: Seq<char>) -> bool {
    &&& g.len() == CELLS
    &&& forall|k: int| 0 <= k < CELLS ==> #[trigger] g[k] == '.' || g[k] == '|' || g[k] == '#'
}

/// The acre in column `x` and row `y`; a blank outside the area.
pub open spec fn acre(g: Seq<char>, x: int, y: int) -> char {
    if 0 <= x < SIZE && 0 <= y < SIZE {
        g[y * SIZE + x]
    } else {
        ' '
    }
}

/// 1 where `a` is `c`, else 0.
pub open spec fn is(a: char, c: char) -> nat {
    if a == c {
        1
    } else {
        0
    }
}

/// How many of the eight acres around `(x, y)` are `c`.
pub open spec fn around(g: Seq<char>, x: int, y: int, c: char) -> nat {
    is(acre(g, x - 1, y - 1), c) + is(acre(g, x, y - 1), c) + is(acre(g, x + 1, y - 1), c) + is(
        acre(g, x - 1, y),
        c,
    ) + is(acre(g, x + 1, y), c) + is(acre(g, x - 1, y + 1), c) + is(acre(g, x, y + 1), c) + is(
        acre(g, x + 1, y + 1),
        c,
    )
}

/// The acre `(x, y)` a minute later: open ground grows trees next to three
/// or more acres of trees; trees become a lumberyard next to three or more
/// lumberyards; a lumberyard stays one next to another lumberyard and to
/// trees, and becomes open ground otherwise.
pub open spec fn next_acre(g: Seq<char>, x: int, y: int) -> char {
    let a = acre(g, x, y);
    if a == '.' {
        if around(g, x, y, '|') >= 3 {
            '|'
        } else {
            '.'
        }
    } else if a == '|' {
        if around(g, x, y, '#') >= 3 {
            '#'
        } else {
            '|'
        }
    } else {
        if around(g, x, y, '#') >= 1 && around(g, x, y, '|') >= 1 {
            '#'
        } else {
            '.'
        }
    }
}

/// The area a minute later.
pub open spec fn next_area(g: Seq<char>) -> Seq<char> {
    Seq::new(CELLS as nat, |k: int| next_acre(g, k % SIZE as int, k / SIZE as int))
}

/// The area after `n` minutes.
pub open spec fn area_after(g: Seq<char>, n: nat) -> Seq<char>
    decreases n,
{
    if n == 0 {
        g
    } else {
        next_area(area_after(g, (n - 1) as nat))
    }
}

/// The resource value: acres of trees times lumberyards.
pub open spec fn resource_value(g: Seq<char>) -> nat {
    count_in(g, '|') * count_in(g, '#')
}

/// The acre `(x, y)`; a blank outside the area.
fn acre_at(grid: &Vec<char>, x: i64, y: i64) -> (r: char)
    requires
        grid@.len() == CELLS,
    ensures
        r == acre(grid@, x as int, y as int),
{
    if 0 <= x && x < 50 && 0 <= y && y < 50 {
        grid[(y * 50 + x) as usize]
    } else {
        ' '
    }
}

/// How many of the eight acres around `(i, j)` are `c`.
pub fn neighbours(i: usize, j: usize, grid: &Vec<char>, c: char) -> (r: u8)
    requires
        grid@.len() == CELLS,
        i < SIZE,
        j < SIZE,
    ensures
        r == around(grid@, i as int, j as int, c),
{
    let (x, y) = (i as i64, j as i64);
    let mut n: u8 = 0;
    if acre_at(grid, x - 1, y - 1) == c {
        n = n + 1;
    }
    if acre_at(grid, x, y - 1) == c {
        n = n + 1;
    }
    if acre_at(grid, x + 1, y - 1) == c {
        n = n + 1;
    }
    if acre_at(grid, x - 1, y) == c {
        n = n + 1;
    }
    if acre_at(grid, x + 1, y) == c {
        n = n + 1;
    }
    if acre_at(grid, x - 1, y + 1) == c {
        n = n + 1;
    }
    if acre_at(grid, x, y + 1) == c {
        n = n + 1;
    }
    if acre_at(grid, x + 1, y + 1) == c {
        n = n + 1;
    }
    n
}

/// The area a minute later.
pub fn step(grid: &Vec<char>) -> (r: Vec<char>)
    requires
        grid@.len() == CELLS,
    ensures
        r@ == next_area(grid@),
{
    let mut out: Vec<char> = Vec::new();
    let mut k: usize = 0;
    while k < CELLS
        invariant
            grid@.len() == CELLS,
            k <= CELLS,
            out@.len() == k,
            forall|m: int| 0 <= m < k ==> #[trigger] out@[m] == next_area(grid@)[m],
        decreases CELLS - k,
    {
        let (i, j) = (k % SIZE, k / SIZE);
        assert(acre(grid@, i as int, j as int) == grid@[k as int]);
        let a = grid[k];
        let b = if a == '.' {
            if neighbours(i, j, grid, '|') >= 3 {
                '|'
            } else {
                '.'
            }
        } else if a == '|' {
            if neighbours(i, j, grid, '#') >= 3 {
                '#'
            } else {
                '|'
            }
        } else {
            if neighbours(i, j, grid, '#') >= 1 && neighbours(i, j, grid, '|') >= 1 {
                '#'
            } else {
                '.'
            }
        };
        out.push(b);
        k = k + 1;
    }
    assert(out@ =~= next_area(grid@));
    out
}

/// The resource value of the area.
pub fn estimate_value(grid: &Vec<char>) -> (r: usize)
    requires
        grid@.len() == CELLS,
    ensures
        r == resource_value(grid@),
{
    let mut n_wood: usize = 0;
    let mut n_yard: usize = 0;
    let mut k: usize = 0;
    while k < grid.len()
        invariant
            grid@.len() == CELLS,
            k <= CELLS,
            n_wood == count_in(grid@.take(k as int), '|'),
            n_yard == count_in(grid@.take(k as int), '#'),
            n_wood <= k,
            n_yard <= k,
        decreases CELLS - k,
    {
        assert(grid@.take(k + 1).drop_last() =~= grid@.take(k as int));
        if grid[k] == '|' {
            n_wood = n_wood + 1;
        } else if grid[k] == '#' {
            n_yard = n_yard + 1;
        }
        k = k + 1;
    }
    assert(grid@.take(k as int) =~= grid@);
    assert(n_wood * n_yard <= 2500 * 2500) by (nonlinear_arith)
        requires
            n_wood <= 2500,
            n_yard <= 2500,
    ;
    n_wood * n_yard
}

/// The resource value after ten minutes.
pub fn part1(grid: &Vec<char>) -> (r: usize)
    requires
        grid@.len() == CELLS,
    ensures
        r == resource_value(area_after(grid@, 10)),
{
    let mut g = grid.clone();
    assert(g@ == grid@);
    let mut n: usize = 0;
    while n < 10
        invariant
            n <= 10,
            g@ == area_after(grid@, n as nat),
            g@.len() == CELLS,
        decreases 10 - n,
    {
        g = step(&g);
        n = n + 1;
    }
    estimate_value(&g)
}

/// Whether the two areas are the same.
pub fn same_area(a: &Vec<char>, b: &Vec<char>) -> (r: bool)
    ensures
        r == (a@ == b@),
{
    if a.len() != b.len() {
        return false;
    }
    let mut k: usize = 0;
    while k < a.len()
        invariant
            a@.len() == b@.len(),
            k <= a@.len(),
            forall|m: int| 0 <= m < k ==> a@[m] == b@[m],
        decreases a@.len() - k,
    {
        if a[k] != b[k] {
            return false;
        }
        k = k + 1;
    }
    assert(a@ =~= b@);
    true
}

/// Running on from two equal areas gives equal areas.
proof fn lemma_same_future(g: Seq<char>, a: nat, b: nat, k: nat)
    requires
        area_after(g, a) == area_after(g, b),
    ensures
        area_after(g, a + k) == area_after(g, b + k),
    decreases k,
{
    if k > 0 {
        lemma_same_future(g, a, b, (k - 1) as nat);
        assert(area_after(g, a + k) == next_area(area_after(g, (a + k - 1) as nat)));
        assert(area_after(g, b + k) == next_area(area_after(g, (b + k - 1) as nat)));
    }
}

/// Where the area after `i` minutes was already seen after `j < i`, it
/// comes back every `i - j` minutes.
proof fn lemma_cycle(g: Seq<char>, j: nat, i: nat, m: nat)
    requires
        j < i,
        area_after(g, j) == area_after(g, i),
    ensures
        area_after(g, (i + m * (i - j)) as nat) == area_after(g, i),
    decreases m,
{
    if m > 0 {
        lemma_cycle(g, j, i, (m - 1) as nat);
        let p: int = i - j;
        let before: int = i + (m - 1) * p;
        assert(i + m * p == before + p) by (nonlinear_arith)
            requires
                before == i + (m - 1) * p,
        ;
        assert(before >= i) by (nonlinear_arith)
            requires
                before == i + (m - 1) * p,
                m >= 1,
                p > 0,
        ;
        let k = (before - j) as nat;
        lemma_same_future(g, j, i, k);
        assert((j + k) as nat == before as nat);
        assert((i + k) as nat == (i + m * (i - j)) as nat);
        assert(before as nat == (i + ((m - 1) as nat) * (i - j)) as nat);
        assert(area_after(g, before as nat) == area_after(g, i));
        assert(area_after(g, (j + k) as nat) == area_after(g, (i + k) as nat));
    } else {
        assert(m * (i - j) == 0) by (nonlinear_arith)
            requires
                m == 0,
        ;
    }
}

/// The resource value after a billion minutes: the area is run until it
/// repeats, and the repetition skips the rest.
pub fn part2(grid: &Vec<char>) -> (r: usize)
    requires
        grid@.len() == CELLS,
    ensures
        r == resource_value(area_after(grid@, LONG_RUN as nat)),
{
    let mut g = grid.clone();
    assert(g@ == grid@);
    let mut seen: Vec<Vec<char>> = Vec::new();
    let mut i: usize = 0;
    while i < LONG_RUN
        invariant
            i <= LONG_RUN,
            g@ == area_after(grid@, i as nat),
            g@.len() == CELLS,
            seen@.len() == i,
            forall|t: int| 0 <= t < i ==> (#[trigger] seen@[t])@ == area_after(grid@, t as nat),
        decreases LONG_RUN - i,
    {
        let mut t: usize = i;
        let mut found: Option<usize> = None;
        while t > 0 && found.is_none()
            invariant
                t <= i,
                seen@.len() == i,
                found matches Some(j) ==> j < i && seen@[j as int]@ == g@,
            decreases t,
        {
            t = t - 1;
            if same_area(&seen[t], &g) {
                found = Some(t);
            }
        }
        if let Some(j) = found {
            let p = i - j;
            if (LONG_RUN - i) % p == 0 {
                proof {
                    let m = ((LONG_RUN - i) as int / p as int) as nat;
                    assert(area_after(grid@, j as nat) == area_after(grid@, i as nat));
                    lemma_cycle(grid@, j as nat, i as nat, m);
                    assert(i + m * p == LONG_RUN) by (nonlinear_arith)
                        requires
                            (LONG_RUN - i) % (p as int) == 0,
                            m == (LONG_RUN - i) / (p as int),
                            p > 0,
                    ;
                }
                return estimate_value(&g);
            }
        }
        let next = step(&g);
        seen.push(g);
        g = next;
        i = i + 1;
    }
    estimate_value(&g)
}

/// Reads the area: `SIZE` lines of `SIZE` acres each.
pub fn parse_input(input: String) -> (r: Option<Vec<char>>)
    ensures
        r matches Some(g) ==> is_area(g@) && forall|y: int, x: int|
            0 <= y < SIZE && 0 <= x < SIZE ==> #[trigger] acre(g@, x, y) == lines(input@)[y][x],
        r is None ==> !(lines(input@).len() == SIZE && forall|y: int|
            0 <= y < SIZE ==> (#[trigger] lines(input@)[y]).len() == SIZE && forall|x: int|
                0 <= x < SIZE ==> {
                    let c = #[trigger] lines(input@)[y][x];
                    c == '.' || c == '|' || c == '#'
                }),
{
    let cs = chars_of(input.as_str());
    let ls = line_ranges(&cs);
    let ghost lv = lines(input@);
    if ls.len() != SIZE {
        return None;
    }
    let mut g: Vec<char> = Vec::new();
    let mut y: usize = 0;
    while y < SIZE
        invariant
            cs@ == input@,
            lv == lines(input@),
            ranges_within(ls@, cs@.len()),
            pieces(cs@, ls@) == lv,
            ls@.len() == SIZE,
            y <= SIZE,
            g@.len() == y * SIZE,
            forall|k: int| 0 <= k < g@.len() ==> #[trigger] g@[k] == '.' || g@[k] == '|' || g@[k] == '#',
            forall|y2: int, x: int| 0 <= y2 < y && 0 <= x < SIZE ==> g@[y2 * SIZE + x] == #[trigger] lv[y2][x],
            forall|y2: int| 0 <= y2 < y ==> (#[trigger] lv[y2]).len() == SIZE,
        decreases SIZE - y,
    {
        let (lo, hi) = ls[y];
        assert(lv[y as int] == cs@.subrange(lo as int, hi as int));
        if hi - lo != SIZE {
            assert(lines(input@)[y as int].len() != SIZE);
            return None;
        }
        let mut x: usize = 0;
        while x < SIZE
            invariant
                cs@ == input@,
                lv == lines(input@),
                ranges_within(ls@, cs@.len()),
                pieces(cs@, ls@) == lv,
                ls@.len() == SIZE,
                forall|y2: int| 0 <= y2 < y ==> (#[trigger] lv[y2]).len() == SIZE,
                lo + SIZE == hi <= cs@.len(),
                lv[y as int] == cs@.subrange(lo as int, hi as int),
                y < SIZE,
                x <= SIZE,
                g@.len() == y * SIZE + x,
                forall|k: int| 0 <= k < g@.len() ==> #[trigger] g@[k] == '.' || g@[k] == '|' || g@[k] == '#',
                forall|y2: int, x2: int| 0 <= y2 < y && 0 <= x2 < SIZE ==> g@[y2 * SIZE + x2] == #[trigger] lv[y2][x2],
                forall|x2: int| 0 <= x2 < x ==> g@[y * SIZE + x2] == #[trigger] lv[y as int][x2],
            decreases SIZE - x,
        {
            let c = cs[lo + x];
            if !(c == '.' || c == '|' || c == '#') {
                assert(lines(input@)[y as int][x as int] == c);
                return None;
            }
            g.push(c);
            x = x + 1;
        }
        y = y + 1;
    }
    assert(is_area(g@));
    Some(g)
}

} // verus!
