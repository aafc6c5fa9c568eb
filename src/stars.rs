//! Points of light that move in straight lines and, for one moment, spell a message.

use vstd::prelude::*;

use crate::coords::{trim_blanks, trim_range};
use crate::fabric::{find_char, first_index};
use crate::nanobots::starts_with_at;
use crate::parse::{chars_of, copy_range, i32_of, line_ranges, lines, parse_i32, pieces, ranges_within};

verus! {

/// The longest search, in seconds, for the moment the points are closest.
pub const MAX_SECONDS: usize = 0x10_0000;

/// A point of light: where it is at time 0 and how far it moves each second.
#[derive(Clone, Copy, Debug)]
pub struct Point {
    pub position: (i32, i32),
    pub velocity: (i32, i32),
}

impl Point {
    /// The column of the point after `t` seconds.
    pub open spec fn x_at(self, t: int) -> int {
        self.position.0 + t * self.velocity.0
    }

    /// The row of the point after `t` seconds.
    pub open spec fn y_at(self, t: int) -> int {
        self.position.1 + t * self.velocity.1
    }

    /// Moves the point by `n` seconds.
    pub fn evolve(&mut self, n: i32)
        requires
            i32::MIN <= old(self).x_at(n as int) <= i32::MAX,
            i32::MIN <= old(self).y_at(n as int) <= i32::MAX,
        ensures
            final(self).position == ((old(self).x_at(n as int)) as i32, (old(self).y_at(n as int)) as i32),
            final(self).velocity == old(self).velocity,
    {
        let x = self.position.0 as i64 + n as i64 * self.velocity.0 as i64;
        let y = self.position.1 as i64 + n as i64 * self.velocity.1 as i64;
        self.position = (x as i32, y as i32);
    }
}

/// The column (`across`) or row of the point `p` after `t` seconds.
pub open spec fn coord_at(p: Point, t: int, across: bool) -> int {
    if across {
        p.x_at(t)
    } else {
        p.y_at(t)
    }
}

/// The least column (`across`) or row of the first `k` points after `t` seconds.
pub open spec fn min_at(ps: Seq<Point>, t: int, k: nat, across: bool) -> int
    decreases k,
{
    if k <= 1 {
        coord_at(ps[0], t, across)
    } else {
        let m = min_at(ps, t, (k - 1) as nat, across);
        if coord_at(ps[k - 1], t, across) < m {
            coord_at(ps[k - 1], t, across)
        } else {
            m
        }
    }
}

/// The greatest column (`across`) or row of the first `k` points after `t` seconds.
pub open spec fn max_at(ps: Seq<Point>, t: int, k: nat, across: bool) -> int
    decreases k,
{
    if k <= 1 {
        coord_at(ps[0], t, across)
    } else {
        let m = max_at(ps, t, (k - 1) as nat, across);
        if coord_at(ps[k - 1], t, across) > m {
            coord_at(ps[k - 1], t, across)
        } else {
            m
        }
    }
}

/// The height of the points after `t` seconds.
pub open spec fn height_at(ps: Seq<Point>, t: int) -> int {
    max_at(ps, t, ps.len(), false) - min_at(ps, t, ps.len(), false)
}

/// The first second `s >= t` after which the height grows, looking at most
/// `fuel` seconds further.
pub open spec fn closest_time(ps: Seq<Point>, t: nat, fuel: nat) -> Option<nat>
    decreases fuel,
{
    if height_at(ps, t + 1 as int) > height_at(ps, t as int) {
        Some(t)
    } else if fuel == 0 {
        None
    } else {
        closest_time(ps, t + 1, (fuel - 1) as nat)
    }
}

proof fn lemma_closest_time_bounded(ps: Seq<Point>, t: nat, fuel: nat)
    ensures
        closest_time(ps, t, fuel) matches Some(s) ==> t <= s <= t + fuel,
    decreases fuel,
{
    if fuel > 0 {
        lemma_closest_time_bounded(ps, t + 1, (fuel - 1) as nat);
    }
}

/// The two signed numbers of `s` written `<a>,<b>`, with blanks allowed around each.
pub open spec fn pair_of(s: Seq<char>) -> Option<(i32, i32)> {
    match first_index(s, ',') {
        Some(k) => match (i32_of(trim_blanks(s.take(k as int))), i32_of(trim_blanks(s.skip(k + 1 as int)))) {
            (Some(a), Some(b)) => Some((a, b)),
            _ => None,
        },
        None => None,
    }
}

/// The point that a line `position=<x, y> velocity=<vx, vy>` gives, if it is one.
pub open spec fn point_of(l: Seq<char>) -> Option<Point> {
    let head = seq!['p', 'o', 's', 'i', 't', 'i', 'o', 'n', '=', '<'];
    let mid = seq![' ', 'v', 'e', 'l', 'o', 'c', 'i', 't', 'y', '=', '<'];
    if l.len() >= 10 && l.take(10) == head {
        let r1 = l.skip(10);
        match first_index(r1, '>') {
            Some(i) => {
                let after = r1.skip(i + 1 as int);
                if after.len() >= 11 && after.take(11) == mid {
                    let r2 = after.skip(11);
                    match first_index(r2, '>') {
                        Some(j) => match (pair_of(r1.take(i as int)), pair_of(r2.take(j as int))) {
                            (Some(p), Some(v)) => Some(Point { position: p, velocity: v }),
                            _ => None,
                        },
                        None => None,
                    }
                } else {
                    None
                }
            },
            None => None,
        }
    } else {
        None
    }
}

/// The points of lines `0..k` of `ls`; lines that are not one are passed over.
pub open spec fn points_of(ls: Seq<Seq<char>>, k: nat) -> Seq<Point>
    decreases k,
{
    if k == 0 {
        Seq::empty()
    } else {
        let p = points_of(ls, (k - 1) as nat);
        match point_of(ls[k - 1]) {
            Some(q) => p.push(q),
            None => p,
        }
    }
}

/// Reads `<a>,<b>` from `s[lo..hi]`.
fn parse_pair(s: &Vec<char>, lo: usize, hi: usize) -> (r: Option<(i32, i32)>)
    requires
        lo <= hi <= s@.len(),
    ensures
        r == pair_of(s@.subrange(lo as int, hi as int)),
{
    let ghost t = s@.subrange(lo as int, hi as int);
    let k = match find_char(s, lo, hi, ',') {
        None => {
            return None;
        },
        Some(k) => k,
    };
    assert(t.take(k as int) =~= s@.subrange(lo as int, lo + k));
    assert(t.skip(k + 1 as int) =~= s@.subrange(lo + k + 1, hi as int));
    let (a0, a1) = trim_range(s, lo, lo + k);
    let (b0, b1) = trim_range(s, lo + k + 1, hi);
    match (parse_i32(s, a0, a1), parse_i32(s, b0, b1)) {
        (Some(a), Some(b)) => Some((a, b)),
        _ => None,
    }
}

/// Reads a point written `position=<x, y> velocity=<vx, vy>`.
pub fn parse_point(l: &Vec<char>) -> (r: Option<Point>)
    ensures
        r == point_of(l@),
{
    let n = l.len();
    let head = ['p', 'o', 's', 'i', 't', 'i', 'o', 'n', '=', '<'];
    let mid = [' ', 'v', 'e', 'l', 'o', 'c', 'i', 't', 'y', '=', '<'];
    assert(head@ =~= seq!['p', 'o', 's', 'i', 't', 'i', 'o', 'n', '=', '<']);
    assert(mid@ =~= seq![' ', 'v', 'e', 'l', 'o', 'c', 'i', 't', 'y', '=', '<']);
    assert(l@.subrange(0, n as int) =~= l@);
    if !starts_with_at(l, 0, n, &head) {
        return None;
    }
    let ghost r1 = l@.skip(10);
    assert(r1 =~= l@.subrange(10, n as int));
    let i = match find_char(l, 10, n, '>') {
        None => {
            return None;
        },
        Some(i) => i,
    };
    let ghost after = r1.skip(i + 1 as int);
    assert(after =~= l@.subrange(10 + i + 1, n as int));
    if !starts_with_at(l, 10 + i + 1, n, &mid) {
        return None;
    }
    let s2 = 10 + i + 1 + 11;
    let ghost r2 = after.skip(11);
    assert(r2 =~= l@.subrange(s2 as int, n as int));
    let j = match find_char(l, s2, n, '>') {
        None => {
            return None;
        },
        Some(j) => j,
    };
    assert(r1.take(i as int) =~= l@.subrange(10, 10 + i));
    assert(r2.take(j as int) =~= l@.subrange(s2 as int, s2 + j));
    match (parse_pair(l, 10, 10 + i), parse_pair(l, s2, s2 + j)) {
        (Some(p), Some(v)) => Some(Point { position: p, velocity: v }),
        _ => None,
    }
}

/// Reads one point per line; lines that are not one are passed over.
pub fn parse_input(input: String) -> (r: Vec<Point>)
    ensures
        r@ == points_of(lines(input@), lines(input@).len()),
{
    let cs = chars_of(input.as_str());
    let ls = line_ranges(&cs);
    let ghost lv = lines(input@);
    let mut out: Vec<Point> = Vec::new();
    let mut k: usize = 0;
    while k < ls.len()
        invariant
            cs@ == input@,
            lv == lines(input@),
            ranges_within(ls@, cs@.len()),
            pieces(cs@, ls@) == lv,
            k <= ls@.len(),
            points_of(lv, k as nat) == out@,
        decreases ls@.len() - k,
    {
        assert(lv[k as int] == cs@.subrange(ls@[k as int].0 as int, ls@[k as int].1 as int));
        let line = copy_range(&cs, ls[k].0, ls[k].1);
        match parse_point(&line) {
            None => {},
            Some(p) => {
                out.push(p);
            },
        }
        k = k + 1;
    }
    out
}

/// Some point is at the cell `(x, y)` after `t` seconds.
pub open spec fn lit(ps: Seq<Point>, t: int, x: int, y: int) -> bool {
    exists|i: int| 0 <= i < ps.len() && (#[trigger] ps[i]).x_at(t) == x && ps[i].y_at(t) == y
}

/// The column (`across`) or row of the point after `t` seconds.
fn coord_now(p: &Point, t: usize, across: bool) -> (r: i64)
    requires
        t <= MAX_SECONDS + 1,
    ensures
        r == coord_at(*p, t as int, across),
        -0x20_0000_0000_0000 <= r <= 0x20_0000_0000_0000,
{
    let (x, v) = if across {
        (p.position.0 as i64, p.velocity.0 as i64)
    } else {
        (p.position.1 as i64, p.velocity.1 as i64)
    };
    assert(-0x8000_0000 * 0x10_0001 <= (t as int) * v <= 0x8000_0000 * 0x10_0001) by (nonlinear_arith)
        requires
            0 <= t <= 0x10_0001,
            -0x8000_0000 <= v < 0x8000_0000,
    ;
    x + t as i64 * v
}

/// The least and the greatest column (`across`) or row of the points after `t` seconds.
pub fn range(points: &[Point], t: usize, across: bool) -> (r: (i64, i64))
    requires
        points@.len() > 0,
        t <= MAX_SECONDS + 1,
    ensures
        r.0 == min_at(points@, t as int, points@.len(), across),
        r.1 == max_at(points@, t as int, points@.len(), across),
        -0x20_0000_0000_0000 <= r.0 <= r.1 <= 0x20_0000_0000_0000,
{
    let first = coord_now(&points[0], t, across);
    let mut lo = first;
    let mut hi = first;
    let mut k: usize = 1;
    while k < points.len()
        invariant
            1 <= k <= points@.len(),
            t <= MAX_SECONDS + 1,
            lo == min_at(points@, t as int, k as nat, across),
            hi == max_at(points@, t as int, k as nat, across),
            -0x20_0000_0000_0000 <= lo <= hi <= 0x20_0000_0000_0000,
        decreases points@.len() - k,
    {
        let c = coord_now(&points[k], t, across);
        if c < lo {
            lo = c;
        }
        if c > hi {
            hi = c;
        }
        k = k + 1;
    }
    (lo, hi)
}

/// The height of the points after `t` seconds.
pub fn get_height(points: &[Point], t: usize) -> (r: i64)
    requires
        points@.len() > 0,
        t <= MAX_SECONDS + 1,
    ensures
        r == height_at(points@, t as int),
{
    let (lo, hi) = range(points, t, false);
    hi - lo
}

/// The second after which the points are closest together: the first after
/// which their height grows; `None` where that is not within `max_steps`
/// seconds.
pub fn part2(points: &[Point], max_steps: usize) -> (r: Option<usize>)
    requires
        points@.len() > 0,
        max_steps <= MAX_SECONDS,
    ensures
        match closest_time(points@, 0, max_steps as nat) {
            Some(s) => r == Some(s as usize),
            None => r is None,
        },
{
    let mut t: usize = 0;
    let mut height = get_height(points, 0);
    while t <= max_steps
        invariant
            points@.len() > 0,
            max_steps <= MAX_SECONDS,
            t <= max_steps + 1,
            t <= max_steps ==> height == height_at(points@, t as int),
            t <= max_steps ==> closest_time(points@, 0, max_steps as nat) == closest_time(
                points@,
                t as nat,
                (max_steps - t) as nat,
            ),
            t > max_steps ==> closest_time(points@, 0, max_steps as nat) is None,
        decreases max_steps + 1 - t,
    {
        let next = get_height(points, t + 1);
        if next > height {
            return Some(t);
        }
        if t == max_steps {
            return None;
        }
        height = next;
        t = t + 1;
    }
    None
}

/// Whether some point is at the cell `(x, y)` after `t` seconds.
fn is_lit(points: &[Point], t: usize, x: i64, y: i64) -> (r: bool)
    requires
        t <= MAX_SECONDS + 1,
    ensures
        r == lit(points@, t as int, x as int, y as int),
{
    let mut i: usize = 0;
    while i < points.len()
        invariant
            t <= MAX_SECONDS + 1,
            i <= points@.len(),
            forall|j: int| 0 <= j < i ==> !((#[trigger] points@[j]).x_at(t as int) == x && points@[j].y_at(t as int) == y),
        decreases points@.len() - i,
    {
        if coord_now(&points[i], t, true) == x && coord_now(&points[i], t, false) == y {
            assert(points@[i as int].x_at(t as int) == x);
            return true;
        }
        i = i + 1;
    }
    false
}

/// The number of cells of the smallest box that holds the points after `t` seconds.
pub open spec fn box_cells(ps: Seq<Point>, t: int) -> int {
    (max_at(ps, t, ps.len(), true) - min_at(ps, t, ps.len(), true) + 1) * (max_at(ps, t, ps.len(), false)
        - min_at(ps, t, ps.len(), false) + 1)
}

/// `rows` draws the points after `t` seconds in the smallest box that holds
/// them: one row per line, top row first, `#` where a point is and a blank
/// elsewhere.
pub open spec fn pictures(ps: Seq<Point>, t: int, rows: Seq<Vec<char>>) -> bool {
    let x0 = min_at(ps, t, ps.len(), true);
    let y0 = min_at(ps, t, ps.len(), false);
    let w = max_at(ps, t, ps.len(), true) - x0 + 1;
    let h = max_at(ps, t, ps.len(), false) - y0 + 1;
    &&& rows.len() == h
    &&& forall|y: int| 0 <= y < h ==> (#[trigger] rows[y])@.len() == w
    &&& forall|y: int, x: int| 0 <= y < h && 0 <= x < w ==> (#[trigger] rows[y]@[x] == '#') == lit(ps, t, x0 + x, y0 + y)
    &&& forall|y: int, x: int| 0 <= y < h && 0 <= x < w ==> #[trigger] rows[y]@[x] == '#' || rows[y]@[x] == ' '
}

/// The message: the points after `t` seconds drawn in the smallest box that
/// holds them; `None` where the box has more than `MAX_SECONDS` cells.
pub fn draw(points: &[Point], t: usize) -> (r: Option<Vec<Vec<char>>>)
    requires
        points@.len() > 0,
        t <= MAX_SECONDS + 1,
    ensures
        r matches Some(rows) ==> pictures(points@, t as int, rows@),
        r is None <==> box_cells(points@, t as int) > MAX_SECONDS,
{
    let (x0, x1) = range(points, t, true);
    let (y0, y1) = range(points, t, false);
    let w = x1 - x0 + 1;
    let h = y1 - y0 + 1;
    if w > MAX_SECONDS as i64 || h > MAX_SECONDS as i64 {
        assert(w * h > MAX_SECONDS) by (nonlinear_arith)
            requires
                w >= 1,
                h >= 1,
                w > MAX_SECONDS || h > MAX_SECONDS,
        ;
        return None;
    }
    assert(w * h <= 0x100_0000_0000) by (nonlinear_arith)
        requires
            1 <= w <= 0x10_0000,
            1 <= h <= 0x10_0000,
    ;
    if w * h > MAX_SECONDS as i64 {
        return None;
    }
    let mut rows: Vec<Vec<char>> = Vec::new();
    let mut y: i64 = 0;
    while y < h
        invariant
            points@.len() > 0,
            t <= MAX_SECONDS + 1,
            1 <= w <= MAX_SECONDS,
            1 <= h <= MAX_SECONDS,
            -0x20_0000_0000_0000 <= x0 <= 0x20_0000_0000_0000,
            -0x20_0000_0000_0000 <= y0 <= 0x20_0000_0000_0000,
            0 <= y <= h,
            rows@.len() == y,
            forall|yy: int| 0 <= yy < y ==> (#[trigger] rows@[yy])@.len() == w,
            forall|yy: int, x: int|
                0 <= yy < y && 0 <= x < w ==> (#[trigger] rows@[yy]@[x] == '#') == lit(points@, t as int, x0 + x, y0 + yy),
            forall|yy: int, x: int| 0 <= yy < y && 0 <= x < w ==> #[trigger] rows@[yy]@[x] == '#' || rows@[yy]@[x] == ' ',
        decreases h - y,
    {
        let mut row: Vec<char> = Vec::new();
        let mut x: i64 = 0;
        while x < w
            invariant
                t <= MAX_SECONDS + 1,
                1 <= w <= MAX_SECONDS,
                -0x20_0000_0000_0000 <= x0 <= 0x20_0000_0000_0000,
                -0x20_0000_0000_0000 <= y0 <= 0x20_0000_0000_0000,
                0 <= y < h <= MAX_SECONDS,
                0 <= x <= w,
                row@.len() == x,
                forall|xx: int| 0 <= xx < x ==> (#[trigger] row@[xx] == '#') == lit(points@, t as int, x0 + xx, y0 + y),
                forall|xx: int| 0 <= xx < x ==> #[trigger] row@[xx] == '#' || row@[xx] == ' ',
            decreases w - x,
        {
            if is_lit(points, t, x0 + x, y0 + y) {
                row.push('#');
            } else {
                row.push(' ');
            }
            x = x + 1;
        }
        rows.push(row);
        y = y + 1;
    }
    Some(rows)
}

/// The message at the moment the points are closest together, and that
/// moment; `None` where it is not found within `max_steps` seconds or the
/// picture has more than `MAX_SECONDS` cells.
pub fn part1(points: &[Point], max_steps: usize) -> (r: Option<(Vec<Vec<char>>, usize)>)
    requires
        points@.len() > 0,
        max_steps <= MAX_SECONDS,
    ensures
        match closest_time(points@, 0, max_steps as nat) {
            Some(s) => match r {
                Some((rows, s2)) => s2 == s && pictures(points@, s as int, rows@),
                None => box_cells(points@, s as int) > MAX_SECONDS,
            },
            None => r is None,
        },
{
    proof {
        lemma_closest_time_bounded(points@, 0, max_steps as nat);
    }
    match part2(points, max_steps) {
        None => None,
        Some(s) => match draw(points, s) {
            None => None,
            Some(rows) => Some((rows, s)),
        },
    }
}

} // verus!
