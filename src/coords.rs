//! Areas of the cells closest to each coordinate, and the region close to all.

use vstd::prelude::*;

use crate::fabric::{find_char, first_index};
use crate::parse::{chars_of, copy_range, line_ranges, lines, number_of, parse_number, pieces, ranges_within};

verus! {

/// The largest total distance of a cell of the safe region.
pub const SAFE_DISTANCE: u128 = 10_000;

/// `|v|`.
pub open spec fn abs(v: int) -> int {
    if v < 0 {
        -v
    } else {
        v
    }
}

/// The Manhattan distance from the coordinate `p` to the cell `(x, y)`.
pub open spec fn dist(p: (usize, usize), x: int, y: int) -> int {
    abs(p.0 - x) + abs(p.1 - y)
}

/// Coordinate `i` is closer to the cell `(x, y)` than every other coordinate.
pub open spec fn sole_closest(cs: Seq<(usize, usize)>, i: int, x: int, y: int) -> bool {
    &&& 0 <= i < cs.len()
    &&& forall|j: int| 0 <= j < cs.len() && j != i ==> dist(cs[i], x, y) < #[trigger] dist(cs[j], x, y)
}

/// The cell `(x, y)` lies on the edge of the box `x0..=x1` by `y0..=y1`.
pub open spec fn on_edge(x: int, y: int, x0: int, x1: int, y0: int, y1: int) -> bool {
    x == x0 || x == x1 || y == y0 || y == y1
}

/// How many cells `(x, j)` with `y0 <= j < y` coordinate `i` is the sole closest
/// to (only cells on the edge of the box `bx` where `edge` is set).
pub open spec fn won_in_column(
    cs: Seq<(usize, usize)>,
    i: int,
    x: int,
    y0: int,
    y: int,
    bx: (int, int, int, int),
    edge: bool,
) -> nat
    decreases y - y0,
{
    if y <= y0 {
        0
    } else {
        won_in_column(cs, i, x, y0, y - 1, bx, edge) + if sole_closest(cs, i, x, y - 1) && (!edge || on_edge(
            x,
            y - 1,
            bx.0,
            bx.1,
            bx.2,
            bx.3,
        )) {
            1nat
        } else {
            0
        }
    }
}

/// How many cells of columns `x0..x` and rows `bx.2..=bx.3` coordinate `i`
/// is the sole closest to (only cells on the edge of the box where `edge` is set).
pub open spec fn won_in_columns(cs: Seq<(usize, usize)>, i: int, x0: int, x: int, bx: (int, int, int, int), edge: bool) -> nat
    decreases x - x0,
{
    if x <= x0 {
        0
    } else {
        won_in_columns(cs, i, x0, x - 1, bx, edge) + won_in_column(cs, i, x - 1, bx.2, bx.3 + 1, bx, edge)
    }
}

/// The area of coordinate `i` in the box `bx`: the cells it is the sole closest to.
pub open spec fn area_in(cs: Seq<(usize, usize)>, i: int, bx: (int, int, int, int)) -> nat {
    won_in_columns(cs, i, bx.0, bx.1 + 1, bx, false)
}

/// Coordinate `i` is the sole closest to a cell on the edge of the box `bx`,
/// so its area goes on beyond the box for ever.
pub open spec fn reaches_edge(cs: Seq<(usize, usize)>, i: int, bx: (int, int, int, int)) -> bool {
    won_in_columns(cs, i, bx.0, bx.1 + 1, bx, true) > 0
}

/// The largest area in the box `bx` of one of the first `k` coordinates whose
/// area does not reach its edge; `None` where there is none.
pub open spec fn largest_finite(cs: Seq<(usize, usize)>, bx: (int, int, int, int), k: nat) -> Option<nat>
    decreases k,
{
    if k == 0 {
        None
    } else {
        let best = largest_finite(cs, bx, (k - 1) as nat);
        let i = k - 1;
        if reaches_edge(cs, i, bx) {
            best
        } else {
            match best {
                Some(b) => if area_in(cs, i, bx) > b {
                    Some(area_in(cs, i, bx))
                } else {
                    Some(b)
                },
                None => Some(area_in(cs, i, bx)),
            }
        }
    }
}

/// The smallest box that holds the coordinates: `(xmin, xmax, ymin, ymax)`.
pub open spec fn bounds(cs: Seq<(usize, usize)>) -> (int, int, int, int)
    decreases cs.len(),
{
    if cs.len() == 0 {
        (usize::MAX as int, 0, usize::MAX as int, 0)
    } else {
        let b = bounds(cs.drop_last());
        let p = cs.last();
        (
            if (p.0 as int) < b.0 { p.0 as int } else { b.0 },
            if (p.0 as int) > b.1 { p.0 as int } else { b.1 },
            if (p.1 as int) < b.2 { p.1 as int } else { b.2 },
            if (p.1 as int) > b.3 { p.1 as int } else { b.3 },
        )
    }
}

/// The coordinate that a line `<x>, <y>` gives, if it is one.
pub open spec fn coord_of(l: Seq<char>) -> Option<(usize, usize)> {
    match first_index(l, ',') {
        Some(i) => match (number_of(trim_blanks(l.take(i as int))), number_of(trim_blanks(l.skip(i + 1 as int)))) {
            (Some(x), Some(y)) => Some((x, y)),
            _ => None,
        },
        None => None,
    }
}

/// `s` without leading and trailing spaces.
pub open spec fn trim_blanks(s: Seq<char>) -> Seq<char>
    decreases s.len(),
{
    if s.len() > 0 && s[0] == ' ' {
        trim_blanks(s.drop_first())
    } else if s.len() > 0 && s.last() == ' ' {
        trim_blanks(s.drop_last())
    } else {
        s
    }
}

/// The coordinates of lines `0..k` of `ls`; `None` where a line is not one.
pub open spec fn coords_of(ls: Seq<Seq<char>>, k: nat) -> Option<Seq<(usize, usize)>>
    decreases k,
{
    if k == 0 {
        Some(Seq::empty())
    } else {
        match (coords_of(ls, (k - 1) as nat), coord_of(ls[k - 1])) {
            (Some(p), Some(c)) => Some(p.push(c)),
            _ => None,
        }
    }
}

/// The Manhattan distance between two points.
pub fn l1(p: (usize, usize), q: (usize, usize)) -> (r: u128)
    ensures
        r == dist(p, q.0 as int, q.1 as int),
{
    let dx = if p.0 >= q.0 {
        p.0 - q.0
    } else {
        q.0 - p.0
    };
    let dy = if p.1 >= q.1 {
        p.1 - q.1
    } else {
        q.1 - p.1
    };
    dx as u128 + dy as u128
}

/// The smallest box that holds the coordinates, as `((xmin, xmax), (ymin, ymax))`.
pub fn get_range(coords: &[(usize, usize)]) -> (r: ((usize, usize), (usize, usize)))
    ensures
        r.0.0 == bounds(coords@).0,
        r.0.1 == bounds(coords@).1,
        r.1.0 == bounds(coords@).2,
        r.1.1 == bounds(coords@).3,
{
    let (mut xmin, mut xmax) = (usize::MAX, 0usize);
    let (mut ymin, mut ymax) = (usize::MAX, 0usize);
    let mut k: usize = 0;
    while k < coords.len()
        invariant
            k <= coords@.len(),
            xmin == bounds(coords@.take(k as int)).0,
            xmax == bounds(coords@.take(k as int)).1,
            ymin == bounds(coords@.take(k as int)).2,
            ymax == bounds(coords@.take(k as int)).3,
        decreases coords@.len() - k,
    {
        assert(coords@.take(k + 1).drop_last() =~= coords@.take(k as int));
        let (x, y) = coords[k];
        if x < xmin {
            xmin = x;
        }
        if x > xmax {
            xmax = x;
        }
        if y < ymin {
            ymin = y;
        }
        if y > ymax {
            ymax = y;
        }
        k = k + 1;
    }
    assert(coords@.take(k as int) =~= coords@);
    ((xmin, xmax), (ymin, ymax))
}

/// The coordinate that is the sole closest to the cell `(x, y)`, if one is.
pub fn closest(coords: &[(usize, usize)], x: usize, y: usize) -> (r: Option<usize>)
    ensures
        match r {
            Some(i) => sole_closest(coords@, i as int, x as int, y as int),
            None => forall|i: int| !sole_closest(coords@, i, x as int, y as int),
        },
{
    if coords.len() == 0 {
        return None;
    }
    let mut best: usize = 0;
    let mut min_dist = l1(coords[0], (x, y));
    let mut unique = true;
    let mut k: usize = 1;
    while k < coords.len()
        invariant
            1 <= k <= coords@.len(),
            best < k,
            min_dist == dist(coords@[best as int], x as int, y as int),
            forall|j: int| 0 <= j < k ==> min_dist <= #[trigger] dist(coords@[j], x as int, y as int),
            unique <==> forall|j: int| 0 <= j < k && j != best ==> min_dist < #[trigger] dist(coords@[j], x as int, y as int),
        decreases coords@.len() - k,
    {
        let d = l1(coords[k], (x, y));
        if d < min_dist {
            best = k;
            min_dist = d;
            unique = true;
        } else if d == min_dist {
            unique = false;
        }
        k = k + 1;
    }
    if unique {
        Some(best)
    } else {
        assert forall|i: int| !sole_closest(coords@, i, x as int, y as int) by {
            if sole_closest(coords@, i, x as int, y as int) {
                let j = choose|j: int| 0 <= j < coords@.len() && j != best && min_dist >= dist(coords@[j], x as int, y as int);
                if i == best {
                    assert(dist(coords@[i], x as int, y as int) < dist(coords@[j], x as int, y as int));
                } else {
                    assert(dist(coords@[i], x as int, y as int) < dist(coords@[best as int], x as int, y as int));
                }
            }
        }
        None
    }
}

proof fn lemma_won_in_column_bounded(
    cs: Seq<(usize, usize)>,
    i: int,
    x: int,
    y0: int,
    y: int,
    bx: (int, int, int, int),
    edge: bool,
)
    requires
        y0 <= y,
    ensures
        won_in_column(cs, i, x, y0, y, bx, edge) <= y - y0,
    decreases y - y0,
{
    if y > y0 {
        lemma_won_in_column_bounded(cs, i, x, y0, y - 1, bx, edge);
    }
}

proof fn lemma_won_in_columns_bounded(cs: Seq<(usize, usize)>, i: int, x0: int, x: int, bx: (int, int, int, int), edge: bool)
    requires
        x0 <= x,
        bx.2 <= bx.3 + 1,
    ensures
        won_in_columns(cs, i, x0, x, bx, edge) <= (x - x0) * (bx.3 + 1 - bx.2),
    decreases x - x0,
{
    if x > x0 {
        lemma_won_in_columns_bounded(cs, i, x0, x - 1, bx, edge);
        lemma_won_in_column_bounded(cs, i, x - 1, bx.2, bx.3 + 1, bx, edge);
        assert((x - 1 - x0) * (bx.3 + 1 - bx.2) + (bx.3 + 1 - bx.2) == (x - x0) * (bx.3 + 1 - bx.2))
            by (nonlinear_arith);
    }
}

/// Where no coordinate is the sole closest to `(x, y)`, no count grows.
proof fn lemma_one_winner(cs: Seq<(usize, usize)>, i: int, k: int, x: int, y: int)
    requires
        sole_closest(cs, i, x, y),
        0 <= k < cs.len(),
        k != i,
    ensures
        !sole_closest(cs, k, x, y),
{
    assert(dist(cs[i], x, y) < dist(cs[k], x, y));
}

/// The largest area, in the box that holds the coordinates, of a coordinate
/// whose area does not reach the edge of that box (such an area goes on for
/// ever); `None` where every area does.
pub fn part1(coords: &[(usize, usize)]) -> (r: Option<usize>)
    requires
        bounds(coords@).1 < usize::MAX,
        bounds(coords@).3 < usize::MAX,
        coords@.len() > 0 ==> (bounds(coords@).1 - bounds(coords@).0 + 1) * (bounds(coords@).3 - bounds(coords@).2 + 1)
            <= usize::MAX,
    ensures
        match largest_finite(coords@, bounds(coords@), coords@.len()) {
            Some(v) => r == Some(v as usize),
            None => r is None,
        },
{
    let ((xmin, xmax), (ymin, ymax)) = get_range(coords);
    let ghost bx = bounds(coords@);
    let n = coords.len();
    let mut areas: Vec<usize> = Vec::new();
    let mut edges: Vec<usize> = Vec::new();
    while areas.len() < n
        invariant
            areas@.len() == edges@.len(),
            areas@.len() <= n,
            forall|i: int| 0 <= i < areas@.len() ==> #[trigger] areas@[i] == 0,
            forall|i: int| 0 <= i < edges@.len() ==> #[trigger] edges@[i] == 0,
        decreases n - areas@.len(),
    {
        areas.push(0);
        edges.push(0);
    }
    if n > 0 {
        proof {
            lemma_bounds_order(coords@);
        }
        let mut x: usize = xmin;
        while x <= xmax
            invariant
                n == coords@.len(),
                n > 0,
                bx == bounds(coords@),
                bx == (xmin as int, xmax as int, ymin as int, ymax as int),
                xmin <= xmax < usize::MAX,
                ymin <= ymax < usize::MAX,
                (xmax - xmin + 1) * (ymax - ymin + 1) <= usize::MAX,
                xmin <= x <= xmax + 1,
                areas@.len() == n,
                edges@.len() == n,
                forall|i: int|
                    0 <= i < n ==> #[trigger] areas@[i] == won_in_columns(coords@, i, xmin as int, x as int, bx, false),
                forall|i: int|
                    0 <= i < n ==> #[trigger] edges@[i] == won_in_columns(coords@, i, xmin as int, x as int, bx, true),
            decreases xmax + 1 - x,
        {
            let mut y: usize = ymin;
            while y <= ymax
                invariant
                    n == coords@.len(),
                    bx == (xmin as int, xmax as int, ymin as int, ymax as int),
                    xmin <= x <= xmax < usize::MAX,
                    ymin <= y <= ymax + 1,
                    ymax < usize::MAX,
                    (xmax - xmin + 1) * (ymax - ymin + 1) <= usize::MAX,
                    areas@.len() == n,
                    edges@.len() == n,
                    forall|i: int|
                        0 <= i < n ==> #[trigger] areas@[i] == won_in_columns(coords@, i, xmin as int, x as int, bx, false)
                            + won_in_column(coords@, i, x as int, ymin as int, y as int, bx, false),
                    forall|i: int|
                        0 <= i < n ==> #[trigger] edges@[i] == won_in_columns(coords@, i, xmin as int, x as int, bx, true)
                            + won_in_column(coords@, i, x as int, ymin as int, y as int, bx, true),
                decreases ymax + 1 - y,
            {
                match closest(coords, x, y) {
                    None => {},
                    Some(i) => {
                        proof {
                            lemma_won_in_columns_bounded(coords@, i as int, xmin as int, x as int, bx, false);
                            lemma_won_in_column_bounded(coords@, i as int, x as int, ymin as int, y as int, bx, false);
                            lemma_won_in_columns_bounded(coords@, i as int, xmin as int, x as int, bx, true);
                            lemma_won_in_column_bounded(coords@, i as int, x as int, ymin as int, y as int, bx, true);
                            assert((x - xmin) * (ymax + 1 - ymin) + (y - ymin) < (xmax - xmin + 1) * (ymax - ymin + 1))
                                by (nonlinear_arith)
                                requires
                                    xmin <= x <= xmax,
                                    ymin <= y <= ymax,
                            ;
                            assert forall|k: int| 0 <= k < n && k != i implies !sole_closest(
                                coords@,
                                k,
                                x as int,
                                y as int,
                            ) by {
                                lemma_one_winner(coords@, i as int, k, x as int, y as int);
                            }
                        }
                        let a = areas[i];
                        areas.set(i, a + 1);
                        if x == xmin || x == xmax || y == ymin || y == ymax {
                            let e = edges[i];
                            edges.set(i, e + 1);
                        }
                    },
                }
                y = y + 1;
            }
            x = x + 1;
        }
    }
    let mut best: Option<usize> = None;
    let mut k: usize = 0;
    while k < n
        invariant
            n == coords@.len(),
            bx == bounds(coords@),
            k <= n,
            areas@.len() == n,
            edges@.len() == n,
            forall|i: int| 0 <= i < n ==> #[trigger] areas@[i] == area_in(coords@, i, bx),
            forall|i: int| 0 <= i < n ==> (#[trigger] edges@[i] > 0) == reaches_edge(coords@, i, bx),
            largest_finite(coords@, bx, k as nat) == (match best {
                Some(b) => Some(b as nat),
                None => None::<nat>,
            }),
        decreases n - k,
    {
        if edges[k] == 0 {
            match best {
                Some(b) => {
                    if areas[k] > b {
                        best = Some(areas[k]);
                    }
                },
                None => {
                    best = Some(areas[k]);
                },
            }
        }
        k = k + 1;
    }
    best
}

proof fn lemma_bounds_order(cs: Seq<(usize, usize)>)
    requires
        cs.len() > 0,
    ensures
        bounds(cs).0 <= bounds(cs).1,
        bounds(cs).2 <= bounds(cs).3,
    decreases cs.len(),
{
    if cs.len() > 1 {
        lemma_bounds_order(cs.drop_last());
    }
}

/// The sum of the distances from the first `k` coordinates to the cell `(x, y)`.
pub open spec fn total_dist(cs: Seq<(usize, usize)>, x: int, y: int, k: nat) -> int
    decreases k,
{
    if k == 0 {
        0
    } else {
        total_dist(cs, x, y, (k - 1) as nat) + dist(cs[k - 1], x, y)
    }
}

/// How many cells `(x, j)` with `y0 <= j < y` have a total distance below `SAFE_DISTANCE`.
pub open spec fn safe_in_column(cs: Seq<(usize, usize)>, x: int, y0: int, y: int) -> nat
    decreases y - y0,
{
    if y <= y0 {
        0
    } else {
        safe_in_column(cs, x, y0, y - 1) + if total_dist(cs, x, y - 1, cs.len()) < SAFE_DISTANCE {
            1nat
        } else {
            0
        }
    }
}

/// How many cells of columns `x0..x` and rows `y0..y1` have a total distance
/// below `SAFE_DISTANCE`.
pub open spec fn safe_in_columns(cs: Seq<(usize, usize)>, x0: int, x: int, y0: int, y1: int) -> nat
    decreases x - x0,
{
    if x <= x0 {
        0
    } else {
        safe_in_columns(cs, x0, x - 1, y0, y1) + safe_in_column(cs, x - 1, y0, y1)
    }
}

proof fn lemma_safe_in_column_bounded(cs: Seq<(usize, usize)>, x: int, y0: int, y: int)
    requires
        y0 <= y,
    ensures
        safe_in_column(cs, x, y0, y) <= y - y0,
    decreases y - y0,
{
    if y > y0 {
        lemma_safe_in_column_bounded(cs, x, y0, y - 1);
    }
}

proof fn lemma_safe_in_columns_bounded(cs: Seq<(usize, usize)>, x0: int, x: int, y0: int, y1: int)
    requires
        x0 <= x,
        y0 <= y1,
    ensures
        safe_in_columns(cs, x0, x, y0, y1) <= (x - x0) * (y1 - y0),
    decreases x - x0,
{
    if x > x0 {
        lemma_safe_in_columns_bounded(cs, x0, x - 1, y0, y1);
        lemma_safe_in_column_bounded(cs, x - 1, y0, y1);
        assert((x - 1 - x0) * (y1 - y0) + (y1 - y0) == (x - x0) * (y1 - y0)) by (nonlinear_arith);
    }
}

/// The sum of the distances from every coordinate to the cell `(x, y)`.
pub fn total_distance(coords: &[(usize, usize)], x: usize, y: usize) -> (r: u128)
    requires
        coords@.len() <= u32::MAX,
    ensures
        r == total_dist(coords@, x as int, y as int, coords@.len()),
{
    let mut t: u128 = 0;
    let mut k: usize = 0;
    while k < coords.len()
        invariant
            coords@.len() <= u32::MAX,
            k <= coords@.len(),
            t == total_dist(coords@, x as int, y as int, k as nat),
            t <= k * 0x4_0000_0000_0000_0000u128,
        decreases coords@.len() - k,
    {
        let d = l1(coords[k], (x, y));
        assert((k + 1) * 0x4_0000_0000_0000_0000u128 <= 0x1_0000_0000 * 0x4_0000_0000_0000_0000u128) by (nonlinear_arith)
            requires
                k + 1 <= 0x1_0000_0000,
        ;
        t = t + d;
        k = k + 1;
    }
    t
}

/// The size of the region of cells, in the box that holds the coordinates,
/// whose total distance to all coordinates is below `SAFE_DISTANCE`.
pub fn part2(coords: &[(usize, usize)]) -> (r: usize)
    requires
        coords@.len() <= u32::MAX,
        bounds(coords@).1 < usize::MAX,
        bounds(coords@).3 < usize::MAX,
        coords@.len() > 0 ==> (bounds(coords@).1 - bounds(coords@).0 + 1) * (bounds(coords@).3 - bounds(coords@).2 + 1)
            <= usize::MAX,
    ensures
        coords@.len() > 0 ==> r == safe_in_columns(
            coords@,
            bounds(coords@).0,
            bounds(coords@).1 + 1,
            bounds(coords@).2,
            bounds(coords@).3 + 1,
        ),
        coords@.len() == 0 ==> r == 0,
{
    let ((xmin, xmax), (ymin, ymax)) = get_range(coords);
    if coords.len() == 0 {
        return 0;
    }
    proof {
        lemma_bounds_order(coords@);
    }
    let mut c: usize = 0;
    let mut x: usize = xmin;
    while x <= xmax
        invariant
            coords@.len() <= u32::MAX,
            xmin <= xmax < usize::MAX,
            ymin <= ymax < usize::MAX,
            (xmax - xmin + 1) * (ymax - ymin + 1) <= usize::MAX,
            xmin <= x <= xmax + 1,
            c == safe_in_columns(coords@, xmin as int, x as int, ymin as int, ymax + 1),
        decreases xmax + 1 - x,
    {
        proof {
            lemma_safe_in_columns_bounded(coords@, xmin as int, x as int, ymin as int, ymax + 1);
        }
        let mut y: usize = ymin;
        while y <= ymax
            invariant
                coords@.len() <= u32::MAX,
                xmin <= x <= xmax < usize::MAX,
                ymin <= y <= ymax + 1,
                ymax < usize::MAX,
                (xmax - xmin + 1) * (ymax - ymin + 1) <= usize::MAX,
                safe_in_columns(coords@, xmin as int, x as int, ymin as int, ymax + 1) <= (x - xmin) * (ymax + 1 - ymin),
                c == safe_in_columns(coords@, xmin as int, x as int, ymin as int, ymax + 1) + safe_in_column(
                    coords@,
                    x as int,
                    ymin as int,
                    y as int,
                ),
            decreases ymax + 1 - y,
        {
            proof {
                lemma_safe_in_column_bounded(coords@, x as int, ymin as int, y as int);
                assert((x - xmin) * (ymax + 1 - ymin) + (ymax + 1 - ymin) <= (xmax - xmin + 1) * (ymax - ymin + 1))
                    by (nonlinear_arith)
                    requires
                        xmin <= x <= xmax,
                        ymin <= ymax,
                ;
            }
            if total_distance(coords, x, y) < SAFE_DISTANCE {
                c = c + 1;
            }
            y = y + 1;
        }
        x = x + 1;
    }
    c
}

/// The range `lo..hi` of `s` without leading and trailing spaces.
pub fn trim_range(s: &Vec<char>, lo: usize, hi: usize) -> (r: (usize, usize))
    requires
        lo <= hi <= s@.len(),
    ensures
        lo <= r.0 <= r.1 <= hi,
        s@.subrange(r.0 as int, r.1 as int) == trim_blanks(s@.subrange(lo as int, hi as int)),
{
    let mut a = lo;
    let mut b = hi;
    while a < b && s[a] == ' '
        invariant
            lo <= a <= b <= hi <= s@.len(),
            b == hi,
            trim_blanks(s@.subrange(a as int, b as int)) == trim_blanks(s@.subrange(lo as int, hi as int)),
        decreases b - a,
    {
        assert(s@.subrange(a as int, b as int).drop_first() =~= s@.subrange(a + 1, b as int));
        a = a + 1;
    }
    while a < b && s[b - 1] == ' '
        invariant
            lo <= a <= b <= hi <= s@.len(),
            a < b ==> s@[a as int] != ' ',
            trim_blanks(s@.subrange(a as int, b as int)) == trim_blanks(s@.subrange(lo as int, hi as int)),
        decreases b - a,
    {
        assert(s@.subrange(a as int, b as int).drop_last() =~= s@.subrange(a as int, b - 1));
        b = b - 1;
    }
    (a, b)
}

/// Reads a coordinate written `<x>, <y>`.
pub fn parse_coord(l: &Vec<char>) -> (r: Option<(usize, usize)>)
    ensures
        r == coord_of(l@),
{
    let n = l.len();
    assert(l@.subrange(0, n as int) =~= l@);
    let i = match find_char(l, 0, n, ',') {
        None => {
            return None;
        },
        Some(i) => i,
    };
    assert(l@.take(i as int) =~= l@.subrange(0, i as int));
    assert(l@.skip(i + 1 as int) =~= l@.subrange(i + 1, n as int));
    let (a0, a1) = trim_range(l, 0, i);
    let (b0, b1) = trim_range(l, i + 1, n);
    match (parse_number(l, a0, a1), parse_number(l, b0, b1)) {
        (Some(x), Some(y)) => Some((x, y)),
        _ => None,
    }
}

/// Reads one coordinate per line.
pub fn parse_input(input: String) -> (r: Option<Vec<(usize, usize)>>)
    ensures
        match coords_of(lines(input@), lines(input@).len()) {
            Some(s) => r matches Some(v) && v@ == s,
            None => r is None,
        },
{
    let cs = chars_of(input.as_str());
    let ls = line_ranges(&cs);
    let ghost lv = lines(input@);
    let mut out: Vec<(usize, usize)> = Vec::new();
    let mut k: usize = 0;
    while k < ls.len()
        invariant
            cs@ == input@,
            lv == lines(input@),
            ranges_within(ls@, cs@.len()),
            pieces(cs@, ls@) == lv,
            k <= ls@.len(),
            coords_of(lv, k as nat) == Some(out@),
        decreases ls@.len() - k,
    {
        assert(lv[k as int] == cs@.subrange(ls@[k as int].0 as int, ls@[k as int].1 as int));
        let line = copy_range(&cs, ls[k].0, ls[k].1);
        match parse_coord(&line) {
            None => {
                proof {
                    lemma_coords_fail_stays(lv, (k + 1) as nat, lv.len());
                }
                return None;
            },
            Some(c) => {
                out.push(c);
            },
        }
        k = k + 1;
    }
    Some(out)
}

proof fn lemma_coords_fail_stays(ls: Seq<Seq<char>>, k: nat, m: nat)
    requires
        k <= m,
        coords_of(ls, k) is None,
    ensures
        coords_of(ls, m) is None,
    decreases m - k,
{
    if k < m {
        lemma_coords_fail_stays(ls, k, (m - 1) as nat);
    }
}

} // verus!
