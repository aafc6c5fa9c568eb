//! Nanobots: positions, signal radii, and those in range of the strongest.

use vstd::prelude::*;

use crate::fabric::{find_char, first_index};
use crate::parse::{
    chars_of, copy_range, i32_of, line_ranges, lines, number_of, parse_i32, parse_number, pieces,
    ranges_within,
};

verus! {

/// A nanobot: its position and its signal radius.
#[derive(Clone, Copy, Debug)]
pub struct Nanobot {
    pub coord: [i32; 3],
    pub r: i32,
}

/// `|v|`.
pub open spec fn abs(v: int) -> int {
    if v < 0 {
        -v
    } else {
        v
    }
}

/// The Manhattan distance between two points.
pub open spec fn manhattan(p: Seq<i32>, q: Seq<i32>) -> int {
    abs(p[0] - q[0]) + abs(p[1] - q[1]) + abs(p[2] - q[2])
}

/// The three numbers of `s` written `<a>,<b>,<c>`, each signed.
pub open spec fn triple_of(s: Seq<char>) -> Option<(i32, i32, i32)> {
    match first_index(s, ',') {
        Some(i) => {
            let rest = s.skip(i + 1 as int);
            match first_index(rest, ',') {
                Some(k) => match (i32_of(s.take(i as int)), i32_of(rest.take(k as int)), i32_of(rest.skip(k + 1 as int))) {
                    (Some(a), Some(b), Some(c)) => Some((a, b, c)),
                    _ => None,
                },
                None => None,
            }
        },
        None => None,
    }
}

/// The nanobot that a line `pos=<x,y,z>, r=<radius>` gives, if it is one:
/// `(x, y, z, radius)`.
pub open spec fn bot_of(l: Seq<char>) -> Option<(i32, i32, i32, i32)> {
    if l.len() >= 5 && l.take(5) == seq!['p', 'o', 's', '=', '<'] {
        let rest = l.skip(5);
        match first_index(rest, '>') {
            Some(k) => {
                let tail = rest.skip(k + 1 as int);
                if tail.len() >= 4 && tail.take(4) == seq![',', ' ', 'r', '='] {
                    match (triple_of(rest.take(k as int)), number_of(tail.skip(4))) {
                        (Some((x, y, z)), Some(r)) => if r <= i32::MAX {
                            Some((x, y, z, r as i32))
                        } else {
                            None
                        },
                        _ => None,
                    }
                } else {
                    None
                }
            },
            None => None,
        }
    } else {
        None
    }
}

/// The nanobots of lines `0..k` of `ls`; `None` where a line is not one.
pub open spec fn bots_of(ls: Seq<Seq<char>>, k: nat) -> Option<Seq<(i32, i32, i32, i32)>>
    decreases k,
{
    if k == 0 {
        Some(Seq::empty())
    } else {
        match (bots_of(ls, (k - 1) as nat), bot_of(ls[k - 1])) {
            (Some(p), Some(b)) => Some(p.push(b)),
            _ => None,
        }
    }
}

/// The nanobot as a tuple of its position and radius.
pub open spec fn bot_view(b: Nanobot) -> (i32, i32, i32, i32) {
    (b.coord[0], b.coord[1], b.coord[2], b.r)
}

/// The index of the strongest nanobot (largest radius; the last of those
/// where several have it).
pub open spec fn strongest(bots: Seq<Nanobot>) -> int
    decreases bots.len(),
{
    if bots.len() <= 1 {
        0
    } else {
        let b = strongest(bots.drop_last());
        if bots.last().r >= bots[b].r {
            bots.len() - 1
        } else {
            b
        }
    }
}

/// How many of the first `k` nanobots lie within radius `r` of `p`.
pub open spec fn in_range_count(bots: Seq<Nanobot>, p: Seq<i32>, r: int, k: nat) -> nat
    decreases k,
{
    if k == 0 {
        0
    } else {
        in_range_count(bots, p, r, (k - 1) as nat) + if manhattan(p, bots[k - 1].coord@) <= r {
            1nat
        } else {
            0
        }
    }
}

impl Nanobot {
    /// The Manhattan distance from the nanobot to `point`.
    pub fn distance(&self, point: [i32; 3]) -> (r: i64)
        ensures
            r == manhattan(self.coord@, point@),
    {
        let mut d: i64 = 0;
        let mut k: usize = 0;
        while k < 3
            invariant
                k <= 3,
                d == (if k > 0 {
                    abs(self.coord@[0] - point@[0])
                } else {
                    0
                }) + (if k > 1 {
                    abs(self.coord@[1] - point@[1])
                } else {
                    0
                }) + (if k > 2 {
                    abs(self.coord@[2] - point@[2])
                } else {
                    0
                }),
            decreases 3 - k,
        {
            let diff = self.coord[k] as i64 - point[k] as i64;
            d = d + if diff < 0 {
                -diff
            } else {
                diff
            };
            k = k + 1;
        }
        d
    }
}

/// Whether `s[lo..hi]` starts with the characters of `p`.
pub fn starts_with_at(s: &Vec<char>, lo: usize, hi: usize, p: &[char]) -> (r: bool)
    requires
        lo <= hi <= s@.len(),
    ensures
        r == (hi - lo >= p@.len() && s@.subrange(lo as int, hi as int).take(p@.len() as int) == p@),
{
    if hi - lo < p.len() {
        return false;
    }
    let mut k: usize = 0;
    while k < p.len()
        invariant
            lo + p@.len() <= hi <= s@.len(),
            k <= p@.len(),
            forall|m: int| 0 <= m < k ==> s@[lo + m] == p@[m],
        decreases p@.len() - k,
    {
        if s[lo + k] != p[k] {
            assert(s@.subrange(lo as int, hi as int).take(p@.len() as int)[k as int] != p@[k as int]);
            return false;
        }
        k = k + 1;
    }
    assert(s@.subrange(lo as int, hi as int).take(p@.len() as int) =~= p@);
    true
}

/// Reads `<a>,<b>,<c>` from `s[lo..hi]`.
fn parse_triple(s: &Vec<char>, lo: usize, hi: usize) -> (r: Option<(i32, i32, i32)>)
    requires
        lo <= hi <= s@.len(),
    ensures
        r == triple_of(s@.subrange(lo as int, hi as int)),
{
    let ghost t = s@.subrange(lo as int, hi as int);
    let i = match find_char(s, lo, hi, ',') {
        None => {
            return None;
        },
        Some(i) => i,
    };
    let ghost rest = t.skip(i + 1 as int);
    assert(rest =~= s@.subrange(lo + i + 1, hi as int));
    let k = match find_char(s, lo + i + 1, hi, ',') {
        None => {
            return None;
        },
        Some(k) => k,
    };
    assert(t.take(i as int) =~= s@.subrange(lo as int, lo + i));
    assert(rest.take(k as int) =~= s@.subrange(lo + i + 1, lo + i + 1 + k));
    assert(rest.skip(k + 1 as int) =~= s@.subrange(lo + i + 1 + k + 1, hi as int));
    let a = parse_i32(s, lo, lo + i);
    let b = parse_i32(s, lo + i + 1, lo + i + 1 + k);
    let c = parse_i32(s, lo + i + 1 + k + 1, hi);
    match (a, b, c) {
        (Some(a), Some(b), Some(c)) => Some((a, b, c)),
        _ => None,
    }
}

/// Reads a nanobot written `pos=<x,y,z>, r=<radius>`.
pub fn parse_bot(l: &Vec<char>) -> (r: Option<Nanobot>)
    ensures
        match bot_of(l@) {
            Some(b) => r matches Some(n) && bot_view(n) == b,
            None => r is None,
        },
{
    let n = l.len();
    let head = ['p', 'o', 's', '=', '<'];
    assert(head@ =~= seq!['p', 'o', 's', '=', '<']);
    assert(l@.subrange(0, n as int) =~= l@);
    if !starts_with_at(l, 0, n, &head) {
        return None;
    }
    let ghost rest = l@.skip(5);
    assert(rest =~= l@.subrange(5, n as int));
    let k = match find_char(l, 5, n, '>') {
        None => {
            return None;
        },
        Some(k) => k,
    };
    let ghost tail = rest.skip(k + 1 as int);
    assert(tail =~= l@.subrange(5 + k + 1, n as int));
    let mid = [',', ' ', 'r', '='];
    assert(mid@ =~= seq![',', ' ', 'r', '=']);
    if !starts_with_at(l, 5 + k + 1, n, &mid) {
        return None;
    }
    assert(rest.take(k as int) =~= l@.subrange(5, 5 + k));
    assert(tail.skip(4) =~= l@.subrange(5 + k + 1 + 4, n as int));
    let t = parse_triple(l, 5, 5 + k);
    let r = parse_number(l, 5 + k + 1 + 4, n);
    match (t, r) {
        (Some((x, y, z)), Some(r)) => {
            if r <= 2147483647 {
                let b = Nanobot { coord: [x, y, z], r: r as i32 };
                Some(b)
            } else {
                None
            }
        },
        _ => None,
    }
}

/// Reads one nanobot per line.
pub fn parse_input(input: String) -> (r: Option<Vec<Nanobot>>)
    ensures
        match bots_of(lines(input@), lines(input@).len()) {
            Some(s) => r matches Some(v) && v@.map_values(|b: Nanobot| bot_view(b)) == s,
            None => r is None,
        },
{
    let cs = chars_of(input.as_str());
    let ls = line_ranges(&cs);
    let ghost lv = lines(input@);
    let mut out: Vec<Nanobot> = Vec::new();
    let mut k: usize = 0;
    while k < ls.len()
        invariant
            cs@ == input@,
            lv == lines(input@),
            ranges_within(ls@, cs@.len()),
            pieces(cs@, ls@) == lv,
            k <= ls@.len(),
            bots_of(lv, k as nat) == Some(out@.map_values(|b: Nanobot| bot_view(b))),
        decreases ls@.len() - k,
    {
        assert(lv[k as int] == cs@.subrange(ls@[k as int].0 as int, ls@[k as int].1 as int));
        let line = copy_range(&cs, ls[k].0, ls[k].1);
        match parse_bot(&line) {
            None => {
                proof {
                    lemma_bots_fail_stays(lv, (k + 1) as nat, lv.len());
                }
                return None;
            },
            Some(b) => {
                let ghost before = out@;
                out.push(b);
                assert(out@.map_values(|b: Nanobot| bot_view(b)) =~= before.map_values(|b: Nanobot| bot_view(b)).push(
                    bot_view(b),
                ));
            },
        }
        k = k + 1;
    }
    Some(out)
}

proof fn lemma_bots_fail_stays(ls: Seq<Seq<char>>, k: nat, m: nat)
    requires
        k <= m,
        bots_of(ls, k) is None,
    ensures
        bots_of(ls, m) is None,
    decreases m - k,
{
    if k < m {
        lemma_bots_fail_stays(ls, k, (m - 1) as nat);
    }
}

/// How many nanobots lie within the radius of the strongest one (itself included).
pub fn part1(nanobots: &[Nanobot]) -> (r: usize)
    requires
        nanobots@.len() > 0,
    ensures
        ({
            let s = nanobots@[strongest(nanobots@)];
            r == in_range_count(nanobots@, s.coord@, s.r as int, nanobots@.len())
        }),
{
    let mut best: usize = 0;
    let mut k: usize = 1;
    while k < nanobots.len()
        invariant
            1 <= k <= nanobots@.len(),
            best == strongest(nanobots@.take(k as int)),
            best < k,
        decreases nanobots@.len() - k,
    {
        assert(nanobots@.take(k + 1).drop_last() =~= nanobots@.take(k as int));
        if nanobots[k].r >= nanobots[best].r {
            best = k;
        }
        k = k + 1;
    }
    assert(nanobots@.take(k as int) =~= nanobots@);
    let s = &nanobots[best];
    let mut n: usize = 0;
    let mut i: usize = 0;
    while i < nanobots.len()
        invariant
            i <= nanobots@.len(),
            *s == nanobots@[strongest(nanobots@)],
            n == in_range_count(nanobots@, s.coord@, s.r as int, i as nat),
            n <= i,
        decreases nanobots@.len() - i,
    {
        if s.distance(nanobots[i].coord) <= s.r as i64 {
            n = n + 1;
        }
        i = i + 1;
    }
    n
}

} // verus!
