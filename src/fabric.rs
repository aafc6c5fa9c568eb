//! Claims on a sheet of fabric: where they overlap, and the one that overlaps none.

use vstd::prelude::*;

use crate::parse::{
    chars_of, line_ranges, lines, number_of, parse_number, pieces, ranges_within, word_ranges, words,
};

verus! {

/// A claim on the fabric: the rectangle of `w` by `h` square inches whose
/// top left corner is `x` inches from the left edge and `y` from the top.
#[derive(Clone, Copy, Debug, PartialEq, Eq, Structural)]
pub struct Claim {
    pub id: usize,
    pub x: usize,
    pub y: usize,
    pub w: usize,
    pub h: usize,
}

impl Claim {
    /// The rectangle is not empty and its far edges are below `usize::MAX`.
    pub open spec fn wf(self) -> bool {
        &&& self.w >= 1
        &&& self.h >= 1
        &&& self.x + self.w < usize::MAX
        &&& self.y + self.h < usize::MAX
    }

    /// The square `(i, j)` lies in the claim.
    pub open spec fn covers(self, i: int, j: int) -> bool {
        self.x <= i < self.x + self.w && self.y <= j < self.y + self.h
    }

    /// The two claims share a square.
    pub open spec fn meets(self, o: Claim) -> bool {
        self.x < o.x + o.w && o.x < self.x + self.w && self.y < o.y + o.h && o.y < self.y + self.h
    }

    /// The last column of the claim.
    pub fn xmax(&self) -> (r: usize)
        requires
            self.wf(),
        ensures
            r == self.x + self.w - 1,
    {
        self.x + self.w - 1
    }

    /// The last row of the claim.
    pub fn ymax(&self) -> (r: usize)
        requires
            self.wf(),
        ensures
            r == self.y + self.h - 1,
    {
        self.y + self.h - 1
    }

    /// Whether the square `(x, y)` lies in the claim.
    pub fn contains(&self, x: &usize, y: &usize) -> (r: bool)
        requires
            self.wf(),
        ensures
            r == self.covers(*x as int, *y as int),
    {
        self.x <= *x && *x <= self.xmax() && self.y <= *y && *y <= self.ymax()
    }

    /// Whether the two claims share a square.
    pub fn overlaps(&self, other: &Claim) -> (r: bool)
        requires
            self.wf(),
            other.wf(),
        ensures
            r == self.meets(*other),
    {
        let overlaps_x = self.x <= other.xmax() && self.xmax() >= other.x;
        let overlaps_y = self.y <= other.ymax() && self.ymax() >= other.y;
        overlaps_x && overlaps_y
    }
}

/// The position of the first `c` in `s`, if there is one.
pub open spec fn first_index(s: Seq<char>, c: char) -> Option<nat>
    decreases s.len(),
{
    if s.len() == 0 {
        None
    } else if s[0] == c {
        Some(0)
    } else {
        match first_index(s.drop_first(), c) {
            Some(i) => Some(i + 1),
            None => None,
        }
    }
}

/// The two numbers of `s` written `<a><sep><b>`, the separator being the
/// first `sep` of `s`.
pub open spec fn number_pair(s: Seq<char>, sep: char) -> Option<(usize, usize)> {
    match first_index(s, sep) {
        Some(i) => match (number_of(s.take(i as int)), number_of(s.skip(i + 1 as int))) {
            (Some(a), Some(b)) => Some((a, b)),
            _ => None,
        },
        None => None,
    }
}

/// `s` without one leading `c`.
pub open spec fn drop_leading(s: Seq<char>, c: char) -> Seq<char> {
    if s.len() > 0 && s[0] == c {
        s.drop_first()
    } else {
        s
    }
}

/// `s` without one trailing `c`.
pub open spec fn drop_trailing(s: Seq<char>, c: char) -> Seq<char> {
    if s.len() > 0 && s.last() == c {
        s.drop_last()
    } else {
        s
    }
}

/// The claim that a line `#<id> @ <x>,<y>: <w>x<h>` gives, where it is one
/// and its rectangle is well formed.
pub open spec fn claim_of(l: Seq<char>) -> Option<Claim> {
    let ws = words(l);
    if ws.len() == 4 && ws[1] == seq!['@'] {
        match (
            number_of(drop_leading(ws[0], '#')),
            number_pair(drop_trailing(ws[2], ':'), ','),
            number_pair(ws[3], 'x'),
        ) {
            (Some(id), Some((x, y)), Some((w, h))) => {
                let c = Claim { id, x, y, w, h };
                if c.wf() {
                    Some(c)
                } else {
                    None
                }
            },
            _ => None,
        }
    } else {
        None
    }
}

/// The claims of lines `0..k` of `ls`; `None` where one is not a claim.
pub open spec fn claims_of(ls: Seq<Seq<char>>, k: nat) -> Option<Seq<Claim>>
    decreases k,
{
    if k == 0 {
        Some(Seq::empty())
    } else {
        match (claims_of(ls, (k - 1) as nat), claim_of(ls[k - 1])) {
            (Some(p), Some(c)) => Some(p.push(c)),
            _ => None,
        }
    }
}

/// How many of the first `k` claims cover the square `(i, j)`.
pub open spec fn cover_count(cs: Seq<Claim>, i: int, j: int, k: nat) -> nat
    decreases k,
{
    if k == 0 {
        0
    } else {
        cover_count(cs, i, j, (k - 1) as nat) + if cs[k - 1].covers(i, j) {
            1nat
        } else {
            0
        }
    }
}

/// How many squares `(i, j)` with `y0 <= j < y1` at least two claims cover.
pub open spec fn shared_in_column(cs: Seq<Claim>, i: int, y0: int, y1: int) -> nat
    decreases y1 - y0,
{
    if y1 <= y0 {
        0
    } else {
        shared_in_column(cs, i, y0, y1 - 1) + if cover_count(cs, i, y1 - 1, cs.len()) >= 2 {
            1nat
        } else {
            0
        }
    }
}

/// How many squares with `x0 <= i < x1` and `y0 <= j < y1` at least two claims cover.
pub open spec fn shared_in_box(cs: Seq<Claim>, x0: int, x1: int, y0: int, y1: int) -> nat
    decreases x1 - x0,
{
    if x1 <= x0 {
        0
    } else {
        shared_in_box(cs, x0, x1 - 1, y0, y1) + shared_in_column(cs, x1 - 1, y0, y1)
    }
}

/// The first position of `c` in `s[lo..hi]`, counted from `lo`.
pub fn find_char(s: &Vec<char>, lo: usize, hi: usize, c: char) -> (r: Option<usize>)
    requires
        lo <= hi <= s@.len(),
    ensures
        match first_index(s@.subrange(lo as int, hi as int), c) {
            Some(i) => i < hi - lo && r == Some(i as usize),
            None => r is None,
        },
    decreases hi - lo,
{
    proof {
        lemma_first_index_bounded(s@.subrange(lo as int, hi as int), c);
    }
    if lo == hi {
        return None;
    }
    assert(s@.subrange(lo as int, hi as int).drop_first() =~= s@.subrange(lo + 1, hi as int));
    if s[lo] == c {
        Some(0)
    } else {
        match find_char(s, lo + 1, hi, c) {
            Some(i) => Some(i + 1),
            None => None,
        }
    }
}

/// Reads `<a><sep><b>` from `s[lo..hi]`.
fn parse_pair(s: &Vec<char>, lo: usize, hi: usize, sep: char) -> (r: Option<(usize, usize)>)
    requires
        lo <= hi <= s@.len(),
    ensures
        r == number_pair(s@.subrange(lo as int, hi as int), sep),
{
    let ghost t = s@.subrange(lo as int, hi as int);
    match find_char(s, lo, hi, sep) {
        None => None,
        Some(i) => {
            proof {
                lemma_first_index_bounded(t, sep);
            }
            assert(t.take(i as int) =~= s@.subrange(lo as int, lo + i));
            assert(t.skip(i + 1) =~= s@.subrange(lo + i + 1, hi as int));
            match (parse_number(s, lo, lo + i), parse_number(s, lo + i + 1, hi)) {
                (Some(a), Some(b)) => Some((a, b)),
                _ => None,
            }
        },
    }
}

proof fn lemma_first_index_bounded(s: Seq<char>, c: char)
    ensures
        first_index(s, c) matches Some(i) ==> i < s.len() && s[i as int] == c,
    decreases s.len(),
{
    if s.len() > 0 && s[0] != c {
        lemma_first_index_bounded(s.drop_first(), c);
    }
}

/// Reads a claim written `#<id> @ <x>,<y>: <w>x<h>`.
pub fn parse_claim(l: &Vec<char>) -> (r: Option<Claim>)
    ensures
        r == claim_of(l@),
{
    let ws = word_ranges(l);
    if ws.len() != 4 {
        return None;
    }
    let ghost w = words(l@);
    assert(w[0] == l@.subrange(ws@[0].0 as int, ws@[0].1 as int));
    assert(w[1] == l@.subrange(ws@[1].0 as int, ws@[1].1 as int));
    assert(w[2] == l@.subrange(ws@[2].0 as int, ws@[2].1 as int));
    assert(w[3] == l@.subrange(ws@[3].0 as int, ws@[3].1 as int));
    let (a0, a1) = ws[1];
    if !(a1 - a0 == 1 && l[a0] == '@') {
        assert(w[1].len() == a1 - a0);
        assert(seq!['@'].len() == 1);
        assert(a1 - a0 == 1 ==> w[1][0] == l@[a0 as int]);
        return None;
    }
    assert(w[1] =~= seq!['@']);
    let (i0, i1) = ws[0];
    let id_start = if i0 < i1 && l[i0] == '#' {
        i0 + 1
    } else {
        i0
    };
    assert(drop_leading(w[0], '#') =~= l@.subrange(id_start as int, i1 as int));
    let (p0, p1) = ws[2];
    let p_end = if p0 < p1 && l[p1 - 1] == ':' {
        p1 - 1
    } else {
        p1
    };
    assert(drop_trailing(w[2], ':') =~= l@.subrange(p0 as int, p_end as int));
    let id = parse_number(l, id_start, i1);
    let pos = parse_pair(l, p0, p_end, ',');
    let size = parse_pair(l, ws[3].0, ws[3].1, 'x');
    match (id, pos, size) {
        (Some(id), Some((x, y)), Some((w, h))) => {
            if w >= 1 && h >= 1 && x < usize::MAX - w && y < usize::MAX - h {
                Some(Claim { id, x, y, w, h })
            } else {
                None
            }
        },
        _ => None,
    }
}

/// Reads one claim per line.
pub fn parse_input(input: String) -> (r: Option<Vec<Claim>>)
    ensures
        match claims_of(lines(input@), lines(input@).len()) {
            Some(s) => r is Some && r->Some_0@ == s,
            None => r is None,
        },
{
    let cs = chars_of(input.as_str());
    let ls = line_ranges(&cs);
    let ghost lv = lines(input@);
    let mut out: Vec<Claim> = Vec::new();
    let mut k: usize = 0;
    while k < ls.len()
        invariant
            cs@ == input@,
            lv == lines(input@),
            ranges_within(ls@, cs@.len()),
            pieces(cs@, ls@) == lv,
            k <= ls@.len(),
            claims_of(lv, k as nat) == Some(out@),
        decreases ls@.len() - k,
    {
        assert(lv[k as int] == cs@.subrange(ls@[k as int].0 as int, ls@[k as int].1 as int));
        let line = crate::parse::copy_range(&cs, ls[k].0, ls[k].1);
        match parse_claim(&line) {
            None => {
                proof {
                    lemma_claims_fail_stays(lv, (k + 1) as nat, lv.len());
                }
                return None;
            },
            Some(c) => {
                out.push(c);
            },
        }
        k = k + 1;
    }
    Some(out)
}

proof fn lemma_claims_fail_stays(ls: Seq<Seq<char>>, k: nat, m: nat)
    requires
        k <= m,
        claims_of(ls, k) is None,
    ensures
        claims_of(ls, m) is None,
    decreases m - k,
{
    if k < m {
        lemma_claims_fail_stays(ls, k, (m - 1) as nat);
    }
}

/// The leftmost column of the claims (`usize::MAX` for none).
pub open spec fn left(cs: Seq<Claim>) -> int
    decreases cs.len(),
{
    if cs.len() == 0 {
        usize::MAX as int
    } else {
        let l = left(cs.drop_last());
        if (cs.last().x as int) < l {
            cs.last().x as int
        } else {
            l
        }
    }
}

/// The rightmost column of the claims (0 for none).
pub open spec fn right(cs: Seq<Claim>) -> int
    decreases cs.len(),
{
    if cs.len() == 0 {
        0
    } else {
        let r = right(cs.drop_last());
        if cs.last().x + cs.last().w - 1 > r {
            cs.last().x + cs.last().w - 1
        } else {
            r
        }
    }
}

/// The top row of the claims (`usize::MAX` for none).
pub open spec fn top(cs: Seq<Claim>) -> int
    decreases cs.len(),
{
    if cs.len() == 0 {
        usize::MAX as int
    } else {
        let t = top(cs.drop_last());
        if (cs.last().y as int) < t {
            cs.last().y as int
        } else {
            t
        }
    }
}

/// The bottom row of the claims (0 for none).
pub open spec fn bottom(cs: Seq<Claim>) -> int
    decreases cs.len(),
{
    if cs.len() == 0 {
        0
    } else {
        let b = bottom(cs.drop_last());
        if cs.last().y + cs.last().h - 1 > b {
            cs.last().y + cs.last().h - 1
        } else {
            b
        }
    }
}

/// Every claim is well formed.
pub open spec fn all_wf(cs: Seq<Claim>) -> bool {
    forall|i: int| 0 <= i < cs.len() ==> (#[trigger] cs[i]).wf()
}

proof fn lemma_box_within(cs: Seq<Claim>)
    requires
        all_wf(cs),
    ensures
        right(cs) < usize::MAX,
        bottom(cs) < usize::MAX,
    decreases cs.len(),
{
    if cs.len() > 0 {
        assert(cs.last().wf());
        assert(all_wf(cs.drop_last()));
        lemma_box_within(cs.drop_last());
    }
}

proof fn lemma_shared_in_column_bounded(cs: Seq<Claim>, i: int, y0: int, y1: int)
    ensures
        shared_in_column(cs, i, y0, y1) <= if y1 >= y0 {
            y1 - y0
        } else {
            0
        },
    decreases y1 - y0,
{
    if y1 > y0 {
        lemma_shared_in_column_bounded(cs, i, y0, y1 - 1);
    }
}

proof fn lemma_shared_in_box_bounded(cs: Seq<Claim>, x0: int, x1: int, y0: int, y1: int)
    requires
        x0 <= x1,
        y0 <= y1,
    ensures
        shared_in_box(cs, x0, x1, y0, y1) <= (x1 - x0) * (y1 - y0),
    decreases x1 - x0,
{
    if x1 > x0 {
        lemma_shared_in_box_bounded(cs, x0, x1 - 1, y0, y1);
        lemma_shared_in_column_bounded(cs, x1 - 1, y0, y1);
        assert((x1 - 1 - x0) * (y1 - y0) + (y1 - y0) == (x1 - x0) * (y1 - y0)) by (nonlinear_arith);
    }
}

/// The box that holds every claim: its columns `left..=right` and rows `top..=bottom`.
pub fn get_range(claims: &[Claim]) -> (r: ((usize, usize), (usize, usize)))
    requires
        all_wf(claims@),
    ensures
        r.0.0 == left(claims@),
        r.0.1 == right(claims@),
        r.1.0 == top(claims@),
        r.1.1 == bottom(claims@),
{
    let (mut xmin, mut xmax) = (usize::MAX, 0usize);
    let (mut ymin, mut ymax) = (usize::MAX, 0usize);
    let mut k: usize = 0;
    while k < claims.len()
        invariant
            all_wf(claims@),
            k <= claims@.len(),
            xmin == left(claims@.take(k as int)),
            xmax == right(claims@.take(k as int)),
            ymin == top(claims@.take(k as int)),
            ymax == bottom(claims@.take(k as int)),
        decreases claims@.len() - k,
    {
        assert(claims@.take(k + 1).drop_last() =~= claims@.take(k as int));
        let c = &claims[k];
        assert(c.wf());
        if c.x < xmin {
            xmin = c.x;
        }
        if c.xmax() > xmax {
            xmax = c.xmax();
        }
        if c.y < ymin {
            ymin = c.y;
        }
        if c.ymax() > ymax {
            ymax = c.ymax();
        }
        k = k + 1;
    }
    assert(claims@.take(k as int) =~= claims@);
    ((xmin, xmax), (ymin, ymax))
}

/// How many claims cover the square `(i, j)`.
fn count_covering(claims: &[Claim], i: usize, j: usize) -> (r: usize)
    requires
        all_wf(claims@),
    ensures
        r == cover_count(claims@, i as int, j as int, claims@.len()),
{
    let mut n: usize = 0;
    let mut k: usize = 0;
    while k < claims.len()
        invariant
            all_wf(claims@),
            k <= claims@.len(),
            n == cover_count(claims@, i as int, j as int, k as nat),
            n <= k,
        decreases claims@.len() - k,
    {
        assert(claims@[k as int].wf());
        if claims[k].contains(&i, &j) {
            n = n + 1;
        }
        k = k + 1;
    }
    n
}

/// How many squares of the box that holds every claim at least two claims
/// cover (outside that box none is covered at all).
pub fn part1(claims: &[Claim]) -> (r: usize)
    requires
        all_wf(claims@),
        (right(claims@) - left(claims@) + 1) * (bottom(claims@) - top(claims@) + 1) <= usize::MAX,
    ensures
        r == shared_in_box(claims@, left(claims@), right(claims@) + 1, top(claims@), bottom(claims@) + 1),
{
    let ((xmin, xmax), (ymin, ymax)) = get_range(claims);
    proof {
        lemma_box_within(claims@);
    }
    if xmin > xmax || ymin > ymax {
        return 0;
    }
    let mut count: usize = 0;
    let mut i: usize = xmin;
    while i <= xmax
        invariant
            all_wf(claims@),
            xmin == left(claims@),
            xmax == right(claims@),
            ymin == top(claims@),
            ymax == bottom(claims@),
            xmin <= xmax,
            ymin <= ymax,
            (xmax - xmin + 1) * (ymax - ymin + 1) <= usize::MAX,
            xmax < usize::MAX,
            ymax < usize::MAX,
            xmin <= i <= xmax + 1,
            count == shared_in_box(claims@, xmin as int, i as int, ymin as int, ymax + 1),
        decreases xmax + 1 - i,
    {
        let mut j: usize = ymin;
        proof {
            lemma_shared_in_box_bounded(claims@, xmin as int, i as int, ymin as int, ymax + 1);
        }
        while j <= ymax
            invariant
                all_wf(claims@),
                xmin <= i <= xmax,
                ymin <= j <= ymax + 1,
                ymax < usize::MAX,
                (xmax - xmin + 1) * (ymax - ymin + 1) <= usize::MAX,
                shared_in_box(claims@, xmin as int, i as int, ymin as int, ymax + 1) <= (i - xmin) * (ymax + 1 - ymin),
                count == shared_in_box(claims@, xmin as int, i as int, ymin as int, ymax + 1) + shared_in_column(
                    claims@,
                    i as int,
                    ymin as int,
                    j as int,
                ),
            decreases ymax + 1 - j,
        {
            proof {
                lemma_shared_in_column_bounded(claims@, i as int, ymin as int, j as int);
                assert((i - xmin) * (ymax + 1 - ymin) + (ymax + 1 - ymin) <= (xmax - xmin + 1) * (ymax - ymin + 1))
                    by (nonlinear_arith)
                    requires
                        xmin <= i <= xmax,
                        ymin <= ymax,
                ;
            }
            if count_covering(claims, i, j) >= 2 {
                count = count + 1;
            }
            j = j + 1;
        }
        i = i + 1;
    }
    count
}

/// Claim `i` shares a square with a claim of another id.
pub open spec fn overlaps_other(cs: Seq<Claim>, i: int) -> bool {
    exists|j: int| 0 <= j < cs.len() && cs[j].id != cs[i].id && #[trigger] cs[i].meets(cs[j])
}

/// The id of the first claim that shares no square with a claim of another id.
pub fn part2(claims: &[Claim]) -> (r: Option<usize>)
    requires
        all_wf(claims@),
    ensures
        r matches Some(id) ==> exists|i: int|
            0 <= i < claims@.len() && claims@[i].id == id && !#[trigger] overlaps_other(claims@, i)
                && forall|i2: int| 0 <= i2 < i ==> #[trigger] overlaps_other(claims@, i2),
        r is None ==> forall|i: int| 0 <= i < claims@.len() ==> #[trigger] overlaps_other(claims@, i),
{
    let mut i: usize = 0;
    while i < claims.len()
        invariant
            all_wf(claims@),
            i <= claims@.len(),
            forall|i2: int| 0 <= i2 < i ==> #[trigger] overlaps_other(claims@, i2),
        decreases claims@.len() - i,
    {
        let c1 = &claims[i];
        let mut overlap = false;
        let mut j: usize = 0;
        while j < claims.len() && !overlap
            invariant
                all_wf(claims@),
                i < claims@.len(),
                *c1 == claims@[i as int],
                j <= claims@.len(),
                forall|i2: int| 0 <= i2 < i ==> #[trigger] overlaps_other(claims@, i2),
                overlap ==> 0 < j && claims@[j - 1].id != c1.id && c1.meets(claims@[j - 1]),
                !overlap ==> forall|j2: int| 0 <= j2 < j && claims@[j2].id != c1.id ==> !c1.meets(#[trigger] claims@[j2]),
            decreases claims@.len() - j,
        {
            assert(claims@[j as int].wf());
            if c1.id != claims[j].id && c1.overlaps(&claims[j]) {
                overlap = true;
            }
            j = j + 1;
        }
        if !overlap {
            assert(!overlaps_other(claims@, i as int));
            return Some(c1.id);
        }
        assert(claims@[j - 1].id != claims@[i as int].id && claims@[i as int].meets(claims@[j - 1]));
        assert(overlaps_other(claims@, i as int));
        i = i + 1;
    }
    None
}

} // verus!
