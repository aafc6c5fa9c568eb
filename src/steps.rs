//! Steps of an assembly that must wait for others: the order in which they are done.

use vstd::prelude::*;

use crate::marbles::word_is;
use crate::parse::{chars_of, copy_range, line_ranges, lines, pieces, ranges_within, word_ranges, words};

verus! {

/// `c` is a step: some requirement names it.
pub open spec fn is_step(es: Seq<(char, char)>, c: char) -> bool {
    exists|i: int| 0 <= i < es.len() && (#[trigger] es[i].0 == c || es[i].1 == c)
}

/// Step `c` can be taken up next: it is a step, it is not among `taken`, and
/// every step it waits for is among `finished`.
pub open spec fn ready(es: Seq<(char, char)>, taken: Seq<char>, finished: Seq<char>, c: char) -> bool {
    &&& is_step(es, c)
    &&& !taken.contains(c)
    &&& forall|i: int| 0 <= i < es.len() && #[trigger] es[i].1 == c ==> finished.contains(es[i].0)
}

/// `c` is the first, in alphabetical order, of the steps that can be taken up next.
pub open spec fn first_ready(es: Seq<(char, char)>, taken: Seq<char>, finished: Seq<char>, c: char) -> bool {
    ready(es, taken, finished, c) && forall|d: char| #[trigger] ready(es, taken, finished, d) ==> c <= d
}

/// The order of the steps after `done`, for up to `fuel` more steps: each
/// time the first ready step in alphabetical order is done, until none is
/// ready.
pub open spec fn order_from(es: Seq<(char, char)>, done: Seq<char>, fuel: nat) -> Seq<char>
    decreases fuel,
{
    if fuel > 0 && exists|c: char| first_ready(es, done, done, c) {
        let c = choose|c: char| first_ready(es, done, done, c);
        order_from(es, done.push(c), (fuel - 1) as nat)
    } else {
        done
    }
}

/// The requirement that a line `Step <a> must be finished before step <b>
/// can begin.` gives: `(a, b)`.
pub open spec fn requirement_of(l: Seq<char>) -> Option<(char, char)> {
    let w = words(l);
    if w.len() == 10 && w[0] == seq!['S', 't', 'e', 'p'] && w[1].len() == 1 && w[2] == seq!['m', 'u', 's', 't']
        && w[3] == seq!['b', 'e'] && w[4] == seq!['f', 'i', 'n', 'i', 's', 'h', 'e', 'd'] && w[5] == seq![
        'b',
        'e',
        'f',
        'o',
        'r',
        'e',
    ] && w[6] == seq!['s', 't', 'e', 'p'] && w[7].len() == 1 && w[8] == seq!['c', 'a', 'n'] && w[9] == seq![
        'b',
        'e',
        'g',
        'i',
        'n',
        '.',
    ] {
        Some((w[1][0], w[7][0]))
    } else {
        None
    }
}

/// The requirements of lines `0..k` of `ls`; lines that are not one are passed over.
pub open spec fn requirements_of(ls: Seq<Seq<char>>, k: nat) -> Seq<(char, char)>
    decreases k,
{
    if k == 0 {
        Seq::empty()
    } else {
        let p = requirements_of(ls, (k - 1) as nat);
        match requirement_of(ls[k - 1]) {
            Some(r) => p.push(r),
            None => p,
        }
    }
}

/// Whether `c` is among `done`.
fn is_done(done: &Vec<char>, c: char) -> (r: bool)
    ensures
        r == done@.contains(c),
{
    let mut i: usize = 0;
    while i < done.len()
        invariant
            i <= done@.len(),
            forall|j: int| 0 <= j < i ==> done@[j] != c,
        decreases done@.len() - i,
    {
        if done[i] == c {
            return true;
        }
        i = i + 1;
    }
    false
}

/// Whether step `c` can be taken up next.
fn is_ready(edges: &Vec<(char, char)>, taken: &Vec<char>, done: &Vec<char>, c: char) -> (r: bool)
    requires
        is_step(edges@, c),
    ensures
        r == ready(edges@, taken@, done@, c),
{
    if is_done(taken, c) {
        return false;
    }
    let mut i: usize = 0;
    while i < edges.len()
        invariant
            i <= edges@.len(),
            forall|j: int| 0 <= j < i && #[trigger] edges@[j].1 == c ==> done@.contains(edges@[j].0),
        decreases edges@.len() - i,
    {
        if edges[i].1 == c && !is_done(done, edges[i].0) {
            return false;
        }
        i = i + 1;
    }
    true
}

/// The first ready step in alphabetical order, if any step is ready: not
/// among `taken` and waiting only for steps among `done`.
pub fn next_step(edges: &Vec<(char, char)>, taken: &Vec<char>, done: &Vec<char>) -> (r: Option<char>)
    ensures
        match r {
            Some(c) => first_ready(edges@, taken@, done@, c),
            None => forall|d: char| !ready(edges@, taken@, done@, d),
        },
{
    let mut best: Option<char> = None;
    let mut i: usize = 0;
    while i < edges.len()
        invariant
            i <= edges@.len(),
            best matches Some(b) ==> ready(edges@, taken@, done@, b),
            forall|d: char|
                #[trigger] ready(edges@, taken@, done@, d) && (exists|j: int| 0 <= j < i && (#[trigger] edges@[j].0 == d || edges@[j].1 == d))
                    ==> (best is Some && best->Some_0 <= d),
        decreases edges@.len() - i,
    {
        let (p, q) = edges[i];
        assert(is_step(edges@, p) && is_step(edges@, q)) by {
            assert(edges@[i as int].0 == p);
        }
        let mut k: usize = 0;
        while k < 2
            invariant
                i < edges@.len(),
                edges@[i as int] == (p, q),
                k <= 2,
                best matches Some(b) ==> ready(edges@, taken@, done@, b),
                is_step(edges@, p) && is_step(edges@, q),
                forall|d: char|
                    #[trigger] ready(edges@, taken@, done@, d) && (exists|j: int| 0 <= j < i && (#[trigger] edges@[j].0 == d || edges@[j].1 == d))
                        ==> (best is Some && best->Some_0 <= d),
                k >= 1 && ready(edges@, taken@, done@, p) ==> (best is Some && best->Some_0 <= p),
                k >= 2 && ready(edges@, taken@, done@, q) ==> (best is Some && best->Some_0 <= q),
            decreases 2 - k,
        {
            let c = if k == 0 {
                p
            } else {
                q
            };
            if is_ready(edges, taken, done, c) {
                match best {
                    None => {
                        best = Some(c);
                    },
                    Some(b) => {
                        if c < b {
                            best = Some(c);
                        }
                    },
                }
            }
            k = k + 1;
        }
        i = i + 1;
    }
    match best {
        Some(b) => {
            assert forall|d: char| #[trigger] ready(edges@, taken@, done@, d) implies b <= d by {
                let j = choose|j: int| 0 <= j < edges@.len() && (#[trigger] edges@[j].0 == d || edges@[j].1 == d);
            }
        },
        None => {
            assert forall|d: char| !ready(edges@, taken@, done@, d) by {
                if ready(edges@, taken@, done@, d) {
                    let j = choose|j: int| 0 <= j < edges@.len() && (#[trigger] edges@[j].0 == d || edges@[j].1 == d);
                }
            }
        },
    }
    best
}

/// The order in which the steps are done, as the letters of the steps: each
/// time, the first ready step in alphabetical order. There are at most twice
/// as many steps as requirements.
pub fn part1(edges: &Vec<(char, char)>) -> (r: Vec<char>)
    requires
        edges@.len() <= usize::MAX / 2,
    ensures
        r@ == order_from(edges@, Seq::empty(), 2 * edges@.len() as nat),
{
    let fuel = 2 * edges.len();
    let mut done: Vec<char> = Vec::new();
    let mut left: usize = fuel;
    while left > 0
        invariant
            fuel == 2 * edges@.len(),
            order_from(edges@, done@, left as nat) == order_from(edges@, Seq::empty(), fuel as nat),
        decreases left,
    {
        match next_step(edges, &done, &done) {
            None => {
                assert(!exists|c: char| first_ready(edges@, done@, done@, c));
                assert(order_from(edges@, done@, left as nat) == done@);
                return done;
            },
            Some(c) => {
                let ghost chosen = choose|c: char| first_ready(edges@, done@, done@, c);
                assert(chosen == c) by {
                    assert(ready(edges@, done@, done@, chosen));
                    assert(ready(edges@, done@, done@, c));
                    assert(chosen <= c);
                    assert(c <= chosen);
                }
                done.push(c);
            },
        }
        left = left - 1;
    }
    done
}

/// Reads a requirement `Step <a> must be finished before step <b> can begin.`
pub fn parse_requirement(l: &Vec<char>) -> (r: Option<(char, char)>)
    ensures
        r == requirement_of(l@),
{
    let ws = word_ranges(l);
    if ws.len() != 10 {
        return None;
    }
    let ghost w = words(l@);
    assert(forall|k: int| 0 <= k < 10 ==> #[trigger] w[k] == l@.subrange(ws@[k].0 as int, ws@[k].1 as int));
    let step_up = ['S', 't', 'e', 'p'];
    let must = ['m', 'u', 's', 't'];
    let be = ['b', 'e'];
    let finished = ['f', 'i', 'n', 'i', 's', 'h', 'e', 'd'];
    let before = ['b', 'e', 'f', 'o', 'r', 'e'];
    let step_low = ['s', 't', 'e', 'p'];
    let can = ['c', 'a', 'n'];
    let begin = ['b', 'e', 'g', 'i', 'n', '.'];
    assert(step_up@ =~= seq!['S', 't', 'e', 'p']);
    assert(must@ =~= seq!['m', 'u', 's', 't']);
    assert(be@ =~= seq!['b', 'e']);
    assert(finished@ =~= seq!['f', 'i', 'n', 'i', 's', 'h', 'e', 'd']);
    assert(before@ =~= seq!['b', 'e', 'f', 'o', 'r', 'e']);
    assert(step_low@ =~= seq!['s', 't', 'e', 'p']);
    assert(can@ =~= seq!['c', 'a', 'n']);
    assert(begin@ =~= seq!['b', 'e', 'g', 'i', 'n', '.']);
    if !(word_is(l, ws[0].0, ws[0].1, &step_up) && ws[1].1 - ws[1].0 == 1 && word_is(l, ws[2].0, ws[2].1, &must)
        && word_is(l, ws[3].0, ws[3].1, &be) && word_is(l, ws[4].0, ws[4].1, &finished) && word_is(
        l,
        ws[5].0,
        ws[5].1,
        &before,
    ) && word_is(l, ws[6].0, ws[6].1, &step_low) && ws[7].1 - ws[7].0 == 1 && word_is(l, ws[8].0, ws[8].1, &can)
        && word_is(l, ws[9].0, ws[9].1, &begin)) {
        return None;
    }
    Some((l[ws[1].0], l[ws[7].0]))
}

/// Reads one requirement per line; lines that are not one are passed over.
pub fn parse_input(input: String) -> (r: Vec<(char, char)>)
    ensures
        r@ == requirements_of(lines(input@), lines(input@).len()),
{
    let cs = chars_of(input.as_str());
    let ls = line_ranges(&cs);
    let ghost lv = lines(input@);
    let mut out: Vec<(char, char)> = Vec::new();
    let mut k: usize = 0;
    while k < ls.len()
        invariant
            cs@ == input@,
            lv == lines(input@),
            ranges_within(ls@, cs@.len()),
            pieces(cs@, ls@) == lv,
            k <= ls@.len(),
            requirements_of(lv, k as nat) == out@,
        decreases ls@.len() - k,
    {
        assert(lv[k as int] == cs@.subrange(ls@[k as int].0 as int, ls@[k as int].1 as int));
        let line = copy_range(&cs, ls[k].0, ls[k].1);
        match parse_requirement(&line) {
            None => {},
            Some(e) => {
                out.push(e);
            },
        }
        k = k + 1;
    }
    out
}

/// The number of workers.
pub const WORKERS: usize = 5;

/// The seconds that step `c` takes: 61 for `A`, one more for each letter after.
pub open spec fn duration_of(c: char) -> nat {
    if 4 <= (c as u32) <= 0x10_ffff {
        ((c as u32) + 61 - 65) as nat
    } else {
        0
    }
}

/// The job of `r` that ends first (by time, then by step), the first such
/// among the first `k` jobs.
pub open spec fn min_index(r: Seq<(nat, char)>, k: nat) -> nat
    decreases k,
{
    if k <= 1 {
        0
    } else {
        let m = min_index(r, (k - 1) as nat);
        let a = r[k - 1];
        let b = r[m as int];
        if a.0 < b.0 || (a.0 == b.0 && a.1 < b.1) {
            (k - 1) as nat
        } else {
            m
        }
    }
}

/// Idle workers take up ready steps, the first in alphabetical order first,
/// at time `t`, for at most `fuel` steps.
pub open spec fn fill(
    es: Seq<(char, char)>,
    t: nat,
    finished: Seq<char>,
    started: Seq<char>,
    running: Seq<(nat, char)>,
    fuel: nat,
) -> (Seq<char>, Seq<(nat, char)>)
    decreases fuel,
{
    if fuel > 0 && running.len() < WORKERS && exists|c: char| first_ready(es, started, finished, c) {
        let c = choose|c: char| first_ready(es, started, finished, c);
        fill(es, t, finished, started.push(c), running.push((t + duration_of(c), c)), (fuel - 1) as nat)
    } else {
        (started, running)
    }
}

/// The time at which all work is done: the job that ends first ends, its step
/// is finished, idle workers take up ready steps; for at most `fuel` jobs.
pub open spec fn schedule(
    es: Seq<(char, char)>,
    t: nat,
    finished: Seq<char>,
    started: Seq<char>,
    running: Seq<(nat, char)>,
    fuel: nat,
) -> Option<nat>
    decreases fuel,
{
    if running.len() == 0 {
        Some(t)
    } else if fuel == 0 {
        None
    } else {
        let m = min_index(running, running.len()) as int;
        let job = running[m];
        let f = finished.push(job.1);
        let next = fill(es, job.0, f, started, running.remove(m), WORKERS as nat);
        schedule(es, job.0, f, next.0, next.1, (fuel - 1) as nat)
    }
}

proof fn lemma_min_index_bounded(r: Seq<(nat, char)>, k: nat)
    requires
        1 <= k <= r.len(),
    ensures
        min_index(r, k) < k,
    decreases k,
{
    if k > 1 {
        lemma_min_index_bounded(r, (k - 1) as nat);
    }
}

/// The job of `running` that ends first.
fn first_job(running: &Vec<(u64, char)>) -> (r: usize)
    requires
        running@.len() > 0,
    ensures
        r == min_index(running@.map_values(|j: (u64, char)| (j.0 as nat, j.1)), running@.len()),
        r < running@.len(),
{
    let ghost v = running@.map_values(|j: (u64, char)| (j.0 as nat, j.1));
    let mut m: usize = 0;
    let mut k: usize = 1;
    while k < running.len()
        invariant
            v == running@.map_values(|j: (u64, char)| (j.0 as nat, j.1)),
            1 <= k <= running@.len(),
            m == min_index(v, k as nat),
            m < k,
        decreases running@.len() - k,
    {
        let (a, b) = (running[k], running[m]);
        if a.0 < b.0 || (a.0 == b.0 && a.1 < b.1) {
            m = k;
        }
        k = k + 1;
    }
    m
}

/// The seconds that step `c` takes.
pub fn duration(c: &char) -> (r: u64)
    ensures
        r == duration_of(*c),
{
    let v = *c as u32;
    if 4 <= v && v <= 0x10_ffff {
        (v + 61 - 65) as u64
    } else {
        0
    }
}

/// The time it takes `WORKERS` workers to do all steps, each step waiting for
/// the steps it requires; `None` where more jobs than there can be steps are
/// needed (which does not happen).
pub fn part2(edges: &Vec<(char, char)>) -> (r: Option<u64>)
    requires
        edges@.len() <= 0x1000_0000,
    ensures
        match schedule(edges@, 0, Seq::empty(), Seq::empty(), seq![(0nat, ' ')], (2 * edges@.len() + 1) as nat) {
            Some(t) => r == Some(t as u64),
            None => r is None,
        },
{
    let fuel0 = 2 * edges.len() + 1;
    let mut finished: Vec<char> = Vec::new();
    let mut started: Vec<char> = Vec::new();
    let mut running: Vec<(u64, char)> = vec![(0, ' ')];
    let mut t: u64 = 0;
    let mut fuel: usize = fuel0;
    assert(running@.map_values(|j: (u64, char)| (j.0 as nat, j.1)) =~= seq![(0nat, ' ')]);
    while running.len() > 0 && fuel > 0
        invariant
            edges@.len() <= 0x1000_0000,
            fuel0 == 2 * edges@.len() + 1,
            fuel <= fuel0,
            running@.len() <= WORKERS,
            t <= (fuel0 - fuel) * 0x11_0000,
            forall|i: int| 0 <= i < running@.len() ==> (#[trigger] running@[i]).0 <= (fuel0 - fuel + 1) * 0x11_0000,
            schedule(edges@, t as nat, finished@, started@, running@.map_values(|j: (u64, char)| (j.0 as nat, j.1)), fuel as nat)
                == schedule(edges@, 0, Seq::empty(), Seq::empty(), seq![(0nat, ' ')], fuel0 as nat),
        decreases fuel,
    {
        let ghost v = running@.map_values(|j: (u64, char)| (j.0 as nat, j.1));
        let m = first_job(&running);
        let job = running.remove(m);
        assert(running@.map_values(|j: (u64, char)| (j.0 as nat, j.1)) =~= v.remove(m as int));
        t = job.0;
        finished.push(job.1);
        let mut f: usize = WORKERS;
        let mut stuck = false;
        let ghost rest = fill(edges@, t as nat, finished@, started@, running@.map_values(|j: (u64, char)| (j.0 as nat, j.1)), WORKERS as nat);
        while f > 0 && running.len() < WORKERS && !stuck
            invariant
                f <= WORKERS,
                running@.len() <= WORKERS,
                t <= (fuel0 - fuel + 1) * 0x11_0000,
                fuel0 == 2 * edges@.len() + 1,
                1 <= fuel <= fuel0,
                edges@.len() <= 0x1000_0000,
                stuck ==> forall|d: char| !ready(edges@, started@, finished@, d),
                forall|i: int| 0 <= i < running@.len() ==> (#[trigger] running@[i]).0 <= (fuel0 - fuel + 2) * 0x11_0000,
                fill(edges@, t as nat, finished@, started@, running@.map_values(|j: (u64, char)| (j.0 as nat, j.1)), f as nat) == rest,
            decreases f,
        {
            match next_step(edges, &started, &finished) {
                None => {
                    stuck = true;
                },
                Some(c) => {
                    let ghost chosen = choose|c: char| first_ready(edges@, started@, finished@, c);
                    assert(chosen == c) by {
                        assert(ready(edges@, started@, finished@, chosen));
                        assert(ready(edges@, started@, finished@, c));
                        assert(chosen <= c);
                        assert(c <= chosen);
                    }
                    let d = duration(&c);
                    assert(d <= 0x11_0000);
                    let ghost before = running@.map_values(|j: (u64, char)| (j.0 as nat, j.1));
                    started.push(c);
                    running.push((t + d, c));
                    assert(running@.map_values(|j: (u64, char)| (j.0 as nat, j.1)) =~= before.push(
                        ((t + d) as nat, c),
                    ));
                },
            }
            f = f - 1;
        }
        assert(rest == (started@, running@.map_values(|j: (u64, char)| (j.0 as nat, j.1))));
        fuel = fuel - 1;
    }
    if running.len() == 0 {
        Some(t)
    } else {
        None
    }
}

} // verus!
