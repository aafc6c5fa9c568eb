//! The marble game: marbles placed in a circle, and the players' scores.

use vstd::prelude::*;

use crate::parse::{chars_of, line_ranges, lines, number_of, parse_number, word_ranges, words};

verus! {

/// Every this many marbles, the player scores instead of placing.
pub const SCORING: usize = 23;

/// The largest number of marbles that a game may have here: scores then fit
/// a `u64`.
pub const MAX_MARBLES: usize = 0x4000_0000;

/// The circle turned one marble to the left: the first marble goes last.
pub open spec fn rotl1(s: Seq<usize>) -> Seq<usize> {
    s.drop_first().push(s[0])
}

/// The circle turned one marble to the right: the last marble goes first.
pub open spec fn rotr1(s: Seq<usize>) -> Seq<usize> {
    seq![s.last()] + s.drop_last()
}

/// The circle turned `k` marbles to the right.
pub open spec fn rotr(s: Seq<usize>, k: nat) -> Seq<usize>
    decreases k,
{
    if k == 0 {
        s
    } else {
        rotr1(rotr(s, (k - 1) as nat))
    }
}

/// The circle (the current marble first) and the scores of the `np` players
/// after the marbles `2..=i` are played. A marble that is a multiple of
/// `SCORING` is kept by its player, together with the marble seven to the
/// left of the current one, which is taken out; any other marble goes in
/// between the marbles one and two to the right of the current one.
pub open spec fn play(np: nat, i: nat) -> (Seq<usize>, Seq<nat>)
    decreases i,
{
    if i <= 1 {
        (seq![0usize, 1], Seq::new(np, |p: int| 0nat))
    } else {
        let (m, sc) = play(np, (i - 1) as nat);
        if i % SCORING as nat == 0 {
            let r = rotr(m, 7);
            let p = (i % np) as int;
            (r.drop_first(), sc.update(p, (sc[p] + i + r[0]) as nat))
        } else {
            (seq![i as usize] + rotl1(rotl1(m)), sc)
        }
    }
}

/// The largest of the first `k` scores (0 for none).
pub open spec fn max_score(sc: Seq<nat>, k: nat) -> nat
    decreases k,
{
    if k == 0 {
        0
    } else {
        let m = max_score(sc, (k - 1) as nat);
        if sc[k - 1] > m {
            sc[k - 1]
        } else {
            m
        }
    }
}

proof fn lemma_play_shape(np: nat, i: nat)
    requires
        np >= 1,
        1 <= i,
    ensures
        play(np, i).0.len() >= 2,
        play(np, i).1.len() == np,
    decreases i,
{
    if i > 1 {
        lemma_play_shape(np, (i - 1) as nat);
        if i % SCORING as nat == 0 {
            lemma_rotr_len(play(np, (i - 1) as nat).0, 7);
            assert(play(np, (i - 1) as nat).0.len() >= 22) by {
                lemma_play_len(np, (i - 1) as nat);
            }
        }
    }
}

proof fn lemma_rotr_len(s: Seq<usize>, k: nat)
    requires
        s.len() > 0,
    ensures
        rotr(s, k).len() == s.len(),
    decreases k,
{
    if k > 0 {
        lemma_rotr_len(s, (k - 1) as nat);
    }
}

proof fn lemma_play_len(np: nat, i: nat)
    requires
        np >= 1,
        1 <= i,
    ensures
        play(np, i).0.len() == i + 1 - 2 * (i / SCORING as nat),
    decreases i,
{
    if i > 1 {
        lemma_play_len(np, (i - 1) as nat);
        let m = play(np, (i - 1) as nat).0;
        if i % SCORING as nat == 0 {
            assert(m.len() > 0);
            lemma_rotr_len(m, 7);
        }
    }
}

/// Plays the game and returns the highest score.
pub fn part1(input: &(usize, usize)) -> (r: u64)
    requires
        input.0 >= 1,
        input.1 <= MAX_MARBLES,
    ensures
        r == max_score(play(input.0 as nat, input.1 as nat).1, input.0 as nat),
{
    let (n_players, n_marbles) = *input;
    let mut marbles: std::collections::VecDeque<usize> = std::collections::VecDeque::new();
    marbles.push_back(0);
    marbles.push_back(1);
    let mut scores: Vec<u64> = Vec::new();
    while scores.len() < n_players
        invariant
            scores@.len() <= n_players,
            forall|p: int| 0 <= p < scores@.len() ==> #[trigger] scores@[p] == 0,
        decreases n_players - scores@.len(),
    {
        scores.push(0);
    }
    assert(marbles@ =~= seq![0usize, 1]);
    let mut i: usize = 2;
    while i <= n_marbles
        invariant
            n_players >= 1,
            n_marbles <= MAX_MARBLES,
            2 <= i <= n_marbles + 1 || (i == 2 && n_marbles < 2),
            marbles@ == play(n_players as nat, (i - 1) as nat).0,
            scores@.len() == n_players,
            forall|p: int| 0 <= p < n_players ==> #[trigger] scores@[p] == play(n_players as nat, (i - 1) as nat).1[p],
            forall|p: int| 0 <= p < n_players ==> #[trigger] scores@[p] <= i * 0x8000_0000,
            forall|k: int| 0 <= k < marbles@.len() ==> #[trigger] marbles@[k] < i,
        decreases n_marbles + 1 - i,
    {
        proof {
            lemma_play_shape(n_players as nat, (i - 1) as nat);
            lemma_play_len(n_players as nat, (i - 1) as nat);
        }
        let ghost prev = play(n_players as nat, (i - 1) as nat);
        if i % SCORING == 0 {
            let mut k: usize = 0;
            while k < 7
                invariant
                    k <= 7,
                    marbles@.len() == prev.0.len(),
                    prev.0.len() >= 2,
                    marbles@ == rotr(prev.0, k as nat),
                    forall|j: int| 0 <= j < marbles@.len() ==> #[trigger] marbles@[j] < i,
                decreases 7 - k,
            {
                let ghost before = marbles@;
                let last = marbles.pop_back().unwrap();
                marbles.push_front(last);
                assert(marbles@ =~= rotr1(before));
                k = k + 1;
            }
            let taken = marbles.pop_front().unwrap();
            let p = i % n_players;
            let s = scores[p];
            scores.set(p, s + i as u64 + taken as u64);
        } else {
            let mut k: usize = 0;
            let ghost start = marbles@;
            while k < 2
                invariant
                    k <= 2,
                    marbles@.len() == start.len(),
                    start.len() >= 2,
                    k == 0 ==> marbles@ == start,
                    k == 1 ==> marbles@ == rotl1(start),
                    k == 2 ==> marbles@ == rotl1(rotl1(start)),
                    forall|j: int| 0 <= j < marbles@.len() ==> #[trigger] marbles@[j] < i,
                decreases 2 - k,
            {
                let ghost before = marbles@;
                let first = marbles.pop_front().unwrap();
                marbles.push_back(first);
                assert(marbles@ =~= rotl1(before));
                k = k + 1;
            }
            let ghost turned = marbles@;
            marbles.push_front(i);
            assert(marbles@ =~= seq![i] + turned);
        }
        i = i + 1;
    }
    let ghost fin = play(n_players as nat, (i - 1) as nat);
    assert((i - 1) as nat == n_marbles as nat || n_marbles < 2);
    let mut best: u64 = 0;
    let mut p: usize = 0;
    while p < n_players
        invariant
            p <= n_players,
            scores@.len() == n_players,
            best == max_score(fin.1, p as nat),
            forall|q: int| 0 <= q < n_players ==> #[trigger] scores@[q] == fin.1[q],
        decreases n_players - p,
    {
        if scores[p] > best {
            best = scores[p];
        }
        p = p + 1;
    }
    best
}

/// The same game with a hundred times as many marbles.
pub fn part2(input: &(usize, usize)) -> (r: u64)
    requires
        input.0 >= 1,
        input.1 <= MAX_MARBLES / 100,
    ensures
        r == max_score(play(input.0 as nat, (100 * input.1) as nat).1, input.0 as nat),
{
    part1(&(input.0, 100 * input.1))
}

/// The players and the last marble that a line
/// `<n> players; last marble is worth <m> points` gives.
pub open spec fn game_of(l: Seq<char>) -> Option<(usize, usize)> {
    let w = words(l);
    if w.len() == 8 && w[1] == seq!['p', 'l', 'a', 'y', 'e', 'r', 's', ';'] && w[2] == seq!['l', 'a', 's', 't']
        && w[3] == seq!['m', 'a', 'r', 'b', 'l', 'e'] && w[4] == seq!['i', 's'] && w[5] == seq!['w', 'o', 'r', 't', 'h']
        && w[7] == seq!['p', 'o', 'i', 'n', 't', 's'] {
        match (number_of(w[0]), number_of(w[6])) {
            (Some(n), Some(m)) => Some((n, m)),
            _ => None,
        }
    } else {
        None
    }
}

/// Whether `s[lo..hi]` is the word `p`.
pub fn word_is(s: &Vec<char>, lo: usize, hi: usize, p: &[char]) -> (r: bool)
    requires
        lo <= hi <= s@.len(),
    ensures
        r == (s@.subrange(lo as int, hi as int) == p@),
{
    if hi - lo != p.len() {
        assert(s@.subrange(lo as int, hi as int).len() != p@.len());
        return false;
    }
    let mut k: usize = 0;
    while k < p.len()
        invariant
            lo + p@.len() == hi <= s@.len(),
            k <= p@.len(),
            forall|m: int| 0 <= m < k ==> s@[lo + m] == p@[m],
        decreases p@.len() - k,
    {
        if s[lo + k] != p[k] {
            assert(s@.subrange(lo as int, hi as int)[k as int] != p@[k as int]);
            return false;
        }
        k = k + 1;
    }
    assert(s@.subrange(lo as int, hi as int) =~= p@);
    true
}

/// Reads the game from the first line.
pub fn parse_input(input: String) -> (r: Option<(usize, usize)>)
    ensures
        r == (if lines(input@).len() > 0 {
            game_of(lines(input@)[0])
        } else {
            None
        }),
{
    let all = chars_of(input.as_str());
    let ls = line_ranges(&all);
    if ls.len() == 0 {
        return None;
    }
    assert(lines(input@)[0] == all@.subrange(ls@[0].0 as int, ls@[0].1 as int));
    let l = crate::parse::copy_range(&all, ls[0].0, ls[0].1);
    let ws = word_ranges(&l);
    if ws.len() != 8 {
        return None;
    }
    let ghost w = words(l@);
    assert(forall|k: int| 0 <= k < 8 ==> #[trigger] w[k] == l@.subrange(ws@[k].0 as int, ws@[k].1 as int));
    let players = ['p', 'l', 'a', 'y', 'e', 'r', 's', ';'];
    let last = ['l', 'a', 's', 't'];
    let marble = ['m', 'a', 'r', 'b', 'l', 'e'];
    let is = ['i', 's'];
    let worth = ['w', 'o', 'r', 't', 'h'];
    let points = ['p', 'o', 'i', 'n', 't', 's'];
    assert(players@ =~= seq!['p', 'l', 'a', 'y', 'e', 'r', 's', ';']);
    assert(last@ =~= seq!['l', 'a', 's', 't']);
    assert(marble@ =~= seq!['m', 'a', 'r', 'b', 'l', 'e']);
    assert(is@ =~= seq!['i', 's']);
    assert(worth@ =~= seq!['w', 'o', 'r', 't', 'h']);
    assert(points@ =~= seq!['p', 'o', 'i', 'n', 't', 's']);
    if !(word_is(&l, ws[1].0, ws[1].1, &players) && word_is(&l, ws[2].0, ws[2].1, &last) && word_is(
        &l,
        ws[3].0,
        ws[3].1,
        &marble,
    ) && word_is(&l, ws[4].0, ws[4].1, &is) && word_is(&l, ws[5].0, ws[5].1, &worth) && word_is(
        &l,
        ws[7].0,
        ws[7].1,
        &points,
    )) {
        return None;
    }
    match (parse_number(&l, ws[0].0, ws[0].1), parse_number(&l, ws[6].0, ws[6].1)) {
        (Some(n), Some(m)) => Some((n, m)),
        _ => None,
    }
}

} // verus!
