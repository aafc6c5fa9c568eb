//! Recipe scores that two elves add to a scoreboard.

use vstd::prelude::*;

verus! {

/// All scores are single digits and both elves stand on a recipe.
pub open spec fn valid_board(s: Seq<u8>, e1: nat, e2: nat) -> bool {
    &&& e1 < s.len()
    &&& e2 < s.len()
    &&& forall|i: int| 0 <= i < s.len() ==> #[trigger] s[i] <= 9
}

/// One round: the digits of the sum of the two current recipes are added to
/// the scoreboard, then each elf moves forward one plus the score of its
/// recipe, going round the board.
pub open spec fn mix(s: Seq<u8>, e1: nat, e2: nat) -> (Seq<u8>, nat, nat) {
    let sum = s[e1 as int] + s[e2 as int];
    let t = if sum >= 10 {
        s.push(1).push((sum - 10) as u8)
    } else {
        s.push(sum as u8)
    };
    (t, ((e1 + 1 + s[e1 as int]) % t.len() as int) as nat, ((e2 + 1 + s[e2 as int]) % t.len() as int) as nat)
}

/// The scoreboard after rounds from `s` until it holds at least `target` recipes.
pub open spec fn grow(s: Seq<u8>, e1: nat, e2: nat, target: nat) -> Seq<u8>
    decreases target + 1 - s.len(),
{
    if s.len() >= target {
        s
    } else {
        let sum = s[e1 as int] + s[e2 as int];
        let t = if sum >= 10 {
            s.push(1).push((sum - 10) as u8)
        } else {
            s.push(sum as u8)
        };
        let m = mix(s, e1, e2);
        grow(t, m.1, m.2, target)
    }
}

/// The character of the digit `d`.
pub open spec fn digit_char(d: u8) -> char {
    (('0' as u32) + d) as char
}

/// The scoreboard the elves start with.
pub open spec fn start_board() -> Seq<u8> {
    seq![3u8, 7]
}

/// The scores of the ten recipes after the first `input`, as digits.
pub fn part1(input: &usize) -> (r: String)
    requires
        *input <= usize::MAX - 32,
    ensures
        r@ == Seq::new(10, |k: int| digit_char(grow(start_board(), 0, 1, (*input + 10) as nat)[*input + k])),
{
    let target = *input + 10;
    let mut scores: Vec<u8> = vec![3, 7];
    assert(scores@ =~= start_board());
    let mut c1: usize = 0;
    let mut c2: usize = 1;
    while scores.len() < target
        invariant
            target == *input + 10,
            target <= usize::MAX - 22,
            valid_board(scores@, c1 as nat, c2 as nat),
            scores@.len() <= target + 1,
            grow(scores@, c1 as nat, c2 as nat, target as nat) == grow(start_board(), 0, 1, target as nat),
        decreases target + 1 - scores@.len(),
    {
        let ghost before = scores@;
        let (s1, s2) = (scores[c1], scores[c2]);
        let sum = s1 + s2;
        if sum >= 10 {
            scores.push(1);
            scores.push(sum - 10);
        } else {
            scores.push(sum);
        }
        let n = scores.len();
        c1 = (c1 + 1 + s1 as usize) % n;
        c2 = (c2 + 1 + s2 as usize) % n;
    }
    proof {
        reveal_strlit("0123456789");
    }
    let digits = "0123456789";
    let mut out = String::new();
    let mut k: usize = 0;
    while k < 10
        invariant
            k <= 10,
            target == *input + 10,
            scores@ == grow(start_board(), 0, 1, target as nat),
            scores@.len() >= target,
            forall|i: int| 0 <= i < scores@.len() ==> #[trigger] scores@[i] <= 9,
            digits@ == seq!['0', '1', '2', '3', '4', '5', '6', '7', '8', '9'],
            out@ == Seq::new(k as nat, |m: int| digit_char(scores@[*input + m])),
        decreases 10 - k,
    {
        let d = scores[*input + k] as usize;
        let piece = digits.substring_char(d, d + 1);
        assert(piece@ =~= seq![digit_char(scores@[*input + k])]);
        out.append(piece);
        k = k + 1;
        assert(out@ =~= Seq::new(k as nat, |m: int| digit_char(scores@[*input + m])));
    }
    out
}

/// The decimal digits of `n`, most significant first (`[0]` for 0).
pub open spec fn digits_of(n: nat) -> Seq<u8>
    decreases n,
{
    if n < 10 {
        seq![n as u8]
    } else {
        digits_of(n / 10).push((n % 10) as u8)
    }
}

/// The recipes `s[e - t.len()..e]` are the scores `t`, and the window ends
/// past the first nine recipes.
pub open spec fn window_matches(s: Seq<u8>, e: int, t: Seq<u8>) -> bool {
    &&& e >= 10
    &&& e >= t.len()
    &&& e <= s.len()
    &&& s.subrange(e - t.len(), e) == t
}

/// Where the scores `t` first appear, looking at the windows that end at
/// each new recipe from the tenth on, for at most `fuel` more rounds from `s`.
pub open spec fn find_from(s: Seq<u8>, e1: nat, e2: nat, t: Seq<u8>, fuel: nat) -> Option<nat>
    decreases fuel,
{
    if fuel == 0 {
        None
    } else {
        let m = mix(s, e1, e2);
        let n = s.len() as int;
        if window_matches(m.0, n + 1, t) {
            Some((n + 1 - t.len()) as nat)
        } else if m.0.len() == n + 2 && window_matches(m.0, n + 2, t) {
            Some((n + 2 - t.len()) as nat)
        } else {
            find_from(m.0, m.1, m.2, t, (fuel - 1) as nat)
        }
    }
}

/// The decimal digits of `n`.
pub fn digits(n: usize) -> (r: Vec<u8>)
    ensures
        r@ == digits_of(n as nat),
    decreases n,
{
    if n < 10 {
        vec![n as u8]
    } else {
        let mut d = digits(n / 10);
        d.push((n % 10) as u8);
        d
    }
}

/// Whether the recipes `s[e - t.len()..e]` are the scores `t`, past the first nine.
fn window_is(s: &Vec<u8>, e: usize, t: &Vec<u8>) -> (r: bool)
    ensures
        r == window_matches(s@, e as int, t@),
{
    if e < 10 || e < t.len() || e > s.len() {
        return false;
    }
    let start = e - t.len();
    let mut k: usize = 0;
    while k < t.len()
        invariant
            start + t@.len() == e <= s@.len(),
            k <= t@.len(),
            forall|m: int| 0 <= m < k ==> s@[start + m] == t@[m],
        decreases t@.len() - k,
    {
        if s[start + k] != t[k] {
            assert(s@.subrange(start as int, e as int)[k as int] != t@[k as int]);
            return false;
        }
        k = k + 1;
    }
    assert(s@.subrange(start as int, e as int) =~= t@);
    true
}

/// How many recipes come before the first appearance of the digits of
/// `input` on the scoreboard (windows that end among the first nine recipes
/// are not looked at); `None` where they do not appear within `max_rounds` rounds.
pub fn part2(input: &usize, max_rounds: usize) -> (r: Option<usize>)
    requires
        max_rounds <= usize::MAX / 4,
    ensures
        match find_from(start_board(), 0, 1, digits_of(*input as nat), max_rounds as nat) {
            Some(p) => r == Some(p as usize),
            None => r is None,
        },
{
    let target = digits(*input);
    let mut scores: Vec<u8> = vec![3, 7];
    assert(scores@ =~= start_board());
    let mut c1: usize = 0;
    let mut c2: usize = 1;
    let mut fuel: usize = max_rounds;
    while fuel > 0
        invariant
            max_rounds <= usize::MAX / 4,
            fuel <= max_rounds,
            valid_board(scores@, c1 as nat, c2 as nat),
            scores@.len() <= 2 + 2 * (max_rounds - fuel),
            find_from(scores@, c1 as nat, c2 as nat, target@, fuel as nat) == find_from(
                start_board(),
                0,
                1,
                target@,
                max_rounds as nat,
            ),
            target@ == digits_of(*input as nat),
        decreases fuel,
    {
        let ghost before = scores@;
        let n = scores.len();
        let (s1, s2) = (scores[c1], scores[c2]);
        let sum = s1 + s2;
        if sum >= 10 {
            scores.push(1);
            scores.push(sum - 10);
        } else {
            scores.push(sum);
        }
        let len = scores.len();
        c1 = (c1 + 1 + s1 as usize) % len;
        c2 = (c2 + 1 + s2 as usize) % len;
        if window_is(&scores, n + 1, &target) {
            return Some(n + 1 - target.len());
        }
        if len == n + 2 && window_is(&scores, n + 2, &target) {
            return Some(n + 2 - target.len());
        }
        fuel = fuel - 1;
    }
    None
}

} // verus!
