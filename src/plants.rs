//! Plants in a row of pots, spreading by rules over five neighbouring pots.

use vstd::prelude::*;

use crate::nanobots::starts_with_at;
use crate::parse::{chars_of, copy_range, line_ranges, lines, pieces, ranges_within};
use crate::polymer::trim_end;

verus! {

/// Generations after which the pots are counted.
pub const GENERATIONS: usize = 20;

/// Whether `c` marks a pot (`#` a pot with a plant, `.` one without).
pub open spec fn is_pot(c: char) -> bool {
    c == '#' || c == '.'
}

/// The number of the pattern of pots `w`: `#` is 1 and `.` is 0, the first
/// pot the most significant.
pub open spec fn pattern_index(w: Seq<char>) -> nat
    decreases w.len(),
{
    if w.len() == 0 {
        0
    } else {
        pattern_index(w.drop_last()) * 2 + if w.last() == '#' {
            1nat
        } else {
            0
        }
    }
}

/// What the rules say grows in the middle of the five pots `w`; `None` where
/// no rule covers it.
pub open spec fn rule_for(rules: Seq<Option<char>>, w: Seq<char>) -> Option<char> {
    if w.len() == 5 && (forall|i: int| 0 <= i < 5 ==> is_pot(#[trigger] w[i])) {
        rules[pattern_index(w) as int]
    } else {
        None
    }
}

/// The pots `s` with four empty pots added at each end.
pub open spec fn padded(s: Seq<char>) -> Seq<char> {
    seq!['.', '.', '.', '.'] + s + seq!['.', '.', '.', '.']
}

/// The first `k` pots of the next generation: pot `i` is what the rule for
/// the window `i..i + 5` of the padded pots gives.
pub open spec fn next_gen_upto(rules: Seq<Option<char>>, s: Seq<char>, k: nat) -> Option<Seq<char>>
    decreases k,
{
    if k == 0 {
        Some(Seq::empty())
    } else {
        match (next_gen_upto(rules, s, (k - 1) as nat), rule_for(rules, padded(s).subrange(k - 1, k + 4 as int))) {
            (Some(p), Some(c)) => Some(p.push(c)),
            _ => None,
        }
    }
}

/// The next generation: two pots longer at each end than `s`.
pub open spec fn next_gen(rules: Seq<Option<char>>, s: Seq<char>) -> Option<Seq<char>> {
    next_gen_upto(rules, s, s.len() + 4)
}

/// The pots after `n` generations.
pub open spec fn gen_after(rules: Seq<Option<char>>, s: Seq<char>, n: nat) -> Option<Seq<char>>
    decreases n,
{
    if n == 0 {
        Some(s)
    } else {
        match gen_after(rules, s, (n - 1) as nat) {
            Some(t) => next_gen(rules, t),
            None => None,
        }
    }
}

/// The sum of the numbers of the pots with a plant among the first `k`,
/// pot `i` having number `i - shift`.
pub open spec fn pot_sum(s: Seq<char>, shift: int, k: nat) -> int
    decreases k,
{
    if k == 0 {
        0
    } else {
        pot_sum(s, shift, (k - 1) as nat) + if s[k - 1] == '#' {
            k - 1 - shift
        } else {
            0
        }
    }
}

/// The rule table after the rules of lines `2..k` of `ls`; `None` where one
/// of them is not a rule `<five pots> => <pot>`. A later rule for the same
/// pattern replaces an earlier one.
pub open spec fn rules_of(ls: Seq<Seq<char>>, k: nat) -> Option<Seq<Option<char>>>
    decreases k,
{
    if k <= 2 {
        Some(Seq::new(32, |i: int| None::<char>))
    } else {
        match rules_of(ls, (k - 1) as nat) {
            None => None,
            Some(t) => {
                let l = ls[k - 1];
                if l.len() == 10 && l.subrange(5, 9) == seq![' ', '=', '>', ' '] && (forall|i: int|
                    0 <= i < 5 ==> is_pot(#[trigger] l[i])) && is_pot(l[9]) {
                    Some(t.update(pattern_index(l.take(5)) as int, Some(l[9])))
                } else {
                    None
                }
            },
        }
    }
}

/// `2` to the power `k`, for the window lengths `k <= 5`.
pub open spec fn two_to(k: nat) -> nat {
    if k == 0 {
        1
    } else if k == 1 {
        2
    } else if k == 2 {
        4
    } else if k == 3 {
        8
    } else if k == 4 {
        16
    } else {
        32
    }
}

/// The number of the five pots `s[lo..lo + 5]`, where they are all pots.
fn window_index(s: &Vec<char>, lo: usize) -> (r: Option<usize>)
    requires
        lo + 5 <= s@.len(),
    ensures
        match r {
            Some(i) => (forall|j: int| lo <= j < lo + 5 ==> is_pot(#[trigger] s@[j])) && i == pattern_index(
                s@.subrange(lo as int, lo + 5),
            ) && i < 32,
            None => !(forall|j: int| lo <= j < lo + 5 ==> is_pot(#[trigger] s@[j])),
        },
{
    let n = s.len();
    let mut idx: usize = 0;
    let mut k: usize = 0;
    while k < 5
        invariant
            n == s@.len(),
            lo + 5 <= s@.len(),
            k <= 5,
            forall|j: int| lo <= j < lo + k ==> is_pot(#[trigger] s@[j]),
            idx == pattern_index(s@.subrange(lo as int, lo + k)),
            idx < two_to(k as nat),
        decreases 5 - k,
    {
        let c = s[lo + k];
        if !(c == '#' || c == '.') {
            return None;
        }
        assert(s@.subrange(lo as int, lo + k + 1).drop_last() =~= s@.subrange(lo as int, lo + k));
        idx = idx * 2 + if c == '#' {
            1
        } else {
            0
        };
        k = k + 1;
    }
    Some(idx)
}

/// The next generation of pots; `None` where a window has no rule.
pub fn step(state: &Vec<char>, rules: &Vec<Option<char>>) -> (r: Option<Vec<char>>)
    requires
        rules@.len() == 32,
        state@.len() <= usize::MAX - 8,
    ensures
        match next_gen(rules@, state@) {
            Some(t) => r matches Some(v) && v@ == t,
            None => r is None,
        },
{
    let mut p: Vec<char> = vec!['.', '.', '.', '.'];
    let mut i: usize = 0;
    while i < state.len()
        invariant
            i <= state@.len(),
            p@ == seq!['.', '.', '.', '.'] + state@.take(i as int),
        decreases state@.len() - i,
    {
        p.push(state[i]);
        i = i + 1;
        assert(p@ =~= seq!['.', '.', '.', '.'] + state@.take(i as int));
    }
    let mut e: usize = 0;
    while e < 4
        invariant
            e <= 4,
            p@ == seq!['.', '.', '.', '.'] + state@ + Seq::new(e as nat, |j: int| '.'),
        decreases 4 - e,
    {
        p.push('.');
        e = e + 1;
        assert(p@ =~= seq!['.', '.', '.', '.'] + state@ + Seq::new(e as nat, |j: int| '.'));
    }
    assert(state@.take(state@.len() as int) =~= state@);
    assert(p@ =~= padded(state@));
    let n = state.len() + 4;
    let mut out: Vec<char> = Vec::new();
    let mut k: usize = 0;
    while k < n
        invariant
            rules@.len() == 32,
            p@ == padded(state@),
            n == state@.len() + 4,
            k <= n,
            next_gen_upto(rules@, state@, k as nat) == Some(out@),
        decreases n - k,
    {
        assert(p@.subrange(k as int, k + 5).len() == 5);
        match window_index(&p, k) {
            None => {
                assert(rule_for(rules@, p@.subrange(k as int, k + 5)) is None) by {
                    let w = p@.subrange(k as int, k + 5);
                    let j = choose|j: int| k <= j < k + 5 && !is_pot(#[trigger] p@[j]);
                    assert(!is_pot(w[j - k]));
                }
                proof {
                    lemma_gen_fail_stays(rules@, state@, (k + 1) as nat, n as nat);
                }
                return None;
            },
            Some(idx) => {
                let ghost w = p@.subrange(k as int, k + 5);
                assert(forall|j: int| 0 <= j < 5 ==> is_pot(#[trigger] w[j]) <== is_pot(p@[k + j]));
                match rules[idx] {
                    None => {
                        proof {
                            lemma_gen_fail_stays(rules@, state@, (k + 1) as nat, n as nat);
                        }
                        return None;
                    },
                    Some(c) => {
                        out.push(c);
                    },
                }
            },
        }
        k = k + 1;
    }
    Some(out)
}

proof fn lemma_gen_fail_stays(rules: Seq<Option<char>>, s: Seq<char>, k: nat, m: nat)
    requires
        k <= m,
        next_gen_upto(rules, s, k) is None,
    ensures
        next_gen_upto(rules, s, m) is None,
    decreases m - k,
{
    if k < m {
        lemma_gen_fail_stays(rules, s, k, (m - 1) as nat);
    }
}

/// The sum of the numbers of the pots with a plant after `n_gen`
/// generations, where the pots have grown by two at each end each generation.
pub fn eval(state: &Vec<char>, n_gen: usize) -> (r: i64)
    requires
        state@.len() <= 0x1000_0000,
        n_gen <= 0x1000_0000,
    ensures
        r == pot_sum(state@, 2 * n_gen, state@.len()),
{
    let mut sum: i64 = 0;
    let mut i: usize = 0;
    while i < state.len()
        invariant
            state@.len() <= 0x1000_0000,
            n_gen <= 0x1000_0000,
            i <= state@.len(),
            sum == pot_sum(state@, 2 * n_gen, i as nat),
            -(i as int) * 0x2000_0000 <= sum <= (i as int) * 0x1000_0000,
        decreases state@.len() - i,
    {
        if state[i] == '#' {
            assert(((i + 1) as int) * 0x2000_0000 <= 0x1000_0000 * 0x2000_0000) by (nonlinear_arith)
                requires
                    i + 1 <= 0x1000_0000,
            ;
            sum = sum + (i as i64 - 2 * n_gen as i64);
        }
        i = i + 1;
    }
    sum
}

/// The sum of the numbers of the pots with a plant after `GENERATIONS`
/// generations; `None` where a window meets no rule on the way.
pub fn part1(state: &Vec<char>, rules: &Vec<Option<char>>) -> (r: Option<i64>)
    requires
        rules@.len() == 32,
        state@.len() <= 0x1000_0000 - 100,
    ensures
        match gen_after(rules@, state@, GENERATIONS as nat) {
            Some(t) => r == Some(pot_sum(t, 2 * GENERATIONS, t.len()) as i64),
            None => r is None,
        },
{
    let mut s = state.clone();
    assert(s@ == state@);
    let mut g: usize = 0;
    while g < GENERATIONS
        invariant
            rules@.len() == 32,
            state@.len() <= 0x1000_0000 - 100,
            g <= GENERATIONS,
            gen_after(rules@, state@, g as nat) == Some(s@),
            s@.len() == state@.len() + 4 * g,
        decreases GENERATIONS - g,
    {
        match step(&s, rules) {
            None => {
                proof {
                    lemma_gens_fail_stay(rules@, state@, (g + 1) as nat, GENERATIONS as nat);
                }
                return None;
            },
            Some(t) => {
                proof {
                    lemma_next_gen_len(rules@, s@, (s@.len() + 4) as nat);
                }
                s = t;
            },
        }
        g = g + 1;
    }
    Some(eval(&s, GENERATIONS))
}

proof fn lemma_next_gen_len(rules: Seq<Option<char>>, s: Seq<char>, k: nat)
    ensures
        next_gen_upto(rules, s, k) matches Some(t) ==> t.len() == k,
    decreases k,
{
    if k > 0 {
        lemma_next_gen_len(rules, s, (k - 1) as nat);
    }
}

proof fn lemma_gens_fail_stay(rules: Seq<Option<char>>, s: Seq<char>, k: nat, m: nat)
    requires
        k <= m,
        gen_after(rules, s, k) is None,
    ensures
        gen_after(rules, s, m) is None,
    decreases m - k,
{
    if k < m {
        lemma_gens_fail_stay(rules, s, k, (m - 1) as nat);
    }
}

/// The first line's `initial state: ` prefix.
pub open spec fn state_prefix() -> Seq<char> {
    seq!['i', 'n', 'i', 't', 'i', 'a', 'l', ' ', 's', 't', 'a', 't', 'e', ':', ' ']
}

/// The pots and the rule table that the text `s` gives: a first line
/// `initial state: <pots>`, a second line that is passed over, and one rule
/// per line after that.
pub open spec fn garden_of(s: Seq<char>) -> Option<(Seq<char>, Seq<Option<char>>)> {
    let ls = lines(s);
    if ls.len() > 0 && ls[0].len() >= 15 && ls[0].take(15) == state_prefix() {
        match rules_of(ls, ls.len()) {
            Some(t) => Some((trim_end(ls[0].skip(15)), t)),
            None => None,
        }
    } else {
        None
    }
}

proof fn lemma_rules_fail_stays(ls: Seq<Seq<char>>, k: nat, m: nat)
    requires
        k <= m,
        rules_of(ls, k) is None,
    ensures
        rules_of(ls, m) is None,
    decreases m - k,
{
    if k < m {
        lemma_rules_fail_stays(ls, k, (m - 1) as nat);
    }
}

/// Reads the initial pots and the rules.
pub fn parse_input(input: String) -> (r: Option<(Vec<char>, Vec<Option<char>>)>)
    ensures
        match garden_of(input@) {
            Some((st, t)) => r matches Some(v) && v.0@ == st && v.1@ == t,
            None => r is None,
        },
{
    let cs = chars_of(input.as_str());
    let ls = line_ranges(&cs);
    let ghost lv = lines(input@);
    if ls.len() == 0 {
        return None;
    }
    assert(lv[0] == cs@.subrange(ls@[0].0 as int, ls@[0].1 as int));
    let (h0, h1) = ls[0];
    let prefix = ['i', 'n', 'i', 't', 'i', 'a', 'l', ' ', 's', 't', 'a', 't', 'e', ':', ' '];
    assert(prefix@ =~= state_prefix());
    if !starts_with_at(&cs, h0, h1, &prefix) {
        return None;
    }
    let mut st = copy_range(&cs, h0 + 15, h1);
    assert(st@ =~= lv[0].skip(15));
    while st.len() > 0 && (st[st.len() - 1] == ' ' || st[st.len() - 1] == '\t' || st[st.len() - 1] == '\n'
        || st[st.len() - 1] == '\r')
        invariant
            trim_end(st@) == trim_end(lv[0].skip(15)),
        decreases st@.len(),
    {
        st.pop();
    }
    let mut table: Vec<Option<char>> = Vec::new();
    while table.len() < 32
        invariant
            table@.len() <= 32,
            forall|i: int| 0 <= i < table@.len() ==> #[trigger] table@[i] == None::<char>,
        decreases 32 - table@.len(),
    {
        table.push(None);
    }
    assert(table@ =~= Seq::new(32, |i: int| None::<char>));
    let mut k: usize = 2;
    if ls.len() < 2 {
        k = ls.len();
    }
    while k < ls.len()
        invariant
            cs@ == input@,
            lv == lines(input@),
            ranges_within(ls@, cs@.len()),
            pieces(cs@, ls@) == lv,
            k <= ls@.len(),
            k >= 2 || k == ls@.len(),
            rules_of(lv, k as nat) == Some(table@),
            table@.len() == 32,
        decreases ls@.len() - k,
    {
        let (lo, hi) = ls[k];
        assert(lv[k as int] == cs@.subrange(lo as int, hi as int));
        let ghost l = lv[k as int];
        let arrow = [' ', '=', '>', ' '];
        assert(arrow@ =~= seq![' ', '=', '>', ' ']);
        if hi - lo != 10 {
            proof {
                lemma_rules_fail_stays(lv, (k + 1) as nat, lv.len());
            }
            return None;
        }
        assert(cs@.subrange(lo + 5, hi as int) =~= l.subrange(5, 10));
        if !starts_with_at(&cs, lo + 5, hi, &arrow) {
            assert(l.subrange(5, 9) =~= cs@.subrange(lo + 5, hi as int).take(4));
            proof {
                lemma_rules_fail_stays(lv, (k + 1) as nat, lv.len());
            }
            return None;
        }
        assert(l.subrange(5, 9) =~= cs@.subrange(lo + 5, hi as int).take(4));
        let c = cs[lo + 9];
        if !(c == '#' || c == '.') {
            proof {
                lemma_rules_fail_stays(lv, (k + 1) as nat, lv.len());
            }
            return None;
        }
        match window_index(&cs, lo) {
            None => {
                assert(!(forall|i: int| 0 <= i < 5 ==> is_pot(#[trigger] l[i]))) by {
                    let j = choose|j: int| lo <= j < lo + 5 && !is_pot(#[trigger] cs@[j]);
                    assert(!is_pot(l[j - lo]));
                }
                proof {
                lemma_rules_fail_stays(lv, (k + 1) as nat, lv.len());
            }
            return None;
            },
            Some(idx) => {
                assert(cs@.subrange(lo as int, lo + 5) =~= l.take(5));
                assert(forall|i: int| 0 <= i < 5 ==> is_pot(#[trigger] l[i]) <== is_pot(cs@[lo + i]));
                table.set(idx, Some(c));
            },
        }
        k = k + 1;
    }
    proof {
        if lv.len() < 2 {
            assert(rules_of(lv, lv.len()) == Some(Seq::new(32, |i: int| None::<char>)));
        }
    }
    Some((st, table))
}

} // verus!
