//! Frequency changes: their sum and the first frequency reached twice.

use vstd::prelude::*;

use crate::parse::{chars_of, i32_of, line_ranges, lines, parse_i32, pieces, ranges_within};

verus! {

broadcast use vstd::std_specs::hash::group_hash_axioms;

/// The changes that lines `0..k` of `ls` give, one signed number per line;
/// `None` where one of those lines is not a number.
pub open spec fn changes_of(ls: Seq<Seq<char>>, k: nat) -> Option<Seq<i32>>
    decreases k,
{
    if k == 0 {
        Some(Seq::empty())
    } else {
        match (changes_of(ls, (k - 1) as nat), i32_of(ls[k - 1])) {
            (Some(p), Some(v)) => Some(p.push(v)),
            _ => None,
        }
    }
}

/// The sum of the changes `s`.
pub open spec fn total(s: Seq<i32>) -> int
    decreases s.len(),
{
    if s.len() == 0 {
        0
    } else {
        total(s.drop_last()) + s.last()
    }
}

/// The frequency after `k` changes, starting from 0 and going round the list
/// of changes again and again.
pub open spec fn frequency_after(s: Seq<i32>, k: nat) -> int
    decreases k,
{
    if k == 0 {
        0
    } else {
        frequency_after(s, (k - 1) as nat) + s[(k - 1) % s.len() as int]
    }
}

/// The frequency `v` was reached after fewer than `k` changes.
pub open spec fn reached_before(s: Seq<i32>, k: nat, v: int) -> bool {
    exists|j: nat| j < k && #[trigger] frequency_after(s, j) == v
}

/// Reads one signed change per line.
pub fn parse_input(input: String) -> (r: Option<Vec<i32>>)
    ensures
        match changes_of(lines(input@), lines(input@).len()) {
            Some(s) => r is Some && r->Some_0@ == s,
            None => r is None,
        },
{
    let cs = chars_of(input.as_str());
    let ls = line_ranges(&cs);
    let ghost lv = lines(input@);
    let mut out: Vec<i32> = Vec::new();
    let mut k: usize = 0;
    while k < ls.len()
        invariant
            cs@ == input@,
            lv == lines(input@),
            ranges_within(ls@, cs@.len()),
            pieces(cs@, ls@) == lv,
            k <= ls@.len(),
            changes_of(lv, k as nat) == Some(out@),
        decreases ls@.len() - k,
    {
        assert(lv[k as int] == cs@.subrange(ls@[k as int].0 as int, ls@[k as int].1 as int));
        match parse_i32(&cs, ls[k].0, ls[k].1) {
            None => {
                proof {
                    lemma_changes_fail_stays(lv, (k + 1) as nat, lv.len());
                }
                return None;
            },
            Some(v) => {
                out.push(v);
            },
        }
        k = k + 1;
    }
    Some(out)
}

proof fn lemma_changes_fail_stays(ls: Seq<Seq<char>>, k: nat, m: nat)
    requires
        k <= m,
        changes_of(ls, k) is None,
    ensures
        changes_of(ls, m) is None,
    decreases m - k,
{
    if k < m {
        lemma_changes_fail_stays(ls, k, (m - 1) as nat);
    }
}

proof fn lemma_total_bounded(s: Seq<i32>)
    ensures
        -(s.len() * 2147483648) <= total(s) <= s.len() * 2147483647,
    decreases s.len(),
{
    if s.len() > 0 {
        lemma_total_bounded(s.drop_last());
    }
}

/// The sum of all changes.
pub fn part1(changes: &[i32]) -> (r: i64)
    requires
        changes@.len() <= u32::MAX,
    ensures
        r == total(changes@),
{
    let mut sum: i64 = 0;
    let mut i: usize = 0;
    while i < changes.len()
        invariant
            changes@.len() <= u32::MAX,
            i <= changes@.len(),
            sum == total(changes@.take(i as int)),
        decreases changes@.len() - i,
    {
        assert(changes@.take(i + 1).drop_last() =~= changes@.take(i as int));
        proof {
            lemma_total_bounded(changes@.take(i + 1));
        }
        assert((i + 1) * 2147483648 <= 4294967296 * 2147483648) by (nonlinear_arith)
            requires
                i + 1 <= 4294967296,
        ;
        sum = sum + changes[i] as i64;
        i = i + 1;
    }
    assert(changes@.take(i as int) =~= changes@);
    sum
}

proof fn lemma_frequency_bounded(s: Seq<i32>, k: nat)
    requires
        s.len() > 0,
    ensures
        -(k * 2147483648) <= frequency_after(s, k) <= k * 2147483647,
    decreases k,
{
    if k > 0 {
        lemma_frequency_bounded(s, (k - 1) as nat);
    }
}

/// Goes round the changes from frequency 0 and returns the first frequency
/// reached twice, looking at the first `max_steps` changes at most (the
/// search need not end otherwise).
pub fn part2(changes: &[i32], max_steps: usize) -> (r: Option<i64>)
    requires
        changes@.len() > 0,
        max_steps <= u32::MAX,
    ensures
        match r {
            Some(v) => exists|k: nat|
                k <= max_steps && v == #[trigger] frequency_after(changes@, k) && reached_before(changes@, k, v as int)
                    && forall|j: nat| j < k ==> !reached_before(changes@, j, #[trigger] frequency_after(changes@, j)),
            None => forall|k: nat|
                k <= max_steps ==> !reached_before(changes@, k, #[trigger] frequency_after(changes@, k)),
        },
{
    let ghost s = changes@;
    let mut seen: std::collections::HashSet<i64> = std::collections::HashSet::new();
    let mut current: i64 = 0;
    let mut k: usize = 0;
    loop
        invariant
            s == changes@,
            s.len() > 0,
            max_steps <= u32::MAX,
            k <= max_steps,
            current == frequency_after(s, k as nat),
            forall|v: i64| seen@.contains(v) <==> reached_before(s, k as nat, v as int),
            forall|j: nat| j < k ==> !reached_before(s, j, #[trigger] frequency_after(s, j)),
        decreases max_steps - k,
    {
        if seen.contains(&current) {
            assert(reached_before(s, k as nat, current as int));
            return Some(current);
        }
        if k == max_steps {
            return None;
        }
        seen.insert(current);
        proof {
            lemma_frequency_bounded(s, (k + 1) as nat);
            assert((k + 1) * 2147483648 <= 4294967296 * 2147483648) by (nonlinear_arith)
                requires
                    k + 1 <= 4294967296,
            ;
            assert forall|v: i64| seen@.contains(v) <==> reached_before(s, (k + 1) as nat, v as int) by {
                if v == current {
                    assert(frequency_after(s, k as nat) == v);
                }
                if reached_before(s, (k + 1) as nat, v as int) {
                    let j = choose|j: nat| j < k + 1 && #[trigger] frequency_after(s, j) == v as int;
                    if j < k {
                        assert(reached_before(s, k as nat, v as int));
                    }
                }
            }
        }
        current = current + changes[k % changes.len()] as i64;
        k = k + 1;
    }
}

} // verus!
