//! Box ids: a checksum of letter counts, and the two ids that differ in one place.

use vstd::prelude::*;

use crate::parse::chars_of;

verus! {

/// How many times `c` occurs in `s`.
pub open spec fn count_in(s: Seq<char>, c: char) -> nat
    decreases s.len(),
{
    if s.len() == 0 {
        0
    } else {
        count_in(s.drop_last(), c) + if s.last() == c {
            1nat
        } else {
            0
        }
    }
}

/// Some character of `s` occurs in it exactly `n` times.
pub open spec fn has_count(s: Seq<char>, n: nat) -> bool {
    exists|i: int| 0 <= i < s.len() && count_in(s, #[trigger] s[i]) == n
}

/// How many of the ids have a character that occurs exactly `n` times.
pub open spec fn ids_with_count(ids: Seq<Seq<char>>, n: nat) -> nat
    decreases ids.len(),
{
    if ids.len() == 0 {
        0
    } else {
        ids_with_count(ids.drop_last(), n) + if has_count(ids.last(), n) {
            1nat
        } else {
            0
        }
    }
}

/// How many of the first `k` positions hold different characters in `a` and `b`.
pub open spec fn mismatches(a: Seq<char>, b: Seq<char>, k: nat) -> nat
    decreases k,
{
    if k == 0 {
        0
    } else {
        mismatches(a, b, (k - 1) as nat) + if a[k - 1] != b[k - 1] {
            1nat
        } else {
            0
        }
    }
}

/// The shorter of the two lengths: the positions that `a` and `b` share.
pub open spec fn shared_len(a: Seq<char>, b: Seq<char>) -> nat {
    if a.len() <= b.len() {
        a.len()
    } else {
        b.len()
    }
}

/// `a` and `b` differ at exactly one of the positions they share.
pub open spec fn differ_in_one(a: Seq<char>, b: Seq<char>) -> bool {
    mismatches(a, b, shared_len(a, b)) == 1
}

/// The characters of the first `k` positions at which `a` and `b` agree, in order.
pub open spec fn common_prefix_chars(a: Seq<char>, b: Seq<char>, k: nat) -> Seq<char>
    decreases k,
{
    if k == 0 {
        Seq::empty()
    } else {
        let p = common_prefix_chars(a, b, (k - 1) as nat);
        if a[k - 1] == b[k - 1] {
            p.push(a[k - 1])
        } else {
            p
        }
    }
}

/// The pair `(i, j)` comes before `(i2, j2)`, ordered by first index, then by second.
pub open spec fn pair_before(i: int, j: int, i2: int, j2: int) -> bool {
    i < i2 || (i == i2 && j < j2)
}

/// How many times `c` occurs in `s`.
pub fn count_chars(s: &Vec<char>, c: char) -> (r: usize)
    ensures
        r == count_in(s@, c),
{
    let mut n: usize = 0;
    let mut i: usize = 0;
    while i < s.len()
        invariant
            i <= s@.len(),
            n == count_in(s@.take(i as int), c),
            n <= i,
        decreases s@.len() - i,
    {
        assert(s@.take(i + 1).drop_last() =~= s@.take(i as int));
        if s[i] == c {
            n = n + 1;
        }
        i = i + 1;
    }
    assert(s@.take(i as int) =~= s@);
    n
}

/// Whether some character of `s` occurs in it exactly `n` times.
pub fn has_letter_count(s: &Vec<char>, n: usize) -> (r: bool)
    ensures
        r == has_count(s@, n as nat),
{
    let mut i: usize = 0;
    while i < s.len()
        invariant
            i <= s@.len(),
            forall|j: int| 0 <= j < i ==> count_in(s@, #[trigger] s@[j]) != n,
        decreases s@.len() - i,
    {
        if count_chars(s, s[i]) == n {
            return true;
        }
        i = i + 1;
    }
    false
}

/// The number of ids with a character that occurs exactly twice, times the
/// number of ids with a character that occurs exactly three times.
pub fn part1(ids: &[String]) -> (r: u64)
    requires
        ids@.len() <= u32::MAX,
    ensures
        r == ids_with_count(ids@.map_values(|s: String| s@), 2) * ids_with_count(
            ids@.map_values(|s: String| s@),
            3,
        ),
{
    let ghost v = ids@.map_values(|s: String| s@);
    let mut twos: u64 = 0;
    let mut threes: u64 = 0;
    let mut i: usize = 0;
    while i < ids.len()
        invariant
            v == ids@.map_values(|s: String| s@),
            ids@.len() <= u32::MAX,
            i <= ids@.len(),
            twos == ids_with_count(v.take(i as int), 2),
            threes == ids_with_count(v.take(i as int), 3),
            twos <= i,
            threes <= i,
        decreases ids@.len() - i,
    {
        assert(v.take(i + 1).drop_last() =~= v.take(i as int));
        let cs = chars_of(ids[i].as_str());
        if has_letter_count(&cs, 2) {
            twos = twos + 1;
        }
        if has_letter_count(&cs, 3) {
            threes = threes + 1;
        }
        i = i + 1;
    }
    assert(v.take(i as int) =~= v);
    assert(twos * threes <= 4294967295u64 * 4294967295u64) by (nonlinear_arith)
        requires
            twos <= 4294967295u64,
            threes <= 4294967295u64,
    ;
    twos * threes
}

/// Whether the ids differ at exactly one of the positions they share.
pub fn differ_by_one(s1: &str, s2: &str) -> (r: bool)
    ensures
        r == differ_in_one(s1@, s2@),
{
    let a = chars_of(s1);
    let b = chars_of(s2);
    let n = if a.len() <= b.len() {
        a.len()
    } else {
        b.len()
    };
    let mut d: usize = 0;
    let mut i: usize = 0;
    while i < n
        invariant
            a@ == s1@,
            b@ == s2@,
            n == shared_len(a@, b@),
            i <= n,
            d == mismatches(a@, b@, i as nat),
            d <= i,
        decreases n - i,
    {
        if a[i] != b[i] {
            d = d + 1;
        }
        i = i + 1;
    }
    d == 1
}

/// The characters that the ids share at the same positions, in order.
pub fn common_chars(s1: &str, s2: &str) -> (r: String)
    ensures
        r@ == common_prefix_chars(s1@, s2@, shared_len(s1@, s2@)),
{
    let a = chars_of(s1);
    let b = chars_of(s2);
    let n = if a.len() <= b.len() {
        a.len()
    } else {
        b.len()
    };
    let mut out = String::new();
    let mut i: usize = 0;
    while i < n
        invariant
            a@ == s1@,
            b@ == s2@,
            n == shared_len(a@, b@),
            i <= n,
            out@ == common_prefix_chars(a@, b@, i as nat),
        decreases n - i,
    {
        if a[i] == b[i] {
            let piece = s1.substring_char(i, i + 1);
            assert(piece@ =~= seq![a@[i as int]]);
            out.append(piece);
        }
        i = i + 1;
    }
    out
}

/// The characters shared by the first pair of ids (ordered by the first
/// index, then the second) that differ at exactly one position; `None` where
/// no pair does.
pub fn part2(strings: &Vec<String>) -> (r: Option<String>)
    ensures
        ({
            let v = strings@.map_values(|s: String| s@);
            match r {
                Some(c) => exists|i: int, j: int|
                    0 <= i < j < v.len() && #[trigger] differ_in_one(v[i], v[j]) && c@ == common_prefix_chars(
                        v[i],
                        v[j],
                        shared_len(v[i], v[j]),
                    ) && forall|i2: int, j2: int|
                        0 <= i2 < j2 < v.len() && pair_before(i2, j2, i, j) ==> !#[trigger] differ_in_one(v[i2], v[j2]),
                None => forall|i: int, j: int| 0 <= i < j < v.len() ==> !#[trigger] differ_in_one(v[i], v[j]),
            }
        }),
{
    let ghost v = strings@.map_values(|s: String| s@);
    let mut i: usize = 0;
    while i < strings.len()
        invariant
            v == strings@.map_values(|s: String| s@),
            i <= strings@.len(),
            forall|i2: int, j2: int| 0 <= i2 < i && i2 < j2 < v.len() ==> !#[trigger] differ_in_one(v[i2], v[j2]),
        decreases strings@.len() - i,
    {
        let mut j: usize = i + 1;
        while j < strings.len()
            invariant
                v == strings@.map_values(|s: String| s@),
                i < strings@.len(),
                i + 1 <= j <= strings@.len(),
                forall|i2: int, j2: int| 0 <= i2 < i && i2 < j2 < v.len() ==> !#[trigger] differ_in_one(v[i2], v[j2]),
                forall|j2: int| i < j2 < j ==> !#[trigger] differ_in_one(v[i as int], v[j2]),
            decreases strings@.len() - j,
        {
            if differ_by_one(strings[i].as_str(), strings[j].as_str()) {
                let c = common_chars(strings[i].as_str(), strings[j].as_str());
                assert(differ_in_one(v[i as int], v[j as int]));
                return Some(c);
            }
            j = j + 1;
        }
        i = i + 1;
    }
    None
}

} // verus!
