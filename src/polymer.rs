//! Polymer reduction: units of one type and opposite polarity destroy each other.

use vstd::prelude::*;

use crate::parse::chars_of;

verus! {

/// `c` in lower case, for the ASCII letters; other characters are unchanged.
pub open spec fn lower(c: char) -> char {
    if 'A' <= c <= 'Z' {
        ((c as u32) + 32) as char
    } else {
        c
    }
}

/// Two units react when they are the same letter in opposite cases.
pub open spec fn spec_reacts(a: char, b: char) -> bool {
    a != b && lower(a) == lower(b)
}

/// Characters that end a line or separate words.
pub open spec fn is_space(c: char) -> bool {
    c == ' ' || c == '\t' || c == '\n' || c == '\r'
}

/// `s` without its trailing spaces and line ends.
pub open spec fn trim_end(s: Seq<char>) -> Seq<char>
    decreases s.len(),
{
    if s.len() > 0 && is_space(s.last()) {
        trim_end(s.drop_last())
    } else {
        s
    }
}

/// What is left of the polymer `s` when each unit, read from left to right,
/// either reacts with the last unit left so far (and both go) or is kept.
pub open spec fn reduce(s: Seq<char>) -> Seq<char>
    decreases s.len(),
{
    if s.len() == 0 {
        Seq::empty()
    } else {
        let st = reduce(s.drop_last());
        if st.len() > 0 && spec_reacts(st.last(), s.last()) {
            st.drop_last()
        } else {
            st.push(s.last())
        }
    }
}

/// `s` without the units of type `c` (the lower-case letter `c` and its upper case).
pub open spec fn without_unit(s: Seq<char>, c: char) -> Seq<char>
    decreases s.len(),
{
    if s.len() == 0 {
        Seq::empty()
    } else {
        let p = without_unit(s.drop_last(), c);
        if lower(s.last()) == c {
            p
        } else {
            p.push(s.last())
        }
    }
}

/// The shortest length of the reduced polymer without one of the first `k`
/// unit types `a`, `b`, ..., and `n` where that is shorter.
pub open spec fn shortest_without(s: Seq<char>, k: nat, n: nat) -> nat
    decreases k,
{
    if k == 0 {
        n
    } else {
        let best = shortest_without(s, (k - 1) as nat, n);
        let l = reduce(without_unit(s, (('a' as u32) + k - 1) as char)).len();
        if l < best {
            l
        } else {
            best
        }
    }
}

/// Whether the two units react.
pub fn reacts(a: char, b: char) -> (r: bool)
    ensures
        r == spec_reacts(a, b),
{
    let la = if 'A' <= a && a <= 'Z' {
        ((a as u32) + 32) as u8 as char
    } else {
        a
    };
    let lb = if 'A' <= b && b <= 'Z' {
        ((b as u32) + 32) as u8 as char
    } else {
        b
    };
    a != b && la == lb
}

/// The units left of the polymer after all reactions.
pub fn reduce_units(s: &Vec<char>) -> (r: Vec<char>)
    ensures
        r@ == reduce(s@),
{
    let mut stack: Vec<char> = Vec::new();
    let mut i: usize = 0;
    assert(s@.take(0) =~= Seq::<char>::empty());
    while i < s.len()
        invariant
            i <= s@.len(),
            stack@ == reduce(s@.take(i as int)),
        decreases s@.len() - i,
    {
        assert(s@.take(i + 1).drop_last() =~= s@.take(i as int));
        let c = s[i];
        if stack.len() > 0 && reacts(stack[stack.len() - 1], c) {
            stack.pop();
        } else {
            stack.push(c);
        }
        i = i + 1;
    }
    assert(s@.take(i as int) =~= s@);
    stack
}

/// How many units are left of the polymer after all reactions; trailing
/// spaces and line ends are not part of it.
pub fn part1(polymer: &str) -> (r: usize)
    ensures
        r == reduce(trim_end(polymer@)).len(),
{
    let mut cs = chars_of(polymer);
    while cs.len() > 0 && (cs[cs.len() - 1] == ' ' || cs[cs.len() - 1] == '\t' || cs[cs.len() - 1] == '\n'
        || cs[cs.len() - 1] == '\r')
        invariant
            trim_end(cs@) == trim_end(polymer@),
        decreases cs@.len(),
    {
        cs.pop();
    }
    reduce_units(&cs).len()
}

/// The polymer without the units of type `c`.
pub fn remove_unit(s: &Vec<char>, c: char) -> (r: Vec<char>)
    ensures
        r@ == without_unit(s@, c),
{
    let mut out: Vec<char> = Vec::new();
    let mut i: usize = 0;
    assert(s@.take(0) =~= Seq::<char>::empty());
    while i < s.len()
        invariant
            i <= s@.len(),
            out@ == without_unit(s@.take(i as int), c),
        decreases s@.len() - i,
    {
        assert(s@.take(i + 1).drop_last() =~= s@.take(i as int));
        let u = s[i];
        let lu = if 'A' <= u && u <= 'Z' {
            ((u as u32) + 32) as u8 as char
        } else {
            u
        };
        if lu != c {
            out.push(u);
        }
        i = i + 1;
    }
    assert(s@.take(i as int) =~= s@);
    out
}

/// The shortest polymer that removing all units of one type (`a` to `z`)
/// and reacting the rest gives; the length of the whole text where none is
/// shorter.
pub fn part2(polymer: &str) -> (r: usize)
    ensures
        r == shortest_without(trim_end(polymer@), 26, polymer@.len()),
{
    let mut cs = chars_of(polymer);
    let n = cs.len();
    while cs.len() > 0 && (cs[cs.len() - 1] == ' ' || cs[cs.len() - 1] == '\t' || cs[cs.len() - 1] == '\n'
        || cs[cs.len() - 1] == '\r')
        invariant
            trim_end(cs@) == trim_end(polymer@),
        decreases cs@.len(),
    {
        cs.pop();
    }
    let mut best = n;
    let mut k: u32 = 0;
    while k < 26
        invariant
            cs@ == trim_end(polymer@),
            n == polymer@.len(),
            k <= 26,
            best == shortest_without(cs@, k as nat, n as nat),
        decreases 26 - k,
    {
        let c = (('a' as u32) + k) as u8 as char;
        let l = reduce_units(&remove_unit(&cs, c)).len();
        if l < best {
            best = l;
        }
        k = k + 1;
    }
    best
}

} // verus!
