//! Reading text: lines, words and decimal numbers.

use vstd::prelude::*;

verus! {

/// The pieces of `s` between occurrences of `sep`, in order. There is always
/// at least one piece, and a piece may be empty.
pub open spec fn split_on(s: Seq<char>, sep: char) -> Seq<Seq<char>>
    decreases s.len(),
{
    if s.len() == 0 {
        seq![Seq::empty()]
    } else {
        let init = split_on(s.drop_last(), sep);
        if s.last() == sep {
            init.push(Seq::empty())
        } else {
            init.update(init.len() - 1, init.last().push(s.last()))
        }
    }
}

/// `l` without one trailing carriage return.
pub open spec fn strip_cr(l: Seq<char>) -> Seq<char> {
    if l.len() > 0 && l.last() == '\r' {
        l.drop_last()
    } else {
        l
    }
}

/// The lines of `s`: the pieces between newlines, a carriage return that
/// stands before a newline dropped, and no final empty line after a last
/// newline (so the empty text has no lines).
pub open spec fn lines(s: Seq<char>) -> Seq<Seq<char>> {
    let p = split_on(s, '\n');
    let n = if p.last().len() == 0 { p.len() - 1 } else { p.len() as int };
    Seq::new(n as nat, |i: int| if i < p.len() - 1 { strip_cr(p[i]) } else { p[i] })
}

/// Blank characters separate words.
pub open spec fn is_blank(c: char) -> bool {
    c == ' ' || c == '\t'
}

/// The words of `s`: its maximal runs of characters that are not blank, in order.
pub open spec fn words(s: Seq<char>) -> Seq<Seq<char>>
    decreases s.len(),
{
    if s.len() == 0 {
        Seq::empty()
    } else {
        let init = words(s.drop_last());
        let c = s.last();
        if is_blank(c) {
            init
        } else if s.len() >= 2 && !is_blank(s[s.len() - 2]) {
            init.update(init.len() - 1, init.last().push(c))
        } else {
            init.push(seq![c])
        }
    }
}

/// Whether `c` is a decimal digit.
pub open spec fn is_digit(c: char) -> bool {
    '0' <= c <= '9'
}

/// The value of the decimal digit `c`.
pub open spec fn digit_value(c: char) -> nat {
    (c as int - '0' as int) as nat
}

/// Every character of `s` is a decimal digit.
pub open spec fn all_digits(s: Seq<char>) -> bool {
    forall|i: int| 0 <= i < s.len() ==> is_digit(#[trigger] s[i])
}

/// `s` without a leading sign character (`+` or `-`).
pub open spec fn unsigned_part(s: Seq<char>) -> Seq<char> {
    if s.len() > 0 && (s[0] == '-' || s[0] == '+') {
        s.drop_first()
    } else {
        s
    }
}

/// The value of the digits `s` read as a decimal number (0 for no digits).
pub open spec fn decimal_value(s: Seq<char>) -> nat
    decreases s.len(),
{
    if s.len() == 0 {
        0
    } else {
        decimal_value(s.drop_last()) * 10 + digit_value(s.last())
    }
}

/// `s` read as a non-negative decimal number that fits a `usize`: one or
/// more digits and nothing else.
pub open spec fn number_of(s: Seq<char>) -> Option<usize> {
    if s.len() > 0 && all_digits(s) && decimal_value(s) <= usize::MAX {
        Some(decimal_value(s) as usize)
    } else {
        None
    }
}

proof fn lemma_decimal_value_grows(s: Seq<char>, j: int)
    requires
        0 <= j <= s.len(),
    ensures
        decimal_value(s.take(j)) <= decimal_value(s),
    decreases s.len(),
{
    if j < s.len() {
        assert(s.drop_last().take(j) =~= s.take(j));
        lemma_decimal_value_grows(s.drop_last(), j);
    } else {
        assert(s.take(j) =~= s);
    }
}

/// `s` read as a decimal integer with an optional sign (`+` or `-`) that
/// fits an `i32`.
pub open spec fn i32_of(s: Seq<char>) -> Option<i32> {
    let digits = unsigned_part(s);
    let v: int = if s.len() > 0 && s[0] == '-' {
        -decimal_value(digits)
    } else {
        decimal_value(digits) as int
    };
    if digits.len() > 0 && all_digits(digits) && i32::MIN <= v <= i32::MAX {
        Some(v as i32)
    } else {
        None
    }
}

/// The sub-sequences of `s` that the half-open ranges `rs` select.
pub open spec fn pieces(s: Seq<char>, rs: Seq<(usize, usize)>) -> Seq<Seq<char>> {
    rs.map_values(|r: (usize, usize)| s.subrange(r.0 as int, r.1 as int))
}

/// Every range of `rs` lies within a sequence of length `n`.
pub open spec fn ranges_within(rs: Seq<(usize, usize)>, n: nat) -> bool {
    forall|i: int| 0 <= i < rs.len() ==> #[trigger] rs[i].0 <= rs[i].1 <= n
}

proof fn lemma_split_on_nonempty(s: Seq<char>, sep: char)
    ensures
        split_on(s, sep).len() >= 1,
    decreases s.len(),
{
    if s.len() > 0 {
        lemma_split_on_nonempty(s.drop_last(), sep);
    }
}

/// The characters of `s`, in order.
pub fn chars_of(s: &str) -> (r: Vec<char>)
    ensures
        r@ == s@,
{
    let n = s.unicode_len();
    let mut out: Vec<char> = Vec::new();
    let mut i: usize = 0;
    while i < n
        invariant
            n == s@.len(),
            i <= n,
            out@ == s@.take(i as int),
        decreases n - i,
    {
        out.push(s.get_char(i));
        i = i + 1;
        assert(out@ =~= s@.take(i as int));
    }
    assert(out@ =~= s@);
    out
}

/// The ranges of the pieces of `s` between occurrences of `sep`.
pub fn split_ranges(s: &Vec<char>, sep: char) -> (r: Vec<(usize, usize)>)
    ensures
        ranges_within(r@, s@.len()),
        pieces(s@, r@) == split_on(s@, sep),
{
    let n = s.len();
    let mut done: Vec<(usize, usize)> = Vec::new();
    let mut start: usize = 0;
    let mut i: usize = 0;
    assert(s@.take(0) =~= Seq::<char>::empty());
    assert(pieces(s@, done@).push(s@.subrange(0, 0)) =~= seq![Seq::<char>::empty()]);
    while i < n
        invariant
            n == s@.len(),
            start <= i <= n,
            ranges_within(done@, i as nat),
            split_on(s@.take(i as int), sep) == pieces(s@, done@).push(s@.subrange(start as int, i as int)),
        decreases n - i,
    {
        let ghost prev = s@.take(i as int);
        assert(s@.take(i + 1).drop_last() =~= prev);
        let ghost old_done = done@;
        if s[i] == sep {
            done.push((start, i));
            start = i + 1;
            assert(pieces(s@, done@) =~= pieces(s@, old_done).push(s@.subrange(done@.last().0 as int, i as int)));
            assert(s@.subrange(start as int, i + 1) =~= Seq::<char>::empty());
        } else {
            assert(s@.subrange(start as int, i as int).push(s[i as int]) =~= s@.subrange(start as int, i + 1));
            assert(split_on(s@.take(i + 1), sep) =~= pieces(s@, done@).push(s@.subrange(start as int, i + 1)));
        }
        i = i + 1;
    }
    assert(s@.take(n as int) =~= s@);
    let ghost old_done = done@;
    done.push((start, n));
    assert(pieces(s@, done@) =~= pieces(s@, old_done).push(s@.subrange(start as int, n as int)));
    done
}

/// The ranges of the lines of `s`.
pub fn line_ranges(s: &Vec<char>) -> (r: Vec<(usize, usize)>)
    ensures
        ranges_within(r@, s@.len()),
        pieces(s@, r@) == lines(s@),
{
    let p = split_ranges(s, '\n');
    proof {
        lemma_split_on_nonempty(s@, '\n');
    }
    let ghost ps = split_on(s@, '\n');
    let last = p[p.len() - 1];
    let n = if last.0 == last.1 { p.len() - 1 } else { p.len() };
    assert(ps.last() == s@.subrange(last.0 as int, last.1 as int));
    let mut out: Vec<(usize, usize)> = Vec::new();
    let mut i: usize = 0;
    while i < n
        invariant
            p@.len() == ps.len(),
            n <= p@.len(),
            n == lines(s@).len(),
            i <= n,
            ranges_within(p@, s@.len()),
            pieces(s@, p@) == ps,
            ps == split_on(s@, '\n'),
            ranges_within(out@, s@.len()),
            pieces(s@, out@) == lines(s@).take(i as int),
        decreases n - i,
    {
        let (lo, hi) = p[i];
        assert(ps[i as int] == s@.subrange(lo as int, hi as int));
        let ghost old_out = out@;
        if i + 1 < p.len() && lo < hi && s[hi - 1] == '\r' {
            out.push((lo, hi - 1));
            assert(s@.subrange(lo as int, hi as int).drop_last() =~= s@.subrange(lo as int, hi - 1));
        } else {
            out.push((lo, hi));
        }
        assert(pieces(s@, out@) =~= pieces(s@, old_out).push(s@.subrange(out@.last().0 as int, out@.last().1 as int)));
        i = i + 1;
        assert(pieces(s@, out@) =~= lines(s@).take(i as int));
    }
    assert(lines(s@).take(n as int) =~= lines(s@));
    out
}

/// The ranges of the words of `s`.
pub fn word_ranges(s: &Vec<char>) -> (r: Vec<(usize, usize)>)
    ensures
        ranges_within(r@, s@.len()),
        pieces(s@, r@) == words(s@),
{
    let n = s.len();
    let mut out: Vec<(usize, usize)> = Vec::new();
    let mut i: usize = 0;
    assert(s@.take(0) =~= Seq::<char>::empty());
    while i < n
        invariant
            n == s@.len(),
            i <= n,
            ranges_within(out@, i as nat),
            pieces(s@, out@) == words(s@.take(i as int)),
            i > 0 && !is_blank(s@[i - 1]) ==> out@.len() > 0 && out@.last().1 == i,
        decreases n - i,
    {
        let ghost prev = s@.take(i as int);
        assert(s@.take(i + 1).drop_last() =~= prev);
        let ghost old_out = out@;
        let c = s[i];
        if c == ' ' || c == '\t' {
        } else if i > 0 && !(s[i - 1] == ' ' || s[i - 1] == '\t') {
            let k = out.len() - 1;
            let (lo, hi) = out[k];
            out.set(k, (lo, i + 1));
            assert(s@.subrange(lo as int, i as int).push(c) =~= s@.subrange(lo as int, i + 1));
            assert(pieces(s@, out@) =~= pieces(s@, old_out).update(k as int, s@.subrange(lo as int, i + 1)));
        } else {
            out.push((i, i + 1));
            assert(s@.subrange(i as int, i + 1) =~= seq![c]);
            assert(pieces(s@, out@) =~= pieces(s@, old_out).push(seq![c]));
        }
        i = i + 1;
    }
    assert(s@.take(n as int) =~= s@);
    out
}

/// A copy of the characters of `s` in the range `lo..hi`.
pub fn copy_range(s: &Vec<char>, lo: usize, hi: usize) -> (r: Vec<char>)
    requires
        lo <= hi <= s@.len(),
    ensures
        r@ == s@.subrange(lo as int, hi as int),
{
    let mut out: Vec<char> = Vec::new();
    let mut i: usize = lo;
    while i < hi
        invariant
            lo <= i <= hi <= s@.len(),
            out@ == s@.subrange(lo as int, i as int),
        decreases hi - i,
    {
        out.push(s[i]);
        i = i + 1;
        assert(out@ =~= s@.subrange(lo as int, i as int));
    }
    out
}

/// The lines of `input`, each as a string of its own.
pub fn to_strings(input: String) -> (r: Vec<String>)
    ensures
        r@.len() == lines(input@).len(),
        forall|i: int| 0 <= i < r@.len() ==> #[trigger] r@[i]@ == lines(input@)[i],
{
    let text = input.as_str();
    let cs = chars_of(text);
    let rs = line_ranges(&cs);
    let mut out: Vec<String> = Vec::new();
    let mut i: usize = 0;
    while i < rs.len()
        invariant
            cs@ == input@,
            text@ == input@,
            ranges_within(rs@, cs@.len()),
            pieces(cs@, rs@) == lines(input@),
            i <= rs@.len(),
            out@.len() == i,
            forall|j: int| 0 <= j < i ==> #[trigger] out@[j]@ == lines(input@)[j],
        decreases rs@.len() - i,
    {
        let (lo, hi) = rs[i];
        assert(lines(input@)[i as int] == cs@.subrange(lo as int, hi as int));
        let line = text.substring_char(lo, hi).to_owned();
        out.push(line);
        assert(out@[i as int]@ == lines(input@)[i as int]);
        i = i + 1;
    }
    out
}

/// Reads the characters of `s` in the range `lo..hi` as a non-negative
/// decimal number; `None` where they are not one or do not fit a `usize`.
pub fn parse_number(s: &Vec<char>, lo: usize, hi: usize) -> (r: Option<usize>)
    requires
        lo <= hi <= s@.len(),
    ensures
        r == number_of(s@.subrange(lo as int, hi as int)),
{
    let ghost t = s@.subrange(lo as int, hi as int);
    if lo == hi {
        return None;
    }
    let mut v: usize = 0;
    let mut i: usize = lo;
    while i < hi
        invariant
            lo <= i <= hi <= s@.len(),
            t == s@.subrange(lo as int, hi as int),
            forall|k: int| 0 <= k < i - lo ==> is_digit(#[trigger] t[k]),
            v == decimal_value(t.take(i - lo)),
        decreases hi - i,
    {
        let c = s[i];
        if !('0' <= c && c <= '9') {
            assert(!is_digit(t[i - lo]));
            return None;
        }
        let d = (c as u32 - '0' as u32) as usize;
        assert(t.take(i - lo + 1).drop_last() =~= t.take(i - lo));
        proof {
            lemma_decimal_value_grows(t, i - lo + 1);
        }
        match v.checked_mul(10) {
            None => {
                return None;
            },
            Some(m) => match m.checked_add(d) {
                None => {
                    return None;
                },
                Some(w) => {
                    v = w;
                },
            },
        }
        i = i + 1;
    }
    assert(t.take(hi - lo) =~= t);
    Some(v)
}

/// Reads the characters of `s` in the range `lo..hi` as a decimal integer
/// with an optional sign; `None` where they are not one or it does not fit
/// an `i32`.
pub fn parse_i32(s: &Vec<char>, lo: usize, hi: usize) -> (r: Option<i32>)
    requires
        lo <= hi <= s@.len(),
    ensures
        r == i32_of(s@.subrange(lo as int, hi as int)),
{
    let ghost t = s@.subrange(lo as int, hi as int);
    let mut start = lo;
    let mut neg = false;
    if lo < hi && (s[lo] == '-' || s[lo] == '+') {
        neg = s[lo] == '-';
        start = lo + 1;
        assert(t.drop_first() =~= s@.subrange(start as int, hi as int));
    } else {
        assert(t =~= s@.subrange(start as int, hi as int));
    }
    let ghost digits = s@.subrange(start as int, hi as int);
    assert(neg <==> (t.len() > 0 && t[0] == '-'));
    assert(digits == unsigned_part(t));
    match parse_number(s, start, hi) {
        None => {
            assert(usize::MAX >= u32::MAX);
            proof {
                if digits.len() > 0 && all_digits(digits) {
                    assert(decimal_value(digits) > usize::MAX);
                    assert(-decimal_value(digits) < i32::MIN);
                }
            }
            None
        },
        Some(m) => {
            if neg {
                if m <= 2147483648 {
                    Some((0 - m as i64) as i32)
                } else {
                    None
                }
            } else {
                if m <= 2147483647 {
                    Some(m as i32)
                } else {
                    None
                }
            }
        },
    }
}

/// Reads the first line of `input` as a non-negative decimal number.
pub fn first_line_number(input: String) -> (r: Option<usize>)
    ensures
        r == (if lines(input@).len() > 0 {
            number_of(lines(input@)[0])
        } else {
            None
        }),
{
    let cs = chars_of(input.as_str());
    let ls = line_ranges(&cs);
    if ls.len() == 0 {
        return None;
    }
    assert(lines(input@)[0] == cs@.subrange(ls@[0].0 as int, ls@[0].1 as int));
    parse_number(&cs, ls[0].0, ls[0].1)
}

} // verus!
