//! The license file: a tree of nodes written as a list of numbers.

use vstd::prelude::*;

use crate::parse::{chars_of, line_ranges, lines, number_of, parse_number, pieces, ranges_within, word_ranges, words};

verus! {

broadcast use vstd::std_specs::vec::group_vec_axioms;

/// A node: its children and its metadata entries.
pub struct Node {
    pub children: Vec<Node>,
    pub data: Vec<usize>,
}

/// The sum of the numbers `s`.
pub open spec fn total(s: Seq<usize>) -> nat
    decreases s.len(),
{
    if s.len() == 0 {
        0
    } else {
        total(s.drop_last()) + s.last() as nat
    }
}

/// How a node is written: the number of its children, the number of its
/// metadata entries, its children one after the other, then its metadata.
pub open spec fn encoding(n: Node) -> Seq<usize>
    decreases n, 0nat,
{
    seq![n.children@.len() as usize, n.data@.len() as usize] + encodings(n.children@, n.children@.len()) + n.data@
}

/// The first `k` nodes of `cs`, written one after the other.
pub open spec fn encodings(cs: Seq<Node>, k: nat) -> Seq<usize>
    decreases cs, k,
{
    if k == 0 || k > cs.len() {
        Seq::empty()
    } else {
        encodings(cs, (k - 1) as nat) + encoding(cs[k - 1])
    }
}

impl Node {
    /// The metadata of the node and of all nodes below it, summed, leaving
    /// out the children before the `k`-th.
    pub open spec fn sum_from(&self, k: int) -> nat
        decreases self, self.children@.len() - k,
    {
        if k < 0 || k >= self.children@.len() {
            total(self.data@)
        } else {
            self.children[k].sum_from(0) + self.sum_from(k + 1)
        }
    }

    /// The value of the node, from its `k`-th metadata entry on: without
    /// children, the sum of its metadata; with children, the sum of the
    /// values of the children that the entries name (1 for the first), an
    /// entry that names no child counting 0.
    pub open spec fn value_from(&self, k: int) -> nat
        decreases self, self.data@.len() - k,
    {
        if self.children@.len() == 0 {
            total(self.data@)
        } else if k < 0 || k >= self.data@.len() {
            0
        } else {
            let d = self.data[k];
            (if 1 <= d <= self.children@.len() {
                self.children[d - 1].value_from(0)
            } else {
                0
            }) + self.value_from(k + 1)
        }
    }

    /// The sum of all metadata entries of the node and the nodes below it;
    /// `None` where it does not fit a `usize`.
    pub fn sum(&self) -> (r: Option<usize>)
        ensures
            r == (if self.sum_from(0) <= usize::MAX {
                Some(self.sum_from(0) as usize)
            } else {
                None
            }),
        decreases self,
    {
        let mut acc: usize = 0;
        let mut k: usize = 0;
        while k < self.children.len()
            invariant
                k <= self.children@.len(),
                acc + self.sum_from(k as int) == self.sum_from(0),
            decreases self.children@.len() - k,
        {
            assert(self.sum_from(k as int) == self.children[k as int].sum_from(0) + self.sum_from(k + 1));
            match self.children[k].sum() {
                None => {
                    return None;
                },
                Some(s) => match acc.checked_add(s) {
                    None => {
                        return None;
                    },
                    Some(v) => {
                        acc = v;
                    },
                },
            }
            k = k + 1;
        }
        let mut i: usize = 0;
        while i < self.data.len()
            invariant
                i <= self.data@.len(),
                k == self.children@.len(),
                acc == self.sum_from(0) - total(self.data@) + total(self.data@.take(i as int)),
                self.sum_from(0) >= total(self.data@),
            decreases self.data@.len() - i,
        {
            assert(self.data@.take(i + 1).drop_last() =~= self.data@.take(i as int));
            proof {
                lemma_total_prefix(self.data@, i + 1);
            }
            match acc.checked_add(self.data[i]) {
                None => {
                    return None;
                },
                Some(v) => {
                    acc = v;
                },
            }
            i = i + 1;
        }
        assert(self.data@.take(i as int) =~= self.data@);
        Some(acc)
    }

    /// The value of the node; `None` where it does not fit a `usize`.
    pub fn value(&self) -> (r: Option<usize>)
        ensures
            r == (if self.value_from(0) <= usize::MAX {
                Some(self.value_from(0) as usize)
            } else {
                None
            }),
        decreases self,
    {
        let n = self.children.len();
        let mut acc: usize = 0;
        if n == 0 {
            let mut i: usize = 0;
            while i < self.data.len()
                invariant
                    i <= self.data@.len(),
                    self.children@.len() == 0,
                    acc == total(self.data@.take(i as int)),
                decreases self.data@.len() - i,
            {
                assert(self.data@.take(i + 1).drop_last() =~= self.data@.take(i as int));
                proof {
                    lemma_total_prefix(self.data@, i + 1);
                }
                match acc.checked_add(self.data[i]) {
                    None => {
                        return None;
                    },
                    Some(v) => {
                        acc = v;
                    },
                }
                i = i + 1;
            }
            assert(self.data@.take(i as int) =~= self.data@);
            return Some(acc);
        }
        let mut k: usize = 0;
        while k < self.data.len()
            invariant
                n == self.children@.len(),
                n > 0,
                k <= self.data@.len(),
                acc + self.value_from(k as int) == self.value_from(0),
            decreases self.data@.len() - k,
        {
            let d = self.data[k];
            if 1 <= d && d <= n {
                match self.children[d - 1].value() {
                    None => {
                        return None;
                    },
                    Some(v) => match acc.checked_add(v) {
                        None => {
                            return None;
                        },
                        Some(w) => {
                            acc = w;
                        },
                    },
                }
            }
            k = k + 1;
        }
        Some(acc)
    }
}

proof fn lemma_total_prefix(s: Seq<usize>, j: int)
    requires
        0 <= j <= s.len(),
    ensures
        total(s.take(j)) <= total(s),
    decreases s.len(),
{
    if j < s.len() {
        assert(s.drop_last().take(j) =~= s.take(j));
        lemma_total_prefix(s.drop_last(), j);
    } else {
        assert(s.take(j) =~= s);
    }
}

/// The encoding of the first `k` nodes does not change when a node is added after them.
proof fn lemma_encodings_push(cs: Seq<Node>, x: Node, k: nat)
    requires
        k <= cs.len(),
    ensures
        encodings(cs.push(x), k) == encodings(cs, k),
    decreases k,
{
    if k > 0 {
        lemma_encodings_push(cs, x, (k - 1) as nat);
        assert(cs.push(x)[k - 1] == cs[k - 1]);
    }
}

/// The numbers `s` hold the node `n`, written from position `pos` on.
pub open spec fn encodes_at(s: Seq<usize>, pos: int, n: Node) -> bool {
    &&& 0 <= pos
    &&& pos + encoding(n).len() <= s.len()
    &&& s.subrange(pos, pos + encoding(n).len()) == encoding(n)
}

/// Where `n` is written at `pos`, its `k`-th child is written right after the
/// children before it.
proof fn lemma_child_at(s: Seq<usize>, pos: int, n: Node, k: int)
    requires
        encodes_at(s, pos, n),
        0 <= k < n.children@.len(),
    ensures
        encodes_at(s, pos + 2 + encodings(n.children@, k as nat).len(), n.children@[k]),
        encodings(n.children@, (k + 1) as nat) == encodings(n.children@, k as nat) + encoding(n.children@[k]),
        pos + 2 + encodings(n.children@, (k + 1) as nat).len() <= pos + 2 + encodings(
            n.children@,
            n.children@.len(),
        ).len(),
{
    lemma_encodings_prefix(n.children@, (k + 1) as nat, n.children@.len());
    let e = encoding(n);
    let all = encodings(n.children@, n.children@.len());
    let before = encodings(n.children@, k as nat);
    let child = encoding(n.children@[k]);
    assert(e == seq![n.children@.len() as usize, n.data@.len() as usize] + all + n.data@);
    let bl: int = before.len() as int;
    let cl: int = child.len() as int;
    let start = pos + 2 + bl;
    assert(s.subrange(start, start + cl) =~= e.subrange(2 + bl, 2 + bl + cl));
    let p = encodings(n.children@, (k + 1) as nat);
    assert(p == before + child);
    assert(all.subrange(0, p.len() as int) == p);
    assert(all.subrange(bl, bl + cl) =~= all.subrange(0, p.len() as int).subrange(bl, bl + cl));
    assert(p.subrange(bl, bl + cl) =~= child);
    assert(e.subrange(2 + bl, 2 + bl + cl) =~= all.subrange(bl, bl + cl));
}

/// Every node takes at least two numbers.
proof fn lemma_encodings_len(cs: Seq<Node>, k: nat)
    requires
        k <= cs.len(),
    ensures
        encodings(cs, k).len() >= 2 * k,
    decreases k,
{
    if k > 0 {
        lemma_encodings_len(cs, (k - 1) as nat);
        let n = cs[k - 1];
        assert(encoding(n).len() == 2 + encodings(n.children@, n.children@.len()).len() + n.data@.len());
    }
}

/// The encoding of the first `k` children is a prefix of that of the first `m`.
proof fn lemma_encodings_prefix(cs: Seq<Node>, k: nat, m: nat)
    requires
        k <= m <= cs.len(),
    ensures
        encodings(cs, k).len() <= encodings(cs, m).len(),
        encodings(cs, m).subrange(0, encodings(cs, k).len() as int) == encodings(cs, k),
    decreases m - k,
{
    if k < m {
        lemma_encodings_prefix(cs, k, (m - 1) as nat);
        let a = encodings(cs, (m - 1) as nat);
        assert(encodings(cs, m) == a + encoding(cs[m - 1]));
        assert((a + encoding(cs[m - 1])).subrange(0, encodings(cs, k).len() as int) =~= a.subrange(
            0,
            encodings(cs, k).len() as int,
        ));
    } else {
        assert(encodings(cs, m).subrange(0, encodings(cs, k).len() as int) =~= encodings(cs, k));
    }
}

/// Reads the node written at position `pos` of `numbers`: returns where it
/// ends, and the node. It succeeds wherever a node is written there.
pub fn tree_from_numbers(numbers: &Vec<usize>, pos: usize) -> (r: Option<(usize, Node)>)
    requires
        pos <= numbers@.len(),
    ensures
        r matches Some((end, n)) ==> pos + 2 <= end <= numbers@.len() && numbers@.subrange(pos as int, end as int)
            == encoding(n),
        forall|n: Node| #[trigger] encodes_at(numbers@, pos as int, n) ==> (r is Some && r->Some_0.0 == pos
            + encoding(n).len()),
    decreases numbers@.len() - pos,
{
    let len = numbers.len();
    if len - pos < 2 {
        return None;
    }
    let n_children = numbers[pos];
    let n_data = numbers[pos + 1];
    let mut children: Vec<Node> = Vec::new();
    let mut c: usize = pos + 2;
    assert(numbers@.subrange(pos + 2, c as int) =~= encodings(children@, 0));
    assert forall|n: Node| #[trigger] encodes_at(numbers@, pos as int, n) implies n.children@.len() == n_children
        && n.data@.len() == n_data by {
        lemma_encodings_len(n.children@, n.children@.len());
        assert(encoding(n).len() == 2 + encodings(n.children@, n.children@.len()).len() + n.data@.len());
        assert(numbers@.subrange(pos as int, pos + encoding(n).len())[0] == encoding(n)[0]);
        assert(numbers@.subrange(pos as int, pos + encoding(n).len())[1] == encoding(n)[1]);
    }
    while children.len() < n_children
        invariant
            len == numbers@.len(),
            n_children == numbers@[pos as int],
            n_data == numbers@[pos + 1],
            pos + 2 <= c <= len,
            children@.len() <= n_children,
            numbers@.subrange(pos + 2, c as int) == encodings(children@, children@.len()),
            forall|n: Node| #[trigger] encodes_at(numbers@, pos as int, n) ==> n.children@.len() == n_children
                && n.data@.len() == n_data && c == pos + 2 + encodings(n.children@, children@.len()).len(),
        decreases n_children - children@.len(),
    {
        let ghost k = children@.len();
        proof {
            assert forall|n: Node| #[trigger] encodes_at(numbers@, pos as int, n) implies encodes_at(
                numbers@,
                c as int,
                n.children@[k as int],
            ) && c + encoding(n.children@[k as int]).len() <= len by {
                lemma_child_at(numbers@, pos as int, n, k as int);
            }
        }
        if c >= len {
            proof {
                assert forall|n: Node| !#[trigger] encodes_at(numbers@, pos as int, n) by {
                    if encodes_at(numbers@, pos as int, n) {
                        lemma_child_at(numbers@, pos as int, n, k as int);
                        assert(encoding(n.children@[k as int]).len() >= 2);
                    }
                }
            }
            return None;
        }
        match tree_from_numbers(numbers, c) {
            None => {
                proof {
                    assert forall|n: Node| !#[trigger] encodes_at(numbers@, pos as int, n) by {
                        if encodes_at(numbers@, pos as int, n) {
                            assert(encodes_at(numbers@, c as int, n.children@[k as int]));
                        }
                    }
                }
                return None;
            },
            Some((end, child)) => {
                let ghost before = children@;
                proof {
                    assert forall|n: Node| #[trigger] encodes_at(numbers@, pos as int, n) implies end == pos + 2
                        + encodings(n.children@, (k + 1) as nat).len() by {
                        lemma_child_at(numbers@, pos as int, n, k as int);
                        assert(encodes_at(numbers@, c as int, n.children@[k as int]));
                    }
                }
                children.push(child);
                proof {
                    lemma_encodings_push(before, child, before.len());
                    assert(children@[before.len() as int] == child);
                }
                assert(numbers@.subrange(pos + 2, end as int) =~= numbers@.subrange(pos + 2, c as int)
                    + numbers@.subrange(c as int, end as int));
                c = end;
            },
        }
    }
    if n_data > len - c {
        proof {
            assert forall|n: Node| !#[trigger] encodes_at(numbers@, pos as int, n) by {
                if encodes_at(numbers@, pos as int, n) {
                    assert(encoding(n).len() == 2 + encodings(n.children@, n.children@.len()).len() + n.data@.len());
                }
            }
        }
        return None;
    }
    let mut data: Vec<usize> = Vec::new();
    let mut i: usize = 0;
    while i < n_data
        invariant
            len == numbers@.len(),
            c + n_data <= len,
            i <= n_data,
            data@ == numbers@.subrange(c as int, c + i),
        decreases n_data - i,
    {
        data.push(numbers[c + i]);
        i = i + 1;
        assert(data@ =~= numbers@.subrange(c as int, c + i));
    }
    let end = c + n_data;
    let node = Node { children, data };
    assert(numbers@.subrange(pos as int, end as int) =~= seq![n_children, n_data] + numbers@.subrange(
        pos + 2,
        c as int,
    ) + numbers@.subrange(c as int, end as int));
    assert forall|n: Node| #[trigger] encodes_at(numbers@, pos as int, n) implies end == pos + encoding(n).len() by {
        assert(encoding(n).len() == 2 + encodings(n.children@, n.children@.len()).len() + n.data@.len());
    }
    Some((end, node))
}

/// The numbers of the first line: its words, each a number; `None` where one is not.
pub open spec fn numbers_of(l: Seq<char>) -> Option<Seq<usize>> {
    let w = words(l);
    if forall|i: int| 0 <= i < w.len() ==> (#[trigger] number_of(w[i])) is Some {
        Some(Seq::new(w.len(), |i: int| number_of(w[i])->Some_0))
    } else {
        None
    }
}

/// Reads the tree from the numbers of the first line, which must hold
/// exactly one node.
pub fn parse_input(input: String) -> (r: Option<Node>)
    ensures
        r matches Some(n) ==> lines(input@).len() > 0 && numbers_of(lines(input@)[0]) == Some(encoding(n)),
        r is None ==> !(lines(input@).len() > 0 && exists|n: Node| numbers_of(lines(input@)[0]) == Some(#[trigger] encoding(n))),
{
    let cs = chars_of(input.as_str());
    let ls = line_ranges(&cs);
    if ls.len() == 0 {
        return None;
    }
    assert(lines(input@)[0] == cs@.subrange(ls@[0].0 as int, ls@[0].1 as int));
    let l = crate::parse::copy_range(&cs, ls[0].0, ls[0].1);
    let ws = word_ranges(&l);
    let ghost w = words(l@);
    let mut numbers: Vec<usize> = Vec::new();
    let mut k: usize = 0;
    while k < ws.len()
        invariant
            w == words(l@),
            l@ == lines(input@)[0],
            lines(input@).len() > 0,
            ranges_within(ws@, l@.len()),
            pieces(l@, ws@) == w,
            k <= ws@.len(),
            numbers@.len() == k,
            forall|i: int| 0 <= i < k ==> #[trigger] number_of(w[i]) == Some(numbers@[i]),
        decreases ws@.len() - k,
    {
        assert(w[k as int] == l@.subrange(ws@[k as int].0 as int, ws@[k as int].1 as int));
        match parse_number(&l, ws[k].0, ws[k].1) {
            None => {
                assert(number_of(w[k as int]) is None);
                assert(numbers_of(l@) is None);
                return None;
            },
            Some(v) => {
                numbers.push(v);
            },
        }
        k = k + 1;
    }
    assert(numbers_of(l@) == Some(numbers@)) by {
        assert(Seq::new(w.len(), |i: int| number_of(w[i])->Some_0) =~= numbers@);
    }
    assert forall|n: Node| numbers_of(l@) == Some(#[trigger] encoding(n)) implies encodes_at(numbers@, 0, n) by {
        assert(numbers@.subrange(0, encoding(n).len() as int) =~= numbers@);
    }
    match tree_from_numbers(&numbers, 0) {
        None => None,
        Some((end, root)) => {
            if end != numbers.len() {
                return None;
            }
            assert(numbers@.subrange(0, end as int) =~= numbers@);
            Some(root)
        },
    }
}

/// The sum of all metadata entries; `None` where it does not fit a `usize`.
pub fn part1(root: &Node) -> (r: Option<usize>)
    ensures
        r == (if root.sum_from(0) <= usize::MAX {
            Some(root.sum_from(0) as usize)
        } else {
            None
        }),
{
    root.sum()
}

/// The value of the root node; `None` where it does not fit a `usize`.
pub fn part2(root: &Node) -> (r: Option<usize>)
    ensures
        r == (if root.value_from(0) <= usize::MAX {
            Some(root.value_from(0) as usize)
        } else {
            None
        }),
{
    root.value()
}

} // verus!
