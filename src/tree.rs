//! Frequency analysis and construction of the Huffman tree.
use crate::table::{height, leaves, wf};
use vstd::prelude::*;

verus! {

/// A node of a Huffman tree: an internal node with exactly two children, or a leaf
/// that holds one byte.
#[derive(Debug, PartialEq, Eq, PartialOrd, Ord)]
pub enum Node {
    Root { left: Box<Node>, right: Box<Node> },
    Leaf(u8),
}

/// Errors of the codec.
#[derive(Debug, PartialEq, Eq, Clone, Copy)]
pub enum HuffmanError {
    /// There is no byte to build a tree from.
    EmptyInput,
    /// The tree-shape bits and the leaf list do not describe one tree.
    CorruptTree,
    /// The payload ends inside a codeword.
    TruncatedStream,
    /// A byte to encode has no codeword in the table.
    UnknownSymbol,
}

/// How many times `b` occurs in `s`.
pub open spec fn count(s: Seq<u8>, b: u8) -> nat
    decreases s.len(),
{
    if s.len() == 0 {
        0
    } else {
        count(s.drop_last(), b) + if s.last() == b { 1nat } else { 0nat }
    }
}

/// One weighted leaf for each byte below `k` that occurs in `s`, by ascending byte.
pub open spec fn forest_upto(s: Seq<u8>, k: nat) -> Seq<(usize, Node)>
    decreases k,
{
    if k == 0 {
        Seq::empty()
    } else {
        let prev = forest_upto(s, (k - 1) as nat);
        let b = (k - 1) as u8;
        if count(s, b) > 0 {
            prev.push((count(s, b) as usize, Node::Leaf(b)))
        } else {
            prev
        }
    }
}

/// The frequency table of `s`: for each distinct byte, by ascending value, its count
/// and its leaf.
pub open spec fn freq_forest(s: Seq<u8>) -> Seq<(usize, Node)> {
    forest_upto(s, 256)
}

pub proof fn lemma_count_le_len(s: Seq<u8>, b: u8)
    ensures
        count(s, b) <= s.len(),
    decreases s.len(),
{
    if s.len() > 0 {
        lemma_count_le_len(s.drop_last(), b);
    }
}

/// Counts the occurrences of each byte of `text`.
pub fn frequency(text: &[u8]) -> (r: Vec<(usize, Node)>)
    ensures
        r@ == freq_forest(text@),
{
    let mut counts: Vec<usize> = Vec::new();
    let mut k: usize = 0;
    while k < 256
        invariant
            k <= 256,
            counts@.len() == k,
            forall|b: int| 0 <= b < k ==> counts@[b] == 0,
        decreases 256 - k,
    {
        counts.push(0);
        k += 1;
    }
    let mut i: usize = 0;
    while i < text.len()
        invariant
            i <= text@.len(),
            counts@.len() == 256,
            forall|b: int| 0 <= b < 256 ==> counts@[b] == count(text@.take(i as int), b as u8),
        decreases text@.len() - i,
    {
        let c = text[i];
        proof {
            assert(text@.take(i + 1).drop_last() =~= text@.take(i as int));
            lemma_count_le_len(text@.take(i as int), c);
            assert forall|b: int| 0 <= b < 256 implies #[trigger] counts@[b] == count(
                text@.take(i + 1),
                b as u8,
            ) - if b == c as int { 1int } else { 0int } by {}
        }
        let old_count = counts[c as usize];
        counts.set(c as usize, old_count + 1);
        i += 1;
    }
    proof {
        assert(text@.take(text@.len() as int) =~= text@);
    }
    let mut r: Vec<(usize, Node)> = Vec::new();
    let mut b: usize = 0;
    while b < 256
        invariant
            b <= 256,
            counts@.len() == 256,
            forall|x: int| 0 <= x < 256 ==> counts@[x] == count(text@, x as u8),
            r@ == forest_upto(text@, b as nat),
        decreases 256 - b,
    {
        if counts[b] > 0 {
            r.push((counts[b], Node::Leaf(b as u8)));
        }
        b += 1;
    }
    r
}

/// The total order on nodes used to break ties between equal weights: every internal
/// node comes before every leaf, leaves go by byte, internal nodes by left child, then
/// by right child. The result is negative, zero or positive.
pub open spec fn node_cmp(a: Node, b: Node) -> int
    decreases a,
{
    match a {
        Node::Leaf(x) => match b {
            Node::Leaf(y) => if x < y {
                -1
            } else if x == y {
                0
            } else {
                1
            },
            Node::Root { .. } => 1,
        },
        Node::Root { left: al, right: ar } => match b {
            Node::Leaf(_) => -1,
            Node::Root { left: bl, right: br } => {
                let c = node_cmp(*al, *bl);
                if c != 0 {
                    c
                } else {
                    node_cmp(*ar, *br)
                }
            },
        },
    }
}

/// Entry `x` is taken before entry `y`: a lower weight, or an equal weight and a
/// greater node.
pub open spec fn before(x: (usize, Node), y: (usize, Node)) -> bool {
    x.0 < y.0 || (x.0 == y.0 && node_cmp(x.1, y.1) > 0)
}

/// The index of the entry taken first among the first `n` entries of `f`.
pub open spec fn best_index(f: Seq<(usize, Node)>, n: nat) -> int
    decreases n,
{
    if n <= 1 {
        0
    } else {
        let k = best_index(f, (n - 1) as nat);
        if before(f[n - 1], f[k]) {
            n - 1
        } else {
            k
        }
    }
}

/// One merge: take the first entry, then the first of the rest, and put back their
/// union, weighted with the sum of their weights.
pub open spec fn merge_step(f: Seq<(usize, Node)>) -> Seq<(usize, Node)> {
    let i = best_index(f, f.len());
    let a = f[i];
    let g = f.remove(i);
    let j = best_index(g, g.len());
    let b = g[j];
    g.remove(j).push(((a.0 + b.0) as usize, Node::Root { left: Box::new(a.1), right: Box::new(b.1) }))
}

/// The Huffman tree of a non-empty forest: merge until one entry is left.
pub open spec fn build(f: Seq<(usize, Node)>) -> Node
    decreases f.len(),
    via build_decreases
{
    if f.len() <= 1 {
        f[0].1
    } else {
        build(merge_step(f))
    }
}

#[via_fn]
proof fn build_decreases(f: Seq<(usize, Node)>) {
    if f.len() > 1 {
        lemma_merge_step_len(f);
    }
}

/// The Huffman tree of `s`, for a non-empty `s`.
pub open spec fn huffman_of(s: Seq<u8>) -> Node {
    build(freq_forest(s))
}

/// The sum of the weights of a forest.
pub open spec fn wsum(f: Seq<(usize, Node)>) -> int
    decreases f.len(),
{
    if f.len() == 0 {
        0
    } else {
        wsum(f.drop_last()) + f.last().0
    }
}

pub proof fn lemma_best_index_range(f: Seq<(usize, Node)>, n: nat)
    requires
        n >= 1,
    ensures
        0 <= best_index(f, n) < n,
    decreases n,
{
    if n > 1 {
        lemma_best_index_range(f, (n - 1) as nat);
    }
}

pub proof fn lemma_merge_step_len(f: Seq<(usize, Node)>)
    requires
        f.len() >= 2,
    ensures
        merge_step(f).len() == f.len() - 1,
{
    lemma_best_index_range(f, f.len());
    let g = f.remove(best_index(f, f.len()));
    lemma_best_index_range(g, g.len());
}

pub proof fn lemma_wsum_remove(f: Seq<(usize, Node)>, i: int)
    requires
        0 <= i < f.len(),
    ensures
        wsum(f.remove(i)) == wsum(f) - f[i].0,
    decreases f.len(),
{
    if i == f.len() - 1 {
        assert(f.remove(i) =~= f.drop_last());
    } else {
        lemma_wsum_remove(f.drop_last(), i);
        assert(f.remove(i).drop_last() =~= f.drop_last().remove(i));
    }
}

pub proof fn lemma_wsum_push(f: Seq<(usize, Node)>, x: (usize, Node))
    ensures
        wsum(f.push(x)) == wsum(f) + x.0,
{
    assert(f.push(x).drop_last() =~= f);
}

pub proof fn lemma_wsum_nonneg(f: Seq<(usize, Node)>)
    ensures
        wsum(f) >= 0,
    decreases f.len(),
{
    if f.len() > 0 {
        lemma_wsum_nonneg(f.drop_last());
    }
}

pub proof fn lemma_wsum_entry(f: Seq<(usize, Node)>, i: int)
    requires
        0 <= i < f.len(),
    ensures
        f[i].0 <= wsum(f),
    decreases f.len(),
{
    if i < f.len() - 1 {
        lemma_wsum_entry(f.drop_last(), i);
    } else {
        lemma_wsum_nonneg(f.drop_last());
    }
}

/// Compares two nodes in the tie-break order.
pub fn node_compare(a: &Node, b: &Node) -> (r: i8)
    ensures
        r as int == node_cmp(*a, *b),
        -1 <= r <= 1,
    decreases a,
{
    match a {
        Node::Leaf(x) => match b {
            Node::Leaf(y) => if *x < *y {
                -1
            } else if *x == *y {
                0
            } else {
                1
            },
            Node::Root { .. } => 1,
        },
        Node::Root { left: al, right: ar } => match b {
            Node::Leaf(_) => -1,
            Node::Root { left: bl, right: br } => {
                let c = node_compare(al, bl);
                if c != 0 {
                    c
                } else {
                    node_compare(ar, br)
                }
            },
        },
    }
}

/// The index of the entry to take first from a non-empty forest.
fn select_first(f: &Vec<(usize, Node)>) -> (r: usize)
    requires
        f@.len() >= 1,
    ensures
        r as int == best_index(f@, f@.len()),
        r < f@.len(),
{
    let mut k: usize = 0;
    let mut n: usize = 1;
    while n < f.len()
        invariant
            1 <= n <= f@.len(),
            k as int == best_index(f@, n as nat),
            k < n,
        decreases f@.len() - n,
    {
        let better = f[n].0 < f[k].0 || (f[n].0 == f[k].0 && node_compare(&f[n].1, &f[k].1) > 0);
        if better {
            k = n;
        }
        n += 1;
    }
    k
}

/// Merges a non-empty forest into one tree, lowest weights first.
pub fn build_tree(forest: Vec<(usize, Node)>) -> (r: Node)
    requires
        forest@.len() >= 1,
        wsum(forest@) <= usize::MAX,
    ensures
        r == build(forest@),
{
    let mut f = forest;
    while f.len() > 1
        invariant
            f@.len() >= 1,
            wsum(f@) <= usize::MAX,
            build(f@) == build(forest@),
        decreases f@.len(),
    {
        proof {
            lemma_merge_step_len(f@);
        }
        let ghost f0 = f@;
        let i = select_first(&f);
        let (wa, a) = f.remove(i);
        proof {
            lemma_wsum_remove(f0, i as int);
        }
        let ghost g = f@;
        let j = select_first(&f);
        let (wb, b) = f.remove(j);
        proof {
            lemma_wsum_remove(g, j as int);
            lemma_wsum_entry(g, j as int);
            lemma_wsum_push(f@, ((wa + wb) as usize, Node::Root { left: Box::new(a), right: Box::new(b) }));
        }
        f.push((wa + wb, Node::Root { left: Box::new(a), right: Box::new(b) }));
        proof {
            assert(f@ =~= merge_step(f0));
        }
    }
    let (_, root) = f.pop().unwrap();
    root
}

/// The sum of the counts in `s` of the bytes below `k`.
pub open spec fn count_below(s: Seq<u8>, k: nat) -> nat
    decreases k,
{
    if k == 0 {
        0
    } else {
        count_below(s, (k - 1) as nat) + count(s, (k - 1) as u8)
    }
}

proof fn lemma_count_below_step(s: Seq<u8>, k: nat)
    requires
        s.len() > 0,
        k <= 256,
    ensures
        count_below(s, k) == count_below(s.drop_last(), k) + if (s.last() as nat) < k {
            1nat
        } else {
            0nat
        },
    decreases k,
{
    if k > 0 {
        lemma_count_below_step(s, (k - 1) as nat);
    }
}

proof fn lemma_count_below_all(s: Seq<u8>)
    ensures
        count_below(s, 256) == s.len(),
    decreases s.len(),
{
    if s.len() == 0 {
        lemma_count_below_zero(s, 256);
    } else {
        lemma_count_below_step(s, 256);
        lemma_count_below_all(s.drop_last());
    }
}

proof fn lemma_count_below_zero(s: Seq<u8>, k: nat)
    requires
        s.len() == 0,
    ensures
        count_below(s, k) == 0,
    decreases k,
{
    if k > 0 {
        lemma_count_below_zero(s, (k - 1) as nat);
    }
}

proof fn lemma_forest_weights(s: Seq<u8>, k: nat)
    requires
        k <= 256,
        s.len() <= usize::MAX,
    ensures
        wsum(forest_upto(s, k)) == count_below(s, k),
        forest_upto(s, k).len() == 0 ==> count_below(s, k) == 0,
    decreases k,
{
    if k > 0 {
        lemma_forest_weights(s, (k - 1) as nat);
        let b = (k - 1) as u8;
        if count(s, b) > 0 {
            lemma_count_le_len(s, b);
            lemma_wsum_push(forest_upto(s, (k - 1) as nat), (count(s, b) as usize, Node::Leaf(b)));
        }
    }
}

/// The frequency table of a text has weights that sum to its length, and is empty
/// only for an empty text.
pub proof fn lemma_freq_forest(s: Seq<u8>)
    requires
        s.len() <= usize::MAX,
    ensures
        wsum(freq_forest(s)) == s.len(),
        freq_forest(s).len() == 0 <==> s.len() == 0,
{
    lemma_forest_weights(s, 256);
    lemma_count_below_all(s);
    if s.len() == 0 {
        lemma_forest_empty(s, 256);
    }
}

proof fn lemma_forest_empty(s: Seq<u8>, k: nat)
    requires
        s.len() == 0,
    ensures
        forest_upto(s, k).len() == 0,
    decreases k,
{
    if k > 0 {
        lemma_forest_empty(s, (k - 1) as nat);
    }
}

/// Builds the Huffman tree of `text`; fails on an empty text.
pub fn huffman_tree(text: &[u8]) -> (r: Result<Node, HuffmanError>)
    ensures
        text@.len() == 0 <==> r == Err::<Node, HuffmanError>(HuffmanError::EmptyInput),
        text@.len() > 0 ==> r == Ok::<Node, HuffmanError>(huffman_of(text@)),
{
    let forest = frequency(text);
    let n = text.len();
    proof {
        lemma_freq_forest(text@);
    }
    if forest.len() == 0 {
        return Err(HuffmanError::EmptyInput);
    }
    Ok(build_tree(forest))
}

/// The leaf bytes of a forest's trees, in order.
pub open spec fn forest_leaves(f: Seq<(usize, Node)>) -> Seq<u8>
    decreases f.len(),
{
    if f.len() == 0 {
        Seq::empty()
    } else {
        forest_leaves(f.drop_last()) + leaves(f.last().1)
    }
}

proof fn lemma_forest_leaves_push(f: Seq<(usize, Node)>, x: (usize, Node))
    ensures
        forest_leaves(f.push(x)) == forest_leaves(f) + leaves(x.1),
{
    assert(f.push(x).drop_last() =~= f);
}

proof fn lemma_forest_leaves_remove(f: Seq<(usize, Node)>, i: int)
    requires
        0 <= i < f.len(),
    ensures
        forest_leaves(f).to_multiset() == forest_leaves(f.remove(i)).to_multiset().add(
            leaves(f[i].1).to_multiset(),
        ),
    decreases f.len(),
{
    broadcast use vstd::seq_lib::lemma_multiset_commutative;

    if i == f.len() - 1 {
        assert(f.remove(i) =~= f.drop_last());
    } else {
        lemma_forest_leaves_remove(f.drop_last(), i);
        assert(f.remove(i).drop_last() =~= f.drop_last().remove(i));
        assert(f.remove(i).last() == f.last());
        let a = forest_leaves(f.drop_last().remove(i)).to_multiset();
        let b = leaves(f[i].1).to_multiset();
        let c = leaves(f.last().1).to_multiset();
        assert(a.add(b).add(c) =~= a.add(c).add(b));
    }
}

proof fn lemma_merge_step_leaves(f: Seq<(usize, Node)>)
    requires
        f.len() >= 2,
    ensures
        forest_leaves(merge_step(f)).to_multiset() == forest_leaves(f).to_multiset(),
{
    broadcast use vstd::seq_lib::lemma_multiset_commutative;

    lemma_best_index_range(f, f.len());
    let i = best_index(f, f.len());
    let g = f.remove(i);
    lemma_best_index_range(g, g.len());
    let j = best_index(g, g.len());
    let a = f[i];
    let b = g[j];
    let h = g.remove(j);
    let m = Node::Root { left: Box::new(a.1), right: Box::new(b.1) };
    lemma_forest_leaves_remove(f, i);
    lemma_forest_leaves_remove(g, j);
    lemma_forest_leaves_push(h, ((a.0 + b.0) as usize, m));
    assert(leaves(m) == leaves(a.1) + leaves(b.1));
    let ma = leaves(a.1).to_multiset();
    let mb = leaves(b.1).to_multiset();
    let mh = forest_leaves(h).to_multiset();
    assert(mh.add(ma.add(mb)) =~= mh.add(mb).add(ma));
}

/// Building keeps every leaf of the forest, and adds none.
pub proof fn lemma_build_leaves(f: Seq<(usize, Node)>)
    requires
        f.len() >= 1,
    ensures
        leaves(build(f)).to_multiset() == forest_leaves(f).to_multiset(),
    decreases f.len(),
{
    if f.len() == 1 {
        assert(f.drop_last() =~= Seq::<(usize, Node)>::empty());
        assert(forest_leaves(f.drop_last()) == Seq::<u8>::empty());
        assert(Seq::<u8>::empty() + leaves(f[0].1) =~= leaves(f[0].1));
    } else {
        lemma_merge_step_len(f);
        lemma_merge_step_leaves(f);
        lemma_build_leaves(merge_step(f));
    }
}

proof fn lemma_forest_upto_leaves(s: Seq<u8>, k: nat)
    requires
        k <= 256,
    ensures
        forest_leaves(forest_upto(s, k)).no_duplicates(),
        forest_leaves(forest_upto(s, k)).len() <= k,
        forall|b: u8| #[trigger]
            forest_leaves(forest_upto(s, k)).contains(b) <==> (b < k && count(s, b) > 0),
    decreases k,
{
    if k > 0 {
        lemma_forest_upto_leaves(s, (k - 1) as nat);
        let prev = forest_upto(s, (k - 1) as nat);
        let b = (k - 1) as u8;
        if count(s, b) > 0 {
            let x = (count(s, b) as usize, Node::Leaf(b));
            lemma_forest_leaves_push(prev, x);
            let fl = forest_leaves(prev);
            assert(leaves(x.1) == seq![b]);
            assert(forest_leaves(forest_upto(s, k)) == fl.push(b)) by {
                assert(fl + seq![b] =~= fl.push(b));
            }
            assert forall|c: u8| #[trigger] fl.push(b).contains(c) <==> (c < k && count(s, c) > 0) by {
                if fl.push(b).contains(c) && c != b {
                    let i = choose|i: int| 0 <= i < fl.push(b).len() && fl.push(b)[i] == c;
                    assert(fl[i] == c);
                }
                if c == b {
                    assert(fl.push(b)[fl.len() as int] == c);
                }
                if fl.contains(c) {
                    let i = choose|i: int| 0 <= i < fl.len() && fl[i] == c;
                    assert(fl.push(b)[i] == c);
                }
            }
            assert(!fl.contains(b));
        }
    }
}

proof fn lemma_count_contains(s: Seq<u8>, b: u8)
    ensures
        count(s, b) > 0 <==> s.contains(b),
    decreases s.len(),
{
    if s.len() > 0 {
        lemma_count_contains(s.drop_last(), b);
        if s.drop_last().contains(b) {
            let i = choose|i: int| 0 <= i < s.drop_last().len() && s.drop_last()[i] == b;
            assert(s[i] == b);
        }
        if s.contains(b) && s.last() != b {
            let i = choose|i: int| 0 <= i < s.len() && s[i] == b;
            assert(s.drop_last()[i] == b);
        }
    }
}

/// A tree is no higher than it has leaves, less one.
pub proof fn lemma_height_leaves(n: Node)
    ensures
        height(n) < leaves(n).len(),
    decreases n,
{
    if let Node::Root { left, right } = n {
        lemma_height_leaves(*left);
        lemma_height_leaves(*right);
    }
}

/// The Huffman tree of a non-empty text has exactly one leaf for each distinct byte
/// of the text, so at most 256 leaves.
pub proof fn lemma_huffman_leaves(s: Seq<u8>)
    requires
        0 < s.len() <= usize::MAX,
    ensures
        wf(huffman_of(s)),
        forall|b: u8| #[trigger] leaves(huffman_of(s)).contains(b) <==> s.contains(b),
        leaves(huffman_of(s)).len() <= 256,
        height(huffman_of(s)) < 256,
{
    broadcast use vstd::seq_lib::to_multiset_contains;
    broadcast use vstd::seq_lib::to_multiset_len;

    let t = huffman_of(s);
    let fl = forest_leaves(freq_forest(s));
    lemma_freq_forest(s);
    lemma_build_leaves(freq_forest(s));
    lemma_forest_upto_leaves(s, 256);
    fl.lemma_multiset_has_no_duplicates();
    assert forall|b: u8| #[trigger] leaves(t).contains(b) <==> s.contains(b) by {
        lemma_count_contains(s, b);
        assert(leaves(t).to_multiset().count(b) == fl.to_multiset().count(b));
    }
    assert forall|b: u8| leaves(t).to_multiset().contains(b) implies leaves(
        t,
    ).to_multiset().count(b) == 1 by {
        assert(fl.to_multiset().count(b) == leaves(t).to_multiset().count(b));
    }
    leaves(t).lemma_multiset_has_no_duplicates_conv();
    assert(leaves(t).len() == fl.len()) by {
        assert(leaves(t).to_multiset().len() == fl.to_multiset().len());
    }
    lemma_height_leaves(t);
}

} // verus!
