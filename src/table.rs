//! Codewords: the path from the root to each leaf, and the table of them.
use crate::bits::{bits_of, clone_bits, new_bits, push_bit, Codeword, MAX_BITS};
use crate::tree::Node;
use vstd::prelude::*;

verus! {

/// The leaf bytes of a tree, left to right.
pub open spec fn leaves(n: Node) -> Seq<u8>
    decreases n,
{
    match n {
        Node::Leaf(b) => seq![b],
        Node::Root { left, right } => leaves(*left) + leaves(*right),
    }
}

/// The number of edges on the longest path from the root to a leaf.
pub open spec fn height(n: Node) -> nat
    decreases n,
{
    match n {
        Node::Leaf(_) => 0,
        Node::Root { left, right } => 1 + if height(*left) >= height(*right) {
            height(*left)
        } else {
            height(*right)
        },
    }
}

/// A tree is well formed when no byte stands at two leaves.
pub open spec fn wf(n: Node) -> bool {
    leaves(n).no_duplicates()
}

/// The edges from the root to the leaf of `b`: `false` goes left, `true` right.
pub open spec fn path(n: Node, b: u8) -> Seq<bool>
    decreases n,
{
    match n {
        Node::Leaf(_) => Seq::empty(),
        Node::Root { left, right } => if leaves(*left).contains(b) {
            seq![false] + path(*left, b)
        } else {
            seq![true] + path(*right, b)
        },
    }
}

/// The codeword of `b` in tree `t`: its path, or a single `false` bit when the
/// root itself is a leaf.
pub open spec fn codeword(t: Node, b: u8) -> Seq<bool> {
    if t is Leaf {
        seq![false]
    } else {
        path(t, b)
    }
}

/// The code table of `t`: each leaf byte, left to right, with its codeword.
pub open spec fn table_of(t: Node) -> Seq<(u8, Seq<bool>)> {
    leaves(t).map_values(|b: u8| (b, codeword(t, b)))
}

/// What a table of bit-vectors holds.
pub open spec fn table_view(v: Seq<(u8, Codeword)>) -> Seq<(u8, Seq<bool>)> {
    v.map_values(|e: (u8, Codeword)| (e.0, bits_of(e.1)))
}

/// `a` is a prefix of `b` (equal sequences included).
pub open spec fn is_prefix(a: Seq<bool>, b: Seq<bool>) -> bool {
    a.len() <= b.len() && b.take(a.len() as int) == a
}

pub proof fn lemma_no_dup_split(a: Seq<u8>, b: Seq<u8>)
    requires
        (a + b).no_duplicates(),
    ensures
        a.no_duplicates(),
        b.no_duplicates(),
        forall|x: u8| a.contains(x) ==> !b.contains(x),
{
    assert forall|i: int, j: int| 0 <= i < a.len() && 0 <= j < a.len() && i != j implies a[i]
        != a[j] by {
        assert((a + b)[i] == a[i] && (a + b)[j] == a[j]);
    }
    assert forall|i: int, j: int| 0 <= i < b.len() && 0 <= j < b.len() && i != j implies b[i]
        != b[j] by {
        assert((a + b)[a.len() + i] == b[i] && (a + b)[a.len() + j] == b[j]);
    }
    assert forall|x: u8| a.contains(x) implies !b.contains(x) by {
        if b.contains(x) {
            let i = choose|i: int| 0 <= i < a.len() && a[i] == x;
            let j = choose|j: int| 0 <= j < b.len() && b[j] == x;
            assert((a + b)[i] == x && (a + b)[a.len() + j] == x);
        }
    }
}

/// The path of a leaf is no longer than the tree's height.
pub proof fn lemma_path_len(n: Node, b: u8)
    ensures
        path(n, b).len() <= height(n),
    decreases n,
{
    if let Node::Root { left, right } = n {
        lemma_path_len(*left, b);
        lemma_path_len(*right, b);
    }
}

/// The paths of two different leaves of a well-formed tree: neither is a prefix of
/// the other.
pub proof fn lemma_path_prefix_free(n: Node, a: u8, b: u8)
    requires
        wf(n),
        leaves(n).contains(a),
        leaves(n).contains(b),
        a != b,
    ensures
        !is_prefix(path(n, a), path(n, b)),
    decreases n,
{
    match n {
        Node::Leaf(x) => {
            assert(leaves(n)[0] == x);
        },
        Node::Root { left, right } => {
            lemma_no_dup_split(leaves(*left), leaves(*right));
            let pa = path(n, a);
            let pb = path(n, b);
            assert(leaves(n).contains(a) ==> leaves(*left).contains(a) || leaves(*right).contains(a)) by {
                let i = choose|i: int| 0 <= i < leaves(n).len() && leaves(n)[i] == a;
                if i >= leaves(*left).len() {
                    assert(leaves(*right)[i - leaves(*left).len()] == a);
                }
            }
            assert(leaves(n).contains(b) ==> leaves(*left).contains(b) || leaves(*right).contains(b)) by {
                let i = choose|i: int| 0 <= i < leaves(n).len() && leaves(n)[i] == b;
                if i >= leaves(*left).len() {
                    assert(leaves(*right)[i - leaves(*left).len()] == b);
                }
            }
            if is_prefix(pa, pb) {
                assert(pb.take(pa.len() as int)[0] == pa[0]);
                if leaves(*left).contains(a) == leaves(*left).contains(b) {
                    if leaves(*left).contains(a) {
                        lemma_path_prefix_free(*left, a, b);
                        assert(pb.drop_first().take(pa.drop_first().len() as int) =~= pa.drop_first());
                        assert(pa.drop_first() =~= path(*left, a));
                        assert(pb.drop_first() =~= path(*left, b));
                    } else {
                        lemma_path_prefix_free(*right, a, b);
                        assert(pb.drop_first().take(pa.drop_first().len() as int) =~= pa.drop_first());
                        assert(pa.drop_first() =~= path(*right, a));
                        assert(pb.drop_first() =~= path(*right, b));
                    }
                }
            }
        },
    }
}

/// Appends to `table`, left to right, each leaf of `node` with `code` followed by
/// its path below `node`.
fn explore_branch(table: &mut Vec<(u8, Codeword)>, node: &Node, code: Codeword)
    requires
        wf(*node),
        bits_of(code).len() + height(*node) <= MAX_BITS,
    ensures
        table_view(final(table)@) == table_view(old(table)@) + leaves(*node).map_values(
            |b: u8| (b, bits_of(code) + path(*node, b)),
        ),
    decreases node,
{
    match node {
        Node::Leaf(b) => {
            table.push((*b, code));
            proof {
                assert(bits_of(code) + path(*node, *b) =~= bits_of(code));
                assert(table_view(table@) =~= table_view(old(table)@) + leaves(*node).map_values(
                    |x: u8| (x, bits_of(code) + path(*node, x)),
                ));
            }
        },
        Node::Root { left, right } => {
            proof {
                lemma_no_dup_split(leaves(**left), leaves(**right));
            }
            let ghost t0 = table_view(table@);
            let mut left_code = clone_bits(&code);
            push_bit(&mut left_code, false);
            explore_branch(table, left, left_code);
            let ghost t1 = table_view(table@);
            let mut right_code = code;
            push_bit(&mut right_code, true);
            explore_branch(table, right, right_code);
            proof {
                let c = bits_of(code);
                let f = |x: u8| (x, c + path(*node, x));
                let fl = |x: u8| (x, c.push(false) + path(**left, x));
                let fr = |x: u8| (x, c.push(true) + path(**right, x));
                let ll = leaves(**left);
                let lr = leaves(**right);
                assert forall|i: int| 0 <= i < ll.len() implies ll.map_values(fl)[i] == ll.map_values(f)[i] by {
                    assert(ll.contains(ll[i]));
                    assert(c.push(false) + path(**left, ll[i]) =~= c + path(*node, ll[i]));
                }
                assert forall|i: int| 0 <= i < lr.len() implies lr.map_values(fr)[i] == lr.map_values(f)[i] by {
                    assert(lr.contains(lr[i]));
                    assert(c.push(true) + path(**right, lr[i]) =~= c + path(*node, lr[i]));
                }
                assert(ll.map_values(fl) =~= ll.map_values(f));
                assert(lr.map_values(fr) =~= lr.map_values(f));
                assert(leaves(*node).map_values(f) =~= ll.map_values(f) + lr.map_values(f));
                assert(table_view(table@) =~= t0 + leaves(*node).map_values(f));
            }
        },
    }
}

/// The code table of a well-formed tree: each leaf byte, left to right, with its
/// codeword.
pub fn huffman_table(tree: &Node) -> (r: Vec<(u8, Codeword)>)
    requires
        wf(*tree),
        height(*tree) < MAX_BITS,
    ensures
        table_view(r@) == table_of(*tree),
{
    let mut table: Vec<(u8, Codeword)> = Vec::new();
    match tree {
        Node::Leaf(b) => {
            let mut code = new_bits();
            push_bit(&mut code, false);
            table.push((*b, code));
            proof {
                assert(table_view(table@) =~= table_of(*tree));
            }
        },
        Node::Root { .. } => {
            explore_branch(&mut table, tree, new_bits());
            proof {
                assert(table_view(table@) =~= table_of(*tree)) by {
                    assert forall|i: int| 0 <= i < leaves(*tree).len() implies (Seq::<bool>::empty() + path(*tree, leaves(*tree)[i])) == codeword(*tree, leaves(*tree)[i]) by {
                        assert(Seq::<bool>::empty() + path(*tree, leaves(*tree)[i]) =~= path(*tree, leaves(*tree)[i]));
                    }
                }
            }
        },
    }
    table
}

} // verus!
