//! What holds of the codec as a whole.
use crate::codec::{
    decode_from, decoded, encoded, lemma_parse_tree, lemma_shape_len, payload_of, read_code, walk,
    MAX_INPUT,
};
use crate::table::{
    codeword, is_prefix, leaves, lemma_no_dup_split, lemma_path_prefix_free, path, table_of, wf,
};
use crate::tree::{huffman_of, lemma_huffman_leaves, HuffmanError, Node};
use vstd::prelude::*;

verus! {

proof fn lemma_leaves_split(n: Node, b: u8)
    requires
        n is Root,
        leaves(n).contains(b),
    ensures
        leaves(*n->left).contains(b) || leaves(*n->right).contains(b),
{
    let l = leaves(*n->left);
    let i = choose|i: int| 0 <= i < leaves(n).len() && leaves(n)[i] == b;
    if i < l.len() {
        assert(l[i] == b);
    } else {
        assert(leaves(*n->right)[i - l.len()] == b);
    }
}

/// Walking the bits of a leaf's path from node `n` reaches that leaf.
proof fn lemma_walk_path(n: Node, b: u8, bits: Seq<bool>, pos: int)
    requires
        wf(n),
        leaves(n).contains(b),
        0 <= pos,
        pos + path(n, b).len() <= bits.len(),
        bits.subrange(pos, pos + path(n, b).len()) == path(n, b),
    ensures
        walk(n, bits, pos as nat) == Some((b, (pos + path(n, b).len()) as nat)),
    decreases n,
{
    match n {
        Node::Leaf(x) => {
            assert(leaves(n)[0] == x);
        },
        Node::Root { left, right } => {
            lemma_no_dup_split(leaves(*left), leaves(*right));
            lemma_leaves_split(n, b);
            let p = path(n, b);
            let sub = bits.subrange(pos, pos + p.len());
            assert(bits[pos] == sub[0]);
            if leaves(*left).contains(b) {
                assert(bits.subrange(pos + 1, pos + p.len()) =~= path(*left, b)) by {
                    assert forall|i: int| 0 <= i < path(*left, b).len() implies bits[pos + 1 + i]
                        == path(*left, b)[i] by {
                        assert(bits[pos + 1 + i] == sub[1 + i]);
                    }
                }
                lemma_walk_path(*left, b, bits, pos + 1);
            } else {
                assert(bits.subrange(pos + 1, pos + p.len()) =~= path(*right, b)) by {
                    assert forall|i: int| 0 <= i < path(*right, b).len() implies bits[pos + 1 + i]
                        == path(*right, b)[i] by {
                        assert(bits[pos + 1 + i] == sub[1 + i]);
                    }
                }
                lemma_walk_path(*right, b, bits, pos + 1);
            }
        },
    }
}

proof fn lemma_payload_first(t: Node, s: Seq<u8>)
    requires
        s.len() > 0,
    ensures
        payload_of(t, s) == codeword(t, s[0]) + payload_of(t, s.drop_first()),
    decreases s.len(),
{
    if s.len() == 1 {
        assert(s.drop_last() =~= Seq::<u8>::empty());
        assert(s.drop_first() =~= Seq::<u8>::empty());
        assert(payload_of(t, s) =~= codeword(t, s[0]) + payload_of(t, s.drop_first()));
    } else {
        lemma_payload_first(t, s.drop_last());
        assert(s.drop_last().drop_first() =~= s.drop_first().drop_last());
        assert(payload_of(t, s) =~= codeword(t, s[0]) + payload_of(t, s.drop_first()));
    }
}

/// Decoding, from `pos` on, bits that hold the payload of `s` gives `s`.
proof fn lemma_decode_payload(t: Node, s: Seq<u8>, bits: Seq<bool>, pos: int)
    requires
        wf(t),
        forall|i: int| 0 <= i < s.len() ==> leaves(t).contains(#[trigger] s[i]),
        0 <= pos <= bits.len(),
        bits.subrange(pos, bits.len() as int) == payload_of(t, s),
    ensures
        decode_from(t, bits, pos as nat) == Some(s),
    decreases s.len(),
{
    if s.len() == 0 {
        assert(bits.subrange(pos, bits.len() as int).len() == 0);
    } else {
        lemma_payload_first(t, s);
        let c = codeword(t, s[0]);
        let rest = bits.subrange(pos, bits.len() as int);
        assert(rest.len() == c.len() + payload_of(t, s.drop_first()).len());
        assert(bits.subrange(pos, pos + c.len()) =~= c) by {
            assert forall|i: int| 0 <= i < c.len() implies bits[pos + i] == c[i] by {
                assert(bits[pos + i] == rest[i]);
                assert(rest[i] == (c + payload_of(t, s.drop_first()))[i]);
            }
        }
        assert(leaves(t).contains(s[0]));
        match t {
            Node::Leaf(x) => {
                assert(leaves(t)[0] == x);
                assert(bits[pos] == c[0]);
            },
            Node::Root { .. } => {
                lemma_walk_path(t, s[0], bits, pos);
                assert(path(t, s[0]).len() > 0);
            },
        }
        assert(read_code(t, bits, pos as nat) == Some((s[0], (pos + c.len()) as nat)));
        assert(bits.subrange(pos + c.len(), bits.len() as int) =~= payload_of(t, s.drop_first())) by {
            assert forall|i: int| 0 <= i < payload_of(t, s.drop_first()).len() implies bits[pos
                + c.len() + i] == payload_of(t, s.drop_first())[i] by {
                assert(bits[pos + c.len() + i] == rest[c.len() + i]);
            }
        }
        assert forall|i: int| 0 <= i < s.drop_first().len() implies leaves(t).contains(
            #[trigger] s.drop_first()[i],
        ) by {
            assert(s.drop_first()[i] == s[i + 1]);
        }
        lemma_decode_payload(t, s.drop_first(), bits, pos + c.len());
        assert(seq![s[0]] + s.drop_first() =~= s);
    }
}

/// Round trip: decoding what encoding a non-empty text gives returns the text.
pub proof fn lemma_round_trip(x: Seq<u8>)
    requires
        0 < x.len() <= MAX_INPUT,
    ensures
        decoded(encoded(x)) == Ok::<Seq<u8>, HuffmanError>(x),
{
    let t = huffman_of(x);
    lemma_huffman_leaves(x);
    lemma_parse_tree(t);
    assert forall|i: int| 0 <= i < x.len() implies leaves(t).contains(#[trigger] x[i]) by {
        assert(x.contains(x[i]));
    }
    let p = payload_of(t, x);
    assert(p.subrange(0, p.len() as int) =~= p);
    lemma_decode_payload(t, x, p, 0);
}

/// Prefix-free: in the code table of a well-formed tree, no codeword is a prefix of
/// the codeword of another entry.
pub proof fn lemma_prefix_free(t: Node, i: int, j: int)
    requires
        wf(t),
        0 <= i < table_of(t).len(),
        0 <= j < table_of(t).len(),
        i != j,
    ensures
        !is_prefix(table_of(t)[i].1, table_of(t)[j].1),
{
    let a = leaves(t)[i];
    let b = leaves(t)[j];
    assert(a != b);
    assert(leaves(t).contains(a) && leaves(t).contains(b));
    if t is Leaf {
        assert(leaves(t).len() == 1);
    } else {
        lemma_path_prefix_free(t, a, b);
    }
}

/// Shape-bit count: a tree of `k` leaves has `2 * (k - 1)` shape bits, and the leaf
/// list of an encoded text holds each distinct byte of the text once.
pub proof fn lemma_encoded_counts(x: Seq<u8>)
    requires
        0 < x.len() <= MAX_INPUT,
    ensures
        encoded(x).0.len() == x.to_set().len(),
        encoded(x).0.no_duplicates(),
        encoded(x).0.to_set() == x.to_set(),
        encoded(x).1.len() + 2 == 2 * x.to_set().len(),
{
    let t = huffman_of(x);
    lemma_huffman_leaves(x);
    lemma_shape_len(t);
    assert(leaves(t).to_set() =~= x.to_set());
    leaves(t).unique_seq_to_set();
}

} // verus!
