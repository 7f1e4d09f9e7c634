//! Serialising the tree's shape, and encoding and decoding the payload.
use crate::bits::{append_bits, bit_at, bits_len, bits_of, clone_bits, new_bits, push_bit, Codeword, MAX_BITS};
use crate::table::{codeword, height, huffman_table, leaves, table_of, table_view};
use crate::tree::{huffman_of, huffman_tree, HuffmanError, Node};
use vstd::prelude::*;

verus! {

/// The shape bits of a tree: for each internal node a `false`, the left subtree, a
/// `true`, then the right subtree; a leaf adds nothing.
pub open spec fn shape(n: Node) -> Seq<bool>
    decreases n,
{
    match n {
        Node::Leaf(_) => Seq::empty(),
        Node::Root { left, right } => seq![false] + shape(*left) + seq![true] + shape(*right),
    }
}

/// A tree of `k` leaves has `2 * (k - 1)` shape bits.
pub proof fn lemma_shape_len(n: Node)
    ensures
        shape(n).len() + 2 == 2 * leaves(n).len(),
    decreases n,
{
    if let Node::Root { left, right } = n {
        lemma_shape_len(*left);
        lemma_shape_len(*right);
    }
}

fn explore_tree(tree: &Node, characters: &mut Vec<u8>, tree_encoding: &mut Codeword)
    requires
        bits_of(*old(tree_encoding)).len() + shape(*tree).len() <= MAX_BITS,
    ensures
        final(characters)@ == old(characters)@ + leaves(*tree),
        bits_of(*final(tree_encoding)) == bits_of(*old(tree_encoding)) + shape(*tree),
    decreases tree,
{
    match tree {
        Node::Root { left, right } => {
            push_bit(tree_encoding, false);
            explore_tree(left, characters, tree_encoding);
            push_bit(tree_encoding, true);
            explore_tree(right, characters, tree_encoding);
            proof {
                assert(bits_of(*tree_encoding) =~= bits_of(*old(tree_encoding)) + shape(*tree));
                assert(characters@ =~= old(characters)@ + leaves(*tree));
            }
        },
        Node::Leaf(character) => {
            characters.push(*character);
            proof {
                assert(bits_of(*tree_encoding) =~= bits_of(*old(tree_encoding)) + shape(*tree));
                assert(characters@ =~= old(characters)@ + leaves(*tree));
            }
        },
    }
}

/// The leaf bytes of `root`, left to right, and its shape bits.
pub fn huffman_encode_tree(root: &Node) -> (r: (Vec<u8>, Codeword))
    requires
        shape(*root).len() <= MAX_BITS,
    ensures
        r.0@ == leaves(*root),
        bits_of(r.1) == shape(*root),
{
    let mut char_order: Vec<u8> = Vec::new();
    let mut tree_encoding = new_bits();
    explore_tree(root, &mut char_order, &mut tree_encoding);
    proof {
        assert(char_order@ =~= leaves(*root));
        assert(bits_of(tree_encoding) =~= shape(*root));
    }
    (char_order, tree_encoding)
}

/// Reads one subtree from the shape bits at `pos`, taking its leaf bytes from `syms`
/// at `k`: a `false` opens an internal node, anything else is a leaf. The result
/// is the subtree and the positions after it in both sequences.
pub open spec fn parse(bits: Seq<bool>, pos: nat, syms: Seq<u8>, k: nat) -> Option<(Node, nat, nat)>
    decreases bits.len() - pos,
{
    if pos < bits.len() && !bits[pos as int] {
        match parse(bits, pos + 1, syms, k) {
            None => None,
            Some((l, p1, k1)) => if pos < p1 < bits.len() && bits[p1 as int] {
                match parse(bits, p1 + 1, syms, k1) {
                    None => None,
                    Some((r, p2, k2)) => Some(
                        (Node::Root { left: Box::new(l), right: Box::new(r) }, p2, k2),
                    ),
                }
            } else {
                None
            },
        }
    } else if k < syms.len() {
        Some((Node::Leaf(syms[k as int]), pos, k + 1))
    } else {
        None
    }
}

pub open spec fn parse_tree(syms: Seq<u8>, bits: Seq<bool>) -> Option<Node> {
    match parse(bits, 0, syms, 0) {
        Some((t, p, k)) => if p == bits.len() && k == syms.len() {
            Some(t)
        } else {
            None
        },
        None => None,
    }
}

/// Reading back the shape and leaves of a tree gives the tree, where the bit after
/// its shape, if any, is `true`.
pub proof fn lemma_parse_shape(t: Node, bits: Seq<bool>, pos: int, syms: Seq<u8>, k: int)
    requires
        0 <= pos,
        0 <= k,
        pos + shape(t).len() <= bits.len(),
        bits.subrange(pos, pos + shape(t).len()) == shape(t),
        k + leaves(t).len() <= syms.len(),
        syms.subrange(k, k + leaves(t).len()) == leaves(t),
        pos + shape(t).len() == bits.len() || bits[pos + shape(t).len()],
    ensures
        parse(bits, pos as nat, syms, k as nat) == Some(
            (t, (pos + shape(t).len()) as nat, (k + leaves(t).len()) as nat),
        ),
    decreases t,
{
    match t {
        Node::Leaf(b) => {
            assert(syms[k] == syms.subrange(k, k + 1)[0]);
        },
        Node::Root { left, right } => {
            let sl = shape(*left);
            let sr = shape(*right);
            let ll = leaves(*left);
            let lr = leaves(*right);
            let sh = shape(t);
            let whole = bits.subrange(pos, pos + sh.len());
            assert(sh[0] == false);
            assert(bits[pos] == whole[0]);
            assert(bits.subrange(pos + 1, pos + 1 + sl.len()) =~= sl) by {
                assert forall|i: int| 0 <= i < sl.len() implies bits[pos + 1 + i] == sl[i] by {
                    assert(bits[pos + 1 + i] == whole[1 + i]);
                }
            }
            assert(bits[pos + 1 + sl.len()] == true) by {
                assert(bits[pos + 1 + sl.len()] == whole[sl.len() as int + 1]);
            }
            assert(syms.subrange(k, k + ll.len()) =~= ll) by {
                assert forall|i: int| 0 <= i < ll.len() implies syms[k + i] == ll[i] by {
                    assert(syms[k + i] == syms.subrange(k, k + leaves(t).len())[i]);
                }
            }
            lemma_parse_shape(*left, bits, pos + 1, syms, k);
            let p1 = pos + 1 + sl.len();
            assert(bits.subrange(p1 + 1, p1 + 1 + sr.len()) =~= sr) by {
                assert forall|i: int| 0 <= i < sr.len() implies bits[p1 + 1 + i] == sr[i] by {
                    assert(bits[p1 + 1 + i] == whole[sl.len() as int + 2 + i]);
                }
            }
            assert(syms.subrange(k + ll.len(), k + ll.len() + lr.len()) =~= lr) by {
                assert forall|i: int| 0 <= i < lr.len() implies syms[k + ll.len() + i] == lr[i] by {
                    assert(syms[k + ll.len() + i] == syms.subrange(k, k + leaves(t).len())[ll.len() + i]);
                }
            }
            lemma_parse_shape(*right, bits, p1 + 1, syms, k + ll.len());
        },
    }
}

/// The shape bits and leaves of a tree read back as that tree.
pub proof fn lemma_parse_tree(t: Node)
    ensures
        parse_tree(leaves(t), shape(t)) == Some(t),
{
    assert(shape(t).subrange(0, shape(t).len() as int) =~= shape(t));
    assert(leaves(t).subrange(0, leaves(t).len() as int) =~= leaves(t));
    lemma_parse_shape(t, shape(t), 0, leaves(t), 0);
}

/// A subtree read by `parse` takes its leaves from the leaf list in order.
pub proof fn lemma_parse_leaves(bits: Seq<bool>, pos: nat, syms: Seq<u8>, k: nat)
    requires
        k <= syms.len(),
    ensures
        match parse(bits, pos, syms, k) {
            Some((t, p, j)) => k <= j <= syms.len() && leaves(t) == syms.subrange(k as int, j as int),
            None => true,
        },
    decreases bits.len() - pos,
{
    if pos < bits.len() && !bits[pos as int] {
        lemma_parse_leaves(bits, pos + 1, syms, k);
        if let Some((l, p1, k1)) = parse(bits, pos + 1, syms, k) {
            if pos < p1 < bits.len() && bits[p1 as int] {
                lemma_parse_leaves(bits, p1 + 1, syms, k1);
                if let Some((r, p2, k2)) = parse(bits, p1 + 1, syms, k1) {
                    assert(syms.subrange(k as int, k1 as int) + syms.subrange(k1 as int, k2 as int)
                        =~= syms.subrange(k as int, k2 as int));
                }
            }
        }
    } else if k < syms.len() {
        assert(syms.subrange(k as int, k as int + 1) =~= seq![syms[k as int]]);
    }
}

/// Reads one subtree; see `parse`.
fn parse_node(bits: &Codeword, pos: usize, syms: &Vec<u8>, k: usize) -> (r: Option<(Node, usize, usize)>)
    requires
        pos <= bits_of(*bits).len(),
        k <= syms@.len(),
    ensures
        match r {
            None => parse(bits_of(*bits), pos as nat, syms@, k as nat) is None,
            Some((t, p, j)) => parse(bits_of(*bits), pos as nat, syms@, k as nat) == Some(
                (t, p as nat, j as nat),
            ) && p <= bits_of(*bits).len() && j <= syms@.len(),
        },
    decreases bits_of(*bits).len() - pos,
{
    let n = bits_len(bits);
    if pos < n && !bit_at(bits, pos) {
        match parse_node(bits, pos + 1, syms, k) {
            None => None,
            Some((l, p1, k1)) => if pos < p1 && p1 < n && bit_at(bits, p1) {
                match parse_node(bits, p1 + 1, syms, k1) {
                    None => None,
                    Some((r, p2, k2)) => Some(
                        (Node::Root { left: Box::new(l), right: Box::new(r) }, p2, k2),
                    ),
                }
            } else {
                None
            },
        }
    } else if k < syms.len() {
        Some((Node::Leaf(syms[k]), pos, k + 1))
    } else {
        None
    }
}

/// Rebuilds a tree from its leaf list and shape bits.
pub fn decode_tree_shape(characters: &Vec<u8>, tree: &Codeword) -> (r: Result<Node, HuffmanError>)
    ensures
        match parse_tree(characters@, bits_of(*tree)) {
            Some(t) => r == Ok::<Node, HuffmanError>(t),
            None => r == Err::<Node, HuffmanError>(HuffmanError::CorruptTree),
        },
{
    match parse_node(tree, 0, characters, 0) {
        Some((t, p, k)) => if p == bits_len(tree) && k == characters.len() {
            Ok(t)
        } else {
            Err(HuffmanError::CorruptTree)
        },
        None => Err(HuffmanError::CorruptTree),
    }
}

/// The most bytes that can be encoded: each takes at most 256 bits of payload.
pub const MAX_INPUT: usize = MAX_BITS / 256;

/// The codeword of `b` in a table: that of its first entry, if it has one.
pub open spec fn lookup(tbl: Seq<(u8, Seq<bool>)>, b: u8) -> Option<Seq<bool>>
    decreases tbl.len(),
{
    if tbl.len() == 0 {
        None
    } else if tbl[0].0 == b {
        Some(tbl[0].1)
    } else {
        lookup(tbl.drop_first(), b)
    }
}

/// The codewords of the bytes of `s` in order, concatenated; `None` when a byte has
/// no codeword.
pub open spec fn encode_with(tbl: Seq<(u8, Seq<bool>)>, s: Seq<u8>) -> Option<Seq<bool>>
    decreases s.len(),
{
    if s.len() == 0 {
        Some(Seq::empty())
    } else {
        match (encode_with(tbl, s.drop_last()), lookup(tbl, s.last())) {
            (Some(p), Some(c)) => Some(p + c),
            _ => None,
        }
    }
}

/// Finds the first entry of `b` in a table.
fn find_code(table: &Vec<(u8, Codeword)>, b: u8) -> (r: Option<usize>)
    ensures
        match r {
            Some(i) => i < table@.len() && lookup(table_view(table@), b) == Some(
                bits_of(table@[i as int].1),
            ),
            None => lookup(table_view(table@), b) is None,
        },
{
    let ghost tv = table_view(table@);
    proof {
        assert(tv.skip(0) =~= tv);
    }
    let mut i: usize = 0;
    while i < table.len()
        invariant
            i <= table@.len(),
            tv == table_view(table@),
            lookup(tv, b) == lookup(tv.skip(i as int), b),
        decreases table@.len() - i,
    {
        if table[i].0 == b {
            return Some(i);
        }
        proof {
            assert(tv.skip(i as int).drop_first() =~= tv.skip(i + 1));
        }
        i += 1;
    }
    None
}

/// Concatenates, in order, the codeword of each byte of `text`; fails on a byte
/// without one.
pub fn huffman_encode_text(text: &[u8], table: &Vec<(u8, Codeword)>) -> (r: Result<Codeword, HuffmanError>)
    requires
        text@.len() <= MAX_INPUT,
        forall|i: int| 0 <= i < table@.len() ==> bits_of(#[trigger] table@[i].1).len() <= 256,
    ensures
        match encode_with(table_view(table@), text@) {
            Some(p) => r is Ok && bits_of(r->Ok_0) == p,
            None => r == Err::<Codeword, HuffmanError>(HuffmanError::UnknownSymbol),
        },
{
    let ghost tv = table_view(table@);
    let mut acc = new_bits();
    let mut i: usize = 0;
    while i < text.len()
        invariant
            i <= text@.len(),
            text@.len() <= MAX_INPUT,
            tv == table_view(table@),
            forall|j: int| 0 <= j < table@.len() ==> bits_of(#[trigger] table@[j].1).len() <= 256,
            encode_with(tv, text@.take(i as int)) == Some(bits_of(acc)),
            bits_of(acc).len() <= 256 * i,
        decreases text@.len() - i,
    {
        proof {
            assert(text@.take(i + 1).drop_last() =~= text@.take(i as int));
        }
        match find_code(table, text[i]) {
            None => {
                proof {
                    lemma_encode_unknown(tv, text@, i as int);
                }
                return Err(HuffmanError::UnknownSymbol);
            },
            Some(k) => {
                append_bits(&mut acc, &table[k].1);
            },
        }
        i += 1;
    }
    proof {
        assert(text@.take(text@.len() as int) =~= text@);
    }
    Ok(acc)
}

/// A byte without a codeword leaves the whole text without an encoding.
proof fn lemma_encode_unknown(tbl: Seq<(u8, Seq<bool>)>, s: Seq<u8>, i: int)
    requires
        0 <= i < s.len(),
        lookup(tbl, s[i]) is None,
    ensures
        encode_with(tbl, s) is None,
    decreases s.len(),
{
    if i < s.len() - 1 {
        lemma_encode_unknown(tbl, s.drop_last(), i);
    }
}

/// Follows the bits from node `n` at `pos` down to a leaf: its byte and the
/// position after the bits read.
pub open spec fn walk(n: Node, bits: Seq<bool>, pos: nat) -> Option<(u8, nat)>
    decreases n,
{
    match n {
        Node::Leaf(b) => Some((b, pos)),
        Node::Root { left, right } => if pos >= bits.len() {
            None
        } else if bits[pos as int] {
            walk(*right, bits, pos + 1)
        } else {
            walk(*left, bits, pos + 1)
        },
    }
}

/// Reads one codeword of tree `t` at `pos`.
pub open spec fn read_code(t: Node, bits: Seq<bool>, pos: nat) -> Option<(u8, nat)> {
    match t {
        Node::Leaf(b) => if pos < bits.len() && !bits[pos as int] {
            Some((b, pos + 1))
        } else {
            None
        },
        Node::Root { .. } => walk(t, bits, pos),
    }
}

/// The bytes whose codewords in `t` make up the bits from `pos` on; `None` when the
/// bits end inside a codeword.
pub open spec fn decode_from(t: Node, bits: Seq<bool>, pos: nat) -> Option<Seq<u8>>
    decreases bits.len() - pos,
{
    if pos >= bits.len() {
        Some(Seq::empty())
    } else {
        match read_code(t, bits, pos) {
            Some((b, p)) => if pos < p <= bits.len() {
                match decode_from(t, bits, p) {
                    Some(rest) => Some(seq![b] + rest),
                    None => None,
                }
            } else {
                None
            },
            None => None,
        }
    }
}

fn walk_node(n: &Node, bits: &Codeword, pos: usize) -> (r: Option<(u8, usize)>)
    requires
        pos <= bits_of(*bits).len(),
    ensures
        match r {
            Some((b, p)) => walk(*n, bits_of(*bits), pos as nat) == Some((b, p as nat)),
            None => walk(*n, bits_of(*bits), pos as nat) is None,
        },
    decreases n,
{
    match n {
        Node::Leaf(b) => Some((*b, pos)),
        Node::Root { left, right } => if pos >= bits_len(bits) {
            None
        } else if bit_at(bits, pos) {
            walk_node(right, bits, pos + 1)
        } else {
            walk_node(left, bits, pos + 1)
        },
    }
}

/// Decodes a payload by walking tree `tree`; fails when the bits end inside a
/// codeword.
pub fn huffman_decode_payload(tree: &Node, bits: &Codeword) -> (r: Result<Vec<u8>, HuffmanError>)
    ensures
        match decode_from(*tree, bits_of(*bits), 0) {
            Some(x) => r is Ok && r->Ok_0@ == x,
            None => r == Err::<Vec<u8>, HuffmanError>(HuffmanError::TruncatedStream),
        },
{
    let ghost bs = bits_of(*bits);
    let n = bits_len(bits);
    let mut out: Vec<u8> = Vec::new();
    let mut pos: usize = 0;
    while pos < n
        invariant
            pos <= n,
            n == bs.len(),
            bs == bits_of(*bits),
            decode_from(*tree, bs, 0) == match decode_from(*tree, bs, pos as nat) {
                Some(rest) => Some(out@ + rest),
                None => None::<Seq<u8>>,
            },
        decreases n - pos,
    {
        let step = match tree {
            Node::Leaf(b) => if !bit_at(bits, pos) {
                Some((*b, pos + 1))
            } else {
                None
            },
            Node::Root { .. } => walk_node(tree, bits, pos),
        };
        match step {
            Some((b, p)) => if pos < p && p <= n {
                proof {
                    let rest = decode_from(*tree, bs, p as nat);
                    if rest is Some {
                        assert(out@.push(b) + rest->Some_0 =~= out@ + (seq![b] + rest->Some_0));
                    }
                }
                out.push(b);
                pos = p;
            } else {
                return Err(HuffmanError::TruncatedStream);
            },
            None => {
                return Err(HuffmanError::TruncatedStream);
            },
        }
    }
    proof {
        assert(out@ + Seq::<u8>::empty() =~= out@);
    }
    Ok(out)
}

/// The output of encoding: the leaf bytes in tree order, the tree-shape bits and the
/// payload bits.
pub struct FileData {
    pub characters: Vec<u8>,
    pub tree: Codeword,
    pub text: Codeword,
}

impl View for FileData {
    type V = (Seq<u8>, Seq<bool>, Seq<bool>);

    open spec fn view(&self) -> (Seq<u8>, Seq<bool>, Seq<bool>) {
        (self.characters@, bits_of(self.tree), bits_of(self.text))
    }
}

/// The codewords in `t` of the bytes of `s`, concatenated.
pub open spec fn payload_of(t: Node, s: Seq<u8>) -> Seq<bool>
    decreases s.len(),
{
    if s.len() == 0 {
        Seq::empty()
    } else {
        payload_of(t, s.drop_last()) + codeword(t, s.last())
    }
}

/// What encoding a non-empty text gives: the leaves and shape of its Huffman tree,
/// and its payload.
pub open spec fn encoded(s: Seq<u8>) -> (Seq<u8>, Seq<bool>, Seq<bool>) {
    let t = huffman_of(s);
    (leaves(t), shape(t), payload_of(t, s))
}

/// What decoding a leaf list, shape bits and payload bits gives.
pub open spec fn decoded(d: (Seq<u8>, Seq<bool>, Seq<bool>)) -> Result<Seq<u8>, HuffmanError> {
    match parse_tree(d.0, d.1) {
        None => Err(HuffmanError::CorruptTree),
        Some(t) => match decode_from(t, d.2, 0) {
            Some(x) => Ok(x),
            None => Err(HuffmanError::TruncatedStream),
        },
    }
}

proof fn lemma_lookup_table(t: Node, l: Seq<u8>, b: u8)
    requires
        l.contains(b),
    ensures
        lookup(l.map_values(|x: u8| (x, codeword(t, x))), b) == Some(codeword(t, b)),
    decreases l.len(),
{
    let m = l.map_values(|x: u8| (x, codeword(t, x)));
    if l[0] != b {
        let i = choose|i: int| 0 <= i < l.len() && l[i] == b;
        assert(l.drop_first()[i - 1] == b);
        lemma_lookup_table(t, l.drop_first(), b);
        assert(m.drop_first() =~= l.drop_first().map_values(|x: u8| (x, codeword(t, x))));
    }
}

proof fn lemma_encode_table(t: Node, s: Seq<u8>)
    requires
        forall|i: int| 0 <= i < s.len() ==> leaves(t).contains(#[trigger] s[i]),
    ensures
        encode_with(table_of(t), s) == Some(payload_of(t, s)),
    decreases s.len(),
{
    if s.len() > 0 {
        assert forall|i: int| 0 <= i < s.drop_last().len() implies leaves(t).contains(
            #[trigger] s.drop_last()[i],
        ) by {
            assert(s.drop_last()[i] == s[i]);
        }
        lemma_encode_table(t, s.drop_last());
        lemma_lookup_table(t, leaves(t), s.last());
    }
}

/// Encodes a non-empty byte text; fails on an empty one.
pub fn huffman_encode(text: &[u8]) -> (r: Result<FileData, HuffmanError>)
    requires
        text@.len() <= MAX_INPUT,
    ensures
        text@.len() == 0 <==> r is Err,
        text@.len() == 0 ==> r == Err::<FileData, HuffmanError>(HuffmanError::EmptyInput),
        text@.len() > 0 ==> r is Ok && r->Ok_0@ == encoded(text@),
{
    let tree = match huffman_tree(text) {
        Ok(t) => t,
        Err(e) => {
            return Err(e);
        },
    };
    proof {
        crate::tree::lemma_huffman_leaves(text@);
        lemma_shape_len(tree);
        assert forall|i: int| 0 <= i < text@.len() implies leaves(tree).contains(#[trigger] text@[i]) by {
            assert(text@.contains(text@[i]));
        }
        lemma_encode_table(tree, text@);
    }
    let code_table = huffman_table(&tree);
    proof {
        assert forall|i: int| 0 <= i < code_table@.len() implies bits_of(#[trigger] code_table@[i].1).len() <= 256 by {
            assert(table_view(code_table@)[i] == table_of(tree)[i]);
            crate::table::lemma_path_len(tree, leaves(tree)[i]);
        }
    }
    let payload = match huffman_encode_text(text, &code_table) {
        Ok(p) => p,
        Err(e) => {
            return Err(e);
        },
    };
    let (characters, shape_bits) = huffman_encode_tree(&tree);
    Ok(FileData { characters, tree: shape_bits, text: payload })
}

/// Decodes what `huffman_encode` produced back to the bytes.
pub fn huffman_decode(filedata: &FileData) -> (r: Result<Vec<u8>, HuffmanError>)
    ensures
        match decoded(filedata@) {
            Ok(x) => r is Ok && r->Ok_0@ == x,
            Err(e) => r == Err::<Vec<u8>, HuffmanError>(e),
        },
{
    let tree = match decode_tree_shape(&filedata.characters, &filedata.tree) {
        Ok(t) => t,
        Err(e) => {
            return Err(e);
        },
    };
    huffman_decode_payload(&tree, &filedata.text)
}

/// The paths from the root of `n` to its leaves, left to right.
pub open spec fn leaf_paths(n: Node) -> Seq<Seq<bool>>
    decreases n,
{
    match n {
        Node::Leaf(_) => seq![Seq::<bool>::empty()],
        Node::Root { left, right } => leaf_paths(*left).map_values(|p: Seq<bool>| seq![false] + p)
            + leaf_paths(*right).map_values(|p: Seq<bool>| seq![true] + p),
    }
}

/// The codewords of the leaves of `t`, left to right: their paths, or a single
/// `false` bit when the root itself is a leaf.
pub open spec fn leaf_codes(t: Node) -> Seq<Seq<bool>> {
    if t is Leaf {
        seq![seq![false]]
    } else {
        leaf_paths(t)
    }
}

/// There is one path for each leaf, none longer than the tree's height.
pub proof fn lemma_leaf_paths(n: Node)
    ensures
        leaf_paths(n).len() == leaves(n).len(),
        forall|i: int| 0 <= i < leaf_paths(n).len() ==> (#[trigger] leaf_paths(n)[i]).len() <= height(n),
    decreases n,
{
    if let Node::Root { left, right } = n {
        lemma_leaf_paths(*left);
        lemma_leaf_paths(*right);
        let ml = leaf_paths(*left).map_values(|p: Seq<bool>| seq![false] + p);
        let mr = leaf_paths(*right).map_values(|p: Seq<bool>| seq![true] + p);
        assert forall|i: int| 0 <= i < leaf_paths(n).len() implies (#[trigger] leaf_paths(n)[i]).len() <= height(n) by {
            if i < ml.len() {
                assert(leaf_paths(n)[i] == ml[i]);
                assert(leaf_paths(*left)[i].len() <= height(*left));
            } else {
                assert(leaf_paths(n)[i] == mr[i - ml.len()]);
                assert(leaf_paths(*right)[i - ml.len()].len() <= height(*right));
            }
        }
    }
}

/// A subtree read by `parse` is no higher than the number of shape bits it took.
pub proof fn lemma_parse_height(bits: Seq<bool>, pos: nat, syms: Seq<u8>, k: nat)
    ensures
        match parse(bits, pos, syms, k) {
            Some((t, p, j)) => pos <= p && height(t) <= p - pos,
            None => true,
        },
    decreases bits.len() - pos,
{
    if pos < bits.len() && !bits[pos as int] {
        lemma_parse_height(bits, pos + 1, syms, k);
        if let Some((l, p1, k1)) = parse(bits, pos + 1, syms, k) {
            if pos < p1 < bits.len() && bits[p1 as int] {
                lemma_parse_height(bits, p1 + 1, syms, k1);
            }
        }
    }
}

/// Appends to `out`, left to right, each leaf of `node` with `code` followed by its
/// path below `node`.
fn collect_codes(out: &mut Vec<(Codeword, u8)>, node: &Node, code: Codeword)
    requires
        bits_of(code).len() + height(*node) <= MAX_BITS,
    ensures
        final(out)@.len() == old(out)@.len() + leaves(*node).len(),
        forall|i: int| 0 <= i < old(out)@.len() ==> #[trigger] final(out)@[i] == old(out)@[i],
        forall|i: int|
            0 <= i < leaves(*node).len() ==> (#[trigger] final(out)@[old(out)@.len() + i]).1 == leaves(
                *node,
            )[i] && bits_of(final(out)@[old(out)@.len() + i].0) == bits_of(code) + leaf_paths(
                *node,
            )[i],
    decreases node,
{
    proof {
        lemma_leaf_paths(*node);
    }
    match node {
        Node::Leaf(b) => {
            out.push((code, *b));
            proof {
                assert(bits_of(code) + leaf_paths(*node)[0] =~= bits_of(code));
            }
        },
        Node::Root { left, right } => {
            let ghost o0 = out@;
            let ghost c = bits_of(code);
            let mut left_code = clone_bits(&code);
            push_bit(&mut left_code, false);
            collect_codes(out, left, left_code);
            let ghost o1 = out@;
            let mut right_code = code;
            push_bit(&mut right_code, true);
            collect_codes(out, right, right_code);
            proof {
                let ll = leaves(**left);
                let ml = leaf_paths(**left).map_values(|p: Seq<bool>| seq![false] + p);
                let mr = leaf_paths(**right).map_values(|p: Seq<bool>| seq![true] + p);
                lemma_leaf_paths(**left);
                assert forall|i: int| 0 <= i < leaves(*node).len() implies (#[trigger] out@[o0.len()
                    + i]).1 == leaves(*node)[i] && bits_of(out@[o0.len() + i].0) == c + leaf_paths(
                    *node,
                )[i] by {
                    if i < ll.len() {
                        assert(out@[o0.len() + i] == o1[o0.len() + i]);
                        assert(leaf_paths(*node)[i] == ml[i]);
                        assert(c.push(false) + leaf_paths(**left)[i] =~= c + ml[i]);
                    } else {
                        let j = i - ll.len();
                        assert(o0.len() + i == o1.len() + j);
                        assert(leaf_paths(*node)[i] == mr[j]);
                        assert(c.push(true) + leaf_paths(**right)[j] =~= c + mr[j]);
                    }
                }
            }
        },
    }
}

/// The decode table that a leaf list and shape bits describe: for each leaf of the
/// tree they describe, left to right, its codeword and its byte.
pub fn huffman_decode_tree(characters: &Vec<u8>, tree: &Codeword) -> (r: Result<Vec<(Codeword, u8)>, HuffmanError>)
    ensures
        match parse_tree(characters@, bits_of(*tree)) {
            Some(t) => r is Ok && r->Ok_0@.len() == characters@.len() && leaves(t) == characters@
                && forall|i: int|
                0 <= i < characters@.len() ==> (#[trigger] r->Ok_0@[i]).1 == characters@[i]
                    && bits_of(r->Ok_0@[i].0) == leaf_codes(t)[i],
            None => r == Err::<Vec<(Codeword, u8)>, HuffmanError>(HuffmanError::CorruptTree),
        },
{
    let t = match decode_tree_shape(characters, tree) {
        Ok(t) => t,
        Err(e) => {
            return Err(e);
        },
    };
    let n = bits_len(tree);
    proof {
        lemma_parse_leaves(bits_of(*tree), 0, characters@, 0);
        lemma_parse_height(bits_of(*tree), 0, characters@, 0);
        assert(characters@.subrange(0, characters@.len() as int) =~= characters@);
        lemma_leaf_paths(t);
        assert(leaves(t) == characters@);
    }
    let mut out: Vec<(Codeword, u8)> = Vec::new();
    match &t {
        Node::Leaf(b) => {
            let mut code = new_bits();
            push_bit(&mut code, false);
            out.push((code, *b));
            proof {
                assert(leaves(t) =~= seq![*b]);
                assert(bits_of(out@[0].0) =~= leaf_codes(t)[0]);
                assert forall|i: int| 0 <= i < characters@.len() implies (#[trigger] out@[i]).1
                    == characters@[i] && bits_of(out@[i].0) == leaf_codes(t)[i] by {
                    assert(i == 0);
                }
            }
        },
        Node::Root { .. } => {
            collect_codes(&mut out, &t, new_bits());
            proof {
                assert forall|i: int| 0 <= i < characters@.len() implies (#[trigger] out@[i]).1
                    == characters@[i] && bits_of(out@[i].0) == leaf_codes(t)[i] by {
                    assert(out@[0 + i] == out@[i]);
                    assert(Seq::<bool>::empty() + leaf_paths(t)[i] =~= leaf_paths(t)[i]);
                }
            }
        },
    }
    Ok(out)
}

} // verus!
