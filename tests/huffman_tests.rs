use std::cmp::Reverse;
use std::collections::{BinaryHeap, HashMap, HashSet};

use huffman::bits::{bit_at, bits_len, new_bits, push_bit};
use huffman::codec::{huffman_decode_tree, huffman_encode_text, huffman_encode_tree};
use huffman::table::huffman_table;
use huffman::tree::{frequency, huffman_tree};
use huffman::Node::{Leaf, Root};
use huffman::{huffman_decode, huffman_encode, Codeword, FileData, HuffmanError, Node};

fn bits(c: &Codeword) -> Vec<bool> {
    (0..bits_len(c)).map(|i| bit_at(c, i)).collect()
}

fn count_edges(node: &Node) -> usize {
    match node {
        Root { left, right } => 2 + count_edges(left) + count_edges(right),
        Leaf(_) => 0,
    }
}

fn round_trip(text: &[u8]) -> Vec<u8> {
    let encoded = huffman_encode(text).unwrap();
    huffman_decode(&encoded).unwrap()
}

#[test]
fn test_frequency() {
    let s = "this is an example of a huffman tree";
    let mut result: BinaryHeap<(Reverse<usize>, Node)> = frequency(s.as_bytes())
        .into_iter()
        .map(|(count, node)| (Reverse(count), node))
        .collect();
    let mut expected = BinaryHeap::from([
        (Reverse(7), Leaf(b' ')),
        (Reverse(4), Leaf(b'a')),
        (Reverse(4), Leaf(b'e')),
        (Reverse(3), Leaf(b'f')),
        (Reverse(2), Leaf(b'h')),
        (Reverse(2), Leaf(b'i')),
        (Reverse(2), Leaf(b'm')),
        (Reverse(2), Leaf(b'n')),
        (Reverse(2), Leaf(b's')),
        (Reverse(2), Leaf(b't')),
        (Reverse(1), Leaf(b'l')),
        (Reverse(1), Leaf(b'o')),
        (Reverse(1), Leaf(b'p')),
        (Reverse(1), Leaf(b'r')),
        (Reverse(1), Leaf(b'u')),
        (Reverse(1), Leaf(b'x')),
    ]);

    loop {
        match (result.pop(), expected.pop()) {
            (Some(a), Some(b)) => assert_eq!(a, b),
            (None, None) => break,
            _ => assert!(false),
        }
    }
}

#[test]
fn test_huffman_tree_short() {
    let text = "acab";
    let tree = huffman_tree(text.as_bytes()).unwrap();
    let correct = Root {
        left: Box::new(Leaf(b'a')),
        right: Box::new(Root { left: Box::new(Leaf(b'c')), right: Box::new(Leaf(b'b')) }),
    };

    assert_eq!(tree, correct);
}

#[test]
fn test_huffman_tree_long() {
    let text = "abcd";
    let tree = huffman_tree(text.as_bytes()).unwrap();
    let correct = Root {
        left: Box::new(Root { left: Box::new(Leaf(b'd')), right: Box::new(Leaf(b'c')) }),
        right: Box::new(Root { left: Box::new(Leaf(b'b')), right: Box::new(Leaf(b'a')) }),
    };

    assert_eq!(tree, correct);
}

#[test]
fn test_huffman_table() {
    let text = "this is an example of a huffman tree";
    let frequencies: HashMap<u8, usize> = frequency(text.as_bytes())
        .into_iter()
        .filter_map(|(count, character)| match character {
            Leaf(ch) => Some((ch, count)),
            _ => None,
        })
        .collect();

    // to sorted vec of (length_of_code, count_of_char)
    let mut table: Vec<(usize, usize)> = huffman_table(&huffman_tree(text.as_bytes()).unwrap())
        .into_iter()
        .map(|(character, code)| (bits_len(&code), *frequencies.get(&character).unwrap()))
        .collect();
    table.sort();

    // check that as count decreases, code length increases
    let mut last_code_len = 0;
    for (code_len, _) in table {
        assert!(last_code_len <= code_len);
        last_code_len = code_len;
    }
}

#[test]
fn test_huffman_encode_tree() {
    let text = "this is an example of a huffman tree";
    let textmap: HashSet<u8> = text.bytes().collect();
    let tree = huffman_tree(text.as_bytes()).unwrap();
    let (characters, tree_encoding) = huffman_encode_tree(&tree);

    let acc = count_edges(&tree);

    assert_eq!(characters.len(), textmap.len());
    assert_eq!(bits_len(&tree_encoding), acc)
}

#[test]
fn test_huffman_decode_tree() {
    let text = "this is a test string for encode and decode";
    let encoded: FileData = huffman_encode(text.as_bytes()).unwrap();
    let tree = huffman_tree(text.as_bytes()).unwrap();
    let table: HashMap<Codeword, u8> =
        huffman_table(&tree).into_iter().map(|(v, k)| (k, v)).collect();

    let decoded_table: HashMap<Codeword, u8> =
        huffman_decode_tree(&encoded.characters, &encoded.tree).unwrap().into_iter().collect();

    assert_eq!(table, decoded_table);
}

#[test]
fn test_huffman_decode() {
    let text = "this is a test string for encode and decode";
    let encoded: FileData = huffman_encode(text.as_bytes()).unwrap();
    let decoded = String::from_utf8(huffman_decode(&encoded).unwrap()).unwrap();

    assert_eq!(text, decoded);
}

#[test]
fn round_trip_texts() {
    for text in [
        &b"this is an example of a huffman tree"[..],
        b"ab",
        b"x",
        b"abracadabra",
        b"\x00\xff\x00\x80\x7f",
    ] {
        assert_eq!(round_trip(text), text.to_vec());
    }
}

#[test]
fn round_trip_every_byte() {
    let text: Vec<u8> = (0..=255u8).chain((0..=255u8).rev()).chain(0..10u8).collect();
    let encoded = huffman_encode(&text).unwrap();
    assert_eq!(encoded.characters.len(), 256);
    assert_eq!(bits_len(&encoded.tree), 2 * 255);
    assert_eq!(huffman_decode(&encoded).unwrap(), text);
}

#[test]
fn degenerate_alphabet() {
    let encoded = huffman_encode(b"aaaa").unwrap();
    assert_eq!(encoded.characters, vec![b'a']);
    assert_eq!(bits_len(&encoded.tree), 0);
    assert_eq!(bits(&encoded.text), vec![false; 4]);
    assert_eq!(huffman_decode(&encoded).unwrap(), b"aaaa".to_vec());
}

#[test]
fn equal_frequencies_give_equal_lengths() {
    let table = huffman_table(&huffman_tree(b"abcd").unwrap());
    assert_eq!(table.len(), 4);
    for (_, code) in &table {
        assert_eq!(bits_len(code), 2);
    }
    assert_eq!(round_trip(b"abcd"), b"abcd".to_vec());
}

#[test]
fn two_symbols_exact_encoding() {
    // `b` (count 1) is taken first and goes left.
    let tree = huffman_tree(b"aaab").unwrap();
    assert_eq!(tree, Root { left: Box::new(Leaf(b'b')), right: Box::new(Leaf(b'a')) });
    let encoded = huffman_encode(b"aaab").unwrap();
    assert_eq!(encoded.characters, vec![b'b', b'a']);
    assert_eq!(bits(&encoded.tree), vec![false, true]);
    assert_eq!(bits(&encoded.text), vec![true, true, true, false]);
    let table = huffman_table(&tree);
    let len_a = table.iter().find(|e| e.0 == b'a').map(|e| bits_len(&e.1)).unwrap();
    let len_b = table.iter().find(|e| e.0 == b'b').map(|e| bits_len(&e.1)).unwrap();
    assert!(len_a <= len_b);
    assert_eq!(round_trip(b"aaab"), b"aaab".to_vec());
}

#[test]
fn exact_codes_for_short_text() {
    // "acab": a -> 0, c -> 10, b -> 11
    let encoded = huffman_encode(b"acab").unwrap();
    assert_eq!(encoded.characters, vec![b'a', b'c', b'b']);
    assert_eq!(bits(&encoded.tree), vec![false, true, false, true]);
    assert_eq!(bits(&encoded.text), vec![false, true, false, false, true, true]);
}

#[test]
fn empty_input_is_refused() {
    assert_eq!(huffman_encode(b"").err(), Some(HuffmanError::EmptyInput));
    assert_eq!(huffman_tree(b"").err(), Some(HuffmanError::EmptyInput));
    assert!(frequency(b"").is_empty());
}

#[test]
fn shape_bits_and_leaf_count() {
    let text = b"this is an example of a huffman tree";
    let distinct: HashSet<u8> = text.iter().copied().collect();
    let encoded = huffman_encode(text).unwrap();
    assert_eq!(encoded.characters.len(), distinct.len());
    assert_eq!(bits_len(&encoded.tree), 2 * (distinct.len() - 1));
}

#[test]
fn table_is_prefix_free() {
    let table = huffman_table(&huffman_tree(b"this is an example of a huffman tree").unwrap());
    let codes: Vec<Vec<bool>> = table.iter().map(|(_, c)| bits(c)).collect();
    for (i, a) in codes.iter().enumerate() {
        for (j, b) in codes.iter().enumerate() {
            if i != j {
                assert!(!(a.len() <= b.len() && b[..a.len()] == a[..]));
            }
        }
    }
}

#[test]
fn more_frequent_bytes_get_no_longer_codes() {
    let text = b"this is an example of a huffman tree";
    let counts: HashMap<u8, usize> = frequency(text)
        .into_iter()
        .filter_map(|(count, node)| match node {
            Leaf(ch) => Some((ch, count)),
            _ => None,
        })
        .collect();
    let table = huffman_table(&huffman_tree(text).unwrap());
    for (a, ca) in &table {
        for (b, cb) in &table {
            if counts[a] > counts[b] {
                assert!(bits_len(ca) <= bits_len(cb));
            }
        }
    }
}

#[test]
fn corrupt_tree_is_refused() {
    let encoded = huffman_encode(b"abracadabra").unwrap();
    let mut fewer = encoded.characters.clone();
    fewer.pop();
    assert_eq!(
        huffman_decode(&FileData { characters: fewer, tree: encoded.tree, text: encoded.text })
            .err(),
        Some(HuffmanError::CorruptTree)
    );
    let mut shape = new_bits();
    push_bit(&mut shape, false);
    let mut payload = new_bits();
    push_bit(&mut payload, false);
    assert_eq!(
        huffman_decode(&FileData { characters: vec![b'a', b'b'], tree: shape, text: payload })
            .err(),
        Some(HuffmanError::CorruptTree)
    );
    let mut short = new_bits();
    push_bit(&mut short, false);
    push_bit(&mut short, true);
    push_bit(&mut short, true);
    assert_eq!(
        huffman_decode_tree(&vec![b'a', b'b'], &short).err(),
        Some(HuffmanError::CorruptTree)
    );
}

#[test]
fn truncated_stream_is_refused() {
    let encoded = huffman_encode(b"acab").unwrap();
    let all = bits(&encoded.text);
    let mut cut = new_bits();
    for b in &all[..all.len() - 1] {
        push_bit(&mut cut, *b);
    }
    let data = FileData { characters: encoded.characters, tree: encoded.tree, text: cut };
    assert_eq!(huffman_decode(&data).err(), Some(HuffmanError::TruncatedStream));

    let mut one = new_bits();
    push_bit(&mut one, true);
    let degenerate = FileData { characters: vec![b'z'], tree: new_bits(), text: one };
    assert_eq!(huffman_decode(&degenerate).err(), Some(HuffmanError::TruncatedStream));
}

#[test]
fn unknown_symbol_is_refused() {
    let table = huffman_table(&huffman_tree(b"ab").unwrap());
    assert_eq!(huffman_encode_text(b"abz", &table).err(), Some(HuffmanError::UnknownSymbol));
    let payload = huffman_encode_text(b"ba", &table).unwrap();
    assert_eq!(bits(&payload), vec![false, true]);
}

#[test]
fn repeated_leaf_byte_is_accepted() {
    let mut shape = new_bits();
    push_bit(&mut shape, false);
    push_bit(&mut shape, true);
    let table = huffman_decode_tree(&vec![b'a', b'a'], &shape).unwrap();
    assert_eq!(table.len(), 2);
    assert_eq!(table[0].1, b'a');
    assert_eq!(bits(&table[0].0), vec![false]);
    assert_eq!(table[1].1, b'a');
    assert_eq!(bits(&table[1].0), vec![true]);

    let mut payload = new_bits();
    push_bit(&mut payload, true);
    push_bit(&mut payload, false);
    let data = FileData { characters: vec![b'a', b'a'], tree: shape, text: payload };
    assert_eq!(huffman_decode(&data).unwrap(), b"aa".to_vec());
}

#[test]
fn decode_table_follows_leaf_order() {
    let encoded = huffman_encode(b"acab").unwrap();
    let table = huffman_decode_tree(&encoded.characters, &encoded.tree).unwrap();
    let entries: Vec<(Vec<bool>, u8)> = table.iter().map(|(c, b)| (bits(c), *b)).collect();
    assert_eq!(
        entries,
        vec![(vec![false], b'a'), (vec![true, false], b'c'), (vec![true, true], b'b')]
    );
}
