use chameleon::errors::CodecErrorKind;
use chameleon::huffman::{create_huffman_tree, Huffman, Node};

#[test]
fn huffman_node_new_is_empty() {
    let n = Node::new();
    assert!(!n.leaf);
    assert_eq!(n.value, 0);
    assert_eq!(n.frequency, 0);
    assert_eq!(n.address, 0);
    assert_eq!(n.length, 0);
    assert!(n.left.is_none());
    assert!(n.right.is_none());
    assert_eq!(Node::default(), n);
}

#[test]
fn huffman_round_trip_text() {
    let data: Vec<u8> = b"the quick brown fox jumps over the lazy dog".to_vec();
    let encoded = Huffman::encode(&data).unwrap();
    assert!(encoded.len() > 1024);
    let decoded = Huffman::decode(&encoded).unwrap();
    assert_eq!(decoded, data);
}

#[test]
fn huffman_round_trip_empty() {
    let data: Vec<u8> = Vec::new();
    let encoded = Huffman::encode(&data).unwrap();
    assert_eq!(encoded.len(), 1024);
    let decoded = Huffman::decode(&encoded).unwrap();
    assert_eq!(decoded, data);
}

#[test]
fn huffman_round_trip_all_byte_values() {
    let mut data: Vec<u8> = Vec::new();
    for i in 0..=255u8 {
        for _ in 0..(1 + (i as usize % 5)) {
            data.push(i);
        }
    }
    let encoded = Huffman::encode(&data).unwrap();
    let decoded = Huffman::decode(&encoded).unwrap();
    assert_eq!(decoded, data);
}

#[test]
fn huffman_single_symbol_gets_one_bit_code() {
    // A single nonzero frequency degenerates to a 1-bit code: forty
    // symbols pack into exactly five payload bytes.
    let data: Vec<u8> = vec![7u8; 40];
    let encoded = Huffman::encode(&data).unwrap();
    assert_eq!(encoded.len(), 1024 + 5);
    let decoded = Huffman::decode(&encoded).unwrap();
    assert_eq!(decoded, data);
}

#[test]
fn huffman_decode_short_input_fails() {
    let e = Huffman::decode(&vec![0u8; 100]).unwrap_err();
    assert_eq!(e.kind, CodecErrorKind::TruncatedStream);
}

#[test]
fn huffman_decode_truncated_payload_fails() {
    let data: Vec<u8> = b"abcabcabcabcabcabcabcabc".to_vec();
    let mut encoded = Huffman::encode(&data).unwrap();
    encoded.pop();
    let e = Huffman::decode(&encoded).unwrap_err();
    assert_eq!(e.kind, CodecErrorKind::TruncatedStream);
}

#[test]
fn huffman_tree_build_is_deterministic() {
    let mut freqs: Vec<u32> = vec![0u32; 256];
    freqs[10] = 3;
    freqs[20] = 3;
    freqs[30] = 9;
    let t1 = create_huffman_tree(&freqs);
    let t2 = create_huffman_tree(&freqs);
    assert_eq!(t1.root, t2.root);
    assert_eq!(t1.codes_ok, t2.codes_ok);
    assert_eq!(t1.nodes, t2.nodes);
    assert_eq!(t1.nodes.len(), 511);
}

#[test]
fn huffman_tree_leaves_carry_frequencies() {
    let mut freqs: Vec<u32> = vec![0u32; 256];
    freqs[65] = 42;
    let t = create_huffman_tree(&freqs);
    assert!(t.nodes[65].leaf);
    assert_eq!(t.nodes[65].value, 65);
    assert_eq!(t.nodes[65].frequency, 42);
    assert!(t.codes_ok);
}

#[test]
fn huffman_tree_branches_sum_frequencies() {
    let mut freqs: Vec<u32> = vec![0u32; 256];
    freqs[1] = 5;
    freqs[2] = 7;
    freqs[3] = 11;
    let t = create_huffman_tree(&freqs);
    // The root is the last merge; its frequency is the whole input's count.
    assert_eq!(t.root, 510);
    assert_eq!(t.nodes[510].frequency, 23);
    for j in 256..511 {
        let n = &t.nodes[j];
        assert!(!n.leaf);
        let l = n.left.unwrap();
        let r = n.right.unwrap();
        assert!(l < j && r < j);
        assert_eq!(
            n.frequency,
            t.nodes[l].frequency.saturating_add(t.nodes[r].frequency)
        );
    }
}
