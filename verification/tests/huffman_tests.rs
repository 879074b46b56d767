use huffman::{
    build_huffman_tree, compress, container_bytes, count_frequencies, generate_codes, to_bytes,
    HuffmanNode,
};

#[test]
fn empty_input_yields_failure() {
    assert!(compress("").is_none());
}

#[test]
fn single_symbol_zero_length_code() {
    let (bits, codes) = compress("aaaa").expect("non-empty input must compress");
    assert_eq!(bits, Vec::<bool>::new());
    assert_eq!(codes, vec![('a', Vec::<bool>::new())]);
    assert_eq!(to_bytes(&bits), Vec::<u8>::new());
}

#[test]
fn frequencies_abracadabra() {
    let chars: Vec<char> = "abracadabra".chars().collect();
    let table = count_frequencies(&chars);
    assert_eq!(table, vec![('a', 5), ('b', 2), ('r', 2), ('c', 1), ('d', 1)]);
}

#[test]
fn abracadabra_codes_are_prefix_free() {
    let (_bits, codes) = compress("abracadabra").expect("non-empty input must compress");
    for (i, (_, ci)) in codes.iter().enumerate() {
        for (j, (_, cj)) in codes.iter().enumerate() {
            if i != j {
                let is_prefix = ci.len() <= cj.len() && ci[..] == cj[..ci.len()];
                assert!(!is_prefix, "code {:?} is a prefix of {:?}", ci, cj);
            }
        }
    }
}

#[test]
fn abracadabra_bit_length_identity() {
    let input = "abracadabra";
    let (bits, codes) = compress(input).expect("non-empty input must compress");
    let mut weighted: usize = 0;
    for (sym, code) in &codes {
        let freq = input.chars().filter(|c| c == sym).count();
        weighted += freq * code.len();
    }
    assert_eq!(weighted, bits.len());
}

#[test]
fn compressing_twice_gives_identical_payload() {
    let (bits1, _) = compress("mississippi river").expect("non-empty input must compress");
    let (bits2, _) = compress("mississippi river").expect("non-empty input must compress");
    assert_eq!(bits1, bits2);
    assert_eq!(to_bytes(&bits1), to_bytes(&bits2));
}

#[test]
fn to_bytes_packs_msb_first_and_pads_low_bits() {
    let bits = vec![true, false, true, false, true, false, true, false, true, true];
    assert_eq!(to_bytes(&bits), vec![0xAA, 0xC0]);
}

#[test]
fn to_bytes_exact_byte_boundary() {
    let bits = vec![false, false, false, false, false, false, false, true];
    assert_eq!(to_bytes(&bits), vec![0x01]);
}

#[test]
fn to_bytes_empty_is_empty() {
    assert_eq!(to_bytes(&Vec::new()), Vec::<u8>::new());
}

#[test]
fn tree_builder_breaks_ties_by_insertion_order() {
    let table = vec![('a', 1usize), ('b', 1usize), ('c', 2usize)];
    let tree = build_huffman_tree(&table).expect("non-empty table must build");
    let expected = HuffmanNode::Internal(
        Box::new(HuffmanNode::Leaf('c', 2)),
        Box::new(HuffmanNode::Internal(
            Box::new(HuffmanNode::Leaf('a', 1)),
            Box::new(HuffmanNode::Leaf('b', 1)),
        )),
    );
    assert_eq!(tree, expected);
}

#[test]
fn empty_table_builds_no_tree() {
    assert!(build_huffman_tree(&Vec::new()).is_none());
}

#[test]
fn generated_codes_follow_depth_first_order() {
    let table = vec![('a', 1usize), ('b', 1usize), ('c', 2usize)];
    let tree = build_huffman_tree(&table).expect("non-empty table must build");
    let mut codes: Vec<(char, Vec<bool>)> = Vec::new();
    generate_codes(&tree, Vec::new(), &mut codes);
    assert_eq!(
        codes,
        vec![
            ('c', vec![false]),
            ('a', vec![true, false]),
            ('b', vec![true, true]),
        ]
    );
}

#[test]
fn frequency_sums_leaf_weights() {
    let tree = HuffmanNode::Internal(
        Box::new(HuffmanNode::Leaf('x', 2)),
        Box::new(HuffmanNode::Leaf('y', 3)),
    );
    assert_eq!(tree.frequency(), 5);
}

#[test]
fn two_symbol_payload() {
    let (bits, codes) = compress("ab").expect("non-empty input must compress");
    assert_eq!(codes, vec![('a', vec![false]), ('b', vec![true])]);
    assert_eq!(bits, vec![false, true]);
    assert_eq!(to_bytes(&bits), vec![0x40]);
}

#[test]
fn container_holds_records_then_payload() {
    let codes = vec![('a', vec![true])];
    let payload = vec![0x80u8];
    let out = container_bytes(&codes, &payload);
    assert_eq!(out, vec![0x61, 0x01, 0x80, 0x80]);
}

#[test]
fn container_of_empty_table_is_payload() {
    let out = container_bytes(&Vec::new(), &vec![0xAB, 0xCD]);
    assert_eq!(out, vec![0xAB, 0xCD]);
}

#[test]
fn container_reduces_symbol_to_low_byte() {
    let codes = vec![('\u{00E9}', vec![true])];
    let out = container_bytes(&codes, &Vec::new());
    assert_eq!(out, vec![0xE9, 0x01, 0x80]);
}

#[test]
fn container_truncates_wide_symbol() {
    let codes = vec![('\u{20AC}', vec![false, true])];
    let out = container_bytes(&codes, &Vec::new());
    assert_eq!(out, vec![0xAC, 0x02, 0x40]);
}

#[test]
fn unicode_input_compresses() {
    let (bits, codes) = compress("\u{00E9}\u{00E9}a").expect("non-empty input must compress");
    assert_eq!(codes, vec![('a', vec![false]), ('\u{00E9}', vec![true])]);
    assert_eq!(bits, vec![true, true, false]);
    assert_eq!(to_bytes(&bits), vec![0xC0]);
}
