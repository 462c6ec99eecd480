use image_converter::algorithms::canonical::assign_huffman_codes;
use image_converter::algorithms::huffman::{
    build_huffman_tree, canonical_code_table, canonically_encode_data,
    chars_of, count_frequencies, encode_data, get_binary_string, is_prefix, HuffmanError,
    HuffmanNode,
};

fn table_for(text: &str) -> Vec<(char, String)> {
    canonical_code_table(&text.chars().collect::<Vec<char>>()).unwrap()
}

fn code_of(table: &[(char, String)], c: char) -> String {
    table.iter().find(|e| e.0 == c).unwrap().1.clone()
}

fn decode_greedy(table: &[(char, String)], bits: &str) -> String {
    let mut out = String::new();
    let mut rest = bits;
    while !rest.is_empty() {
        let entry = table
            .iter()
            .filter(|e| rest.starts_with(e.1.as_str()))
            .max_by_key(|e| e.1.len())
            .expect("no code matches");
        out.push(entry.0);
        rest = &rest[entry.1.len()..];
    }
    out
}

const SAMPLE: &str = "the quick brown fox jumps over the lazy dog; pack my box with five dozen liquor jugs!";

#[test]
fn test_to_binary_string() {
    assert_eq!(get_binary_string(0, 1), "0");
    assert_eq!(get_binary_string(0, 4), "0000");
    assert_eq!(get_binary_string(0, 8), "00000000");
    assert_eq!(get_binary_string(0, 16), "0000000000000000");
    assert_eq!(get_binary_string(0, 32), "00000000000000000000000000000000");
    assert_eq!(get_binary_string(u32::MAX, 32), "11111111111111111111111111111111");
    assert_eq!(get_binary_string(u32::MAX, 16), "1111111111111111");
    assert_eq!(get_binary_string(u32::MAX, 8), "11111111");
    assert_eq!(get_binary_string(u32::MAX, 4), "1111");
    assert_eq!(get_binary_string(u32::MAX, 1), "1");
}

#[test]
fn test_huffman_encoding() {
    assert_eq!(canonically_encode_data("aaaa").unwrap(), "0000");
    assert_eq!(canonically_encode_data("abab").unwrap(), "0101");
    assert_eq!(canonically_encode_data("aaab").unwrap(), "0001");
    assert_eq!(canonically_encode_data("").unwrap(), "");
    assert_eq!(canonically_encode_data("aaaaaaaab").unwrap(), "000000001");
}

#[test]
fn binary_string_low_bits() {
    assert_eq!(get_binary_string(5, 3), "101");
    assert_eq!(get_binary_string(5, 0), "");
    assert_eq!(get_binary_string(6, 2), "10");
}

#[test]
fn prefix_test() {
    assert!(is_prefix(&String::from("10"), &String::from("101")));
    assert!(is_prefix(&String::from(""), &String::from("1")));
    assert!(!is_prefix(&String::from("11"), &String::from("101")));
    assert!(!is_prefix(&String::from("1011"), &String::from("101")));
}

#[test]
fn chars_of_keeps_order() {
    assert_eq!(chars_of("hé!"), vec!['h', 'é', '!']);
    assert_eq!(chars_of(""), Vec::<char>::new());
}

#[test]
fn frequencies_are_counted_and_sorted() {
    let f = count_frequencies(&"banana".chars().collect());
    assert_eq!(f, vec![('a', 3), ('b', 1), ('n', 2)]);
    assert_eq!(count_frequencies(&Vec::new()), Vec::<(char, u64)>::new());
}

#[test]
fn empty_alphabet_is_rejected() {
    assert!(matches!(build_huffman_tree(&Vec::new()), Err(HuffmanError::EmptyAlphabet)));
    assert!(matches!(canonical_code_table(&Vec::new()), Err(HuffmanError::EmptyAlphabet)));
}

#[test]
fn tree_weights_and_tie_break() {
    let tree = build_huffman_tree(&vec![('a', 1), ('b', 1), ('c', 2)]).unwrap();
    assert_eq!(tree.frequency(), 4);
    match tree {
        HuffmanNode::InternalNode { left, right, combined_frequency } => {
            assert_eq!(combined_frequency, 4);
            assert!(matches!(*left, HuffmanNode::Data { character: 'c', frequency: 2 }));
            assert_eq!(right.frequency(), 2);
        }
        HuffmanNode::Data { .. } => panic!("expected a merge point"),
    }
}

#[test]
fn node_order_prefers_lighter_then_leaves_then_symbols() {
    let a = HuffmanNode::Data { character: 'a', frequency: 2 };
    let b = HuffmanNode::Data { character: 'b', frequency: 2 };
    let light = HuffmanNode::Data { character: 'z', frequency: 1 };
    let merged = HuffmanNode::InternalNode {
        left: Box::new(HuffmanNode::Data { character: 'x', frequency: 1 }),
        right: Box::new(HuffmanNode::Data { character: 'y', frequency: 1 }),
        combined_frequency: 2,
    };
    assert_eq!(a.cmp(&b), std::cmp::Ordering::Less);
    assert_eq!(b.cmp(&a), std::cmp::Ordering::Greater);
    assert_eq!(light.cmp(&a), std::cmp::Ordering::Less);
    assert_eq!(a.cmp(&merged), std::cmp::Ordering::Less);
    assert_eq!(merged.cmp(&b), std::cmp::Ordering::Greater);
    assert_eq!(merged.cmp(&merged), std::cmp::Ordering::Equal);
}

#[test]
fn canonical_codes_of_small_tree() {
    let tree = build_huffman_tree(&vec![('a', 1), ('b', 1), ('c', 2)]).unwrap();
    let table = assign_huffman_codes(&tree).unwrap();
    assert_eq!(
        table,
        vec![('c', String::from("0")), ('a', String::from("10")), ('b', String::from("11"))]
    );
}

#[test]
fn single_symbol_gets_code_zero() {
    let table = table_for("zzz");
    assert_eq!(table, vec![('z', String::from("0"))]);
}

#[test]
fn deep_tree_is_refused() {
    let mut tree = HuffmanNode::Data { character: '\u{0}', frequency: 1 };
    for i in 1..=33u32 {
        let leaf = HuffmanNode::Data { character: char::from_u32(i).unwrap(), frequency: 1 };
        tree = HuffmanNode::InternalNode {
            left: Box::new(leaf),
            right: Box::new(tree),
            combined_frequency: 0,
        };
    }
    assert!(matches!(assign_huffman_codes(&tree), Err(HuffmanError::CodeWidthOverflow)));
}

#[test]
fn tree_of_depth_32_is_accepted() {
    let mut tree = HuffmanNode::Data { character: '\u{0}', frequency: 1 };
    for i in 1..=32u32 {
        let leaf = HuffmanNode::Data { character: char::from_u32(i).unwrap(), frequency: 1 };
        tree = HuffmanNode::InternalNode {
            left: Box::new(leaf),
            right: Box::new(tree),
            combined_frequency: 0,
        };
    }
    let table = assign_huffman_codes(&tree).unwrap();
    assert_eq!(table.len(), 33);
    assert_eq!(code_of(&table, '\u{20}'), "0");
    assert_eq!(code_of(&table, '\u{0}'), "11111111111111111111111111111110");
    assert_eq!(code_of(&table, '\u{1}'), "11111111111111111111111111111111");
    assert_eq!(code_of(&table, '\u{1f}'), "10");
}

#[test]
fn missing_symbol_is_reported() {
    let table = vec![('a', String::from("0"))];
    assert!(matches!(
        encode_data(&vec!['a', 'b'], &table),
        Err(HuffmanError::SymbolNotInTable)
    ));
    assert_eq!(encode_data(&Vec::new(), &table).unwrap(), "");
}

#[test]
fn encoding_concatenates_codes() {
    let table = vec![('a', String::from("0")), ('b', String::from("10"))];
    assert_eq!(encode_data(&vec!['b', 'a', 'b'], &table).unwrap(), "10010");
}

#[test]
fn codes_are_prefix_free() {
    let table = table_for(SAMPLE);
    for (i, (_, x)) in table.iter().enumerate() {
        assert!(!x.is_empty());
        for (j, (_, y)) in table.iter().enumerate() {
            if i != j {
                assert!(!y.starts_with(x.as_str()));
            }
        }
    }
}

#[test]
fn every_symbol_has_one_code() {
    let table = table_for(SAMPLE);
    let mut symbols: Vec<char> = SAMPLE.chars().collect();
    symbols.sort();
    symbols.dedup();
    let mut keys: Vec<char> = table.iter().map(|e| e.0).collect();
    keys.sort();
    assert_eq!(keys, symbols);
}

#[test]
fn decoding_gives_input_back() {
    let table = table_for(SAMPLE);
    let bits = canonically_encode_data(SAMPLE).unwrap();
    assert_eq!(decode_greedy(&table, &bits), SAMPLE);
}

#[test]
fn repeated_calls_agree() {
    assert_eq!(table_for(SAMPLE), table_for(SAMPLE));
    assert_eq!(
        canonically_encode_data(SAMPLE).unwrap(),
        canonically_encode_data(SAMPLE).unwrap()
    );
}

#[test]
fn codes_of_one_length_ascend_with_symbols() {
    let table = table_for(SAMPLE);
    for (c1, x) in &table {
        for (c2, y) in &table {
            if x.len() == y.len() && c1 < c2 {
                let vx = u32::from_str_radix(x, 2).unwrap();
                let vy = u32::from_str_radix(y, 2).unwrap();
                assert!(vx < vy);
            }
        }
    }
}

#[test]
fn abab_table() {
    assert_eq!(table_for("abab"), vec![('a', String::from("0")), ('b', String::from("1"))]);
}
