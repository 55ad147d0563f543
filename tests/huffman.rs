use pi_laser_link::frame::{pad_len, validate, Threshold};
use pi_laser_link::huffman_code::{encode_with, HuffError, HuffTree, Node};

fn codes_of(tree: &HuffTree) -> Vec<(char, Vec<u32>)> {
    tree.code_map().expect("tree is built")
}

fn code_for(table: &[(char, Vec<u32>)], c: char) -> Vec<u32> {
    table.iter().find(|e| e.0 == c).expect("symbol has a code").1.clone()
}

#[test]
fn frequency_map_counts_each_symbol() {
    let tab = HuffTree::create_frequency_map(&"abbccc".to_string());
    assert_eq!(tab, vec![('a', 1), ('b', 2), ('c', 3)]);
}

#[test]
fn frequency_map_of_empty_message_is_empty() {
    let tab = HuffTree::create_frequency_map(&String::new());
    assert!(tab.is_empty());
}

#[test]
fn abbccc_merges_a_and_b_first() {
    let mut tree = HuffTree::new();
    tree.build_tree(&HuffTree::create_frequency_map(&"abbccc".to_string()));
    let table = codes_of(&tree);
    assert_eq!(table.len(), 3);
    // a and b are merged into a node of weight 3, which is then merged with c.
    assert_eq!(code_for(&table, 'c'), vec![0]);
    assert_eq!(code_for(&table, 'a'), vec![1, 0]);
    assert_eq!(code_for(&table, 'b'), vec![1, 1]);
}

#[test]
fn abbccc_round_trips() {
    let message = "abbccc".to_string();
    let mut tree = HuffTree::new();
    tree.build_tree(&HuffTree::create_frequency_map(&message));
    let bits = tree.encode_string(&message).unwrap();
    assert_eq!(bits, vec![1, 0, 1, 1, 1, 1, 0, 0, 0]);
    assert_eq!(tree.decode(bits), message);
}

#[test]
fn longer_message_round_trips() {
    let message = "the quick brown fox jumps over the lazy dog, twice: ÄÖÜ!".to_string();
    let mut tree = HuffTree::new();
    tree.build_tree(&HuffTree::create_frequency_map(&message));
    let bits = tree.encode_string(&message).unwrap();
    assert_eq!(tree.decode(bits), message);
}

#[test]
fn frequent_symbols_get_codes_no_longer_than_rare_ones() {
    let message = "aaaaaaaabbbbccd".to_string();
    let mut tree = HuffTree::new();
    tree.build_tree(&HuffTree::create_frequency_map(&message));
    let table = codes_of(&tree);
    let a = code_for(&table, 'a').len();
    let b = code_for(&table, 'b').len();
    let c = code_for(&table, 'c').len();
    let d = code_for(&table, 'd').len();
    assert!(a <= b && b <= c && c <= d);
}

#[test]
fn single_symbol_gets_one_bit_code() {
    let message = "zzzz".to_string();
    let mut tree = HuffTree::new();
    tree.build_tree(&HuffTree::create_frequency_map(&message));
    assert_eq!(codes_of(&tree), vec![('z', vec![0])]);
    let bits = tree.encode_string(&message).unwrap();
    assert_eq!(bits, vec![0, 0, 0, 0]);
    assert_eq!(tree.decode(bits), message);
}

#[test]
fn empty_tree_has_no_code_table() {
    let tree = HuffTree::new();
    assert_eq!(tree.code_map().unwrap_err(), HuffError::EmptyTree);
    assert_eq!(
        tree.encode_string(&"a".to_string()).unwrap_err(),
        HuffError::EmptyTree
    );
}

#[test]
fn empty_frequency_table_leaves_tree_empty() {
    let mut tree = HuffTree::new();
    tree.build_tree(&Vec::new());
    assert_eq!(tree.code_map().unwrap_err(), HuffError::EmptyTree);
}

#[test]
fn stale_table_reports_unknown_symbol() {
    let mut tree = HuffTree::new();
    tree.build_tree(&HuffTree::create_frequency_map(&"abc".to_string()));
    assert_eq!(
        tree.encode_string(&"abx".to_string()).unwrap_err(),
        HuffError::UnknownSymbol('x')
    );
}

#[test]
fn encode_with_looks_up_the_given_table() {
    let table = vec![('x', vec![1, 1]), ('y', vec![0])];
    assert_eq!(
        encode_with(&"xyx".to_string(), &table).unwrap(),
        vec![1, 1, 0, 1, 1]
    );
    assert_eq!(
        encode_with(&"xz".to_string(), &table).unwrap_err(),
        HuffError::UnknownSymbol('z')
    );
}

#[test]
fn decode_drops_trailing_bits() {
    let message = "abbccc".to_string();
    let mut tree = HuffTree::new();
    tree.build_tree(&HuffTree::create_frequency_map(&message));
    // "1 0" is a, "1" alone reaches no leaf.
    assert_eq!(tree.decode(vec![1, 0, 1]), "a");
}

#[test]
fn explicit_frequency_table_builds_tree() {
    let mut tree = HuffTree::new();
    tree.build_tree(&vec![('x', 5), ('y', 1), ('z', 1)]);
    let table = codes_of(&tree);
    // y and z merge into weight 2, lighter than x, so that node goes left.
    assert_eq!(code_for(&table, 'x'), vec![1]);
    assert_eq!(code_for(&table, 'y'), vec![0, 0]);
    assert_eq!(code_for(&table, 'z'), vec![0, 1]);
}

#[test]
fn encode_frames_the_message() {
    let message = "hello huffman".to_string();
    let mut tree = HuffTree::new();
    let framed = tree.encode(message.clone());
    let payload = tree.encode_string(&message).unwrap();
    assert_eq!(framed.len(), payload.len() + pad_len(payload.len()) + 32);
    assert_eq!(framed.len() % 8, 0);
    assert_eq!(&framed[..payload.len()], &payload[..]);
    let v = validate(&framed, &Threshold::standard());
    assert!(v.is_valid);
    assert!(v.fidelity.is_full());
    assert_eq!(tree.decode(payload), message);
}

#[test]
fn node_constructors() {
    let n = Node::new(7, Some('q'));
    assert_eq!(n.freq, 7);
    assert_eq!(n.char_, Some('q'));
    assert!(n.left.is_none() && n.right.is_none());
    let b = Node::new_box(Node::new(3, None));
    assert_eq!(b.freq, 3);
    assert_eq!(b.char_, None);
}

#[test]
fn encode_gives_the_same_frame_twice() {
    let message = "abracadabra".to_string();
    let mut t1 = HuffTree::new();
    let mut t2 = HuffTree::new();
    assert_eq!(t1.encode(message.clone()), t2.encode(message));
}

#[test]
fn abbccc_frame_has_nine_payload_bits() {
    let mut tree = HuffTree::new();
    let framed = tree.encode("abbccc".to_string());
    assert_eq!(framed.len(), 9 + 7 + 32);
}
