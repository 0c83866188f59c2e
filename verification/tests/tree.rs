use huff::binary_tree::Node;
use huff::decode::u8_to_u32;
use huff::huffman::{generate_codes, generate_tree, FrequencyTable, Tree};

fn leaf(symbol: char, count: u64) -> Tree {
    Node { value: (count, Some(symbol)), left: None, right: None }
}

fn join(left: Tree, right: Tree) -> Tree {
    Node {
        value: (left.value.0 + right.value.0, None),
        left: Some(Box::new(left)),
        right: Some(Box::new(right)),
    }
}

fn weights_add_up(tree: &Tree) -> bool {
    match (&tree.left, &tree.right) {
        (None, None) => tree.value.1.is_some(),
        (Some(left), Some(right)) => {
            tree.value.1.is_none()
                && tree.value.0 == left.value.0 + right.value.0
                && weights_add_up(left)
                && weights_add_up(right)
        }
        _ => false,
    }
}

#[test]
fn tree_of_one_symbol_is_a_leaf() {
    let mut table = FrequencyTable::new();
    table.insert('a', 3);
    let tree = generate_tree(&table);
    assert_eq!(tree, leaf('a', 3));
    let codes = generate_codes(&tree);
    assert_eq!(codes.len(), 1);
    assert_eq!(codes.get('a'), Some(&Vec::<bool>::new()));
}

#[test]
fn tree_of_two_symbols() {
    let mut table = FrequencyTable::new();
    table.insert('a', 1);
    table.insert('b', 2);
    let tree = generate_tree(&table);
    assert_eq!(tree.value, (3, None));
    assert_eq!(tree, join(leaf('a', 1), leaf('b', 2)));
    let codes = generate_codes(&tree);
    assert_eq!(codes.len(), 2);
    assert_eq!(codes.get('a'), Some(&vec![false]));
    assert_eq!(codes.get('b'), Some(&vec![true]));
}

#[test]
fn equal_counts_are_taken_in_symbol_order() {
    let mut table = FrequencyTable::new();
    table.insert('d', 1);
    table.insert('c', 1);
    table.insert('b', 1);
    table.insert('a', 1);
    let tree = generate_tree(&table);
    // a and b are joined first, then c and d; the first pair was queued first
    assert_eq!(
        tree,
        join(join(leaf('a', 1), leaf('b', 1)), join(leaf('c', 1), leaf('d', 1)))
    );
}

#[test]
fn new_trees_are_queued_behind_trees_of_equal_weight() {
    let mut table = FrequencyTable::new();
    table.insert('a', 1);
    table.insert('b', 1);
    table.insert('c', 2);
    table.insert('d', 2);
    let tree = generate_tree(&table);
    // ab weighs 2 and is queued behind c and d, so c and d are joined next
    assert_eq!(
        tree,
        join(join(leaf('a', 1), leaf('b', 1)), join(leaf('c', 2), leaf('d', 2)))
    );
    let mut table = FrequencyTable::new();
    table.insert('a', 1);
    table.insert('b', 1);
    table.insert('c', 2);
    let tree = generate_tree(&table);
    assert_eq!(tree, join(leaf('c', 2), join(leaf('a', 1), leaf('b', 1))));
}

#[test]
fn tree_of_a_skewed_table() {
    let mut table = FrequencyTable::new();
    table.insert('a', 45);
    table.insert('b', 13);
    table.insert('c', 12);
    table.insert('d', 16);
    table.insert('e', 9);
    table.insert('f', 5);
    let tree = generate_tree(&table);
    assert_eq!(tree.value, (100, None));
    assert!(weights_add_up(&tree));
    let codes = generate_codes(&tree);
    assert_eq!(codes.get('a'), Some(&vec![false]));
    assert_eq!(codes.get('c'), Some(&vec![true, false, false]));
    assert_eq!(codes.get('b'), Some(&vec![true, false, true]));
    assert_eq!(codes.get('f'), Some(&vec![true, true, false, false]));
    assert_eq!(codes.get('e'), Some(&vec![true, true, false, true]));
    assert_eq!(codes.get('d'), Some(&vec![true, true, true]));
}

#[test]
fn same_table_gives_the_same_tree() {
    let pairs = [
        ('t', 188), ('r', 110), ('g', 30), ('c', 94), ('p', 43), (',', 40), ('Q', 1),
        ('i', 230), ('d', 59), ('S', 3), ('L', 3), ('u', 185), ('o', 90), ('q', 29),
        ('b', 24), ('F', 2), ('x', 3), ('e', 262), ('a', 177), ('N', 7), ('V', 4),
        ('n', 146), ('I', 4), (' ', 385), ('C', 3), ('v', 27), ('.', 54), ('m', 104),
        ('U', 1), ('h', 11), ('E', 3), ('P', 8), ('s', 181), ('M', 8), ('\n', 8),
        ('D', 5), ('A', 2), ('f', 18), ('j', 1), ('l', 122),
    ];
    let mut map1 = FrequencyTable::new();
    for (symbol, count) in pairs {
        map1.insert(symbol, count);
    }
    let mut map2 = FrequencyTable::new();
    for (symbol, count) in pairs.iter().rev() {
        map2.insert(*symbol, *count);
    }
    assert_eq!(map1, map2);

    let graph1 = generate_tree(&map1);
    let graph2 = generate_tree(&map2);
    assert_eq!(graph1, graph2);
    assert!(weights_add_up(&graph1));
    assert_eq!(graph1.value.0, pairs.iter().map(|pair| pair.1 as u64).sum::<u64>());

    let character_codes1 = generate_codes(&graph1);
    let character_codes2 = generate_codes(&graph2);
    assert_eq!(character_codes1, character_codes2);
    assert_eq!(character_codes1.len(), pairs.len());
}

#[test]
fn no_code_begins_another() {
    let table = huff::encode::char_occurences_in_string(
        "a text of some length, with symbols of quite different counts",
    )
    .unwrap();
    let codes = generate_codes(&generate_tree(&table));
    for i in 0..codes.len() {
        for j in 0..codes.len() {
            if i != j {
                assert!(!codes.value_at(j).starts_with(codes.value_at(i)));
            }
        }
    }
}

#[test]
fn weights_of_large_counts_do_not_overflow() {
    let mut table = FrequencyTable::new();
    table.insert('a', u32::MAX);
    table.insert('b', u32::MAX);
    table.insert('c', u32::MAX);
    let tree = generate_tree(&table);
    assert_eq!(tree.value.0, 3 * (u32::MAX as u64));
    assert!(weights_add_up(&tree));
}

#[test]
fn four_bytes_to_a_number() {
    assert_eq!(u8_to_u32(&[0, 0, 0, 0]), 0);
    assert_eq!(u8_to_u32(&[0, 0, 0, 3]), 3);
    assert_eq!(u8_to_u32(&[0x12, 0x34, 0x56, 0x78]), 0x1234_5678);
    assert_eq!(u8_to_u32(&[0xFF, 0xFF, 0xFF, 0xFF]), u32::MAX);
}

fn leaves(tree: &Tree, found: &mut Vec<(char, u64)>) {
    if let Some(left) = &tree.left {
        leaves(left, found);
    }
    if let Some(right) = &tree.right {
        leaves(right, found);
    }
    if let Some(symbol) = tree.value.1 {
        found.push((symbol, tree.value.0));
    }
}

#[test]
fn leaves_weigh_what_the_table_counts() {
    let table = huff::encode::char_occurences_in_string("mississippi river").unwrap();
    let tree = generate_tree(&table);
    assert!(weights_add_up(&tree));
    assert_eq!(tree.value.0, 17);
    let mut found = Vec::new();
    leaves(&tree, &mut found);
    assert_eq!(found.len(), table.len());
    for (symbol, weight) in found {
        assert_eq!(table.get(symbol), Some(&(weight as u32)));
    }
}

#[test]
fn symbol_on_two_leaves_gets_the_code_of_the_later_leaf() {
    let tree = join(leaf('a', 1), leaf('a', 1));
    let codes = generate_codes(&tree);
    assert_eq!(codes.len(), 1);
    assert_eq!(codes.get('a'), Some(&vec![true]));

    let tree = join(join(leaf('a', 1), leaf('b', 1)), leaf('a', 2));
    let codes = generate_codes(&tree);
    assert_eq!(codes.len(), 2);
    assert_eq!(codes.get('a'), Some(&vec![true]));
    assert_eq!(codes.get('b'), Some(&vec![false, true]));

    let tree = join(leaf('a', 2), join(leaf('a', 1), leaf('b', 1)));
    let codes = generate_codes(&tree);
    assert_eq!(codes.get('a'), Some(&vec![true, false]));
    assert_eq!(codes.get('b'), Some(&vec![true, true]));

    let tree = join(join(leaf('b', 1), leaf('a', 1)), leaf('c', 2));
    let codes = generate_codes(&tree);
    assert_eq!(codes.get('a'), Some(&vec![false, true]));
    assert_eq!(codes.get('b'), Some(&vec![false, false]));
    assert_eq!(codes.get('c'), Some(&vec![true]));
}

#[test]
fn more_frequent_symbols_have_no_longer_codes() {
    let table = huff::encode::char_occurences_in_string(
        "it was the best of times, it was the worst of times, it was the age of wisdom",
    )
    .unwrap();
    let codes = generate_codes(&generate_tree(&table));
    assert_eq!(codes.len(), table.len());
    for i in 0..table.len() {
        for j in 0..table.len() {
            if table.value_at(i) > table.value_at(j) {
                let more = codes.get(table.key_at(i)).unwrap();
                let less = codes.get(table.key_at(j)).unwrap();
                assert!(more.len() <= less.len());
            }
        }
    }
}
