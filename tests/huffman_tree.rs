use tiracompress::{collect_nodes, join_nodes, HuffmanCode, HuffmanTreeNode};

#[test]
fn test_collect_nodes() {
    let bytes = [11, 11, 11, 11, 3, 3];
    let nodes = collect_nodes(&bytes);
    assert_eq!(nodes.len(), 2);
    assert_eq!(nodes.iter().find(|n| n.value == 11).unwrap().freq, 4);
    assert_eq!(nodes.iter().find(|n| n.value == 3).unwrap().freq, 2);

    let bytes = [11, 33, 11, 22, 3, 4, 5, 0, 0, 0];
    let nodes = collect_nodes(&bytes);
    assert_eq!(nodes.len(), 7);
    assert_eq!(nodes.iter().find(|n| n.value == 11).unwrap().freq, 2);
    assert_eq!(nodes.iter().find(|n| n.value == 33).unwrap().freq, 1);
    assert_eq!(nodes.iter().find(|n| n.value == 22).unwrap().freq, 1);
    assert_eq!(nodes.iter().find(|n| n.value == 3).unwrap().freq, 1);
    assert_eq!(nodes.iter().find(|n| n.value == 4).unwrap().freq, 1);
    assert_eq!(nodes.iter().find(|n| n.value == 5).unwrap().freq, 1);
    assert_eq!(nodes.iter().find(|n| n.value == 0).unwrap().freq, 3);
}

#[test]
fn test_collect_nodes_2() {
    let bytes = b"What a nice day to write unit tests.";
    let nodes = collect_nodes(bytes);
    assert_eq!(nodes.len(), 17);
    assert_eq!(nodes.iter().find(|n| n.value == b' ').unwrap().freq, 7);
    assert_eq!(nodes.iter().find(|n| n.value == b't').unwrap().freq, 6);
    assert_eq!(nodes.iter().find(|n| n.value == b'a').unwrap().freq, 3);
    assert_eq!(nodes.iter().find(|n| n.value == b'i').unwrap().freq, 3);
    assert_eq!(nodes.iter().find(|n| n.value == b'e').unwrap().freq, 3);
    assert_eq!(nodes.iter().find(|n| n.value == b'n').unwrap().freq, 2);
    assert_eq!(nodes.iter().find(|n| n.value == b's').unwrap().freq, 2);
    assert_eq!(nodes.iter().find(|n| n.value == b'h').unwrap().freq, 1);
    assert_eq!(nodes.iter().find(|n| n.value == b'c').unwrap().freq, 1);
    assert_eq!(nodes.iter().find(|n| n.value == b'd').unwrap().freq, 1);
    assert_eq!(nodes.iter().find(|n| n.value == b'y').unwrap().freq, 1);
    assert_eq!(nodes.iter().find(|n| n.value == b'o').unwrap().freq, 1);
    assert_eq!(nodes.iter().find(|n| n.value == b'r').unwrap().freq, 1);
    assert_eq!(nodes.iter().find(|n| n.value == b'u').unwrap().freq, 1);
    assert_eq!(nodes.iter().find(|n| n.value == b'w').unwrap().freq, 1);
    assert_eq!(nodes.iter().find(|n| n.value == b'W').unwrap().freq, 1);
    assert_eq!(nodes.iter().find(|n| n.value == b'.').unwrap().freq, 1);
}

#[test]
fn test_build_tree_pieces() {
    let a = HuffmanTreeNode::with_freq(1, 5);
    let b = HuffmanTreeNode::with_freq(2, 5);
    let c = HuffmanTreeNode::with_freq(3, 2);
    let d = HuffmanTreeNode::with_freq(4, 2);
    let e = HuffmanTreeNode::with_freq(5, 2);

    let mut nodes = vec![a, b, c, d, e];

    join_nodes(&mut nodes);
    assert_eq!(nodes.len(), 4);
    let merged = nodes.iter().find(|n| n.value == 0).unwrap();
    assert_eq!(merged.freq, 4);
    assert_eq!(merged.left.as_ref().unwrap().freq, 2);
    assert_eq!(merged.right.as_ref().unwrap().freq, 2);
    assert_eq!(nodes.iter().find(|n| n.value == 1).unwrap().freq, 5);
    assert_eq!(nodes.iter().find(|n| n.value == 2).unwrap().freq, 5);

    join_nodes(&mut nodes);
    assert_eq!(nodes.len(), 3);
    let merged = nodes.iter().find(|n| n.value == 0).unwrap();
    assert_eq!(merged.freq, 6);
    assert_eq!(merged.left.as_ref().unwrap().freq, 4); // should left be higher?
    assert_eq!(merged.right.as_ref().unwrap().freq, 2);
    assert_eq!(nodes.iter().find(|n| n.value == 1).unwrap().freq, 5);
    assert_eq!(nodes.iter().find(|n| n.value == 2).unwrap().freq, 5);
}

#[test]
fn collect_nodes_sorted_by_value() {
    let nodes = collect_nodes(&[11, 11, 11, 11, 3, 3]);
    let values: Vec<u8> = nodes.iter().map(|n| n.value).collect();
    assert_eq!(values, vec![3, 11]);
    assert!(nodes.iter().all(|n| n.is_leaf()));
    assert!(collect_nodes(&[]).is_empty());
}

#[test]
fn join_breaks_ties_by_value() {
    let mut nodes = vec![
        HuffmanTreeNode::with_freq(9, 1),
        HuffmanTreeNode::with_freq(4, 1),
        HuffmanTreeNode::with_freq(6, 1),
    ];
    join_nodes(&mut nodes);
    assert_eq!(nodes.len(), 2);
    assert_eq!(nodes[0].value, 9);
    let merged = &nodes[1];
    assert!(!merged.is_leaf());
    assert_eq!(merged.right.as_ref().unwrap().value, 4);
    assert_eq!(merged.left.as_ref().unwrap().value, 6);
}

#[test]
fn build_tree_empty_and_single() {
    assert!(HuffmanTreeNode::build_tree(&[]).is_none());
    let t = HuffmanTreeNode::build_tree(&[7, 7, 7]).unwrap();
    assert!(t.is_leaf());
    assert_eq!(t.value, 7);
    assert_eq!(t.freq, 3);
}

#[test]
fn tie_break_codes_are_fixed() {
    for _ in 0..3 {
        let t = HuffmanTreeNode::build_tree(&[1, 2, 3, 4]).unwrap();
        assert_eq!(t.freq, 4);
        let table = t.into_codes().unwrap();
        assert_eq!(table.get(1), Some(HuffmanCode::new(2, 0b_00)));
        assert_eq!(table.get(2), Some(HuffmanCode::new(2, 0b_01)));
        assert_eq!(table.get(3), Some(HuffmanCode::new(2, 0b_10)));
        assert_eq!(table.get(4), Some(HuffmanCode::new(2, 0b_11)));
        assert_eq!(table.get(5), None);
        assert_eq!(table.num_entries(), 4);
    }
}

#[test]
fn single_symbol_gets_one_bit_code() {
    let t = HuffmanTreeNode::build_tree(&[7, 7, 7]).unwrap();
    let table = t.into_codes().unwrap();
    assert_eq!(table.num_entries(), 1);
    assert_eq!(table.get(7), Some(HuffmanCode::new(1, 0)));
}

#[test]
fn into_codes_is_prefix_free() {
    let t = HuffmanTreeNode::build_tree(b"What a nice day to write unit tests.").unwrap();
    let table = t.into_codes().unwrap();
    assert_eq!(table.num_entries(), 17);
    let codes: Vec<String> = (0..=255u8)
        .filter_map(|b| table.get(b))
        .map(|c| c.to_string())
        .collect();
    for (i, a) in codes.iter().enumerate() {
        for (j, b) in codes.iter().enumerate() {
            if i != j {
                assert!(!b.starts_with(a.as_str()), "{} prefixes {}", a, b);
            }
        }
    }
    // The most frequent byte gets a code no longer than the rarest.
    assert!(table.get(b' ').unwrap().len() <= table.get(b'W').unwrap().len());
}

#[test]
fn deep_tree_is_refused() {
    // Fibonacci frequencies give a tree of maximal depth.
    let mut a: u32 = 1;
    let mut b: u32 = 1;
    let mut nodes = Vec::new();
    for v in 0..40u8 {
        nodes.push(HuffmanTreeNode::with_freq(v, a));
        let c = a + b;
        a = b;
        b = c;
    }
    while nodes.len() > 1 {
        join_nodes(&mut nodes);
    }
    let root = nodes.pop().unwrap();
    assert!(root.into_codes().is_none());
}
