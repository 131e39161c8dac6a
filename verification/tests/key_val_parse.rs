use ccl_rs::key_val::KeyVal;
use ccl_rs::key_val::KeyValNode;

#[test]
fn test_key_val_parse_4() {
    let input = "key \n= val\n";
    let key_vals = KeyVal::parse(input).unwrap();
    assert_eq!(key_vals, vec![KeyVal { key: "key".to_string(), value: "val".to_string() }]);
}

#[test]
fn test_key_val_parse() {
    let data = "\na = b\nb =\n  c = d\n  d =\n    e = f\n    f = g\n  g = h\nh = i\ni = j\nj = k\n  k = l\n";
    let key_vals = KeyVal::parse(data).unwrap();
    let pretty_str = KeyVal::pretty(&key_vals);
    assert_eq!(
        pretty_str,
        "a = \"b\"\nb = \"\\n  c = d\\n  d =\\n    e = f\\n    f = g\\n  g = h\"\nh = \"i\"\ni = \"j\"\nj = \"k\\n  k = l\""
    );
}

#[test]
#[should_panic]
fn test_key_val_parse_3() {
    let data = "
        c
        ";
    let _ = KeyVal::parse(data).unwrap();
}

#[test]
fn test_key_val_parse_2() {
    let data = "
        a =
            b = c
            d = e
        ";
    let key_vals = KeyVal::parse(data).unwrap();
    assert_eq!(
        key_vals,
        vec![KeyVal {
            key: "a".to_string(),
            value: "\n            b = c\n            d = e".to_string(),
        }]
    );
}

#[test]
fn test_key_val_parse_trailing_indent() {
    let data = "\n  a = b\n  c = d\n";
    let key_vals = KeyVal::parse(data).unwrap();
    assert_eq!(
        key_vals,
        vec![
            KeyVal { key: "a".to_string(), value: "b".to_string() },
            KeyVal { key: "c".to_string(), value: "d".to_string() },
        ]
    );
    assert_eq!(KeyVal::pretty(&key_vals), "a = \"b\"\nc = \"d\"");
}

#[test]
fn test_parse_flat_to_tree_1() {
    let data = "\na = \n  b = c\n  d = e\n";
    let key_vals = KeyVal::parse(data).unwrap();
    assert_eq!(
        key_vals,
        vec![KeyVal { key: "a".to_string(), value: "\n  b = c\n  d = e".to_string() }]
    );

    let tree = KeyVal::parse_flat_to_tree(&key_vals);
    assert_eq!(tree.entries.len(), 1);
    assert_eq!(tree.entries[0].0, "a");
    assert_eq!(tree.entries[0].1.len(), 1);
    match &tree.entries[0].1[0] {
        KeyValNode::Tree(sub) => {
            assert_eq!(sub.entries.len(), 2);
            assert_eq!(sub.entries[0].0, "b");
            assert!(matches!(&sub.entries[0].1[..], [KeyValNode::Leaf(v)] if v == "c"));
            assert_eq!(sub.entries[1].0, "d");
            assert!(matches!(&sub.entries[1].1[..], [KeyValNode::Leaf(v)] if v == "e"));
        },
        KeyValNode::Leaf(_) => panic!("expected a subtree"),
    }
}

#[test]
fn test_parse_flat_to_tree_4() {
    let data = "\n= d\n= e\n";
    let key_vals = KeyVal::parse(data).unwrap();
    assert_eq!(
        key_vals,
        vec![
            KeyVal { key: "".to_string(), value: "d".to_string() },
            KeyVal { key: "".to_string(), value: "e".to_string() },
        ]
    );
}

#[test]
fn test_parse_flat_to_tree_3() {
    let data = "\nabc =\n  = d\n  = e\n";
    let key_vals = KeyVal::parse(data).unwrap();
    assert_eq!(
        key_vals,
        vec![KeyVal { key: "abc".to_string(), value: "\n  = d\n  = e".to_string() }]
    );

    let intermediate_tree = KeyVal::parse_flat_to_tree(&KeyVal::parse("\n  = d\n  = e").unwrap());
    assert_eq!(intermediate_tree.entries.len(), 1);
    assert_eq!(intermediate_tree.entries[0].0, "");
    assert!(matches!(
        &intermediate_tree.entries[0].1[..],
        [KeyValNode::Leaf(d), KeyValNode::Leaf(e)] if d == "d" && e == "e"
    ));

    let tree = KeyVal::parse_flat_to_tree(&key_vals);
    assert_eq!(tree.entries.len(), 1);
    assert_eq!(tree.entries[0].0, "abc");
    match &tree.entries[0].1[..] {
        [KeyValNode::Tree(sub)] => {
            assert_eq!(sub.entries.len(), 1);
            assert_eq!(sub.entries[0].0, "");
            assert!(matches!(
                &sub.entries[0].1[..],
                [KeyValNode::Leaf(d), KeyValNode::Leaf(e)] if d == "d" && e == "e"
            ));
        },
        _ => panic!("expected a single subtree"),
    }
}

#[test]
fn test_parse_flat_to_tree_2() {
    let data = "\na = b\nb =\n  c = d\n  d =\n    e = f\n    f = g\n  g = h\nh = i\ni = j\nj = k\n  k = l\n";
    let key_vals = KeyVal::parse(&data).unwrap();
    let tree = KeyVal::parse_flat_to_tree(&key_vals);

    assert_eq!(tree.entries.len(), 5);
    assert_eq!(tree.entries[0].0, "a");
    assert!(matches!(&tree.entries[0].1[..], [KeyValNode::Leaf(v)] if v == "b"));
    assert_eq!(tree.entries[1].0, "b");
    match &tree.entries[1].1[..] {
        [KeyValNode::Tree(sub)] => {
            assert_eq!(sub.entries.len(), 3);
            assert_eq!(sub.entries[0].0, "c");
            assert!(matches!(&sub.entries[0].1[..], [KeyValNode::Leaf(v)] if v == "d"));
            assert_eq!(sub.entries[1].0, "d");
            match &sub.entries[1].1[..] {
                [KeyValNode::Tree(inner)] => {
                    assert_eq!(inner.entries.len(), 2);
                    assert_eq!(inner.entries[0].0, "e");
                    assert!(matches!(&inner.entries[0].1[..], [KeyValNode::Leaf(v)] if v == "f"));
                    assert_eq!(inner.entries[1].0, "f");
                    assert!(matches!(&inner.entries[1].1[..], [KeyValNode::Leaf(v)] if v == "g"));
                },
                _ => panic!("expected a subtree under the repeated nesting"),
            }
            assert_eq!(sub.entries[2].0, "g");
            assert!(matches!(&sub.entries[2].1[..], [KeyValNode::Leaf(v)] if v == "h"));
        },
        _ => panic!("expected a subtree"),
    }
    assert_eq!(tree.entries[2].0, "h");
    assert!(matches!(&tree.entries[2].1[..], [KeyValNode::Leaf(v)] if v == "i"));
    assert_eq!(tree.entries[3].0, "i");
    assert!(matches!(&tree.entries[3].1[..], [KeyValNode::Leaf(v)] if v == "j"));
    assert_eq!(tree.entries[4].0, "j");
    match &tree.entries[4].1[..] {
        [KeyValNode::Tree(sub)] => {
            assert_eq!(sub.entries.len(), 1);
            assert_eq!(sub.entries[0].0, "k\n  k");
            assert!(matches!(&sub.entries[0].1[..], [KeyValNode::Leaf(v)] if v == "l"));
        },
        _ => panic!("expected a subtree"),
    }
}
