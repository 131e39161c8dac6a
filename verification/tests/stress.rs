use ccl_rs::key_val::KeyVal;
use ccl_rs::key_val::KeyValNode;
use ccl_rs::monoid::Monoid;
use ccl_rs::parser::CCL;

#[test]
fn test() {
    let config = "
/= This is a CCL document
title = CCL Example

database =
    enabled = true
    ports =
        = 8000
        = 8001
        = 8002
    limits =
        cpu = 1500mi
        memory = 10Gb

user =
    guestId = 42

user =
    login = chshersh
    createdAt = 2024-12-31
";

    let key_vals = KeyVal::parse(config).unwrap();
    assert_eq!(
        key_vals,
        vec![
            KeyVal { key: "/".to_string(), value: "This is a CCL document".to_string() },
            KeyVal { key: "title".to_string(), value: "CCL Example".to_string() },
            KeyVal {
                key: "database".to_string(),
                value: "\n    enabled = true\n    ports =\n        = 8000\n        = 8001\n        = 8002\n    limits =\n        cpu = 1500mi\n        memory = 10Gb".to_string(),
            },
            KeyVal { key: "user".to_string(), value: "\n    guestId = 42".to_string() },
            KeyVal {
                key: "user".to_string(),
                value: "\n    login = chshersh\n    createdAt = 2024-12-31".to_string(),
            },
        ]
    );

    let key_val_tree = KeyVal::parse_flat_to_tree(&key_vals);
    assert_eq!(key_val_tree.entries.len(), 4);
    assert_eq!(key_val_tree.entries[0].0, "/");
    assert!(matches!(
        &key_val_tree.entries[0].1[..],
        [KeyValNode::Leaf(v)] if v == "This is a CCL document"
    ));
    assert_eq!(key_val_tree.entries[1].0, "database");
    match &key_val_tree.entries[1].1[..] {
        [KeyValNode::Tree(db)] => {
            assert_eq!(db.entries.len(), 3);
            assert_eq!(db.entries[0].0, "enabled");
            assert!(matches!(&db.entries[0].1[..], [KeyValNode::Leaf(v)] if v == "true"));
            assert_eq!(db.entries[1].0, "limits");
            assert_eq!(db.entries[2].0, "ports");
            match &db.entries[2].1[..] {
                [KeyValNode::Tree(ports)] => {
                    assert_eq!(ports.entries.len(), 1);
                    assert_eq!(ports.entries[0].0, "");
                    assert!(matches!(
                        &ports.entries[0].1[..],
                        [KeyValNode::Leaf(a), KeyValNode::Leaf(b), KeyValNode::Leaf(c)]
                            if a == "8000" && b == "8001" && c == "8002"
                    ));
                },
                _ => panic!("expected the ports subtree"),
            }
        },
        _ => panic!("expected the database subtree"),
    }
    assert_eq!(key_val_tree.entries[2].0, "title");
    assert_eq!(key_val_tree.entries[3].0, "user");
    assert_eq!(key_val_tree.entries[3].1.len(), 2);

    let ccl = CCL::parse(key_vals);
    let expected = CCL::key_val("/", "This is a CCL document")
        .merge(CCL::key_val("title", "CCL Example"))
        .merge(CCL::nested(
            "database",
            vec![
                CCL::key_val("enabled", "true"),
                CCL::nested(
                    "ports",
                    vec![
                        CCL::key_val("", "8000"),
                        CCL::key_val("", "8001"),
                        CCL::key_val("", "8002"),
                    ],
                ),
                CCL::nested(
                    "limits",
                    vec![CCL::key_val("cpu", "1500mi"), CCL::key_val("memory", "10Gb")],
                ),
            ],
        ))
        .merge(CCL::nested("user", vec![CCL::key_val("guestId", "42")]))
        .merge(CCL::nested(
            "user",
            vec![CCL::key_val("login", "chshersh"), CCL::key_val("createdAt", "2024-12-31")],
        ));
    assert!(ccl.equals(&expected));

    assert_eq!(
        ccl.pretty(),
        "/ =\n  This is a CCL document =\ndatabase =\n  enabled =\n    true =\n  limits =\n    cpu =\n      1500mi =\n    memory =\n      10Gb =\n  ports =\n     =\n      8000 =\n      8001 =\n      8002 =\ntitle =\n  CCL Example =\nuser =\n  createdAt =\n    2024-12-31 =\n  guestId =\n    42 =\n  login =\n    chshersh =\n"
    );
}
