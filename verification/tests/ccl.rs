use ccl_rs::key_val::KeyVal;
use ccl_rs::monoid::Monoid;
use ccl_rs::parser::CCL;

#[test]
fn test_ccl_pretty() {
    let ccl = CCL::nested(
        "a",
        vec![CCL::key_val("b", "c"), CCL::key_val("d", "e"), CCL::key("h")],
    );
    assert_eq!(ccl.pretty(), "a =\n  b =\n    c =\n  d =\n    e =\n  h =\n");
}

#[test]
fn parser_test_merge() {
    let ccl1 = CCL::nested("a", vec![CCL::key_val("b", "c")]);
    let ccl2 = CCL::nested("a", vec![CCL::key_val("b", "d")]);
    assert_eq!(ccl1.merge(ccl2).pretty(), "a =\n  b =\n    c =\n    d =\n");
}

#[test]
fn test_merge_associativity() {
    let ccl1 = CCL::nested("a", vec![CCL::key_val("b", "c")]);
    let ccl2 = CCL::nested("a", vec![CCL::key_val("b", "d")]);
    let ccl3 = CCL::nested("a", vec![CCL::key_val("b", "e")]);
    let left = ccl1.duplicate().merge(ccl2.duplicate()).merge(ccl3.duplicate());
    let right = ccl1.merge(ccl2.merge(ccl3));
    assert!(left.equals(&right));
}

#[test]
fn test_parse_ccl() {
    let data = "
        1 = 2
        a =
            b = c
            d = e
        ";
    let key_vals = KeyVal::parse(data).unwrap();
    let ccl = CCL::parse(key_vals);
    let expected = CCL::key_val("1", "2").merge(CCL::nested(
        "a",
        vec![CCL::key_val("b", "c"), CCL::key_val("d", "e")],
    ));
    assert!(ccl.equals(&expected));
    assert_eq!(ccl.pretty(), "1 =\n  2 =\na =\n  b =\n    c =\n  d =\n    e =\n");
}

#[test]
fn test_parse_ccl_2() {
    let data = "
        =
            a = b
            c = d
        ";
    let key_vals = KeyVal::parse(data).unwrap();
    let ccl = CCL::parse(key_vals);
    let expected = CCL::nested("", vec![CCL::key_val("a", "b"), CCL::key_val("c", "d")]);
    assert!(ccl.equals(&expected));
    assert_eq!(ccl.pretty(), " =\n  a =\n    b =\n  c =\n    d =\n");
}

#[test]
fn test_parse_ccl_3() {
    let data = "
        =
            a =
            c =
        ";
    let key_vals = KeyVal::parse(data).unwrap();
    let ccl = CCL::parse(key_vals);
    let expected = CCL::nested("", vec![CCL::key("a"), CCL::key("c")]);
    assert!(ccl.equals(&expected));
    assert_eq!(ccl.pretty(), " =\n  a =\n  c =\n");
}

#[test]
fn test_from_prop_test_roundtrip_failure() {
    let ccl = CCL::nested("", vec![CCL::nested("", vec![CCL::empty()])]);
    assert_eq!(ccl.pretty(), " =\n   =\n");

    let key_vals_2 = KeyVal::parse(&ccl.pretty()).unwrap();
    assert_eq!(key_vals_2, vec![KeyVal { key: "".to_string(), value: "\n   =".to_string() }]);

    let ccl2 = CCL::parse(key_vals_2);
    assert!(ccl2.equals(&ccl));
    assert_eq!(ccl2.pretty(), " =\n   =\n");
}
