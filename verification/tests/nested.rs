use ccl_rs::key_val::KeyVal;
use ccl_rs::parser::CCL;

#[test]
fn nested_test_single_line_nested_value() {
    let config = "\nkey =\n  val\n";
    let expected = vec![KeyVal { key: "key".to_string(), value: "\n  val".to_string() }];
    let result = KeyVal::parse(config).unwrap();
    assert_eq!(result, expected);
}

#[test]
fn nested_test_multi_line_nested_value() {
    let config = "\nkey =\n  line1\n  line2\n";
    let expected = vec![KeyVal { key: "key".to_string(), value: "\n  line1\n  line2".to_string() }];
    let result = KeyVal::parse(config).unwrap();
    assert_eq!(result, expected);
}

#[test]
fn nested_test_multi_line_with_empty_line() {
    let config = "\nkey =\n  line1\n\n  line2\n";
    let expected = vec![KeyVal {
        key: "key".to_string(),
        value: "\n  line1\n\n  line2".to_string(),
    }];
    let result = KeyVal::parse(config).unwrap();
    assert_eq!(result, expected);
}

#[test]
fn nested_test_nested_key_value_pairs() {
    let config = "\nkey =\n  field1 = value1\n  field2 = value2\n";
    let expected = vec![KeyVal {
        key: "key".to_string(),
        value: "\n  field1 = value1\n  field2 = value2".to_string(),
    }];
    let result = KeyVal::parse(config).unwrap();
    assert_eq!(result, expected);
}

#[test]
fn nested_test_deep_nested_key_value_pairs() {
    let config = "\nkey =\n  field1 = value1\n  field2 =\n    subfield = x\n    another = y\n";
    let expected = vec![KeyVal {
        key: "key".to_string(),
        value: "\n  field1 = value1\n  field2 =\n    subfield = x\n    another = y".to_string(),
    }];
    let result = KeyVal::parse(config).unwrap();
    assert_eq!(result, expected);
}

#[test]
fn test_extra_equation() {
    let config = "
        ports =
            = 8000
            = 8001
            = 8002
        ";
    let result = KeyVal::parse(config).unwrap();
    assert_eq!(
        result,
        vec![KeyVal {
            key: "ports".to_string(),
            value: "\n            = 8000\n            = 8001\n            = 8002".to_string(),
        }]
    );
    let ccl = CCL::parse(result);
    let expected = CCL::nested(
        "ports",
        vec![CCL::key_val("", "8000"), CCL::key_val("", "8001"), CCL::key_val("", "8002")],
    );
    assert!(ccl.equals(&expected));
    assert_eq!(ccl.pretty(), "ports =\n   =\n    8000 =\n    8001 =\n    8002 =\n");

    let config = "
        ports =
            =
            8000 =
            8001 =
            8002 =
        ";
    let result = KeyVal::parse(config).unwrap();
    assert_eq!(
        result,
        vec![KeyVal {
            key: "ports".to_string(),
            value: "\n            =\n            8000 =\n            8001 =\n            8002 ="
                .to_string(),
        }]
    );
    let ccl = CCL::parse(result);
    // Every key has the empty value, so each collapses to a bare key.
    let expected = CCL::nested(
        "ports",
        vec![CCL::key(""), CCL::key("8000"), CCL::key("8001"), CCL::key("8002")],
    );
    assert!(ccl.equals(&expected));
    assert_eq!(ccl.pretty(), "ports =\n   =\n  8000 =\n  8001 =\n  8002 =\n");

    let config = "
        ports
            = 8000
            = 8001
            = 8002
        ";
    let result = KeyVal::parse(config).unwrap();
    assert_eq!(
        result,
        vec![KeyVal {
            key: "ports".to_string(),
            value: "8000\n            = 8001\n            = 8002".to_string(),
        }]
    );
}
