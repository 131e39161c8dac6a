use ccl_rs::key_val::KeyVal;

#[test]
fn test_smaller_indent_than_first_key() {
    let config = "\n  key\nval = 1\n";
    let result = KeyVal::parse(config).unwrap();
    assert_eq!(result, vec![KeyVal { key: "key\nval".to_string(), value: "1".to_string() }]);
}

#[test]
fn test_two_line_key() {
    let config = "\nkey1\nkey2\n  = val\n";
    let result = KeyVal::parse(config).unwrap();
    assert_eq!(result, vec![KeyVal { key: "key1\nkey2".to_string(), value: "val".to_string() }]);
}

#[test]
fn test_multiline_key_with_variable_indent() {
    let config = "\n  asd\n cvabaccc\nqwfs = 1\n";
    let result = KeyVal::parse(config).unwrap();
    assert_eq!(
        result,
        vec![KeyVal { key: "asd\n cvabaccc\nqwfs".to_string(), value: "1".to_string() }]
    );
}

#[test]
fn test_multiline_key_with_variable_indent_2() {
    let config = "\n    gwadgalk\nasdasd\n      asdasd\n   = 1\n";
    let result = KeyVal::parse(config).unwrap();
    assert_eq!(
        result,
        vec![KeyVal {
            key: "gwadgalk\nasdasd\n      asdasd".to_string(),
            value: "1".to_string(),
        }]
    );
}

#[test]
fn test_ambiguous_key_or_value() {
    let config = "\n  ad\nck\n      wd\n   = gw\n  ag\nwd\n  = qs\n";
    let result = KeyVal::parse(config).unwrap();
    assert_eq!(
        result,
        vec![
            KeyVal { key: "ad\nck\n      wd".to_string(), value: "gw".to_string() },
            KeyVal { key: "ag\nwd".to_string(), value: "qs".to_string() },
        ]
    );
}

#[test]
fn test_ambiguous_key_or_value_2() {
    let config = "\n  ad\nck\n      wd\n   = gw\n   ag\nwd\n  = qs\n";
    let result = KeyVal::parse(config).unwrap();
    assert_eq!(
        result,
        vec![
            KeyVal { key: "ad\nck\n      wd".to_string(), value: "gw\n   ag".to_string() },
            KeyVal { key: "wd".to_string(), value: "qs".to_string() },
        ]
    );
}

#[test]
fn test_ambiguous_key_or_value_3() {
    let config = "\n  bf = wd\n    sd = de\n sdfg\n    sge\n  we = 1\n";
    let result = KeyVal::parse(config).unwrap();
    assert_eq!(
        result,
        vec![
            KeyVal { key: "bf".to_string(), value: "wd\n    sd = de".to_string() },
            KeyVal { key: "sdfg\n    sge\n  we".to_string(), value: "1".to_string() },
        ]
    );
}

#[test]
fn test_indent_causing_unclosed_key() {
    let config = "\n  bf = wd\n    sd = de\n sdfg\n    sge\n  we\n";
    let result = KeyVal::parse(config).unwrap_err();
    assert_eq!(result, "No value found for key: sdfg\n    sge\n  we");
}
