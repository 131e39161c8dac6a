use ccl_rs::key_val::KeyVal;

#[test]
fn test_error() {
    let config = "key";
    let result = KeyVal::parse(config).unwrap_err();
    assert_eq!(result, "No value found for key: key");
}

#[test]
fn test_error_unclosed_new_key() {
    let config = "\n  bf = wd\n    sd = de\n sdfg\n    sge\n  we\n";
    let result = KeyVal::parse(config).unwrap_err();
    assert_eq!(result, "No value found for key: sdfg\n    sge\n  we");
}

#[test]
fn test_empty_inputs() {
    let empty_cases = vec!["", " ", "   ", "\n", "  \n", "\n\n", "  \n  \n  "];
    for input in empty_cases {
        let result = KeyVal::parse(input).unwrap();
        assert_eq!(result, Vec::<KeyVal>::new(), "Failed for empty input: {:?}", input);
    }
}

#[test]
fn test_parse_errors() {
    let error_cases = vec![
        "key",  // Missing equals sign and value
    ];
    for input in error_cases {
        let result = KeyVal::parse(input);
        assert!(result.is_err(), "Expected error for input: {:?}, but got: {:?}", input, result);
    }
}
