use ccl_rs::key_val::KeyVal;
use ccl_rs::key_val::KeyVals;
use ccl_rs::monoid::Monoid;
use ccl_rs::parser::CCL;
use ccl_rs::query::execute_query;
use ccl_rs::query::query_single_key;
use ccl_rs::string_utils::add_box;
use ccl_rs::string_utils::dedent;
use ccl_rs::string_utils::indent;

#[test]
fn test_new_trims_both_parts() {
    let kv = KeyVal::new("  key \t".to_string(), "\n value \n".to_string());
    assert_eq!(kv.key, "key");
    assert_eq!(kv.value, "value");
}

#[test]
fn test_pair_sequences_form_a_monoid() {
    let a = || vec![KeyVal::new("a".to_string(), "1".to_string())];
    let b = || vec![KeyVal::new("b".to_string(), "2".to_string())];
    let c = || vec![KeyVal::new("c".to_string(), "3".to_string())];
    let left = a().merge(b()).merge(c());
    let right = a().merge(b().merge(c()));
    assert_eq!(left, right);
    let e: KeyVals = Monoid::empty();
    assert_eq!(e.merge(a()), a());
    assert_eq!(a().merge(Monoid::empty()), a());
    assert_eq!(KeyVals::aggregate(vec![a(), b(), c()]), left);
}

#[test]
fn test_canonical_merge_identity() {
    let v = CCL::key_val("k", "w");
    assert!(CCL::empty().merge(v.duplicate()).equals(&v));
    assert!(v.duplicate().merge(CCL::empty()).equals(&v));
}

#[test]
fn test_canonical_aggregate_folds_left() {
    let parts = vec![CCL::key_val("a", "1"), CCL::key_val("b", "2"), CCL::key_val("a", "3")];
    let agg = CCL::aggregate(parts);
    assert_eq!(agg.pretty(), "a =\n  1 =\n  3 =\nb =\n  2 =\n");
}

#[test]
fn test_round_trip_of_constructed_value() {
    let v = CCL::nested(
        "database",
        vec![
            CCL::key_val("enabled", "true"),
            CCL::nested("limits", vec![CCL::key_val("cpu", "1500mi"), CCL::key("memory")]),
        ],
    )
    .merge(CCL::key_val("title", "Example"));
    let text = v.pretty();
    let reparsed = CCL::parse(KeyVal::parse(&text).unwrap());
    assert!(reparsed.equals(&v));
}

#[test]
fn test_query_single_key_found_and_missing() {
    let ccl = CCL::parse(KeyVal::parse("numbers =\n  foo = 1\n").unwrap());
    let found = query_single_key("numbers", &ccl).unwrap();
    assert_eq!(found.pretty(), "foo =\n  1 =\n");
    let missing = query_single_key("letters", &ccl).unwrap_err();
    assert_eq!(missing, "Key 'letters' not found");
}

#[test]
fn test_execute_query_follows_path() {
    let ccl = CCL::parse(KeyVal::parse("numbers =\n  foo = 12341234\n  bar = 1\n").unwrap());
    let result = execute_query("numbers=foo", &ccl).unwrap();
    assert_eq!(result.pretty(), "12341234 =\n");
    let missing = execute_query("numbers=baz", &ccl).unwrap_err();
    assert_eq!(missing, "Key 'baz' not found");
}

#[test]
fn test_get_returns_the_child() {
    let ccl = CCL::key_val("a", "b");
    let child = ccl.get("a").unwrap();
    assert_eq!(child.pretty(), "b =\n");
    assert!(ccl.get("b").is_none());
}

#[test]
fn test_indent_prefixes_every_line() {
    assert_eq!(indent("a\nbb", 2), "  a\n  bb");
    assert_eq!(indent("a\n", 3), "   a");
    assert_eq!(indent("", 2), "");
}

#[test]
fn test_dedent_removes_common_indentation() {
    let lines = vec!["   a", "  b", "    c"];
    let r = dedent(&lines);
    assert_eq!(r, vec![" a", "b", "  c"]);
}

#[test]
fn test_add_box() {
    let s = "a\nbb\nc";
    let boxed = add_box(s);
    assert_eq!(boxed, "┌──┐\n│a │\n│bb│\n│c │\n└──┘");
}

#[test]
fn test_pretty_escapes_value_characters() {
    let kvs = vec![KeyVal { key: "k".to_string(), value: "a\"b\\c\td".to_string() }];
    assert_eq!(KeyVal::pretty(&kvs), "k = \"a\\\"b\\\\c\\td\"");
}

#[test]
fn test_unicode_whitespace_is_recognized() {
    assert_eq!(KeyVal::parse("\u{a0}").unwrap(), vec![]);
    assert_eq!(KeyVal::parse("\u{2003}\u{85}\n\u{a0}").unwrap(), vec![]);
    let kv = KeyVal::new("\u{a0}k\u{a0}".to_string(), "\u{2007}v\u{3000}".to_string());
    assert_eq!(kv.key, "k");
    assert_eq!(kv.value, "v");
    let pairs = KeyVal::parse("\u{a0}key\u{a0}=\u{a0}val\u{a0}").unwrap();
    assert_eq!(pairs, vec![KeyVal { key: "key".to_string(), value: "val".to_string() }]);
}

#[test]
fn test_pretty_escapes_control_characters() {
    let kvs = vec![KeyVal { key: "k".to_string(), value: "\u{1}a\u{9f}\u{0}".to_string() }];
    assert_eq!(KeyVal::pretty(&kvs), "k = \"\\u{1}a\\u{9f}\\0\"");
    assert_eq!(KeyVal::pretty(&kvs), format!("k = {:?}", "\u{1}a\u{9f}\u{0}"));
}

#[test]
fn test_parse_is_a_homomorphism_on_whole_chunks() {
    let a = KeyVal::parse("a = 1\nb =\n  c = 2").unwrap();
    let b = KeyVal::parse("d = 3\ne = 4").unwrap();
    let joined = KeyVal::parse("a = 1\nb =\n  c = 2\nd = 3\ne = 4").unwrap();
    assert_eq!(a.merge(b), joined);
}

#[test]
fn test_separator_precedence() {
    let result = KeyVal::parse("a=b=c").unwrap();
    assert_eq!(result, vec![KeyVal { key: "a".to_string(), value: "b=c".to_string() }]);
}

#[test]
fn test_unterminated_key_reports_buffered_text() {
    let text = "  bf = wd\n    sd = de\n sdfg\n    sge\n  we\n";
    let err = KeyVal::parse(text).unwrap_err();
    assert_eq!(err, "No value found for key: sdfg\n    sge\n  we");
}

#[test]
fn test_repeated_key_collapsing() {
    let ccl = CCL::parse(KeyVal::parse("ports =\n  = 8000\n  = 8001\n  = 8002\n").unwrap());
    let expected = CCL::nested(
        "ports",
        vec![CCL::key_val("", "8000"), CCL::key_val("", "8001"), CCL::key_val("", "8002")],
    );
    assert!(ccl.equals(&expected));
}

#[test]
fn test_duplicate_leaf_values_collapse() {
    let a = CCL::key_val("tt", "ttt");
    let b = CCL::key_val("tt", "ttt");
    let merged = a.merge(b);
    // Two identical scalars under one key are indistinguishable once
    // canonicalized: only the union of derived keys remains.
    assert!(merged.equals(&CCL::key_val("tt", "ttt")));
}
