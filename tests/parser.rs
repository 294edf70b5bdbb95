use flowline::parser::{
    csv_acceptable, parse, parse_csv, parse_json, parse_key_value_config, split_objects, try_parse,
    ParsedData,
};

const CONFIG: &str = "\
[metadata]
name = test_app
version = 1.0

[network]
allowed_hosts = alpha, beta
port = 8080
timeout = 30
";

fn pairs(v: &[(String, String)]) -> Vec<(&str, &str)> {
    v.iter().map(|(k, x)| (k.as_str(), x.as_str())).collect()
}

#[test]
fn config_sections_become_prefixes() {
    match parse_key_value_config(CONFIG) {
        ParsedData::Config(v) => assert_eq!(
            pairs(&v),
            vec![
                ("metadata.name", "test_app"),
                ("metadata.version", "1.0"),
                ("network.allowed_hosts", "alpha, beta"),
                ("network.port", "8080"),
                ("network.timeout", "30"),
            ]
        ),
        other => panic!("unexpected {:?}", other),
    }
}

#[test]
fn config_skips_comments_and_overwrites() {
    let text = "# comment\n; other\nkey = 1\nno equals here\n  key=2  \n[ s ]\nx = y = z\n";
    match parse_key_value_config(text) {
        ParsedData::Config(v) => assert_eq!(pairs(&v), vec![("key", "2"), ("s.x", "y = z")]),
        other => panic!("unexpected {:?}", other),
    }
}

#[test]
fn csv_headers_and_rows() {
    match parse_csv("name,age,city\nAlice,30,NYC\n\n  Bob , 41,LA\n") {
        Ok(ParsedData::CsvTable { headers, rows }) => {
            assert_eq!(headers, vec!["name", "age", "city"]);
            assert_eq!(rows, vec![vec!["Alice", "30", "NYC"], vec!["Bob", "41", "LA"]]);
        }
        other => panic!("unexpected {:?}", other),
    }
}

#[test]
fn csv_empty_is_an_error() {
    assert_eq!(parse_csv(" \n\t\n").unwrap_err(), "Empty CSV content");
    assert_eq!(parse_csv("").unwrap_err(), "Empty CSV content");
}

#[test]
fn json_records() {
    match parse_json("[{\"a\":1},{\"b\": \"two\", \"c\":3}]") {
        Ok(ParsedData::JsonRecords(recs)) => {
            assert_eq!(recs.len(), 2);
            assert_eq!(pairs(&recs[0]), vec![("a", "1")]);
            assert_eq!(pairs(&recs[1]), vec![("b", "two"), ("c", "3")]);
        }
        other => panic!("unexpected {:?}", other),
    }
}

#[test]
fn json_errors() {
    assert_eq!(parse_json("{\"a\":1}").unwrap_err(), "Not a JSON array");
    assert_eq!(parse_json("[]").unwrap_err(), "JSON array contained no objects");
    assert_eq!(parse_json("[{\"a\" 1}]").unwrap_err(), "Invalid JSON pair: \"a\" 1");
    assert_eq!(parse_json("[metadata]\nname = test\n").unwrap_err(), "Not a JSON array");
    assert_eq!(parse_json("[metadata]").unwrap_err(), "Invalid JSON pair: metadata");
    assert_eq!(parse_json("[ {} , {  } ]").unwrap_err(), "JSON array contained no objects");
}

#[test]
fn split_objects_by_depth() {
    assert_eq!(split_objects("{\"a\":1},{\"b\":{\"c\":2}}"), vec!["{\"a\":1}", "{\"b\":{\"c\":2}}"]);
    assert_eq!(split_objects(" x , y "), vec![" x  y "]);
    assert!(split_objects("  ").is_empty());
}

#[test]
fn parse_routes_by_format() {
    assert!(matches!(parse("a,b\n1,2"), ParsedData::CsvTable { .. }));
    assert!(matches!(parse("k = v"), ParsedData::Config(_)));
    assert!(matches!(parse("[{\"a\":1}]"), ParsedData::JsonRecords(_)));
    match parse("[x\ny") {
        ParsedData::CsvTable { headers, rows } => {
            assert_eq!(headers, vec!["[x"]);
            assert_eq!(rows, vec![vec!["y"]]);
        }
        other => panic!("unexpected {:?}", other),
    }
}

#[test]
fn try_parse_refuses_what_parse_cannot_take() {
    let sample = "[metadata]\nname = test_app\n\n[network]\nallowed_hosts = alpha, beta\nport = 8080\n";
    assert!(try_parse(sample).is_none());
    assert!(!csv_acceptable(sample));
    assert!(try_parse("a,b\n1").is_none());
    assert!(matches!(try_parse("a,b\n1,2"), Some(ParsedData::CsvTable { .. })));
    assert!(matches!(try_parse("k = v"), Some(ParsedData::Config(_))));
    assert!(csv_acceptable("x\n\n y \n"));
    assert!(!csv_acceptable("  \n"));
}
