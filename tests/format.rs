use flowline::format::{detect_format, is_white_char, Format};

#[test]
fn detect_csv() {
    assert_eq!(detect_format("name,age,city\nAlice,30,NYC"), Format::Csv);
}

#[test]
fn detect_json() {
    assert_eq!(detect_format("[{\"a\":1},{\"b\":2}]"), Format::Json);
}

#[test]
fn detect_config_bug() {
    let input = "[metadata]\nname = test\n";
    let detected = detect_format(input);
    assert_eq!(detected, Format::Json);
}

#[test]
fn detect_skips_blank_lines() {
    assert_eq!(detect_format("\n   \n\t a,b\nc"), Format::Csv);
    assert_eq!(detect_format("\r\n  [1, 2]"), Format::Json);
}

#[test]
fn detect_comma_only_on_first_line() {
    assert_eq!(detect_format("key = value\nx,y"), Format::KeyValueConfig);
    assert_eq!(detect_format(""), Format::KeyValueConfig);
    assert_eq!(detect_format("   "), Format::KeyValueConfig);
}

#[test]
fn white_space_matches_std() {
    for c in ['\t', '\n', '\r', ' ', '\u{a0}', '\u{2003}', '\u{3000}', 'a', ',', '[', '\u{200b}'] {
        assert_eq!(is_white_char(c), c.is_whitespace());
    }
}
