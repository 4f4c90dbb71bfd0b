use stepchart::text::{parse_fixed, parse_tag_value, split_char, strip_char, strip_trailing, trim};

#[test]
fn fixed_point_integers() {
    assert_eq!(parse_fixed("0"), Some(0));
    assert_eq!(parse_fixed("120"), Some(120_000_000));
    assert_eq!(parse_fixed("-3"), Some(-3_000_000));
    assert_eq!(parse_fixed("+7"), Some(7_000_000));
}

#[test]
fn fixed_point_fractions() {
    assert_eq!(parse_fixed("120.5"), Some(120_500_000));
    assert_eq!(parse_fixed("0.001"), Some(1_000));
    assert_eq!(parse_fixed("-0.001"), Some(-1_000));
    assert_eq!(parse_fixed(".5"), Some(500_000));
    assert_eq!(parse_fixed("5."), Some(5_000_000));
    // digits past the sixth place are truncated toward zero
    assert_eq!(parse_fixed("0.1234567"), Some(123_456));
}

#[test]
fn fixed_point_rejects() {
    assert_eq!(parse_fixed(""), None);
    assert_eq!(parse_fixed("."), None);
    assert_eq!(parse_fixed("-"), None);
    assert_eq!(parse_fixed("abc"), None);
    assert_eq!(parse_fixed("1.2.3"), None);
    assert_eq!(parse_fixed("12a"), None);
    assert_eq!(parse_fixed(" 12"), None);
    // past the parser's cap of a thousand million units
    assert_eq!(parse_fixed("1000000001"), None);
    assert_eq!(parse_fixed("1000000000"), Some(1_000_000_000_000_000));
}

#[test]
fn tag_values() {
    let chart = "#TITLE:My Song;\n#ARTIST:  Somebody ;\n#OFFSET:0.009;\n";
    assert_eq!(parse_tag_value(chart, "#TITLE:").as_deref(), Some("My Song"));
    assert_eq!(parse_tag_value(chart, "#ARTIST:").as_deref(), Some("Somebody"));
    assert_eq!(parse_tag_value(chart, "#OFFSET:").as_deref(), Some("0.009"));
    assert_eq!(parse_tag_value(chart, "#MUSIC:"), None);
    assert_eq!(parse_tag_value("#TITLE:no terminator", "#TITLE:"), None);
}

#[test]
fn text_helpers() {
    assert_eq!(trim("  a b \r\n"), "a b");
    assert_eq!(strip_char("a\nb\nc", '\n'), "abc");
    assert_eq!(strip_trailing("Hard::", ':'), "Hard");
    assert_eq!(strip_trailing("Hard", ':'), "Hard");
    let parts = split_char("a,b,,c", ',');
    assert_eq!(parts, vec!["a", "b", "", "c"]);
}
