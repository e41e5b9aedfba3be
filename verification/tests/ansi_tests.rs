use tablefmt::{convert_ansi_to_html, convert_ansi_to_html_with_options, TableWrapper};

#[test]
fn test_ansi_to_html_conversion() {
    let ansi_text = "\x1b[1mBold\x1b[0m \x1b[31mRed\x1b[0m \x1b[32mGreen\x1b[0m";
    let html = convert_ansi_to_html(ansi_text);

    println!("ANSI input: {}", ansi_text);
    println!("HTML output: {}", html);

    assert!(html.contains("<b>"), "Should contain bold tags");
    assert!(html.contains("</b>"), "Should contain bold close tags");
    assert!(html.contains("style="), "Should contain style attributes");
    assert!(html.contains("color:"), "Should contain color styles");

    let html_with_classes = convert_ansi_to_html_with_options(ansi_text, true);
    println!("HTML with classes: {}", html_with_classes);

    let mut table = TableWrapper::new();
    table.set_header(vec!["Name".to_string(), "Status".to_string()]);
    table.add_row(vec![
        "\x1b[1mAlice\x1b[0m".to_string(),
        "\x1b[32mOnline\x1b[0m".to_string(),
    ]);
    table.add_row(vec![
        "\x1b[1mBob\x1b[0m".to_string(),
        "\x1b[31mOffline\x1b[0m".to_string(),
    ]);

    let table_html = table.to_html();
    println!("Table HTML output:\n{}", table_html);

    assert!(table_html.len() > 0, "HTML table should not be empty");
    assert!(
        table_html.contains("<b>"),
        "Table HTML should contain bold formatting"
    );
}

#[test]
fn test_ansi_conversion_fallback() {
    let invalid_ansi = "\x1b[999mInvalid\x1b[0m Normal text";
    let html = convert_ansi_to_html(invalid_ansi);

    println!("Invalid ANSI input: {}", invalid_ansi);
    println!("Fallback HTML output: {}", html);

    assert!(html.contains("Normal text"), "Should contain normal text");
    assert!(
        !html.contains("\x1b["),
        "Should not contain ANSI escape sequences"
    );
}

#[test]
fn test_plain_text_round_trip() {
    assert_eq!(convert_ansi_to_html("hello world"), "hello world");
    assert_eq!(convert_ansi_to_html(""), "");
    assert_eq!(convert_ansi_to_html("a<b>c&d"), "a&lt;b&gt;c&amp;d");
}

#[test]
fn test_exact_bold_conversion() {
    assert_eq!(convert_ansi_to_html("\x1b[1mhi\x1b[0m"), "<b>hi</b>");
}

#[test]
fn test_exact_nested_color_conversion() {
    assert_eq!(
        convert_ansi_to_html("\x1b[1;31mx\x1b[0m"),
        "<b><span style=\"color:#aa0000\">x</span></b>"
    );
}

#[test]
fn test_background_color_conversion() {
    let html = convert_ansi_to_html("\x1b[42mok\x1b[0m");
    assert_eq!(html, "<span style=\"background:#00aa00\">ok</span>");
}

#[test]
fn test_unclosed_tag_closed_at_end() {
    assert_eq!(convert_ansi_to_html("\x1b[1mstill open"), "<b>still open</b>");
}

#[test]
fn test_malformed_sequences_stripped_locally() {
    assert_eq!(convert_ansi_to_html("\x1b[12xhello"), "xhello");
    assert_eq!(convert_ansi_to_html("hi\x1b[12"), "hi");
    assert_eq!(convert_ansi_to_html("a\x1bb"), "ab");
    assert_eq!(convert_ansi_to_html("tail\x1b"), "tail");
}

#[test]
fn test_options_flag_is_equivalent() {
    let input = "\x1b[1mBold\x1b[0m plain";
    assert_eq!(
        convert_ansi_to_html_with_options(input, true),
        convert_ansi_to_html_with_options(input, false)
    );
    assert_eq!(
        convert_ansi_to_html_with_options(input, true),
        convert_ansi_to_html(input)
    );
}

#[test]
fn test_table_to_html_escapes_nothing_raw() {
    let mut table = TableWrapper::new();
    table.set_header(vec!["h".to_string()]);
    table.add_row(vec!["\x1b[31mred\x1b[0m".to_string()]);
    let html = table.to_html();
    assert!(html.contains("red"));
    assert!(!html.contains("\x1b"));
}
