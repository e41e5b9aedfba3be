use std::time::Instant;
use tablefmt::TableWrapper;

fn create_large_table_local(rows: usize, cols: usize, cell_size: usize) -> TableWrapper {
    let mut table = TableWrapper::new();

    let header: Vec<String> = (0..cols).map(|i| format!("Column {}", i + 1)).collect();
    table.set_header(header);

    let cell_content = "?\n".repeat(cell_size);

    for _row in 0..rows {
        let row_data: Vec<String> = (0..cols).map(|_| cell_content.clone()).collect();
        table.add_row(row_data);
    }

    table
}

fn create_aaaaaaaa_table_local(rows: usize, cols: usize) -> TableWrapper {
    let mut table = TableWrapper::new();

    let header: Vec<String> = (0..cols).map(|i| format!("#{}", i + 1)).collect();
    table.set_header(header);
    table.set_width(7);

    for row_idx in 0..rows {
        let row_data: Vec<String> = (0..cols)
            .map(|col_idx| {
                let seed = (row_idx * 17 + col_idx * 31) % 6;
                let pattern_count = 5 + seed;
                "a".repeat(pattern_count)
            })
            .collect();
        table.add_row(row_data);
    }

    table
}

#[test]
fn test_large_table_performance() {
    let rows = 1000;
    let cols = 2;
    let cell_size = 75;

    let start = Instant::now();
    let table = create_large_table_local(rows, cols, cell_size);
    let creation_time = start.elapsed();

    let start = Instant::now();
    let table_string = table.to_string();
    let render_time = start.elapsed();

    let height = table.get_height();

    println!("Table creation time: {:?}", creation_time);
    println!("Table render time: {:?}", render_time);
    println!("Table height: {} lines", height);
    println!("Table string length: {} characters", table_string.len());

    assert!(height > 0);
    assert!(table_string.len() > 0);
    assert!(creation_time.as_millis() < 500);
}

#[test]
fn test_aaaaaaaa_table_height() {
    let rows = 1000;
    let cols = 1;

    let start = Instant::now();
    let table = create_aaaaaaaa_table_local(rows, cols);
    let creation_time = start.elapsed();

    let start = Instant::now();
    let table_string = table.to_string();
    let render_time = start.elapsed();

    let height = table.get_height();

    println!("Aaaaaaaa table creation time: {:?}", creation_time);
    println!("Aaaaaaaa table render time: {:?}", render_time);
    println!("Aaaaaaaa table height: {} lines", height);
    println!(
        "Aaaaaaaa table string length: {} characters",
        table_string.len()
    );

    assert!(
        height > 2000,
        "Table height {} should be greater than 2000",
        height
    );
    assert!(table_string.len() > 0);
    assert!(creation_time.as_millis() < 500);
}

#[test]
fn test_table_styling() {
    let mut table = TableWrapper::new();
    table.set_header(vec!["Name".to_string(), "Age".to_string()]);
    table.add_row(vec!["Alice".to_string(), "30".to_string()]);
    table.add_row(vec!["Bob".to_string(), "25".to_string()]);

    let styles = vec![
        "ascii",
        "modern",
        "rounded",
        "borders_only",
        "horizontal_only",
        "no_borders",
    ];

    for style in styles {
        table.set_style(style);
        let output = table.to_string();
        println!("Style '{}' output:\n{}", style, output);
        assert!(output.len() > 0, "Style '{}' should produce output", style);
    }
}

#[test]
fn test_basic_table_scenario() {
    let mut table = TableWrapper::new();
    table.set_header(vec!["Name".to_string(), "Age".to_string()]);
    table.add_row(vec!["Alice".to_string(), "30".to_string()]);
    table.add_row(vec!["Bob".to_string(), "25".to_string()]);

    let output = table.to_string();
    assert!(!output.is_empty());
    assert!(table.get_height() >= 4);
    assert!(output.contains("Alice"));
    assert!(output.contains("Bob"));
    assert!(output.contains("30"));
    assert!(output.contains("25"));
}

#[test]
fn test_render_idempotent() {
    let mut table = TableWrapper::new();
    table.set_header(vec!["a".to_string(), "b".to_string()]);
    table.add_row(vec!["one".to_string(), "two".to_string()]);
    table.set_width(20);

    let first = table.to_string();
    let second = table.to_string();
    assert_eq!(first, second);
}

#[test]
fn test_height_matches_rendered_lines() {
    let mut table = TableWrapper::new();
    table.set_header(vec!["x".to_string(), "y".to_string()]);
    table.add_row(vec!["line1\nline2".to_string(), "z".to_string()]);
    table.add_row(vec!["w".to_string()]);

    let output = table.to_string();
    assert_eq!(table.get_height(), output.lines().count());

    let empty = TableWrapper::new();
    assert_eq!(empty.get_height(), 0);
    assert_eq!(empty.to_string(), "");
}

#[test]
fn test_exact_ascii_render() {
    let mut table = TableWrapper::new();
    table.set_header(vec!["h".to_string()]);
    table.add_row(vec!["x".to_string()]);
    table.set_style("ascii");

    let expected = "+---+\n| h |\n+---+\n| x |\n+---+";
    assert_eq!(table.to_string(), expected);
    assert_eq!(table.get_height(), 5);
}

#[test]
fn test_wrap_keeps_all_characters() {
    let mut table = TableWrapper::new();
    table.set_header(vec!["H".to_string()]);
    table.add_row(vec!["abcdefghij".to_string()]);
    table.set_width(7);

    let output = table.to_string();
    let kept: String = output
        .chars()
        .filter(|c| ('a'..='j').contains(c))
        .collect();
    assert_eq!(kept, "abcdefghij");
}

#[test]
fn test_ragged_row_renders_as_padded() {
    let mut table = TableWrapper::new();
    table.set_header(vec!["Name".to_string(), "Age".to_string()]);
    table.add_row(vec!["Alice".to_string()]);

    let mut padded = TableWrapper::new();
    padded.set_header(vec!["Name".to_string(), "Age".to_string()]);
    padded.add_row(vec!["Alice".to_string(), "".to_string()]);

    let output = table.to_string();
    assert!(output.contains("Alice"));
    assert_eq!(output, padded.to_string());
}

#[test]
fn test_unknown_style_falls_back_to_default() {
    let mut table = TableWrapper::new();
    table.set_header(vec!["Name".to_string(), "Age".to_string()]);
    table.add_row(vec!["Alice".to_string(), "30".to_string()]);

    let default_output = table.to_string();
    table.set_style("nonexistent");
    let fallback_output = table.to_string();

    assert!(!fallback_output.is_empty());
    assert_eq!(fallback_output, default_output);
}

#[test]
fn test_zero_width_degenerates_gracefully() {
    let mut table = TableWrapper::new();
    table.set_header(vec!["aa".to_string(), "bb".to_string()]);
    table.add_row(vec!["cccc".to_string(), "dddd".to_string()]);
    table.set_width(0);

    let output = table.to_string();
    assert!(!output.is_empty());
    assert_eq!(table.get_height(), output.lines().count());
}

#[test]
fn test_maximum_width_no_wrapping() {
    let mut table = TableWrapper::new();
    table.set_header(vec!["Name".to_string(), "Age".to_string()]);
    table.add_row(vec!["Alice".to_string(), "30".to_string()]);
    table.set_width(65535);

    let output = table.to_string();
    assert!(output.contains("Alice"));
    assert_eq!(table.get_height(), output.lines().count());
}

#[test]
fn test_unicode_cells_render() {
    let mut table = TableWrapper::new();
    table.set_header(vec!["Stadt".to_string()]);
    table.add_row(vec!["M\u{fc}nchen".to_string()]);
    table.set_style("ascii");

    let output = table.to_string();
    assert!(output.contains("M\u{fc}nchen"));
    assert_eq!(table.get_height(), output.lines().count());
}

#[test]
fn test_default_is_empty_table() {
    let table = TableWrapper::default();
    assert_eq!(table.to_string(), "");
    assert_eq!(table.get_height(), 0);
}
