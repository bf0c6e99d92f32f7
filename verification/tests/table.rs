use mole::output::{Column, Data, Table};

fn col(title: &str, width: usize) -> Column {
    Column { title: title.to_string(), width }
}

#[test]
fn create_test_table() {
    let mut t = Table::new(vec![col("Pid", 8), col("Comm", 16), col("usr%", 4), col("Sys%", 4)]);

    t.add_row(vec![
        Data::Int(1),
        Data::Text("aaa".to_string()),
        Data::Fixed(1000),
        Data::Fixed(100),
    ]);
    t.add_row(vec![
        Data::Int(2),
        Data::Text("bbb".to_string()),
        Data::Fixed(2000),
        Data::Fixed(0),
    ]);
    t.add_row(vec![
        Data::Int(3),
        Data::Text("ccc".to_string()),
        Data::Fixed(0),
        Data::Fixed(400),
    ]);
    t.add_row(vec![
        Data::Int(4),
        Data::Text("ddd".to_string()),
        Data::Fixed(0),
        Data::Fixed(500),
    ]);

    println!("{}", t.display_table());
}

#[test]
fn render_single_uint_column() {
    let mut t = Table::new(vec![col("v", 4)]);
    t.add_row(vec![Data::UInt(7)]);
    assert_eq!(t.display_table(), "v    \n----\n7    \n");
}

#[test]
fn render_fixed_one_fractional_digit() {
    let mut t = Table::new(vec![col("v", 4)]);
    t.add_row(vec![Data::Fixed(12345)]);
    assert_eq!(t.display_table(), "v    \n----\n1.2  \n");
}

#[test]
fn render_fixed_negative_and_small() {
    let mut t = Table::new(vec![col("v", 6)]);
    t.sort_by = None;
    t.add_row(vec![Data::Fixed(-5)]);
    assert_eq!(t.display_table(), "v      \n------\n-0.0   \n");
}

#[test]
fn render_signed_int() {
    let mut t = Table::new(vec![col("v", 5)]);
    t.add_row(vec![Data::Int(-42)]);
    assert_eq!(t.display_table(), "v     \n-----\n-42   \n");
}

#[test]
fn render_text_wider_than_column() {
    let mut t = Table::new(vec![col("v", 2)]);
    t.add_row(vec![Data::Text("abcdef".to_string())]);
    assert_eq!(t.display_table(), "v  \n--\nabcdef \n");
}

#[test]
fn sort_is_ascending_and_stable() {
    let mut t = Table::new(vec![col("k", 3), col("tag", 3)]);
    t.add_row(vec![Data::UInt(2), Data::Text("b".to_string())]);
    t.add_row(vec![Data::UInt(1), Data::Text("a".to_string())]);
    t.add_row(vec![Data::UInt(2), Data::Text("c".to_string())]);
    let out = t.display_table();
    assert_eq!(out, "k   tag \n-------\n1   a   \n2   b   \n2   c   \n");
}

#[test]
fn filter_column_drops_empty_rows() {
    let mut t = Table::new(vec![col("a", 4), col("b", 4)]);
    t.filter_by = Some(1);
    assert!(t.add_row(vec![Data::UInt(1), Data::UInt(1)]));
    assert!(t.add_row(vec![Data::UInt(2), Data::UInt(0)]));
    assert!(t.add_row(vec![Data::UInt(3), Data::UInt(5)]));
    assert_eq!(t.data.len(), 2);
}

#[test]
fn filter_treats_empty_text_and_zero_fixed_as_empty() {
    let mut t = Table::new(vec![col("a", 4), col("b", 4)]);
    t.filter_by = Some(1);
    t.add_row(vec![Data::UInt(1), Data::Text(String::new())]);
    assert_eq!(t.data.len(), 0);
    let mut t2 = Table::new(vec![col("a", 4), col("b", 4)]);
    t2.filter_by = Some(1);
    t2.add_row(vec![Data::UInt(1), Data::Fixed(0)]);
    assert_eq!(t2.data.len(), 0);
}

#[test]
fn add_row_rejects_wrong_length() {
    let mut t = Table::new(vec![col("a", 4), col("b", 4)]);
    assert!(!t.add_row(vec![Data::UInt(1)]));
    assert_eq!(t.data.len(), 0);
}

#[test]
fn top_window_keeps_tail_of_ascending_order() {
    let mut t = Table::new(vec![col("v", 4)]);
    t.top = Some(2);
    t.add_row(vec![Data::UInt(3)]);
    t.add_row(vec![Data::UInt(1)]);
    t.add_row(vec![Data::UInt(5)]);
    t.add_row(vec![Data::UInt(2)]);
    t.add_row(vec![Data::UInt(4)]);
    assert_eq!(t.display_table(), "v    \n----\n4    \n5    \n");
}

#[test]
fn clear_data_keeps_configuration() {
    let mut t = Table::new(vec![col("v", 4)]);
    t.top = Some(3);
    t.filter_by = Some(0);
    t.add_row(vec![Data::UInt(9)]);
    t.clear_data();
    assert_eq!(t.data.len(), 0);
    assert_eq!(t.top, Some(3));
    assert_eq!(t.filter_by, Some(0));
    assert_eq!(t.sort_by, Some(0));
}

#[test]
fn column_index_resolves_prefix_and_numeric() {
    let t = Table::new(vec![col("Pid", 8), col("Comm", 16), col("usr%", 4), col("Sys%", 4)]);
    assert_eq!(t.column_index_by_name("Co"), Some(1));
    assert_eq!(t.column_index_by_name("2"), Some(2));
    assert_eq!(t.column_index_by_name("Sys%"), Some(3));
}

#[test]
fn column_index_fails_on_no_match() {
    let t = Table::new(vec![col("Pid", 8), col("Comm", 16)]);
    assert_eq!(t.column_index_by_name("9"), None);
    assert_eq!(t.column_index_by_name("zz"), None);
}

#[test]
fn column_index_empty_string_prefix_matches_first() {
    let t = Table::new(vec![col("Pid", 8), col("Comm", 16)]);
    assert_eq!(t.column_index_by_name(""), Some(0));
}

#[test]
fn render_empty_table_has_header_and_separator_only() {
    let mut t = Table::new(vec![col("v", 4)]);
    assert_eq!(t.display_table(), "v    \n----\n");
}

#[test]
fn render_largest_count() {
    let mut t = Table::new(vec![col("v", 4)]);
    t.add_row(vec![Data::UInt(u64::MAX)]);
    assert_eq!(t.display_table(), "v    \n----\n18446744073709551615 \n");
}

#[test]
fn column_index_ignores_huge_numeric_index() {
    let t = Table::new(vec![col("Pid", 8)]);
    assert_eq!(t.column_index_by_name("99999999999999999999999999"), None);
}
