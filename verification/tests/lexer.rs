use wikirdf::sql::InsertParser;

fn row(fields: &[&str]) -> Vec<String> {
    fields.iter().map(|f| f.to_string()).collect()
}

#[test]
fn yields_rows_in_order() {
    let mut p = InsertParser::from_line("INSERT INTO t VALUES (1,2),(3,4);".to_string());
    assert_eq!(p.next_value(), Some(row(&["1", "2"])));
    assert_eq!(p.next_value(), Some(row(&["3", "4"])));
    assert_eq!(p.next_value(), None);
    assert_eq!(p.next_value(), None);
}

#[test]
fn rows_collects_everything() {
    let mut p = InsertParser::from_line("x (1,'a'),(2,'b'),(3,'c');".to_string());
    let rows = p.rows();
    assert_eq!(rows, vec![row(&["1", "a"]), row(&["2", "b"]), row(&["3", "c"])]);
}

#[test]
fn quoted_fields_drop_the_quotes() {
    let mut p = InsertParser::from_line("(42,'Foo_Bar');".to_string());
    assert_eq!(p.next_value(), Some(row(&["42", "Foo_Bar"])));
}

#[test]
fn escaped_quote_stays_in_the_field() {
    // A backslash escapes the next character; both are kept in the raw field.
    let mut p = InsertParser::from_line(r"(1,'Foo\'Bar');".to_string());
    assert_eq!(p.next_value(), Some(row(&["1", r"Foo\'Bar"])));
    assert_eq!(p.next_value(), None);
}

#[test]
fn escaped_backslash_stays_in_the_field() {
    let mut p = InsertParser::from_line(r"(1,'a\\b');".to_string());
    assert_eq!(p.next_value(), Some(row(&["1", r"a\\b"])));
}

#[test]
fn delimiters_inside_quotes_are_data() {
    let mut p = InsertParser::from_line("(1,'a,b(c)d;e');".to_string());
    assert_eq!(p.next_value(), Some(row(&["1", "a,b(c)d;e"])));
}

#[test]
fn semicolon_between_rows_ends_the_statement() {
    let mut p = InsertParser::from_line("(1,2);(3,4);".to_string());
    assert_eq!(p.next_value(), Some(row(&["1", "2"])));
    assert_eq!(p.next_value(), None);
}

#[test]
fn semicolon_inside_a_row_aborts() {
    let mut p = InsertParser::from_line("(1,;2),(3,4);".to_string());
    assert_eq!(p.next_value(), None);
}

#[test]
fn unterminated_line_stops_quietly() {
    let mut p = InsertParser::from_line("(1,'open".to_string());
    assert_eq!(p.next_value(), None);
}

#[test]
fn empty_line_yields_nothing() {
    let mut p = InsertParser::from_line(String::new());
    assert_eq!(p.next_value(), None);
}

#[test]
fn text_before_and_between_rows_is_ignored() {
    let mut p = InsertParser::from_line("INSERT INTO t VALUES (7,8) , (9,10);".to_string());
    assert_eq!(p.next_value(), Some(row(&["7", "8"])));
    assert_eq!(p.next_value(), Some(row(&["9", "10"])));
    assert_eq!(p.next_value(), None);
}

#[test]
fn empty_quoted_field() {
    let mut p = InsertParser::from_line("(1,'');".to_string());
    assert_eq!(p.next_value(), Some(row(&["1", ""])));
}
