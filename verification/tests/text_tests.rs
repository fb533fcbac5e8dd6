use control_daemon::text::lines_of;

fn owned(v: &[&str]) -> Vec<String> {
    v.iter().map(|s| s.to_string()).collect()
}

#[test]
fn lines_split_at_newlines() {
    assert_eq!(lines_of("a\r\nb\n\nc"), owned(&["a", "b", "", "c"]));
    assert_eq!(lines_of(""), owned(&[]));
    assert_eq!(lines_of("x\n"), owned(&["x"]));
    assert_eq!(lines_of("\n"), owned(&[""]));
    assert_eq!(lines_of("a\rb"), owned(&["a\rb"]));
    assert_eq!(lines_of("a\r"), owned(&["a\r"]));
    assert_eq!(lines_of("é\nü"), owned(&["é", "ü"]));
}
