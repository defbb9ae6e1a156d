use upcoming_book_releases::authors::{authors_from_text, AuthorsError};

#[test]
fn authors_are_read_line_by_line() {
    let authors = authors_from_text("Brown, Dan\nKing, Stephen\n").unwrap();
    assert_eq!(authors, vec!["Brown, Dan".to_string(), "King, Stephen".to_string()]);
    let authors = authors_from_text("Brown, Dan\r\n\nKing, Stephen").unwrap();
    assert_eq!(
        authors,
        vec!["Brown, Dan".to_string(), "".to_string(), "King, Stephen".to_string()]
    );
}

#[test]
fn empty_author_text_is_refused() {
    assert_eq!(authors_from_text(""), Err(AuthorsError::NoAuthors));
}

#[test]
fn carriage_return_is_dropped_only_before_a_newline() {
    assert_eq!(authors_from_text("a\r").unwrap(), vec!["a\r".to_string()]);
    assert_eq!(
        authors_from_text("a\r\nb\r").unwrap(),
        vec!["a".to_string(), "b\r".to_string()]
    );
    for text in ["a\r", "a\r\nb\r", "Brown, Dan\r\n\nKing, Stephen\n", "x\n\r\n"] {
        let expected: Vec<String> = text.lines().map(String::from).collect();
        assert_eq!(authors_from_text(text).unwrap(), expected);
    }
}
