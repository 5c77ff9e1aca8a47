use flashcards::scanner::{Event, Scanner};

#[test]
fn katex_scanner_works() {
    let mut scanner = Scanner::new("$a$b$$c$$");
    assert_eq!(scanner.next().unwrap(), Event::Text(""));
    assert_eq!(scanner.next().unwrap(), Event::Inline("a"));
    assert_eq!(scanner.next().unwrap(), Event::Text("b"));
    assert_eq!(scanner.next().unwrap(), Event::Block("c"));
}

#[test]
fn scanner_plain_text() {
    let mut scanner = Scanner::new("plain");
    assert_eq!(scanner.next().unwrap(), Event::Text("plain"));
    assert!(scanner.next().is_none());
}

#[test]
fn scanner_unclosed_inline() {
    let mut scanner = Scanner::new("a$bc");
    assert_eq!(scanner.next().unwrap(), Event::Text("a"));
    assert_eq!(scanner.next().unwrap(), Event::Text("bc"));
    assert!(scanner.next().is_none());
}
