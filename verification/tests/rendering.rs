use flashcards::card::{CardFormat, CardSide};
use flashcards::render::{markdown, render_markdown};

#[test]
fn markdown_paragraph() {
    assert_eq!(markdown("hello"), "<p>hello</p>\n");
}

#[test]
fn markdown_heading() {
    assert_eq!(markdown("# Title"), "<h1>Title</h1>\n");
}

#[test]
fn markdown_renders_formula() {
    let html = markdown("before $x$ after");
    assert!(html.contains("katex"));
    assert!(html.contains("before"));
    assert!(html.contains("after"));
}

#[test]
fn bad_formula_kept_as_written() {
    let html = markdown("$\\badmacro{$");
    assert!(html.contains("badmacro"));
}

#[test]
fn markdown_side_wrapped_in_prose() {
    let side = CardSide { text: String::from("hi"), format: CardFormat::Markdown };
    let html = render_markdown(&side);
    assert!(html.starts_with("<div class=\"prose"));
    assert!(html.ends_with("</div>"));
    assert!(html.contains("<p>hi</p>"));
}
