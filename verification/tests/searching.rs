use std::sync::Arc;

use flashcards::collection::DocumentCollection;
use flashcards::index::Topics;
use flashcards::render::RenderedCard;
use flashcards::search::search_topics;
use flashcards::topic::Topic;

fn index_of(text: &str) -> Topics {
    let cards = DocumentCollection::Document(String::from(text))
        .into_cards(&Vec::new())
        .expect("load should succeed");
    let rendered: Vec<Arc<RenderedCard>> = cards
        .into_iter()
        .map(|card| {
            Arc::new(RenderedCard { card, term: String::new(), definition: String::new() })
        })
        .collect();
    Topics::new(&rendered)
}

#[test]
fn empty_query_returns_all_topics() {
    let topics =
        index_of("[[cards]]\nterm = \"t\"\ndefinition = \"d\"\ntopics = [\"science/bio\", \"math\"]\n");
    let found = search_topics(&topics, "");
    assert_eq!(found.len(), topics.all_topics().len());
    let mut names: Vec<String> = found.iter().map(Topic::name).collect();
    names.sort();
    assert_eq!(names, vec!["math", "science", "science/bio"]);
}

#[test]
fn unmatched_query_returns_nothing() {
    let topics =
        index_of("[[cards]]\nterm = \"t\"\ndefinition = \"d\"\ntopics = [\"science/bio\", \"math\"]\n");
    let found = search_topics(&topics, "qqqq");
    assert_eq!(found.len(), 0);
}

#[test]
fn matching_query_finds_topic() {
    let topics =
        index_of("[[cards]]\nterm = \"t\"\ndefinition = \"d\"\ntopics = [\"science/bio\", \"math\"]\n");
    let found = search_topics(&topics, "science");
    assert!(found.len() >= 1);
    assert_eq!(found[0].name(), "science");
    assert!(found.iter().all(|t| t.name().contains("science")));
}
