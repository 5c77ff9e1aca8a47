use std::sync::Arc;

use flashcards::card::CardFormat;
use flashcards::collection::DocumentCollection;
use flashcards::index::Topics;
use flashcards::parse::ParseError;
use flashcards::render::RenderedCard;
use flashcards::topic::Topic;

fn index_of(collection: DocumentCollection) -> Topics {
    let cards = collection.into_cards(&Vec::new()).expect("load should succeed");
    let rendered: Vec<Arc<RenderedCard>> = cards
        .into_iter()
        .map(|card| {
            Arc::new(RenderedCard { card, term: String::new(), definition: String::new() })
        })
        .collect();
    Topics::new(&rendered)
}

#[test]
fn declared_topic_round_trip() {
    let text = "topics = [\"a/b\"]\n\n[[cards]]\nterm = \"t\"\ndefinition = \"d\"\n";
    let topics = index_of(DocumentCollection::Document(String::from(text)));

    let under_a = topics.get(&Topic::new("a")).expect("card under a");
    assert_eq!(under_a.len(), 1);
    assert_eq!(under_a[0].card.term.text, "t");

    let under_ab = topics.get(&Topic::new("a/b")).expect("card under a/b");
    assert_eq!(under_ab.len(), 1);
    assert_eq!(under_ab[0].card.definition.text, "d");

    assert!(topics.get(&Topic::new("b")).is_none());
}

#[test]
fn directory_derived_topic() {
    let text = "[[cards]]\nterm = \"cell\"\ndefinition = \"unit of life\"\n";
    let tree = DocumentCollection::RootCollection {
        entries: vec![DocumentCollection::Collection {
            topic: String::from("science"),
            entries: vec![DocumentCollection::Collection {
                topic: String::from("bio"),
                entries: vec![DocumentCollection::Document(String::from(text))],
            }],
        }],
    };
    let topics = index_of(tree);

    let under_science = topics.get(&Topic::new("science")).expect("card under science");
    assert_eq!(under_science.len(), 1);
    assert_eq!(under_science[0].card.term.text, "cell");

    let under_bio = topics.get(&Topic::new("science/bio")).expect("card under science/bio");
    assert_eq!(under_bio.len(), 1);

    assert!(topics.get(&Topic::new("bio")).is_none());
}

#[test]
fn missing_term_fails_load() {
    let text = "[[cards]]\ndefinition = \"d\"\n";
    let result = DocumentCollection::Document(String::from(text)).into_cards(&Vec::new());
    match result {
        Err(e) => {
            assert!(matches!(e, ParseError::MissingTerm));
            assert_eq!(e.message(), "missing field: term");
        }
        Ok(_) => panic!("a document without term must fail the whole load"),
    }
}

#[test]
fn missing_definition_fails_load() {
    let text = "[[cards]]\nterm = \"t\"\n";
    let result = DocumentCollection::Document(String::from(text)).into_cards(&Vec::new());
    assert!(matches!(result, Err(ParseError::MissingDefinition)));
}

#[test]
fn bad_toml_fails_load() {
    let result = DocumentCollection::Document(String::from("=# not toml")).into_cards(&Vec::new());
    assert!(matches!(result, Err(ParseError::Syntax(_))));
}

#[test]
fn side_shapes_and_formats() {
    let text = "[[cards]]\nterm = { text = \"x^2\", format = \"tex\" }\ndefinition = { text = \"plain\" }\n";
    let cards =
        DocumentCollection::Document(String::from(text)).into_cards(&Vec::new()).expect("load");
    assert_eq!(cards.len(), 1);
    assert_eq!(cards[0].term.text, "x^2");
    assert!(cards[0].term.format == CardFormat::Tex);
    assert!(cards[0].definition.format == CardFormat::Markdown);
}

#[test]
fn bad_format_fails_load() {
    let text = "[[cards]]\nterm = { text = \"x\", format = \"pdf\" }\ndefinition = \"d\"\n";
    let result = DocumentCollection::Document(String::from(text)).into_cards(&Vec::new());
    assert!(matches!(result, Err(ParseError::InvalidFormat)));
}

#[test]
fn missing_text_fails_load() {
    let text = "[[cards]]\nterm = { format = \"tex\" }\ndefinition = \"d\"\n";
    let result = DocumentCollection::Document(String::from(text)).into_cards(&Vec::new());
    assert!(matches!(result, Err(ParseError::MissingText)));
}

#[test]
fn bad_side_shape_fails_load() {
    let text = "[[cards]]\nterm = 5\ndefinition = \"d\"\n";
    let result = DocumentCollection::Document(String::from(text)).into_cards(&Vec::new());
    assert!(matches!(result, Err(ParseError::InvalidSide)));
}

#[test]
fn bad_topics_fails_load() {
    let text = "topics = [5]\n[[cards]]\nterm = \"t\"\ndefinition = \"d\"\n";
    let result = DocumentCollection::Document(String::from(text)).into_cards(&Vec::new());
    assert!(matches!(result, Err(ParseError::InvalidTopics)));
}

#[test]
fn card_appears_under_exactly_its_topics() {
    let text = "[[cards]]\nterm = \"t1\"\ndefinition = \"d1\"\ntopics = [\"x/y\"]\n[[cards]]\nterm = \"t2\"\ndefinition = \"d2\"\ntopics = [\"z\"]\n";
    let topics = index_of(DocumentCollection::Document(String::from(text)));
    let all = topics.all_topics();
    let mut names: Vec<String> = all.iter().map(Topic::name).collect();
    names.sort();
    assert_eq!(names, vec!["x", "x/y", "z"]);

    for name in ["x", "x/y"] {
        let bucket = topics.get(&Topic::new(name)).expect("bucket");
        assert_eq!(bucket.len(), 1);
        assert_eq!(bucket[0].card.term.text, "t1");
    }
    let bucket = topics.get(&Topic::new("z")).expect("bucket");
    assert_eq!(bucket.len(), 1);
    assert_eq!(bucket[0].card.term.text, "t2");
}

#[test]
fn subtopics_are_direct_children() {
    let text = "[[cards]]\nterm = \"t\"\ndefinition = \"d\"\ntopics = [\"a/b\", \"a/c\", \"a/b/d\"]\n";
    let topics = index_of(DocumentCollection::Document(String::from(text)));
    let children = topics.subtopics(&Topic::new("a"));
    let mut names: Vec<String> = children.iter().map(Topic::name).collect();
    names.sort();
    assert_eq!(names, vec!["a/b", "a/c"]);
}
