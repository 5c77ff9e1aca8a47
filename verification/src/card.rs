use vstd::prelude::*;

verus! {

use crate::parse::{table_get, get_key, str_eq, RawValue, ParseError, ParseErrorV};
use crate::topic::{
    Topic,
    split_topic,
    view_set,
    path_set,
    ancestor_closure,
    close_topics,
    closed_under_ancestors,
    lemma_closure_closed,
    lemma_view_set_is_path_set,
};

/// Which rendering backend a card side asks for.
#[derive(Clone, Copy, Debug, PartialEq, Eq, Structural)]
pub enum CardFormat {
    Markdown,
    Tex,
    Typst,
}

/// One side of a card: its raw markup and the format tag that picks the
/// rendering backend. The format defaults to Markdown when unspecified.
#[derive(Debug)]
pub struct CardSide {
    pub text: String,
    pub format: CardFormat,
}

/// The mathematical value of a `CardSide`.
pub struct CardSideV {
    pub text: Seq<char>,
    pub format: CardFormat,
}

impl View for CardSide {
    type V = CardSideV;

    open spec fn view(&self) -> CardSideV {
        CardSideV { text: self.text@, format: self.format }
    }
}

/// A study card: a term, a definition and its topics.
#[derive(Debug)]
pub struct Card {
    pub term: CardSide,
    pub definition: CardSide,
    pub topics: Vec<Topic>,
}

/// The mathematical value of a `Card`: the topic list is abstracted to the
/// set of paths it names.
pub struct CardV {
    pub term: CardSideV,
    pub definition: CardSideV,
    pub topics: Set<Seq<Seq<char>>>,
}

impl View for Card {
    type V = CardV;

    open spec fn view(&self) -> CardV {
        CardV { term: self.term@, definition: self.definition@, topics: view_set(self.topics@) }
    }
}

impl DeepView for Card {
    type V = CardV;

    open spec fn deep_view(&self) -> CardV {
        self.view()
    }
}

/// The topic list of a card holds no duplicate paths and no empty path.
pub open spec fn card_wf(c: Card) -> bool {
    &&& forall|i: int, j: int|
        0 <= i < j < c.topics@.len() ==> (#[trigger] c.topics@[i])@ != (#[trigger] c.topics@[j])@
    &&& forall|k: int| 0 <= k < c.topics@.len() ==> (#[trigger] c.topics@[k])@.len() >= 1
}

/// The format named by a format tag, if it is one of the recognized tags.
pub open spec fn spec_format(s: Seq<char>) -> Option<CardFormat> {
    if s == "markdown"@ {
        Some(CardFormat::Markdown)
    } else if s == "tex"@ {
        Some(CardFormat::Tex)
    } else if s == "typst"@ {
        Some(CardFormat::Typst)
    } else {
        None
    }
}

/// What a TOML value yields as a card side: a plain string is Markdown text;
/// a table gives the text under `text` and an optional `format` tag; any
/// other shape is an error.
pub open spec fn spec_side(v: RawValue) -> Result<CardSideV, ParseErrorV> {
    match v {
        RawValue::Str(text) => Ok(CardSideV { text: text@, format: CardFormat::Markdown }),
        RawValue::Table(entries) => {
            let fr = match table_get(entries@, "format"@) {
                None => Ok(CardFormat::Markdown),
                Some(fv) => match fv {
                    RawValue::Str(f) => match spec_format(f@) {
                        Some(fmt) => Ok(fmt),
                        None => Err(ParseErrorV::InvalidFormat),
                    },
                    _ => Err(ParseErrorV::InvalidFormat),
                },
            };
            match fr {
                Err(e) => Err(e),
                Ok(format) => match table_get(entries@, "text"@) {
                    Some(tv) => match tv {
                        RawValue::Str(t) => Ok(CardSideV { text: t@, format }),
                        _ => Err(ParseErrorV::InvalidText),
                    },
                    None => Err(ParseErrorV::MissingText),
                },
            }
        },
        _ => Err(ParseErrorV::InvalidSide),
    }
}

/// The topic paths named by a list of TOML values: each must be a string,
/// and each string is split on `/`.
pub open spec fn spec_topic_strs(items: Seq<RawValue>) -> Result<
    Seq<Seq<Seq<char>>>,
    ParseErrorV,
>
    decreases items.len(),
{
    if items.len() == 0 {
        Ok(Seq::empty())
    } else {
        match items[0] {
            RawValue::Str(s) => match spec_topic_strs(items.drop_first()) {
                Ok(rest) => Ok(seq![split_topic(s@)] + rest),
                Err(e) => Err(e),
            },
            _ => Err(ParseErrorV::InvalidTopics),
        }
    }
}

/// The topic paths named by a `topics` value, which must be an array of
/// strings.
pub open spec fn spec_topics_value(v: RawValue) -> Result<Seq<Seq<Seq<char>>>, ParseErrorV> {
    match v {
        RawValue::List(items) => spec_topic_strs(items@),
        _ => Err(ParseErrorV::InvalidTopics),
    }
}

/// A card as declared in its own table, before inherited topics are merged
/// in and the topic set is closed.
pub struct CardParts {
    pub term: CardSideV,
    pub definition: CardSideV,
    pub declared: Seq<Seq<Seq<char>>>,
}

/// What a TOML value yields as a card: a table with a required `term`, a
/// required `definition` and an optional `topics` list.
pub open spec fn spec_card(v: RawValue) -> Result<CardParts, ParseErrorV> {
    match v {
        RawValue::Table(entries) => match table_get(entries@, "term"@) {
            None => Err(ParseErrorV::MissingTerm),
            Some(termv) => match table_get(entries@, "definition"@) {
                None => Err(ParseErrorV::MissingDefinition),
                Some(defv) => {
                    let tr = match table_get(entries@, "topics"@) {
                        None => Ok(Seq::<Seq<Seq<char>>>::empty()),
                        Some(tv) => spec_topics_value(tv),
                    };
                    match tr {
                        Err(e) => Err(e),
                        Ok(declared) => match spec_side(termv) {
                            Err(e) => Err(e),
                            Ok(term) => match spec_side(defv) {
                                Err(e) => Err(e),
                                Ok(definition) => Ok(CardParts { term, definition, declared }),
                            },
                        },
                    }
                },
            },
        },
        _ => Err(ParseErrorV::InvalidCard),
    }
}

/// The cards declared by a list of TOML values, in order; the first bad card
/// fails the whole list.
pub open spec fn spec_cards(items: Seq<RawValue>) -> Result<Seq<CardParts>, ParseErrorV>
    decreases items.len(),
{
    if items.len() == 0 {
        Ok(Seq::empty())
    } else {
        match spec_card(items[0]) {
            Err(e) => Err(e),
            Ok(c) => match spec_cards(items.drop_first()) {
                Ok(rest) => Ok(seq![c] + rest),
                Err(e) => Err(e),
            },
        }
    }
}

/// A declared card completed: the inherited topic paths are merged with its
/// own and the union is expanded to its ancestor closure.
pub open spec fn spec_finish_card(p: CardParts, inherited: Seq<Seq<Seq<char>>>) -> CardV {
    CardV {
        term: p.term,
        definition: p.definition,
        topics: ancestor_closure(path_set(p.declared + inherited)),
    }
}

/// The cards of one parsed document. The document must be a table; its
/// optional `topics` list joins the inherited paths, and every card's topic
/// set is the ancestor closure of its declared topics together with those.
pub open spec fn spec_document(v: RawValue, inherited: Seq<Seq<Seq<char>>>) -> Result<
    Seq<CardV>,
    ParseErrorV,
> {
    match v {
        RawValue::Table(entries) => {
            let tr = match table_get(entries@, "topics"@) {
                None => Ok(Seq::<Seq<Seq<char>>>::empty()),
                Some(tv) => spec_topics_value(tv),
            };
            match tr {
                Err(e) => Err(e),
                Ok(doc_topics) => {
                    let all = inherited + doc_topics;
                    let cr = match table_get(entries@, "cards"@) {
                        None => Ok(Seq::<CardParts>::empty()),
                        Some(cv) => match cv {
                            RawValue::List(items) => spec_cards(items@),
                            _ => Err(ParseErrorV::InvalidCards),
                        },
                    };
                    match cr {
                        Err(e) => Err(e),
                        Ok(parts) => Ok(
                            parts.map_values(|p: CardParts| spec_finish_card(p, all)),
                        ),
                    }
                },
            }
        },
        _ => Err(ParseErrorV::InvalidDocument),
    }
}

/// Read a format tag.
pub fn format_from_str(s: &str) -> (r: Option<CardFormat>)
    ensures
        r == spec_format(s@),
{
    if str_eq(s, "markdown") {
        Some(CardFormat::Markdown)
    } else if str_eq(s, "tex") {
        Some(CardFormat::Tex)
    } else if str_eq(s, "typst") {
        Some(CardFormat::Typst)
    } else {
        None
    }
}

/// Read one card side from a TOML value.
pub fn side_from_value(v: &RawValue) -> (r: Result<CardSide, ParseError>)
    ensures
        match r {
            Ok(side) => spec_side(*v) == Ok::<CardSideV, ParseErrorV>(side@),
            Err(e) => spec_side(*v) == Err::<CardSideV, ParseErrorV>(e@),
        },
{
    match v {
        RawValue::Str(text) => Ok(CardSide { text: text.clone(), format: CardFormat::Markdown }),
        RawValue::Table(entries) => {
            let format = match get_key(entries, "format") {
                None => CardFormat::Markdown,
                Some(fv) => match fv {
                    RawValue::Str(f) => match format_from_str(f.as_str()) {
                        Some(fmt) => fmt,
                        None => {
                            return Err(ParseError::InvalidFormat);
                        },
                    },
                    _ => {
                        return Err(ParseError::InvalidFormat);
                    },
                },
            };
            match get_key(entries, "text") {
                Some(tv) => match tv {
                    RawValue::Str(t) => Ok(CardSide { text: t.clone(), format }),
                    _ => Err(ParseError::InvalidText),
                },
                None => Err(ParseError::MissingText),
            }
        },
        _ => Err(ParseError::InvalidSide),
    }
}

/// Read a `topics` value: an array of `/`-separated strings.
pub fn topics_from_value(v: &RawValue) -> (r: Result<Vec<Topic>, ParseError>)
    ensures
        match r {
            Ok(ts) => spec_topics_value(*v) == Ok::<Seq<Seq<Seq<char>>>, ParseErrorV>(
                ts.deep_view(),
            ) && forall|k: int| 0 <= k < ts@.len() ==> (#[trigger] ts@[k])@.len() >= 1,
            Err(e) => spec_topics_value(*v) == Err::<Seq<Seq<Seq<char>>>, ParseErrorV>(e@),
        },
{
    match v {
        RawValue::List(items) => {
            let mut out: Vec<Topic> = Vec::new();
            let mut i: usize = 0;
            proof {
                assert(spec_topics_value(*v) == spec_topic_strs(items@));
                assert(items@.skip(0) =~= items@);
                assert(out.deep_view() =~= Seq::<Seq<Seq<char>>>::empty());
            }
            while i < items.len()
                invariant
                    i <= items@.len(),
                    spec_topics_value(*v) == spec_topic_strs(items@),
                    forall|k: int| 0 <= k < out@.len() ==> (#[trigger] out@[k])@.len() >= 1,
                    out@.len() == i,
                    spec_topic_strs(items@) == match spec_topic_strs(items@.skip(i as int)) {
                        Ok(rest) => Ok::<Seq<Seq<Seq<char>>>, ParseErrorV>(out.deep_view() + rest),
                        Err(e) => Err(e),
                    },
                decreases items@.len() - i,
            {
                proof {
                    assert(items@.skip(i as int)[0] == items@[i as int]);
                    assert(items@.skip(i as int).drop_first() =~= items@.skip(i as int + 1));
                }
                match &items[i] {
                    RawValue::Str(s) => {
                        let t = Topic::new(s.as_str());
                        let ghost dv = out.deep_view();
                        out.push(t);
                        proof {
                            assert(out.deep_view() =~= dv + seq![split_topic(s@)]);
                            if spec_topic_strs(items@.skip(i as int + 1)) is Ok {
                                let rest = spec_topic_strs(items@.skip(i as int + 1))->Ok_0;
                                assert((dv + seq![split_topic(s@)]) + rest =~= dv + (seq![
                                    split_topic(s@),
                                ] + rest));
                            }
                        }
                    },
                    _ => {
                        proof {
                            assert(!(items@[i as int] matches RawValue::Str(_)));
                            assert(spec_topic_strs(items@.skip(i as int)) == Err::<
                                Seq<Seq<Seq<char>>>,
                                ParseErrorV,
                            >(ParseErrorV::InvalidTopics));
                        }
                        return Err(ParseError::InvalidTopics);
                    },
                }
                i = i + 1;
            }
            proof {
                assert(items@.skip(items@.len() as int) =~= Seq::<RawValue>::empty());
                assert(out.deep_view() + Seq::<Seq<Seq<char>>>::empty() =~= out.deep_view());
            }
            Ok(out)
        },
        _ => Err(ParseError::InvalidTopics),
    }
}

/// Read one card from a TOML value; its topic list holds only the topics
/// the card itself declares.
pub fn card_from_value(v: &RawValue) -> (r: Result<Card, ParseError>)
    ensures
        match r {
            Ok(c) => spec_card(*v) matches Ok(p) && p.term == c.term@ && p.definition
                == c.definition@ && p.declared == c.topics.deep_view() && forall|k: int|
                0 <= k < c.topics@.len() ==> (#[trigger] c.topics@[k])@.len() >= 1,
            Err(e) => spec_card(*v) == Err::<CardParts, ParseErrorV>(e@),
        },
{
    match v {
        RawValue::Table(entries) => {
            let termv = match get_key(entries, "term") {
                Some(t) => t,
                None => {
                    return Err(ParseError::MissingTerm);
                },
            };
            let defv = match get_key(entries, "definition") {
                Some(d) => d,
                None => {
                    return Err(ParseError::MissingDefinition);
                },
            };
            let topics: Vec<Topic> = match get_key(entries, "topics") {
                None => Vec::new(),
                Some(tv) => match topics_from_value(tv) {
                    Ok(ts) => ts,
                    Err(e) => {
                        return Err(e);
                    },
                },
            };
            let term = match side_from_value(termv) {
                Ok(side) => side,
                Err(e) => {
                    return Err(e);
                },
            };
            let definition = match side_from_value(defv) {
                Ok(side) => side,
                Err(e) => {
                    return Err(e);
                },
            };
            Ok(Card { term, definition, topics })
        },
        _ => Err(ParseError::InvalidCard),
    }
}

/// Every card a well-formed document yields has an ancestor-closed topic
/// set: whenever it holds a topic, it holds every non-empty prefix of that
/// topic as well.
pub proof fn lemma_document_topics_closed(
    v: RawValue,
    inherited: Seq<Seq<Seq<char>>>,
    cards: Seq<CardV>,
    k: int,
)
    requires
        spec_document(v, inherited) == Ok::<Seq<CardV>, ParseErrorV>(cards),
        0 <= k < cards.len(),
    ensures
        closed_under_ancestors(cards[k].topics),
{
    match v {
        RawValue::Table(entries) => {
            let tr = match table_get(entries@, "topics"@) {
                None => Ok::<Seq<Seq<Seq<char>>>, ParseErrorV>(Seq::empty()),
                Some(tv) => spec_topics_value(tv),
            };
            match tr {
                Ok(doc_topics) => {
                    let all = inherited + doc_topics;
                    let cr = match table_get(entries@, "cards"@) {
                        None => Ok::<Seq<CardParts>, ParseErrorV>(Seq::empty()),
                        Some(cv) => match cv {
                            RawValue::List(items) => spec_cards(items@),
                            _ => Err(ParseErrorV::InvalidCards),
                        },
                    };
                    match cr {
                        Ok(parts) => {
                            assert(cards == parts.map_values(
                                |p: CardParts| spec_finish_card(p, all),
                            ));
                            assert(cards[k] == spec_finish_card(parts[k], all));
                            lemma_closure_closed(path_set(parts[k].declared + all));
                        },
                        Err(_) => {
                            assert(false);
                        },
                    }
                },
                Err(_) => {
                    assert(false);
                },
            }
        },
        _ => {
            assert(false);
        },
    }
}

/// The declared shape of a card, as `spec_card` yields it.
pub open spec fn card_parts_of(c: Card) -> CardParts {
    CardParts { term: c.term@, definition: c.definition@, declared: c.topics.deep_view() }
}

/// Read a whole document from a TOML value: its cards in order, each with
/// the ancestor closure of its declared topics merged with the inherited
/// and document-level ones. The first bad field fails the whole document.
pub fn document_from_value(v: &RawValue, inherited: &Vec<Topic>) -> (r: Result<
    Vec<Card>,
    ParseError,
>)
    requires
        forall|k: int| 0 <= k < inherited@.len() ==> (#[trigger] inherited@[k])@.len() >= 1,
    ensures
        match r {
            Ok(cards) => spec_document(*v, inherited.deep_view()) == Ok::<Seq<CardV>, ParseErrorV>(
                cards.deep_view(),
            ) && forall|k: int| 0 <= k < cards@.len() ==> card_wf(#[trigger] cards@[k]),
            Err(e) => spec_document(*v, inherited.deep_view()) == Err::<Seq<CardV>, ParseErrorV>(
                e@,
            ),
        },
{
    let entries = match v {
        RawValue::Table(entries) => entries,
        _ => {
            return Err(ParseError::InvalidDocument);
        },
    };
    let doc_topics: Vec<Topic> = match get_key(entries, "topics") {
        None => {
            let empty: Vec<Topic> = Vec::new();
            proof {
                assert(empty.deep_view() =~= Seq::<Seq<Seq<char>>>::empty());
            }
            empty
        },
        Some(tv) => match topics_from_value(tv) {
            Ok(ts) => ts,
            Err(e) => {
                return Err(e);
            },
        },
    };
    let ghost inh_dv = inherited.deep_view();
    let ghost all_paths = inh_dv + doc_topics.deep_view();
    let ghost docr = spec_document(*v, inh_dv);
    proof {
        assert(docr == (match table_get(entries@, "cards"@) {
            None => Ok::<Seq<CardV>, ParseErrorV>(
                Seq::<CardParts>::empty().map_values(|p: CardParts| spec_finish_card(p, all_paths)),
            ),
            Some(cv) => match cv {
                RawValue::List(items) => match spec_cards(items@) {
                    Err(e) => Err(e),
                    Ok(parts) => Ok(
                        parts.map_values(|p: CardParts| spec_finish_card(p, all_paths)),
                    ),
                },
                _ => Err(ParseErrorV::InvalidCards),
            },
        }));
    }
    // The inherited and document-level topics, as one list.
    let mut all: Vec<Topic> = Vec::new();
    let mut k: usize = 0;
    proof {
        assert(all.deep_view() =~= inh_dv.take(0));
    }
    while k < inherited.len()
        invariant
            k <= inherited@.len(),
            inh_dv == inherited.deep_view(),
            forall|m: int| 0 <= m < inherited@.len() ==> (#[trigger] inherited@[m])@.len() >= 1,
            all.deep_view() == inh_dv.take(k as int),
            forall|m: int| 0 <= m < all@.len() ==> (#[trigger] all@[m])@.len() >= 1,
        decreases inherited@.len() - k,
    {
        let ghost adv = all.deep_view();
        all.push(inherited[k].clone());
        proof {
            assert(all.deep_view() =~= adv.push(inherited@[k as int]@));
            assert(adv.push(inherited@[k as int]@) =~= inh_dv.take(k + 1));
        }
        k = k + 1;
    }
    proof {
        assert(inh_dv.take(inh_dv.len() as int) =~= inh_dv);
    }
    let mut k2: usize = 0;
    while k2 < doc_topics.len()
        invariant
            k2 <= doc_topics@.len(),
            inh_dv == inherited.deep_view(),
            forall|m: int| 0 <= m < doc_topics@.len() ==> (#[trigger] doc_topics@[m])@.len() >= 1,
            all.deep_view() == inh_dv + doc_topics.deep_view().take(k2 as int),
            forall|m: int| 0 <= m < all@.len() ==> (#[trigger] all@[m])@.len() >= 1,
        decreases doc_topics@.len() - k2,
    {
        let ghost adv = all.deep_view();
        all.push(doc_topics[k2].clone());
        proof {
            assert(all.deep_view() =~= adv.push(doc_topics@[k2 as int]@));
            assert(adv.push(doc_topics@[k2 as int]@) =~= inh_dv + doc_topics.deep_view().take(
                k2 + 1,
            ));
        }
        k2 = k2 + 1;
    }
    proof {
        assert(doc_topics.deep_view().take(doc_topics@.len() as int) =~= doc_topics.deep_view());
        assert(all.deep_view() == all_paths);
    }
    // The declared cards, still without merged topics.
    let mut parts: Vec<Card> = Vec::new();
    match get_key(entries, "cards") {
        None => {
            proof {
                assert(Seq::<CardParts>::empty().map_values(
                    |p: CardParts| spec_finish_card(p, all_paths),
                ) =~= Seq::<CardV>::empty());
                assert(Seq::new(parts@.len(), |j: int| card_parts_of(parts@[j])) =~= Seq::<
                    CardParts,
                >::empty());
            }
        },
        Some(cv) => match cv {
            RawValue::List(items) => {
                let mut i: usize = 0;
                proof {
                    assert(items@.skip(0) =~= items@);
                    assert(Seq::new(parts@.len(), |j: int| card_parts_of(parts@[j])) =~= Seq::<
                        CardParts,
                    >::empty());
                    assert(Seq::<CardParts>::empty() + spec_cards(items@)->Ok_0 =~= spec_cards(
                        items@,
                    )->Ok_0);
                }
                while i < items.len()
                    invariant
                        i <= items@.len(),
                        parts@.len() == i,
                        docr == spec_document(*v, inherited.deep_view()),
                        docr == (match spec_cards(items@) {
                            Err(e) => Err::<Seq<CardV>, ParseErrorV>(e),
                            Ok(ps) => Ok(
                                ps.map_values(|p: CardParts| spec_finish_card(p, all_paths)),
                            ),
                        }),
                        spec_cards(items@) == (match spec_cards(items@.skip(i as int)) {
                            Ok(rest) => Ok::<Seq<CardParts>, ParseErrorV>(
                                Seq::new(parts@.len(), |j: int| card_parts_of(parts@[j])) + rest,
                            ),
                            Err(e) => Err(e),
                        }),
                        forall|m: int, t: int|
                            0 <= m < parts@.len() && 0 <= t < (#[trigger] parts@[m]).topics@.len()
                                ==> (#[trigger] parts@[m].topics@[t])@.len() >= 1,
                    decreases items@.len() - i,
                {
                    proof {
                        assert(items@.skip(i as int)[0] == items@[i as int]);
                        assert(items@.skip(i as int).drop_first() =~= items@.skip(i as int + 1));
                    }
                    match card_from_value(&items[i]) {
                        Ok(c) => {
                            let ghost pview = Seq::new(
                                parts@.len(),
                                |j: int| card_parts_of(parts@[j]),
                            );
                            let ghost cp = spec_card(items@[i as int])->Ok_0;
                            proof {
                                assert(cp == card_parts_of(c));
                            }
                            parts.push(c);
                            proof {
                                assert(Seq::new(parts@.len(), |j: int| card_parts_of(parts@[j]))
                                    =~= pview.push(cp));
                                if spec_cards(items@.skip(i as int + 1)) is Ok {
                                    let rest = spec_cards(items@.skip(i as int + 1))->Ok_0;
                                    assert((pview + (seq![cp] + rest)) =~= (pview.push(cp) + rest));
                                }
                            }
                        },
                        Err(e) => {
                            return Err(e);
                        },
                    }
                    i = i + 1;
                }
                proof {
                    assert(items@.skip(items@.len() as int) =~= Seq::<RawValue>::empty());
                    assert(Seq::new(parts@.len(), |j: int| card_parts_of(parts@[j]))
                        + Seq::<CardParts>::empty() =~= Seq::new(
                        parts@.len(),
                        |j: int| card_parts_of(parts@[j]),
                    ));
                }
            },
            _ => {
                return Err(ParseError::InvalidCards);
            },
        },
    }
    let ghost parts0 = parts@;
    let ghost pview0 = Seq::new(parts0.len(), |j: int| card_parts_of(parts0[j]));
    proof {
        assert(docr == Ok::<Seq<CardV>, ParseErrorV>(
            pview0.map_values(|p: CardParts| spec_finish_card(p, all_paths)),
        ));
    }
    // Merge and close each card's topics.
    let mut out: Vec<Card> = Vec::new();
    let mut done: usize = 0;
    proof {
        assert(parts@ =~= parts0.skip(0));
    }
    while parts.len() > 0
        invariant
            parts0.len() <= usize::MAX,
            done + parts@.len() == parts0.len(),
            parts@ == parts0.skip(done as int),
            out@.len() == done,
            all.deep_view() == all_paths,
            forall|m: int| 0 <= m < all@.len() ==> (#[trigger] all@[m])@.len() >= 1,
            pview0 == Seq::new(parts0.len(), |j: int| card_parts_of(parts0[j])),
            forall|m: int, t: int|
                0 <= m < parts0.len() && 0 <= t < (#[trigger] parts0[m]).topics@.len() ==> (
                #[trigger] parts0[m].topics@[t])@.len() >= 1,
            forall|m: int|
                0 <= m < done ==> (#[trigger] out@[m])@ == spec_finish_card(
                    pview0[m],
                    all_paths,
                ) && card_wf(out@[m]),
        decreases parts@.len(),
    {
        let c = parts.remove(0);
        proof {
            assert(c == parts0[done as int]);
            assert(parts@ =~= parts0.skip(done as int + 1));
        }
        let Card { term, definition, topics } = c;
        let mut combined = topics;
        let ghost declared = combined.deep_view();
        let mut k3: usize = 0;
        while k3 < all.len()
            invariant
                k3 <= all@.len(),
                all.deep_view() == all_paths,
                forall|m: int| 0 <= m < all@.len() ==> (#[trigger] all@[m])@.len() >= 1,
                combined.deep_view() == declared + all_paths.take(k3 as int),
                forall|m: int, t: int|
                    0 <= m < parts0.len() && 0 <= t < (#[trigger] parts0[m]).topics@.len() ==> (
                    #[trigger] parts0[m].topics@[t])@.len() >= 1,
                declared == parts0[done as int].topics.deep_view(),
                done < parts0.len(),
                forall|m: int| 0 <= m < combined@.len() ==> (#[trigger] combined@[m])@.len() >= 1,
            decreases all@.len() - k3,
        {
            let ghost cdv = combined.deep_view();
            combined.push(all[k3].clone());
            proof {
                assert(combined.deep_view() =~= cdv.push(all@[k3 as int]@));
                assert(cdv.push(all@[k3 as int]@) =~= declared + all_paths.take(k3 + 1));
            }
            k3 = k3 + 1;
        }
        proof {
            assert(all_paths.take(all_paths.len() as int) =~= all_paths);
            assert(combined.deep_view() == declared + all_paths);
        }
        let closed = close_topics(&combined);
        proof {
            lemma_view_set_is_path_set(combined@, combined.deep_view());
            assert(view_set(closed@) == ancestor_closure(path_set(declared + all_paths)));
        }
        out.push(Card { term, definition, topics: closed });
        proof {
            assert(out@[done as int]@ == spec_finish_card(pview0[done as int], all_paths));
        }
        done = done + 1;
    }
    proof {
        assert(parts0.skip(done as int).len() == 0);
        assert(out.deep_view() =~= pview0.map_values(
            |p: CardParts| spec_finish_card(p, all_paths),
        ));
    }
    Ok(out)
}

} // verus!
