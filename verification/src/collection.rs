use vstd::prelude::*;

verus! {

use crate::card::{
    Card,
    CardV,
    card_wf,
    lemma_document_topics_closed,
    spec_document,
    document_from_value,
};
use crate::parse::{parse_toml, toml_tree, ParseError, ParseErrorV};
use crate::topic::{closed_under_ancestors, split_topic, Topic};

broadcast use vstd::std_specs::vec::group_vec_axioms;

/// A tree of card sources mirroring a directory: one document's text, a
/// named collection of children, the unnamed root, or an ignored entry.
pub enum DocumentCollection {
    Document(String),
    Collection { topic: String, entries: Vec<DocumentCollection> },
    RootCollection { entries: Vec<DocumentCollection> },
    Empty,
}

/// The cards of a whole tree, flattened in entry order; the first error
/// wins. `acc` is the stack of topics accumulated from enclosing
/// collections: entering a named collection extends the innermost
/// accumulated topic by the collection's label (or, at the top, starts a
/// fresh topic by splitting the label on `/`), and a document's cards
/// inherit every topic on the stack.
pub open spec fn spec_collection(c: DocumentCollection, acc: Seq<Seq<Seq<char>>>) -> Result<
    Seq<CardV>,
    ParseErrorV,
>
    decreases c,
    via spec_collection_decreases
{
    match c {
        DocumentCollection::Document(data) => match toml_tree(data@) {
            None => Err(ParseErrorV::Syntax),
            Some(t) => spec_document(t, acc),
        },
        DocumentCollection::Collection { topic, entries } => {
            let new_topic = if acc.len() == 0 {
                split_topic(topic@)
            } else {
                acc.last().push(topic@)
            };
            spec_entries(entries@, acc.push(new_topic))
        },
        DocumentCollection::RootCollection { entries } => spec_entries(entries@, acc),
        DocumentCollection::Empty => Ok(Seq::empty()),
    }
}

/// The concatenated cards of a list of sibling nodes, in order; the first
/// error wins.
pub open spec fn spec_entries(entries: Seq<DocumentCollection>, acc: Seq<Seq<Seq<char>>>) -> Result<
    Seq<CardV>,
    ParseErrorV,
>
    decreases entries,
    via spec_entries_decreases
{
    if entries.len() == 0 {
        Ok(Seq::empty())
    } else {
        match spec_collection(entries[0], acc) {
            Err(e) => Err(e),
            Ok(cs) => match spec_entries(entries.drop_first(), acc) {
                Ok(rest) => Ok(cs + rest),
                Err(e) => Err(e),
            },
        }
    }
}

#[via_fn]
proof fn spec_collection_decreases(c: DocumentCollection, acc: Seq<Seq<Seq<char>>>) {
    match c {
        DocumentCollection::Collection { topic, entries } => {
            assert(decreases_to!(c => entries));
            assert(decreases_to!(entries => entries@));
        },
        DocumentCollection::RootCollection { entries } => {
            assert(decreases_to!(c => entries));
            assert(decreases_to!(entries => entries@));
        },
        _ => {},
    }
}

#[via_fn]
proof fn spec_entries_decreases(entries: Seq<DocumentCollection>, acc: Seq<Seq<Seq<char>>>) {
    if entries.len() > 0 {
        broadcast use vstd::seq::axiom_seq_index_decreases;
        broadcast use vstd::seq::axiom_seq_subrange_decreases;

        assert(decreases_to!(entries => entries[0]));
        assert(entries.drop_first().len() < entries.len());
    }
}

/// Every card a whole tree yields has an ancestor-closed topic set:
/// whenever it holds a topic, it holds every non-empty prefix of that topic
/// as well.
pub proof fn lemma_collection_topics_closed(
    c: DocumentCollection,
    acc: Seq<Seq<Seq<char>>>,
    cards: Seq<CardV>,
    k: int,
)
    requires
        spec_collection(c, acc) == Ok::<Seq<CardV>, ParseErrorV>(cards),
        0 <= k < cards.len(),
    ensures
        closed_under_ancestors(cards[k].topics),
    decreases c,
{
    match c {
        DocumentCollection::Document(data) => match toml_tree(data@) {
            Some(t) => {
                lemma_document_topics_closed(t, acc, cards, k);
            },
            None => {
                assert(false);
            },
        },
        DocumentCollection::Collection { topic, entries } => {
            let new_topic = if acc.len() == 0 {
                split_topic(topic@)
            } else {
                acc.last().push(topic@)
            };
            assert(decreases_to!(c => entries));
            assert(decreases_to!(entries => entries@));
            lemma_entries_topics_closed(entries@, acc.push(new_topic), cards, k);
        },
        DocumentCollection::RootCollection { entries } => {
            assert(decreases_to!(c => entries));
            assert(decreases_to!(entries => entries@));
            lemma_entries_topics_closed(entries@, acc, cards, k);
        },
        DocumentCollection::Empty => {
            assert(false);
        },
    }
}

/// The same, for the concatenated cards of a list of sibling nodes.
pub proof fn lemma_entries_topics_closed(
    entries: Seq<DocumentCollection>,
    acc: Seq<Seq<Seq<char>>>,
    cards: Seq<CardV>,
    k: int,
)
    requires
        spec_entries(entries, acc) == Ok::<Seq<CardV>, ParseErrorV>(cards),
        0 <= k < cards.len(),
    ensures
        closed_under_ancestors(cards[k].topics),
    decreases entries,
{
    broadcast use vstd::seq::axiom_seq_index_decreases;
    broadcast use vstd::seq::axiom_seq_subrange_decreases;

    if entries.len() == 0 {
        assert(false);
    } else {
        match spec_collection(entries[0], acc) {
            Ok(cs) => match spec_entries(entries.drop_first(), acc) {
                Ok(rest) => {
                    assert(cards == cs + rest);
                    if k < cs.len() {
                        assert(decreases_to!(entries => entries[0]));
                        lemma_collection_topics_closed(entries[0], acc, cs, k);
                        assert(cards[k] == cs[k]);
                    } else {
                        assert(entries.drop_first().len() < entries.len());
                        lemma_entries_topics_closed(entries.drop_first(), acc, rest, k - cs.len());
                        assert(cards[k] == rest[k - cs.len()]);
                    }
                },
                Err(_) => {
                    assert(false);
                },
            },
            Err(_) => {
                assert(false);
            },
        }
    }
}

impl DocumentCollection {
    /// Flatten the tree into its cards, with `topics` as the stack of
    /// already-accumulated ancestor topics.
    pub fn into_cards(self, topics: &Vec<Topic>) -> (r: Result<Vec<Card>, ParseError>)
        requires
            forall|k: int| 0 <= k < topics@.len() ==> (#[trigger] topics@[k])@.len() >= 1,
        ensures
            match r {
                Ok(cards) => spec_collection(self, topics.deep_view()) == Ok::<
                    Seq<CardV>,
                    ParseErrorV,
                >(cards.deep_view()) && forall|k: int|
                    0 <= k < cards@.len() ==> card_wf(#[trigger] cards@[k]),
                Err(e) => spec_collection(self, topics.deep_view()) == Err::<
                    Seq<CardV>,
                    ParseErrorV,
                >(e@),
            },
    {
        let c = self;
        Self::cards_of(&c, topics)
    }

    /// Flatten one node by reference.
    fn cards_of(&self, acc: &Vec<Topic>) -> (r: Result<Vec<Card>, ParseError>)
        requires
            forall|k: int| 0 <= k < acc@.len() ==> (#[trigger] acc@[k])@.len() >= 1,
        ensures
            match r {
                Ok(cards) => spec_collection(*self, acc.deep_view()) == Ok::<
                    Seq<CardV>,
                    ParseErrorV,
                >(cards.deep_view()) && forall|k: int|
                    0 <= k < cards@.len() ==> card_wf(#[trigger] cards@[k]),
                Err(e) => spec_collection(*self, acc.deep_view()) == Err::<Seq<CardV>, ParseErrorV>(
                    e@,
                ),
            },
        decreases *self,
    {
        match self {
            DocumentCollection::Document(data) => match parse_toml(data.as_str()) {
                Err(m) => Err(ParseError::Syntax(m)),
                Ok(value) => document_from_value(&value, acc),
            },
            DocumentCollection::Empty => {
                let out: Vec<Card> = Vec::new();
                proof {
                    assert(out.deep_view() =~= Seq::<CardV>::empty());
                }
                Ok(out)
            },
            DocumentCollection::RootCollection { entries } => {
                proof {
                    assert(decreases_to!(*self => *entries));
                }
                Self::entries_cards(entries, acc)
            },
            DocumentCollection::Collection { topic, entries } => {
                let ghost new_topic = if acc.deep_view().len() == 0 {
                    split_topic(topic@)
                } else {
                    acc.deep_view().last().push(topic@)
                };
                let t = if acc.len() == 0 {
                    Topic::new(topic.as_str())
                } else {
                    acc[acc.len() - 1].push(topic.clone())
                };
                proof {
                    assert(t@ == new_topic);
                }
                let mut acc2: Vec<Topic> = Vec::new();
                let mut k: usize = 0;
                proof {
                    assert(acc2.deep_view() =~= acc.deep_view().take(0));
                }
                while k < acc.len()
                    invariant
                        k <= acc@.len(),
                        acc2.deep_view() == acc.deep_view().take(k as int),
                        forall|m: int| 0 <= m < acc@.len() ==> (#[trigger] acc@[m])@.len() >= 1,
                        forall|m: int| 0 <= m < acc2@.len() ==> (#[trigger] acc2@[m])@.len() >= 1,
                    decreases acc@.len() - k,
                {
                    let ghost adv = acc2.deep_view();
                    acc2.push(acc[k].clone());
                    proof {
                        assert(acc2.deep_view() =~= adv.push(acc@[k as int]@));
                        assert(adv.push(acc@[k as int]@) =~= acc.deep_view().take(k + 1));
                    }
                    k = k + 1;
                }
                proof {
                    assert(acc.deep_view().take(acc@.len() as int) =~= acc.deep_view());
                }
                let ghost adv2 = acc2.deep_view();
                acc2.push(t);
                proof {
                    assert(acc2.deep_view() =~= adv2.push(new_topic));
                    assert(acc2.deep_view() == acc.deep_view().push(new_topic));
                    assert(decreases_to!(*self => *entries));
                }
                Self::entries_cards(entries, &acc2)
            },
        }
    }

    /// Flatten a list of sibling nodes and concatenate their cards.
    fn entries_cards(entries: &Vec<DocumentCollection>, acc: &Vec<Topic>) -> (r: Result<
        Vec<Card>,
        ParseError,
    >)
        requires
            forall|k: int| 0 <= k < acc@.len() ==> (#[trigger] acc@[k])@.len() >= 1,
        ensures
            match r {
                Ok(cards) => spec_entries(entries@, acc.deep_view()) == Ok::<
                    Seq<CardV>,
                    ParseErrorV,
                >(cards.deep_view()) && forall|k: int|
                    0 <= k < cards@.len() ==> card_wf(#[trigger] cards@[k]),
                Err(e) => spec_entries(entries@, acc.deep_view()) == Err::<Seq<CardV>, ParseErrorV>(
                    e@,
                ),
            },
        decreases *entries,
    {
        let mut out: Vec<Card> = Vec::new();
        let mut i: usize = 0;
        proof {
            assert(entries@.skip(0) =~= entries@);
            assert(out.deep_view() =~= Seq::<CardV>::empty());
            if spec_entries(entries@, acc.deep_view()) is Ok {
                assert(Seq::<CardV>::empty() + spec_entries(entries@, acc.deep_view())->Ok_0
                    =~= spec_entries(entries@, acc.deep_view())->Ok_0);
            }
        }
        while i < entries.len()
            invariant
                i <= entries@.len(),
                forall|k: int| 0 <= k < acc@.len() ==> (#[trigger] acc@[k])@.len() >= 1,
                spec_entries(entries@, acc.deep_view()) == (match spec_entries(
                    entries@.skip(i as int),
                    acc.deep_view(),
                ) {
                    Ok(rest) => Ok::<Seq<CardV>, ParseErrorV>(out.deep_view() + rest),
                    Err(e) => Err(e),
                }),
                forall|k: int| 0 <= k < out@.len() ==> card_wf(#[trigger] out@[k]),
            decreases entries@.len() - i,
        {
            proof {
                assert(entries@.skip(i as int)[0] == entries@[i as int]);
                assert(entries@.skip(i as int).drop_first() =~= entries@.skip(i as int + 1));
                assert(decreases_to!(*entries => entries@[i as int]));
            }
            match Self::cards_of(&entries[i], acc) {
                Err(e) => {
                    return Err(e);
                },
                Ok(mut chunk) => {
                    let total: usize = chunk.len();
                    let ghost chv = chunk.deep_view();
                    let ghost odv = out.deep_view();
                    let ghost chunk0 = chunk@;
                    let mut m: usize = 0;
                    while chunk.len() > 0
                        invariant
                            total == chunk0.len(),
                            m + chunk@.len() == total,
                            chunk@ == chunk0.skip(m as int),
                            out@.len() == odv.len() + m,
                            out.deep_view() == odv + chv.take(m as int),
                            chv == Seq::new(chunk0.len(), |j: int| chunk0[j]@),
                            forall|k: int| 0 <= k < chunk0.len() ==> card_wf(#[trigger] chunk0[k]),
                            forall|k: int| 0 <= k < out@.len() ==> card_wf(#[trigger] out@[k]),
                        decreases chunk@.len(),
                    {
                        let card = chunk.remove(0);
                        proof {
                            assert(card == chunk0[m as int]);
                            assert(chunk@ =~= chunk0.skip(m as int + 1));
                        }
                        let ghost before = out.deep_view();
                        out.push(card);
                        proof {
                            assert(out.deep_view() =~= before.push(chunk0[m as int]@));
                            assert(before.push(chunk0[m as int]@) =~= odv + chv.take(m + 1));
                        }
                        m = m + 1;
                    }
                    proof {
                        assert(chv.take(chv.len() as int) =~= chv);
                        assert(out.deep_view() == odv + chv);
                        if spec_entries(entries@.skip(i as int + 1), acc.deep_view()) is Ok {
                            let rest = spec_entries(
                                entries@.skip(i as int + 1),
                                acc.deep_view(),
                            )->Ok_0;
                            assert((odv + (chv + rest)) =~= ((odv + chv) + rest));
                        }
                    }
                },
            }
            i = i + 1;
        }
        proof {
            assert(entries@.skip(entries@.len() as int) =~= Seq::<DocumentCollection>::empty());
            assert(out.deep_view() + Seq::<CardV>::empty() =~= out.deep_view());
        }
        Ok(out)
    }
}

} // verus!
