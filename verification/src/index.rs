use vstd::prelude::*;

verus! {

use crate::render::RenderedCard;
use crate::topic::{contains_topic, view_set, Topic};
use std::sync::Arc;

/// Relies on `Arc::clone`, which returns a new handle to the same
/// allocation: the clone is the same value.
#[verifier::external_body]
fn arc_clone(b: &Arc<RenderedCard>) -> (res: Arc<RenderedCard>)
    ensures
        res == *b,
{
    Arc::clone(b)
}

/// Whether this card is tagged with the topic path `p`.
pub open spec fn card_has_topic(c: Arc<RenderedCard>, p: Seq<Seq<char>>) -> bool {
    c@.card.topics.contains(p)
}

/// Whether the index has a bucket keyed by the topic path `p`.
pub open spec fn has_key(t: Topics, p: Seq<Seq<char>>) -> bool {
    exists|i: int| 0 <= i < t.entries@.len() && (#[trigger] t.entries@[i]).0@ == p
}

/// Whether some card of the list is tagged with the topic path `p`.
pub open spec fn some_card_has(cards: Seq<Arc<RenderedCard>>, p: Seq<Seq<char>>) -> bool {
    exists|j: int| 0 <= j < cards.len() && card_has_topic(#[trigger] cards[j], p)
}

/// The reverse index from topic to cards: one bucket per topic path, each
/// holding shared handles to the cards tagged with it, in card order.
pub struct Topics {
    pub entries: Vec<(Topic, Vec<Arc<RenderedCard>>)>,
}

/// What it means for `t` to index `cards`: its keys are distinct and are
/// exactly the topics the cards carry, and each bucket holds exactly the
/// cards tagged with its key, in their original order.
pub open spec fn is_index_for(t: Topics, cards: Seq<Arc<RenderedCard>>) -> bool {
    &&& forall|i: int, j: int|
        0 <= i < j < t.entries@.len() ==> (#[trigger] t.entries@[i]).0@ != (
        #[trigger] t.entries@[j]).0@
    &&& forall|p: Seq<Seq<char>>| #[trigger] has_key(t, p) <==> some_card_has(cards, p)
    &&& forall|i: int|
        0 <= i < t.entries@.len() ==> (#[trigger] t.entries@[i]).1@ == cards.filter(
            |c: Arc<RenderedCard>| card_has_topic(c, t.entries@[i].0@),
        )
}

impl Topics {
    /// Build the index: for every card and every topic in its resolved set,
    /// the card appears in that topic's bucket.
    pub fn new(cards: &Vec<Arc<RenderedCard>>) -> (r: Topics)
        ensures
            is_index_for(r, cards@),
            forall|i: int| 0 <= i < r.entries@.len() ==> (#[trigger] r.entries@[i]).1@.len() >= 1,
    {
        // First pass: collect the distinct topic paths, in first-seen order.
        let mut keys: Vec<Topic> = Vec::new();
        let mut ci: usize = 0;
        while ci < cards.len()
            invariant
                ci <= cards@.len(),
                forall|a: int, b: int|
                    0 <= a < b < keys@.len() ==> (#[trigger] keys@[a])@ != (#[trigger] keys@[b])@,
                forall|p: Seq<Seq<char>>|
                    view_set(keys@).contains(p) ==> some_card_has(cards@, p),
                forall|j: int, p: Seq<Seq<char>>|
                    0 <= j < ci && #[trigger] card_has_topic(cards@[j], p) ==> view_set(
                        keys@,
                    ).contains(p),
            decreases cards@.len() - ci,
        {
            let rc: &RenderedCard = &cards[ci];
            let tv: &Vec<Topic> = &rc.card.topics;
            proof {
                assert(cards@[ci as int]@.card.topics == view_set(tv@));
            }
            let mut ti: usize = 0;
            while ti < tv.len()
                invariant
                    ti <= tv@.len(),
                    ci < cards@.len(),
                    cards@[ci as int]@.card.topics == view_set(tv@),
                    forall|a: int, b: int|
                        0 <= a < b < keys@.len() ==> (#[trigger] keys@[a])@ != (
                        #[trigger] keys@[b])@,
                    forall|p: Seq<Seq<char>>|
                        view_set(keys@).contains(p) ==> some_card_has(cards@, p),
                    forall|j: int, p: Seq<Seq<char>>|
                        0 <= j < ci && #[trigger] card_has_topic(cards@[j], p) ==> view_set(
                            keys@,
                        ).contains(p),
                    forall|k: int|
                        0 <= k < ti ==> view_set(keys@).contains((#[trigger] tv@[k])@),
                decreases tv@.len() - ti,
            {
                let t = &tv[ti];
                if !contains_topic(&keys, t) {
                    let ghost oldkeys = keys@;
                    keys.push(t.clone());
                    proof {
                        assert forall|p: Seq<Seq<char>>| view_set(keys@).contains(p) implies (
                        view_set(oldkeys).contains(p) || p == tv@[ti as int]@) by {
                            let i = choose|i: int|
                                0 <= i < keys@.len() && (#[trigger] keys@[i])@ == p;
                            if i < oldkeys.len() {
                                assert(oldkeys[i]@ == p);
                            }
                        }
                        assert forall|p: Seq<Seq<char>>|
                            view_set(oldkeys).contains(p) || p == tv@[ti as int]@ implies view_set(
                            keys@,
                        ).contains(p) by {
                            if view_set(oldkeys).contains(p) {
                                let i = choose|i: int|
                                    0 <= i < oldkeys.len() && (#[trigger] oldkeys[i])@ == p;
                                assert(keys@[i]@ == p);
                            } else {
                                assert(keys@[keys@.len() - 1]@ == p);
                            }
                        }
                        assert(view_set(tv@).contains(tv@[ti as int]@));
                        assert(card_has_topic(cards@[ci as int], tv@[ti as int]@));
                    }
                }
                ti = ti + 1;
            }
            ci = ci + 1;
        }
        // Second pass: one bucket per key, filtering the cards in order.
        let mut entries: Vec<(Topic, Vec<Arc<RenderedCard>>)> = Vec::new();
        let mut ki: usize = 0;
        while ki < keys.len()
            invariant
                ki <= keys@.len(),
                entries@.len() == ki,
                forall|a: int, b: int|
                    0 <= a < b < keys@.len() ==> (#[trigger] keys@[a])@ != (#[trigger] keys@[b])@,
                forall|p: Seq<Seq<char>>|
                    view_set(keys@).contains(p) ==> some_card_has(cards@, p),
                forall|j: int, p: Seq<Seq<char>>|
                    0 <= j < cards@.len() && #[trigger] card_has_topic(cards@[j], p) ==> view_set(
                        keys@,
                    ).contains(p),
                forall|i: int| 0 <= i < ki ==> (#[trigger] entries@[i]).0@ == keys@[i]@,
                forall|i: int|
                    0 <= i < ki ==> (#[trigger] entries@[i]).1@ == cards@.filter(
                        |c: Arc<RenderedCard>| card_has_topic(c, entries@[i].0@),
                    ),
            decreases keys@.len() - ki,
        {
            let key = &keys[ki];
            let ghost kp = keys@[ki as int]@;
            let mut bucket: Vec<Arc<RenderedCard>> = Vec::new();
            let mut cj: usize = 0;
            proof {
                reveal(Seq::filter);
                assert(cards@.take(0).filter(|c: Arc<RenderedCard>| card_has_topic(c, kp)) =~= Seq::<
                    Arc<RenderedCard>,
                >::empty());
            }
            while cj < cards.len()
                invariant
                    cj <= cards@.len(),
                    kp == key@,
                    bucket@ == cards@.take(cj as int).filter(
                        |c: Arc<RenderedCard>| card_has_topic(c, kp),
                    ),
                decreases cards@.len() - cj,
            {
                let rc: &RenderedCard = &cards[cj];
                let ghost taken = cards@.take(cj as int);
                proof {
                    reveal(Seq::filter);
                    assert(cards@.take(cj as int + 1).drop_last() =~= taken);
                    assert(cards@.take(cj as int + 1).last() == cards@[cj as int]);
                    assert(cards@[cj as int]@.card.topics == view_set(rc.card.topics@));
                }
                if contains_topic(&rc.card.topics, key) {
                    bucket.push(arc_clone(&cards[cj]));
                } else {
                    proof {
                        assert(!card_has_topic(cards@[cj as int], kp));
                    }
                }
                cj = cj + 1;
            }
            proof {
                assert(cards@.take(cards@.len() as int) =~= cards@);
            }
            let pair = (key.clone(), bucket);
            entries.push(pair);
            proof {
                assert((entries@[ki as int]).0@ == kp);
                assert((entries@[ki as int]).1@ == cards@.filter(
                    |c: Arc<RenderedCard>| card_has_topic(c, entries@[ki as int].0@),
                ));
            }
            ki = ki + 1;
        }
        let r = Topics { entries };
        proof {
            assert forall|p: Seq<Seq<char>>| #[trigger] has_key(r, p) implies some_card_has(
                cards@,
                p,
            ) by {
                let i = choose|i: int|
                    0 <= i < r.entries@.len() && (#[trigger] r.entries@[i]).0@ == p;
                assert(keys@[i]@ == p);
                assert(view_set(keys@).contains(p));
            }
            assert forall|p: Seq<Seq<char>>| some_card_has(cards@, p) implies has_key(r, p) by {
                let j = choose|j: int|
                    0 <= j < cards@.len() && card_has_topic(#[trigger] cards@[j], p);
                assert(view_set(keys@).contains(p));
                let i = choose|i: int| 0 <= i < keys@.len() && (#[trigger] keys@[i])@ == p;
                assert((r.entries@[i]).0@ == p);
            }
            assert forall|i: int| 0 <= i < r.entries@.len() implies (
            #[trigger] r.entries@[i]).1@.len() >= 1 by {
                let p = r.entries@[i].0@;
                assert(keys@[i]@ == p);
                assert(view_set(keys@).contains(p));
                assert(some_card_has(cards@, p));
                let j = choose|j: int|
                    0 <= j < cards@.len() && card_has_topic(#[trigger] cards@[j], p);
                cards@.lemma_filter_contains(|c: Arc<RenderedCard>| card_has_topic(c, p), j);
                assert(r.entries@[i].1@.contains(cards@[j]));
            }
        }
        r
    }

    /// Exact-match lookup of a topic's bucket of cards.
    pub fn get(&self, topic: &Topic) -> (r: Option<&Vec<Arc<RenderedCard>>>)
        ensures
            match r {
                Some(b) => exists|i: int|
                    0 <= i < self.entries@.len() && (#[trigger] self.entries@[i]).0@ == topic@
                        && b@ == self.entries@[i].1@,
                None => !has_key(*self, topic@),
            },
    {
        let mut i: usize = 0;
        while i < self.entries.len()
            invariant
                i <= self.entries@.len(),
                forall|j: int| 0 <= j < i ==> (#[trigger] self.entries@[j]).0@ != topic@,
            decreases self.entries@.len() - i,
        {
            let pair = &self.entries[i];
            if pair.0.eq(topic) {
                return Some(&pair.1);
            }
            i = i + 1;
        }
        None
    }

    /// Every topic key of the index.
    pub fn all_topics(&self) -> (r: Vec<Topic>)
        ensures
            r@.len() == self.entries@.len(),
            forall|i: int| 0 <= i < r@.len() ==> (#[trigger] r@[i])@ == self.entries@[i].0@,
    {
        let mut out: Vec<Topic> = Vec::new();
        let mut i: usize = 0;
        while i < self.entries.len()
            invariant
                i <= self.entries@.len(),
                out@.len() == i,
                forall|j: int| 0 <= j < i ==> (#[trigger] out@[j])@ == self.entries@[j].0@,
            decreases self.entries@.len() - i,
        {
            out.push(self.entries[i].0.clone());
            i = i + 1;
        }
        out
    }

    /// The keys one level below a topic: its direct children in the index.
    pub fn subtopics(&self, topic: &Topic) -> (r: Vec<Topic>)
        ensures
            forall|j: int|
                0 <= j < r@.len() ==> has_key(*self, (#[trigger] r@[j])@) && is_child_of(
                    r@[j]@,
                    topic@,
                ),
            forall|i: int|
                0 <= i < self.entries@.len() && is_child_of(
                    (#[trigger] self.entries@[i]).0@,
                    topic@,
                ) ==> exists|j: int| 0 <= j < r@.len() && (#[trigger] r@[j])@ == self.entries@[i].0@,
    {
        let mut out: Vec<Topic> = Vec::new();
        let mut i: usize = 0;
        while i < self.entries.len()
            invariant
                i <= self.entries@.len(),
                forall|j: int|
                    0 <= j < out@.len() ==> has_key(*self, (#[trigger] out@[j])@) && is_child_of(
                        out@[j]@,
                        topic@,
                    ),
                forall|k: int|
                    0 <= k < i && is_child_of((#[trigger] self.entries@[k]).0@, topic@) ==> exists|
                        j: int,
                    | 0 <= j < out@.len() && (#[trigger] out@[j])@ == self.entries@[k].0@,
            decreases self.entries@.len() - i,
        {
            let pair = &self.entries[i];
            if is_child(&pair.0, topic) {
                let ghost oldout = out@;
                out.push(pair.0.clone());
                proof {
                    assert((self.entries@[i as int]).0@ == self.entries@[i as int].0@);
                    assert(out@[out@.len() - 1]@ == self.entries@[i as int].0@);
                    assert forall|k: int|
                        0 <= k < i + 1 && is_child_of(
                            (#[trigger] self.entries@[k]).0@,
                            topic@,
                        ) implies exists|j: int|
                        0 <= j < out@.len() && (#[trigger] out@[j])@ == self.entries@[k].0@ by {
                        if k < i {
                            let j = choose|j: int|
                                0 <= j < oldout.len() && (#[trigger] oldout[j])@
                                    == self.entries@[k].0@;
                            assert(out@[j]@ == self.entries@[k].0@);
                        } else {
                            assert(out@[out@.len() - 1]@ == self.entries@[k].0@);
                        }
                    }
                }
            }
            i = i + 1;
        }
        out
    }
}

/// One topic path lies directly below another: one segment longer, with the
/// other as its prefix.
pub open spec fn is_child_of(c: Seq<Seq<char>>, p: Seq<Seq<char>>) -> bool {
    c.len() == p.len() + 1 && c.take(p.len() as int) == p
}

/// Whether one topic lies directly below another.
pub fn is_child(key: &Topic, parent: &Topic) -> (r: bool)
    ensures
        r == is_child_of(key@, parent@),
{
    if key.0.len() == 0 || key.0.len() - 1 != parent.0.len() {
        proof {
            assert(key@.len() == key.0@.len());
            assert(parent@.len() == parent.0@.len());
        }
        return false;
    }
    let mut j: usize = 0;
    while j < parent.0.len()
        invariant
            j <= parent.0@.len(),
            key.0@.len() == parent.0@.len() + 1,
            forall|m: int| 0 <= m < j ==> key@[m] == parent@[m],
        decreases parent.0@.len() - j,
    {
        if !(key.0[j] == parent.0[j]) {
            assert(key@[j as int] != parent@[j as int]);
            assert(key@.take(parent@.len() as int)[j as int] != parent@[j as int]);
            return false;
        }
        j = j + 1;
    }
    proof {
        assert(key@.take(parent@.len() as int) =~= parent@);
    }
    true
}

/// Whether a bucket keyed `p` holds the card `c`.
pub open spec fn appears_under(t: Topics, c: Arc<RenderedCard>, p: Seq<Seq<char>>) -> bool {
    exists|i: int|
        0 <= i < t.entries@.len() && (#[trigger] t.entries@[i]).0@ == p && t.entries@[i].1@.contains(
            c,
        )
}

/// A card appears in the index under exactly its own resolved topic set:
/// the set of keys whose buckets hold the card equals the card's topics.
pub proof fn lemma_index_topics_exact(
    t: Topics,
    cards: Seq<Arc<RenderedCard>>,
    c: Arc<RenderedCard>,
)
    requires
        is_index_for(t, cards),
        cards.contains(c),
    ensures
        forall|p: Seq<Seq<char>>| #[trigger] appears_under(t, c, p) <==> c@.card.topics.contains(p),
{
    assert forall|p: Seq<Seq<char>>| #[trigger] appears_under(t, c, p) implies c@.card.topics.contains(
        p,
    ) by {
        let i = choose|i: int|
            0 <= i < t.entries@.len() && (#[trigger] t.entries@[i]).0@ == p
                && t.entries@[i].1@.contains(c);
        let bucket = t.entries@[i].1@;
        let idx = choose|idx: int| 0 <= idx < bucket.len() && bucket[idx] == c;
        cards.lemma_filter_pred(|x: Arc<RenderedCard>| card_has_topic(x, t.entries@[i].0@), idx);
        assert(card_has_topic(c, p));
    }
    assert forall|p: Seq<Seq<char>>| c@.card.topics.contains(p) implies appears_under(t, c, p) by {
        let j = choose|j: int| 0 <= j < cards.len() && cards[j] == c;
        assert(card_has_topic(cards[j], p));
        assert(some_card_has(cards, p));
        assert(has_key(t, p));
        let i = choose|i: int| 0 <= i < t.entries@.len() && (#[trigger] t.entries@[i]).0@ == p;
        cards.lemma_filter_contains(|x: Arc<RenderedCard>| card_has_topic(x, t.entries@[i].0@), j);
        assert(t.entries@[i].1@.contains(c));
    }
}

} // verus!
