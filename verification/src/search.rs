use vstd::prelude::*;

verus! {

use crate::index::Topics;
use crate::topic::{join_slash, Topic};

/// The score that the fuzzy matcher gives a query against a target string,
/// a function of the two strings alone; `None` when nothing matches.
pub uninterp spec fn fuzzy_score(q: Seq<char>, target: Seq<char>) -> Option<isize>;

/// Relies on `sublime_fuzzy::best_match` (case-insensitive fuzzy matching):
/// the score depends on the query and target strings alone.
#[verifier::external_body]
fn best_match_score(query: &str, target: &str) -> (r: Option<isize>)
    ensures
        r == fuzzy_score(query@, target@),
{
    sublime_fuzzy::best_match(query, target).map(|m| m.score())
}

/// The topic paths of an index's keys, in key order.
pub open spec fn key_views(entries: Seq<(Topic, Vec<std::sync::Arc<crate::render::RenderedCard>>)>)
    -> Seq<Seq<Seq<char>>> {
    Seq::new(entries.len(), |i: int| entries[i].0@)
}

/// The topic paths of a list of topics, in order.
pub open spec fn topic_views(ts: Seq<Topic>) -> Seq<Seq<Seq<char>>> {
    Seq::new(ts.len(), |i: int| ts[i]@)
}

/// The scored pairs of a list of topics, in order, with scores as the pairs'
/// views.
pub open spec fn pairs_view(s: Seq<(Topic, isize)>) -> Seq<(Seq<Seq<char>>, isize)> {
    Seq::new(s.len(), |i: int| (s[i].0@, s[i].1))
}

/// The keys the query matches, in key order, each with its score.
pub open spec fn scored_list(q: Seq<char>, keys: Seq<Seq<Seq<char>>>) -> Seq<
    (Seq<Seq<char>>, isize),
>
    decreases keys.len(),
{
    if keys.len() == 0 {
        Seq::empty()
    } else {
        let rest = scored_list(q, keys.drop_first());
        match fuzzy_score(q, join_slash(keys[0])) {
            Some(s) => seq![(keys[0], s)] + rest,
            None => rest,
        }
    }
}

/// Insert a scored pair into a list from the right, moving past every pair
/// with a strictly smaller score: a stable descending insertion.
pub open spec fn insert_desc(s: Seq<(Seq<Seq<char>>, isize)>, x: (Seq<Seq<char>>, isize)) -> Seq<
    (Seq<Seq<char>>, isize),
>
    decreases s.len(),
{
    if s.len() == 0 {
        seq![x]
    } else if s.last().1 >= x.1 {
        s.push(x)
    } else {
        insert_desc(s.drop_last(), x).push(s.last())
    }
}

/// Stable insertion sort by descending score: pairs with equal scores keep
/// their relative order.
pub open spec fn sort_desc(s: Seq<(Seq<Seq<char>>, isize)>) -> Seq<(Seq<Seq<char>>, isize)>
    decreases s.len(),
{
    if s.len() == 0 {
        Seq::empty()
    } else {
        insert_desc(sort_desc(s.drop_last()), s.last())
    }
}

/// The topic paths of a scored list, scores dropped.
pub open spec fn firsts(s: Seq<(Seq<Seq<char>>, isize)>) -> Seq<Seq<Seq<char>>> {
    Seq::new(s.len(), |i: int| s[i].0)
}

/// What a non-empty query returns: the matching keys, sorted by descending
/// score, ties in key order.
pub open spec fn ranked(q: Seq<char>, keys: Seq<Seq<Seq<char>>>) -> Seq<Seq<Seq<char>>> {
    firsts(sort_desc(scored_list(q, keys)))
}

/// A query that matches no key at all yields an empty ranking.
pub proof fn lemma_no_match_empty(q: Seq<char>, keys: Seq<Seq<Seq<char>>>)
    requires
        forall|i: int|
            0 <= i < keys.len() ==> fuzzy_score(q, join_slash(#[trigger] keys[i])) is None,
    ensures
        ranked(q, keys).len() == 0,
    decreases keys.len(),
{
    if keys.len() == 0 {
    } else {
        assert(keys[0] == keys[0]);
        lemma_no_match_empty(q, keys.drop_first());
        assert(scored_list(q, keys) == scored_list(q, keys.drop_first()));
    }
}

/// Inserting at the position where the strictly-smaller suffix starts is
/// the stable descending insertion.
proof fn lemma_insert_desc_at(s: Seq<(Seq<Seq<char>>, isize)>, x: (Seq<Seq<char>>, isize), pos: int)
    requires
        0 <= pos <= s.len(),
        forall|j: int| pos <= j < s.len() ==> s[j].1 < x.1,
        pos > 0 ==> s[pos - 1].1 >= x.1,
    ensures
        insert_desc(s, x) == s.insert(pos, x),
    decreases s.len(),
{
    if pos == s.len() {
        if s.len() == 0 {
            assert(insert_desc(s, x) =~= s.insert(pos, x));
        } else {
            assert(s.last().1 >= x.1);
            assert(s.push(x) =~= s.insert(pos, x));
        }
    } else {
        assert(s.last().1 < x.1);
        lemma_insert_desc_at(s.drop_last(), x, pos);
        assert(insert_desc(s.drop_last(), x).push(s.last()) =~= s.insert(pos, x));
    }
}

/// Insert a scored topic into a list sorted by descending score, after
/// every pair whose score is at least as high.
fn insert_sorted(sorted: &mut Vec<(Topic, isize)>, x: (Topic, isize))
    ensures
        pairs_view(final(sorted)@) == insert_desc(pairs_view(old(sorted)@), (x.0@, x.1)),
{
    let ghost sv = pairs_view(sorted@);
    let ghost xv = (x.0@, x.1);
    let mut pos: usize = sorted.len();
    while pos > 0 && sorted[pos - 1].1 < x.1
        invariant
            pos <= sorted@.len(),
            forall|j: int| pos <= j < sorted@.len() ==> sorted@[j].1 < x.1,
            sv == pairs_view(sorted@),
        decreases pos,
    {
        pos = pos - 1;
    }
    proof {
        assert(forall|j: int| pos <= j < sv.len() ==> sv[j].1 < xv.1);
        lemma_insert_desc_at(sv, xv, pos as int);
    }
    sorted.insert(pos, x);
    proof {
        assert(pairs_view(sorted@) =~= sv.insert(pos as int, xv));
    }
}

/// Rank an index's topics against a free-text query. An empty query returns
/// every topic, in the index's own order; otherwise the topics the fuzzy
/// matcher scores are returned sorted by descending score, ties keeping the
/// index order, and topics with no match are left out.
pub fn search_topics(index: &Topics, query: &str) -> (r: Vec<Topic>)
    ensures
        query@.len() == 0 ==> r@.len() == index.entries@.len() && (forall|i: int|
            0 <= i < r@.len() ==> (#[trigger] r@[i])@ == index.entries@[i].0@),
        query@.len() > 0 ==> topic_views(r@) == ranked(query@, key_views(index.entries@)),
{
    if query.is_empty() {
        return index.all_topics();
    }
    let ghost kv = key_views(index.entries@);
    let mut scored: Vec<(Topic, isize)> = Vec::new();
    let mut i: usize = 0;
    proof {
        assert(kv.skip(0) =~= kv);
        assert(pairs_view(scored@) =~= Seq::<(Seq<Seq<char>>, isize)>::empty());
        assert(Seq::<(Seq<Seq<char>>, isize)>::empty() + scored_list(query@, kv) =~= scored_list(
            query@,
            kv,
        ));
    }
    while i < index.entries.len()
        invariant
            i <= index.entries@.len(),
            kv == key_views(index.entries@),
            scored_list(query@, kv) == pairs_view(scored@) + scored_list(
                query@,
                kv.skip(i as int),
            ),
        decreases index.entries@.len() - i,
    {
        proof {
            assert(kv.skip(i as int)[0] == kv[i as int]);
            assert(kv.skip(i as int).drop_first() =~= kv.skip(i as int + 1));
        }
        let name = index.entries[i].0.name();
        match best_match_score(query, name.as_str()) {
            Some(s) => {
                let ghost pv = pairs_view(scored@);
                scored.push((index.entries[i].0.clone(), s));
                proof {
                    assert(pairs_view(scored@) =~= pv.push((kv[i as int], s)));
                    assert((pv + (seq![(kv[i as int], s)] + scored_list(
                        query@,
                        kv.skip(i as int + 1),
                    ))) =~= (pv.push((kv[i as int], s)) + scored_list(
                        query@,
                        kv.skip(i as int + 1),
                    )));
                }
            },
            None => {},
        }
        i = i + 1;
    }
    proof {
        assert(kv.skip(kv.len() as int) =~= Seq::<Seq<Seq<char>>>::empty());
        assert(pairs_view(scored@) + Seq::<(Seq<Seq<char>>, isize)>::empty() =~= pairs_view(
            scored@,
        ));
    }
    let ghost full = pairs_view(scored@);
    let mut sorted: Vec<(Topic, isize)> = Vec::new();
    let total: usize = scored.len();
    let mut j: usize = 0;
    let ghost scored0 = scored@;
    proof {
        assert(full.take(0) =~= Seq::<(Seq<Seq<char>>, isize)>::empty());
        assert(pairs_view(sorted@) =~= sort_desc(full.take(0)));
        assert(scored@ =~= scored0.skip(0));
    }
    while scored.len() > 0
        invariant
            total == scored0.len(),
            j + scored@.len() == total,
            scored@ == scored0.skip(j as int),
            full == pairs_view(scored0),
            pairs_view(sorted@) == sort_desc(full.take(j as int)),
        decreases scored@.len(),
    {
        let x = scored.remove(0);
        proof {
            assert(x == scored0[j as int]);
            assert(scored@ =~= scored0.skip(j as int + 1));
            assert(full.take(j as int + 1).drop_last() =~= full.take(j as int));
            assert(full.take(j as int + 1).last() == (x.0@, x.1));
        }
        insert_sorted(&mut sorted, x);
        j = j + 1;
    }
    proof {
        assert(full.take(full.len() as int) =~= full);
    }
    let mut out: Vec<Topic> = Vec::new();
    let total2: usize = sorted.len();
    let mut m: usize = 0;
    let ghost sorted0 = sorted@;
    proof {
        assert(sorted@ =~= sorted0.skip(0));
    }
    while sorted.len() > 0
        invariant
            total2 == sorted0.len(),
            m + sorted@.len() == total2,
            sorted@ == sorted0.skip(m as int),
            out@.len() == m,
            forall|k: int| 0 <= k < m ==> (#[trigger] out@[k])@ == sorted0[k].0@,
        decreases sorted@.len(),
    {
        let x = sorted.remove(0);
        proof {
            assert(x == sorted0[m as int]);
            assert(sorted@ =~= sorted0.skip(m as int + 1));
        }
        out.push(x.0);
        m = m + 1;
    }
    proof {
        assert(topic_views(out@) =~= firsts(pairs_view(sorted0)));
        assert(pairs_view(sorted0) == sort_desc(full));
        assert(topic_views(out@) == ranked(query@, kv));
    }
    out
}

} // verus!
