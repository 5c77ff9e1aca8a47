use vstd::prelude::*;

verus! {

use vstd::string::StrSliceExecFns;

/// A hierarchical topic label: a non-empty sequence of path segments,
/// shown to users joined with `/`.
#[derive(Debug)]
pub struct Topic(pub Vec<String>);

impl View for Topic {
    type V = Seq<Seq<char>>;

    open spec fn view(&self) -> Seq<Seq<char>> {
        self.0.deep_view()
    }
}

impl DeepView for Topic {
    type V = Seq<Seq<char>>;

    open spec fn deep_view(&self) -> Seq<Seq<char>> {
        self.view()
    }
}

/// The segments of a `/`-separated path, in order. Splitting never yields an
/// empty result: a string without `/` (even the empty string) is one segment.
pub open spec fn split_topic(s: Seq<char>) -> Seq<Seq<char>>
    decreases s.len(),
{
    if s.len() == 0 {
        seq![Seq::<char>::empty()]
    } else if s[0] == '/' {
        seq![Seq::<char>::empty()] + split_topic(s.drop_first())
    } else {
        let rest = split_topic(s.drop_first());
        seq![seq![s[0]] + rest[0]] + rest.drop_first()
    }
}

/// The display form of a topic: its segments joined with `/`.
pub open spec fn join_slash(segs: Seq<Seq<char>>) -> Seq<char>
    decreases segs.len(),
{
    if segs.len() == 0 {
        Seq::empty()
    } else if segs.len() == 1 {
        segs[0]
    } else {
        segs[0] + seq!['/'] + join_slash(segs.drop_first())
    }
}

pub proof fn lemma_split_len(s: Seq<char>)
    ensures
        split_topic(s).len() >= 1,
    decreases s.len(),
{
    if s.len() == 0 {
    } else {
        lemma_split_len(s.drop_first());
    }
}

pub proof fn lemma_split_slash_free(s: Seq<char>)
    requires
        forall|j: int| 0 <= j < s.len() ==> s[j] != '/',
    ensures
        split_topic(s) == seq![s],
    decreases s.len(),
{
    if s.len() == 0 {
        assert(split_topic(s) =~~= seq![s]);
    } else {
        lemma_split_slash_free(s.drop_first());
        assert(split_topic(s) =~~= seq![s]);
    }
}

pub proof fn lemma_split_concat(a: Seq<char>, b: Seq<char>)
    ensures
        split_topic(a + seq!['/'] + b) == split_topic(a) + split_topic(b),
    decreases a.len(),
{
    let s = a + seq!['/'] + b;
    if a.len() == 0 {
        assert(s.drop_first() =~= b);
        lemma_split_len(b);
        assert(split_topic(s) =~~= split_topic(a) + split_topic(b));
    } else {
        assert(s.drop_first() =~= a.drop_first() + seq!['/'] + b);
        lemma_split_concat(a.drop_first(), b);
        lemma_split_len(a.drop_first());
        lemma_split_len(b);
        assert(split_topic(s) =~~= split_topic(a) + split_topic(b));
    }
}

impl Topic {
    /// Parse a `/`-separated path into a topic.
    pub fn new(topic: &str) -> (r: Topic)
        ensures
            r@ == split_topic(topic@),
            r@.len() >= 1,
    {
        let ghost s = topic@;
        let len = topic.unicode_len();
        let mut segments: Vec<String> = Vec::new();
        let mut seg_start: usize = 0;
        let mut i: usize = 0;
        proof {
            assert(segments.deep_view() =~= Seq::<Seq<char>>::empty());
            assert(s.skip(0) =~= s);
            assert(Seq::<Seq<char>>::empty() + split_topic(s) =~= split_topic(s));
        }
        while i < len
            invariant
                len == s.len(),
                seg_start <= i <= len,
                topic@ == s,
                forall|j: int| seg_start <= j < i ==> s[j] != '/',
                split_topic(s) == segments.deep_view() + split_topic(s.skip(seg_start as int)),
            decreases len - i,
        {
            if topic.get_char(i) == '/' {
                let seg = topic.substring_char(seg_start, i).to_owned();
                let ghost dv = segments.deep_view();
                proof {
                    let part = s.subrange(seg_start as int, i as int);
                    let tail = s.skip(i as int + 1);
                    assert(s.skip(seg_start as int) =~= part + seq!['/'] + tail);
                    lemma_split_concat(part, tail);
                    lemma_split_slash_free(part);
                }
                segments.push(seg);
                proof {
                    let part = s.subrange(seg_start as int, i as int);
                    let tail = s.skip(i as int + 1);
                    assert(segments.deep_view() =~= dv + seq![part]);
                    assert(dv + seq![part] + split_topic(tail) =~= dv + (seq![part] + split_topic(
                        tail,
                    )));
                }
                seg_start = i + 1;
            }
            i = i + 1;
        }
        let seg = topic.substring_char(seg_start, len).to_owned();
        let ghost dv = segments.deep_view();
        proof {
            let part = s.skip(seg_start as int);
            lemma_split_slash_free(part);
        }
        segments.push(seg);
        proof {
            assert(segments.deep_view() =~= dv + seq![s.skip(seg_start as int)]);
            lemma_split_len(s);
        }
        Topic(segments)
    }

    /// A new topic that extends this one by one more segment.
    pub fn push(&self, segment: String) -> (r: Topic)
        ensures
            r@ == self@.push(segment@),
    {
        let mut segments = self.0.clone();
        proof {
            assert(segments.deep_view() =~= self.0.deep_view());
        }
        let ghost dv = segments.deep_view();
        segments.push(segment);
        proof {
            assert(segments.deep_view() =~= dv.push(segment@));
        }
        Topic(segments)
    }

    /// The last segment.
    pub fn basename(&self) -> (r: &str)
        requires
            self@.len() >= 1,
        ensures
            r@ == self@.last(),
    {
        self.0[self.0.len() - 1].as_str()
    }

    /// All non-empty prefixes of this topic, shortest first; the topic itself
    /// is the last element.
    pub fn ancestors(&self) -> (r: Vec<Topic>)
        ensures
            r@.len() == self@.len(),
            forall|k: int| 0 <= k < r@.len() ==> (#[trigger] r@[k])@ == self@.take(k + 1),
    {
        let mut result: Vec<Topic> = Vec::new();
        let mut prefix: Vec<String> = Vec::new();
        let mut i: usize = 0;
        proof {
            assert(prefix.deep_view() =~= self@.take(0));
        }
        while i < self.0.len()
            invariant
                i <= self.0.len(),
                prefix.deep_view() == self@.take(i as int),
                result@.len() == i,
                forall|k: int| 0 <= k < i ==> (#[trigger] result@[k])@ == self@.take(k + 1),
            decreases self.0.len() - i,
        {
            let ghost pdv = prefix.deep_view();
            prefix.push(self.0[i].clone());
            proof {
                assert(prefix.deep_view() =~= pdv.push(self@[i as int]));
                assert(pdv.push(self@[i as int]) =~= self@.take(i + 1));
            }
            let mut copy: Vec<String> = prefix.clone();
            proof {
                assert(copy.deep_view() =~= prefix.deep_view());
            }
            result.push(Topic(copy));
            i = i + 1;
        }
        result
    }

    /// The display form: segments joined with `/`.
    pub fn name(&self) -> (r: String)
        ensures
            r@ == join_slash(self@),
    {
        if self.0.len() == 0 {
            return String::new();
        }
        let mut out: String = self.0[0].clone();
        let mut i: usize = 1;
        while i < self.0.len()
            invariant
                1 <= i <= self.0.len(),
                self@.len() == self.0.len(),
                out@ == join_slash(self@.take(i as int)),
            decreases self.0.len() - i,
        {
            out.append("/");
            out.append(self.0[i].as_str());
            proof {
                reveal_strlit("/");
                assert("/"@ =~= seq!['/']);
                lemma_join_push(self@.take(i as int), self@[i as int]);
                assert(self@.take(i as int).push(self@[i as int]) =~= self@.take(i + 1));
            }
            i = i + 1;
        }
        proof {
            assert(self@.take(self@.len() as int) =~= self@);
        }
        out
    }
}

pub proof fn lemma_join_push(segs: Seq<Seq<char>>, b: Seq<char>)
    requires
        segs.len() >= 1,
    ensures
        join_slash(segs.push(b)) == join_slash(segs) + seq!['/'] + b,
    decreases segs.len(),
{
    if segs.len() == 1 {
        let two = segs.push(b);
        assert(two.drop_first() =~~= seq![b]);
        assert(join_slash(seq![b]) == b);
        assert(join_slash(two) == two[0] + seq!['/'] + join_slash(two.drop_first()));
        assert(join_slash(segs.push(b)) =~= segs[0] + seq!['/'] + b);
    } else {
        assert(segs.push(b).drop_first() =~~= segs.drop_first().push(b));
        lemma_join_push(segs.drop_first(), b);
        assert(join_slash(segs.push(b)) =~= join_slash(segs) + seq!['/'] + b);
    }
}

impl Clone for Topic {
    /// A clone is equal to the original, segment for segment.
    fn clone(&self) -> (r: Self)
        ensures
            r@ == self@,
    {
        let segments = self.0.clone();
        proof {
            assert(segments.deep_view() =~= self.0.deep_view());
        }
        Topic(segments)
    }
}

impl PartialEq for Topic {
    fn eq(&self, other: &Topic) -> (r: bool) {
        if self.0.len() != other.0.len() {
            proof {
                assert(self@.len() == self.0@.len());
                assert(other@.len() == other.0@.len());
            }
            return false;
        }
        let mut i: usize = 0;
        while i < self.0.len()
            invariant
                i <= self.0.len(),
                self.0.len() == other.0.len(),
                forall|j: int| 0 <= j < i ==> self@[j] == other@[j],
            decreases self.0.len() - i,
        {
            if !(self.0[i] == other.0[i]) {
                assert(self@[i as int] != other@[i as int]);
                return false;
            }
            i = i + 1;
        }
        proof {
            assert(self@ =~= other@);
        }
        true
    }
}

impl vstd::std_specs::cmp::PartialEqSpecImpl for Topic {
    open spec fn obeys_eq_spec() -> bool {
        true
    }

    open spec fn eq_spec(&self, other: &Topic) -> bool {
        self@ == other@
    }
}

/// One topic path is an ancestor of another when it is a non-empty prefix of
/// it (every topic is an ancestor of itself).
pub open spec fn is_ancestor_of(p: Seq<Seq<char>>, t: Seq<Seq<char>>) -> bool {
    1 <= p.len() <= t.len() && p == t.take(p.len() as int)
}

/// All ancestors of all members of a set of topic paths.
pub open spec fn ancestor_closure(ts: Set<Seq<Seq<char>>>) -> Set<Seq<Seq<char>>> {
    Set::new(
        |p: Seq<Seq<char>>|
            exists|t: Seq<Seq<char>>| #[trigger] ts.contains(t) && is_ancestor_of(p, t),
    )
}

/// A set of topic paths is closed under ancestry when it holds every
/// non-empty prefix of each of its members.
pub open spec fn closed_under_ancestors(ts: Set<Seq<Seq<char>>>) -> bool {
    forall|t: Seq<Seq<char>>, i: int|
        #[trigger] ts.contains(t) && 1 <= i <= t.len() ==> ts.contains(#[trigger] t.take(i))
}

/// The set of topic paths named by a list of topics.
pub open spec fn view_set(ts: Seq<Topic>) -> Set<Seq<Seq<char>>> {
    Set::new(|p: Seq<Seq<char>>| exists|i: int| 0 <= i < ts.len() && (#[trigger] ts[i])@ == p)
}

/// The set of the members of a list of topic paths.
pub open spec fn path_set(ts: Seq<Seq<Seq<char>>>) -> Set<Seq<Seq<char>>> {
    Set::new(|p: Seq<Seq<char>>| exists|i: int| 0 <= i < ts.len() && ts[i] == p)
}

/// A list of topics names the same set of paths as the list of their paths.
pub proof fn lemma_view_set_is_path_set(ts: Seq<Topic>, ps: Seq<Seq<Seq<char>>>)
    requires
        ps.len() == ts.len(),
        forall|i: int| 0 <= i < ts.len() ==> ps[i] == (#[trigger] ts[i])@,
    ensures
        view_set(ts) == path_set(ps),
{
    assert forall|p: Seq<Seq<char>>| view_set(ts).contains(p) implies path_set(ps).contains(
        p,
    ) by {
        let i = choose|i: int| 0 <= i < ts.len() && (#[trigger] ts[i])@ == p;
        assert(ps[i] == p);
    }
    assert forall|p: Seq<Seq<char>>| path_set(ps).contains(p) implies view_set(ts).contains(
        p,
    ) by {
        let i = choose|i: int| 0 <= i < ps.len() && ps[i] == p;
        assert((ts[i])@ == p);
    }
    assert(view_set(ts) =~= path_set(ps));
}

/// An ancestor closure is itself closed under ancestry: whenever it holds a
/// topic, it holds every non-empty prefix of that topic.
pub proof fn lemma_closure_closed(ts: Set<Seq<Seq<char>>>)
    ensures
        closed_under_ancestors(ancestor_closure(ts)),
{
    let c = ancestor_closure(ts);
    assert forall|p: Seq<Seq<char>>, i: int| #[trigger] c.contains(p) && 1 <= i <= p.len() implies c.contains(
        #[trigger] p.take(i),
    ) by {
        let t = choose|t: Seq<Seq<char>>| #[trigger] ts.contains(t) && is_ancestor_of(p, t);
        assert(p.take(i) =~~= t.take(i));
        assert(is_ancestor_of(t.take(i), t));
    }
}

/// Expanding to ancestor closure twice is the same as expanding once.
pub proof fn lemma_closure_idempotent(ts: Set<Seq<Seq<char>>>)
    ensures
        ancestor_closure(ancestor_closure(ts)) == ancestor_closure(ts),
{
    let c = ancestor_closure(ts);
    let cc = ancestor_closure(c);
    assert forall|p: Seq<Seq<char>>| cc.contains(p) implies c.contains(p) by {
        let t = choose|t: Seq<Seq<char>>| #[trigger] c.contains(t) && is_ancestor_of(p, t);
        let u = choose|u: Seq<Seq<char>>| #[trigger] ts.contains(u) && is_ancestor_of(t, u);
        assert(p =~~= u.take(p.len() as int));
        assert(is_ancestor_of(p, u));
    }
    assert forall|p: Seq<Seq<char>>| c.contains(p) implies cc.contains(p) by {
        let t = choose|t: Seq<Seq<char>>| #[trigger] ts.contains(t) && is_ancestor_of(p, t);
        assert(p.take(p.len() as int) =~~= p);
        assert(c.contains(p) && is_ancestor_of(p, p));
    }
    assert(cc =~= c);
}

/// A set that is already closed under ancestry, and whose members are all
/// non-empty, is unchanged by ancestor-closure expansion.
pub proof fn lemma_closure_of_closed(ts: Set<Seq<Seq<char>>>)
    requires
        closed_under_ancestors(ts),
        forall|t: Seq<Seq<char>>| #[trigger] ts.contains(t) ==> t.len() >= 1,
    ensures
        ancestor_closure(ts) == ts,
{
    let c = ancestor_closure(ts);
    assert forall|p: Seq<Seq<char>>| c.contains(p) implies ts.contains(p) by {
        let t = choose|t: Seq<Seq<char>>| #[trigger] ts.contains(t) && is_ancestor_of(p, t);
        assert(ts.contains(t.take(p.len() as int)));
    }
    assert forall|p: Seq<Seq<char>>| ts.contains(p) implies c.contains(p) by {
        assert(p.take(p.len() as int) =~~= p);
        assert(ts.contains(p) && is_ancestor_of(p, p));
    }
    assert(c =~= ts);
}

/// Whether a list holds a topic with this path.
pub fn contains_topic(list: &Vec<Topic>, t: &Topic) -> (r: bool)
    ensures
        r == view_set(list@).contains(t@),
{
    let mut i: usize = 0;
    while i < list.len()
        invariant
            i <= list@.len(),
            forall|j: int| 0 <= j < i ==> (#[trigger] list@[j])@ != t@,
        decreases list@.len() - i,
    {
        if &list[i] == t {
            return true;
        }
        i = i + 1;
    }
    false
}

/// Expand a list of topics to its ancestor closure, without duplicates.
///
/// The result holds exactly the ancestors of the given topics, each once.
pub fn close_topics(topics: &Vec<Topic>) -> (r: Vec<Topic>)
    requires
        forall|k: int| 0 <= k < topics@.len() ==> (#[trigger] topics@[k])@.len() >= 1,
    ensures
        view_set(r@) == ancestor_closure(view_set(topics@)),
        forall|i: int, j: int| 0 <= i < j < r@.len() ==> (#[trigger] r@[i])@ != (#[trigger] r@[j])@,
        forall|k: int| 0 <= k < r@.len() ==> (#[trigger] r@[k])@.len() >= 1,
{
    let mut out: Vec<Topic> = Vec::new();
    let mut n: usize = 0;
    while n < topics.len()
        invariant
            n <= topics@.len(),
            forall|k: int| 0 <= k < topics@.len() ==> (#[trigger] topics@[k])@.len() >= 1,
            forall|i: int, j: int|
                0 <= i < j < out@.len() ==> (#[trigger] out@[i])@ != (#[trigger] out@[j])@,
            forall|k: int| 0 <= k < out@.len() ==> (#[trigger] out@[k])@.len() >= 1,
            forall|p: Seq<Seq<char>>|
                view_set(out@).contains(p) ==> ancestor_closure(view_set(topics@)).contains(p),
            forall|j: int, k: int|
                0 <= j < n && 1 <= k <= topics@[j]@.len() ==> view_set(out@).contains(
                    #[trigger] topics@[j]@.take(k),
                ),
        decreases topics@.len() - n,
    {
        let ancs = topics[n].ancestors();
        let mut m: usize = 0;
        while m < ancs.len()
            invariant
                m <= ancs@.len(),
                n < topics@.len(),
                ancs@.len() == topics@[n as int]@.len(),
                forall|k: int|
                    0 <= k < ancs@.len() ==> (#[trigger] ancs@[k])@ == topics@[n as int]@.take(
                        k + 1,
                    ),
                forall|k: int| 0 <= k < topics@.len() ==> (#[trigger] topics@[k])@.len() >= 1,
                forall|i: int, j: int|
                    0 <= i < j < out@.len() ==> (#[trigger] out@[i])@ != (#[trigger] out@[j])@,
                forall|k: int| 0 <= k < out@.len() ==> (#[trigger] out@[k])@.len() >= 1,
                forall|p: Seq<Seq<char>>|
                    view_set(out@).contains(p) ==> ancestor_closure(view_set(topics@)).contains(p),
                forall|j: int, k: int|
                    0 <= j < n && 1 <= k <= topics@[j]@.len() ==> view_set(out@).contains(
                        #[trigger] topics@[j]@.take(k),
                    ),
                forall|k: int| 1 <= k <= m ==> view_set(out@).contains(topics@[n as int]@.take(k)),
            decreases ancs@.len() - m,
        {
            let a = ancs[m].clone();
            if !contains_topic(&out, &a) {
                let ghost oldout = out@;
                let ghost av = a@;
                out.push(a);
                proof {
                    let tn = topics@[n as int]@;
                    assert(av == tn.take(m + 1));
                    assert(is_ancestor_of(av, tn));
                    assert(0 <= n < topics@.len() && (topics@[n as int])@ == tn);
                    assert(view_set(topics@).contains(tn));
                    assert(view_set(topics@).contains(tn) && is_ancestor_of(av, tn));
                    assert(ancestor_closure(view_set(topics@)).contains(av));
                    assert forall|p: Seq<Seq<char>>| view_set(out@).contains(p) implies view_set(
                        oldout,
                    ).contains(p) || p == av by {
                        let i = choose|i: int| 0 <= i < out@.len() && (#[trigger] out@[i])@ == p;
                        if i < oldout.len() {
                            assert(oldout[i]@ == p);
                        }
                    }
                    assert forall|p: Seq<Seq<char>>|
                        view_set(oldout).contains(p) || p == av implies view_set(out@).contains(
                        p,
                    ) by {
                        if view_set(oldout).contains(p) {
                            let i = choose|i: int|
                                0 <= i < oldout.len() && (#[trigger] oldout[i])@ == p;
                            assert(out@[i]@ == p);
                        } else {
                            assert(out@[out@.len() - 1]@ == p);
                        }
                    }
                    assert forall|p: Seq<Seq<char>>| view_set(out@).contains(p) implies ancestor_closure(
                        view_set(topics@),
                    ).contains(p) by {
                        if view_set(oldout).contains(p) {
                        } else {
                            assert(p == av);
                        }
                    }
                }
            }
            m = m + 1;
        }
        n = n + 1;
    }
    proof {
        let full = ancestor_closure(view_set(topics@));
        assert forall|p: Seq<Seq<char>>| full.contains(p) implies view_set(out@).contains(p) by {
            let t = choose|t: Seq<Seq<char>>|
                #[trigger] view_set(topics@).contains(t) && is_ancestor_of(p, t);
            let j = choose|j: int| 0 <= j < topics@.len() && (#[trigger] topics@[j])@ == t;
            assert(view_set(out@).contains(topics@[j]@.take(p.len() as int)));
        }
        assert(view_set(out@) =~= full);
    }
    out
}

} // verus!
