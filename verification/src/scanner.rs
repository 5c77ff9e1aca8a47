use vstd::prelude::*;

verus! {

use vstd::string::StrSliceExecFns;

/// Where the scanner stands: in plain text, inside a `$...$` inline formula,
/// or inside a `$$...$$` display formula.
#[derive(Debug, Clone, Copy)]
pub enum State {
    Text,
    Inline,
    Block,
}

/// One piece of a scanned string: plain text, an inline formula, or a
/// display formula (without its delimiters).
#[derive(Debug, PartialEq, Eq)]
pub enum Event<'a> {
    Text(&'a str),
    Inline(&'a str),
    Block(&'a str),
}

/// The mathematical value of an `Event`.
pub enum EventV {
    Text(Seq<char>),
    Inline(Seq<char>),
    Block(Seq<char>),
}

impl<'a> View for Event<'a> {
    type V = EventV;

    open spec fn view(&self) -> EventV {
        match self {
            Event::Text(t) => EventV::Text(t@),
            Event::Inline(t) => EventV::Inline(t@),
            Event::Block(t) => EventV::Block(t@),
        }
    }
}

/// The first position at or after `from` holding `$`.
pub open spec fn find_inline(s: Seq<char>, from: int) -> Option<int>
    decreases s.len() - from,
{
    if from >= s.len() {
        None
    } else if s[from] == '$' {
        Some(from)
    } else {
        find_inline(s, from + 1)
    }
}

/// The first position at or after `from` starting `$$`.
pub open spec fn find_block(s: Seq<char>, from: int) -> Option<int>
    decreases s.len() - from,
{
    if from >= s.len() {
        None
    } else if s[from] == '$' && from + 1 < s.len() && s[from + 1] == '$' {
        Some(from)
    } else {
        find_block(s, from + 1)
    }
}

pub proof fn lemma_find_inline_bounds(s: Seq<char>, from: int)
    ensures
        find_inline(s, from) matches Some(i) ==> from <= i < s.len(),
    decreases s.len() - from,
{
    if from >= s.len() {
    } else if s[from] == '$' {
    } else {
        lemma_find_inline_bounds(s, from + 1);
    }
}

pub proof fn lemma_find_block_bounds(s: Seq<char>, from: int)
    ensures
        find_block(s, from) matches Some(i) ==> from <= i && i + 1 < s.len(),
    decreases s.len() - from,
{
    if from >= s.len() {
    } else if s[from] == '$' && from + 1 < s.len() && s[from + 1] == '$' {
    } else {
        lemma_find_block_bounds(s, from + 1);
    }
}

/// One step of the scanner from the given state and position: the event it
/// yields, the state it moves to, and the position it moves past.
pub open spec fn scan_step(s: Seq<char>, st: State, pos: int) -> (EventV, State, int)
    recommends
        0 <= pos < s.len(),
{
    match st {
        State::Text => {
            let fi = find_inline(s, pos);
            let fb = find_block(s, pos);
            if fi is Some && fb is Some && fb->0 <= fi->0 {
                (EventV::Text(s.subrange(pos, fb->0)), State::Block, fb->0 + 2)
            } else if fi is Some {
                (EventV::Text(s.subrange(pos, fi->0)), State::Inline, fi->0 + 1)
            } else {
                (EventV::Text(s.subrange(pos, s.len() as int)), State::Text, s.len() as int)
            }
        },
        State::Block => match find_block(s, pos) {
            Some(p) => (EventV::Block(s.subrange(pos, p)), State::Text, p + 2),
            None => (EventV::Text(s.subrange(pos, s.len() as int)), State::Block, s.len() as int),
        },
        State::Inline => match find_inline(s, pos) {
            Some(p) => (EventV::Inline(s.subrange(pos, p)), State::Text, p + 1),
            None => (EventV::Text(s.subrange(pos, s.len() as int)), State::Inline, s.len() as int),
        },
    }
}

/// A scanner step from a position inside the string always moves forward,
/// and never past the end.
pub proof fn lemma_scan_step_advances(s: Seq<char>, st: State, pos: int)
    requires
        0 <= pos < s.len(),
    ensures
        pos < scan_step(s, st, pos).2 <= s.len(),
{
    lemma_find_inline_bounds(s, pos);
    lemma_find_block_bounds(s, pos);
}

/// The events of a whole scan, starting at the given state and position.
pub open spec fn scan_events(s: Seq<char>, st: State, pos: int) -> Seq<EventV>
    decreases s.len() - pos,
    when 0 <= pos <= s.len()
    via scan_events_decreases
{
    if pos >= s.len() {
        Seq::empty()
    } else {
        let (ev, st2, pos2) = scan_step(s, st, pos);
        seq![ev] + scan_events(s, st2, pos2)
    }
}

#[via_fn]
proof fn scan_events_decreases(s: Seq<char>, st: State, pos: int) {
    if 0 <= pos < s.len() {
        lemma_scan_step_advances(s, st, pos);
    }
}

/// Find the first `$` at or after `from`, by characters.
fn find_dollar(s: &str, from: usize) -> (r: Option<usize>)
    requires
        from <= s@.len(),
    ensures
        match r {
            Some(i) => find_inline(s@, from as int) == Some(i as int) && from <= i < s@.len(),
            None => find_inline(s@, from as int) is None,
        },
{
    let len = s.unicode_len();
    let mut i: usize = from;
    while i < len
        invariant
            from <= i <= len,
            len == s@.len(),
            find_inline(s@, from as int) == find_inline(s@, i as int),
        decreases len - i,
    {
        if s.get_char(i) == '$' {
            return Some(i);
        }
        i = i + 1;
    }
    None
}

/// Find the first `$$` at or after `from`, by characters.
fn find_double_dollar(s: &str, from: usize) -> (r: Option<usize>)
    requires
        from <= s@.len(),
    ensures
        match r {
            Some(i) => find_block(s@, from as int) == Some(i as int) && from <= i && i + 1
                < s@.len(),
            None => find_block(s@, from as int) is None,
        },
{
    let len = s.unicode_len();
    let mut i: usize = from;
    while i < len
        invariant
            from <= i <= len,
            len == s@.len(),
            find_block(s@, from as int) == find_block(s@, i as int),
        decreases len - i,
    {
        if s.get_char(i) == '$' && i + 1 < len && s.get_char(i + 1) == '$' {
            return Some(i);
        }
        i = i + 1;
    }
    None
}

/// Splits a string into plain text and the `$...$` / `$$...$$` formulas
/// embedded in it, one event at a time.
#[derive(Debug, Clone)]
pub struct Scanner<'a> {
    input: &'a str,
    state: State,
    position: usize,
}

impl<'a> Scanner<'a> {
    /// The text being scanned.
    pub closed spec fn spec_input(&self) -> Seq<char> {
        self.input@
    }

    /// The state the next step starts in.
    pub closed spec fn spec_state(&self) -> State {
        self.state
    }

    /// The position the next step starts at, in characters.
    pub closed spec fn spec_pos(&self) -> int {
        self.position as int
    }

    /// The position never runs past the input.
    pub open spec fn wf(&self) -> bool {
        0 <= self.spec_pos() <= self.spec_input().len()
    }

    /// A scanner over the whole of `input`, starting in plain text.
    pub fn new(input: &'a str) -> (r: Scanner<'a>)
        ensures
            r.spec_input() == input@,
            r.spec_state() is Text,
            r.spec_pos() == 0,
            r.wf(),
    {
        Self { input, state: State::Text, position: 0 }
    }

    /// The next event, or `None` once the input is exhausted. Each returned
    /// event and the scanner's new state and position are exactly one
    /// `scan_step` from the old ones.
    pub fn next(&mut self) -> (r: Option<Event<'a>>)
        requires
            old(self).wf(),
        ensures
            final(self).wf(),
            final(self).spec_input() == old(self).spec_input(),
            old(self).spec_pos() >= old(self).spec_input().len() ==> r is None && *final(self)
                == *old(self),
            old(self).spec_pos() < old(self).spec_input().len() ==> {
                let (ev, st2, pos2) = scan_step(
                    old(self).spec_input(),
                    old(self).spec_state(),
                    old(self).spec_pos(),
                );
                &&& r matches Some(e) && e@ == ev
                &&& final(self).spec_state() == st2
                &&& final(self).spec_pos() == pos2
                &&& final(self).spec_pos() > old(self).spec_pos()
            },
    {
        let len = self.input.unicode_len();
        if self.position >= len {
            return None;
        }
        proof {
            lemma_scan_step_advances(self.input@, self.state, self.position as int);
        }
        match self.state {
            State::Text => {
                let fi = find_dollar(self.input, self.position);
                let fb = find_double_dollar(self.input, self.position);
                match (fi, fb) {
                    (Some(inline), Some(block)) if block <= inline => {
                        let content = self.input.substring_char(self.position, block);
                        self.position = block + 2;
                        self.state = State::Block;
                        Some(Event::Text(content))
                    },
                    (Some(inline), _) => {
                        let content = self.input.substring_char(self.position, inline);
                        self.position = inline + 1;
                        self.state = State::Inline;
                        Some(Event::Text(content))
                    },
                    (None, _) => {
                        let content = self.input.substring_char(self.position, len);
                        self.position = len;
                        Some(Event::Text(content))
                    },
                }
            },
            State::Block => match find_double_dollar(self.input, self.position) {
                Some(p) => {
                    let content = self.input.substring_char(self.position, p);
                    self.position = p + 2;
                    self.state = State::Text;
                    Some(Event::Block(content))
                },
                None => {
                    let content = self.input.substring_char(self.position, len);
                    self.position = len;
                    Some(Event::Text(content))
                },
            },
            State::Inline => match find_dollar(self.input, self.position) {
                Some(p) => {
                    let content = self.input.substring_char(self.position, p);
                    self.position = p + 1;
                    self.state = State::Text;
                    Some(Event::Inline(content))
                },
                None => {
                    let content = self.input.substring_char(self.position, len);
                    self.position = len;
                    Some(Event::Text(content))
                },
            },
        }
    }
}

} // verus!
