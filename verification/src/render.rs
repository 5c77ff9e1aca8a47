use vstd::prelude::*;

verus! {

use crate::card::{Card, CardSide, CardV};
use crate::scanner::{scan_events, scan_step, Event, EventV, Scanner, State};
use vstd::string::StringExecFns;

/// The KaTeX HTML for an inline formula, a function of the source alone;
/// `None` stands for a rendering error (malformed TeX).
pub uninterp spec fn katex_inline(s: Seq<char>) -> Option<Seq<char>>;

/// The KaTeX HTML for a display-mode formula, a function of the source
/// alone; `None` stands for a rendering error.
pub uninterp spec fn katex_block(s: Seq<char>) -> Option<Seq<char>>;

/// The HTML that Markdown text renders to, a function of the text alone.
pub uninterp spec fn markdown_html(s: Seq<char>) -> Seq<char>;

/// Relies on `katex::render`: the HTML for an inline formula depends on the
/// source alone, and malformed TeX gives an error.
#[verifier::external_body]
fn katex_render_inline(content: &str) -> (r: Result<String, String>)
    ensures
        r matches Ok(h) ==> katex_inline(content@) == Some(h@),
        r matches Err(m) ==> katex_inline(content@) is None,
{
    katex::render(content).map_err(|e| e.to_string())
}

/// Relies on `katex::render_with_opts` in display mode: the HTML for a
/// display formula depends on the source alone, and malformed TeX gives an
/// error.
#[verifier::external_body]
fn katex_render_block(content: &str) -> (r: Result<String, String>)
    ensures
        r matches Ok(h) ==> katex_block(content@) == Some(h@),
        r matches Err(m) ==> katex_block(content@) is None,
{
    let opts = katex::Opts::builder().display_mode(true).build().unwrap();
    katex::render_with_opts(content, opts).map_err(|e| e.to_string())
}

/// Relies on `pulldown_cmark` (a `Parser` with tables enabled, drained by
/// `push_html`): the HTML for given Markdown text is a function of the text
/// alone.
#[verifier::external_body]
fn md_to_html(text: &str) -> (r: String)
    ensures
        r@ == markdown_html(text@),
{
    let parser = pulldown_cmark::Parser::new_ext(text, pulldown_cmark::Options::ENABLE_TABLES);
    let mut result = String::new();
    pulldown_cmark::html::push_html(&mut result, parser);
    result
}

/// The HTML for one scanner event: plain text is kept as it is, formulas
/// are rendered by KaTeX, and a formula KaTeX rejects is kept as written,
/// delimiters included.
pub open spec fn event_html(ev: EventV) -> Seq<char> {
    match ev {
        EventV::Text(t) => t,
        EventV::Inline(c) => match katex_inline(c) {
            Some(h) => h,
            None => "$"@ + c + "$"@,
        },
        EventV::Block(c) => match katex_block(c) {
            Some(h) => h,
            None => "$$"@ + c + "$$"@,
        },
    }
}

/// The HTML for a whole event stream, in order.
pub open spec fn events_html(evs: Seq<EventV>) -> Seq<char>
    decreases evs.len(),
{
    if evs.len() == 0 {
        Seq::empty()
    } else {
        event_html(evs[0]) + events_html(evs.drop_first())
    }
}

impl Event<'_> {
    /// Render this event through KaTeX; plain text passes through.
    pub fn render(&self) -> (r: Result<String, String>)
        ensures
            match self@ {
                EventV::Text(t) => r matches Ok(h) && h@ == t,
                EventV::Inline(c) => match katex_inline(c) {
                    Some(h) => r matches Ok(s) && s@ == h,
                    None => r is Err,
                },
                EventV::Block(c) => match katex_block(c) {
                    Some(h) => r matches Ok(s) && s@ == h,
                    None => r is Err,
                },
            },
    {
        match self {
            Event::Text(text) => Ok((*text).to_owned()),
            Event::Block(content) => katex_render_block(content),
            Event::Inline(content) => katex_render_inline(content),
        }
    }

    /// The HTML for this event: rendered where KaTeX accepts it, kept as
    /// written (delimiters included) where it does not.
    pub fn as_html(&self) -> (r: String)
        ensures
            r@ == event_html(self@),
    {
        match self.render() {
            Ok(result) => result,
            Err(_) => match self {
                Event::Text(text) => (*text).to_owned(),
                Event::Block(content) => String::from_str("$$").concat(content).concat("$$"),
                Event::Inline(content) => String::from_str("$").concat(content).concat("$"),
            },
        }
    }
}

/// The HTML for card text: formulas are rendered by KaTeX, the rest goes
/// through the Markdown renderer.
pub fn markdown(text: &str) -> (r: String)
    ensures
        r@ == markdown_html(events_html(scan_events(text@, State::Text, 0))),
{
    let ghost full = events_html(scan_events(text@, State::Text, 0));
    let mut scanner = Scanner::new(text);
    let mut acc = String::new();
    proof {
        assert(Seq::<char>::empty() + full =~= full);
    }
    loop
        invariant_except_break
            scanner.wf(),
            scanner.spec_input() == text@,
            full == events_html(scan_events(text@, State::Text, 0)),
            full == acc@ + events_html(
                scan_events(text@, scanner.spec_state(), scanner.spec_pos()),
            ),
        ensures
            acc@ == full,
        decreases text@.len() - scanner.spec_pos(),
    {
        let ghost st = scanner.spec_state();
        let ghost pos = scanner.spec_pos();
        match scanner.next() {
            None => {
                proof {
                    assert(scan_events(text@, st, pos) =~= Seq::<EventV>::empty());
                    assert(acc@ + Seq::<char>::empty() =~= acc@);
                }
                break ;
            },
            Some(ev) => {
                let h = ev.as_html();
                proof {
                    let (evv, st2, pos2) = scan_step(text@, st, pos);
                    assert(scan_events(text@, st, pos) == seq![evv] + scan_events(
                        text@,
                        st2,
                        pos2,
                    ));
                    assert((seq![evv] + scan_events(text@, st2, pos2)).drop_first() =~= scan_events(
                        text@,
                        st2,
                        pos2,
                    ));
                    assert((seq![evv] + scan_events(text@, st2, pos2))[0] == evv);
                    assert(events_html(scan_events(text@, st, pos)) == event_html(evv)
                        + events_html(scan_events(text@, st2, pos2)));
                    assert(acc@ + (event_html(evv) + events_html(scan_events(text@, st2, pos2)))
                        =~= (acc@ + event_html(evv)) + events_html(scan_events(text@, st2, pos2)));
                }
                acc.append(h.as_str());
            },
        }
    }
    md_to_html(acc.as_str())
}

/// A card with the HTML its two sides render to.
#[derive(Debug)]
pub struct RenderedCard {
    pub card: Card,
    pub term: String,
    pub definition: String,
}

/// The mathematical value of a `RenderedCard`.
pub struct RenderedCardV {
    pub card: CardV,
    pub term: Seq<char>,
    pub definition: Seq<char>,
}

impl View for RenderedCard {
    type V = RenderedCardV;

    open spec fn view(&self) -> RenderedCardV {
        RenderedCardV { card: self.card@, term: self.term@, definition: self.definition@ }
    }
}

impl DeepView for RenderedCard {
    type V = RenderedCardV;

    open spec fn deep_view(&self) -> RenderedCardV {
        self.view()
    }
}

/// The HTML for a Markdown card side: the KaTeX-and-Markdown pipeline,
/// wrapped in the prose container.
pub fn render_markdown(side: &CardSide) -> (r: String)
    ensures
        r@ == "<div class=\"prose prose-slate prose-invert prose-xl\">"@ + markdown_html(
            events_html(scan_events(side.text@, State::Text, 0)),
        ) + "</div>"@,
{
    let body = markdown(side.text.as_str());
    String::from_str("<div class=\"prose prose-slate prose-invert prose-xl\">").concat(
        body.as_str(),
    ).concat("</div>")
}

} // verus!
