//! The markdown events the model reader looks at, with their byte ranges
//! in the source.

use vstd::prelude::*;
use vstd::string::*;
use pulldown_cmark::{Event, Options, Parser};
use crate::text;

verus! {

/// A markdown event, reduced to what the model reader tells apart.
#[derive(Debug, Clone, PartialEq)]
pub enum MdEvent {
    /// The start of a heading of the given level; `plain` when it has no
    /// id, classes or attributes.
    StartHeading { level: u8, plain: bool },
    /// The end of a heading of the given level.
    EndHeading { level: u8 },
    /// The start of a list.
    StartList { ordered: bool },
    /// The end of a list.
    EndList { ordered: bool },
    /// The start of a list item.
    StartItem,
    /// The start of a paragraph.
    StartParagraph,
    /// The start of strong emphasis.
    StartStrong,
    /// The start of a fenced code block.
    StartFencedCode,
    /// A text node; `borrowed` when the text is a slice of the source as it
    /// stands.
    Text { text: String, borrowed: bool },
    /// Any other event.
    Other,
}

/// An event with its byte range in the source.
#[derive(Debug, Clone, PartialEq)]
pub struct MdSpan {
    pub event: MdEvent,
    pub start: usize,
    pub end: usize,
}

/// The mathematical value of an [`MdEvent`].
pub enum EventView {
    StartHeading { level: u8, plain: bool },
    EndHeading { level: u8 },
    StartList { ordered: bool },
    EndList { ordered: bool },
    StartItem,
    StartParagraph,
    StartStrong,
    StartFencedCode,
    Text { text: Seq<char>, borrowed: bool },
    Other,
}

/// The mathematical value of an [`MdSpan`].
pub struct SpanView {
    pub event: EventView,
    pub start: usize,
    pub end: usize,
}

impl View for MdEvent {
    type V = EventView;

    open spec fn view(&self) -> EventView {
        match self {
            MdEvent::StartHeading { level, plain } => EventView::StartHeading {
                level: *level,
                plain: *plain,
            },
            MdEvent::EndHeading { level } => EventView::EndHeading { level: *level },
            MdEvent::StartList { ordered } => EventView::StartList { ordered: *ordered },
            MdEvent::EndList { ordered } => EventView::EndList { ordered: *ordered },
            MdEvent::StartItem => EventView::StartItem,
            MdEvent::StartParagraph => EventView::StartParagraph,
            MdEvent::StartStrong => EventView::StartStrong,
            MdEvent::StartFencedCode => EventView::StartFencedCode,
            MdEvent::Text { text, borrowed } => EventView::Text { text: text@, borrowed: *borrowed },
            MdEvent::Other => EventView::Other,
        }
    }
}

impl View for MdSpan {
    type V = SpanView;

    open spec fn view(&self) -> SpanView {
        SpanView { event: self.event@, start: self.start, end: self.end }
    }
}

/// The views of a sequence of events.
pub open spec fn spans_view(v: Seq<MdSpan>) -> Seq<SpanView> {
    v.map_values(|s: MdSpan| s@)
}

/// An event as `pulldown_cmark` gives it: its debug form, its text if it
/// is a text event, and its byte range in the source.
#[derive(Debug, Clone, PartialEq)]
pub struct RawSpan {
    pub debug: String,
    pub text: Option<String>,
    pub start: usize,
    pub end: usize,
}

/// The mathematical value of a [`RawSpan`].
pub struct RawSpanView {
    pub debug: Seq<char>,
    pub text: Option<Seq<char>>,
    pub start: usize,
    pub end: usize,
}

impl View for RawSpan {
    type V = RawSpanView;

    open spec fn view(&self) -> RawSpanView {
        RawSpanView {
            debug: self.debug@,
            text: text::opt_string_view(self.text),
            start: self.start,
            end: self.end,
        }
    }
}

/// What `pulldown_cmark` reads from a markdown text: its events in order,
/// each in its debug form with its text and byte range; heading attributes
/// are recognised when `heading_attributes` is set.
pub uninterp spec fn markdown_events(content: Seq<char>, heading_attributes: bool) -> Seq<
    RawSpanView,
>;

/// Parses `content` with `pulldown_cmark::Parser::new_ext` and its offset
/// iterator. The result is named; the contract adds what the documentation
/// of the offset iterator states: each range is a range of the source.
#[verifier::external_body]
pub(crate) fn parse_raw_events(content: &str, heading_attributes: bool) -> (r: Vec<RawSpan>)
    ensures
        r@.map_values(|s: RawSpan| s@) == markdown_events(content@, heading_attributes),
        r@.len() <= isize::MAX,
        forall|i: int|
            0 <= i < r@.len() ==> #[trigger] r@[i].start <= r@[i].end && r@[i].end
                <= content.spec_bytes().len(),
{
    let mut o = Options::empty();
    o.set(Options::ENABLE_HEADING_ATTRIBUTES, heading_attributes);
    let mut v = Vec::new();
    for (e, r) in Parser::new_ext(content, o).into_offset_iter() {
        let text = match &e {
            Event::Text(t) => Some(t.to_string()),
            _ => None,
        };
        v.push(RawSpan { debug: format!("{:?}", e), text, start: r.start, end: r.end });
    }
    v
}

/// The prefix of the debug form of a heading start, before its level digit.
pub open spec fn heading_start_prefix() -> Seq<char> {
    "Start(Heading { level: H"@
}

/// The rest of the debug form of a heading start without id, classes or
/// attributes, after its level digit.
pub open spec fn plain_heading_rest() -> Seq<char> {
    ", id: None, classes: [], attrs: [] })"@
}

/// The prefix of the debug form of a heading end, before its level digit.
pub open spec fn heading_end_prefix() -> Seq<char> {
    "End(Heading(H"@
}

/// The level a digit character gives, for `1` to `6`.
pub open spec fn level_digit(c: char) -> Option<u8> {
    if '1' <= c && c <= '6' {
        Some(((c as u32) - 48) as u8)
    } else {
        None
    }
}

/// The event an event of `pulldown_cmark` is to the reader, read from its
/// debug form: heading starts (plain when they have no id, classes or
/// attributes) and ends with their level, list starts and ends with
/// whether they are ordered, item, paragraph and strong starts, fenced code
/// block starts, and texts, borrowed when they are slices of the source.
pub open spec fn classify(r: RawSpanView) -> EventView {
    let d = r.debug;
    let hs = heading_start_prefix();
    let he = heading_end_prefix();
    if text::starts_with(d, hs) && d.len() > hs.len() && level_digit(d[hs.len() as int]) is Some {
        EventView::StartHeading {
            level: level_digit(d[hs.len() as int])->Some_0,
            plain: d.skip(hs.len() as int + 1) == plain_heading_rest(),
        }
    } else if text::starts_with(d, he) && d.len() > he.len() && level_digit(
        d[he.len() as int],
    ) is Some {
        EventView::EndHeading { level: level_digit(d[he.len() as int])->Some_0 }
    } else if d == "Start(List(None))"@ {
        EventView::StartList { ordered: false }
    } else if text::starts_with(d, "Start(List(Some("@) {
        EventView::StartList { ordered: true }
    } else if d == "End(List(false))"@ {
        EventView::EndList { ordered: false }
    } else if d == "End(List(true))"@ {
        EventView::EndList { ordered: true }
    } else if d == "Start(Item)"@ {
        EventView::StartItem
    } else if d == "Start(Paragraph)"@ {
        EventView::StartParagraph
    } else if d == "Start(Strong)"@ {
        EventView::StartStrong
    } else if text::starts_with(d, "Start(CodeBlock(Fenced("@) {
        EventView::StartFencedCode
    } else if r.text is Some {
        EventView::Text {
            text: r.text->Some_0,
            borrowed: text::starts_with(d, "Text(Borrowed("@),
        }
    } else {
        EventView::Other
    }
}

/// The events of the reader for the events of `pulldown_cmark`.
pub open spec fn classify_all(v: Seq<RawSpanView>) -> Seq<SpanView> {
    v.map_values(|r: RawSpanView| SpanView { event: classify(r), start: r.start, end: r.end })
}

/// The level digit of a character, if it is one.
fn level_of(c: char) -> (r: Option<u8>)
    ensures
        r == level_digit(c),
{
    if '1' <= c && c <= '6' {
        Some(((c as u32) - 48) as u8)
    } else {
        None
    }
}

/// Classifies one event (see [`classify`]).
fn classify_event(raw: &RawSpan) -> (r: MdSpan)
    ensures
        r@ == (SpanView { event: classify(raw@), start: raw.start, end: raw.end }),
{
    let d = text::chars_of(raw.debug.as_str());
    let hs = text::chars_of("Start(Heading { level: H");
    let he = text::chars_of("End(Heading(H");
    let rest = text::chars_of(", id: None, classes: [], attrs: [] })");
    let ds = raw.debug.as_str();
    let event = if text::has_prefix(&d, &hs) && d.len() > hs.len() && level_of(d[hs.len()]).is_some() {
        let level = level_of(d[hs.len()]).unwrap();
        let n = d.len();
        let tail = text::sub_chars(&d, hs.len() + 1, n);
        assert(tail@ =~= raw.debug@.skip(hs@.len() as int + 1));
        MdEvent::StartHeading { level, plain: text::chars_eq(&tail, &rest) }
    } else if text::has_prefix(&d, &he) && d.len() > he.len() && level_of(d[he.len()]).is_some() {
        MdEvent::EndHeading { level: level_of(d[he.len()]).unwrap() }
    } else if text::str_eq(ds, "Start(List(None))") {
        MdEvent::StartList { ordered: false }
    } else if text::has_prefix(&d, &text::chars_of("Start(List(Some(")) {
        MdEvent::StartList { ordered: true }
    } else if text::str_eq(ds, "End(List(false))") {
        MdEvent::EndList { ordered: false }
    } else if text::str_eq(ds, "End(List(true))") {
        MdEvent::EndList { ordered: true }
    } else if text::str_eq(ds, "Start(Item)") {
        MdEvent::StartItem
    } else if text::str_eq(ds, "Start(Paragraph)") {
        MdEvent::StartParagraph
    } else if text::str_eq(ds, "Start(Strong)") {
        MdEvent::StartStrong
    } else if text::has_prefix(&d, &text::chars_of("Start(CodeBlock(Fenced(")) {
        MdEvent::StartFencedCode
    } else {
        match &raw.text {
            Some(t) => MdEvent::Text {
                text: t.clone(),
                borrowed: text::has_prefix(&d, &text::chars_of("Text(Borrowed(")),
            },
            None => MdEvent::Other,
        }
    };
    MdSpan { event, start: raw.start, end: raw.end }
}

/// The events of `content` for the reader: those of `pulldown_cmark`,
/// classified (see [`classify`]).
pub fn parse_events(content: &str, heading_attributes: bool) -> (r: Vec<MdSpan>)
    ensures
        spans_view(r@) == classify_all(markdown_events(content@, heading_attributes)),
        r@.len() <= isize::MAX,
        forall|i: int|
            0 <= i < r@.len() ==> #[trigger] r@[i].start <= r@[i].end && r@[i].end
                <= content.spec_bytes().len(),
{
    let raw = parse_raw_events(content, heading_attributes);
    let ghost rv = raw@.map_values(|s: RawSpan| s@);
    let mut r: Vec<MdSpan> = Vec::new();
    let mut i: usize = 0;
    while i < raw.len()
        invariant
            i <= raw@.len(),
            raw@.len() <= isize::MAX,
            rv == raw@.map_values(|s: RawSpan| s@),
            forall|k: int|
                0 <= k < raw@.len() ==> #[trigger] raw@[k].start <= raw@[k].end && raw@[k].end
                    <= content.spec_bytes().len(),
            spans_view(r@) == classify_all(rv).take(i as int),
            r@.len() == i,
            forall|k: int| 0 <= k < i ==> r@[k].start == raw@[k].start && r@[k].end == raw@[k].end,
        decreases raw.len() - i,
    {
        let ghost before = r@;
        let s = classify_event(&raw[i]);
        r.push(s);
        assert(spans_view(r@) =~= spans_view(before).push(s@));
        assert(classify_all(rv).take(i + 1) =~= classify_all(rv).take(i as int).push(
            classify_all(rv)[i as int],
        ));
        i = i + 1;
    }
    assert(classify_all(rv).take(i as int) =~= classify_all(rv));
    r
}

} // verus!
