//! The model reader: from markdown events to objects and enumerations.

use vstd::prelude::*;
use vstd::string::*;
use vstd::utf8::*;
use crate::attribute::{self, AttrOption, Attribute, AttributeView};
use crate::markdown::events::{self, EventView, MdEvent, MdSpan, SpanView};
use crate::object::{
    self, enum_view, enums_view, EnumView, Enumeration, Mappings, Object, ObjectView, Position,
    PositionRange,
};
use crate::text;
use crate::datamodel::{self, DataModel};
use crate::tree;
use crate::frontmatter::FrontMatter;
use crate::validation::{self, Validator};

verus! {

// ---------------------------------------------------------------------------
// Positions
// ---------------------------------------------------------------------------

/// The byte positions of the line feeds among the first `k` bytes.
pub open spec fn newlines_upto(b: Seq<u8>, k: int) -> Seq<usize>
    decreases k,
{
    if k <= 0 {
        Seq::empty()
    } else if b[k - 1] == 10u8 {
        newlines_upto(b, k - 1).push((k - 1) as usize)
    } else {
        newlines_upto(b, k - 1)
    }
}

/// The byte positions of the line feeds of a text.
pub open spec fn newline_offsets(b: Seq<u8>) -> Seq<usize> {
    newlines_upto(b, b.len() as int)
}

/// The line feeds found among the first `k` bytes are in increasing order,
/// below `k`, and are line feeds.
pub proof fn lemma_newlines_upto(b: Seq<u8>, k: int)
    requires
        0 <= k <= b.len(),
        b.len() <= usize::MAX,
    ensures
        newlines_upto(b, k).len() <= k,
        forall|i: int, j: int|
            0 <= i < j < newlines_upto(b, k).len() ==> newlines_upto(b, k)[i] < newlines_upto(
                b,
                k,
            )[j],
        forall|i: int|
            0 <= i < newlines_upto(b, k).len() ==> newlines_upto(b, k)[i] < k && b[newlines_upto(
                b,
                k,
            )[i] as int] == 10u8,
    decreases k,
{
    if k > 0 {
        lemma_newlines_upto(b, k - 1);
        let prev = newlines_upto(b, k - 1);
        if b[k - 1] == 10u8 {
            assert(newlines_upto(b, k) == prev.push((k - 1) as usize));
            assert forall|i: int, j: int|
                0 <= i < j < newlines_upto(b, k).len() implies newlines_upto(b, k)[i]
                < newlines_upto(b, k)[j] by {
                if j < prev.len() {
                    assert(newlines_upto(b, k)[i] == prev[i]);
                    assert(newlines_upto(b, k)[j] == prev[j]);
                }
            }
        }
    }
}

/// Creates the byte offsets of the line feeds of `content`.
pub fn create_line_offsets(content: &str) -> (r: Vec<usize>)
    ensures
        r@ == newline_offsets(content.spec_bytes()),
{
    let bytes = content.as_bytes();
    let n = bytes.len();
    let mut r: Vec<usize> = Vec::new();
    let mut i: usize = 0;
    while i < n
        invariant
            n == bytes@.len(),
            bytes@ == content.spec_bytes(),
            i <= n,
            r@ == newlines_upto(bytes@, i as int),
        decreases n - i,
    {
        if bytes[i] == 10u8 {
            r.push(i);
        }
        i = i + 1;
    }
    r
}

/// The number of line feeds before byte `start`.
pub open spec fn count_below(offs: Seq<usize>, start: int) -> int
    decreases offs.len(),
{
    if offs.len() == 0 {
        0
    } else {
        count_below(offs.drop_last(), start) + (if offs.last() < start {
            1int
        } else {
            0
        })
    }
}

/// The number of leading white-space characters of `s`.
pub open spec fn leading_ws(s: Seq<char>) -> int
    decreases s.len(),
{
    if s.len() > 0 && text::whitespace(s[0]) {
        1 + leading_ws(s.skip(1))
    } else {
        0
    }
}

/// The position of the byte range `start..end` of a text with bytes `b`
/// and line feeds at `offs`: its line counted from 1; its columns, where
/// the first column is shifted by the white space that opens the line; and
/// the range itself.
pub open spec fn spec_position(b: Seq<u8>, offs: Seq<usize>, start: int, end: int) -> Position {
    let line = count_below(offs, start) + 1;
    let line_start: int = if line > 1 {
        offs[line - 2] as int
    } else {
        0
    };
    let line_end: int = if line <= offs.len() {
        offs[line - 1] as int
    } else {
        b.len() as int
    };
    let leading = leading_ws(decode_utf8(b.subrange(line_start, line_end)));
    let start_col = if line > 1 {
        start - line_start + leading - 1
    } else {
        start + 1 + leading
    };
    let end_col = if line <= offs.len() {
        offs[line - 1] - line_start
    } else {
        end - line_start
    };
    Position {
        line: line as usize,
        column: PositionRange { start: start_col as usize, end: end_col as usize },
        offset: PositionRange { start: start as usize, end: end as usize },
    }
}

/// `count_below` is at most the number of offsets.
proof fn lemma_count_below_bound(offs: Seq<usize>, start: int)
    ensures
        0 <= count_below(offs, start) <= offs.len(),
    decreases offs.len(),
{
    if offs.len() > 0 {
        lemma_count_below_bound(offs.drop_last(), start);
    }
}

/// In increasing offsets, `count_below` counts a prefix: the offsets before
/// it are below `start` and the others are not.
proof fn lemma_count_below_prefix(offs: Seq<usize>, start: int)
    requires
        forall|i: int, j: int| 0 <= i < j < offs.len() ==> offs[i] < offs[j],
    ensures
        forall|i: int| 0 <= i < count_below(offs, start) ==> offs[i] < start,
        forall|i: int| count_below(offs, start) <= i < offs.len() ==> offs[i] >= start,
    decreases offs.len(),
{
    if offs.len() > 0 {
        let d = offs.drop_last();
        lemma_count_below_prefix(d, start);
        lemma_count_below_bound(d, start);
        let c = count_below(d, start);
        if offs.last() < start {
            if c < d.len() {
                assert(d[c] >= start);
                assert(offs[c] < offs[offs.len() - 1]);
            }
            assert(c == d.len());
        }
        assert forall|i: int| 0 <= i < count_below(offs, start) implies offs[i] < start by {
            if i < d.len() {
                assert(offs[i] == d[i]);
            }
        }
        assert forall|i: int| count_below(offs, start) <= i < offs.len() implies offs[i]
            >= start by {
            if i < d.len() {
                assert(offs[i] == d[i]);
            }
        }
    }
}

/// The number of leading white-space characters of a string.
fn count_leading_ws(s: &str) -> (r: usize)
    ensures
        r == leading_ws(s@),
{
    let cs = text::chars_of(s);
    let mut i: usize = 0;
    assert(s@.skip(0) =~= s@);
    while i < cs.len() && text::is_whitespace(cs[i])
        invariant
            i <= cs@.len(),
            cs@ == s@,
                leading_ws(s@) == i + leading_ws(s@.skip(i as int)),
        decreases cs.len() - i,
    {
        assert(s@.skip(i as int).skip(1) =~= s@.skip(i + 1));
        i = i + 1;
    }
    if i < cs.len() {
        assert(s@.skip(i as int)[0] == s@[i as int]);
    }
    i
}

/// Converts the byte range `start..end` of `content`, whose line feeds are
/// at `line_offsets`, to a position (see [`spec_position`]).
pub fn get_position(content: &str, line_offsets: &[usize], start: usize, end: usize) -> (r:
    Position)
    requires
        line_offsets@ == newline_offsets(content.spec_bytes()),
        start <= end <= content.spec_bytes().len(),
        content.spec_bytes().len() <= isize::MAX,
    ensures
        r == spec_position(content.spec_bytes(), line_offsets@, start as int, end as int),
{
    let ghost b = content.spec_bytes();
    let ghost offs = line_offsets@;
    let bytes = content.as_bytes();
    let blen = bytes.len();
    let n = line_offsets.len();
    proof {
        lemma_newlines_upto(b, b.len() as int);
        lemma_count_below_prefix(offs, start as int);
        lemma_count_below_bound(offs, start as int);
    }
    let mut below: usize = 0;
    while below < n && line_offsets[below] < start
        invariant
            n == offs.len(),
            offs == line_offsets@,
            below <= n,
            forall|i: int| 0 <= i < below ==> offs[i] < start,
            forall|i: int| 0 <= i < count_below(offs, start as int) ==> offs[i] < start,
            forall|i: int| count_below(offs, start as int) <= i < offs.len() ==> offs[i] >= start,
            0 <= count_below(offs, start as int) <= offs.len(),
        decreases n - below,
    {
        below = below + 1;
    }
    proof {
        let c = count_below(offs, start as int);
        if below < c {
            assert(offs[below as int] < start);
        }
        if below > c {
            assert(offs[c] < start);
        }
    }
    assert(below == count_below(offs, start as int));
    let line = below + 1;
    let line_start: usize = if line > 1 {
        line_offsets[line - 2]
    } else {
        0
    };
    let line_end: usize = if line <= n {
        line_offsets[line - 1]
    } else {
        blen
    };
    proof {
        broadcast use encode_utf8_valid_utf8;
        broadcast use is_char_boundary_start_end_of_seq;
        assert(valid_utf8(b));
        if line > 1 {
            is_char_boundary_iff_not_is_continuation_byte(b, line_start as int);
        }
        if line <= n {
            is_char_boundary_iff_not_is_continuation_byte(b, line_end as int);
        }
    }
    assert(line_start <= line_end);
    let (_, rest) = content.split_at(line_start);
    proof {
        broadcast use encode_utf8_valid_utf8;
        broadcast use valid_utf8_split;
        broadcast use is_char_boundary_start_end_of_seq;
        assert(rest.spec_bytes() =~= b.subrange(line_start as int, b.len() as int));
        if line <= n {
            is_char_boundary_iff_not_is_continuation_byte(
                rest.spec_bytes(),
                (line_end - line_start) as int,
            );
        }
    }
    let (line_content, _) = rest.split_at(line_end - line_start);
    proof {
        broadcast use encode_utf8_decode_utf8;
        assert(line_content.spec_bytes() =~= b.subrange(line_start as int, line_end as int));
    }
    let leading = count_leading_ws(line_content);
    proof {
        lemma_leading_ws_bound(line_content@);
        lemma_encode_len(line_content@);
        assert(line_content@ == decode_utf8(b.subrange(line_start as int, line_end as int)));
    }
    let start_col: usize = if line > 1 {
        (start - line_start - 1) + leading
    } else {
        start + 1 + leading
    };
    let end_col: usize = if line <= n {
        line_end - line_start
    } else {
        end - line_start
    };
    Position {
        line,
        column: PositionRange { start: start_col, end: end_col },
        offset: PositionRange { start, end },
    }
}

/// A text has at least as many bytes as characters.
proof fn lemma_encode_len(s: Seq<char>)
    ensures
        encode_utf8(s).len() >= s.len(),
    decreases s.len(),
{
    if s.len() > 0 {
        lemma_encode_len(s.drop_first());
    }
}

/// The leading white space of a string is at most its length.
proof fn lemma_leading_ws_bound(s: Seq<char>)
    ensures
        0 <= leading_ws(s) <= s.len(),
    decreases s.len(),
{
    if s.len() > 0 && text::whitespace(s[0]) {
        lemma_leading_ws_bound(s.skip(1));
    }
}


// ---------------------------------------------------------------------------
// Reading names and terms
// ---------------------------------------------------------------------------

/// The text of a text event.
pub open spec fn text_of(e: EventView) -> Option<Seq<char>> {
    match e {
        EventView::Text { text, .. } => Some(text),
        _ => None,
    }
}

/// The text of the event at `j`, if there is one and it is a text.
pub open spec fn text_at(ev: Seq<SpanView>, j: int) -> Option<Seq<char>> {
    if 0 <= j < ev.len() {
        text_of(ev[j].event)
    } else {
        None
    }
}

/// The name that follows the event at `i`: the text of the first of the
/// next three events that is a text, and the index after it; `None` when
/// none of them is a text.
pub open spec fn spec_extract_name(ev: Seq<SpanView>, i: int) -> Option<(Seq<char>, int)> {
    if text_at(ev, i + 1) is Some {
        Some((text_at(ev, i + 1)->Some_0, i + 2))
    } else if text_at(ev, i + 2) is Some {
        Some((text_at(ev, i + 2)->Some_0, i + 3))
    } else if text_at(ev, i + 3) is Some {
        Some((text_at(ev, i + 3)->Some_0, i + 4))
    } else {
        None
    }
}

/// The text of the event at `j`, if it is a text.
fn text_at_exec(events: &Vec<MdSpan>, j: usize) -> (r: Option<String>)
    ensures
        match r {
            Some(t) => text_at(events::spans_view(events@), j as int) == Some(t@),
            None => text_at(events::spans_view(events@), j as int) is None,
        },
{
    if j < events.len() {
        match &events[j].event {
            MdEvent::Text { text, .. } => Some(text.clone()),
            _ => None,
        }
    } else {
        None
    }
}

/// Reads the name that follows the event at `i` (see [`spec_extract_name`]).
fn extract_name(events: &Vec<MdSpan>, i: usize) -> (r: Option<(String, usize)>)
    requires
        i < events@.len(),
        events@.len() <= isize::MAX,
    ensures
        match r {
            Some((t, j)) => spec_extract_name(events::spans_view(events@), i as int) == Some(
                (t@, j as int),
            ),
            None => spec_extract_name(events::spans_view(events@), i as int) is None,
        },
{
    if let Some(t) = text_at_exec(events, i + 1) {
        return Some((t, i + 2));
    }
    if let Some(t) = text_at_exec(events, i + 2) {
        return Some((t, i + 3));
    }
    if let Some(t) = text_at_exec(events, i + 3) {
        return Some((t, i + 4));
    }
    None
}

/// The term in a heading: what the regular expression `\(([^)]+)\)`
/// captures at its leftmost match from `k` on, that is the text after the
/// first `(` that is followed by something other than `)` and, later, by
/// a `)`, up to that `)`.
pub open spec fn paren_term_from(s: Seq<char>, k: int) -> Option<Seq<char>>
    decreases s.len() - k,
{
    if k < 0 || k >= s.len() {
        None
    } else if s[k] == '(' && k + 1 < s.len() && s[k + 1] != ')' && text::has_char(
        s.skip(k + 1),
        ')',
    ) {
        Some(text::before_first(s.skip(k + 1), ')'))
    } else {
        paren_term_from(s, k + 1)
    }
}

/// Extracts the term of an object heading with the regular expression
/// `\(([^)]+)\)` of the `regex` crate: its first capture group at the
/// leftmost match. The contract states what that expression captures.
#[verifier::external_body]
fn extract_object_term(heading: &str) -> (r: Option<String>)
    ensures
        match r {
            Some(t) => paren_term_from(heading@, 0) == Some(t@),
            None => paren_term_from(heading@, 0) is None,
        },
{
    let re = regex::Regex::new(r"\(([^)]+)\)").unwrap();
    re.captures(heading).map(|cap| cap.get(1).map_or("", |m| m.as_str()).to_string())
}

/// A new object as the reader creates it from a heading word and term.
pub open spec fn new_object_view(word: Seq<char>, term: Option<Seq<char>>) -> ObjectView {
    ObjectView {
        name: object::spec_object_name(word),
        attributes: Seq::empty(),
        docstring: Seq::empty(),
        term,
        mixins: Seq::empty(),
        parent: None,
        position: None,
    }
}

// ---------------------------------------------------------------------------
// Attributes and their options
// ---------------------------------------------------------------------------

/// The attribute that a list item starts, read after the event at `k`: an
/// optional paragraph start, then either a text (`name` or the shorthand
/// `name: type`) or a strong text, which makes the attribute required.
/// Gives whether it is required, its name, its shorthand type and the
/// index after it; `None` when neither follows.
pub open spec fn spec_extract_attr(ev: Seq<SpanView>, k: int) -> Option<
    (bool, Seq<char>, Option<Seq<char>>, int),
> {
    let n = if 0 <= k + 1 < ev.len() && ev[k + 1].event is StartParagraph {
        k + 2
    } else {
        k + 1
    };
    if n < 0 || n >= ev.len() {
        None
    } else {
        match ev[n].event {
            EventView::Text { text, .. } => if text::has_char(text, ':') {
                Some(
                    (
                        false,
                        text::trim_ws(text::before_first(text, ':')),
                        Some(text::trim_ws(text::after_first(text, ':'))),
                        n + 1,
                    ),
                )
            } else {
                Some((false, text, None, n + 1))
            },
            EventView::StartStrong => Some(
                (
                    true,
                    match text_at(ev, n + 1) {
                        Some(t) => t,
                        None => Seq::empty(),
                    },
                    None,
                    n + 3,
                ),
            ),
            _ => None,
        }
    }
}

/// Reads the attribute that a list item starts (see [`spec_extract_attr`]).
fn extract_attr_name_required(events: &Vec<MdSpan>, k: usize) -> (r: Option<
    (bool, String, Option<String>, usize),
>)
    requires
        k < events@.len(),
        events@.len() <= isize::MAX,
    ensures
        match r {
            Some((req, name, dt, j)) => spec_extract_attr(events::spans_view(events@), k as int)
                == Some((req, name@, text::opt_string_view(dt), j as int)),
            None => spec_extract_attr(events::spans_view(events@), k as int) is None,
        },
{
    let para = k + 1 < events.len() && match &events[k + 1].event {
        MdEvent::StartParagraph => true,
        _ => false,
    };
    let n = if para {
        k + 2
    } else {
        k + 1
    };
    if n >= events.len() {
        return None;
    }
    match &events[n].event {
        MdEvent::Text { text, .. } => {
            let cs = text::chars_of(text.as_str());
            match text::split_once_char(&cs, ':') {
                Some((key, dtype)) => {
                    let key = text::trim_chars(&key);
                    let dtype = text::trim_chars(&dtype);
                    Some((false, text::string_of(&key), Some(text::string_of(&dtype)), n + 1))
                },
                None => Some((false, text.clone(), None, n + 1)),
            }
        },
        MdEvent::StartStrong => {
            let name = match text_at_exec(events, n + 1) {
                Some(t) => t,
                None => String::new(),
            };
            Some((true, name, None, n + 3))
        },
        _ => None,
    }
}

/// An option names a pattern when its lower-cased text holds `pattern:`
/// or `regex:`.
pub open spec fn is_pattern(o: Seq<char>) -> bool {
    text::has_infix(text::lowercase(o), "pattern:"@) || text::has_infix(
        text::lowercase(o),
        "regex:"@,
    )
}

/// An option after a `[` text: kept as written in a pattern, otherwise
/// trimmed and marked as an array type with `[]`.
pub open spec fn bracket_open(o: Seq<char>) -> Seq<char> {
    if is_pattern(o) {
        o + "["@
    } else {
        text::trim_ws(o) + "[]"@
    }
}

/// An option after a `]` text: kept as written in a pattern.
pub open spec fn bracket_close(o: Seq<char>) -> Seq<char> {
    if is_pattern(o) {
        o + "]"@
    } else {
        o
    }
}

/// An option after another text `t`: a description gets the text after a
/// space, a pattern gets it directly; other options stay as they are.
pub open spec fn text_append(o: Seq<char>, t: Seq<char>) -> Seq<char> {
    if text::has_infix(text::lowercase(o), "description:"@) {
        text::trim_ws(o) + " "@ + t
    } else if is_pattern(o) {
        text::trim_ws(o) + t
    } else {
        o
    }
}

/// The options of an attribute, read from the event at `p` on, after the
/// options `acc`: each item gives an option, texts continue the last
/// option, and the end of the (unordered) list ends them. Gives the options
/// and the index after the list; `None` when a text comes before any option
/// or an item has no name.
pub open spec fn options_from(ev: Seq<SpanView>, p: int, acc: Seq<Seq<char>>) -> Option<
    (Seq<Seq<char>>, int),
>
    decreases ev.len() + 5 - p,
{
    if p < 0 || p >= ev.len() {
        Some((acc, p))
    } else {
        match ev[p].event {
            EventView::StartItem => match spec_extract_name(ev, p) {
                Some((name, j)) => options_from(ev, j, acc.push(name)),
                None => None,
            },
            EventView::EndList { ordered } => if !ordered {
                Some((acc, p + 1))
            } else {
                options_from(ev, p + 1, acc)
            },
            EventView::Text { text, .. } => if acc.len() == 0 {
                None
            } else if text == "["@ {
                options_from(ev, p + 1, acc.update(acc.len() - 1, bracket_open(acc.last())))
            } else if text == "]"@ {
                options_from(ev, p + 1, acc.update(acc.len() - 1, bracket_close(acc.last())))
            } else {
                options_from(ev, p + 1, acc.update(acc.len() - 1, text_append(acc.last(), text)))
            },
            _ => options_from(ev, p + 1, acc),
        }
    }
}

/// Whether the lower-cased option names a pattern.
fn is_pattern_exec(lower: &str, Ghost(o): Ghost<Seq<char>>) -> (r: bool)
    requires
        lower@ == text::lowercase(o),
    ensures
        r == is_pattern(o),
{
    text::contains_str(lower, "pattern:") || text::contains_str(lower, "regex:")
}

/// Reads the options of an attribute that follow the event at `k` (see
/// [`options_from`]).
fn extract_attribute_options(events: &Vec<MdSpan>, k: usize) -> (r: Option<(Vec<String>, usize)>)
    requires
        k < events@.len(),
        events@.len() <= isize::MAX,
    ensures
        match r {
            Some((opts, j)) => options_from(events::spans_view(events@), k + 1, Seq::empty())
                == Some((text::strings_view(opts@), j as int)),
            None => options_from(events::spans_view(events@), k + 1, Seq::empty()) is None,
        },
{
    let ghost ev = events::spans_view(events@);
    let mut options: Vec<String> = Vec::new();
    let mut p: usize = k + 1;
    assert(text::strings_view(options@) =~= Seq::<Seq<char>>::empty());
    while p < events.len()
        invariant
            ev == events::spans_view(events@),
            events@.len() <= isize::MAX,
            k + 1 <= p <= events@.len() + 4,
            options_from(ev, k + 1, Seq::empty()) == options_from(
                ev,
                p as int,
                text::strings_view(options@),
            ),
        decreases events@.len() + 5 - p,
    {
        let ghost acc = text::strings_view(options@);
        assert(ev[p as int] == events@[p as int]@);
        match &events[p].event {
            MdEvent::StartItem => {
                match extract_name(events, p) {
                    Some((name, j)) => {
                        let ghost nv = name@;
                        options.push(name);
                        assert(text::strings_view(options@) =~= acc.push(nv));
                        p = j;
                    },
                    None => return None,
                }
            },
            MdEvent::EndList { ordered } => {
                if !*ordered {
                    return Some((options, p + 1));
                }
                p = p + 1;
            },
            MdEvent::Text { text, .. } => {
                let n = options.len();
                if n == 0 {
                    return None;
                }
                let last = options.pop().unwrap();
                let ghost lv = last@;
                assert(acc.last() == lv);
                let lower = text::to_lowercase(last.as_str());
                let t = text.as_str();
                let updated = if text::str_eq(t, "[") {
                    if is_pattern_exec(lower.as_str(), Ghost(lv)) {
                        let mut u = last.clone();
                        u.append("[");
                        u
                    } else {
                        let tc = text::trim_chars(&text::chars_of(last.as_str()));
                        let mut u = text::string_of(&tc);
                        u.append("[]");
                        u
                    }
                } else if text::str_eq(t, "]") {
                    if is_pattern_exec(lower.as_str(), Ghost(lv)) {
                        let mut u = last.clone();
                        u.append("]");
                        u
                    } else {
                        last.clone()
                    }
                } else if text::contains_str(lower.as_str(), "description:") {
                    let tc = text::trim_chars(&text::chars_of(last.as_str()));
                    let mut u = text::string_of(&tc);
                    u.append(" ");
                    u.append(t);
                    u
                } else if is_pattern_exec(lower.as_str(), Ghost(lv)) {
                    let tc = text::trim_chars(&text::chars_of(last.as_str()));
                    let mut u = text::string_of(&tc);
                    u.append(t);
                    u
                } else {
                    last.clone()
                };
                let ghost uv = updated@;
                options.push(updated);
                proof {
                    reveal_strlit("[");
                    reveal_strlit("]");
                    reveal_strlit("[]");
                    reveal_strlit(" ");
                }
                assert(text::strings_view(options@) =~= acc.update(acc.len() - 1, uv));
                p = p + 1;
            },
            _ => {
                p = p + 1;
            },
        }
    }
    Some((options, p))
}

// ---------------------------------------------------------------------------
// Changes to the last object
// ---------------------------------------------------------------------------

/// The objects with their last one replaced by `o`.
pub open spec fn with_last(objs: Seq<ObjectView>, o: ObjectView) -> Seq<ObjectView> {
    objs.update(objs.len() - 1, o)
}

/// An option (with its key already lower-cased) added to the last attribute
/// of the last object; `None` without such an attribute or when the option
/// is refused.
pub open spec fn add_option_last(objs: Seq<ObjectView>, key: Seq<char>, value: Seq<char>) -> Option<
    Seq<ObjectView>,
> {
    if objs.len() == 0 || objs.last().attributes.len() == 0 {
        None
    } else {
        let o = objs.last();
        match attribute::spec_add_option(o.attributes.last(), key, value) {
            Some(a) => Some(
                with_last(
                    objs,
                    ObjectView { attributes: o.attributes.update(o.attributes.len() - 1, a), ..o },
                ),
            ),
            None => None,
        }
    }
}

/// An attribute added to the last object; `None` without objects.
pub open spec fn push_attr_last(objs: Seq<ObjectView>, a: AttributeView) -> Option<
    Seq<ObjectView>,
> {
    if objs.len() == 0 {
        None
    } else {
        Some(
            with_last(
                objs,
                ObjectView { attributes: objs.last().attributes.push(a), ..objs.last() },
            ),
        )
    }
}

/// The last attribute of the last object marked as an array, if the last
/// object has attributes.
pub open spec fn mark_array_last(objs: Seq<ObjectView>) -> Seq<ObjectView> {
    let o = objs.last();
    if o.attributes.len() == 0 {
        objs
    } else {
        with_last(
            objs,
            ObjectView {
                attributes: o.attributes.update(
                    o.attributes.len() - 1,
                    AttributeView { is_array: true, ..o.attributes.last() },
                ),
                ..o
            },
        )
    }
}

/// The values of the objects.
proof fn lemma_objects_view_push(v: Seq<Object>, o: Object)
    ensures
        object::objects_view(v.push(o)) == object::objects_view(v).push(o@),
{
    assert(object::objects_view(v.push(o)) =~= object::objects_view(v).push(o@));
}

/// Takes the last object off, to change it and put it back.
fn pop_last(objects: &mut Vec<Object>) -> (r: Option<Object>)
    ensures
        old(objects)@.len() == 0 ==> r is None,
        old(objects)@.len() > 0 ==> r == Some(old(objects)@.last()) && final(objects)@
            == old(objects)@.drop_last() && object::objects_view(old(objects)@) == object::objects_view(
            final(objects)@,
        ).push(old(objects)@.last()@),
{
    let r = objects.pop();
    proof {
        if old(objects)@.len() > 0 {
            assert(old(objects)@ == objects@.push(old(objects)@.last()));
            lemma_objects_view_push(objects@, old(objects)@.last());
        }
    }
    r
}

/// Adds an option to the last attribute of the last object (see
/// [`add_option_last`]).
fn add_option_to_last_attribute(objects: &mut Vec<Object>, option: AttrOption) -> (ok: bool)
    ensures
        match add_option_last(object::objects_view(old(objects)@), option.key@, option.value@) {
            Some(v) => ok && object::objects_view(final(objects)@) == v,
            None => !ok,
        },
{
    let ghost ov = object::objects_view(objects@);
    let mut o = match pop_last(objects) {
        Some(o) => o,
        None => return false,
    };
    let ghost o0 = o;
    assert(ov.last() == o0@);
    let mut a = match o.attributes.pop() {
        Some(a) => a,
        None => return false,
    };
    let ghost rest = o.attributes@;
    let ghost a0 = a;
    assert(o0.attributes@ == rest.push(a0));
    assert(object::attrs_view(rest.push(a0)) =~= object::attrs_view(rest).push(a0@));
    assert(ov.last().attributes.last() == a0@);
    match a.add_option(option) {
        Ok(()) => {},
        Err(_) => return false,
    }
    o.attributes.push(a);
    assert(object::attrs_view(o.attributes@) =~= object::attrs_view(rest).push(a@));
    assert(object::attrs_view(o.attributes@) =~= ov.last().attributes.update(
        ov.last().attributes.len() - 1,
        a@,
    ));
    objects.push(o);
    proof {
        lemma_objects_view_push(objects@.drop_last(), o);
        assert(objects@.drop_last() =~= old(objects)@.drop_last());
    }
    assert(object::objects_view(objects@) =~= with_last(ov, o@));
    assert(o@ == ObjectView {
        attributes: ov.last().attributes.update(ov.last().attributes.len() - 1, a@),
        ..ov.last()
    });
    true
}

/// Adds an attribute to the last object (see [`push_attr_last`]).
fn push_attr_to_last(objects: &mut Vec<Object>, a: Attribute) -> (ok: bool)
    ensures
        match push_attr_last(object::objects_view(old(objects)@), a@) {
            Some(v) => ok && object::objects_view(final(objects)@) == v,
            None => !ok,
        },
{
    let ghost ov = object::objects_view(objects@);
    let mut o = match pop_last(objects) {
        Some(o) => o,
        None => return false,
    };
    o.add_attribute(a);
    objects.push(o);
    proof {
        lemma_objects_view_push(objects@.drop_last(), o);
        assert(objects@.drop_last() =~= old(objects)@.drop_last());
    }
    assert(object::objects_view(objects@) =~= with_last(ov, o@));
    true
}

/// Marks the last attribute of the last object as an array (see
/// [`mark_array_last`]); `false` without objects.
fn handle_array_marker(objects: &mut Vec<Object>) -> (ok: bool)
    ensures
        object::objects_view(old(objects)@).len() == 0 ==> !ok,
        object::objects_view(old(objects)@).len() > 0 ==> ok && object::objects_view(
            final(objects)@,
        ) == mark_array_last(object::objects_view(old(objects)@)),
{
    let ghost ov = object::objects_view(objects@);
    let mut o = match pop_last(objects) {
        Some(o) => o,
        None => return false,
    };
    let ghost o0 = o;
    assert(ov.last() == o0@);
    if o.attributes.len() > 0 {
        let mut a = o.attributes.pop().unwrap();
        let ghost rest = o.attributes@;
        let ghost a0 = a;
        assert(o0.attributes@ == rest.push(a0));
        assert(object::attrs_view(rest.push(a0)) =~= object::attrs_view(rest).push(a0@));
        a.is_array = true;
        o.attributes.push(a);
        assert(a@ == AttributeView { is_array: true, ..a0@ });
        assert(object::attrs_view(o.attributes@) =~= ov.last().attributes.update(
            ov.last().attributes.len() - 1,
            AttributeView { is_array: true, ..ov.last().attributes.last() },
        ));
    }
    objects.push(o);
    proof {
        lemma_objects_view_push(objects@.drop_last(), o);
        assert(objects@.drop_last() =~= old(objects)@.drop_last());
    }
    assert(object::objects_view(objects@) =~= mark_array_last(ov));
    true
}

/// Appends a text to the docstring of the last object; `false` without
/// objects.
fn handle_docstring(objects: &mut Vec<Object>, t: &str) -> (ok: bool)
    ensures
        object::objects_view(old(objects)@).len() == 0 ==> !ok,
        object::objects_view(old(objects)@).len() > 0 ==> ok && object::objects_view(
            final(objects)@,
        ) == with_last(
            object::objects_view(old(objects)@),
            ObjectView {
                docstring: object::objects_view(old(objects)@).last().docstring + t@,
                ..object::objects_view(old(objects)@).last()
            },
        ),
{
    let ghost ov = object::objects_view(objects@);
    let mut o = match pop_last(objects) {
        Some(o) => o,
        None => return false,
    };
    o.docstring.append(t);
    objects.push(o);
    proof {
        lemma_objects_view_push(objects@.drop_last(), o);
        assert(objects@.drop_last() =~= old(objects)@.drop_last());
    }
    assert(object::objects_view(objects@) =~= with_last(
        ov,
        ObjectView { docstring: ov.last().docstring + t@, ..ov.last() },
    ));
    true
}

/// Sets the parent of the last object; `false` without objects.
fn set_parent_last(objects: &mut Vec<Object>, parent: String) -> (ok: bool)
    ensures
        object::objects_view(old(objects)@).len() == 0 ==> !ok,
        object::objects_view(old(objects)@).len() > 0 ==> ok && object::objects_view(
            final(objects)@,
        ) == with_last(
            object::objects_view(old(objects)@),
            ObjectView { parent: Some(parent@), ..object::objects_view(old(objects)@).last() },
        ),
{
    let ghost ov = object::objects_view(objects@);
    let mut o = match pop_last(objects) {
        Some(o) => o,
        None => return false,
    };
    o.parent = Some(parent);
    objects.push(o);
    proof {
        lemma_objects_view_push(objects@.drop_last(), o);
        assert(objects@.drop_last() =~= old(objects)@.drop_last());
    }
    assert(object::objects_view(objects@) =~= with_last(
        ov,
        ObjectView { parent: Some(parent@), ..ov.last() },
    ));
    true
}

/// An option string placed on the objects: `key: value` adds the option to
/// the last attribute of the last object, with its key lower-cased;
/// anything else starts a new attribute of that name on the last object.
pub open spec fn spec_distribute(objs: Seq<ObjectView>, s: Seq<char>) -> Option<Seq<ObjectView>> {
    if text::has_char(s, ':') {
        add_option_last(
            objs,
            text::lowercase(text::trim_ws(text::before_first(s, ':'))),
            text::trim_ws(text::after_first(s, ':')),
        )
    } else {
        push_attr_last(objs, attribute::spec_new_attribute(s, false))
    }
}

/// All option strings placed on the objects in turn.
pub open spec fn distribute_all(objs: Seq<ObjectView>, opts: Seq<Seq<char>>) -> Option<
    Seq<ObjectView>,
>
    decreases opts.len(),
{
    if opts.len() == 0 {
        Some(objs)
    } else {
        match distribute_all(objs, opts.drop_last()) {
            Some(o) => spec_distribute(o, opts.last()),
            None => None,
        }
    }
}

/// Places one option string on the objects (see [`spec_distribute`]).
fn distribute_attribute_options(objects: &mut Vec<Object>, attr_string: String) -> (ok: bool)
    ensures
        match spec_distribute(object::objects_view(old(objects)@), attr_string@) {
            Some(v) => ok && object::objects_view(final(objects)@) == v,
            None => !ok,
        },
{
    let cs = text::chars_of(attr_string.as_str());
    match text::split_once_char(&cs, ':') {
        Some((key, value)) => {
            let key = text::string_of(&text::trim_chars(&key));
            let value = text::string_of(&text::trim_chars(&value));
            let option = AttrOption::new(key, value);
            add_option_to_last_attribute(objects, option)
        },
        None => {
            let a = Attribute::new(attr_string, false);
            push_attr_to_last(objects, a)
        },
    }
}

/// Places all option strings on the objects in turn (see
/// [`distribute_all`]).
fn distribute_all_options(objects: &mut Vec<Object>, options: Vec<String>) -> (ok: bool)
    ensures
        match distribute_all(object::objects_view(old(objects)@), text::strings_view(options@)) {
            Some(v) => ok && object::objects_view(final(objects)@) == v,
            None => !ok,
        },
{
    let ghost ov = object::objects_view(objects@);
    let ghost opts = text::strings_view(options@);
    let mut i: usize = 0;
    assert(opts.take(0) =~= Seq::<Seq<char>>::empty());
    while i < options.len()
        invariant
            i <= options@.len(),
            opts == text::strings_view(options@),
            ov == object::objects_view(old(objects)@),
            distribute_all(ov, opts.take(i as int)) == Some(object::objects_view(objects@)),
        decreases options.len() - i,
    {
        assert(opts.take(i + 1).drop_last() =~= opts.take(i as int));
        let s = options[i].clone();
        if !distribute_attribute_options(objects, s) {
            assert(distribute_all(ov, opts.take(i + 1)) is None);
            proof {
                lemma_distribute_none(ov, opts, i + 1);
            }
            return false;
        }
        i = i + 1;
    }
    assert(opts.take(i as int) =~= opts);
    true
}

/// Once placing options fails, placing more of them fails too.
proof fn lemma_distribute_none(objs: Seq<ObjectView>, opts: Seq<Seq<char>>, k: int)
    requires
        0 <= k <= opts.len(),
        distribute_all(objs, opts.take(k)) is None,
    ensures
        distribute_all(objs, opts) is None,
    decreases opts.len() - k,
{
    if k < opts.len() {
        assert(opts.take(k + 1).drop_last() =~= opts.take(k));
        lemma_distribute_none(objs, opts, k + 1);
    } else {
        assert(opts.take(k) =~= opts);
    }
}

/// The attribute a list item declares, at position `pos`: required or not,
/// with its shorthand type, if any, added as a `type` option.
pub open spec fn new_attr_from(
    required: bool,
    name: Seq<char>,
    dtype: Option<Seq<char>>,
    pos: Position,
) -> Option<AttributeView> {
    let a = attribute::spec_new_attribute(name, required);
    let a2 = match dtype {
        Some(d) => attribute::spec_add_option(a, text::lowercase("type"@), d),
        None => Some(a),
    };
    match a2 {
        Some(x) => Some(AttributeView { position: Some(pos), ..x }),
        None => None,
    }
}

/// Creates the attribute a list item declares (see [`new_attr_from`]).
fn create_attribute(required: bool, name: String, dtype: Option<String>, pos: Position) -> (r:
    Option<Attribute>)
    ensures
        match new_attr_from(required, name@, text::opt_string_view(dtype), pos) {
            Some(v) => r is Some && r->Some_0@ == v,
            None => r is None,
        },
{
    let mut attribute = Attribute::new(name, required);
    match dtype {
        Some(d) => {
            match attribute.add_option(AttrOption::new(String::from_str("type"), d)) {
                Ok(()) => {},
                Err(_) => return None,
            }
        },
        None => {},
    }
    attribute.set_position(pos);
    Some(attribute)
}

// ---------------------------------------------------------------------------
// The object pass
// ---------------------------------------------------------------------------

/// Where the reader is with respect to definitions.
#[derive(Debug, Clone, Copy, PartialEq, Eq, Structural)]
pub enum ParserState {
    InDefinition,
    OutsideDefinition,
    InHeading,
}

/// The state of the object pass: the model name, the objects read so far,
/// and where the reader is.
pub struct ObjPass {
    pub name: Option<Seq<char>>,
    pub objects: Seq<ObjectView>,
    pub state: ParserState,
}

/// The pass after a list start at `i`: a list that opens the attributes of
/// an object gives its first attribute; a later list gives options of the
/// last attribute.
pub open spec fn list_start_step(
    ev: Seq<SpanView>,
    i: int,
    st: ObjPass,
    pos: Position,
) -> Option<(ObjPass, int)> {
    if st.objects.len() == 0 {
        None
    } else if st.objects.last().attributes.len() == 0 {
        match spec_extract_attr(ev, i + 1) {
            Some((req, name, dt, j)) => match new_attr_from(req, name, dt, pos) {
                Some(a) => match push_attr_last(st.objects, a) {
                    Some(objs) => Some((ObjPass { objects: objs, ..st }, j)),
                    None => None,
                },
                None => None,
            },
            None => None,
        }
    } else {
        match options_from(ev, i + 1, Seq::empty()) {
            Some((opts, j)) => match distribute_all(st.objects, opts) {
                Some(objs) => Some((ObjPass { objects: objs, ..st }, j)),
                None => None,
            },
            None => None,
        }
    }
}

/// The pass after a list item at `i`: the item declares an attribute of the
/// last object.
pub open spec fn list_item_step(
    ev: Seq<SpanView>,
    i: int,
    st: ObjPass,
    pos: Position,
) -> Option<(ObjPass, int)> {
    match spec_extract_attr(ev, i) {
        Some((req, name, dt, j)) => match new_attr_from(req, name, dt, pos) {
            Some(a) => match push_attr_last(st.objects, a) {
                Some(objs) => Some((ObjPass { objects: objs, ..st }, j)),
                None => None,
            },
            None => None,
        },
        None => None,
    }
}

/// The pass after a text event at `i`.
pub open spec fn text_step(
    ev: Seq<SpanView>,
    i: int,
    st: ObjPass,
    t: Seq<char>,
    borrowed: bool,
) -> Option<(ObjPass, int)> {
    if borrowed && text::starts_with(t, ":"@) {
        match add_option_last(
            st.objects,
            text::lowercase("type"@),
            text::trim_ws(text::trim_start_char(t, ':')),
        ) {
            Some(objs) => Some((ObjPass { objects: objs, ..st }, i + 1)),
            None => None,
        }
    } else if borrowed && t == "["@ {
        if st.state != ParserState::InHeading {
            Some((st, i + 1))
        } else if st.objects.len() == 0 {
            None
        } else {
            match text_at(ev, i + 1) {
                Some(p) => if p != "]"@ {
                    Some(
                        (
                            ObjPass {
                                objects: with_last(
                                    st.objects,
                                    ObjectView { parent: Some(p), ..st.objects.last() },
                                ),
                                ..st
                            },
                            i + 2,
                        ),
                    )
                } else {
                    None
                },
                None => None,
            }
        }
    } else if t == "]"@ {
        if st.objects.len() == 0 {
            None
        } else {
            Some((ObjPass { objects: mark_array_last(st.objects), ..st }, i + 1))
        }
    } else if st.state == ParserState::InDefinition {
        if st.objects.len() == 0 {
            None
        } else {
            Some(
                (
                    ObjPass {
                        objects: with_last(
                            st.objects,
                            ObjectView {
                                docstring: st.objects.last().docstring + t,
                                ..st.objects.last()
                            },
                        ),
                        ..st
                    },
                    i + 1,
                ),
            )
        }
    } else {
        Some((st, i + 1))
    }
}

/// One step of the object pass at event `i` of a text with bytes `b` and
/// line feeds at `offs`: the new state and the index of the next event to
/// read, or `None` where the markdown cannot be read.
pub open spec fn obj_step(
    b: Seq<u8>,
    offs: Seq<usize>,
    ev: Seq<SpanView>,
    i: int,
    st: ObjPass,
) -> Option<(ObjPass, int)> {
    let pos = spec_position(b, offs, ev[i].start as int, ev[i].end as int);
    match ev[i].event {
        EventView::StartHeading { level, plain } => if plain && level == 1 {
            match spec_extract_name(ev, i) {
                Some((t, j)) => Some((ObjPass { name: Some(t), ..st }, j)),
                None => None,
            }
        } else if plain && level == 2 {
            Some((ObjPass { state: ParserState::OutsideDefinition, ..st }, i + 1))
        } else if plain && level == 3 {
            match spec_extract_name(ev, i) {
                Some((h, j)) => match text::first_word(h) {
                    Some(w) => Some(
                        (
                            ObjPass {
                                objects: st.objects.push(
                                    ObjectView {
                                        position: Some(pos),
                                        ..new_object_view(w, paren_term_from(h, 0))
                                    },
                                ),
                                state: ParserState::InHeading,
                                ..st
                            },
                            j,
                        ),
                    ),
                    None => None,
                },
                None => None,
            }
        } else {
            Some((st, i + 1))
        },
        EventView::EndHeading { level } => if level == 3 {
            Some((ObjPass { state: ParserState::InDefinition, ..st }, i + 1))
        } else {
            Some((st, i + 1))
        },
        EventView::Text { text, borrowed } => text_step(ev, i, st, text, borrowed),
        EventView::StartList { ordered } => if ordered || st.state
            == ParserState::OutsideDefinition {
            Some((st, i + 1))
        } else {
            list_start_step(ev, i, st, pos)
        },
        EventView::StartItem => if st.state == ParserState::OutsideDefinition {
            Some((st, i + 1))
        } else {
            list_item_step(ev, i, st, pos)
        },
        _ => Some((st, i + 1)),
    }
}

/// Text without `c`, then `c`, holds that text before its first `c`.
proof fn lemma_before_first_prefix(t: Seq<char>, rest: Seq<char>, c: char)
    requires
        forall|k: int| 0 <= k < t.len() ==> t[k] != c,
        rest.len() > 0,
        rest[0] == c,
    ensures
        text::before_first(t + rest, c) == t,
    decreases t.len(),
{
    if t.len() == 0 {
        assert(t + rest =~= rest);
    } else {
        let u = t + rest;
        assert(u[0] == t[0]);
        assert(u.skip(1) =~= t.skip(1) + rest);
        lemma_before_first_prefix(t.skip(1), rest, c);
        assert(seq![t[0]] + t.skip(1) =~= t);
    }
}

/// The term read from a heading `pre (t) post`, where `pre` holds no `(`
/// and `t` is not empty and holds no `)`, is `t`.
proof fn lemma_heading_term(pre: Seq<char>, t: Seq<char>, post: Seq<char>, k: int)
    requires
        forall|q: int| 0 <= q < pre.len() ==> pre[q] != '(',
        t.len() > 0,
        forall|q: int| 0 <= q < t.len() ==> t[q] != ')',
        0 <= k <= pre.len(),
    ensures
        paren_term_from(pre + seq!['('] + t + seq![')'] + post, k) == Some(t),
    decreases pre.len() - k,
{
    let h = pre + seq!['('] + t + seq![')'] + post;
    if k < pre.len() {
        assert(h[k] == pre[k]);
        lemma_heading_term(pre, t, post, k + 1);
    } else {
        assert(h[k] == '(');
        assert(h[k + 1] == t[0]);
        let r = h.skip(k + 1);
        assert(r =~= t + (seq![')'] + post));
        assert(r[t.len() as int] == ')');
        lemma_before_first_prefix(t, seq![')'] + post, ')');
    }
}

/// An object heading `### pre (t) post`, where `pre` holds no `(` and `t`
/// is not empty and holds no `)`, starts a new object named by the
/// heading's first word, whose term is `t`: the text in the first
/// parentheses.
pub proof fn law_heading_term(
    b: Seq<u8>,
    offs: Seq<usize>,
    ev: Seq<SpanView>,
    i: int,
    st: ObjPass,
    pre: Seq<char>,
    t: Seq<char>,
    post: Seq<char>,
)
    requires
        0 <= i < ev.len(),
        ev[i].event == (EventView::StartHeading { level: 3, plain: true }),
        spec_extract_name(ev, i) matches Some((h, j)) && h == pre + seq!['('] + t + seq![')'] + post
            && text::first_word(h) is Some,
        forall|q: int| 0 <= q < pre.len() ==> pre[q] != '(',
        t.len() > 0,
        forall|q: int| 0 <= q < t.len() ==> t[q] != ')',
    ensures
        obj_step(b, offs, ev, i, st) matches Some((st2, _)) && st2.objects.len() == st.objects.len() + 1
            && st2.objects.last().term == Some(t) && st2.objects.last().name == object::spec_object_name(
            text::first_word(pre + seq!['('] + t + seq![')'] + post)->Some_0,
        ) && st2.objects.last().attributes.len() == 0,
{
    lemma_heading_term(pre, t, post, 0);
}

/// The object pass from event `i` on, from state `st`.
pub open spec fn obj_run(
    b: Seq<u8>,
    offs: Seq<usize>,
    ev: Seq<SpanView>,
    i: int,
    st: ObjPass,
) -> Option<ObjPass>
    decreases ev.len() - i,
{
    if i < 0 || i >= ev.len() {
        Some(st)
    } else {
        match obj_step(b, offs, ev, i, st) {
            Some((st2, j)) => if j <= i {
                None
            } else if j >= ev.len() {
                Some(st2)
            } else {
                obj_run(b, offs, ev, j, st2)
            },
            None => None,
        }
    }
}

/// The pass state made of the reader's values.
pub open spec fn pass_of(name: Option<String>, objects: Seq<Object>, state: ParserState) -> ObjPass {
    ObjPass { name: text::opt_string_view(name), objects: object::objects_view(objects), state }
}

/// What the reader needs to know of its input: the line feeds of the text,
/// events whose ranges lie in the text, and sizes that fit the machine.
pub open spec fn well_read(content: &str, offsets: Seq<usize>, events: Seq<MdSpan>) -> bool {
    &&& offsets == newline_offsets(content.spec_bytes())
    &&& content.spec_bytes().len() <= isize::MAX
    &&& events.len() <= isize::MAX
    &&& forall|k: int|
        0 <= k < events.len() ==> #[trigger] events[k].start <= events[k].end && events[k].end
            <= content.spec_bytes().len()
}

/// The position of the event at `i`.
fn event_position(content: &str, offsets: &Vec<usize>, events: &Vec<MdSpan>, i: usize) -> (r:
    Position)
    requires
        i < events@.len(),
        well_read(content, offsets@, events@),
    ensures
        r == spec_position(
            content.spec_bytes(),
            offsets@,
            events@[i as int].start as int,
            events@[i as int].end as int,
        ),
{
    let s = events[i].start;
    let e = events[i].end;
    get_position(content, offsets.as_slice(), s, e)
}

/// Handles a list start at `i` (see [`list_start_step`]).
fn handle_list_start(
    content: &str,
    offsets: &Vec<usize>,
    events: &Vec<MdSpan>,
    i: usize,
    objects: &mut Vec<Object>,
) -> (r: Option<usize>)
    requires
        i < events@.len(),
        well_read(content, offsets@, events@),
    ensures
        match list_start_step(
            events::spans_view(events@),
            i as int,
            pass_of(None, old(objects)@, ParserState::InDefinition),
            spec_position(
                content.spec_bytes(),
                offsets@,
                events@[i as int].start as int,
                events@[i as int].end as int,
            ),
        ) {
            Some((st, j)) => r == Some(j as usize) && j == j as usize && st.objects
                == object::objects_view(final(objects)@),
            None => r is None,
        },
{
    let pos = event_position(content, offsets, events, i);
    let n = objects.len();
    if n == 0 {
        return None;
    }
    assert(object::objects_view(objects@).last().attributes.len() == objects@[n - 1].attributes@.len());
    if objects[n - 1].attributes.len() == 0 {
        if i + 1 >= events.len() {
            return None;
        }
        match extract_attr_name_required(events, i + 1) {
            Some((req, name, dt, j)) => match create_attribute(req, name, dt, pos) {
                Some(a) => if push_attr_to_last(objects, a) {
                    Some(j)
                } else {
                    None
                },
                None => None,
            },
            None => None,
        }
    } else {
        match extract_attribute_options(events, i) {
            Some((opts, j)) => if distribute_all_options(objects, opts) {
                Some(j)
            } else {
                None
            },
            None => None,
        }
    }
}

/// Handles a list item at `i` (see [`list_item_step`]).
fn handle_list_item(
    content: &str,
    offsets: &Vec<usize>,
    events: &Vec<MdSpan>,
    i: usize,
    objects: &mut Vec<Object>,
) -> (r: Option<usize>)
    requires
        i < events@.len(),
        well_read(content, offsets@, events@),
    ensures
        match list_item_step(
            events::spans_view(events@),
            i as int,
            pass_of(None, old(objects)@, ParserState::InDefinition),
            spec_position(
                content.spec_bytes(),
                offsets@,
                events@[i as int].start as int,
                events@[i as int].end as int,
            ),
        ) {
            Some((st, j)) => r == Some(j as usize) && j == j as usize && st.objects
                == object::objects_view(final(objects)@),
            None => r is None,
        },
{
    let pos = event_position(content, offsets, events, i);
    match extract_attr_name_required(events, i) {
        Some((req, name, dt, j)) => match create_attribute(req, name, dt, pos) {
            Some(a) => if push_attr_to_last(objects, a) {
                Some(j)
            } else {
                None
            },
            None => None,
        },
        None => None,
    }
}

/// Handles a text event at `i` (see [`text_step`]).
fn handle_text(
    events: &Vec<MdSpan>,
    i: usize,
    t: &String,
    borrowed: bool,
    objects: &mut Vec<Object>,
    state: ParserState,
) -> (r: Option<usize>)
    requires
        i < events@.len(),
        events@.len() <= isize::MAX,
    ensures
        match text_step(
            events::spans_view(events@),
            i as int,
            pass_of(None, old(objects)@, state),
            t@,
            borrowed,
        ) {
            Some((st, j)) => r == Some(j as usize) && j == j as usize && st.objects
                == object::objects_view(final(objects)@),
            None => r is None,
        },
{
    let tc = text::chars_of(t.as_str());
    let colon = text::chars_of(":");
    proof {
        reveal_strlit(":");
        reveal_strlit("[");
        reveal_strlit("]");
    }
    if borrowed && text::has_prefix(&tc, &colon) {
        let rest = text::trim_start_matches_char(&tc, ':');
        let value = text::string_of(&text::trim_chars(&rest));
        let option = AttrOption::new(String::from_str("type"), value);
        if add_option_to_last_attribute(objects, option) {
            Some(i + 1)
        } else {
            None
        }
    } else if borrowed && text::str_eq(t.as_str(), "[") {
        if state != ParserState::InHeading {
            Some(i + 1)
        } else if objects.len() == 0 {
            None
        } else {
            match text_at_exec(events, i + 1) {
                Some(p) => if !text::str_eq(p.as_str(), "]") {
                    set_parent_last(objects, p);
                    Some(i + 2)
                } else {
                    None
                },
                None => None,
            }
        }
    } else if text::str_eq(t.as_str(), "]") {
        if handle_array_marker(objects) {
            Some(i + 1)
        } else {
            None
        }
    } else if state == ParserState::InDefinition {
        if handle_docstring(objects, t.as_str()) {
            Some(i + 1)
        } else {
            None
        }
    } else {
        Some(i + 1)
    }
}

/// One step of the object pass at event `i` (see [`obj_step`]).
fn object_step(
    content: &str,
    offsets: &Vec<usize>,
    events: &Vec<MdSpan>,
    i: usize,
    name: &mut Option<String>,
    objects: &mut Vec<Object>,
    state: &mut ParserState,
) -> (r: Option<usize>)
    requires
        i < events@.len(),
        well_read(content, offsets@, events@),
    ensures
        match obj_step(
            content.spec_bytes(),
            offsets@,
            events::spans_view(events@),
            i as int,
            pass_of(*old(name), old(objects)@, *old(state)),
        ) {
            Some((st, j)) => r == Some(j as usize) && j == j as usize && st == pass_of(
                *final(name),
                final(objects)@,
                *final(state),
            ),
            None => r is None,
        },
{
    let ghost ev = events::spans_view(events@);
    assert(ev[i as int] == events@[i as int]@);
    match &events[i].event {
        MdEvent::StartHeading { level, plain } => {
            if *plain && *level == 1 {
                match extract_name(events, i) {
                    Some((t, j)) => {
                        *name = Some(t);
                        Some(j)
                    },
                    None => None,
                }
            } else if *plain && *level == 2 {
                *state = ParserState::OutsideDefinition;
                Some(i + 1)
            } else if *plain && *level == 3 {
                match extract_name(events, i) {
                    Some((h, j)) => match text::first_word_of(h.as_str()) {
                        Some(w) => {
                            let pos = event_position(content, offsets, events, i);
                            let term = extract_object_term(h.as_str());
                            let mut o = Object::new(w, term);
                            o.set_position(pos);
                            assert(object::attrs_view(o.attributes@) =~= Seq::<
                                AttributeView,
                            >::empty());
                            assert(text::strings_view(o.mixins@) =~= Seq::<Seq<char>>::empty());
                            let ghost before = objects@;
                            objects.push(o);
                            proof {
                                lemma_objects_view_push(before, o);
                            }
                            *state = ParserState::InHeading;
                            Some(j)
                        },
                        None => None,
                    },
                    None => None,
                }
            } else {
                Some(i + 1)
            }
        },
        MdEvent::EndHeading { level } => {
            if *level == 3 {
                *state = ParserState::InDefinition;
            }
            Some(i + 1)
        },
        MdEvent::Text { text, borrowed } => handle_text(events, i, text, *borrowed, objects, *state),
        MdEvent::StartList { ordered } => {
            if *ordered || *state == ParserState::OutsideDefinition {
                Some(i + 1)
            } else {
                handle_list_start(content, offsets, events, i, objects)
            }
        },
        MdEvent::StartItem => {
            if *state == ParserState::OutsideDefinition {
                Some(i + 1)
            } else {
                handle_list_item(content, offsets, events, i, objects)
            }
        },
        _ => Some(i + 1),
    }
}

/// The state the object pass starts from.
pub open spec fn initial_pass() -> ObjPass {
    ObjPass { name: None, objects: Seq::empty(), state: ParserState::OutsideDefinition }
}

/// Runs the object pass over all events (see [`obj_run`]): the model name
/// and the objects, or `None` where the markdown cannot be read.
fn parse_objects(content: &str, offsets: &Vec<usize>, events: &Vec<MdSpan>) -> (r: Option<
    (Option<String>, Vec<Object>),
>)
    requires
        well_read(content, offsets@, events@),
    ensures
        match obj_run(
            content.spec_bytes(),
            offsets@,
            events::spans_view(events@),
            0,
            initial_pass(),
        ) {
            Some(st) => r is Some && st.name == text::opt_string_view(r->Some_0.0) && st.objects
                == object::objects_view(r->Some_0.1@),
            None => r is None,
        },
{
    let ghost b = content.spec_bytes();
    let ghost ev = events::spans_view(events@);
    let mut name: Option<String> = None;
    let mut objects: Vec<Object> = Vec::new();
    let mut state = ParserState::OutsideDefinition;
    let mut i: usize = 0;
    assert(object::objects_view(objects@) =~= Seq::<ObjectView>::empty());
    while i < events.len()
        invariant
            well_read(content, offsets@, events@),
            b == content.spec_bytes(),
            ev == events::spans_view(events@),
            obj_run(b, offsets@, ev, i as int, pass_of(name, objects@, state)) == obj_run(
                b,
                offsets@,
                ev,
                0,
                initial_pass(),
            ),
        decreases events@.len() - i,
    {
        match object_step(content, offsets, events, i, &mut name, &mut objects, &mut state) {
            Some(j) => {
                if j <= i {
                    return None;
                }
                i = if j < events.len() {
                    j
                } else {
                    events.len()
                };
            },
            None => return None,
        }
    }
    Some((name, objects))
}

// ---------------------------------------------------------------------------
// The enumeration pass
// ---------------------------------------------------------------------------

/// The text with every `"` removed and white space trimmed first.
pub open spec fn clean_mapping_part(s: Seq<char>) -> Seq<char> {
    text::replace_char_by(text::trim_ws(s), '"', Seq::empty())
}

/// The mappings after reading `lines`: each line of the form `key = value`
/// (exactly one `=`) sets its trimmed key, without quotes, to its trimmed
/// value, without quotes; other lines are skipped.
pub open spec fn mappings_from_lines(
    m: Seq<(Seq<char>, Seq<char>)>,
    lines: Seq<Seq<char>>,
) -> Seq<(Seq<char>, Seq<char>)>
    decreases lines.len(),
{
    if lines.len() == 0 {
        m
    } else {
        let prev = mappings_from_lines(m, lines.drop_last());
        let parts = text::split_on(lines.last(), '=');
        if parts.len() == 2 {
            object::spec_map_insert(prev, clean_mapping_part(parts[0]), clean_mapping_part(parts[1]))
        } else {
            prev
        }
    }
}

/// A part of a mapping line, trimmed and without quotes.
fn clean_part(part: &Vec<char>) -> (r: String)
    ensures
        r@ == clean_mapping_part(part@),
{
    let t = text::string_of(&text::trim_chars(part));
    let nothing = "";
    proof {
        reveal_strlit("");
    }
    assert(nothing@ =~= Seq::<char>::empty());
    text::replace_char_str(t.as_str(), '"', nothing)
}

/// Reads the mappings of an enumeration from the text of its code block
/// (see [`mappings_from_lines`]).
fn process_enum_mappings(mappings: &mut Mappings, text: &str)
    ensures
        final(mappings)@ == mappings_from_lines(
            old(mappings)@,
            text::split_on(text@, '\n'),
        ),
{
    let cs = text::chars_of(text);
    let lines = text::split_chars(&cs, '\n');
    let ghost lv = text::views(lines@);
    let ghost m0 = mappings@;
    let mut i: usize = 0;
    assert(lv.take(0) =~= Seq::<Seq<char>>::empty());
    while i < lines.len()
        invariant
            i <= lines@.len(),
            lv == text::views(lines@),
            lv == text::split_on(text@, '\n'),
            m0 == old(mappings)@,
            mappings@ == mappings_from_lines(m0, lv.take(i as int)),
        decreases lines.len() - i,
    {
        assert(lv.take(i + 1).drop_last() =~= lv.take(i as int));
        assert(lv.take(i + 1).last() == lines@[i as int]@);
        let parts = text::split_chars(&lines[i], '=');
        if parts.len() == 2 {
            let key = clean_part(&parts[0]);
            let value = clean_part(&parts[1]);
            mappings.insert(key, value);
        }
        i = i + 1;
    }
    assert(lv.take(i as int) =~= lv);
}

/// One step of the enumeration pass at event `i`: a plain level-3 heading
/// starts an enumeration named by the text that follows; a fenced code
/// block gives the mappings of the last enumeration.
pub open spec fn enum_step(
    b: Seq<u8>,
    offs: Seq<usize>,
    ev: Seq<SpanView>,
    i: int,
    enums: Seq<EnumView>,
) -> Option<(Seq<EnumView>, int)> {
    match ev[i].event {
        EventView::StartHeading { level, plain } => if plain && level == 3 {
            match spec_extract_name(ev, i) {
                Some((name, j)) => Some(
                    (
                        enums.push(
                            EnumView {
                                name,
                                mappings: Seq::empty(),
                                docstring: Seq::empty(),
                                position: Some(
                                    spec_position(b, offs, ev[i].start as int, ev[i].end as int),
                                ),
                            },
                        ),
                        j,
                    ),
                ),
                None => None,
            }
        } else {
            Some((enums, i + 1))
        },
        EventView::StartFencedCode => if i + 1 >= ev.len() {
            None
        } else {
            match text_of(ev[i + 1].event) {
                Some(t) => if enums.len() > 0 {
                    Some(
                        (
                            enums.update(
                                enums.len() - 1,
                                EnumView {
                                    mappings: mappings_from_lines(
                                        enums.last().mappings,
                                        text::split_on(t, '\n'),
                                    ),
                                    ..enums.last()
                                },
                            ),
                            i + 2,
                        ),
                    )
                } else {
                    Some((enums, i + 2))
                },
                None => Some((enums, i + 2)),
            }
        },
        _ => Some((enums, i + 1)),
    }
}

/// The enumeration pass from event `i` on.
pub open spec fn enum_run(
    b: Seq<u8>,
    offs: Seq<usize>,
    ev: Seq<SpanView>,
    i: int,
    enums: Seq<EnumView>,
) -> Option<Seq<EnumView>>
    decreases ev.len() - i,
{
    if i < 0 || i >= ev.len() {
        Some(enums)
    } else {
        match enum_step(b, offs, ev, i, enums) {
            Some((e2, j)) => if j <= i {
                None
            } else if j >= ev.len() {
                Some(e2)
            } else {
                enum_run(b, offs, ev, j, e2)
            },
            None => None,
        }
    }
}

/// One step of the enumeration pass (see [`enum_step`]).
fn enum_event_step(
    content: &str,
    offsets: &Vec<usize>,
    events: &Vec<MdSpan>,
    i: usize,
    enums: &mut Vec<Enumeration>,
) -> (r: Option<usize>)
    requires
        i < events@.len(),
        well_read(content, offsets@, events@),
    ensures
        match enum_step(
            content.spec_bytes(),
            offsets@,
            events::spans_view(events@),
            i as int,
            enums_view(old(enums)@),
        ) {
            Some((e, j)) => r == Some(j as usize) && j == j as usize && e == enums_view(
                final(enums)@,
            ),
            None => r is None,
        },
{
    let ghost ev = events::spans_view(events@);
    let ghost ov = enums_view(enums@);
    assert(ev[i as int] == events@[i as int]@);
    match &events[i].event {
        MdEvent::StartHeading { level, plain } => {
            if *plain && *level == 3 {
                match extract_name(events, i) {
                    Some((name, j)) => {
                        let pos = event_position(content, offsets, events, i);
                        let mut e = Enumeration::default();
                        e.name = name;
                        e.set_position(pos);
                        enums.push(e);
                        assert(enums_view(enums@) =~= ov.push(enum_view(e)));
                        Some(j)
                    },
                    None => None,
                }
            } else {
                Some(i + 1)
            }
        },
        MdEvent::StartFencedCode => {
            if i + 1 >= events.len() {
                return None;
            }
            assert(ev[i + 1] == events@[i + 1]@);
            match &events[i + 1].event {
                MdEvent::Text { text, .. } => {
                    if enums.len() > 0 {
                        let mut e = enums.pop().unwrap();
                        let ghost e0 = e;
                        assert(ov == enums_view(enums@).push(enum_view(e0)));
                        let mut m = Mappings::new();
                        std::mem::swap(&mut m, &mut e.mappings);
                        process_enum_mappings(&mut m, text.as_str());
                        e.mappings = m;
                        let ghost rest = enums@;
                        enums.push(e);
                        assert(enums_view(enums@) =~= enums_view(rest).push(enum_view(e)));
                        assert(enums_view(enums@) =~= ov.update(
                            ov.len() - 1,
                            EnumView {
                                mappings: mappings_from_lines(
                                    ov.last().mappings,
                                    text::split_on(text@, '\n'),
                                ),
                                ..ov.last()
                            },
                        ));
                    }
                    Some(i + 2)
                },
                _ => Some(i + 2),
            }
        },
        _ => Some(i + 1),
    }
}

/// Runs the enumeration pass over all events (see [`enum_run`]).
fn parse_enums(content: &str, offsets: &Vec<usize>, events: &Vec<MdSpan>) -> (r: Option<
    Vec<Enumeration>,
>)
    requires
        well_read(content, offsets@, events@),
    ensures
        match enum_run(
            content.spec_bytes(),
            offsets@,
            events::spans_view(events@),
            0,
            Seq::empty(),
        ) {
            Some(e) => r is Some && e == enums_view(r->Some_0@),
            None => r is None,
        },
{
    let ghost b = content.spec_bytes();
    let ghost ev = events::spans_view(events@);
    let mut enums: Vec<Enumeration> = Vec::new();
    let mut i: usize = 0;
    assert(enums_view(enums@) =~= Seq::<EnumView>::empty());
    while i < events.len()
        invariant
            well_read(content, offsets@, events@),
            b == content.spec_bytes(),
            ev == events::spans_view(events@),
            enum_run(b, offsets@, ev, i as int, enums_view(enums@)) == enum_run(
                b,
                offsets@,
                ev,
                0,
                Seq::empty(),
            ),
        decreases events@.len() - i,
    {
        match enum_event_step(content, offsets, events, i, &mut enums) {
            Some(j) => {
                if j <= i {
                    return None;
                }
                i = if j < events.len() {
                    j
                } else {
                    events.len()
                };
            },
            None => return None,
        }
    }
    Some(enums)
}

// ---------------------------------------------------------------------------
// Completing the model
// ---------------------------------------------------------------------------

/// The names of enumerations.
pub open spec fn enum_names(enums: Seq<EnumView>) -> Seq<Seq<char>> {
    enums.map_values(|e: EnumView| e.name)
}

/// The enumerations that have values.
pub open spec fn kept_enums(enums: Seq<EnumView>) -> Seq<EnumView> {
    enums.filter(|e: EnumView| e.mappings.len() > 0)
}

/// The objects a model keeps: those with attributes, or, where empty
/// objects are allowed, those that are not named like an enumeration.
pub open spec fn kept_objects(
    objs: Seq<ObjectView>,
    enums: Seq<EnumView>,
    allow_empty: bool,
) -> Seq<ObjectView> {
    if allow_empty {
        objs.filter(|o: ObjectView| !enum_names(enums).contains(o.name))
    } else {
        objs.filter(|o: ObjectView| o.attributes.len() > 0)
    }
}

/// Keeps the enumerations that have values.
fn keep_enums(enums: Vec<Enumeration>) -> (r: Vec<Enumeration>)
    ensures
        enums_view(r@) == kept_enums(enums_view(enums@)),
{
    let ghost all = enums_view(enums@);
    let ghost n = enums@.len();
    let mut rest = enums;
    let mut kept: Vec<Enumeration> = Vec::new();
    assert(all.take(0) =~= Seq::<EnumView>::empty());
    assert(enums_view(rest@) =~= all.skip(0));
    while rest.len() > 0
        invariant
            all.len() == n,
            rest@.len() <= n,
            enums_view(rest@) == all.skip(n - rest@.len()),
            enums_view(kept@) == kept_enums(all.take(n - rest@.len())),
        decreases rest@.len(),
    {
        let ghost k = n - rest@.len();
        reveal_with_fuel(Seq::<_>::filter, 1);
        assert(all.take(k + 1).drop_last() =~= all.take(k));
        assert(all.skip(k)[0] == all[k]);
        let ghost before_rest = rest@;
        let e = rest.remove(0);
        assert(enums_view(rest@) =~= all.skip(k + 1)) by {
            assert(all.skip(k).drop_first() =~= all.skip(k + 1));
            assert(enums_view(rest@) =~= enums_view(before_rest).drop_first());
        }
        assert(enum_view(e) == all[k]);
        if e.has_values() {
            let ghost bk = kept@;
            kept.push(e);
            assert(enums_view(kept@) =~= enums_view(bk).push(all[k]));
        }
    }
    assert(all.take(n as int) =~= all);
    kept
}

/// The names of a list of enumerations.
fn names_of_enums(enums: &Vec<Enumeration>) -> (r: Vec<String>)
    ensures
        text::strings_view(r@) == enum_names(enums_view(enums@)),
{
    let mut r: Vec<String> = Vec::new();
    let mut i: usize = 0;
    while i < enums.len()
        invariant
            i <= enums@.len(),
            text::strings_view(r@) == enum_names(enums_view(enums@)).take(i as int),
        decreases enums.len() - i,
    {
        let ghost before = r@;
        let n = enums[i].name.clone();
        r.push(n);
        assert(text::strings_view(r@) =~= text::strings_view(before).push(n@));
        assert(enum_names(enums_view(enums@)).take(i + 1) =~= enum_names(enums_view(enums@)).take(
            i as int,
        ).push(enums@[i as int].name@));
        i = i + 1;
    }
    assert(enum_names(enums_view(enums@)).take(i as int) =~= enum_names(enums_view(enums@)));
    r
}

/// Whether `x` is among the strings.
fn contains_name(v: &Vec<String>, x: &String) -> (r: bool)
    ensures
        r == text::strings_view(v@).contains(x@),
{
    let mut i: usize = 0;
    while i < v.len()
        invariant
            i <= v@.len(),
            forall|k: int| 0 <= k < i ==> text::strings_view(v@)[k] != x@,
        decreases v.len() - i,
    {
        if v[i] == *x {
            assert(text::strings_view(v@)[i as int] == x@);
            return true;
        }
        i = i + 1;
    }
    false
}

/// Keeps the objects a model keeps (see [`kept_objects`]).
fn keep_objects(objects: Vec<Object>, enum_list: &Vec<String>, allow_empty: bool) -> (r: Vec<
    Object,
>)
    ensures
        forall|es: Seq<EnumView>|
            enum_names(es) == text::strings_view(enum_list@) ==> object::objects_view(r@)
                == #[trigger] kept_objects(object::objects_view(objects@), es, allow_empty),
{
    let ghost all = object::objects_view(objects@);
    let ghost names = text::strings_view(enum_list@);
    let ghost keep = if allow_empty {
        |o: ObjectView| !names.contains(o.name)
    } else {
        |o: ObjectView| o.attributes.len() > 0
    };
    let ghost n = objects@.len();
    let mut rest = objects;
    let mut kept: Vec<Object> = Vec::new();
    assert(all.take(0) =~= Seq::<ObjectView>::empty());
    assert(object::objects_view(rest@) =~= all.skip(0));
    while rest.len() > 0
        invariant
            all.len() == n,
            rest@.len() <= n,
            names == text::strings_view(enum_list@),
            keep == (if allow_empty {
                |o: ObjectView| !names.contains(o.name)
            } else {
                |o: ObjectView| o.attributes.len() > 0
            }),
            object::objects_view(rest@) == all.skip(n - rest@.len()),
            object::objects_view(kept@) == all.take(n - rest@.len()).filter(keep),
        decreases rest@.len(),
    {
        let ghost k = n - rest@.len();
        reveal_with_fuel(Seq::<_>::filter, 1);
        assert(all.take(k + 1).drop_last() =~= all.take(k));
        assert(all.skip(k)[0] == all[k]);
        let ghost before_rest = rest@;
        let o = rest.remove(0);
        assert(object::objects_view(rest@) =~= all.skip(k + 1)) by {
            assert(all.skip(k).drop_first() =~= all.skip(k + 1));
            assert(object::objects_view(rest@) =~= object::objects_view(before_rest).drop_first());
        }
        assert(o@ == all[k]);
        let keep_it = if allow_empty {
            !contains_name(enum_list, &o.name)
        } else {
            o.attributes.len() > 0
        };
        assert(keep_it == keep(all[k]));
        if keep_it {
            let ghost bk = kept@;
            kept.push(o);
            proof {
                lemma_objects_view_push(bk, o);
            }
        }
    }
    assert(all.take(n as int) =~= all);
    assert forall|es: Seq<EnumView>| enum_names(es) == names implies object::objects_view(kept@)
        == #[trigger] kept_objects(all, es, allow_empty) by {
        if allow_empty {
            assert(keep =~= |o: ObjectView| !enum_names(es).contains(o.name));
        } else {
            assert(keep =~= |o: ObjectView| o.attributes.len() > 0);
        }
    }
    kept
}

/// An attribute all of whose data types (at least one) are enumerations is
/// marked as an enumeration.
pub open spec fn mark_enum(a: AttributeView, names: Seq<Seq<char>>) -> AttributeView {
    if a.dtypes.len() > 0 && forall|k: int|
        0 <= k < a.dtypes.len() ==> names.contains(#[trigger] a.dtypes[k]) {
        AttributeView { is_enum: true, ..a }
    } else {
        a
    }
}

/// Every attribute of every object checked against the enumeration names.
pub open spec fn mark_enums(objs: Seq<ObjectView>, names: Seq<Seq<char>>) -> Seq<ObjectView> {
    objs.map_values(
        |o: ObjectView|
            ObjectView {
                attributes: o.attributes.map_values(|a: AttributeView| mark_enum(a, names)),
                ..o
            },
    )
}

/// Marks an attribute as an enumeration where all its types are (see
/// [`mark_enum`]).
fn mark_attribute(a: &mut Attribute, names: &Vec<String>)
    ensures
        final(a)@ == mark_enum(old(a)@, text::strings_view(names@)),
{
    let n = a.dtypes.len();
    if n == 0 {
        return;
    }
    let mut i: usize = 0;
    while i < n
        invariant
            n == a.dtypes@.len(),
            a@.dtypes.len() == n,
            i <= n,
            forall|k: int|
                0 <= k < i ==> text::strings_view(names@).contains(#[trigger] a@.dtypes[k]),
        decreases n - i,
    {
        assert(a@.dtypes[i as int] == a.dtypes@[i as int]@);
        if !contains_name(names, &a.dtypes[i]) {
            return;
        }
        i = i + 1;
    }
    a.is_enum = true;
}

/// Marks the attributes of all objects (see [`mark_enums`]).
fn set_enum_attributes(objects: &mut Vec<Object>, names: &Vec<String>)
    ensures
        object::objects_view(final(objects)@) == mark_enums(
            object::objects_view(old(objects)@),
            text::strings_view(names@),
        ),
{
    let ghost nv = text::strings_view(names@);
    let ghost all = object::objects_view(objects@);
    let mut rest: Vec<Object> = Vec::new();
    std::mem::swap(&mut rest, objects);
    let ghost n = rest@.len();
    let mut done: Vec<Object> = Vec::new();
    assert(object::objects_view(rest@) =~= all.skip(0));
    while rest.len() > 0
        invariant
            all.len() == n,
            rest@.len() <= n,
            nv == text::strings_view(names@),
            object::objects_view(rest@) == all.skip(n - rest@.len()),
            object::objects_view(done@) == mark_enums(all.take(n - rest@.len()), nv),
        decreases rest@.len(),
    {
        let ghost k = n - rest@.len();
        assert(all.skip(k)[0] == all[k]);
        let ghost before_rest = rest@;
        let mut o = rest.remove(0);
        assert(object::objects_view(rest@) =~= all.skip(k + 1)) by {
            assert(all.skip(k).drop_first() =~= all.skip(k + 1));
            assert(object::objects_view(rest@) =~= object::objects_view(before_rest).drop_first());
        }
        let ghost o0 = o@;
        assert(o0 == all[k]);
        let mut attrs: Vec<Attribute> = Vec::new();
        std::mem::swap(&mut attrs, &mut o.attributes);
        let ghost av = object::attrs_view(attrs@);
        let mut marked: Vec<Attribute> = Vec::new();
        let ghost m = attrs@.len();
        assert(object::attrs_view(attrs@) =~= av.skip(0));
        while attrs.len() > 0
            invariant
                av.len() == m,
                attrs@.len() <= m,
                nv == text::strings_view(names@),
                object::attrs_view(attrs@) == av.skip(m - attrs@.len()),
                object::attrs_view(marked@) == av.take(m - attrs@.len()).map_values(
                    |a: AttributeView| mark_enum(a, nv),
                ),
            decreases attrs@.len(),
        {
            let ghost q = m - attrs@.len();
            assert(av.skip(q)[0] == av[q]);
            let ghost before_attrs = attrs@;
            let mut a = attrs.remove(0);
            assert(object::attrs_view(attrs@) =~= av.skip(q + 1)) by {
                assert(av.skip(q).drop_first() =~= av.skip(q + 1));
                assert(object::attrs_view(attrs@) =~= object::attrs_view(before_attrs).drop_first());
            }
            mark_attribute(&mut a, names);
            let ghost bm = marked@;
            marked.push(a);
            assert(object::attrs_view(marked@) =~= object::attrs_view(bm).push(a@));
            assert(av.take(q + 1).map_values(|a: AttributeView| mark_enum(a, nv)) =~= av.take(
                q,
            ).map_values(|a: AttributeView| mark_enum(a, nv)).push(mark_enum(av[q], nv)));
        }
        assert(av.take(m as int) =~= av);
        o.attributes = marked;
        let ghost bd = done@;
        done.push(o);
        proof {
            lemma_objects_view_push(bd, o);
        }
        assert(mark_enums(all.take(k + 1), nv) =~= mark_enums(all.take(k), nv).push(o@));
    }
    assert(all.take(n as int) =~= all);
    *objects = done;
}

/// The first object that is named `p`, as it was read (before inheriting).
pub open spec fn find_parent(objs: Seq<ObjectView>, p: Seq<char>) -> Option<ObjectView>
    decreases objs.len(),
{
    if objs.len() == 0 {
        None
    } else if objs[0].name == p {
        Some(objs[0])
    } else {
        find_parent(objs.drop_first(), p)
    }
}

/// A built-in type of the markdown format: its name and the model that
/// defines it, whose first object is the type itself.
pub struct BuiltinType {
    /// The name of the type.
    pub name: String,
    /// The model that defines the type.
    pub model: DataModel,
}

/// The objects of a built-in type's model.
pub open spec fn builtin_objects(t: BuiltinType) -> Seq<ObjectView> {
    object::objects_view(t.model.objects@)
}

/// The enumerations of a built-in type's model.
pub open spec fn builtin_enums(t: BuiltinType) -> Seq<EnumView> {
    enums_view(t.model.enums@)
}

/// Every built-in model has at least one object, the type itself.
pub open spec fn builtins_defined(b: Seq<BuiltinType>) -> bool {
    forall|i: int| 0 <= i < b.len() ==> (#[trigger] b[i]).model.objects@.len() > 0
}

/// The position of the first built-in type named `p`.
pub open spec fn find_builtin(b: Seq<BuiltinType>, p: Seq<char>) -> Option<int>
    decreases b.len(),
{
    if b.len() == 0 {
        None
    } else if b[0].name@ == p {
        Some(0)
    } else {
        match find_builtin(b.drop_first(), p) {
            Some(i) => Some(i + 1),
            None => None,
        }
    }
}

/// Some attribute of the objects has `name` among its data types.
pub open spec fn uses_type(objs: Seq<ObjectView>, name: Seq<char>) -> bool {
    exists|i: int, j: int|
        0 <= i < objs.len() && 0 <= j < objs[i].attributes.len() && #[trigger] objs[i].attributes[j].dtypes.contains(
            name,
        )
}

/// The model after the built-in types are merged in (see
/// [`datamodel::merge_objects`]) that an attribute uses and that no object
/// is named by, both judged on the objects as they were given, the
/// built-ins taken in order up to position `k`.
pub open spec fn internal_types_upto(
    objs: Seq<ObjectView>,
    enums: Seq<EnumView>,
    b: Seq<BuiltinType>,
    k: int,
) -> (Seq<ObjectView>, Seq<EnumView>)
    decreases k,
{
    if k <= 0 {
        (objs, enums)
    } else {
        let (o, e) = internal_types_upto(objs, enums, b, k - 1);
        let t = b[k - 1];
        if !tree::names_of(objs).contains(t.name@) && uses_type(objs, t.name@) {
            (datamodel::merge_objects(o, builtin_objects(t)), datamodel::merge_enums(e, builtin_enums(t)))
        } else {
            (o, e)
        }
    }
}

/// An object with the attributes of its parent appended, if it has one:
/// the first object with the parent's name, otherwise the first built-in
/// type of that name; `None` when there is neither.
pub open spec fn inherit(o: ObjectView, objs: Seq<ObjectView>, b: Seq<BuiltinType>) -> Option<ObjectView> {
    match o.parent {
        None => Some(o),
        Some(p) => match find_parent(objs, p) {
            Some(q) => Some(ObjectView { attributes: o.attributes + q.attributes, ..o }),
            None => match find_builtin(b, p) {
                Some(k) => Some(ObjectView { attributes: o.attributes + builtin_objects(b[k])[0].attributes, ..o }),
                None => None,
            },
        },
    }
}

/// Every object with the attributes of its parent appended; `None` when a
/// parent is missing.
pub open spec fn inherit_all(objs: Seq<ObjectView>, b: Seq<BuiltinType>) -> Option<Seq<ObjectView>> {
    if forall|i: int| 0 <= i < objs.len() ==> (#[trigger] inherit(objs[i], objs, b)) is Some {
        Some(Seq::new(objs.len(), |i: int| inherit(objs[i], objs, b)->Some_0))
    } else {
        None
    }
}

/// The positions of the built-in types that the first `k` objects name as
/// parents where no object has that name, in the order of first use.
pub open spec fn parent_builtins(objs: Seq<ObjectView>, b: Seq<BuiltinType>, k: int) -> Seq<int>
    decreases k,
{
    if k <= 0 {
        Seq::empty()
    } else {
        let u = parent_builtins(objs, b, k - 1);
        match objs[k - 1].parent {
            Some(p) => if find_parent(objs, p) is None {
                match find_builtin(b, p) {
                    Some(t) => if u.contains(t) {
                        u
                    } else {
                        u.push(t)
                    },
                    None => u,
                }
            } else {
                u
            },
            None => u,
        }
    }
}

/// The model with the built-in models at positions `ks` merged in, in
/// order, each without its first object (the type itself).
pub open spec fn merge_builtins(
    objs: Seq<ObjectView>,
    enums: Seq<EnumView>,
    b: Seq<BuiltinType>,
    ks: Seq<int>,
) -> (Seq<ObjectView>, Seq<EnumView>)
    decreases ks.len(),
{
    if ks.len() == 0 {
        (objs, enums)
    } else {
        let (o, e) = merge_builtins(objs, enums, b, ks.drop_last());
        (
            datamodel::merge_objects(o, builtin_objects(b[ks.last()]).drop_first()),
            datamodel::merge_enums(e, builtin_enums(b[ks.last()])),
        )
    }
}

/// The model after parents pass on their attributes (see [`inherit_all`])
/// and the built-in types used as parents are merged in; `None` when a
/// parent is missing.
pub open spec fn with_parent_types(objs: Seq<ObjectView>, enums: Seq<EnumView>, b: Seq<BuiltinType>) -> Option<
    (Seq<ObjectView>, Seq<EnumView>),
> {
    match inherit_all(objs, b) {
        None => None,
        Some(v) => Some(merge_builtins(v, enums, b, parent_builtins(objs, b, objs.len() as int))),
    }
}

/// A copy of an object.
pub(crate) fn copy_object(o: &Object) -> (r: Object)
    ensures
        r@ == o@,
{
    let mut attributes: Vec<Attribute> = Vec::new();
    let mut i: usize = 0;
    while i < o.attributes.len()
        invariant
            i <= o.attributes@.len(),
            object::attrs_view(attributes@) == object::attrs_view(o.attributes@).take(i as int),
        decreases o.attributes.len() - i,
    {
        let ghost before = attributes@;
        let a = attribute::copy_attribute(&o.attributes[i]);
        attributes.push(a);
        assert(object::attrs_view(attributes@) =~= object::attrs_view(before).push(a@));
        assert(object::attrs_view(o.attributes@).take(i + 1) =~= object::attrs_view(
            o.attributes@,
        ).take(i as int).push(o.attributes@[i as int]@));
        i = i + 1;
    }
    assert(object::attrs_view(o.attributes@).take(i as int) =~= object::attrs_view(o.attributes@));
    let r = Object {
        name: o.name.clone(),
        attributes,
        docstring: o.docstring.clone(),
        term: match &o.term {
            Some(t) => Some(t.clone()),
            None => None,
        },
        mixins: attribute::copy_strings(&o.mixins),
        parent: match &o.parent {
            Some(p) => Some(p.clone()),
            None => None,
        },
        position: o.position,
    };
    r
}

/// The index of the first object named `p`.
fn find_parent_index(objects: &Vec<Object>, p: &String) -> (r: Option<usize>)
    ensures
        match r {
            Some(k) => k < objects@.len() && find_parent(object::objects_view(objects@), p@)
                == Some(objects@[k as int]@),
            None => find_parent(object::objects_view(objects@), p@) is None,
        },
{
    let ghost ov = object::objects_view(objects@);
    let mut i: usize = 0;
    assert(ov.skip(0) =~= ov);
    while i < objects.len()
        invariant
            i <= objects@.len(),
            ov == object::objects_view(objects@),
            find_parent(ov, p@) == find_parent(ov.skip(i as int), p@),
        decreases objects.len() - i,
    {
        assert(ov.skip(i as int)[0] == objects@[i as int]@);
        assert(ov.skip(i as int).drop_first() =~= ov.skip(i + 1));
        if objects[i].name == *p {
            return Some(i);
        }
        i = i + 1;
    }
    assert(ov.skip(i as int) =~= Seq::<ObjectView>::empty());
    None
}

/// Appends the attributes of `from` to those of `o`.
fn append_attributes(o: &mut Object, from: &Object)
    ensures
        final(o)@ == (ObjectView { attributes: old(o)@.attributes + from@.attributes, ..old(o)@ }),
{
    let ghost oa = old(o)@.attributes;
    let mut j: usize = 0;
    while j < from.attributes.len()
        invariant
            j <= from@.attributes.len(),
            o@ == (ObjectView { attributes: oa + from@.attributes.take(j as int), ..old(o)@ }),
        decreases from.attributes.len() - j,
    {
        let a = attribute::copy_attribute(&from.attributes[j]);
        let ghost before = o.attributes@;
        o.attributes.push(a);
        assert(object::attrs_view(o.attributes@) =~= object::attrs_view(before).push(a@));
        assert(from@.attributes.take(j + 1) =~= from@.attributes.take(j as int).push(
            from.attributes@[j as int]@,
        ));
        j = j + 1;
    }
    assert(from@.attributes.take(j as int) =~= from@.attributes);
}

/// The position of the first built-in type named `p`.
fn find_builtin_index(b: &Vec<BuiltinType>, p: &String) -> (r: Option<usize>)
    ensures
        match r {
            Some(k) => k < b@.len() && find_builtin(b@, p@) == Some(k as int),
            None => find_builtin(b@, p@) is None,
        },
{
    let mut i: usize = 0;
    assert(b@.skip(0) =~= b@);
    while i < b.len()
        invariant
            i <= b@.len(),
            forall|k: int| 0 <= k < i ==> b@[k].name@ != p@,
        decreases b.len() - i,
    {
        if b[i].name == *p {
            proof {
                lemma_find_builtin_first(b@, p@, i as int);
            }
            return Some(i);
        }
        i = i + 1;
    }
    proof {
        lemma_find_builtin_none(b@, p@);
    }
    None
}

/// The first built-in type named `p` stands at the first position with
/// that name.
proof fn lemma_find_builtin_first(b: Seq<BuiltinType>, p: Seq<char>, i: int)
    requires
        0 <= i < b.len(),
        b[i].name@ == p,
        forall|k: int| 0 <= k < i ==> b[k].name@ != p,
    ensures
        find_builtin(b, p) == Some(i),
    decreases i,
{
    if i > 0 {
        let r = b.drop_first();
        assert forall|k: int| 0 <= k < i - 1 implies r[k].name@ != p by {
            assert(r[k] == b[k + 1]);
        }
        lemma_find_builtin_first(r, p, i - 1);
    }
}

/// Where no built-in type is named `p`, none is found.
proof fn lemma_find_builtin_none(b: Seq<BuiltinType>, p: Seq<char>)
    requires
        forall|k: int| 0 <= k < b.len() ==> b[k].name@ != p,
    ensures
        find_builtin(b, p) is None,
    decreases b.len(),
{
    if b.len() > 0 {
        let r = b.drop_first();
        assert forall|k: int| 0 <= k < r.len() implies r[k].name@ != p by {
            assert(r[k] == b[k + 1]);
        }
        lemma_find_builtin_none(r, p);
    }
}

/// Whether the position is among the positions.
fn contains_position(u: &Vec<usize>, t: usize) -> (r: bool)
    ensures
        r == u@.map_values(|x: usize| x as int).contains(t as int),
{
    let ghost uv = u@.map_values(|x: usize| x as int);
    let mut i: usize = 0;
    while i < u.len()
        invariant
            i <= u@.len(),
            uv == u@.map_values(|x: usize| x as int),
            forall|k: int| 0 <= k < i ==> uv[k] != t as int,
        decreases u.len() - i,
    {
        assert(uv[i as int] == u@[i as int] as int);
        if u[i] == t {
            return true;
        }
        i = i + 1;
    }
    false
}

/// Appends to each object with a parent the attributes of that parent (see
/// [`inherit_all`]), and gives the positions of the built-in types used as
/// parents (see [`parent_builtins`]); `None` when a parent is missing.
fn add_parent_types(objects: &Vec<Object>, builtins: &Vec<BuiltinType>) -> (r: Option<(Vec<Object>, Vec<usize>)>)
    requires
        builtins_defined(builtins@),
    ensures
        match inherit_all(object::objects_view(objects@), builtins@) {
            Some(v) => r matches Some(p) && object::objects_view(p.0@) == v && p.1@.map_values(
                |x: usize| x as int,
            ) == parent_builtins(object::objects_view(objects@), builtins@, objects@.len() as int)
                && forall|k: int| 0 <= k < p.1@.len() ==> (#[trigger] p.1@[k]) < builtins@.len(),
            None => r is None,
        },
{
    let ghost ov = object::objects_view(objects@);
    let ghost b = builtins@;
    let mut out: Vec<Object> = Vec::new();
    let mut used: Vec<usize> = Vec::new();
    let mut i: usize = 0;
    while i < objects.len()
        invariant
            i <= objects@.len(),
            ov == object::objects_view(objects@),
            b == builtins@,
            builtins_defined(b),
            out@.len() == i,
            forall|k: int|
                0 <= k < i ==> #[trigger] inherit(ov[k], ov, b) == Some(out@[k]@),
            used@.map_values(|x: usize| x as int) == parent_builtins(ov, b, i as int),
            forall|k: int| 0 <= k < used@.len() ==> (#[trigger] used@[k]) < b.len(),
        decreases objects.len() - i,
    {
        let mut o = copy_object(&objects[i]);
        assert(ov[i as int] == objects@[i as int]@);
        let ghost uv = used@.map_values(|x: usize| x as int);
        match &objects[i].parent {
            Some(p) => {
                match find_parent_index(objects, p) {
                    Some(k) => {
                        append_attributes(&mut o, &objects[k]);
                    },
                    None => {
                        match find_builtin_index(builtins, p) {
                            Some(t) => {
                                assert(b[t as int].model.objects@.len() > 0);
                                append_attributes(&mut o, &builtins[t].model.objects[0]);
                                assert(builtin_objects(b[t as int])[0] == builtins@[t as int].model.objects@[0]@);
                                if !contains_position(&used, t) {
                                    used.push(t);
                                    assert(used@.map_values(|x: usize| x as int) =~= uv.push(t as int));
                                }
                            },
                            None => {
                                assert(inherit(ov[i as int], ov, b) is None);
                                return None;
                            },
                        }
                    },
                }
            },
            None => {},
        }
        out.push(o);
        i = i + 1;
    }
    assert(object::objects_view(out@) =~= Seq::new(
        ov.len(),
        |k: int| inherit(ov[k], ov, b)->Some_0,
    ));
    Some((out, used))
}

/// Merges in the built-in models at the positions, in order, each without
/// its first object (see [`merge_builtins`]).
fn merge_builtin_models(
    objects: &mut Vec<Object>,
    enums: &mut Vec<Enumeration>,
    builtins: &Vec<BuiltinType>,
    used: &Vec<usize>,
)
    requires
        builtins_defined(builtins@),
        forall|k: int| 0 <= k < used@.len() ==> (#[trigger] used@[k]) < builtins@.len(),
    ensures
        (object::objects_view(final(objects)@), enums_view(final(enums)@)) == merge_builtins(
            object::objects_view(old(objects)@),
            enums_view(old(enums)@),
            builtins@,
            used@.map_values(|x: usize| x as int),
        ),
{
    let ghost o0 = object::objects_view(objects@);
    let ghost e0 = enums_view(enums@);
    let ghost uv = used@.map_values(|x: usize| x as int);
    let mut i: usize = 0;
    assert(uv.take(0) =~= Seq::<int>::empty());
    while i < used.len()
        invariant
            i <= used@.len(),
            builtins_defined(builtins@),
            forall|k: int| 0 <= k < used@.len() ==> (#[trigger] used@[k]) < builtins@.len(),
            uv == used@.map_values(|x: usize| x as int),
            (object::objects_view(objects@), enums_view(enums@)) == merge_builtins(o0, e0, builtins@, uv.take(i as int)),
        decreases used.len() - i,
    {
        let t = used[i];
        assert(uv.take(i + 1).drop_last() =~= uv.take(i as int));
        assert(uv.take(i + 1).last() == t as int);
        assert(builtins@[t as int].model.objects@.len() > 0);
        merge_objects_from_builtin(objects, &builtins[t].model.objects);
        datamodel::merge_enums_from(enums, &builtins[t].model.enums);
        i = i + 1;
    }
    assert(uv.take(i as int) =~= uv);
}

/// Merges in a built-in model's objects after the first.
fn merge_objects_from_builtin(objects: &mut Vec<Object>, more: &Vec<Object>)
    requires
        more@.len() > 0,
    ensures
        object::objects_view(final(objects)@) == datamodel::merge_objects(
            object::objects_view(old(objects)@),
            object::objects_view(more@).drop_first(),
        ),
{
    assert(object::objects_view(more@).skip(1) =~= object::objects_view(more@).drop_first());
    datamodel::merge_objects_from(objects, more, 1);
}

/// Whether an attribute of the objects has `name` among its data types.
fn uses_type_exec(objects: &Vec<Object>, name: &String) -> (r: bool)
    ensures
        r == uses_type(object::objects_view(objects@), name@),
{
    let ghost ov = object::objects_view(objects@);
    let mut i: usize = 0;
    while i < objects.len()
        invariant
            i <= objects@.len(),
            ov == object::objects_view(objects@),
            forall|i2: int, j2: int|
                0 <= i2 < i && 0 <= j2 < ov[i2].attributes.len() ==> !(#[trigger] ov[i2].attributes[j2].dtypes.contains(name@)),
        decreases objects.len() - i,
    {
        assert(ov[i as int] == objects@[i as int]@);
        let mut j: usize = 0;
        while j < objects[i].attributes.len()
            invariant
                i < objects@.len(),
                j <= objects@[i as int].attributes@.len(),
                ov == object::objects_view(objects@),
                ov[i as int] == objects@[i as int]@,
                forall|i2: int, j2: int|
                    0 <= i2 < i && 0 <= j2 < ov[i2].attributes.len() ==> !(#[trigger] ov[i2].attributes[j2].dtypes.contains(name@)),
                forall|j2: int| 0 <= j2 < j ==> !(#[trigger] ov[i as int].attributes[j2].dtypes.contains(name@)),
            decreases objects@[i as int].attributes@.len() - j,
        {
            let dts = &objects[i].attributes[j].dtypes;
            let ghost dv = ov[i as int].attributes[j as int].dtypes;
            assert(j < ov[i as int].attributes.len());
            assert(dv == text::strings_view(dts@));
            let mut d: usize = 0;
            while d < dts.len()
                invariant
                    d <= dts@.len(),
                    dv == text::strings_view(dts@),
                    i < objects@.len(),
                    ov == object::objects_view(objects@),
                    j < ov[i as int].attributes.len(),
                    dv == ov[i as int].attributes[j as int].dtypes,
                    forall|d2: int| 0 <= d2 < d ==> dv[d2] != name@,
                decreases dts.len() - d,
            {
                assert(dv[d as int] == dts@[d as int]@);
                if dts[d] == *name {
                    assert(dv[d as int] == name@);
                    assert(ov[i as int].attributes[j as int].dtypes.contains(name@));
                    assert(uses_type(ov, name@));
                    return true;
                }
                d = d + 1;
            }
            assert(!dv.contains(name@));
            j = j + 1;
        }
        i = i + 1;
    }
    false
}

/// Merges in the built-in types that an attribute uses and no object is
/// named by (see [`internal_types_upto`]).
fn add_internal_types(objects: &mut Vec<Object>, enums: &mut Vec<Enumeration>, builtins: &Vec<BuiltinType>)
    ensures
        (object::objects_view(final(objects)@), enums_view(final(enums)@)) == internal_types_upto(
            object::objects_view(old(objects)@),
            enums_view(old(enums)@),
            builtins@,
            builtins@.len() as int,
        ),
{
    let ghost o0 = object::objects_view(objects@);
    let ghost e0 = enums_view(enums@);
    let mut wanted: Vec<bool> = Vec::new();
    let mut k: usize = 0;
    while k < builtins.len()
        invariant
            k <= builtins@.len(),
            o0 == object::objects_view(objects@),
            wanted@.len() == k,
            forall|q: int| 0 <= q < k ==> #[trigger] wanted@[q] == (!tree::names_of(o0).contains(builtins@[q].name@)
                && uses_type(o0, builtins@[q].name@)),
        decreases builtins.len() - k,
    {
        let w = !datamodel::has_object_named(objects, &builtins[k].name) && uses_type_exec(objects, &builtins[k].name);
        wanted.push(w);
        k = k + 1;
    }
    let mut i: usize = 0;
    while i < builtins.len()
        invariant
            i <= builtins@.len(),
            wanted@.len() == builtins@.len(),
            forall|q: int| 0 <= q < builtins@.len() ==> #[trigger] wanted@[q] == (!tree::names_of(o0).contains(builtins@[q].name@)
                && uses_type(o0, builtins@[q].name@)),
            (object::objects_view(objects@), enums_view(enums@)) == internal_types_upto(o0, e0, builtins@, i as int),
        decreases builtins.len() - i,
    {
        if wanted[i] {
            let ghost ob = object::objects_view(objects@);
            assert(object::objects_view(builtins@[i as int].model.objects@).skip(0) =~= builtin_objects(builtins@[i as int]));
            datamodel::merge_objects_from(objects, &builtins[i].model.objects, 0);
            datamodel::merge_enums_from(enums, &builtins[i].model.enums);
        }
        i = i + 1;
    }
}

// ---------------------------------------------------------------------------
// Cleaning the content
// ---------------------------------------------------------------------------

/// The text without its HTML tags: what replacing every match of
/// `<[^>]*>` by nothing gives, a `<` up to the next `>` at a time.
pub open spec fn strip_tags(s: Seq<char>) -> Seq<char>
    decreases s.len(),
{
    if s.len() == 0 {
        s
    } else if s[0] == '<' && text::has_char(s, '>') {
        proof {
            text::lemma_after_first_shorter(s, '>');
        }
        strip_tags(text::after_first(s, '>'))
    } else {
        seq![s[0]] + strip_tags(s.drop_first())
    }
}

/// A markdown link at the start of `s`, `[label](target)` with a non-empty
/// label and target: its label and what follows it.
pub open spec fn link_at(s: Seq<char>) -> Option<(Seq<char>, Seq<char>)> {
    if s.len() > 0 && s[0] == '[' && text::has_char(s.drop_first(), ']') {
        let label = text::before_first(s.drop_first(), ']');
        let u = text::after_first(s.drop_first(), ']');
        if label.len() > 0 && u.len() > 0 && u[0] == '(' && u.len() > 1 && u[1] != ')'
            && text::has_char(u.drop_first(), ')') {
            Some((label, text::after_first(u.drop_first(), ')')))
        } else {
            None
        }
    } else {
        None
    }
}

/// What follows a link is shorter than the text.
pub proof fn lemma_link_shorter(s: Seq<char>)
    requires
        link_at(s) is Some,
    ensures
        link_at(s)->Some_0.1.len() < s.len(),
{
    let t = s.drop_first();
    text::lemma_after_first_shorter(t, ']');
    let u = text::after_first(t, ']');
    text::lemma_after_first_shorter(u.drop_first(), ')');
}

/// The text with every markdown link replaced by its label: what replacing
/// every match of `\[([^]]+)]\([^)]+\)` by its first group gives.
pub open spec fn unlink(s: Seq<char>) -> Seq<char>
    decreases s.len(),
{
    if s.len() == 0 {
        s
    } else {
        match link_at(s) {
            Some((label, rest)) => {
                proof {
                    lemma_link_shorter(s);
                }
                label + unlink(rest)
            },
            None => seq![s[0]] + unlink(s.drop_first()),
        }
    }
}

/// Removes the HTML tags with the `regex` crate, replacing every match of
/// `<[^>]*>` by nothing; the contract states what that replacement gives.
#[verifier::external_body]
fn remove_html_tags(content: &str) -> (r: String)
    ensures
        r@ == strip_tags(content@),
{
    let re = regex::Regex::new(r"<[^>]*>").unwrap();
    re.replace_all(content, "").to_string()
}

/// Replaces the markdown links by their labels with the `regex` crate,
/// replacing every match of `\[([^]]+)]\([^)]+\)` by `$1`; the contract
/// states what that replacement gives.
#[verifier::external_body]
fn remove_links(content: &str) -> (r: String)
    ensures
        r@ == unlink(content@),
{
    let re = regex::Regex::new(r"\[([^]]+)]\([^)]+\)").unwrap();
    re.replace_all(content, "$1").to_string()
}

/// The content with its HTML tags removed and its links replaced by their
/// labels.
pub fn clean_content(content: &str) -> (r: String)
    ensures
        r@ == unlink(strip_tags(content@)),
{
    let content = remove_html_tags(content);
    remove_links(content.as_str())
}

// ---------------------------------------------------------------------------
// Reading a model
// ---------------------------------------------------------------------------

/// Why a model could not be read.
#[derive(Debug, Clone)]
pub enum MarkdownError {
    /// The markdown does not have the shape of a model: a heading without a
    /// name, an attribute without a name, an option or text before any
    /// attribute, or an opening bracket without a parent name.
    Unreadable,
    /// An object names a parent that neither an object nor a built-in type
    /// has.
    MissingParent,
    /// The model was read but is not valid; the validator holds its errors.
    Invalid(Validator),
}

/// What reading a text gives.
pub enum ReadOutcome {
    Unreadable,
    MissingParent,
    Read { name: Option<Seq<char>>, objects: Seq<ObjectView>, enums: Seq<EnumView> },
}

/// Reading a (cleaned) text: the object pass over its events with heading
/// attributes, the enumeration pass over its plain events, then the model is
/// completed: enumerations without values are dropped, objects are kept as
/// [`kept_objects`] says, attributes typed by enumerations are marked, the
/// built-in types that attributes use are merged in, parents (objects or
/// built-in types) pass on their attributes, and the imported models are
/// merged in.
pub open spec fn spec_read(
    content: Seq<char>,
    allow_empty: bool,
    builtins: Seq<BuiltinType>,
    imports: Seq<DataModel>,
) -> ReadOutcome {
    let b = encode_utf8(content);
    let offs = newline_offsets(b);
    match obj_run(b, offs, events::classify_all(events::markdown_events(content, true)), 0, initial_pass()) {
        None => ReadOutcome::Unreadable,
        Some(st) => match enum_run(b, offs, events::classify_all(events::markdown_events(content, false)), 0, Seq::empty()) {
            None => ReadOutcome::Unreadable,
            Some(es) => {
                let ke = kept_enums(es);
                let marked = mark_enums(kept_objects(st.objects, ke, allow_empty), enum_names(ke));
                let (objs, enums) = internal_types_upto(marked, ke, builtins, builtins.len() as int);
                match with_parent_types(objs, enums, builtins) {
                    None => ReadOutcome::MissingParent,
                    Some(m) => {
                        let (o, e) = datamodel::merge_models(m.0, m.1, imports);
                        ReadOutcome::Read { name: st.name, objects: o, enums: e }
                    },
                }
            },
        },
    }
}

/// The model holds the name, objects and enumerations read, and the front
/// matter given.
pub open spec fn model_matches(m: DataModel, outcome: ReadOutcome, config: FrontMatter) -> bool {
    match outcome {
        ReadOutcome::Read { name, objects, enums } => {
            &&& text::opt_string_view(m.name) == name
            &&& object::objects_view(m.objects@) == objects
            &&& enums_view(m.enums@) == enums
            &&& m.config == Some(config)
        },
        _ => false,
    }
}

/// Reads a model from cleaned markdown content with its front matter, the
/// built-in types of the format and the models it imports (see
/// [`spec_read`]), and validates it: the model when it is valid, otherwise
/// the validator with its errors.
pub fn read_model(
    content: &str,
    config: FrontMatter,
    builtins: &Vec<BuiltinType>,
    imports: &Vec<DataModel>,
) -> (r: Result<DataModel, MarkdownError>)
    requires
        content.spec_bytes().len() <= isize::MAX,
        builtins_defined(builtins@),
    ensures
        match r {
            Ok(m) => model_matches(m, spec_read(content@, config.allow_empty, builtins@, imports@), config)
                && validation::model_errors(m).len() == 0,
            Err(MarkdownError::Unreadable) => spec_read(content@, config.allow_empty, builtins@, imports@) is Unreadable,
            Err(MarkdownError::MissingParent) => spec_read(
                content@,
                config.allow_empty,
                builtins@,
                imports@,
            ) is MissingParent,
            Err(MarkdownError::Invalid(v)) => exists|m: DataModel|
                model_matches(m, spec_read(content@, config.allow_empty, builtins@, imports@), config)
                    && validation::errors_view(v.errors@) == validation::model_errors(m)
                    && validation::model_errors(m).len() > 0 && !v.is_valid,
        },
{
    let offsets = create_line_offsets(content);
    let object_events = events::parse_events(content, true);
    let (name, objects) = match parse_objects(content, &offsets, &object_events) {
        Some(p) => p,
        None => return Err(MarkdownError::Unreadable),
    };
    let enum_events = events::parse_events(content, false);
    let enums = match parse_enums(content, &offsets, &enum_events) {
        Some(e) => e,
        None => return Err(MarkdownError::Unreadable),
    };
    let mut enums = keep_enums(enums);
    let names = names_of_enums(&enums);
    let mut objects = keep_objects(objects, &names, config.allow_empty);
    set_enum_attributes(&mut objects, &names);
    add_internal_types(&mut objects, &mut enums, builtins);
    let (mut objects, used) = match add_parent_types(&objects, builtins) {
        Some(o) => o,
        None => return Err(MarkdownError::MissingParent),
    };
    merge_builtin_models(&mut objects, &mut enums, builtins, &used);
    datamodel::merge_all(&mut objects, &mut enums, imports);
    let mut model = DataModel::new(name, Some(config));
    model.objects = objects;
    model.enums = enums;
    let mut validator = Validator::new();
    validator.validate(&model);
    if !validator.is_valid {
        return Err(MarkdownError::Invalid(validator));
    }
    Ok(model)
}

/// The outcome of reading `content` once it is cleaned (see
/// [`clean_content`]).
pub open spec fn spec_parse(content: Seq<char>, allow_empty: bool, b: Seq<BuiltinType>, imports: Seq<DataModel>) -> ReadOutcome {
    spec_read(unlink(strip_tags(content)), allow_empty, b, imports)
}

/// Parses a markdown model: the content is cleaned of HTML tags and links,
/// read with the given front matter, built-in types and imported models, and
/// validated (see [`read_model`]).
pub fn parse_markdown(
    content: &str,
    config: FrontMatter,
    builtins: &Vec<BuiltinType>,
    imports: &Vec<DataModel>,
) -> (r: Result<DataModel, MarkdownError>)
    requires
        builtins_defined(builtins@),
    ensures
        encode_utf8(unlink(strip_tags(content@))).len() <= isize::MAX ==> match r {
            Ok(m) => model_matches(m, spec_parse(content@, config.allow_empty, builtins@, imports@), config)
                && validation::model_errors(m).len() == 0,
            Err(MarkdownError::Unreadable) => spec_parse(content@, config.allow_empty, builtins@, imports@) is Unreadable,
            Err(MarkdownError::MissingParent) => spec_parse(
                content@,
                config.allow_empty,
                builtins@,
                imports@,
            ) is MissingParent,
            Err(MarkdownError::Invalid(v)) => exists|m: DataModel|
                model_matches(m, spec_parse(content@, config.allow_empty, builtins@, imports@), config)
                    && validation::errors_view(v.errors@) == validation::model_errors(m)
                    && validation::model_errors(m).len() > 0 && !v.is_valid,
        },
        encode_utf8(unlink(strip_tags(content@))).len() > isize::MAX ==> r matches Err(
            MarkdownError::Unreadable,
        ),
{
    let cleaned = clean_content(content);
    let bytes = cleaned.as_str().as_bytes();
    let n = bytes.len();
    if n > (isize::MAX as usize) {
        return Err(MarkdownError::Unreadable);
    }
    read_model(cleaned.as_str(), config, builtins, imports)
}

} // verus!
