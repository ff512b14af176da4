//! From the text of a note to its sections, cards and diagnostics.
//!
//! Reading the file, and reading YAML and writing JSON, are left to the program
//! around the library. [`scan_note`] says what YAML there is to read, [`parse_note`]
//! puts the note together from what was read, and [`attach_cards`] completes the
//! cards with the JSON of their contents.

use vstd::prelude::*;
use vstd::string::*;
use vstd::utf8::*;

use crate::model::{
    actions_view, cards_view, clip_view, clone_text, diagnostics_view, relations_view, ActionView,
    CardDefinition, CardView, ClipRef, ClipView, Diagnostic, DiagnosticView, ParsedAction,
    ParsedNote, ParsedSection, QuizDefinition,
};
use crate::outside::{
    blake3_hex, dotted, events_view, hash_bytes, is_file_path, markdown_events,
    markdown_events_of, path_without_extension, portable_path, regex_matches, without_extension, EventView,
    MarkdownEvent,
};
use crate::parser::{
    action_pattern, actions_of, found_or_none, heading_of, heading_pattern, parse_actions,
    parse_relations, relation_pattern, relations_of, slugify, split_heading_id, youtube_id,
    youtube_id_of, HEADING_PATH_SEPARATOR,
};
use crate::quiz::{
    card_of, cards_from_quiz, drafts_view, holds, lemma_same_quiz, make_card, quiz_cards,
    quiz_clips, quiz_errors, quiz_variants, same_quiz, validate_quiz, CardDraft, DraftView,
};
use crate::text::{
    chars_eq, from_chars, join, opt_str_view, opt_view, replace, replaced, slices, slug_of,
    split_words, text_eq, texts, to_chars, trimmed, words,
};

verus! {

// ---------------------------------------------------------------------------
// Bytes
// ---------------------------------------------------------------------------

/// The number of line feeds among the bytes.
pub open spec fn newlines(bytes: Seq<u8>) -> nat
    decreases bytes.len(),
{
    if bytes.len() == 0 {
        0
    } else {
        newlines(bytes.drop_last()) + (if bytes.last() == 10 {
            1nat
        } else {
            0nat
        })
    }
}

/// The line that a byte stands on, counted from one.
pub open spec fn line_of(bytes: Seq<u8>, byte: int) -> int {
    1int + newlines(bytes.take(if byte <= bytes.len() {
        byte
    } else {
        bytes.len() as int
    }))
}

fn count_newlines(bytes: &[u8], to: usize) -> (r: usize)
    requires
        to <= bytes.len(),
    ensures
        r == newlines(bytes@.take(to as int)),
        r <= to,
{
    let mut n: usize = 0;
    let mut i: usize = 0;
    assert(bytes@.take(0) == Seq::<u8>::empty());
    while i < to
        invariant
            0 <= i <= to <= bytes.len(),
            n <= i,
            n == newlines(bytes@.take(i as int)),
        decreases to - i,
    {
        assert(bytes@.take(i + 1).drop_last() == bytes@.take(i as int));
        assert(bytes@.take(i + 1).last() == bytes@[i as int]);
        if bytes[i] == 10 {
            n += 1;
        }
        i += 1;
    }
    n
}

/// The line that a byte of a text stands on.
pub fn line_at(source: &str, byte: usize) -> (r: usize)
    requires
        source.spec_bytes().len() < usize::MAX,
    ensures
        r == line_of(source.spec_bytes(), byte as int),
{
    let bytes = source.as_bytes();
    let to: usize = if byte <= bytes.len() {
        byte
    } else {
        bytes.len()
    };
    1 + count_newlines(bytes, to)
}

/// A boundary behind a byte that is a whole character.
proof fn lemma_next_boundary(bytes: Seq<u8>, i: int)
    requires
        valid_utf8(bytes),
        0 <= i < bytes.len(),
        is_char_boundary(bytes, i),
        bytes[i] < 0x80,
    ensures
        is_char_boundary(bytes, i + 1),
    decreases bytes.len(),
{
    is_char_boundary_iff_not_is_continuation_byte(bytes, i);
    if i + 1 == bytes.len() {
        is_char_boundary_start_end_of_seq(bytes);
    } else {
        reveal_with_fuel(is_char_boundary, 3);
        if i == 0 {
            assert(is_leading_byte_width_1(bytes[0])) by {
                let b = bytes[0];
                assert(b < 0x80 ==> is_leading_byte_width_1(b)) by (bit_vector);
            }
            assert(length_of_first_scalar(bytes) == 1);
        } else {
            let n = length_of_first_scalar(bytes);
            let rest = pop_first_scalar(bytes);
            assert(is_char_boundary(rest, i - n));
            assert(rest[i - n] == bytes[i]);
            lemma_next_boundary(rest, i - n);
        }
    }
}

/// A boundary of a text is one of a longer prefix.
proof fn lemma_prefix_boundary(source: &str, front: &str, at: int)
    requires
        front.spec_bytes().len() <= source.spec_bytes().len(),
        front.spec_bytes() == source.spec_bytes().take(front.spec_bytes().len() as int),
        0 <= at <= front.spec_bytes().len(),
        is_char_boundary(source.spec_bytes(), at),
    ensures
        is_char_boundary(front.spec_bytes(), at),
{
    let bytes = source.spec_bytes();
    let part = front.spec_bytes();
    encode_utf8_valid_utf8(source@);
    encode_utf8_valid_utf8(front@);
    if at == part.len() {
        is_char_boundary_start_end_of_seq(part);
    } else {
        is_char_boundary_iff_not_is_continuation_byte(bytes, at);
        is_char_boundary_iff_not_is_continuation_byte(part, at);
        assert(part[at] == bytes[at]);
    }
}

/// The bytes of a text from one boundary to another.
pub fn byte_range(source: &str, from: usize, to: usize) -> (r: String)
    requires
        from <= to <= source.spec_bytes().len(),
        is_char_boundary(source.spec_bytes(), from as int),
        is_char_boundary(source.spec_bytes(), to as int),
    ensures
        encode_utf8(r@) == source.spec_bytes().subrange(from as int, to as int),
{
    let (front, _) = source.split_at(to);
    assert(front.spec_bytes() == source.spec_bytes().take(front.spec_bytes().len() as int));
    proof {
        lemma_prefix_boundary(source, front, from as int);
    }
    let (_, part) = front.split_at(from);
    assert(part.spec_bytes() == source.spec_bytes().subrange(from as int, to as int));
    part.to_owned()
}

// ---------------------------------------------------------------------------
// Front matter
// ---------------------------------------------------------------------------

/// The YAML at the head of a note, as far as it is read.
#[derive(Debug)]
pub struct FrontMatter {
    pub id: Option<String>,
    pub title: Option<String>,
    pub tags: Vec<String>,
    pub topic: Option<String>,
    pub pinned: bool,
    pub status: Option<String>,
}

/// Whether `---` on a line of its own closes the front matter at `e`.
pub open spec fn closes_at(bytes: Seq<u8>, e: int) -> bool {
    4 <= e && e + 5 <= bytes.len() && bytes[e] == 10 && bytes[e + 1] == 45 && bytes[e + 2] == 45
        && bytes[e + 3] == 45 && bytes[e + 4] == 10
}

/// Whether the note opens with `---` on a line of its own.
pub open spec fn opens(bytes: Seq<u8>) -> bool {
    bytes.len() >= 4 && bytes[0] == 45 && bytes[1] == 45 && bytes[2] == 45 && bytes[3] == 10
}

/// Where the front matter of a note ends: at the first line that closes it.
pub open spec fn front_end(bytes: Seq<u8>, e: int) -> bool {
    opens(bytes) && closes_at(bytes, e) && forall|k: int| 4 <= k < e ==> !closes_at(bytes, k)
}

/// Splits a note into the YAML at its head, if there is any, and the offset at
/// which its Markdown starts.
pub fn split_front_matter(source: &str) -> (r: (Option<String>, usize))
    ensures
        match r.0 {
            Some(yaml) => r.1 >= 9 && front_end(source.spec_bytes(), r.1 - 5) && encode_utf8(yaml@)
                == source.spec_bytes().subrange(4, r.1 - 5),
            None => r.1 == 0 && forall|e: int| !front_end(source.spec_bytes(), e),
        },
        r.1 <= source.spec_bytes().len(),
        is_char_boundary(source.spec_bytes(), r.1 as int),
{
    let bytes = source.as_bytes();
    let ghost all = source.spec_bytes();
    proof {
        encode_utf8_valid_utf8(source@);
        is_char_boundary_start_end_of_seq(all);
    }
    if bytes.len() < 9 || bytes[0] != 45 || bytes[1] != 45 || bytes[2] != 45 || bytes[3] != 10 {
        return (None, 0);
    }
    let mut e: usize = 4;
    while e <= bytes.len() - 5
        invariant
            4 <= e <= bytes.len() - 4,
            bytes.len() >= 9,
            all == bytes@,
            all == source.spec_bytes(),
            valid_utf8(all),
            opens(all),
            is_char_boundary(all, 0),
            forall|k: int| 4 <= k < e ==> !closes_at(all, k),
        decreases bytes.len() - e,
    {
        if bytes[e] == 10 && bytes[e + 1] == 45 && bytes[e + 2] == 45 && bytes[e + 3] == 45
            && bytes[e + 4] == 10 {
            proof {
                is_char_boundary_iff_not_is_continuation_byte(all, e as int);
                is_char_boundary_iff_not_is_continuation_byte(all, e + 4);
                is_char_boundary_iff_not_is_continuation_byte(all, 3);
                lemma_next_boundary(all, 3);
                lemma_next_boundary(all, e + 4);
            }
            let yaml = byte_range(source, 4, e);
            return (Some(yaml), e + 5);
        }
        e += 1;
    }
    (None, 0)
}

// ---------------------------------------------------------------------------
// Headings
// ---------------------------------------------------------------------------

/// A heading while its text is collected.
#[verifier::ext_equal]
pub struct RawHeading {
    pub level: u32,
    pub start: int,
    pub text: Seq<char>,
    pub id: Option<Seq<char>>,
}

/// The headings that are complete, and the one that is open.
#[verifier::ext_equal]
pub struct HeadingScan {
    pub open: Option<RawHeading>,
    pub done: Seq<RawHeading>,
}

/// What the events say of headings: each holds the text and the code between its
/// start and its end. Offsets are counted from `offset`.
pub open spec fn scan_headings(events: Seq<EventView>, offset: int) -> HeadingScan
    decreases events.len(),
{
    if events.len() == 0 {
        HeadingScan { open: None, done: Seq::empty() }
    } else {
        let s = scan_headings(events.drop_last(), offset);
        match events.last() {
            EventView::HeadingStart { level, id, start } => HeadingScan {
                open: Some(RawHeading { level, start: offset + start, text: Seq::empty(), id }),
                done: s.done,
            },
            EventView::Text(text) => more_text(s, text),
            EventView::Code(text) => more_text(s, text),
            EventView::HeadingEnd => match s.open {
                Some(h) => HeadingScan { open: None, done: s.done.push(h) },
                None => s,
            },
            _ => s,
        }
    }
}

pub open spec fn more_text(s: HeadingScan, text: Seq<char>) -> HeadingScan {
    match s.open {
        Some(h) => HeadingScan {
            open: Some(RawHeading { level: h.level, start: h.start, text: h.text + text, id: h.id }),
            done: s.done,
        },
        None => s,
    }
}

/// A heading of a note.
#[derive(Debug)]
pub struct HeadingDraft {
    pub heading: String,
    pub id: Option<String>,
    pub level: u32,
    pub start: usize,
    pub line: usize,
}

/// What a [`HeadingDraft`] says.
#[verifier::ext_equal]
pub struct HeadingView {
    pub heading: Seq<char>,
    pub id: Option<Seq<char>>,
    pub level: u32,
    pub start: int,
    pub line: int,
}

impl View for HeadingDraft {
    type V = HeadingView;

    open spec fn view(&self) -> HeadingView {
        HeadingView {
            heading: self.heading@,
            id: opt_view(self.id),
            level: self.level,
            start: self.start as int,
            line: self.line as int,
        }
    }
}

pub open spec fn headings_view(v: Seq<HeadingDraft>) -> Seq<HeadingView> {
    Seq::new(v.len(), |i: int| v[i]@)
}

/// The heading that a collected text stands for. An id given as an attribute wins
/// over one at the end of the text.
pub open spec fn heading_view(raw: RawHeading, bytes: Seq<u8>) -> HeadingView {
    let (heading, inline) = heading_of(
        raw.text,
        found_or_none(regex_matches(heading_pattern(), raw.text)),
    );
    HeadingView {
        heading,
        id: if raw.id is Some {
            raw.id
        } else {
            inline
        },
        level: raw.level,
        start: raw.start,
        line: line_of(bytes, raw.start),
    }
}

/// The headings that events report of a note.
pub open spec fn headings_of(events: Seq<EventView>, bytes: Seq<u8>, offset: int) -> Seq<
    HeadingView,
> {
    let done = scan_headings(events, offset).done;
    Seq::new(done.len(), |i: int| heading_view(done[i], bytes))
}

/// Where an event starts.
pub open spec fn event_start(event: EventView) -> Option<int> {
    match event {
        EventView::HeadingStart { start, .. } => Some(start as int),
        EventView::FenceStart { start, .. } => Some(start as int),
        _ => None,
    }
}

/// Whether every event starts inside the text.
pub open spec fn events_inside(events: Seq<EventView>, length: int) -> bool {
    forall|i: int|
        0 <= i < events.len() && event_start(#[trigger] events[i]) is Some ==> event_start(
            events[i],
        )->0 <= length
}

fn all_inside(events: &Vec<MarkdownEvent>, length: usize) -> (r: bool)
    ensures
        r == events_inside(events_view(events@), length as int),
{
    let ghost views = events_view(events@);
    let mut i: usize = 0;
    while i < events.len()
        invariant
            0 <= i <= events.len(),
            views == events_view(events@),
            forall|j: int|
                0 <= j < i && event_start(#[trigger] views[j]) is Some ==> event_start(views[j])->0
                    <= length,
        decreases events.len() - i,
    {
        assert(views[i as int] == events@[i as int]@);
        match &events[i] {
            MarkdownEvent::HeadingStart { start, .. } => {
                if *start > length {
                    return false;
                }
            },
            MarkdownEvent::FenceStart { start, .. } => {
                if *start > length {
                    return false;
                }
            },
            _ => {},
        }
        i += 1;
    }
    true
}

/// A heading while its text is collected.
struct OpenHeading {
    level: u32,
    start: usize,
    text: String,
    id: Option<String>,
}

impl OpenHeading {
    spec fn raw(self) -> RawHeading {
        RawHeading {
            level: self.level,
            start: self.start as int,
            text: self.text@,
            id: opt_view(self.id),
        }
    }
}

spec fn open_raw(h: Option<OpenHeading>) -> Option<RawHeading> {
    match h {
        Some(open) => Some(open.raw()),
        None => None,
    }
}

/// The headings that events report of a note whose Markdown starts at `offset`.
pub fn collect_headings(events: &Vec<MarkdownEvent>, source: &str, offset: usize) -> (r: Vec<
    HeadingDraft,
>)
    requires
        source.spec_bytes().len() < usize::MAX,
        offset <= source.spec_bytes().len(),
        events_inside(events_view(events@), source.spec_bytes().len() - offset),
    ensures
        headings_view(r@) == headings_of(
            events_view(events@),
            source.spec_bytes(),
            offset as int,
        ),
{
    let ghost views = events_view(events@);
    let ghost bytes = source.spec_bytes();
    let mut r: Vec<HeadingDraft> = Vec::new();
    let mut open: Option<OpenHeading> = None;
    let mut i: usize = 0;
    assert(views.take(0) == Seq::<EventView>::empty());
    assert(headings_view(r@) == headings_of(views.take(0), bytes, offset as int));
    while i < events.len()
        invariant
            0 <= i <= events.len(),
            views == events_view(events@),
            bytes == source.spec_bytes(),
            bytes.len() < usize::MAX,
            offset <= bytes.len(),
            events_inside(views, bytes.len() - offset),
            open_raw(open) == scan_headings(views.take(i as int), offset as int).open,
            headings_view(r@) == headings_of(views.take(i as int), bytes, offset as int),
        decreases events.len() - i,
    {
        let ghost before = headings_view(r@);
        let ghost state = scan_headings(views.take(i as int), offset as int);
        assert(views.take(i + 1).drop_last() == views.take(i as int));
        assert(views.take(i + 1).last() == events@[i as int]@);
        assert(views[i as int] == events@[i as int]@);
        match &events[i] {
            MarkdownEvent::HeadingStart { level, id, start } => {
                assert(event_start(views[i as int]) == Some(*start as int));
                open = Some(
                    OpenHeading {
                        level: *level,
                        start: offset + *start,
                        text: String::new(),
                        id: clone_text(id),
                    },
                );
                assert(open_raw(open) == scan_headings(views.take(i + 1), offset as int).open);
            },
            MarkdownEvent::Text(text) => {
                open = with_text(open, text.as_str());
            },
            MarkdownEvent::Code(text) => {
                open = with_text(open, text.as_str());
            },
            MarkdownEvent::HeadingEnd => {
                if let Some(h) = open {
                    let ghost raw = h.raw();
                    let (heading, inline) = split_heading_id(h.text.as_str());
                    let one = HeadingDraft {
                        heading,
                        id: match h.id {
                            Some(id) => Some(id),
                            None => inline,
                        },
                        level: h.level,
                        start: h.start,
                        line: line_at(source, h.start),
                    };
                    assert(one@ == heading_view(raw, bytes));
                    r.push(one);
                    assert(headings_view(r@) == before.push(heading_view(raw, bytes)));
                    assert(scan_headings(views.take(i + 1), offset as int).done
                        == state.done.push(raw));
                    assert(headings_of(views.take(i + 1), bytes, offset as int) == before.push(
                        heading_view(raw, bytes),
                    ));
                }
                open = None;
            },
            _ => {},
        }
        assert(headings_view(r@) == headings_of(views.take(i + 1), bytes, offset as int));
        i += 1;
    }
    assert(views.take(events.len() as int) == views);
    r
}

fn with_text(open: Option<OpenHeading>, text: &str) -> (r: Option<OpenHeading>)
    ensures
        match open {
            Some(h) => open_raw(r) == Some(
                RawHeading {
                    level: h.level,
                    start: h.start as int,
                    text: h.text@ + text@,
                    id: opt_view(h.id),
                },
            ),
            None => r is None,
        },
{
    match open {
        Some(h) => {
            let mut whole = h.text;
            whole.append(text);
            Some(OpenHeading { level: h.level, start: h.start, text: whole, id: h.id })
        },
        None => None,
    }
}

// ---------------------------------------------------------------------------
// Quiz blocks
// ---------------------------------------------------------------------------

/// The quiz blocks that are complete, and the one that is open: where each starts,
/// and its text.
#[verifier::ext_equal]
pub struct QuizScan {
    pub open: Option<(int, Seq<char>)>,
    pub done: Seq<(int, Seq<char>)>,
}

/// Whether a fenced block is a quiz: the first word behind the fence says so.
pub open spec fn is_quiz(info: Seq<char>) -> bool {
    words(info).len() > 0 && words(info)[0] == "quiz"@
}

/// What the events say of quiz blocks.
pub open spec fn scan_quizzes(events: Seq<EventView>, offset: int) -> QuizScan
    decreases events.len(),
{
    if events.len() == 0 {
        QuizScan { open: None, done: Seq::empty() }
    } else {
        let s = scan_quizzes(events.drop_last(), offset);
        match events.last() {
            EventView::FenceStart { info, start } => if is_quiz(info) {
                QuizScan { open: Some((offset + start, Seq::empty())), done: s.done }
            } else {
                s
            },
            EventView::Text(text) => match s.open {
                Some((start, yaml)) => QuizScan { open: Some((start, yaml + text)), done: s.done },
                None => s,
            },
            EventView::CodeEnd => match s.open {
                Some(block) => QuizScan { open: None, done: s.done.push(block) },
                None => s,
            },
            _ => s,
        }
    }
}

/// The views of where blocks start and what they hold.
pub open spec fn blocks_view(v: Seq<(usize, String)>) -> Seq<(int, Seq<char>)> {
    Seq::new(v.len(), |i: int| (v[i].0 as int, v[i].1@))
}

spec fn open_block(b: Option<(usize, String)>) -> Option<(int, Seq<char>)> {
    match b {
        Some((start, text)) => Some((start as int, text@)),
        None => None,
    }
}

fn quiz_info(info: &str) -> (r: bool)
    ensures
        r == is_quiz(info@),
{
    let whole = to_chars(info);
    let parts = split_words(&whole);
    let ghost views = slices(parts@);
    if parts.len() == 0 {
        return false;
    }
    assert(views[0] == parts@[0]@);
    let quiz = to_chars("quiz");
    chars_eq(parts[0], &quiz)
}

/// The quiz blocks that events report of a note whose Markdown starts at `offset`.
pub fn collect_quiz_blocks(events: &Vec<MarkdownEvent>, length: usize, offset: usize) -> (r: Vec<
    (usize, String),
>)
    requires
        offset <= length,
        events_inside(events_view(events@), length - offset),
    ensures
        blocks_view(r@) == scan_quizzes(events_view(events@), offset as int).done,
{
    let ghost views = events_view(events@);
    let mut r: Vec<(usize, String)> = Vec::new();
    let mut open: Option<(usize, String)> = None;
    let mut i: usize = 0;
    assert(views.take(0) == Seq::<EventView>::empty());
    assert(blocks_view(r@) == Seq::<(int, Seq<char>)>::empty());
    while i < events.len()
        invariant
            0 <= i <= events.len(),
            views == events_view(events@),
            offset <= length,
            events_inside(views, length - offset),
            open_block(open) == scan_quizzes(views.take(i as int), offset as int).open,
            blocks_view(r@) == scan_quizzes(views.take(i as int), offset as int).done,
        decreases events.len() - i,
    {
        let ghost before = blocks_view(r@);
        assert(views.take(i + 1).drop_last() == views.take(i as int));
        assert(views.take(i + 1).last() == events@[i as int]@);
        assert(views[i as int] == events@[i as int]@);
        match &events[i] {
            MarkdownEvent::FenceStart { info, start } => {
                assert(event_start(views[i as int]) == Some(*start as int));
                if quiz_info(info.as_str()) {
                    open = Some((offset + *start, String::new()));
                }
            },
            MarkdownEvent::Text(text) => {
                open = match open {
                    Some((start, yaml)) => {
                        let mut whole = yaml;
                        whole.append(text.as_str());
                        Some((start, whole))
                    },
                    None => None,
                };
            },
            MarkdownEvent::CodeEnd => {
                if let Some(block) = open {
                    let ghost added = (block.0 as int, block.1@);
                    r.push(block);
                    assert(blocks_view(r@) == before.push(added));
                }
                open = None;
            },
            _ => {},
        }
        i += 1;
    }
    assert(views.take(events.len() as int) == views);
    r
}

/// What there is to read in a note: the YAML at its head and in its quiz blocks,
/// and its headings.
#[derive(Debug)]
pub struct NoteScan {
    pub front: Option<String>,
    pub offset: usize,
    pub headings: Vec<HeadingDraft>,
    pub quizzes: Vec<(usize, String)>,
}

/// Whether headings follow one another in the text, each on a character boundary.
pub open spec fn placed(headings: Seq<HeadingView>, bytes: Seq<u8>) -> bool {
    &&& forall|i: int|
        0 <= i < headings.len() ==> 0 <= (#[trigger] headings[i]).start <= bytes.len()
            && is_char_boundary(bytes, headings[i].start)
    &&& forall|i: int, j: int|
        0 <= i <= j < headings.len() ==> (#[trigger] headings[i]).start <= (
        #[trigger] headings[j]).start
}

fn well_placed(headings: &Vec<HeadingDraft>, source: &str) -> (r: bool)
    ensures
        r == placed(headings_view(headings@), source.spec_bytes()),
{
    let ghost views = headings_view(headings@);
    let length: usize = source.as_bytes().len();
    let mut i: usize = 0;
    while i < headings.len()
        invariant
            0 <= i <= headings.len(),
            views == headings_view(headings@),
            length == source.spec_bytes().len(),
            forall|k: int|
                0 <= k < i ==> 0 <= (#[trigger] views[k]).start <= length && is_char_boundary(
                    source.spec_bytes(),
                    views[k].start,
                ),
            forall|a: int, b: int|
                0 <= a <= b < i ==> (#[trigger] views[a]).start <= (#[trigger] views[b]).start,
        decreases headings.len() - i,
    {
        let start: usize = headings[i].start;
        assert(views[i as int].start == start);
        if start > length || !source.is_char_boundary(start) {
            return false;
        }
        if i > 0 && headings[i - 1].start > start {
            assert(views[i - 1].start == headings@[i - 1].start);
            assert(!(views[i - 1].start <= views[i as int].start));
            return false;
        }
        assert forall|a: int, b: int| 0 <= a <= b < i + 1 implies (#[trigger] views[a]).start <= (
        #[trigger] views[b]).start by {
            if b == i && a < i {
                assert(views[a].start <= views[i - 1].start);
                assert(views[i - 1].start == headings@[i - 1].start);
            }
        }
        i += 1;
    }
    true
}

/// What a scan says of a note, for the events of its Markdown.
pub open spec fn scan_is(scan: NoteScan, source: &str, events: Seq<EventView>) -> bool {
    let bytes = source.spec_bytes();
    &&& headings_view(scan.headings@) == headings_of(events, bytes, scan.offset as int)
    &&& blocks_view(scan.quizzes@) == scan_quizzes(events, scan.offset as int).done
}

/// Whether the Markdown of a note starts at `offset`.
pub open spec fn markdown_start(bytes: Seq<u8>, offset: int) -> bool {
    (offset == 0 && forall|e: int| !front_end(bytes, e)) || (offset >= 9 && front_end(
        bytes,
        offset - 5,
    ))
}

/// Whether the events of a note's Markdown lie inside the text, and its headings in order.
pub open spec fn readable(events: Seq<EventView>, bytes: Seq<u8>, offset: int) -> bool {
    events_inside(events, bytes.len() - offset) && placed(
        headings_of(events, bytes, offset),
        bytes,
    )
}

/// Whether a note cannot be read, for its Markdown from `offset` on.
pub open spec fn unreadable(bytes: Seq<u8>, offset: int, markdown: Seq<char>) -> bool {
    markdown_start(bytes, offset) && encode_utf8(markdown) == bytes.skip(offset) && !readable(
        markdown_events_of(markdown),
        bytes,
        offset,
    )
}

/// Finds what there is to read in a note. `None` when the Markdown parser places an
/// event outside the text or headings out of order.
pub fn scan_note(source: &str) -> (r: Option<NoteScan>)
    requires
        source.spec_bytes().len() < usize::MAX,
    ensures
        r matches Some(scan) ==> {
            let bytes = source.spec_bytes();
            &&& scan.offset <= bytes.len()
            &&& is_char_boundary(bytes, scan.offset as int)
            &&& scan.front is None ==> scan.offset == 0 && forall|e: int| !front_end(bytes, e)
            &&& scan.front matches Some(yaml) ==> scan.offset >= 9 && front_end(
                bytes,
                scan.offset - 5,
            ) && encode_utf8(yaml@) == bytes.subrange(4, scan.offset - 5)
            &&& exists|markdown: Seq<char>|
                encode_utf8(markdown) == bytes.skip(scan.offset as int) && scan_is(
                    scan,
                    source,
                    #[trigger] markdown_events_of(markdown),
                ) && readable(markdown_events_of(markdown), bytes, scan.offset as int)
            &&& placed(headings_view(scan.headings@), bytes)
        },
        r is None ==> exists|offset: int, markdown: Seq<char>| #[trigger]
            unreadable(source.spec_bytes(), offset, markdown),
{
    let (front, offset) = split_front_matter(source);
    let ghost bytes = source.spec_bytes();
    let length: usize = source.as_bytes().len();
    proof {
        encode_utf8_valid_utf8(source@);
        is_char_boundary_start_end_of_seq(bytes);
    }
    let markdown = byte_range(source, offset, length);
    assert(bytes.subrange(offset as int, length as int) == bytes.skip(offset as int));
    let events = markdown_events(markdown.as_str());
    assert(markdown_start(bytes, offset as int));
    if !all_inside(&events, length - offset) {
        assert(unreadable(bytes, offset as int, markdown@));
        return None;
    }
    let headings = collect_headings(&events, source, offset);
    if !well_placed(&headings, source) {
        assert(unreadable(bytes, offset as int, markdown@));
        return None;
    }
    let quizzes = collect_quiz_blocks(&events, length, offset);
    let scan = NoteScan { front, offset, headings, quizzes };
    assert(scan_is(scan, source, markdown_events_of(markdown@)));
    Some(scan)
}

// ---------------------------------------------------------------------------
// Sections
// ---------------------------------------------------------------------------

/// What is known of a note's file.
#[derive(Debug)]
pub struct NoteFile {
    /// The path from the vault.
    pub path: String,
    /// The directory that holds the file.
    pub directory: String,
    /// The user's home directory, when there is one.
    pub home: Option<String>,
    pub created_at: i64,
    pub modified_at: i64,
}

/// A quiz block after its YAML was read, or the reason why it could not be.
#[derive(Debug)]
pub struct QuizBlock {
    pub start: usize,
    pub quiz: Result<QuizDefinition, String>,
}

/// The id of a note that gives none: its path without the extension, with hyphens
/// for slashes.
pub open spec fn fallback_id_of(path: Seq<char>) -> Seq<char> {
    replaced(path_without_extension(path), seq!['/'], seq!['-'])
}

/// The id of a note that gives none. What it is for a path that some systems take apart in
/// their own way is left to the system, but for the slashes.
pub fn fallback_id(path: &str) -> (r: String)
    ensures
        portable_path(path@) ==> r@ == fallback_id_of(path@),
        exists|stem: Seq<char>| r@ == #[trigger] replaced(stem, seq!['/'], seq!['-']),
        forall|stem: Seq<char>, extension: Seq<char>|
            is_file_path(stem, extension) && path@ == #[trigger] dotted(stem, extension) ==> r@
                == replaced(stem, seq!['/'], seq!['-']),
{
    let stem = without_extension(path);
    let chars = to_chars(stem.as_str());
    let mut slash: Vec<char> = Vec::new();
    slash.push('/');
    let mut hyphen: Vec<char> = Vec::new();
    hyphen.push('-');
    assert(slash@ == seq!['/']);
    assert(hyphen@ == seq!['-']);
    let r = replace(&chars, &slash, &hyphen);
    from_chars(&r)
}

/// The number of lines of a text, from its bytes.
pub open spec fn line_count(bytes: Seq<u8>) -> int {
    newlines(bytes) + (if bytes.len() > 0 && bytes.last() != 10 {
        1int
    } else {
        0int
    })
}

/// The headings of a note; one without any has its title as its root.
pub open spec fn note_headings(
    headings: Seq<HeadingView>,
    title: Option<Seq<char>>,
    note_id: Seq<char>,
    bytes: Seq<u8>,
    offset: int,
) -> Seq<HeadingView> {
    if headings.len() > 0 {
        headings
    } else {
        let lines = line_count(bytes.take(offset));
        seq![
            HeadingView {
                heading: match title {
                    Some(t) => t,
                    None => note_id,
                },
                id: Some("root"@),
                level: 1,
                start: offset,
                line: if lines > 1 {
                    lines
                } else {
                    1
                },
            },
        ]
    }
}

/// The id of a section: the one it gives, or the slug of its heading.
pub open spec fn section_id(h: HeadingView) -> Seq<char> {
    match h.id {
        Some(id) => id,
        None => slug_of(h.heading),
    }
}

pub open spec fn section_ids(headings: Seq<HeadingView>) -> Seq<Seq<char>> {
    Seq::new(headings.len(), |i: int| section_id(headings[i]))
}

/// The uid of a section: its note and its id.
pub open spec fn section_uid(note_id: Seq<char>, id: Seq<char>) -> Seq<char> {
    note_id + "#"@ + id
}

/// The section that holds the one at `i`: the nearest before `k` of a lower level.
pub open spec fn parent_before(headings: Seq<HeadingView>, level: u32, k: int) -> Option<int>
    decreases k,
{
    if k <= 0 {
        None
    } else if headings[k - 1].level < level {
        Some(k - 1)
    } else {
        parent_before(headings, level, k - 1)
    }
}

pub open spec fn parent_of(headings: Seq<HeadingView>, i: int) -> Option<int> {
    parent_before(headings, headings[i].level, i)
}

/// The headings from the outermost ancestor down to the section.
pub open spec fn heading_path_of(headings: Seq<HeadingView>, i: int) -> Seq<char>
    decreases i,
{
    match parent_of(headings, i) {
        Some(p) => if 0 <= p < i {
            heading_path_of(headings, p) + HEADING_PATH_SEPARATOR@ + headings[i].heading
        } else {
            headings[i].heading
        },
        None => headings[i].heading,
    }
}

/// Where a section ends: where the next one starts.
pub open spec fn section_end(headings: Seq<HeadingView>, bytes: Seq<u8>, i: int) -> int {
    if i + 1 < headings.len() {
        headings[i + 1].start
    } else {
        bytes.len() as int
    }
}

/// Whether `s` is the section at `i`, but for its cards.
pub open spec fn section_is(
    s: ParsedSection,
    headings: Seq<HeadingView>,
    bytes: Seq<u8>,
    note_id: Seq<char>,
    note_dir: Seq<char>,
    home: Option<Seq<char>>,
    i: int,
) -> bool {
    &&& s.uid@ == section_uid(note_id, section_id(headings[i]))
    &&& opt_view(s.parent_uid) == match parent_of(headings, i) {
        Some(p) => Some(section_uid(note_id, section_id(headings[p]))),
        None => None,
    }
    &&& s.heading@ == headings[i].heading
    &&& s.heading_path@ == heading_path_of(headings, i)
    &&& s.level == headings[i].level
    &&& s.start_byte == headings[i].start
    &&& s.end_byte == section_end(headings, bytes, i)
    &&& s.start_line == headings[i].line
    &&& s.position == i
    &&& encode_utf8(s.body@) == bytes.subrange(s.start_byte as int, s.end_byte as int)
    &&& relations_view(s.relations@) == relations_of(
        found_or_none(regex_matches(relation_pattern(), s.body@)),
        note_id,
    )
    &&& actions_view(s.actions@) == actions_of(
        found_or_none(regex_matches(action_pattern(), s.body@)),
        note_dir,
        home,
    )
}

// ---------------------------------------------------------------------------
// Diagnostics and cards
// ---------------------------------------------------------------------------

/// One diagnostic for each section whose id an earlier one has.
pub open spec fn duplicate_diagnostics(path: Seq<char>, headings: Seq<HeadingView>) -> Seq<
    DiagnosticView,
>
    decreases headings.len(),
{
    if headings.len() == 0 {
        Seq::empty()
    } else {
        let before = duplicate_diagnostics(path, headings.drop_last());
        let id = section_id(headings.last());
        if section_ids(headings.drop_last()).contains(id) {
            before.push(
                DiagnosticView {
                    path,
                    line: headings.last().line as usize,
                    message: "duplicate section ID `"@ + id + "`"@,
                },
            )
        } else {
            before
        }
    }
}

/// One diagnostic for each quiz block whose YAML could not be read.
pub open spec fn unread_diagnostics(
    path: Seq<char>,
    bytes: Seq<u8>,
    blocks: Seq<QuizBlock>,
) -> Seq<DiagnosticView>
    decreases blocks.len(),
{
    if blocks.len() == 0 {
        Seq::empty()
    } else {
        let before = unread_diagnostics(path, bytes, blocks.drop_last());
        match blocks.last().quiz {
            Ok(_) => before,
            Err(reason) => before.push(
                DiagnosticView {
                    path,
                    line: line_of(bytes, blocks.last().start as int) as usize,
                    message: "invalid quiz block: "@ + reason@,
                },
            ),
        }
    }
}

/// The clip that a section's cards inherit: its first video.
pub open spec fn inherited_of(actions: Seq<ActionView>) -> Option<ClipView>
    decreases actions.len(),
{
    if actions.len() == 0 {
        None
    } else if actions[0].kind == "video"@ {
        Some(
            ClipView {
                video_id: youtube_id_of(actions[0].target),
                url: actions[0].target,
                start: match actions[0].timestamp_seconds {
                    Some(n) => n,
                    None => 0,
                },
                end: None,
                label: None,
            },
        )
    } else {
        inherited_of(actions.drop_first())
    }
}

/// What the quizzes of one section come to: the quiz ids seen so far in the note,
/// the diagnostics and the cards.
#[verifier::ext_equal]
pub struct QuizPass {
    pub seen: Seq<Seq<char>>,
    pub diagnostics: Seq<DiagnosticView>,
    pub cards: Seq<DraftView>,
}

/// The diagnostics for what is wrong with a quiz.
pub open spec fn quiz_diagnostics(
    path: Seq<char>,
    line: usize,
    id: Seq<char>,
    errors: Seq<Seq<char>>,
) -> Seq<DiagnosticView> {
    Seq::new(
        errors.len(),
        |i: int|
            DiagnosticView { path, line, message: "quiz `"@ + id + "`: "@ + errors[i] },
    )
}

/// The quizzes that start from `start` up to `end`, one after the other. One whose
/// id was seen before is reported and makes no card, and neither does one that is
/// not sound.
pub open spec fn quiz_pass(
    path: Seq<char>,
    bytes: Seq<u8>,
    uid: Seq<char>,
    inherited: Option<ClipView>,
    blocks: Seq<QuizBlock>,
    start: int,
    end: int,
    seen: Seq<Seq<char>>,
) -> QuizPass
    decreases blocks.len(),
{
    if blocks.len() == 0 {
        QuizPass { seen, diagnostics: Seq::empty(), cards: Seq::empty() }
    } else {
        let s = quiz_pass(path, bytes, uid, inherited, blocks.drop_last(), start, end, seen);
        let block = blocks.last();
        match block.quiz {
            Err(_) => s,
            Ok(quiz) => {
                let line = line_of(bytes, block.start as int) as usize;
                let id = quiz.spec_id();
                if !(start <= block.start < end) {
                    s
                } else if s.seen.contains(id) {
                    QuizPass {
                        seen: s.seen,
                        diagnostics: s.diagnostics.push(
                            DiagnosticView {
                                path,
                                line,
                                message: "duplicate quiz ID `"@ + id + "` in note"@,
                            },
                        ),
                        cards: s.cards,
                    }
                } else {
                    let errors = quiz_errors(quiz);
                    QuizPass {
                        seen: s.seen.push(id),
                        diagnostics: s.diagnostics + quiz_diagnostics(path, line, id, errors),
                        cards: s.cards + (if errors.len() == 0 {
                            quiz_cards(
                                uid,
                                quiz,
                                quiz_clips(quiz, inherited),
                                quiz_variants(quiz),
                            )
                        } else {
                            Seq::empty()
                        }),
                    }
                }
            },
        }
    }
}

/// What the quizzes of the first sections come to.
#[verifier::ext_equal]
pub struct NotePass {
    pub seen: Seq<Seq<char>>,
    pub diagnostics: Seq<DiagnosticView>,
    pub cards: Seq<Seq<DraftView>>,
}

/// The quizzes of the sections, one section after the other.
pub open spec fn note_pass(
    path: Seq<char>,
    bytes: Seq<u8>,
    headings: Seq<HeadingView>,
    sections: Seq<ParsedSection>,
    blocks: Seq<QuizBlock>,
) -> NotePass
    decreases sections.len(),
{
    if sections.len() == 0 {
        NotePass { seen: Seq::empty(), diagnostics: Seq::empty(), cards: Seq::empty() }
    } else {
        let before = note_pass(path, bytes, headings, sections.drop_last(), blocks);
        let s = sections.last();
        let pass = quiz_pass(
            path,
            bytes,
            s.uid@,
            inherited_of(actions_view(s.actions@)),
            blocks,
            s.start_byte as int,
            s.end_byte as int,
            before.seen,
        );
        NotePass {
            seen: pass.seen,
            diagnostics: before.diagnostics + pass.diagnostics,
            cards: before.cards.push(pass.cards),
        }
    }
}

/// A note whose cards have no hash yet: the cards of each section.
#[derive(Debug)]
pub struct NoteDraft {
    pub note: ParsedNote,
    pub cards: Vec<Vec<CardDraft>>,
}

/// The views of the drafts of each section.
pub open spec fn draft_lists(v: Seq<Vec<CardDraft>>) -> Seq<Seq<DraftView>> {
    Seq::new(v.len(), |i: int| drafts_view(v[i]@))
}

fn diagnostic(path: &str, line: usize, a: &str, b: &str, c: &str) -> (r: Diagnostic)
    ensures
        r@ == (DiagnosticView { path: path@, line, message: a@ + b@ + c@ }),
{
    let mut message = a.to_owned();
    message.append(b);
    message.append(c);
    Diagnostic { path: path.to_owned(), line, message }
}

fn first_video(actions: &Vec<ParsedAction>) -> (r: Option<ClipRef>)
    ensures
        clip_view(r) == inherited_of(actions_view(actions@)),
{
    let ghost views = actions_view(actions@);
    let mut i: usize = 0;
    assert(views.skip(0) == views);
    while i < actions.len()
        invariant
            0 <= i <= actions.len(),
            views == actions_view(actions@),
            inherited_of(views) == inherited_of(views.skip(i as int)),
        decreases actions.len() - i,
    {
        assert(views.skip(i as int)[0] == actions@[i as int]@);
        assert(views.skip(i as int).drop_first() == views.skip(i + 1));
        if text_eq(actions[i].kind.as_str(), "video") {
            return Some(
                ClipRef {
                    video_id: youtube_id(actions[i].target.as_str()),
                    url: actions[i].target.clone(),
                    start: match actions[i].timestamp_seconds {
                        Some(n) => n,
                        None => 0,
                    },
                    end: None,
                    label: None,
                },
            );
        }
        i += 1;
    }
    None
}

fn push_quiz_errors(
    diagnostics: &mut Vec<Diagnostic>,
    path: &str,
    line: usize,
    id: &str,
    errors: &Vec<String>,
)
    ensures
        diagnostics_view(final(diagnostics)@) == diagnostics_view(old(diagnostics)@)
            + quiz_diagnostics(path@, line, id@, texts(errors@)),
{
    let ghost before = diagnostics_view(diagnostics@);
    let ghost all = quiz_diagnostics(path@, line, id@, texts(errors@));
    let mut i: usize = 0;
    assert(before + all.take(0) == before);
    while i < errors.len()
        invariant
            0 <= i <= errors.len(),
            all == quiz_diagnostics(path@, line, id@, texts(errors@)),
            diagnostics_view(diagnostics@) == before + all.take(i as int),
        decreases errors.len() - i,
    {
        let ghost here = diagnostics_view(diagnostics@);
        let mut front = "quiz `".to_owned();
        front.append(id);
        let one = diagnostic(path, line, front.as_str(), "`: ", errors[i].as_str());
        assert(one@ == all[i as int]);
        diagnostics.push(one);
        assert(diagnostics_view(diagnostics@) == here.push(all[i as int]));
        assert(all.take(i + 1) == all.take(i as int).push(all[i as int]));
        assert(diagnostics_view(diagnostics@) == before + all.take(i + 1));
        i += 1;
    }
    assert(all.take(errors.len() as int) == all);
}

/// Goes through the quizzes of one section.
fn section_quizzes(
    path: &str,
    source: &str,
    uid: &str,
    inherited: &Option<ClipRef>,
    blocks: &Vec<QuizBlock>,
    start: usize,
    end: usize,
    seen: &mut Vec<String>,
    diagnostics: &mut Vec<Diagnostic>,
) -> (r: Vec<CardDraft>)
    requires
        source.spec_bytes().len() < usize::MAX,
    ensures
        ({
            let pass = quiz_pass(
                path@,
                source.spec_bytes(),
                uid@,
                clip_view(*inherited),
                blocks@,
                start as int,
                end as int,
                texts(old(seen)@),
            );
            &&& texts(final(seen)@) == pass.seen
            &&& diagnostics_view(final(diagnostics)@) == diagnostics_view(old(diagnostics)@)
                + pass.diagnostics
            &&& drafts_view(r@) == pass.cards
        }),
{
    let ghost bytes = source.spec_bytes();
    let ghost seen0 = texts(seen@);
    let ghost diag0 = diagnostics_view(diagnostics@);
    let mut cards: Vec<CardDraft> = Vec::new();
    let mut i: usize = 0;
    assert(blocks@.take(0) == Seq::<QuizBlock>::empty());
    assert(drafts_view(cards@) == Seq::<DraftView>::empty());
    assert(diag0 + Seq::<DiagnosticView>::empty() == diag0);
    while i < blocks.len()
        invariant
            0 <= i <= blocks.len(),
            bytes == source.spec_bytes(),
            bytes.len() < usize::MAX,
            ({
                let pass = quiz_pass(
                    path@,
                    bytes,
                    uid@,
                    clip_view(*inherited),
                    blocks@.take(i as int),
                    start as int,
                    end as int,
                    seen0,
                );
                &&& texts(seen@) == pass.seen
                &&& diagnostics_view(diagnostics@) == diag0 + pass.diagnostics
                &&& drafts_view(cards@) == pass.cards
            }),
        decreases blocks.len() - i,
    {
        let block = &blocks[i];
        let ghost pass = quiz_pass(
            path@,
            bytes,
            uid@,
            clip_view(*inherited),
            blocks@.take(i as int),
            start as int,
            end as int,
            seen0,
        );
        let ghost next = quiz_pass(
            path@,
            bytes,
            uid@,
            clip_view(*inherited),
            blocks@.take(i + 1),
            start as int,
            end as int,
            seen0,
        );
        assert(blocks@.take(i + 1).drop_last() == blocks@.take(i as int));
        assert(blocks@.take(i + 1).last() == *block);
        if let Ok(quiz) = &block.quiz {
            if start <= block.start && block.start < end {
                let line = line_at(source, block.start);
                let ghost here = diagnostics_view(diagnostics@);
                if holds(seen, quiz.id()) {
                    let one = diagnostic(
                        path,
                        line,
                        "duplicate quiz ID `",
                        quiz.id(),
                        "` in note",
                    );
                    let ghost added = one@;
                    diagnostics.push(one);
                    assert(diagnostics_view(diagnostics@) == here.push(added));
                    assert(here.push(added) == diag0 + pass.diagnostics.push(added));
                } else {
                    let ghost old_seen = texts(seen@);
                    seen.push(quiz.id().to_owned());
                    assert(texts(seen@) == old_seen.push(quiz.spec_id()));
                    let errors = validate_quiz(quiz);
                    push_quiz_errors(diagnostics, path, line, quiz.id(), &errors);
                    assert(here + quiz_diagnostics(path@, line, quiz.spec_id(), texts(errors@))
                        == diag0 + next.diagnostics);
                    assert(texts(errors@).len() == errors.len());
                    let ghost old_cards = drafts_view(cards@);
                    if errors.len() == 0 {
                        let mut more = cards_from_quiz(uid, quiz, inherited);
                        let ghost added = drafts_view(more@);
                        cards.append(&mut more);
                        assert(drafts_view(cards@) == old_cards + added);
                    } else {
                        assert(old_cards + Seq::<DraftView>::empty() == old_cards);
                    }
                    assert(drafts_view(cards@) == next.cards);
                }
            }
        }
        i += 1;
    }
    assert(blocks@.take(blocks.len() as int) == blocks@);
    cards
}

fn duplicate_ids(path: &str, headings: &Vec<HeadingDraft>, ids: &Vec<String>) -> (r: Vec<
    Diagnostic,
>)
    requires
        texts(ids@) == section_ids(headings_view(headings@)),
    ensures
        diagnostics_view(r@) == duplicate_diagnostics(path@, headings_view(headings@)),
{
    let ghost views = headings_view(headings@);
    let mut r: Vec<Diagnostic> = Vec::new();
    let mut seen: Vec<String> = Vec::new();
    let mut i: usize = 0;
    assert(views.take(0) == Seq::<HeadingView>::empty());
    assert(texts(ids@).len() == views.len());
    assert(diagnostics_view(r@) == Seq::<DiagnosticView>::empty());
    assert(texts(seen@) == section_ids(views.take(0)));
    while i < headings.len()
        invariant
            0 <= i <= headings.len(),
            views == headings_view(headings@),
            texts(ids@) == section_ids(views),
            ids.len() == headings.len(),
            texts(seen@) == section_ids(views.take(i as int)),
            diagnostics_view(r@) == duplicate_diagnostics(path@, views.take(i as int)),
        decreases headings.len() - i,
    {
        let ghost before = diagnostics_view(r@);
        assert(views.take(i + 1).drop_last() == views.take(i as int));
        assert(views.take(i + 1).last() == headings@[i as int]@);
        assert(texts(ids@)[i as int] == ids@[i as int]@);
        assert(ids@[i as int]@ == section_id(views[i as int]));
        if holds(&seen, ids[i].as_str()) {
            let one = diagnostic(
                path,
                headings[i].line,
                "duplicate section ID `",
                ids[i].as_str(),
                "`",
            );
            let ghost added = one@;
            r.push(one);
            assert(diagnostics_view(r@) == before.push(added));
        }
        let ghost old_seen = texts(seen@);
        seen.push(ids[i].clone());
        assert(texts(seen@) == old_seen.push(ids@[i as int]@));
        assert(section_ids(views.take(i + 1)) == old_seen.push(section_id(views[i as int])));
        i += 1;
    }
    assert(views.take(headings.len() as int) == views);
    r
}

fn unread_blocks(path: &str, source: &str, blocks: &Vec<QuizBlock>) -> (r: Vec<Diagnostic>)
    requires
        source.spec_bytes().len() < usize::MAX,
    ensures
        diagnostics_view(r@) == unread_diagnostics(path@, source.spec_bytes(), blocks@),
{
    let mut r: Vec<Diagnostic> = Vec::new();
    let mut i: usize = 0;
    assert(blocks@.take(0) == Seq::<QuizBlock>::empty());
    assert(diagnostics_view(r@) == Seq::<DiagnosticView>::empty());
    while i < blocks.len()
        invariant
            0 <= i <= blocks.len(),
            source.spec_bytes().len() < usize::MAX,
            diagnostics_view(r@) == unread_diagnostics(
                path@,
                source.spec_bytes(),
                blocks@.take(i as int),
            ),
        decreases blocks.len() - i,
    {
        let ghost before = diagnostics_view(r@);
        assert(blocks@.take(i + 1).drop_last() == blocks@.take(i as int));
        assert(blocks@.take(i + 1).last() == blocks@[i as int]);
        if let Err(reason) = &blocks[i].quiz {
            let line = line_at(source, blocks[i].start);
            let mut message = "invalid quiz block: ".to_owned();
            message.append(reason.as_str());
            let one = Diagnostic { path: path.to_owned(), line, message };
            let ghost added = one@;
            r.push(one);
            assert(diagnostics_view(r@) == before.push(added));
        }
        i += 1;
    }
    assert(blocks@.take(blocks.len() as int) == blocks@);
    r
}

fn ids_of(headings: &Vec<HeadingDraft>) -> (r: Vec<String>)
    ensures
        texts(r@) == section_ids(headings_view(headings@)),
{
    let mut r: Vec<String> = Vec::new();
    let mut i: usize = 0;
    while i < headings.len()
        invariant
            0 <= i <= headings.len(),
            r.len() == i,
            forall|j: int| 0 <= j < i ==> (#[trigger] r@[j])@ == section_id(headings@[j]@),
        decreases headings.len() - i,
    {
        let id = match &headings[i].id {
            Some(id) => id.clone(),
            None => slugify(headings[i].heading.as_str()),
        };
        r.push(id);
        i += 1;
    }
    assert(texts(r@) == section_ids(headings_view(headings@)));
    r
}

fn find_parent(headings: &Vec<HeadingDraft>, i: usize) -> (r: Option<usize>)
    requires
        i < headings.len(),
    ensures
        match r {
            Some(p) => parent_of(headings_view(headings@), i as int) == Some(p as int) && p < i,
            None => parent_of(headings_view(headings@), i as int) is None,
        },
{
    let ghost views = headings_view(headings@);
    let level: u32 = headings[i].level;
    let mut k: usize = i;
    while k > 0
        invariant
            0 <= k <= i < headings.len(),
            views == headings_view(headings@),
            level == views[i as int].level,
            parent_of(views, i as int) == parent_before(views, level, k as int),
        decreases k,
    {
        assert(views[k - 1].level == headings@[k - 1].level);
        if headings[k - 1].level < level {
            return Some(k - 1);
        }
        k -= 1;
    }
    None
}

fn uid_text(note_id: &str, id: &str) -> (r: String)
    ensures
        r@ == section_uid(note_id@, id@),
{
    let mut r = note_id.to_owned();
    r.append("#");
    r.append(id);
    r
}

/// The headings of a note, with a root where there is none.
fn with_root(
    headings: Vec<HeadingDraft>,
    title: &Option<String>,
    note_id: &str,
    source: &str,
    offset: usize,
) -> (r: Vec<HeadingDraft>)
    requires
        source.spec_bytes().len() < usize::MAX,
        offset <= source.spec_bytes().len(),
    ensures
        headings_view(r@) == note_headings(
            headings_view(headings@),
            opt_view(*title),
            note_id@,
            source.spec_bytes(),
            offset as int,
        ),
{
    if headings.len() > 0 {
        return headings;
    }
    let bytes = source.as_bytes();
    let mut lines: usize = count_newlines(bytes, offset);
    if offset > 0 && bytes[offset - 1] != 10 {
        lines += 1;
    }
    let ghost prefix = source.spec_bytes().take(offset as int);
    assert(lines == line_count(prefix));
    if lines < 1 {
        lines = 1;
    }
    let mut r: Vec<HeadingDraft> = Vec::new();
    r.push(
        HeadingDraft {
            heading: match title {
                Some(t) => t.clone(),
                None => note_id.to_owned(),
            },
            id: Some("root".to_owned()),
            level: 1,
            start: offset,
            line: lines,
        },
    );
    assert(headings_view(r@) == note_headings(
        headings_view(headings@),
        opt_view(*title),
        note_id@,
        source.spec_bytes(),
        offset as int,
    ));
    r
}

/// The id of a note.
pub open spec fn note_id_of(front: FrontMatter, path: Seq<char>) -> Seq<char> {
    match front.id {
        Some(id) => id@,
        None => fallback_id_of(path),
    }
}

/// Whether a draft is that of the note in a file, from its bytes, what was read of its
/// front matter, its headings and its quiz blocks. Where the note gives no id and its path
/// is read differently on some systems, the id is whatever [`fallback_id`] made of it.
pub open spec fn draft_is(
    r: NoteDraft,
    file: NoteFile,
    bytes: Seq<u8>,
    offset: usize,
    front: FrontMatter,
    headings: Seq<HeadingView>,
    blocks: Seq<QuizBlock>,
) -> bool {
    let note = r.note;
    let id = note.note_id@;
    let all = note_headings(
        headings,
        opt_view(front.title),
        id,
        bytes,
        offset as int,
    );
    let pass = note_pass(file.path@, bytes, all, note.sections@, blocks);
    &&& note.path == file.path
    &&& front.id is Some || portable_path(file.path@) ==> id == note_id_of(front, file.path@)
    &&& note.title@ == match front.title {
        Some(t) => t@,
        None => all[0].heading,
    }
    &&& note.tags == front.tags
    &&& note.topic == front.topic
    &&& note.pinned == front.pinned
    &&& note.status == front.status
    &&& note.created_at == file.created_at
    &&& note.modified_at == file.modified_at
    &&& note.content_hash@ == blake3_hex(bytes)
    &&& note.sections.len() == all.len()
    &&& forall|i: int|
        0 <= i < all.len() ==> section_is(
            #[trigger] note.sections@[i],
            all,
            bytes,
            id,
            file.directory@,
            opt_view(file.home),
            i,
        ) && note.sections@[i].cards.len() == 0
    &&& diagnostics_view(note.diagnostics@) == duplicate_diagnostics(file.path@, all)
        + unread_diagnostics(file.path@, bytes, blocks) + pass.diagnostics
    &&& draft_lists(r.cards@) == pass.cards
}

/// Puts a note together from its file, its text, what was read of its front matter,
/// its headings and its quiz blocks.
pub fn parse_note(
    file: NoteFile,
    source: &str,
    offset: usize,
    front: FrontMatter,
    headings: Vec<HeadingDraft>,
    blocks: &Vec<QuizBlock>,
) -> (r: NoteDraft)
    requires
        source.spec_bytes().len() < usize::MAX,
        offset <= source.spec_bytes().len(),
        is_char_boundary(source.spec_bytes(), offset as int),
        placed(headings_view(headings@), source.spec_bytes()),
    ensures
        draft_is(r, file, source.spec_bytes(), offset, front, headings_view(headings@), blocks@),
{
    let ghost bytes = source.spec_bytes();
    let length: usize = source.as_bytes().len();
    let note_id = match front.id {
        Some(id) => id,
        None => fallback_id(file.path.as_str()),
    };
    let headings = with_root(headings, &front.title, note_id.as_str(), source, offset);
    let ghost all = headings_view(headings@);
    assert(placed(all, bytes));
    assert(all.len() > 0);
    let title = match front.title {
        Some(t) => t,
        None => headings[0].heading.clone(),
    };
    let ids = ids_of(&headings);
    let mut diagnostics = duplicate_ids(file.path.as_str(), &headings, &ids);
    let ghost dups = diagnostics_view(diagnostics@);
    let mut unread = unread_blocks(file.path.as_str(), source, blocks);
    let ghost unreads = diagnostics_view(unread@);
    diagnostics.append(&mut unread);
    let ghost front_diags = dups + unreads;
    assert(diagnostics_view(diagnostics@) == front_diags);
    assert(front_diags + Seq::<DiagnosticView>::empty() == front_diags);
    let mut sections: Vec<ParsedSection> = Vec::new();
    let mut cards: Vec<Vec<CardDraft>> = Vec::new();
    let mut seen: Vec<String> = Vec::new();
    let mut i: usize = 0;
    assert(texts(ids@).len() == all.len());
    assert(texts(seen@) == Seq::<Seq<char>>::empty());
    assert(draft_lists(cards@) == Seq::<Seq<DraftView>>::empty());
    proof {
        encode_utf8_valid_utf8(source@);
        is_char_boundary_start_end_of_seq(bytes);
    }
    let home = match &file.home {
        Some(h) => Some(h.as_str()),
        None => None,
    };
    while i < headings.len()
        invariant
            0 <= i <= headings.len(),
            bytes == source.spec_bytes(),
            bytes.len() < usize::MAX,
            length == bytes.len(),
            is_char_boundary(bytes, length as int),
            all == headings_view(headings@),
            placed(all, bytes),
            texts(ids@) == section_ids(all),
            ids.len() == headings.len(),
            opt_str_view(home) == opt_view(file.home),
            sections.len() == i,
            forall|k: int|
                0 <= k < i ==> section_is(
                    #[trigger] sections@[k],
                    all,
                    bytes,
                    note_id@,
                    file.directory@,
                    opt_view(file.home),
                    k,
                ) && sections@[k].cards.len() == 0,
            ({
                let pass = note_pass(file.path@, bytes, all, sections@, blocks@);
                &&& texts(seen@) == pass.seen
                &&& diagnostics_view(diagnostics@) == front_diags + pass.diagnostics
                &&& draft_lists(cards@) == pass.cards
            }),
        decreases headings.len() - i,
    {
        let start: usize = headings[i].start;
        assert(all[i as int] == headings@[i as int]@);
        let end: usize = if i + 1 < headings.len() {
            assert(all[i + 1] == headings@[i + 1]@);
            headings[i + 1].start
        } else {
            length
        };
        assert(end == section_end(all, bytes, i as int));
        assert(start <= end <= length && is_char_boundary(bytes, end as int));
        assert(texts(ids@)[i as int] == ids@[i as int]@);
        let uid = uid_text(note_id.as_str(), ids[i].as_str());
        let mut path = String::new();
        let parent_uid = match find_parent(&headings, i) {
            Some(p) => {
                assert(section_is(
                    sections@[p as int],
                    all,
                    bytes,
                    note_id@,
                    file.directory@,
                    opt_view(file.home),
                    p as int,
                ));
                path = sections[p].heading_path.clone();
                path.append(HEADING_PATH_SEPARATOR);
                Some(sections[p].uid.clone())
            },
            None => None,
        };
        path.append(headings[i].heading.as_str());
        assert(path@ == heading_path_of(all, i as int));
        let body = byte_range(source, start, end);
        let actions = parse_actions(body.as_str(), file.directory.as_str(), home);
        let relations = parse_relations(body.as_str(), note_id.as_str());
        let inherited = first_video(&actions);
        let ghost before = note_pass(file.path@, bytes, all, sections@, blocks@);
        let ghost old_cards = draft_lists(cards@);
        let ghost old_diags = diagnostics_view(diagnostics@);
        let drafts = section_quizzes(
            file.path.as_str(),
            source,
            uid.as_str(),
            &inherited,
            blocks,
            start,
            end,
            &mut seen,
            &mut diagnostics,
        );
        let ghost added = drafts_view(drafts@);
        let section = ParsedSection {
            uid,
            parent_uid,
            heading: headings[i].heading.clone(),
            heading_path: path,
            level: headings[i].level,
            start_byte: start,
            end_byte: end,
            start_line: headings[i].line,
            position: i,
            body,
            relations,
            cards: Vec::new(),
            actions,
        };
        assert(section_is(
            section,
            all,
            bytes,
            note_id@,
            file.directory@,
            opt_view(file.home),
            i as int,
        ));
        let ghost old_sections = sections@;
        sections.push(section);
        assert(sections@.drop_last() == old_sections);
        cards.push(drafts);
        assert(draft_lists(cards@) == old_cards.push(added));
        proof {
            let pass = note_pass(file.path@, bytes, all, sections@, blocks@);
            assert(diagnostics_view(diagnostics@) == front_diags + pass.diagnostics);
        }
        i += 1;
    }
    NoteDraft {
        note: ParsedNote {
            path: file.path,
            note_id,
            title,
            tags: front.tags,
            topic: front.topic,
            pinned: front.pinned,
            status: front.status,
            created_at: file.created_at,
            content_hash: hash_bytes(source.as_bytes()),
            modified_at: file.modified_at,
            sections,
            diagnostics,
        },
        cards,
    }
}

/// The cards that drafts become, with the JSON of each.
pub open spec fn cards_of(drafts: Seq<DraftView>, json: Seq<Seq<char>>) -> Seq<CardView> {
    Seq::new(drafts.len(), |i: int| card_of(drafts[i], json[i]))
}

/// Whether `a` is `b` but for its cards.
pub open spec fn same_section(a: ParsedSection, b: ParsedSection) -> bool {
    &&& a.uid == b.uid
    &&& a.parent_uid == b.parent_uid
    &&& a.heading == b.heading
    &&& a.heading_path == b.heading_path
    &&& a.level == b.level
    &&& a.start_byte == b.start_byte
    &&& a.end_byte == b.end_byte
    &&& a.start_line == b.start_line
    &&& a.position == b.position
    &&& a.body == b.body
    &&& a.relations == b.relations
    &&& a.actions == b.actions
}

fn complete_cards(drafts: Vec<CardDraft>, json: &Vec<String>) -> (r: Vec<CardDefinition>)
    requires
        drafts.len() == json.len(),
    ensures
        cards_view(r@) == cards_of(drafts_view(drafts@), texts(json@)),
{
    let ghost all = drafts@;
    let mut rest = drafts;
    let mut r: Vec<CardDefinition> = Vec::new();
    let mut i: usize = 0;
    assert(all.skip(0) == all);
    while i < json.len()
        invariant
            0 <= i <= json.len(),
            all.len() == json.len(),
            rest@ == all.skip(i as int),
            r.len() == i,
            forall|k: int| 0 <= k < i ==> (#[trigger] r@[k])@ == card_of(all[k]@, json@[k]@),
        decreases json.len() - i,
    {
        let draft = rest.remove(0);
        assert(draft == all[i as int]);
        assert(rest@ == all.skip(i + 1));
        r.push(make_card(draft, json[i].as_str()));
        i += 1;
    }
    assert(cards_view(r@) == cards_of(drafts_view(all), texts(json@)));
    r
}

/// Completes the cards of a note, given the content of each as JSON.
pub fn attach_cards(draft: NoteDraft, json: &Vec<Vec<String>>) -> (r: ParsedNote)
    requires
        draft.cards.len() == draft.note.sections.len(),
        json.len() == draft.cards.len(),
        forall|i: int|
            0 <= i < json.len() ==> (#[trigger] json@[i]).len() == draft.cards@[i].len(),
    ensures
        r.path == draft.note.path,
        r.note_id == draft.note.note_id,
        r.title == draft.note.title,
        r.tags == draft.note.tags,
        r.topic == draft.note.topic,
        r.pinned == draft.note.pinned,
        r.status == draft.note.status,
        r.created_at == draft.note.created_at,
        r.content_hash == draft.note.content_hash,
        r.modified_at == draft.note.modified_at,
        r.diagnostics == draft.note.diagnostics,
        r.sections.len() == draft.note.sections.len(),
        forall|i: int|
            0 <= i < r.sections.len() ==> same_section(
                #[trigger] r.sections@[i],
                draft.note.sections@[i],
            ) && cards_view(r.sections@[i].cards@) == cards_of(
                drafts_view(draft.cards@[i]@),
                texts(json@[i]@),
            ),
{
    let ghost all_sections = draft.note.sections@;
    let ghost all_cards = draft.cards@;
    let note = draft.note;
    let mut rest = note.sections;
    let mut cards = draft.cards;
    let mut sections: Vec<ParsedSection> = Vec::new();
    let mut i: usize = 0;
    assert(all_sections.skip(0) == all_sections);
    assert(all_cards.skip(0) == all_cards);
    while i < json.len()
        invariant
            0 <= i <= json.len(),
            all_sections.len() == json.len(),
            all_cards.len() == json.len(),
            rest@ == all_sections.skip(i as int),
            cards@ == all_cards.skip(i as int),
            sections.len() == i,
            forall|k: int| 0 <= k < json.len() ==> (#[trigger] json@[k]).len() == all_cards[k].len(),
            forall|k: int|
                0 <= k < i ==> same_section(#[trigger] sections@[k], all_sections[k])
                    && cards_view(sections@[k].cards@) == cards_of(
                    drafts_view(all_cards[k]@),
                    texts(json@[k]@),
                ),
        decreases json.len() - i,
    {
        let s = rest.remove(0);
        let drafts = cards.remove(0);
        assert(s == all_sections[i as int]);
        assert(drafts == all_cards[i as int]);
        assert(rest@ == all_sections.skip(i + 1));
        assert(cards@ == all_cards.skip(i + 1));
        assert(json@[i as int].len() == drafts.len());
        let done = complete_cards(drafts, &json[i]);
        sections.push(
            ParsedSection {
                uid: s.uid,
                parent_uid: s.parent_uid,
                heading: s.heading,
                heading_path: s.heading_path,
                level: s.level,
                start_byte: s.start_byte,
                end_byte: s.end_byte,
                start_line: s.start_line,
                position: s.position,
                body: s.body,
                relations: s.relations,
                cards: done,
                actions: s.actions,
            },
        );
        i += 1;
    }
    ParsedNote {
        path: note.path,
        note_id: note.note_id,
        title: note.title,
        tags: note.tags,
        topic: note.topic,
        pinned: note.pinned,
        status: note.status,
        created_at: note.created_at,
        content_hash: note.content_hash,
        modified_at: note.modified_at,
        sections,
        diagnostics: note.diagnostics,
    }
}

// ---------------------------------------------------------------------------
// Laws
// ---------------------------------------------------------------------------

/// A section keeps its uid while its note's id and its own id stay: its heading has
/// no part in it.
pub proof fn an_explicit_id_outlives_its_heading(
    note_id: Seq<char>,
    before: HeadingView,
    after: HeadingView,
)
    requires
        before.id is Some,
        after.id == before.id,
    ensures
        section_uid(note_id, section_id(after)) == section_uid(note_id, section_id(before)),
{
}

/// Moving a file preserves identity: a note that names its id keeps it wherever it lies, and
/// a section that names its own keeps its uid.
pub proof fn a_moved_note_keeps_its_uids(
    front: FrontMatter,
    from: Seq<char>,
    to: Seq<char>,
    heading: HeadingView,
)
    requires
        front.id is Some,
    ensures
        note_id_of(front, to) == note_id_of(front, from),
        section_uid(note_id_of(front, to), section_id(heading)) == section_uid(
            note_id_of(front, from),
            section_id(heading),
        ),
{
}

/// The quizzes of the blocks that can be read and start from `start` up to `end`.
pub open spec fn quizzes_in(blocks: Seq<QuizBlock>, start: int, end: int) -> Seq<QuizDefinition>
    decreases blocks.len(),
{
    if blocks.len() == 0 {
        Seq::empty()
    } else {
        let before = quizzes_in(blocks.drop_last(), start, end);
        match blocks.last().quiz {
            Ok(quiz) => if start <= blocks.last().start < end {
                before.push(quiz)
            } else {
                before
            },
            Err(_) => before,
        }
    }
}

/// The uids of drafts.
pub open spec fn draft_uids(drafts: Seq<DraftView>) -> Seq<Seq<char>> {
    Seq::new(drafts.len(), |i: int| drafts[i].uid)
}

/// The uids of cards.
pub open spec fn uids_of_cards(cards: Seq<CardView>) -> Seq<Seq<char>> {
    Seq::new(cards.len(), |i: int| cards[i].uid)
}

/// The quiz ids that were seen once the quizzes of a section were, and the uids of the
/// section's cards.
spec fn uid_pass(uid: Seq<char>, quizzes: Seq<QuizDefinition>, seen: Seq<Seq<char>>) -> (
    Seq<Seq<char>>,
    Seq<Seq<char>>,
)
    decreases quizzes.len(),
{
    if quizzes.len() == 0 {
        (seen, Seq::empty())
    } else {
        let (before, uids) = uid_pass(uid, quizzes.drop_last(), seen);
        let quiz = quizzes.last();
        if before.contains(quiz.spec_id()) {
            (before, uids)
        } else {
            (
                before.push(quiz.spec_id()),
                uids + (if quiz_errors(quiz).len() == 0 {
                    draft_uids(
                        quiz_cards(uid, quiz, quiz_clips(quiz, None), quiz_variants(quiz)),
                    )
                } else {
                    Seq::empty()
                }),
            )
        }
    }
}

proof fn lemma_uid_pass(
    path: Seq<char>,
    bytes: Seq<u8>,
    uid: Seq<char>,
    inherited: Option<ClipView>,
    blocks: Seq<QuizBlock>,
    start: int,
    end: int,
    seen: Seq<Seq<char>>,
)
    ensures
        ({
            let pass = quiz_pass(path, bytes, uid, inherited, blocks, start, end, seen);
            (pass.seen, draft_uids(pass.cards)) == uid_pass(
                uid,
                quizzes_in(blocks, start, end),
                seen,
            )
        }),
    decreases blocks.len(),
{
    let pass = quiz_pass(path, bytes, uid, inherited, blocks, start, end, seen);
    if blocks.len() == 0 {
        assert(draft_uids(pass.cards) == Seq::<Seq<char>>::empty());
    } else {
        lemma_uid_pass(path, bytes, uid, inherited, blocks.drop_last(), start, end, seen);
        let s = quiz_pass(path, bytes, uid, inherited, blocks.drop_last(), start, end, seen);
        if let Ok(quiz) = blocks.last().quiz {
            if start <= blocks.last().start < end {
                let before = quizzes_in(blocks.drop_last(), start, end);
                assert(before.push(quiz).drop_last() == before);
                if !s.seen.contains(quiz.spec_id()) && quiz_errors(quiz).len() == 0 {
                    let cards = quiz_cards(
                        uid,
                        quiz,
                        quiz_clips(quiz, inherited),
                        quiz_variants(quiz),
                    );
                    let plain = quiz_cards(
                        uid,
                        quiz,
                        quiz_clips(quiz, None),
                        quiz_variants(quiz),
                    );
                    assert(draft_uids(cards) == draft_uids(plain));
                    assert(draft_uids(s.cards + cards) == draft_uids(s.cards) + draft_uids(cards));
                } else {
                    assert(s.cards + Seq::<DraftView>::empty() == s.cards);
                    assert(draft_uids(s.cards) + Seq::<Seq<char>>::empty() == draft_uids(s.cards));
                }
            }
        }
    }
}

/// Whether two lists of quizzes say the same.
pub open spec fn same_quizzes(a: Seq<QuizDefinition>, b: Seq<QuizDefinition>) -> bool {
    a.len() == b.len() && forall|i: int|
        0 <= i < a.len() ==> same_quiz(#[trigger] a[i], #[trigger] b[i])
}

proof fn lemma_uid_pass_same(
    uid: Seq<char>,
    a: Seq<QuizDefinition>,
    b: Seq<QuizDefinition>,
    seen: Seq<Seq<char>>,
)
    requires
        same_quizzes(a, b),
    ensures
        uid_pass(uid, a, seen) == uid_pass(uid, b, seen),
    decreases a.len(),
{
    if a.len() > 0 {
        let last = a.len() - 1;
        assert(same_quiz(a[last], b[last]));
        assert forall|i: int| 0 <= i < last implies same_quiz(
            #[trigger] a.drop_last()[i],
            #[trigger] b.drop_last()[i],
        ) by {
            assert(same_quiz(a[i], b[i]));
        }
        lemma_uid_pass_same(uid, a.drop_last(), b.drop_last(), seen);
        lemma_same_quiz(a[last], b[last], uid, quiz_clips(a[last], None));
        assert(quiz_clips(a[last], None) == quiz_clips(b[last], None));
    }
}

proof fn lemma_note_uids(
    path_a: Seq<char>,
    bytes_a: Seq<u8>,
    headings_a: Seq<HeadingView>,
    a: Seq<ParsedSection>,
    blocks_a: Seq<QuizBlock>,
    path_b: Seq<char>,
    bytes_b: Seq<u8>,
    headings_b: Seq<HeadingView>,
    b: Seq<ParsedSection>,
    blocks_b: Seq<QuizBlock>,
)
    requires
        a.len() == b.len(),
        forall|i: int|
            0 <= i < a.len() ==> (#[trigger] a[i]).uid@ == (#[trigger] b[i]).uid@ && same_quizzes(
                quizzes_in(blocks_a, a[i].start_byte as int, a[i].end_byte as int),
                quizzes_in(blocks_b, b[i].start_byte as int, b[i].end_byte as int),
            ),
    ensures
        ({
            let one = note_pass(path_a, bytes_a, headings_a, a, blocks_a);
            let other = note_pass(path_b, bytes_b, headings_b, b, blocks_b);
            &&& one.seen == other.seen
            &&& one.cards.len() == a.len()
            &&& other.cards.len() == a.len()
            &&& forall|i: int|
                0 <= i < a.len() ==> draft_uids(#[trigger] one.cards[i]) == draft_uids(
                    #[trigger] other.cards[i],
                )
        }),
    decreases a.len(),
{
    if a.len() > 0 {
        let last = a.len() - 1;
        assert(a[last].uid@ == b[last].uid@);
        assert forall|i: int| 0 <= i < last implies (#[trigger] a.drop_last()[i]).uid@ == (
        #[trigger] b.drop_last()[i]).uid@ && same_quizzes(
            quizzes_in(
                blocks_a,
                a.drop_last()[i].start_byte as int,
                a.drop_last()[i].end_byte as int,
            ),
            quizzes_in(
                blocks_b,
                b.drop_last()[i].start_byte as int,
                b.drop_last()[i].end_byte as int,
            ),
        ) by {
            assert(a[i].uid@ == b[i].uid@);
        }
        lemma_note_uids(
            path_a,
            bytes_a,
            headings_a,
            a.drop_last(),
            blocks_a,
            path_b,
            bytes_b,
            headings_b,
            b.drop_last(),
            blocks_b,
        );
        let one = note_pass(path_a, bytes_a, headings_a, a.drop_last(), blocks_a);
        let other = note_pass(path_b, bytes_b, headings_b, b.drop_last(), blocks_b);
        lemma_uid_pass(
            path_a,
            bytes_a,
            a[last].uid@,
            inherited_of(actions_view(a[last].actions@)),
            blocks_a,
            a[last].start_byte as int,
            a[last].end_byte as int,
            one.seen,
        );
        lemma_uid_pass(
            path_b,
            bytes_b,
            b[last].uid@,
            inherited_of(actions_view(b[last].actions@)),
            blocks_b,
            b[last].start_byte as int,
            b[last].end_byte as int,
            other.seen,
        );
        lemma_uid_pass_same(
            a[last].uid@,
            quizzes_in(blocks_a, a[last].start_byte as int, a[last].end_byte as int),
            quizzes_in(blocks_b, b[last].start_byte as int, b[last].end_byte as int),
            one.seen,
        );
    }
}

/// Moving a file or renaming its headings preserves identity: two notes with the same id,
/// whose headings name the same ids in order and whose sections hold the same quizzes,
/// have the same id, the same section uids and the same card uids, wherever they lie and
/// whatever else they say.
pub proof fn the_same_ids_give_the_same_uids(
    a: NoteDraft,
    file_a: NoteFile,
    bytes_a: Seq<u8>,
    offset_a: usize,
    front_a: FrontMatter,
    headings_a: Seq<HeadingView>,
    blocks_a: Seq<QuizBlock>,
    b: NoteDraft,
    file_b: NoteFile,
    bytes_b: Seq<u8>,
    offset_b: usize,
    front_b: FrontMatter,
    headings_b: Seq<HeadingView>,
    blocks_b: Seq<QuizBlock>,
    json_a: Seq<Seq<char>>,
    json_b: Seq<Seq<char>>,
    i: int,
)
    requires
        draft_is(a, file_a, bytes_a, offset_a, front_a, headings_a, blocks_a),
        draft_is(b, file_b, bytes_b, offset_b, front_b, headings_b, blocks_b),
        front_a.id is Some,
        opt_view(front_a.id) == opt_view(front_b.id),
        headings_a.len() == headings_b.len(),
        forall|k: int|
            0 <= k < headings_a.len() ==> (#[trigger] headings_a[k]).id is Some && headings_a[k].id
                == (#[trigger] headings_b[k]).id,
        forall|k: int|
            0 <= k < a.note.sections.len() ==> same_quizzes(
                quizzes_in(
                    blocks_a,
                    (#[trigger] a.note.sections@[k]).start_byte as int,
                    a.note.sections@[k].end_byte as int,
                ),
                quizzes_in(
                    blocks_b,
                    (#[trigger] b.note.sections@[k]).start_byte as int,
                    b.note.sections@[k].end_byte as int,
                ),
            ),
        0 <= i < a.note.sections.len(),
    ensures
        a.note.note_id@ == b.note.note_id@,
        a.note.sections.len() == b.note.sections.len(),
        a.note.sections@[i].uid@ == b.note.sections@[i].uid@,
        draft_uids(drafts_view(a.cards@[i]@)) == draft_uids(drafts_view(b.cards@[i]@)),
        uids_of_cards(cards_of(drafts_view(a.cards@[i]@), json_a)) == uids_of_cards(
            cards_of(drafts_view(b.cards@[i]@), json_b),
        ),
{
    let id = note_id_of(front_a, file_a.path@);
    let all_a = note_headings(
        headings_a,
        opt_view(front_a.title),
        id,
        bytes_a,
        offset_a as int,
    );
    let all_b = note_headings(
        headings_b,
        opt_view(front_b.title),
        id,
        bytes_b,
        offset_b as int,
    );
    let sa = a.note.sections@;
    let sb = b.note.sections@;
    assert(note_id_of(front_b, file_b.path@) == id);
    assert forall|k: int| 0 <= k < sa.len() implies (#[trigger] sa[k]).uid@ == (
    #[trigger] sb[k]).uid@ by {
        if headings_a.len() > 0 {
            assert(headings_a[k].id == headings_b[k].id);
        }
        assert(section_id(all_a[k]) == section_id(all_b[k]));
        assert(section_is(sa[k], all_a, bytes_a, id, file_a.directory@, opt_view(file_a.home), k));
        assert(section_is(sb[k], all_b, bytes_b, id, file_b.directory@, opt_view(file_b.home), k));
    }
    lemma_note_uids(
        file_a.path@,
        bytes_a,
        all_a,
        sa,
        blocks_a,
        file_b.path@,
        bytes_b,
        all_b,
        sb,
        blocks_b,
    );
    let one = note_pass(file_a.path@, bytes_a, all_a, sa, blocks_a).cards;
    let other = note_pass(file_b.path@, bytes_b, all_b, sb, blocks_b).cards;
    assert(one[i] == drafts_view(a.cards@[i]@)) by {
        assert(draft_lists(a.cards@)[i] == drafts_view(a.cards@[i]@));
    }
    assert(other[i] == drafts_view(b.cards@[i]@)) by {
        assert(draft_lists(b.cards@)[i] == drafts_view(b.cards@[i]@));
    }
    let ca = uids_of_cards(cards_of(one[i], json_a));
    let cb = uids_of_cards(cards_of(other[i], json_b));
    assert(ca == draft_uids(one[i]));
    assert(cb == draft_uids(other[i]));
}

proof fn lemma_no_duplicates(path: Seq<char>, headings: Seq<HeadingView>)
    requires
        duplicate_diagnostics(path, headings).len() == 0,
    ensures
        section_ids(headings).no_duplicates(),
    decreases headings.len(),
{
    if headings.len() > 0 {
        let rest = headings.drop_last();
        lemma_no_duplicates(path, rest);
        let ids = section_ids(headings);
        let front = section_ids(rest);
        assert forall|i: int, j: int| 0 <= i < ids.len() && 0 <= j < ids.len() && i != j implies
            ids[i] != ids[j] by {
            assert forall|k: int| 0 <= k < front.len() implies front[k] == ids[k] by {}
            if i < front.len() && j < front.len() {
                assert(front[i] != front[j]);
            } else if i < front.len() {
                assert(front.contains(front[i]));
            } else {
                assert(front.contains(front[j]));
            }
        }
    }
}

/// Two sections of a note have the same uid only where a diagnostic says so.
pub proof fn sections_without_a_diagnostic_have_different_uids(
    path: Seq<char>,
    note_id: Seq<char>,
    headings: Seq<HeadingView>,
    i: int,
    j: int,
)
    requires
        duplicate_diagnostics(path, headings).len() == 0,
        0 <= i < j < headings.len(),
    ensures
        section_uid(note_id, section_id(headings[i])) != section_uid(
            note_id,
            section_id(headings[j]),
        ),
{
    lemma_no_duplicates(path, headings);
    let ids = section_ids(headings);
    assert(ids[i] != ids[j]);
    let front = note_id + "#"@;
    let a = section_uid(note_id, ids[i]);
    let b = section_uid(note_id, ids[j]);
    if a == b {
        assert(ids[i] == a.skip(front.len() as int));
        assert(ids[j] == b.skip(front.len() as int));
    }
}

proof fn lemma_parent_before(headings: Seq<HeadingView>, level: u32, k: int)
    requires
        0 <= k <= headings.len(),
    ensures
        match parent_before(headings, level, k) {
            Some(p) => 0 <= p < k && headings[p].level < level && forall|j: int|
                p < j < k ==> (#[trigger] headings[j]).level >= level,
            None => forall|j: int| 0 <= j < k ==> (#[trigger] headings[j]).level >= level,
        },
    decreases k,
{
    if k > 0 && headings[k - 1].level >= level {
        lemma_parent_before(headings, level, k - 1);
    }
}

/// The parent of a section is the nearest section before it of a lower level; a
/// section without one has none before it.
pub proof fn the_parent_is_the_nearest_lower_level(headings: Seq<HeadingView>, i: int)
    requires
        0 <= i < headings.len(),
    ensures
        match parent_of(headings, i) {
            Some(p) => 0 <= p < i && headings[p].level < headings[i].level && forall|j: int|
                p < j < i ==> (#[trigger] headings[j]).level >= headings[i].level,
            None => forall|j: int|
                0 <= j < i ==> (#[trigger] headings[j]).level >= headings[i].level,
        },
{
    lemma_parent_before(headings, headings[i].level, i);
}

/// The path of a section is the path of its parent, the separator and its heading.
pub proof fn the_path_goes_through_the_parent(headings: Seq<HeadingView>, i: int)
    requires
        0 <= i < headings.len(),
    ensures
        match parent_of(headings, i) {
            Some(p) => heading_path_of(headings, i) == heading_path_of(headings, p) + " > "@
                + headings[i].heading,
            None => heading_path_of(headings, i) == headings[i].heading,
        },
{
    the_parent_is_the_nearest_lower_level(headings, i);
}

/// The bytes of the sections from `i` on, one after the other.
pub open spec fn bodies_from(headings: Seq<HeadingView>, bytes: Seq<u8>, i: int) -> Seq<u8>
    decreases headings.len() - i,
{
    if i >= headings.len() {
        Seq::empty()
    } else {
        bytes.subrange(headings[i].start, section_end(headings, bytes, i)) + bodies_from(
            headings,
            bytes,
            i + 1,
        )
    }
}

/// The bodies of the sections, one after the other, are the note from the first of
/// them on: nothing is lost between two sections, and nothing is in both.
pub proof fn sections_make_up_the_note(headings: Seq<HeadingView>, bytes: Seq<u8>, i: int)
    requires
        placed(headings, bytes),
        0 <= i < headings.len(),
    ensures
        bodies_from(headings, bytes, i) == bytes.skip(headings[i].start),
    decreases headings.len() - i,
{
    if i + 1 < headings.len() {
        sections_make_up_the_note(headings, bytes, i + 1);
        let mid = headings[i + 1].start;
        assert(headings[i].start <= mid);
        assert(bytes.subrange(headings[i].start, mid) + bytes.skip(mid) == bytes.skip(
            headings[i].start,
        ));
    } else {
        assert(bodies_from(headings, bytes, i + 1) == Seq::<u8>::empty());
        assert(bytes.subrange(headings[i].start, bytes.len() as int) == bytes.skip(
            headings[i].start,
        ));
    }
}

/// Whether events say these texts and nothing of headings or blocks: each event is a text or
/// inline code that reads as given, or one that has no text.
pub open spec fn say(events: Seq<EventView>, said: Seq<Seq<char>>) -> bool {
    &&& events.len() == said.len()
    &&& forall|k: int|
        0 <= k < events.len() ==> {
            ||| #[trigger] events[k] == EventView::Text(said[k])
            ||| events[k] == EventView::Code(said[k])
            ||| events[k] == EventView::Other && said[k].len() == 0
        }
}

proof fn lemma_say_less(events: Seq<EventView>, said: Seq<Seq<char>>)
    requires
        say(events, said),
        events.len() > 0,
    ensures
        say(events.drop_last(), said.drop_last()),
{
    let less = events.drop_last();
    assert forall|k: int| 0 <= k < less.len() implies {
        ||| #[trigger] less[k] == EventView::Text(said.drop_last()[k])
        ||| less[k] == EventView::Code(said.drop_last()[k])
        ||| less[k] == EventView::Other && said.drop_last()[k].len() == 0
    } by {
        assert(less[k] == events[k]);
        assert(said.drop_last()[k] == said[k]);
    }
}

proof fn lemma_join_plain(parts: Seq<Seq<char>>)
    requires
        parts.len() > 0,
    ensures
        join(parts, Seq::empty()) == join(parts.drop_last(), Seq::empty()) + parts.last(),
{
    if parts.len() == 1 {
        assert(join(parts.drop_last(), Seq::empty()) == Seq::<char>::empty());
        assert(Seq::<char>::empty() + parts.last() == parts[0]);
    } else {
        let front = join(parts.drop_last(), Seq::empty());
        assert(front + Seq::<char>::empty() == front);
    }
}

proof fn lemma_scan_inner(
    before: Seq<EventView>,
    inner: Seq<EventView>,
    said: Seq<Seq<char>>,
    offset: int,
)
    requires
        say(inner, said),
        scan_headings(before, offset).open is Some,
    ensures
        ({
            let s = scan_headings(before, offset);
            let t = scan_headings(before + inner, offset);
            &&& t.done == s.done
            &&& t.open == Some(
                RawHeading {
                    text: s.open->0.text + join(said, Seq::empty()),
                    ..s.open->0
                },
            )
        }),
    decreases inner.len(),
{
    if inner.len() == 0 {
        assert(before + inner == before);
        let open = scan_headings(before, offset).open->0;
        assert(join(said, Seq::empty()) == Seq::<char>::empty());
        assert(open.text + Seq::<char>::empty() == open.text);
    } else {
        let all = before + inner;
        assert(all.drop_last() == before + inner.drop_last());
        assert(all.last() == inner.last());
        lemma_say_less(inner, said);
        lemma_scan_inner(before, inner.drop_last(), said.drop_last(), offset);
        lemma_join_plain(said);
        let n = inner.len() - 1;
        assert(inner[n] == inner.last() && said[n] == said.last());
        let text = scan_headings(before, offset).open->0.text;
        let front = join(said.drop_last(), Seq::empty());
        assert(text + front + said.last() == text + (front + said.last()));
        if said.last().len() == 0 {
            assert(front + said.last() == front);
        }
    }
}

proof fn lemma_scan_after(before: Seq<EventView>, after: Seq<EventView>, offset: int)
    requires
        scan_headings(before, offset).open is None,
    ensures
        scan_headings(before + after, offset).open == scan_headings(after, offset).open,
        scan_headings(before + after, offset).done == scan_headings(before, offset).done
            + scan_headings(after, offset).done,
    decreases after.len(),
{
    let s = scan_headings(before, offset);
    if after.len() == 0 {
        assert(before + after == before);
        assert(s.done + Seq::<RawHeading>::empty() == s.done);
    } else {
        let all = before + after;
        assert(all.drop_last() == before + after.drop_last());
        assert(all.last() == after.last());
        lemma_scan_after(before, after.drop_last(), offset);
        let t = scan_headings(after.drop_last(), offset);
        if after.last() == EventView::HeadingEnd && t.open is Some {
            assert(s.done + t.done.push(t.open->0) == (s.done + t.done).push(t.open->0));
        }
    }
}

/// A heading is reported for every start and end, where they stand in the note, and reads as
/// everything that is said between them, inline code as well as text. Its level and its
/// place are those of its start, and an attribute names its id before a `{#id}` in its text
/// does.
pub proof fn a_heading_reads_as_what_is_said_between_its_ends(
    before: Seq<EventView>,
    level: u32,
    id: Option<Seq<char>>,
    start: usize,
    inner: Seq<EventView>,
    said: Seq<Seq<char>>,
    after: Seq<EventView>,
    bytes: Seq<u8>,
    offset: int,
)
    requires
        say(inner, said),
    ensures
        ({
            let whole = join(said, Seq::empty());
            let found = found_or_none(regex_matches(heading_pattern(), whole));
            let events = before.push(EventView::HeadingStart { level, id, start }) + inner.push(
                EventView::HeadingEnd,
            ) + after;
            let all = headings_of(events, bytes, offset);
            let first = headings_of(before, bytes, offset);
            let rest = headings_of(after, bytes, offset);
            let here = all[first.len() as int];
            &&& all == first.push(here) + rest
            &&& here.level == level
            &&& here.start == offset + start
            &&& here.line == line_of(bytes, offset + start)
            &&& here.heading == heading_of(whole, found).0
            &&& here.id == match id {
                Some(given) => Some(given),
                None => heading_of(whole, found).1,
            }
        }),
{
    let opening = before.push(EventView::HeadingStart { level, id, start });
    let open = scan_headings(opening, offset);
    assert(opening.drop_last() == before);
    let whole = join(said, Seq::empty());
    lemma_scan_inner(opening, inner, said, offset);
    assert(Seq::<char>::empty() + whole == whole);
    let closed = opening + inner.push(EventView::HeadingEnd);
    assert(closed.drop_last() == opening + inner);
    assert(closed.last() == EventView::HeadingEnd);
    lemma_scan_after(closed, after, offset);
    let raw = RawHeading { level, start: offset + start, text: whole, id };
    let first = scan_headings(before, offset).done;
    let rest = scan_headings(after, offset).done;
    assert(scan_headings(closed, offset).done == first.push(raw));
    let events = closed + after;
    let all = headings_of(events, bytes, offset);
    assert(scan_headings(events, offset).done == first.push(raw) + rest);
    assert(all[first.len() as int] == heading_view(raw, bytes));
    assert(all =~= headings_of(before, bytes, offset).push(heading_view(raw, bytes))
        + headings_of(after, bytes, offset));
}

/// Where no heading starts, no heading is reported.
pub proof fn no_heading_without_a_start(events: Seq<EventView>, bytes: Seq<u8>, offset: int)
    requires
        forall|k: int| 0 <= k < events.len() ==> !(#[trigger] events[k] is HeadingStart),
    ensures
        headings_of(events, bytes, offset).len() == 0,
{
    lemma_no_start(events, offset);
}

proof fn lemma_no_start(events: Seq<EventView>, offset: int)
    requires
        forall|k: int| 0 <= k < events.len() ==> !(#[trigger] events[k] is HeadingStart),
    ensures
        scan_headings(events, offset).open is None,
        scan_headings(events, offset).done.len() == 0,
    decreases events.len(),
{
    if events.len() > 0 {
        let less = events.drop_last();
        assert forall|k: int| 0 <= k < less.len() implies !(#[trigger] less[k] is HeadingStart) by {
            assert(less[k] == events[k]);
        }
        lemma_no_start(less, offset);
        assert(!(events[events.len() - 1] is HeadingStart));
    }
}

/// A text that ends in `{#id}` is a heading and its id; any other is a heading as it stands,
/// without the white space around it.
pub proof fn a_heading_is_parted_from_its_id(raw: Seq<char>, groups: Seq<Option<Seq<char>>>)
    ensures
        heading_of(raw, Seq::empty()) == (trimmed(raw), None::<Seq<char>>),
        groups.len() == 3 && groups[1] is Some && groups[2] is Some ==> heading_of(
            raw,
            seq![groups],
        ) == (trimmed(groups[1]->0), groups[2]),
{
}

/// The uid of a section is the note's id, `#`, and the id that the section gives. One that
/// gives none is named by its heading: by the letters and digits of the heading in lower
/// case, with a hyphen between runs of them.
pub proof fn a_uid_is_the_note_and_the_section(note_id: Seq<char>, h: HeadingView)
    ensures
        h.id is Some ==> section_uid(note_id, section_id(h)) == note_id.push('#') + h.id->0,
        h.id is None ==> {
            let uid = section_uid(note_id, section_id(h));
            let slug = uid.skip(note_id.len() + 1int);
            &&& uid == note_id.push('#') + slug
            &&& crate::text::is_slug(slug)
            &&& slug.filter(|c: char| c != '-') == crate::text::slug_letters(h.heading)
        },
{
    reveal_strlit("#");
    assert("#"@ == seq!['#']);
    assert(note_id + seq!['#'] == note_id.push('#'));
    if h.id is None {
        let uid = section_uid(note_id, section_id(h));
        crate::text::a_slug_holds_the_letters_and_digits(h.heading);
        assert(uid.skip(note_id.len() + 1int) == slug_of(h.heading));
    }
}

/// A note without headings is one section, its root, that takes the whole Markdown and the
/// title of the note; where there are headings they are the sections.
pub proof fn a_note_without_headings_is_its_root(
    headings: Seq<HeadingView>,
    title: Option<Seq<char>>,
    note_id: Seq<char>,
    bytes: Seq<u8>,
    offset: int,
)
    ensures
        headings.len() > 0 ==> note_headings(headings, title, note_id, bytes, offset) == headings,
        headings.len() == 0 ==> {
            let all = note_headings(headings, title, note_id, bytes, offset);
            &&& all.len() == 1
            &&& all[0].id == Some("root"@)
            &&& all[0].level == 1
            &&& all[0].start == offset
            &&& title is Some ==> all[0].heading == title->0
            &&& title is None ==> all[0].heading == note_id
            &&& section_end(all, bytes, 0) == bytes.len()
        },
{
}

proof fn lemma_quiz_inner(
    before: Seq<EventView>,
    inner: Seq<EventView>,
    said: Seq<Seq<char>>,
    offset: int,
)
    requires
        inner.len() == said.len(),
        forall|k: int| 0 <= k < inner.len() ==> #[trigger] inner[k] == EventView::Text(said[k]),
        scan_quizzes(before, offset).open is Some,
    ensures
        ({
            let s = scan_quizzes(before, offset);
            let t = scan_quizzes(before + inner, offset);
            &&& t.done == s.done
            &&& t.open == match s.open {
                Some((start, yaml)) => Some((start, yaml + join(said, Seq::empty()))),
                None => None,
            }
        }),
    decreases inner.len(),
{
    let open = scan_quizzes(before, offset).open->0;
    if inner.len() == 0 {
        assert(before + inner == before);
        assert(join(said, Seq::empty()) == Seq::<char>::empty());
        assert(open.1 + Seq::<char>::empty() == open.1);
    } else {
        let all = before + inner;
        let less = inner.drop_last();
        assert(all.drop_last() == before + less);
        assert(all.last() == inner.last());
        assert forall|k: int| 0 <= k < less.len() implies #[trigger] less[k] == EventView::Text(
            said.drop_last()[k],
        ) by {
            assert(less[k] == inner[k]);
        }
        lemma_quiz_inner(before, less, said.drop_last(), offset);
        lemma_join_plain(said);
        assert(inner[inner.len() - 1] == EventView::Text(said.last()));
        let front = join(said.drop_last(), Seq::empty());
        assert(open.1 + front + said.last() == open.1 + (front + said.last()));
    }
}

proof fn lemma_quiz_after(before: Seq<EventView>, after: Seq<EventView>, offset: int)
    requires
        scan_quizzes(before, offset).open is None,
    ensures
        scan_quizzes(before + after, offset).open == scan_quizzes(after, offset).open,
        scan_quizzes(before + after, offset).done == scan_quizzes(before, offset).done
            + scan_quizzes(after, offset).done,
    decreases after.len(),
{
    let s = scan_quizzes(before, offset);
    if after.len() == 0 {
        assert(before + after == before);
        assert(s.done + Seq::<(int, Seq<char>)>::empty() == s.done);
    } else {
        let all = before + after;
        assert(all.drop_last() == before + after.drop_last());
        assert(all.last() == after.last());
        lemma_quiz_after(before, after.drop_last(), offset);
        let t = scan_quizzes(after.drop_last(), offset);
        if after.last() == EventView::CodeEnd && t.open is Some {
            assert(s.done + t.done.push(t.open->0) == (s.done + t.done).push(t.open->0));
        }
    }
}

/// A fenced block is a quiz block exactly when the first word behind its fence is `quiz`. It
/// is reported where it starts, with everything that is said in it, and nothing else is.
pub proof fn a_quiz_block_holds_what_is_fenced(
    before: Seq<EventView>,
    info: Seq<char>,
    start: usize,
    inner: Seq<EventView>,
    said: Seq<Seq<char>>,
    after: Seq<EventView>,
    offset: int,
)
    requires
        scan_quizzes(before, offset).open is None,
        inner.len() == said.len(),
        forall|k: int| 0 <= k < inner.len() ==> #[trigger] inner[k] == EventView::Text(said[k]),
    ensures
        ({
            let events = before.push(EventView::FenceStart { info, start }) + inner.push(
                EventView::CodeEnd,
            ) + after;
            let quiz = words(info).len() > 0 && words(info)[0] == "quiz"@;
            scan_quizzes(events, offset).done == scan_quizzes(before, offset).done + (if quiz {
                seq![(offset + start, join(said, Seq::empty()))]
            } else {
                Seq::empty()
            }) + scan_quizzes(after, offset).done
        }),
{
    let opening = before.push(EventView::FenceStart { info, start });
    assert(opening.drop_last() == before);
    let closed = opening + inner.push(EventView::CodeEnd);
    assert(closed.drop_last() == opening + inner);
    assert(closed.last() == EventView::CodeEnd);
    let first = scan_quizzes(before, offset).done;
    if is_quiz(info) {
        lemma_quiz_inner(opening, inner, said, offset);
        let whole = join(said, Seq::empty());
        assert(Seq::<char>::empty() + whole == whole);
        assert(scan_quizzes(closed, offset).done == first + seq![(offset + start, whole)]);
    } else {
        lemma_quiz_after(opening, inner, offset);
        lemma_text_alone(inner, said, offset);
        assert(first + Seq::<(int, Seq<char>)>::empty() == first);
        assert(scan_quizzes(closed, offset).done == first);
    }
    lemma_quiz_after(closed, after, offset);
}

proof fn lemma_text_alone(inner: Seq<EventView>, said: Seq<Seq<char>>, offset: int)
    requires
        inner.len() == said.len(),
        forall|k: int| 0 <= k < inner.len() ==> #[trigger] inner[k] == EventView::Text(said[k]),
    ensures
        scan_quizzes(inner, offset).open is None,
        scan_quizzes(inner, offset).done.len() == 0,
    decreases inner.len(),
{
    if inner.len() > 0 {
        let less = inner.drop_last();
        assert forall|k: int| 0 <= k < less.len() implies #[trigger] less[k] == EventView::Text(
            said.drop_last()[k],
        ) by {
            assert(less[k] == inner[k]);
        }
        lemma_text_alone(less, said.drop_last(), offset);
        assert(inner[inner.len() - 1] == EventView::Text(said.last()));
    }
}

/// Whether a block is a quiz that can be read, starts from `start` up to `end`, and has an
/// id.
pub open spec fn asks(block: QuizBlock, start: int, end: int, id: Seq<char>) -> bool {
    &&& block.quiz is Ok
    &&& start <= block.start < end
    &&& block.quiz->Ok_0.spec_id() == id
}

proof fn lemma_pass_seen(
    path: Seq<char>,
    bytes: Seq<u8>,
    uid: Seq<char>,
    inherited: Option<ClipView>,
    blocks: Seq<QuizBlock>,
    start: int,
    end: int,
    seen: Seq<Seq<char>>,
    id: Seq<char>,
)
    ensures
        quiz_pass(path, bytes, uid, inherited, blocks, start, end, seen).seen.contains(id)
            <==> seen.contains(id) || exists|k: int|
            0 <= k < blocks.len() && asks(#[trigger] blocks[k], start, end, id),
    decreases blocks.len(),
{
    if blocks.len() > 0 {
        let rest = blocks.drop_last();
        lemma_pass_seen(path, bytes, uid, inherited, rest, start, end, seen, id);
        let before = quiz_pass(path, bytes, uid, inherited, rest, start, end, seen).seen;
        let all = quiz_pass(path, bytes, uid, inherited, blocks, start, end, seen).seen;
        let last = blocks.len() - 1;
        if exists|k: int| 0 <= k < rest.len() && asks(#[trigger] rest[k], start, end, id) {
            let k = choose|k: int| 0 <= k < rest.len() && asks(#[trigger] rest[k], start, end, id);
            assert(asks(blocks[k], start, end, id));
        }
        if exists|k: int| 0 <= k < blocks.len() && asks(#[trigger] blocks[k], start, end, id) {
            let k = choose|k: int|
                0 <= k < blocks.len() && asks(#[trigger] blocks[k], start, end, id);
            if k < last {
                assert(asks(rest[k], start, end, id));
            }
        }
        if before.contains(id) {
            let k = choose|k: int| 0 <= k < before.len() && before[k] == id;
            assert(all[k] == id);
        }
        if asks(blocks[last], start, end, id) && !before.contains(id) {
            assert(all[before.len() as int] == id);
        }
        if all.contains(id) && !before.contains(id) {
            let k = choose|k: int| 0 <= k < all.len() && all[k] == id;
            if k < before.len() {
                assert(before[k] == id);
            }
            assert(asks(blocks[last], start, end, id));
        }
    }
}

/// A quiz makes its cards in the section in which it starts, where it is sound and the first
/// in the note with its id. A second one with the same id makes none and is reported, and so
/// is everything that is wrong with one that is not sound.
pub proof fn a_quiz_makes_its_cards_once(
    path: Seq<char>,
    bytes: Seq<u8>,
    uid: Seq<char>,
    inherited: Option<ClipView>,
    blocks: Seq<QuizBlock>,
    block: QuizBlock,
    start: int,
    end: int,
    seen: Seq<Seq<char>>,
)
    requires
        block.quiz is Ok,
    ensures
        ({
            let quiz = block.quiz->Ok_0;
            let id = quiz.spec_id();
            let before = quiz_pass(path, bytes, uid, inherited, blocks, start, end, seen);
            let after = quiz_pass(
                path,
                bytes,
                uid,
                inherited,
                blocks.push(block),
                start,
                end,
                seen,
            );
            let here = start <= block.start < end;
            let again = seen.contains(id) || exists|k: int|
                0 <= k < blocks.len() && asks(#[trigger] blocks[k], start, end, id);
            let errors = quiz_errors(quiz);
            &&& here && !again && errors.len() == 0 ==> after.cards == before.cards + quiz_cards(
                uid,
                quiz,
                quiz_clips(quiz, inherited),
                quiz_variants(quiz),
            ) && after.diagnostics == before.diagnostics
            &&& here && !again && errors.len() > 0 ==> after.cards == before.cards
                && after.diagnostics.len() == before.diagnostics.len() + errors.len()
            &&& here && again ==> after.cards == before.cards && after.diagnostics.len()
                == before.diagnostics.len() + 1 && after.diagnostics.last().message
                == "duplicate quiz ID `"@ + id + "` in note"@
            &&& here && !again ==> forall|k: int|
                0 <= k < errors.len() ==> (#[trigger] after.diagnostics[before.diagnostics.len()
                    + k]).message == "quiz `"@ + id + "`: "@ + errors[k]
            &&& !here ==> after == before
            &&& forall|k: int|
                0 <= k < before.diagnostics.len() ==> #[trigger] after.diagnostics[k]
                    == before.diagnostics[k]
            &&& forall|k: int|
                before.diagnostics.len() <= k < after.diagnostics.len() ==> (
                #[trigger] after.diagnostics[k]).path == path && after.diagnostics[k].line
                    == line_of(bytes, block.start as int) as usize
        }),
{
    let quiz = block.quiz->Ok_0;
    let id = quiz.spec_id();
    let longer = blocks.push(block);
    assert(longer.drop_last() == blocks);
    assert(longer.last() == block);
    lemma_pass_seen(path, bytes, uid, inherited, blocks, start, end, seen, id);
    let before = quiz_pass(path, bytes, uid, inherited, blocks, start, end, seen);
    assert(before.cards + Seq::<DraftView>::empty() == before.cards);
    let line = line_of(bytes, block.start as int) as usize;
    assert(quiz_errors(quiz).len() == 0 ==> before.diagnostics + quiz_diagnostics(
        path,
        line,
        id,
        quiz_errors(quiz),
    ) == before.diagnostics);
}

/// The cards of a section inherit its first video, from its moment on, and nothing where it
/// has none.
pub proof fn the_first_video_is_inherited(actions: Seq<ActionView>, i: int)
    requires
        0 <= i <= actions.len(),
        forall|j: int| 0 <= j < i ==> (#[trigger] actions[j]).kind != "video"@,
        i < actions.len() ==> actions[i].kind == "video"@,
    ensures
        i == actions.len() ==> inherited_of(actions) is None,
        i < actions.len() ==> {
            let clip = inherited_of(actions)->0;
            &&& inherited_of(actions) is Some
            &&& clip.url == actions[i].target
            &&& clip.video_id == youtube_id_of(actions[i].target)
            &&& actions[i].timestamp_seconds is Some ==> clip.start
                == actions[i].timestamp_seconds->0
            &&& actions[i].timestamp_seconds is None ==> clip.start == 0
            &&& clip.end is None && clip.label is None
        },
    decreases actions.len(),
{
    if i > 0 {
        let rest = actions.drop_first();
        assert(actions[0].kind != "video"@);
        assert forall|j: int| 0 <= j < i - 1 implies (#[trigger] rest[j]).kind != "video"@ by {
            assert(rest[j] == actions[j + 1]);
        }
        the_first_video_is_inherited(rest, i - 1);
    }
}

/// A section whose id an earlier one has is reported, at its line, and no other is: there are
/// as many reports as sections that repeat an id.
pub proof fn a_repeated_id_is_reported(
    path: Seq<char>,
    headings: Seq<HeadingView>,
    h: HeadingView,
)
    ensures
        ({
            let before = duplicate_diagnostics(path, headings);
            let after = duplicate_diagnostics(path, headings.push(h));
            let again = exists|i: int|
                0 <= i < headings.len() && section_id(#[trigger] headings[i]) == section_id(h);
            &&& !again ==> after == before
            &&& again ==> after.len() == before.len() + 1 && after.drop_last() == before
                && after.last().path == path && after.last().line == h.line as usize
                && after.last().message == "duplicate section ID `"@ + section_id(h) + "`"@
        }),
        duplicate_diagnostics(path, Seq::empty()).len() == 0,
{
    let longer = headings.push(h);
    assert(longer.drop_last() == headings);
    let ids = section_ids(headings);
    if ids.contains(section_id(h)) {
        let i = choose|i: int| 0 <= i < ids.len() && ids[i] == section_id(h);
        assert(section_id(headings[i]) == section_id(h));
        let before = duplicate_diagnostics(path, headings);
        let after = duplicate_diagnostics(path, longer);
        assert(after.drop_last() == before);
    } else {
        assert forall|i: int| 0 <= i < headings.len() implies section_id(#[trigger] headings[i])
            != section_id(h) by {
            assert(ids[i] == section_id(headings[i]));
            assert(ids.contains(ids[i]));
        }
    }
}

/// A quiz block that cannot be read is reported, at its line and with the reason, and no other
/// is.
pub proof fn an_unread_block_is_reported(
    path: Seq<char>,
    bytes: Seq<u8>,
    blocks: Seq<QuizBlock>,
    block: QuizBlock,
)
    ensures
        ({
            let before = unread_diagnostics(path, bytes, blocks);
            let after = unread_diagnostics(path, bytes, blocks.push(block));
            &&& block.quiz is Ok ==> after == before
            &&& block.quiz is Err ==> {
                &&& after.len() == before.len() + 1 && after.drop_last() == before
                &&& after.last().path == path
                &&& after.last().line == line_of(bytes, block.start as int) as usize
                &&& after.last().message == "invalid quiz block: "@ + block.quiz->Err_0@
            }
        }),
        unread_diagnostics(path, bytes, Seq::empty()).len() == 0,
{
    let longer = blocks.push(block);
    assert(longer.drop_last() == blocks);
    if block.quiz is Err {
        assert(unread_diagnostics(path, bytes, longer).drop_last() == unread_diagnostics(
            path,
            bytes,
            blocks,
        ));
    }
}

proof fn lemma_newlines_add(a: Seq<u8>, b: Seq<u8>)
    ensures
        newlines(a + b) == newlines(a) + newlines(b),
    decreases b.len(),
{
    if b.len() == 0 {
        assert(a + b == a);
    } else {
        assert((a + b).drop_last() == a + b.drop_last());
        lemma_newlines_add(a, b.drop_last());
    }
}

/// Lines are counted from one, and a line feed ends a line: of two places in a text the later
/// is as many lines further on as line feeds stand between them.
pub proof fn lines_are_counted_by_line_feeds(before: Seq<u8>, between: Seq<u8>, after: Seq<u8>)
    ensures
        ({
            let bytes = before + between + after;
            let from = before.len() as int;
            let to = from + between.len();
            &&& line_of(bytes, 0) == 1
            &&& (forall|i: int| 0 <= i < between.len() ==> #[trigger] between[i] != 10)
                ==> line_of(bytes, to) == line_of(bytes, from)
            &&& between.len() > 0 && between.last() == 10 && (forall|i: int|
                0 <= i < between.len() - 1 ==> #[trigger] between[i] != 10) ==> line_of(bytes, to)
                == line_of(bytes, from) + 1
        }),
{
    let bytes = before + between + after;
    let from = before.len() as int;
    let to = from + between.len();
    assert(bytes.take(0) == Seq::<u8>::empty());
    assert(bytes.take(from) == before);
    assert(bytes.take(to) == before + between);
    lemma_newlines_add(before, between);
    if between.len() > 0 && forall|i: int|
        0 <= i < between.len() - 1 ==> #[trigger] between[i] != 10 {
        let front = between.drop_last();
        assert forall|i: int| 0 <= i < front.len() implies #[trigger] front[i] != 10 by {
            assert(front[i] == between[i]);
        }
        lemma_no_newlines(front);
    }
    if forall|i: int| 0 <= i < between.len() ==> #[trigger] between[i] != 10 {
        lemma_no_newlines(between);
    }
}

proof fn lemma_no_newlines(bytes: Seq<u8>)
    requires
        forall|i: int| 0 <= i < bytes.len() ==> #[trigger] bytes[i] != 10,
    ensures
        newlines(bytes) == 0,
    decreases bytes.len(),
{
    if bytes.len() > 0 {
        let less = bytes.drop_last();
        assert forall|i: int| 0 <= i < less.len() implies #[trigger] less[i] != 10 by {
            assert(less[i] == bytes[i]);
        }
        lemma_no_newlines(less);
        assert(bytes[bytes.len() - 1] != 10);
    }
}

/// A draft keeps what the front matter and the file say of the note: a title that is given
/// there counts before the first heading, and nothing is lost or made up.
pub proof fn a_draft_keeps_what_the_note_says(
    r: NoteDraft,
    file: NoteFile,
    bytes: Seq<u8>,
    offset: usize,
    front: FrontMatter,
    headings: Seq<HeadingView>,
    blocks: Seq<QuizBlock>,
)
    requires
        draft_is(r, file, bytes, offset, front, headings, blocks),
    ensures
        front.id is Some ==> r.note.note_id@ == front.id->0@,
        front.title is Some ==> r.note.title@ == front.title->0@,
        front.title is None && headings.len() > 0 ==> r.note.title@ == headings[0].heading,
        r.note.path == file.path,
        r.note.tags == front.tags,
        r.note.topic == front.topic,
        r.note.pinned == front.pinned,
        r.note.status == front.status,
        r.note.created_at == file.created_at,
        r.note.modified_at == file.modified_at,
        r.note.content_hash@ == blake3_hex(bytes),
        headings.len() > 0 ==> r.note.sections.len() == headings.len(),
        headings.len() == 0 ==> r.note.sections.len() == 1,
        r.cards.len() == r.note.sections.len(),
{
    let id = r.note.note_id@;
    let all = note_headings(headings, opt_view(front.title), id, bytes, offset as int);
    let pass = note_pass(file.path@, bytes, all, r.note.sections@, blocks);
    lemma_pass_len(file.path@, bytes, all, r.note.sections@, blocks);
    assert(draft_lists(r.cards@).len() == pass.cards.len());
}

proof fn lemma_pass_len(
    path: Seq<char>,
    bytes: Seq<u8>,
    headings: Seq<HeadingView>,
    sections: Seq<ParsedSection>,
    blocks: Seq<QuizBlock>,
)
    ensures
        note_pass(path, bytes, headings, sections, blocks).cards.len() == sections.len(),
    decreases sections.len(),
{
    if sections.len() > 0 {
        lemma_pass_len(path, bytes, headings, sections.drop_last(), blocks);
    }
}

/// A section runs from its heading to the next one, or to the end of the note, and its body
/// is that part of the note. It stands where its heading stands, under the section that holds
/// it.
pub proof fn a_section_is_the_note_under_its_heading(
    s: ParsedSection,
    headings: Seq<HeadingView>,
    bytes: Seq<u8>,
    note_id: Seq<char>,
    note_dir: Seq<char>,
    home: Option<Seq<char>>,
    i: int,
)
    requires
        0 <= i < headings.len(),
        section_is(s, headings, bytes, note_id, note_dir, home, i),
    ensures
        s.heading@ == headings[i].heading,
        s.level == headings[i].level,
        s.position == i,
        s.start_line == headings[i].line,
        s.start_byte == headings[i].start,
        i + 1 < headings.len() ==> s.end_byte == headings[i + 1].start,
        i + 1 == headings.len() ==> s.end_byte == bytes.len(),
        encode_utf8(s.body@) == bytes.subrange(s.start_byte as int, s.end_byte as int),
        s.parent_uid is None <==> forall|j: int|
            0 <= j < i ==> (#[trigger] headings[j]).level >= headings[i].level,
        forall|p: int|
            0 <= p < i && (#[trigger] headings[p]).level < headings[i].level && (forall|j: int|
                p < j < i ==> (#[trigger] headings[j]).level >= headings[i].level)
                ==> s.parent_uid is Some && s.parent_uid->0@ == section_uid(
                note_id,
                section_id(headings[p]),
            ),
        s.uid@ == section_uid(note_id, section_id(headings[i])),
{
    the_parent_is_the_nearest_lower_level(headings, i);
    assert forall|p: int|
        0 <= p < i && (#[trigger] headings[p]).level < headings[i].level && (forall|j: int|
            p < j < i ==> (#[trigger] headings[j]).level >= headings[i].level) implies s.parent_uid
        is Some && s.parent_uid->0@ == section_uid(note_id, section_id(headings[p])) by {
        let q = parent_of(headings, i);
        if q is Some {
            if q->0 < p {
                assert(headings[p].level >= headings[i].level);
            } else if p < q->0 {
                assert(headings[q->0].level >= headings[i].level);
            }
        }
    }
    if s.parent_uid is Some {
        let p = parent_of(headings, i)->0;
        assert(headings[p].level < headings[i].level);
    }
}

/// Front matter stands between a fence that opens the note and the first that closes it, and
/// the text of the note starts behind both.
pub proof fn the_text_starts_behind_the_front_matter(front: Seq<u8>, rest: Seq<u8>)
    requires
        ({
            let bytes = seq![45u8, 45, 45, 10] + front + seq![10u8, 45, 45, 45, 10] + rest;
            forall|k: int| 4 <= k < 4 + front.len() ==> !closes_at(bytes, k)
        }),
    ensures
        ({
            let bytes = seq![45u8, 45, 45, 10] + front + seq![10u8, 45, 45, 45, 10] + rest;
            let start = 4 + front.len() + 5;
            &&& markdown_start(bytes, start as int)
            &&& bytes.skip(start as int) == rest
            &&& bytes.subrange(4, 4int + front.len()) == front
            &&& forall|offset: int| #[trigger]
                markdown_start(bytes, offset) ==> offset == start
        }),
{
    let open = seq![45u8, 45, 45, 10];
    let close = seq![10u8, 45, 45, 45, 10];
    let bytes = open + front + close + rest;
    let e = 4 + front.len() as int;
    assert(bytes[0] == open[0] && bytes[1] == open[1] && bytes[2] == open[2] && bytes[3]
        == open[3]);
    assert(bytes[e] == close[0] && bytes[e + 1] == close[1] && bytes[e + 2] == close[2]
        && bytes[e + 3] == close[3] && bytes[e + 4] == close[4]);
    assert(front_end(bytes, e));
    assert(bytes.skip(e + 5) == rest);
    assert(bytes.subrange(4, e) == front);
    assert forall|offset: int| #[trigger] markdown_start(bytes, offset) implies offset == e
        + 5 by {
        if offset != 0 {
            assert(front_end(bytes, offset - 5));
            if offset - 5 < e {
                assert(!closes_at(bytes, offset - 5));
            }
        }
    }
}

/// A note that no fence opens is all text.
pub proof fn a_note_without_front_matter_is_all_text(bytes: Seq<u8>)
    requires
        bytes.len() < 4 || bytes.take(4) != seq![45u8, 45, 45, 10],
    ensures
        forall|offset: int| #[trigger] markdown_start(bytes, offset) <==> offset == 0,
{
    if bytes.len() >= 4 && opens(bytes) {
        assert(bytes.take(4) == seq![45u8, 45, 45, 10]);
    }
}

proof fn lemma_dashed(path: Seq<char>)
    ensures
        replaced(path, seq!['/'], seq!['-']) == path.map_values(
            |c: char|
                if c == '/' {
                    '-'
                } else {
                    c
                },
        ),
    decreases path.len(),
{
    let f = |c: char|
        if c == '/' {
            '-'
        } else {
            c
        };
    if path.len() > 0 {
        let rest = path.drop_first();
        lemma_dashed(rest);
        assert(path.map_values(f) == seq![f(path[0])] + rest.map_values(f));
        assert(path.subrange(0, 1) == seq![path[0]]);
        assert(path.skip(1) == rest);
        if crate::text::starts_with(path, seq!['/']) {
            assert(path.subrange(0, 1)[0] == '/');
        } else if path[0] == '/' {
            assert(path.subrange(0, 1) == seq!['/']);
        }
    }
}

/// The id of a note that gives none is its path without the extension, with dashes for the
/// separators.
pub proof fn a_path_becomes_an_id(path: Seq<char>, i: int)
    requires
        0 <= i < path_without_extension(path).len(),
    ensures
        fallback_id_of(path).len() == path_without_extension(path).len(),
        path_without_extension(path)[i] == '/' ==> fallback_id_of(path)[i] == '-',
        path_without_extension(path)[i] != '/' ==> fallback_id_of(path)[i]
            == path_without_extension(path)[i],
{
    lemma_dashed(path_without_extension(path));
}

} // verus!
