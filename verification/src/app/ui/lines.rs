//! Lines of spans, and what they are built with.

use vstd::prelude::*;
use vstd::string::*;

use crate::text::{lines, slices, split_lines, to_chars};

verus! {

/// What a piece of text is for, which decides how it is drawn.
#[derive(Debug, Clone, Copy, PartialEq, Eq, Structural)]
pub enum Role {
    /// Body text, in the terminal's own colour.
    Text,
    /// The one line that the eye should land on first.
    Strong,
    /// Labels and metadata.
    Dim,
    /// What should be legible but never noticed.
    Faint,
    /// Focus and selection.
    Accent,
    AccentStrong,
    /// A heading of a group.
    Heading,
    /// Something succeeded, or is right.
    Fine,
    FineStrong,
    /// Something needs attention.
    Warn,
    /// Something failed, or is wrong.
    Wrong,
}

/// A text with a role.
#[derive(Debug)]
pub struct Span {
    pub text: String,
    pub role: Role,
}

/// What a [`Span`] says.
#[verifier::ext_equal]
pub struct SpanView {
    pub text: Seq<char>,
    pub role: Role,
}

impl View for Span {
    type V = SpanView;

    open spec fn view(&self) -> SpanView {
        SpanView { text: self.text@, role: self.role }
    }
}

/// A line.
#[derive(Debug)]
pub struct Line {
    pub spans: Vec<Span>,
}

/// What a [`Line`] says.
pub type LineView = Seq<SpanView>;

impl View for Line {
    type V = LineView;

    open spec fn view(&self) -> LineView {
        Seq::new(self.spans@.len(), |i: int| self.spans@[i]@)
    }
}

pub open spec fn lines_view(v: Seq<Line>) -> Seq<LineView> {
    Seq::new(v.len(), |i: int| v[i]@)
}

pub open spec fn sp(text: Seq<char>, role: Role) -> SpanView {
    SpanView { text, role }
}

/// A line of one span.
pub open spec fn one(text: Seq<char>, role: Role) -> LineView {
    seq![sp(text, role)]
}

/// An empty line.
pub open spec fn blank() -> LineView {
    Seq::empty()
}

/// How many characters a line has.
pub open spec fn line_width(line: LineView) -> nat
    decreases line.len(),
{
    if line.len() == 0 {
        0
    } else {
        line_width(line.drop_last()) + line.last().text.len()
    }
}

/// `count` times the same character.
pub open spec fn repeated(c: char, count: nat) -> Seq<char> {
    Seq::new(count, |i: int| c)
}

/// A text's lines as lines of body text.
pub open spec fn body_lines(text: Seq<char>) -> Seq<LineView> {
    Seq::new(lines(text).len(), |i: int| one(lines(text)[i], Role::Text))
}

impl Line {
    /// A line without spans.
    pub fn new() -> (r: Self)
        ensures
            r@ == blank(),
    {
        let r = Line { spans: Vec::new() };
        assert(r@ == blank());
        r
    }

    /// A line of one span.
    pub fn of(text: &str, role: Role) -> (r: Self)
        ensures
            r@ == one(text@, role),
    {
        let mut r = Line::new();
        r.push(text, role);
        assert(r@ == one(text@, role));
        r
    }

    /// Adds a span.
    pub fn push(&mut self, text: &str, role: Role)
        ensures
            final(self)@ == old(self)@.push(sp(text@, role)),
    {
        let ghost before = self@;
        self.spans.push(Span { text: text.to_owned(), role });
        assert(self@ == before.push(sp(text@, role)));
    }

    /// Adds the spans of another line.
    pub fn extend(&mut self, other: &Line)
        ensures
            final(self)@ == old(self)@ + other@,
    {
        let ghost before = self@;
        let mut i: usize = 0;
        assert(before + other@.take(0) == before);
        while i < other.spans.len()
            invariant
                0 <= i <= other.spans.len(),
                self@ == before + other@.take(i as int),
            decreases other.spans.len() - i,
        {
            self.push(other.spans[i].text.as_str(), other.spans[i].role);
            assert(other@.take(i + 1) == other@.take(i as int).push(other@[i as int]));
            assert(self@ == before + other@.take(i + 1));
            i += 1;
        }
        assert(other@.take(i as int) == other@);
    }

    /// How many characters the line has, or the most that can be counted.
    pub fn width(&self) -> (r: usize)
        ensures
            r == (if line_width(self@) <= usize::MAX {
                line_width(self@) as usize
            } else {
                usize::MAX
            }),
    {
        let mut r: usize = 0;
        let mut i: usize = 0;
        assert(self@.take(0) == blank());
        while i < self.spans.len()
            invariant
                0 <= i <= self.spans.len(),
                r == (if line_width(self@.take(i as int)) <= usize::MAX {
                    line_width(self@.take(i as int)) as usize
                } else {
                    usize::MAX
                }),
            decreases self.spans.len() - i,
        {
            assert(self@.take(i + 1).drop_last() == self@.take(i as int));
            assert(self@.take(i + 1).last() == self.spans@[i as int]@);
            let chars = to_chars(self.spans[i].text.as_str());
            let count: usize = chars.len();
            r = r.saturating_add(count);
            i += 1;
        }
        assert(self@.take(i as int) == self@);
        r
    }
}

/// Adds a line.
pub fn push_line(list: &mut Vec<Line>, line: Line)
    ensures
        lines_view(final(list)@) == lines_view(old(list)@).push(line@),
{
    let ghost before = lines_view(list@);
    let ghost l = line@;
    list.push(line);
    assert(lines_view(list@) == before.push(l));
}

/// Adds a line of one span.
pub fn push_text(list: &mut Vec<Line>, text: &str, role: Role)
    ensures
        lines_view(final(list)@) == lines_view(old(list)@).push(one(text@, role)),
{
    push_line(list, Line::of(text, role));
}

/// Adds an empty line.
pub fn push_blank(list: &mut Vec<Line>)
    ensures
        lines_view(final(list)@) == lines_view(old(list)@).push(blank()),
{
    push_line(list, Line::new());
}

/// Adds the lines of a text.
pub fn push_body(list: &mut Vec<Line>, text: &str)
    ensures
        lines_view(final(list)@) == lines_view(old(list)@) + body_lines(text@),
{
    let ghost before = lines_view(list@);
    let ghost all = body_lines(text@);
    let chars = to_chars(text);
    let parts = split_lines(chars.as_slice());
    let mut i: usize = 0;
    assert(before + all.take(0) == before);
    while i < parts.len()
        invariant
            0 <= i <= parts.len(),
            slices(parts@) == lines(text@),
            all == body_lines(text@),
            lines_view(list@) == before + all.take(i as int),
        decreases parts.len() - i,
    {
        assert(lines(text@)[i as int] == parts@[i as int]@);
        let part = crate::text::from_chars(parts[i]);
        push_text(list, part.as_str(), Role::Text);
        assert(all.take(i + 1) == all.take(i as int).push(all[i as int]));
        assert(lines_view(list@) == before + all.take(i + 1));
        i += 1;
    }
    assert(all.take(i as int) == all);
}

/// Adds the lines of another list.
pub fn push_lines(list: &mut Vec<Line>, more: Vec<Line>)
    ensures
        lines_view(final(list)@) == lines_view(old(list)@) + lines_view(more@),
{
    let ghost before = lines_view(list@);
    let ghost added = lines_view(more@);
    let mut more = more;
    list.append(&mut more);
    assert(lines_view(list@) == before + added);
}

/// An empty list of lines.
pub fn no_lines() -> (r: Vec<Line>)
    ensures
        lines_view(r@) == Seq::<LineView>::empty(),
{
    let r: Vec<Line> = Vec::new();
    assert(lines_view(r@) == Seq::<LineView>::empty());
    r
}

/// A text of `count` times the same character.
pub fn repeat(c: char, count: usize) -> (r: String)
    ensures
        r@ == repeated(c, count as nat),
{
    let mut r = String::new();
    let mut i: usize = 0;
    assert(r@ == repeated(c, 0));
    while i < count
        invariant
            0 <= i <= count,
            r@ == repeated(c, i as nat),
        decreases count - i,
    {
        r.push(c);
        assert(repeated(c, (i + 1) as nat) == repeated(c, i as nat).push(c));
        i += 1;
    }
    r
}

} // verus!
