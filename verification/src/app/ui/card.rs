//! A card under review.

use vstd::prelude::*;
use vstd::string::*;

use crate::app::session::{value_of, ReviewPhase, ReviewSession, SessionView};
use crate::app::ui::lines::{
    blank, body_lines, line_width, lines_view, no_lines, one, push_blank, push_body, push_line,
    push_lines, push_text, repeat, repeated, sp, Line, LineView, Role, SpanView,
};
use crate::app::ui::widgets::{less, meter, meter_spans, smaller};
use crate::app::util::{
    answers_gap, canonical, canonical_answer, display_markdown, matches_gap, pattern_hits,
    short_date, shown_body, spaces, text_or,
};
use crate::model::{
    answers_view, gaps_view, AnswerView, CardContent, ChoiceAnswer, ContentView, GapDefinition,
    GapView, Gaps,
};
use crate::outside::{groups_view, matches_view, regex_matches, utc_formatted, Groups};
use crate::parser::{found_or_none, group, group_of, matches_in};
use crate::quiz::gap_pattern;
use crate::text::{
    cut, decimal, decimal_text, from_chars, lines, lowercase_of, number_in, parse_u64,
    position_from, position_of, slices, split_lines, text_eq, texts, to_chars,
};

verus! {

// ---------------------------------------------------------------------------
// Texts with matches in them
// ---------------------------------------------------------------------------

/// What stands before, between and after the matches of a pattern in a text, from the `k`-th
/// match on. A match is where its text first stands after the match before it.
pub open spec fn between(
    text: Seq<char>,
    found: Seq<Seq<Option<Seq<char>>>>,
    k: int,
) -> Seq<Seq<char>>
    decreases found.len() - k,
{
    if k < 0 || k >= found.len() {
        seq![text]
    } else {
        match group_of(found[k], 0) {
            Some(m) => match position_from(text, m, 0) {
                Some(p) => seq![text.take(p)] + between(text.skip(p + m.len()), found, k + 1),
                None => seq![text],
            },
            None => seq![text],
        }
    }
}

proof fn lemma_position(text: Seq<char>, m: Seq<char>, from: int)
    requires
        from >= 0,
    ensures
        position_from(text, m, from) matches Some(p) ==> from <= p && p + m.len() <= text.len(),
    decreases text.len() - from,
{
    if from < text.len() {
        lemma_position(text, m, from + 1);
    }
}

/// What stands before, between and after the matches of a pattern in a text.
pub fn split_at_matches(text: &str, found: &Vec<Groups>) -> (r: Vec<String>)
    ensures
        texts(r@) == between(text@, matches_view(found@), 0),
        1 <= r.len() <= found.len() + 1,
{
    let ghost views = matches_view(found@);
    let whole = to_chars(text);
    let mut rest = whole.as_slice();
    let mut r: Vec<String> = Vec::new();
    let mut k: usize = 0;
    assert(texts(r@) + between(rest@, views, 0) == between(text@, views, 0));
    while k < found.len()
        invariant_except_break
            0 <= k <= found.len(),
            r.len() == k,
            views == matches_view(found@),
            texts(r@) + between(rest@, views, k as int) == between(text@, views, 0),
        ensures
            r.len() <= found.len(),
            texts(r@) + seq![rest@] == between(text@, views, 0),
        decreases found.len() - k,
    {
        assert(views[k as int] == groups_view(found@[k as int]@));
        let ghost before = texts(r@);
        let m = match group(&found[k], 0) {
            Some(m) => to_chars(m),
            None => {
                break;
            },
        };
        match position_of(rest, m.as_slice()) {
            Some(p) => {
                proof {
                    lemma_position(rest@, m@, 0);
                }
                let piece = from_chars(cut(rest, 0, p));
                let ghost t = piece@;
                let next = cut(rest, p + m.len(), rest.len());
                assert(next@ == rest@.skip(p + m.len()));
                r.push(piece);
                assert(texts(r@) == before.push(t));
                assert(texts(r@) + between(next@, views, k + 1) == before + (seq![t] + between(
                    next@,
                    views,
                    k + 1,
                )));
                rest = next;
            },
            None => {
                break;
            },
        }
        k += 1;
    }
    let ghost before = texts(r@);
    let last = from_chars(rest);
    r.push(last);
    assert(texts(r@) == before + seq![rest@]);
    r
}

// ---------------------------------------------------------------------------
// Clozes
// ---------------------------------------------------------------------------

/// A deletion in a cloze prompt: its number, its text and its hint.
pub open spec fn cloze_pattern() -> Seq<char> {
    r"\{\{c(\d+)::([^}:]+)(?:::([^}]+))?\}\}"@
}

/// What is shown for a deletion: its hint, or a mark, while it is asked for; else its text.
pub open spec fn cloze_shown(found: Seq<Option<Seq<char>>>, target: u32, revealed: bool) -> Seq<
    char,
> {
    let number = match group_of(found, 1) {
        Some(digits) => match number_in(digits, u32::MAX as int) {
            Some(n) => n as int,
            None => 0,
        },
        None => 0,
    };
    if number == target && !revealed {
        text_or(group_of(found, 3), "[…]"@)
    } else {
        text_or(group_of(found, 2), Seq::empty())
    }
}

/// A prompt with its first `count` deletions shown.
pub open spec fn cloze_text(
    pieces: Seq<Seq<char>>,
    found: Seq<Seq<Option<Seq<char>>>>,
    target: u32,
    revealed: bool,
    count: int,
) -> Seq<char>
    decreases count,
{
    if count <= 0 {
        pieces[0]
    } else {
        cloze_text(pieces, found, target, revealed, count - 1) + cloze_shown(
            found[count - 1],
            target,
            revealed,
        ) + pieces[count]
    }
}

/// A prompt as it is shown.
pub open spec fn cloze_rendered(
    prompt: Seq<char>,
    found: Seq<Seq<Option<Seq<char>>>>,
    target: u32,
    revealed: bool,
) -> Seq<char> {
    let pieces = between(prompt, found, 0);
    cloze_text(pieces, found, target, revealed, pieces.len() - 1)
}

fn show_cloze(found: &Groups, target: u32, revealed: bool) -> (r: String)
    ensures
        r@ == cloze_shown(groups_view(found@), target, revealed),
{
    let number: u64 = match group(found, 1) {
        Some(digits) => match parse_u64(to_chars(digits).as_slice()) {
            Some(n) => if n <= u32::MAX as u64 {
                n
            } else {
                0
            },
            None => 0,
        },
        None => 0,
    };
    if number == target as u64 && !revealed {
        match group(found, 3) {
            Some(hint) => hint.to_owned(),
            None => "[…]".to_owned(),
        }
    } else {
        match group(found, 2) {
            Some(text) => text.to_owned(),
            None => {
                let empty = String::new();
                assert(empty@ == Seq::<char>::empty());
                empty
            },
        }
    }
}

/// A cloze prompt as it is shown, given the deletions that were found in it.
pub fn render_cloze_from(
    prompt: &str,
    found: &Vec<Groups>,
    target: u32,
    revealed: bool,
) -> (r: String)
    ensures
        r@ == cloze_rendered(prompt@, matches_view(found@), target, revealed),
{
    let ghost views = matches_view(found@);
    let pieces = split_at_matches(prompt, found);
    let ghost parts = texts(pieces@);
    assert(parts[0] == pieces@[0]@);
    let mut r = pieces[0].clone();
    let mut i: usize = 1;
    while i < pieces.len()
        invariant
            1 <= i <= pieces.len(),
            pieces.len() <= found.len() + 1,
            views == matches_view(found@),
            parts == texts(pieces@),
            r@ == cloze_text(parts, views, target, revealed, i - 1),
        decreases pieces.len() - i,
    {
        assert(views[i - 1] == groups_view(found@[i - 1]@));
        assert(parts[i as int] == pieces@[i as int]@);
        r.append(show_cloze(&found[i - 1], target, revealed).as_str());
        r.append(pieces[i].as_str());
        i += 1;
    }
    r
}

/// A cloze prompt as it is shown.
pub fn render_cloze(prompt: &str, target: u32, revealed: bool) -> (r: String)
    ensures
        r@ == cloze_rendered(
            prompt@,
            found_or_none(regex_matches(cloze_pattern(), prompt@)),
            target,
            revealed,
        ),
{
    let found = matches_in(r"\{\{c(\d+)::([^}:]+)(?:::([^}]+))?\}\}", prompt);
    render_cloze_from(prompt, &found, target, revealed)
}

// ---------------------------------------------------------------------------
// Code
// ---------------------------------------------------------------------------

/// The gap with a name, at or after a place.
pub open spec fn gap_named(
    gaps: Seq<(Seq<char>, GapView)>,
    name: Seq<char>,
    from: int,
) -> Option<GapView>
    decreases gaps.len() - from,
{
    if from < 0 || from >= gaps.len() {
        None
    } else if gaps[from].0 == name {
        Some(gaps[from].1)
    } else {
        gap_named(gaps, name, from + 1)
    }
}

/// Whether the cursor of a session stands in the gap with a name.
pub open spec fn is_active(s: SessionView, name: Seq<char>) -> bool {
    0 <= s.gap_cursor < s.gap_names.len() && s.gap_names[s.gap_cursor] == name
}

/// What is shown in the place of a gap.
pub open spec fn gap_span(
    s: SessionView,
    gaps: Seq<(Seq<char>, GapView)>,
    name: Seq<char>,
) -> SpanView {
    let value = value_of(s.gap_names, s.gap_values, name, 0);
    if s.phase == ReviewPhase::Revealed {
        match gap_named(gaps, name, 0) {
            Some(gap) => sp(
                if answers_gap(value, gap, pattern_hits(gap, value)) {
                    value
                } else {
                    canonical(gap)
                },
                Role::FineStrong,
            ),
            None => sp("["@ + name + "?]"@, Role::Wrong),
        }
    } else {
        sp(
            if value.len() == 0 {
                "["@ + name + "]"@
            } else {
                value
            },
            if is_active(s, name) {
                Role::AccentStrong
            } else {
                Role::Dim
            },
        )
    }
}

/// The name of the gap that a match stands for.
pub open spec fn gap_name(found: Seq<Option<Seq<char>>>) -> Seq<char> {
    text_or(group_of(found, 1), Seq::empty())
}

/// The spans of a line of code with its first `count` gaps.
pub open spec fn code_spans(
    s: SessionView,
    gaps: Seq<(Seq<char>, GapView)>,
    pieces: Seq<Seq<char>>,
    found: Seq<Seq<Option<Seq<char>>>>,
    count: int,
) -> LineView
    decreases count,
{
    if count <= 0 {
        one(pieces[0], Role::Text)
    } else {
        code_spans(s, gaps, pieces, found, count - 1).push(
            gap_span(s, gaps, gap_name(found[count - 1])),
        ).push(sp(pieces[count], Role::Text))
    }
}

/// A number in at least three columns.
pub open spec fn line_number(n: nat) -> Seq<char> {
    let digits = decimal(n);
    spaces(less(3, digits.len() as int) as nat) + digits + "  "@
}

/// A line of code, with its number.
pub open spec fn code_line(
    s: SessionView,
    gaps: Seq<(Seq<char>, GapView)>,
    line: Seq<char>,
    found: Seq<Seq<Option<Seq<char>>>>,
    number: nat,
) -> LineView {
    let pieces = between(line, found, 0);
    one(line_number(number), Role::Faint) + code_spans(s, gaps, pieces, found, pieces.len() - 1)
}

/// The gaps in a line of code.
pub open spec fn gaps_in(line: Seq<char>) -> Seq<Seq<Option<Seq<char>>>> {
    found_or_none(regex_matches(gap_pattern(), line))
}

/// Code, line by line.
pub open spec fn code_lines(
    s: SessionView,
    gaps: Seq<(Seq<char>, GapView)>,
    code: Seq<char>,
) -> Seq<LineView> {
    Seq::new(
        lines(code).len(),
        |i: int| code_line(s, gaps, lines(code)[i], gaps_in(lines(code)[i]), (i + 1) as nat),
    )
}

fn find_gap<'a>(gaps: &'a Gaps, name: &str) -> (r: Option<&'a GapDefinition>)
    ensures
        match r {
            Some(gap) => gap_named(gaps_view(gaps@), name@, 0) == Some(gap@),
            None => gap_named(gaps_view(gaps@), name@, 0) is None,
        },
{
    let ghost views = gaps_view(gaps@);
    let mut i: usize = 0;
    while i < gaps.len()
        invariant
            0 <= i <= gaps.len(),
            views == gaps_view(gaps@),
            gap_named(views, name@, 0) == gap_named(views, name@, i as int),
        decreases gaps.len() - i,
    {
        assert(views[i as int] == (gaps@[i as int].0@, gaps@[i as int].1@));
        if text_eq(gaps.name(i), name) {
            return Some(gaps.gap(i));
        }
        i += 1;
    }
    None
}

fn bracketed(name: &str, end: &str) -> (r: String)
    ensures
        r@ == "["@ + name@ + end@,
{
    let mut r = "[".to_owned();
    r.append(name);
    r.append(end);
    r
}

fn push_gap(line: &mut Line, s: &ReviewSession, gaps: &Gaps, name: &str)
    requires
        s.gap_values.len() == s.gap_names.len(),
    ensures
        final(line)@ == old(line)@.push(gap_span(s@, gaps_view(gaps@), name@)),
{
    let value = s.value(name);
    if s.is_revealed() {
        match find_gap(gaps, name) {
            Some(gap) => {
                if matches_gap(value.as_str(), gap) {
                    line.push(value.as_str(), Role::FineStrong);
                } else {
                    line.push(canonical_answer(gap).as_str(), Role::FineStrong);
                }
            },
            None => {
                line.push(bracketed(name, "?]").as_str(), Role::Wrong);
            },
        }
    } else {
        let active = if s.gap_cursor < s.gap_names.len() {
            assert(s@.gap_names[s.gap_cursor as int] == s.gap_names@[s.gap_cursor as int]@);
            text_eq(s.gap_names[s.gap_cursor].as_str(), name)
        } else {
            false
        };
        let role = if active {
            Role::AccentStrong
        } else {
            Role::Dim
        };
        if to_chars(value.as_str()).len() == 0 {
            line.push(bracketed(name, "]").as_str(), role);
        } else {
            line.push(value.as_str(), role);
        }
    }
}

fn number_text(n: usize) -> (r: String)
    ensures
        r@ == line_number(n as nat),
{
    let digits = decimal_text(n as u64);
    let used: usize = to_chars(digits.as_str()).len();
    let room: usize = if used < 3 {
        3 - used
    } else {
        0
    };
    let mut r = String::new();
    crate::app::util::push_spaces(&mut r, room);
    assert(r@ == spaces(room as nat));
    r.append(digits.as_str());
    r.append("  ");
    r
}

/// A line of code, given the gaps that were found in it.
pub fn render_code_line(
    s: &ReviewSession,
    gaps: &Gaps,
    line: &str,
    found: &Vec<Groups>,
    number: usize,
) -> (r: Line)
    requires
        s.gap_values.len() == s.gap_names.len(),
    ensures
        r@ == code_line(s@, gaps_view(gaps@), line@, matches_view(found@), number as nat),
{
    let ghost views = matches_view(found@);
    let ghost definitions = gaps_view(gaps@);
    let pieces = split_at_matches(line, found);
    let ghost parts = texts(pieces@);
    let mut r = Line::of(number_text(number).as_str(), Role::Faint);
    let ghost head = r@;
    assert(parts[0] == pieces@[0]@);
    r.push(pieces[0].as_str(), Role::Text);
    let mut i: usize = 1;
    assert(r@ == head + code_spans(s@, definitions, parts, views, 0));
    while i < pieces.len()
        invariant
            1 <= i <= pieces.len(),
            pieces.len() <= found.len() + 1,
            views == matches_view(found@),
            definitions == gaps_view(gaps@),
            parts == texts(pieces@),
            s.gap_values.len() == s.gap_names.len(),
            r@ == head + code_spans(s@, definitions, parts, views, i - 1),
        decreases pieces.len() - i,
    {
        let ghost so_far = code_spans(s@, definitions, parts, views, i - 1);
        assert(views[i - 1] == groups_view(found@[i - 1]@));
        assert(parts[i as int] == pieces@[i as int]@);
        let name = match group(&found[i - 1], 1) {
            Some(name) => name.to_owned(),
            None => {
                let empty = String::new();
                assert(empty@ == Seq::<char>::empty());
                empty
            },
        };
        push_gap(&mut r, s, gaps, name.as_str());
        r.push(pieces[i].as_str(), Role::Text);
        assert(r@ == head + so_far.push(gap_span(s@, definitions, name@)).push(
            sp(parts[i as int], Role::Text),
        ));
        i += 1;
    }
    r
}

/// Code as it is shown: what was typed stands in the gaps, and once the answer is revealed
/// what is right.
pub fn render_code(s: &ReviewSession, gaps: &Gaps, code: &str) -> (r: Vec<Line>)
    requires
        s.gap_values.len() == s.gap_names.len(),
    ensures
        lines_view(r@) == code_lines(s@, gaps_view(gaps@), code@),
{
    let ghost all = code_lines(s@, gaps_view(gaps@), code@);
    let chars = to_chars(code);
    let parts = split_lines(chars.as_slice());
    let mut r = no_lines();
    let mut i: usize = 0;
    assert(all.take(0) == Seq::<LineView>::empty());
    while i < parts.len()
        invariant
            0 <= i <= parts.len(),
            slices(parts@) == lines(code@),
            all == code_lines(s@, gaps_view(gaps@), code@),
            s.gap_values.len() == s.gap_names.len(),
            lines_view(r@) == all.take(i as int),
        decreases parts.len() - i,
    {
        assert(lines(code@)[i as int] == parts@[i as int]@);
        let line = from_chars(parts[i]);
        let found = matches_in(r"\{\{gap:([a-zA-Z0-9_-]+)\}\}", line.as_str());
        push_line(&mut r, render_code_line(s, gaps, line.as_str(), &found, i + 1));
        assert(all.take(i + 1) == all.take(i as int).push(all[i as int]));
        i += 1;
    }
    assert(all.take(i as int) == all);
    r
}

// ---------------------------------------------------------------------------
// The card
// ---------------------------------------------------------------------------

/// What marks the row that the cursor stands on.
pub open spec fn cursor_mark(here: bool) -> Seq<char> {
    if here {
        "▍"@
    } else {
        " "@
    }
}

/// How an answer is drawn.
pub open spec fn answer_role(revealed: bool, correct: bool, chosen: bool) -> Role {
    if revealed && correct {
        Role::Fine
    } else if revealed && chosen {
        Role::Wrong
    } else if chosen {
        Role::Strong
    } else {
        Role::Text
    }
}

/// An answer of a multiple choice.
pub open spec fn answer_line(
    answer: AnswerView,
    chosen: bool,
    cursor: bool,
    revealed: bool,
) -> LineView {
    let role = answer_role(revealed, answer.correct, chosen);
    seq![
        sp(cursor_mark(cursor), Role::Accent),
        sp(
            if chosen {
                " ● "@
            } else {
                " ○ "@
            },
            role,
        ),
        sp(answer.text, role),
    ]
}

/// The answers of a multiple choice, in the order of the session.
pub open spec fn answer_lines(s: SessionView, answers: Seq<AnswerView>) -> Seq<LineView> {
    Seq::new(
        s.answer_order.len(),
        |i: int|
            answer_line(
                answers[s.answer_order[i] as int],
                s.chosen[s.answer_order[i] as int],
                i == s.choice_cursor,
                s.phase == ReviewPhase::Revealed,
            ),
    )
}

/// What the gap under the cursor holds, and how to go on.
pub open spec fn gap_prompt(s: SessionView) -> Seq<LineView> {
    let current = if 0 <= s.gap_cursor < s.gap_names.len() {
        s.gap_names[s.gap_cursor]
    } else {
        Seq::empty()
    };
    let value = value_of(s.gap_names, s.gap_values, current, 0);
    seq![
        blank(),
        seq![
            sp(current + "  "@, Role::Accent),
            if value.len() == 0 {
                sp("type your answer"@, Role::Faint)
            } else {
                sp(value, Role::Text)
            },
        ],
        one("tab next gap    ⏎ check"@, Role::Faint),
    ]
}

/// What is asked, and the answer where it is revealed.
pub open spec fn content_lines(s: SessionView, card: ContentView) -> Seq<LineView> {
    let revealed = s.phase == ReviewPhase::Revealed;
    match card {
        ContentView::Section { title, body } => seq![one(title, Role::Strong), blank()] + (
        if revealed {
            body_lines(shown_body(body))
        } else {
            seq![one("Recall this section, then reveal it."@, Role::Faint)]
        }),
        ContentView::Cloze { prompt, cloze, .. } => body_lines(
            cloze_rendered(
                prompt,
                found_or_none(regex_matches(cloze_pattern(), prompt)),
                cloze,
                revealed,
            ),
        ),
        ContentView::MultipleChoice { question, answers, .. } => body_lines(question).push(
            blank(),
        ) + answer_lines(s, answers),
        ContentView::CodeGap { language, prompt, code, gaps, .. } => (match prompt {
            Some(text) => body_lines(text).push(blank()),
            None => Seq::empty(),
        }).push(one(lowercase_of(language), Role::Heading)) + code_lines(s, gaps, code) + (
        if revealed {
            Seq::empty()
        } else {
            gap_prompt(s)
        }),
    }
}

/// Why the answer is right, where the card says so.
pub open spec fn explanation_lines(card: ContentView) -> Seq<LineView> {
    match card {
        ContentView::MultipleChoice { explanation: Some(text), .. } => seq![
            blank(),
            one("Why"@, Role::Heading),
        ] + body_lines(text),
        _ => Seq::empty(),
    }
}

/// The four ratings.
pub open spec fn rating_line() -> LineView {
    seq![
        sp("1"@, Role::Accent),
        sp(" again    "@, Role::Faint),
        sp("2"@, Role::Accent),
        sp(" hard    "@, Role::Faint),
        sp("3"@, Role::Accent),
        sp(" good    "@, Role::Faint),
        sp("4"@, Role::Accent),
        sp(" easy"@, Role::Faint),
    ]
}

/// What is said of the answer that was given.
pub open spec fn verdict_lines(s: SessionView) -> Seq<LineView> {
    if s.feedback.len() == 0 {
        Seq::empty()
    } else {
        seq![
            blank(),
            one(
                s.feedback,
                if s.correct == Some(false) {
                    Role::Wrong
                } else {
                    Role::Fine
                },
            ),
        ]
    }
}

/// The card on screen. The verdict stands right below the answers, above the explanation.
pub open spec fn shown_card(s: SessionView, card: ContentView) -> Seq<LineView> {
    content_lines(s, card) + (if s.phase == ReviewPhase::Revealed {
        verdict_lines(s) + explanation_lines(card) + seq![blank(), rating_line()]
    } else {
        Seq::empty()
    })
}

fn push_answers(r: &mut Vec<Line>, s: &ReviewSession, answers: &Vec<ChoiceAnswer>)
    requires
        s.chosen.len() == answers.len(),
        forall|i: int| 0 <= i < s.answer_order.len() ==> (#[trigger] s.answer_order@[i]) < answers.len(),
    ensures
        lines_view(final(r)@) == lines_view(old(r)@) + answer_lines(s@, answers_view(answers@)),
{
    let ghost views = answers_view(answers@);
    let ghost all = answer_lines(s@, views);
    let ghost before = lines_view(r@);
    let revealed = s.is_revealed();
    let mut i: usize = 0;
    assert(before + all.take(0) == before);
    while i < s.answer_order.len()
        invariant
            0 <= i <= s.answer_order.len(),
            s.chosen.len() == answers.len(),
            forall|i: int|
                0 <= i < s.answer_order.len() ==> (#[trigger] s.answer_order@[i]) < answers.len(),
            views == answers_view(answers@),
            all == answer_lines(s@, views),
            revealed == (s.phase == ReviewPhase::Revealed),
            lines_view(r@) == before + all.take(i as int),
        decreases s.answer_order.len() - i,
    {
        let index: usize = s.answer_order[i];
        assert(views[index as int] == answers@[index as int]@);
        let chosen = s.chosen[index];
        let correct = answers[index].correct;
        let role = if revealed && correct {
            Role::Fine
        } else if revealed && chosen {
            Role::Wrong
        } else if chosen {
            Role::Strong
        } else {
            Role::Text
        };
        let mut line = Line::new();
        line.push(
            if i == s.choice_cursor {
                "▍"
            } else {
                " "
            },
            Role::Accent,
        );
        line.push(
            if chosen {
                " ● "
            } else {
                " ○ "
            },
            role,
        );
        line.push(answers[index].text.as_str(), role);
        assert(line@ == all[i as int]);
        push_line(r, line);
        assert(all.take(i + 1) == all.take(i as int).push(all[i as int]));
        assert(lines_view(r@) == before + all.take(i + 1));
        i += 1;
    }
    assert(all.take(i as int) == all);
}

fn push_gap_prompt(r: &mut Vec<Line>, s: &ReviewSession)
    requires
        s.gap_values.len() == s.gap_names.len(),
    ensures
        lines_view(final(r)@) == lines_view(old(r)@) + gap_prompt(s@),
{
    let ghost before = lines_view(r@);
    let current = if s.gap_cursor < s.gap_names.len() {
        assert(s@.gap_names[s.gap_cursor as int] == s.gap_names@[s.gap_cursor as int]@);
        s.gap_names[s.gap_cursor].clone()
    } else {
        let empty = String::new();
        assert(empty@ == Seq::<char>::empty());
        empty
    };
    let value = s.value(current.as_str());
    push_blank(r);
    let mut line = Line::new();
    let mut label = current.clone();
    label.append("  ");
    line.push(label.as_str(), Role::Accent);
    if to_chars(value.as_str()).len() == 0 {
        line.push("type your answer", Role::Faint);
    } else {
        line.push(value.as_str(), Role::Text);
    }
    assert(line@ == gap_prompt(s@)[1]);
    push_line(r, line);
    push_text(r, "tab next gap    ⏎ check", Role::Faint);
    assert(lines_view(r@) == before + gap_prompt(s@));
}

fn ratings() -> (r: Line)
    ensures
        r@ == rating_line(),
{
    let mut r = Line::new();
    r.push("1", Role::Accent);
    r.push(" again    ", Role::Faint);
    r.push("2", Role::Accent);
    r.push(" hard    ", Role::Faint);
    r.push("3", Role::Accent);
    r.push(" good    ", Role::Faint);
    r.push("4", Role::Accent);
    r.push(" easy", Role::Faint);
    assert(r@ == rating_line());
    r
}

fn content(s: &ReviewSession, card: &CardContent) -> (r: Vec<Line>)
    requires
        s@.well_formed(),
        s@.card() == Some(card@),
    ensures
        lines_view(r@) == content_lines(s@, card@),
{
    let revealed = s.is_revealed();
    let mut r = no_lines();
    assert(texts(s.gap_values@).len() == s.gap_values@.len());
    assert(texts(s.gap_names@).len() == s.gap_names@.len());
    match card {
        CardContent::Section { title, body } => {
            push_text(&mut r, title.as_str(), Role::Strong);
            push_blank(&mut r);
            if revealed {
                push_body(&mut r, display_markdown(body.as_str()).as_str());
            } else {
                push_text(&mut r, "Recall this section, then reveal it.", Role::Faint);
            }
            assert(lines_view(r@) == content_lines(s@, card@));
        },
        CardContent::Cloze { prompt, cloze, .. } => {
            push_body(&mut r, render_cloze(prompt.as_str(), *cloze, revealed).as_str());
            assert(lines_view(r@) == content_lines(s@, card@));
        },
        CardContent::MultipleChoice { question, answers, .. } => {
            push_body(&mut r, question.as_str());
            push_blank(&mut r);
            let (a, b) = (s.chosen.len(), answers.len());
            assert(answers_view(answers@).len() == answers@.len());
            proof {
                crate::app::session::lemma_order(s.answer_order@, answers_view(answers@).len());
            }
            push_answers(&mut r, s, answers);
            assert(lines_view(r@) == content_lines(s@, card@));
        },
        CardContent::CodeGap { language, prompt, code, gaps, .. } => {
            if let Some(text) = prompt {
                push_body(&mut r, text.as_str());
                push_blank(&mut r);
            }
            push_text(&mut r, language.as_str().to_lowercase().as_str(), Role::Heading);
            push_lines(&mut r, render_code(s, gaps, code.as_str()));
            if !revealed {
                push_gap_prompt(&mut r, s);
            }
            assert(lines_view(r@) == content_lines(s@, card@));
        },
    }
    r
}

/// The card on screen.
pub fn card_lines(s: &ReviewSession, card: &CardContent) -> (r: Vec<Line>)
    requires
        s@.well_formed(),
        s@.card() == Some(card@),
    ensures
        lines_view(r@) == shown_card(s@, card@),
{
    let mut r = content(s, card);
    if s.is_revealed() {
        if to_chars(s.feedback.as_str()).len() != 0 {
            push_blank(&mut r);
            let wrong = match s.correct {
                Some(right) => !right,
                None => false,
            };
            push_text(
                &mut r,
                s.feedback.as_str(),
                if wrong {
                    Role::Wrong
                } else {
                    Role::Fine
                },
            );
        }
        assert(lines_view(r@) == content_lines(s@, card@) + verdict_lines(s@));
        if let CardContent::MultipleChoice { explanation: Some(text), .. } = card {
            push_blank(&mut r);
            push_text(&mut r, "Why", Role::Heading);
            push_body(&mut r, text.as_str());
        }
        assert(lines_view(r@) == content_lines(s@, card@) + verdict_lines(s@) + explanation_lines(
            card@,
        ));
        push_blank(&mut r);
        push_line(&mut r, ratings());
    }
    assert(lines_view(r@) == shown_card(s@, card@));
    r
}

// ---------------------------------------------------------------------------
// Above the card
// ---------------------------------------------------------------------------

/// What is known of the card: its section, how often it was seen, and when it is due.
pub open spec fn metadata_of(section_uid: Seq<char>, review_count: nat, due: Seq<char>) -> Seq<
    char,
> {
    section_uid + "  ·  "@ + (if review_count == 0 {
        "new"@
    } else {
        "seen "@ + decimal(review_count)
    }) + "  ·  due "@ + due
}

/// What is known of the card: its section, how often it was seen, and when it is due.
pub fn metadata(section_uid: &str, review_count: u64, due_at: i64) -> (r: String)
    ensures
        r@ == metadata_of(
            section_uid@,
            review_count as nat,
            text_or(utc_formatted(due_at, "%Y-%m-%d"@), "unknown"@),
        ),
{
    let mut r = section_uid.to_owned();
    r.append("  ·  ");
    let mut seen = "seen ".to_owned();
    seen.append(decimal_text(review_count).as_str());
    if review_count == 0 {
        r.append("new");
    } else {
        r.append(seen.as_str());
    }
    r.append("  ·  due ");
    r.append(short_date(due_at).as_str());
    r
}

/// How far the session is, as words.
pub open spec fn counter_of(current: nat, total: nat) -> Seq<char> {
    decimal((current + 1) as nat) + " / "@ + decimal(total)
}

/// The line above a card: a bar, and which card of how many this is.
pub open spec fn header_line(current: nat, total: nat, width: nat) -> LineView {
    let counter = counter_of(current, total);
    let bar = smaller(14, less(width as int, (counter.len() + 12) as int)) as nat;
    let start = one("Review"@, Role::Strong) + (if bar > 2 {
        one("   "@, Role::Text) + meter_spans(current, total, bar)
    } else {
        Seq::empty()
    });
    start.push(
        sp(
            repeated(' ', less(width as int, (line_width(start) + counter.len()) as int) as nat),
            Role::Text,
        ),
    ).push(sp(counter, Role::Dim))
}

proof fn lemma_header_width(start: LineView, current: nat, total: nat, bar: nat)
    requires
        start == one("Review"@, Role::Strong) + (if bar > 2 {
            one("   "@, Role::Text) + meter_spans(current, total, bar)
        } else {
            Seq::empty()
        }),
        bar <= 14,
    ensures
        line_width(start) <= 23,
{
    reveal_strlit("Review");
    reveal_strlit("   ");
    let review = one("Review"@, Role::Strong);
    assert(review.drop_last() == blank());
    assert(line_width(review) == 6) by {
        assert(review.last().text.len() == 6);
        assert(line_width(blank()) == 0);
    }
    if bar > 2 {
        crate::app::ui::widgets::a_bar_keeps_to_its_width(current, total, bar);
        let full = crate::app::ui::widgets::filled(current, total, bar);
        let two = start.drop_last();
        let three = two.drop_last();
        assert(start.len() == 4);
        assert(three.drop_last() == review);
        assert(three.last().text.len() == 3);
        assert(two.last().text.len() == full);
        assert(start.last().text.len() == bar - full);
        assert(line_width(three) == 9);
        assert(line_width(two) == 9 + full);
        assert(line_width(start) == 9 + bar);
    } else {
        assert(start == review);
    }
}

/// The line above a card: a bar, and which card of how many this is.
pub fn session_header(current: usize, total: usize, width: usize) -> (r: Line)
    requires
        current < total,
    ensures
        r@ == header_line(current as nat, total as nat, width as nat),
{
    let mut counter = decimal_text((current + 1) as u64);
    counter.append(" / ");
    counter.append(decimal_text(total as u64).as_str());
    assert(counter@ == counter_of(current as nat, total as nat));
    let used: usize = to_chars(counter.as_str()).len();
    let room: usize = width.saturating_sub(used).saturating_sub(12);
    let bar: usize = if 14 < room {
        14
    } else {
        room
    };
    let mut r = Line::of("Review", Role::Strong);
    if bar > 2 {
        r.push("   ", Role::Text);
        r.extend(&meter(current, total, bar));
    }
    let ghost start = one("Review"@, Role::Strong) + (if bar > 2 {
        one("   "@, Role::Text) + meter_spans(current as nat, total as nat, bar as nat)
    } else {
        Seq::empty()
    });
    assert(r@ == start);
    proof {
        lemma_header_width(start, current as nat, total as nat, bar as nat);
    }
    let shown: usize = r.width();
    let gap: usize = width.saturating_sub(shown).saturating_sub(used);
    r.push(repeat(' ', gap).as_str(), Role::Text);
    r.push(counter.as_str(), Role::Dim);
    r
}

/// What is shown once every card was reviewed.
pub open spec fn complete_lines() -> Seq<LineView> {
    seq![
        one("Session complete"@, Role::Fine),
        blank(),
        one("⏎ back to the vault"@, Role::Faint),
    ]
}

/// What is shown once every card was reviewed.
pub fn session_complete() -> (r: Vec<Line>)
    ensures
        lines_view(r@) == complete_lines(),
{
    let mut r = no_lines();
    push_text(&mut r, "Session complete", Role::Fine);
    push_blank(&mut r);
    push_text(&mut r, "⏎ back to the vault", Role::Faint);
    assert(lines_view(r@) == complete_lines());
    r
}

// ---------------------------------------------------------------------------
// Laws
// ---------------------------------------------------------------------------

/// Ratings are offered exactly on a card whose answer is revealed.
pub proof fn ratings_come_with_the_answer(s: SessionView, card: ContentView)
    ensures
        s.phase == ReviewPhase::Revealed ==> shown_card(s, card).last() == rating_line(),
        s.phase == ReviewPhase::Answering ==> shown_card(s, card) == content_lines(s, card),
{
    assert(s.phase == ReviewPhase::Answering ==> shown_card(s, card) == content_lines(s, card));
}

/// A deletion that is asked for does not show its text, unless its hint does.
pub proof fn an_asked_deletion_is_hidden(found: Seq<Option<Seq<char>>>, target: u32)
    requires
        group_of(found, 1) matches Some(digits) && number_in(digits, u32::MAX as int) == Some(
            target as nat,
        ),
    ensures
        cloze_shown(found, target, false) == text_or(group_of(found, 3), "[…]"@),
        cloze_shown(found, target, true) == text_or(group_of(found, 2), Seq::empty()),
{
}

/// What lies between matches, with the matches put back.
pub open spec fn woven(
    pieces: Seq<Seq<char>>,
    found: Seq<Seq<Option<Seq<char>>>>,
    k: int,
    from: int,
) -> Seq<char>
    decreases pieces.len() - from,
{
    if from < 0 || from >= pieces.len() {
        Seq::empty()
    } else if from == pieces.len() - 1 {
        pieces[from]
    } else {
        pieces[from] + text_or(group_of(found[k + from], 0), Seq::empty()) + woven(
            pieces,
            found,
            k,
            from + 1,
        )
    }
}

proof fn lemma_woven_shift(
    first: Seq<char>,
    rest: Seq<Seq<char>>,
    found: Seq<Seq<Option<Seq<char>>>>,
    k: int,
    from: int,
)
    requires
        0 <= from,
    ensures
        woven(seq![first] + rest, found, k, from + 1) == woven(rest, found, k + 1, from),
    decreases rest.len() - from,
{
    if from < rest.len() {
        assert((seq![first] + rest)[from + 1] == rest[from]);
        lemma_woven_shift(first, rest, found, k, from + 1);
    }
}

/// What lies between the matches in a text is all of it but the matches: with them put back
/// it is the text again.
pub proof fn nothing_between_matches_is_lost(
    text: Seq<char>,
    found: Seq<Seq<Option<Seq<char>>>>,
    k: int,
)
    requires
        0 <= k,
    ensures
        between(text, found, k).len() > 0,
        woven(between(text, found, k), found, k, 0) == text,
    decreases found.len() - k,
{
    if k < found.len() {
        if let Some(m) = group_of(found[k], 0) {
            if let Some(p) = position_from(text, m, 0) {
                lemma_found_at(text, m, 0);
                let rest = text.skip(p + m.len());
                let more = between(rest, found, k + 1);
                nothing_between_matches_is_lost(rest, found, k + 1);
                let all = seq![text.take(p)] + more;
                assert(all[0] == text.take(p));
                lemma_woven_shift(text.take(p), more, found, k, 0);
                assert(text == text.take(p) + m + rest);
            }
        }
    }
}

proof fn lemma_found_at(s: Seq<char>, p: Seq<char>, from: int)
    requires
        position_from(s, p, from) is Some,
    ensures
        crate::text::occurs_at(s, p, position_from(s, p, from)->0),
    decreases s.len() - from,
{
    if !crate::text::occurs_at(s, p, from) {
        lemma_found_at(s, p, from + 1);
    }
}

/// The deletion that is asked for shows its hint, or dots where it has none, until it is
/// revealed; every other deletion shows its text.
pub proof fn only_the_asked_deletion_is_hidden(
    whole: Option<Seq<char>>,
    digits: Seq<char>,
    answer: Seq<char>,
    hint: Option<Seq<char>>,
    target: u32,
)
    requires
        number_in(digits, u32::MAX as int) is Some,
    ensures
        ({
            let found = seq![whole, Some(digits), Some(answer), hint];
            let asked = number_in(digits, u32::MAX as int)->0 == target;
            &&& cloze_shown(found, target, true) == answer
            &&& !asked ==> cloze_shown(found, target, false) == answer
            &&& asked && hint is Some ==> cloze_shown(found, target, false) == hint->0
            &&& asked && hint is None ==> cloze_shown(found, target, false) == "[…]"@
        }),
{
}

/// Before the answer is shown nothing tells a right answer from a wrong one; then the right
/// ones stand out, and those that were chosen and are wrong.
pub proof fn answers_are_told_apart_once_revealed(correct: bool, other: bool, chosen: bool)
    ensures
        answer_role(false, correct, chosen) == answer_role(false, other, chosen),
        answer_role(false, correct, true) != answer_role(false, correct, false),
        answer_role(true, true, chosen) == Role::Fine,
        answer_role(true, false, true) == Role::Wrong,
        answer_role(true, false, false) == Role::Text,
{
}

/// A gap shows what was typed into it, or its name until something is. Once revealed it shows
/// the typed answer if it is right, and an answer that would have been if it is not.
pub proof fn a_gap_shows_what_was_typed(
    s: SessionView,
    gaps: Seq<(Seq<char>, GapView)>,
    name: Seq<char>,
    gap: GapView,
)
    requires
        gap_named(gaps, name, 0) == Some(gap),
    ensures
        ({
            let value = value_of(s.gap_names, s.gap_values, name, 0);
            let shown = gap_span(s, gaps, name);
            let right = answers_gap(value, gap, pattern_hits(gap, value));
            &&& s.phase != ReviewPhase::Revealed && value.len() > 0 ==> shown.text == value
            &&& s.phase != ReviewPhase::Revealed && value.len() == 0 ==> shown.text == "["@ + name
                + "]"@
            &&& s.phase == ReviewPhase::Revealed && right ==> shown.text == value
            &&& s.phase == ReviewPhase::Revealed && !right ==> shown.text == canonical(gap)
        }),
{
}

/// The gap that a name stands for is the first of that name.
pub proof fn a_gap_is_found_by_its_name(
    gaps: Seq<(Seq<char>, GapView)>,
    name: Seq<char>,
    from: int,
)
    requires
        0 <= from,
    ensures
        gap_named(gaps, name, from) is None <==> forall|i: int|
            from <= i < gaps.len() ==> (#[trigger] gaps[i]).0 != name,
        gap_named(gaps, name, from) is Some ==> exists|i: int|
            from <= i < gaps.len() && (#[trigger] gaps[i]).0 == name && gap_named(gaps, name, from)
                == Some(gaps[i].1) && forall|j: int|
                from <= j < i ==> (#[trigger] gaps[j]).0 != name,
    decreases gaps.len() - from,
{
    if from < gaps.len() && gaps[from].0 != name {
        a_gap_is_found_by_its_name(gaps, name, from + 1);
    }
}

/// A wrong answer is told from a right one, and nothing is said where nothing was checked.
pub proof fn a_wrong_answer_is_said_to_be_wrong(s: SessionView)
    ensures
        s.feedback.len() == 0 ==> verdict_lines(s).len() == 0,
        s.feedback.len() > 0 ==> verdict_lines(s).last()[0].text == s.feedback,
        s.feedback.len() > 0 && s.correct == Some(false) ==> verdict_lines(s).last()[0].role
            == Role::Wrong,
        s.feedback.len() > 0 && s.correct != Some(false) ==> verdict_lines(s).last()[0].role
            == Role::Fine,
{
}

} // verus!
