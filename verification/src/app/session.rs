//! A review session: the card on screen, what was answered so far, and what keys do.

use vstd::prelude::*;
use vstd::string::*;

use crate::app::cursor::last_place;
use crate::app::keymap::{KeyCode, KeyPress};
use crate::app::util::{answers_gap, matches_gap, pattern_hits};
use crate::model::{
    answers_view, clip_view, clone_clip, gaps_view, AnswerView, CardContent, ChoiceAnswer,
    ChoiceMode, ClipRef, ClipView, ContentView, GapView, Gaps,
};
use crate::outside::{matches_view, regex_matches, shuffle, Groups};
use crate::parser::{found_or_none, matches_in};
use crate::quiz::{distinct, distinct_names, gap_pattern, names_of};
use crate::text::{decimal, decimal_text, text_eq, texts, to_chars};

verus! {

/// A card of a session.
#[derive(Debug)]
pub struct SessionCard {
    pub id: i64,
    pub content: CardContent,
}

#[derive(Debug, Clone, Copy, PartialEq, Eq, Structural)]
pub enum ReviewPhase {
    Answering,
    Revealed,
}

/// A review session.
#[derive(Debug)]
pub struct ReviewSession {
    pub cards: Vec<SessionCard>,
    pub current: usize,
    pub phase: ReviewPhase,
    /// The order in which the answers of a multiple choice are shown.
    pub answer_order: Vec<usize>,
    /// Which answers are chosen, by their place on the card.
    pub chosen: Vec<bool>,
    pub choice_cursor: usize,
    pub gap_names: Vec<String>,
    /// What was typed into each gap.
    pub gap_values: Vec<String>,
    pub gap_cursor: usize,
    pub correct: Option<bool>,
    pub feedback: String,
}

/// What a [`ReviewSession`] holds.
#[verifier::ext_equal]
pub struct SessionView {
    pub cards: Seq<(i64, ContentView)>,
    pub current: int,
    pub phase: ReviewPhase,
    pub answer_order: Seq<usize>,
    pub chosen: Seq<bool>,
    pub choice_cursor: int,
    pub gap_names: Seq<Seq<char>>,
    pub gap_values: Seq<Seq<char>>,
    pub gap_cursor: int,
    pub correct: Option<bool>,
    pub feedback: Seq<char>,
}

pub open spec fn cards_of(cards: Seq<SessionCard>) -> Seq<(i64, ContentView)> {
    Seq::new(cards.len(), |i: int| (cards[i].id, cards[i].content@))
}

impl View for ReviewSession {
    type V = SessionView;

    open spec fn view(&self) -> SessionView {
        SessionView {
            cards: cards_of(self.cards@),
            current: self.current as int,
            phase: self.phase,
            answer_order: self.answer_order@,
            chosen: self.chosen@,
            choice_cursor: self.choice_cursor as int,
            gap_names: texts(self.gap_names@),
            gap_values: texts(self.gap_values@),
            gap_cursor: self.gap_cursor as int,
            correct: self.correct,
            feedback: self.feedback@,
        }
    }
}

/// The numbers below `count`, in order.
pub open spec fn in_order(count: nat) -> Seq<usize> {
    Seq::new(count, |i: int| i as usize)
}

/// Whether a list holds each number below `count` once.
pub open spec fn is_order(order: Seq<usize>, count: nat) -> bool {
    order.to_multiset() == in_order(count).to_multiset()
}

impl SessionView {
    /// The card on screen.
    pub open spec fn card(self) -> Option<ContentView> {
        if 0 <= self.current < self.cards.len() {
            Some(self.cards[self.current].1)
        } else {
            None
        }
    }

    /// The invariant of a session.
    pub open spec fn well_formed(self) -> bool {
        &&& 0 <= self.current <= self.cards.len()
        &&& match self.card() {
            Some(ContentView::MultipleChoice { answers, .. }) => {
                &&& is_order(self.answer_order, answers.len())
                &&& self.chosen.len() == answers.len()
                &&& 0 <= self.choice_cursor <= last_place(answers.len())
            },
            _ => true,
        }
        &&& self.gap_values.len() == self.gap_names.len()
        &&& 0 <= self.gap_cursor <= last_place(self.gap_names.len())
    }
}

/// The names of the gaps in code, each once and in order.
pub open spec fn gap_names_in(found: Seq<Seq<Option<Seq<char>>>>) -> Seq<Seq<char>> {
    distinct(names_of(found))
}

/// The gaps of a card, given the matches of the gap pattern in its code.
pub open spec fn gaps_on(card: Option<ContentView>, found: Seq<Seq<Option<Seq<char>>>>) -> Seq<
    Seq<char>,
> {
    match card {
        Some(ContentView::CodeGap { .. }) => gap_names_in(found),
        _ => Seq::empty(),
    }
}

/// How many answers a card shows to choose from.
pub open spec fn choices_on(card: Option<ContentView>) -> nat {
    match card {
        Some(ContentView::MultipleChoice { answers, .. }) => answers.len(),
        _ => 0,
    }
}

/// A session in which nothing was answered yet on the card on screen.
pub open spec fn prepared(
    cards: Seq<(i64, ContentView)>,
    current: int,
    order: Seq<usize>,
    names: Seq<Seq<char>>,
) -> SessionView {
    let card = if 0 <= current < cards.len() {
        Some(cards[current].1)
    } else {
        None
    };
    SessionView {
        cards,
        current,
        phase: ReviewPhase::Answering,
        answer_order: order,
        chosen: Seq::new(choices_on(card), |i: int| false),
        choice_cursor: 0,
        gap_names: names,
        gap_values: Seq::new(names.len(), |i: int| Seq::<char>::empty()),
        gap_cursor: 0,
        correct: None,
        feedback: Seq::empty(),
    }
}

pub(crate) proof fn lemma_order(order: Seq<usize>, count: nat)
    requires
        is_order(order, count),
        count <= usize::MAX,
    ensures
        order.len() == count,
        forall|i: int| 0 <= i < order.len() ==> (#[trigger] order[i]) < count,
{
    let plain = in_order(count);
    order.to_multiset_ensures();
    plain.to_multiset_ensures();
    assert forall|i: int| 0 <= i < order.len() implies (#[trigger] order[i]) < count by {
        assert(order.contains(order[i]));
        assert(order.to_multiset().count(order[i]) > 0);
        assert(plain.contains(order[i]));
    }
}

// ---------------------------------------------------------------------------
// Clips
// ---------------------------------------------------------------------------

/// The clip that can be played: before the answer is revealed only one that belongs to the
/// question.
pub open spec fn clip_on(card: Option<ContentView>, revealed: bool) -> Option<ClipView> {
    let clips = match card {
        Some(ContentView::Cloze { clips, .. }) => Some(clips),
        Some(ContentView::MultipleChoice { clips, .. }) => Some(clips),
        Some(ContentView::CodeGap { clips, .. }) => Some(clips),
        _ => None,
    };
    match clips {
        Some(c) => if revealed && c.answer is Some {
            c.answer
        } else {
            c.prompt
        },
        None => None,
    }
}

// ---------------------------------------------------------------------------
// Answering
// ---------------------------------------------------------------------------

/// Whether an answer is chosen.
pub open spec fn any_chosen(chosen: Seq<bool>) -> bool {
    exists|i: int| 0 <= i < chosen.len() && #[trigger] chosen[i]
}

/// Whether exactly the right answers are chosen.
pub open spec fn chosen_right(chosen: Seq<bool>, answers: Seq<AnswerView>) -> bool {
    forall|i: int| 0 <= i < answers.len() ==> (#[trigger] answers[i]).correct == chosen[i]
}

/// How many of the first `count` answers are right and, if asked, chosen.
pub open spec fn right_answers(
    chosen: Seq<bool>,
    answers: Seq<AnswerView>,
    only_chosen: bool,
    count: int,
) -> nat
    decreases count,
{
    if count <= 0 {
        0
    } else {
        right_answers(chosen, answers, only_chosen, count - 1) + (if answers[count - 1].correct && (
        !only_chosen || chosen[count - 1]) {
            1nat
        } else {
            0nat
        })
    }
}

/// What is said of the answers that are chosen.
pub open spec fn choice_feedback(chosen: Seq<bool>, answers: Seq<AnswerView>) -> Seq<char> {
    if chosen_right(chosen, answers) {
        "Correct"@
    } else {
        "Incorrect: selected "@ + decimal(
            right_answers(chosen, answers, true, answers.len() as int),
        ) + " of "@ + decimal(right_answers(chosen, answers, false, answers.len() as int))
            + " correct choices"@
    }
}

/// A session after a key on a multiple choice that is being answered.
pub open spec fn choice_pressed(
    s: SessionView,
    mode: ChoiceMode,
    answers: Seq<AnswerView>,
    press: KeyPress,
) -> SessionView {
    match press.code {
        KeyCode::Char('j') | KeyCode::Down => SessionView {
            choice_cursor: if s.choice_cursor < last_place(s.answer_order.len()) {
                s.choice_cursor + 1
            } else {
                last_place(s.answer_order.len())
            },
            ..s
        },
        KeyCode::Char('k') | KeyCode::Up => SessionView {
            choice_cursor: if s.choice_cursor > 0 {
                s.choice_cursor - 1
            } else {
                0
            },
            ..s
        },
        KeyCode::Char(' ') => if s.choice_cursor < s.answer_order.len() {
            let index = s.answer_order[s.choice_cursor] as int;
            SessionView {
                chosen: match mode {
                    ChoiceMode::Single => Seq::new(s.chosen.len(), |i: int| i == index),
                    ChoiceMode::Multiple => s.chosen.update(index, !s.chosen[index]),
                },
                ..s
            }
        } else {
            s
        },
        KeyCode::Enter => if any_chosen(s.chosen) {
            SessionView {
                correct: Some(chosen_right(s.chosen, answers)),
                feedback: choice_feedback(s.chosen, answers),
                phase: ReviewPhase::Revealed,
                ..s
            }
        } else {
            s
        },
        _ => s,
    }
}

/// What was typed into a gap; nothing where the code has no such gap.
pub open spec fn value_of(names: Seq<Seq<char>>, values: Seq<Seq<char>>, name: Seq<char>, from: int) ->
    Seq<char>
    decreases names.len() - from,
{
    if from < 0 || from >= names.len() {
        Seq::empty()
    } else if names[from] == name {
        values[from]
    } else {
        value_of(names, values, name, from + 1)
    }
}

/// Whether every gap is filled rightly.
pub open spec fn gaps_right(s: SessionView, gaps: Seq<(Seq<char>, GapView)>) -> bool {
    forall|i: int|
        0 <= i < gaps.len() ==> {
            let gap = #[trigger] gaps[i];
            let value = value_of(s.gap_names, s.gap_values, gap.0, 0);
            answers_gap(value, gap.1, pattern_hits(gap.1, value))
        }
}

/// A session after a key on a code gap that is being answered. `right` says whether every
/// gap is filled rightly.
pub open spec fn gap_pressed(s: SessionView, right: bool, press: KeyPress) -> SessionView {
    match press.code {
        KeyCode::Tab => SessionView {
            gap_cursor: if s.gap_cursor + 1 < s.gap_names.len() {
                s.gap_cursor + 1
            } else {
                0
            },
            ..s
        },
        KeyCode::BackTab => SessionView {
            gap_cursor: if s.gap_cursor > 0 {
                s.gap_cursor - 1
            } else {
                last_place(s.gap_names.len())
            },
            ..s
        },
        KeyCode::Backspace => if s.gap_cursor < s.gap_names.len() && s.gap_values[s.gap_cursor].len()
            > 0 {
            SessionView {
                gap_values: s.gap_values.update(
                    s.gap_cursor,
                    s.gap_values[s.gap_cursor].drop_last(),
                ),
                ..s
            }
        } else {
            s
        },
        KeyCode::Char(c) => if !press.control && s.gap_cursor < s.gap_names.len() {
            SessionView {
                gap_values: s.gap_values.update(
                    s.gap_cursor,
                    s.gap_values[s.gap_cursor].push(c),
                ),
                ..s
            }
        } else {
            s
        },
        KeyCode::Enter => SessionView {
            correct: Some(right),
            feedback: if right {
                "All gaps correct"@
            } else {
                "One or more gaps are incorrect"@
            },
            phase: ReviewPhase::Revealed,
            ..s
        },
        _ => s,
    }
}

/// What has to be done after a key in a session.
#[derive(Debug, Clone, Copy, PartialEq, Eq, Structural)]
pub enum ReviewEffect {
    Nothing,
    /// Leave the session.
    End,
    /// Play the clip on the card.
    Play,
    /// Say that the card has no clip.
    NoClip,
    /// Say that there is no clip before the answer is revealed.
    NoClipYet,
    /// Record a review with this rating.
    Rate(u32),
}

/// The rating that a key gives.
pub open spec fn rating_of(press: KeyPress) -> Option<u32> {
    match press.code {
        KeyCode::Char('1') => Some(1u32),
        KeyCode::Char('2') => Some(2u32),
        KeyCode::Char('3') => Some(3u32),
        KeyCode::Char('4') => Some(4u32),
        _ => None,
    }
}

/// A session after a key that belongs to the answer.
pub open spec fn answered(s: SessionView, right: bool, press: KeyPress) -> SessionView {
    match s.card() {
        Some(ContentView::MultipleChoice { mode, answers, .. }) => choice_pressed(
            s,
            mode,
            answers,
            press,
        ),
        Some(ContentView::CodeGap { .. }) => gap_pressed(s, right, press),
        Some(_) => if press.code == KeyCode::Char(' ') || press.code == KeyCode::Enter {
            SessionView { phase: ReviewPhase::Revealed, ..s }
        } else {
            s
        },
        None => s,
    }
}

/// A session after a key, and what has to be done.
pub open spec fn review_pressed(s: SessionView, right: bool, press: KeyPress) -> (
    SessionView,
    ReviewEffect,
) {
    let revealed = s.phase == ReviewPhase::Revealed;
    if press.code == KeyCode::Esc || press.code == KeyCode::Char('q') {
        (s, ReviewEffect::End)
    } else if s.card() is None {
        if press.code == KeyCode::Enter || press.code == KeyCode::Char('r') {
            (s, ReviewEffect::End)
        } else {
            (s, ReviewEffect::Nothing)
        }
    } else if press.code == KeyCode::Char('v') {
        if clip_on(s.card(), revealed) is Some {
            (s, ReviewEffect::Play)
        } else if revealed {
            (s, ReviewEffect::NoClip)
        } else {
            (s, ReviewEffect::NoClipYet)
        }
    } else if revealed {
        match rating_of(press) {
            Some(rating) => (s, ReviewEffect::Rate(rating)),
            None => (s, ReviewEffect::Nothing),
        }
    } else {
        (answered(s, right, press), ReviewEffect::Nothing)
    }
}

fn exactly_right(chosen: &Vec<bool>, answers: &Vec<ChoiceAnswer>) -> (r: bool)
    requires
        chosen.len() == answers.len(),
    ensures
        r == chosen_right(chosen@, answers_view(answers@)),
{
    let ghost views = answers_view(answers@);
    let mut i: usize = 0;
    while i < answers.len()
        invariant
            0 <= i <= answers.len(),
            chosen.len() == answers.len(),
            views == answers_view(answers@),
            forall|k: int| 0 <= k < i ==> (#[trigger] views[k]).correct == chosen@[k],
        decreases answers.len() - i,
    {
        assert(views[i as int] == answers@[i as int]@);
        if answers[i].correct != chosen[i] {
            assert(views[i as int].correct != chosen@[i as int]);
            return false;
        }
        i += 1;
    }
    true
}

fn count_right(chosen: &Vec<bool>, answers: &Vec<ChoiceAnswer>, only_chosen: bool) -> (r: usize)
    requires
        chosen.len() == answers.len(),
    ensures
        r == right_answers(
            chosen@,
            answers_view(answers@),
            only_chosen,
            answers.len() as int,
        ),
{
    let ghost views = answers_view(answers@);
    let mut r: usize = 0;
    let mut i: usize = 0;
    while i < answers.len()
        invariant
            0 <= i <= answers.len(),
            r <= i,
            chosen.len() == answers.len(),
            views == answers_view(answers@),
            r == right_answers(chosen@, views, only_chosen, i as int),
        decreases answers.len() - i,
    {
        assert(views[i as int] == answers@[i as int]@);
        if answers[i].correct && (!only_chosen || chosen[i]) {
            r += 1;
        }
        i += 1;
    }
    r
}

fn feedback_on(chosen: &Vec<bool>, answers: &Vec<ChoiceAnswer>) -> (r: String)
    requires
        chosen.len() == answers.len(),
    ensures
        r@ == choice_feedback(chosen@, answers_view(answers@)),
{
    if exactly_right(chosen, answers) {
        "Correct".to_owned()
    } else {
        let mut r = "Incorrect: selected ".to_owned();
        r.append(decimal_text(count_right(chosen, answers, true) as u64).as_str());
        r.append(" of ");
        r.append(decimal_text(count_right(chosen, answers, false) as u64).as_str());
        r.append(" correct choices");
        r
    }
}

fn is_any_chosen(chosen: &Vec<bool>) -> (r: bool)
    ensures
        r == any_chosen(chosen@),
{
    let mut i: usize = 0;
    while i < chosen.len()
        invariant
            0 <= i <= chosen.len(),
            forall|k: int| 0 <= k < i ==> !(#[trigger] chosen@[k]),
        decreases chosen.len() - i,
    {
        if chosen[i] {
            return true;
        }
        i += 1;
    }
    false
}

fn all_false(count: usize) -> (r: Vec<bool>)
    ensures
        r@ == Seq::new(count as nat, |i: int| false),
{
    let mut r: Vec<bool> = Vec::new();
    let mut i: usize = 0;
    while i < count
        invariant
            0 <= i <= count,
            r.len() == i,
            forall|k: int| 0 <= k < i ==> !(#[trigger] r@[k]),
        decreases count - i,
    {
        r.push(false);
        i += 1;
    }
    assert(r@ == Seq::new(count as nat, |i: int| false));
    r
}

fn empty_texts(count: usize) -> (r: Vec<String>)
    ensures
        texts(r@) == Seq::new(count as nat, |i: int| Seq::<char>::empty()),
{
    let mut r: Vec<String> = Vec::new();
    let mut i: usize = 0;
    while i < count
        invariant
            0 <= i <= count,
            r.len() == i,
            forall|k: int| 0 <= k < i ==> (#[trigger] r@[k])@ == Seq::<char>::empty(),
        decreases count - i,
    {
        let empty = String::new();
        assert(empty@ == Seq::<char>::empty());
        r.push(empty);
        i += 1;
    }
    assert(texts(r@) == Seq::new(count as nat, |i: int| Seq::<char>::empty()));
    r
}

fn counted(count: usize) -> (r: Vec<usize>)
    ensures
        r@ == in_order(count as nat),
{
    let mut r: Vec<usize> = Vec::new();
    let mut i: usize = 0;
    while i < count
        invariant
            0 <= i <= count,
            r.len() == i,
            forall|k: int| 0 <= k < i ==> (#[trigger] r@[k]) == k,
        decreases count - i,
    {
        r.push(i);
        i += 1;
    }
    assert(r@ == in_order(count as nat));
    r
}

impl ReviewSession {
    /// The card on screen.
    pub fn card(&self) -> (r: Option<&SessionCard>)
        ensures
            match r {
                Some(card) => self@.card() == Some(card.content@) && *card
                    == self.cards@[self.current as int],
                None => self@.card() is None,
            },
            r is Some <==> self.current < self.cards.len(),
    {
        if self.current < self.cards.len() {
            Some(&self.cards[self.current])
        } else {
            None
        }
    }

    /// Whether the answer is showing.
    pub fn is_revealed(&self) -> (r: bool)
        ensures
            r == (self.phase == ReviewPhase::Revealed),
    {
        self.phase == ReviewPhase::Revealed
    }

    /// The clip that can be played on the card on screen.
    pub fn current_clip(&self) -> (r: Option<ClipRef>)
        ensures
            clip_view(r) == clip_on(self@.card(), self.phase == ReviewPhase::Revealed),
    {
        match self.card() {
            Some(card) => match card.content.clips() {
                Some(clips) => if self.is_revealed() && clips.answer.is_some() {
                    clone_clip(&clips.answer)
                } else {
                    clone_clip(&clips.prompt)
                },
                None => None,
            },
            None => None,
        }
    }

    /// Whether the card on screen has a clip that can be played.
    pub fn current_has_clip(&self) -> (r: bool)
        ensures
            r == clip_on(self@.card(), self.phase == ReviewPhase::Revealed) is Some,
    {
        self.current_clip().is_some()
    }

    /// Starts on the card on screen, given the order of its answers and the gaps that were
    /// found in its code.
    pub fn prepare_with(&mut self, order: Vec<usize>, found: &Vec<Groups>)
        requires
            old(self).current <= old(self).cards.len(),
            is_order(order@, choices_on(old(self)@.card())),
        ensures
            final(self)@ == prepared(
                old(self)@.cards,
                old(self)@.current,
                order@,
                gaps_on(old(self)@.card(), matches_view(found@)),
            ),
            final(self)@.well_formed(),
    {
        let ghost before = self@;
        let mut count: usize = 0;
        let mut names: Vec<String> = Vec::new();
        assert(texts(names@) == Seq::<Seq<char>>::empty());
        if self.current < self.cards.len() {
            assert(before.cards[self.current as int].1
                == self.cards@[self.current as int].content@);
            match &self.cards[self.current].content {
                CardContent::MultipleChoice { answers, .. } => {
                    count = answers.len();
                },
                CardContent::CodeGap { .. } => {
                    names = distinct_names(found);
                },
                _ => {},
            }
        }
        assert(count == choices_on(before.card()));
        assert(texts(names@) == gaps_on(before.card(), matches_view(found@)));
        self.phase = ReviewPhase::Answering;
        self.chosen = all_false(count);
        self.choice_cursor = 0;
        self.gap_values = empty_texts(names.len());
        self.gap_names = names;
        self.gap_cursor = 0;
        self.correct = None;
        self.feedback = String::new();
        assert(self.feedback@ == Seq::<char>::empty());
        self.answer_order = order;
        assert(self@.cards == before.cards);
        assert(self@ == prepared(
            before.cards,
            before.current,
            order@,
            gaps_on(before.card(), matches_view(found@)),
        ));
    }

    /// Starts on the card on screen: its answers are shuffled, and its gaps are empty.
    pub fn prepare_card(&mut self)
        requires
            old(self).current <= old(self).cards.len(),
        ensures
            is_order(final(self)@.answer_order, choices_on(old(self)@.card())),
            final(self)@ == prepared(
                old(self)@.cards,
                old(self)@.current,
                final(self)@.answer_order,
                match old(self)@.card() {
                    Some(ContentView::CodeGap { code, .. }) => gap_names_in(
                        found_or_none(regex_matches(gap_pattern(), code)),
                    ),
                    _ => Seq::empty(),
                },
            ),
            final(self)@.well_formed(),
    {
        let ghost before = self@;
        let mut count: usize = 0;
        let mut found: Vec<Groups> = Vec::new();
        if self.current < self.cards.len() {
            assert(before.cards[self.current as int].1
                == self.cards@[self.current as int].content@);
            match &self.cards[self.current].content {
                CardContent::MultipleChoice { answers, .. } => {
                    count = answers.len();
                },
                CardContent::CodeGap { code, .. } => {
                    found = matches_in(r"\{\{gap:([a-zA-Z0-9_-]+)\}\}", code.as_str());
                },
                _ => {},
            }
        }
        let mut order = counted(count);
        shuffle(&mut order);
        self.prepare_with(order, &found);
    }

    /// A session that asks the cards in turn.
    pub fn new(cards: Vec<SessionCard>) -> (r: Self)
        ensures
            r@.cards == cards_of(cards@),
            r@.current == 0,
            r@.phase == ReviewPhase::Answering,
            r@.correct is None,
            is_order(r@.answer_order, choices_on(r@.card())),
            r@.chosen == Seq::new(choices_on(r@.card()), |i: int| false),
            r@.gap_names == (match r@.card() {
                Some(ContentView::CodeGap { code, .. }) => gap_names_in(
                    found_or_none(regex_matches(gap_pattern(), code)),
                ),
                _ => Seq::empty(),
            }),
            r@.gap_values == Seq::new(r@.gap_names.len(), |i: int| Seq::<char>::empty()),
            r@.choice_cursor == 0 && r@.gap_cursor == 0 && r@.feedback == Seq::<char>::empty(),
            r@.well_formed(),
    {
        let mut session = ReviewSession {
            cards,
            current: 0,
            phase: ReviewPhase::Answering,
            answer_order: Vec::new(),
            chosen: Vec::new(),
            choice_cursor: 0,
            gap_names: Vec::new(),
            gap_values: Vec::new(),
            gap_cursor: 0,
            correct: None,
            feedback: String::new(),
        };
        session.prepare_card();
        session
    }

    fn press_choice(&mut self, press: KeyPress)
        requires
            old(self)@.well_formed(),
            old(self)@.card() is Some,
            old(self)@.card()->0 is MultipleChoice,
        ensures
            final(self)@ == answered(old(self)@, false, press),
            final(self)@.well_formed(),
    {
        let ghost before = self@;
        assert(before.cards[self.current as int].1 == self.cards@[self.current as int].content@);
        let count: usize = self.answer_order.len();
        let choices: usize = self.chosen.len();
        assert(choices == choices_on(before.card()));
        proof {
            lemma_order(self.answer_order@, choices_on(before.card()));
        }
        match &self.cards[self.current].content {
            CardContent::MultipleChoice { mode, answers, .. } => {
                assert(answers_view(answers@).len() == answers@.len());
                match press.code {
                    KeyCode::Char('j') | KeyCode::Down => {
                        if count > 0 && self.choice_cursor < count - 1 {
                            self.choice_cursor = self.choice_cursor + 1;
                        } else if count > 0 {
                            self.choice_cursor = count - 1;
                        } else {
                            self.choice_cursor = 0;
                        }
                    },
                    KeyCode::Char('k') | KeyCode::Up => {
                        if self.choice_cursor > 0 {
                            self.choice_cursor = self.choice_cursor - 1;
                        }
                    },
                    KeyCode::Char(' ') => {
                        if self.choice_cursor < count {
                            let index: usize = self.answer_order[self.choice_cursor];
                            match mode {
                                ChoiceMode::Single => {
                                    let mut chosen = all_false(self.chosen.len());
                                    chosen.set(index, true);
                                    self.chosen = chosen;
                                    assert(self.chosen@ == Seq::new(
                                        before.chosen.len(),
                                        |i: int| i == index,
                                    ));
                                },
                                ChoiceMode::Multiple => {
                                    let value = self.chosen[index];
                                    self.chosen.set(index, !value);
                                },
                            }
                        }
                    },
                    KeyCode::Enter => {
                        if is_any_chosen(&self.chosen) {
                            let right = exactly_right(&self.chosen, answers);
                            let feedback = feedback_on(&self.chosen, answers);
                            self.correct = Some(right);
                            self.feedback = feedback;
                            self.phase = ReviewPhase::Revealed;
                        }
                    },
                    _ => {},
                }
            },
            _ => {},
        }
        assert(self@.cards == before.cards);
        assert(self@ == answered(before, false, press));
    }

    fn press_gap(&mut self, right: bool, press: KeyPress)
        requires
            old(self)@.well_formed(),
            old(self)@.card() is Some,
            old(self)@.card()->0 is CodeGap,
        ensures
            final(self)@ == answered(old(self)@, right, press),
            final(self)@.well_formed(),
    {
        let ghost before = self@;
        let count: usize = self.gap_names.len();
        assert(texts(self.gap_values@).len() == self.gap_values@.len());
        match press.code {
            KeyCode::Tab => {
                if count > 0 && self.gap_cursor < count - 1 {
                    self.gap_cursor = self.gap_cursor + 1;
                } else {
                    self.gap_cursor = 0;
                }
            },
            KeyCode::BackTab => {
                if self.gap_cursor > 0 {
                    self.gap_cursor = self.gap_cursor - 1;
                } else if count > 0 {
                    self.gap_cursor = count - 1;
                }
            },
            KeyCode::Backspace => {
                if self.gap_cursor < count {
                    let chars = to_chars(self.gap_values[self.gap_cursor].as_str());
                    assert(before.gap_values[self.gap_cursor as int] == chars@);
                    if chars.len() > 0 {
                        let text = crate::text::from_chars(
                            crate::text::cut(chars.as_slice(), 0, chars.len() - 1),
                        );
                        assert(text@ == chars@.drop_last());
                        let at: usize = self.gap_cursor;
                        self.gap_values.set(at, text);
                        assert(texts(self.gap_values@) == before.gap_values.update(
                            at as int,
                            chars@.drop_last(),
                        ));
                    }
                }
            },
            KeyCode::Char(c) => {
                if !press.control && self.gap_cursor < count {
                    let mut text = self.gap_values[self.gap_cursor].clone();
                    assert(before.gap_values[self.gap_cursor as int] == text@);
                    text.push(c);
                    let at: usize = self.gap_cursor;
                    let ghost t = text@;
                    self.gap_values.set(at, text);
                    assert(texts(self.gap_values@) == before.gap_values.update(at as int, t));
                }
            },
            KeyCode::Enter => {
                self.correct = Some(right);
                self.feedback = if right {
                    "All gaps correct".to_owned()
                } else {
                    "One or more gaps are incorrect".to_owned()
                };
                self.phase = ReviewPhase::Revealed;
            },
            _ => {},
        }
        assert(self@ == answered(before, right, press));
    }

    /// Takes a key, given whether every gap of a code gap is filled rightly.
    pub fn press_key(&mut self, right: bool, press: KeyPress) -> (effect: ReviewEffect)
        requires
            old(self)@.well_formed(),
        ensures
            (final(self)@, effect) == review_pressed(old(self)@, right, press),
            final(self)@.well_formed(),
    {
        let ghost before = self@;
        if press.code == KeyCode::Esc || press.code == KeyCode::Char('q') {
            return ReviewEffect::End;
        }
        if self.current >= self.cards.len() {
            return if press.code == KeyCode::Enter || press.code == KeyCode::Char('r') {
                ReviewEffect::End
            } else {
                ReviewEffect::Nothing
            };
        }
        let revealed = self.is_revealed();
        if press.code == KeyCode::Char('v') {
            return if self.current_has_clip() {
                ReviewEffect::Play
            } else if revealed {
                ReviewEffect::NoClip
            } else {
                ReviewEffect::NoClipYet
            };
        }
        if revealed {
            return match press.code {
                KeyCode::Char('1') => ReviewEffect::Rate(1),
                KeyCode::Char('2') => ReviewEffect::Rate(2),
                KeyCode::Char('3') => ReviewEffect::Rate(3),
                KeyCode::Char('4') => ReviewEffect::Rate(4),
                _ => ReviewEffect::Nothing,
            };
        }
        assert(before.cards[self.current as int].1 == self.cards@[self.current as int].content@);
        match &self.cards[self.current].content {
            CardContent::MultipleChoice { .. } => {
                self.press_choice(press);
            },
            CardContent::CodeGap { .. } => {
                self.press_gap(right, press);
            },
            _ => {
                if press.code == KeyCode::Char(' ') || press.code == KeyCode::Enter {
                    self.phase = ReviewPhase::Revealed;
                }
                assert(self@ == answered(before, right, press));
            },
        }
        ReviewEffect::Nothing
    }

    /// What was typed into the gap with a name.
    pub fn value(&self, name: &str) -> (r: String)
        requires
            self.gap_values.len() == self.gap_names.len(),
        ensures
            r@ == value_of(self@.gap_names, self@.gap_values, name@, 0),
    {
        let mut i: usize = 0;
        while i < self.gap_names.len()
            invariant
                0 <= i <= self.gap_names.len(),
                self.gap_values.len() == self.gap_names.len(),
                value_of(self@.gap_names, self@.gap_values, name@, 0) == value_of(
                    self@.gap_names,
                    self@.gap_values,
                    name@,
                    i as int,
                ),
            decreases self.gap_names.len() - i,
        {
            assert(self@.gap_names[i as int] == self.gap_names@[i as int]@);
            assert(self@.gap_values[i as int] == self.gap_values@[i as int]@);
            if text_eq(self.gap_names[i].as_str(), name) {
                return self.gap_values[i].clone();
            }
            i += 1;
        }
        let empty = String::new();
        assert(empty@ == Seq::<char>::empty());
        empty
    }

    /// Whether every gap is filled rightly.
    pub fn check_gaps(&self, gaps: &Gaps) -> (r: bool)
        requires
            self.gap_values.len() == self.gap_names.len(),
        ensures
            r == gaps_right(self@, gaps_view(gaps@)),
    {
        let ghost views = gaps_view(gaps@);
        let mut i: usize = 0;
        while i < gaps.len()
            invariant
                0 <= i <= gaps.len(),
                self.gap_values.len() == self.gap_names.len(),
                views == gaps_view(gaps@),
                forall|k: int|
                    0 <= k < i ==> {
                        let gap = #[trigger] views[k];
                        let value = value_of(self@.gap_names, self@.gap_values, gap.0, 0);
                        answers_gap(value, gap.1, pattern_hits(gap.1, value))
                    },
            decreases gaps.len() - i,
        {
            assert(views[i as int] == (gaps@[i as int].0@, gaps@[i as int].1@));
            let value = self.value(gaps.name(i));
            if !matches_gap(value.as_str(), gaps.gap(i)) {
                return false;
            }
            i += 1;
        }
        true
    }

    /// Takes a key.
    pub fn handle_review(&mut self, press: KeyPress) -> (effect: ReviewEffect)
        requires
            old(self)@.well_formed(),
        ensures
            (final(self)@, effect) == review_pressed(
                old(self)@,
                match old(self)@.card() {
                    Some(ContentView::CodeGap { gaps, .. }) => gaps_right(old(self)@, gaps),
                    _ => false,
                },
                press,
            ),
            final(self)@.well_formed(),
    {
        let ghost before = self@;
        assert(texts(self.gap_values@).len() == self.gap_values@.len());
        assert(texts(self.gap_names@).len() == self.gap_names@.len());
        let right = match self.card() {
            Some(card) => match &card.content {
                CardContent::CodeGap { gaps, .. } => self.check_gaps(gaps),
                _ => false,
            },
            None => false,
        };
        self.press_key(right, press)
    }

    /// Goes on after a review. A card that no longer exists is taken out, and the one after
    /// it takes its place.
    pub fn rated(&mut self, recorded: bool)
        requires
            old(self)@.well_formed(),
            old(self)@.card() is Some,
        ensures
            final(self)@.well_formed(),
            recorded ==> final(self)@.cards == old(self)@.cards && final(self)@.current
                == old(self)@.current + 1,
            !recorded ==> final(self)@.cards == old(self)@.cards.remove(old(self)@.current)
                && final(self)@.current == old(self)@.current,
            final(self)@.phase == ReviewPhase::Answering,
            final(self)@.correct is None,
            is_order(final(self)@.answer_order, choices_on(final(self)@.card())),
            final(self)@ == prepared(
                final(self)@.cards,
                final(self)@.current,
                final(self)@.answer_order,
                match final(self)@.card() {
                    Some(ContentView::CodeGap { code, .. }) => gap_names_in(
                        found_or_none(regex_matches(gap_pattern(), code)),
                    ),
                    _ => Seq::empty(),
                },
            ),
    {
        let ghost before = self@;
        let count: usize = self.cards.len();
        assert(before.cards.len() == count);
        if recorded {
            self.current = self.current + 1;
        } else {
            let at: usize = self.current;
            self.cards.remove(at);
            assert(cards_of(self.cards@) == before.cards.remove(at as int));
        }
        self.prepare_card();
    }
}

// ---------------------------------------------------------------------------
// Laws
// ---------------------------------------------------------------------------

/// Before the answer is revealed, only a clip that belongs to the question is offered.
pub proof fn the_answers_clip_waits_for_the_answer(card: ContentView)
    ensures
        clip_on(Some(card), false) == (match card {
            ContentView::Cloze { clips, .. } => clips.prompt,
            ContentView::MultipleChoice { clips, .. } => clips.prompt,
            ContentView::CodeGap { clips, .. } => clips.prompt,
            ContentView::Section { .. } => None,
        }),
{
}

/// A card is rated only once its answer is revealed, and then by a number from one to four.
pub proof fn only_a_revealed_card_is_rated(s: SessionView, right: bool, press: KeyPress)
    ensures
        review_pressed(s, right, press).1 matches ReviewEffect::Rate(rating) ==> s.phase
            == ReviewPhase::Revealed && s.card() is Some && 1 <= rating <= 4,
{
}

/// No key takes back an answer that was revealed, or changes what was answered.
pub proof fn a_revealed_answer_stays(s: SessionView, right: bool, press: KeyPress)
    requires
        s.phase == ReviewPhase::Revealed,
    ensures
        review_pressed(s, right, press).0 == s,
{
}

/// Where one answer is to be chosen, choosing leaves exactly one chosen.
pub proof fn a_single_choice_has_one_answer(s: SessionView, answers: Seq<AnswerView>, i: int)
    requires
        s.well_formed(),
        s.card() matches Some(ContentView::MultipleChoice { answers: on_card, .. }) && on_card
            == answers,
        0 < answers.len() <= usize::MAX,
        0 <= i < answers.len(),
    ensures
        ({
            let press = KeyPress { code: KeyCode::Char(' '), control: false, shift: false };
            let next = choice_pressed(s, ChoiceMode::Single, answers, press);
            next.chosen[i] <==> i == s.answer_order[s.choice_cursor]
        }),
{
    lemma_order(s.answer_order, answers.len());
}

/// Where several answers may be chosen, choosing twice changes nothing.
pub proof fn choosing_twice_changes_nothing(s: SessionView, answers: Seq<AnswerView>)
    requires
        s.well_formed(),
        s.card() matches Some(ContentView::MultipleChoice { answers: on_card, .. }) && on_card
            == answers,
        answers.len() <= usize::MAX,
    ensures
        ({
            let press = KeyPress { code: KeyCode::Char(' '), control: false, shift: false };
            choice_pressed(
                choice_pressed(s, ChoiceMode::Multiple, answers, press),
                ChoiceMode::Multiple,
                answers,
                press,
            ) == s
        }),
{
    let press = KeyPress { code: KeyCode::Char(' '), control: false, shift: false };
    lemma_order(s.answer_order, answers.len());
    let once = choice_pressed(s, ChoiceMode::Multiple, answers, press);
    let twice = choice_pressed(once, ChoiceMode::Multiple, answers, press);
    if s.choice_cursor < s.answer_order.len() {
        assert(twice.chosen == s.chosen);
    }
    assert(twice == s);
}

proof fn lemma_counts_agree(chosen: Seq<bool>, answers: Seq<AnswerView>, count: int)
    requires
        0 <= count <= answers.len(),
        chosen_right(chosen, answers),
    ensures
        right_answers(chosen, answers, true, count) == right_answers(
            chosen,
            answers,
            false,
            count,
        ),
    decreases count,
{
    if count > 0 {
        lemma_counts_agree(chosen, answers, count - 1);
        assert(answers[count - 1].correct == chosen[count - 1]);
    }
}

/// A choice that is right holds every right answer.
pub proof fn a_right_choice_is_complete(chosen: Seq<bool>, answers: Seq<AnswerView>)
    requires
        chosen_right(chosen, answers),
    ensures
        right_answers(chosen, answers, true, answers.len() as int) == right_answers(
            chosen,
            answers,
            false,
            answers.len() as int,
        ),
        choice_feedback(chosen, answers) == "Correct"@,
{
    lemma_counts_agree(chosen, answers, answers.len() as int);
}

/// The places of the answers that are chosen.
pub open spec fn chosen_set(chosen: Seq<bool>) -> Set<int> {
    Set::new(|i: int| 0 <= i < chosen.len() && chosen[i])
}

/// The places of the answers that are right.
pub open spec fn right_set(answers: Seq<AnswerView>) -> Set<int> {
    Set::new(|i: int| 0 <= i < answers.len() && answers[i].correct)
}

/// The places below `count` of the answers that are right and, if asked, chosen.
spec fn right_below(
    chosen: Seq<bool>,
    answers: Seq<AnswerView>,
    only_chosen: bool,
    count: int,
) -> Set<int> {
    Set::new(|i: int| 0 <= i < count && answers[i].correct && (!only_chosen || chosen[i]))
}

proof fn lemma_right_below(
    chosen: Seq<bool>,
    answers: Seq<AnswerView>,
    only_chosen: bool,
    count: int,
)
    requires
        0 <= count,
    ensures
        right_below(chosen, answers, only_chosen, count).finite(),
        right_below(chosen, answers, only_chosen, count).len() == right_answers(
            chosen,
            answers,
            only_chosen,
            count,
        ),
    decreases count,
{
    let set = right_below(chosen, answers, only_chosen, count);
    if count == 0 {
        assert(set =~= Set::<int>::empty());
    } else {
        lemma_right_below(chosen, answers, only_chosen, count - 1);
        let less = right_below(chosen, answers, only_chosen, count - 1);
        if answers[count - 1].correct && (!only_chosen || chosen[count - 1]) {
            assert(set =~= less.insert(count - 1));
        } else {
            assert(set =~= less);
        }
    }
}

/// Entering a multiple choice judges it: it is right exactly when the answers that are chosen
/// are the answers that are right, neither fewer nor more. Where it is wrong, the feedback
/// counts the right answers that were chosen, of all that are right. The answer is revealed,
/// and what was chosen stays. Where nothing is chosen, nothing happens.
pub proof fn a_choice_is_right_when_it_is_the_right_one(
    s: SessionView,
    right: bool,
    press: KeyPress,
)
    requires
        s.well_formed(),
        s.phase == ReviewPhase::Answering,
        s.card() is Some,
        s.card()->0 is MultipleChoice,
        press.code == KeyCode::Enter,
    ensures
        ({
            let answers = s.card()->0->answers;
            let wanted = right_set(answers);
            let picked = chosen_set(s.chosen);
            let (next, effect) = review_pressed(s, right, press);
            &&& effect == ReviewEffect::Nothing
            &&& picked == Set::<int>::empty() ==> next == s
            &&& picked != Set::<int>::empty() ==> {
                &&& next.correct == Some(picked == wanted)
                &&& next.phase == ReviewPhase::Revealed
                &&& picked == wanted ==> next.feedback == "Correct"@
                &&& picked != wanted ==> next.feedback == "Incorrect: selected "@ + decimal(
                    picked.intersect(wanted).len(),
                ) + " of "@ + decimal(wanted.len()) + " correct choices"@
                &&& next == (SessionView {
                    correct: next.correct,
                    feedback: next.feedback,
                    phase: next.phase,
                    ..s
                })
            }
        }),
{
    let answers = s.card()->0->answers;
    let wanted = right_set(answers);
    let picked = chosen_set(s.chosen);
    let count = answers.len() as int;
    assert(s.chosen.len() == answers.len());
    if any_chosen(s.chosen) {
        let i = choose|i: int| 0 <= i < s.chosen.len() && #[trigger] s.chosen[i];
        assert(picked.contains(i));
    } else {
        assert forall|i: int| !picked.contains(i) by {
            if 0 <= i < s.chosen.len() {
                assert(!s.chosen[i]);
            }
        }
        assert(picked =~= Set::<int>::empty());
    }
    if chosen_right(s.chosen, answers) {
        assert forall|i: int| picked.contains(i) <==> wanted.contains(i) by {
            if 0 <= i < answers.len() {
                assert(answers[i].correct == s.chosen[i]);
            }
        }
        assert(picked =~= wanted);
    } else {
        let i = choose|i: int|
            0 <= i < answers.len() && (#[trigger] answers[i]).correct != s.chosen[i];
        assert(picked.contains(i) != wanted.contains(i));
    }
    lemma_right_below(s.chosen, answers, true, count);
    lemma_right_below(s.chosen, answers, false, count);
    assert(right_below(s.chosen, answers, true, count) =~= picked.intersect(wanted));
    assert(right_below(s.chosen, answers, false, count) =~= wanted);
}

/// A choice with a wrong answer in it is wrong, whatever else is chosen, and so is one that
/// misses a right answer.
pub proof fn one_wrong_answer_makes_a_choice_wrong(
    s: SessionView,
    right: bool,
    press: KeyPress,
    i: int,
)
    requires
        s.well_formed(),
        s.phase == ReviewPhase::Answering,
        s.card() is Some,
        s.card()->0 is MultipleChoice,
        press.code == KeyCode::Enter,
        exists|k: int| 0 <= k < s.chosen.len() && #[trigger] s.chosen[k],
        0 <= i < s.card()->0->answers.len(),
        s.chosen[i] != s.card()->0->answers[i].correct,
    ensures
        review_pressed(s, right, press).0.correct == Some(false),
{
    assert(s.card()->0->answers[i].correct != s.chosen[i]);
}

/// Space chooses the answer under the cursor and leaves the others: where several may be
/// chosen it is chosen or taken back, and where one is to be chosen no other stays chosen.
pub proof fn space_chooses_the_answer_under_the_cursor(
    s: SessionView,
    right: bool,
    press: KeyPress,
    i: int,
)
    requires
        s.well_formed(),
        s.phase == ReviewPhase::Answering,
        s.card() is Some,
        s.card()->0 is MultipleChoice,
        0 < s.card()->0->answers.len() <= usize::MAX,
        press.code == KeyCode::Char(' '),
        0 <= i < s.card()->0->answers.len(),
    ensures
        ({
            let (next, effect) = review_pressed(s, right, press);
            let here = s.answer_order[s.choice_cursor] == i;
            &&& effect == ReviewEffect::Nothing
            &&& next == (SessionView { chosen: next.chosen, ..s })
            &&& next.chosen.len() == s.chosen.len()
            &&& s.card()->0->mode == ChoiceMode::Multiple ==> next.chosen[i] == (s.chosen[i]
                != here)
            &&& s.card()->0->mode == ChoiceMode::Single ==> next.chosen[i] == here
        }),
{
    lemma_order(s.answer_order, s.card()->0->answers.len());
}

/// The cursor on a multiple choice moves by one answer, stops at the first and the last, and
/// chooses nothing.
pub proof fn the_cursor_walks_the_answers(s: SessionView, right: bool, press: KeyPress)
    requires
        s.well_formed(),
        s.phase == ReviewPhase::Answering,
        s.card() is Some,
        s.card()->0 is MultipleChoice,
        0 < s.card()->0->answers.len() <= usize::MAX,
    ensures
        ({
            let (next, effect) = review_pressed(s, right, press);
            let down = press.code == KeyCode::Char('j') || press.code == KeyCode::Down;
            let up = press.code == KeyCode::Char('k') || press.code == KeyCode::Up;
            let last = s.card()->0->answers.len() - 1;
            &&& down || up ==> next == (SessionView { choice_cursor: next.choice_cursor, ..s })
            &&& down && s.choice_cursor < last ==> next.choice_cursor == s.choice_cursor + 1
            &&& down && s.choice_cursor == last ==> next == s
            &&& up && s.choice_cursor > 0 ==> next.choice_cursor == s.choice_cursor - 1
            &&& up && s.choice_cursor == 0 ==> next == s
        }),
{
    lemma_order(s.answer_order, s.card()->0->answers.len());
}

proof fn lemma_value_of(
    names: Seq<Seq<char>>,
    values: Seq<Seq<char>>,
    name: Seq<char>,
    from: int,
    i: int,
)
    requires
        0 <= from <= i <= names.len(),
        forall|j: int| from <= j < i ==> #[trigger] names[j] != name,
        i < names.len() ==> names[i] == name,
    ensures
        value_of(names, values, name, from) == if i < names.len() {
            values[i]
        } else {
            Seq::empty()
        },
    decreases i - from,
{
    if from < i {
        assert(names[from] != name);
        lemma_value_of(names, values, name, from + 1, i);
    }
}

/// What was typed into a gap is what stands at its name; for a gap that the code does not
/// have it is nothing.
pub proof fn a_gap_holds_what_was_typed_into_it(
    names: Seq<Seq<char>>,
    values: Seq<Seq<char>>,
    i: int,
    name: Seq<char>,
)
    requires
        names.no_duplicates(),
    ensures
        0 <= i < names.len() ==> value_of(names, values, names[i], 0) == values[i],
        !names.contains(name) ==> value_of(names, values, name, 0) == Seq::<char>::empty(),
{
    if 0 <= i < names.len() {
        assert forall|j: int| 0 <= j < i implies #[trigger] names[j] != names[i] by {}
        lemma_value_of(names, values, names[i], 0, i);
    }
    if !names.contains(name) {
        assert forall|j: int| 0 <= j < names.len() implies #[trigger] names[j] != name by {
            assert(names.contains(names[j]));
        }
        lemma_value_of(names, values, name, 0, names.len() as int);
    }
}

/// Entering code judges every gap: it is right exactly when each gap accepts what was typed
/// into it. The answer is revealed, and what was typed stays.
pub proof fn code_is_right_when_every_gap_is(s: SessionView, press: KeyPress)
    requires
        s.phase == ReviewPhase::Answering,
        s.card() is Some,
        s.card()->0 is CodeGap,
        press.code == KeyCode::Enter,
    ensures
        ({
            let gaps = s.card()->0->gaps;
            let (next, effect) = review_pressed(s, gaps_right(s, gaps), press);
            &&& effect == ReviewEffect::Nothing
            &&& next.phase == ReviewPhase::Revealed
            &&& next.correct is Some
            &&& next.correct == Some(true) <==> forall|i: int|
                0 <= i < gaps.len() ==> {
                    let gap = (#[trigger] gaps[i]).1;
                    let typed = value_of(s.gap_names, s.gap_values, gaps[i].0, 0);
                    answers_gap(typed, gap, pattern_hits(gap, typed))
                }
            &&& next.correct == Some(true) ==> next.feedback == "All gaps correct"@
            &&& next.correct == Some(false) ==> next.feedback == "One or more gaps are incorrect"@
            &&& next == (SessionView {
                correct: next.correct,
                feedback: next.feedback,
                phase: next.phase,
                ..s
            })
        }),
{
}

/// Typing goes into the gap under the cursor and into no other: a character is put behind
/// what stands there, and taking one back takes the last.
pub proof fn typing_fills_the_gap_under_the_cursor(s: SessionView, right: bool, c: char, i: int)
    requires
        s.well_formed(),
        s.phase == ReviewPhase::Answering,
        s.card() is Some,
        s.card()->0 is CodeGap,
        s.gap_names.len() > 0,
        0 <= i < s.gap_names.len(),
        c != 'q',
        c != 'v',
    ensures
        ({
            let key = KeyPress { code: KeyCode::Char(c), control: false, shift: false };
            let back = KeyPress { code: KeyCode::Backspace, control: false, shift: false };
            let typed = review_pressed(s, right, key).0;
            let taken = review_pressed(s, right, back).0;
            let here = i == s.gap_cursor;
            &&& typed == (SessionView { gap_values: typed.gap_values, ..s })
            &&& typed.gap_values.len() == s.gap_values.len()
            &&& here ==> typed.gap_values[i] == s.gap_values[i].push(c)
            &&& !here ==> typed.gap_values[i] == s.gap_values[i]
            &&& taken == (SessionView { gap_values: taken.gap_values, ..s })
            &&& here && s.gap_values[i].len() > 0 ==> taken.gap_values[i]
                == s.gap_values[i].drop_last()
            &&& !here || s.gap_values[i].len() == 0 ==> taken.gap_values[i] == s.gap_values[i]
            &&& review_pressed(typed, right, back).0 == s
        }),
{
    let key = KeyPress { code: KeyCode::Char(c), control: false, shift: false };
    let back = KeyPress { code: KeyCode::Backspace, control: false, shift: false };
    let typed = review_pressed(s, right, key).0;
    let at = s.gap_cursor;
    assert(s.gap_values[at].push(c).drop_last() == s.gap_values[at]);
    assert(review_pressed(typed, right, back).0.gap_values == s.gap_values);
}

/// Tab goes from gap to gap and round, and Shift and Tab go back the way that Tab came.
pub proof fn tab_goes_round_the_gaps(s: SessionView, right: bool)
    requires
        s.well_formed(),
        s.phase == ReviewPhase::Answering,
        s.card() is Some,
        s.card()->0 is CodeGap,
        s.gap_names.len() > 0,
    ensures
        ({
            let tab = KeyPress { code: KeyCode::Tab, control: false, shift: false };
            let back = KeyPress { code: KeyCode::BackTab, control: false, shift: false };
            let next = review_pressed(s, right, tab).0;
            &&& next.gap_cursor == (s.gap_cursor + 1) % (s.gap_names.len() as int)
            &&& next == (SessionView { gap_cursor: next.gap_cursor, ..s })
            &&& review_pressed(next, right, back).0 == s
        }),
{
    let n = s.gap_names.len() as int;
    if s.gap_cursor + 1 < n {
        assert((s.gap_cursor + 1) % n == s.gap_cursor + 1) by (nonlinear_arith)
            requires
                0 <= s.gap_cursor + 1 < n,
        ;
    } else {
        assert(n % n == 0) by (nonlinear_arith)
            requires
                n > 0,
        ;
    }
}

/// Space or Enter reveals a card that asks nothing to be chosen or typed, and changes nothing
/// else. Other keys leave it as it is.
pub proof fn a_plain_card_is_only_revealed(s: SessionView, right: bool, press: KeyPress)
    requires
        s.phase == ReviewPhase::Answering,
        s.card() is Some,
        s.card()->0 is Section || s.card()->0 is Cloze,
    ensures
        press.code == KeyCode::Char(' ') || press.code == KeyCode::Enter ==> review_pressed(
            s,
            right,
            press,
        ) == (SessionView { phase: ReviewPhase::Revealed, ..s }, ReviewEffect::Nothing),
        press.code != KeyCode::Char(' ') && press.code != KeyCode::Enter ==> review_pressed(
            s,
            right,
            press,
        ).0 == s,
{
}

/// On a revealed card the digits from 1 to 4 give the rating that they show, and no other key
/// rates.
pub proof fn a_digit_gives_its_rating(s: SessionView, right: bool, press: KeyPress, rating: u32)
    requires
        s.phase == ReviewPhase::Revealed,
        s.card() is Some,
    ensures
        review_pressed(s, right, press).1 == ReviewEffect::Rate(rating) <==> {
            &&& 1 <= rating <= 4
            &&& press.code == KeyCode::Char(('0' as u32 + rating) as char)
        },
{
}

/// Escape and `q` end a session at any time, and are the only keys that end one in which a
/// card is on screen. They change nothing.
pub proof fn escape_ends_a_session(s: SessionView, right: bool, press: KeyPress)
    ensures
        press.code == KeyCode::Esc || press.code == KeyCode::Char('q') ==> review_pressed(
            s,
            right,
            press,
        ) == (s, ReviewEffect::End),
        s.card() is Some && review_pressed(s, right, press).1 == ReviewEffect::End ==> press.code
            == KeyCode::Esc || press.code == KeyCode::Char('q'),
        s.card() is None ==> review_pressed(s, right, press).0 == s,
{
}

/// `v` plays a clip where the card has one to show: the question's, and once the answer is
/// revealed that of the answer, if it has one.
pub proof fn a_clip_is_played_where_there_is_one(s: SessionView, right: bool, press: KeyPress)
    requires
        s.card() is Some,
        press.code == KeyCode::Char('v'),
    ensures
        ({
            let revealed = s.phase == ReviewPhase::Revealed;
            let clips = match s.card()->0 {
                ContentView::Cloze { clips, .. } => Some(clips),
                ContentView::MultipleChoice { clips, .. } => Some(clips),
                ContentView::CodeGap { clips, .. } => Some(clips),
                ContentView::Section { .. } => None,
            };
            let shown = match clips {
                Some(c) => c.prompt is Some || revealed && c.answer is Some,
                None => false,
            };
            let (next, effect) = review_pressed(s, right, press);
            &&& next == s
            &&& effect == ReviewEffect::Play <==> shown
            &&& !shown && revealed ==> effect == ReviewEffect::NoClip
            &&& !shown && !revealed ==> effect == ReviewEffect::NoClipYet
            &&& clips is Some ==> clip_on(s.card(), false) == clips->0.prompt
            &&& revealed && clips is Some && clips->0.answer is Some ==> clip_on(
                s.card(),
                true,
            ) == clips->0.answer
            &&& revealed && clips is Some && clips->0.answer is None ==> clip_on(
                s.card(),
                true,
            ) == clips->0.prompt
        }),
{
}

/// A card comes on screen with nothing chosen, nothing typed, nothing judged and its answer
/// hidden.
pub proof fn a_card_comes_up_unanswered(
    cards: Seq<(i64, ContentView)>,
    current: int,
    order: Seq<usize>,
    names: Seq<Seq<char>>,
)
    ensures
        ({
            let s = prepared(cards, current, order, names);
            &&& s.cards == cards && s.current == current
            &&& s.phase == ReviewPhase::Answering
            &&& s.correct is None && s.feedback.len() == 0
            &&& s.choice_cursor == 0 && s.gap_cursor == 0
            &&& chosen_set(s.chosen) == Set::<int>::empty()
            &&& s.gap_names == names && s.gap_values.len() == names.len()
            &&& forall|i: int| 0 <= i < names.len() ==> (#[trigger] s.gap_values[i]).len() == 0
        }),
{
    assert(chosen_set(prepared(cards, current, order, names).chosen) =~= Set::<int>::empty());
}

} // verus!
