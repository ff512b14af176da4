//! A review session, key by key.

use yalive::app::keymap::{KeyCode, KeyPress};
use yalive::app::session::{ReviewEffect, ReviewPhase, ReviewSession, SessionCard};
use yalive::app::ui::card::{card_lines, render_cloze, session_complete, session_header};
use yalive::app::ui::lines::Line;
use yalive::model::{
    CardClips, CardContent, ChoiceAnswer, ChoiceMode, ClipRef, GapDefinition, Gaps,
    MatchOptions,
};

fn key(code: KeyCode) -> KeyPress {
    KeyPress { code, control: false, shift: false }
}

fn typed(c: char) -> KeyPress {
    key(KeyCode::Char(c))
}

fn shown(lines: &[Line]) -> String {
    let text = |line: &Line| line.spans.iter().map(|s| s.text.as_str()).collect::<String>();
    lines.iter().map(text).collect::<Vec<_>>().join("\n")
}

fn clip(url: &str) -> ClipRef {
    ClipRef { url: url.to_string(), video_id: None, start: 0, end: None, label: None }
}

fn cloze(clips: CardClips) -> CardContent {
    CardContent::Cloze { prompt: "A {{c1::mutable}} borrow".to_string(), cloze: 1, clips }
}

fn choice(mode: ChoiceMode, right: &[bool]) -> CardContent {
    CardContent::MultipleChoice {
        mode,
        question: "Which?".to_string(),
        answers: right
            .iter()
            .enumerate()
            .map(|(i, correct)| ChoiceAnswer {
                id: None,
                text: format!("answer {i}"),
                correct: *correct,
            })
            .collect(),
        explanation: Some("Because.".to_string()),
        clips: CardClips::default(),
    }
}

fn code_gap() -> CardContent {
    CardContent::CodeGap {
        language: "rust".to_string(),
        prompt: None,
        code: "let {{gap:name}} = {{gap:value}};".to_string(),
        gaps: Gaps::collect(
            [("name", "x"), ("value", "1")]
                .iter()
                .map(|(name, answer)| {
                    let gap = GapDefinition {
                        answer: Some(answer.to_string()),
                        answers: None,
                        regex: None,
                        options: MatchOptions::default(),
                    };
                    (name.to_string(), gap)
                })
                .collect(),
        ),
        clips: CardClips::default(),
    }
}

fn session(contents: Vec<CardContent>) -> ReviewSession {
    ReviewSession::new(
        contents
            .into_iter()
            .enumerate()
            .map(|(i, content)| SessionCard { id: i as i64, content })
            .collect(),
    )
}

#[test]
fn a_card_is_revealed_and_then_rated() {
    let mut s = session(vec![cloze(CardClips::default()), cloze(CardClips::default())]);
    assert_eq!(s.handle_review(typed('3')), ReviewEffect::Nothing);
    assert!(!s.is_revealed());
    assert_eq!(s.handle_review(typed(' ')), ReviewEffect::Nothing);
    assert!(s.is_revealed());
    assert_eq!(s.handle_review(typed('3')), ReviewEffect::Rate(3));
    s.rated(true);
    assert_eq!(s.current, 1);
    assert!(s.phase == ReviewPhase::Answering);
    s.rated(false);
    assert_eq!(s.cards.len(), 1);
    assert!(s.card().is_none());
}

#[test]
fn escape_ends_a_session() {
    let mut s = session(vec![cloze(CardClips::default())]);
    assert_eq!(s.handle_review(key(KeyCode::Esc)), ReviewEffect::End);
    let mut s = session(vec![]);
    assert!(s.card().is_none());
    assert_eq!(s.handle_review(key(KeyCode::Enter)), ReviewEffect::End);
}

#[test]
fn the_answers_clip_waits_for_the_answer() {
    let clips = CardClips { prompt: None, answer: Some(clip("https://a")) };
    let mut s = session(vec![cloze(clips)]);
    assert!(!s.current_has_clip());
    assert!(s.current_clip().is_none());
    assert_eq!(s.handle_review(typed('v')), ReviewEffect::NoClipYet);
    s.handle_review(typed(' '));
    assert!(s.current_has_clip());
    assert_eq!(s.current_clip().unwrap().url, "https://a");
    assert_eq!(s.handle_review(typed('v')), ReviewEffect::Play);
}

#[test]
fn a_card_without_a_clip_says_so() {
    let mut s = session(vec![cloze(CardClips::default())]);
    s.handle_review(typed(' '));
    assert_eq!(s.handle_review(typed('v')), ReviewEffect::NoClip);
}

#[test]
fn a_prompt_clip_can_be_played_at_once() {
    let clips = CardClips { prompt: Some(clip("https://p")), answer: None };
    let s = session(vec![cloze(clips)]);
    assert_eq!(s.current_clip().unwrap().url, "https://p");
}

#[test]
fn a_single_choice_has_one_answer() {
    let mut s = session(vec![choice(ChoiceMode::Single, &[true, false, false])]);
    s.handle_review(typed(' '));
    s.handle_review(typed('j'));
    s.handle_review(typed(' '));
    assert_eq!(s.chosen.iter().filter(|c| **c).count(), 1);
    assert!(s.chosen[s.answer_order[1]]);
}

#[test]
fn a_multiple_choice_takes_several_answers() {
    let mut s = session(vec![choice(ChoiceMode::Multiple, &[true, true, false])]);
    for place in 0..3 {
        let answer = s.answer_order[place];
        assert_eq!(s.choice_cursor, place);
        if answer != 2 {
            s.handle_review(typed(' '));
        }
        s.handle_review(typed('j'));
    }
    s.handle_review(key(KeyCode::Enter));
    assert!(s.is_revealed());
    assert_eq!(s.correct, Some(true));
}

#[test]
fn a_wrong_choice_is_counted() {
    let mut s = session(vec![choice(ChoiceMode::Single, &[true, false])]);
    let wrong = s.answer_order.iter().position(|answer| *answer == 1).unwrap();
    for _ in 0..wrong {
        s.handle_review(typed('j'));
    }
    s.handle_review(typed(' '));
    s.handle_review(key(KeyCode::Enter));
    assert_eq!(s.correct, Some(false));
    assert_eq!(s.feedback, "Incorrect: selected 0 of 1 correct choices");
}

#[test]
fn every_answer_is_shown_once() {
    let s = session(vec![choice(ChoiceMode::Single, &[true, false, false, false])]);
    let mut order = s.answer_order.clone();
    order.sort();
    assert_eq!(order, [0, 1, 2, 3]);
}

#[test]
fn gaps_are_filled_in_turn() {
    let mut s = session(vec![code_gap()]);
    assert_eq!(s.gap_names, ["name", "value"]);
    s.handle_review(typed('x'));
    s.handle_review(key(KeyCode::Tab));
    s.handle_review(typed('1'));
    assert_eq!(s.value("name"), "x");
    assert_eq!(s.value("value"), "1");
    s.handle_review(key(KeyCode::Enter));
    assert!(s.is_revealed());
    assert_eq!(s.correct, Some(true));
}

#[test]
fn a_wrong_gap_is_wrong() {
    let mut s = session(vec![code_gap()]);
    s.handle_review(typed('y'));
    s.handle_review(key(KeyCode::Backspace));
    assert_eq!(s.value("name"), "");
    s.handle_review(key(KeyCode::Tab));
    s.handle_review(key(KeyCode::Enter));
    assert_eq!(s.correct, Some(false));
}

#[test]
fn a_deletion_is_hidden_until_it_is_revealed() {
    let prompt = "A {{c1::mutable}} borrow is {{c2::exclusive}}.";
    let hidden = render_cloze(prompt, 1, false);
    assert!(!hidden.contains("mutable"), "{hidden}");
    assert!(hidden.contains("exclusive"), "{hidden}");
    assert!(render_cloze(prompt, 1, true).contains("mutable"));
}

#[test]
fn ratings_come_with_the_answer() {
    let mut s = session(vec![cloze(CardClips::default())]);
    let content = cloze(CardClips::default());
    let before = shown(&card_lines(&s, &content));
    assert!(!before.contains("mutable"), "{before}");
    s.handle_review(typed(' '));
    let after = shown(&card_lines(&s, &content));
    assert!(after.contains("mutable"), "{after}");
    assert!(after.lines().count() > before.lines().count());
}

#[test]
fn a_session_says_how_far_it_is() {
    let header = shown(&[session_header(0, 3, 40)]);
    assert!(header.contains('1') && header.contains('3'), "{header}");
    assert!(!session_complete().is_empty());
}
