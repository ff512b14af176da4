//! Quizzes: what is wrong with one, and the cards that it makes.

use yalive::model::{
    CardClips, CardContent, ChoiceAnswer, ChoiceMode, ClipRef, GapDefinition, Gaps,
    MatchOptions,
    QuizDefinition,
};
use yalive::quiz::{
    cards_from_quiz, clip_field_errors, clips_for, cloze_variants, code_gap_errors, holds,
    make_card, multiple_choice_errors, quiz_drafts, section_review, validate_quiz,
};

fn cloze(prompt: &str, clip: Option<&str>) -> QuizDefinition {
    QuizDefinition::Cloze {
        id: "q1".to_string(),
        prompt: prompt.to_string(),
        clip: clip.map(|c| c.to_string()),
        prompt_clip: None,
    }
}

fn answers(right: &[bool]) -> Vec<ChoiceAnswer> {
    right
        .iter()
        .map(|correct| ChoiceAnswer { id: None, text: "a".to_string(), correct: *correct })
        .collect()
}

fn gap(answer: Option<&str>, regex: Option<&str>) -> GapDefinition {
    GapDefinition {
        answer: answer.map(|a| a.to_string()),
        answers: None,
        regex: regex.map(|r| r.to_string()),
        options: MatchOptions::default(),
    }
}

fn code(code: &str, gaps: Vec<(&str, GapDefinition)>) -> QuizDefinition {
    QuizDefinition::CodeGap {
        id: "q3".to_string(),
        language: "rust".to_string(),
        prompt: None,
        code: code.to_string(),
        gaps: Gaps::collect(
            gaps.into_iter().map(|(name, gap)| (name.to_string(), gap)).collect(),
        ),
        clip: None,
        prompt_clip: None,
    }
}

#[test]
fn a_sound_quiz_has_no_errors() {
    assert!(validate_quiz(&cloze("A {{c1::b}}.", None)).is_empty());
    assert!(multiple_choice_errors(ChoiceMode::Single, &answers(&[true, false])).is_empty());
    assert!(validate_quiz(&code("{{gap:x}}", vec![("x", gap(Some("1"), None))])).is_empty());
}

#[test]
fn a_cloze_needs_a_deletion() {
    assert_eq!(
        validate_quiz(&cloze("Nothing hidden.", None)),
        ["cloze prompt has no valid {{cN::answer}} marker"]
    );
}

#[test]
fn a_single_choice_needs_exactly_one_answer() {
    let one = "single-choice quiz must have exactly one correct answer";
    let some = "multiple-choice quiz has no correct answer";
    assert_eq!(multiple_choice_errors(ChoiceMode::Single, &answers(&[true, true])), [one]);
    assert_eq!(
        multiple_choice_errors(ChoiceMode::Single, &answers(&[false, false])),
        [some, one]
    );
    assert_eq!(
        multiple_choice_errors(ChoiceMode::Multiple, &answers(&[false, false])),
        [some]
    );
    assert_eq!(
        multiple_choice_errors(ChoiceMode::Multiple, &answers(&[true])),
        ["multiple-choice quiz needs at least two answers"]
    );
    assert!(multiple_choice_errors(ChoiceMode::Multiple, &answers(&[true, true])).is_empty());
}

#[test]
fn gaps_and_their_definitions_belong_together() {
    let missing = validate_quiz(&code("{{gap:x}} {{gap:y}}", vec![("x", gap(Some("1"), None))]));
    assert_eq!(missing, ["placeholder `y` has no gap definition"]);
    let unused = validate_quiz(&code(
        "{{gap:x}}",
        vec![("x", gap(Some("1"), None)), ("z", gap(Some("1"), None))],
    ));
    assert_eq!(unused, ["gap definition `z` is unused"]);
    let empty = validate_quiz(&code("{{gap:x}}", vec![("x", gap(None, None))]));
    assert_eq!(empty, ["gap `x` has no answer or regex"]);
    let broken = validate_quiz(&code("{{gap:x}}", vec![("x", gap(None, Some("(")))]));
    assert_eq!(broken, ["gap `x` has an invalid regex"]);
    assert!(code_gap_errors(&vec![], &Gaps::new(), &vec![]).is_empty());
}

#[test]
fn a_clip_has_to_be_readable_and_to_end_after_its_start() {
    let clip = |end: Option<u64>| {
        Some(ClipRef { url: "https://u".to_string(), video_id: None, start: 5, end, label: None })
    };
    assert!(clip_field_errors("clip", false, &None).is_empty());
    assert_eq!(clip_field_errors("clip", true, &None), ["`clip` is empty"]);
    assert_eq!(
        clip_field_errors("clip", true, &clip(Some(5))),
        ["`clip` ends at 5s, which is not after its start of 5s"]
    );
    let local = Some(ClipRef {
        url: "talk.mp4".to_string(),
        video_id: None,
        start: 0,
        end: None,
        label: None,
    });
    assert_eq!(
        clip_field_errors("prompt_clip", true, &local),
        ["`prompt_clip` must start with a URL"]
    );
    assert!(clip_field_errors("clip", true, &clip(Some(6))).is_empty());
    assert!(clip_field_errors("clip", true, &clip(None)).is_empty());
}

#[test]
fn every_deletion_is_a_card_of_its_own() {
    let cards = cards_from_quiz("n#s", &cloze("{{c2::b}} {{c1::a}} {{c2::c}}", None), &None);
    let uids: Vec<&str> = cards.iter().map(|card| card.uid.as_str()).collect();
    assert_eq!(uids, ["n#s/q1:c2", "n#s/q1:c1"]);
    assert!(matches!(cards[0].content, CardContent::Cloze { cloze: 2, .. }));
    assert!(cloze_variants(&vec![]).is_empty());
    assert_eq!(
        quiz_drafts("n#s", &cloze("x", None), &CardClips::default(), &vec![7])[0].uid,
        "n#s/q1:c7"
    );
}

#[test]
fn an_explicit_clip_wins_over_an_inherited_one() {
    let inherited = || {
        Some(ClipRef {
            url: "https://i".to_string(),
            video_id: None,
            start: 1,
            end: None,
            label: None,
        })
    };
    let own = clips_for(&cloze("x", Some("https://example.com/v 0:09")), &inherited());
    assert_eq!(own.answer.as_ref().unwrap().start, 9);
    assert!(own.prompt.is_none());
    let other = clips_for(&cloze("x", None), &inherited());
    assert_eq!(other.answer.as_ref().unwrap().url, "https://i");
    assert!(other.prompt.is_none());
    assert!(clips_for(&cloze("x", None), &None).is_empty());
}

#[test]
fn a_card_is_hashed_by_its_json() {
    let mut cards = cards_from_quiz("n#s", &cloze("{{c1::a}}", None), &None);
    let card = make_card(cards.remove(0), "{}");
    assert_eq!(card.content_hash, blake3::hash(b"{}").to_hex().to_string());
    assert_eq!(card.card_type, "cloze");
    assert!(holds(&vec!["a".to_string()], "a"));
    assert!(!holds(&vec!["a".to_string()], "b"));
    assert_eq!(cloze("x", Some("c")).clip_sources(), (Some("c"), None));
    assert_eq!(cloze("x", None).id(), "q1");
}

#[test]
fn a_gap_is_defined_once() {
    let mut gaps = Gaps::new();
    gaps.insert("x".to_string(), gap(Some("1"), None));
    gaps.insert("y".to_string(), gap(Some("2"), None));
    gaps.insert("x".to_string(), gap(Some("3"), None));
    assert_eq!(gaps.len(), 2);
    assert_eq!(gaps.name(0), "x");
    assert_eq!(gaps.gap(0).answer.as_deref(), Some("3"));
    assert_eq!(gaps.name(1), "y");
}

#[test]
fn a_section_can_be_reviewed_as_a_whole() {
    let draft = section_review("a#b", "Title", "Body");
    assert_eq!(draft.uid, "a#b/section-review:main");
    assert_eq!(draft.card_type, "section-review");
    let card = make_card(draft, "{\"type\":\"section\"}");
    assert_eq!(card.section_uid, "a#b");
    assert_eq!(card.quiz_id, "section-review");
    assert_eq!(card.variant_key, "main");
    assert_eq!(
        card.content_hash,
        blake3::hash(b"{\"type\":\"section\"}").to_hex().to_string()
    );
}
