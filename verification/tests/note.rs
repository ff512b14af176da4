//! Whole notes: front matter, sections, relations, actions and quizzes.

use serde_yaml::Value;
use yalive::model::{
    card_capabilities, relation_capabilities, CardContent, ChoiceAnswer, ChoiceMode,
    GapDefinition, GapSyntax, Gaps, MatchOptions, ParsedNote, QuizDefinition,
};
use yalive::note::{
    attach_cards, byte_range, fallback_id, line_at, parse_note, scan_note, split_front_matter,
    FrontMatter, NoteFile, QuizBlock,
};

fn text(value: &Value, key: &str) -> Option<String> {
    value.get(key).and_then(|v| v.as_str()).map(|s| s.to_string())
}

fn texts(value: &Value) -> Vec<String> {
    value
        .as_sequence()
        .map(|list| list.iter().filter_map(|v| v.as_str()).map(|s| s.to_string()).collect())
        .unwrap_or_default()
}

fn flag(value: Option<&Value>, other: bool) -> bool {
    value.and_then(|v| v.as_bool()).unwrap_or(other)
}

fn front_matter(yaml: &str) -> FrontMatter {
    let value: Value = serde_yaml::from_str(yaml).unwrap();
    FrontMatter {
        id: text(&value, "id"),
        title: text(&value, "title"),
        tags: value.get("tags").map(texts).unwrap_or_default(),
        topic: text(&value, "topic"),
        pinned: flag(value.get("pinned"), false),
        status: text(&value, "status"),
    }
}

fn gap(value: &Value) -> GapDefinition {
    if let Some(answer) = value.as_str() {
        GapSyntax::Answer(answer.to_string()).definition()
    } else if value.is_sequence() {
        GapSyntax::Answers(texts(value)).definition()
    } else {
        let options = value.get("match");
        GapSyntax::Detailed(GapDefinition {
            answer: text(value, "answer"),
            answers: value.get("answers").map(texts),
            regex: text(value, "regex"),
            options: MatchOptions {
                trim: flag(options.and_then(|o| o.get("trim")), true),
                normalize_whitespace: flag(
                    options.and_then(|o| o.get("normalize_whitespace")),
                    false,
                ),
                case_sensitive: flag(options.and_then(|o| o.get("case_sensitive")), true),
            },
        })
        .definition()
    }
}

fn quiz(yaml: &str) -> Result<QuizDefinition, String> {
    let value: Value = serde_yaml::from_str(yaml).map_err(|error| error.to_string())?;
    let need = |key: &str| text(&value, key).ok_or(format!("missing field `{key}`"));
    let clip = text(&value, "clip");
    let prompt_clip = text(&value, "prompt_clip");
    match need("type")?.as_str() {
        "cloze" => Ok(QuizDefinition::Cloze {
            id: need("id")?,
            prompt: need("prompt")?,
            clip,
            prompt_clip,
        }),
        "multiple-choice" => Ok(QuizDefinition::MultipleChoice {
            id: need("id")?,
            mode: if text(&value, "mode").as_deref() == Some("multiple") {
                ChoiceMode::Multiple
            } else {
                ChoiceMode::Single
            },
            question: need("question")?,
            answers: value["answers"]
                .as_sequence()
                .ok_or("missing field `answers`")?
                .iter()
                .map(|answer| ChoiceAnswer {
                    id: text(answer, "id"),
                    text: text(answer, "text").unwrap(),
                    correct: flag(answer.get("correct"), false),
                })
                .collect(),
            explanation: text(&value, "explanation"),
            clip,
            prompt_clip,
        }),
        "code-gap" => Ok(QuizDefinition::CodeGap {
            id: need("id")?,
            language: text(&value, "language").unwrap_or_default(),
            prompt: text(&value, "prompt"),
            code: need("code")?,
            gaps: Gaps::collect(
                value["gaps"]
                    .as_mapping()
                    .ok_or("missing field `gaps`")?
                    .iter()
                    .map(|(name, definition)| (name.as_str().unwrap().to_string(), gap(definition)))
                    .collect(),
            ),
            clip,
            prompt_clip,
        }),
        other => Err(format!("unknown variant `{other}`")),
    }
}

fn note_at(path: &str, source: &str) -> ParsedNote {
    let scan = scan_note(source).expect("the events lie inside the text");
    let front = match &scan.front {
        Some(yaml) => front_matter(yaml),
        None => FrontMatter {
            id: None,
            title: None,
            tags: Vec::new(),
            topic: None,
            pinned: false,
            status: None,
        },
    };
    let blocks: Vec<QuizBlock> = scan
        .quizzes
        .iter()
        .map(|(start, yaml)| QuizBlock { start: *start, quiz: quiz(yaml) })
        .collect();
    let file = NoteFile {
        path: path.to_string(),
        directory: "/vault".to_string(),
        home: Some("/home/x".to_string()),
        created_at: 1,
        modified_at: 2,
    };
    let draft = parse_note(file, source, scan.offset, front, scan.headings, &blocks);
    let json: Vec<Vec<String>> = draft
        .cards
        .iter()
        .map(|list| list.iter().map(|card| format!("{:?}", card.content)).collect())
        .collect();
    attach_cards(draft, &json)
}

fn note_from(source: &str) -> ParsedNote {
    note_at("rust.md", source)
}

#[test]
fn a_quiz_without_a_clip_inherits_the_sections_video() {
    let note = note_from(
        "---\nid: rust\ntitle: Rust\n---\n\n# Rust {#root}\n\n\
         @video https://youtu.be/dQw4w9WgXcQ 06:54  Chapter on borrowing\n\n\
         ```quiz\nid: q1\ntype: cloze\nprompt: A {{c1::mutable}} borrow is exclusive.\n```\n",
    );

    let clips = match &note.sections[0].cards[0].content {
        CardContent::Cloze { clips, .. } => clips,
        other => panic!("expected a cloze card, got {other:?}"),
    };
    let answer = clips.answer.as_ref().expect("should have inherited the @video");
    assert_eq!(answer.url, "https://youtu.be/dQw4w9WgXcQ");
    assert_eq!(answer.start, 414);
    assert!(clips.prompt.is_none());
}

#[test]
fn an_explicit_clip_beats_the_inherited_one_and_prompt_clip_is_separate() {
    let note = note_from(
        "---\nid: rust\ntitle: Rust\n---\n\n# Rust {#root}\n\n\
         @video https://youtu.be/AAAAAAAAAAA 1:00\n\n\
         ```quiz\nid: q1\ntype: cloze\nprompt: A {{c1::mutable}} borrow.\n\
         clip: https://youtu.be/BBBBBBBBBBB 2:00-3:00\n\
         prompt_clip: https://youtu.be/CCCCCCCCCCC 4:00\n```\n",
    );

    let clips = match &note.sections[0].cards[0].content {
        CardContent::Cloze { clips, .. } => clips,
        other => panic!("expected a cloze card, got {other:?}"),
    };
    assert_eq!(clips.answer.as_ref().unwrap().video_id.as_deref(), Some("BBBBBBBBBBB"));
    assert_eq!(clips.answer.as_ref().unwrap().end, Some(180));
    assert_eq!(clips.prompt.as_ref().unwrap().video_id.as_deref(), Some("CCCCCCCCCCC"));
    assert_eq!(clips.prompt.as_ref().unwrap().start, 240);
}

#[test]
fn a_backwards_clip_range_is_a_diagnostic() {
    let note = note_from(
        "---\nid: rust\ntitle: Rust\n---\n\n# Rust {#root}\n\n\
         ```quiz\nid: q1\ntype: cloze\nprompt: A {{c1::mutable}} borrow.\n\
         clip: https://youtu.be/BBBBBBBBBBB 3:00-2:00\n```\n",
    );

    assert!(
        note.diagnostics.iter().any(|d| d.message.contains("not after its start")),
        "expected a range diagnostic, got {:?}",
        note.diagnostics
    );
}

#[test]
fn actions_attach_to_the_section_that_declared_them() {
    let note = note_at(
        "obs.md",
        "---\nid: obs\ntitle: OBS\n---\n\
         # OBS {#root}\n@app com.obsproject.Studio\n\
         ## Smoothing {#smooth}\n@video https://youtu.be/ABC 6:54\n",
    );
    let root = note.sections.iter().find(|s| s.uid == "obs#root").unwrap();
    let smooth = note.sections.iter().find(|s| s.uid == "obs#smooth").unwrap();

    assert_eq!(root.actions.len(), 1);
    assert_eq!(root.actions[0].kind, "app");
    assert_eq!(smooth.actions.len(), 1);
    assert_eq!(smooth.actions[0].timestamp_seconds, Some(414));
}

#[test]
fn parses_sections_relations_and_all_card_types() {
    let note = note_from(
        r#"---
id: rust
title: Rust
tags: [rust]
---
# Rust {#root}
## Borrowing {#borrowing}
Related: [[memory#safety]]
outgoing:: [[rust#root]]
ingoing:: [[memory#ownership]]

```quiz
id: q1
type: cloze
prompt: One {{c1::owner}} and {{c2::borrowers}}.
```

```quiz
id: q2
type: multiple-choice
mode: single
question: Pick one.
answers:
  - id: yes
    text: Yes
    correct: true
  - id: no
    text: No
    correct: false
```

```quiz
id: q3
type: code-gap
language: rust
code: "let x = {{gap:value}};"
gaps:
  value:
    answer: "1"
```
"#,
    );
    assert_eq!(note.note_id, "rust");
    assert_eq!(note.sections.len(), 2);
    assert_eq!(note.sections[1].parent_uid.as_deref(), Some("rust#root"));
    assert_eq!(note.sections[1].relations[0].target_uid, "memory#safety");
    assert_eq!(note.sections[1].relations[1].relation_type, "outgoing");
    assert_eq!(note.sections[1].relations[2].relation_type, "ingoing");
    assert_eq!(note.sections[1].cards.len(), 4);
    assert!(note.diagnostics.is_empty(), "{:?}", note.diagnostics);
    assert_eq!(note.tags, ["rust"]);
    let uids: Vec<&str> = note.sections[1].cards.iter().map(|card| card.uid.as_str()).collect();
    assert_eq!(
        uids,
        [
            "rust#borrowing/q1:c1",
            "rust#borrowing/q1:c2",
            "rust#borrowing/q2:main",
            "rust#borrowing/q3:main"
        ]
    );
}

#[test]
fn heading_path_names_every_ancestor_and_supersedes_is_a_relation() {
    let note = note_at(
        "obs.md",
        r#"---
id: obs
---
# OBS {#root}
## Cursor follow {#follow}
### Smoothing {#smoothing}
supersedes:: [[obs#old-smoothing]]
## Scenes {#scenes}
"#,
    );

    let paths: Vec<&str> =
        note.sections.iter().map(|section| section.heading_path.as_str()).collect();
    assert_eq!(
        paths,
        [
            "OBS",
            "OBS > Cursor follow",
            "OBS > Cursor follow > Smoothing",
            // Back out to depth 2: the H3 must not stay on the stack.
            "OBS > Scenes",
        ]
    );

    let smoothing = &note.sections[2];
    assert_eq!(smoothing.relations[0].relation_type, "supersedes");
    assert_eq!(smoothing.relations[0].target_uid, "obs#old-smoothing");
}

#[test]
fn advertised_card_templates_are_valid() {
    for capability in card_capabilities() {
        let template = capability.template.replace("${id}", "template-test");
        let note = note_at(
            &format!("{}.md", capability.card_type),
            &format!("# Test {{#root}}\n\n{template}\n"),
        );
        assert!(note.diagnostics.is_empty(), "{:?}", note.diagnostics);
        assert_eq!(note.sections[0].cards[0].card_type, capability.card_type);
    }
}

#[test]
fn every_relation_has_a_prefix() {
    let prefixes: Vec<&str> = relation_capabilities().iter().map(|r| r.prefix).collect();
    assert_eq!(
        prefixes,
        ["", "outgoing:: ", "contradicts:: ", "example-of:: ", "ingoing:: "]
    );
}

#[test]
fn clips_survive_the_round_trip_into_the_mobile_snapshot() {
    let note = note_from(
        "---\nid: rust\ntitle: Rust\n---\n# Rust {#root}\n\n\
         @video https://youtu.be/dQw4w9WgXcQ 06:54  Chapter on borrowing\n\n\
         ```quiz\nid: q1\ntype: cloze\nprompt: A {{c1::mutable}} borrow is exclusive.\n```\n\n\
         ## Elision {#elide}\n\n\
         ```quiz\nid: q2\ntype: cloze\nprompt: Elision {{c1::infers}} lifetimes.\n\
         clip: https://youtu.be/ABCdefGHIjk 12:03-12:40  Elision rules\n```\n",
    );
    let clip = |section: usize| match &note.sections[section].cards[0].content {
        CardContent::Cloze { clips, .. } => clips.answer.as_ref().expect("a clip"),
        other => panic!("expected a cloze card, got {other:?}"),
    };

    let inherited = clip(0);
    assert_eq!(inherited.video_id.as_deref(), Some("dQw4w9WgXcQ"));
    assert_eq!(inherited.start, 414);

    let explicit = clip(1);
    assert_eq!(explicit.video_id.as_deref(), Some("ABCdefGHIjk"));
    assert_eq!(explicit.start, 723);
    assert_eq!(explicit.end, Some(760));
    assert_eq!(explicit.label.as_deref(), Some("Elision rules"));
}

#[test]
fn a_notes_status_is_read_from_its_front_matter() {
    let old = note_at(
        "old.md",
        "---\nid: old\ntitle: Old\nstatus: obsolete\n---\n# Root {#root}\nSharedterm here.\n",
    );
    let new = note_at(
        "new.md",
        "---\nid: new\ntitle: New\n---\n# Root {#root}\nSharedterm here too.\n",
    );
    assert_eq!(old.status.as_deref(), Some("obsolete"));
    assert_eq!(new.status, None, "an unmarked note has no status, not a default");
}

#[test]
fn a_note_without_headings_is_one_section() {
    let note = note_at("sub/my note.md", "Just prose.\n");
    assert_eq!(note.note_id, "sub-my note");
    assert_eq!(note.sections.len(), 1);
    assert_eq!(note.sections[0].uid, "sub-my note#root");
    assert_eq!(note.sections[0].body, "Just prose.\n");
    assert_eq!(note.title, note.sections[0].heading);
    assert_eq!((note.created_at, note.modified_at), (1, 2));
}

#[test]
fn an_id_used_twice_is_reported() {
    let note = note_from("# A {#x}\n\n## B {#x}\n");
    assert_eq!(note.diagnostics.len(), 1, "{:?}", note.diagnostics);
    assert_eq!(note.diagnostics[0].line, 3);
    assert_eq!(note.diagnostics[0].path, "rust.md");
}

#[test]
fn a_quiz_that_cannot_be_read_is_reported() {
    let note = note_from("# A {#x}\n\n```quiz\nid: q\ntype: riddle\n```\n");
    assert_eq!(note.diagnostics.len(), 1, "{:?}", note.diagnostics);
    assert!(note.diagnostics[0].message.contains("unknown variant `riddle`"));
    assert!(note.sections[0].cards.is_empty());
}

#[test]
fn a_quiz_id_used_twice_in_a_note_is_reported() {
    let block = "```quiz\nid: q\ntype: cloze\nprompt: A {{c1::b}}.\n```\n";
    let note = note_from(&format!("# A {{#x}}\n\n{block}\n{block}"));
    assert_eq!(note.diagnostics.len(), 1, "{:?}", note.diagnostics);
    assert_eq!(note.sections[0].cards.len(), 1);
}

#[test]
fn the_sections_make_up_the_note() {
    let source = "---\nid: n\n---\n# A\n\nOne.\n\n## B\n\nTwo.\n\n# C\n";
    let note = note_from(source);
    let bodies: String = note.sections.iter().map(|s| s.body.as_str()).collect();
    assert_eq!(format!("---\nid: n\n---\n{bodies}"), source);
    let uids: Vec<&str> = note.sections.iter().map(|s| s.uid.as_str()).collect();
    assert_eq!(uids, ["n#a", "n#b", "n#c"]);
    let parents: Vec<Option<&str>> =
        note.sections.iter().map(|s| s.parent_uid.as_deref()).collect();
    assert_eq!(parents, [None, Some("n#a"), None]);
    let lines: Vec<usize> = note.sections.iter().map(|s| s.start_line).collect();
    assert_eq!(lines, [4, 8, 12]);
}

#[test]
fn a_content_hash_is_the_hash_of_the_whole_text() {
    let note = note_from("# A\n");
    assert_eq!(note.content_hash, blake3::hash(b"# A\n").to_hex().to_string());
}

#[test]
fn a_cards_hash_is_the_hash_of_its_json() {
    let note = note_from("# A {#x}\n\n```quiz\nid: q\ntype: cloze\nprompt: A {{c1::b}}.\n```\n");
    let card = &note.sections[0].cards[0];
    let json = format!("{:?}", card.content);
    assert_eq!(card.content_hash, blake3::hash(json.as_bytes()).to_hex().to_string());
    assert_eq!(card.variant_key, "c1");
    assert_eq!(card.quiz_id, "q");
    assert_eq!(card.section_uid, "rust#x");
}

#[test]
fn front_matter_ends_at_the_first_line_of_dashes() {
    assert_eq!(
        split_front_matter("---\na: 1\n---\n# H\n---\n"),
        (Some("a: 1".to_string()), 13)
    );
    assert_eq!(split_front_matter("# H\n"), (None, 0));
    assert_eq!(split_front_matter("---\na: 1\n"), (None, 0));
}

#[test]
fn positions_are_counted_in_lines_and_bytes() {
    assert_eq!(line_at("a\nb\nc", 0), 1);
    assert_eq!(line_at("a\nb\nc", 4), 3);
    assert_eq!(byte_range("aéb", 1, 3), "é");
}

#[test]
fn an_id_is_made_of_a_path() {
    assert_eq!(fallback_id("notes/Rust Book.md"), "notes-Rust Book");
    assert_eq!(fallback_id("a/b/v1.2.md"), "a-b-v1.2");
    assert_eq!(fallback_id("notes/.hidden.md"), "notes-.hidden");
    assert_eq!(fallback_id("plain"), "plain");
    assert_eq!(fallback_id("notes/Rust: a book.md"), "notes-Rust: a book");
}

#[test]
fn a_moved_note_keeps_its_identity() {
    let source = "---\nid: book\n---\n# Book {#root}\n\n## Part {#part}\n";
    let before = note_at("inbox/book.md", source);
    let after = note_at("shelf/rust/book.md", source);
    assert_eq!(before.note_id, "book");
    assert_eq!(after.note_id, before.note_id);
    assert_eq!(before.sections.len(), 2);
    assert_eq!(before.sections[1].uid, "book#part");
    for (old, new) in before.sections.iter().zip(after.sections.iter()) {
        assert_eq!(old.uid, new.uid);
    }
}

#[test]
fn a_note_without_an_id_is_named_after_its_place() {
    let note = note_at("inbox/book.md", "# Book {#root}\n");
    assert_eq!(note.note_id, "inbox-book");
    assert_eq!(note.sections[0].uid, "inbox-book#root");
}

#[test]
fn renamed_headings_keep_the_uids_of_cards() {
    let quiz = "```quiz\nid: q1\ntype: cloze\nprompt: A {{c1::b}} and a {{c2::c}}.\n```\n";
    let before = note_at(
        "a.md",
        &format!("---\nid: n\n---\n# One {{#root}}\n\n## Two {{#two}}\n\n{quiz}"),
    );
    let after = note_at(
        "b/c.md",
        &format!("---\nid: n\n---\n# Another {{#root}}\n\n## Quite another {{#two}}\n\n{quiz}"),
    );
    let uids = |note: &ParsedNote| -> Vec<String> {
        note.sections.iter().flat_map(|s| s.cards.iter().map(|c| c.uid.clone())).collect()
    };
    assert_eq!(uids(&before), ["n#two/q1:c1", "n#two/q1:c2"]);
    assert_eq!(uids(&after), uids(&before));
}
