//! What the index keeps and lists: notes, cards, decks, reviews and statistics.

use yalive::archive::{
    archived_items, count_quizzes, Holder, IndexedDeck, IndexedNote, IndexedSection,
};
use yalive::config::ReviewOrder;
use yalive::index::{
    export_text, graph_link, needs_indexing, placeholders, relations, replace_note, search,
    summarise, tags_column, unresolved_contradictions, ContradictionRow, FileOutcome, FileRow,
    IndexRun, IndexSummary, Lookup, NoteWrite, StoredCard, StoredRelation, StoredSection,
};
use yalive::listing::{
    active_decks, broken_links, card_label, card_rows, counted_reviews, deck_size, mobile_row, queue_row,
    toggle_section_review, DeckLink, DeclaredLink, DueDeck, IndexedCard,
    SectionToggle,
};
use yalive::model::{
    ArchivedItem, CardClips, CardContent, CardDefinition, ContradictionPair, Diagnostic,
    ParsedNote, ParsedSection, ReviewEvent, ReviewScope,
};
use yalive::reviews::{
    due_at, due_cards, elapsed_days, grade, import_order, import_review_events, mailbox_lines,
    queue_from, queue_order, remaining,
    reschedule, review_cards, Grade, KnownCard, Limits, QueueRow, Schedule, DAY,
};
use yalive::stats::{
    accuracy, average_response, count_between, count_days, count_ratings, count_topics,
    statistics, streak, weak_notes, Accuracy, LogRow,
};

fn texts(list: &[&str]) -> Vec<String> {
    list.iter().map(|s| s.to_string()).collect()
}

fn indexed(id: i64, quiz: &str, decks: Vec<DeckLink>) -> IndexedCard {
    IndexedCard {
        id,
        note: 1,
        section_uid: "test#root".to_string(),
        quiz_id: quiz.to_string(),
        card_type: "cloze".to_string(),
        note_title: "Test".to_string(),
        heading: "Root".to_string(),
        suspended: false,
        archived: false,
        section_archived: false,
        note_archived: false,
        decks,
    }
}

fn link(deck: i64, archived: bool) -> DeckLink {
    DeckLink { deck, archived }
}

fn queue(cards: &[IndexedCard], due: i64, reviews: u32) -> Vec<QueueRow> {
    cards.iter().filter_map(|card| queue_row(card, due, reviews)).collect()
}

const MANY: Limits = Limits { reviews: 200, new_cards: 20 };

fn due(rows: &Vec<QueueRow>, scope: ReviewScope, force: bool, now: i64) -> Vec<i64> {
    review_cards(rows, scope, force, now, MANY, ReviewOrder::Due, false)
        .into_iter()
        .map(|i| rows[i].id)
        .collect()
}

// -- indexing ----------------------------------------------------------------

#[test]
fn a_run_over_the_vault_is_summed_up() {
    let outcomes = vec![
        FileOutcome::Indexed(2),
        FileOutcome::Unchanged,
        FileOutcome::Failed,
        FileOutcome::Removed,
        FileOutcome::Indexed(0),
    ];
    let summary = summarise(&outcomes).unwrap();
    assert_eq!(
        summary,
        IndexSummary { indexed: 2, unchanged: 1, removed: 1, failed: 1, diagnostics: 2 }
    );
    assert_eq!(summarise(&vec![]), Some(IndexSummary::default()));
}

#[test]
fn only_a_changed_file_is_indexed() {
    let hash = blake3::hash(b"abc").to_hex().to_string();
    assert!(needs_indexing(None, b"abc"));
    assert!(needs_indexing(Some(&hash), b"abd"));
    assert!(needs_indexing(Some("abc"), b"abc"));
    assert!(!needs_indexing(Some(&hash), b"abc"));
}

fn file_row(id: &str, path: &str, content: &[u8]) -> FileRow {
    FileRow {
        note_id: id.to_string(),
        path: path.to_string(),
        hash: blake3::hash(content).to_hex().to_string(),
    }
}

/// A note that lies at a path and has a content.
fn note_of(id: &str, path: &str, content: &[u8]) -> ParsedNote {
    let mut note = parsed();
    note.note_id = id.to_string();
    note.path = path.to_string();
    note.content_hash = blake3::hash(content).to_hex().to_string();
    note
}

#[test]
fn a_second_run_indexes_nothing() {
    let rows = vec![
        file_row("kept", "kept.md", b"kept"),
        file_row("edited", "edited.md", b"before"),
        file_row("moved", "old/moved.md", b"moved"),
        file_row("gone", "gone.md", b"gone"),
        file_row("broken", "broken.md", b"fine"),
    ];
    let mut run = IndexRun::new(rows);
    assert!(!run.visit("kept.md", b"kept"));
    assert!(run.visit("edited.md", b"after"));
    assert!(run.store(&note_of("edited", "edited.md", b"after")));
    assert!(run.visit("new/moved.md", b"moved"));
    assert!(run.store(&note_of("moved", "new/moved.md", b"moved")));
    assert!(run.visit("fresh.md", b"fresh"));
    assert!(run.store(&note_of("fresh", "fresh.md", b"fresh")));
    assert!(run.visit("broken.md", b"broken"));
    run.fail("broken.md");
    assert_eq!(run.finish(), ["gone.md"]);
    let first = run.summary().unwrap();
    assert_eq!(
        first,
        IndexSummary { indexed: 3, unchanged: 1, removed: 1, failed: 1, diagnostics: 3 }
    );

    let mut again = IndexRun::new(vec![
        file_row("kept", "kept.md", b"kept"),
        file_row("edited", "edited.md", b"after"),
        file_row("moved", "new/moved.md", b"moved"),
        file_row("broken", "broken.md", b"fine"),
        file_row("fresh", "fresh.md", b"fresh"),
    ]);
    assert!(!again.visit("kept.md", b"kept"));
    assert!(!again.visit("edited.md", b"after"));
    assert!(!again.visit("new/moved.md", b"moved"));
    assert!(!again.visit("fresh.md", b"fresh"));
    assert!(again.visit("broken.md", b"broken"));
    again.fail("broken.md");
    assert!(again.finish().is_empty());
    assert_eq!(
        again.summary().unwrap(),
        IndexSummary { indexed: 0, unchanged: 4, removed: 0, failed: 1, diagnostics: 0 }
    );
}

#[test]
fn two_notes_cannot_lie_at_one_path() {
    let mut run = IndexRun::new(vec![file_row("a", "a.md", b"a")]);
    assert!(run.visit("a.md", b"b"));
    assert!(!run.store(&note_of("b", "a.md", b"b")));
    assert!(run.store(&note_of("a", "a.md", b"b")));
}

#[test]
fn tags_are_stored_as_json() {
    assert_eq!(
        tags_column(&texts(&["rust", "a \"b\""])).as_deref(),
        Some("[\"rust\",\"a \\\"b\\\"\"]")
    );
    assert_eq!(tags_column(&Vec::new()).as_deref(), Some("[]"));
    assert_eq!(
        tags_column(&texts(&["é\\/", "\u{8}\t\n\u{c}\r\u{1}\u{1f}\u{7f}"])).as_deref(),
        Some("[\"é\\\\/\",\"\\b\\t\\n\\f\\r\\u0001\\u001f\u{7f}\"]")
    );
}

#[test]
fn a_mailbox_is_read_line_by_line() {
    assert_eq!(mailbox_lines("{\"a\":1}\n\n  \n{\"b\":2}"), ["{\"a\":1}", "{\"b\":2}"]);
    assert!(mailbox_lines("").is_empty());
}

fn parsed() -> ParsedNote {
    ParsedNote {
        path: "test.md".to_string(),
        note_id: "test".to_string(),
        title: "Test".to_string(),
        tags: Vec::new(),
        topic: None,
        pinned: false,
        status: None,
        created_at: 0,
        content_hash: "h".to_string(),
        modified_at: 0,
        sections: vec![ParsedSection {
            uid: "test#root".to_string(),
            parent_uid: None,
            heading: "Root".to_string(),
            heading_path: "Root".to_string(),
            level: 1,
            start_byte: 0,
            end_byte: 4,
            start_line: 1,
            position: 0,
            body: "body".to_string(),
            relations: Vec::new(),
            cards: vec![CardDefinition {
                uid: "test#root/q1:c1".to_string(),
                section_uid: "test#root".to_string(),
                quiz_id: "q1".to_string(),
                card_type: "cloze".to_string(),
                variant_key: "c1".to_string(),
                content_hash: "c".to_string(),
                content: CardContent::Cloze {
                    prompt: "{{c1::x}}".to_string(),
                    cloze: 1,
                    clips: CardClips::default(),
                },
            }],
            actions: Vec::new(),
        }],
        diagnostics: vec![Diagnostic {
            path: "test.md".to_string(),
            line: 1,
            message: "m".to_string(),
        }],
    }
}

fn stored(id: i64, uid: &str) -> StoredCard {
    StoredCard {
        id,
        uid: uid.to_string(),
        section_uid: "test#root".to_string(),
        card_type: "cloze".to_string(),
    }
}

#[test]
fn storing_a_note_keeps_the_cards_that_are_still_there() {
    let cards = vec![stored(5, "test#root/q1:c1"), stored(6, "test#root/gone:c1")];
    let sections = vec![
        StoredSection { id: 8, uid: "test#root".to_string() },
        StoredSection { id: 9, uid: "test#gone".to_string() },
    ];
    let writes = replace_note(&parsed(), &cards, &sections);
    assert_eq!(writes[0], NoteWrite::PutFile);
    assert!(writes.contains(&NoteWrite::PutSection(0)));
    assert!(writes.contains(&NoteWrite::PutCard(0, 0)));
    assert!(writes.contains(&NoteWrite::DeleteCard(6)));
    assert!(!writes.contains(&NoteWrite::DeleteCard(5)));
    assert!(writes.contains(&NoteWrite::DeleteSection(9)));
    assert!(!writes.contains(&NoteWrite::DeleteSection(8)));
    assert!(writes.contains(&NoteWrite::ClearDiagnostics));
    assert!(writes.contains(&NoteWrite::PutDiagnostic(0)));
}

// -- relations ---------------------------------------------------------------

fn declared(kind: &str, source: &str, target: &str) -> StoredRelation {
    StoredRelation {
        relation_type: kind.to_string(),
        source_uid: source.to_string(),
        source_heading: source.to_string(),
        target_uid: target.to_string(),
        target_heading: Some(target.to_string()),
        target_exists: true,
    }
}

#[test]
fn builds_graph_with_note_section_and_typed_relation_data() {
    let link = graph_link("outgoing", "alpha#root", "beta#root");
    assert!(
        link.source == "alpha#root"
            && link.target == "beta#root"
            && link.relation_type == "outgoing"
    );
}

#[test]
fn ingoing_relations_point_back_to_the_declaring_section() {
    let link = graph_link("ingoing", "alpha#root", "beta#root");
    assert!(
        link.source == "beta#root"
            && link.target == "alpha#root"
            && link.relation_type == "ingoing"
    );
    let rows = vec![declared("ingoing", "alpha#root", "beta#root")];
    let alpha = relations(&rows, "alpha#root");
    assert!(alpha.iter().any(|relation| {
        relation.incoming
            && relation.target_uid == "beta#root"
            && relation.relation_type == "ingoing"
    }));
    let beta = relations(&rows, "beta#root");
    assert!(beta.iter().any(|relation| {
        !relation.incoming
            && relation.target_uid == "alpha#root"
            && relation.relation_type == "ingoing"
    }));
}

#[test]
fn a_link_to_nothing_is_reported_where_it_stands() {
    let links = vec![
        DeclaredLink { path: "a.md".to_string(), line: 3, target: "b#root".to_string() },
        DeclaredLink { path: "a.md".to_string(), line: 9, target: "gone#root".to_string() },
    ];
    let found = broken_links(&links, &texts(&["a#root", "b#root"]));
    assert_eq!(found.len(), 1);
    assert_eq!(found[0].path, "a.md");
    assert_eq!(found[0].line, 9);
    assert_eq!(found[0].message, "broken link `gone#root`");
}

fn pair(left: &str, right: &str) -> ContradictionRow {
    ContradictionRow {
        pair: ContradictionPair {
            left_uid: left.to_string(),
            left_heading: left.to_string(),
            left_path: left.to_string(),
            right_uid: right.to_string(),
            right_heading: right.to_string(),
            right_path: right.to_string(),
        },
        left_status: None,
        right_status: None,
        superseded: false,
    }
}

#[test]
fn contradictions_are_reported_only_while_nothing_marks_the_winner() {
    let rows = vec![
        pair("a#root", "b#root"),
        ContradictionRow { left_status: Some("obsolete".to_string()), ..pair("c#root", "d#root") },
        ContradictionRow { superseded: true, ..pair("e#root", "f#root") },
    ];
    assert_eq!(unresolved_contradictions(&rows), [0]);
}

#[test]
fn a_mutual_contradiction_is_one_disagreement_not_two() {
    let rows = vec![pair("a#root", "b#root"), pair("b#root", "a#root")];
    assert_eq!(unresolved_contradictions(&rows).len(), 1);
}

// -- search ------------------------------------------------------------------

#[test]
fn an_empty_query_lists_everything() {
    assert!(matches!(search(""), Lookup::Everything));
    assert!(matches!(search("  "), Lookup::Everything));
    assert!(matches!(search("--"), Lookup::Nothing));
    match search("mutable") {
        Lookup::Matching(expression) => assert_eq!(expression, "\"mutable\"*"),
        other => panic!("{other:?}"),
    }
    assert_eq!(placeholders(3), "?,?,?");
    assert_eq!(placeholders(0), "");
    assert_eq!(export_text(&texts(&["a", "b"])), "a\nb\n");
    assert_eq!(export_text(&vec![]), "");
}

// -- what is in view ---------------------------------------------------------

#[test]
fn archived_decks_hide_exclusive_quizzes_until_restored() {
    let hidden = vec![indexed(1, "q1", vec![link(4, true)])];
    assert!(card_rows(&hidden).is_empty());
    assert!(due(&queue(&hidden, 0, 0), ReviewScope::All, false, 10).is_empty());

    let restored = vec![indexed(1, "q1", vec![link(4, false)])];
    assert_eq!(card_rows(&restored).len(), 1);
    assert_eq!(due(&queue(&restored, 0, 0), ReviewScope::All, false, 10).len(), 1);

    let shared = vec![indexed(1, "q1", vec![link(4, true), link(5, false)])];
    assert_eq!(card_rows(&shared)[0].decks, [5]);
    assert_eq!(active_decks(&shared[0].decks), [5]);
}

#[test]
fn archiving_hides_what_belongs_to_it() {
    for hide in [
        |card: &mut IndexedCard| card.suspended = true,
        |card: &mut IndexedCard| card.archived = true,
        |card: &mut IndexedCard| card.section_archived = true,
        |card: &mut IndexedCard| card.note_archived = true,
    ] {
        let mut card = indexed(1, "q1", vec![]);
        assert_eq!(card_rows(&vec![indexed(1, "q1", vec![])]).len(), 1);
        hide(&mut card);
        assert!(queue_row(&card, 0, 0).is_none());
        assert!(card_rows(&vec![card]).is_empty());
    }
}

#[test]
fn archives_notes_sections_and_quizzes_across_reindexing() {
    let note = |archived: bool| {
        vec![IndexedNote {
            file: 1,
            note_id: "test".to_string(),
            title: "Test".to_string(),
            path: "test.md".to_string(),
            archived,
        }]
    };
    let sections = |archived: bool, note_archived: bool| {
        let section = |uid: &str, archived: bool| IndexedSection {
            note: 1,
            uid: uid.to_string(),
            note_title: "Test".to_string(),
            heading: uid.to_string(),
            path: "test.md".to_string(),
            start_line: 1,
            archived,
            note_archived,
        };
        vec![section("test#root", false), section("test#child", archived)]
    };

    let cards = vec![indexed(1, "q1", vec![])];
    let items = archived_items(&note(false), &sections(true, false), &cards, &vec![]);
    assert_eq!(items.len(), 1);
    assert!(matches!(&items[0], ArchivedItem::Section { uid, .. } if uid == "test#child"));

    let archived = vec![
        IndexedCard { archived: true, ..indexed(1, "q1", vec![]) },
        IndexedCard { archived: true, ..indexed(2, "q1", vec![]) },
    ];
    let items = archived_items(&note(false), &sections(false, false), &archived, &vec![]);
    assert_eq!(items.len(), 1);
    match &items[0] {
        ArchivedItem::Quiz { quiz_id, label, card_count, .. } => {
            assert_eq!(quiz_id, "q1");
            assert_eq!(label, "Test / Root / q1");
            assert_eq!(*card_count, 2);
        }
        other => panic!("{other:?}"),
    }

    let hidden = vec![IndexedCard { archived: true, note_archived: true, ..indexed(1, "q1", vec![]) }];
    let items = archived_items(&note(true), &sections(true, true), &hidden, &vec![]);
    assert_eq!(items.len(), 1);
    assert!(matches!(
        items[0],
        ArchivedItem::Note { section_count: 2, quiz_count: 1, .. }
    ));
}

#[test]
fn an_archived_deck_counts_its_quizzes() {
    let cards = vec![
        indexed(1, "q1", vec![link(4, true)]),
        indexed(2, "q1", vec![link(4, true)]),
        indexed(3, "q2", vec![link(4, true)]),
        IndexedCard {
            card_type: "section-review".to_string(),
            ..indexed(4, "section-review", vec![link(4, true)])
        },
    ];
    let decks = vec![IndexedDeck { id: 4, name: "Old".to_string(), archived: true }];
    let items = archived_items(&vec![], &vec![], &cards, &decks);
    assert!(matches!(items[0], ArchivedItem::Deck { id: 4, quiz_count: 2, .. }));
    assert_eq!(count_quizzes(&cards, &Holder::Section("test#root")), 2);
    assert_eq!(deck_size(&cards, 4), 4);
    assert_eq!(deck_size(&cards, 5), 0);
    assert_eq!(card_label(&cards[0]), "Test / Root / q1");
}

#[test]
fn a_section_is_enrolled_and_taken_out_again() {
    assert_eq!(toggle_section_review(None), (SectionToggle::Create, true));
    assert_eq!(toggle_section_review(Some(true)), (SectionToggle::Suspend(true), false));
    assert_eq!(toggle_section_review(Some(false)), (SectionToggle::Suspend(false), true));
}

// -- reviews -----------------------------------------------------------------

#[test]
fn scopes_reviews_by_deck_and_can_force_non_due_cards() {
    let cards = vec![indexed(1, "assigned", vec![link(4, false)]), indexed(2, "loose", vec![])];
    let rows = queue(&cards, 0, 0);
    assert_eq!(due(&rows, ReviewScope::Deck(4), false, 10), [1]);
    assert_eq!(due(&rows, ReviewScope::Deckless, false, 10), [2]);

    let later: Vec<QueueRow> =
        vec![queue_row(&cards[0], 100, 1).unwrap(), queue_row(&cards[1], 0, 0).unwrap()];
    assert!(due(&later, ReviewScope::Deck(4), false, 10).is_empty());
    assert_eq!(due(&later, ReviewScope::Deck(4), true, 10).len(), 1);

    let listed = card_rows(&cards);
    let due_now = vec![DueDeck { deck: 4, cards: due(&later, ReviewScope::Deck(4), false, 10) }];
    let loose = due(&later, ReviewScope::Deckless, false, 10);
    let assigned = mobile_row(1, &listed, &loose, &due_now);
    assert_eq!(assigned.deck_ids, [4]);
    assert!(assigned.due_deck_ids.is_empty());
    assert!(!assigned.due_without_deck);
    let other = mobile_row(2, &listed, &loose, &due_now);
    assert!(other.deck_ids.is_empty());
    assert!(other.due_without_deck);
}

fn row(id: i64, section: &str, reviews: u32) -> QueueRow {
    QueueRow {
        id,
        section_uid: section.to_string(),
        due_at: 0,
        review_count: reviews,
        in_a_deck: false,
        active_decks: Vec::new(),
    }
}

#[test]
fn a_queue_keeps_to_todays_limits() {
    assert_eq!(remaining(20, 200, 5, 190), Limits { new_cards: 15, reviews: 10 });
    assert_eq!(remaining(20, 200, 30, 300), Limits { new_cards: 0, reviews: 0 });
    let rows = vec![row(1, "a", 0), row(2, "b", 0), row(3, "c", 1), row(4, "d", 1)];
    let all = vec![0, 1, 2, 3];
    assert_eq!(queue_from(&rows, &all, Limits { reviews: 9, new_cards: 1 }, false), [0, 2, 3]);
    assert_eq!(queue_from(&rows, &all, Limits { reviews: 2, new_cards: 1 }, false), [0, 2]);
}

#[test]
fn buried_siblings_do_not_meet() {
    let rows = vec![row(1, "a", 1), row(2, "a", 1), row(3, "b", 1)];
    assert_eq!(queue_from(&rows, &vec![0, 1, 2], MANY, true), [0, 2]);
    assert_eq!(queue_from(&rows, &vec![0, 1, 2], MANY, false), [0, 1, 2]);
}

#[test]
fn a_random_queue_holds_the_same_cards() {
    let rows: Vec<QueueRow> = (0..20).map(|i| row(i, "a", 1)).collect();
    let mut ids = review_cards(&rows, ReviewScope::All, false, 1, MANY, ReviewOrder::Random, false);
    ids.sort();
    assert_eq!(ids, (0..20).collect::<Vec<usize>>());
}

#[test]
fn due_cards_come_from_every_deck() {
    let rows = vec![row(1, "a", 1), row(2, "b", 1)];
    assert_eq!(due_cards(&rows, i64::MAX, MANY, ReviewOrder::Due, false), [0, 1]);
    assert!(due_cards(&rows, i64::MIN, MANY, ReviewOrder::Due, false).is_empty());
}

#[test]
fn a_queue_in_due_order_takes_what_is_due_first() {
    let at = |id: i64, due_at: i64| QueueRow { due_at, ..row(id, "a", 1) };
    let rows = queue_order(vec![at(3, 20), at(2, 10), at(9, i64::MIN), at(1, 20), at(4, 10)]);
    let ids: Vec<i64> = rows.iter().map(|row| row.id).collect();
    assert_eq!(ids, [9, 2, 4, 1, 3]);
    let queue = review_cards(&rows, ReviewScope::All, false, 15, MANY, ReviewOrder::Due, false);
    assert_eq!(queue, [0, 1, 2]);
    let all = review_cards(&rows, ReviewScope::All, true, 15, MANY, ReviewOrder::Due, false);
    assert_eq!(all, [0, 1, 2, 3, 4]);
    assert!(queue_order(Vec::new()).is_empty());
}

#[test]
fn reviews_of_suspended_cards_count_and_of_archived_ones_do_not() {
    let cards = vec![
        indexed(1, "q1", vec![]),
        IndexedCard { suspended: true, ..indexed(2, "q2", vec![]) },
        IndexedCard { archived: true, ..indexed(3, "q3", vec![]) },
        IndexedCard { section_archived: true, ..indexed(4, "q4", vec![]) },
        IndexedCard { note_archived: true, ..indexed(5, "q5", vec![]) },
        indexed(6, "q6", vec![link(1, true)]),
        indexed(7, "q7", vec![link(1, true), link(2, false)]),
    ];
    let reviewed = vec![7, 6, 5, 4, 3, 2, 1, 2, 8];
    assert_eq!(counted_reviews(&cards, &reviewed), [0, 5, 6, 7]);
}

fn event(id: &str, card: &str, at: i64, rating: u32) -> ReviewEvent {
    ReviewEvent {
        event_id: id.to_string(),
        device_id: "phone-1".to_string(),
        card_uid: card.to_string(),
        reviewed_at: at,
        rating,
        answer_correct: Some(true),
        response_ms: 500,
    }
}

fn known(uid: &str, last: Option<i64>) -> KnownCard {
    KnownCard { uid: uid.to_string(), last_review_at: last }
}

#[test]
fn imports_mobile_reviews_once() {
    let events = vec![event("phone-1-event-1", "card", 100, 3)];
    let cards = vec![known("card", None)];
    let steps = import_review_events(&events, &vec![], &cards);
    assert_eq!(steps.len(), 1);
    assert!(!steps[0].late);
    let seen = texts(&["phone-1-event-1"]);
    assert!(import_review_events(&events, &seen, &cards).is_empty());
}

#[test]
fn events_are_imported_in_the_order_in_which_they_happened() {
    let events =
        vec![event("b", "card", 200, 3), event("c", "card", 100, 3), event("a", "card", 200, 3)];
    assert_eq!(import_order(&events), [1, 2, 0]);
    let steps = import_review_events(&events, &vec![], &vec![known("card", Some(150))]);
    let late: Vec<(usize, bool)> = steps.iter().map(|s| (s.event, s.late)).collect();
    assert_eq!(late, [(1, true), (2, false), (0, true)]);
}

#[test]
fn events_that_were_imported_are_not_imported_in_another_order() {
    let cards = vec![known("card", None), known("other", None)];
    let events = vec![event("a", "card", 1, 3), event("b", "other", 2, 4), event("c", "card", 3, 1)];
    let steps = import_review_events(&events, &vec![], &cards);
    assert_eq!(steps.len(), 3);
    let seen: Vec<String> = steps.iter().map(|s| events[s.event].event_id.clone()).collect();
    let later = vec![known("card", Some(3)), known("other", Some(2))];
    let again = vec![event("c", "card", 3, 1), event("a", "card", 1, 3), event("c", "card", 3, 1)];
    assert!(import_review_events(&again, &seen, &later).is_empty());
}

#[test]
fn what_cannot_be_imported_is_passed_over() {
    let mut blank = event(" ", "card", 1, 3);
    blank.device_id = "phone".to_string();
    let events = vec![blank, event("a", "card", 1, 0), event("b", "card", 1, 5), event("c", "x", 1, 3)];
    assert!(import_review_events(&events, &vec![], &vec![known("card", None)]).is_empty());
}

#[test]
fn a_review_is_graded_and_scheduled() {
    assert_eq!(grade(0), None);
    assert_eq!(grade(1), Some(Grade::Again));
    assert_eq!(grade(4), Some(Grade::Easy));
    assert_eq!(grade(5), None);
    assert_eq!(elapsed_days(None, 5), 0);
    assert_eq!(elapsed_days(Some(0), 2 * DAY + 5), 2);
    assert_eq!(elapsed_days(Some(10), 5), 0);
    assert_eq!(due_at(100, 3), 100 + 3 * 86_400);
    let before = Schedule {
        due_at: 0,
        last_review_at: None,
        scheduled_days: 0,
        review_count: 4,
        lapse_count: 1,
    };
    let good = reschedule(before, Grade::Good, 100, 3);
    assert_eq!((good.due_at, good.last_review_at), (100 + 3 * DAY, Some(100)));
    assert_eq!((good.review_count, good.lapse_count, good.scheduled_days), (5, 1, 3));
    assert_eq!(reschedule(before, Grade::Again, 100, 1).lapse_count, 2);
}

// -- statistics --------------------------------------------------------------

fn log(at: i64, rating: u32, correct: Option<bool>, ms: Option<i64>, note: i64) -> LogRow {
    LogRow {
        reviewed_at: at,
        rating,
        answer_correct: correct,
        response_ms: ms,
        note,
        title: format!("note {note}"),
    }
}

#[test]
fn reviews_are_counted_by_day() {
    let times = vec![0, 10, DAY, 3 * DAY];
    assert_eq!(count_between(&times, 0, DAY), 2);
    assert_eq!(count_days(&times, 0, 4), [(0, 2), (DAY, 1), (2 * DAY, 0), (3 * DAY, 1)]);
    assert_eq!(streak(&times, DAY, 365), 2);
    assert_eq!(streak(&times, 3 * DAY, 365), 1);
    assert_eq!(streak(&times, 2 * DAY, 365), 0);
}

#[test]
fn a_review_succeeds_by_its_answer_or_its_rating() {
    let rows = vec![
        log(5, 4, Some(false), Some(100), 1),
        log(6, 1, Some(true), Some(201), 1),
        log(7, 2, None, None, 2),
        log(8, 1, None, Some(-2), 2),
    ];
    assert_eq!(accuracy(&rows, 0), Some(Accuracy { correct: 2, total: 4 }));
    assert_eq!(accuracy(&rows, 9), None);
    assert_eq!(average_response(&rows, 0), Some(99));
    assert_eq!(average_response(&rows, 9), None);
    assert_eq!(count_ratings(&rows, 0), [2, 1, 0, 1]);
}

#[test]
fn notes_that_go_wrong_come_first() {
    let rows = vec![
        log(1, 3, Some(true), None, 1),
        log(1, 3, Some(false), None, 1),
        log(1, 3, Some(false), None, 2),
        log(1, 3, Some(false), None, 2),
        log(1, 3, Some(false), None, 3),
    ];
    let weak = weak_notes(&rows, 0);
    let titles: Vec<&str> = weak.iter().map(|w| w.title.as_str()).collect();
    assert_eq!(titles, ["note 2", "note 1"]);
    assert_eq!((weak[1].reviews, weak[1].correct), (2, 1));
}

#[test]
fn topics_are_counted_once() {
    let topics = vec![
        Some("a".to_string()),
        Some("a".to_string()),
        Some("b".to_string()),
        None,
        Some("  ".to_string()),
    ];
    assert_eq!(count_topics(&topics), (3, 2));
}

#[test]
fn statistics_are_drawn_from_the_log() {
    let now = 100 * DAY + 50;
    let day = 100 * DAY;
    let rows = vec![
        log(day + 1, 3, Some(true), Some(1000), 1),
        log(day - DAY, 1, Some(false), Some(3000), 1),
        log(day - 20 * DAY, 4, None, None, 1),
    ];
    let stats = statistics(&vec![None], 7, &vec![now, now + 1, day + DAY], &rows, now, day);
    assert_eq!(stats.note_count, 1);
    assert_eq!(stats.untopiced_count, 1);
    assert_eq!(stats.card_count, 7);
    assert_eq!(stats.due_now, 1);
    assert_eq!((stats.reviewed_today, stats.reviewed_week), (1, 2));
    assert_eq!(stats.accuracy_week, Some(Accuracy { correct: 1, total: 2 }));
    assert_eq!(stats.accuracy_month, Some(Accuracy { correct: 2, total: 3 }));
    assert_eq!(stats.average_response_ms, Some(2000));
    assert_eq!(stats.streak_days, 2);
    assert_eq!(stats.rating_counts, [1, 0, 1, 1]);
    assert_eq!(stats.daily_reviews.len(), 14);
    assert_eq!(stats.daily_reviews[13], (day, 1));
    assert_eq!(stats.due_forecast.len(), 7);
    assert_eq!(stats.due_forecast[0], (day, 2));
    assert_eq!(stats.due_forecast[1], (day + DAY, 1));
    assert_eq!(stats.weak_notes.len(), 1);
}
