//! What the pages show, as lines of text.

use yalive::app::items::Data;
use yalive::app::keymap::{bindings, Context, Media, Selected};
use yalive::app::palette::matching;
use yalive::app::ui::lines::{Line, Role};
use yalive::app::ui::widgets::{
    centered, empty_state, gutter, heading, kv, list_state, meter, pane_title, rule, spread, Area,
};
use yalive::app::ui::{archived, chrome, clean, library, options, relations, review, stats};
use yalive::app::{Mode, Page};
use yalive::config::ReviewSettings;
use yalive::model::{
    ArchivedItem, CardRow, DeckRow, NoteRow, RelationRow, ReviewSectionRow, SectionRow,
};
use yalive::stats::{statistics, LogRow};

fn text(line: &Line) -> String {
    line.spans.iter().map(|s| s.text.as_str()).collect()
}

fn shown(lines: &[Line]) -> String {
    lines.iter().map(text).collect::<Vec<_>>().join("\n")
}

fn data() -> Data {
    let section = |uid: &str, heading: &str, path: &str| SectionRow {
        uid: uid.to_string(),
        note_title: "Rust Ownership".to_string(),
        heading: heading.to_string(),
        heading_path: heading.to_string(),
        body: format!("# {heading}\n\nBody of {heading}.\n"),
        path: path.to_string(),
        start_line: 1,
        status: None,
    };
    Data {
        sections: vec![
            section("rust#root", "Rust Ownership", "rust.md"),
            section("rust#borrow", "Borrowing", "rust.md"),
        ],
        notes: vec![NoteRow {
            title: "Rust Ownership".to_string(),
            topic: None,
            pinned: true,
            created_at: 0,
            modified_at: 0,
            path: "rust.md".to_string(),
        }],
        review_sections: vec![ReviewSectionRow {
            uid: "rust#borrow".to_string(),
            note_title: "Rust Ownership".to_string(),
            heading: "Borrowing".to_string(),
            enrolled: true,
        }],
        decks: vec![DeckRow { id: 4, name: "Exam".to_string(), card_count: 1 }],
        cards: vec![CardRow {
            id: 1,
            label: "Rust Ownership / Borrowing / q1".to_string(),
            decks: vec![],
            section_uid: "rust#borrow".to_string(),
            card_type: "cloze".to_string(),
        }],
        archived: vec![ArchivedItem::Deck { id: 9, name: "Old".to_string(), quiz_count: 3 }],
        orphan_images: vec!["a.png".to_string()],
        relations: vec![RelationRow {
            relation_type: "related".to_string(),
            target_uid: "linear#root".to_string(),
            target_heading: Some("Linear Algebra".to_string()),
            incoming: false,
        }],
    }
}

fn no_media() -> Media {
    Media { video: false, url: false, image: false }
}

#[test]
fn a_spread_row_fills_its_width() {
    let row = spread("left", "right", 20, Role::Dim);
    assert_eq!(text(&row), "left           right");
    assert_eq!(row.width(), 20);
    assert_eq!(spread("a long text", "right", 4, Role::Dim).width(), 4);
}

#[test]
fn a_bar_is_in_proportion() {
    assert_eq!(text(&meter(0, 10, 5)), "·····");
    assert_eq!(text(&meter(1, 10, 5)), "█····");
    assert_eq!(text(&meter(10, 10, 5)), "█████");
    assert_eq!(text(&meter(3, 0, 5)), "█████");
}

#[test]
fn widgets_keep_to_their_width() {
    assert_eq!(text(&heading("signals")), "SIGNALS");
    assert_eq!(text(&rule(3)), "───");
    assert_eq!(text(&kv("path", "rust.md", 40)), "path     rust.md");
    assert_eq!(kv("path", "a very long value", 12).width(), 12);
    assert_eq!(list_state(Some(9), 3), Some(2));
    assert_eq!(list_state(Some(0), 0), None);
    assert_eq!(shown(&pane_title("Notes", true, 9)), "Notes\n─────");
    assert_eq!(shown(&empty_state("none", "press n")), "\nnone\n\npress n");
}

#[test]
fn a_centered_area_lies_inside() {
    let area = Area { x: 10, y: 10, width: 20, height: 10 };
    assert_eq!(centered(area, 10, 4), Area { x: 15, y: 13, width: 10, height: 4 });
    assert_eq!(centered(area, 100, 100), Area { x: 11, y: 11, width: 18, height: 8 });
    assert_eq!(gutter(area), Area { x: 12, y: 10, width: 16, height: 10 });
}

#[test]
fn the_tabs_name_the_page_and_the_vault() {
    let context = chrome::context("brain", 3);
    assert_eq!(text(&context), "brain  ·  3 due");
    let row = text(&chrome::tab_line(Page::Review, &context, 80));
    assert!(row.starts_with("  Library   Review   Relations   Stats"), "{row}");
    assert!(row.ends_with("brain  ·  3 due"), "{row}");
    assert_eq!(text(&chrome::tab_underline(Page::Review, 80).unwrap()), "            ──────");
    assert!(chrome::tab_underline(Page::Review, 5).is_none());
    let row = text(&chrome::tab_line(Page::Clean, &context, 30));
    assert!(row.ends_with("Stats   ·   Clean"), "{row}");
}

#[test]
fn the_footer_keeps_to_its_width() {
    let c = Context {
        page: Page::Library,
        selected: Selected::Note,
        media: no_media(),
        adjustable: false,
    };
    let list = bindings(c);
    for width in [0, 5, 10, 20, 40, 80, 200] {
        assert!(chrome::key_hints(&list, width).width() <= width);
    }
    assert!(text(&chrome::key_hints(&list, 40)).starts_with("⏎ open   n new note"));
    assert!(text(&chrome::status_line("indexed", false, 40).unwrap()).contains("indexed"));
    assert!(chrome::status_line("", false, 40).is_none());
}

#[test]
fn overlays_are_filled() {
    assert_eq!(chrome::palette_rows(&matching(""), 60).len(), 12);
    let c = Context {
        page: Page::Library,
        selected: Selected::Nothing,
        media: no_media(),
        adjustable: false,
    };
    assert!(shown(&chrome::help_lines(&bindings(c))).contains("search"));
    assert!(chrome::prompt(Mode::NoteInput, false).is_some());
    assert!(chrome::prompt(Mode::Browse, false).is_none());
    assert_ne!(chrome::prompt(Mode::VaultInput, true), chrome::prompt(Mode::VaultInput, false));
    assert!(shown(&chrome::prompt_lines("abc", "hint")).contains("abc"));
    assert!(text(&chrome::input_line("abc")).contains("abc"));
}

#[test]
fn the_library_shows_notes_and_their_sections() {
    let d = data();
    let (rows, at) = library::tree(&d, 1, 40);
    let all = shown(&rows);
    assert!(all.contains("Rust Ownership"), "{all}");
    assert!(all.contains("Borrowing"), "{all}");
    assert!(text(&rows[at.unwrap()]).contains("Borrowing"));
    let (title, lines) = library::preview(&d, 1, 40);
    assert!(title.contains("Borrowing"), "{title}");
    assert!(shown(&lines).contains("Body of Borrowing."));
    assert!(shown(&library::recent(&d.notes, 0, 40)).contains("Rust Ownership"));
    assert_eq!(library::count_sections(1), "1 section");
    assert_eq!(library::count_sections(2), "2 sections");
}

#[test]
fn the_review_page_shows_decks_and_cards() {
    let d = data();
    let (rows, at) = review::organiser(&d, 1, 0, 50);
    assert!(text(&rows[at.unwrap()]).contains("Exam"), "{}", shown(&rows));
    let (_, lines) = review::detail(&d, 2, 0, 50);
    assert!(!lines.is_empty());
    assert_eq!(review::active_deck_name(&d, 0, "none"), "Exam");
    assert_eq!(review::active_deck_name(&d, 9, "none"), "none");
    assert_eq!(review::choice_rows(&d).len(), 2);
    assert!(review::choice_keys().width() > 0);
}

#[test]
fn what_needs_cleaning_is_shown() {
    let d = data();
    let (rows, at) = clean::queue(&d, 2, 50);
    assert!(text(&rows[at.unwrap()]).contains("a.png"), "{}", shown(&rows));
    let (_, lines) = clean::detail(&d, 2, 0, "12 KB", 50);
    assert!(shown(&lines).contains("12 KB"), "{}", shown(&lines));
}

#[test]
fn the_archive_is_shown() {
    let d = data();
    assert_eq!(archived::describe(&d.archived[0]), ("deck", "Old"));
    assert!(shown(&archived::rows(&d.archived, 40)).contains("Old"));
    let (_, lines) = archived::detail(&d.archived, 0, 40);
    assert!(shown(&lines).contains('3'), "{}", shown(&lines));
}

#[test]
fn relations_are_shown_by_direction() {
    let d = data();
    assert!(shown(&relations::relation_rows(&d, false, 60)).contains("Linear Algebra"));
    assert!(!shown(&relations::relation_rows(&d, true, 60)).contains("Linear Algebra"));
    assert_eq!(relations::section_rows(&d.sections, 40).len(), 2);
    assert_eq!(relations::section_title(&d.sections, 1), "rust#borrow");
    assert_eq!(relations::section_title(&d.sections, 9), "Sections");
    assert_eq!(relations::found_rows(&d.sections, 40).len(), 2);
    assert!(shown(&relations::search_header("abc", 2)).contains("abc"));
    assert!(shown(&relations::found_preview(&d.sections, 1).1).contains("Body of Borrowing."));
}

#[test]
fn options_are_shown_with_their_values() {
    let settings = ReviewSettings::default();
    let rows = options::rows(settings, "90%", None, 60);
    assert!(rows.len() >= 10);
    let all = shown(&rows);
    assert!(all.contains("90%") && all.contains("200"), "{all}");
    assert_eq!(options::value(1, settings, "90%", None), "20");
    assert!(!options::label(0).is_empty() && !options::help(0).is_empty());
    assert_eq!(options::sentences("One. Two."), ["One", "Two."]);
    let (title, lines) = options::detail(0, Some("vim"), 5, "mpv", 60);
    assert_eq!(title, options::label(0));
    assert!(!lines.is_empty());
}

#[test]
fn statistics_are_shown() {
    let log: Vec<LogRow> = vec![];
    let all = statistics(&vec![], 0, &vec![], &log, 100 * 86_400, 100 * 86_400);
    assert!(shown(&stats::due_cell(3, 20)).contains('3'));
    assert!(shown(&stats::accuracy_cell("85%", 20)).contains("85%"));
    assert!(shown(&stats::streak_cell(2, 1, 20)).contains('2'));
    assert!(text(&stats::bar_row("Mon", 2, 4, 30)).contains("Mon"));
    assert!(!stats::activity(&all, "--", 40).is_empty());
    assert!(!stats::signals(&all, "--", &vec![], 40).is_empty());
}
