//! Small text tools, the palette, the keymap, and what moves.

use yalive::app::actions::{
    activate_deck, archive_selected, assign_clean_card, change_active_deck, change_query,
    consume_graph_command, context, delete_clean_image, follow_relation, graph_command,
    handle_key, jump_to_relations, media_selected, open_selected, review_scope, run_action, run_command,
    settle, takes_graph_command, target_file, toggle_selected_card_deck,
    toggle_selected_section, Effect, Message, Outcome, Query, Target,
};
use yalive::app::cursor::{
    change_option, clamp, clamp_relation_section, clamp_relations, clamp_selected, go_to,
    move_page, move_panel_focus, move_relation_selection, page_total, step, Cursor, OPTION_COUNT,
};
use yalive::app::images::{
    file_kind, image_targets, orphan_images, wiki_targets, FileKind, VaultImage,
};
use yalive::app::items::{
    choose_video, first_image, first_url, media_of, video_to_play, CleanItem, Data, LibraryItem,
    ReviewItem,
};
use yalive::app::keymap::{
    bindings, prompt_hint, review_session_bindings, shifted_panel_direction, tab_for, Action,
    Context, Direction, Key, KeyCode, KeyPress, Media, Selected,
};
use yalive::app::messages::{
    assignment_text, done_text, enrolment_text, index_text, message_text, not_found, playing_text,
    review_text, session_text, single_text, Status,
};
use yalive::app::palette::{entry, is_subsequence, matching, Command, ENTRY_COUNT};
use yalive::app::util::{
    archived_item_label, canonical_answer, day_label, display_markdown, editor_command,
    expand_home, fit,
    free_note_stem, matches_gap, new_note, new_note_source, new_note_stem, normalize, pad,
    short_date, target_without_fragment, vault_choice,
};
use yalive::app::{Mode, Page};
use yalive::config::{ReviewOrder, ReviewSettings};
use yalive::index::IndexSummary;
use yalive::model::{
    ActionRow, ArchivedItem, CardClips, CardContent, CardRow, DeckRow, GapDefinition,
    MatchOptions, NoteRow, RelationRow, ReviewScope, ReviewSectionRow, SectionRow,
};

const PAGES: [Page; 7] = [
    Page::Library,
    Page::Review,
    Page::Relations,
    Page::Stats,
    Page::Clean,
    Page::Options,
    Page::Archived,
];

fn section(uid: &str, note: &str, heading: &str, body: &str, path: &str) -> SectionRow {
    SectionRow {
        uid: uid.to_string(),
        note_title: note.to_string(),
        heading: heading.to_string(),
        heading_path: heading.to_string(),
        body: body.to_string(),
        path: path.to_string(),
        start_line: 7,
        status: None,
    }
}

fn note(title: &str, topic: Option<&str>, path: &str) -> NoteRow {
    NoteRow {
        title: title.to_string(),
        topic: topic.map(|t| t.to_string()),
        pinned: false,
        created_at: 0,
        modified_at: 0,
        path: path.to_string(),
    }
}

fn relation(kind: &str, target: &str, incoming: bool) -> RelationRow {
    RelationRow {
        relation_type: kind.to_string(),
        target_uid: target.to_string(),
        target_heading: None,
        incoming,
    }
}

/// A vault with two notes, a child section and a relation between them.
fn data() -> Data {
    Data {
        sections: vec![
            section("linear#root", "Linear Algebra", "Linear Algebra", "Vectors.", "linear.md"),
            section("rust#root", "Rust Ownership", "Rust Ownership", "Memory.", "rust.md"),
            section("rust#borrow", "Rust Ownership", "Borrowing", "[[linear#root]]", "rust.md"),
        ],
        notes: vec![
            note("Linear Algebra", Some("Mathematics"), "linear.md"),
            note("Rust Ownership", Some("Programming"), "rust.md"),
        ],
        review_sections: vec![ReviewSectionRow {
            uid: "rust#borrow".to_string(),
            note_title: "Rust Ownership".to_string(),
            heading: "Borrowing".to_string(),
            enrolled: false,
        }],
        decks: Vec::new(),
        cards: Vec::new(),
        archived: Vec::new(),
        orphan_images: Vec::new(),
        relations: vec![relation("related", "linear#root", false)],
    }
}

fn deck(id: i64, name: &str) -> DeckRow {
    DeckRow { id, name: name.to_string(), card_count: 1 }
}

fn card(id: i64, label: &str, decks: Vec<i64>) -> CardRow {
    CardRow {
        id,
        label: label.to_string(),
        decks,
        section_uid: "rust#borrow".to_string(),
        card_type: "cloze".to_string(),
    }
}

fn key(code: KeyCode) -> KeyPress {
    KeyPress { code, control: false, shift: false }
}

fn typed(c: char) -> KeyPress {
    key(KeyCode::Char(c))
}

fn on(page: Page) -> Cursor {
    Cursor { page, ..Cursor::default() }
}

fn settings() -> ReviewSettings {
    ReviewSettings::default()
}

// -- text --------------------------------------------------------------------

#[test]
fn fit_marks_where_it_cut() {
    assert_eq!(fit("Sync now", 20), "Sync now");
    assert_eq!(fit("Set a repository first", 10), "Set a rep…");
    assert_eq!(fit("abc", 0), "");
    assert_eq!(fit("abc", 1), "…");
}

#[test]
fn fit_counts_characters_not_bytes() {
    assert_eq!(fit("émigré", 20), "émigré");
    assert_eq!(fit("日本語のノート", 3), "日本…");
}

#[test]
fn pad_fills_to_exactly_the_requested_width() {
    assert_eq!(pad("ab", 5).chars().count(), 5);
    assert_eq!(pad("abcdefgh", 5).chars().count(), 5);
}

#[test]
fn util_matches_normalized_and_regex_gaps() {
    let normalized = GapDefinition {
        answer: Some("a + b".to_string()),
        answers: None,
        regex: None,
        options: MatchOptions { trim: true, normalize_whitespace: true, case_sensitive: true },
    };
    assert!(matches_gap(" a  +  b ", &normalized));

    let regex = GapDefinition {
        answer: None,
        answers: None,
        regex: Some(r"^values(?:\.iter\(\))?$".to_string()),
        options: MatchOptions::default(),
    };
    assert!(matches_gap("values.iter()", &regex));
}

#[test]
fn app_matches_normalized_and_regex_gaps() {
    let normalized = GapDefinition {
        answer: Some("a + b".to_string()),
        answers: None,
        regex: None,
        options: MatchOptions { trim: true, normalize_whitespace: true, case_sensitive: true },
    };
    assert!(matches_gap(" a  +  b ", &normalized));
    let regex = GapDefinition {
        answer: None,
        answers: None,
        regex: Some(r"^values(?:\.iter\(\))?$".to_string()),
        options: MatchOptions::default(),
    };
    assert!(matches_gap("values.iter()", &regex));
}

#[test]
fn a_gap_takes_any_of_its_answers() {
    let gap = GapDefinition {
        answer: None,
        answers: Some(vec!["One".to_string(), "two".to_string()]),
        regex: None,
        options: MatchOptions { trim: true, normalize_whitespace: false, case_sensitive: false },
    };
    assert!(matches_gap(" one ", &gap));
    assert!(matches_gap("TWO", &gap));
    assert!(!matches_gap("three", &gap));
    assert_eq!(canonical_answer(&gap), "One");
    assert_eq!(normalize(" A  b ", MatchOptions::default()), "A  b");
}

#[test]
fn a_pattern_that_cannot_be_read_matches_nothing() {
    let gap = GapDefinition {
        answer: None,
        answers: None,
        regex: Some("(".to_string()),
        options: MatchOptions::default(),
    };
    assert!(!matches_gap("(", &gap));
}

#[test]
fn display_markdown_drops_the_leading_heading() {
    let rendered = display_markdown("# Borrowing {#borrow}\n\nA borrow is a reference.\n");
    assert!(!rendered.contains('#'));
    assert!(rendered.starts_with("A borrow"));
}

#[test]
fn display_markdown_keeps_a_body_that_starts_with_prose() {
    let rendered = display_markdown("Just prose.\n\n## Later heading\n");
    assert!(rendered.starts_with("Just prose."));
    assert!(rendered.contains("## Later heading"));
}

#[test]
fn images_and_quizzes_are_shown_as_text() {
    assert_eq!(
        display_markdown("See ![pic](a.png).\n"),
        "See [Image: pic] (press i to open).\n"
    );
    assert_eq!(display_markdown("```quiz\nid: q\n```\nx"), "[Quiz card]\nx");
}

#[test]
fn dates_are_printed_in_utc() {
    assert_eq!(short_date(0), "1970-01-01");
    assert_eq!(short_date(951782400), "2000-02-29");
    assert_eq!(day_label(0), "Thu 01");
    assert_eq!(short_date(i64::MAX), "unknown");
}

#[test]
fn a_typed_path_is_made_absolute() {
    assert_eq!(expand_home("~/vault", Some("/home/x"), "/cwd").as_deref(), Some("/home/x/vault"));
    assert_eq!(expand_home("vault", Some("/home/x"), "/cwd").as_deref(), Some("/cwd/vault"));
    assert_eq!(expand_home("/vault", None, "/cwd").as_deref(), Some("/vault"));
    assert_eq!(expand_home("~", Some("/home/x"), "/cwd").as_deref(), Some("/home/x"));
}

#[test]
fn a_fragment_is_dropped_from_a_target() {
    assert_eq!(target_without_fragment("a.png#x"), "a.png");
    assert_eq!(target_without_fragment("a.png?v=2"), "a.png");
}

#[test]
fn a_new_note_gets_a_name_that_is_free() {
    assert_eq!(new_note_stem("Rust Book", 0), "rust-book");
    assert_eq!(new_note_stem("Rust Book", 2), "rust-book-2");
    let taken = vec!["rust-book".to_string(), "rust-book-2".to_string()];
    assert_eq!(free_note_stem("Rust Book", &taken).as_deref(), Some("rust-book-3"));
    assert_eq!(free_note_stem("Go", &taken).as_deref(), Some("go"));
    let source = new_note_source("go", "Go", "\"Go\"");
    assert!(source.starts_with("---\nid: go\ntitle: \"Go\"\n"), "{source}");
    assert!(source.contains("# Go {#root}"), "{source}");
}

#[test]
fn a_single_review_is_told_by_its_page() {
    assert_eq!(single_text(Page::Clean, true), "reviewing unassigned card");
    assert_eq!(single_text(Page::Review, true), "reviewing selected card");
    assert_eq!(single_text(Page::Clean, false), "card was deleted; list refreshed");
}

#[test]
fn a_new_note_is_made_of_what_was_typed() {
    let taken = vec!["say-hi".to_string()];
    let note = new_note("  Say \"hi\" ", &taken).unwrap();
    assert_eq!(note.stem, "say-hi-2");
    assert_eq!(
        note.source,
        "---\nid: say-hi-2\ntitle: \"Say \\\"hi\\\"\"\ntopic:\npinned: false\n---\n\n\
         # Say \"hi\" {#root}\n\n"
    );
}

#[test]
fn an_editor_is_the_configured_one_then_that_of_the_environment() {
    assert_eq!(
        editor_command(Some("code -w"), Some("vi"), Some("nano"), 8, "a b.md"),
        ["code", "-w", "+8", "a b.md"]
    );
    assert_eq!(editor_command(None, Some("vi"), Some("nano"), 1, "n.md"), ["vi", "+1", "n.md"]);
    assert_eq!(editor_command(None, None, Some("nano"), 1, "n.md"), ["nano", "+1", "n.md"]);
    assert_eq!(editor_command(None, None, None, 12, "n.md"), ["nvim", "+12", "n.md"]);
    assert_eq!(editor_command(Some("  "), None, None, 1, "n.md"), ["nvim", "+1", "n.md"]);
}

#[test]
fn a_vault_is_opened_or_created() {
    assert_eq!(vault_choice(" Open\n"), Some(false));
    assert_eq!(vault_choice("c\n"), Some(true));
    assert_eq!(vault_choice("\n"), None);
}

#[test]
fn a_graph_command_is_a_json_string() {
    assert_eq!(graph_command("\"welcome#root\"").as_deref(), Ok("welcome#root"));
    let told = graph_command("welcome").unwrap_err();
    assert!(told.starts_with("ignored invalid ygraphy command: "), "{told}");
    assert!(told.len() > "ignored invalid ygraphy command: ".len());
}

#[test]
fn an_extension_counts_in_any_case() {
    assert_eq!(file_kind("PNG"), FileKind::Image);
    assert_eq!(file_kind("Md"), FileKind::Markdown);
    assert_eq!(file_kind("exe"), FileKind::Other);
}

#[test]
fn an_archived_item_is_named() {
    let deck = ArchivedItem::Deck { id: 1, name: "Old".to_string(), quiz_count: 2 };
    assert_eq!(archived_item_label(&deck), "deck Old");
}

// -- images ------------------------------------------------------------------

#[test]
fn finds_only_unreferenced_images() {
    let referenced = image_targets("# Note\n\n![Used](assets/used.png)\n");
    assert_eq!(referenced, ["assets/used.png"]);
    let image = |path: &str, name: &str| VaultImage {
        path: path.to_string(),
        name: Some(name.to_string()),
        relative: Some(path.to_string()),
    };
    let images = vec![
        image("assets/used.png", "used.png"),
        image("assets/unused.jpg", "unused.jpg"),
    ];
    assert_eq!(orphan_images(&images, &referenced, &vec![]), ["assets/unused.jpg"]);
}

#[test]
fn an_embedded_name_keeps_an_image() {
    let names = wiki_targets("![[pic.png]]\n");
    assert_eq!(names, ["pic.png"]);
    let images = vec![VaultImage {
        path: "a/pic.png".to_string(),
        name: Some("pic.png".to_string()),
        relative: Some("a/pic.png".to_string()),
    }];
    assert!(orphan_images(&images, &vec![], &names).is_empty());
    assert_eq!(orphan_images(&images, &vec![], &vec![]), ["a/pic.png"]);
}

#[test]
fn files_are_told_apart_by_extension() {
    assert_eq!(file_kind("md"), FileKind::Markdown);
    assert_eq!(file_kind("png"), FileKind::Image);
    assert_eq!(file_kind("rs"), FileKind::Other);
}

// -- palette -----------------------------------------------------------------

#[test]
fn an_empty_query_offers_every_command() {
    assert_eq!(matching("").len(), ENTRY_COUNT);
}

#[test]
fn contiguous_matches_outrank_scattered_ones() {
    let results = matching("new");
    assert!(results[0].name.starts_with("New"));
}

#[test]
fn initials_find_a_command() {
    let results = matching("nn");
    assert!(results.iter().any(|entry| entry.name == "New note"));
}

#[test]
fn a_query_matching_nothing_returns_nothing() {
    assert!(matching("zzzz").is_empty());
}

#[test]
fn letters_match_in_order() {
    let letters = |s: &str| s.chars().collect::<Vec<char>>();
    assert!(is_subsequence(&letters("nn"), &letters("new note")));
    assert!(!is_subsequence(&letters("ton"), &letters("note")));
    assert_eq!(entry(0).command.page(), Some(Page::Clean));
    assert_eq!(Command::Quit.page(), None);
}

// -- keymap ------------------------------------------------------------------

const SELECTIONS: [Selected; 6] = [
    Selected::Nothing,
    Selected::Note,
    Selected::Section,
    Selected::Deck,
    Selected::Card,
    Selected::Image,
];

fn contexts() -> Vec<Context> {
    let mut all = Vec::new();
    for page in PAGES {
        for selected in SELECTIONS {
            for bits in 0..16 {
                all.push(Context {
                    page,
                    selected,
                    media: Media { video: bits & 1 != 0, url: bits & 2 != 0, image: bits & 4 != 0 },
                    adjustable: bits & 8 != 0,
                });
            }
        }
    }
    all
}

#[test]
fn every_advertised_binding_is_dispatchable() {
    for c in contexts() {
        let list = bindings(c);
        assert!(!list.is_empty(), "{} advertises no keys at all", c.page.label());
        for binding in &list {
            let press = match binding.key {
                Key::Char(c) => typed(c),
                Key::Enter => key(KeyCode::Enter),
                Key::Space => typed(' '),
                Key::Ctrl(c) => KeyPress { code: KeyCode::Char(c), control: true, shift: false },
            };
            assert!(
                binding.key.matches(press),
                "{} on {} does not match its own key event",
                binding.label,
                c.page.label()
            );
        }
    }
}

#[test]
fn no_page_binds_one_key_twice() {
    for c in contexts() {
        let mut seen: Vec<String> = Vec::new();
        for binding in bindings(c) {
            let key = binding.key.label();
            assert!(!seen.contains(&key), "{} binds {key} twice", c.page.label());
            seen.push(key);
        }
    }
}

#[test]
fn media_keys_appear_only_when_the_section_has_media() {
    let mut d = data();
    d.notes = vec![note("Clip", None, "clip.md"), note("Plain", None, "plain.md")];
    d.sections = vec![
        section(
            "clip#root",
            "Clip",
            "Clip",
            "@video https://www.youtube.com/watch?v=dQw4w9WgXcQ 06:54  A moment\n",
            "clip.md",
        ),
        section("plain#root", "Plain", "Plain", "Just prose.\n", "plain.md"),
    ];
    let labels = |selected: usize| -> Vec<&'static str> {
        let c = Cursor { selected, ..on(Page::Library) };
        let media = media_selected(&d, c);
        bindings(context(&d, c, media)).into_iter().map(|binding| binding.label).collect()
    };
    let place = |title: &str| {
        d.library_items()
            .iter()
            .position(|item| match item {
                LibraryItem::Note(index) => d.notes[*index].title == title,
                LibraryItem::Section(_) => false,
            })
            .expect("the note is listed")
    };
    assert!(labels(place("Clip")).contains(&"play clip"));
    assert!(!labels(place("Plain")).contains(&"play clip"));
}

#[test]
fn digits_select_the_four_tabs() {
    let d = data();
    let mut c = Cursor::default();
    for (digit, expected) in [
        ('1', Page::Library),
        ('2', Page::Review),
        ('3', Page::Relations),
        ('4', Page::Stats),
    ] {
        c = handle_key(&d, c, "", typed(digit)).cursor;
        assert!(c.page == expected, "{digit} did not open {}", expected.label());
        assert_eq!(tab_for(digit), Some(expected));
    }
    // The pages that lost their digits must not answer to the old ones.
    c = handle_key(&d, c, "", typed('5')).cursor;
    assert!(c.page == Page::Stats);
}

#[test]
fn escape_leaves_a_palette_only_page() {
    let d = data();
    let c = go_to(Cursor::default(), Page::Archived);
    let c = handle_key(&d, c, "", key(KeyCode::Esc)).cursor;
    assert!(c.page == Page::Library);
}

#[test]
fn the_palette_opens_pages_that_are_no_longer_tabs() {
    let d = data();
    let mut query = String::new();
    let mut c = Cursor::default();
    let mut press = |c: &mut Cursor, press: KeyPress| {
        let out = handle_key(&d, *c, &query, press);
        query = change_query(&query, out.query, None);
        *c = out.cursor;
    };
    press(&mut c, KeyPress { code: KeyCode::Char('k'), control: true, shift: false });
    assert!(c.mode == Mode::Palette);

    for character in "clean".chars() {
        press(&mut c, typed(character));
    }
    press(&mut c, key(KeyCode::Enter));

    assert!(c.mode == Mode::Browse);
    assert!(c.page == Page::Clean);
}

#[test]
fn a_failure_is_marked_so_the_footer_can_colour_it() {
    let mut status = Status::new();
    status.note("indexed");
    assert!(!status.error);
    status.fail("could not reach the remote");
    assert!(status.error);
    status.note("recovered");
    assert!(!status.error);
}

#[test]
fn mod_follows_incoming_and_outgoing_relations() {
    let mut d = data();
    let at = d.sections.iter().position(|section| section.uid == "rust#borrow").unwrap();
    let c = Cursor { relation_section: at, ..on(Page::Relations) };
    assert_eq!(d.outgoing_relations().len(), 1);

    let out = follow_relation(&d, c, "linear#root").expect("the target is indexed");
    assert_eq!(d.sections[out.cursor.relation_section].uid, "linear#root");
    assert_eq!(out.effect, Effect::LoadRelations);
    d.relations = vec![relation("related", "rust#borrow", true)];
    assert_eq!(d.incoming_relations().len(), 1);
}

#[test]
fn a_relation_to_nothing_is_not_followed() {
    assert!(follow_relation(&data(), on(Page::Relations), "gone#root").is_none());
    assert!(not_found("gone#root").contains("gone#root"));
}

#[test]
fn mod_consumes_ygraphy_focus_commands() {
    let d = data();
    let (c, out) = consume_graph_command(&d, Cursor::default(), "linear#root");
    assert!(c.page == Page::Relations);
    assert!(out.is_some());
    let c = out.unwrap().cursor;
    assert!(c.page == Page::Relations);
    assert_eq!(d.sections[c.relation_section].uid, "linear#root");
}

#[test]
fn a_graph_command_waits_for_the_review_session_to_end() {
    let c = Cursor { mode: Mode::Review, ..Cursor::default() };
    assert!(!takes_graph_command(c), "the review session was interrupted");
    let c = Cursor { mode: Mode::Browse, ..c };
    assert!(takes_graph_command(c));
    let (c, _) = consume_graph_command(&data(), c, "linear#root");
    assert!(c.page == Page::Relations);
}

#[test]
fn mod_moves_panel_focus_spatially() {
    let mut c = on(Page::Library);
    c = move_panel_focus(c, Direction::Right);
    assert_eq!(c.focused_panel, 1);
    c = move_panel_focus(c, Direction::Down);
    assert_eq!(c.focused_panel, 2);
    c = move_panel_focus(c, Direction::Up);
    assert_eq!(c.focused_panel, 1);
    c = move_panel_focus(c, Direction::Left);
    assert_eq!(c.focused_panel, 0);
}

#[test]
fn shift_and_a_letter_move_focus() {
    let shifted = |c: char| KeyPress { code: KeyCode::Char(c), control: false, shift: true };
    assert_eq!(shifted_panel_direction(shifted('H')), Some(Direction::Left));
    assert_eq!(shifted_panel_direction(shifted('l')), Some(Direction::Right));
    assert_eq!(shifted_panel_direction(shifted('J')), Some(Direction::Down));
    assert_eq!(shifted_panel_direction(shifted('k')), Some(Direction::Up));
    assert_eq!(
        shifted_panel_direction(KeyPress { code: KeyCode::Char('j'), control: true, shift: false }),
        None
    );
}

#[test]
fn panel_focus_stays_inside_every_page() {
    for page in PAGES {
        let mut c = on(page);
        for direction in [
            Direction::Right,
            Direction::Down,
            Direction::Right,
            Direction::Down,
            Direction::Left,
            Direction::Up,
        ] {
            c = move_panel_focus(c, direction);
        }
        assert!(c.focused_panel < 4, "{} left focus at {}", page.label(), c.focused_panel);
    }
}

#[test]
fn a_review_session_offers_the_keys_of_its_card() {
    let cloze = CardContent::Cloze {
        prompt: "{{c1::x}}".to_string(),
        cloze: 1,
        clips: CardClips::default(),
    };
    assert_eq!(
        review_session_bindings(Some(&cloze), false, false),
        [("space", "reveal"), ("esc", "end session")]
    );
    assert_eq!(
        review_session_bindings(Some(&cloze), true, true),
        [("1-4", "rate"), ("v", "play clip"), ("esc", "end session")]
    );
    assert_eq!(
        review_session_bindings(None, false, false),
        [("⏎", "finish"), ("esc", "end session")]
    );
}

#[test]
fn a_prompt_says_how_to_leave_it() {
    assert_eq!(prompt_hint(Mode::Search), Some("⏎ open   esc back"));
    assert_eq!(prompt_hint(Mode::Browse), None);
    assert_eq!(Key::Ctrl('k').label(), "^k");
    assert_eq!(Key::Enter.label(), "⏎");
}

// -- lists and cursors -------------------------------------------------------

#[test]
fn notes_come_with_their_sections() {
    let d = data();
    assert_eq!(
        d.library_items(),
        [LibraryItem::Note(0), LibraryItem::Note(1), LibraryItem::Section(2)]
    );
    assert_eq!(d.selected_library_section(1), Some(1));
    assert_eq!(d.selected_library_section(2), Some(2));
    assert_eq!(d.first_section("rust.md"), Some(1));
    assert_eq!(d.find_section("gone"), None);
}

#[test]
fn what_needs_cleaning_is_listed() {
    let mut d = data();
    d.notes.push(note("Loose", None, "loose.md"));
    d.cards = vec![card(1, "a", vec![]), card(2, "b", vec![4])];
    d.orphan_images = vec!["x.png".to_string()];
    assert_eq!(
        d.clean_items(),
        [CleanItem::Note(2), CleanItem::Card(0), CleanItem::Image(0)]
    );
}

#[test]
fn reviews_are_organised_in_sections_decks_and_cards() {
    let mut d = data();
    d.decks = vec![deck(4, "Exam")];
    d.cards = vec![card(1, "a", vec![])];
    assert_eq!(
        d.review_items(),
        [ReviewItem::Section(0), ReviewItem::Deck(0), ReviewItem::Card(0)]
    );
    assert_eq!(page_total(&d, Page::Review), 3);
    assert_eq!(page_total(&d, Page::Options), OPTION_COUNT);
}

#[test]
fn a_step_stays_in_the_list() {
    assert_eq!(step(0, false, 3), 0);
    assert_eq!(step(1, true, 3), 2);
    assert_eq!(step(2, true, 3), 2);
    assert_eq!(clamp(9, 3), 2);
    assert_eq!(clamp(9, 0), 0);
    let d = data();
    let c = move_page(&d, on(Page::Library), true);
    assert_eq!(c.selected, 1);
    assert_eq!(clamp_selected(&d, Cursor { selected: 50, ..c }).selected, 2);
    assert_eq!(settle(&d, Cursor { selected: 50, ..c }).selected, 2);
}

#[test]
fn relations_are_moved_through_pane_by_pane() {
    let d = data();
    let c = Cursor { relation_section: 1, focused_panel: 1, ..on(Page::Relations) };
    let (c, reload) = move_relation_selection(&d, c, true);
    assert_eq!(c.relation_section, 2);
    assert!(reload);
    let c = Cursor { outgoing_selected: 7, incoming_selected: 7, ..c };
    let c = clamp_relations(&d, c);
    assert_eq!((c.incoming_selected, c.outgoing_selected), (0, 0));
    let c = clamp_relation_section(&d, Cursor { relation_section: 9, ..c });
    assert_eq!(c.relation_section, 2);
}

#[test]
fn options_are_stepped_within_their_bounds() {
    let (s, p) = change_option(settings(), 90, 0, true);
    assert_eq!(p, 91);
    assert_eq!(s, settings());
    let (_, p) = change_option(settings(), 99, 0, true);
    assert_eq!(p, 99);
    let (s, _) = change_option(settings(), 90, 3, true);
    assert_eq!(s.review_order, ReviewOrder::Random);
    let (s, _) = change_option(settings(), 90, 4, true);
    assert!(!s.bury_siblings);
    assert!(s.limits_are_valid());
}

// -- actions -----------------------------------------------------------------

#[test]
fn opening_a_row_edits_its_file() {
    let d = data();
    let out = open_selected(&d, Cursor { selected: 2, ..on(Page::Library) });
    assert_eq!(out.effect, Effect::Edit(Target::Section(2)));
    assert_eq!(target_file(&d, Target::Section(2)), Some(("rust.md".to_string(), 7)));
    assert_eq!(target_file(&d, Target::Note(1)), Some(("rust.md".to_string(), 1)));
}

#[test]
fn archiving_takes_what_is_selected() {
    let mut d = data();
    let effect = |d: &Data, page: Page, selected: usize| {
        archive_selected(d, Cursor { selected, ..on(page) }).effect
    };
    assert_eq!(effect(&d, Page::Library, 0), Effect::ArchiveNote(0));
    assert_eq!(effect(&d, Page::Library, 2), Effect::ArchiveSection(2));
    d.decks = vec![deck(4, "Exam")];
    d.cards = vec![card(1, "a", vec![])];
    assert_eq!(effect(&d, Page::Review, 0), Effect::ArchiveReviewSection(0));
    assert_eq!(effect(&d, Page::Review, 1), Effect::ArchiveDeck(0));
    assert_eq!(effect(&d, Page::Review, 2), Effect::ArchiveCard(0));
    d.notes.clear();
    d.cards.clear();
    d.orphan_images = vec!["x.png".to_string()];
    let out: Outcome = archive_selected(&d, on(Page::Clean));
    assert_eq!(out.message, Message::ImagesStay);
    assert_eq!(out.effect, Effect::Nothing);
}

#[test]
fn sections_are_enrolled_and_cards_assigned() {
    let mut d = data();
    d.cards = vec![card(1, "a", vec![])];
    let out = toggle_selected_section(&d, on(Page::Review));
    assert_eq!(out.effect, Effect::ToggleSection(0));
    let out = toggle_selected_section(&d, Cursor { selected: 1, ..on(Page::Review) });
    assert_eq!(out.message, Message::SelectSection);
    let c = Cursor { selected: 1, ..on(Page::Review) };
    assert_eq!(toggle_selected_card_deck(&d, c).message, Message::CreateDeckFirst);
    d.decks = vec![deck(4, "Exam"), deck(5, "Later")];
    let c = Cursor { selected: 3, active_deck: 1, ..on(Page::Review) };
    assert_eq!(toggle_selected_card_deck(&d, c).effect, Effect::ToggleCardDeck(0, 1));
    let c = change_active_deck(&d, Cursor { active_deck: 1, ..c }, true).cursor;
    assert_eq!(c.active_deck, 1);
    let c = change_active_deck(&d, c, false).cursor;
    assert_eq!(c.active_deck, 0);
    assert_eq!(activate_deck(&d, c, "Later").active_deck, 1);
    let out = assign_clean_card(&d, on(Page::Clean));
    assert_eq!(out.effect, Effect::ToggleCardDeck(0, 0));
}

#[test]
fn only_an_image_is_deleted() {
    let mut d = data();
    assert_eq!(delete_clean_image(&d, on(Page::Clean)).message, Message::SelectImage);
    d.orphan_images = vec!["x.png".to_string()];
    assert_eq!(delete_clean_image(&d, on(Page::Clean)).effect, Effect::DeleteImage(0));
}

#[test]
fn a_section_leads_to_its_relations() {
    let d = data();
    let out = jump_to_relations(&d, Cursor { selected: 2, ..on(Page::Library) });
    assert_eq!(out.cursor.page, Page::Relations);
    assert_eq!(out.cursor.relation_section, 2);
    assert_eq!(out.effect, Effect::LoadRelations);
}

#[test]
fn every_command_does_its_work() {
    let c = Cursor::default();
    assert_eq!(run_command(c, Command::Quit).effect, Effect::Quit);
    assert_eq!(run_command(c, Command::SyncNow).effect, Effect::Sync);
    assert_eq!(run_command(c, Command::OpenArchived).cursor.page, Page::Archived);
    assert_eq!(run_command(c, Command::NewNote).cursor.mode, Mode::NoteInput);
    let out = run_command(c, Command::CreateVault);
    assert_eq!(out.cursor.mode, Mode::VaultInput);
    assert!(out.cursor.create_vault);
    assert_eq!(run_command(c, Command::SetRepository).query, Query::Remote);
    assert_eq!(run_action(&data(), c, Action::Quit).effect, Effect::Quit);
    assert_eq!(run_action(&data(), c, Action::Help).cursor.mode, Mode::Help);
}

#[test]
fn typing_changes_the_query() {
    assert_eq!(change_query("ab", Query::Push('c'), None), "abc");
    assert_eq!(change_query("ab", Query::Pop, None), "a");
    assert_eq!(change_query("", Query::Pop, None), "");
    assert_eq!(change_query("ab", Query::Clear, None), "");
    assert_eq!(change_query("ab", Query::Keep, None), "ab");
    assert_eq!(change_query("ab", Query::Remote, Some("url")), "url");
}

#[test]
fn a_q_that_is_typed_does_not_quit() {
    let c = Cursor { mode: Mode::NoteInput, ..Cursor::default() };
    let out = handle_key(&data(), c, "x", typed('q'));
    assert_eq!(out.effect, Effect::Nothing);
    assert_eq!(out.query, Query::Push('q'));
}

#[test]
fn a_review_is_started_for_a_scope() {
    let mut d = data();
    d.decks = vec![deck(4, "Exam")];
    assert_eq!(review_scope(&d, 0), Some((ReviewScope::Deckless, "No deck".to_string())));
    assert_eq!(review_scope(&d, 1), Some((ReviewScope::Deck(4), "Exam".to_string())));
    assert_eq!(review_scope(&d, 2), None);
}

// -- media -------------------------------------------------------------------

#[test]
fn media_is_found_in_a_body() {
    let body = "See https://youtu.be/ABC and ![x](a.png).";
    let media = media_of(body);
    assert!(media.video && media.url && media.image);
    assert_eq!(first_url(body).as_deref(), Some("https://youtu.be/ABC"));
    assert_eq!(first_image(body).as_deref(), Some("a.png"));
    let plain = media_of("Just prose.");
    assert!(!plain.video && !plain.url && !plain.image);
}

#[test]
fn a_declared_video_is_played_before_one_in_the_text() {
    let actions = vec![
        ActionRow {
            section_uid: "a#b".to_string(),
            kind: "app".to_string(),
            target: "x".to_string(),
            line: None,
            timestamp_seconds: None,
        },
        ActionRow {
            section_uid: "a#b".to_string(),
            kind: "video".to_string(),
            target: "https://youtu.be/ABC".to_string(),
            line: None,
            timestamp_seconds: Some(9),
        },
    ];
    assert_eq!(
        video_to_play(&actions, "https://youtu.be/XYZ"),
        Some(("https://youtu.be/ABC".to_string(), Some(9)))
    );
    assert_eq!(
        video_to_play(&vec![], "https://youtu.be/XYZ"),
        Some(("https://youtu.be/XYZ".to_string(), None))
    );
    assert_eq!(choose_video(&vec![], None), None);
}

// -- messages ----------------------------------------------------------------

#[test]
fn messages_say_what_happened() {
    let mut d = data();
    let c = Cursor::default();
    assert_eq!(message_text(&d, c, "", Message::Keep), None);
    let said = |d: &Data, message: Message| message_text(d, c, "abc", message).unwrap().0;
    assert_eq!(said(&d, Message::SelectImage), "select an unreferenced image first");
    assert_eq!(said(&d, Message::DeckPrompt), "New deck name: abc");
    assert_eq!(said(&d, Message::SelectedSection(2)), "selected Borrowing");
    assert_eq!(
        said(&d, Message::VaultPrompt),
        "Open vault path: abc  Enter confirm  Esc cancel"
    );
    assert_eq!(
        done_text(&d, Page::Library, Effect::ArchiveNote(0)).as_deref(),
        Some("archived note Linear Algebra and its contents")
    );
    assert_eq!(done_text(&d, Page::Library, Effect::ArchiveNote(9)), None);
    d.cards = vec![card(1, "a / b / c", vec![])];
    assert_eq!(
        done_text(&d, Page::Review, Effect::ArchiveCard(0)).as_deref(),
        Some("archived quiz a / b / c")
    );
    assert!(enrolment_text(true, "Rust", "Borrowing").contains("Borrowing"));
    assert_ne!(enrolment_text(true, "a", "b"), enrolment_text(false, "a", "b"));
    assert!(assignment_text(Page::Review, true, "a", "Exam").contains("Exam"));
    assert!(session_text(false, 3, "Exam").contains("Exam"));
    let summary =
        IndexSummary { indexed: 1, unchanged: 4, removed: 0, failed: 0, diagnostics: 0 };
    assert_ne!(index_text(&summary), None);
    assert!(playing_text("https://youtu.be/ABC", Some(414)).contains("6:54"));
    assert!(review_text(Some(4)).contains('4'));
    assert_ne!(review_text(None), review_text(Some(1)));
}
