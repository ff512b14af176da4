//! What keys do: from where the user stands and the key, to where they stand next and what
//! has to be done.

use vstd::prelude::*;
use vstd::string::*;

use crate::app::cursor::{
    clamp, clamped, go_to, gone_to, move_page, move_panel_focus, move_relation_selection,
    page_moved, relation_moved, step, stepped, focus_after, Cursor, ADJUSTABLE_OPTIONS,
};
use crate::app::items::{
    clean_rows_need_cleaning, image_pattern, lemma_section_with_uid, library_rows_exist, media_in,
    media_of, relations_point_one_way, review_rows_exist, section_with_uid, CleanItem, Data,
    LibraryItem, ReviewItem,
};
use crate::app::keymap::{
    direction_of, resolve, resolved, shifted_panel_direction, Action, Context, KeyCode, KeyPress,
    Media, Resolved, Selected,
};
use crate::app::palette::{
    entries_view, fitting, matching, Command, Entry, EntryView,
};
use crate::app::{Mode, Page};
use crate::model::{ArchivedItem, ReviewScope};
use crate::outside::{json_text, read_json_string, regex_matches};
use crate::parser::found_or_none;
use crate::player::url_pattern;
use crate::text::{glue, lowercase_of, text_eq, to_chars, trim, trimmed};

verus! {

// ---------------------------------------------------------------------------
// Outcomes
// ---------------------------------------------------------------------------

/// Something that an editor can open.
#[derive(Debug, Clone, Copy, PartialEq, Eq, Structural)]
pub enum Target {
    Note(usize),
    Section(usize),
    Archived(usize),
}

/// What has to be done. Rows are named by their place.
#[derive(Debug, Clone, Copy, PartialEq, Eq, Structural)]
pub enum Effect {
    Nothing,
    Quit,
    Sync,
    Reindex,
    Authenticate,
    /// Load the relations of the section that the Relations page shows.
    LoadRelations,
    /// Load the sections that match the query.
    Search,
    /// Load all sections.
    ReloadSections,
    Edit(Target),
    /// Review a card now, if it still exists.
    ReviewCard(usize),
    /// Open an image that no note shows.
    OpenOrphan(usize),
    ArchiveNote(usize),
    ArchiveSection(usize),
    ArchiveReviewSection(usize),
    ArchiveDeck(usize),
    /// Archive the quiz of a card, or the section that the card reviews as a whole.
    ArchiveCard(usize),
    Restore(usize),
    ToggleSection(usize),
    /// Put a card into a deck, or take it out.
    ToggleCardDeck(usize, usize),
    DeleteImage(usize),
    /// Adjust the selected option up or down.
    Adjust(bool),
    PlayVideo(usize),
    OpenUrl(usize),
    OpenImage(usize),
    /// Review the chosen deck; the flag says whether cards that are not due come up too.
    StartReview(bool),
    /// Hand the key to the review session.
    ReviewKey,
    CreateDeck,
    CreateNote,
    OpenVault,
    SaveRemote,
}

/// What is said to the user.
#[derive(Debug, Clone, Copy, PartialEq, Eq, Structural)]
pub enum Message {
    /// What was said before stays.
    Keep,
    SelectSection,
    SelectCard,
    CreateDeckFirst,
    ImagesStay,
    SelectUnassigned,
    CreateDeckOnPage,
    SelectImage,
    ActiveDeck(usize),
    RestoreFirst,
    SelectedSection(usize),
    RelationNotFound(usize),
    DeckPrompt,
    NotePrompt,
    VaultPrompt,
    RepositoryPrompt,
}

/// What becomes of the text that is typed.
#[derive(Debug, Clone, Copy, PartialEq, Eq, Structural)]
pub enum Query {
    Keep,
    Clear,
    /// It becomes the vault's remote.
    Remote,
    Pop,
    Push(char),
}

/// What a key comes to.
#[derive(Debug, Clone, Copy, PartialEq, Eq, Structural)]
pub struct Outcome {
    pub cursor: Cursor,
    pub effect: Effect,
    pub message: Message,
    pub query: Query,
}

pub open spec fn done(cursor: Cursor) -> Outcome {
    Outcome { cursor, effect: Effect::Nothing, message: Message::Keep, query: Query::Keep }
}

pub open spec fn asking(cursor: Cursor, effect: Effect) -> Outcome {
    Outcome { effect, ..done(cursor) }
}

pub open spec fn saying(cursor: Cursor, message: Message) -> Outcome {
    Outcome { message, ..done(cursor) }
}

fn only(cursor: Cursor) -> (r: Outcome)
    ensures
        r == done(cursor),
{
    Outcome { cursor, effect: Effect::Nothing, message: Message::Keep, query: Query::Keep }
}

fn ask(cursor: Cursor, effect: Effect) -> (r: Outcome)
    ensures
        r == asking(cursor, effect),
{
    Outcome { cursor, effect, message: Message::Keep, query: Query::Keep }
}

fn say(cursor: Cursor, message: Message) -> (r: Outcome)
    ensures
        r == saying(cursor, message),
{
    Outcome { cursor, effect: Effect::Nothing, message, query: Query::Keep }
}

/// The text that is typed, after a change.
pub open spec fn query_after(query: Seq<char>, change: Query, remote: Option<Seq<char>>) -> Seq<
    char,
> {
    match change {
        Query::Keep => query,
        Query::Clear => Seq::empty(),
        Query::Remote => match remote {
            Some(url) => url,
            None => Seq::empty(),
        },
        Query::Pop => if query.len() > 0 {
            query.drop_last()
        } else {
            query
        },
        Query::Push(c) => query.push(c),
    }
}

/// Changes the text that is typed.
pub fn change_query(query: &str, change: Query, remote: Option<&str>) -> (r: String)
    ensures
        r@ == query_after(query@, change, crate::text::opt_str_view(remote)),
{
    match change {
        Query::Keep => query.to_owned(),
        Query::Clear => {
            let r = String::new();
            assert(r@ == Seq::<char>::empty());
            r
        },
        Query::Remote => match remote {
            Some(url) => url.to_owned(),
            None => {
                let r = String::new();
                assert(r@ == Seq::<char>::empty());
                r
            },
        },
        Query::Pop => {
            let chars = to_chars(query);
            if chars.len() > 0 {
                let r = crate::text::from_chars(
                    crate::text::cut(chars.as_slice(), 0, chars.len() - 1),
                );
                assert(r@ == query@.drop_last());
                r
            } else {
                query.to_owned()
            }
        },
        Query::Push(c) => {
            let mut r = query.to_owned();
            r.push(c);
            r
        },
    }
}

// ---------------------------------------------------------------------------
// Opening
// ---------------------------------------------------------------------------

/// Following a relation: its other end becomes the section that is shown.
pub open spec fn followed(data: Data, c: Cursor, uid: Seq<char>) -> Option<Outcome> {
    match section_with_uid(data.sections@, uid, 0) {
        Some(i) => Some(
            Outcome {
                cursor: Cursor {
                    relation_section: i,
                    incoming_selected: 0,
                    outgoing_selected: 0,
                    focused_panel: 1,
                    ..c
                },
                effect: Effect::LoadRelations,
                message: Message::SelectedSection(i),
                query: Query::Keep,
            },
        ),
        None => None,
    }
}

/// Follows a relation to a section; `None` where there is no such section.
pub fn follow_relation(data: &Data, c: Cursor, uid: &str) -> (r: Option<Outcome>)
    ensures
        r == followed(*data, c, uid@),
{
    match data.find_section(uid) {
        Some(i) => {
            let mut next = c;
            next.relation_section = i;
            next.incoming_selected = 0;
            next.outgoing_selected = 0;
            next.focused_panel = 1;
            Some(
                Outcome {
                    cursor: next,
                    effect: Effect::LoadRelations,
                    message: Message::SelectedSection(i),
                    query: Query::Keep,
                },
            )
        },
        None => None,
    }
}

/// Following the relation at a place of one of the two lists.
pub open spec fn followed_at(data: Data, c: Cursor, incoming: bool, place: usize) -> Outcome {
    let list = data.spec_relations(incoming);
    if place < list.len() {
        let i = list[place as int];
        match followed(data, c, data.relations@[i as int].target_uid@) {
            Some(outcome) => outcome,
            None => saying(c, Message::RelationNotFound(i)),
        }
    } else {
        done(c)
    }
}

fn follow_at(data: &Data, c: Cursor, incoming: bool, place: usize) -> (r: Outcome)
    ensures
        r == followed_at(*data, c, incoming, place),
{
    let list = data.pointing(incoming);
    if place < list.len() {
        let i: usize = list[place];
        let count: usize = data.relations.len();
        proof {
            relations_point_one_way(*data, incoming, place as int);
        }
        match follow_relation(data, c, data.relations[i].target_uid.as_str()) {
            Some(outcome) => outcome,
            None => say(c, Message::RelationNotFound(i)),
        }
    } else {
        only(c)
    }
}

pub open spec fn library_opened(data: Data, c: Cursor) -> Outcome {
    match data.library_at(c.selected) {
        Some(LibraryItem::Note(i)) => asking(c, Effect::Edit(Target::Note(i))),
        Some(LibraryItem::Section(i)) => asking(c, Effect::Edit(Target::Section(i))),
        None => done(c),
    }
}

pub open spec fn review_opened(data: Data, c: Cursor) -> Outcome {
    match data.review_at(c.selected) {
        Some(ReviewItem::Section(i)) => match section_with_uid(
            data.sections@,
            data.review_sections@[i as int].uid@,
            0,
        ) {
            Some(s) => asking(c, Effect::Edit(Target::Section(s))),
            None => done(c),
        },
        Some(ReviewItem::Deck(i)) => saying(
            Cursor { active_deck: i, ..c },
            Message::ActiveDeck(i),
        ),
        Some(ReviewItem::Card(i)) => asking(c, Effect::ReviewCard(i)),
        None => done(c),
    }
}

pub open spec fn relations_opened(data: Data, c: Cursor) -> Outcome {
    if c.focused_panel == 0 {
        followed_at(data, c, true, c.incoming_selected)
    } else if c.focused_panel == 1 {
        if c.relation_section < data.sections@.len() {
            asking(c, Effect::Edit(Target::Section(c.relation_section)))
        } else {
            done(c)
        }
    } else if c.focused_panel == 2 {
        followed_at(data, c, false, c.outgoing_selected)
    } else {
        done(c)
    }
}

pub open spec fn clean_opened(data: Data, c: Cursor) -> Outcome {
    match data.clean_at(c.selected) {
        Some(CleanItem::Note(i)) => asking(c, Effect::Edit(Target::Note(i))),
        Some(CleanItem::Card(i)) => asking(c, Effect::ReviewCard(i)),
        Some(CleanItem::Image(i)) => asking(c, Effect::OpenOrphan(i)),
        None => done(c),
    }
}

pub open spec fn option_opened(c: Cursor) -> Outcome {
    if c.selected == 5 {
        asking(c, Effect::Authenticate)
    } else if c.selected == 6 {
        Outcome {
            message: Message::RepositoryPrompt,
            query: Query::Remote,
            ..done(Cursor { mode: Mode::GitRemoteInput, ..c })
        }
    } else if c.selected == 7 {
        asking(c, Effect::Sync)
    } else if c.selected == 8 || c.selected == 9 {
        Outcome {
            message: Message::VaultPrompt,
            query: Query::Clear,
            ..done(
                Cursor { create_vault: c.selected == 9, mode: Mode::VaultInput, ..c },
            )
        }
    } else {
        done(c)
    }
}

pub open spec fn archived_opened(data: Data, c: Cursor) -> Outcome {
    if c.selected < data.archived@.len() {
        match data.archived@[c.selected as int] {
            ArchivedItem::Note { .. } | ArchivedItem::Section { .. } => asking(
                c,
                Effect::Edit(Target::Archived(c.selected)),
            ),
            _ => saying(c, Message::RestoreFirst),
        }
    } else {
        done(c)
    }
}

/// What opening the selection comes to.
pub open spec fn opened(data: Data, c: Cursor) -> Outcome {
    match c.page {
        Page::Library => library_opened(data, c),
        Page::Review => review_opened(data, c),
        Page::Relations => relations_opened(data, c),
        Page::Stats => done(c),
        Page::Clean => clean_opened(data, c),
        Page::Options => option_opened(c),
        Page::Archived => archived_opened(data, c),
    }
}

/// Opens the selection of the page.
pub fn open_selected(data: &Data, c: Cursor) -> (r: Outcome)
    ensures
        r == opened(*data, c),
{
    match c.page {
        Page::Library => {
            let items = data.library_items();
            if c.selected < items.len() {
                match items[c.selected] {
                    LibraryItem::Note(i) => ask(c, Effect::Edit(Target::Note(i))),
                    LibraryItem::Section(i) => ask(c, Effect::Edit(Target::Section(i))),
                }
            } else {
                only(c)
            }
        },
        Page::Review => {
            let items = data.review_items();
            if c.selected < items.len() {
                let (a, b, d) = (data.review_sections.len(), data.decks.len(), data.cards.len());
                proof {
                    review_rows_exist(*data, c.selected as int);
                }
                match items[c.selected] {
                    ReviewItem::Section(i) => match data.find_section(
                        data.review_sections[i].uid.as_str(),
                    ) {
                        Some(s) => ask(c, Effect::Edit(Target::Section(s))),
                        None => only(c),
                    },
                    ReviewItem::Deck(i) => {
                        let mut next = c;
                        next.active_deck = i;
                        say(next, Message::ActiveDeck(i))
                    },
                    ReviewItem::Card(i) => ask(c, Effect::ReviewCard(i)),
                }
            } else {
                only(c)
            }
        },
        Page::Relations => if c.focused_panel == 0 {
            follow_at(data, c, true, c.incoming_selected)
        } else if c.focused_panel == 1 {
            if c.relation_section < data.sections.len() {
                ask(c, Effect::Edit(Target::Section(c.relation_section)))
            } else {
                only(c)
            }
        } else if c.focused_panel == 2 {
            follow_at(data, c, false, c.outgoing_selected)
        } else {
            only(c)
        },
        Page::Stats => only(c),
        Page::Clean => {
            let items = data.clean_items();
            if c.selected < items.len() {
                match items[c.selected] {
                    CleanItem::Note(i) => ask(c, Effect::Edit(Target::Note(i))),
                    CleanItem::Card(i) => ask(c, Effect::ReviewCard(i)),
                    CleanItem::Image(i) => ask(c, Effect::OpenOrphan(i)),
                }
            } else {
                only(c)
            }
        },
        Page::Options => if c.selected == 5 {
            ask(c, Effect::Authenticate)
        } else if c.selected == 6 {
            let mut next = c;
            next.mode = Mode::GitRemoteInput;
            let mut r = say(next, Message::RepositoryPrompt);
            r.query = Query::Remote;
            r
        } else if c.selected == 7 {
            ask(c, Effect::Sync)
        } else if c.selected == 8 || c.selected == 9 {
            let mut next = c;
            next.create_vault = c.selected == 9;
            next.mode = Mode::VaultInput;
            let mut r = say(next, Message::VaultPrompt);
            r.query = Query::Clear;
            r
        } else {
            only(c)
        },
        Page::Archived => if c.selected < data.archived.len() {
            match &data.archived[c.selected] {
                ArchivedItem::Note { .. } | ArchivedItem::Section { .. } => ask(
                    c,
                    Effect::Edit(Target::Archived(c.selected)),
                ),
                _ => say(c, Message::RestoreFirst),
            }
        } else {
            only(c)
        },
    }
}

/// Whether a target is there.
pub open spec fn target_exists(data: Data, target: Target) -> bool {
    match target {
        Target::Note(i) => i < data.notes@.len(),
        Target::Section(i) => i < data.sections@.len(),
        Target::Archived(i) => i < data.archived@.len() && (data.archived@[i as int] is Note
            || data.archived@[i as int] is Section),
    }
}

/// The file and the line of a target.
pub open spec fn file_of(data: Data, target: Target) -> (Seq<char>, usize) {
    match target {
        Target::Note(i) => (data.notes@[i as int].path@, 1),
        Target::Section(i) => (
            data.sections@[i as int].path@,
            data.sections@[i as int].start_line,
        ),
        Target::Archived(i) => match data.archived@[i as int] {
            ArchivedItem::Note { path, .. } => (path@, 1),
            ArchivedItem::Section { path, start_line, .. } => (path@, start_line),
            _ => (Seq::empty(), 1),
        },
    }
}

/// The file and the line at which an editor opens a target; `None` where it is not there.
pub fn target_file(data: &Data, target: Target) -> (r: Option<(String, usize)>)
    ensures
        match r {
            Some((path, line)) => target_exists(*data, target) && (path@, line) == file_of(
                *data,
                target,
            ),
            None => !target_exists(*data, target),
        },
{
    match target {
        Target::Note(i) => if i < data.notes.len() {
            Some((data.notes[i].path.clone(), 1))
        } else {
            None
        },
        Target::Section(i) => if i < data.sections.len() {
            Some((data.sections[i].path.clone(), data.sections[i].start_line))
        } else {
            None
        },
        Target::Archived(i) => if i < data.archived.len() {
            match &data.archived[i] {
                ArchivedItem::Note { path, .. } => Some((path.clone(), 1)),
                ArchivedItem::Section { path, start_line, .. } => Some(
                    (path.clone(), *start_line),
                ),
                _ => None,
            }
        } else {
            None
        },
    }
}

// ---------------------------------------------------------------------------
// Archiving, enrolling, assigning
// ---------------------------------------------------------------------------

/// What archiving the selection comes to.
pub open spec fn archival(data: Data, c: Cursor) -> Outcome {
    match c.page {
        Page::Library => match data.library_at(c.selected) {
            Some(LibraryItem::Note(i)) => asking(c, Effect::ArchiveNote(i)),
            Some(LibraryItem::Section(i)) => asking(c, Effect::ArchiveSection(i)),
            None => done(c),
        },
        Page::Review => match data.review_at(c.selected) {
            Some(ReviewItem::Section(i)) => asking(c, Effect::ArchiveReviewSection(i)),
            Some(ReviewItem::Deck(i)) => asking(c, Effect::ArchiveDeck(i)),
            Some(ReviewItem::Card(i)) => asking(c, Effect::ArchiveCard(i)),
            None => done(c),
        },
        Page::Clean => match data.clean_at(c.selected) {
            Some(CleanItem::Note(i)) => asking(c, Effect::ArchiveNote(i)),
            Some(CleanItem::Card(i)) => asking(c, Effect::ArchiveCard(i)),
            Some(CleanItem::Image(_)) => saying(c, Message::ImagesStay),
            None => done(c),
        },
        _ => done(c),
    }
}

/// Archives the selection of the page. Images are not archived.
pub fn archive_selected(data: &Data, c: Cursor) -> (r: Outcome)
    ensures
        r == archival(*data, c),
{
    match c.page {
        Page::Library => {
            let items = data.library_items();
            if c.selected < items.len() {
                match items[c.selected] {
                    LibraryItem::Note(i) => ask(c, Effect::ArchiveNote(i)),
                    LibraryItem::Section(i) => ask(c, Effect::ArchiveSection(i)),
                }
            } else {
                only(c)
            }
        },
        Page::Review => {
            let items = data.review_items();
            if c.selected < items.len() {
                match items[c.selected] {
                    ReviewItem::Section(i) => ask(c, Effect::ArchiveReviewSection(i)),
                    ReviewItem::Deck(i) => ask(c, Effect::ArchiveDeck(i)),
                    ReviewItem::Card(i) => ask(c, Effect::ArchiveCard(i)),
                }
            } else {
                only(c)
            }
        },
        Page::Clean => {
            let items = data.clean_items();
            if c.selected < items.len() {
                match items[c.selected] {
                    CleanItem::Note(i) => ask(c, Effect::ArchiveNote(i)),
                    CleanItem::Card(i) => ask(c, Effect::ArchiveCard(i)),
                    CleanItem::Image(_) => say(c, Message::ImagesStay),
                }
            } else {
                only(c)
            }
        },
        _ => only(c),
    }
}

pub open spec fn section_toggled(data: Data, c: Cursor) -> Outcome {
    match data.review_at(c.selected) {
        Some(ReviewItem::Section(i)) => asking(c, Effect::ToggleSection(i)),
        _ => saying(c, Message::SelectSection),
    }
}

/// Enrols the selected section in reviews, or takes it out.
pub fn toggle_selected_section(data: &Data, c: Cursor) -> (r: Outcome)
    ensures
        r == section_toggled(*data, c),
{
    let items = data.review_items();
    if c.selected < items.len() {
        match items[c.selected] {
            ReviewItem::Section(i) => ask(c, Effect::ToggleSection(i)),
            _ => say(c, Message::SelectSection),
        }
    } else {
        say(c, Message::SelectSection)
    }
}

pub open spec fn deck_changed(data: Data, c: Cursor, forward: bool) -> Outcome {
    if data.decks@.len() == 0 {
        done(c)
    } else {
        let deck = stepped(c.active_deck, forward, data.decks@.len());
        saying(Cursor { active_deck: deck, ..c }, Message::ActiveDeck(deck))
    }
}

/// Makes the next or the previous deck the active one.
pub fn change_active_deck(data: &Data, c: Cursor, forward: bool) -> (r: Outcome)
    ensures
        r == deck_changed(*data, c, forward),
{
    if data.decks.len() == 0 {
        only(c)
    } else {
        let mut next = c;
        next.active_deck = step(c.active_deck, forward, data.decks.len());
        say(next, Message::ActiveDeck(next.active_deck))
    }
}

pub open spec fn card_toggled(data: Data, c: Cursor) -> Outcome {
    match data.review_at(c.selected) {
        Some(ReviewItem::Card(i)) => if c.active_deck < data.decks@.len() {
            asking(c, Effect::ToggleCardDeck(i, c.active_deck))
        } else {
            saying(c, Message::CreateDeckFirst)
        },
        _ => saying(c, Message::SelectCard),
    }
}

/// Puts the selected card into the active deck, or takes it out.
pub fn toggle_selected_card_deck(data: &Data, c: Cursor) -> (r: Outcome)
    ensures
        r == card_toggled(*data, c),
{
    let items = data.review_items();
    if c.selected >= items.len() {
        return say(c, Message::SelectCard);
    }
    match items[c.selected] {
        ReviewItem::Card(i) => if c.active_deck < data.decks.len() {
            ask(c, Effect::ToggleCardDeck(i, c.active_deck))
        } else {
            say(c, Message::CreateDeckFirst)
        },
        _ => say(c, Message::SelectCard),
    }
}

pub open spec fn card_assigned(data: Data, c: Cursor) -> Outcome {
    match data.clean_at(c.selected) {
        Some(CleanItem::Card(i)) => if c.active_deck < data.decks@.len() {
            asking(c, Effect::ToggleCardDeck(i, c.active_deck))
        } else {
            saying(c, Message::CreateDeckOnPage)
        },
        _ => saying(c, Message::SelectUnassigned),
    }
}

/// Puts the selected card without a deck into the active one.
pub fn assign_clean_card(data: &Data, c: Cursor) -> (r: Outcome)
    ensures
        r == card_assigned(*data, c),
{
    let items = data.clean_items();
    if c.selected >= items.len() {
        return say(c, Message::SelectUnassigned);
    }
    match items[c.selected] {
        CleanItem::Card(i) => if c.active_deck < data.decks.len() {
            ask(c, Effect::ToggleCardDeck(i, c.active_deck))
        } else {
            say(c, Message::CreateDeckOnPage)
        },
        _ => say(c, Message::SelectUnassigned),
    }
}

pub open spec fn image_deleted(data: Data, c: Cursor) -> Outcome {
    match data.clean_at(c.selected) {
        Some(CleanItem::Image(i)) => asking(c, Effect::DeleteImage(i)),
        _ => saying(c, Message::SelectImage),
    }
}

/// Deletes the selected image that no note shows.
pub fn delete_clean_image(data: &Data, c: Cursor) -> (r: Outcome)
    ensures
        r == image_deleted(*data, c),
{
    let items = data.clean_items();
    if c.selected >= items.len() {
        return say(c, Message::SelectImage);
    }
    match items[c.selected] {
        CleanItem::Image(i) => ask(c, Effect::DeleteImage(i)),
        _ => say(c, Message::SelectImage),
    }
}

/// The cursor on the Relations page at a section of the library.
pub open spec fn jumped(data: Data, c: Cursor) -> Outcome {
    match data.library_section(c.selected) {
        Some(i) => asking(
            Cursor {
                page: Page::Relations,
                focused_panel: 1,
                relation_section: match section_with_uid(
                    data.sections@,
                    data.sections@[i as int].uid@,
                    0,
                ) {
                    Some(s) => s,
                    None => 0,
                },
                ..c
            },
            Effect::LoadRelations,
        ),
        None => done(c),
    }
}

proof fn lemma_section_at_path(data: Data, path: Seq<char>, from: int)
    requires
        data.sections@.len() <= usize::MAX,
        from >= 0,
    ensures
        crate::app::items::section_at_path(data.sections@, path, from) matches Some(i) ==> i
            < data.sections@.len(),
    decreases data.sections@.len() - from,
{
    if from < data.sections@.len() {
        lemma_section_at_path(data, path, from + 1);
    }
}

proof fn lemma_library_section(data: Data, selected: usize)
    requires
        data.sections@.len() <= usize::MAX,
        data.notes@.len() <= usize::MAX,
    ensures
        data.library_section(selected) matches Some(i) ==> i < data.sections@.len(),
{
    if let Some(LibraryItem::Note(i)) = data.library_at(selected) {
        lemma_section_at_path(data, data.notes@[i as int].path@, 0);
    }
}

/// Opens the Relations page at the section that the selected row of the library stands for.
pub fn jump_to_relations(data: &Data, c: Cursor) -> (r: Outcome)
    ensures
        r == jumped(*data, c),
{
    match data.selected_library_section(c.selected) {
        Some(i) => {
            let (a, b) = (data.sections.len(), data.notes.len());
            proof {
                lemma_library_section(*data, c.selected);
            }
            let mut next = c;
            next.page = Page::Relations;
            next.focused_panel = 1;
            next.relation_section =
            match data.find_section(data.sections[i].uid.as_str()) {
                Some(s) => s,
                None => 0,
            };
            ask(next, Effect::LoadRelations)
        },
        None => only(c),
    }
}

// ---------------------------------------------------------------------------
// Actions and commands
// ---------------------------------------------------------------------------

/// What an effect on the section that a row of the library stands for comes to.
pub open spec fn on_section(data: Data, c: Cursor, action: Action) -> Outcome {
    match data.library_section(c.selected) {
        Some(i) => asking(
            c,
            if action == Action::PlayVideo {
                Effect::PlayVideo(i)
            } else if action == Action::OpenUrl {
                Effect::OpenUrl(i)
            } else {
                Effect::OpenImage(i)
            },
        ),
        None => done(c),
    }
}

/// What a bound action comes to.
pub open spec fn acted(data: Data, c: Cursor, action: Action) -> Outcome {
    match action {
        Action::Quit => asking(c, Effect::Quit),
        Action::Open | Action::Edit => opened(data, c),
        Action::New => Outcome {
            query: Query::Clear,
            ..done(
                Cursor {
                    mode: if c.page == Page::Review {
                        Mode::DeckInput
                    } else {
                        Mode::NoteInput
                    },
                    ..c
                },
            )
        },
        Action::Archive => archival(data, c),
        Action::Restore => if c.selected < data.archived@.len() {
            asking(c, Effect::Restore(c.selected))
        } else {
            done(c)
        },
        Action::Delete => image_deleted(data, c),
        Action::Assign => if c.page == Page::Clean {
            card_assigned(data, c)
        } else {
            card_toggled(data, c)
        },
        Action::Enrol => section_toggled(data, c),
        Action::ChooseDeck => done(
            Cursor {
                review_scope_selected: if c.active_deck < data.decks@.len() {
                    (c.active_deck + 1) as usize
                } else {
                    data.decks@.len() as usize
                },
                mode: Mode::ReviewDeckChoice,
                ..c
            },
        ),
        Action::PreviousDeck => deck_changed(data, c, false),
        Action::NextDeck => deck_changed(data, c, true),
        Action::Decrease => asking(c, Effect::Adjust(false)),
        Action::Increase => asking(c, Effect::Adjust(true)),
        Action::Search => Outcome {
            query: Query::Clear,
            ..asking(
                Cursor { mode: Mode::Search, selected: 0, focused_panel: 0, ..c },
                Effect::Search,
            )
        },
        Action::PlayVideo | Action::OpenUrl | Action::OpenImage => on_section(data, c, action),
        Action::FollowRelations => jumped(data, c),
        Action::Palette => Outcome {
            query: Query::Clear,
            ..done(Cursor { mode: Mode::Palette, palette_selected: 0, ..c })
        },
        Action::Help => done(Cursor { mode: Mode::Help, ..c }),
        Action::Sync => asking(c, Effect::Sync),
        Action::Reindex => asking(c, Effect::Reindex),
    }
}

fn clearing(c: Cursor) -> (r: Outcome)
    ensures
        r == (Outcome { query: Query::Clear, ..done(c) }),
{
    let mut r = only(c);
    r.query = Query::Clear;
    r
}

/// Runs a bound action.
pub fn run_action(data: &Data, c: Cursor, action: Action) -> (r: Outcome)
    ensures
        r == acted(*data, c, action),
{
    let mut next = c;
    match action {
        Action::Quit => ask(c, Effect::Quit),
        Action::Open | Action::Edit => open_selected(data, c),
        Action::New => {
            next.mode = if c.page == Page::Review {
                Mode::DeckInput
            } else {
                Mode::NoteInput
            };
            clearing(next)
        },
        Action::Archive => archive_selected(data, c),
        Action::Restore => if c.selected < data.archived.len() {
            ask(c, Effect::Restore(c.selected))
        } else {
            only(c)
        },
        Action::Delete => delete_clean_image(data, c),
        Action::Assign => if c.page == Page::Clean {
            assign_clean_card(data, c)
        } else {
            toggle_selected_card_deck(data, c)
        },
        Action::Enrol => toggle_selected_section(data, c),
        Action::ChooseDeck => {
            next.review_scope_selected = if c.active_deck < data.decks.len() {
                c.active_deck + 1
            } else {
                data.decks.len()
            };
            next.mode = Mode::ReviewDeckChoice;
            only(next)
        },
        Action::PreviousDeck => change_active_deck(data, c, false),
        Action::NextDeck => change_active_deck(data, c, true),
        Action::Decrease => ask(c, Effect::Adjust(false)),
        Action::Increase => ask(c, Effect::Adjust(true)),
        Action::Search => {
            next.mode = Mode::Search;
            next.selected = 0;
            next.focused_panel = 0;
            let mut r = clearing(next);
            r.effect = Effect::Search;
            r
        },
        Action::PlayVideo => match data.selected_library_section(c.selected) {
            Some(i) => ask(c, Effect::PlayVideo(i)),
            None => only(c),
        },
        Action::OpenUrl => match data.selected_library_section(c.selected) {
            Some(i) => ask(c, Effect::OpenUrl(i)),
            None => only(c),
        },
        Action::OpenImage => match data.selected_library_section(c.selected) {
            Some(i) => ask(c, Effect::OpenImage(i)),
            None => only(c),
        },
        Action::FollowRelations => jump_to_relations(data, c),
        Action::Palette => {
            next.mode = Mode::Palette;
            next.palette_selected = 0;
            clearing(next)
        },
        Action::Help => {
            next.mode = Mode::Help;
            only(next)
        },
        Action::Sync => ask(c, Effect::Sync),
        Action::Reindex => ask(c, Effect::Reindex),
    }
}

/// Going to a page; the relations are loaded on the way to the Relations page.
pub open spec fn turned_to(c: Cursor, page: Page) -> Outcome {
    asking(
        gone_to(c, page),
        if page == Page::Relations {
            Effect::LoadRelations
        } else {
            Effect::Nothing
        },
    )
}

fn turn_to(c: Cursor, page: Page) -> (r: Outcome)
    ensures
        r == turned_to(c, page),
{
    let effect = if page == Page::Relations {
        Effect::LoadRelations
    } else {
        Effect::Nothing
    };
    ask(go_to(c, page), effect)
}

/// What a palette command comes to.
pub open spec fn commanded(c: Cursor, command: Command) -> Outcome {
    match command.spec_page() {
        Some(page) => turned_to(c, page),
        None => match command {
            Command::NewNote => Outcome {
                query: Query::Clear,
                ..done(Cursor { mode: Mode::NoteInput, ..c })
            },
            Command::NewDeck => Outcome {
                query: Query::Clear,
                ..done(Cursor { mode: Mode::DeckInput, ..c })
            },
            Command::SyncNow => asking(c, Effect::Sync),
            Command::Reindex => asking(c, Effect::Reindex),
            Command::AuthenticateGithub => asking(c, Effect::Authenticate),
            Command::SetRepository => Outcome {
                query: Query::Remote,
                ..done(Cursor { mode: Mode::GitRemoteInput, ..c })
            },
            Command::OpenVault | Command::CreateVault => Outcome {
                query: Query::Clear,
                ..done(
                    Cursor {
                        create_vault: command == Command::CreateVault,
                        mode: Mode::VaultInput,
                        ..c
                    },
                )
            },
            Command::Quit => asking(c, Effect::Quit),
            _ => done(c),
        },
    }
}

/// Runs a palette command.
pub fn run_command(c: Cursor, command: Command) -> (r: Outcome)
    ensures
        r == commanded(c, command),
{
    if let Some(page) = command.page() {
        return turn_to(c, page);
    }
    let mut next = c;
    match command {
        Command::NewNote => {
            next.mode = Mode::NoteInput;
            clearing(next)
        },
        Command::NewDeck => {
            next.mode = Mode::DeckInput;
            clearing(next)
        },
        Command::SyncNow => ask(c, Effect::Sync),
        Command::Reindex => ask(c, Effect::Reindex),
        Command::AuthenticateGithub => ask(c, Effect::Authenticate),
        Command::SetRepository => {
            next.mode = Mode::GitRemoteInput;
            let mut r = only(next);
            r.query = Query::Remote;
            r
        },
        Command::OpenVault | Command::CreateVault => {
            next.create_vault = command == Command::CreateVault;
            next.mode = Mode::VaultInput;
            clearing(next)
        },
        Command::Quit => ask(c, Effect::Quit),
        _ => only(c),
    }
}

// ---------------------------------------------------------------------------
// Keys, mode by mode
// ---------------------------------------------------------------------------

/// What the keys of the page depend on.
pub open spec fn context_of(data: Data, c: Cursor, media: Media) -> Context {
    Context {
        page: c.page,
        selected: match c.page {
            Page::Library => match data.library_at(c.selected) {
                Some(LibraryItem::Note(_)) => Selected::Note,
                Some(LibraryItem::Section(_)) => Selected::Section,
                None => Selected::Nothing,
            },
            Page::Review => match data.review_at(c.selected) {
                Some(ReviewItem::Section(_)) => Selected::Section,
                Some(ReviewItem::Deck(_)) => Selected::Deck,
                Some(ReviewItem::Card(_)) => Selected::Card,
                None => Selected::Nothing,
            },
            Page::Clean => match data.clean_at(c.selected) {
                Some(CleanItem::Note(_)) => Selected::Note,
                Some(CleanItem::Card(_)) => Selected::Card,
                Some(CleanItem::Image(_)) => Selected::Image,
                None => Selected::Nothing,
            },
            _ => Selected::Nothing,
        },
        media,
        adjustable: c.selected < ADJUSTABLE_OPTIONS,
    }
}

/// What the keys of the page depend on, given what the selected section carries.
pub fn context(data: &Data, c: Cursor, media: Media) -> (r: Context)
    ensures
        r == context_of(*data, c, media),
{
    let selected = match c.page {
        Page::Library => {
            let items = data.library_items();
            if c.selected < items.len() {
                match items[c.selected] {
                    LibraryItem::Note(_) => Selected::Note,
                    LibraryItem::Section(_) => Selected::Section,
                }
            } else {
                Selected::Nothing
            }
        },
        Page::Review => {
            let items = data.review_items();
            if c.selected < items.len() {
                match items[c.selected] {
                    ReviewItem::Section(_) => Selected::Section,
                    ReviewItem::Deck(_) => Selected::Deck,
                    ReviewItem::Card(_) => Selected::Card,
                }
            } else {
                Selected::Nothing
            }
        },
        Page::Clean => {
            let items = data.clean_items();
            if c.selected < items.len() {
                match items[c.selected] {
                    CleanItem::Note(_) => Selected::Note,
                    CleanItem::Card(_) => Selected::Card,
                    CleanItem::Image(_) => Selected::Image,
                }
            } else {
                Selected::Nothing
            }
        },
        _ => Selected::Nothing,
    };
    Context { page: c.page, selected, media, adjustable: c.selected < ADJUSTABLE_OPTIONS }
}

/// What a key comes to while browsing.
pub open spec fn browsed(data: Data, c: Cursor, media: Media, press: KeyPress) -> Outcome {
    match resolved(context_of(data, c, media), press) {
        Resolved::Nothing => done(c),
        Resolved::GoTo(page) => turned_to(c, page),
        Resolved::Leave => turned_to(c, Page::Library),
        Resolved::Move(forward) => if c.page == Page::Relations {
            asking(
                relation_moved(data, c, forward),
                if c.focused_panel == 1 {
                    Effect::LoadRelations
                } else {
                    Effect::Nothing
                },
            )
        } else {
            done(page_moved(data, c, forward))
        },
        Resolved::Adjust(forward) => asking(c, Effect::Adjust(forward)),
        Resolved::Run(action) => acted(data, c, action),
    }
}

/// Takes a key while browsing.
pub fn handle_browse(data: &Data, c: Cursor, media: Media, press: KeyPress) -> (r: Outcome)
    ensures
        r == browsed(*data, c, media, press),
{
    match resolve(context(data, c, media), press) {
        Resolved::Nothing => only(c),
        Resolved::GoTo(page) => turn_to(c, page),
        Resolved::Leave => turn_to(c, Page::Library),
        Resolved::Move(forward) => if c.page == Page::Relations {
            let (next, load) = move_relation_selection(data, c, forward);
            if load {
                ask(next, Effect::LoadRelations)
            } else {
                only(next)
            }
        } else {
            only(move_page(data, c, forward))
        },
        Resolved::Adjust(forward) => ask(c, Effect::Adjust(forward)),
        Resolved::Run(action) => run_action(data, c, action),
    }
}

/// What a key comes to in the palette, which shows a list of commands.
pub open spec fn palette_pressed(c: Cursor, list: Seq<EntryView>, press: KeyPress) -> Outcome {
    match press.code {
        KeyCode::Esc => Outcome {
            query: Query::Clear,
            ..done(Cursor { mode: Mode::Browse, ..c })
        },
        KeyCode::Enter => {
            let closed = Cursor { mode: Mode::Browse, palette_selected: 0, ..c };
            if c.palette_selected < list.len() {
                let next = commanded(closed, list[c.palette_selected as int].command);
                Outcome {
                    query: if next.query == Query::Keep {
                        Query::Clear
                    } else {
                        next.query
                    },
                    ..next
                }
            } else {
                Outcome { query: Query::Clear, ..done(closed) }
            }
        },
        KeyCode::Backspace => Outcome {
            query: Query::Pop,
            ..done(Cursor { palette_selected: 0, ..c })
        },
        KeyCode::Down => done(
            Cursor { palette_selected: stepped(c.palette_selected, true, list.len()), ..c },
        ),
        KeyCode::Up => done(
            Cursor {
                palette_selected: if c.palette_selected > 0 {
                    (c.palette_selected - 1) as usize
                } else {
                    0
                },
                ..c
            },
        ),
        KeyCode::Char(character) => if press.control {
            if character == 'n' {
                done(
                    Cursor {
                        palette_selected: stepped(c.palette_selected, true, list.len()),
                        ..c
                    },
                )
            } else if character == 'p' {
                done(
                    Cursor {
                        palette_selected: if c.palette_selected > 0 {
                            (c.palette_selected - 1) as usize
                        } else {
                            0
                        },
                        ..c
                    },
                )
            } else {
                done(c)
            }
        } else {
            Outcome {
                query: Query::Push(character),
                ..done(Cursor { palette_selected: 0, ..c })
            }
        },
        _ => done(c),
    }
}

fn palette_down(c: Cursor, count: usize) -> (r: Outcome)
    ensures
        r == done(
            Cursor { palette_selected: stepped(c.palette_selected, true, count as nat), ..c },
        ),
{
    let mut next = c;
    next.palette_selected = step(c.palette_selected, true, count);
    only(next)
}

fn palette_up(c: Cursor) -> (r: Outcome)
    ensures
        r == done(
            Cursor {
                palette_selected: if c.palette_selected > 0 {
                    (c.palette_selected - 1) as usize
                } else {
                    0
                },
                ..c
            },
        ),
{
    let mut next = c;
    next.palette_selected = if c.palette_selected > 0 {
        c.palette_selected - 1
    } else {
        0
    };
    only(next)
}

/// Takes a key in the palette. Letters are typed, so the arrows and two control keys move.
pub fn handle_palette(c: Cursor, list: &Vec<Entry>, press: KeyPress) -> (r: Outcome)
    ensures
        r == palette_pressed(c, entries_view(list@), press),
{
    let mut next = c;
    match press.code {
        KeyCode::Esc => {
            next.mode = Mode::Browse;
            clearing(next)
        },
        KeyCode::Enter => {
            next.mode = Mode::Browse;
            next.palette_selected = 0;
            if c.palette_selected < list.len() {
                assert(entries_view(list@)[c.palette_selected as int]
                    == list@[c.palette_selected as int]@);
                let mut r = run_command(next, list[c.palette_selected].command);
                if r.query == Query::Keep {
                    r.query = Query::Clear;
                }
                r
            } else {
                clearing(next)
            }
        },
        KeyCode::Backspace => {
            next.palette_selected = 0;
            let mut r = only(next);
            r.query = Query::Pop;
            r
        },
        KeyCode::Down => palette_down(c, list.len()),
        KeyCode::Up => palette_up(c),
        KeyCode::Char(character) => if press.control {
            if character == 'n' {
                palette_down(c, list.len())
            } else if character == 'p' {
                palette_up(c)
            } else {
                only(c)
            }
        } else {
            next.palette_selected = 0;
            let mut r = only(next);
            r.query = Query::Push(character);
            r
        },
        _ => only(c),
    }
}

/// What a key comes to while searching.
pub open spec fn searched(data: Data, c: Cursor, press: KeyPress) -> Outcome {
    match press.code {
        KeyCode::Esc => asking(
            Cursor { mode: Mode::Browse, selected: 0, ..c },
            Effect::ReloadSections,
        ),
        KeyCode::Enter => if c.selected < data.sections@.len() {
            asking(c, Effect::Edit(Target::Section(c.selected)))
        } else {
            done(c)
        },
        KeyCode::Down => done(
            Cursor { selected: stepped(c.selected, true, data.sections@.len()), ..c },
        ),
        KeyCode::Up => done(
            Cursor { selected: stepped(c.selected, false, data.sections@.len()), ..c },
        ),
        KeyCode::Backspace => Outcome {
            query: Query::Pop,
            ..asking(Cursor { selected: 0, ..c }, Effect::Search)
        },
        KeyCode::Char(character) => if press.control {
            done(c)
        } else {
            Outcome {
                query: Query::Push(character),
                ..asking(Cursor { selected: 0, ..c }, Effect::Search)
            }
        },
        _ => done(c),
    }
}

/// Takes a key while searching.
pub fn handle_search(data: &Data, c: Cursor, press: KeyPress) -> (r: Outcome)
    ensures
        r == searched(*data, c, press),
{
    let mut next = c;
    match press.code {
        KeyCode::Esc => {
            next.mode = Mode::Browse;
            next.selected = 0;
            ask(next, Effect::ReloadSections)
        },
        KeyCode::Enter => if c.selected < data.sections.len() {
            ask(c, Effect::Edit(Target::Section(c.selected)))
        } else {
            only(c)
        },
        KeyCode::Down => {
            next.selected = step(c.selected, true, data.sections.len());
            only(next)
        },
        KeyCode::Up => {
            next.selected = step(c.selected, false, data.sections.len());
            only(next)
        },
        KeyCode::Backspace => {
            next.selected = 0;
            let mut r = ask(next, Effect::Search);
            r.query = Query::Pop;
            r
        },
        KeyCode::Char(character) => if press.control {
            only(c)
        } else {
            next.selected = 0;
            let mut r = ask(next, Effect::Search);
            r.query = Query::Push(character);
            r
        },
        _ => only(c),
    }
}

/// What is said while something is typed in a mode.
pub open spec fn prompt_of(mode: Mode) -> Message {
    match mode {
        Mode::DeckInput => Message::DeckPrompt,
        Mode::NoteInput => Message::NotePrompt,
        Mode::VaultInput => Message::VaultPrompt,
        _ => Message::RepositoryPrompt,
    }
}

/// What a key comes to while a name, a title, a path or an address is typed. `blank` says
/// whether nothing but white space was typed so far.
pub open spec fn typed(c: Cursor, blank: bool, press: KeyPress) -> Outcome {
    match press.code {
        KeyCode::Esc => Outcome {
            query: if c.mode == Mode::VaultInput || c.mode == Mode::GitRemoteInput {
                Query::Clear
            } else {
                Query::Keep
            },
            ..done(Cursor { mode: Mode::Browse, ..c })
        },
        KeyCode::Enter => if blank {
            done(c)
        } else {
            match c.mode {
                Mode::DeckInput => asking(
                    Cursor { mode: Mode::Browse, ..c },
                    Effect::CreateDeck,
                ),
                Mode::NoteInput => asking(
                    Cursor { mode: Mode::Browse, ..c },
                    Effect::CreateNote,
                ),
                Mode::VaultInput => asking(c, Effect::OpenVault),
                _ => asking(c, Effect::SaveRemote),
            }
        },
        KeyCode::Backspace => Outcome {
            query: Query::Pop,
            ..saying(c, prompt_of(c.mode))
        },
        KeyCode::Char(character) => if press.control {
            done(c)
        } else {
            Outcome { query: Query::Push(character), ..saying(c, prompt_of(c.mode)) }
        },
        _ => done(c),
    }
}

fn prompt(mode: Mode) -> (r: Message)
    ensures
        r == prompt_of(mode),
{
    match mode {
        Mode::DeckInput => Message::DeckPrompt,
        Mode::NoteInput => Message::NotePrompt,
        Mode::VaultInput => Message::VaultPrompt,
        _ => Message::RepositoryPrompt,
    }
}

/// Takes a key while a name, a title, a path or an address is typed.
pub fn handle_input(c: Cursor, blank: bool, press: KeyPress) -> (r: Outcome)
    ensures
        r == typed(c, blank, press),
{
    let mut next = c;
    match press.code {
        KeyCode::Esc => {
            next.mode = Mode::Browse;
            if c.mode == Mode::VaultInput || c.mode == Mode::GitRemoteInput {
                clearing(next)
            } else {
                only(next)
            }
        },
        KeyCode::Enter => if blank {
            only(c)
        } else {
            next.mode = Mode::Browse;
            match c.mode {
                Mode::DeckInput => ask(next, Effect::CreateDeck),
                Mode::NoteInput => ask(next, Effect::CreateNote),
                Mode::VaultInput => ask(c, Effect::OpenVault),
                _ => ask(c, Effect::SaveRemote),
            }
        },
        KeyCode::Backspace => {
            let mut r = say(c, prompt(c.mode));
            r.query = Query::Pop;
            r
        },
        KeyCode::Char(character) => if press.control {
            only(c)
        } else {
            let mut r = say(c, prompt(c.mode));
            r.query = Query::Push(character);
            r
        },
        _ => only(c),
    }
}

/// What a key comes to while a deck to review is chosen.
pub open spec fn deck_chosen(data: Data, c: Cursor, press: KeyPress) -> Outcome {
    match press.code {
        KeyCode::Esc | KeyCode::Char('q') => done(Cursor { mode: Mode::Browse, ..c }),
        KeyCode::Char('j') | KeyCode::Down => done(
            Cursor {
                review_scope_selected: stepped(
                    c.review_scope_selected,
                    true,
                    (data.decks@.len() + 1) as nat,
                ),
                ..c
            },
        ),
        KeyCode::Char('k') | KeyCode::Up => done(
            Cursor {
                review_scope_selected: if c.review_scope_selected > 0 {
                    (c.review_scope_selected - 1) as usize
                } else {
                    0
                },
                ..c
            },
        ),
        KeyCode::Enter | KeyCode::Char('r') => asking(c, Effect::StartReview(false)),
        KeyCode::Char('f') => asking(c, Effect::StartReview(true)),
        _ => done(c),
    }
}

/// Takes a key while a deck to review is chosen.
pub fn handle_review_deck_choice(data: &Data, c: Cursor, press: KeyPress) -> (r: Outcome)
    ensures
        r == deck_chosen(*data, c, press),
{
    let mut next = c;
    match press.code {
        KeyCode::Esc | KeyCode::Char('q') => {
            next.mode = Mode::Browse;
            only(next)
        },
        KeyCode::Char('j') | KeyCode::Down => {
            next.review_scope_selected = if c.review_scope_selected < data.decks.len() {
                c.review_scope_selected + 1
            } else {
                data.decks.len()
            };
            only(next)
        },
        KeyCode::Char('k') | KeyCode::Up => {
            next.review_scope_selected = if c.review_scope_selected > 0 {
                c.review_scope_selected - 1
            } else {
                0
            };
            only(next)
        },
        KeyCode::Enter | KeyCode::Char('r') => ask(c, Effect::StartReview(false)),
        KeyCode::Char('f') => ask(c, Effect::StartReview(true)),
        _ => only(c),
    }
}

/// The cards that the chosen row stands for.
pub open spec fn scope_of(data: Data, selected: usize) -> Option<ReviewScope> {
    if selected == 0 {
        Some(ReviewScope::Deckless)
    } else if selected <= data.decks@.len() {
        Some(ReviewScope::Deck(data.decks@[selected - 1].id))
    } else {
        None
    }
}

/// What the chosen row is called.
pub open spec fn scope_name(data: Data, selected: usize) -> Seq<char> {
    if 0 < selected <= data.decks@.len() {
        data.decks@[selected - 1].name@
    } else {
        "No deck"@
    }
}

/// The cards that the chosen row stands for, and what it is called.
pub fn review_scope(data: &Data, selected: usize) -> (r: Option<(ReviewScope, String)>)
    ensures
        match r {
            Some((scope, name)) => scope_of(*data, selected) == Some(scope) && name@ == scope_name(
                *data,
                selected,
            ),
            None => scope_of(*data, selected) is None,
        },
{
    if selected == 0 {
        Some((ReviewScope::Deckless, "No deck".to_owned()))
    } else if selected <= data.decks.len() {
        let deck = &data.decks[selected - 1];
        Some((ReviewScope::Deck(deck.id), deck.name.clone()))
    } else {
        None
    }
}

// ---------------------------------------------------------------------------
// Any key
// ---------------------------------------------------------------------------

/// What a key comes to, given what the selected section carries and the commands that the
/// palette shows.
pub open spec fn pressed(
    data: Data,
    c: Cursor,
    blank: bool,
    media: Media,
    list: Seq<EntryView>,
    press: KeyPress,
) -> Outcome {
    if press.control && press.code == KeyCode::Char('c') {
        asking(c, Effect::Quit)
    } else if press.control && press.code == KeyCode::Char('s') {
        asking(c, Effect::Sync)
    } else if c.mode == Mode::Browse && direction_of(press) is Some {
        done(
            Cursor { focused_panel: focus_after(c, direction_of(press)->0) as usize, ..c },
        )
    } else {
        match c.mode {
            Mode::Browse => browsed(data, c, media, press),
            Mode::Palette => palette_pressed(c, list, press),
            Mode::Help => done(Cursor { mode: Mode::Browse, ..c }),
            Mode::Search => searched(data, c, press),
            Mode::DeckInput
            | Mode::NoteInput
            | Mode::VaultInput
            | Mode::GitRemoteInput => typed(c, blank, press),
            Mode::ReviewDeckChoice => deck_chosen(data, c, press),
            Mode::Review => asking(c, Effect::ReviewKey),
        }
    }
}

/// Takes a key, given what the selected section carries and the commands that the palette
/// shows.
pub fn dispatch_key(
    data: &Data,
    c: Cursor,
    blank: bool,
    media: Media,
    list: &Vec<Entry>,
    press: KeyPress,
) -> (r: Outcome)
    ensures
        r == pressed(*data, c, blank, media, entries_view(list@), press),
{
    if press.control && press.code == KeyCode::Char('c') {
        return ask(c, Effect::Quit);
    }
    if press.control && press.code == KeyCode::Char('s') {
        return ask(c, Effect::Sync);
    }
    if c.mode == Mode::Browse {
        if let Some(direction) = shifted_panel_direction(press) {
            return only(move_panel_focus(c, direction));
        }
    }
    match c.mode {
        Mode::Browse => handle_browse(data, c, media, press),
        Mode::Palette => handle_palette(c, list, press),
        Mode::Help => {
            let mut next = c;
            next.mode = Mode::Browse;
            only(next)
        },
        Mode::Search => handle_search(data, c, press),
        Mode::DeckInput | Mode::NoteInput | Mode::VaultInput | Mode::GitRemoteInput => handle_input(
            c,
            blank,
            press,
        ),
        Mode::ReviewDeckChoice => handle_review_deck_choice(data, c, press),
        Mode::Review => ask(c, Effect::ReviewKey),
    }
}

/// What a body carries, as found by the patterns for web addresses and images.
pub open spec fn body_media(body: Seq<char>) -> Media {
    media_in(
        body,
        found_or_none(regex_matches(url_pattern(), body)),
        found_or_none(regex_matches(image_pattern(), body)),
    )
}

/// What the section carries that the selected row of the library stands for.
pub open spec fn selected_media(data: Data, c: Cursor) -> Media {
    match data.library_section(c.selected) {
        Some(i) => body_media(data.sections@[i as int].body@),
        None => Media { video: false, url: false, image: false },
    }
}

/// What the section carries that the selected row of the library stands for.
pub fn media_selected(data: &Data, c: Cursor) -> (r: Media)
    ensures
        r == selected_media(*data, c),
{
    match data.selected_library_section(c.selected) {
        Some(i) => {
            let (a, b) = (data.sections.len(), data.notes.len());
            proof {
                lemma_library_section(*data, c.selected);
            }
            media_of(data.sections[i].body.as_str())
        },
        None => Media { video: false, url: false, image: false },
    }
}

/// Takes a key.
pub fn handle_key(data: &Data, c: Cursor, query: &str, press: KeyPress) -> (r: Outcome)
    ensures
        r == pressed(
            *data,
            c,
            trimmed(query@).len() == 0,
            selected_media(*data, c),
            fitting(lowercase_of(trimmed(query@))),
            press,
        ),
{
    let chars = to_chars(query);
    let blank = trim(chars.as_slice()).len() == 0;
    let list = matching(query);
    dispatch_key(data, c, blank, media_selected(data, c), &list, press)
}

// ---------------------------------------------------------------------------
// After the vault was read again
// ---------------------------------------------------------------------------

/// The cursor on rows that were read again.
pub open spec fn settled(data: Data, c: Cursor) -> Cursor {
    Cursor {
        active_deck: clamped(c.active_deck, data.decks@.len()),
        selected: clamped(c.selected, crate::app::cursor::total_of(data, c.page)),
        ..c
    }
}

/// Keeps the cursor inside rows that were read again.
pub fn settle(data: &Data, c: Cursor) -> (r: Cursor)
    ensures
        r == settled(*data, c),
{
    let mut r = c;
    r.active_deck = clamp(c.active_deck, data.decks.len());
    r.selected = clamp(c.selected, crate::app::cursor::page_total(data, c.page));
    r
}

/// The place of the deck with a name, at or after a place; the first place where there is
/// none.
pub open spec fn deck_named(data: Data, name: Seq<char>, from: int) -> usize
    decreases data.decks@.len() - from,
{
    if from < 0 || from >= data.decks@.len() {
        0
    } else if data.decks@[from].name@ == name {
        from as usize
    } else {
        deck_named(data, name, from + 1)
    }
}

/// Makes the deck with a name the active one.
pub fn activate_deck(data: &Data, c: Cursor, name: &str) -> (r: Cursor)
    ensures
        r == (Cursor { active_deck: deck_named(*data, name@, 0), ..c }),
{
    let mut r = c;
    let mut i: usize = 0;
    r.active_deck = 0;
    while i < data.decks.len()
        invariant
            0 <= i <= data.decks.len(),
            r == (Cursor { active_deck: 0, ..c }),
            deck_named(*data, name@, 0) == deck_named(*data, name@, i as int),
        decreases data.decks.len() - i,
    {
        if text_eq(data.decks[i].name.as_str(), name) {
            r.active_deck = i;
            return r;
        }
        i += 1;
    }
    r
}

/// Whether a request of another program to show a section is taken now. While a card is
/// answered it waits.
pub fn takes_graph_command(c: Cursor) -> (r: bool)
    ensures
        r == (c.mode != Mode::Review),
{
    c.mode != Mode::Review
}

/// The section that another program asks for, from what it left in the vault, or what to
/// say of it.
pub open spec fn graph_request(parsed: Result<Seq<char>, Seq<char>>) -> Result<
    Seq<char>,
    Seq<char>,
> {
    match parsed {
        Ok(uid) => Ok(uid),
        Err(error) => Err("ignored invalid ygraphy command: "@ + error),
    }
}

/// Reads which section another program asks for: a JSON string with its uid.
pub fn graph_command(source: &str) -> (r: Result<String, String>)
    ensures
        match r {
            Ok(uid) => graph_request(json_text(source@)) == Ok::<Seq<char>, Seq<char>>(uid@),
            Err(told) => graph_request(json_text(source@)) == Err::<Seq<char>, Seq<char>>(told@),
        },
{
    match read_json_string(source) {
        Ok(uid) => Ok(uid),
        Err(error) => Err(glue("ignored invalid ygraphy command: ", error.as_str())),
    }
}

/// Showing a section that another program asks for: the Relations page, at that section.
pub open spec fn graph_shown(data: Data, c: Cursor, uid: Seq<char>) -> Option<Outcome> {
    followed(
        data,
        Cursor { mode: Mode::Browse, page: Page::Relations, focused_panel: 1, ..c },
        uid,
    )
}

/// Shows a section that another program asks for; the cursor moves to the Relations page
/// even where there is no such section.
pub fn consume_graph_command(data: &Data, c: Cursor, uid: &str) -> (r: (Cursor, Option<Outcome>))
    ensures
        r.0 == (Cursor { mode: Mode::Browse, page: Page::Relations, focused_panel: 1, ..c }),
        r.1 == graph_shown(*data, c, uid@),
{
    let mut next = c;
    next.mode = Mode::Browse;
    next.page = Page::Relations;
    next.focused_panel = 1;
    (next, follow_relation(data, next, uid))
}

// ---------------------------------------------------------------------------
// Laws
// ---------------------------------------------------------------------------

/// A page that has no tab can be left: escape leads back to the library.
pub proof fn escape_leaves_a_page_without_a_tab(data: Data, c: Cursor, media: Media)
    ensures
        ({
            let press = KeyPress { code: KeyCode::Esc, control: false, shift: false };
            let r = browsed(data, c, media, press);
            &&& r.effect == Effect::Nothing
            &&& crate::app::keymap::has_tab(c.page) ==> r.cursor == c
            &&& !crate::app::keymap::has_tab(c.page) ==> r.cursor.page == Page::Library
        }),
{
}

/// The four digits select the four tabs, from every page.
pub proof fn digits_select_the_four_tabs(data: Data, c: Cursor, media: Media, digit: char)
    requires
        crate::app::keymap::tab_of(digit) is Some,
    ensures
        browsed(
            data,
            c,
            media,
            KeyPress { code: KeyCode::Char(digit), control: false, shift: false },
        ).cursor == gone_to(c, crate::app::keymap::tab_of(digit)->0),
{
}

/// Nothing but `control` and `c`, or a quit that the table or the palette offers, ends the
/// application while it is browsed; typing never does.
pub proof fn typing_never_quits(
    data: Data,
    c: Cursor,
    blank: bool,
    media: Media,
    list: Seq<EntryView>,
    press: KeyPress,
)
    requires
        c.mode == Mode::Search || c.mode == Mode::DeckInput || c.mode == Mode::NoteInput || c.mode
            == Mode::VaultInput || c.mode == Mode::GitRemoteInput || c.mode == Mode::Help,
        !press.control,
    ensures
        pressed(data, c, blank, media, list, press).effect != Effect::Quit,
{
}

/// Whatever key is pressed, what an editor is asked to open is there.
pub proof fn what_is_opened_is_there(data: Data, c: Cursor)
    requires
        data.sections@.len() <= usize::MAX,
        data.notes@.len() <= usize::MAX,
        data.cards@.len() <= usize::MAX,
        data.orphan_images@.len() <= usize::MAX,
        data.relations@.len() <= usize::MAX,
    ensures
        opened(data, c).effect matches Effect::Edit(target) ==> target_exists(data, target),
{
    match c.page {
        Page::Library => {
            if c.selected < data.spec_library_items().len() {
                library_rows_exist(data, c.selected as int);
            }
        },
        Page::Review => {
            if let Some(ReviewItem::Section(i)) = data.review_at(c.selected) {
                lemma_section_with_uid(data, data.review_sections@[i as int].uid@, 0);
            }
        },
        Page::Clean => {
            if c.selected < data.spec_clean_items().len() {
                clean_rows_need_cleaning(data, c.selected as int);
            }
        },
        _ => {},
    }
}

/// Following a relation shows the section that it names, with its own relations to be
/// loaded.
pub proof fn following_shows_the_target(data: Data, c: Cursor, uid: Seq<char>)
    requires
        data.sections@.len() <= usize::MAX,
    ensures
        followed(data, c, uid) matches Some(outcome) ==> outcome.cursor.relation_section
            < data.sections@.len()
            && data.sections@[outcome.cursor.relation_section as int].uid@ == uid
            && outcome.effect == Effect::LoadRelations,
{
    lemma_section_with_uid(data, uid, 0);
}

/// In every mode control with `c` quits and control with `s` synchronises, and neither moves
/// the cursor or changes what is typed.
pub proof fn control_keys_work_everywhere(
    data: Data,
    c: Cursor,
    blank: bool,
    media: Media,
    list: Seq<EntryView>,
    shift: bool,
)
    ensures
        ({
            let quit = KeyPress { code: KeyCode::Char('c'), control: true, shift };
            let sync = KeyPress { code: KeyCode::Char('s'), control: true, shift };
            let a = pressed(data, c, blank, media, list, quit);
            let b = pressed(data, c, blank, media, list, sync);
            &&& a.effect == Effect::Quit && a.cursor == c && a.query == Query::Keep
            &&& b.effect == Effect::Sync && b.cursor == c && b.query == Query::Keep
        }),
{
}

/// Any other key leaves the help, and in a review every other key is for the session.
pub proof fn any_key_leaves_the_help(
    data: Data,
    c: Cursor,
    blank: bool,
    media: Media,
    list: Seq<EntryView>,
    press: KeyPress,
)
    requires
        !(press.control && (press.code == KeyCode::Char('c') || press.code == KeyCode::Char('s'))),
    ensures
        ({
            let r = pressed(data, c, blank, media, list, press);
            &&& c.mode == Mode::Help ==> r.cursor.mode == Mode::Browse && r.effect
                == Effect::Nothing && r.cursor.page == c.page && r.cursor.selected == c.selected
            &&& c.mode == Mode::Review ==> r.effect == Effect::ReviewKey && r.cursor == c
        }),
{
}

/// What is archived is what is selected, on each page that lists something to archive. An
/// image cannot be archived, and where nothing is selected nothing is.
pub proof fn the_selection_is_archived(data: Data, c: Cursor)
    ensures
        ({
            let r = archival(data, c);
            let library = data.spec_library_items();
            let review = data.spec_review_items();
            let clean = data.spec_clean_items();
            &&& r.cursor == c
            &&& c.page == Page::Library && c.selected < library.len()
                ==> match library[c.selected as int] {
                LibraryItem::Note(i) => r.effect == Effect::ArchiveNote(i),
                LibraryItem::Section(i) => r.effect == Effect::ArchiveSection(i),
            }
            &&& c.page == Page::Review && c.selected < review.len()
                ==> match review[c.selected as int] {
                ReviewItem::Section(i) => r.effect == Effect::ArchiveReviewSection(i),
                ReviewItem::Deck(i) => r.effect == Effect::ArchiveDeck(i),
                ReviewItem::Card(i) => r.effect == Effect::ArchiveCard(i),
            }
            &&& c.page == Page::Clean && c.selected < clean.len()
                ==> match clean[c.selected as int] {
                CleanItem::Note(i) => r.effect == Effect::ArchiveNote(i),
                CleanItem::Card(i) => r.effect == Effect::ArchiveCard(i),
                CleanItem::Image(_) => r.effect == Effect::Nothing && r.message
                    == Message::ImagesStay,
            }
            &&& c.page == Page::Library && c.selected >= library.len() ==> r.effect
                == Effect::Nothing
            &&& c.page == Page::Review && c.selected >= review.len() ==> r.effect
                == Effect::Nothing
            &&& c.page == Page::Clean && c.selected >= clean.len() ==> r.effect == Effect::Nothing
            &&& c.page == Page::Relations || c.page == Page::Stats || c.page == Page::Options
                || c.page == Page::Archived ==> r.effect == Effect::Nothing
        }),
{
}

/// What is opened is what is selected: notes and sections in an editor, cards in a review, an
/// image in its viewer, and a deck by making it the active one. What was archived is read in
/// an editor where it is a file, and has to be restored first where it is not.
pub proof fn the_selection_is_opened(data: Data, c: Cursor)
    ensures
        ({
            let r = opened(data, c);
            let library = data.spec_library_items();
            let review = data.spec_review_items();
            let clean = data.spec_clean_items();
            &&& c.page == Page::Library && c.selected < library.len()
                ==> match library[c.selected as int] {
                LibraryItem::Note(i) => r.effect == Effect::Edit(Target::Note(i)),
                LibraryItem::Section(i) => r.effect == Effect::Edit(Target::Section(i)),
            }
            &&& c.page == Page::Review && c.selected < review.len()
                ==> match review[c.selected as int] {
                ReviewItem::Section(_) => r.effect == Effect::Nothing || r.effect is Edit,
                ReviewItem::Deck(i) => r.effect == Effect::Nothing && r.cursor.active_deck == i
                    && r.message == Message::ActiveDeck(i),
                ReviewItem::Card(i) => r.effect == Effect::ReviewCard(i),
            }
            &&& c.page == Page::Clean && c.selected < clean.len()
                ==> match clean[c.selected as int] {
                CleanItem::Note(i) => r.effect == Effect::Edit(Target::Note(i)),
                CleanItem::Card(i) => r.effect == Effect::ReviewCard(i),
                CleanItem::Image(i) => r.effect == Effect::OpenOrphan(i),
            }
            &&& c.page == Page::Archived && c.selected < data.archived@.len()
                ==> match data.archived@[c.selected as int] {
                ArchivedItem::Note { .. } => r.effect == Effect::Edit(Target::Archived(c.selected)),
                ArchivedItem::Section { .. } => r.effect == Effect::Edit(
                    Target::Archived(c.selected),
                ),
                ArchivedItem::Quiz { .. } => r.effect == Effect::Nothing && r.message
                    == Message::RestoreFirst,
                ArchivedItem::Deck { .. } => r.effect == Effect::Nothing && r.message
                    == Message::RestoreFirst,
            }
            &&& c.page == Page::Relations && c.focused_panel == 1 && c.relation_section
                < data.sections@.len() ==> r.effect == Effect::Edit(
                Target::Section(c.relation_section),
            )
            &&& c.page == Page::Stats ==> r == (Outcome {
                cursor: c,
                effect: Effect::Nothing,
                message: Message::Keep,
                query: Query::Keep,
            })
        }),
{
}

/// The options that are not adjusted are opened: signing in, the repository, a sync now, and
/// another vault or a new one.
pub proof fn options_are_opened_by_their_place(c: Cursor)
    ensures
        ({
            let r = option_opened(c);
            &&& c.selected < 5 || c.selected > 9 ==> r.effect == Effect::Nothing && r.cursor == c
            &&& c.selected == 5 ==> r.effect == Effect::Authenticate
            &&& c.selected == 6 ==> r.cursor.mode == Mode::GitRemoteInput && r.query
                == Query::Remote
            &&& c.selected == 7 ==> r.effect == Effect::Sync
            &&& c.selected == 8 ==> r.cursor.mode == Mode::VaultInput && !r.cursor.create_vault
                && r.query == Query::Clear
            &&& c.selected == 9 ==> r.cursor.mode == Mode::VaultInput && r.cursor.create_vault
                && r.query == Query::Clear
        }),
{
}

/// What is typed is added at the end, and taking the last character back undoes it.
pub proof fn taking_back_undoes_typing(
    query: Seq<char>,
    character: char,
    remote: Option<Seq<char>>,
)
    ensures
        query_after(query, Query::Push(character), remote) == query + seq![character],
        query_after(query_after(query, Query::Push(character), remote), Query::Pop, remote)
            == query,
        query_after(Seq::empty(), Query::Pop, remote) == Seq::<char>::empty(),
        query_after(query, Query::Keep, remote) == query,
        query_after(query, Query::Clear, remote).len() == 0,
        remote is Some ==> query_after(query, Query::Remote, remote) == remote->0,
        remote is None ==> query_after(query, Query::Remote, remote).len() == 0,
{
    assert(query.push(character) == query + seq![character]);
    assert(query.push(character).drop_last() == query);
}

/// A character is typed in every mode that takes text, and backspace takes one back. A search
/// follows what is typed and starts at its first result; the palette starts at its first
/// command.
pub proof fn characters_are_typed(
    data: Data,
    c: Cursor,
    blank: bool,
    list: Seq<EntryView>,
    media: Media,
    character: char,
    shift: bool,
)
    requires
        c.mode == Mode::Search || c.mode == Mode::Palette || c.mode == Mode::DeckInput || c.mode
            == Mode::NoteInput || c.mode == Mode::VaultInput || c.mode == Mode::GitRemoteInput,
    ensures
        ({
            let key = KeyPress { code: KeyCode::Char(character), control: false, shift };
            let back = KeyPress { code: KeyCode::Backspace, control: false, shift };
            let a = pressed(data, c, blank, media, list, key);
            let b = pressed(data, c, blank, media, list, back);
            &&& a.query == Query::Push(character) && b.query == Query::Pop
            &&& a.cursor.mode == c.mode && b.cursor.mode == c.mode
            &&& c.mode == Mode::Search ==> a.effect == Effect::Search && b.effect == Effect::Search
                && a.cursor.selected == 0 && b.cursor.selected == 0
            &&& c.mode == Mode::Palette ==> a.cursor.palette_selected == 0
                && b.cursor.palette_selected == 0
            &&& c.mode != Mode::Search ==> a.effect == Effect::Nothing && b.effect
                == Effect::Nothing
        }),
{
}

/// Escape leaves every mode that takes text without doing anything with the text; a search
/// that is left shows all sections again.
pub proof fn escape_leaves_what_is_typed(
    data: Data,
    c: Cursor,
    blank: bool,
    list: Seq<EntryView>,
    media: Media,
)
    requires
        c.mode == Mode::Search || c.mode == Mode::Palette || c.mode == Mode::DeckInput || c.mode
            == Mode::NoteInput || c.mode == Mode::VaultInput || c.mode == Mode::GitRemoteInput
            || c.mode == Mode::ReviewDeckChoice,
    ensures
        ({
            let key = KeyPress { code: KeyCode::Esc, control: false, shift: false };
            let r = pressed(data, c, blank, media, list, key);
            &&& r.cursor.mode == Mode::Browse && r.cursor.page == c.page
            &&& c.mode == Mode::Search ==> r.effect == Effect::ReloadSections
            &&& c.mode != Mode::Search ==> r.effect == Effect::Nothing
        }),
{
}

/// Enter does with the text what was asked for it, and nothing with a blank one: a deck or a
/// note is created, a vault opened, a remote saved.
pub proof fn enter_answers_a_prompt(c: Cursor, shift: bool, control: bool)
    ensures
        ({
            let key = KeyPress { code: KeyCode::Enter, control, shift };
            let r = typed(c, false, key);
            &&& typed(c, true, key).effect == Effect::Nothing && typed(c, true, key).cursor == c
            &&& c.mode == Mode::DeckInput ==> r.effect == Effect::CreateDeck && r.cursor.mode
                == Mode::Browse
            &&& c.mode == Mode::NoteInput ==> r.effect == Effect::CreateNote && r.cursor.mode
                == Mode::Browse
            &&& c.mode == Mode::VaultInput ==> r.effect == Effect::OpenVault && r.cursor == c
            &&& c.mode == Mode::GitRemoteInput ==> r.effect == Effect::SaveRemote && r.cursor == c
        }),
{
}

/// Enter opens the section that a search has selected, and the arrows move the selection.
pub proof fn a_search_opens_what_it_found(data: Data, c: Cursor, control: bool, shift: bool)
    requires
        c.selected < data.sections@.len(),
        data.sections@.len() <= usize::MAX,
    ensures
        ({
            let enter = KeyPress { code: KeyCode::Enter, control, shift };
            let down = KeyPress { code: KeyCode::Down, control, shift };
            let up = KeyPress { code: KeyCode::Up, control, shift };
            &&& searched(data, c, enter).effect == Effect::Edit(Target::Section(c.selected))
            &&& c.selected + 1 < data.sections@.len() ==> searched(data, c, down).cursor.selected
                == c.selected + 1
            &&& c.selected > 0 ==> searched(data, c, up).cursor.selected == c.selected - 1
        }),
{
}

/// The first place of the choice stands for the cards without a deck, and each one behind it
/// for the deck before it in the list; there is nothing behind the last.
pub proof fn a_review_is_of_the_chosen_deck(data: Data, selected: usize)
    ensures
        scope_of(data, 0) == Some(ReviewScope::Deckless),
        0 < selected <= data.decks@.len() ==> scope_of(data, selected) == Some(
            ReviewScope::Deck(data.decks@[selected - 1].id),
        ) && scope_name(data, selected) == data.decks@[selected - 1].name@,
        selected > data.decks@.len() ==> scope_of(data, selected) is None,
        scope_name(data, 0) == "No deck"@,
{
}

/// A deck is chosen with enter or `r`, and with `f` for all of its cards.
pub proof fn a_chosen_deck_is_reviewed(data: Data, c: Cursor, control: bool, shift: bool)
    ensures
        deck_chosen(data, c, KeyPress { code: KeyCode::Enter, control, shift }).effect
            == Effect::StartReview(false),
        deck_chosen(data, c, KeyPress { code: KeyCode::Char('r'), control, shift }).effect
            == Effect::StartReview(false),
        deck_chosen(data, c, KeyPress { code: KeyCode::Char('f'), control, shift }).effect
            == Effect::StartReview(true),
        c.review_scope_selected < data.decks@.len() && c.review_scope_selected < usize::MAX
            ==> deck_chosen(
            data,
            c,
            KeyPress { code: KeyCode::Down, control, shift },
        ).cursor.review_scope_selected == c.review_scope_selected + 1,
        c.review_scope_selected > 0 ==> deck_chosen(
            data,
            c,
            KeyPress { code: KeyCode::Up, control, shift },
        ).cursor.review_scope_selected == c.review_scope_selected - 1,
{
}

/// Enter in the palette closes it and runs the command under the cursor: one that names a
/// page turns to it, and the others do what they say.
pub proof fn enter_runs_the_command_under_the_cursor(
    c: Cursor,
    list: Seq<EntryView>,
    control: bool,
    shift: bool,
)
    requires
        c.palette_selected < list.len(),
    ensures
        ({
            let key = KeyPress { code: KeyCode::Enter, control, shift };
            let r = palette_pressed(c, list, key);
            let command = list[c.palette_selected as int].command;
            &&& r.query != Query::Keep
            &&& command == Command::SyncNow ==> r.effect == Effect::Sync
            &&& command == Command::Reindex ==> r.effect == Effect::Reindex
            &&& command == Command::AuthenticateGithub ==> r.effect == Effect::Authenticate
            &&& command == Command::Quit ==> r.effect == Effect::Quit
            &&& command == Command::NewNote ==> r.cursor.mode == Mode::NoteInput && r.query
                == Query::Clear
            &&& command == Command::NewDeck ==> r.cursor.mode == Mode::DeckInput && r.query
                == Query::Clear
            &&& command == Command::SetRepository ==> r.cursor.mode == Mode::GitRemoteInput
                && r.query == Query::Remote
            &&& command == Command::OpenVault ==> r.cursor.mode == Mode::VaultInput
                && !r.cursor.create_vault
            &&& command == Command::CreateVault ==> r.cursor.mode == Mode::VaultInput
                && r.cursor.create_vault
            &&& command.spec_page() is Some ==> r.cursor.page == command.spec_page()->0
                && r.cursor.mode == Mode::Browse && r.cursor.selected == 0 && r.query
                == Query::Clear && (r.cursor.page == Page::Relations ==> r.effect
                == Effect::LoadRelations)
        }),
{
}

/// A card is put into the active deck, or taken out of it, where there is one.
pub proof fn the_active_deck_takes_the_selected_card(data: Data, c: Cursor)
    ensures
        c.selected < data.spec_review_items().len() ==> (
        data.spec_review_items()[c.selected as int] matches ReviewItem::Card(i) ==> {
            let r = card_toggled(data, c);
            &&& c.active_deck < data.decks@.len() ==> r.effect == Effect::ToggleCardDeck(
                i,
                c.active_deck,
            )
            &&& c.active_deck >= data.decks@.len() ==> r.effect == Effect::Nothing && r.message
                == Message::CreateDeckFirst
        }),
        c.selected < data.spec_clean_items().len() ==> (
        data.spec_clean_items()[c.selected as int] matches CleanItem::Card(i) ==> {
            let r = card_assigned(data, c);
            &&& c.active_deck < data.decks@.len() ==> r.effect == Effect::ToggleCardDeck(
                i,
                c.active_deck,
            )
            &&& c.active_deck >= data.decks@.len() ==> r.effect == Effect::Nothing && r.message
                == Message::CreateDeckOnPage
        }),
        c.selected < data.spec_clean_items().len() ==> (
        data.spec_clean_items()[c.selected as int] matches CleanItem::Image(i) ==> image_deleted(
            data,
            c,
        ).effect == Effect::DeleteImage(i)),
        c.selected < data.spec_review_items().len() ==> (
        data.spec_review_items()[c.selected as int] matches ReviewItem::Section(i)
            ==> section_toggled(data, c).effect == Effect::ToggleSection(i)),
{
}

/// The deck of a name is the first that bears it.
pub proof fn the_first_deck_of_a_name_is_active(data: Data, name: Seq<char>, from: int)
    requires
        0 <= from,
        data.decks@.len() <= usize::MAX,
    ensures
        ({
            let i = deck_named(data, name, from) as int;
            (exists|k: int| from <= k < data.decks@.len() && (#[trigger] data.decks@[k]).name@ == name)
                ==> from <= i < data.decks@.len() && data.decks@[i].name@ == name && forall|k: int|
                from <= k < i ==> (#[trigger] data.decks@[k]).name@ != name
        }),
    decreases data.decks@.len() - from,
{
    if from < data.decks@.len() && data.decks@[from].name@ != name {
        the_first_deck_of_a_name_is_active(data, name, from + 1);
    }
}

/// Each action does what it is called for, whatever page shows it.
pub proof fn each_action_does_what_it_says(data: Data, c: Cursor)
    requires
        data.decks@.len() < usize::MAX,
    ensures
        acted(data, c, Action::Quit).effect == Effect::Quit,
        acted(data, c, Action::Sync).effect == Effect::Sync,
        acted(data, c, Action::Reindex).effect == Effect::Reindex,
        acted(data, c, Action::Decrease).effect == Effect::Adjust(false),
        acted(data, c, Action::Increase).effect == Effect::Adjust(true),
        acted(data, c, Action::Help).cursor.mode == Mode::Help,
        acted(data, c, Action::Palette).cursor.mode == Mode::Palette,
        acted(data, c, Action::Palette).cursor.palette_selected == 0,
        acted(data, c, Action::Search).cursor.mode == Mode::Search,
        acted(data, c, Action::Search).effect == Effect::Search,
        acted(data, c, Action::Search).query == Query::Clear,
        acted(data, c, Action::Search).cursor.selected == 0,
        acted(data, c, Action::New).query == Query::Clear,
        c.page == Page::Review ==> acted(data, c, Action::New).cursor.mode == Mode::DeckInput,
        c.page != Page::Review ==> acted(data, c, Action::New).cursor.mode == Mode::NoteInput,
        c.selected < data.archived@.len() ==> acted(data, c, Action::Restore).effect
            == Effect::Restore(c.selected),
        c.selected >= data.archived@.len() ==> acted(data, c, Action::Restore).effect
            == Effect::Nothing,
        acted(data, c, Action::ChooseDeck).cursor.mode == Mode::ReviewDeckChoice,
        c.active_deck < data.decks@.len() ==> acted(
            data,
            c,
            Action::ChooseDeck,
        ).cursor.review_scope_selected == c.active_deck + 1,
        c.active_deck + 1 < data.decks@.len() ==> acted(
            data,
            c,
            Action::NextDeck,
        ).cursor.active_deck == c.active_deck + 1,
        0 < c.active_deck < data.decks@.len() ==> acted(
            data,
            c,
            Action::PreviousDeck,
        ).cursor.active_deck == c.active_deck - 1,
        data.library_section(c.selected) matches Some(i) ==> {
            &&& acted(data, c, Action::PlayVideo).effect == Effect::PlayVideo(i)
            &&& acted(data, c, Action::OpenUrl).effect == Effect::OpenUrl(i)
            &&& acted(data, c, Action::OpenImage).effect == Effect::OpenImage(i)
            &&& acted(data, c, Action::FollowRelations).effect == Effect::LoadRelations
            &&& acted(data, c, Action::FollowRelations).cursor.page == Page::Relations
        },
{
}

} // verus!
