//! What the application says.

use vstd::prelude::*;
use vstd::string::*;

use crate::app::actions::{Effect, Message};
use crate::app::cursor::Cursor;
use crate::app::items::Data;
use crate::app::util::{archived_item_label, archived_label};
use crate::app::Page;
use crate::index::IndexSummary;
use crate::model::CardRow;
use crate::player::{clock, format_hms};
use crate::text::{decimal, decimal_text, glue, glue3, text_eq};

verus! {

/// What was said last, and whether it was a failure.
#[derive(Debug)]
pub struct Status {
    pub text: String,
    pub error: bool,
}

impl Status {
    /// Nothing was said yet.
    pub fn new() -> (r: Self)
        ensures
            r.text@ == Seq::<char>::empty(),
            !r.error,
    {
        let text = String::new();
        assert(text@ == Seq::<char>::empty());
        Status { text, error: false }
    }

    /// Says what happened.
    pub fn note(&mut self, text: &str)
        ensures
            final(self).text@ == text@,
            !final(self).error,
    {
        self.text = text.to_owned();
        self.error = false;
    }

    /// Says what failed.
    pub fn fail(&mut self, text: &str)
        ensures
            final(self).text@ == text@,
            final(self).error,
    {
        self.text = text.to_owned();
        self.error = true;
    }
}

// ---------------------------------------------------------------------------
// Messages
// ---------------------------------------------------------------------------

/// The text of a message; `None` where nothing new is said.
pub open spec fn message_of(data: Data, c: Cursor, query: Seq<char>, message: Message) -> Option<
    Seq<char>,
> {
    match message {
        Message::Keep => None,
        Message::SelectSection => Some("select a section to add or remove it from reviews"@),
        Message::SelectCard => Some("select a card first"@),
        Message::CreateDeckFirst => Some("create a deck first with n"@),
        Message::ImagesStay => Some("images cannot be archived; d deletes them permanently"@),
        Message::SelectUnassigned => Some("select an unassigned card first"@),
        Message::CreateDeckOnPage => Some("create a deck on page 2 first"@),
        Message::SelectImage => Some("select an unreferenced image first"@),
        Message::ActiveDeck(i) => if i < data.decks@.len() {
            Some("active deck: "@ + data.decks@[i as int].name@)
        } else {
            None
        },
        Message::RestoreFirst => Some("restore this item with u before opening it"@),
        Message::SelectedSection(i) => if i < data.sections@.len() {
            Some("selected "@ + data.sections@[i as int].heading@)
        } else {
            None
        },
        Message::RelationNotFound(i) => if i < data.relations@.len() {
            Some("relation target not found: "@ + data.relations@[i as int].target_uid@)
        } else {
            None
        },
        Message::DeckPrompt => Some("New deck name: "@ + query),
        Message::NotePrompt => Some("New note title: "@ + query),
        Message::VaultPrompt => Some(
            (if c.create_vault {
                "Create vault path: "@
            } else {
                "Open vault path: "@
            }) + query + "  Enter confirm  Esc cancel"@,
        ),
        Message::RepositoryPrompt => Some(
            "Repository URL: "@ + query + "  Enter save  Esc cancel"@,
        ),
    }
}

/// The text of a message, and whether it tells of a failure.
pub fn message_text(data: &Data, c: Cursor, query: &str, message: Message) -> (r: Option<
    (String, bool),
>)
    ensures
        match r {
            Some((text, error)) => message_of(*data, c, query@, message) == Some(text@) && error
                == (message is RelationNotFound),
            None => message_of(*data, c, query@, message) is None,
        },
{
    match message {
        Message::Keep => None,
        Message::SelectSection => Some(
            ("select a section to add or remove it from reviews".to_owned(), false),
        ),
        Message::SelectCard => Some(("select a card first".to_owned(), false)),
        Message::CreateDeckFirst => Some(("create a deck first with n".to_owned(), false)),
        Message::ImagesStay => Some(
            ("images cannot be archived; d deletes them permanently".to_owned(), false),
        ),
        Message::SelectUnassigned => Some(("select an unassigned card first".to_owned(), false)),
        Message::CreateDeckOnPage => Some(("create a deck on page 2 first".to_owned(), false)),
        Message::SelectImage => Some(("select an unreferenced image first".to_owned(), false)),
        Message::ActiveDeck(i) => if i < data.decks.len() {
            Some((glue("active deck: ", data.decks[i].name.as_str()), false))
        } else {
            None
        },
        Message::RestoreFirst => Some(
            ("restore this item with u before opening it".to_owned(), false),
        ),
        Message::SelectedSection(i) => if i < data.sections.len() {
            Some((glue("selected ", data.sections[i].heading.as_str()), false))
        } else {
            None
        },
        Message::RelationNotFound(i) => if i < data.relations.len() {
            Some((not_found(data.relations[i].target_uid.as_str()), true))
        } else {
            None
        },
        Message::DeckPrompt => Some((glue("New deck name: ", query), false)),
        Message::NotePrompt => Some((glue("New note title: ", query), false)),
        Message::VaultPrompt => Some(
            (
                glue3(
                    if c.create_vault {
                        "Create vault path: "
                    } else {
                        "Open vault path: "
                    },
                    query,
                    "  Enter confirm  Esc cancel",
                ),
                false,
            ),
        ),
        Message::RepositoryPrompt => Some(
            (glue3("Repository URL: ", query, "  Enter save  Esc cancel"), false),
        ),
    }
}

/// Says that a section was not found.
pub fn not_found(uid: &str) -> (r: String)
    ensures
        r@ == "relation target not found: "@ + uid@,
{
    glue("relation target not found: ", uid)
}

// ---------------------------------------------------------------------------
// What was done
// ---------------------------------------------------------------------------

/// Whether a card reviews a section as a whole, so that archiving it archives the section.
pub open spec fn reviews_section(card: CardRow) -> bool {
    card.card_type@ == "section-review"@
}

/// Whether a card reviews a section as a whole, so that archiving it archives the section.
pub fn is_section_review(card: &CardRow) -> (r: bool)
    ensures
        r == reviews_section(*card),
{
    text_eq(card.card_type.as_str(), "section-review")
}

/// What is said once something was archived, restored or deleted; `None` for what says
/// nothing, or speaks of a row that is not there.
pub open spec fn done_of(data: Data, page: Page, effect: Effect) -> Option<Seq<char>> {
    match effect {
        Effect::ArchiveNote(i) => if i < data.notes@.len() {
            Some("archived note "@ + data.notes@[i as int].title@ + " and its contents"@)
        } else {
            None
        },
        Effect::ArchiveSection(i) => if i < data.sections@.len() {
            Some("archived section "@ + data.sections@[i as int].heading@)
        } else {
            None
        },
        Effect::ArchiveReviewSection(i) => if i < data.review_sections@.len() {
            Some("archived section "@ + data.review_sections@[i as int].heading@)
        } else {
            None
        },
        Effect::ArchiveDeck(i) => if i < data.decks@.len() {
            Some(
                "archived deck "@ + data.decks@[i as int].name@ + " and its exclusive quizzes"@,
            )
        } else {
            None
        },
        Effect::ArchiveCard(i) => if i < data.cards@.len() {
            let card = data.cards@[i as int];
            Some(
                (if page == Page::Clean {
                    "archived "@
                } else if reviews_section(card) {
                    "archived section review "@
                } else {
                    "archived quiz "@
                }) + card.label@,
            )
        } else {
            None
        },
        Effect::Restore(i) => if i < data.archived@.len() {
            Some("restored "@ + archived_label(data.archived@[i as int]))
        } else {
            None
        },
        Effect::DeleteImage(i) => if i < data.orphan_images@.len() {
            Some("deleted "@ + data.orphan_images@[i as int]@)
        } else {
            None
        },
        Effect::Reindex => Some("re-read the vault"@),
        Effect::Adjust(_) => Some("review options saved"@),
        _ => None,
    }
}

/// What is said once something was archived, restored or deleted.
pub fn done_text(data: &Data, page: Page, effect: Effect) -> (r: Option<String>)
    ensures
        crate::text::opt_view(r) == done_of(*data, page, effect),
{
    match effect {
        Effect::ArchiveNote(i) => if i < data.notes.len() {
            Some(glue3("archived note ", data.notes[i].title.as_str(), " and its contents"))
        } else {
            None
        },
        Effect::ArchiveSection(i) => if i < data.sections.len() {
            Some(glue("archived section ", data.sections[i].heading.as_str()))
        } else {
            None
        },
        Effect::ArchiveReviewSection(i) => if i < data.review_sections.len() {
            Some(glue("archived section ", data.review_sections[i].heading.as_str()))
        } else {
            None
        },
        Effect::ArchiveDeck(i) => if i < data.decks.len() {
            Some(
                glue3(
                    "archived deck ",
                    data.decks[i].name.as_str(),
                    " and its exclusive quizzes",
                ),
            )
        } else {
            None
        },
        Effect::ArchiveCard(i) => if i < data.cards.len() {
            let card = &data.cards[i];
            let kind = if page == Page::Clean {
                "archived "
            } else if is_section_review(card) {
                "archived section review "
            } else {
                "archived quiz "
            };
            Some(glue(kind, card.label.as_str()))
        } else {
            None
        },
        Effect::Restore(i) => if i < data.archived.len() {
            Some(glue("restored ", archived_item_label(&data.archived[i]).as_str()))
        } else {
            None
        },
        Effect::DeleteImage(i) => if i < data.orphan_images.len() {
            Some(glue("deleted ", data.orphan_images[i].as_str()))
        } else {
            None
        },
        Effect::Reindex => Some("re-read the vault".to_owned()),
        Effect::Adjust(_) => Some("review options saved".to_owned()),
        _ => None,
    }
}

/// Says that a section was enrolled in reviews, or taken out.
pub fn enrolment_text(active: bool, note_title: &str, heading: &str) -> (r: String)
    ensures
        r@ == (if active {
            "added to"@
        } else {
            "removed from"@
        }) + " review: "@ + note_title@ + " / "@ + heading@,
{
    let mut r = (if active {
        "added to"
    } else {
        "removed from"
    }).to_owned();
    r.append(" review: ");
    r.append(note_title);
    r.append(" / ");
    r.append(heading);
    r
}

/// Says that a card was put into a deck, or taken out.
pub fn assignment_text(page: Page, added: bool, card: &str, deck: &str) -> (r: String)
    ensures
        r@ == (if page == Page::Clean {
            "assigned "@ + card@ + " to "@ + deck@
        } else {
            (if added {
                "added"@
            } else {
                "removed"@
            }) + " "@ + card@ + " "@ + deck@
        }),
{
    if page == Page::Clean {
        let mut r = glue3("assigned ", card, " to ");
        r.append(deck);
        r
    } else {
        let mut r = (if added {
            "added"
        } else {
            "removed"
        }).to_owned();
        r.append(" ");
        r.append(card);
        r.append(" ");
        r.append(deck);
        r
    }
}

/// Says how many cards a session starts with.
pub fn session_text(force: bool, count: usize, name: &str) -> (r: String)
    ensures
        r@ == (if force {
            "force reviewing "@ + decimal(count as nat) + " cards from "@ + name@
        } else {
            decimal(count as nat) + " cards due in "@ + name@
        }),
{
    let number = decimal_text(count as u64);
    if force {
        let mut r = glue3("force reviewing ", number.as_str(), " cards from ");
        r.append(name);
        r
    } else {
        glue3(number.as_str(), " cards due in ", name)
    }
}

/// What is said when one card is to be reviewed: that its review begins, or that there is no
/// such card any more.
pub open spec fn single_of(page: Page, found: bool) -> Seq<char> {
    if !found {
        "card was deleted; list refreshed"@
    } else if page == Page::Clean {
        "reviewing unassigned card"@
    } else {
        "reviewing selected card"@
    }
}

/// Says that a single card is reviewed, or that it is gone.
pub fn single_text(page: Page, found: bool) -> (r: String)
    ensures
        r@ == single_of(page, found),
{
    if !found {
        "card was deleted; list refreshed".to_owned()
    } else if page == Page::Clean {
        "reviewing unassigned card".to_owned()
    } else {
        "reviewing selected card".to_owned()
    }
}

/// Says what reading the vault changed; `None` where it changed nothing.
pub fn index_text(summary: &IndexSummary) -> (r: Option<String>)
    ensures
        crate::text::opt_view(r) == (if summary.indexed == 0 && summary.removed == 0
            && summary.failed == 0 {
            None
        } else {
            Some(
                "index: "@ + decimal(summary.indexed as nat) + " updated, "@ + decimal(
                    summary.removed as nat,
                ) + " removed, "@ + decimal(summary.failed as nat) + " failed"@,
            )
        }),
{
    if summary.indexed == 0 && summary.removed == 0 && summary.failed == 0 {
        return None;
    }
    let mut r = glue3("index: ", decimal_text(summary.indexed as u64).as_str(), " updated, ");
    r.append(decimal_text(summary.removed as u64).as_str());
    r.append(" removed, ");
    r.append(decimal_text(summary.failed as u64).as_str());
    r.append(" failed");
    Some(r)
}

/// Says what is played, and from where.
pub fn playing_text(url: &str, seconds: Option<u64>) -> (r: String)
    ensures
        r@ == (match seconds {
            Some(s) => "playing "@ + url@ + " at "@ + clock(s),
            None => "playing "@ + url@,
        }),
{
    match seconds {
        Some(s) => {
            let mut r = glue3("playing ", url, " at ");
            r.append(format_hms(s).as_str());
            r
        },
        None => glue("playing ", url),
    }
}

/// Says what became of a review: when the card comes up again, or that it no longer exists.
pub fn review_text(days: Option<u64>) -> (r: String)
    ensures
        r@ == (match days {
            Some(d) => "scheduled in "@ + decimal(d as nat) + " day(s)"@,
            None => "card was deleted; review queue refreshed"@,
        }),
{
    match days {
        Some(d) => glue3("scheduled in ", decimal_text(d).as_str(), " day(s)"),
        None => "card was deleted; review queue refreshed".to_owned(),
    }
}

} // verus!
