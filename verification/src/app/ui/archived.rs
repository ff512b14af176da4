//! The Archived page: what was removed from view, and how to bring it back.

use vstd::prelude::*;
use vstd::string::*;

use crate::app::ui::lines::{
    blank, lines_view, no_lines, one, push_blank, push_line, push_text, Line, LineView, Role,
};
use crate::app::ui::widgets::{empty_lines, empty_state, spread, spread_line};
use crate::app::util::{fit, fitted};
use crate::model::ArchivedItem;
use crate::text::{decimal, decimal_text, glue};

verus! {

/// What an item is, and what it is called.
pub open spec fn described(item: ArchivedItem) -> (Seq<char>, Seq<char>) {
    match item {
        ArchivedItem::Note { title, .. } => ("note"@, title@),
        ArchivedItem::Section { heading, .. } => ("section"@, heading@),
        ArchivedItem::Quiz { label, .. } => ("quiz"@, label@),
        ArchivedItem::Deck { name, .. } => ("deck"@, name@),
    }
}

/// What an item is, and what it is called.
pub fn describe(item: &ArchivedItem) -> (r: (&'static str, &str))
    ensures
        (r.0@, r.1@) == described(*item),
{
    match item {
        ArchivedItem::Note { title, .. } => ("note", title.as_str()),
        ArchivedItem::Section { heading, .. } => ("section", heading.as_str()),
        ArchivedItem::Quiz { label, .. } => ("quiz", label.as_str()),
        ArchivedItem::Deck { name, .. } => ("deck", name.as_str()),
    }
}

/// The rows of the page.
pub open spec fn rows_of(items: Seq<ArchivedItem>, width: nat) -> Seq<LineView> {
    if items.len() == 0 {
        seq![one("Nothing is archived"@, Role::Faint)]
    } else {
        Seq::new(
            items.len(),
            |i: int| spread_line(described(items[i]).1, described(items[i]).0, width, Role::Faint),
        )
    }
}

/// The rows of the page.
pub fn rows(items: &Vec<ArchivedItem>, width: usize) -> (r: Vec<Line>)
    ensures
        lines_view(r@) == rows_of(items@, width as nat),
{
    let mut r = no_lines();
    let ghost all = rows_of(items@, width as nat);
    if items.len() == 0 {
        push_text(&mut r, "Nothing is archived", Role::Faint);
        assert(lines_view(r@) == all);
        return r;
    }
    let mut i: usize = 0;
    assert(all.take(0) == Seq::<LineView>::empty());
    while i < items.len()
        invariant
            0 <= i <= items.len(),
            all == rows_of(items@, width as nat),
            all.len() == items.len(),
            lines_view(r@) == all.take(i as int),
        decreases items.len() - i,
    {
        let (kind, label) = describe(&items[i]);
        push_line(&mut r, spread(label, kind, width, Role::Faint));
        assert(all.take(i + 1) == all.take(i as int).push(all[i as int]));
        i += 1;
    }
    assert(all.take(i as int) == all);
    r
}

/// The detail of an item.
pub open spec fn item_detail(item: ArchivedItem, width: nat) -> Seq<LineView> {
    match item {
        ArchivedItem::Note { path, section_count, quiz_count, .. } => seq![
            one(fitted(path@, width), Role::Dim),
            blank(),
            one(
                decimal(section_count as nat) + " sections and "@ + decimal(quiz_count as nat)
                    + " quizzes are hidden with it"@,
                Role::Faint,
            ),
        ],
        ArchivedItem::Section { note_title, quiz_count, .. } => seq![
            one(fitted(note_title@, width), Role::Dim),
            blank(),
            one(
                decimal(quiz_count as nat) + " quizzes are hidden with this section"@,
                Role::Faint,
            ),
        ],
        ArchivedItem::Quiz { card_count, .. } => seq![
            one(decimal(card_count as nat) + " card variants retained"@, Role::Faint),
        ],
        ArchivedItem::Deck { quiz_count, .. } => seq![
            one(decimal(quiz_count as nat) + " quizzes assigned"@, Role::Dim),
            blank(),
            one(
                "Quizzes only in this deck are hidden; those shared with an active deck stay active."@,
                Role::Faint,
            ),
        ],
    }
}

/// The title of the detail, and the detail.
pub open spec fn detail_of(items: Seq<ArchivedItem>, selected: usize, width: nat) -> (
    Seq<char>,
    Seq<LineView>,
) {
    if selected < items.len() {
        (described(items[selected as int]).1, item_detail(items[selected as int], width))
    } else {
        (
            "Archive"@,
            empty_lines(
                "The archive is empty."@,
                "x archives the selected item on Library, Review, or Clean."@,
            ),
        )
    }
}

/// The title of the detail, and the detail.
pub fn detail(items: &Vec<ArchivedItem>, selected: usize, width: usize) -> (r: (String, Vec<Line>))
    ensures
        r.0@ == detail_of(items@, selected, width as nat).0,
        lines_view(r.1@) == detail_of(items@, selected, width as nat).1,
{
    if selected >= items.len() {
        return (
            "Archive".to_owned(),
            empty_state(
                "The archive is empty.",
                "x archives the selected item on Library, Review, or Clean.",
            ),
        );
    }
    let (_, label) = describe(&items[selected]);
    let title = label.to_owned();
    let mut r = no_lines();
    match &items[selected] {
        ArchivedItem::Note { path, section_count, quiz_count, .. } => {
            push_text(&mut r, fit(path.as_str(), width).as_str(), Role::Dim);
            push_blank(&mut r);
            let mut text = glue(decimal_text(*section_count as u64).as_str(), " sections and ");
            text.append(decimal_text(*quiz_count as u64).as_str());
            text.append(" quizzes are hidden with it");
            push_text(&mut r, text.as_str(), Role::Faint);
        },
        ArchivedItem::Section { note_title, quiz_count, .. } => {
            push_text(&mut r, fit(note_title.as_str(), width).as_str(), Role::Dim);
            push_blank(&mut r);
            let text = glue(
                decimal_text(*quiz_count as u64).as_str(),
                " quizzes are hidden with this section",
            );
            push_text(&mut r, text.as_str(), Role::Faint);
        },
        ArchivedItem::Quiz { card_count, .. } => {
            let text = glue(decimal_text(*card_count as u64).as_str(), " card variants retained");
            push_text(&mut r, text.as_str(), Role::Faint);
        },
        ArchivedItem::Deck { quiz_count, .. } => {
            let text = glue(decimal_text(*quiz_count as u64).as_str(), " quizzes assigned");
            push_text(&mut r, text.as_str(), Role::Dim);
            push_blank(&mut r);
            push_text(
                &mut r,
                "Quizzes only in this deck are hidden; those shared with an active deck stay active.",
                Role::Faint,
            );
        },
    }
    assert(lines_view(r@) == item_detail(items@[selected as int], width as nat));
    (title, r)
}

} // verus!
