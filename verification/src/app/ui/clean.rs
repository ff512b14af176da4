//! The Clean page: everything in the vault that has no home yet.

use vstd::prelude::*;
use vstd::string::*;

use crate::app::items::{clean_rows_need_cleaning, CleanItem, Data};
use crate::app::ui::lines::{
    blank, lines_view, no_lines, one, push_blank, push_line, push_text, Line, LineView, Role,
};
use crate::app::ui::review::{active_deck_name, active_name};
use crate::app::ui::widgets::{empty_lines, empty_state, heading, kv, kv_line};
use crate::app::util::{fit, fitted};
use crate::text::uppercase_of;

verus! {

/// What an item is called.
pub open spec fn item_name(data: Data, item: CleanItem) -> Seq<char> {
    match item {
        CleanItem::Note(i) => data.notes@[i as int].title@,
        CleanItem::Card(i) => data.cards@[i as int].label@,
        CleanItem::Image(i) => data.orphan_images@[i as int]@,
    }
}

pub open spec fn group_of_item(item: CleanItem) -> int {
    match item {
        CleanItem::Note(_) => 0,
        CleanItem::Card(_) => 1,
        CleanItem::Image(_) => 2,
    }
}

pub open spec fn group_name(group: int) -> Seq<char> {
    if group == 0 {
        "Notes without topics"@
    } else if group == 1 {
        "Cards without decks"@
    } else {
        "Unused images"@
    }
}

/// The heading of a group, above its first item.
pub open spec fn group_rows(last: Option<int>, group: int, first: bool) -> Seq<LineView> {
    let name = one(uppercase_of(group_name(group)), Role::Heading);
    if last == Some(group) {
        Seq::empty()
    } else if group > 0 && !first {
        seq![blank(), name]
    } else {
        seq![name]
    }
}

/// The rows of the first `count` items, the row of the selected one, and the group of the
/// last one.
pub open spec fn queued(
    data: Data,
    items: Seq<CleanItem>,
    selected: usize,
    width: nat,
    count: int,
) -> (Seq<LineView>, Option<usize>, Option<int>)
    decreases count,
{
    if count <= 0 {
        (Seq::empty(), None, None)
    } else {
        let (rows, row, last) = queued(data, items, selected, width, count - 1);
        let item = items[count - 1];
        let above = rows + group_rows(last, group_of_item(item), rows.len() == 0);
        (
            above.push(one(fitted(item_name(data, item), width), Role::Text)),
            if count - 1 == selected {
                Some(above.len() as usize)
            } else {
                row
            },
            Some(group_of_item(item)),
        )
    }
}

/// The rows of the page, and the row of the selected item.
pub open spec fn queue_of(data: Data, selected: usize, width: nat) -> (
    Seq<LineView>,
    Option<usize>,
) {
    let items = data.spec_clean_items();
    let all = queued(data, items, selected, width, items.len() as int);
    (
        if items.len() == 0 {
            seq![one("Everything has a home"@, Role::Fine)]
        } else {
            all.0
        },
        all.1,
    )
}

/// The rows of the page, and the row of the selected item.
pub fn queue(data: &Data, selected: usize, width: usize) -> (r: (Vec<Line>, Option<usize>))
    ensures
        lines_view(r.0@) == queue_of(*data, selected, width as nat).0,
        r.1 == queue_of(*data, selected, width as nat).1,
{
    let items = data.clean_items();
    let (a, b, c) = (data.notes.len(), data.cards.len(), data.orphan_images.len());
    let mut rows = no_lines();
    if items.len() == 0 {
        push_text(&mut rows, "Everything has a home", Role::Fine);
        assert(lines_view(rows@) == seq![one("Everything has a home"@, Role::Fine)]);
        return (rows, None);
    }
    let mut row: Option<usize> = None;
    let mut last: usize = 3;
    let mut i: usize = 0;
    while i < items.len()
        invariant
            0 <= i <= items.len(),
            items@ == data.spec_clean_items(),
            data.notes@.len() <= usize::MAX,
            data.cards@.len() <= usize::MAX,
            data.orphan_images@.len() <= usize::MAX,
            ({
                let so_far = queued(*data, items@, selected, width as nat, i as int);
                &&& lines_view(rows@) == so_far.0
                &&& row == so_far.1
                &&& so_far.2 == (if last == 3 {
                    None
                } else {
                    Some(last as int)
                })
            }),
        decreases items.len() - i,
    {
        proof {
            clean_rows_need_cleaning(*data, i as int);
        }
        let ghost before = lines_view(rows@);
        let (group, name): (usize, &str) = match items[i] {
            CleanItem::Note(n) => (0, data.notes[n].title.as_str()),
            CleanItem::Card(n) => (1, data.cards[n].label.as_str()),
            CleanItem::Image(n) => (2, data.orphan_images[n].as_str()),
        };
        if group != last {
            if group > 0 && rows.len() > 0 {
                push_blank(&mut rows);
            }
            push_line(
                &mut rows,
                heading(
                    if group == 0 {
                        "Notes without topics"
                    } else if group == 1 {
                        "Cards without decks"
                    } else {
                        "Unused images"
                    },
                ),
            );
        }
        assert(lines_view(rows@) == before + group_rows(
            if last == 3 {
                None
            } else {
                Some(last as int)
            },
            group as int,
            before.len() == 0,
        ));
        if i == selected {
            row = Some(rows.len());
        }
        push_text(&mut rows, fit(name, width).as_str(), Role::Text);
        last = group;
        i += 1;
    }
    (rows, row)
}

/// The title of the detail, and the detail. `size` is how large the selected image is.
pub open spec fn detail_of(
    data: Data,
    selected: usize,
    active_deck: usize,
    size: Seq<char>,
    width: nat,
) -> (Seq<char>, Seq<LineView>) {
    match data.clean_at(selected) {
        Some(CleanItem::Note(i)) => (
            data.notes@[i as int].title@,
            seq![
                one("This note has no topic."@, Role::Warn),
                blank(),
                one("Add one to its front matter:"@, Role::Dim),
                one("topic: Your topic"@, Role::Accent),
            ],
        ),
        Some(CleanItem::Card(i)) => (
            data.cards@[i as int].label@,
            seq![
                one("This card belongs to no deck."@, Role::Warn),
                blank(),
                kv_line("active"@, active_name(data, active_deck, "no deck"@), width),
                blank(),
                one(
                    "a assigns it to the active deck; change that deck on the Review page with [ and ]."@,
                    Role::Faint,
                ),
            ],
        ),
        Some(CleanItem::Image(i)) => (
            data.orphan_images@[i as int]@,
            seq![
                one("No Markdown link points at this file."@, Role::Warn),
                blank(),
                kv_line("size"@, size, width),
                blank(),
                one("d deletes it permanently."@, Role::Wrong),
            ],
        ),
        None => (
            "Vault is clean"@,
            empty_lines(
                "Every note has a topic, every card has a deck, and every image is referenced."@,
                "Nothing to do here."@,
            ),
        ),
    }
}

/// The title of the detail, and the detail. `size` is how large the selected image is.
pub fn detail(
    data: &Data,
    selected: usize,
    active_deck: usize,
    size: &str,
    width: usize,
) -> (r: (String, Vec<Line>))
    ensures
        r.0@ == detail_of(*data, selected, active_deck, size@, width as nat).0,
        lines_view(r.1@) == detail_of(*data, selected, active_deck, size@, width as nat).1,
{
    let items = data.clean_items();
    let (a, b, c) = (data.notes.len(), data.cards.len(), data.orphan_images.len());
    if selected >= items.len() {
        return (
            "Vault is clean".to_owned(),
            empty_state(
                "Every note has a topic, every card has a deck, and every image is referenced.",
                "Nothing to do here.",
            ),
        );
    }
    proof {
        clean_rows_need_cleaning(*data, selected as int);
    }
    let mut r = no_lines();
    let title = match items[selected] {
        CleanItem::Note(i) => {
            push_text(&mut r, "This note has no topic.", Role::Warn);
            push_blank(&mut r);
            push_text(&mut r, "Add one to its front matter:", Role::Dim);
            push_text(&mut r, "topic: Your topic", Role::Accent);
            data.notes[i].title.clone()
        },
        CleanItem::Card(i) => {
            push_text(&mut r, "This card belongs to no deck.", Role::Warn);
            push_blank(&mut r);
            let active = active_deck_name(data, active_deck, "no deck");
            push_line(&mut r, kv("active", active.as_str(), width));
            push_blank(&mut r);
            push_text(
                &mut r,
                "a assigns it to the active deck; change that deck on the Review page with [ and ].",
                Role::Faint,
            );
            data.cards[i].label.clone()
        },
        CleanItem::Image(i) => {
            push_text(&mut r, "No Markdown link points at this file.", Role::Warn);
            push_blank(&mut r);
            push_line(&mut r, kv("size", size, width));
            push_blank(&mut r);
            push_text(&mut r, "d deletes it permanently.", Role::Wrong);
            data.orphan_images[i].clone()
        },
    };
    assert(lines_view(r@) == detail_of(*data, selected, active_deck, size@, width as nat).1);
    (title, r)
}

} // verus!
