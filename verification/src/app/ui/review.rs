//! The Review page, and the choice of a deck.

use vstd::prelude::*;
use vstd::string::*;

use crate::app::items::{lemma_section_with_uid, review_rows_exist, section_with_uid, Data, ReviewItem};
use crate::app::ui::lines::{
    blank, body_lines, lines_view, no_lines, one, push_blank, push_body, push_line, push_text, sp,
    Line, LineView, Role,
};
use crate::app::ui::widgets::{
    empty_lines, empty_state, heading, kv, kv_line, less, spread, spread_line,
};
use crate::app::util::{display_markdown, fit, fitted, shown_body};
use crate::model::{CardRow, DeckRow, ReviewSectionRow};
use crate::text::{
    decimal, decimal_text, glue, glue3, join, join_texts, text_eq, texts, uppercase_of,
};

verus! {

/// How many cards there are, in words.
pub open spec fn cards_text(count: nat) -> Seq<char> {
    decimal(count) + " cards"@
}

fn cards_words(count: usize) -> (r: String)
    ensures
        r@ == cards_text(count as nat),
{
    glue(decimal_text(count as u64).as_str(), " cards")
}

// ---------------------------------------------------------------------------
// The list
// ---------------------------------------------------------------------------

/// What a section is called in the list.
pub open spec fn section_name(section: ReviewSectionRow) -> Seq<char> {
    if section.note_title@ == section.heading@ {
        section.heading@
    } else {
        section.note_title@ + " / "@ + section.heading@
    }
}

/// The row of a section.
pub open spec fn section_line(section: ReviewSectionRow, width: nat) -> LineView {
    seq![
        sp(
            if section.enrolled {
                "✓ "@
            } else {
                "  "@
            },
            Role::Accent,
        ),
        sp(fitted(section_name(section), less(width as int, 2) as nat), Role::Text),
    ]
}

/// The row of a deck.
pub open spec fn deck_line(deck: DeckRow, active: bool, width: nat) -> LineView {
    spread_line(
        (if active {
            "● "@
        } else {
            "  "@
        }) + deck.name@,
        cards_text(deck.card_count as nat),
        width,
        if active {
            Role::Accent
        } else {
            Role::Faint
        },
    )
}

/// The row of a card.
pub open spec fn card_line(card: CardRow, width: nat) -> LineView {
    seq![
        sp("  "@, Role::Text),
        sp(fitted(card.label@, less(width as int, 2) as nat), Role::Dim),
    ]
}

/// The group that an item belongs to.
pub open spec fn group_of_item(item: ReviewItem) -> int {
    match item {
        ReviewItem::Section(_) => 0,
        ReviewItem::Deck(_) => 1,
        ReviewItem::Card(_) => 2,
    }
}

/// What a group is called.
pub open spec fn group_name(group: int) -> Seq<char> {
    if group == 0 {
        "Sections"@
    } else if group == 1 {
        "Decks"@
    } else {
        "Cards"@
    }
}

/// The heading of a group, above its first item.
pub open spec fn group_rows(last: Option<int>, group: int) -> Seq<LineView> {
    let name = one(uppercase_of(group_name(group)), Role::Heading);
    if last == Some(group) {
        Seq::empty()
    } else if group > 0 {
        seq![blank(), name]
    } else {
        seq![name]
    }
}

/// The row of an item.
pub open spec fn item_line(data: Data, item: ReviewItem, active_deck: usize, width: nat) -> LineView {
    match item {
        ReviewItem::Section(i) => section_line(data.review_sections@[i as int], width),
        ReviewItem::Deck(i) => deck_line(data.decks@[i as int], i == active_deck, width),
        ReviewItem::Card(i) => card_line(data.cards@[i as int], width),
    }
}

/// The rows of the first `count` items, the row of the selected one, and the group of the
/// last one.
pub open spec fn organised(
    data: Data,
    items: Seq<ReviewItem>,
    selected: usize,
    active_deck: usize,
    width: nat,
    count: int,
) -> (Seq<LineView>, Option<usize>, Option<int>)
    decreases count,
{
    if count <= 0 {
        (Seq::empty(), None, None)
    } else {
        let (rows, row, last) = organised(data, items, selected, active_deck, width, count - 1);
        let group = group_of_item(items[count - 1]);
        let above = rows + group_rows(last, group);
        (
            above.push(item_line(data, items[count - 1], active_deck, width)),
            if count - 1 == selected {
                Some(above.len() as usize)
            } else {
                row
            },
            Some(group),
        )
    }
}

/// What the list says where it is empty.
pub open spec fn nothing_to_review() -> Seq<LineView> {
    seq![
        one("Nothing to review yet"@, Role::Dim),
        one("Enrol a section with space, or write a quiz card"@, Role::Faint),
    ]
}

/// The rows of the page, and the row of the selected item.
pub open spec fn organiser_of(data: Data, selected: usize, active_deck: usize, width: nat) -> (
    Seq<LineView>,
    Option<usize>,
) {
    let items = data.spec_review_items();
    let all = organised(data, items, selected, active_deck, width, items.len() as int);
    (
        if items.len() == 0 {
            nothing_to_review()
        } else {
            all.0
        },
        all.1,
    )
}

fn line_of(data: &Data, item: ReviewItem, active_deck: usize, width: usize) -> (r: Line)
    requires
        match item {
            ReviewItem::Section(i) => i < data.review_sections@.len(),
            ReviewItem::Deck(i) => i < data.decks@.len(),
            ReviewItem::Card(i) => i < data.cards@.len(),
        },
    ensures
        r@ == item_line(*data, item, active_deck, width as nat),
{
    match item {
        ReviewItem::Section(i) => {
            let section = &data.review_sections[i];
            let name = if text_eq(section.note_title.as_str(), section.heading.as_str()) {
                section.heading.clone()
            } else {
                glue3(section.note_title.as_str(), " / ", section.heading.as_str())
            };
            let mut line = Line::of(
                if section.enrolled {
                    "✓ "
                } else {
                    "  "
                },
                Role::Accent,
            );
            line.push(fit(name.as_str(), width.saturating_sub(2)).as_str(), Role::Text);
            assert(line@ == section_line(*section, width as nat));
            line
        },
        ReviewItem::Deck(i) => {
            let deck = &data.decks[i];
            let active = i == active_deck;
            let name = glue(
                if active {
                    "● "
                } else {
                    "  "
                },
                deck.name.as_str(),
            );
            spread(
                name.as_str(),
                cards_words(deck.card_count).as_str(),
                width,
                if active {
                    Role::Accent
                } else {
                    Role::Faint
                },
            )
        },
        ReviewItem::Card(i) => {
            let card = &data.cards[i];
            let mut line = Line::of("  ", Role::Text);
            line.push(fit(card.label.as_str(), width.saturating_sub(2)).as_str(), Role::Dim);
            assert(line@ == card_line(*card, width as nat));
            line
        },
    }
}

/// The rows of the page, and the row of the selected item.
pub fn organiser(data: &Data, selected: usize, active_deck: usize, width: usize) -> (r: (
    Vec<Line>,
    Option<usize>,
))
    ensures
        lines_view(r.0@) == organiser_of(*data, selected, active_deck, width as nat).0,
        r.1 == organiser_of(*data, selected, active_deck, width as nat).1,
{
    let items = data.review_items();
    let (a, b, c) = (data.review_sections.len(), data.decks.len(), data.cards.len());
    let mut rows = no_lines();
    if items.len() == 0 {
        push_text(&mut rows, "Nothing to review yet", Role::Dim);
        push_text(&mut rows, "Enrol a section with space, or write a quiz card", Role::Faint);
        assert(lines_view(rows@) == nothing_to_review());
        return (rows, None);
    }
    let mut row: Option<usize> = None;
    let mut last: usize = 3;
    let mut i: usize = 0;
    while i < items.len()
        invariant
            0 <= i <= items.len(),
            items@ == data.spec_review_items(),
            data.review_sections@.len() <= usize::MAX,
            data.decks@.len() <= usize::MAX,
            data.cards@.len() <= usize::MAX,
            ({
                let so_far = organised(
                    *data,
                    items@,
                    selected,
                    active_deck,
                    width as nat,
                    i as int,
                );
                &&& lines_view(rows@) == so_far.0
                &&& row == so_far.1
                &&& so_far.2 == (if last == 3 {
                    None
                } else {
                    Some(last as int)
                })
            }),
        decreases items.len() - i,
    {
        proof {
            review_rows_exist(*data, i as int);
        }
        let ghost before = lines_view(rows@);
        let group: usize = match items[i] {
            ReviewItem::Section(_) => 0,
            ReviewItem::Deck(_) => 1,
            ReviewItem::Card(_) => 2,
        };
        if group != last {
            if group > 0 {
                push_blank(&mut rows);
            }
            push_line(
                &mut rows,
                heading(
                    if group == 0 {
                        "Sections"
                    } else if group == 1 {
                        "Decks"
                    } else {
                        "Cards"
                    },
                ),
            );
        }
        assert(lines_view(rows@) == before + group_rows(
            if last == 3 {
                None
            } else {
                Some(last as int)
            },
            group as int,
        ));
        if i == selected {
            row = Some(rows.len());
        }
        let line = line_of(data, items[i], active_deck, width);
        push_line(&mut rows, line);
        last = group;
        i += 1;
    }
    (rows, row)
}

// ---------------------------------------------------------------------------
// The detail
// ---------------------------------------------------------------------------

/// The detail of a section, and the body that is shown below it.
pub open spec fn section_detail(section: ReviewSectionRow, body: Seq<char>, width: nat) -> Seq<
    LineView,
> {
    seq![
        seq![
            sp(fitted(section.note_title@, width / 2), Role::Dim),
            sp("  ·  "@, Role::Faint),
            sp(
                if section.enrolled {
                    "enrolled"@
                } else {
                    "not enrolled"@
                },
                if section.enrolled {
                    Role::Fine
                } else {
                    Role::Faint
                },
            ),
        ],
        blank(),
    ] + body_lines(body)
}

/// The cards of a deck, line by line.
pub open spec fn deck_cards(cards: Seq<CardRow>, deck: i64, width: nat, count: int) -> Seq<LineView>
    decreases count,
{
    if count <= 0 {
        Seq::empty()
    } else {
        let before = deck_cards(cards, deck, width, count - 1);
        let card = cards[count - 1];
        if card.decks@.contains(deck) {
            before.push(
                one(
                    "  "@ + fitted(card.label@, less(width as int, 2) as nat),
                    Role::Text,
                ),
            )
        } else {
            before
        }
    }
}

/// The names of the decks that a card is in.
pub open spec fn deck_names(decks: Seq<DeckRow>, card: CardRow, count: int) -> Seq<Seq<char>>
    decreases count,
{
    if count <= 0 {
        Seq::empty()
    } else {
        let before = deck_names(decks, card, count - 1);
        if card.decks@.contains(decks[count - 1].id) {
            before.push(decks[count - 1].name@)
        } else {
            before
        }
    }
}

/// What the active deck is called.
pub open spec fn active_name(data: Data, active_deck: usize, none: Seq<char>) -> Seq<char> {
    if active_deck < data.decks@.len() {
        data.decks@[active_deck as int].name@
    } else {
        none
    }
}

/// What the active deck is called.
pub fn active_deck_name(data: &Data, active_deck: usize, none: &str) -> (r: String)
    ensures
        r@ == active_name(*data, active_deck, none@),
{
    if active_deck < data.decks.len() {
        data.decks[active_deck].name.clone()
    } else {
        none.to_owned()
    }
}

/// The detail of a card.
pub open spec fn card_detail(data: Data, card: CardRow, active_deck: usize, width: nat) -> Seq<
    LineView,
> {
    let assigned = join(deck_names(data.decks@, card, data.decks@.len() as int), ", "@);
    seq![
        kv_line(
            "decks"@,
            if assigned.len() == 0 {
                "unassigned"@
            } else {
                assigned
            },
            width,
        ),
        kv_line("active"@, active_name(data, active_deck, "No deck"@), width),
    ]
}

/// The title of the detail, and the detail.
pub open spec fn detail_of(data: Data, selected: usize, active_deck: usize, width: nat) -> (
    Seq<char>,
    Seq<LineView>,
) {
    match data.review_at(selected) {
        Some(ReviewItem::Section(i)) => {
            let section = data.review_sections@[i as int];
            let body = match section_with_uid(data.sections@, section.uid@, 0) {
                Some(s) => shown_body(data.sections@[s as int].body@),
                None => Seq::empty(),
            };
            (section.heading@, section_detail(section, body, width))
        },
        Some(ReviewItem::Deck(i)) => {
            let deck = data.decks@[i as int];
            (
                deck.name@,
                seq![one(cards_text(deck.card_count as nat), Role::Dim), blank()] + deck_cards(
                    data.cards@,
                    deck.id,
                    width,
                    data.cards@.len() as int,
                ),
            )
        },
        Some(ReviewItem::Card(i)) => (
            data.cards@[i as int].label@,
            card_detail(data, data.cards@[i as int], active_deck, width),
        ),
        None => (
            "Review"@,
            empty_lines(
                "Nothing is enrolled for review."@,
                "Select a section and press space to enrol it."@,
            ),
        ),
    }
}

fn in_deck(decks: &Vec<i64>, deck: i64) -> (r: bool)
    ensures
        r == decks@.contains(deck),
{
    let mut i: usize = 0;
    while i < decks.len()
        invariant
            0 <= i <= decks.len(),
            forall|k: int| 0 <= k < i ==> (#[trigger] decks@[k]) != deck,
        decreases decks.len() - i,
    {
        if decks[i] == deck {
            return true;
        }
        i += 1;
    }
    false
}

fn push_deck_cards(r: &mut Vec<Line>, cards: &Vec<CardRow>, deck: i64, width: usize)
    ensures
        lines_view(final(r)@) == lines_view(old(r)@) + deck_cards(
            cards@,
            deck,
            width as nat,
            cards.len() as int,
        ),
{
    let ghost before = lines_view(r@);
    let mut i: usize = 0;
    assert(before + Seq::<LineView>::empty() == before);
    while i < cards.len()
        invariant
            0 <= i <= cards.len(),
            lines_view(r@) == before + deck_cards(cards@, deck, width as nat, i as int),
        decreases cards.len() - i,
    {
        let ghost so_far = deck_cards(cards@, deck, width as nat, i as int);
        if in_deck(&cards[i].decks, deck) {
            let text = glue(
                "  ",
                fit(cards[i].label.as_str(), width.saturating_sub(2)).as_str(),
            );
            push_text(r, text.as_str(), Role::Text);
            assert(lines_view(r@) == before + so_far.push(one(text@, Role::Text)));
        }
        i += 1;
    }
}

fn names_of_decks(decks: &Vec<DeckRow>, card: &CardRow) -> (r: Vec<String>)
    ensures
        texts(r@) == deck_names(decks@, *card, decks.len() as int),
{
    let mut r: Vec<String> = Vec::new();
    let mut i: usize = 0;
    assert(texts(r@) == Seq::<Seq<char>>::empty());
    while i < decks.len()
        invariant
            0 <= i <= decks.len(),
            texts(r@) == deck_names(decks@, *card, i as int),
        decreases decks.len() - i,
    {
        let ghost before = texts(r@);
        if in_deck(&card.decks, decks[i].id) {
            r.push(decks[i].name.clone());
            assert(texts(r@) == before.push(decks@[i as int].name@));
        }
        i += 1;
    }
    r
}

/// The title of the detail, and the detail.
pub fn detail(data: &Data, selected: usize, active_deck: usize, width: usize) -> (r: (
    String,
    Vec<Line>,
))
    ensures
        r.0@ == detail_of(*data, selected, active_deck, width as nat).0,
        lines_view(r.1@) == detail_of(*data, selected, active_deck, width as nat).1,
{
    let items = data.review_items();
    let (a, b, c) = (data.review_sections.len(), data.decks.len(), data.cards.len());
    if selected >= items.len() {
        return (
            "Review".to_owned(),
            empty_state(
                "Nothing is enrolled for review.",
                "Select a section and press space to enrol it.",
            ),
        );
    }
    proof {
        review_rows_exist(*data, selected as int);
    }
    let mut r = no_lines();
    match items[selected] {
        ReviewItem::Section(i) => {
            let section = &data.review_sections[i];
            let count: usize = data.sections.len();
            let body = match data.find_section(section.uid.as_str()) {
                Some(s) => {
                    proof {
                        lemma_section_with_uid(*data, section.uid@, 0);
                    }
                    display_markdown(data.sections[s].body.as_str())
                },
                None => {
                    let empty = String::new();
                    assert(empty@ == Seq::<char>::empty());
                    empty
                },
            };
            let mut line = Line::of(fit(section.note_title.as_str(), width / 2).as_str(), Role::Dim);
            line.push("  ·  ", Role::Faint);
            if section.enrolled {
                line.push("enrolled", Role::Fine);
            } else {
                line.push("not enrolled", Role::Faint);
            }
            assert(line@ == section_detail(*section, body@, width as nat)[0]);
            push_line(&mut r, line);
            push_blank(&mut r);
            push_body(&mut r, body.as_str());
            assert(lines_view(r@) == section_detail(*section, body@, width as nat));
            (section.heading.clone(), r)
        },
        ReviewItem::Deck(i) => {
            let deck = &data.decks[i];
            push_text(&mut r, cards_words(deck.card_count).as_str(), Role::Dim);
            push_blank(&mut r);
            push_deck_cards(&mut r, &data.cards, deck.id, width);
            assert(lines_view(r@) == detail_of(*data, selected, active_deck, width as nat).1);
            (deck.name.clone(), r)
        },
        ReviewItem::Card(i) => {
            let card = &data.cards[i];
            let names = names_of_decks(&data.decks, card);
            let assigned = join_texts(&names, ", ");
            let unassigned = crate::text::to_chars(assigned.as_str()).len() == 0;
            push_line(
                &mut r,
                kv(
                    "decks",
                    if unassigned {
                        "unassigned"
                    } else {
                        assigned.as_str()
                    },
                    width,
                ),
            );
            push_line(
                &mut r,
                kv(
                    "active",
                    active_deck_name(data, active_deck, "No deck").as_str(),
                    width,
                ),
            );
            assert(lines_view(r@) == card_detail(*data, *card, active_deck, width as nat));
            (card.label.clone(), r)
        },
    }
}

// ---------------------------------------------------------------------------
// Choosing a deck
// ---------------------------------------------------------------------------

/// How many cards are in no deck.
pub open spec fn deckless(cards: Seq<CardRow>, count: int) -> nat
    decreases count,
{
    if count <= 0 {
        0
    } else {
        deckless(cards, count - 1) + (if cards[count - 1].decks@.len() == 0 {
            1nat
        } else {
            0nat
        })
    }
}

/// The row of a deck that can be chosen.
pub open spec fn choice_line(name: Seq<char>, count: nat) -> LineView {
    spread_line(name, cards_text(count), 58, Role::Faint)
}

/// The decks that can be chosen. The first row stands for the cards in no deck.
pub open spec fn choice_rows_of(data: Data) -> Seq<LineView> {
    seq![choice_line("No deck"@, deckless(data.cards@, data.cards@.len() as int))] + Seq::new(
        data.decks@.len(),
        |i: int| choice_line(data.decks@[i].name@, data.decks@[i].card_count as nat),
    )
}

fn count_deckless(cards: &Vec<CardRow>) -> (r: usize)
    ensures
        r == deckless(cards@, cards.len() as int),
{
    let mut r: usize = 0;
    let mut i: usize = 0;
    while i < cards.len()
        invariant
            0 <= i <= cards.len(),
            r <= i,
            r == deckless(cards@, i as int),
        decreases cards.len() - i,
    {
        if cards[i].decks.len() == 0 {
            r += 1;
        }
        i += 1;
    }
    r
}

/// The decks that can be chosen. The first row stands for the cards in no deck.
pub fn choice_rows(data: &Data) -> (r: Vec<Line>)
    ensures
        lines_view(r@) == choice_rows_of(*data),
{
    let mut r = no_lines();
    push_line(
        &mut r,
        spread("No deck", cards_words(count_deckless(&data.cards)).as_str(), 58, Role::Faint),
    );
    let ghost head = seq![
        choice_line("No deck"@, deckless(data.cards@, data.cards@.len() as int)),
    ];
    assert(lines_view(r@) == head);
    let ghost all = Seq::new(
        data.decks@.len(),
        |i: int| choice_line(data.decks@[i].name@, data.decks@[i].card_count as nat),
    );
    let mut i: usize = 0;
    assert(head + all.take(0) == head);
    while i < data.decks.len()
        invariant
            0 <= i <= data.decks.len(),
            all == Seq::new(
                data.decks@.len(),
                |i: int| choice_line(data.decks@[i].name@, data.decks@[i].card_count as nat),
            ),
            lines_view(r@) == head + all.take(i as int),
        decreases data.decks.len() - i,
    {
        let deck = &data.decks[i];
        push_line(
            &mut r,
            spread(deck.name.as_str(), cards_words(deck.card_count).as_str(), 58, Role::Faint),
        );
        assert(all.take(i + 1) == all.take(i as int).push(all[i as int]));
        assert(lines_view(r@) == head + all.take(i + 1));
        i += 1;
    }
    assert(all.take(i as int) == all);
    r
}

/// The keys of the choice.
pub open spec fn choice_keys_of() -> LineView {
    seq![
        sp("⏎"@, Role::Accent),
        sp(" due cards    "@, Role::Faint),
        sp("f"@, Role::Accent),
        sp(" every card    "@, Role::Faint),
        sp("esc"@, Role::Accent),
        sp(" cancel"@, Role::Faint),
    ]
}

/// The keys of the choice.
pub fn choice_keys() -> (r: Line)
    ensures
        r@ == choice_keys_of(),
{
    let mut r = Line::of("⏎", Role::Accent);
    r.push(" due cards    ", Role::Faint);
    r.push("f", Role::Accent);
    r.push(" every card    ", Role::Faint);
    r.push("esc", Role::Accent);
    r.push(" cancel", Role::Faint);
    assert(r@ == choice_keys_of());
    r
}

/// Cards without a deck are counted, and no others.
pub proof fn cards_without_a_deck_are_counted(cards: Seq<CardRow>, count: int)
    requires
        0 <= count <= cards.len(),
    ensures
        deckless(cards, count) == cards.take(count).filter(
            |card: CardRow| card.decks@.len() == 0,
        ).len(),
    decreases count,
{
    reveal(Seq::filter);
    if count > 0 {
        cards_without_a_deck_are_counted(cards, count - 1);
        assert(cards.take(count).drop_last() == cards.take(count - 1));
        assert(cards.take(count).last() == cards[count - 1]);
    } else {
        assert(cards.take(0).len() == 0);
    }
}

/// The decks of a card are those that it names, in the order of the decks.
pub proof fn a_card_names_its_decks(decks: Seq<DeckRow>, card: CardRow, count: int)
    requires
        0 <= count < decks.len(),
    ensures
        card.decks@.contains(decks[count].id) ==> deck_names(decks, card, count + 1) == deck_names(
            decks,
            card,
            count,
        ).push(decks[count].name@),
        !card.decks@.contains(decks[count].id) ==> deck_names(decks, card, count + 1)
            == deck_names(decks, card, count),
{
}

/// The cards of a deck are shown, one line for each that is in it.
pub proof fn the_cards_of_a_deck_are_shown(
    cards: Seq<CardRow>,
    deck: i64,
    width: nat,
    count: int,
)
    requires
        0 <= count <= cards.len(),
    ensures
        deck_cards(cards, deck, width, count).len() == cards.take(count).filter(
            |card: CardRow| card.decks@.contains(deck),
        ).len(),
    decreases count,
{
    reveal(Seq::filter);
    if count > 0 {
        the_cards_of_a_deck_are_shown(cards, deck, width, count - 1);
        assert(cards.take(count).drop_last() == cards.take(count - 1));
        assert(cards.take(count).last() == cards[count - 1]);
    } else {
        assert(cards.take(0).len() == 0);
    }
}

/// Every item has a line of its own, and the selected row is the line of the selected item.
pub proof fn the_selected_row_is_that_of_the_item(
    data: Data,
    items: Seq<ReviewItem>,
    selected: usize,
    active_deck: usize,
    width: nat,
    count: int,
)
    requires
        0 <= count <= items.len(),
        organised(data, items, selected, active_deck, width, count).0.len() <= usize::MAX,
    ensures
        ({
            let (rows, row, last) = organised(data, items, selected, active_deck, width, count);
            &&& rows.len() >= count
            &&& selected < count ==> (row matches Some(r) && r < rows.len() && rows[r as int]
                == item_line(data, items[selected as int], active_deck, width))
            &&& selected >= count ==> row is None
        }),
    decreases count,
{
    if count > 0 {
        let before = organised(data, items, selected, active_deck, width, count - 1);
        let all = organised(data, items, selected, active_deck, width, count);
        assert(before.0.len() < all.0.len());
        the_selected_row_is_that_of_the_item(
            data,
            items,
            selected,
            active_deck,
            width,
            count - 1,
        );
        if selected < count - 1 {
            assert(all.0[before.1->0 as int] == before.0[before.1->0 as int]);
        }
    }
}

} // verus!
