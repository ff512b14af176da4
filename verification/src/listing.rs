//! Which cards are in view: what archiving hides, which decks hold a card, and what a device
//! is told of it.

use std::collections::HashSet;

use vstd::prelude::*;
use vstd::string::*;

use crate::model::{CardRow, Diagnostic, DiagnosticView, ReviewScope};
use crate::quiz::holds;
use crate::reviews::{in_scope, QueueRow};
use crate::text::{glue3, texts};

verus! {

/// A deck that holds a card.
#[derive(Debug, Clone, Copy, PartialEq, Eq, Structural)]
pub struct DeckLink {
    pub deck: i64,
    /// Whether the deck is archived.
    pub archived: bool,
}

/// A card of the index, with what it depends on whether it is in view.
#[derive(Debug)]
pub struct IndexedCard {
    pub id: i64,
    /// The file of the note that holds the card.
    pub note: i64,
    pub section_uid: String,
    pub quiz_id: String,
    pub card_type: String,
    pub note_title: String,
    pub heading: String,
    pub suspended: bool,
    pub archived: bool,
    pub section_archived: bool,
    pub note_archived: bool,
    pub decks: Vec<DeckLink>,
}

// ---------------------------------------------------------------------------
// Visibility
// ---------------------------------------------------------------------------

/// The decks that hold a card and are not archived.
pub open spec fn active_of(links: Seq<DeckLink>) -> Seq<i64>
    decreases links.len(),
{
    if links.len() == 0 {
        Seq::empty()
    } else {
        let before = active_of(links.drop_last());
        if links.last().archived {
            before
        } else {
            before.push(links.last().deck)
        }
    }
}

/// Whether neither the card nor what it belongs to is archived or suspended.
pub open spec fn is_active(card: IndexedCard) -> bool {
    !card.suspended && !card.archived && !card.section_archived && !card.note_archived
}

/// Whether a card is listed: it is active, and is not in archived decks alone.
pub open spec fn is_listed(card: IndexedCard) -> bool {
    is_active(card) && (card.decks@.len() == 0 || active_of(card.decks@).len() > 0)
}

/// What a card is called: its note, its section and its quiz.
pub open spec fn label_of(card: IndexedCard) -> Seq<char> {
    card.note_title@ + " / "@ + card.heading@ + " / "@ + card.quiz_id@
}

/// What a [`CardRow`] says.
#[verifier::ext_equal]
pub struct CardRowView {
    pub id: i64,
    pub label: Seq<char>,
    pub decks: Seq<i64>,
    pub section_uid: Seq<char>,
    pub card_type: Seq<char>,
}

impl View for CardRow {
    type V = CardRowView;

    open spec fn view(&self) -> CardRowView {
        CardRowView {
            id: self.id,
            label: self.label@,
            decks: self.decks@,
            section_uid: self.section_uid@,
            card_type: self.card_type@,
        }
    }
}

pub open spec fn card_rows_view(v: Seq<CardRow>) -> Seq<CardRowView> {
    Seq::new(v.len(), |i: int| v[i]@)
}

/// The row of a card.
pub open spec fn row_of(card: IndexedCard) -> CardRowView {
    CardRowView {
        id: card.id,
        label: label_of(card),
        decks: active_of(card.decks@),
        section_uid: card.section_uid@,
        card_type: card.card_type@,
    }
}

/// The rows of the first `count` cards that are listed.
pub open spec fn listed(cards: Seq<IndexedCard>, count: int) -> Seq<CardRowView>
    decreases count,
{
    if count <= 0 {
        Seq::empty()
    } else {
        let before = listed(cards, count - 1);
        if is_listed(cards[count - 1]) {
            before.push(row_of(cards[count - 1]))
        } else {
            before
        }
    }
}

/// The decks that hold a card and are not archived.
pub fn active_decks(links: &Vec<DeckLink>) -> (r: Vec<i64>)
    ensures
        r@ == active_of(links@),
{
    let mut r: Vec<i64> = Vec::new();
    let mut i: usize = 0;
    assert(links@.take(0) == Seq::<DeckLink>::empty());
    while i < links.len()
        invariant
            0 <= i <= links.len(),
            r@ == active_of(links@.take(i as int)),
        decreases links.len() - i,
    {
        assert(links@.take(i + 1).drop_last() == links@.take(i as int));
        assert(links@.take(i + 1).last() == links@[i as int]);
        if !links[i].archived {
            r.push(links[i].deck);
        }
        i += 1;
    }
    assert(links@.take(i as int) == links@);
    r
}

/// What a card is called: its note, its section and its quiz.
pub fn card_label(card: &IndexedCard) -> (r: String)
    ensures
        r@ == label_of(*card),
{
    let mut r = glue3(card.note_title.as_str(), " / ", card.heading.as_str());
    r.append(" / ");
    r.append(card.quiz_id.as_str());
    r
}

/// The rows of the cards that are listed.
pub fn card_rows(cards: &Vec<IndexedCard>) -> (r: Vec<CardRow>)
    ensures
        card_rows_view(r@) == listed(cards@, cards.len() as int),
{
    let mut r: Vec<CardRow> = Vec::new();
    let mut i: usize = 0;
    assert(card_rows_view(r@) == Seq::<CardRowView>::empty());
    while i < cards.len()
        invariant
            0 <= i <= cards.len(),
            card_rows_view(r@) == listed(cards@, i as int),
        decreases cards.len() - i,
    {
        let card = &cards[i];
        let ghost before = card_rows_view(r@);
        let decks = active_decks(&card.decks);
        let active = !card.suspended && !card.archived && !card.section_archived
            && !card.note_archived;
        if active && (card.decks.len() == 0 || decks.len() > 0) {
            let row = CardRow {
                id: card.id,
                label: card_label(card),
                decks,
                section_uid: card.section_uid.clone(),
                card_type: card.card_type.clone(),
            };
            let ghost v = row@;
            assert(v == row_of(*card));
            r.push(row);
            assert(card_rows_view(r@) == before.push(v));
        }
        i += 1;
    }
    r
}

// ---------------------------------------------------------------------------
// Which reviews count
// ---------------------------------------------------------------------------

/// Whether the reviews of a card count: neither the card nor what it belongs to is archived,
/// and it is not in archived decks alone. Suspending a card does not take its reviews away.
pub open spec fn is_counted(card: IndexedCard) -> bool {
    &&& !card.archived && !card.section_archived && !card.note_archived
    &&& card.decks@.len() == 0 || active_of(card.decks@).len() > 0
}

/// Whether the reviews of the card with an id count.
pub open spec fn counts(cards: Seq<IndexedCard>, id: i64) -> bool {
    exists|i: int| 0 <= i < cards.len() && (#[trigger] cards[i]).id == id && is_counted(cards[i])
}

/// The places of those among the first `count` reviews that count; each is given by its card.
pub open spec fn counted_of(cards: Seq<IndexedCard>, reviewed: Seq<i64>, count: int) -> Seq<usize>
    decreases count,
{
    if count <= 0 {
        Seq::empty()
    } else {
        let before = counted_of(cards, reviewed, count - 1);
        if counts(cards, reviewed[count - 1]) {
            before.push((count - 1) as usize)
        } else {
            before
        }
    }
}

/// The places of the reviews that count; each review is given by its card.
pub fn counted_reviews(cards: &Vec<IndexedCard>, reviewed: &Vec<i64>) -> (r: Vec<usize>)
    ensures
        r@ == counted_of(cards@, reviewed@, reviewed.len() as int),
{
    broadcast use vstd::std_specs::hash::group_hash_axioms;

    let mut ids: HashSet<i64> = HashSet::new();
    let mut i: usize = 0;
    while i < cards.len()
        invariant
            0 <= i <= cards.len(),
            forall|id: i64| #[trigger] ids@.contains(id) <==> counts(cards@.take(i as int), id),
        decreases cards.len() - i,
    {
        let card = &cards[i];
        let ghost before = ids@;
        let decks = active_decks(&card.decks);
        let counted = !card.archived && !card.section_archived && !card.note_archived && (
        card.decks.len() == 0 || decks.len() > 0);
        if counted {
            ids.insert(card.id);
        }
        proof {
            let shorter = cards@.take(i as int);
            let longer = cards@.take(i + 1);
            assert(longer[i as int] == *card);
            assert forall|id: i64| #[trigger] ids@.contains(id) <==> counts(longer, id) by {
                assert(before.contains(id) <==> counts(shorter, id));
                if counts(shorter, id) {
                    let k = choose|k: int|
                        0 <= k < shorter.len() && (#[trigger] shorter[k]).id == id && is_counted(
                            shorter[k],
                        );
                    assert(longer[k] == shorter[k]);
                }
                if counts(longer, id) {
                    let k = choose|k: int|
                        0 <= k < longer.len() && (#[trigger] longer[k]).id == id && is_counted(
                            longer[k],
                        );
                    if k < i {
                        assert(shorter[k] == longer[k]);
                    }
                }
            }
        }
        i += 1;
    }
    assert(cards@.take(cards.len() as int) == cards@);
    let mut r: Vec<usize> = Vec::new();
    let mut k: usize = 0;
    while k < reviewed.len()
        invariant
            0 <= k <= reviewed.len(),
            forall|id: i64| #[trigger] ids@.contains(id) <==> counts(cards@, id),
            r@ == counted_of(cards@, reviewed@, k as int),
        decreases reviewed.len() - k,
    {
        if ids.contains(&reviewed[k]) {
            r.push(k);
        }
        k += 1;
    }
    r
}

/// A card that is listed has its reviews counted; of a card whose reviews count, only being
/// suspended keeps it out of the list.
pub proof fn only_suspending_parts_counting_from_listing(card: IndexedCard)
    ensures
        is_listed(card) <==> is_counted(card) && !card.suspended,
{
}

// ---------------------------------------------------------------------------
// What the queue sees
// ---------------------------------------------------------------------------

/// The card as the review queue sees it; `None` for one that is not active.
pub open spec fn queued_as(card: IndexedCard, row: QueueRow, due_at: i64, review_count: u32) -> bool {
    &&& row.id == card.id
    &&& row.section_uid@ == card.section_uid@
    &&& row.due_at == due_at
    &&& row.review_count == review_count
    &&& row.in_a_deck == (card.decks@.len() > 0)
    &&& row.active_decks@ == active_of(card.decks@)
}

/// The card as the review queue sees it; `None` for one that is not active.
pub fn queue_row(card: &IndexedCard, due_at: i64, review_count: u32) -> (r: Option<QueueRow>)
    ensures
        match r {
            Some(row) => is_active(*card) && queued_as(*card, row, due_at, review_count),
            None => !is_active(*card),
        },
{
    if card.suspended || card.archived || card.section_archived || card.note_archived {
        return None;
    }
    Some(
        QueueRow {
            id: card.id,
            section_uid: card.section_uid.clone(),
            due_at,
            review_count,
            in_a_deck: card.decks.len() > 0,
            active_decks: active_decks(&card.decks),
        },
    )
}

/// A card is listed exactly when a review of everything could ask it.
pub proof fn listed_cards_can_be_reviewed(
    card: IndexedCard,
    row: QueueRow,
    due_at: i64,
    review_count: u32,
)
    requires
        is_active(card),
        queued_as(card, row, due_at, review_count),
    ensures
        is_listed(card) <==> in_scope(row, ReviewScope::All),
{
}

/// The links of a card after a deck was archived or restored.
pub open spec fn with_deck(links: Seq<DeckLink>, deck: i64, archived: bool) -> Seq<DeckLink> {
    Seq::new(
        links.len(),
        |i: int|
            if links[i].deck == deck {
                DeckLink { deck, archived }
            } else {
                links[i]
            },
    )
}

proof fn lemma_active(links: Seq<DeckLink>)
    ensures
        active_of(links).len() > 0 <==> exists|i: int|
            0 <= i < links.len() && !(#[trigger] links[i]).archived,
    decreases links.len(),
{
    if links.len() > 0 {
        let rest = links.drop_last();
        lemma_active(rest);
        if active_of(rest).len() > 0 {
            let i = choose|i: int| 0 <= i < rest.len() && !(#[trigger] rest[i]).archived;
            assert(!links[i].archived);
        }
        if !links.last().archived {
            assert(!links[links.len() - 1].archived);
        }
        if exists|i: int| 0 <= i < links.len() && !(#[trigger] links[i]).archived {
            let i = choose|i: int| 0 <= i < links.len() && !(#[trigger] links[i]).archived;
            if i < rest.len() {
                assert(!rest[i].archived);
            }
        }
    }
}

/// Archiving a deck hides an active card exactly when no other deck that is in view holds
/// it; restoring the deck brings the card back.
pub proof fn archived_decks_hide_exclusive_cards(links: Seq<DeckLink>, deck: i64)
    requires
        exists|i: int| 0 <= i < links.len() && (#[trigger] links[i]).deck == deck,
    ensures
        active_of(with_deck(links, deck, true)).len() > 0 <==> exists|i: int|
            0 <= i < links.len() && !(#[trigger] links[i]).archived && links[i].deck != deck,
        active_of(with_deck(links, deck, false)).len() > 0,
{
    let hidden = with_deck(links, deck, true);
    let shown = with_deck(links, deck, false);
    lemma_active(hidden);
    lemma_active(shown);
    let k = choose|i: int| 0 <= i < links.len() && (#[trigger] links[i]).deck == deck;
    assert(!shown[k].archived);
    if exists|i: int| 0 <= i < hidden.len() && !(#[trigger] hidden[i]).archived {
        let i = choose|i: int| 0 <= i < hidden.len() && !(#[trigger] hidden[i]).archived;
        assert(!links[i].archived && links[i].deck != deck);
    }
    if exists|i: int|
        0 <= i < links.len() && !(#[trigger] links[i]).archived && links[i].deck != deck {
        let i = choose|i: int|
            0 <= i < links.len() && !(#[trigger] links[i]).archived && links[i].deck != deck;
        assert(!hidden[i].archived);
    }
}

/// Whether a deck holds a card.
pub open spec fn links_to(links: Seq<DeckLink>, deck: i64) -> bool {
    exists|i: int| 0 <= i < links.len() && (#[trigger] links[i]).deck == deck
}

/// How many cards of a deck are in view.
pub open spec fn cards_in_deck(cards: Seq<IndexedCard>, deck: i64, count: int) -> nat
    decreases count,
{
    if count <= 0 {
        0
    } else {
        let card = cards[count - 1];
        let here = !card.archived && !card.section_archived && !card.note_archived && links_to(
            card.decks@,
            deck,
        );
        cards_in_deck(cards, deck, count - 1) + (if here {
            1nat
        } else {
            0nat
        })
    }
}

/// Whether a deck holds a card.
pub fn is_linked(links: &Vec<DeckLink>, deck: i64) -> (r: bool)
    ensures
        r == links_to(links@, deck),
{
    let mut i: usize = 0;
    while i < links.len()
        invariant
            0 <= i <= links.len(),
            forall|k: int| 0 <= k < i ==> (#[trigger] links@[k]).deck != deck,
        decreases links.len() - i,
    {
        if links[i].deck == deck {
            assert(links@[i as int].deck == deck);
            return true;
        }
        i += 1;
    }
    false
}

/// How many cards of a deck are in view.
pub fn deck_size(cards: &Vec<IndexedCard>, deck: i64) -> (r: usize)
    ensures
        r == cards_in_deck(cards@, deck, cards.len() as int),
{
    let mut r: usize = 0;
    let mut i: usize = 0;
    while i < cards.len()
        invariant
            0 <= i <= cards.len(),
            r <= i,
            r == cards_in_deck(cards@, deck, i as int),
        decreases cards.len() - i,
    {
        let card = &cards[i];
        if !card.archived && !card.section_archived && !card.note_archived && is_linked(
            &card.decks,
            deck,
        ) {
            r += 1;
        }
        i += 1;
    }
    r
}

// ---------------------------------------------------------------------------
// Enrolling a section
// ---------------------------------------------------------------------------

/// What enrolling a section, or taking it out, changes.
#[derive(Debug, Clone, Copy, PartialEq, Eq, Structural)]
pub enum SectionToggle {
    /// The card that reviews the section as a whole is suspended, or taken up again.
    Suspend(bool),
    /// There is no such card: it has to be made.
    Create,
}

/// Enrols a section in reviews, or takes it out. `active` says whether it is enrolled, or is
/// `None` where it never was. The flag that comes back says whether it is now.
pub fn toggle_section_review(active: Option<bool>) -> (r: (SectionToggle, bool))
    ensures
        r == (match active {
            Some(on) => (SectionToggle::Suspend(on), !on),
            None => (SectionToggle::Create, true),
        }),
{
    match active {
        Some(on) => (SectionToggle::Suspend(on), !on),
        None => (SectionToggle::Create, true),
    }
}

// ---------------------------------------------------------------------------
// Devices
// ---------------------------------------------------------------------------

/// What a device is told of a card besides its content.
#[derive(Debug)]
pub struct MobileRow {
    pub deck_ids: Vec<i64>,
    pub due_deck_ids: Vec<i64>,
    pub due_without_deck: bool,
}

/// What a [`MobileRow`] says.
#[verifier::ext_equal]
pub struct MobileView {
    pub deck_ids: Seq<i64>,
    pub due_deck_ids: Seq<i64>,
    pub due_without_deck: bool,
}

impl View for MobileRow {
    type V = MobileView;

    open spec fn view(&self) -> MobileView {
        MobileView {
            deck_ids: self.deck_ids@,
            due_deck_ids: self.due_deck_ids@,
            due_without_deck: self.due_without_deck,
        }
    }
}

/// The cards of a deck that are due.
#[derive(Debug)]
pub struct DueDeck {
    pub deck: i64,
    pub cards: Vec<i64>,
}

/// The decks of a card, from its row.
pub open spec fn decks_of(rows: Seq<CardRow>, card: i64, from: int) -> Seq<i64>
    decreases rows.len() - from,
{
    if from < 0 || from >= rows.len() {
        Seq::empty()
    } else if rows[from].id == card {
        rows[from].decks@
    } else {
        decks_of(rows, card, from + 1)
    }
}

/// The decks in which a card is due, among the first `count`.
pub open spec fn due_decks(due: Seq<DueDeck>, card: i64, count: int) -> Seq<i64>
    decreases count,
{
    if count <= 0 {
        Seq::empty()
    } else {
        let before = due_decks(due, card, count - 1);
        if due[count - 1].cards@.contains(card) {
            before.push(due[count - 1].deck)
        } else {
            before
        }
    }
}

/// What a device is told of a card.
pub open spec fn mobile_of(
    card: i64,
    rows: Seq<CardRow>,
    without_deck: Seq<i64>,
    due: Seq<DueDeck>,
) -> MobileView {
    MobileView {
        deck_ids: decks_of(rows, card, 0),
        due_deck_ids: due_decks(due, card, due.len() as int),
        due_without_deck: without_deck.contains(card),
    }
}

fn has_id(list: &Vec<i64>, id: i64) -> (r: bool)
    ensures
        r == list@.contains(id),
{
    let mut i: usize = 0;
    while i < list.len()
        invariant
            0 <= i <= list.len(),
            forall|k: int| 0 <= k < i ==> (#[trigger] list@[k]) != id,
        decreases list.len() - i,
    {
        if list[i] == id {
            return true;
        }
        i += 1;
    }
    false
}

fn copy_ids(list: &Vec<i64>) -> (r: Vec<i64>)
    ensures
        r@ == list@,
{
    let mut r: Vec<i64> = Vec::new();
    let mut i: usize = 0;
    assert(list@.take(0) == Seq::<i64>::empty());
    while i < list.len()
        invariant
            0 <= i <= list.len(),
            r@ == list@.take(i as int),
        decreases list.len() - i,
    {
        r.push(list[i]);
        assert(list@.take(i + 1) == list@.take(i as int).push(list@[i as int]));
        i += 1;
    }
    assert(list@.take(i as int) == list@);
    r
}

fn find_decks(rows: &Vec<CardRow>, card: i64) -> (r: Vec<i64>)
    ensures
        r@ == decks_of(rows@, card, 0),
{
    let mut i: usize = 0;
    while i < rows.len()
        invariant
            0 <= i <= rows.len(),
            decks_of(rows@, card, 0) == decks_of(rows@, card, i as int),
        decreases rows.len() - i,
    {
        if rows[i].id == card {
            return copy_ids(&rows[i].decks);
        }
        i += 1;
    }
    Vec::new()
}

/// What a device is told of a card: the decks that hold it, those in which it is due, and
/// whether it is due in none.
pub fn mobile_row(
    card: i64,
    rows: &Vec<CardRow>,
    without_deck: &Vec<i64>,
    due: &Vec<DueDeck>,
) -> (r: MobileRow)
    ensures
        r@ == mobile_of(card, rows@, without_deck@, due@),
{
    let mut due_in: Vec<i64> = Vec::new();
    let mut i: usize = 0;
    while i < due.len()
        invariant
            0 <= i <= due.len(),
            due_in@ == due_decks(due@, card, i as int),
        decreases due.len() - i,
    {
        if has_id(&due[i].cards, card) {
            due_in.push(due[i].deck);
        }
        i += 1;
    }
    MobileRow {
        deck_ids: find_decks(rows, card),
        due_deck_ids: due_in,
        due_without_deck: has_id(without_deck, card),
    }
}

// ---------------------------------------------------------------------------
// Broken links
// ---------------------------------------------------------------------------

/// A relation that a note declares.
#[derive(Debug)]
pub struct DeclaredLink {
    pub path: String,
    pub line: usize,
    pub target: String,
}

/// What is said of a link that leads nowhere.
pub open spec fn broken_of(link: DeclaredLink) -> DiagnosticView {
    DiagnosticView {
        path: link.path@,
        line: link.line,
        message: "broken link `"@ + link.target@ + "`"@,
    }
}

/// What is said of the first `count` links.
pub open spec fn broken_links_of(
    links: Seq<DeclaredLink>,
    uids: Seq<Seq<char>>,
    count: int,
) -> Seq<DiagnosticView>
    decreases count,
{
    if count <= 0 {
        Seq::empty()
    } else {
        let before = broken_links_of(links, uids, count - 1);
        if uids.contains(links[count - 1].target@) {
            before
        } else {
            before.push(broken_of(links[count - 1]))
        }
    }
}

/// What is said of the links that lead to no section.
pub fn broken_links(links: &Vec<DeclaredLink>, uids: &Vec<String>) -> (r: Vec<Diagnostic>)
    ensures
        crate::model::diagnostics_view(r@) == broken_links_of(
            links@,
            texts(uids@),
            links.len() as int,
        ),
{
    let mut r: Vec<Diagnostic> = Vec::new();
    let mut i: usize = 0;
    assert(crate::model::diagnostics_view(r@) == Seq::<DiagnosticView>::empty());
    while i < links.len()
        invariant
            0 <= i <= links.len(),
            crate::model::diagnostics_view(r@) == broken_links_of(
                links@,
                texts(uids@),
                i as int,
            ),
        decreases links.len() - i,
    {
        let ghost before = crate::model::diagnostics_view(r@);
        if !holds(uids, links[i].target.as_str()) {
            let one = Diagnostic {
                path: links[i].path.clone(),
                line: links[i].line,
                message: glue3("broken link `", links[i].target.as_str(), "`"),
            };
            let ghost v = one@;
            r.push(one);
            assert(crate::model::diagnostics_view(r@) == before.push(v));
        }
        i += 1;
    }
    r
}

proof fn lemma_active_holds(links: Seq<DeckLink>, deck: i64)
    ensures
        active_of(links).contains(deck) <==> exists|i: int|
            0 <= i < links.len() && (#[trigger] links[i]).deck == deck && !links[i].archived,
    decreases links.len(),
{
    if links.len() > 0 {
        let rest = links.drop_last();
        lemma_active_holds(rest, deck);
        let before = active_of(rest);
        let all = active_of(links);
        if before.contains(deck) {
            let k = choose|k: int| 0 <= k < before.len() && before[k] == deck;
            assert(all[k] == deck);
            let i = choose|i: int|
                0 <= i < rest.len() && (#[trigger] rest[i]).deck == deck && !rest[i].archived;
            assert(links[i] == rest[i]);
        }
        if links.last().deck == deck && !links.last().archived {
            assert(all[before.len() as int] == deck);
            assert(links[links.len() - 1].deck == deck);
        }
        if all.contains(deck) && !before.contains(deck) {
            let k = choose|k: int| 0 <= k < all.len() && all[k] == deck;
            if k < before.len() {
                assert(before[k] == deck);
            }
        }
        if exists|i: int|
            0 <= i < links.len() && (#[trigger] links[i]).deck == deck && !links[i].archived {
            let i = choose|i: int|
                0 <= i < links.len() && (#[trigger] links[i]).deck == deck && !links[i].archived;
            if i < rest.len() {
                assert(rest[i] == links[i]);
            }
        }
    }
}

/// A card is in the decks that hold it and are not archived, and in no other.
pub proof fn a_card_is_in_its_decks_in_view(links: Seq<DeckLink>, deck: i64)
    ensures
        active_of(links).contains(deck) <==> exists|i: int|
            0 <= i < links.len() && (#[trigger] links[i]).deck == deck && !links[i].archived,
{
    lemma_active_holds(links, deck);
}

/// A card is listed exactly when it is neither suspended nor archived with its section or its
/// note, and it is in no deck or in one that is not archived.
pub proof fn what_archiving_and_suspending_hide(card: IndexedCard)
    ensures
        is_listed(card) <==> {
            &&& !card.suspended
            &&& !card.archived
            &&& !card.section_archived
            &&& !card.note_archived
            &&& card.decks@.len() == 0 || exists|i: int|
                0 <= i < card.decks@.len() && !(#[trigger] card.decks@[i]).archived
        },
        is_active(card) <==> !card.suspended && !card.archived && !card.section_archived
            && !card.note_archived,
{
    lemma_active(card.decks@);
}

/// What the queue sees of a card is the card: its id, its section and its schedule, and the
/// decks that hold it, archived ones aside.
pub proof fn the_queue_sees_the_card(
    card: IndexedCard,
    row: QueueRow,
    due_at: i64,
    review_count: u32,
    deck: i64,
)
    requires
        queued_as(card, row, due_at, review_count),
    ensures
        row.id == card.id,
        row.section_uid@ == card.section_uid@,
        row.due_at == due_at,
        row.review_count == review_count,
        in_scope(row, ReviewScope::Deckless) <==> card.decks@.len() == 0,
        in_scope(row, ReviewScope::Deck(deck)) <==> exists|i: int|
            0 <= i < card.decks@.len() && (#[trigger] card.decks@[i]).deck == deck
                && !card.decks@[i].archived,
{
    lemma_active_holds(card.decks@, deck);
}

/// Every card that is listed has its row, in the order of the cards, and no other card has
/// one. A row tells of its card.
pub proof fn every_listed_card_has_a_row(cards: Seq<IndexedCard>, count: int)
    requires
        0 < count <= cards.len(),
    ensures
        listed(cards, 0).len() == 0,
        ({
            let card = cards[count - 1];
            let before = listed(cards, count - 1);
            let after = listed(cards, count);
            &&& !is_listed(card) ==> after == before
            &&& is_listed(card) ==> {
                &&& after.len() == before.len() + 1 && after.drop_last() == before
                &&& after.last().id == card.id
                &&& after.last().section_uid == card.section_uid@
                &&& after.last().card_type == card.card_type@
                &&& after.last().label == card.note_title@ + " / "@ + card.heading@ + " / "@
                    + card.quiz_id@
            }
        }),
{
    if is_listed(cards[count - 1]) {
        assert(listed(cards, count).drop_last() == listed(cards, count - 1));
    }
}

/// A device is told of every deck in which a card is due, and of no other.
pub proof fn a_device_is_told_where_a_card_is_due(
    card: i64,
    rows: Seq<CardRow>,
    without_deck: Seq<i64>,
    due: Seq<DueDeck>,
    deck: i64,
)
    ensures
        mobile_of(card, rows, without_deck, due).due_deck_ids.contains(deck) <==> exists|k: int|
            0 <= k < due.len() && (#[trigger] due[k]).deck == deck && due[k].cards@.contains(card),
        mobile_of(card, rows, without_deck, due).due_without_deck <==> without_deck.contains(card),
{
    lemma_due_decks(due, card, deck, due.len() as int);
}

proof fn lemma_due_decks(due: Seq<DueDeck>, card: i64, deck: i64, count: int)
    requires
        0 <= count <= due.len(),
    ensures
        due_decks(due, card, count).contains(deck) <==> exists|k: int|
            0 <= k < count && (#[trigger] due[k]).deck == deck && due[k].cards@.contains(card),
    decreases count,
{
    if count > 0 {
        lemma_due_decks(due, card, deck, count - 1);
        let before = due_decks(due, card, count - 1);
        let all = due_decks(due, card, count);
        let last = due[count - 1];
        if before.contains(deck) {
            let k = choose|k: int| 0 <= k < before.len() && before[k] == deck;
            assert(all[k] == deck);
        }
        if last.cards@.contains(card) && last.deck == deck {
            assert(all[before.len() as int] == deck);
        }
        if all.contains(deck) && !before.contains(deck) {
            let k = choose|k: int| 0 <= k < all.len() && all[k] == deck;
            if k < before.len() {
                assert(before[k] == deck);
            }
        }
    }
}

/// A link is reported as broken exactly when no section has the uid that it names.
pub proof fn a_link_that_leads_nowhere_is_reported(
    links: Seq<DeclaredLink>,
    uids: Seq<Seq<char>>,
    count: int,
)
    requires
        0 < count <= links.len(),
    ensures
        broken_links_of(links, uids, 0).len() == 0,
        ({
            let link = links[count - 1];
            let before = broken_links_of(links, uids, count - 1);
            let after = broken_links_of(links, uids, count);
            &&& uids.contains(link.target@) ==> after == before
            &&& !uids.contains(link.target@) ==> {
                &&& after.len() == before.len() + 1 && after.drop_last() == before
                &&& after.last().path == link.path@ && after.last().line == link.line
                &&& after.last().message == "broken link `"@ + link.target@ + "`"@
            }
        }),
{
    if !uids.contains(links[count - 1].target@) {
        assert(broken_links_of(links, uids, count).drop_last() == broken_links_of(
            links,
            uids,
            count - 1,
        ));
    }
}

/// A card is named by its note, its section and its quiz.
pub proof fn a_card_is_named_by_where_it_stands(card: IndexedCard)
    ensures
        label_of(card) == card.note_title@ + " / "@ + card.heading@ + " / "@ + card.quiz_id@,
{
}

/// A deck counts the cards that are in it and not archived, nor their section or note.
pub proof fn a_deck_counts_its_cards(cards: Seq<IndexedCard>, deck: i64, count: int)
    requires
        0 <= count < cards.len(),
    ensures
        ({
            let card = cards[count];
            let here = !card.archived && !card.section_archived && !card.note_archived && exists|
                i: int,
            | 0 <= i < card.decks@.len() && (#[trigger] card.decks@[i]).deck == deck;
            cards_in_deck(cards, deck, count + 1) == cards_in_deck(cards, deck, count) + (if here {
                1nat
            } else {
                0nat
            })
        }),
        cards_in_deck(cards, deck, 0) == 0,
{
}

proof fn lemma_counted_of(cards: Seq<IndexedCard>, reviewed: Seq<i64>, count: int, i: int)
    requires
        0 <= i < reviewed.len(),
        0 <= count <= reviewed.len() <= usize::MAX,
    ensures
        counted_of(cards, reviewed, count).contains(i as usize) <==> i < count && counts(
            cards,
            reviewed[i],
        ),
    decreases count,
{
    if count > 0 {
        lemma_counted_of(cards, reviewed, count - 1, i);
        let before = counted_of(cards, reviewed, count - 1);
        let all = counted_of(cards, reviewed, count);
        if counts(cards, reviewed[count - 1]) {
            assert(all[before.len() as int] == (count - 1) as usize);
            if before.contains(i as usize) {
                let k = choose|k: int| 0 <= k < before.len() && before[k] == i as usize;
                assert(all[k] == i as usize);
            }
            if all.contains(i as usize) && i != count - 1 {
                let k = choose|k: int| 0 <= k < all.len() && all[k] == i as usize;
                assert(before[k] == i as usize);
            }
        }
    }
}

/// A review counts where its card is one that counts: neither archived nor in an archived
/// section or note, and without a deck or in one that is not archived.
pub proof fn reviews_of_cards_in_use_count(cards: Seq<IndexedCard>, reviewed: Seq<i64>, i: int)
    requires
        0 <= i < reviewed.len() <= usize::MAX,
    ensures
        counted_of(cards, reviewed, reviewed.len() as int).contains(i as usize) <==> exists|k: int|
            0 <= k < cards.len() && (#[trigger] cards[k]).id == reviewed[i] && !cards[k].archived
                && !cards[k].section_archived && !cards[k].note_archived && (
            cards[k].decks@.len() == 0 || active_of(cards[k].decks@).len() > 0),
{
    lemma_counted_of(cards, reviewed, reviewed.len() as int, i);
}

} // verus!
