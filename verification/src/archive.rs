//! What is archived: notes, sections, quizzes and decks, each listed once.

use vstd::prelude::*;
use vstd::string::*;

use crate::listing::{card_label, is_linked, label_of, links_to, IndexedCard};
use crate::model::ArchivedItem;
use crate::text::text_eq;

verus! {

/// A note of the index.
#[derive(Debug)]
pub struct IndexedNote {
    /// The file of the note.
    pub file: i64,
    pub note_id: String,
    pub title: String,
    pub path: String,
    pub archived: bool,
}

/// A section of the index.
#[derive(Debug)]
pub struct IndexedSection {
    /// The file of the note that holds the section.
    pub note: i64,
    pub uid: String,
    pub note_title: String,
    pub heading: String,
    pub path: String,
    pub start_line: usize,
    pub archived: bool,
    pub note_archived: bool,
}

/// A deck of the index.
#[derive(Debug)]
pub struct IndexedDeck {
    pub id: i64,
    pub name: String,
    pub archived: bool,
}

/// What an [`ArchivedItem`] says.
#[verifier::ext_equal]
pub enum ArchivedView {
    Note {
        note_id: Seq<char>,
        title: Seq<char>,
        path: Seq<char>,
        section_count: int,
        quiz_count: int,
    },
    Section {
        uid: Seq<char>,
        note_title: Seq<char>,
        heading: Seq<char>,
        path: Seq<char>,
        start_line: int,
        quiz_count: int,
    },
    Quiz { section_uid: Seq<char>, quiz_id: Seq<char>, label: Seq<char>, card_count: int },
    Deck { id: i64, name: Seq<char>, quiz_count: int },
}

impl View for ArchivedItem {
    type V = ArchivedView;

    open spec fn view(&self) -> ArchivedView {
        match *self {
            ArchivedItem::Note { note_id, title, path, section_count, quiz_count } =>
                ArchivedView::Note {
                note_id: note_id@,
                title: title@,
                path: path@,
                section_count: section_count as int,
                quiz_count: quiz_count as int,
            },
            ArchivedItem::Section { uid, note_title, heading, path, start_line, quiz_count } =>
                ArchivedView::Section {
                uid: uid@,
                note_title: note_title@,
                heading: heading@,
                path: path@,
                start_line: start_line as int,
                quiz_count: quiz_count as int,
            },
            ArchivedItem::Quiz { section_uid, quiz_id, label, card_count } => ArchivedView::Quiz {
                section_uid: section_uid@,
                quiz_id: quiz_id@,
                label: label@,
                card_count: card_count as int,
            },
            ArchivedItem::Deck { id, name, quiz_count } => ArchivedView::Deck {
                id,
                name: name@,
                quiz_count: quiz_count as int,
            },
        }
    }
}

pub open spec fn archived_view(v: Seq<ArchivedItem>) -> Seq<ArchivedView> {
    Seq::new(v.len(), |i: int| v[i]@)
}

// ---------------------------------------------------------------------------
// Counting quizzes
// ---------------------------------------------------------------------------

/// The quizzes that are counted.
#[derive(Debug)]
pub enum Holder<T> {
    /// Those of a note.
    Note(i64),
    /// Those of a section.
    Section(T),
    /// Those with a card in a deck.
    Deck(i64),
    /// Those that were archived, in a section and a note that were not.
    Archived,
}

impl<'a> View for Holder<&'a str> {
    type V = Holder<Seq<char>>;

    open spec fn view(&self) -> Holder<Seq<char>> {
        match *self {
            Holder::Note(file) => Holder::Note(file),
            Holder::Section(uid) => Holder::Section(uid@),
            Holder::Deck(deck) => Holder::Deck(deck),
            Holder::Archived => Holder::Archived,
        }
    }
}

/// Whether a card belongs to a quiz; one that reviews a section as a whole does not.
pub open spec fn of_a_quiz(card: IndexedCard) -> bool {
    card.card_type@ != "section-review"@
}

/// Whether a card belongs to a quiz that is counted.
pub open spec fn held(card: IndexedCard, holder: Holder<Seq<char>>) -> bool {
    of_a_quiz(card) && match holder {
        Holder::Note(file) => card.note == file,
        Holder::Section(uid) => card.section_uid@ == uid,
        Holder::Deck(deck) => links_to(card.decks@, deck),
        Holder::Archived => card.archived && !card.section_archived && !card.note_archived,
    }
}

pub open spec fn same_quiz(a: IndexedCard, b: IndexedCard) -> bool {
    a.section_uid@ == b.section_uid@ && a.quiz_id@ == b.quiz_id@
}

/// Whether a card is the first of its quiz among those that are counted.
pub open spec fn leads(cards: Seq<IndexedCard>, holder: Holder<Seq<char>>, i: int) -> bool {
    held(cards[i], holder) && forall|j: int|
        0 <= j < i && held(#[trigger] cards[j], holder) ==> !same_quiz(cards[j], cards[i])
}

/// How many quizzes there are among the first `count` cards.
pub open spec fn quizzes_among(cards: Seq<IndexedCard>, holder: Holder<Seq<char>>, count: int) -> nat
    decreases count,
{
    if count <= 0 {
        0
    } else {
        quizzes_among(cards, holder, count - 1) + (if leads(cards, holder, count - 1) {
            1nat
        } else {
            0nat
        })
    }
}

/// How many archived cards the quiz of a card has, among the first `count`.
pub open spec fn cards_of_quiz(cards: Seq<IndexedCard>, card: IndexedCard, count: int) -> nat
    decreases count,
{
    if count <= 0 {
        0
    } else {
        let here = held(cards[count - 1], Holder::Archived) && same_quiz(cards[count - 1], card);
        cards_of_quiz(cards, card, count - 1) + (if here {
            1nat
        } else {
            0nat
        })
    }
}

fn is_held(card: &IndexedCard, holder: &Holder<&str>) -> (r: bool)
    ensures
        r == held(*card, holder@),
{
    if text_eq(card.card_type.as_str(), "section-review") {
        return false;
    }
    match holder {
        Holder::Note(file) => card.note == *file,
        Holder::Section(uid) => text_eq(card.section_uid.as_str(), uid),
        Holder::Deck(deck) => is_linked(&card.decks, *deck),
        Holder::Archived => card.archived && !card.section_archived && !card.note_archived,
    }
}

fn is_same_quiz(a: &IndexedCard, b: &IndexedCard) -> (r: bool)
    ensures
        r == same_quiz(*a, *b),
{
    text_eq(a.section_uid.as_str(), b.section_uid.as_str()) && text_eq(
        a.quiz_id.as_str(),
        b.quiz_id.as_str(),
    )
}

fn is_first(cards: &Vec<IndexedCard>, holder: &Holder<&str>, at: usize) -> (r: bool)
    requires
        at < cards.len(),
    ensures
        r == leads(cards@, holder@, at as int),
{
    if !is_held(&cards[at], holder) {
        return false;
    }
    let mut j: usize = 0;
    while j < at
        invariant
            0 <= j <= at < cards.len(),
            forall|k: int|
                0 <= k < j && held(#[trigger] cards@[k], holder@) ==> !same_quiz(
                    cards@[k],
                    cards@[at as int],
                ),
        decreases at - j,
    {
        if is_held(&cards[j], holder) && is_same_quiz(&cards[j], &cards[at]) {
            assert(held(cards@[j as int], holder@));
            return false;
        }
        j += 1;
    }
    true
}

/// How many quizzes there are.
pub fn count_quizzes(cards: &Vec<IndexedCard>, holder: &Holder<&str>) -> (r: usize)
    ensures
        r == quizzes_among(cards@, holder@, cards.len() as int),
{
    let mut r: usize = 0;
    let mut i: usize = 0;
    while i < cards.len()
        invariant
            0 <= i <= cards.len(),
            r <= i,
            r == quizzes_among(cards@, holder@, i as int),
        decreases cards.len() - i,
    {
        if is_first(cards, holder, i) {
            r += 1;
        }
        i += 1;
    }
    r
}

fn count_cards(cards: &Vec<IndexedCard>, at: usize) -> (r: usize)
    requires
        at < cards.len(),
    ensures
        r == cards_of_quiz(cards@, cards@[at as int], cards.len() as int),
{
    let mut r: usize = 0;
    let mut i: usize = 0;
    while i < cards.len()
        invariant
            0 <= i <= cards.len(),
            at < cards.len(),
            r <= i,
            r == cards_of_quiz(cards@, cards@[at as int], i as int),
        decreases cards.len() - i,
    {
        if is_held(&cards[i], &Holder::Archived) && is_same_quiz(&cards[i], &cards[at]) {
            r += 1;
        }
        i += 1;
    }
    r
}

/// How many of the first `count` sections a note has.
pub open spec fn sections_among(sections: Seq<IndexedSection>, file: i64, count: int) -> nat
    decreases count,
{
    if count <= 0 {
        0
    } else {
        sections_among(sections, file, count - 1) + (if sections[count - 1].note == file {
            1nat
        } else {
            0nat
        })
    }
}

fn count_sections(sections: &Vec<IndexedSection>, file: i64) -> (r: usize)
    ensures
        r == sections_among(sections@, file, sections.len() as int),
{
    let mut r: usize = 0;
    let mut i: usize = 0;
    while i < sections.len()
        invariant
            0 <= i <= sections.len(),
            r <= i,
            r == sections_among(sections@, file, i as int),
        decreases sections.len() - i,
    {
        if sections[i].note == file {
            r += 1;
        }
        i += 1;
    }
    r
}

// ---------------------------------------------------------------------------
// The list
// ---------------------------------------------------------------------------

/// The archived notes among the first `count`.
pub open spec fn archived_notes(
    notes: Seq<IndexedNote>,
    sections: Seq<IndexedSection>,
    cards: Seq<IndexedCard>,
    count: int,
) -> Seq<ArchivedView>
    decreases count,
{
    if count <= 0 {
        Seq::empty()
    } else {
        let before = archived_notes(notes, sections, cards, count - 1);
        let note = notes[count - 1];
        if note.archived {
            before.push(
                ArchivedView::Note {
                    note_id: note.note_id@,
                    title: note.title@,
                    path: note.path@,
                    section_count: sections_among(
                        sections,
                        note.file,
                        sections.len() as int,
                    ) as int,
                    quiz_count: quizzes_among(
                        cards,
                        Holder::Note(note.file),
                        cards.len() as int,
                    ) as int,
                },
            )
        } else {
            before
        }
    }
}

/// The archived sections among the first `count`. Those of an archived note come with it.
pub open spec fn archived_sections(
    sections: Seq<IndexedSection>,
    cards: Seq<IndexedCard>,
    count: int,
) -> Seq<ArchivedView>
    decreases count,
{
    if count <= 0 {
        Seq::empty()
    } else {
        let before = archived_sections(sections, cards, count - 1);
        let section = sections[count - 1];
        if section.archived && !section.note_archived {
            before.push(
                ArchivedView::Section {
                    uid: section.uid@,
                    note_title: section.note_title@,
                    heading: section.heading@,
                    path: section.path@,
                    start_line: section.start_line as int,
                    quiz_count: quizzes_among(
                        cards,
                        Holder::Section(section.uid@),
                        cards.len() as int,
                    ) as int,
                },
            )
        } else {
            before
        }
    }
}

/// The archived quizzes among the first `count` cards, each at its first card.
pub open spec fn archived_quizzes(cards: Seq<IndexedCard>, count: int) -> Seq<ArchivedView>
    decreases count,
{
    if count <= 0 {
        Seq::empty()
    } else {
        let before = archived_quizzes(cards, count - 1);
        let card = cards[count - 1];
        if leads(cards, Holder::Archived, count - 1) {
            before.push(
                ArchivedView::Quiz {
                    section_uid: card.section_uid@,
                    quiz_id: card.quiz_id@,
                    label: label_of(card),
                    card_count: cards_of_quiz(cards, card, cards.len() as int) as int,
                },
            )
        } else {
            before
        }
    }
}

/// The archived decks among the first `count`.
pub open spec fn archived_decks(
    decks: Seq<IndexedDeck>,
    cards: Seq<IndexedCard>,
    count: int,
) -> Seq<ArchivedView>
    decreases count,
{
    if count <= 0 {
        Seq::empty()
    } else {
        let before = archived_decks(decks, cards, count - 1);
        let deck = decks[count - 1];
        if deck.archived {
            before.push(
                ArchivedView::Deck {
                    id: deck.id,
                    name: deck.name@,
                    quiz_count: quizzes_among(
                        cards,
                        Holder::Deck(deck.id),
                        cards.len() as int,
                    ) as int,
                },
            )
        } else {
            before
        }
    }
}

/// All that is archived: notes, then sections, quizzes and decks.
pub open spec fn all_archived(
    notes: Seq<IndexedNote>,
    sections: Seq<IndexedSection>,
    cards: Seq<IndexedCard>,
    decks: Seq<IndexedDeck>,
) -> Seq<ArchivedView> {
    archived_notes(notes, sections, cards, notes.len() as int) + archived_sections(
        sections,
        cards,
        sections.len() as int,
    ) + archived_quizzes(cards, cards.len() as int) + archived_decks(
        decks,
        cards,
        decks.len() as int,
    )
}

fn put(list: &mut Vec<ArchivedItem>, item: ArchivedItem)
    ensures
        archived_view(final(list)@) == archived_view(old(list)@).push(item@),
{
    let ghost before = archived_view(list@);
    list.push(item);
    assert(archived_view(list@) == before.push(item@));
}

/// All that is archived: notes, then sections, quizzes and decks, each kind in the order of
/// its rows. What belongs to an archived note or section is not listed again.
pub fn archived_items(
    notes: &Vec<IndexedNote>,
    sections: &Vec<IndexedSection>,
    cards: &Vec<IndexedCard>,
    decks: &Vec<IndexedDeck>,
) -> (r: Vec<ArchivedItem>)
    ensures
        archived_view(r@) == all_archived(notes@, sections@, cards@, decks@),
{
    let mut r: Vec<ArchivedItem> = Vec::new();
    let ghost none = Seq::<ArchivedView>::empty();
    let mut i: usize = 0;
    assert(archived_view(r@) == none);
    while i < notes.len()
        invariant
            0 <= i <= notes.len(),
            archived_view(r@) == archived_notes(notes@, sections@, cards@, i as int),
        decreases notes.len() - i,
    {
        let note = &notes[i];
        if note.archived {
            let item = ArchivedItem::Note {
                note_id: note.note_id.clone(),
                title: note.title.clone(),
                path: note.path.clone(),
                section_count: count_sections(sections, note.file),
                quiz_count: count_quizzes(cards, &Holder::Note(note.file)),
            };
            put(&mut r, item);
        }
        i += 1;
    }
    let ghost first = archived_view(r@);
    assert(first == first + none);
    i = 0;
    while i < sections.len()
        invariant
            0 <= i <= sections.len(),
            archived_view(r@) == first + archived_sections(sections@, cards@, i as int),
        decreases sections.len() - i,
    {
        let section = &sections[i];
        if section.archived && !section.note_archived {
            let item = ArchivedItem::Section {
                uid: section.uid.clone(),
                note_title: section.note_title.clone(),
                heading: section.heading.clone(),
                path: section.path.clone(),
                start_line: section.start_line,
                quiz_count: count_quizzes(cards, &Holder::Section(section.uid.as_str())),
            };
            put(&mut r, item);
            assert(archived_view(r@) == first + archived_sections(sections@, cards@, i + 1));
        }
        i += 1;
    }
    let ghost second = archived_view(r@);
    assert(second == second + none);
    i = 0;
    while i < cards.len()
        invariant
            0 <= i <= cards.len(),
            archived_view(r@) == second + archived_quizzes(cards@, i as int),
        decreases cards.len() - i,
    {
        let card = &cards[i];
        if is_first(cards, &Holder::Archived, i) {
            let item = ArchivedItem::Quiz {
                section_uid: card.section_uid.clone(),
                quiz_id: card.quiz_id.clone(),
                label: card_label(card),
                card_count: count_cards(cards, i),
            };
            put(&mut r, item);
            assert(archived_view(r@) == second + archived_quizzes(cards@, i + 1));
        }
        i += 1;
    }
    let ghost third = archived_view(r@);
    assert(third == third + none);
    i = 0;
    while i < decks.len()
        invariant
            0 <= i <= decks.len(),
            archived_view(r@) == third + archived_decks(decks@, cards@, i as int),
        decreases decks.len() - i,
    {
        let deck = &decks[i];
        if deck.archived {
            let item = ArchivedItem::Deck {
                id: deck.id,
                name: deck.name.clone(),
                quiz_count: count_quizzes(cards, &Holder::Deck(deck.id)),
            };
            put(&mut r, item);
            assert(archived_view(r@) == third + archived_decks(decks@, cards@, i + 1));
        }
        i += 1;
    }
    r
}

// ---------------------------------------------------------------------------
// Laws
// ---------------------------------------------------------------------------

/// Every card of an archived quiz has a card of the same quiz, not after it, that leads.
proof fn lemma_a_quiz_has_a_leader(cards: Seq<IndexedCard>, i: int) -> (at: int)
    requires
        0 <= i < cards.len(),
        held(cards[i], Holder::Archived),
    ensures
        0 <= at <= i,
        leads(cards, Holder::Archived, at),
        same_quiz(cards[at], cards[i]),
    decreases i,
{
    if leads(cards, Holder::Archived, i) {
        i
    } else {
        let j = choose|j: int|
            0 <= j < i && held(#[trigger] cards[j], Holder::Archived) && same_quiz(
                cards[j],
                cards[i],
            );
        lemma_a_quiz_has_a_leader(cards, j)
    }
}

/// What an entry says of a quiz.
pub open spec fn names_quiz(item: ArchivedView, card: IndexedCard) -> bool {
    item matches ArchivedView::Quiz { section_uid, quiz_id, .. } && section_uid
        == card.section_uid@ && quiz_id == card.quiz_id@
}

proof fn lemma_listed(cards: Seq<IndexedCard>, at: int, count: int) -> (k: int)
    requires
        0 <= at < count <= cards.len(),
        leads(cards, Holder::Archived, at),
    ensures
        0 <= k < archived_quizzes(cards, count).len(),
        names_quiz(archived_quizzes(cards, count)[k], cards[at]),
    decreases count,
{
    if at == count - 1 {
        archived_quizzes(cards, count - 1).len() as int
    } else {
        lemma_listed(cards, at, count - 1)
    }
}

/// Where an entry of the list of quizzes comes from.
proof fn lemma_origin(cards: Seq<IndexedCard>, count: int, k: int) -> (at: int)
    requires
        0 <= count <= cards.len(),
        0 <= k < archived_quizzes(cards, count).len(),
    ensures
        0 <= at < count,
        leads(cards, Holder::Archived, at),
        names_quiz(archived_quizzes(cards, count)[k], cards[at]),
    decreases count,
{
    if count == 0 {
        0
    } else {
        let before = archived_quizzes(cards, count - 1);
        if k < before.len() {
            lemma_origin(cards, count - 1, k)
        } else {
            count - 1
        }
    }
}

proof fn lemma_distinct(cards: Seq<IndexedCard>, count: int, k: int, l: int)
    requires
        0 <= count <= cards.len(),
        0 <= k < l < archived_quizzes(cards, count).len(),
    ensures
        forall|card: IndexedCard|
            !(#[trigger] names_quiz(archived_quizzes(cards, count)[k], card) && names_quiz(
                archived_quizzes(cards, count)[l],
                card,
            )),
    decreases count,
{
    if count > 0 {
        let before = archived_quizzes(cards, count - 1);
        if l < before.len() {
            lemma_distinct(cards, count - 1, k, l);
        } else {
            let at = lemma_origin(cards, count - 1, k);
            assert(held(cards[at], Holder::Archived));
            assert(!same_quiz(cards[at], cards[count - 1]));
        }
    }
}

/// Every archived card, but for those of an archived section or note, belongs to exactly one
/// entry of the list.
pub proof fn an_archived_quiz_is_listed_once(cards: Seq<IndexedCard>, i: int)
    requires
        0 <= i < cards.len(),
        held(cards[i], Holder::Archived),
    ensures
        exists|k: int|
            0 <= k < archived_quizzes(cards, cards.len() as int).len() && #[trigger] names_quiz(
                archived_quizzes(cards, cards.len() as int)[k],
                cards[i],
            ),
        forall|k: int, l: int|
            0 <= k < l < archived_quizzes(cards, cards.len() as int).len() ==> !(
            #[trigger] names_quiz(archived_quizzes(cards, cards.len() as int)[k], cards[i])
                && #[trigger] names_quiz(
                archived_quizzes(cards, cards.len() as int)[l],
                cards[i],
            )),
{
    let all = archived_quizzes(cards, cards.len() as int);
    let at = lemma_a_quiz_has_a_leader(cards, i);
    let k = lemma_listed(cards, at, cards.len() as int);
    assert(names_quiz(all[k], cards[i]));
    assert forall|k: int, l: int|
        0 <= k < l < all.len() implies !(#[trigger] names_quiz(all[k], cards[i])
        && #[trigger] names_quiz(all[l], cards[i])) by {
        lemma_distinct(cards, cards.len() as int, k, l);
    }
}

/// The quizzes of the cards that are counted, each by its section and its id.
pub open spec fn quiz_names(
    cards: Seq<IndexedCard>,
    holder: Holder<Seq<char>>,
    count: int,
) -> Set<(Seq<char>, Seq<char>)>
    decreases count,
{
    if count <= 0 {
        Set::empty()
    } else if held(cards[count - 1], holder) {
        quiz_names(cards, holder, count - 1).insert(
            (cards[count - 1].section_uid@, cards[count - 1].quiz_id@),
        )
    } else {
        quiz_names(cards, holder, count - 1)
    }
}

/// A quiz counts once, however many cards it has, and it counts where one of its cards does:
/// in its note, in its section, in a deck that has one of them, and as archived where it is
/// not hidden with its section or note. A review of a whole section is no quiz.
pub proof fn a_quiz_counts_once(
    cards: Seq<IndexedCard>,
    holder: Holder<Seq<char>>,
    count: int,
    name: (Seq<char>, Seq<char>),
)
    requires
        0 <= count <= cards.len(),
    ensures
        quiz_names(cards, holder, count).finite(),
        quizzes_among(cards, holder, count) == quiz_names(cards, holder, count).len(),
        quiz_names(cards, holder, count).contains(name) <==> exists|i: int|
            0 <= i < count && (#[trigger] cards[i]).card_type@ != "section-review"@ && (
            cards[i].section_uid@,
            cards[i].quiz_id@,
        ) == name && match holder {
                Holder::Note(file) => cards[i].note == file,
                Holder::Section(uid) => cards[i].section_uid@ == uid,
                Holder::Deck(deck) => exists|j: int|
                    0 <= j < cards[i].decks@.len() && (#[trigger] cards[i].decks@[j]).deck == deck,
                Holder::Archived => cards[i].archived && !cards[i].section_archived
                    && !cards[i].note_archived,
            },
    decreases count,
{
    if count > 0 {
        let last = cards[count - 1];
        let own = (last.section_uid@, last.quiz_id@);
        a_quiz_counts_once(cards, holder, count - 1, name);
        if held(last, holder) {
            lemma_quiz_names(cards, holder, count - 1, own);
            if !leads(cards, holder, count - 1) {
                let j = choose|j: int|
                    0 <= j < count - 1 && held(#[trigger] cards[j], holder) && same_quiz(
                        cards[j],
                        last,
                    );
                assert(quiz_names(cards, holder, count - 1).contains(own));
                assert(quiz_names(cards, holder, count - 1).insert(own) == quiz_names(
                    cards,
                    holder,
                    count - 1,
                ));
            } else {
                assert(!quiz_names(cards, holder, count - 1).contains(own));
            }
        }
    }
    lemma_quiz_names(cards, holder, count, name);
}

proof fn lemma_quiz_names(
    cards: Seq<IndexedCard>,
    holder: Holder<Seq<char>>,
    count: int,
    name: (Seq<char>, Seq<char>),
)
    requires
        0 <= count <= cards.len(),
    ensures
        quiz_names(cards, holder, count).contains(name) <==> exists|i: int|
            0 <= i < count && held(#[trigger] cards[i], holder) && (
            cards[i].section_uid@,
            cards[i].quiz_id@,
        ) == name,
    decreases count,
{
    if count > 0 {
        lemma_quiz_names(cards, holder, count - 1, name);
        if quiz_names(cards, holder, count).contains(name) {
            if quiz_names(cards, holder, count - 1).contains(name) {
                let i = choose|i: int|
                    0 <= i < count - 1 && held(#[trigger] cards[i], holder) && (
                    cards[i].section_uid@,
                    cards[i].quiz_id@,
                ) == name;
                assert(held(cards[i], holder));
            } else {
                assert(held(cards[count - 1], holder));
            }
        }
    }
}

/// Whether an entry is that of a note.
pub open spec fn lists_note(item: ArchivedView, note: IndexedNote) -> bool {
    item matches ArchivedView::Note { note_id, title, path, .. } && note_id == note.note_id@
        && title == note.title@ && path == note.path@
}

/// Whether an entry is that of a section.
pub open spec fn lists_section(item: ArchivedView, section: IndexedSection) -> bool {
    item matches ArchivedView::Section { uid, note_title, heading, path, start_line, .. } && uid
        == section.uid@ && note_title == section.note_title@ && heading == section.heading@ && path
        == section.path@ && start_line == section.start_line
}

/// Whether an entry is that of a deck.
pub open spec fn lists_deck(item: ArchivedView, deck: IndexedDeck) -> bool {
    item matches ArchivedView::Deck { id, name, .. } && id == deck.id && name == deck.name@
}

proof fn lemma_note_listed(
    notes: Seq<IndexedNote>,
    sections: Seq<IndexedSection>,
    cards: Seq<IndexedCard>,
    count: int,
    i: int,
) -> (k: int)
    requires
        0 <= i < count <= notes.len(),
        notes[i].archived,
    ensures
        0 <= k < archived_notes(notes, sections, cards, count).len(),
        lists_note(archived_notes(notes, sections, cards, count)[k], notes[i]),
    decreases count,
{
    if i == count - 1 {
        archived_notes(notes, sections, cards, count - 1).len() as int
    } else {
        lemma_note_listed(notes, sections, cards, count - 1, i)
    }
}

proof fn lemma_section_listed(
    sections: Seq<IndexedSection>,
    cards: Seq<IndexedCard>,
    count: int,
    i: int,
) -> (k: int)
    requires
        0 <= i < count <= sections.len(),
        sections[i].archived && !sections[i].note_archived,
    ensures
        0 <= k < archived_sections(sections, cards, count).len(),
        lists_section(archived_sections(sections, cards, count)[k], sections[i]),
    decreases count,
{
    if i == count - 1 {
        archived_sections(sections, cards, count - 1).len() as int
    } else {
        lemma_section_listed(sections, cards, count - 1, i)
    }
}

proof fn lemma_deck_listed(
    decks: Seq<IndexedDeck>,
    cards: Seq<IndexedCard>,
    count: int,
    i: int,
) -> (k: int)
    requires
        0 <= i < count <= decks.len(),
        decks[i].archived,
    ensures
        0 <= k < archived_decks(decks, cards, count).len(),
        lists_deck(archived_decks(decks, cards, count)[k], decks[i]),
    decreases count,
{
    if i == count - 1 {
        archived_decks(decks, cards, count - 1).len() as int
    } else {
        lemma_deck_listed(decks, cards, count - 1, i)
    }
}

proof fn lemma_note_origin(
    notes: Seq<IndexedNote>,
    sections: Seq<IndexedSection>,
    cards: Seq<IndexedCard>,
    count: int,
    k: int,
) -> (i: int)
    requires
        0 <= count <= notes.len(),
        0 <= k < archived_notes(notes, sections, cards, count).len(),
    ensures
        0 <= i < count,
        notes[i].archived,
        lists_note(archived_notes(notes, sections, cards, count)[k], notes[i]),
    decreases count,
{
    if count == 0 {
        0
    } else if k < archived_notes(notes, sections, cards, count - 1).len() {
        lemma_note_origin(notes, sections, cards, count - 1, k)
    } else {
        count - 1
    }
}

proof fn lemma_section_origin(
    sections: Seq<IndexedSection>,
    cards: Seq<IndexedCard>,
    count: int,
    k: int,
) -> (i: int)
    requires
        0 <= count <= sections.len(),
        0 <= k < archived_sections(sections, cards, count).len(),
    ensures
        0 <= i < count,
        sections[i].archived && !sections[i].note_archived,
        lists_section(archived_sections(sections, cards, count)[k], sections[i]),
    decreases count,
{
    if count == 0 {
        0
    } else if k < archived_sections(sections, cards, count - 1).len() {
        lemma_section_origin(sections, cards, count - 1, k)
    } else {
        count - 1
    }
}

proof fn lemma_deck_origin(
    decks: Seq<IndexedDeck>,
    cards: Seq<IndexedCard>,
    count: int,
    k: int,
) -> (i: int)
    requires
        0 <= count <= decks.len(),
        0 <= k < archived_decks(decks, cards, count).len(),
    ensures
        0 <= i < count,
        decks[i].archived,
        lists_deck(archived_decks(decks, cards, count)[k], decks[i]),
    decreases count,
{
    if count == 0 {
        0
    } else if k < archived_decks(decks, cards, count - 1).len() {
        lemma_deck_origin(decks, cards, count - 1, k)
    } else {
        count - 1
    }
}

/// Everything that was archived has an entry: each note, each section unless its note was
/// archived too, and each deck.
pub proof fn what_is_archived_is_listed(
    notes: Seq<IndexedNote>,
    sections: Seq<IndexedSection>,
    cards: Seq<IndexedCard>,
    decks: Seq<IndexedDeck>,
)
    ensures
        forall|i: int|
            0 <= i < notes.len() && (#[trigger] notes[i]).archived ==> exists|k: int|
                0 <= k < all_archived(notes, sections, cards, decks).len() && lists_note(
                    #[trigger] all_archived(notes, sections, cards, decks)[k],
                    notes[i],
                ),
        forall|i: int|
            0 <= i < sections.len() && (#[trigger] sections[i]).archived
                && !sections[i].note_archived ==> exists|k: int|
                0 <= k < all_archived(notes, sections, cards, decks).len() && lists_section(
                    #[trigger] all_archived(notes, sections, cards, decks)[k],
                    sections[i],
                ),
        forall|i: int|
            0 <= i < decks.len() && (#[trigger] decks[i]).archived ==> exists|k: int|
                0 <= k < all_archived(notes, sections, cards, decks).len() && lists_deck(
                    #[trigger] all_archived(notes, sections, cards, decks)[k],
                    decks[i],
                ),
{
    let all = all_archived(notes, sections, cards, decks);
    let a = archived_notes(notes, sections, cards, notes.len() as int);
    let b = archived_sections(sections, cards, sections.len() as int);
    let c = archived_quizzes(cards, cards.len() as int);
    assert forall|i: int| 0 <= i < notes.len() && (#[trigger] notes[i]).archived implies exists|
        k: int,
    | 0 <= k < all.len() && lists_note(#[trigger] all[k], notes[i]) by {
        let k = lemma_note_listed(notes, sections, cards, notes.len() as int, i);
        assert(all[k] == a[k]);
    }
    assert forall|i: int|
        0 <= i < sections.len() && (#[trigger] sections[i]).archived
            && !sections[i].note_archived implies exists|k: int|
        0 <= k < all.len() && lists_section(#[trigger] all[k], sections[i]) by {
        let k = lemma_section_listed(sections, cards, sections.len() as int, i);
        assert(all[a.len() + k] == b[k]);
    }
    assert forall|i: int| 0 <= i < decks.len() && (#[trigger] decks[i]).archived implies exists|
        k: int,
    | 0 <= k < all.len() && lists_deck(#[trigger] all[k], decks[i]) by {
        let k = lemma_deck_listed(decks, cards, decks.len() as int, i);
        assert(all[a.len() + b.len() + c.len() + k] == archived_decks(
            decks,
            cards,
            decks.len() as int,
        )[k]);
    }
}

/// Nothing else has an entry: behind each stands a note, section or deck that was archived,
/// or a card of a quiz that was, and none of them is hidden with what holds it.
pub proof fn what_is_listed_is_archived(
    notes: Seq<IndexedNote>,
    sections: Seq<IndexedSection>,
    cards: Seq<IndexedCard>,
    decks: Seq<IndexedDeck>,
    k: int,
)
    requires
        0 <= k < all_archived(notes, sections, cards, decks).len(),
    ensures
        match all_archived(notes, sections, cards, decks)[k] {
            ArchivedView::Note { .. } => exists|i: int|
                0 <= i < notes.len() && notes[i].archived && #[trigger] lists_note(
                    all_archived(notes, sections, cards, decks)[k],
                    notes[i],
                ),
            ArchivedView::Section { .. } => exists|i: int|
                0 <= i < sections.len() && sections[i].archived && !sections[i].note_archived
                    && #[trigger] lists_section(
                    all_archived(notes, sections, cards, decks)[k],
                    sections[i],
                ),
            ArchivedView::Quiz { .. } => exists|i: int|
                0 <= i < cards.len() && cards[i].archived && !cards[i].section_archived
                    && !cards[i].note_archived && cards[i].card_type@ != "section-review"@
                    && #[trigger] names_quiz(
                    all_archived(notes, sections, cards, decks)[k],
                    cards[i],
                ),
            ArchivedView::Deck { .. } => exists|i: int|
                0 <= i < decks.len() && decks[i].archived && #[trigger] lists_deck(
                    all_archived(notes, sections, cards, decks)[k],
                    decks[i],
                ),
        },
{
    let all = all_archived(notes, sections, cards, decks);
    let a = archived_notes(notes, sections, cards, notes.len() as int);
    let b = archived_sections(sections, cards, sections.len() as int);
    let c = archived_quizzes(cards, cards.len() as int);
    let d = archived_decks(decks, cards, decks.len() as int);
    if k < a.len() {
        let i = lemma_note_origin(notes, sections, cards, notes.len() as int, k);
        assert(all[k] == a[k]);
        assert(lists_note(all[k], notes[i]));
    } else if k < a.len() + b.len() {
        let i = lemma_section_origin(sections, cards, sections.len() as int, k - a.len());
        assert(all[k] == b[k - a.len()]);
        assert(lists_section(all[k], sections[i]));
    } else if k < a.len() + b.len() + c.len() {
        let i = lemma_origin(cards, cards.len() as int, k - a.len() - b.len());
        assert(all[k] == c[k - a.len() - b.len()]);
        assert(names_quiz(all[k], cards[i]));
    } else {
        let i = lemma_deck_origin(
            decks,
            cards,
            decks.len() as int,
            k - a.len() - b.len() - c.len(),
        );
        assert(all[k] == d[k - a.len() - b.len() - c.len()]);
        assert(lists_deck(all[k], decks[i]));
    }
}

} // verus!
