//! What the pages list.

use vstd::prelude::*;
use vstd::string::*;

use crate::app::keymap::Media;

use crate::model::{
    ActionRow, ArchivedItem, CardRow, DeckRow, NoteRow, RelationRow, ReviewSectionRow, SectionRow,
};
use crate::outside::regex_matches;
use crate::parser::{first_group, first_group_of, found_or_none, matches_in};
use crate::player::{first_video_of, first_video_url, url_pattern};
use crate::text::{contains_text, opt_view, text_contains, text_eq, trim_text, trimmed};

verus! {

/// What the application knows of the vault.
#[derive(Debug)]
pub struct Data {
    pub sections: Vec<SectionRow>,
    pub notes: Vec<NoteRow>,
    pub review_sections: Vec<ReviewSectionRow>,
    pub decks: Vec<DeckRow>,
    pub cards: Vec<CardRow>,
    pub archived: Vec<ArchivedItem>,
    pub orphan_images: Vec<String>,
    /// The relations of the section that the Relations page shows.
    pub relations: Vec<RelationRow>,
}

#[derive(Debug, Clone, Copy, PartialEq, Eq, Structural)]
pub enum LibraryItem {
    Note(usize),
    Section(usize),
}

#[derive(Debug, Clone, Copy, PartialEq, Eq, Structural)]
pub enum ReviewItem {
    Section(usize),
    Deck(usize),
    Card(usize),
}

#[derive(Debug, Clone, Copy, PartialEq, Eq, Structural)]
pub enum CleanItem {
    Note(usize),
    Card(usize),
    Image(usize),
}

// ---------------------------------------------------------------------------
// The library
// ---------------------------------------------------------------------------

/// The rows of a note's sections, as far as the first `count` sections, and whether none of
/// them belongs to the note. The first one is left out where it repeats the note's title.
pub open spec fn section_items(
    note: NoteRow,
    sections: Seq<SectionRow>,
    count: int,
) -> (Seq<LibraryItem>, bool)
    decreases count,
{
    if count <= 0 {
        (Seq::empty(), true)
    } else {
        let (items, first) = section_items(note, sections, count - 1);
        let section = sections[count - 1];
        if section.path@ != note.path@ {
            (items, first)
        } else if first && section.heading@ == note.title@ {
            (items, false)
        } else {
            (items.push(LibraryItem::Section((count - 1) as usize)), false)
        }
    }
}

/// The rows of the first `count` notes, each followed by those of its sections.
pub open spec fn library_of(
    notes: Seq<NoteRow>,
    sections: Seq<SectionRow>,
    count: int,
) -> Seq<LibraryItem>
    decreases count,
{
    if count <= 0 {
        Seq::empty()
    } else {
        library_of(notes, sections, count - 1).push(LibraryItem::Note((count - 1) as usize))
            + section_items(notes[count - 1], sections, sections.len() as int).0
    }
}

fn add_sections(items: &mut Vec<LibraryItem>, note: &NoteRow, sections: &Vec<SectionRow>)
    ensures
        final(items)@ == old(items)@ + section_items(*note, sections@, sections.len() as int).0,
{
    let ghost before = items@;
    let mut first = true;
    let mut i: usize = 0;
    assert(before + Seq::<LibraryItem>::empty() == before);
    while i < sections.len()
        invariant
            0 <= i <= sections.len(),
            items@ == before + section_items(*note, sections@, i as int).0,
            first == section_items(*note, sections@, i as int).1,
        decreases sections.len() - i,
    {
        let ghost so_far = section_items(*note, sections@, i as int).0;
        if text_eq(sections[i].path.as_str(), note.path.as_str()) {
            if first && text_eq(sections[i].heading.as_str(), note.title.as_str()) {
                first = false;
            } else {
                first = false;
                items.push(LibraryItem::Section(i));
                assert(items@ == before + so_far.push(LibraryItem::Section(i)));
            }
        }
        i += 1;
    }
}

// ---------------------------------------------------------------------------
// Reviews and cleaning
// ---------------------------------------------------------------------------

/// Sections, then decks, then cards.
pub open spec fn review_list(sections: nat, decks: nat, cards: nat) -> Seq<ReviewItem> {
    Seq::new(sections, |i: int| ReviewItem::Section(i as usize)) + Seq::new(
        decks,
        |i: int| ReviewItem::Deck(i as usize),
    ) + Seq::new(cards, |i: int| ReviewItem::Card(i as usize))
}

/// Whether a note has no topic.
pub open spec fn is_untopical(note: NoteRow) -> bool {
    match note.topic {
        Some(topic) => topic@.len() == 0,
        None => true,
    }
}

pub open spec fn untopical_notes(notes: Seq<NoteRow>, count: int) -> Seq<CleanItem>
    decreases count,
{
    if count <= 0 {
        Seq::empty()
    } else if is_untopical(notes[count - 1]) {
        untopical_notes(notes, count - 1).push(CleanItem::Note((count - 1) as usize))
    } else {
        untopical_notes(notes, count - 1)
    }
}

pub open spec fn unassigned_cards(cards: Seq<CardRow>, count: int) -> Seq<CleanItem>
    decreases count,
{
    if count <= 0 {
        Seq::empty()
    } else if cards[count - 1].decks@.len() == 0 {
        unassigned_cards(cards, count - 1).push(CleanItem::Card((count - 1) as usize))
    } else {
        unassigned_cards(cards, count - 1)
    }
}

/// Notes without a topic, cards without a deck, and images that no note shows.
pub open spec fn clean_list(notes: Seq<NoteRow>, cards: Seq<CardRow>, images: nat) -> Seq<
    CleanItem,
> {
    untopical_notes(notes, notes.len() as int) + unassigned_cards(cards, cards.len() as int)
        + Seq::new(images, |i: int| CleanItem::Image(i as usize))
}

/// The places of relations that point at the section, or of those that it declares.
pub open spec fn relations_pointing(
    relations: Seq<RelationRow>,
    incoming: bool,
    count: int,
) -> Seq<usize>
    decreases count,
{
    if count <= 0 {
        Seq::empty()
    } else if relations[count - 1].incoming == incoming {
        relations_pointing(relations, incoming, count - 1).push((count - 1) as usize)
    } else {
        relations_pointing(relations, incoming, count - 1)
    }
}

/// The place of the first section with a path, at or after a place.
pub open spec fn section_at_path(sections: Seq<SectionRow>, path: Seq<char>, from: int) -> Option<
    usize,
>
    decreases sections.len() - from,
{
    if from < 0 || from >= sections.len() {
        None
    } else if sections[from].path@ == path {
        Some(from as usize)
    } else {
        section_at_path(sections, path, from + 1)
    }
}

/// The place of the first section with a uid, at or after a place.
pub open spec fn section_with_uid(sections: Seq<SectionRow>, uid: Seq<char>, from: int) -> Option<
    usize,
>
    decreases sections.len() - from,
{
    if from < 0 || from >= sections.len() {
        None
    } else if sections[from].uid@ == uid {
        Some(from as usize)
    } else {
        section_with_uid(sections, uid, from + 1)
    }
}

/// A section that is found by its uid is there, and has that uid.
pub proof fn lemma_section_with_uid(data: Data, uid: Seq<char>, from: int)
    requires
        data.sections@.len() <= usize::MAX,
        from >= 0,
    ensures
        section_with_uid(data.sections@, uid, from) matches Some(i) ==> i < data.sections@.len()
            && data.sections@[i as int].uid@ == uid,
    decreases data.sections@.len() - from,
{
    if from < data.sections@.len() {
        lemma_section_with_uid(data, uid, from + 1);
    }
}

impl Data {
    pub open spec fn spec_library_items(&self) -> Seq<LibraryItem> {
        library_of(self.notes@, self.sections@, self.notes@.len() as int)
    }

    pub open spec fn spec_review_items(&self) -> Seq<ReviewItem> {
        review_list(self.review_sections@.len(), self.decks@.len(), self.cards@.len())
    }

    pub open spec fn spec_clean_items(&self) -> Seq<CleanItem> {
        clean_list(self.notes@, self.cards@, self.orphan_images@.len())
    }

    pub open spec fn spec_relations(&self, incoming: bool) -> Seq<usize> {
        relations_pointing(self.relations@, incoming, self.relations@.len() as int)
    }

    /// The item at a place of the library.
    pub open spec fn library_at(&self, selected: usize) -> Option<LibraryItem> {
        let items = self.spec_library_items();
        if selected < items.len() {
            Some(items[selected as int])
        } else {
            None
        }
    }

    pub open spec fn review_at(&self, selected: usize) -> Option<ReviewItem> {
        let items = self.spec_review_items();
        if selected < items.len() {
            Some(items[selected as int])
        } else {
            None
        }
    }

    pub open spec fn clean_at(&self, selected: usize) -> Option<CleanItem> {
        let items = self.spec_clean_items();
        if selected < items.len() {
            Some(items[selected as int])
        } else {
            None
        }
    }

    /// Every note, each followed by its sections. A note's first section has the note's own
    /// title as a rule; it is then left out, and the note's row stands for it.
    pub fn library_items(&self) -> (r: Vec<LibraryItem>)
        ensures
            r@ == self.spec_library_items(),
    {
        let mut items: Vec<LibraryItem> = Vec::new();
        let mut i: usize = 0;
        while i < self.notes.len()
            invariant
                0 <= i <= self.notes.len(),
                items@ == library_of(self.notes@, self.sections@, i as int),
            decreases self.notes.len() - i,
        {
            items.push(LibraryItem::Note(i));
            add_sections(&mut items, &self.notes[i], &self.sections);
            i += 1;
        }
        items
    }

    /// Sections, decks and cards.
    pub fn review_items(&self) -> (r: Vec<ReviewItem>)
        ensures
            r@ == self.spec_review_items(),
    {
        let ghost a = Seq::new(
            self.review_sections@.len(),
            |i: int| ReviewItem::Section(i as usize),
        );
        let ghost b = Seq::new(self.decks@.len(), |i: int| ReviewItem::Deck(i as usize));
        let ghost c = Seq::new(self.cards@.len(), |i: int| ReviewItem::Card(i as usize));
        let mut items: Vec<ReviewItem> = Vec::new();
        let mut i: usize = 0;
        assert(a.take(0) == Seq::<ReviewItem>::empty());
        while i < self.review_sections.len()
            invariant
                0 <= i <= self.review_sections.len(),
                a == Seq::new(
                    self.review_sections@.len(),
                    |i: int| ReviewItem::Section(i as usize),
                ),
                items@ == a.take(i as int),
            decreases self.review_sections.len() - i,
        {
            items.push(ReviewItem::Section(i));
            assert(a.take(i + 1) == a.take(i as int).push(a[i as int]));
            i += 1;
        }
        assert(a.take(i as int) == a);
        let mut i: usize = 0;
        assert(a + b.take(0) == a);
        while i < self.decks.len()
            invariant
                0 <= i <= self.decks.len(),
                b == Seq::new(self.decks@.len(), |i: int| ReviewItem::Deck(i as usize)),
                items@ == a + b.take(i as int),
            decreases self.decks.len() - i,
        {
            items.push(ReviewItem::Deck(i));
            assert(a + b.take(i + 1) == (a + b.take(i as int)).push(b[i as int]));
            i += 1;
        }
        assert(b.take(i as int) == b);
        let mut i: usize = 0;
        assert(a + b + c.take(0) == a + b);
        while i < self.cards.len()
            invariant
                0 <= i <= self.cards.len(),
                c == Seq::new(self.cards@.len(), |i: int| ReviewItem::Card(i as usize)),
                items@ == a + b + c.take(i as int),
            decreases self.cards.len() - i,
        {
            items.push(ReviewItem::Card(i));
            assert(a + b + c.take(i + 1) == (a + b + c.take(i as int)).push(c[i as int]));
            i += 1;
        }
        assert(c.take(i as int) == c);
        items
    }

    /// What could be put in order: notes without a topic, cards without a deck, and images
    /// that no note shows.
    pub fn clean_items(&self) -> (r: Vec<CleanItem>)
        ensures
            r@ == self.spec_clean_items(),
    {
        let mut items: Vec<CleanItem> = Vec::new();
        let mut i: usize = 0;
        while i < self.notes.len()
            invariant
                0 <= i <= self.notes.len(),
                items@ == untopical_notes(self.notes@, i as int),
            decreases self.notes.len() - i,
        {
            let blank = match &self.notes[i].topic {
                Some(topic) => crate::text::to_chars(topic.as_str()).len() == 0,
                None => true,
            };
            if blank {
                items.push(CleanItem::Note(i));
            }
            i += 1;
        }
        let ghost a = items@;
        let mut i: usize = 0;
        assert(a + Seq::<CleanItem>::empty() == a);
        while i < self.cards.len()
            invariant
                0 <= i <= self.cards.len(),
                items@ == a + unassigned_cards(self.cards@, i as int),
            decreases self.cards.len() - i,
        {
            let ghost so_far = unassigned_cards(self.cards@, i as int);
            if self.cards[i].decks.len() == 0 {
                items.push(CleanItem::Card(i));
                assert(items@ == a + so_far.push(CleanItem::Card(i)));
            }
            i += 1;
        }
        let ghost b = items@;
        let ghost c = Seq::new(self.orphan_images@.len(), |i: int| CleanItem::Image(i as usize));
        let mut i: usize = 0;
        assert(b + c.take(0) == b);
        while i < self.orphan_images.len()
            invariant
                0 <= i <= self.orphan_images.len(),
                c == Seq::new(self.orphan_images@.len(), |i: int| CleanItem::Image(i as usize)),
                items@ == b + c.take(i as int),
            decreases self.orphan_images.len() - i,
        {
            items.push(CleanItem::Image(i));
            assert(b + c.take(i + 1) == (b + c.take(i as int)).push(c[i as int]));
            i += 1;
        }
        assert(c.take(i as int) == c);
        items
    }

    /// The places of the relations that point at the section, or of those that it declares.
    pub fn pointing(&self, incoming: bool) -> (r: Vec<usize>)
        ensures
            r@ == self.spec_relations(incoming),
    {
        let mut r: Vec<usize> = Vec::new();
        let mut i: usize = 0;
        while i < self.relations.len()
            invariant
                0 <= i <= self.relations.len(),
                r@ == relations_pointing(self.relations@, incoming, i as int),
            decreases self.relations.len() - i,
        {
            if self.relations[i].incoming == incoming {
                r.push(i);
            }
            i += 1;
        }
        r
    }

    /// The places of the relations that point at the section.
    pub fn incoming_relations(&self) -> (r: Vec<usize>)
        ensures
            r@ == self.spec_relations(true),
    {
        self.pointing(true)
    }

    /// The places of the relations that the section declares.
    pub fn outgoing_relations(&self) -> (r: Vec<usize>)
        ensures
            r@ == self.spec_relations(false),
    {
        self.pointing(false)
    }

    /// The place of the first section of a note.
    pub fn first_section(&self, path: &str) -> (r: Option<usize>)
        ensures
            r == section_at_path(self.sections@, path@, 0),
    {
        let mut i: usize = 0;
        while i < self.sections.len()
            invariant
                0 <= i <= self.sections.len(),
                section_at_path(self.sections@, path@, 0) == section_at_path(
                    self.sections@,
                    path@,
                    i as int,
                ),
            decreases self.sections.len() - i,
        {
            if text_eq(self.sections[i].path.as_str(), path) {
                return Some(i);
            }
            i += 1;
        }
        None
    }

    /// The place of the section with a uid.
    pub fn find_section(&self, uid: &str) -> (r: Option<usize>)
        ensures
            r == section_with_uid(self.sections@, uid@, 0),
    {
        let mut i: usize = 0;
        while i < self.sections.len()
            invariant
                0 <= i <= self.sections.len(),
                section_with_uid(self.sections@, uid@, 0) == section_with_uid(
                    self.sections@,
                    uid@,
                    i as int,
                ),
            decreases self.sections.len() - i,
        {
            if text_eq(self.sections[i].uid.as_str(), uid) {
                return Some(i);
            }
            i += 1;
        }
        None
    }

    /// The section that a place in the library stands for: a note stands for its first.
    pub open spec fn library_section(&self, selected: usize) -> Option<usize> {
        match self.library_at(selected) {
            Some(LibraryItem::Section(i)) => if i < self.sections@.len() {
                Some(i)
            } else {
                None
            },
            Some(LibraryItem::Note(i)) => if i < self.notes@.len() {
                section_at_path(self.sections@, self.notes@[i as int].path@, 0)
            } else {
                None
            },
            None => None,
        }
    }

    /// The section that the selected row of the library stands for.
    pub fn selected_library_section(&self, selected: usize) -> (r: Option<usize>)
        ensures
            r == self.library_section(selected),
    {
        let items = self.library_items();
        if selected >= items.len() {
            return None;
        }
        match items[selected] {
            LibraryItem::Section(i) => if i < self.sections.len() {
                Some(i)
            } else {
                None
            },
            LibraryItem::Note(i) => if i < self.notes.len() {
                self.first_section(self.notes[i].path.as_str())
            } else {
                None
            },
        }
    }
}

// ---------------------------------------------------------------------------
// Laws of the lists
// ---------------------------------------------------------------------------

proof fn lemma_section_items(note: NoteRow, sections: Seq<SectionRow>, count: int)
    requires
        0 <= count <= sections.len() <= usize::MAX,
    ensures
        forall|k: int|
            0 <= k < section_items(note, sections, count).0.len() ==> (#[trigger] section_items(
                note,
                sections,
                count,
            ).0[k] matches LibraryItem::Section(i) && i < count && sections[i as int].path@
                == note.path@),
    decreases count,
{
    if count > 0 {
        lemma_section_items(note, sections, count - 1);
        let before = section_items(note, sections, count - 1).0;
        let all = section_items(note, sections, count).0;
        assert forall|k: int| 0 <= k < all.len() implies (#[trigger] all[k] matches
            LibraryItem::Section(i) && i < count && sections[i as int].path@ == note.path@) by {
            if k < before.len() {
                assert(all[k] == before[k]);
            }
        }
    }
}

proof fn lemma_library(notes: Seq<NoteRow>, sections: Seq<SectionRow>, count: int)
    requires
        0 <= count <= notes.len() <= usize::MAX,
        sections.len() <= usize::MAX,
    ensures
        forall|k: int|
            0 <= k < library_of(notes, sections, count).len() ==> match #[trigger] library_of(
                notes,
                sections,
                count,
            )[k] {
                LibraryItem::Note(i) => i < notes.len(),
                LibraryItem::Section(i) => i < sections.len(),
            },
    decreases count,
{
    if count > 0 {
        lemma_library(notes, sections, count - 1);
        let before = library_of(notes, sections, count - 1);
        let note = LibraryItem::Note((count - 1) as usize);
        let more = section_items(notes[count - 1], sections, sections.len() as int).0;
        lemma_section_items(notes[count - 1], sections, sections.len() as int);
        let all = library_of(notes, sections, count);
        assert forall|k: int| 0 <= k < all.len() implies match #[trigger] all[k] {
            LibraryItem::Note(i) => i < notes.len(),
            LibraryItem::Section(i) => i < sections.len(),
        } by {
            if k < before.len() {
                assert(all[k] == before[k]);
            } else if k == before.len() {
                assert(all[k] == note);
            } else {
                assert(all[k] == more[k - before.len() - 1]);
            }
        }
    }
}

/// Every row of the library stands for a note or a section that there is.
pub proof fn library_rows_exist(data: Data, k: int)
    requires
        0 <= k < data.spec_library_items().len(),
        data.notes@.len() <= usize::MAX,
        data.sections@.len() <= usize::MAX,
    ensures
        match data.spec_library_items()[k] {
            LibraryItem::Note(i) => i < data.notes@.len(),
            LibraryItem::Section(i) => i < data.sections@.len(),
        },
{
    lemma_library(data.notes@, data.sections@, data.notes@.len() as int);
}

proof fn lemma_library_notes(notes: Seq<NoteRow>, sections: Seq<SectionRow>, count: int, n: int)
    requires
        0 <= n < count <= notes.len() <= usize::MAX,
    ensures
        library_of(notes, sections, count).contains(LibraryItem::Note(n as usize)),
    decreases count,
{
    let before = library_of(notes, sections, count - 1);
    let all = library_of(notes, sections, count);
    let wanted = LibraryItem::Note(n as usize);
    if n == count - 1 {
        assert(all[before.len() as int] == wanted);
    } else {
        lemma_library_notes(notes, sections, count - 1, n);
        let k = choose|k: int| 0 <= k < before.len() && before[k] == wanted;
        assert(all[k] == wanted);
    }
}

/// Every note has a row in the library.
pub proof fn every_note_is_listed(data: Data, n: int)
    requires
        0 <= n < data.notes@.len() <= usize::MAX,
    ensures
        data.spec_library_items().contains(LibraryItem::Note(n as usize)),
{
    lemma_library_notes(data.notes@, data.sections@, data.notes@.len() as int, n);
}

pub(crate) proof fn lemma_clean_notes(notes: Seq<NoteRow>, count: int)
    requires
        0 <= count <= notes.len() <= usize::MAX,
    ensures
        forall|k: int|
            0 <= k < untopical_notes(notes, count).len() ==> (#[trigger] untopical_notes(
                notes,
                count,
            )[k] matches CleanItem::Note(i) && i < count && is_untopical(notes[i as int])),
    decreases count,
{
    if count > 0 {
        lemma_clean_notes(notes, count - 1);
        let before = untopical_notes(notes, count - 1);
        let all = untopical_notes(notes, count);
        assert forall|k: int| 0 <= k < all.len() implies (#[trigger] all[k] matches
            CleanItem::Note(i) && i < count && is_untopical(notes[i as int])) by {
            if k < before.len() {
                assert(all[k] == before[k]);
            }
        }
    }
}

pub(crate) proof fn lemma_clean_cards(cards: Seq<CardRow>, count: int)
    requires
        0 <= count <= cards.len() <= usize::MAX,
    ensures
        forall|k: int|
            0 <= k < unassigned_cards(cards, count).len() ==> (#[trigger] unassigned_cards(
                cards,
                count,
            )[k] matches CleanItem::Card(i) && i < count && cards[i as int].decks@.len() == 0),
    decreases count,
{
    if count > 0 {
        lemma_clean_cards(cards, count - 1);
        let before = unassigned_cards(cards, count - 1);
        let all = unassigned_cards(cards, count);
        assert forall|k: int| 0 <= k < all.len() implies (#[trigger] all[k] matches
            CleanItem::Card(i) && i < count && cards[i as int].decks@.len() == 0) by {
            if k < before.len() {
                assert(all[k] == before[k]);
            }
        }
    }
}

/// Every row of the Clean page stands for a note without a topic, a card without a deck, or
/// an image that no note shows.
pub proof fn clean_rows_need_cleaning(data: Data, k: int)
    requires
        0 <= k < data.spec_clean_items().len(),
        data.notes@.len() <= usize::MAX,
        data.cards@.len() <= usize::MAX,
        data.orphan_images@.len() <= usize::MAX,
    ensures
        match data.spec_clean_items()[k] {
            CleanItem::Note(i) => i < data.notes@.len() && is_untopical(data.notes@[i as int]),
            CleanItem::Card(i) => i < data.cards@.len() && data.cards@[i as int].decks@.len() == 0,
            CleanItem::Image(i) => i < data.orphan_images@.len(),
        },
{
    lemma_clean_notes(data.notes@, data.notes@.len() as int);
    lemma_clean_cards(data.cards@, data.cards@.len() as int);
    let a = untopical_notes(data.notes@, data.notes@.len() as int);
    let b = unassigned_cards(data.cards@, data.cards@.len() as int);
    let c = Seq::new(data.orphan_images@.len(), |i: int| CleanItem::Image(i as usize));
    let all = data.spec_clean_items();
    if k < a.len() {
        assert(all[k] == a[k]);
    } else if k < a.len() + b.len() {
        assert(all[k] == b[k - a.len()]);
    } else {
        assert(all[k] == c[k - a.len() - b.len()]);
    }
}

/// Every row of the Review page stands for a section, a deck or a card that there is.
pub proof fn review_rows_exist(data: Data, k: int)
    requires
        0 <= k < data.spec_review_items().len(),
        data.review_sections@.len() <= usize::MAX,
        data.decks@.len() <= usize::MAX,
        data.cards@.len() <= usize::MAX,
    ensures
        match data.spec_review_items()[k] {
            ReviewItem::Section(i) => i < data.review_sections@.len(),
            ReviewItem::Deck(i) => i < data.decks@.len(),
            ReviewItem::Card(i) => i < data.cards@.len(),
        },
{
}

proof fn lemma_pointing(relations: Seq<RelationRow>, incoming: bool, count: int)
    requires
        0 <= count <= relations.len() <= usize::MAX,
    ensures
        forall|k: int|
            0 <= k < relations_pointing(relations, incoming, count).len() ==> (
            #[trigger] relations_pointing(relations, incoming, count)[k]) < count,
        relations_pointing(relations, true, count).len() + relations_pointing(
            relations,
            false,
            count,
        ).len() == count,
    decreases count,
{
    if count > 0 {
        lemma_pointing(relations, incoming, count - 1);
        let before = relations_pointing(relations, incoming, count - 1);
        let all = relations_pointing(relations, incoming, count);
        assert forall|k: int| 0 <= k < all.len() implies (#[trigger] all[k]) < count by {
            if k < before.len() {
                assert(all[k] == before[k]);
            }
        }
    }
}

/// Every relation points one way or the other.
pub proof fn relations_point_one_way(data: Data, incoming: bool, k: int)
    requires
        0 <= k < data.spec_relations(incoming).len(),
        data.relations@.len() <= usize::MAX,
    ensures
        data.spec_relations(incoming)[k] < data.relations@.len(),
        data.spec_relations(true).len() + data.spec_relations(false).len()
            == data.relations@.len(),
{
    lemma_pointing(data.relations@, incoming, data.relations@.len() as int);
}

// ---------------------------------------------------------------------------
// Media
// ---------------------------------------------------------------------------

/// A Markdown image.
pub open spec fn image_pattern() -> Seq<char> {
    r"!\[[^\]]*\]\(([^)]+)\)"@
}

/// What a body carries, given the web addresses and images that were found in it.
pub open spec fn media_in(
    body: Seq<char>,
    urls: Seq<Seq<Option<Seq<char>>>>,
    images: Seq<Seq<Option<Seq<char>>>>,
) -> Media {
    Media {
        video: contains_text(body, "@video"@) || first_video_of(urls) is Some,
        url: urls.len() > 0,
        image: images.len() > 0,
    }
}

/// What a section's body carries that a key can open.
pub fn media_of(body: &str) -> (r: Media)
    ensures
        r == media_in(
            body@,
            found_or_none(regex_matches(url_pattern(), body@)),
            found_or_none(regex_matches(image_pattern(), body@)),
        ),
{
    let urls = matches_in(r"https?://[^\s)>\]]+", body);
    let images = matches_in(r"!\[[^\]]*\]\(([^)]+)\)", body);
    assert(crate::outside::matches_view(urls@).len() == urls.len());
    assert(crate::outside::matches_view(images@).len() == images.len());
    Media {
        video: text_contains(body, "@video") || crate::player::first_video(&urls).is_some(),
        url: urls.len() > 0,
        image: images.len() > 0,
    }
}

/// The first web address in a body.
pub fn first_url(body: &str) -> (r: Option<String>)
    ensures
        opt_view(r) == first_group_of(found_or_none(regex_matches(url_pattern(), body@)), 0),
{
    let found = matches_in(r"https?://[^\s)>\]]+", body);
    first_group(&found, 0)
}

/// What the first image in a body shows.
pub fn first_image(body: &str) -> (r: Option<String>)
    ensures
        opt_view(r) == (match first_group_of(
            found_or_none(regex_matches(image_pattern(), body@)),
            1,
        ) {
            Some(target) => Some(trimmed(target)),
            None => None,
        }),
{
    let found = matches_in(r"!\[[^\]]*\]\(([^)]+)\)", body);
    match first_group(&found, 1) {
        Some(target) => Some(trim_text(target.as_str())),
        None => None,
    }
}

/// The place of the first video among actions, at or after a place.
pub open spec fn video_action(actions: Seq<ActionRow>, from: int) -> Option<usize>
    decreases actions.len() - from,
{
    if from < 0 || from >= actions.len() {
        None
    } else if actions[from].kind@ == "video"@ {
        Some(from as usize)
    } else {
        video_action(actions, from + 1)
    }
}

/// What to play for a section: the first video that it declares, at its moment, or else the
/// first video address in its body.
pub open spec fn video_of(actions: Seq<ActionRow>, first_url: Option<Seq<char>>) -> Option<
    (Seq<char>, Option<u64>),
> {
    match video_action(actions, 0) {
        Some(i) => Some((actions[i as int].target@, actions[i as int].timestamp_seconds)),
        None => match first_url {
            Some(url) => Some((url, None)),
            None => None,
        },
    }
}

pub open spec fn playable_view(p: Option<(String, Option<u64>)>) -> Option<
    (Seq<char>, Option<u64>),
> {
    match p {
        Some(found) => Some((found.0@, found.1)),
        None => None,
    }
}

/// Chooses the video, given the first video address in the section's body.
pub fn choose_video(actions: &Vec<ActionRow>, first_url: Option<String>) -> (r: Option<
    (String, Option<u64>),
>)
    ensures
        playable_view(r) == video_of(actions@, opt_view(first_url)),
{
    let mut i: usize = 0;
    while i < actions.len()
        invariant
            0 <= i <= actions.len(),
            video_action(actions@, 0) == video_action(actions@, i as int),
        decreases actions.len() - i,
    {
        if text_eq(actions[i].kind.as_str(), "video") {
            return Some((actions[i].target.clone(), actions[i].timestamp_seconds));
        }
        i += 1;
    }
    match first_url {
        Some(url) => Some((url, None)),
        None => None,
    }
}

/// Chooses the video to play for a section.
pub fn video_to_play(actions: &Vec<ActionRow>, body: &str) -> (r: Option<(String, Option<u64>)>)
    ensures
        playable_view(r) == video_of(
            actions@,
            first_video_of(found_or_none(regex_matches(url_pattern(), body@))),
        ),
{
    choose_video(actions, first_video_url(body))
}

/// The video that a section declares goes before the first video address in its body; of
/// several that it declares the first is played, at its moment.
pub proof fn a_declared_video_goes_first(
    actions: Seq<ActionRow>,
    first_url: Option<Seq<char>>,
    i: int,
)
    requires
        actions.len() <= usize::MAX,
        0 <= i <= actions.len(),
        forall|j: int| 0 <= j < i ==> (#[trigger] actions[j]).kind@ != "video"@,
    ensures
        i < actions.len() && actions[i].kind@ == "video"@ ==> video_of(actions, first_url) == Some(
            (actions[i].target@, actions[i].timestamp_seconds),
        ),
        i == actions.len() && first_url is Some ==> video_of(actions, first_url) == Some(
            (first_url->0, None::<u64>),
        ),
        i == actions.len() && first_url is None ==> video_of(actions, first_url) is None,
{
    lemma_video_action(actions, 0, i);
}

proof fn lemma_video_action(actions: Seq<ActionRow>, from: int, i: int)
    requires
        0 <= from <= i <= actions.len(),
        forall|j: int| from <= j < i ==> (#[trigger] actions[j]).kind@ != "video"@,
    ensures
        video_action(actions, from) == video_action(actions, i),
    decreases i - from,
{
    if from < i {
        lemma_video_action(actions, from + 1, i);
    }
}

/// A body has a video where it declares one or links to one, and an address or image where
/// one was found in it.
pub proof fn media_are_what_was_found(
    body: Seq<char>,
    urls: Seq<Seq<Option<Seq<char>>>>,
    images: Seq<Seq<Option<Seq<char>>>>,
)
    ensures
        ({
            let m = media_in(body, urls, images);
            &&& contains_text(body, "@video"@) ==> m.video
            &&& !contains_text(body, "@video"@) ==> m.video == (first_video_of(urls) is Some)
            &&& m.url <==> urls.len() > 0
            &&& m.image <==> images.len() > 0
        }),
{
}

} // verus!
