//! The Library page: every note and its sections, with a preview beside it.

use vstd::prelude::*;
use vstd::string::*;

use crate::app::items::{library_rows_exist, Data, LibraryItem};
use crate::app::ui::lines::{
    blank, body_lines, lines_view, no_lines, one, push_blank, push_body, push_line, push_text, sp,
    Line, LineView, Role,
};
use crate::app::ui::widgets::{empty_lines, empty_state, heading, less, spread, spread_line};
use crate::app::util::{display_markdown, fit, fitted, short_date, shown_body, text_or};
use crate::model::{NoteRow, SectionRow};
use crate::outside::utc_formatted;
use crate::text::{
    decimal, decimal_text, glue, glue3, join, join_texts, opt_view, text_eq, texts, uppercase_of,
};

verus! {

/// The date of a timestamp, as pages show it.
pub open spec fn date_text(timestamp: i64) -> Seq<char> {
    text_or(utc_formatted(timestamp, "%Y-%m-%d"@), "unknown"@)
}

/// The topic of a note, as pages show it.
pub open spec fn topic_of(note: NoteRow) -> Seq<char> {
    text_or(opt_view(note.topic), "No topic"@)
}

fn topic(note: &NoteRow) -> (r: String)
    ensures
        r@ == topic_of(*note),
{
    match &note.topic {
        Some(text) => text.clone(),
        None => "No topic".to_owned(),
    }
}

// ---------------------------------------------------------------------------
// The tree
// ---------------------------------------------------------------------------

/// Rows, the row of the selected item, and the topic that the last note had.
#[verifier::ext_equal]
pub struct Tree {
    pub rows: Seq<LineView>,
    pub selected: Option<usize>,
    pub topic: Option<Seq<char>>,
}

/// The row of a note.
pub open spec fn note_row(note: NoteRow, width: nat) -> LineView {
    seq![
        sp(
            if note.pinned {
                "★ "@
            } else {
                "  "@
            },
            Role::Accent,
        ),
        sp(fitted(note.title@, less(width as int, 2) as nat), Role::Strong),
    ]
}

/// The row of a section.
pub open spec fn section_row(section: SectionRow, width: nat) -> LineView {
    seq![
        sp("    "@, Role::Text),
        sp(fitted(section.heading@, less(width as int, 4) as nat), Role::Dim),
    ]
}

/// The heading of a topic, where the note before had another one.
pub open spec fn topic_rows(last: Option<Seq<char>>, topic: Seq<char>) -> Seq<LineView> {
    if last == Some(topic) {
        Seq::empty()
    } else if last is Some {
        seq![blank(), one(uppercase_of(topic), Role::Heading)]
    } else {
        seq![one(uppercase_of(topic), Role::Heading)]
    }
}

/// The tree of the first `count` items.
pub open spec fn tree_of(
    data: Data,
    items: Seq<LibraryItem>,
    selected: usize,
    width: nat,
    count: int,
) -> Tree
    decreases count,
{
    if count <= 0 {
        Tree { rows: Seq::empty(), selected: None, topic: None }
    } else {
        let before = tree_of(data, items, selected, width, count - 1);
        let (above, row, topic) = match items[count - 1] {
            LibraryItem::Note(i) => {
                let note = data.notes@[i as int];
                (
                    topic_rows(before.topic, topic_of(note)),
                    note_row(note, width),
                    Some(topic_of(note)),
                )
            },
            LibraryItem::Section(i) => (
                Seq::empty(),
                section_row(data.sections@[i as int], width),
                before.topic,
            ),
        };
        let rows = before.rows + above;
        Tree {
            rows: rows.push(row),
            selected: if count - 1 == selected {
                Some(rows.len() as usize)
            } else {
                before.selected
            },
            topic,
        }
    }
}

/// What the tree says where there are no notes.
pub open spec fn no_notes() -> Seq<LineView> {
    seq![one("No notes yet"@, Role::Dim), one("Press n to write the first one"@, Role::Faint)]
}

/// The rows of the tree, and the row of the selected item.
pub open spec fn shown_tree(data: Data, selected: usize, width: nat) -> (
    Seq<LineView>,
    Option<usize>,
) {
    let items = data.spec_library_items();
    let tree = tree_of(data, items, selected, width, items.len() as int);
    (
        if items.len() == 0 {
            no_notes()
        } else {
            tree.rows
        },
        tree.selected,
    )
}

/// The rows of the tree, and the row of the selected item.
pub fn tree(data: &Data, selected: usize, width: usize) -> (r: (Vec<Line>, Option<usize>))
    ensures
        lines_view(r.0@) == shown_tree(*data, selected, width as nat).0,
        r.1 == shown_tree(*data, selected, width as nat).1,
{
    let items = data.library_items();
    let (a, b) = (data.notes.len(), data.sections.len());
    let mut rows = no_lines();
    if items.len() == 0 {
        push_text(&mut rows, "No notes yet", Role::Dim);
        push_text(&mut rows, "Press n to write the first one", Role::Faint);
        assert(lines_view(rows@) == no_notes());
        return (rows, None);
    }
    let mut row: Option<usize> = None;
    let mut last: Option<String> = None;
    let mut i: usize = 0;
    while i < items.len()
        invariant
            0 <= i <= items.len(),
            items@ == data.spec_library_items(),
            data.notes@.len() <= usize::MAX,
            data.sections@.len() <= usize::MAX,
            lines_view(rows@) == tree_of(*data, items@, selected, width as nat, i as int).rows,
            row == tree_of(*data, items@, selected, width as nat, i as int).selected,
            opt_view(last) == tree_of(*data, items@, selected, width as nat, i as int).topic,
        decreases items.len() - i,
    {
        let ghost before = tree_of(*data, items@, selected, width as nat, i as int);
        proof {
            library_rows_exist(*data, i as int);
        }
        let line = match items[i] {
            LibraryItem::Note(n) => {
                let note = &data.notes[n];
                let topic = topic(note);
                let same = match &last {
                    Some(text) => text_eq(text.as_str(), topic.as_str()),
                    None => false,
                };
                if !same {
                    if last.is_some() {
                        push_blank(&mut rows);
                    }
                    push_line(&mut rows, heading(topic.as_str()));
                }
                assert(lines_view(rows@) == before.rows + topic_rows(before.topic, topic@));
                last = Some(topic);
                let mut line = Line::of(
                    if note.pinned {
                        "★ "
                    } else {
                        "  "
                    },
                    Role::Accent,
                );
                line.push(
                    fit(note.title.as_str(), width.saturating_sub(2)).as_str(),
                    Role::Strong,
                );
                assert(line@ == note_row(*note, width as nat));
                line
            },
            LibraryItem::Section(s) => {
                let section = &data.sections[s];
                let mut line = Line::of("    ", Role::Text);
                line.push(
                    fit(section.heading.as_str(), width.saturating_sub(4)).as_str(),
                    Role::Dim,
                );
                assert(line@ == section_row(*section, width as nat));
                assert(before.rows + Seq::<LineView>::empty() == before.rows);
                line
            },
        };
        if i == selected {
            row = Some(rows.len());
        }
        push_line(&mut rows, line);
        i += 1;
    }
    (rows, row)
}

// ---------------------------------------------------------------------------
// The preview
// ---------------------------------------------------------------------------

/// The places of a note's sections.
pub open spec fn sections_of(sections: Seq<SectionRow>, path: Seq<char>, count: int) -> Seq<usize>
    decreases count,
{
    if count <= 0 {
        Seq::empty()
    } else if sections[count - 1].path@ == path {
        sections_of(sections, path, count - 1).push((count - 1) as usize)
    } else {
        sections_of(sections, path, count - 1)
    }
}

/// The places of the sections that are listed: all but a first one that repeats the title.
pub open spec fn listed_of(sections: Seq<SectionRow>, note: NoteRow) -> Seq<usize> {
    let all = sections_of(sections, note.path@, sections.len() as int);
    if all.len() > 0 && sections[all[0] as int].heading@ == note.title@ {
        all.skip(1)
    } else {
        all
    }
}

/// How many there are of something.
pub open spec fn counted(count: nat) -> Seq<char> {
    if count == 1 {
        "1 section"@
    } else {
        decimal(count) + " sections"@
    }
}

/// How many sections there are, in words.
pub fn count_sections(count: usize) -> (r: String)
    ensures
        r@ == counted(count as nat),
{
    if count == 1 {
        "1 section".to_owned()
    } else {
        glue(decimal_text(count as u64).as_str(), " sections")
    }
}

/// What is said of a note on one line.
pub open spec fn note_facts(note: NoteRow, sections: nat) -> Seq<char> {
    let facts = seq![topic_of(note), counted(sections), note.path@];
    join(
        if note.pinned {
            facts.push("pinned"@)
        } else {
            facts
        },
        "  ·  "@,
    )
}

/// The preview of a note.
pub open spec fn note_preview(data: Data, note: NoteRow, width: nat) -> Seq<LineView> {
    let all = sections_of(data.sections@, note.path@, data.sections@.len() as int);
    let listed = listed_of(data.sections@, note);
    let head = seq![
        one(fitted(note_facts(note, all.len()), width), Role::Dim),
        one(
            fitted(
                "edited "@ + date_text(note.modified_at) + "  ·  created "@ + date_text(
                    note.created_at,
                ),
                width,
            ),
            Role::Faint,
        ),
    ];
    if listed.len() == 0 {
        head
    } else {
        head + seq![blank(), one(uppercase_of("Sections"@), Role::Heading)] + Seq::new(
            listed.len(),
            |i: int|
                one(
                    "  "@ + fitted(
                        data.sections@[listed[i] as int].heading@,
                        less(width as int, 2) as nat,
                    ),
                    Role::Text,
                ),
        )
    }
}

/// The preview of a section.
pub open spec fn section_preview(section: SectionRow, width: nat) -> Seq<LineView> {
    seq![
        one(
            fitted(
                section.note_title@ + "  ·  line "@ + decimal(section.start_line as nat),
                width,
            ),
            Role::Dim,
        ),
        blank(),
    ] + body_lines(shown_body(section.body@))
}

/// The title of the preview, and the preview.
pub open spec fn preview_of(data: Data, selected: usize, width: nat) -> (
    Seq<char>,
    Seq<LineView>,
) {
    match data.library_at(selected) {
        Some(LibraryItem::Note(i)) => (
            data.notes@[i as int].title@,
            note_preview(data, data.notes@[i as int], width),
        ),
        Some(LibraryItem::Section(i)) => (
            data.sections@[i as int].heading@,
            section_preview(data.sections@[i as int], width),
        ),
        None => (
            "Nothing selected"@,
            empty_lines(
                "This vault has no notes yet."@,
                "n creates one and opens your editor."@,
            ),
        ),
    }
}

fn find_sections(sections: &Vec<SectionRow>, path: &str) -> (r: Vec<usize>)
    ensures
        r@ == sections_of(sections@, path@, sections.len() as int),
        forall|k: int| 0 <= k < r.len() ==> (#[trigger] r@[k]) < sections.len(),
{
    let mut r: Vec<usize> = Vec::new();
    let mut i: usize = 0;
    while i < sections.len()
        invariant
            0 <= i <= sections.len(),
            r@ == sections_of(sections@, path@, i as int),
            forall|k: int| 0 <= k < r.len() ==> (#[trigger] r@[k]) < i,
        decreases sections.len() - i,
    {
        if text_eq(sections[i].path.as_str(), path) {
            r.push(i);
        }
        i += 1;
    }
    r
}

fn facts(note: &NoteRow, sections: usize) -> (r: String)
    ensures
        r@ == note_facts(*note, sections as nat),
{
    let mut list: Vec<String> = Vec::new();
    list.push(topic(note));
    list.push(count_sections(sections));
    list.push(note.path.clone());
    let ghost three = seq![topic_of(*note), counted(sections as nat), note.path@];
    assert(texts(list@) == three);
    if note.pinned {
        list.push("pinned".to_owned());
        assert(texts(list@) == three.push("pinned"@));
    }
    join_texts(&list, "  ·  ")
}

fn preview_note(data: &Data, note: &NoteRow, width: usize) -> (r: Vec<Line>)
    ensures
        lines_view(r@) == note_preview(*data, *note, width as nat),
{
    let all = find_sections(&data.sections, note.path.as_str());
    let mut r = no_lines();
    push_text(&mut r, fit(facts(note, all.len()).as_str(), width).as_str(), Role::Dim);
    let mut dates = "edited ".to_owned();
    dates.append(short_date(note.modified_at).as_str());
    dates.append("  ·  created ");
    dates.append(short_date(note.created_at).as_str());
    push_text(&mut r, fit(dates.as_str(), width).as_str(), Role::Faint);
    let ghost head = seq![
        one(fitted(note_facts(*note, all@.len()), width as nat), Role::Dim),
        one(
            fitted(
                "edited "@ + date_text(note.modified_at) + "  ·  created "@ + date_text(
                    note.created_at,
                ),
                width as nat,
            ),
            Role::Faint,
        ),
    ];
    assert(lines_view(r@) == head);
    let start: usize = if all.len() > 0 && text_eq(
        data.sections[all[0]].heading.as_str(),
        note.title.as_str(),
    ) {
        1
    } else {
        0
    };
    let ghost listed = listed_of(data.sections@, *note);
    assert(listed == all@.skip(start as int));
    if start == all.len() {
        return r;
    }
    push_blank(&mut r);
    push_line(&mut r, heading("Sections"));
    let ghost head = head + seq![blank(), one(uppercase_of("Sections"@), Role::Heading)];
    assert(lines_view(r@) == head);
    let ghost rows = Seq::new(
        listed.len(),
        |i: int|
            one(
                "  "@ + fitted(
                    data.sections@[listed[i] as int].heading@,
                    less(width as int, 2) as nat,
                ),
                Role::Text,
            ),
    );
    let mut i: usize = start;
    assert(head + rows.take(0) == head);
    while i < all.len()
        invariant
            start <= i <= all.len(),
            listed == all@.skip(start as int),
            forall|k: int| 0 <= k < all.len() ==> (#[trigger] all@[k]) < data.sections.len(),
            rows == Seq::new(
                listed.len(),
                |i: int|
                    one(
                        "  "@ + fitted(
                            data.sections@[listed[i] as int].heading@,
                            less(width as int, 2) as nat,
                        ),
                        Role::Text,
                    ),
            ),
            lines_view(r@) == head + rows.take(i - start),
        decreases all.len() - i,
    {
        let place: usize = all[i];
        assert(listed[i - start] == place);
        let text = glue(
            "  ",
            fit(data.sections[place].heading.as_str(), width.saturating_sub(2)).as_str(),
        );
        push_text(&mut r, text.as_str(), Role::Text);
        assert(rows.take(i - start + 1) == rows.take(i - start).push(rows[i - start]));
        assert(lines_view(r@) == head + rows.take(i - start + 1));
        i += 1;
    }
    assert(rows.take(i - start) == rows);
    r
}

/// The title of the preview, and the preview.
pub fn preview(data: &Data, selected: usize, width: usize) -> (r: (String, Vec<Line>))
    ensures
        r.0@ == preview_of(*data, selected, width as nat).0,
        lines_view(r.1@) == preview_of(*data, selected, width as nat).1,
{
    let items = data.library_items();
    let (a, b) = (data.notes.len(), data.sections.len());
    if selected >= items.len() {
        return (
            "Nothing selected".to_owned(),
            empty_state("This vault has no notes yet.", "n creates one and opens your editor."),
        );
    }
    proof {
        library_rows_exist(*data, selected as int);
    }
    match items[selected] {
        LibraryItem::Note(i) => (
            data.notes[i].title.clone(),
            preview_note(data, &data.notes[i], width),
        ),
        LibraryItem::Section(i) => {
            let section = &data.sections[i];
            let mut r = no_lines();
            let text = glue3(
                section.note_title.as_str(),
                "  ·  line ",
                decimal_text(section.start_line as u64).as_str(),
            );
            push_text(&mut r, fit(text.as_str(), width).as_str(), Role::Dim);
            push_blank(&mut r);
            push_body(&mut r, display_markdown(section.body.as_str()).as_str());
            assert(lines_view(r@) == section_preview(*section, width as nat));
            (section.heading.clone(), r)
        },
    }
}

// ---------------------------------------------------------------------------
// Pinned and recent notes
// ---------------------------------------------------------------------------

/// The places of the pinned notes.
pub open spec fn pinned_of(notes: Seq<NoteRow>, count: int) -> Seq<usize>
    decreases count,
{
    if count <= 0 {
        Seq::empty()
    } else if notes[count - 1].pinned {
        pinned_of(notes, count - 1).push((count - 1) as usize)
    } else {
        pinned_of(notes, count - 1)
    }
}

/// The places of the notes that were edited since a moment.
pub open spec fn recent_of(notes: Seq<NoteRow>, since: int, count: int) -> Seq<usize>
    decreases count,
{
    if count <= 0 {
        Seq::empty()
    } else if notes[count - 1].modified_at >= since {
        recent_of(notes, since, count - 1).push((count - 1) as usize)
    } else {
        recent_of(notes, since, count - 1)
    }
}

/// The first three of a list.
pub open spec fn first_three(list: Seq<usize>) -> Seq<usize> {
    if list.len() > 3 {
        list.take(3)
    } else {
        list
    }
}

/// The row of a pinned note.
pub open spec fn pinned_row(note: NoteRow, width: nat) -> LineView {
    spread_line("★ "@ + note.title@, topic_of(note), width, Role::Faint)
}

/// The row of a note that was edited lately.
pub open spec fn recent_row(note: NoteRow, width: nat) -> LineView {
    spread_line(note.title@, date_text(note.modified_at), width, Role::Faint)
}

/// The pinned notes, as far as three.
pub open spec fn pinned_rows(notes: Seq<NoteRow>, width: nat) -> Seq<LineView> {
    let list = first_three(pinned_of(notes, notes.len() as int));
    if list.len() == 0 {
        Seq::empty()
    } else {
        seq![one(uppercase_of("Pinned"@), Role::Heading)] + Seq::new(
            list.len(),
            |i: int| pinned_row(notes[list[i] as int], width),
        ) + seq![blank()]
    }
}

/// The notes that were edited since a moment, as far as three.
pub open spec fn recent_rows(notes: Seq<NoteRow>, since: int, width: nat) -> Seq<LineView> {
    let list = first_three(recent_of(notes, since, notes.len() as int));
    seq![one(uppercase_of("Edited this week"@), Role::Heading)] + (if list.len() == 0 {
        seq![one("Nothing yet"@, Role::Faint)]
    } else {
        Seq::new(list.len(), |i: int| recent_row(notes[list[i] as int], width))
    })
}

fn find_pinned(notes: &Vec<NoteRow>) -> (r: Vec<usize>)
    ensures
        r@ == pinned_of(notes@, notes.len() as int),
        forall|k: int| 0 <= k < r.len() ==> (#[trigger] r@[k]) < notes.len(),
{
    let mut r: Vec<usize> = Vec::new();
    let mut i: usize = 0;
    while i < notes.len()
        invariant
            0 <= i <= notes.len(),
            r@ == pinned_of(notes@, i as int),
            forall|k: int| 0 <= k < r.len() ==> (#[trigger] r@[k]) < i,
        decreases notes.len() - i,
    {
        if notes[i].pinned {
            r.push(i);
        }
        i += 1;
    }
    r
}

fn find_recent(notes: &Vec<NoteRow>, since: i64) -> (r: Vec<usize>)
    ensures
        r@ == recent_of(notes@, since as int, notes.len() as int),
        forall|k: int| 0 <= k < r.len() ==> (#[trigger] r@[k]) < notes.len(),
{
    let mut r: Vec<usize> = Vec::new();
    let mut i: usize = 0;
    while i < notes.len()
        invariant
            0 <= i <= notes.len(),
            r@ == recent_of(notes@, since as int, i as int),
            forall|k: int| 0 <= k < r.len() ==> (#[trigger] r@[k]) < i,
        decreases notes.len() - i,
    {
        if notes[i].modified_at >= since {
            r.push(i);
        }
        i += 1;
    }
    r
}

fn shorten(list: &mut Vec<usize>)
    ensures
        final(list)@ == first_three(old(list)@),
{
    if list.len() > 3 {
        list.truncate(3);
    }
}

/// Pinned notes, and the notes that were edited in the week before `now`.
pub fn recent(notes: &Vec<NoteRow>, now: i64, width: usize) -> (r: Vec<Line>)
    requires
        now - 604_800 >= i64::MIN,
    ensures
        lines_view(r@) == pinned_rows(notes@, width as nat) + recent_rows(
            notes@,
            now - 604_800,
            width as nat,
        ),
{
    let mut r = no_lines();
    let mut pinned = find_pinned(notes);
    shorten(&mut pinned);
    if pinned.len() > 0 {
        push_line(&mut r, heading("Pinned"));
        let ghost head = lines_view(r@);
        let ghost rows = Seq::new(
            pinned@.len(),
            |i: int| pinned_row(notes@[pinned@[i] as int], width as nat),
        );
        let mut i: usize = 0;
        assert(head + rows.take(0) == head);
        while i < pinned.len()
            invariant
                0 <= i <= pinned.len(),
                forall|k: int| 0 <= k < pinned.len() ==> (#[trigger] pinned@[k]) < notes.len(),
                rows == Seq::new(
                    pinned@.len(),
                    |i: int| pinned_row(notes@[pinned@[i] as int], width as nat),
                ),
                lines_view(r@) == head + rows.take(i as int),
            decreases pinned.len() - i,
        {
            let note = &notes[pinned[i]];
            let title = glue("★ ", note.title.as_str());
            push_line(
                &mut r,
                spread(title.as_str(), topic(note).as_str(), width, Role::Faint),
            );
            assert(rows.take(i + 1) == rows.take(i as int).push(rows[i as int]));
            assert(lines_view(r@) == head + rows.take(i + 1));
            i += 1;
        }
        assert(rows.take(i as int) == rows);
        push_blank(&mut r);
    }
    assert(lines_view(r@) == pinned_rows(notes@, width as nat));
    let ghost above = lines_view(r@);
    let mut recent = find_recent(notes, now - 604_800);
    shorten(&mut recent);
    push_line(&mut r, heading("Edited this week"));
    if recent.len() == 0 {
        push_text(&mut r, "Nothing yet", Role::Faint);
    } else {
        let ghost head = lines_view(r@);
        let ghost rows = Seq::new(
            recent@.len(),
            |i: int| recent_row(notes@[recent@[i] as int], width as nat),
        );
        let mut i: usize = 0;
        assert(head + rows.take(0) == head);
        while i < recent.len()
            invariant
                0 <= i <= recent.len(),
                forall|k: int| 0 <= k < recent.len() ==> (#[trigger] recent@[k]) < notes.len(),
                rows == Seq::new(
                    recent@.len(),
                    |i: int| recent_row(notes@[recent@[i] as int], width as nat),
                ),
                lines_view(r@) == head + rows.take(i as int),
            decreases recent.len() - i,
        {
            let note = &notes[recent[i]];
            push_line(
                &mut r,
                spread(
                    note.title.as_str(),
                    short_date(note.modified_at).as_str(),
                    width,
                    Role::Faint,
                ),
            );
            assert(rows.take(i + 1) == rows.take(i as int).push(rows[i as int]));
            assert(lines_view(r@) == head + rows.take(i + 1));
            i += 1;
        }
        assert(rows.take(i as int) == rows);
    }
    assert(lines_view(r@) == above + recent_rows(notes@, now - 604_800, width as nat));
    r
}

/// Every item has a line of its own, and the selected row is the line of the selected item.
pub proof fn the_selected_row_is_that_of_the_item(
    data: Data,
    items: Seq<LibraryItem>,
    selected: usize,
    width: nat,
    count: int,
)
    requires
        0 <= count <= items.len(),
        tree_of(data, items, selected, width, count).rows.len() <= usize::MAX,
    ensures
        ({
            let tree = tree_of(data, items, selected, width, count);
            &&& tree.rows.len() >= count
            &&& selected < count ==> (tree.selected matches Some(r) && r < tree.rows.len()
                && tree.rows[r as int] == (match items[selected as int] {
                LibraryItem::Note(i) => note_row(data.notes@[i as int], width),
                LibraryItem::Section(i) => section_row(data.sections@[i as int], width),
            }))
            &&& selected >= count ==> tree.selected is None
        }),
    decreases count,
{
    if count > 0 {
        let before = tree_of(data, items, selected, width, count - 1);
        let all = tree_of(data, items, selected, width, count);
        assert(before.rows.len() < all.rows.len());
        the_selected_row_is_that_of_the_item(data, items, selected, width, count - 1);
        if selected < count - 1 {
            assert(all.rows[before.selected->0 as int] == before.rows[before.selected->0 as int]);
        }
    }
}

/// The sections of a note are those at its path, in their order.
pub proof fn a_note_has_the_sections_at_its_path(
    sections: Seq<SectionRow>,
    path: Seq<char>,
    count: int,
    i: int,
)
    requires
        0 <= count <= sections.len() <= usize::MAX,
        0 <= i < count,
    ensures
        sections_of(sections, path, count).contains(i as usize) <==> sections[i].path@ == path,
        forall|a: int, b: int|
            0 <= a < b < sections_of(sections, path, count).len() ==> #[trigger] sections_of(
                sections,
                path,
                count,
            )[a] < #[trigger] sections_of(sections, path, count)[b] < count,
        forall|a: int|
            0 <= a < sections_of(sections, path, count).len() ==> #[trigger] sections_of(
                sections,
                path,
                count,
            )[a] < count,
    decreases count,
{
    let before = sections_of(sections, path, count - 1);
    let all = sections_of(sections, path, count);
    if count > 1 {
        a_note_has_the_sections_at_its_path(sections, path, count - 1, if i < count - 1 {
            i
        } else {
            0
        });
    } else {
        assert(sections_of(sections, path, 0).len() == 0);
    }
    if sections[count - 1].path@ == path {
        assert(all[before.len() as int] == (count - 1) as usize);
        if before.contains(i as usize) {
            let k = choose|k: int| 0 <= k < before.len() && before[k] == i as usize;
            assert(all[k] == i as usize);
        }
        if i < count - 1 && all.contains(i as usize) {
            let k = choose|k: int| 0 <= k < all.len() && all[k] == i as usize;
            assert(before[k] == i as usize);
        }
    } else if i == count - 1 && all.contains(i as usize) {
        let k = choose|k: int| 0 <= k < all.len() && all[k] == i as usize;
        assert(all[k] < count - 1);
    }
}

/// Pinned notes are listed, and recent ones, each in the order of the notes.
pub proof fn pinned_and_recent_notes_are_listed(notes: Seq<NoteRow>, since: int, count: int)
    requires
        0 <= count < notes.len() <= usize::MAX,
    ensures
        notes[count].pinned ==> pinned_of(notes, count + 1) == pinned_of(notes, count).push(
            count as usize,
        ),
        !notes[count].pinned ==> pinned_of(notes, count + 1) == pinned_of(notes, count),
        notes[count].modified_at >= since ==> recent_of(notes, since, count + 1) == recent_of(
            notes,
            since,
            count,
        ).push(count as usize),
        notes[count].modified_at < since ==> recent_of(notes, since, count + 1) == recent_of(
            notes,
            since,
            count,
        ),
{
}

} // verus!
