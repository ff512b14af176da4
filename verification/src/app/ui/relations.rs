//! The Relations page, and the rows of sections that it shares with the search.

use vstd::prelude::*;
use vstd::string::*;

use crate::app::items::{relations_point_one_way, Data};
use crate::app::ui::lines::{
    body_lines, lines_view, no_lines, one, push_body, push_line, push_text, sp, Line, LineView,
    Role,
};
use crate::app::ui::library::{count_sections, counted};
use crate::app::ui::widgets::{empty_lines, empty_state, spread, spread_line};
use crate::app::util::{display_markdown, fit, fitted, shown_body, text_or};
use crate::model::{RelationRow, SectionRow};
use crate::text::{lowercase_of, opt_view, text_eq, to_chars};

verus! {

// ---------------------------------------------------------------------------
// Relations
// ---------------------------------------------------------------------------

/// The row of a relation: what it leads to, and its type.
pub open spec fn relation_line(relation: RelationRow, width: nat) -> LineView {
    spread_line(
        text_or(opt_view(relation.target_heading), relation.target_uid@),
        lowercase_of(relation.relation_type@),
        width,
        Role::Faint,
    )
}

/// The relations that point at the section, or those that it declares.
pub open spec fn relation_rows_of(data: Data, incoming: bool, width: nat) -> Seq<LineView> {
    let list = data.spec_relations(incoming);
    if list.len() == 0 {
        seq![
            one(
                if incoming {
                    "Nothing links here yet"@
                } else {
                    "This section links nowhere"@
                },
                Role::Faint,
            ),
        ]
    } else {
        Seq::new(
            list.len(),
            |i: int| relation_line(data.relations@[list[i] as int], width),
        )
    }
}

/// The relations that point at the section, or those that it declares.
pub fn relation_rows(data: &Data, incoming: bool, width: usize) -> (r: Vec<Line>)
    ensures
        lines_view(r@) == relation_rows_of(*data, incoming, width as nat),
{
    let list = data.pointing(incoming);
    let count: usize = data.relations.len();
    let ghost all = relation_rows_of(*data, incoming, width as nat);
    let mut r = no_lines();
    if list.len() == 0 {
        push_text(
            &mut r,
            if incoming {
                "Nothing links here yet"
            } else {
                "This section links nowhere"
            },
            Role::Faint,
        );
        assert(lines_view(r@) == all);
        return r;
    }
    let mut i: usize = 0;
    assert(all.take(0) == Seq::<LineView>::empty());
    while i < list.len()
        invariant
            0 <= i <= list.len(),
            list@ == data.spec_relations(incoming),
            data.relations@.len() <= usize::MAX,
            all == relation_rows_of(*data, incoming, width as nat),
            all.len() == list.len(),
            lines_view(r@) == all.take(i as int),
        decreases list.len() - i,
    {
        proof {
            relations_point_one_way(*data, incoming, i as int);
        }
        let relation = &data.relations[list[i]];
        let target = match &relation.target_heading {
            Some(text) => text.as_str(),
            None => relation.target_uid.as_str(),
        };
        push_line(
            &mut r,
            spread(
                target,
                relation.relation_type.as_str().to_lowercase().as_str(),
                width,
                Role::Faint,
            ),
        );
        assert(all.take(i + 1) == all.take(i as int).push(all[i as int]));
        i += 1;
    }
    assert(all.take(i as int) == all);
    r
}

/// The row of a section. The note is named only where it is called otherwise.
pub open spec fn named_section(section: SectionRow, width: nat) -> LineView {
    if section.note_title@ == section.heading@ {
        one(fitted(section.heading@, width), Role::Text)
    } else {
        spread_line(section.heading@, section.note_title@, width, Role::Faint)
    }
}

/// The sections in the middle of the page.
pub open spec fn section_rows_of(sections: Seq<SectionRow>, width: nat) -> Seq<LineView> {
    if sections.len() == 0 {
        seq![one("No sections indexed"@, Role::Faint)]
    } else {
        Seq::new(sections.len(), |i: int| named_section(sections[i], width))
    }
}

/// The sections in the middle of the page.
pub fn section_rows(sections: &Vec<SectionRow>, width: usize) -> (r: Vec<Line>)
    ensures
        lines_view(r@) == section_rows_of(sections@, width as nat),
{
    let ghost all = section_rows_of(sections@, width as nat);
    let mut r = no_lines();
    if sections.len() == 0 {
        push_text(&mut r, "No sections indexed", Role::Faint);
        assert(lines_view(r@) == all);
        return r;
    }
    let mut i: usize = 0;
    assert(all.take(0) == Seq::<LineView>::empty());
    while i < sections.len()
        invariant
            0 <= i <= sections.len(),
            all == section_rows_of(sections@, width as nat),
            all.len() == sections.len(),
            lines_view(r@) == all.take(i as int),
        decreases sections.len() - i,
    {
        let section = &sections[i];
        if text_eq(section.note_title.as_str(), section.heading.as_str()) {
            push_text(&mut r, fit(section.heading.as_str(), width).as_str(), Role::Text);
        } else {
            push_line(
                &mut r,
                spread(
                    section.heading.as_str(),
                    section.note_title.as_str(),
                    width,
                    Role::Faint,
                ),
            );
        }
        assert(all.take(i + 1) == all.take(i as int).push(all[i as int]));
        i += 1;
    }
    assert(all.take(i as int) == all);
    r
}

/// The title of the list of sections: the uid of the one that is shown.
pub fn section_title(sections: &Vec<SectionRow>, shown: usize) -> (r: String)
    ensures
        r@ == (if shown < sections@.len() {
            sections@[shown as int].uid@
        } else {
            "Sections"@
        }),
{
    if shown < sections.len() {
        sections[shown].uid.clone()
    } else {
        "Sections".to_owned()
    }
}

// ---------------------------------------------------------------------------
// The search
// ---------------------------------------------------------------------------

/// The row of a section that was found.
pub open spec fn found_line(section: SectionRow, width: nat) -> LineView {
    seq![
        sp(fitted(section.heading@, (width * 2 / 3) as nat), Role::Text),
        sp("  "@, Role::Text),
        sp(fitted(section.note_title@, width / 3), Role::Faint),
    ]
}

/// The sections that were found.
pub fn found_rows(sections: &Vec<SectionRow>, width: usize) -> (r: Vec<Line>)
    requires
        width * 2 <= usize::MAX,
    ensures
        lines_view(r@) == Seq::new(
            sections@.len(),
            |i: int| found_line(sections@[i], width as nat),
        ),
{
    let ghost all = Seq::new(sections@.len(), |i: int| found_line(sections@[i], width as nat));
    let mut r = no_lines();
    let mut i: usize = 0;
    assert(all.take(0) == Seq::<LineView>::empty());
    while i < sections.len()
        invariant
            0 <= i <= sections.len(),
            width * 2 <= usize::MAX,
            all == Seq::new(sections@.len(), |i: int| found_line(sections@[i], width as nat)),
            lines_view(r@) == all.take(i as int),
        decreases sections.len() - i,
    {
        let section = &sections[i];
        let mut line = Line::of(fit(section.heading.as_str(), width * 2 / 3).as_str(), Role::Text);
        line.push("  ", Role::Text);
        line.push(fit(section.note_title.as_str(), width / 3).as_str(), Role::Faint);
        assert(line@ == found_line(*section, width as nat));
        push_line(&mut r, line);
        assert(all.take(i + 1) == all.take(i as int).push(all[i as int]));
        i += 1;
    }
    assert(all.take(i as int) == all);
    r
}

/// What is said above the sections that were found.
pub open spec fn found_text(query: Seq<char>, count: nat) -> Seq<char> {
    if count == 0 {
        if query.len() == 0 {
            "Type to search every section"@
        } else {
            "No section matches"@
        }
    } else {
        counted(count)
    }
}

/// The query, and how many sections match it.
pub open spec fn search_header_of(query: Seq<char>, count: nat) -> Seq<LineView> {
    seq![
        seq![sp("Search  "@, Role::Heading), sp(query, Role::Text), sp("▏"@, Role::Accent)],
        one(found_text(query, count), Role::Faint),
    ]
}

/// The query, and how many sections match it.
pub fn search_header(query: &str, count: usize) -> (r: Vec<Line>)
    ensures
        lines_view(r@) == search_header_of(query@, count as nat),
{
    let mut r = no_lines();
    let mut line = Line::of("Search  ", Role::Heading);
    line.push(query, Role::Text);
    line.push("▏", Role::Accent);
    assert(line@ == search_header_of(query@, count as nat)[0]);
    push_line(&mut r, line);
    let text = if count == 0 {
        if to_chars(query).len() == 0 {
            "Type to search every section".to_owned()
        } else {
            "No section matches".to_owned()
        }
    } else {
        count_sections(count)
    };
    push_text(&mut r, text.as_str(), Role::Faint);
    assert(lines_view(r@) == search_header_of(query@, count as nat));
    r
}

/// The title of the preview of a section that was found, and the preview.
pub open spec fn found_preview_of(sections: Seq<SectionRow>, selected: usize) -> (
    Seq<char>,
    Seq<LineView>,
) {
    if selected < sections.len() {
        (
            sections[selected as int].heading@,
            body_lines(shown_body(sections[selected as int].body@)),
        )
    } else {
        (
            "No match"@,
            empty_lines("Nothing matches that query."@, "esc returns to the library."@),
        )
    }
}

/// The title of the preview of a section that was found, and the preview.
pub fn found_preview(sections: &Vec<SectionRow>, selected: usize) -> (r: (String, Vec<Line>))
    ensures
        r.0@ == found_preview_of(sections@, selected).0,
        lines_view(r.1@) == found_preview_of(sections@, selected).1,
{
    if selected < sections.len() {
        let section = &sections[selected];
        let mut r = no_lines();
        push_body(&mut r, display_markdown(section.body.as_str()).as_str());
        assert(lines_view(r@) == body_lines(shown_body(section.body@)));
        (section.heading.clone(), r)
    } else {
        (
            "No match".to_owned(),
            empty_state("Nothing matches that query.", "esc returns to the library."),
        )
    }
}

} // verus!
