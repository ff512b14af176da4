//! Where the user stands: the page, the selection and the focus, and how they move.

use vstd::prelude::*;

use crate::app::items::Data;
use crate::app::keymap::Direction;
use crate::app::{Mode, Page};
use crate::config::{ReviewOrder, ReviewSettings};

verus! {

/// Option rows that are adjusted in place. The rest run something.
pub const ADJUSTABLE_OPTIONS: usize = 5;

/// How many rows the Options page has.
pub const OPTION_COUNT: usize = 10;

/// Where the user stands.
#[derive(Debug, Clone, Copy, PartialEq, Eq, Structural)]
pub struct Cursor {
    pub page: Page,
    pub mode: Mode,
    /// The selected row of the page.
    pub selected: usize,
    pub scroll: u16,
    pub active_deck: usize,
    /// The selected row where a deck to review is chosen; the first row is "no deck".
    pub review_scope_selected: usize,
    pub focused_panel: usize,
    /// The section that the Relations page shows.
    pub relation_section: usize,
    pub incoming_selected: usize,
    pub outgoing_selected: usize,
    pub palette_selected: usize,
    /// Whether the vault whose path is typed is to be created.
    pub create_vault: bool,
}

impl Default for Cursor {
    fn default() -> (r: Self)
        ensures
            r == (Cursor {
                page: Page::Library,
                mode: Mode::Browse,
                selected: 0,
                scroll: 0,
                active_deck: 0,
                review_scope_selected: 0,
                focused_panel: 0,
                relation_section: 0,
                incoming_selected: 0,
                outgoing_selected: 0,
                palette_selected: 0,
                create_vault: false,
            }),
    {
        Cursor {
            page: Page::Library,
            mode: Mode::Browse,
            selected: 0,
            scroll: 0,
            active_deck: 0,
            review_scope_selected: 0,
            focused_panel: 0,
            relation_section: 0,
            incoming_selected: 0,
            outgoing_selected: 0,
            palette_selected: 0,
            create_vault: false,
        }
    }
}

// ---------------------------------------------------------------------------
// Moving in a list
// ---------------------------------------------------------------------------

/// The last place of a list, or the first of an empty one.
pub open spec fn last_place(total: nat) -> int {
    if total == 0 {
        0
    } else {
        total - 1
    }
}

/// A place that is no further than the end of the list.
pub open spec fn clamped(place: usize, total: nat) -> usize {
    if place > last_place(total) {
        last_place(total) as usize
    } else {
        place
    }
}

/// One place on or back, inside the list.
pub open spec fn stepped(place: usize, forward: bool, total: nat) -> usize {
    if forward {
        if place < last_place(total) {
            (place + 1) as usize
        } else {
            last_place(total) as usize
        }
    } else if place > 0 {
        clamped((place - 1) as usize, total)
    } else {
        0
    }
}

/// Keeps a place inside a list.
pub fn clamp(place: usize, total: usize) -> (r: usize)
    ensures
        r == clamped(place, total as nat),
{
    let last: usize = if total == 0 {
        0
    } else {
        total - 1
    };
    if place > last {
        last
    } else {
        place
    }
}

/// Moves one place on or back, inside a list.
pub fn step(place: usize, forward: bool, total: usize) -> (r: usize)
    ensures
        r == stepped(place, forward, total as nat),
{
    let last: usize = if total == 0 {
        0
    } else {
        total - 1
    };
    if forward {
        if place < last {
            place + 1
        } else {
            last
        }
    } else if place > 0 {
        clamp(place - 1, total)
    } else {
        0
    }
}

/// A step stays inside a list that is not empty.
pub proof fn a_step_stays_in_the_list(place: usize, forward: bool, total: nat)
    requires
        0 < total <= usize::MAX,
    ensures
        stepped(place, forward, total) < total,
        clamped(place, total) < total,
{
}

/// Inside a list, a step back undoes a step on.
pub proof fn a_step_back_undoes_a_step_on(place: usize, total: nat)
    requires
        place + 1 < total <= usize::MAX,
    ensures
        stepped(stepped(place, true, total), false, total) == place,
{
}

/// How many rows a page has.
pub open spec fn total_of(data: Data, page: Page) -> nat {
    match page {
        Page::Library => data.spec_library_items().len(),
        Page::Review => data.spec_review_items().len(),
        Page::Relations => data.sections@.len(),
        Page::Stats => 1,
        Page::Clean => data.spec_clean_items().len(),
        Page::Options => OPTION_COUNT as nat,
        Page::Archived => data.archived@.len(),
    }
}

/// How many rows a page has.
pub fn page_total(data: &Data, page: Page) -> (r: usize)
    ensures
        r == total_of(*data, page),
{
    match page {
        Page::Library => data.library_items().len(),
        Page::Review => data.review_items().len(),
        Page::Relations => data.sections.len(),
        Page::Stats => 1,
        Page::Clean => data.clean_items().len(),
        Page::Options => OPTION_COUNT,
        Page::Archived => data.archived.len(),
    }
}

/// One line on or back.
pub open spec fn scrolled(scroll: u16, forward: bool) -> u16 {
    if forward {
        if scroll < u16::MAX {
            (scroll + 1) as u16
        } else {
            scroll
        }
    } else if scroll > 0 {
        (scroll - 1) as u16
    } else {
        0
    }
}

/// The cursor after a motion on a page other than Relations.
pub open spec fn page_moved(data: Data, c: Cursor, forward: bool) -> Cursor {
    match c.page {
        Page::Relations => c,
        Page::Stats => Cursor { scroll: scrolled(c.scroll, forward), ..c },
        _ => Cursor { selected: stepped(c.selected, forward, total_of(data, c.page)), ..c },
    }
}

/// Moves in a page: the selection, or the text where nothing is selected.
pub fn move_page(data: &Data, c: Cursor, forward: bool) -> (r: Cursor)
    ensures
        r == page_moved(*data, c, forward),
{
    let mut r = c;
    match c.page {
        Page::Relations => {},
        Page::Stats => {
            if forward {
                if c.scroll < u16::MAX {
                    r.scroll = c.scroll + 1;
                }
            } else if c.scroll > 0 {
                r.scroll = c.scroll - 1;
            }
        },
        _ => {
            r.selected = step(c.selected, forward, page_total(data, c.page));
        },
    }
    r
}

/// The cursor with its selection inside the page.
pub fn clamp_selected(data: &Data, c: Cursor) -> (r: Cursor)
    ensures
        r == (Cursor { selected: clamped(c.selected, total_of(*data, c.page)), ..c }),
{
    let mut r = c;
    r.selected = clamp(c.selected, page_total(data, c.page));
    r
}

// ---------------------------------------------------------------------------
// Moving between panes
// ---------------------------------------------------------------------------

/// Where the panes of a page lie, by column and row.
pub open spec fn panes(page: Page, searching: bool) -> Seq<(i16, i16)> {
    if searching {
        seq![(0, 0), (1, 0)]
    } else {
        match page {
            Page::Library => seq![(0, 0), (1, 0), (1, 1)],
            Page::Review | Page::Clean | Page::Options | Page::Archived => seq![(0, 0), (1, 0)],
            Page::Relations => seq![(0, 0), (1, 0), (2, 0)],
            Page::Stats => seq![(0, 0)],
        }
    }
}

/// Whether a pane lies in a direction.
pub open spec fn lies(from: (i16, i16), to: (i16, i16), direction: Direction) -> bool {
    match direction {
        Direction::Left => to.0 < from.0,
        Direction::Right => to.0 > from.0,
        Direction::Up => to.1 < from.1,
        Direction::Down => to.1 > from.1,
    }
}

pub open spec fn distance(a: int, b: int) -> int {
    if a < b {
        b - a
    } else {
        a - b
    }
}

/// How far a pane is: along the direction first, across it second.
pub open spec fn pane_cost(from: (i16, i16), to: (i16, i16), direction: Direction) -> int {
    let horizontal = distance(from.0 as int, to.0 as int);
    let vertical = distance(from.1 as int, to.1 as int);
    match direction {
        Direction::Up | Direction::Down => vertical * 100 + horizontal,
        _ => horizontal * 100 + vertical,
    }
}

/// The nearest of the first `count` panes in a direction; of two the earlier.
pub open spec fn nearest(
    list: Seq<(i16, i16)>,
    from: (i16, i16),
    direction: Direction,
    count: int,
) -> Option<int>
    decreases count,
{
    if count <= 0 {
        None
    } else {
        let best = nearest(list, from, direction, count - 1);
        let pane = list[count - 1];
        if !lies(from, pane, direction) {
            best
        } else {
            match best {
                Some(b) => if pane_cost(from, pane, direction) < pane_cost(
                    from,
                    list[b],
                    direction,
                ) {
                    Some(count - 1)
                } else {
                    best
                },
                None => Some(count - 1),
            }
        }
    }
}

/// The pane that has the focus after it moved.
pub open spec fn focus_after(c: Cursor, direction: Direction) -> int {
    let list = panes(c.page, c.mode == Mode::Search);
    let at = clamped(c.focused_panel, list.len()) as int;
    match nearest(list, list[at], direction, list.len() as int) {
        Some(i) => i,
        None => at,
    }
}

fn pane_list(page: Page, searching: bool) -> (r: Vec<(i16, i16)>)
    ensures
        r@ == panes(page, searching),
        0 < r.len() <= 3,
        forall|i: int| 0 <= i < r.len() ==> 0 <= (#[trigger] r@[i]).0 <= 2 && 0 <= r@[i].1 <= 2,
{
    let mut r: Vec<(i16, i16)> = Vec::new();
    r.push((0, 0));
    if searching {
        r.push((1, 0));
    } else {
        match page {
            Page::Library => {
                r.push((1, 0));
                r.push((1, 1));
            },
            Page::Review | Page::Clean | Page::Options | Page::Archived => {
                r.push((1, 0));
            },
            Page::Relations => {
                r.push((1, 0));
                r.push((2, 0));
            },
            Page::Stats => {},
        }
    }
    assert(r@ == panes(page, searching));
    r
}

fn pane_lies(from: (i16, i16), to: (i16, i16), direction: Direction) -> (r: bool)
    ensures
        r == lies(from, to, direction),
{
    match direction {
        Direction::Left => to.0 < from.0,
        Direction::Right => to.0 > from.0,
        Direction::Up => to.1 < from.1,
        Direction::Down => to.1 > from.1,
    }
}

fn cost_of(from: (i16, i16), to: (i16, i16), direction: Direction) -> (r: i16)
    requires
        0 <= from.0 <= 2,
        0 <= from.1 <= 2,
        0 <= to.0 <= 2,
        0 <= to.1 <= 2,
    ensures
        r == pane_cost(from, to, direction),
{
    let horizontal: i16 = if from.0 < to.0 {
        to.0 - from.0
    } else {
        from.0 - to.0
    };
    let vertical: i16 = if from.1 < to.1 {
        to.1 - from.1
    } else {
        from.1 - to.1
    };
    match direction {
        Direction::Up | Direction::Down => vertical * 100 + horizontal,
        _ => horizontal * 100 + vertical,
    }
}

/// Moves the focus to the nearest pane in a direction, if there is one.
pub fn move_panel_focus(c: Cursor, direction: Direction) -> (r: Cursor)
    ensures
        r == (Cursor { focused_panel: focus_after(c, direction) as usize, ..c }),
{
    let list = pane_list(c.page, c.mode == Mode::Search);
    let at = clamp(c.focused_panel, list.len());
    let from = list[at];
    let mut best: usize = at;
    let mut found = false;
    let mut i: usize = 0;
    while i < list.len()
        invariant
            0 <= i <= list.len(),
            at < list.len(),
            best < list.len(),
            from == list@[at as int],
            forall|i: int|
                0 <= i < list.len() ==> 0 <= (#[trigger] list@[i]).0 <= 2 && 0 <= list@[i].1 <= 2,
            found ==> nearest(list@, from, direction, i as int) == Some(best as int),
            !found ==> nearest(list@, from, direction, i as int) is None && best == at,
        decreases list.len() - i,
    {
        let pane = list[i];
        if pane_lies(from, pane, direction) {
            if !found || cost_of(from, pane, direction) < cost_of(from, list[best], direction) {
                best = i;
                found = true;
            }
        }
        i += 1;
    }
    let mut r = c;
    r.focused_panel = best;
    r
}

proof fn lemma_nearest_bound(
    list: Seq<(i16, i16)>,
    from: (i16, i16),
    direction: Direction,
    count: int,
)
    ensures
        nearest(list, from, direction, count) matches Some(i) ==> 0 <= i < count,
    decreases count,
{
    if count > 0 {
        lemma_nearest_bound(list, from, direction, count - 1);
    }
}

/// The focus never leaves the panes of a page.
pub proof fn panel_focus_stays_inside_every_page(c: Cursor, direction: Direction)
    ensures
        0 <= focus_after(c, direction) < panes(c.page, c.mode == Mode::Search).len(),
{
    let list = panes(c.page, c.mode == Mode::Search);
    let at = clamped(c.focused_panel, list.len()) as int;
    lemma_nearest_bound(list, list[at], direction, list.len() as int);
}

// ---------------------------------------------------------------------------
// Relations
// ---------------------------------------------------------------------------

/// The cursor with its place among the relations inside the lists.
pub open spec fn relations_clamped(data: Data, c: Cursor) -> Cursor {
    Cursor {
        incoming_selected: clamped(c.incoming_selected, data.spec_relations(true).len()),
        outgoing_selected: clamped(c.outgoing_selected, data.spec_relations(false).len()),
        ..c
    }
}

/// Keeps the cursor inside the relations that were loaded.
pub fn clamp_relations(data: &Data, c: Cursor) -> (r: Cursor)
    ensures
        r == relations_clamped(*data, c),
{
    let mut r = c;
    r.incoming_selected = clamp(c.incoming_selected, data.incoming_relations().len());
    r.outgoing_selected = clamp(c.outgoing_selected, data.outgoing_relations().len());
    r
}

/// Keeps the section that the Relations page shows inside the list of sections.
pub fn clamp_relation_section(data: &Data, c: Cursor) -> (r: Cursor)
    ensures
        r == (Cursor { relation_section: clamped(c.relation_section, data.sections@.len()), ..c }),
{
    let mut r = c;
    r.relation_section = clamp(c.relation_section, data.sections.len());
    r
}

/// The cursor after a motion on the Relations page.
pub open spec fn relation_moved(data: Data, c: Cursor, forward: bool) -> Cursor {
    if c.focused_panel == 0 {
        Cursor {
            incoming_selected: stepped(
                c.incoming_selected,
                forward,
                data.spec_relations(true).len(),
            ),
            ..c
        }
    } else if c.focused_panel == 1 {
        Cursor {
            relation_section: stepped(c.relation_section, forward, data.sections@.len()),
            incoming_selected: 0,
            outgoing_selected: 0,
            ..c
        }
    } else if c.focused_panel == 2 {
        Cursor {
            outgoing_selected: stepped(
                c.outgoing_selected,
                forward,
                data.spec_relations(false).len(),
            ),
            ..c
        }
    } else {
        c
    }
}

/// Moves in the pane of the Relations page that has the focus. Where another section is
/// shown, its relations have to be loaded.
pub fn move_relation_selection(data: &Data, c: Cursor, forward: bool) -> (r: (Cursor, bool))
    ensures
        r.0 == relation_moved(*data, c, forward),
        r.1 == (c.focused_panel == 1),
{
    let mut r = c;
    if c.focused_panel == 0 {
        r.incoming_selected = step(
            c.incoming_selected,
            forward,
            data.incoming_relations().len(),
        );
    } else if c.focused_panel == 1 {
        r.relation_section = step(c.relation_section, forward, data.sections.len());
        r.incoming_selected = 0;
        r.outgoing_selected = 0;
    } else if c.focused_panel == 2 {
        r.outgoing_selected = step(
            c.outgoing_selected,
            forward,
            data.outgoing_relations().len(),
        );
    }
    (r, c.focused_panel == 1)
}

/// The cursor at the top of a page.
pub open spec fn gone_to(c: Cursor, page: Page) -> Cursor {
    Cursor {
        page,
        selected: 0,
        scroll: 0,
        focused_panel: if page == Page::Relations {
            1
        } else {
            0
        },
        ..c
    }
}

/// Goes to the top of a page.
pub fn go_to(c: Cursor, page: Page) -> (r: Cursor)
    ensures
        r == gone_to(c, page),
{
    let mut r = c;
    r.page = page;
    r.selected = 0;
    r.scroll = 0;
    r.focused_panel = if page == Page::Relations {
        1
    } else {
        0
    };
    r
}

// ---------------------------------------------------------------------------
// Options
// ---------------------------------------------------------------------------

pub open spec fn between(value: int, low: int, high: int) -> int {
    if value < low {
        low
    } else if value > high {
        high
    } else {
        value
    }
}

pub open spec fn one(forward: bool) -> int {
    if forward {
        1
    } else {
        -1
    }
}

/// The settings, and the retention in percent, after an option was adjusted.
pub open spec fn option_changed(
    settings: ReviewSettings,
    percentage: i64,
    selected: usize,
    forward: bool,
) -> (ReviewSettings, int) {
    if selected == 0 {
        (settings, between(percentage + one(forward), 70, 99))
    } else if selected == 1 {
        (
            ReviewSettings {
                new_cards_per_day: between(
                    settings.new_cards_per_day + one(forward),
                    1,
                    9999,
                ) as usize,
                ..settings
            },
            percentage as int,
        )
    } else if selected == 2 {
        (
            ReviewSettings {
                max_reviews_per_day: between(
                    settings.max_reviews_per_day + 10 * one(forward),
                    10,
                    9999,
                ) as usize,
                ..settings
            },
            percentage as int,
        )
    } else if selected == 3 {
        (
            ReviewSettings {
                review_order: match settings.review_order {
                    ReviewOrder::Due => ReviewOrder::Random,
                    ReviewOrder::Random => ReviewOrder::Due,
                },
                ..settings
            },
            percentage as int,
        )
    } else if selected == 4 {
        (
            ReviewSettings { bury_siblings: !settings.bury_siblings, ..settings },
            percentage as int,
        )
    } else {
        (settings, percentage as int)
    }
}

fn adjusted(value: usize, forward: bool, by: usize, low: usize) -> (r: usize)
    requires
        0 < by <= 10,
        0 < low <= 10,
    ensures
        r == between(value + by * one(forward), low as int, 9999),
{
    if forward {
        if value >= 9999 {
            9999
        } else if value + by > 9999 {
            9999
        } else if value + by < low {
            low
        } else {
            value + by
        }
    } else if value < by + low {
        low
    } else if value - by > 9999 {
        9999
    } else {
        value - by
    }
}

/// Adjusts the selected option up or down.
pub fn change_option(
    settings: ReviewSettings,
    percentage: i64,
    selected: usize,
    forward: bool,
) -> (r: (ReviewSettings, i64))
    ensures
        r.0 == option_changed(settings, percentage, selected, forward).0,
        r.1 == option_changed(settings, percentage, selected, forward).1,
{
    let mut s = settings;
    let mut p: i64 = percentage;
    if selected == 0 {
        p = if forward {
            if percentage < 70 {
                70
            } else if percentage >= 99 {
                99
            } else {
                percentage + 1
            }
        } else if percentage <= 70 {
            70
        } else if percentage > 99 {
            99
        } else {
            percentage - 1
        };
    } else if selected == 1 {
        s.new_cards_per_day = adjusted(settings.new_cards_per_day, forward, 1, 1);
    } else if selected == 2 {
        s.max_reviews_per_day = adjusted(settings.max_reviews_per_day, forward, 10, 10);
    } else if selected == 3 {
        s.review_order =
        match settings.review_order {
            ReviewOrder::Due => ReviewOrder::Random,
            ReviewOrder::Random => ReviewOrder::Due,
        };
    } else if selected == 4 {
        s.bury_siblings = !settings.bury_siblings;
    }
    (s, p)
}

/// Whatever is adjusted, the settings stay ones that are accepted when they are loaded.
pub proof fn adjusted_options_are_valid(
    settings: ReviewSettings,
    percentage: i64,
    selected: usize,
    forward: bool,
)
    requires
        settings.new_cards_per_day > 0,
        settings.max_reviews_per_day > 0,
        0 < percentage < 100,
    ensures
        ({
            let (s, p) = option_changed(settings, percentage, selected, forward);
            s.new_cards_per_day > 0 && s.max_reviews_per_day > 0 && 0 < p < 100
        }),
{
}

/// Adjusting an option changes that one alone: the retention by a percent between 70 and 99,
/// the new cards by one, the reviews by ten, and the order and the holding back of related
/// cards to what they were not.
pub proof fn an_option_changes_alone(
    settings: ReviewSettings,
    percentage: i64,
    selected: usize,
    forward: bool,
)
    ensures
        ({
            let (s, p) = option_changed(settings, percentage, selected, forward);
            let by = if forward {
                1int
            } else {
                -1int
            };
            &&& selected != 0 ==> p == percentage
            &&& selected != 1 ==> s.new_cards_per_day == settings.new_cards_per_day
            &&& selected != 2 ==> s.max_reviews_per_day == settings.max_reviews_per_day
            &&& selected != 3 ==> s.review_order == settings.review_order
            &&& selected != 4 ==> s.bury_siblings == settings.bury_siblings
            &&& selected == 0 ==> 70 <= p <= 99 && (70 <= percentage + by <= 99 ==> p
                == percentage + by) && (percentage + by > 99 ==> p == 99) && (percentage + by < 70
                ==> p == 70)
            &&& selected == 1 ==> (1 <= settings.new_cards_per_day + by <= 9999
                ==> s.new_cards_per_day == settings.new_cards_per_day + by) && 1
                <= s.new_cards_per_day <= 9999
            &&& selected == 2 ==> (10 <= settings.max_reviews_per_day + 10 * by <= 9999
                ==> s.max_reviews_per_day == settings.max_reviews_per_day + 10 * by) && 10
                <= s.max_reviews_per_day <= 9999
            &&& selected == 3 ==> s.review_order != settings.review_order
            &&& selected == 4 ==> s.bury_siblings != settings.bury_siblings
        }),
{
}

/// A page opens at its top and without a scrolled text, the Relations page at the section
/// between the two lists; where the cursor is among the relations is not forgotten.
pub proof fn a_page_opens_at_its_top(c: Cursor, page: Page)
    ensures
        ({
            let r = gone_to(c, page);
            &&& r.page == page && r.selected == 0 && r.scroll == 0
            &&& page == Page::Relations ==> r.focused_panel == 1
            &&& page != Page::Relations ==> r.focused_panel == 0
            &&& r.mode == c.mode
            &&& r.relation_section == c.relation_section
            &&& r.incoming_selected == c.incoming_selected
            &&& r.outgoing_selected == c.outgoing_selected
        }),
{
}

/// On the Relations page a motion stays in the pane that has the focus. Where it reaches
/// another section, both lists start from their top again.
pub proof fn a_relation_motion_stays_in_its_pane(data: Data, c: Cursor, forward: bool)
    requires
        c.relation_section < usize::MAX,
        c.incoming_selected < usize::MAX,
        c.outgoing_selected < usize::MAX,
    ensures
        ({
            let r = relation_moved(data, c, forward);
            &&& r.page == c.page && r.mode == c.mode && r.focused_panel == c.focused_panel
            &&& r.selected == c.selected && r.scroll == c.scroll
            &&& c.focused_panel == 0 ==> r.relation_section == c.relation_section
                && r.outgoing_selected == c.outgoing_selected && (forward && c.incoming_selected + 1
                < data.spec_relations(true).len() ==> r.incoming_selected == c.incoming_selected
                + 1)
            &&& c.focused_panel == 1 ==> r.incoming_selected == 0 && r.outgoing_selected == 0 && (
            forward && c.relation_section + 1 < data.sections@.len() ==> r.relation_section
                == c.relation_section + 1)
            &&& c.focused_panel == 2 ==> r.relation_section == c.relation_section
                && r.incoming_selected == c.incoming_selected && (forward && c.outgoing_selected + 1
                < data.spec_relations(false).len() ==> r.outgoing_selected == c.outgoing_selected
                + 1)
            &&& c.focused_panel > 2 ==> r == c
        }),
{
}

/// A motion on a page moves the selection by one row, and on the Stats page the text by one
/// line.
pub proof fn a_page_motion_goes_by_one(data: Data, c: Cursor)
    requires
        c.page != Page::Relations,
        c.selected < usize::MAX,
    ensures
        ({
            let on = page_moved(data, c, true);
            let back = page_moved(data, c, false);
            &&& c.page == Page::Stats ==> on.selected == c.selected && back.selected == c.selected
                && (c.scroll < u16::MAX ==> on.scroll == c.scroll + 1) && (c.scroll > 0
                ==> back.scroll == c.scroll - 1)
            &&& c.page != Page::Stats ==> on.scroll == c.scroll && back.scroll == c.scroll && (
            c.selected + 1 < total_of(data, c.page) ==> on.selected == c.selected + 1) && (0
                < c.selected < total_of(data, c.page) ==> back.selected == c.selected - 1)
        }),
{
}

proof fn lemma_nearest(
    list: Seq<(i16, i16)>,
    from: (i16, i16),
    direction: Direction,
    count: int,
)
    requires
        0 <= count <= list.len(),
    ensures
        match nearest(list, from, direction, count) {
            Some(b) => 0 <= b < count && lies(from, list[b], direction) && forall|i: int|
                0 <= i < count && lies(from, #[trigger] list[i], direction) ==> pane_cost(
                    from,
                    list[b],
                    direction,
                ) <= pane_cost(from, list[i], direction),
            None => forall|i: int|
                0 <= i < count ==> !lies(from, #[trigger] list[i], direction),
        },
    decreases count,
{
    if count > 0 {
        lemma_nearest(list, from, direction, count - 1);
    }
}

/// The focus goes to a pane that lies where it is sent, none of them nearer, and stays where
/// none lies there.
pub proof fn the_focus_goes_where_it_is_sent(c: Cursor, direction: Direction)
    ensures
        ({
            let list = panes(c.page, c.mode == Mode::Search);
            let from = list[clamped(c.focused_panel, list.len()) as int];
            let to = list[focus_after(c, direction)];
            &&& 0 <= focus_after(c, direction) < list.len()
            &&& direction == Direction::Left ==> to.0 < from.0 || to == from && forall|i: int|
                0 <= i < list.len() ==> (#[trigger] list[i]).0 >= from.0
            &&& direction == Direction::Right ==> to.0 > from.0 || to == from && forall|i: int|
                0 <= i < list.len() ==> (#[trigger] list[i]).0 <= from.0
            &&& direction == Direction::Up ==> to.1 < from.1 || to == from && forall|i: int|
                0 <= i < list.len() ==> (#[trigger] list[i]).1 >= from.1
            &&& direction == Direction::Down ==> to.1 > from.1 || to == from && forall|i: int|
                0 <= i < list.len() ==> (#[trigger] list[i]).1 <= from.1
        }),
{
    let list = panes(c.page, c.mode == Mode::Search);
    let from = list[clamped(c.focused_panel, list.len()) as int];
    lemma_nearest(list, from, direction, list.len() as int);
}

} // verus!
