//! What surrounds the pages: the tabs, the footer, the palette, the key reference and the
//! prompts.

use vstd::prelude::*;
use vstd::string::*;

use crate::app::keymap::{
    bindings_view, has_tab, hints_view, Binding, BindingView, KeyHint,
};
use crate::app::palette::{entries_view, Entry, EntryView};
use crate::app::ui::lines::{
    blank, line_width, lines_view, no_lines, one, push_blank, push_line, push_text, repeat,
    repeated, sp, Line, LineView, Role,
};
use crate::app::ui::widgets::{heading, less, smaller};
use crate::app::util::{fit, fitted, pad, padded};
use crate::app::{Mode, Page};
use crate::text::{decimal, decimal_text, to_chars, uppercase_of};

verus! {

// ---------------------------------------------------------------------------
// Tabs
// ---------------------------------------------------------------------------

pub open spec fn tab_role(page: Page, tab: Page) -> Role {
    if page == tab {
        Role::Strong
    } else {
        Role::Faint
    }
}

/// The tabs before one of them, or all of them before a page that has none.
pub open spec fn before_tab(page: Page, tab: Page) -> LineView {
    match tab {
        Page::Library => seq![sp("  "@, Role::Text)],
        Page::Review => seq![
            sp("  "@, Role::Text),
            sp("Library"@, tab_role(page, Page::Library)),
            sp("   "@, Role::Text),
        ],
        Page::Relations => seq![
            sp("  "@, Role::Text),
            sp("Library"@, tab_role(page, Page::Library)),
            sp("   "@, Role::Text),
            sp("Review"@, tab_role(page, Page::Review)),
            sp("   "@, Role::Text),
        ],
        Page::Stats => seq![
            sp("  "@, Role::Text),
            sp("Library"@, tab_role(page, Page::Library)),
            sp("   "@, Role::Text),
            sp("Review"@, tab_role(page, Page::Review)),
            sp("   "@, Role::Text),
            sp("Relations"@, tab_role(page, Page::Relations)),
            sp("   "@, Role::Text),
        ],
        _ => seq![
            sp("  "@, Role::Text),
            sp("Library"@, tab_role(page, Page::Library)),
            sp("   "@, Role::Text),
            sp("Review"@, tab_role(page, Page::Review)),
            sp("   "@, Role::Text),
            sp("Relations"@, tab_role(page, Page::Relations)),
            sp("   "@, Role::Text),
            sp("Stats"@, tab_role(page, Page::Stats)),
            sp("   ·   "@, Role::Faint),
        ],
    }
}

/// The tabs. A page that has no tab is named behind them.
pub open spec fn tab_spans(page: Page) -> LineView {
    if has_tab(page) {
        before_tab(page, Page::Stats).push(sp("Stats"@, tab_role(page, Page::Stats)))
    } else {
        before_tab(page, page).push(sp(page.spec_label(), Role::Strong))
    }
}

/// What stands at the right end of the tabs: the vault, and how many cards are due.
pub open spec fn context_spans(vault: Seq<char>, due: nat) -> LineView {
    one(vault, Role::Dim) + (if due > 0 {
        seq![sp("  ·  "@, Role::Faint), sp(decimal(due) + " due"@, Role::Accent)]
    } else {
        Seq::empty()
    })
}

/// The row of tabs. The context is left out where there is no room for it.
pub open spec fn tab_row(page: Page, context: LineView, width: nat) -> LineView {
    let tabs = tab_spans(page);
    let padding = less(
        less(less(width as int, line_width(tabs) as int), line_width(context) as int),
        2,
    );
    if padding > 0 {
        tabs.push(sp(repeated(' ', padding as nat), Role::Text)) + context
    } else {
        tabs
    }
}

/// The row below the tabs, which marks the page.
pub open spec fn underline_row(page: Page, width: nat) -> Option<LineView> {
    let start = line_width(before_tab(page, page));
    if width > start {
        Some(
            seq![
                sp(repeated(' ', start), Role::Text),
                sp(
                    repeated(
                        '─',
                        smaller(page.spec_label().len() as int, width - start) as nat,
                    ),
                    Role::Accent,
                ),
            ],
        )
    } else {
        None
    }
}

/// What stands at the right end of the tabs: the vault, and how many cards are due.
pub fn context(vault: &str, due: usize) -> (r: Line)
    ensures
        r@ == context_spans(vault@, due as nat),
{
    let mut r = Line::of(vault, Role::Dim);
    if due > 0 {
        r.push("  ·  ", Role::Faint);
        let mut text = decimal_text(due as u64);
        text.append(" due");
        r.push(text.as_str(), Role::Accent);
    }
    assert(r@ == context_spans(vault@, due as nat));
    r
}

proof fn lemma_push_width(line: LineView, text: Seq<char>, role: Role)
    ensures
        line_width(line.push(sp(text, role))) == line_width(line) + text.len(),
{
    assert(line.push(sp(text, role)).drop_last() == line);
}

/// Where the name of the page starts in the row of tabs.
pub open spec fn tab_start(page: Page) -> nat {
    match page {
        Page::Library => 2,
        Page::Review => 12,
        Page::Relations => 21,
        Page::Stats => 33,
        _ => 45,
    }
}

proof fn lemma_tab_start(page: Page, tab: Page)
    ensures
        line_width(before_tab(page, tab)) == tab_start(tab),
{
    reveal_strlit("  ");
    reveal_strlit("   ");
    reveal_strlit("   ·   ");
    reveal_strlit("Library");
    reveal_strlit("Review");
    reveal_strlit("Relations");
    reveal_strlit("Stats");
    let a = blank().push(sp("  "@, Role::Text));
    lemma_push_width(blank(), "  "@, Role::Text);
    let b = a.push(sp("Library"@, tab_role(page, Page::Library)));
    lemma_push_width(a, "Library"@, tab_role(page, Page::Library));
    let c = b.push(sp("   "@, Role::Text));
    lemma_push_width(b, "   "@, Role::Text);
    let d = c.push(sp("Review"@, tab_role(page, Page::Review)));
    lemma_push_width(c, "Review"@, tab_role(page, Page::Review));
    let e = d.push(sp("   "@, Role::Text));
    lemma_push_width(d, "   "@, Role::Text);
    let f = e.push(sp("Relations"@, tab_role(page, Page::Relations)));
    lemma_push_width(e, "Relations"@, tab_role(page, Page::Relations));
    let g = f.push(sp("   "@, Role::Text));
    lemma_push_width(f, "   "@, Role::Text);
    let h = g.push(sp("Stats"@, tab_role(page, Page::Stats)));
    lemma_push_width(g, "Stats"@, tab_role(page, Page::Stats));
    let i = h.push(sp("   ·   "@, Role::Faint));
    lemma_push_width(h, "   ·   "@, Role::Faint);
    assert(line_width(blank()) == 0);
    match tab {
        Page::Library => {
            assert(before_tab(page, tab) == a);
        },
        Page::Review => {
            assert(before_tab(page, tab) == c);
        },
        Page::Relations => {
            assert(before_tab(page, tab) == e);
        },
        Page::Stats => {
            assert(before_tab(page, tab) == g);
        },
        _ => {
            assert(before_tab(page, tab) == i);
        },
    }
}

proof fn lemma_tabs_width(page: Page)
    ensures
        line_width(tab_spans(page)) <= 60,
        page.spec_label().len() <= 9,
{
    reveal_strlit("Library");
    reveal_strlit("Review");
    reveal_strlit("Relations");
    reveal_strlit("Stats");
    reveal_strlit("Clean");
    reveal_strlit("Options");
    reveal_strlit("Archived");
    lemma_tab_start(page, Page::Stats);
    lemma_tab_start(page, page);
    lemma_push_width(before_tab(page, Page::Stats), "Stats"@, tab_role(page, Page::Stats));
    lemma_push_width(before_tab(page, page), page.spec_label(), Role::Strong);
}

fn push_tab(r: &mut Line, page: Page, tab: Page, label: &str)
    ensures
        final(r)@ == old(r)@.push(sp(label@, tab_role(page, tab))),
{
    r.push(
        label,
        if page == tab {
            Role::Strong
        } else {
            Role::Faint
        },
    );
}

fn tabs(page: Page) -> (r: Line)
    ensures
        r@ == tab_spans(page),
{
    let mut r = Line::of("  ", Role::Text);
    push_tab(&mut r, page, Page::Library, "Library");
    r.push("   ", Role::Text);
    push_tab(&mut r, page, Page::Review, "Review");
    r.push("   ", Role::Text);
    push_tab(&mut r, page, Page::Relations, "Relations");
    r.push("   ", Role::Text);
    push_tab(&mut r, page, Page::Stats, "Stats");
    if page == Page::Clean || page == Page::Options || page == Page::Archived {
        r.push("   ·   ", Role::Faint);
        r.push(page.label(), Role::Strong);
    }
    assert(r@ == tab_spans(page));
    r
}

/// The row of tabs.
pub fn tab_line(page: Page, context: &Line, width: usize) -> (r: Line)
    ensures
        r@ == tab_row(page, context@, width as nat),
{
    let mut r = tabs(page);
    proof {
        lemma_tabs_width(page);
    }
    let used: usize = r.width();
    let right: usize = context.width();
    let room: usize = width.saturating_sub(used);
    let padding: usize = room.saturating_sub(right).saturating_sub(2);
    if padding > 0 {
        r.push(repeat(' ', padding).as_str(), Role::Text);
        r.extend(context);
    }
    r
}

/// The row below the tabs, which marks the page.
pub fn tab_underline(page: Page, width: usize) -> (r: Option<Line>)
    ensures
        match r {
            Some(line) => underline_row(page, width as nat) == Some(line@),
            None => underline_row(page, width as nat) is None,
        },
{
    proof {
        lemma_tab_start(page, page);
        lemma_tabs_width(page);
    }
    let start: usize = match page {
        Page::Library => 2,
        Page::Review => 12,
        Page::Relations => 21,
        Page::Stats => 33,
        _ => 45,
    };
    if width <= start {
        return None;
    }
    let label: usize = to_chars(page.label()).len();
    let length: usize = if label < width - start {
        label
    } else {
        width - start
    };
    let mut r = Line::of(repeat(' ', start).as_str(), Role::Text);
    r.push(repeat('─', length).as_str(), Role::Accent);
    assert(r@ == seq![
        sp(repeated(' ', start as nat), Role::Text),
        sp(repeated('─', length as nat), Role::Accent),
    ]);
    Some(r)
}

// ---------------------------------------------------------------------------
// The footer
// ---------------------------------------------------------------------------

/// A key and what it does, behind those before it.
pub open spec fn with_key(line: LineView, key: Seq<char>, label: Seq<char>) -> LineView {
    (if line.len() == 0 {
        line
    } else {
        line.push(sp("   "@, Role::Text))
    }).push(sp(key, Role::Accent)).push(sp(" "@, Role::Text)).push(sp(label, Role::Faint))
}

fn push_key(line: &mut Line, key: &str, label: &str)
    ensures
        final(line)@ == with_key(old(line)@, key@, label@),
{
    if line.spans.len() > 0 {
        line.push("   ", Role::Text);
    }
    line.push(key, Role::Accent);
    line.push(" ", Role::Text);
    line.push(label, Role::Faint);
}

/// How wide a binding is in the footer.
pub open spec fn key_cost(binding: BindingView) -> nat {
    binding.key.spec_label().len() + binding.label.len() + 4
}

/// How many of the first bindings fit, and how wide they are.
pub open spec fn keys_that_fit(list: Seq<BindingView>, width: nat, count: int) -> (int, nat)
    decreases count,
{
    if count <= 0 {
        (0, 0)
    } else {
        let (fitting, used) = keys_that_fit(list, width, count - 1);
        if fitting == count - 1 && used + key_cost(list[count - 1]) <= width {
            (count, used + key_cost(list[count - 1]))
        } else {
            (fitting, used)
        }
    }
}

/// The first bindings, as the footer prints them.
pub open spec fn key_line(list: Seq<BindingView>, count: int) -> LineView
    decreases count,
{
    if count <= 0 {
        blank()
    } else {
        with_key(
            key_line(list, count - 1),
            list[count - 1].key.spec_label(),
            list[count - 1].label,
        )
    }
}

/// The keys that fit into a width, most useful first.
pub open spec fn footer_keys(list: Seq<BindingView>, width: nat) -> LineView {
    key_line(list, keys_that_fit(list, width, list.len() as int).0)
}

proof fn lemma_keys_stop(list: Seq<BindingView>, width: nat, at: int, count: int)
    requires
        0 <= at < count <= list.len(),
        keys_that_fit(list, width, at).0 == at,
        keys_that_fit(list, width, at).1 + key_cost(list[at]) > width,
    ensures
        keys_that_fit(list, width, count).0 == at,
    decreases count,
{
    if count > at + 1 {
        lemma_keys_stop(list, width, at, count - 1);
    }
}

/// The keys that fit into a width: a narrow terminal loses the rarest.
pub fn key_hints(list: &Vec<Binding>, width: usize) -> (r: Line)
    ensures
        r@ == footer_keys(bindings_view(list@), width as nat),
{
    let ghost views = bindings_view(list@);
    let mut r = Line::new();
    let mut used: usize = 0;
    let mut i: usize = 0;
    while i < list.len()
        invariant
            0 <= i <= list.len(),
            used <= width,
            views == bindings_view(list@),
            keys_that_fit(views, width as nat, i as int) == (i as int, used as nat),
            r@ == key_line(views, i as int),
        decreases list.len() - i,
    {
        assert(views[i as int] == list@[i as int]@);
        let key = list[i].key.label();
        let key_width: usize = to_chars(key.as_str()).len();
        let label_width: usize = to_chars(list[i].label).len();
        let room: usize = width - used;
        if room < 4 || key_width > room - 4 || label_width > room - 4 - key_width {
            proof {
                lemma_keys_stop(views, width as nat, i as int, list.len() as int);
            }
            return r;
        }
        push_key(&mut r, key.as_str(), list[i].label);
        used = used + key_width + label_width + 4;
        i += 1;
    }
    r
}

/// The keys of a review session, as the footer prints them.
pub open spec fn hint_line(list: Seq<(Seq<char>, Seq<char>)>, count: int) -> LineView
    decreases count,
{
    if count <= 0 {
        blank()
    } else {
        with_key(hint_line(list, count - 1), list[count - 1].0, list[count - 1].1)
    }
}

/// The keys of a review session, as the footer prints them.
pub fn session_hints_line(list: &Vec<KeyHint>) -> (r: Line)
    ensures
        r@ == hint_line(hints_view(list@), list.len() as int),
{
    let ghost views = hints_view(list@);
    let mut r = Line::new();
    let mut i: usize = 0;
    while i < list.len()
        invariant
            0 <= i <= list.len(),
            views == hints_view(list@),
            r@ == hint_line(views, i as int),
        decreases list.len() - i,
    {
        assert(views[i as int] == (list@[i as int].0@, list@[i as int].1@));
        push_key(&mut r, list[i].0, list[i].1);
        i += 1;
    }
    r
}

/// How much of the footer the status takes.
pub open spec fn status_width(status: Seq<char>, width: nat) -> nat {
    if status.len() == 0 {
        0
    } else {
        smaller((width / 2) as int, (status.len() + 2) as int) as nat
    }
}

/// The status at the right end of the footer.
pub open spec fn status_row(status: Seq<char>, error: bool, width: nat) -> Option<LineView> {
    let room = status_width(status, width);
    if room == 0 {
        None
    } else {
        let shown = fitted(status, (room - 1) as nat);
        Some(
            seq![
                sp(repeated(' ', less(width as int, shown.len() as int) as nat), Role::Text),
                sp(
                    shown,
                    if error {
                        Role::Wrong
                    } else {
                        Role::Dim
                    },
                ),
            ],
        )
    }
}

/// How much of the footer the status takes.
pub fn status_room(status: &str, width: usize) -> (r: usize)
    ensures
        r == status_width(status@, width as nat),
{
    let count: usize = to_chars(status).len();
    if count == 0 {
        0
    } else if width / 2 < count {
        width / 2
    } else if width / 2 - count < 2 {
        width / 2
    } else {
        count + 2
    }
}

/// The status at the right end of the footer.
pub fn status_line(status: &str, error: bool, width: usize) -> (r: Option<Line>)
    ensures
        match r {
            Some(line) => status_row(status@, error, width as nat) == Some(line@),
            None => status_row(status@, error, width as nat) is None,
        },
{
    let room = status_room(status, width);
    if room == 0 {
        return None;
    }
    let shown = fit(status, room - 1);
    let used: usize = to_chars(shown.as_str()).len();
    let mut r = Line::of(repeat(' ', width.saturating_sub(used)).as_str(), Role::Text);
    r.push(
        shown.as_str(),
        if error {
            Role::Wrong
        } else {
            Role::Dim
        },
    );
    assert(r@ == status_row(status@, error, width as nat)->0);
    Some(r)
}

proof fn lemma_keys_fit(list: Seq<BindingView>, width: nat, count: int)
    requires
        0 <= count <= list.len(),
    ensures
        0 <= keys_that_fit(list, width, count).0 <= count,
        keys_that_fit(list, width, count).1 <= width,
    decreases count,
{
    if count > 0 {
        lemma_keys_fit(list, width, count - 1);
    }
}

/// The keys in the footer are the first ones, and they fit into the width.
pub proof fn the_footer_keeps_to_its_width(list: Seq<BindingView>, width: nat)
    ensures
        0 <= keys_that_fit(list, width, list.len() as int).0 <= list.len(),
        keys_that_fit(list, width, list.len() as int).1 <= width,
{
    lemma_keys_fit(list, width, list.len() as int);
}

// ---------------------------------------------------------------------------
// Overlays
// ---------------------------------------------------------------------------

/// A line into which something is typed.
pub open spec fn typed_line(query: Seq<char>) -> LineView {
    seq![sp("› "@, Role::Accent), sp(query, Role::Text), sp("▏"@, Role::Accent)]
}

/// A line into which something is typed.
pub fn input_line(query: &str) -> (r: Line)
    ensures
        r@ == typed_line(query@),
{
    let mut r = Line::of("› ", Role::Accent);
    r.push(query, Role::Text);
    r.push("▏", Role::Accent);
    assert(r@ == typed_line(query@));
    r
}

/// A command of the palette.
pub open spec fn entry_line(entry: EntryView, width: nat) -> LineView {
    let name_width = smaller(26, width as int) as nat;
    seq![
        sp(padded(entry.name, name_width), Role::Text),
        sp(fitted(entry.detail, less(width as int, (name_width + 2) as int) as nat), Role::Faint),
    ]
}

/// The commands of the palette.
pub open spec fn entry_lines(list: Seq<EntryView>, width: nat) -> Seq<LineView> {
    if list.len() == 0 {
        seq![one("No matching command"@, Role::Faint)]
    } else {
        Seq::new(list.len(), |i: int| entry_line(list[i], width))
    }
}

/// The commands of the palette.
pub fn palette_rows(list: &Vec<Entry>, width: usize) -> (r: Vec<Line>)
    ensures
        lines_view(r@) == entry_lines(entries_view(list@), width as nat),
{
    let ghost views = entries_view(list@);
    let ghost all = entry_lines(views, width as nat);
    let mut r = no_lines();
    if list.len() == 0 {
        push_text(&mut r, "No matching command", Role::Faint);
        assert(lines_view(r@) == all);
        return r;
    }
    let name_width: usize = if 26 < width {
        26
    } else {
        width
    };
    let room: usize = width.saturating_sub(name_width).saturating_sub(2);
    let mut i: usize = 0;
    assert(all.take(0) == Seq::<LineView>::empty());
    while i < list.len()
        invariant
            0 <= i <= list.len(),
            views == entries_view(list@),
            all == entry_lines(views, width as nat),
            all.len() == list.len(),
            name_width == smaller(26, width as int),
            room == less(width as int, name_width + 2),
            lines_view(r@) == all.take(i as int),
        decreases list.len() - i,
    {
        assert(views[i as int] == list@[i as int]@);
        let mut line = Line::of(pad(list[i].name, name_width).as_str(), Role::Text);
        line.push(fit(list[i].detail, room).as_str(), Role::Faint);
        assert(line@ == all[i as int]);
        push_line(&mut r, line);
        assert(all.take(i + 1) == all.take(i as int).push(all[i as int]));
        i += 1;
    }
    assert(all.take(i as int) == all);
    r
}

/// A key and what it does, as the key reference prints them.
pub open spec fn help_line(key: Seq<char>, label: Seq<char>) -> LineView {
    seq![sp(padded(key, 9), Role::Accent), sp(label, Role::Text)]
}

/// The key reference.
pub open spec fn help_text(list: Seq<BindingView>) -> Seq<LineView> {
    seq![one(uppercase_of("On this page"@), Role::Heading), blank()] + Seq::new(
        list.len(),
        |i: int| help_line(list[i].key.spec_label(), list[i].label),
    ) + seq![
        blank(),
        one(uppercase_of("Everywhere"@), Role::Heading),
        blank(),
        help_line("1-4"@, "switch tab"@),
        help_line("j k ↑ ↓"@, "move the cursor"@),
        help_line("H J K L"@, "move focus between panes"@),
        help_line("^k"@, "command palette"@),
        help_line("^s"@, "sync vault"@),
        help_line("esc"@, "back"@),
    ]
}

fn push_help(r: &mut Vec<Line>, key: &str, label: &str)
    ensures
        lines_view(final(r)@) == lines_view(old(r)@).push(help_line(key@, label@)),
{
    let mut line = Line::of(pad(key, 9).as_str(), Role::Accent);
    line.push(label, Role::Text);
    assert(line@ == help_line(key@, label@));
    push_line(r, line);
}

/// The key reference.
pub fn help_lines(list: &Vec<Binding>) -> (r: Vec<Line>)
    ensures
        lines_view(r@) == help_text(bindings_view(list@)),
{
    let ghost views = bindings_view(list@);
    let mut r = no_lines();
    push_line(&mut r, heading("On this page"));
    push_blank(&mut r);
    let ghost head = lines_view(r@);
    let ghost all = Seq::new(
        views.len(),
        |i: int| help_line(views[i].key.spec_label(), views[i].label),
    );
    let mut i: usize = 0;
    assert(head + all.take(0) == head);
    while i < list.len()
        invariant
            0 <= i <= list.len(),
            views == bindings_view(list@),
            all == Seq::new(
                views.len(),
                |i: int| help_line(views[i].key.spec_label(), views[i].label),
            ),
            lines_view(r@) == head + all.take(i as int),
        decreases list.len() - i,
    {
        assert(views[i as int] == list@[i as int]@);
        push_help(&mut r, list[i].key.label().as_str(), list[i].label);
        assert(all.take(i + 1) == all.take(i as int).push(all[i as int]));
        assert(lines_view(r@) == head + all.take(i + 1));
        i += 1;
    }
    assert(all.take(i as int) == all);
    push_blank(&mut r);
    push_line(&mut r, heading("Everywhere"));
    push_blank(&mut r);
    push_help(&mut r, "1-4", "switch tab");
    push_help(&mut r, "j k ↑ ↓", "move the cursor");
    push_help(&mut r, "H J K L", "move focus between panes");
    push_help(&mut r, "^k", "command palette");
    push_help(&mut r, "^s", "sync vault");
    push_help(&mut r, "esc", "back");
    assert(lines_view(r@) == help_text(views));
    r
}

/// The title and the hint of a prompt.
pub open spec fn prompt_text(mode: Mode, create_vault: bool) -> Option<(Seq<char>, Seq<char>)> {
    match mode {
        Mode::DeckInput => Some(
            ("New deck"@, "A deck groups cards you want to review together."@),
        ),
        Mode::NoteInput => Some(
            ("New note"@, "Creates the Markdown file and opens your editor."@),
        ),
        Mode::VaultInput => Some(
            if create_vault {
                ("Create vault"@, "The directory is created if it does not exist."@)
            } else {
                ("Open vault"@, "Path to an existing vault directory."@)
            },
        ),
        Mode::GitRemoteInput => Some(
            (
                "Repository URL"@,
                "git@github.com:owner/vault.git, or the https:// form after signing in."@,
            ),
        ),
        _ => None,
    }
}

/// The title and the hint of a prompt.
pub fn prompt(mode: Mode, create_vault: bool) -> (r: Option<(&'static str, &'static str)>)
    ensures
        match r {
            Some((title, hint)) => prompt_text(mode, create_vault) == Some((title@, hint@)),
            None => prompt_text(mode, create_vault) is None,
        },
{
    match mode {
        Mode::DeckInput => Some(
            ("New deck", "A deck groups cards you want to review together."),
        ),
        Mode::NoteInput => Some(
            ("New note", "Creates the Markdown file and opens your editor."),
        ),
        Mode::VaultInput => Some(
            if create_vault {
                ("Create vault", "The directory is created if it does not exist.")
            } else {
                ("Open vault", "Path to an existing vault directory.")
            },
        ),
        Mode::GitRemoteInput => Some(
            (
                "Repository URL",
                "git@github.com:owner/vault.git, or the https:// form after signing in.",
            ),
        ),
        _ => None,
    }
}

/// A prompt: what is typed, and what it is for.
pub fn prompt_lines(query: &str, hint: &str) -> (r: Vec<Line>)
    ensures
        lines_view(r@) == seq![
            blank(),
            typed_line(query@),
            blank(),
            one(hint@, Role::Faint),
        ],
{
    let mut r = no_lines();
    push_blank(&mut r);
    push_line(&mut r, input_line(query));
    push_blank(&mut r);
    push_text(&mut r, hint, Role::Faint);
    assert(lines_view(r@) == seq![
        blank(),
        typed_line(query@),
        blank(),
        one(hint@, Role::Faint),
    ]);
    r
}

/// What the first keys of a footer take.
pub open spec fn keys_cost(list: Seq<BindingView>, count: int) -> nat
    decreases count,
{
    if count <= 0 {
        0
    } else {
        keys_cost(list, count - 1) + list[count - 1].key.spec_label().len()
            + list[count - 1].label.len() + 4
    }
}

/// A footer shows keys from the first on, up to the first that no longer fits.
pub proof fn keys_are_shown_until_one_does_not_fit(
    list: Seq<BindingView>,
    width: nat,
    count: int,
)
    requires
        0 <= count <= list.len(),
    ensures
        ({
            let (shown, used) = keys_that_fit(list, width, count);
            &&& 0 <= shown <= count
            &&& used == keys_cost(list, shown) && used <= width
            &&& shown < count ==> keys_cost(list, shown + 1) > width
        }),
    decreases count,
{
    if count > 0 {
        keys_are_shown_until_one_does_not_fit(list, width, count - 1);
    }
}

} // verus!
