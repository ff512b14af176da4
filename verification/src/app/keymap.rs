//! One table of what every key does.
//!
//! The footer prints this table and key handling reads it, so that a key that works is
//! advertised and a key that is advertised works.

use vstd::prelude::*;
use vstd::string::*;

use crate::app::{Mode, Page};
use crate::model::CardContent;

verus! {

// ---------------------------------------------------------------------------
// Keys
// ---------------------------------------------------------------------------

/// The key that was pressed.
#[derive(Debug, Clone, Copy, PartialEq, Eq, Structural)]
pub enum KeyCode {
    Char(char),
    Enter,
    Esc,
    Up,
    Down,
    Left,
    Right,
    Tab,
    BackTab,
    Backspace,
    Other,
}

/// A key that was pressed, and the modifiers that were held.
#[derive(Debug, Clone, Copy, PartialEq, Eq, Structural)]
pub struct KeyPress {
    pub code: KeyCode,
    pub control: bool,
    pub shift: bool,
}

/// A key as the table names it.
#[derive(Debug, Clone, Copy, PartialEq, Eq, Structural)]
pub enum Key {
    Char(char),
    Enter,
    Space,
    Ctrl(char),
}

impl Key {
    pub open spec fn spec_label(self) -> Seq<char> {
        match self {
            Key::Char(c) => seq![c],
            Key::Enter => "⏎"@,
            Key::Space => "space"@,
            Key::Ctrl(c) => seq!['^', c],
        }
    }

    /// The key as the footer prints it.
    pub fn label(self) -> (r: String)
        ensures
            r@ == self.spec_label(),
    {
        match self {
            Key::Char(c) => {
                let mut r = String::new();
                r.push(c);
                assert(r@ == seq![c]);
                r
            },
            Key::Enter => "⏎".to_owned(),
            Key::Space => "space".to_owned(),
            Key::Ctrl(c) => {
                let mut r = String::new();
                r.push('^');
                r.push(c);
                assert(r@ == seq!['^', c]);
                r
            },
        }
    }

    pub open spec fn spec_matches(self, press: KeyPress) -> bool {
        match self {
            Key::Char(c) => !press.control && press.code == KeyCode::Char(c),
            Key::Enter => press.code == KeyCode::Enter,
            Key::Space => !press.control && press.code == KeyCode::Char(' '),
            Key::Ctrl(c) => press.control && press.code == KeyCode::Char(c),
        }
    }

    /// Whether a key press is this key.
    pub fn matches(self, press: KeyPress) -> (r: bool)
        ensures
            r == self.spec_matches(press),
    {
        match self {
            Key::Char(c) => !press.control && press.code == KeyCode::Char(c),
            Key::Enter => press.code == KeyCode::Enter,
            Key::Space => !press.control && press.code == KeyCode::Char(' '),
            Key::Ctrl(c) => press.control && press.code == KeyCode::Char(c),
        }
    }

    /// The press of this key, with no modifier that it does not name.
    pub open spec fn press(self) -> KeyPress {
        match self {
            Key::Char(c) => KeyPress { code: KeyCode::Char(c), control: false, shift: false },
            Key::Enter => KeyPress { code: KeyCode::Enter, control: false, shift: false },
            Key::Space => KeyPress { code: KeyCode::Char(' '), control: false, shift: false },
            Key::Ctrl(c) => KeyPress { code: KeyCode::Char(c), control: true, shift: false },
        }
    }
}

/// What a binding asks the application to do.
///
/// One verb means one thing wherever it appears; only the object changes with the page,
/// and the footer names that object.
#[derive(Debug, Clone, Copy, PartialEq, Eq, Structural)]
pub enum Action {
    Open,
    Edit,
    New,
    Archive,
    Restore,
    Delete,
    Assign,
    Enrol,
    ChooseDeck,
    PreviousDeck,
    NextDeck,
    Decrease,
    Increase,
    Search,
    PlayVideo,
    OpenUrl,
    OpenImage,
    FollowRelations,
    Palette,
    Help,
    Sync,
    Reindex,
    Quit,
}

#[derive(Debug, Clone, Copy)]
pub struct Binding {
    pub key: Key,
    /// What the key does here.
    pub label: &'static str,
    pub action: Action,
}

/// What a [`Binding`] says.
#[verifier::ext_equal]
pub struct BindingView {
    pub key: Key,
    pub label: Seq<char>,
    pub action: Action,
}

impl View for Binding {
    type V = BindingView;

    open spec fn view(&self) -> BindingView {
        BindingView { key: self.key, label: self.label@, action: self.action }
    }
}

pub open spec fn bindings_view(v: Seq<Binding>) -> Seq<BindingView> {
    Seq::new(v.len(), |i: int| v[i]@)
}

// ---------------------------------------------------------------------------
// The table
// ---------------------------------------------------------------------------

/// What is selected, as far as the keys depend on it.
#[derive(Debug, Clone, Copy, PartialEq, Eq, Structural)]
pub enum Selected {
    Nothing,
    Note,
    Section,
    Deck,
    Card,
    Image,
}

/// What a section carries that a key can open.
#[derive(Debug, Clone, Copy, PartialEq, Eq, Structural)]
pub struct Media {
    pub video: bool,
    pub url: bool,
    pub image: bool,
}

/// What the keys of a page depend on.
#[derive(Debug, Clone, Copy, PartialEq, Eq, Structural)]
pub struct Context {
    pub page: Page,
    pub selected: Selected,
    /// What the selected section carries.
    pub media: Media,
    /// Whether the selected option is adjusted in place.
    pub adjustable: bool,
}

pub open spec fn bound(key: Key, label: Seq<char>, action: Action) -> BindingView {
    BindingView { key, label, action }
}

/// A list of one binding, or of none.
pub open spec fn when(given: bool, binding: BindingView) -> Seq<BindingView> {
    if given {
        seq![binding]
    } else {
        Seq::empty()
    }
}

pub open spec fn library_table(c: Context) -> Seq<BindingView> {
    let listed = c.selected is Note || c.selected is Section;
    seq![
        bound(Key::Enter, "open"@, Action::Open),
        bound(Key::Char('n'), "new note"@, Action::New),
    ] + when(c.media.video, bound(Key::Char('v'), "play clip"@, Action::PlayVideo)) + when(
        c.media.url,
        bound(Key::Char('o'), "open url"@, Action::OpenUrl),
    ) + when(c.media.image, bound(Key::Char('i'), "open image"@, Action::OpenImage)) + when(
        listed,
        bound(Key::Char('g'), "relations"@, Action::FollowRelations),
    ) + when(listed, bound(Key::Char('x'), "archive"@, Action::Archive))
}

pub open spec fn review_table(c: Context) -> Seq<BindingView> {
    let item = match c.selected {
        Selected::Section => seq![
            bound(Key::Space, "enrol"@, Action::Enrol),
            bound(Key::Enter, "open"@, Action::Open),
            bound(Key::Char('x'), "archive"@, Action::Archive),
        ],
        Selected::Deck => seq![
            bound(Key::Enter, "make active"@, Action::Open),
            bound(Key::Char('x'), "archive"@, Action::Archive),
        ],
        Selected::Card => seq![
            bound(Key::Enter, "review now"@, Action::Open),
            bound(Key::Char('a'), "assign to deck"@, Action::Assign),
            bound(Key::Char('x'), "archive"@, Action::Archive),
        ],
        _ => Seq::empty(),
    };
    seq![bound(Key::Char('r'), "start review"@, Action::ChooseDeck)] + item + seq![
        bound(Key::Char('n'), "new deck"@, Action::New),
        bound(Key::Char('['), "previous deck"@, Action::PreviousDeck),
        bound(Key::Char(']'), "next deck"@, Action::NextDeck),
    ]
}

pub open spec fn clean_table(c: Context) -> Seq<BindingView> {
    match c.selected {
        Selected::Note => seq![
            bound(Key::Enter, "open"@, Action::Open),
            bound(Key::Char('x'), "archive"@, Action::Archive),
        ],
        Selected::Card => seq![
            bound(Key::Char('a'), "assign to deck"@, Action::Assign),
            bound(Key::Enter, "review"@, Action::Open),
            bound(Key::Char('x'), "archive"@, Action::Archive),
        ],
        Selected::Image => seq![
            bound(Key::Enter, "open"@, Action::Open),
            bound(Key::Char('d'), "delete file"@, Action::Delete),
        ],
        _ => Seq::empty(),
    }
}

pub open spec fn options_table(c: Context) -> Seq<BindingView> {
    if c.adjustable {
        seq![
            bound(Key::Char('h'), "decrease"@, Action::Decrease),
            bound(Key::Char('l'), "increase"@, Action::Increase),
        ]
    } else {
        seq![bound(Key::Enter, "run"@, Action::Open)]
    }
}

pub open spec fn page_table(c: Context) -> Seq<BindingView> {
    match c.page {
        Page::Library => library_table(c),
        Page::Review => review_table(c),
        Page::Relations => seq![
            bound(Key::Enter, "follow"@, Action::Open),
            bound(Key::Char('e'), "edit"@, Action::Edit),
        ],
        Page::Stats => Seq::empty(),
        Page::Clean => clean_table(c),
        Page::Options => options_table(c),
        Page::Archived => seq![
            bound(Key::Char('u'), "restore"@, Action::Restore),
            bound(Key::Enter, "open"@, Action::Open),
        ],
    }
}

/// What works on every page.
pub open spec fn global_table() -> Seq<BindingView> {
    seq![
        bound(Key::Char('/'), "search"@, Action::Search),
        bound(Key::Ctrl('k'), "commands"@, Action::Palette),
        bound(Key::Ctrl('s'), "sync"@, Action::Sync),
        bound(Key::Char('R'), "reindex"@, Action::Reindex),
        bound(Key::Char('?'), "help"@, Action::Help),
        bound(Key::Char('q'), "quit"@, Action::Quit),
    ]
}

/// The bindings of a page, most useful first. What works everywhere comes last, so that a
/// page's own keys win the width of the footer.
pub open spec fn table(c: Context) -> Seq<BindingView> {
    page_table(c) + global_table()
}

fn add(list: &mut Vec<Binding>, key: Key, label: &'static str, action: Action)
    ensures
        bindings_view(final(list)@) == bindings_view(old(list)@).push(bound(key, label@, action)),
{
    let ghost before = bindings_view(list@);
    list.push(Binding { key, label, action });
    assert(bindings_view(list@) == before.push(bound(key, label@, action)));
}

fn library_bindings(c: Context) -> (r: Vec<Binding>)
    ensures
        bindings_view(r@) == library_table(c),
{
    let mut r: Vec<Binding> = Vec::new();
    assert(bindings_view(r@) == Seq::<BindingView>::empty());
    self::add(&mut r, Key::Enter, "open", Action::Open);
    self::add(&mut r, Key::Char('n'), "new note", Action::New);
    if c.media.video {
        self::add(&mut r, Key::Char('v'), "play clip", Action::PlayVideo);
    }
    if c.media.url {
        self::add(&mut r, Key::Char('o'), "open url", Action::OpenUrl);
    }
    if c.media.image {
        self::add(&mut r, Key::Char('i'), "open image", Action::OpenImage);
    }
    if c.selected == Selected::Note || c.selected == Selected::Section {
        self::add(&mut r, Key::Char('g'), "relations", Action::FollowRelations);
        self::add(&mut r, Key::Char('x'), "archive", Action::Archive);
    }
    assert(bindings_view(r@) == library_table(c));
    r
}

fn review_bindings(c: Context) -> (r: Vec<Binding>)
    ensures
        bindings_view(r@) == review_table(c),
{
    let mut r: Vec<Binding> = Vec::new();
    assert(bindings_view(r@) == Seq::<BindingView>::empty());
    self::add(&mut r, Key::Char('r'), "start review", Action::ChooseDeck);
    match c.selected {
        Selected::Section => {
            self::add(&mut r, Key::Space, "enrol", Action::Enrol);
            self::add(&mut r, Key::Enter, "open", Action::Open);
            self::add(&mut r, Key::Char('x'), "archive", Action::Archive);
        },
        Selected::Deck => {
            self::add(&mut r, Key::Enter, "make active", Action::Open);
            self::add(&mut r, Key::Char('x'), "archive", Action::Archive);
        },
        Selected::Card => {
            self::add(&mut r, Key::Enter, "review now", Action::Open);
            self::add(&mut r, Key::Char('a'), "assign to deck", Action::Assign);
            self::add(&mut r, Key::Char('x'), "archive", Action::Archive);
        },
        _ => {},
    }
    self::add(&mut r, Key::Char('n'), "new deck", Action::New);
    self::add(&mut r, Key::Char('['), "previous deck", Action::PreviousDeck);
    self::add(&mut r, Key::Char(']'), "next deck", Action::NextDeck);
    assert(bindings_view(r@) == review_table(c));
    r
}

fn clean_bindings(c: Context) -> (r: Vec<Binding>)
    ensures
        bindings_view(r@) == clean_table(c),
{
    let mut r: Vec<Binding> = Vec::new();
    assert(bindings_view(r@) == Seq::<BindingView>::empty());
    match c.selected {
        Selected::Note => {
            self::add(&mut r, Key::Enter, "open", Action::Open);
            self::add(&mut r, Key::Char('x'), "archive", Action::Archive);
        },
        Selected::Card => {
            self::add(&mut r, Key::Char('a'), "assign to deck", Action::Assign);
            self::add(&mut r, Key::Enter, "review", Action::Open);
            self::add(&mut r, Key::Char('x'), "archive", Action::Archive);
        },
        Selected::Image => {
            self::add(&mut r, Key::Enter, "open", Action::Open);
            self::add(&mut r, Key::Char('d'), "delete file", Action::Delete);
        },
        _ => {},
    }
    assert(bindings_view(r@) == clean_table(c));
    r
}

fn options_bindings(c: Context) -> (r: Vec<Binding>)
    ensures
        bindings_view(r@) == options_table(c),
{
    let mut r: Vec<Binding> = Vec::new();
    assert(bindings_view(r@) == Seq::<BindingView>::empty());
    if c.adjustable {
        self::add(&mut r, Key::Char('h'), "decrease", Action::Decrease);
        self::add(&mut r, Key::Char('l'), "increase", Action::Increase);
    } else {
        self::add(&mut r, Key::Enter, "run", Action::Open);
    }
    assert(bindings_view(r@) == options_table(c));
    r
}

fn add_global(list: &mut Vec<Binding>)
    ensures
        bindings_view(final(list)@) == bindings_view(old(list)@) + global_table(),
{
    let ghost before = bindings_view(list@);
    self::add(list, Key::Char('/'), "search", Action::Search);
    self::add(list, Key::Ctrl('k'), "commands", Action::Palette);
    self::add(list, Key::Ctrl('s'), "sync", Action::Sync);
    self::add(list, Key::Char('R'), "reindex", Action::Reindex);
    self::add(list, Key::Char('?'), "help", Action::Help);
    self::add(list, Key::Char('q'), "quit", Action::Quit);
    assert(bindings_view(list@) == before + global_table());
}

/// The bindings of the page, most useful first.
pub fn bindings(c: Context) -> (r: Vec<Binding>)
    ensures
        bindings_view(r@) == table(c),
{
    let mut r: Vec<Binding> = match c.page {
        Page::Library => library_bindings(c),
        Page::Review => review_bindings(c),
        Page::Relations => {
            let mut list: Vec<Binding> = Vec::new();
            assert(bindings_view(list@) == Seq::<BindingView>::empty());
            self::add(&mut list, Key::Enter, "follow", Action::Open);
            self::add(&mut list, Key::Char('e'), "edit", Action::Edit);
            assert(bindings_view(list@) == page_table(c));
            list
        },
        Page::Stats => {
            let list: Vec<Binding> = Vec::new();
            assert(bindings_view(list@) == Seq::<BindingView>::empty());
            list
        },
        Page::Clean => clean_bindings(c),
        Page::Options => options_bindings(c),
        Page::Archived => {
            let mut list: Vec<Binding> = Vec::new();
            assert(bindings_view(list@) == Seq::<BindingView>::empty());
            self::add(&mut list, Key::Char('u'), "restore", Action::Restore);
            self::add(&mut list, Key::Enter, "open", Action::Open);
            assert(bindings_view(list@) == page_table(c));
            list
        },
    };
    assert(bindings_view(r@) == page_table(c));
    add_global(&mut r);
    r
}

// ---------------------------------------------------------------------------
// Other keys
// ---------------------------------------------------------------------------

pub open spec fn motion(press: KeyPress) -> bool {
    !press.control && !press.shift && (press.code == KeyCode::Char('j') || press.code
        == KeyCode::Char('k') || press.code == KeyCode::Down || press.code == KeyCode::Up)
}

/// Whether a key moves in a list. Every list honours these, so the footer does not print
/// them.
pub fn is_motion(press: KeyPress) -> (r: bool)
    ensures
        r == motion(press),
{
    !press.control && !press.shift && (press.code == KeyCode::Char('j') || press.code
        == KeyCode::Char('k') || press.code == KeyCode::Down || press.code == KeyCode::Up)
}

pub open spec fn tab_of(c: char) -> Option<Page> {
    if c == '1' {
        Some(Page::Library)
    } else if c == '2' {
        Some(Page::Review)
    } else if c == '3' {
        Some(Page::Relations)
    } else if c == '4' {
        Some(Page::Stats)
    } else {
        None
    }
}

/// The page that a digit selects.
pub fn tab_for(c: char) -> (r: Option<Page>)
    ensures
        r == tab_of(c),
{
    if c == '1' {
        Some(Page::Library)
    } else if c == '2' {
        Some(Page::Review)
    } else if c == '3' {
        Some(Page::Relations)
    } else if c == '4' {
        Some(Page::Stats)
    } else {
        None
    }
}

pub open spec fn prompt_hint_of(mode: Mode) -> Option<Seq<char>> {
    match mode {
        Mode::DeckInput | Mode::NoteInput | Mode::VaultInput | Mode::GitRemoteInput => Some(
            "⏎ confirm   esc cancel"@,
        ),
        Mode::Search => Some("⏎ open   esc back"@),
        Mode::Palette => Some("⏎ run   esc close"@),
        Mode::Help => Some("any key closes"@),
        _ => None,
    }
}

/// What the footer says while something is typed.
pub fn prompt_hint(mode: Mode) -> (r: Option<&'static str>)
    ensures
        crate::text::opt_str_view(r) == prompt_hint_of(mode),
{
    match mode {
        Mode::DeckInput | Mode::NoteInput | Mode::VaultInput | Mode::GitRemoteInput => Some(
            "⏎ confirm   esc cancel",
        ),
        Mode::Search => Some("⏎ open   esc back"),
        Mode::Palette => Some("⏎ run   esc close"),
        Mode::Help => Some("any key closes"),
        _ => None,
    }
}

/// A direction in which focus moves between panes.
#[derive(Debug, Clone, Copy, PartialEq, Eq, Structural)]
pub enum Direction {
    Left,
    Right,
    Up,
    Down,
}

pub open spec fn direction_of(press: KeyPress) -> Option<Direction> {
    if !press.shift {
        None
    } else {
        match press.code {
            KeyCode::Char('h') | KeyCode::Char('H') => Some(Direction::Left),
            KeyCode::Char('l') | KeyCode::Char('L') => Some(Direction::Right),
            KeyCode::Char('j') | KeyCode::Char('J') => Some(Direction::Down),
            KeyCode::Char('k') | KeyCode::Char('K') => Some(Direction::Up),
            _ => None,
        }
    }
}

/// Where a key with shift held moves the focus.
pub fn shifted_panel_direction(press: KeyPress) -> (r: Option<Direction>)
    ensures
        r == direction_of(press),
{
    if !press.shift {
        return None;
    }
    match press.code {
        KeyCode::Char('h') | KeyCode::Char('H') => Some(Direction::Left),
        KeyCode::Char('l') | KeyCode::Char('L') => Some(Direction::Right),
        KeyCode::Char('j') | KeyCode::Char('J') => Some(Direction::Down),
        KeyCode::Char('k') | KeyCode::Char('K') => Some(Direction::Up),
        _ => None,
    }
}

/// A key and what it does, as the footer prints them.
pub type KeyHint = (&'static str, &'static str);

pub open spec fn hints_view(v: Seq<KeyHint>) -> Seq<(Seq<char>, Seq<char>)> {
    Seq::new(v.len(), |i: int| (v[i].0@, v[i].1@))
}

/// What the footer prints while a card is reviewed.
pub open spec fn session_hints(
    card: Option<CardContent>,
    revealed: bool,
    has_clip: bool,
) -> Seq<(Seq<char>, Seq<char>)> {
    let first = if revealed {
        seq![("1-4"@, "rate"@)]
    } else {
        match card {
            Some(CardContent::MultipleChoice { .. }) => seq![
                ("j k"@, "move"@),
                ("space"@, "select"@),
                ("⏎"@, "submit"@),
            ],
            Some(CardContent::CodeGap { .. }) => seq![
                ("type"@, "fill the gap"@),
                ("tab"@, "next gap"@),
                ("⏎"@, "check"@),
            ],
            Some(_) => seq![("space"@, "reveal"@)],
            None => seq![("⏎"@, "finish"@)],
        }
    };
    let clip = if has_clip {
        seq![("v"@, "play clip"@)]
    } else {
        Seq::empty()
    };
    first + clip + seq![("esc"@, "end session"@)]
}

fn hint(list: &mut Vec<KeyHint>, key: &'static str, label: &'static str)
    ensures
        hints_view(final(list)@) == hints_view(old(list)@).push((key@, label@)),
{
    let ghost before = hints_view(list@);
    list.push((key, label));
    assert(hints_view(list@) == before.push((key@, label@)));
}

/// The keys of a review session. What they are depends on the card: `space` reveals a
/// cloze but selects an answer of a multiple choice, and a code gap wants text.
pub fn review_session_bindings(
    card: Option<&CardContent>,
    revealed: bool,
    has_clip: bool,
) -> (r: Vec<KeyHint>)
    ensures
        hints_view(r@) == session_hints(
            match card {
                Some(c) => Some(*c),
                None => None,
            },
            revealed,
            has_clip,
        ),
{
    let mut r: Vec<KeyHint> = Vec::new();
    assert(hints_view(r@) == Seq::<(Seq<char>, Seq<char>)>::empty());
    if revealed {
        hint(&mut r, "1-4", "rate");
    } else {
        match card {
            Some(CardContent::MultipleChoice { .. }) => {
                hint(&mut r, "j k", "move");
                hint(&mut r, "space", "select");
                hint(&mut r, "⏎", "submit");
            },
            Some(CardContent::CodeGap { .. }) => {
                hint(&mut r, "type", "fill the gap");
                hint(&mut r, "tab", "next gap");
                hint(&mut r, "⏎", "check");
            },
            Some(_) => {
                hint(&mut r, "space", "reveal");
            },
            None => {
                hint(&mut r, "⏎", "finish");
            },
        }
    }
    if has_clip {
        hint(&mut r, "v", "play clip");
    }
    hint(&mut r, "esc", "end session");
    assert(hints_view(r@) == session_hints(
        match card {
            Some(c) => Some(*c),
            None => None,
        },
        revealed,
        has_clip,
    ));
    r
}

// ---------------------------------------------------------------------------
// Dispatch
// ---------------------------------------------------------------------------

/// What a key comes to while browsing.
#[derive(Debug, Clone, Copy, PartialEq, Eq, Structural)]
pub enum Resolved {
    Nothing,
    GoTo(Page),
    /// Leave a page that has no tab.
    Leave,
    Move(bool),
    Adjust(bool),
    Run(Action),
}

pub open spec fn has_tab(page: Page) -> bool {
    page == Page::Library || page == Page::Review || page == Page::Relations || page == Page::Stats
}

/// The action of the first binding that a key matches.
pub open spec fn first_match(list: Seq<BindingView>, press: KeyPress) -> Option<Action>
    decreases list.len(),
{
    if list.len() == 0 {
        None
    } else {
        match first_match(list.drop_last(), press) {
            Some(action) => Some(action),
            None => if list.last().key.spec_matches(press) {
                Some(list.last().action)
            } else {
                None
            },
        }
    }
}

/// The page whose tab a key selects.
pub open spec fn tab_press(press: KeyPress) -> Option<Page> {
    match press.code {
        KeyCode::Char(c) => if press.control {
            None
        } else {
            tab_of(c)
        },
        _ => None,
    }
}

/// What a key comes to while browsing.
pub open spec fn resolved(c: Context, press: KeyPress) -> Resolved {
    if tab_press(press) is Some {
        Resolved::GoTo(tab_press(press)->0)
    } else if press.code == KeyCode::Esc {
        if has_tab(c.page) {
            Resolved::Nothing
        } else {
            Resolved::Leave
        }
    } else if motion(press) {
        Resolved::Move(press.code == KeyCode::Char('j') || press.code == KeyCode::Down)
    } else if c.page == Page::Options && c.adjustable && (press.code == KeyCode::Left
        || press.code == KeyCode::Right) {
        Resolved::Adjust(press.code == KeyCode::Right)
    } else {
        match first_match(table(c), press) {
            Some(action) => Resolved::Run(action),
            None => Resolved::Nothing,
        }
    }
}

/// Finds out what a key comes to while browsing. Motions and tab digits work on every page;
/// everything else comes from the table.
pub fn resolve(c: Context, press: KeyPress) -> (r: Resolved)
    ensures
        r == resolved(c, press),
{
    let tab = match press.code {
        KeyCode::Char(digit) => if press.control {
            None
        } else {
            tab_for(digit)
        },
        _ => None,
    };
    if let Some(page) = tab {
        return Resolved::GoTo(page);
    }
    if press.code == KeyCode::Esc {
        return if c.page == Page::Library || c.page == Page::Review || c.page == Page::Relations
            || c.page == Page::Stats {
            Resolved::Nothing
        } else {
            Resolved::Leave
        };
    }
    if is_motion(press) {
        return Resolved::Move(press.code == KeyCode::Char('j') || press.code == KeyCode::Down);
    }
    if c.page == Page::Options && c.adjustable && (press.code == KeyCode::Left || press.code
        == KeyCode::Right) {
        return Resolved::Adjust(press.code == KeyCode::Right);
    }
    let list = bindings(c);
    let ghost views = table(c);
    let mut found: Option<Action> = None;
    let mut i: usize = 0;
    assert(views.take(0) == Seq::<BindingView>::empty());
    while i < list.len()
        invariant
            0 <= i <= list.len(),
            views == bindings_view(list@),
            found == first_match(views.take(i as int), press),
        decreases list.len() - i,
    {
        assert(views.take(i + 1).drop_last() == views.take(i as int));
        assert(views.take(i + 1).last() == list@[i as int]@);
        if found.is_none() && list[i].key.matches(press) {
            found = Some(list[i].action);
        }
        i += 1;
    }
    assert(views.take(list.len() as int) == views);
    match found {
        Some(action) => Resolved::Run(action),
        None => Resolved::Nothing,
    }
}

// ---------------------------------------------------------------------------
// Laws
// ---------------------------------------------------------------------------

/// A place for each key that a page binds, in the order in which they are listed.
spec fn place(page: Page, key: Key) -> int {
    match key {
        Key::Char('/') => 20,
        Key::Ctrl('k') => 21,
        Key::Ctrl('s') => 22,
        Key::Char('R') => 23,
        Key::Char('?') => 24,
        Key::Char('q') => 25,
        Key::Char('r') => 0,
        Key::Space => 1,
        Key::Char('u') => 2,
        Key::Char('h') => 2,
        Key::Enter => if page == Page::Clean {
            6
        } else {
            3
        },
        Key::Char('e') => 4,
        Key::Char('l') => 4,
        Key::Char('a') => 5,
        Key::Char('d') => 7,
        Key::Char('n') => if page == Page::Library {
            4
        } else {
            14
        },
        Key::Char('v') => 5,
        Key::Char('o') => 6,
        Key::Char('i') => 7,
        Key::Char('g') => 8,
        Key::Char('x') => 13,
        Key::Char('[') => 15,
        Key::Char(']') => 16,
        _ => 30,
    }
}

/// Whether bindings are listed by their places, and these lie in a range.
spec fn placed(list: Seq<BindingView>, page: Page, lo: int, hi: int) -> bool {
    &&& forall|i: int| 0 <= i < list.len() ==> lo <= place(page, (#[trigger] list[i]).key) < hi
    &&& forall|i: int, j: int|
        0 <= i < j < list.len() ==> place(page, (#[trigger] list[i]).key) < place(
            page,
            (#[trigger] list[j]).key,
        )
}

proof fn lemma_placed_add(
    a: Seq<BindingView>,
    b: Seq<BindingView>,
    page: Page,
    lo: int,
    mid: int,
    hi: int,
)
    requires
        placed(a, page, lo, mid),
        placed(b, page, mid, hi),
        lo <= mid <= hi,
    ensures
        placed(a + b, page, lo, hi),
{
    let all = a + b;
    assert forall|i: int| 0 <= i < all.len() implies lo <= place(page, (#[trigger] all[i]).key)
        < hi by {
        if i < a.len() {
            assert(all[i] == a[i]);
        } else {
            assert(all[i] == b[i - a.len()]);
        }
    }
    assert forall|i: int, j: int| 0 <= i < j < all.len() implies place(
        page,
        (#[trigger] all[i]).key,
    ) < place(page, (#[trigger] all[j]).key) by {
        if j < a.len() {
            assert(all[i] == a[i] && all[j] == a[j]);
        } else if i >= a.len() {
            assert(all[i] == b[i - a.len()] && all[j] == b[j - a.len()]);
        } else {
            assert(all[i] == a[i] && all[j] == b[j - a.len()]);
        }
    }
}

proof fn lemma_placed(c: Context)
    ensures
        placed(table(c), c.page, 0, 26),
{
    let page = c.page;
    match page {
        Page::Library => {
            let a = seq![
                bound(Key::Enter, "open"@, Action::Open),
                bound(Key::Char('n'), "new note"@, Action::New),
            ];
            assert(placed(a, page, 0, 5));
            let listed = c.selected is Note || c.selected is Section;
            let v = when(c.media.video, bound(Key::Char('v'), "play clip"@, Action::PlayVideo));
            let o = when(c.media.url, bound(Key::Char('o'), "open url"@, Action::OpenUrl));
            let i = when(c.media.image, bound(Key::Char('i'), "open image"@, Action::OpenImage));
            let g = when(
                listed,
                bound(Key::Char('g'), "relations"@, Action::FollowRelations),
            );
            let x = when(listed, bound(Key::Char('x'), "archive"@, Action::Archive));
            lemma_placed_add(a, v, page, 0, 5, 6);
            lemma_placed_add(a + v, o, page, 0, 6, 7);
            lemma_placed_add(a + v + o, i, page, 0, 7, 8);
            lemma_placed_add(a + v + o + i, g, page, 0, 8, 9);
            lemma_placed_add(a + v + o + i + g, x, page, 0, 9, 20);
        },
        Page::Review => {
            let a = seq![bound(Key::Char('r'), "start review"@, Action::ChooseDeck)];
            assert(placed(a, page, 0, 1));
            let z = seq![
                bound(Key::Char('n'), "new deck"@, Action::New),
                bound(Key::Char('['), "previous deck"@, Action::PreviousDeck),
                bound(Key::Char(']'), "next deck"@, Action::NextDeck),
            ];
            assert(placed(z, page, 14, 20));
            let m = match c.selected {
                Selected::Section => seq![
                    bound(Key::Space, "enrol"@, Action::Enrol),
                    bound(Key::Enter, "open"@, Action::Open),
                    bound(Key::Char('x'), "archive"@, Action::Archive),
                ],
                Selected::Deck => seq![
                    bound(Key::Enter, "make active"@, Action::Open),
                    bound(Key::Char('x'), "archive"@, Action::Archive),
                ],
                Selected::Card => seq![
                    bound(Key::Enter, "review now"@, Action::Open),
                    bound(Key::Char('a'), "assign to deck"@, Action::Assign),
                    bound(Key::Char('x'), "archive"@, Action::Archive),
                ],
                _ => Seq::empty(),
            };
            assert(placed(m, page, 1, 14));
            lemma_placed_add(a, m, page, 0, 1, 14);
            lemma_placed_add(a + m, z, page, 0, 14, 20);
        },
        _ => {
            assert(placed(page_table(c), page, 0, 20));
        },
    }
    assert(placed(global_table(), page, 20, 26));
    lemma_placed_add(page_table(c), global_table(), page, 0, 20, 26);
}

/// No page binds one key twice: the first binding would win while the second was still
/// advertised.
pub proof fn no_page_binds_one_key_twice(c: Context, i: int, j: int)
    requires
        0 <= i < j < table(c).len(),
    ensures
        table(c)[i].key != table(c)[j].key,
{
    lemma_placed(c);
}

/// Whether a key may stand in the table: none that moves, selects a tab or leaves a page.
spec fn is_free(key: Key) -> bool {
    &&& tab_press(key.press()) is None
    &&& !motion(key.press())
    &&& key.press().code != KeyCode::Esc
    &&& key != Key::Char(' ')
}

proof fn lemma_keys_free(c: Context, i: int)
    requires
        0 <= i < table(c).len(),
    ensures
        is_free(table(c)[i].key),
        table(c)[i].key.press().code != KeyCode::Left,
        table(c)[i].key.press().code != KeyCode::Right,
{
    let all = table(c);
    let page = page_table(c);
    lemma_placed(c);
    assert(place(c.page, all[i].key) < 26);
}

proof fn lemma_first_match(list: Seq<BindingView>, press: KeyPress, i: int)
    requires
        0 <= i < list.len(),
        list[i].key.spec_matches(press),
        forall|j: int| 0 <= j < i ==> !(#[trigger] list[j]).key.spec_matches(press),
    ensures
        first_match(list, press) == Some(list[i].action),
    decreases list.len(),
{
    if i < list.len() - 1 {
        lemma_first_match(list.drop_last(), press, i);
    } else {
        lemma_no_match(list.drop_last(), press);
    }
}

proof fn lemma_no_match(list: Seq<BindingView>, press: KeyPress)
    requires
        forall|j: int| 0 <= j < list.len() ==> !(#[trigger] list[j]).key.spec_matches(press),
    ensures
        first_match(list, press) is None,
    decreases list.len(),
{
    if list.len() > 0 {
        assert(!list[list.len() - 1].key.spec_matches(press));
        lemma_no_match(list.drop_last(), press);
    }
}

/// A key that is advertised works: pressing it runs the action that the footer names.
pub proof fn every_advertised_binding_is_dispatchable(c: Context, i: int)
    requires
        0 <= i < table(c).len(),
    ensures
        table(c)[i].key.spec_matches(table(c)[i].key.press()),
        resolved(c, table(c)[i].key.press()) == Resolved::Run(table(c)[i].action),
{
    let list = table(c);
    let press = list[i].key.press();
    lemma_keys_free(c, i);
    assert forall|j: int| 0 <= j < i implies !(#[trigger] list[j]).key.spec_matches(press) by {
        no_page_binds_one_key_twice(c, j, i);
        lemma_keys_free(c, j);
    }
    lemma_first_match(list, press, i);
}

proof fn lemma_match_listed(list: Seq<BindingView>, press: KeyPress)
    ensures
        first_match(list, press) matches Some(action) ==> exists|i: int|
            0 <= i < list.len() && (#[trigger] list[i]).key.spec_matches(press) && list[i].action
                == action,
    decreases list.len(),
{
    if list.len() > 0 {
        let rest = list.drop_last();
        lemma_match_listed(rest, press);
        if first_match(rest, press) is Some {
            let action = first_match(rest, press)->0;
            let i = choose|i: int|
                0 <= i < rest.len() && (#[trigger] rest[i]).key.spec_matches(press)
                    && rest[i].action == action;
            assert(list[i] == rest[i]);
        } else if list.last().key.spec_matches(press) {
            assert(list[list.len() - 1] == list.last());
        }
    }
}

/// A key that works is advertised: an action that a key runs stands in the table under a
/// key that it matches.
pub proof fn every_dispatched_action_is_advertised(c: Context, press: KeyPress)
    requires
        resolved(c, press) is Run,
    ensures
        exists|i: int|
            0 <= i < table(c).len() && (#[trigger] table(c)[i]).key.spec_matches(press)
                && resolved(c, press) == Resolved::Run(table(c)[i].action),
{
    lemma_match_listed(table(c), press);
}

/// The keys that open media are advertised only where the selection carries media.
pub proof fn media_keys_appear_only_with_media(c: Context, i: int)
    requires
        0 <= i < table(c).len(),
    ensures
        table(c)[i].action == Action::PlayVideo ==> c.page == Page::Library && c.media.video,
        table(c)[i].action == Action::OpenUrl ==> c.page == Page::Library && c.media.url,
        table(c)[i].action == Action::OpenImage ==> c.page == Page::Library && c.media.image,
{
    let page = page_table(c);
    if i < page.len() {
        assert(table(c)[i] == page[i]);
    } else {
        assert(table(c)[i] == global_table()[i - page.len()]);
    }
}

/// A shifted letter moves the focus: `h` left, `j` down, `k` up and `l` right, in either case
/// of the letter. Nothing else does.
pub proof fn shifted_letters_move_the_focus(press: KeyPress)
    ensures
        !press.shift ==> direction_of(press) is None,
        press.shift ==> {
            let code = press.code;
            let d = direction_of(press);
            &&& d == Some(Direction::Left) <==> code == KeyCode::Char('h') || code == KeyCode::Char(
                'H',
            )
            &&& d == Some(Direction::Down) <==> code == KeyCode::Char('j') || code == KeyCode::Char(
                'J',
            )
            &&& d == Some(Direction::Up) <==> code == KeyCode::Char('k') || code == KeyCode::Char(
                'K',
            )
            &&& d == Some(Direction::Right) <==> code == KeyCode::Char('l') || code
                == KeyCode::Char('L')
        },
{
}

/// `j` and the down arrow move on, and `k` and the up arrow back, on every page.
pub proof fn letters_and_arrows_move(c: Context)
    ensures
        resolved(c, KeyPress { code: KeyCode::Char('j'), control: false, shift: false })
            == Resolved::Move(true),
        resolved(c, KeyPress { code: KeyCode::Down, control: false, shift: false })
            == Resolved::Move(true),
        resolved(c, KeyPress { code: KeyCode::Char('k'), control: false, shift: false })
            == Resolved::Move(false),
        resolved(c, KeyPress { code: KeyCode::Up, control: false, shift: false })
            == Resolved::Move(false),
        c.page == Page::Options && c.adjustable ==> resolved(
            c,
            KeyPress { code: KeyCode::Right, control: false, shift: false },
        ) == Resolved::Adjust(true) && resolved(
            c,
            KeyPress { code: KeyCode::Left, control: false, shift: false },
        ) == Resolved::Adjust(false),
{
}

/// The binding that a key runs is the first that it matches.
pub proof fn the_first_binding_that_matches_runs(list: Seq<BindingView>, press: KeyPress)
    ensures
        match first_match(list, press) {
            Some(action) => exists|i: int|
                0 <= i < list.len() && (#[trigger] list[i]).key.spec_matches(press)
                    && list[i].action == action && forall|j: int|
                    0 <= j < i ==> !(#[trigger] list[j]).key.spec_matches(press),
            None => forall|i: int|
                0 <= i < list.len() ==> !(#[trigger] list[i]).key.spec_matches(press),
        },
    decreases list.len(),
{
    if list.len() > 0 {
        let rest = list.drop_last();
        the_first_binding_that_matches_runs(rest, press);
        match first_match(rest, press) {
            Some(action) => {
                let i = choose|i: int|
                    0 <= i < rest.len() && (#[trigger] rest[i]).key.spec_matches(press)
                        && rest[i].action == action && forall|j: int|
                        0 <= j < i ==> !(#[trigger] rest[j]).key.spec_matches(press);
                assert(list[i] == rest[i]);
                assert forall|j: int| 0 <= j < i implies !(
                #[trigger] list[j]).key.spec_matches(press) by {
                    assert(rest[j] == list[j]);
                }
            },
            None => {
                assert forall|j: int| 0 <= j < list.len() - 1 implies !(
                #[trigger] list[j]).key.spec_matches(press) by {
                    assert(rest[j] == list[j]);
                }
                assert(list[list.len() - 1] == list.last());
            },
        }
    }
}

} // verus!
