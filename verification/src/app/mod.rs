//! What the terminal application decides and shows.
//!
//! Drawing on a terminal, reading keys and touching the vault are left to the program
//! around the library. Here stands what a key does in each state, and the lines that
//! each page is made of.

use vstd::prelude::*;

pub mod actions;
pub mod cursor;
pub mod images;
pub mod items;
pub mod keymap;
pub mod messages;
pub mod palette;
pub mod session;
pub mod ui;
pub mod util;

verus! {

/// A page of the application.
#[derive(Debug, Clone, Copy, PartialEq, Eq, Structural)]
pub enum Page {
    Library,
    Review,
    Relations,
    Stats,
    Clean,
    Options,
    Archived,
}

impl Page {
    pub open spec fn spec_label(self) -> Seq<char> {
        match self {
            Page::Library => "Library"@,
            Page::Review => "Review"@,
            Page::Relations => "Relations"@,
            Page::Stats => "Stats"@,
            Page::Clean => "Clean"@,
            Page::Options => "Options"@,
            Page::Archived => "Archived"@,
        }
    }

    /// The page's name, as the tab row and the palette print it.
    pub fn label(self) -> (r: &'static str)
        ensures
            r@ == self.spec_label(),
    {
        match self {
            Page::Library => "Library",
            Page::Review => "Review",
            Page::Relations => "Relations",
            Page::Stats => "Stats",
            Page::Clean => "Clean",
            Page::Options => "Options",
            Page::Archived => "Archived",
        }
    }
}

/// What keys mean at the moment.
#[derive(Debug, Clone, Copy, PartialEq, Eq, Structural)]
pub enum Mode {
    Browse,
    Search,
    /// The command palette.
    Palette,
    /// The full key reference.
    Help,
    DeckInput,
    NoteInput,
    VaultInput,
    GitRemoteInput,
    ReviewDeckChoice,
    Review,
}

} // verus!
