//! What an index of the vault has to change, and what it answers.
//!
//! The rows themselves live in a database, which the program around the library
//! reads and writes. Here stands which rows change when a note does, and what follows
//! from the rows that were read.

use vstd::prelude::*;
use vstd::string::*;

use crate::model::{
    clone_text, CardDefinition, ContradictionPair, GraphLink, ParsedNote, ParsedSection,
    RelationRow,
};
use crate::outside::{blake3_hex, hash_bytes, json_array, write_json_array};
use crate::quiz::holds;
use crate::search::{expression, expression_of, Mode};
use crate::text::{
    opt_str_view, opt_view, text_before, text_comes_before, text_eq, texts, to_chars, trim, trimmed,
};

verus! {

/// What the index holds, archived rows left out.
#[derive(Debug, Clone, Copy, PartialEq, Eq, Structural)]
pub struct Counts {
    pub documents: usize,
    pub sections: usize,
    pub relations: usize,
}

impl Default for Counts {
    fn default() -> (r: Self)
        ensures
            r == (Counts { documents: 0, sections: 0, relations: 0 }),
    {
        Counts { documents: 0, sections: 0, relations: 0 }
    }
}

/// What indexing a vault came to.
#[derive(Debug, Clone, Copy, PartialEq, Eq, Structural)]
pub struct IndexSummary {
    pub indexed: usize,
    pub unchanged: usize,
    pub removed: usize,
    pub failed: usize,
    pub diagnostics: usize,
}

impl Default for IndexSummary {
    fn default() -> (r: Self)
        ensures
            r == (IndexSummary { indexed: 0, unchanged: 0, removed: 0, failed: 0, diagnostics: 0 }),
    {
        IndexSummary { indexed: 0, unchanged: 0, removed: 0, failed: 0, diagnostics: 0 }
    }
}

/// What became of one file.
#[derive(Debug, Clone, Copy, PartialEq, Eq, Structural)]
pub enum FileOutcome {
    /// The stored hash is the hash of the file.
    Unchanged,
    /// The note was stored, with this many diagnostics.
    Indexed(usize),
    /// The note could not be read.
    Failed,
    /// The file is gone.
    Removed,
}

/// Adds up what became of the files.
pub open spec fn summary_of(outcomes: Seq<FileOutcome>) -> (int, int, int, int, int)
    decreases outcomes.len(),
{
    if outcomes.len() == 0 {
        (0, 0, 0, 0, 0)
    } else {
        let (indexed, unchanged, removed, failed, diagnostics) = summary_of(outcomes.drop_last());
        match outcomes.last() {
            FileOutcome::Unchanged => (indexed, unchanged + 1, removed, failed, diagnostics),
            FileOutcome::Indexed(n) => (indexed + 1, unchanged, removed, failed, diagnostics + n),
            FileOutcome::Failed => (indexed, unchanged, removed, failed + 1, diagnostics),
            FileOutcome::Removed => (indexed, unchanged, removed + 1, failed, diagnostics),
        }
    }
}

/// Sums up an index run; `None` where the diagnostics are too many to count.
pub fn summarise(outcomes: &Vec<FileOutcome>) -> (r: Option<IndexSummary>)
    ensures
        match r {
            Some(s) => summary_of(outcomes@) == (
                s.indexed as int,
                s.unchanged as int,
                s.removed as int,
                s.failed as int,
                s.diagnostics as int,
            ),
            None => summary_of(outcomes@).4 > usize::MAX,
        },
{
    let mut s = IndexSummary::default();
    let mut i: usize = 0;
    assert(outcomes@.take(0) == Seq::<FileOutcome>::empty());
    while i < outcomes.len()
        invariant
            0 <= i <= outcomes.len(),
            s.indexed <= i,
            s.unchanged <= i,
            s.removed <= i,
            s.failed <= i,
            summary_of(outcomes@.take(i as int)) == (
                s.indexed as int,
                s.unchanged as int,
                s.removed as int,
                s.failed as int,
                s.diagnostics as int,
            ),
        decreases outcomes.len() - i,
    {
        assert(outcomes@.take(i + 1).drop_last() == outcomes@.take(i as int));
        assert(outcomes@.take(i + 1).last() == outcomes@[i as int]);
        match outcomes[i] {
            FileOutcome::Unchanged => {
                s.unchanged += 1;
            },
            FileOutcome::Indexed(n) => {
                s.indexed += 1;
                match s.diagnostics.checked_add(n) {
                    Some(sum) => {
                        s.diagnostics = sum;
                    },
                    None => {
                        proof {
                            lemma_diagnostics_grow(outcomes@, i + 1);
                        }
                        return None;
                    },
                }
            },
            FileOutcome::Failed => {
                s.failed += 1;
            },
            FileOutcome::Removed => {
                s.removed += 1;
            },
        }
        i += 1;
    }
    assert(outcomes@.take(outcomes.len() as int) == outcomes@);
    Some(s)
}

proof fn lemma_diagnostics_grow(outcomes: Seq<FileOutcome>, k: int)
    requires
        0 <= k <= outcomes.len(),
    ensures
        summary_of(outcomes.take(k)).4 <= summary_of(outcomes).4,
    decreases outcomes.len() - k,
{
    if k < outcomes.len() {
        lemma_diagnostics_grow(outcomes, k + 1);
        assert(outcomes.take(k + 1).drop_last() == outcomes.take(k));
    } else {
        assert(outcomes.take(k) == outcomes);
    }
}

/// Whether a file has to be read again: the hash of its content is not the one that is
/// stored for its path.
pub fn needs_indexing(stored: Option<&str>, content: &[u8]) -> (r: bool)
    ensures
        r == !(stored matches Some(s) && s@ == blake3_hex(content@)),
{
    let hash = hash_bytes(content);
    match stored {
        Some(s) => !text_eq(s, hash.as_str()),
        None => true,
    }
}

/// The tags of a note as the index keeps them: a JSON array.
pub fn tags_column(tags: &Vec<String>) -> (r: Option<String>)
    ensures
        r matches Some(json) && json@ == json_array(texts(tags@)),
{
    write_json_array(tags)
}

// ---------------------------------------------------------------------------
// An index run
// ---------------------------------------------------------------------------

/// A note's file, as the index holds it. No two have the same id, and no two the same path.
#[derive(Debug)]
pub struct FileRow {
    pub note_id: String,
    pub path: String,
    pub hash: String,
}

/// What a [`FileRow`] says.
#[verifier::ext_equal]
pub struct FileRowView {
    pub note_id: Seq<char>,
    pub path: Seq<char>,
    pub hash: Seq<char>,
}

impl View for FileRow {
    type V = FileRowView;

    open spec fn view(&self) -> FileRowView {
        FileRowView { note_id: self.note_id@, path: self.path@, hash: self.hash@ }
    }
}

pub open spec fn file_rows(v: Seq<FileRow>) -> Seq<FileRowView> {
    Seq::new(v.len(), |i: int| v[i]@)
}

/// The hash that is stored for a path.
pub open spec fn hash_at(rows: Seq<FileRowView>, path: Seq<char>) -> Option<Seq<char>>
    decreases rows.len(),
{
    if rows.len() == 0 {
        None
    } else if rows.last().path == path {
        Some(rows.last().hash)
    } else {
        hash_at(rows.drop_last(), path)
    }
}

/// Whether another note lies at the path.
pub open spec fn path_taken(rows: Seq<FileRowView>, note_id: Seq<char>, path: Seq<char>) -> bool {
    exists|i: int|
        0 <= i < rows.len() && (#[trigger] rows[i]).path == path && rows[i].note_id != note_id
}

/// Whether the note has a row.
pub open spec fn has_note(rows: Seq<FileRowView>, note_id: Seq<char>) -> bool {
    exists|i: int| 0 <= i < rows.len() && (#[trigger] rows[i]).note_id == note_id
}

/// The rows once a note was stored: the row of its id is replaced, or there is one more.
/// `None` where another note lies at its path.
pub open spec fn put_row(rows: Seq<FileRowView>, row: FileRowView) -> Option<Seq<FileRowView>> {
    if path_taken(rows, row.note_id, row.path) {
        None
    } else if has_note(rows, row.note_id) {
        Some(
            Seq::new(
                rows.len(),
                |i: int|
                    if rows[i].note_id == row.note_id {
                        row
                    } else {
                        rows[i]
                    },
            ),
        )
    } else {
        Some(rows.push(row))
    }
}

/// Where an index run stands.
#[verifier::ext_equal]
pub struct RunView {
    pub rows: Seq<FileRowView>,
    /// The paths of the files that were seen.
    pub present: Seq<Seq<char>>,
    pub outcomes: Seq<FileOutcome>,
}

/// A run that has not begun.
pub open spec fn fresh(rows: Seq<FileRowView>) -> RunView {
    RunView { rows, present: Seq::empty(), outcomes: Seq::empty() }
}

/// The run once something became of a file.
pub open spec fn noted(
    s: RunView,
    rows: Seq<FileRowView>,
    path: Seq<char>,
    outcome: FileOutcome,
) -> RunView {
    RunView { rows, present: s.present.push(path), outcomes: s.outcomes.push(outcome) }
}

/// The rows whose file was seen.
pub open spec fn kept_rows(rows: Seq<FileRowView>, present: Seq<Seq<char>>) -> Seq<FileRowView>
    decreases rows.len(),
{
    if rows.len() == 0 {
        Seq::empty()
    } else {
        let before = kept_rows(rows.drop_last(), present);
        if present.contains(rows.last().path) {
            before.push(rows.last())
        } else {
            before
        }
    }
}

/// The paths of the rows whose file was not seen.
pub open spec fn gone_paths(rows: Seq<FileRowView>, present: Seq<Seq<char>>) -> Seq<Seq<char>>
    decreases rows.len(),
{
    if rows.len() == 0 {
        Seq::empty()
    } else {
        let before = gone_paths(rows.drop_last(), present);
        if present.contains(rows.last().path) {
            before
        } else {
            before.push(rows.last().path)
        }
    }
}

/// The run once the rows of files that are gone were taken out.
pub open spec fn finished(s: RunView) -> RunView {
    RunView {
        rows: kept_rows(s.rows, s.present),
        present: s.present,
        outcomes: s.outcomes + Seq::new(
            gone_paths(s.rows, s.present).len(),
            |i: int| FileOutcome::Removed,
        ),
    }
}

/// A run over the files of a vault. It knows the rows of the index, and follows what is
/// stored and taken out.
#[derive(Debug)]
pub struct IndexRun {
    rows: Vec<FileRow>,
    present: Vec<String>,
    outcomes: Vec<FileOutcome>,
}

impl View for IndexRun {
    type V = RunView;

    closed spec fn view(&self) -> RunView {
        RunView {
            rows: file_rows(self.rows@),
            present: texts(self.present@),
            outcomes: self.outcomes@,
        }
    }
}

impl IndexRun {
    /// A run that starts from the rows of the index.
    pub fn new(rows: Vec<FileRow>) -> (r: Self)
        ensures
            r@ == fresh(file_rows(rows@)),
    {
        let r = IndexRun { rows, present: Vec::new(), outcomes: Vec::new() };
        assert(r@.present == Seq::<Seq<char>>::empty());
        r
    }

    fn stored_hash(&self, path: &str) -> (r: Option<&str>)
        ensures
            opt_str_view(r) == hash_at(self@.rows, path@),
    {
        let ghost views = file_rows(self.rows@);
        let mut i: usize = self.rows.len();
        assert(views.take(i as int) == views);
        while i > 0
            invariant
                0 <= i <= self.rows.len(),
                views == file_rows(self.rows@),
                views == self@.rows,
                hash_at(views, path@) == hash_at(views.take(i as int), path@),
            decreases i,
        {
            assert(views.take(i as int).drop_last() == views.take(i - 1));
            assert(views.take(i as int).last() == self.rows@[i - 1]@);
            if text_eq(self.rows[i - 1].path.as_str(), path) {
                return Some(self.rows[i - 1].hash.as_str());
            }
            i -= 1;
        }
        None
    }

    fn note(&mut self, path: &str, outcome: FileOutcome)
        ensures
            final(self)@ == noted(old(self)@, old(self)@.rows, path@, outcome),
    {
        let ghost before = texts(self.present@);
        self.present.push(path.to_owned());
        self.outcomes.push(outcome);
        assert(texts(self.present@) == before.push(path@));
    }

    /// Takes a file, and says whether it has to be read. One whose content is what was
    /// indexed is done with.
    pub fn visit(&mut self, path: &str, content: &[u8]) -> (r: bool)
        ensures
            r == (hash_at(old(self)@.rows, path@) != Some(blake3_hex(content@))),
            !r ==> final(self)@ == noted(
                old(self)@,
                old(self)@.rows,
                path@,
                FileOutcome::Unchanged,
            ),
            r ==> final(self)@ == old(self)@,
            !r ==> forall|read: Reading|
                #[trigger] visited(
                    old(self)@,
                    VaultFile { path: path@, content: content@ },
                    read,
                ) == Some(final(self)@),
    {
        if needs_indexing(self.stored_hash(path), content) {
            true
        } else {
            self.note(path, FileOutcome::Unchanged);
            false
        }
    }

    /// Takes a note that was read and is to be stored. Says whether it can be: not where
    /// another note lies at its path.
    pub fn store(&mut self, note: &ParsedNote) -> (r: bool)
        ensures
            ({
                let row = FileRowView {
                    note_id: note.note_id@,
                    path: note.path@,
                    hash: note.content_hash@,
                };
                match put_row(old(self)@.rows, row) {
                    Some(rows) => r && final(self)@ == noted(
                        old(self)@,
                        rows,
                        note.path@,
                        FileOutcome::Indexed(note.diagnostics.len()),
                    ),
                    None => !r && final(self)@ == old(self)@,
                }
            }),
            forall|content: Seq<u8>|
                #[trigger] blake3_hex(content) == note.content_hash@ && hash_at(
                    old(self)@.rows,
                    note.path@,
                ) != Some(blake3_hex(content)) ==> visited(
                    old(self)@,
                    VaultFile { path: note.path@, content },
                    Some((note.note_id@, note.diagnostics.len())),
                ) == (if r {
                    Some(final(self)@)
                } else {
                    None
                }),
    {
        let ghost views = file_rows(self.rows@);
        let ghost row = FileRowView {
            note_id: note.note_id@,
            path: note.path@,
            hash: note.content_hash@,
        };
        let mut known: bool = false;
        let mut i: usize = 0;
        while i < self.rows.len()
            invariant
                0 <= i <= self.rows.len(),
                views == file_rows(self.rows@),
                self@ == old(self)@,
                views == old(self)@.rows,
                row == (FileRowView {
                    note_id: note.note_id@,
                    path: note.path@,
                    hash: note.content_hash@,
                }),
                forall|k: int|
                    0 <= k < i ==> (#[trigger] views[k]).path != row.path || views[k].note_id
                        == row.note_id,
                known == exists|k: int| 0 <= k < i && (#[trigger] views[k]).note_id == row.note_id,
            decreases self.rows.len() - i,
        {
            assert(views[i as int] == self.rows@[i as int]@);
            let own = text_eq(self.rows[i].note_id.as_str(), note.note_id.as_str());
            if !own && text_eq(self.rows[i].path.as_str(), note.path.as_str()) {
                assert(path_taken(views, row.note_id, row.path));
                return false;
            }
            known = known || own;
            i += 1;
        }
        assert(!path_taken(views, row.note_id, row.path));
        assert(known == has_note(views, row.note_id));
        let mut rows: Vec<FileRow> = Vec::new();
        let mut i: usize = 0;
        while i < self.rows.len()
            invariant
                0 <= i <= self.rows.len(),
                views == file_rows(self.rows@),
                row == (FileRowView {
                    note_id: note.note_id@,
                    path: note.path@,
                    hash: note.content_hash@,
                }),
                rows.len() == i,
                forall|k: int|
                    0 <= k < i ==> (#[trigger] rows@[k])@ == if views[k].note_id == row.note_id {
                        row
                    } else {
                        views[k]
                    },
            decreases self.rows.len() - i,
        {
            assert(views[i as int] == self.rows@[i as int]@);
            let old_row = &self.rows[i];
            if text_eq(old_row.note_id.as_str(), note.note_id.as_str()) {
                rows.push(row_of(note));
            } else {
                rows.push(
                    FileRow {
                        note_id: old_row.note_id.clone(),
                        path: old_row.path.clone(),
                        hash: old_row.hash.clone(),
                    },
                );
            }
            i += 1;
        }
        if known {
            assert(Some(file_rows(rows@)) == put_row(views, row));
        } else {
            assert forall|k: int| 0 <= k < views.len() implies (#[trigger] rows@[k])@
                == views[k] by {
                assert(views[k].note_id != row.note_id);
            }
            rows.push(row_of(note));
            assert(file_rows(rows@) == views.push(row));
            assert(Some(file_rows(rows@)) == put_row(views, row));
        }
        self.rows = rows;
        self.note(note.path.as_str(), FileOutcome::Indexed(note.diagnostics.len()));
        true
    }

    /// Takes a file that could not be read. What the index holds of it stays.
    pub fn fail(&mut self, path: &str)
        ensures
            final(self)@ == noted(old(self)@, old(self)@.rows, path@, FileOutcome::Failed),
            forall|content: Seq<u8>|
                hash_at(old(self)@.rows, path@) != Some(#[trigger] blake3_hex(content))
                    ==> visited(old(self)@, VaultFile { path: path@, content }, None) == Some(
                    final(self)@,
                ),
    {
        self.note(path, FileOutcome::Failed);
    }

    /// Ends the run: the paths whose rows have to go, since their file was not seen.
    pub fn finish(&mut self) -> (r: Vec<String>)
        ensures
            texts(r@) == gone_paths(old(self)@.rows, old(self)@.present),
            final(self)@ == finished(old(self)@),
    {
        let ghost views = file_rows(self.rows@);
        let ghost present = texts(self.present@);
        let ghost outcomes = self.outcomes@;
        let mut gone: Vec<String> = Vec::new();
        let mut kept: Vec<FileRow> = Vec::new();
        let mut i: usize = 0;
        assert(views.take(0) == Seq::<FileRowView>::empty());
        assert(texts(gone@) == Seq::<Seq<char>>::empty());
        assert(file_rows(kept@) == Seq::<FileRowView>::empty());
        assert(self.outcomes@ == outcomes + Seq::new(0, |k: int| FileOutcome::Removed));
        while i < self.rows.len()
            invariant
                0 <= i <= self.rows.len(),
                views == file_rows(self.rows@),
                present == texts(self.present@),
                texts(gone@) == gone_paths(views.take(i as int), present),
                file_rows(kept@) == kept_rows(views.take(i as int), present),
                self.outcomes@ == outcomes + Seq::new(
                    texts(gone@).len(),
                    |k: int| FileOutcome::Removed,
                ),
            decreases self.rows.len() - i,
        {
            assert(views.take(i + 1).drop_last() == views.take(i as int));
            assert(views.take(i + 1).last() == self.rows@[i as int]@);
            let ghost gone_before = texts(gone@);
            let ghost kept_before = file_rows(kept@);
            if holds(&self.present, self.rows[i].path.as_str()) {
                kept.push(
                    FileRow {
                        note_id: self.rows[i].note_id.clone(),
                        path: self.rows[i].path.clone(),
                        hash: self.rows[i].hash.clone(),
                    },
                );
                assert(file_rows(kept@) == kept_before.push(views[i as int]));
            } else {
                gone.push(self.rows[i].path.clone());
                assert(texts(gone@) == gone_before.push(views[i as int].path));
                self.outcomes.push(FileOutcome::Removed);
                assert(self.outcomes@ == outcomes + Seq::new(
                    texts(gone@).len(),
                    |k: int| FileOutcome::Removed,
                ));
            }
            i += 1;
        }
        assert(views.take(self.rows.len() as int) == views);
        self.rows = kept;
        gone
    }

    /// What the run came to; `None` where the diagnostics are too many to count.
    pub fn summary(&self) -> (r: Option<IndexSummary>)
        ensures
            match r {
                Some(s) => summary_of(self@.outcomes) == (
                    s.indexed as int,
                    s.unchanged as int,
                    s.removed as int,
                    s.failed as int,
                    s.diagnostics as int,
                ),
                None => summary_of(self@.outcomes).4 > usize::MAX,
            },
    {
        summarise(&self.outcomes)
    }
}

fn row_of(note: &ParsedNote) -> (r: FileRow)
    ensures
        r@ == (FileRowView {
            note_id: note.note_id@,
            path: note.path@,
            hash: note.content_hash@,
        }),
{
    FileRow {
        note_id: note.note_id.clone(),
        path: note.path.clone(),
        hash: note.content_hash.clone(),
    }
}

/// A file of a vault.
pub struct VaultFile {
    pub path: Seq<char>,
    pub content: Seq<u8>,
}

/// What reading a file gave: the note's id and how many diagnostics it has, or nothing.
pub type Reading = Option<(Seq<char>, usize)>;

/// The run once a file was visited and, where it had to be, read. `None` where the note
/// cannot be stored.
pub open spec fn visited(s: RunView, file: VaultFile, read: Reading) -> Option<RunView> {
    let hash = blake3_hex(file.content);
    if hash_at(s.rows, file.path) == Some(hash) {
        Some(noted(s, s.rows, file.path, FileOutcome::Unchanged))
    } else {
        match read {
            None => Some(noted(s, s.rows, file.path, FileOutcome::Failed)),
            Some((note_id, diagnostics)) => match put_row(
                s.rows,
                FileRowView { note_id, path: file.path, hash },
            ) {
                Some(rows) => Some(noted(s, rows, file.path, FileOutcome::Indexed(diagnostics))),
                None => None,
            },
        }
    }
}

/// The run once the files were visited, one after the other.
pub open spec fn visited_all(s: RunView, files: Seq<VaultFile>, reads: Seq<Reading>) -> Option<
    RunView,
>
    decreases files.len(),
{
    if files.len() == 0 {
        Some(s)
    } else {
        match visited_all(s, files.drop_last(), reads) {
            Some(before) => visited(before, files.last(), reads[files.len() - 1]),
            None => None,
        }
    }
}

/// The paths of files.
pub open spec fn file_paths(files: Seq<VaultFile>) -> Seq<Seq<char>> {
    Seq::new(files.len(), |i: int| files[i].path)
}

/// Whether no two rows have the same id, and no two the same path.
pub open spec fn rows_differ(rows: Seq<FileRowView>) -> bool {
    forall|i: int, j: int|
        0 <= i < j < rows.len() ==> (#[trigger] rows[i]).path != (#[trigger] rows[j]).path
            && rows[i].note_id != rows[j].note_id
}

/// Whether there is a row for a file as it is.
spec fn row_stands(rows: Seq<FileRowView>, file: VaultFile, note_id: Seq<char>) -> bool {
    rows.contains(FileRowView { note_id, path: file.path, hash: blake3_hex(file.content) })
}

proof fn lemma_hash_at(rows: Seq<FileRowView>, path: Seq<char>)
    ensures
        match hash_at(rows, path) {
            Some(h) => exists|i: int|
                0 <= i < rows.len() && (#[trigger] rows[i]).path == path && rows[i].hash == h,
            None => forall|i: int| 0 <= i < rows.len() ==> (#[trigger] rows[i]).path != path,
        },
    decreases rows.len(),
{
    if rows.len() > 0 {
        let rest = rows.drop_last();
        if rows.last().path == path {
            assert(rows[rows.len() - 1].path == path);
        } else {
            lemma_hash_at(rest, path);
            match hash_at(rest, path) {
                Some(h) => {
                    let i = choose|i: int|
                        0 <= i < rest.len() && (#[trigger] rest[i]).path == path && rest[i].hash
                            == h;
                    assert(rows[i].path == path);
                },
                None => {
                    assert forall|i: int| 0 <= i < rows.len() implies (#[trigger] rows[i]).path
                        != path by {
                        if i < rest.len() {
                            assert(rest[i].path != path);
                        }
                    }
                },
            }
        }
    }
}

proof fn lemma_row_stands(rows: Seq<FileRowView>, file: VaultFile, note_id: Seq<char>)
    requires
        rows_differ(rows),
        row_stands(rows, file, note_id),
    ensures
        hash_at(rows, file.path) == Some(blake3_hex(file.content)),
{
    let row = FileRowView { note_id, path: file.path, hash: blake3_hex(file.content) };
    let k = choose|k: int| 0 <= k < rows.len() && rows[k] == row;
    lemma_hash_at(rows, file.path);
    assert(rows[k].path == file.path);
    let h = hash_at(rows, file.path)->0;
    let i = choose|i: int|
        0 <= i < rows.len() && (#[trigger] rows[i]).path == file.path && rows[i].hash == h;
    assert(i == k);
}

/// What holds of a run after the first files: the rows differ, those of files that are still
/// to come are as they were, and each file that did not fail has its row.
spec fn run_holds(
    rows: Seq<FileRowView>,
    files: Seq<VaultFile>,
    ids: Seq<Seq<char>>,
    s: RunView,
    n: int,
) -> bool {
    &&& rows_differ(s.rows)
    &&& s.present == file_paths(files.take(n))
    &&& s.outcomes.len() == n
    &&& forall|k: int, i: int|
        n <= k < files.len() && 0 <= i < s.rows.len() && (#[trigger] s.rows[i]).path == (
        #[trigger] files[k]).path ==> rows.contains(s.rows[i])
    &&& forall|k: int|
        0 <= k < n && (#[trigger] s.outcomes[k]) != FileOutcome::Failed ==> row_stands(
            s.rows,
            files[k],
            ids[k],
        )
    &&& forall|k: int|
        0 <= k < n && (#[trigger] s.outcomes[k]) == FileOutcome::Failed ==> hash_at(
            s.rows,
            files[k].path,
        ) != Some(blake3_hex(files[k].content))
    &&& forall|k: int| 0 <= k < n ==> (#[trigger] s.outcomes[k]) != FileOutcome::Removed
}

/// Whether the files of a run are ones that a vault can have: no two have the same path, no
/// two notes have the same id, and a row that holds a file as it is has its note's id.
pub open spec fn vault_is(
    rows: Seq<FileRowView>,
    files: Seq<VaultFile>,
    reads: Seq<Reading>,
    ids: Seq<Seq<char>>,
) -> bool {
    &&& rows_differ(rows)
    &&& reads.len() == files.len()
    &&& ids.len() == files.len()
    &&& ids.no_duplicates()
    &&& file_paths(files).no_duplicates()
    &&& forall|k: int|
        0 <= k < files.len() ==> ((#[trigger] reads[k]) matches Some(read) ==> read.0 == ids[k])
    &&& forall|k: int, i: int|
        0 <= k < files.len() && 0 <= i < rows.len() && (#[trigger] rows[i]).path == (
        #[trigger] files[k]).path && rows[i].hash == blake3_hex(files[k].content)
            ==> rows[i].note_id == ids[k]
}

proof fn lemma_put_row(rows: Seq<FileRowView>, row: FileRowView)
    requires
        rows_differ(rows),
        put_row(rows, row) is Some,
    ensures
        ({
            let after = put_row(rows, row)->0;
            &&& rows_differ(after)
            &&& after.contains(row)
            &&& forall|i: int|
                0 <= i < after.len() ==> (#[trigger] after[i]) == row || rows.contains(after[i])
            &&& forall|r: FileRowView| #[trigger]
                rows.contains(r) && r.note_id != row.note_id ==> after.contains(r)
        }),
{
    let after = put_row(rows, row)->0;
    assert(!path_taken(rows, row.note_id, row.path));
    if has_note(rows, row.note_id) {
        let at = choose|i: int| 0 <= i < rows.len() && (#[trigger] rows[i]).note_id == row.note_id;
        assert(after[at] == row);
        assert forall|i: int, j: int| 0 <= i < j < after.len() implies (#[trigger] after[i]).path
            != (#[trigger] after[j]).path && after[i].note_id != after[j].note_id by {
            assert(rows[i].path != rows[j].path && rows[i].note_id != rows[j].note_id);
            if rows[i].note_id == row.note_id {
                assert(rows[j].note_id != row.note_id);
                assert(rows[j].path != row.path);
            } else if rows[j].note_id == row.note_id {
                assert(rows[i].path != row.path);
            }
        }
        assert forall|i: int| 0 <= i < after.len() implies (#[trigger] after[i]) == row
            || rows.contains(after[i]) by {
            assert(rows.contains(rows[i]));
        }
        assert forall|r: FileRowView| #[trigger]
            rows.contains(r) && r.note_id != row.note_id implies after.contains(r) by {
            let i = choose|i: int| 0 <= i < rows.len() && rows[i] == r;
            assert(after[i] == r);
        }
    } else {
        assert(after[rows.len() as int] == row);
        assert forall|i: int, j: int| 0 <= i < j < after.len() implies (#[trigger] after[i]).path
            != (#[trigger] after[j]).path && after[i].note_id != after[j].note_id by {
            assert(rows[i].note_id != row.note_id);
            if j < rows.len() {
                assert(rows[i].path != rows[j].path);
            } else {
                assert(rows[i].path != row.path);
            }
        }
        assert forall|i: int| 0 <= i < after.len() implies (#[trigger] after[i]) == row
            || rows.contains(after[i]) by {
            if i < rows.len() {
                assert(rows.contains(rows[i]));
            }
        }
        assert forall|r: FileRowView| #[trigger]
            rows.contains(r) && r.note_id != row.note_id implies after.contains(r) by {
            let i = choose|i: int| 0 <= i < rows.len() && rows[i] == r;
            assert(after[i] == r);
        }
    }
}

proof fn lemma_not_failed_again(
    rows: Seq<FileRowView>,
    row: FileRowView,
    path: Seq<char>,
    hash: Seq<char>,
)
    requires
        rows_differ(rows),
        put_row(rows, row) is Some,
        row.path != path,
        hash_at(rows, path) != Some(hash),
    ensures
        hash_at(put_row(rows, row)->0, path) != Some(hash),
{
    let after = put_row(rows, row)->0;
    lemma_put_row(rows, row);
    lemma_hash_at(after, path);
    lemma_hash_at(rows, path);
    if hash_at(after, path) == Some(hash) {
        let i = choose|i: int|
            0 <= i < after.len() && (#[trigger] after[i]).path == path && after[i].hash == hash;
        assert(rows.contains(after[i]));
        let j = choose|j: int| 0 <= j < rows.len() && rows[j] == after[i];
        assert(rows[j].path == path);
        let h = hash_at(rows, path)->0;
        let k = choose|k: int|
            0 <= k < rows.len() && (#[trigger] rows[k]).path == path && rows[k].hash == h;
        assert(j == k);
    }
}

#[verifier::rlimit(40)]
proof fn lemma_run_step(
    rows: Seq<FileRowView>,
    files: Seq<VaultFile>,
    reads: Seq<Reading>,
    ids: Seq<Seq<char>>,
    s: RunView,
    n: int,
)
    requires
        vault_is(rows, files, reads, ids),
        0 <= n < files.len(),
        run_holds(rows, files, ids, s, n),
        visited(s, files[n], reads[n]) is Some,
    ensures
        run_holds(rows, files, ids, visited(s, files[n], reads[n])->0, n + 1),
{
    let file = files[n];
    let hash = blake3_hex(file.content);
    let after = visited(s, file, reads[n])->0;
    let paths = file_paths(files);
    assert(file_paths(files.take(n + 1)) == file_paths(files.take(n)).push(file.path));
    assert forall|k: int| 0 <= k < n implies (#[trigger] files[k]).path != file.path && ids[k]
        != ids[n] && after.outcomes[k] == s.outcomes[k] by {
        assert(paths[k] != paths[n]);
    }
    if hash_at(s.rows, file.path) == Some(hash) {
        lemma_hash_at(s.rows, file.path);
        let i = choose|i: int|
            0 <= i < s.rows.len() && (#[trigger] s.rows[i]).path == file.path && s.rows[i].hash
                == hash;
        assert(rows.contains(s.rows[i]));
        let j = choose|j: int| 0 <= j < rows.len() && rows[j] == s.rows[i];
        assert(rows[j].path == files[n].path);
        assert(rows[j].note_id == ids[n]);
        assert(s.rows.contains(s.rows[i]));
        assert(s.rows[i] == (FileRowView { note_id: ids[n], path: file.path, hash }));
    } else if reads[n] is Some {
        let row = FileRowView { note_id: ids[n], path: file.path, hash };
        assert(reads[n] matches Some(read) && read.0 == ids[n]);
        lemma_put_row(s.rows, row);
        assert forall|k: int, i: int|
            n + 1 <= k < files.len() && 0 <= i < after.rows.len() && (
            #[trigger] after.rows[i]).path == (#[trigger] files[k]).path implies rows.contains(
            after.rows[i],
        ) by {
            assert(paths[k] != paths[n]);
            assert(s.rows.contains(after.rows[i]));
            let j = choose|j: int| 0 <= j < s.rows.len() && s.rows[j] == after.rows[i];
            assert(s.rows[j].path == files[k].path);
        }
        assert forall|k: int|
            0 <= k < n + 1 && (#[trigger] after.outcomes[k]) != FileOutcome::Failed implies
        row_stands(after.rows, files[k], ids[k]) by {
            if k < n {
                assert(s.outcomes[k] != FileOutcome::Failed);
                assert(row_stands(s.rows, files[k], ids[k]));
                let r = FileRowView {
                    note_id: ids[k],
                    path: files[k].path,
                    hash: blake3_hex(files[k].content),
                };
                assert(s.rows.contains(r) && r.note_id != row.note_id);
            }
        }
        assert forall|k: int|
            0 <= k < n + 1 && (#[trigger] after.outcomes[k]) == FileOutcome::Failed implies hash_at(
            after.rows,
            files[k].path,
        ) != Some(blake3_hex(files[k].content)) by {
            assert(k < n);
            assert(s.outcomes[k] == FileOutcome::Failed);
            lemma_not_failed_again(
                s.rows,
                row,
                files[k].path,
                blake3_hex(files[k].content),
            );
        }
    }
}

proof fn lemma_run_holds(
    rows: Seq<FileRowView>,
    files: Seq<VaultFile>,
    reads: Seq<Reading>,
    ids: Seq<Seq<char>>,
    n: int,
)
    requires
        vault_is(rows, files, reads, ids),
        0 <= n <= files.len(),
        visited_all(fresh(rows), files.take(n), reads) is Some,
    ensures
        run_holds(rows, files, ids, visited_all(fresh(rows), files.take(n), reads)->0, n),
    decreases n,
{
    if n > 0 {
        assert(files.take(n).drop_last() == files.take(n - 1));
        assert(files.take(n).last() == files[n - 1]);
        lemma_run_holds(rows, files, reads, ids, n - 1);
        let s = visited_all(fresh(rows), files.take(n - 1), reads)->0;
        lemma_run_step(rows, files, reads, ids, s, n - 1);
    } else {
        let s = fresh(rows);
        assert(file_paths(files.take(0)) == Seq::<Seq<char>>::empty());
        assert forall|k: int, i: int|
            0 <= k < files.len() && 0 <= i < s.rows.len() && (#[trigger] s.rows[i]).path == (
            #[trigger] files[k]).path implies rows.contains(s.rows[i]) by {}
    }
}

proof fn lemma_kept_rows(rows: Seq<FileRowView>, present: Seq<Seq<char>>)
    ensures
        forall|r: FileRowView| #[trigger]
            kept_rows(rows, present).contains(r) <==> rows.contains(r) && present.contains(r.path),
        rows_differ(rows) ==> rows_differ(kept_rows(rows, present)),
    decreases rows.len(),
{
    if rows.len() > 0 {
        let rest = rows.drop_last();
        lemma_kept_rows(rest, present);
        let before = kept_rows(rest, present);
        let all = kept_rows(rows, present);
        assert forall|r: FileRowView| #[trigger] all.contains(r) <==> rows.contains(r)
            && present.contains(r.path) by {
            assert(before.contains(r) <==> rest.contains(r) && present.contains(r.path));
            if all.contains(r) {
                let i = choose|i: int| 0 <= i < all.len() && all[i] == r;
                if i < before.len() {
                    assert(before[i] == r);
                    assert(before.contains(r));
                    let k = choose|k: int| 0 <= k < rest.len() && rest[k] == r;
                    assert(rows[k] == r);
                } else {
                    assert(rows[rows.len() - 1] == r);
                }
            }
            if rows.contains(r) && present.contains(r.path) {
                let k = choose|k: int| 0 <= k < rows.len() && rows[k] == r;
                if k < rest.len() {
                    assert(rest[k] == r);
                    assert(before.contains(r));
                    let i = choose|i: int| 0 <= i < before.len() && before[i] == r;
                    assert(all[i] == r);
                } else {
                    assert(all[before.len() as int] == r);
                }
            }
        }
        if rows_differ(rows) {
            assert forall|i: int, j: int| 0 <= i < j < rest.len() implies (
            #[trigger] rest[i]).path != (#[trigger] rest[j]).path && rest[i].note_id
                != rest[j].note_id by {
                assert(rows[i].path != rows[j].path);
            }
            assert forall|i: int, j: int| 0 <= i < j < all.len() implies (#[trigger] all[i]).path
                != (#[trigger] all[j]).path && all[i].note_id != all[j].note_id by {
                if j < before.len() {
                    assert(before[i].path != before[j].path);
                } else {
                    assert(before.contains(before[i]));
                    assert(rest.contains(before[i]));
                    let k = choose|k: int| 0 <= k < rest.len() && rest[k] == before[i];
                    assert(rows[k].path != rows[rows.len() - 1].path);
                }
            }
        }
    }
}

proof fn lemma_none_gone(rows: Seq<FileRowView>, present: Seq<Seq<char>>)
    requires
        forall|i: int| 0 <= i < rows.len() ==> present.contains((#[trigger] rows[i]).path),
    ensures
        gone_paths(rows, present).len() == 0,
        kept_rows(rows, present) == rows,
    decreases rows.len(),
{
    if rows.len() > 0 {
        let rest = rows.drop_last();
        assert forall|i: int| 0 <= i < rest.len() implies present.contains(
            (#[trigger] rest[i]).path,
        ) by {
            assert(present.contains(rows[i].path));
        }
        lemma_none_gone(rest, present);
        assert(present.contains(rows[rows.len() - 1].path));
    }
}

proof fn lemma_summary(outcomes: Seq<FileOutcome>, removed: nat)
    requires
        forall|i: int| 0 <= i < outcomes.len() ==> (#[trigger] outcomes[i]) != FileOutcome::Removed,
    ensures
        ({
            let all = outcomes + Seq::new(removed, |i: int| FileOutcome::Removed);
            let sums = summary_of(outcomes);
            &&& summary_of(all) == (sums.0, sums.1, removed as int, sums.3, sums.4)
            &&& sums.0 + sums.1 + sums.3 == outcomes.len()
        }),
    decreases outcomes.len() + removed,
{
    let none = Seq::new(0, |i: int| FileOutcome::Removed);
    if removed > 0 {
        let fewer = (removed - 1) as nat;
        let all = outcomes + Seq::new(removed, |i: int| FileOutcome::Removed);
        lemma_summary(outcomes, fewer);
        assert(all.drop_last() == outcomes + Seq::new(fewer, |i: int| FileOutcome::Removed));
    } else if outcomes.len() > 0 {
        let rest = outcomes.drop_last();
        assert forall|i: int| 0 <= i < rest.len() implies (#[trigger] rest[i])
            != FileOutcome::Removed by {
            assert(outcomes[i] != FileOutcome::Removed);
        }
        lemma_summary(rest, 0);
        assert(rest + none == rest);
        assert(outcomes[outcomes.len() - 1] != FileOutcome::Removed);
        assert(outcomes + none == outcomes);
    } else {
        assert(outcomes + none == outcomes);
    }
}

/// Every file is indexed, unchanged or failed, and a file is unchanged exactly when the hash
/// that was stored for its path before the run is that of its content. Afterwards exactly the rows are left
/// whose file is there.
pub proof fn a_run_accounts_for_every_file(
    rows: Seq<FileRowView>,
    files: Seq<VaultFile>,
    reads: Seq<Reading>,
    ids: Seq<Seq<char>>,
)
    requires
        vault_is(rows, files, reads, ids),
        visited_all(fresh(rows), files, reads) is Some,
    ensures
        ({
            let s = visited_all(fresh(rows), files, reads)->0;
            let end = finished(s);
            let sums = summary_of(end.outcomes);
            &&& sums.0 + sums.1 + sums.3 == files.len()
            &&& forall|k: int|
                0 <= k < files.len() ==> ((#[trigger] s.outcomes[k] == FileOutcome::Unchanged)
                    <==> hash_at(rows, files[k].path) == Some(blake3_hex(files[k].content)))
            &&& forall|r: FileRowView| #[trigger]
                end.rows.contains(r) <==> s.rows.contains(r) && file_paths(files).contains(r.path)
        }),
{
    let s = visited_all(fresh(rows), files, reads)->0;
    assert(files.take(files.len() as int) == files);
    lemma_run_holds(rows, files, reads, ids, files.len() as int);
    lemma_summary(s.outcomes, gone_paths(s.rows, s.present).len());
    lemma_kept_rows(s.rows, s.present);
    assert forall|k: int| 0 <= k < files.len() implies ((#[trigger] s.outcomes[k]
        == FileOutcome::Unchanged) <==> hash_at(rows, files[k].path) == Some(
        blake3_hex(files[k].content),
    )) by {
        lemma_outcome_at(rows, files, reads, k, files.len() as int);
        lemma_hash_stays(rows, files, reads, ids, k);
    }
}

proof fn lemma_other_rows_stay(
    rows: Seq<FileRowView>,
    files: Seq<VaultFile>,
    reads: Seq<Reading>,
    ids: Seq<Seq<char>>,
    n: int,
    r: FileRowView,
)
    requires
        vault_is(rows, files, reads, ids),
        0 <= n <= files.len(),
        visited_all(fresh(rows), files.take(n), reads) is Some,
        rows.contains(r),
        forall|j: int| 0 <= j < n ==> r.note_id != #[trigger] ids[j],
    ensures
        visited_all(fresh(rows), files.take(n), reads)->0.rows.contains(r),
    decreases n,
{
    if n > 0 {
        assert(files.take(n).drop_last() == files.take(n - 1));
        assert(files.take(n).last() == files[n - 1]);
        lemma_other_rows_stay(rows, files, reads, ids, n - 1, r);
        lemma_run_holds(rows, files, reads, ids, n - 1);
        let s = visited_all(fresh(rows), files.take(n - 1), reads)->0;
        let file = files[n - 1];
        let hash = blake3_hex(file.content);
        if hash_at(s.rows, file.path) != Some(hash) {
            if let Some((note_id, _)) = reads[n - 1] {
                assert(note_id == ids[n - 1]);
                lemma_put_row(s.rows, FileRowView { note_id, path: file.path, hash });
            }
        }
    }
}

proof fn lemma_hash_stays(
    rows: Seq<FileRowView>,
    files: Seq<VaultFile>,
    reads: Seq<Reading>,
    ids: Seq<Seq<char>>,
    k: int,
)
    requires
        vault_is(rows, files, reads, ids),
        0 <= k < files.len(),
        visited_all(fresh(rows), files.take(k), reads) is Some,
    ensures
        hash_at(rows_before(rows, files, reads, k), files[k].path) == Some(
            blake3_hex(files[k].content),
        ) <==> hash_at(rows, files[k].path) == Some(blake3_hex(files[k].content)),
{
    let now = rows_before(rows, files, reads, k);
    let path = files[k].path;
    let hash = blake3_hex(files[k].content);
    lemma_run_holds(rows, files, reads, ids, k);
    lemma_hash_at(rows, path);
    lemma_hash_at(now, path);
    if hash_at(now, path) == Some(hash) {
        let i = choose|i: int|
            0 <= i < now.len() && (#[trigger] now[i]).path == path && now[i].hash == hash;
        assert(rows.contains(now[i]));
        lemma_row_stands(rows, files[k], now[i].note_id);
    }
    if hash_at(rows, path) == Some(hash) {
        let i = choose|i: int|
            0 <= i < rows.len() && (#[trigger] rows[i]).path == path && rows[i].hash == hash;
        assert(rows[i].note_id == ids[k]);
        assert forall|j: int| 0 <= j < k implies rows[i].note_id != #[trigger] ids[j] by {
            assert(ids[j] != ids[k]);
        }
        lemma_other_rows_stay(rows, files, reads, ids, k, rows[i]);
        lemma_row_stands(now, files[k], rows[i].note_id);
    }
}

/// The rows when the file at `k` is visited.
spec fn rows_before(
    rows: Seq<FileRowView>,
    files: Seq<VaultFile>,
    reads: Seq<Reading>,
    k: int,
) -> Seq<FileRowView> {
    visited_all(fresh(rows), files.take(k), reads)->0.rows
}

proof fn lemma_outcome_at(
    rows: Seq<FileRowView>,
    files: Seq<VaultFile>,
    reads: Seq<Reading>,
    k: int,
    n: int,
)
    requires
        0 <= k < n <= files.len(),
        visited_all(fresh(rows), files.take(n), reads) is Some,
    ensures
        visited_all(fresh(rows), files.take(n), reads)->0.outcomes.len() == n,
        visited_all(fresh(rows), files.take(k), reads) is Some,
        (visited_all(fresh(rows), files.take(n), reads)->0.outcomes[k] == FileOutcome::Unchanged)
            <==> hash_at(rows_before(rows, files, reads, k), files[k].path) == Some(
            blake3_hex(files[k].content),
        ),
    decreases n,
{
    assert(files.take(n).drop_last() == files.take(n - 1));
    assert(files.take(n).last() == files[n - 1]);
    if k < n - 1 {
        lemma_outcome_at(rows, files, reads, k, n - 1);
    } else {
        lemma_outcome_count(rows, files, reads, n - 1);
    }
}

proof fn lemma_outcome_count(
    rows: Seq<FileRowView>,
    files: Seq<VaultFile>,
    reads: Seq<Reading>,
    n: int,
)
    requires
        0 <= n <= files.len(),
        visited_all(fresh(rows), files.take(n), reads) is Some,
    ensures
        visited_all(fresh(rows), files.take(n), reads)->0.outcomes.len() == n,
    decreases n,
{
    if n > 0 {
        assert(files.take(n).drop_last() == files.take(n - 1));
        lemma_outcome_count(rows, files, reads, n - 1);
    }
}

proof fn lemma_again(
    rows: Seq<FileRowView>,
    files: Seq<VaultFile>,
    first: Seq<FileOutcome>,
    again: Seq<Reading>,
    n: int,
)
    requires
        0 <= n <= files.len(),
        first.len() == files.len(),
        forall|k: int|
            0 <= k < files.len() && (#[trigger] first[k]) == FileOutcome::Failed ==> again[k] is None
                && hash_at(rows, files[k].path) != Some(blake3_hex(files[k].content)),
        forall|k: int|
            0 <= k < files.len() && (#[trigger] first[k]) != FileOutcome::Failed ==> hash_at(
                rows,
                files[k].path,
            ) == Some(blake3_hex(files[k].content)),
    ensures
        visited_all(fresh(rows), files.take(n), again) == Some(
            RunView {
                rows,
                present: file_paths(files.take(n)),
                outcomes: Seq::new(
                    n as nat,
                    |k: int|
                        if first[k] == FileOutcome::Failed {
                            FileOutcome::Failed
                        } else {
                            FileOutcome::Unchanged
                        },
                ),
            },
        ),
    decreases n,
{
    let outcomes = Seq::new(
        n as nat,
        |k: int|
            if first[k] == FileOutcome::Failed {
                FileOutcome::Failed
            } else {
                FileOutcome::Unchanged
            },
    );
    if n > 0 {
        assert(files.take(n).drop_last() == files.take(n - 1));
        assert(files.take(n).last() == files[n - 1]);
        lemma_again(rows, files, first, again, n - 1);
        let before = visited_all(fresh(rows), files.take(n - 1), again)->0;
        let file = files[n - 1];
        let outcome = outcomes[n - 1];
        assert(before.rows == rows);
        if first[n - 1] == FileOutcome::Failed {
            assert(again[n - 1] is None);
        }
        let after = noted(before, rows, file.path, outcome);
        assert(visited(before, file, again[n - 1]) == Some(after));
        assert(files.take(n).len() - 1 == n - 1);
        assert(visited_all(fresh(rows), files.take(n), again) == visited(
            before,
            file,
            again[n - 1],
        ));
        assert(after.present == file_paths(files.take(n)));
        assert(after.outcomes == outcomes);
    } else {
        assert(file_paths(files.take(0)) == Seq::<Seq<char>>::empty());
        assert(outcomes == Seq::<FileOutcome>::empty());
    }
}

proof fn lemma_again_sums(first: Seq<FileOutcome>, second: Seq<FileOutcome>)
    requires
        first.len() == second.len(),
        forall|k: int|
            0 <= k < first.len() ==> (#[trigger] second[k]) == (if first[k]
                == FileOutcome::Failed {
                FileOutcome::Failed
            } else {
                FileOutcome::Unchanged
            }) && first[k] != FileOutcome::Removed,
    ensures
        summary_of(second).0 == 0,
        summary_of(second).1 == summary_of(first).0 + summary_of(first).1,
        summary_of(second).2 == 0,
        summary_of(second).3 == summary_of(first).3,
    decreases first.len(),
{
    if first.len() > 0 {
        let last = first.len() - 1;
        assert(second[last] == second.last());
        assert forall|k: int| 0 <= k < last implies (#[trigger] second.drop_last()[k]) == (
        if first.drop_last()[k] == FileOutcome::Failed {
            FileOutcome::Failed
        } else {
            FileOutcome::Unchanged
        }) && first.drop_last()[k] != FileOutcome::Removed by {
            assert(second[k] == second.drop_last()[k]);
        }
        lemma_again_sums(first.drop_last(), second.drop_last());
    }
}

/// A second run over the same files indexes nothing and takes nothing out: what was indexed
/// or unchanged is unchanged, provided that what could not be read cannot be read again.
pub proof fn a_second_run_changes_nothing(
    rows: Seq<FileRowView>,
    files: Seq<VaultFile>,
    reads: Seq<Reading>,
    again: Seq<Reading>,
    ids: Seq<Seq<char>>,
)
    requires
        vault_is(rows, files, reads, ids),
        visited_all(fresh(rows), files, reads) is Some,
        forall|k: int|
            0 <= k < files.len() && (#[trigger] visited_all(
                fresh(rows),
                files,
                reads,
            )->0.outcomes[k]) == FileOutcome::Failed ==> again[k] is None,
    ensures
        ({
            let first = finished(visited_all(fresh(rows), files, reads)->0);
            let run = visited_all(fresh(first.rows), files, again);
            let second = finished(run->0);
            let sums = summary_of(first.outcomes);
            &&& run is Some
            &&& second.rows == first.rows
            &&& summary_of(second.outcomes).0 == 0
            &&& summary_of(second.outcomes).1 == sums.0 + sums.1
            &&& summary_of(second.outcomes).2 == 0
            &&& summary_of(second.outcomes).3 == sums.3
        }),
{
    let n = files.len() as int;
    assert(files.take(n) == files);
    let s = visited_all(fresh(rows), files, reads)->0;
    lemma_run_holds(rows, files, reads, ids, n);
    lemma_kept_rows(s.rows, s.present);
    let kept = kept_rows(s.rows, s.present);
    assert forall|k: int|
        0 <= k < files.len() && (#[trigger] s.outcomes[k]) != FileOutcome::Failed implies hash_at(
        kept,
        files[k].path,
    ) == Some(blake3_hex(files[k].content)) by {
        let row = FileRowView {
            note_id: ids[k],
            path: files[k].path,
            hash: blake3_hex(files[k].content),
        };
        assert(row_stands(s.rows, files[k], ids[k]));
        assert(file_paths(files)[k] == files[k].path);
        assert(s.present.contains(row.path));
        assert(kept.contains(row));
        lemma_row_stands(kept, files[k], ids[k]);
    }
    assert forall|k: int|
        0 <= k < files.len() && (#[trigger] s.outcomes[k]) == FileOutcome::Failed implies again[k]
        is None && hash_at(kept, files[k].path) != Some(blake3_hex(files[k].content)) by {
        let hash = blake3_hex(files[k].content);
        lemma_hash_at(kept, files[k].path);
        lemma_hash_at(s.rows, files[k].path);
        if hash_at(kept, files[k].path) == Some(hash) {
            let i = choose|i: int|
                0 <= i < kept.len() && (#[trigger] kept[i]).path == files[k].path && kept[i].hash
                    == hash;
            assert(kept.contains(kept[i]));
            assert(s.rows.contains(kept[i]));
            lemma_row_stands(s.rows, files[k], kept[i].note_id);
        }
    }
    lemma_again(kept, files, s.outcomes, again, n);
    let second = visited_all(fresh(kept), files, again)->0;
    lemma_again_sums(s.outcomes, second.outcomes);
    assert forall|i: int| 0 <= i < kept.len() implies second.present.contains(
        (#[trigger] kept[i]).path,
    ) by {
        assert(kept.contains(kept[i]));
    }
    lemma_none_gone(kept, second.present);
    lemma_summary(s.outcomes, gone_paths(s.rows, s.present).len());
    assert forall|k: int| 0 <= k < second.outcomes.len() implies (#[trigger] second.outcomes[k])
        != FileOutcome::Removed by {
        assert(s.outcomes[k] != FileOutcome::Removed);
    }
    lemma_summary(second.outcomes, 0);
}

// ---------------------------------------------------------------------------
// Storing a note
// ---------------------------------------------------------------------------

/// A card that the index holds.
#[derive(Debug)]
pub struct StoredCard {
    pub id: i64,
    pub uid: String,
    pub section_uid: String,
    pub card_type: String,
}

/// A section that the index holds for the note.
#[derive(Debug)]
pub struct StoredSection {
    pub id: i64,
    pub uid: String,
}

/// One change to the index. Sections, actions, relations, cards and diagnostics are
/// named by where they stand in the note.
#[derive(Debug, Clone, Copy, PartialEq, Eq, Structural)]
pub enum NoteWrite {
    /// Insert the note, or update the one with its id.
    PutFile,
    /// Insert the section, or update the one with its uid.
    PutSection(usize),
    /// Take out what the section had of relations and actions.
    ClearSection(usize),
    PutAction(usize, usize),
    PutRelation(usize, usize),
    /// Insert the card, or update the one with its uid. Its schedule stays.
    PutCard(usize, usize),
    /// Give the card a schedule, unless it has one.
    Schedule(usize, usize),
    /// Update what the card shows that reviews the section as a whole, from
    /// [`crate::quiz::section_review`].
    RefreshSectionReview(usize),
    DeleteCard(i64),
    /// Take out a section, and the cards of it.
    DeleteSection(i64),
    ClearDiagnostics,
    PutDiagnostic(usize),
}

/// One write for each action.
pub open spec fn action_writes(section: usize, count: nat) -> Seq<NoteWrite> {
    Seq::new(count, |k: int| NoteWrite::PutAction(section, k as usize))
}

/// One write for each relation.
pub open spec fn relation_writes(section: usize, count: nat) -> Seq<NoteWrite> {
    Seq::new(count, |k: int| NoteWrite::PutRelation(section, k as usize))
}

/// Two writes for each card: its content, and a schedule if it has none.
pub open spec fn card_writes(section: usize, count: nat) -> Seq<NoteWrite> {
    Seq::new(
        2 * count,
        |k: int|
            if k % 2 == 0 {
                NoteWrite::PutCard(section, (k / 2) as usize)
            } else {
                NoteWrite::Schedule(section, (k / 2) as usize)
            },
    )
}

pub open spec fn card_uids(cards: Seq<CardDefinition>) -> Seq<Seq<char>> {
    Seq::new(cards.len(), |i: int| cards[i].uid@)
}

/// Whether a stored card is left over in a section that now has these cards. A card
/// that reviews the section as a whole is never left over.
pub open spec fn left_over(card: StoredCard, section_uid: Seq<char>, uids: Seq<Seq<char>>) -> bool {
    card.section_uid@ == section_uid && !uids.contains(card.uid@) && card.card_type@
        != "section-review"@
}

/// The writes that take out left-over cards.
pub open spec fn card_deletes(
    stored: Seq<StoredCard>,
    section_uid: Seq<char>,
    uids: Seq<Seq<char>>,
) -> Seq<NoteWrite>
    decreases stored.len(),
{
    if stored.len() == 0 {
        Seq::empty()
    } else {
        let before = card_deletes(stored.drop_last(), section_uid, uids);
        if left_over(stored.last(), section_uid, uids) {
            before.push(NoteWrite::DeleteCard(stored.last().id))
        } else {
            before
        }
    }
}

/// The writes for one section.
pub open spec fn section_writes(
    section: ParsedSection,
    at: usize,
    stored: Seq<StoredCard>,
) -> Seq<NoteWrite> {
    seq![NoteWrite::PutSection(at), NoteWrite::ClearSection(at)] + action_writes(
        at,
        section.actions@.len(),
    ) + relation_writes(at, section.relations@.len()) + card_writes(at, section.cards@.len())
        + seq![NoteWrite::RefreshSectionReview(at)] + card_deletes(
        stored,
        section.uid@,
        card_uids(section.cards@),
    )
}

/// The writes for the first sections.
pub open spec fn sections_writes(
    sections: Seq<ParsedSection>,
    stored: Seq<StoredCard>,
    count: int,
) -> Seq<NoteWrite>
    decreases count,
{
    if count <= 0 {
        Seq::empty()
    } else {
        sections_writes(sections, stored, count - 1) + section_writes(
            sections[count - 1],
            (count - 1) as usize,
            stored,
        )
    }
}

pub open spec fn uids_of(sections: Seq<ParsedSection>) -> Seq<Seq<char>> {
    Seq::new(sections.len(), |i: int| sections[i].uid@)
}

/// The writes that take out sections that the note no longer has.
pub open spec fn section_deletes(stored: Seq<StoredSection>, uids: Seq<Seq<char>>) -> Seq<NoteWrite>
    decreases stored.len(),
{
    if stored.len() == 0 {
        Seq::empty()
    } else {
        let before = section_deletes(stored.drop_last(), uids);
        if uids.contains(stored.last().uid@) {
            before
        } else {
            before.push(NoteWrite::DeleteSection(stored.last().id))
        }
    }
}

pub open spec fn diagnostic_writes(count: nat) -> Seq<NoteWrite> {
    Seq::new(count, |k: int| NoteWrite::PutDiagnostic(k as usize))
}

/// All writes that store a note.
pub open spec fn note_writes(
    note: ParsedNote,
    cards: Seq<StoredCard>,
    sections: Seq<StoredSection>,
) -> Seq<NoteWrite> {
    seq![NoteWrite::PutFile] + sections_writes(
        note.sections@,
        cards,
        note.sections@.len() as int,
    ) + section_deletes(sections, uids_of(note.sections@)) + seq![NoteWrite::ClearDiagnostics]
        + diagnostic_writes(note.diagnostics@.len())
}

fn section_changes(
    writes: &mut Vec<NoteWrite>,
    section: &ParsedSection,
    at: usize,
    stored: &Vec<StoredCard>,
)
    ensures
        final(writes)@ == old(writes)@ + section_writes(*section, at, stored@),
{
    let ghost start = writes@;
    writes.push(NoteWrite::PutSection(at));
    writes.push(NoteWrite::ClearSection(at));
    let ghost head = seq![NoteWrite::PutSection(at), NoteWrite::ClearSection(at)];
    assert(writes@ == start + head);
    let ghost base = writes@;
    let ghost all = action_writes(at, section.actions@.len());
    let mut k: usize = 0;
    assert(base + all.take(0) == base);
    while k < section.actions.len()
        invariant
            0 <= k <= section.actions.len(),
            all == action_writes(at, section.actions@.len()),
            writes@ == base + all.take(k as int),
        decreases section.actions.len() - k,
    {
        writes.push(NoteWrite::PutAction(at, k));
        assert(all.take(k + 1) == all.take(k as int).push(all[k as int]));
        assert(writes@ == base + all.take(k + 1));
        k += 1;
    }
    assert(all.take(k as int) == all);
    let ghost head = head + all;
    assert(writes@ == start + head);
    let ghost base = writes@;
    let ghost all = relation_writes(at, section.relations@.len());
    let mut k: usize = 0;
    assert(base + all.take(0) == base);
    while k < section.relations.len()
        invariant
            0 <= k <= section.relations.len(),
            all == relation_writes(at, section.relations@.len()),
            writes@ == base + all.take(k as int),
        decreases section.relations.len() - k,
    {
        writes.push(NoteWrite::PutRelation(at, k));
        assert(all.take(k + 1) == all.take(k as int).push(all[k as int]));
        assert(writes@ == base + all.take(k + 1));
        k += 1;
    }
    assert(all.take(k as int) == all);
    let ghost head = head + all;
    assert(writes@ == start + head);
    let ghost base = writes@;
    let ghost all = card_writes(at, section.cards@.len());
    let mut uids: Vec<String> = Vec::new();
    let mut k: usize = 0;
    assert(base + all.take(0) == base);
    while k < section.cards.len()
        invariant
            0 <= k <= section.cards.len(),
            all == card_writes(at, section.cards@.len()),
            writes@ == base + all.take(2 * k),
            uids.len() == k,
            forall|j: int| 0 <= j < k ==> (#[trigger] uids@[j])@ == section.cards@[j].uid@,
        decreases section.cards.len() - k,
    {
        uids.push(section.cards[k].uid.clone());
        writes.push(NoteWrite::PutCard(at, k));
        writes.push(NoteWrite::Schedule(at, k));
        assert((2 * k) / 2 == k && (2 * k + 1) / 2 == k && (2 * k) % 2 == 0 && (2 * k + 1) % 2
            == 1);
        assert(all[2 * k] == NoteWrite::PutCard(at, k));
        assert(all[2 * k + 1] == NoteWrite::Schedule(at, k));
        assert(all.take(2 * (k + 1)) == all.take(2 * k).push(all[2 * k]).push(all[2 * k + 1]));
        assert(writes@ == base + all.take(2 * (k + 1)));
        k += 1;
    }
    assert(all.take(2 * k) == all);
    assert(texts(uids@) == card_uids(section.cards@));
    let ghost head = head + all;
    assert(writes@ == start + head);
    writes.push(NoteWrite::RefreshSectionReview(at));
    let ghost head = head + seq![NoteWrite::RefreshSectionReview(at)];
    assert(writes@ == start + head);
    let ghost base = writes@;
    let mut k: usize = 0;
    assert(stored@.take(0) == Seq::<StoredCard>::empty());
    assert(base + Seq::<NoteWrite>::empty() == base);
    while k < stored.len()
        invariant
            0 <= k <= stored.len(),
            texts(uids@) == card_uids(section.cards@),
            writes@ == base + card_deletes(
                stored@.take(k as int),
                section.uid@,
                card_uids(section.cards@),
            ),
        decreases stored.len() - k,
    {
        assert(stored@.take(k + 1).drop_last() == stored@.take(k as int));
        assert(stored@.take(k + 1).last() == stored@[k as int]);
        let ghost before = card_deletes(
            stored@.take(k as int),
            section.uid@,
            card_uids(section.cards@),
        );
        if text_eq(stored[k].section_uid.as_str(), section.uid.as_str()) && !holds(
            &uids,
            stored[k].uid.as_str(),
        ) && !text_eq(stored[k].card_type.as_str(), "section-review") {
            writes.push(NoteWrite::DeleteCard(stored[k].id));
            assert(writes@ == base + before.push(NoteWrite::DeleteCard(stored@[k as int].id)));
        }
        k += 1;
    }
    assert(stored@.take(stored.len() as int) == stored@);
    assert(writes@ == start + section_writes(*section, at, stored@));
}

/// The changes that store a note in the index, given the cards that the index holds
/// of its sections and the sections that it holds of the note.
pub fn replace_note(
    note: &ParsedNote,
    cards: &Vec<StoredCard>,
    sections: &Vec<StoredSection>,
) -> (r: Vec<NoteWrite>)
    ensures
        r@ == note_writes(*note, cards@, sections@),
{
    let mut writes: Vec<NoteWrite> = Vec::new();
    writes.push(NoteWrite::PutFile);
    let ghost head = seq![NoteWrite::PutFile];
    assert(writes@ == head);
    let mut uids: Vec<String> = Vec::new();
    let mut i: usize = 0;
    assert(head + Seq::<NoteWrite>::empty() == head);
    while i < note.sections.len()
        invariant
            0 <= i <= note.sections.len(),
            writes@ == head + sections_writes(note.sections@, cards@, i as int),
            uids.len() == i,
            forall|j: int| 0 <= j < i ==> (#[trigger] uids@[j])@ == note.sections@[j].uid@,
        decreases note.sections.len() - i,
    {
        let ghost before = sections_writes(note.sections@, cards@, i as int);
        uids.push(note.sections[i].uid.clone());
        section_changes(&mut writes, &note.sections[i], i, cards);
        assert(writes@ == head + sections_writes(note.sections@, cards@, i + 1));
        i += 1;
    }
    assert(texts(uids@) == uids_of(note.sections@));
    let ghost head = writes@;
    let mut k: usize = 0;
    assert(sections@.take(0) == Seq::<StoredSection>::empty());
    assert(head + Seq::<NoteWrite>::empty() == head);
    while k < sections.len()
        invariant
            0 <= k <= sections.len(),
            texts(uids@) == uids_of(note.sections@),
            writes@ == head + section_deletes(
                sections@.take(k as int),
                uids_of(note.sections@),
            ),
        decreases sections.len() - k,
    {
        assert(sections@.take(k + 1).drop_last() == sections@.take(k as int));
        assert(sections@.take(k + 1).last() == sections@[k as int]);
        let ghost before = section_deletes(sections@.take(k as int), uids_of(note.sections@));
        if !holds(&uids, sections[k].uid.as_str()) {
            writes.push(NoteWrite::DeleteSection(sections[k].id));
            assert(writes@ == head + before.push(NoteWrite::DeleteSection(sections@[k as int].id)));
        }
        k += 1;
    }
    assert(sections@.take(sections.len() as int) == sections@);
    writes.push(NoteWrite::ClearDiagnostics);
    let ghost head = writes@;
    let ghost all = diagnostic_writes(note.diagnostics@.len());
    let mut k: usize = 0;
    assert(head + all.take(0) == head);
    while k < note.diagnostics.len()
        invariant
            0 <= k <= note.diagnostics.len(),
            all == diagnostic_writes(note.diagnostics@.len()),
            writes@ == head + all.take(k as int),
        decreases note.diagnostics.len() - k,
    {
        writes.push(NoteWrite::PutDiagnostic(k));
        assert(all.take(k + 1) == all.take(k as int).push(all[k as int]));
        assert(writes@ == head + all.take(k + 1));
        k += 1;
    }
    assert(all.take(k as int) == all);
    assert(writes@ == note_writes(*note, cards@, sections@));
    writes
}

// ---------------------------------------------------------------------------
// Laws of storing
// ---------------------------------------------------------------------------

proof fn lemma_card_delete(
    stored: Seq<StoredCard>,
    section_uid: Seq<char>,
    uids: Seq<Seq<char>>,
    id: i64,
)
    ensures
        card_deletes(stored, section_uid, uids).contains(NoteWrite::DeleteCard(id)) ==> exists|
            j: int,
        |
            0 <= j < stored.len() && (#[trigger] stored[j]).id == id && left_over(
                stored[j],
                section_uid,
                uids,
            ),
        forall|k: int|
            0 <= k < card_deletes(stored, section_uid, uids).len() ==> (#[trigger] card_deletes(
                stored,
                section_uid,
                uids,
            )[k]) is DeleteCard,
    decreases stored.len(),
{
    if stored.len() > 0 {
        let rest = stored.drop_last();
        lemma_card_delete(rest, section_uid, uids, id);
        let before = card_deletes(rest, section_uid, uids);
        let all = card_deletes(stored, section_uid, uids);
        let w = NoteWrite::DeleteCard(id);
        if all.contains(w) {
            let k = choose|k: int| 0 <= k < all.len() && all[k] == w;
            if k < before.len() {
                assert(before[k] == w);
                assert(before.contains(w));
                let j = choose|j: int|
                    0 <= j < rest.len() && (#[trigger] rest[j]).id == id && left_over(
                        rest[j],
                        section_uid,
                        uids,
                    );
                assert(stored[j] == rest[j]);
            } else {
                assert(stored[stored.len() - 1].id == id);
            }
        }
    }
}

proof fn lemma_section_deletes_kind(stored: Seq<StoredSection>, uids: Seq<Seq<char>>)
    ensures
        forall|k: int|
            0 <= k < section_deletes(stored, uids).len() ==> (#[trigger] section_deletes(
                stored,
                uids,
            )[k]) is DeleteSection,
    decreases stored.len(),
{
    if stored.len() > 0 {
        lemma_section_deletes_kind(stored.drop_last(), uids);
    }
}

proof fn lemma_section_delete_card(
    section: ParsedSection,
    at: usize,
    stored: Seq<StoredCard>,
    id: i64,
)
    requires
        section_writes(section, at, stored).contains(NoteWrite::DeleteCard(id)),
    ensures
        exists|j: int|
            0 <= j < stored.len() && (#[trigger] stored[j]).id == id && left_over(
                stored[j],
                section.uid@,
                card_uids(section.cards@),
            ),
{
    let w = NoteWrite::DeleteCard(id);
    let a = seq![NoteWrite::PutSection(at), NoteWrite::ClearSection(at)];
    let b = action_writes(at, section.actions@.len());
    let c = relation_writes(at, section.relations@.len());
    let d = card_writes(at, section.cards@.len());
    let e = seq![NoteWrite::RefreshSectionReview(at)];
    let f = card_deletes(stored, section.uid@, card_uids(section.cards@));
    let all = section_writes(section, at, stored);
    let k = choose|k: int| 0 <= k < all.len() && all[k] == w;
    let front = a + b + c + d + e;
    assert(all == front + f);
    if k < front.len() {
        let n1 = a.len() as int;
        let n2 = n1 + b.len();
        let n3 = n2 + c.len();
        let n4 = n3 + d.len();
        if k < n1 {
            assert(front[k] == a[k]);
        } else if k < n2 {
            assert(front[k] == b[k - n1]);
        } else if k < n3 {
            assert(front[k] == c[k - n2]);
        } else if k < n4 {
            assert(front[k] == d[k - n3]);
        } else {
            assert(front[k] == e[k - n4]);
        }
        assert(false);
    }
    assert(f[k - front.len()] == w);
    assert(f.contains(w));
    lemma_card_delete(stored, section.uid@, card_uids(section.cards@), id);
}

proof fn lemma_sections_delete_card(
    sections: Seq<ParsedSection>,
    stored: Seq<StoredCard>,
    count: int,
    id: i64,
)
    requires
        0 <= count <= sections.len(),
        sections_writes(sections, stored, count).contains(NoteWrite::DeleteCard(id)),
    ensures
        exists|s: int, j: int|
            0 <= s < sections.len() && 0 <= j < stored.len() && (#[trigger] stored[j]).id == id
                && left_over(
                stored[j],
                (#[trigger] sections[s]).uid@,
                card_uids(sections[s].cards@),
            ),
    decreases count,
{
    if count > 0 {
        let w = NoteWrite::DeleteCard(id);
        let before = sections_writes(sections, stored, count - 1);
        let last = section_writes(sections[count - 1], (count - 1) as usize, stored);
        let all = sections_writes(sections, stored, count);
        let k = choose|k: int| 0 <= k < all.len() && all[k] == w;
        if k < before.len() {
            assert(before[k] == w);
            assert(before.contains(w));
            lemma_sections_delete_card(sections, stored, count - 1, id);
        } else {
            assert(last[k - before.len()] == w);
            assert(last.contains(w));
            lemma_section_delete_card(
                sections[count - 1],
                (count - 1) as usize,
                stored,
                id,
            );
            let j = choose|j: int|
                0 <= j < stored.len() && (#[trigger] stored[j]).id == id && left_over(
                    stored[j],
                    sections[count - 1].uid@,
                    card_uids(sections[count - 1].cards@),
                );
            assert(stored[j].id == id && sections[count - 1].uid@ == sections[count - 1].uid@);
        }
    }
}

/// Storing a note takes out a card only when it is left over: one whose uid the note
/// still has keeps its row, and with it its schedule and its reviews. So does the card
/// that reviews a section as a whole.
pub proof fn cards_with_the_same_uid_are_kept(
    note: ParsedNote,
    cards: Seq<StoredCard>,
    sections: Seq<StoredSection>,
    id: i64,
)
    requires
        note_writes(note, cards, sections).contains(NoteWrite::DeleteCard(id)),
    ensures
        exists|s: int, j: int|
            0 <= s < note.sections@.len() && 0 <= j < cards.len() && (#[trigger] cards[j]).id == id
                && left_over(
                cards[j],
                (#[trigger] note.sections@[s]).uid@,
                card_uids(note.sections@[s].cards@),
            ),
{
    let w = NoteWrite::DeleteCard(id);
    let count = note.sections@.len() as int;
    let a = seq![NoteWrite::PutFile];
    let b = sections_writes(note.sections@, cards, count);
    let c = section_deletes(sections, uids_of(note.sections@));
    let d = seq![NoteWrite::ClearDiagnostics];
    let e = diagnostic_writes(note.diagnostics@.len());
    let all = note_writes(note, cards, sections);
    lemma_section_deletes_kind(sections, uids_of(note.sections@));
    let k = choose|k: int| 0 <= k < all.len() && all[k] == w;
    let n1 = a.len() as int;
    let n2 = n1 + b.len();
    let n3 = n2 + c.len();
    let n4 = n3 + d.len();
    if k < n1 {
        assert(all[k] == a[k]);
        assert(false);
    } else if k < n2 {
        assert(all[k] == b[k - n1]);
        assert(b.contains(w));
        lemma_sections_delete_card(note.sections@, cards, count, id);
    } else if k < n3 {
        assert(all[k] == c[k - n2]);
        assert(false);
    } else if k < n4 {
        assert(all[k] == d[k - n3]);
        assert(false);
    } else {
        assert(all[k] == e[k - n4]);
        assert(false);
    }
}

proof fn lemma_card_deletes_kind(
    stored: Seq<StoredCard>,
    section_uid: Seq<char>,
    uids: Seq<Seq<char>>,
)
    ensures
        forall|k: int|
            0 <= k < card_deletes(stored, section_uid, uids).len() ==> (#[trigger] card_deletes(
                stored,
                section_uid,
                uids,
            )[k]) is DeleteCard,
    decreases stored.len(),
{
    if stored.len() > 0 {
        lemma_card_deletes_kind(stored.drop_last(), section_uid, uids);
    }
}

proof fn lemma_sections_delete_none(
    sections: Seq<ParsedSection>,
    stored: Seq<StoredCard>,
    count: int,
    k: int,
)
    requires
        0 <= count <= sections.len(),
        0 <= k < sections_writes(sections, stored, count).len(),
    ensures
        !(sections_writes(sections, stored, count)[k] is DeleteSection),
    decreases count,
{
    if count > 0 {
        let before = sections_writes(sections, stored, count - 1);
        if k < before.len() {
            lemma_sections_delete_none(sections, stored, count - 1, k);
        } else {
            let section = sections[count - 1];
            let at = (count - 1) as usize;
            let a = seq![NoteWrite::PutSection(at), NoteWrite::ClearSection(at)];
            let b = action_writes(at, section.actions@.len());
            let c = relation_writes(at, section.relations@.len());
            let d = card_writes(at, section.cards@.len());
            let e = seq![NoteWrite::RefreshSectionReview(at)];
            let f = card_deletes(stored, section.uid@, card_uids(section.cards@));
            lemma_card_deletes_kind(stored, section.uid@, card_uids(section.cards@));
            let all = section_writes(section, at, stored);
            let i = k - before.len();
            let n1 = a.len() as int;
            let n2 = n1 + b.len();
            let n3 = n2 + c.len();
            let n4 = n3 + d.len();
            let n5 = n4 + e.len();
            assert(all == a + b + c + d + e + f);
            if i < n1 {
                assert(all[i] == a[i]);
            } else if i < n2 {
                assert(all[i] == b[i - n1]);
            } else if i < n3 {
                assert(all[i] == c[i - n2]);
            } else if i < n4 {
                assert(all[i] == d[i - n3]);
            } else if i < n5 {
                assert(all[i] == e[i - n4]);
            } else {
                assert(all[i] == f[i - n5]);
            }
        }
    }
}

proof fn lemma_deleted_section(stored: Seq<StoredSection>, uids: Seq<Seq<char>>, k: int) -> (at: int)
    requires
        0 <= k < section_deletes(stored, uids).len(),
    ensures
        0 <= at < stored.len(),
        section_deletes(stored, uids)[k] == NoteWrite::DeleteSection(stored[at].id),
        !uids.contains(stored[at].uid@),
    decreases stored.len(),
{
    let before = section_deletes(stored.drop_last(), uids);
    if k < before.len() {
        let at = lemma_deleted_section(stored.drop_last(), uids, k);
        assert(stored.drop_last()[at] == stored[at]);
        at
    } else {
        stored.len() - 1
    }
}

/// Reindexing preserves review state for unchanged card uids: a card that its section still
/// has keeps its row, and so does the section.
pub proof fn reindexing_keeps_review_state(
    note: ParsedNote,
    cards: Seq<StoredCard>,
    sections: Seq<StoredSection>,
    s: int,
    j: int,
    row: int,
)
    requires
        uids_of(note.sections@).no_duplicates(),
        forall|a: int, b: int|
            0 <= a < b < cards.len() ==> (#[trigger] cards[a]).id != (#[trigger] cards[b]).id,
        forall|a: int, b: int|
            0 <= a < b < sections.len() ==> (#[trigger] sections[a]).id != (#[trigger] sections[b]).id,
        0 <= s < note.sections@.len(),
        0 <= j < cards.len(),
        cards[j].section_uid@ == note.sections@[s].uid@,
        card_uids(note.sections@[s].cards@).contains(cards[j].uid@),
        0 <= row < sections.len(),
        sections[row].uid@ == note.sections@[s].uid@,
    ensures
        !note_writes(note, cards, sections).contains(NoteWrite::DeleteCard(cards[j].id)),
        !note_writes(note, cards, sections).contains(NoteWrite::DeleteSection(sections[row].id)),
{
    let all = note_writes(note, cards, sections);
    let uids = uids_of(note.sections@);
    if all.contains(NoteWrite::DeleteCard(cards[j].id)) {
        cards_with_the_same_uid_are_kept(note, cards, sections, cards[j].id);
        let (t, i) = choose|t: int, i: int|
            0 <= t < note.sections@.len() && 0 <= i < cards.len() && (#[trigger] cards[i]).id
                == cards[j].id && left_over(
                cards[i],
                (#[trigger] note.sections@[t]).uid@,
                card_uids(note.sections@[t].cards@),
            );
        assert(i == j);
        assert(uids[t] == uids[s]);
        assert(t == s);
        assert(false);
    }
    let w = NoteWrite::DeleteSection(sections[row].id);
    if all.contains(w) {
        let k = choose|k: int| 0 <= k < all.len() && all[k] == w;
        let count = note.sections@.len() as int;
        let a = seq![NoteWrite::PutFile];
        let b = sections_writes(note.sections@, cards, count);
        let c = section_deletes(sections, uids);
        let d = seq![NoteWrite::ClearDiagnostics];
        let e = diagnostic_writes(note.diagnostics@.len());
        let n1 = a.len() as int;
        let n2 = n1 + b.len();
        let n3 = n2 + c.len();
        let n4 = n3 + d.len();
        if k < n1 {
            assert(all[k] == a[k]);
        } else if k < n2 {
            assert(all[k] == b[k - n1]);
            lemma_sections_delete_none(note.sections@, cards, count, k - n1);
        } else if k < n3 {
            assert(all[k] == c[k - n2]);
            let at = lemma_deleted_section(sections, uids, k - n2);
            assert(at == row);
            assert(uids[s] == sections[row].uid@);
            assert(uids.contains(uids[s]));
        } else if k < n4 {
            assert(all[k] == d[k - n3]);
        } else {
            assert(all[k] == e[k - n4]);
        }
        assert(false);
    }
}

// ---------------------------------------------------------------------------
// Contradictions
// ---------------------------------------------------------------------------

/// A `contradicts` relation between two sections that are not archived.
#[derive(Debug)]
pub struct ContradictionRow {
    pub pair: ContradictionPair,
    /// The `status:` of the note on either side.
    pub left_status: Option<String>,
    pub right_status: Option<String>,
    /// Whether a `supersedes` relation joins the two, either way.
    pub superseded: bool,
}

/// Whether a note's status says that it no longer counts.
pub open spec fn is_settled(status: Option<Seq<char>>) -> bool {
    status == Some("obsolete"@) || status == Some("archived"@)
}

/// Whether nothing marks which side won.
pub open spec fn is_open(row: ContradictionRow) -> bool {
    !is_settled(opt_view(row.left_status)) && !is_settled(opt_view(row.right_status))
        && !row.superseded
}

/// The two uids of a pair, in order.
pub open spec fn pair_key(left: Seq<char>, right: Seq<char>) -> (Seq<char>, Seq<char>) {
    if text_before(right, left) {
        (right, left)
    } else {
        (left, right)
    }
}

pub open spec fn row_key(row: ContradictionRow) -> (Seq<char>, Seq<char>) {
    pair_key(row.pair.left_uid@, row.pair.right_uid@)
}

/// The keys of rows.
pub open spec fn keys_at(rows: Seq<ContradictionRow>, places: Seq<usize>) -> Seq<
    (Seq<char>, Seq<char>),
> {
    Seq::new(places.len(), |i: int| row_key(rows[places[i] as int]))
}

/// The places of the first `count` rows that are open, one for each pair whichever way
/// the relation points.
pub open spec fn open_places(rows: Seq<ContradictionRow>, count: int) -> Seq<usize>
    decreases count,
{
    if count <= 0 {
        Seq::empty()
    } else {
        let before = open_places(rows, count - 1);
        let row = rows[count - 1];
        if is_open(row) && !keys_at(rows, before).contains(row_key(row)) {
            before.push((count - 1) as usize)
        } else {
            before
        }
    }
}

fn settled(status: &Option<String>) -> (r: bool)
    ensures
        r == is_settled(opt_view(*status)),
{
    match status {
        Some(s) => text_eq(s.as_str(), "obsolete") || text_eq(s.as_str(), "archived"),
        None => false,
    }
}

fn same_pair(a: &ContradictionRow, b: &ContradictionRow) -> (r: bool)
    ensures
        r == (row_key(*a) == row_key(*b)),
{
    let (a1, a2) = if text_comes_before(a.pair.right_uid.as_str(), a.pair.left_uid.as_str()) {
        (a.pair.right_uid.as_str(), a.pair.left_uid.as_str())
    } else {
        (a.pair.left_uid.as_str(), a.pair.right_uid.as_str())
    };
    let (b1, b2) = if text_comes_before(b.pair.right_uid.as_str(), b.pair.left_uid.as_str()) {
        (b.pair.right_uid.as_str(), b.pair.left_uid.as_str())
    } else {
        (b.pair.left_uid.as_str(), b.pair.right_uid.as_str())
    };
    text_eq(a1, b1) && text_eq(a2, b2)
}

/// The places of the relations that say two sections disagree with nothing to choose
/// between them, each disagreement once.
pub fn unresolved_contradictions(rows: &Vec<ContradictionRow>) -> (r: Vec<usize>)
    ensures
        r@ == open_places(rows@, rows.len() as int),
{
    let mut r: Vec<usize> = Vec::new();
    let mut i: usize = 0;
    while i < rows.len()
        invariant
            0 <= i <= rows.len(),
            r@ == open_places(rows@, i as int),
            forall|k: int| 0 <= k < r.len() ==> (#[trigger] r@[k]) < i,
        decreases rows.len() - i,
    {
        let open = !settled(&rows[i].left_status) && !settled(&rows[i].right_status)
            && !rows[i].superseded;
        if open {
            let ghost keys = keys_at(rows@, r@);
            let mut known: bool = false;
            let mut k: usize = 0;
            while k < r.len() && !known
                invariant
                    0 <= k <= r.len(),
                    i < rows.len(),
                    keys == keys_at(rows@, r@),
                    forall|j: int| 0 <= j < r.len() ==> (#[trigger] r@[j]) < i,
                    known ==> keys.contains(row_key(rows@[i as int])),
                    !known ==> forall|j: int|
                        0 <= j < k ==> #[trigger] keys[j] != row_key(rows@[i as int]),
                decreases r.len() - k,
            {
                assert(keys[k as int] == row_key(rows@[r@[k as int] as int]));
                if same_pair(&rows[r[k]], &rows[i]) {
                    known = true;
                }
                k += 1;
            }
            assert(known == keys.contains(row_key(rows@[i as int])));
            if !known {
                r.push(i);
            }
        }
        i += 1;
    }
    r
}

proof fn lemma_open_places(rows: Seq<ContradictionRow>, count: int)
    requires
        0 <= count <= rows.len(),
        rows.len() <= usize::MAX,
    ensures
        keys_at(rows, open_places(rows, count)).no_duplicates(),
        forall|k: int|
            0 <= k < open_places(rows, count).len() ==> (#[trigger] open_places(rows, count)[k])
                < count && is_open(rows[open_places(rows, count)[k] as int]),
        forall|i: int|
            0 <= i < count && is_open(#[trigger] rows[i]) ==> keys_at(
                rows,
                open_places(rows, count),
            ).contains(row_key(rows[i])),
    decreases count,
{
    if count > 0 {
        lemma_open_places(rows, count - 1);
        let before = open_places(rows, count - 1);
        let all = open_places(rows, count);
        let old_keys = keys_at(rows, before);
        let keys = keys_at(rows, all);
        if all.len() > before.len() {
            assert(keys == old_keys.push(row_key(rows[count - 1])));
        }
        assert forall|i: int| 0 <= i < count && is_open(#[trigger] rows[i]) implies keys.contains(
            row_key(rows[i]),
        ) by {
            if i < count - 1 {
                let k = choose|k: int| 0 <= k < old_keys.len() && old_keys[k] == row_key(rows[i]);
                assert(keys[k] == row_key(rows[i]));
            } else if all.len() > before.len() {
                assert(keys[before.len() as int] == row_key(rows[i]));
            }
        }
    }
}

/// A disagreement is reported exactly once, whichever way its relations point, and only
/// while nothing marks which side won.
pub proof fn each_open_disagreement_is_reported_once(rows: Seq<ContradictionRow>)
    requires
        rows.len() <= usize::MAX,
    ensures
        keys_at(rows, open_places(rows, rows.len() as int)).no_duplicates(),
        forall|i: int|
            0 <= i < rows.len() && is_open(#[trigger] rows[i]) ==> keys_at(
                rows,
                open_places(rows, rows.len() as int),
            ).contains(row_key(rows[i])),
        forall|k: int|
            0 <= k < open_places(rows, rows.len() as int).len() ==> is_open(
                rows[(#[trigger] open_places(rows, rows.len() as int)[k]) as int],
            ),
{
    lemma_open_places(rows, rows.len() as int);
}

/// The two directions of a disagreement have the same key.
pub proof fn a_mutual_contradiction_is_one_pair(left: Seq<char>, right: Seq<char>)
    ensures
        pair_key(left, right) == pair_key(right, left),
{
    crate::text::lemma_text_before_total(left, right);
}

// ---------------------------------------------------------------------------
// Relations of a section
// ---------------------------------------------------------------------------

/// A stored relation whose source is not archived. A target that is archived has no
/// such row; one that does not exist has no heading.
#[derive(Debug)]
pub struct StoredRelation {
    pub relation_type: String,
    pub source_uid: String,
    pub source_heading: String,
    pub target_uid: String,
    pub target_heading: Option<String>,
    pub target_exists: bool,
}

/// What a [`RelationRow`] says.
#[verifier::ext_equal]
pub struct RelationRowView {
    pub relation_type: Seq<char>,
    pub target_uid: Seq<char>,
    pub target_heading: Option<Seq<char>>,
    pub incoming: bool,
}

impl View for RelationRow {
    type V = RelationRowView;

    open spec fn view(&self) -> RelationRowView {
        RelationRowView {
            relation_type: self.relation_type@,
            target_uid: self.target_uid@,
            target_heading: opt_view(self.target_heading),
            incoming: self.incoming,
        }
    }
}

pub open spec fn relation_rows_view(v: Seq<RelationRow>) -> Seq<RelationRowView> {
    Seq::new(v.len(), |i: int| v[i]@)
}

/// The relations that the section declares, or that others declare of it. An `ingoing`
/// relation points back at the section that declares it, so it counts the other way.
pub open spec fn relation_view(
    row: StoredRelation,
    uid: Seq<char>,
    declared: bool,
    ingoing: bool,
) -> Option<RelationRowView> {
    let is_ingoing = row.relation_type@ == "ingoing"@;
    if is_ingoing != ingoing {
        None
    } else if declared && row.source_uid@ == uid {
        Some(
            RelationRowView {
                relation_type: row.relation_type@,
                target_uid: row.target_uid@,
                target_heading: opt_view(row.target_heading),
                incoming: ingoing,
            },
        )
    } else if !declared && row.target_uid@ == uid && row.target_exists {
        Some(
            RelationRowView {
                relation_type: row.relation_type@,
                target_uid: row.source_uid@,
                target_heading: Some(row.source_heading@),
                incoming: !ingoing,
            },
        )
    } else {
        None
    }
}

pub open spec fn relations_part(
    rows: Seq<StoredRelation>,
    uid: Seq<char>,
    declared: bool,
    ingoing: bool,
) -> Seq<RelationRowView>
    decreases rows.len(),
{
    if rows.len() == 0 {
        Seq::empty()
    } else {
        let before = relations_part(rows.drop_last(), uid, declared, ingoing);
        match relation_view(rows.last(), uid, declared, ingoing) {
            Some(v) => before.push(v),
            None => before,
        }
    }
}

/// The relations of a section: those it declares, those that point at it, and the
/// `ingoing` ones of either kind.
pub open spec fn relations_of_section(rows: Seq<StoredRelation>, uid: Seq<char>) -> Seq<
    RelationRowView,
> {
    relations_part(rows, uid, true, false) + relations_part(rows, uid, false, false)
        + relations_part(rows, uid, false, true) + relations_part(rows, uid, true, true)
}

fn add_relations(
    out: &mut Vec<RelationRow>,
    rows: &Vec<StoredRelation>,
    uid: &str,
    declared: bool,
    ingoing: bool,
)
    ensures
        relation_rows_view(final(out)@) == relation_rows_view(old(out)@) + relations_part(
            rows@,
            uid@,
            declared,
            ingoing,
        ),
{
    let ghost start = relation_rows_view(out@);
    let mut i: usize = 0;
    assert(rows@.take(0) == Seq::<StoredRelation>::empty());
    assert(start + Seq::<RelationRowView>::empty() == start);
    while i < rows.len()
        invariant
            0 <= i <= rows.len(),
            relation_rows_view(out@) == start + relations_part(
                rows@.take(i as int),
                uid@,
                declared,
                ingoing,
            ),
        decreases rows.len() - i,
    {
        assert(rows@.take(i + 1).drop_last() == rows@.take(i as int));
        assert(rows@.take(i + 1).last() == rows@[i as int]);
        let row = &rows[i];
        let ghost before = relation_rows_view(out@);
        let ghost part = relations_part(rows@.take(i as int), uid@, declared, ingoing);
        let is_ingoing = text_eq(row.relation_type.as_str(), "ingoing");
        if is_ingoing == ingoing {
            if declared {
                if text_eq(row.source_uid.as_str(), uid) {
                    let one = RelationRow {
                        relation_type: row.relation_type.clone(),
                        target_uid: row.target_uid.clone(),
                        target_heading: clone_text(&row.target_heading),
                        incoming: ingoing,
                    };
                    let ghost v = one@;
                    out.push(one);
                    assert(relation_rows_view(out@) == before.push(v));
                    assert(before.push(v) == start + part.push(v));
                }
            } else if row.target_exists && text_eq(row.target_uid.as_str(), uid) {
                let one = RelationRow {
                    relation_type: row.relation_type.clone(),
                    target_uid: row.source_uid.clone(),
                    target_heading: Some(row.source_heading.clone()),
                    incoming: !ingoing,
                };
                let ghost v = one@;
                out.push(one);
                assert(relation_rows_view(out@) == before.push(v));
                assert(before.push(v) == start + part.push(v));
            }
        }
        i += 1;
    }
    assert(rows@.take(rows.len() as int) == rows@);
}

/// The relations of a section, in both directions.
pub fn relations(rows: &Vec<StoredRelation>, uid: &str) -> (r: Vec<RelationRow>)
    ensures
        relation_rows_view(r@) == relations_of_section(rows@, uid@),
{
    let mut r: Vec<RelationRow> = Vec::new();
    assert(relation_rows_view(r@) == Seq::<RelationRowView>::empty());
    add_relations(&mut r, rows, uid, true, false);
    add_relations(&mut r, rows, uid, false, false);
    add_relations(&mut r, rows, uid, false, true);
    add_relations(&mut r, rows, uid, true, true);
    r
}

/// The link of the graph that a stored relation stands for: an `ingoing` one points
/// back at the section that declares it.
pub fn graph_link(relation_type: &str, source_uid: &str, target_uid: &str) -> (r: GraphLink)
    ensures
        r.relation_type@ == relation_type@,
        relation_type@ == "ingoing"@ ==> r.source@ == target_uid@ && r.target@ == source_uid@,
        relation_type@ != "ingoing"@ ==> r.source@ == source_uid@ && r.target@ == target_uid@,
{
    if text_eq(relation_type, "ingoing") {
        GraphLink {
            source: target_uid.to_owned(),
            target: source_uid.to_owned(),
            relation_type: relation_type.to_owned(),
        }
    } else {
        GraphLink {
            source: source_uid.to_owned(),
            target: target_uid.to_owned(),
            relation_type: relation_type.to_owned(),
        }
    }
}

// ---------------------------------------------------------------------------
// Queries
// ---------------------------------------------------------------------------

/// What to look up for what the user typed.
#[derive(Debug)]
pub enum Lookup {
    /// Every section: nothing was typed.
    Everything,
    /// No section: nothing of it can be searched for.
    Nothing,
    /// The sections that match the expression.
    Matching(String),
}

/// What to look up for a query.
pub fn search(query: &str) -> (r: Lookup)
    ensures
        r is Everything <==> trimmed(query@).len() == 0,
        r is Nothing <==> trimmed(query@).len() > 0 && expression_of(query@, Mode::All) is None,
        r matches Lookup::Matching(e) ==> expression_of(query@, Mode::All) == Some(e@),
{
    let whole = to_chars(query);
    if trim(&whole).len() == 0 {
        return Lookup::Everything;
    }
    match expression(query) {
        Some(e) => Lookup::Matching(e),
        None => Lookup::Nothing,
    }
}

/// Question marks for a list of values, with commas between.
pub open spec fn marks(count: nat) -> Seq<char>
    decreases count,
{
    if count == 0 {
        Seq::empty()
    } else if count == 1 {
        seq!['?']
    } else {
        marks((count - 1) as nat) + seq![',', '?']
    }
}

/// The placeholders of a list of `count` values.
pub fn placeholders(count: usize) -> (r: String)
    ensures
        r@ == marks(count as nat),
{
    let mut r = String::new();
    let mut i: usize = 0;
    while i < count
        invariant
            0 <= i <= count,
            r@ == marks(i as nat),
        decreases count - i,
    {
        let ghost before = r@;
        if i > 0 {
            r.push(',');
        }
        r.push('?');
        assert(i > 0 ==> r@ == before + seq![',', '?']);
        assert(i == 0 ==> r@ == seq!['?']);
        i += 1;
    }
    r
}

/// The lines of an export: each ends with a line feed, and no line makes no text.
pub open spec fn lines_text(lines: Seq<Seq<char>>) -> Seq<char>
    decreases lines.len(),
{
    if lines.len() == 0 {
        Seq::empty()
    } else {
        lines_text(lines.drop_last()) + lines.last() + seq!['\n']
    }
}

/// The text of an export, from its lines.
pub fn export_text(lines: &Vec<String>) -> (r: String)
    ensures
        r@ == lines_text(texts(lines@)),
{
    let ghost views = texts(lines@);
    let mut r = String::new();
    let mut i: usize = 0;
    assert(views.take(0) == Seq::<Seq<char>>::empty());
    while i < lines.len()
        invariant
            0 <= i <= lines.len(),
            views == texts(lines@),
            r@ == lines_text(views.take(i as int)),
        decreases lines.len() - i,
    {
        assert(views.take(i + 1).drop_last() == views.take(i as int));
        let ghost before = r@;
        r.append(lines[i].as_str());
        r.push('\n');
        assert(r@ == before + lines@[i as int]@ + seq!['\n']);
        i += 1;
    }
    assert(views.take(lines.len() as int) == views);
    r
}

// ---------------------------------------------------------------------------
// Laws of rows and relations
// ---------------------------------------------------------------------------

/// A file counts under what became of it, and its diagnostics are added to the others.
pub proof fn every_outcome_is_counted(outcomes: Seq<FileOutcome>, more: FileOutcome)
    ensures
        ({
            let a = summary_of(outcomes);
            let b = summary_of(outcomes.push(more));
            &&& b.0 == a.0 + (if more is Indexed {
                1int
            } else {
                0
            })
            &&& b.1 == a.1 + (if more is Unchanged {
                1int
            } else {
                0
            })
            &&& b.2 == a.2 + (if more is Removed {
                1int
            } else {
                0
            })
            &&& b.3 == a.3 + (if more is Failed {
                1int
            } else {
                0
            })
            &&& b.4 == a.4 + (match more {
                FileOutcome::Indexed(n) => n as int,
                _ => 0,
            })
        }),
        summary_of(Seq::empty()) == (0int, 0int, 0int, 0int, 0int),
{
    assert(outcomes.push(more).drop_last() == outcomes);
}

/// The hash of a path is that of the row at the path; a path without a row has none.
pub proof fn a_hash_is_found_by_its_path(rows: Seq<FileRowView>, path: Seq<char>)
    ensures
        hash_at(rows, path) is None <==> forall|i: int|
            0 <= i < rows.len() ==> (#[trigger] rows[i]).path != path,
        hash_at(rows, path) is Some ==> exists|i: int|
            0 <= i < rows.len() && (#[trigger] rows[i]).path == path && hash_at(rows, path) == Some(
                rows[i].hash,
            ),
    decreases rows.len(),
{
    if rows.len() > 0 {
        let rest = rows.drop_last();
        a_hash_is_found_by_its_path(rest, path);
        if rows.last().path == path {
            assert(rows[rows.len() - 1].path == path);
        } else if hash_at(rest, path) is Some {
            let i = choose|i: int|
                0 <= i < rest.len() && (#[trigger] rest[i]).path == path && hash_at(rest, path)
                    == Some(rest[i].hash);
            assert(rows[i] == rest[i]);
        } else {
            assert forall|i: int| 0 <= i < rows.len() implies (#[trigger] rows[i]).path
                != path by {
                if i < rest.len() {
                    assert(rest[i] == rows[i]);
                }
            }
        }
    }
}

/// Storing a note leaves the rows of all other notes as they are and puts its own; it is
/// refused only where another note lies at its path.
pub proof fn storing_a_note_leaves_the_others(
    rows: Seq<FileRowView>,
    row: FileRowView,
    other: FileRowView,
)
    requires
        other.note_id != row.note_id,
    ensures
        put_row(rows, row) is None <==> exists|i: int|
            0 <= i < rows.len() && (#[trigger] rows[i]).path == row.path && rows[i].note_id
                != row.note_id,
        put_row(rows, row) matches Some(after) ==> {
            &&& after.contains(row)
            &&& after.contains(other) <==> rows.contains(other)
            &&& forall|i: int|
                0 <= i < after.len() && (#[trigger] after[i]).note_id == row.note_id ==> after[i]
                    == row
        },
{
    if let Some(after) = put_row(rows, row) {
        if has_note(rows, row.note_id) {
            let i = choose|i: int| 0 <= i < rows.len() && (#[trigger] rows[i]).note_id == row.note_id;
            assert(after[i] == row);
            if after.contains(other) {
                let k = choose|k: int| 0 <= k < after.len() && after[k] == other;
                assert(rows[k] == other);
            }
            if rows.contains(other) {
                let k = choose|k: int| 0 <= k < rows.len() && rows[k] == other;
                assert(after[k] == other);
            }
        } else {
            assert(after == rows.push(row));
            assert(after[rows.len() as int] == row);
            if after.contains(other) {
                let k = choose|k: int| 0 <= k < after.len() && after[k] == other;
                assert(rows[k] == other);
            }
            if rows.contains(other) {
                let k = choose|k: int| 0 <= k < rows.len() && rows[k] == other;
                assert(after[k] == other);
            }
        }
    }
}

/// Only the rows of files that are gone are taken out, and each of them is.
pub proof fn only_rows_of_gone_files_are_taken_out(
    rows: Seq<FileRowView>,
    present: Seq<Seq<char>>,
    row: FileRowView,
)
    ensures
        kept_rows(rows, present).contains(row) <==> rows.contains(row) && present.contains(
            row.path,
        ),
        rows.contains(row) && !present.contains(row.path) ==> gone_paths(rows, present).contains(
            row.path,
        ),
        kept_rows(rows, present).len() + gone_paths(rows, present).len() == rows.len(),
    decreases rows.len(),
{
    if rows.len() > 0 {
        let rest = rows.drop_last();
        let last = rows.last();
        only_rows_of_gone_files_are_taken_out(rest, present, row);
        assert(rows.contains(row) <==> rest.contains(row) || row == last) by {
            assert(rows == rest.push(last));
            if rows.contains(row) {
                let k = choose|k: int| 0 <= k < rows.len() && rows[k] == row;
                if k < rest.len() {
                    assert(rest[k] == row);
                }
            }
            if rest.contains(row) {
                let k = choose|k: int| 0 <= k < rest.len() && rest[k] == row;
                assert(rows[k] == row);
            }
            assert(rows[rows.len() - 1] == last);
        }
        let before = kept_rows(rest, present);
        let gone = gone_paths(rest, present);
        if present.contains(last.path) {
            let after = before.push(last);
            assert(after[before.len() as int] == last);
            if after.contains(row) {
                let k = choose|k: int| 0 <= k < after.len() && after[k] == row;
                if k < before.len() {
                    assert(before[k] == row);
                }
            }
            if before.contains(row) {
                let k = choose|k: int| 0 <= k < before.len() && before[k] == row;
                assert(after[k] == row);
            }
        } else {
            let after = gone.push(last.path);
            assert(after[gone.len() as int] == last.path);
            if gone.contains(row.path) {
                let k = choose|k: int| 0 <= k < gone.len() && gone[k] == row.path;
                assert(after[k] == row.path);
            }
        }
    }
}

/// A section of a note is written whole: its row, an emptied list of what it declares, then
/// each action and relation, each card with a schedule, and the review of the section. A card
/// that it no longer has is taken out.
pub proof fn every_part_of_a_section_is_written(
    section: ParsedSection,
    at: usize,
    stored: Seq<StoredCard>,
    k: int,
)
    requires
        section.actions@.len() <= usize::MAX,
        section.relations@.len() <= usize::MAX,
        section.cards@.len() <= usize::MAX,
    ensures
        ({
            let w = section_writes(section, at, stored);
            &&& w.len() >= 2 && w[0] == NoteWrite::PutSection(at) && w[1]
                == NoteWrite::ClearSection(at)
            &&& w.contains(NoteWrite::RefreshSectionReview(at))
            &&& 0 <= k < section.actions@.len() ==> w.contains(NoteWrite::PutAction(at, k as usize))
            &&& 0 <= k < section.relations@.len() ==> w.contains(
                NoteWrite::PutRelation(at, k as usize),
            )
            &&& 0 <= k < section.cards@.len() ==> w.contains(NoteWrite::PutCard(at, k as usize))
                && w.contains(NoteWrite::Schedule(at, k as usize))
            &&& 0 <= k < stored.len() && stored[k].section_uid@ == section.uid@
                && stored[k].card_type@ != "section-review"@ && (forall|j: int|
                0 <= j < section.cards@.len() ==> (#[trigger] section.cards@[j]).uid@
                    != stored[k].uid@) ==> w.contains(NoteWrite::DeleteCard(stored[k].id))
        }),
{
    let w = section_writes(section, at, stored);
    let a = seq![NoteWrite::PutSection(at), NoteWrite::ClearSection(at)];
    let b = action_writes(at, section.actions@.len());
    let c = relation_writes(at, section.relations@.len());
    let d = card_writes(at, section.cards@.len());
    let e = seq![NoteWrite::RefreshSectionReview(at)];
    let uids = card_uids(section.cards@);
    let f = card_deletes(stored, section.uid@, uids);
    assert(w == a + b + c + d + e + f);
    assert(w[0] == a[0] && w[1] == a[1]);
    assert(w[(a.len() + b.len() + c.len() + d.len()) as int] == e[0]);
    if 0 <= k < section.actions@.len() {
        assert(w[a.len() + k] == b[k]);
    }
    if 0 <= k < section.relations@.len() {
        assert(w[a.len() + b.len() + k] == c[k]);
    }
    if 0 <= k < section.cards@.len() {
        assert(w[a.len() + b.len() + c.len() + 2 * k] == d[2 * k]);
        assert(w[a.len() + b.len() + c.len() + 2 * k + 1] == d[2 * k + 1]);
    }
    if 0 <= k < stored.len() && stored[k].section_uid@ == section.uid@ && stored[k].card_type@
        != "section-review"@ && (forall|j: int|
        0 <= j < section.cards@.len() ==> (#[trigger] section.cards@[j]).uid@ != stored[k].uid@) {
        assert(!uids.contains(stored[k].uid@)) by {
            if uids.contains(stored[k].uid@) {
                let j = choose|j: int| 0 <= j < uids.len() && uids[j] == stored[k].uid@;
                assert(section.cards@[j].uid@ == stored[k].uid@);
            }
        }
        let i = lemma_deleted_card(stored, section.uid@, uids, k);
        assert(w[a.len() + b.len() + c.len() + d.len() + e.len() + i] == f[i]);
    }
}

proof fn lemma_deleted_card(
    stored: Seq<StoredCard>,
    section_uid: Seq<char>,
    uids: Seq<Seq<char>>,
    k: int,
) -> (i: int)
    requires
        0 <= k < stored.len(),
        left_over(stored[k], section_uid, uids),
    ensures
        0 <= i < card_deletes(stored, section_uid, uids).len(),
        card_deletes(stored, section_uid, uids)[i] == NoteWrite::DeleteCard(stored[k].id),
    decreases stored.len(),
{
    let rest = stored.drop_last();
    if k == stored.len() - 1 {
        card_deletes(rest, section_uid, uids).len() as int
    } else {
        assert(rest[k] == stored[k]);
        lemma_deleted_card(rest, section_uid, uids, k)
    }
}

proof fn lemma_section_written(
    sections: Seq<ParsedSection>,
    stored: Seq<StoredCard>,
    count: int,
    s: int,
    write: NoteWrite,
)
    requires
        0 <= s < count <= sections.len() <= usize::MAX,
        section_writes(sections[s], s as usize, stored).contains(write),
    ensures
        sections_writes(sections, stored, count).contains(write),
    decreases count,
{
    let before = sections_writes(sections, stored, count - 1);
    let own = section_writes(sections[count - 1], (count - 1) as usize, stored);
    let all = sections_writes(sections, stored, count);
    if s == count - 1 {
        let k = choose|k: int| 0 <= k < own.len() && own[k] == write;
        assert(all[before.len() + k] == write);
    } else {
        lemma_section_written(sections, stored, count - 1, s, write);
        let k = choose|k: int| 0 <= k < before.len() && before[k] == write;
        assert(all[k] == write);
    }
}

proof fn lemma_section_deleted(stored: Seq<StoredSection>, uids: Seq<Seq<char>>, id: i64)
    ensures
        section_deletes(stored, uids).contains(NoteWrite::DeleteSection(id)) <==> exists|i: int|
            0 <= i < stored.len() && (#[trigger] stored[i]).id == id && !uids.contains(
                stored[i].uid@,
            ),
    decreases stored.len(),
{
    let write = NoteWrite::DeleteSection(id);
    if stored.len() > 0 {
        let rest = stored.drop_last();
        let last = stored.last();
        let before = section_deletes(rest, uids);
        let all = section_deletes(stored, uids);
        lemma_section_deleted(rest, uids, id);
        if all.contains(write) {
            let k = choose|k: int| 0 <= k < all.len() && all[k] == write;
            if k < before.len() {
                assert(before[k] == write);
                let i = choose|i: int|
                    0 <= i < rest.len() && (#[trigger] rest[i]).id == id && !uids.contains(
                        rest[i].uid@,
                    );
                assert(stored[i] == rest[i]);
            } else {
                assert(stored[stored.len() - 1].id == id);
            }
        }
        if exists|i: int|
            0 <= i < stored.len() && (#[trigger] stored[i]).id == id && !uids.contains(
                stored[i].uid@,
            ) {
            let i = choose|i: int|
                0 <= i < stored.len() && (#[trigger] stored[i]).id == id && !uids.contains(
                    stored[i].uid@,
                );
            if i < rest.len() {
                assert(rest[i] == stored[i]);
                let k = choose|k: int| 0 <= k < before.len() && before[k] == write;
                assert(all[k] == write);
            } else {
                assert(all[before.len() as int] == write);
            }
        }
    }
}

/// Storing a note writes the file first, all that each section holds, and the diagnostics
/// over those that were there; a section that the note no longer has is taken out.
pub proof fn every_part_of_a_note_is_written(
    note: ParsedNote,
    cards: Seq<StoredCard>,
    sections: Seq<StoredSection>,
    s: int,
    write: NoteWrite,
)
    requires
        note.sections@.len() <= usize::MAX,
        note.diagnostics@.len() <= usize::MAX,
    ensures
        ({
            let w = note_writes(note, cards, sections);
            &&& w.len() > 0 && w[0] == NoteWrite::PutFile
            &&& 0 <= s < note.sections@.len() && section_writes(
                note.sections@[s],
                s as usize,
                cards,
            ).contains(write) ==> w.contains(write)
            &&& w.contains(NoteWrite::ClearDiagnostics)
            &&& 0 <= s < note.diagnostics@.len() ==> w.contains(NoteWrite::PutDiagnostic(s as usize))
            &&& 0 <= s < sections.len() && (forall|j: int|
                0 <= j < note.sections@.len() ==> (#[trigger] note.sections@[j]).uid@
                    != sections[s].uid@) ==> w.contains(NoteWrite::DeleteSection(sections[s].id))
        }),
{
    let w = note_writes(note, cards, sections);
    let count = note.sections@.len() as int;
    let uids = uids_of(note.sections@);
    let a = seq![NoteWrite::PutFile];
    let b = sections_writes(note.sections@, cards, count);
    let c = section_deletes(sections, uids);
    let d = seq![NoteWrite::ClearDiagnostics];
    let e = diagnostic_writes(note.diagnostics@.len());
    assert(w == a + b + c + d + e);
    assert(w[0] == a[0]);
    assert(w[(a.len() + b.len() + c.len()) as int] == d[0]);
    if 0 <= s < note.sections@.len() && section_writes(
        note.sections@[s],
        s as usize,
        cards,
    ).contains(write) {
        lemma_section_written(note.sections@, cards, count, s, write);
        let k = choose|k: int| 0 <= k < b.len() && b[k] == write;
        assert(w[a.len() + k] == write);
    }
    if 0 <= s < note.diagnostics@.len() {
        assert(w[a.len() + b.len() + c.len() + d.len() + s] == e[s]);
    }
    if 0 <= s < sections.len() && (forall|j: int|
        0 <= j < note.sections@.len() ==> (#[trigger] note.sections@[j]).uid@
            != sections[s].uid@) {
        assert(!uids.contains(sections[s].uid@)) by {
            if uids.contains(sections[s].uid@) {
                let j = choose|j: int| 0 <= j < uids.len() && uids[j] == sections[s].uid@;
                assert(note.sections@[j].uid@ == sections[s].uid@);
            }
        }
        lemma_section_deleted(sections, uids, sections[s].id);
        let k = choose|k: int|
            0 <= k < c.len() && c[k] == NoteWrite::DeleteSection(sections[s].id);
        assert(w[a.len() + b.len() + k] == c[k]);
    }
}

/// Nothing marks which side of a disagreement won while neither note is obsolete or archived
/// and neither section supersedes the other.
pub proof fn a_disagreement_is_open_until_one_side_gives_way(row: ContradictionRow)
    ensures
        is_open(row) <==> !row.superseded && (row.left_status matches Some(s) ==> s@
            != "obsolete"@ && s@ != "archived"@) && (row.right_status matches Some(s) ==> s@
            != "obsolete"@ && s@ != "archived"@),
{
}

proof fn lemma_relation_seen(
    rows: Seq<StoredRelation>,
    uid: Seq<char>,
    declared: bool,
    ingoing: bool,
    i: int,
)
    requires
        0 <= i < rows.len(),
        relation_view(rows[i], uid, declared, ingoing) is Some,
    ensures
        relations_part(rows, uid, declared, ingoing).contains(
            relation_view(rows[i], uid, declared, ingoing)->0,
        ),
    decreases rows.len(),
{
    let rest = rows.drop_last();
    let before = relations_part(rest, uid, declared, ingoing);
    let all = relations_part(rows, uid, declared, ingoing);
    let seen = relation_view(rows[i], uid, declared, ingoing)->0;
    if i == rows.len() - 1 {
        assert(all[before.len() as int] == seen);
    } else {
        assert(rest[i] == rows[i]);
        lemma_relation_seen(rest, uid, declared, ingoing, i);
        let k = choose|k: int| 0 <= k < before.len() && before[k] == seen;
        assert(all[k] == seen);
    }
}

proof fn lemma_relation_listed(
    rows: Seq<StoredRelation>,
    uid: Seq<char>,
    declared: bool,
    ingoing: bool,
    i: int,
)
    requires
        0 <= i < rows.len(),
        relation_view(rows[i], uid, declared, ingoing) is Some,
    ensures
        relations_of_section(rows, uid).contains(
            relation_view(rows[i], uid, declared, ingoing)->0,
        ),
{
    let seen = relation_view(rows[i], uid, declared, ingoing)->0;
    let a = relations_part(rows, uid, true, false);
    let b = relations_part(rows, uid, false, false);
    let c = relations_part(rows, uid, false, true);
    let d = relations_part(rows, uid, true, true);
    let all = relations_of_section(rows, uid);
    lemma_relation_seen(rows, uid, declared, ingoing, i);
    let part = relations_part(rows, uid, declared, ingoing);
    let k = choose|k: int| 0 <= k < part.len() && part[k] == seen;
    if declared && !ingoing {
        assert(all[k] == a[k]);
    } else if !declared && !ingoing {
        assert(all[a.len() + k] == b[k]);
    } else if !declared {
        assert(all[a.len() + b.len() + k] == c[k]);
    } else {
        assert(all[a.len() + b.len() + c.len() + k] == d[k]);
    }
}

/// A relation is seen from both of its ends, each naming the other. It comes in at its target
/// and goes out from its source, an `ingoing` one the other way round.
pub proof fn a_relation_is_seen_from_both_ends(rows: Seq<StoredRelation>, i: int)
    requires
        0 <= i < rows.len(),
    ensures
        relations_of_section(rows, rows[i].source_uid@).contains(
            RelationRowView {
                relation_type: rows[i].relation_type@,
                target_uid: rows[i].target_uid@,
                target_heading: opt_view(rows[i].target_heading),
                incoming: rows[i].relation_type@ == "ingoing"@,
            },
        ),
        rows[i].target_exists ==> relations_of_section(rows, rows[i].target_uid@).contains(
            RelationRowView {
                relation_type: rows[i].relation_type@,
                target_uid: rows[i].source_uid@,
                target_heading: Some(rows[i].source_heading@),
                incoming: rows[i].relation_type@ != "ingoing"@,
            },
        ),
{
    let ingoing = rows[i].relation_type@ == "ingoing"@;
    lemma_relation_listed(rows, rows[i].source_uid@, true, ingoing, i);
    if rows[i].target_exists {
        lemma_relation_listed(rows, rows[i].target_uid@, false, ingoing, i);
    }
}

/// Whether a relation starts or ends at a section.
pub open spec fn touches(row: StoredRelation, uid: Seq<char>) -> bool {
    row.source_uid@ == uid || row.target_uid@ == uid && row.target_exists
}

proof fn lemma_relation_origin(
    rows: Seq<StoredRelation>,
    uid: Seq<char>,
    declared: bool,
    ingoing: bool,
    k: int,
) -> (i: int)
    requires
        0 <= k < relations_part(rows, uid, declared, ingoing).len(),
    ensures
        0 <= i < rows.len(),
        touches(rows[i], uid),
        relations_part(rows, uid, declared, ingoing)[k].relation_type == rows[i].relation_type@,
    decreases rows.len(),
{
    if rows.len() == 0 {
        0
    } else {
        let rest = rows.drop_last();
        let before = relations_part(rest, uid, declared, ingoing);
        if k < before.len() {
            let i = lemma_relation_origin(rest, uid, declared, ingoing, k);
            assert(rest[i] == rows[i]);
            i
        } else {
            rows.len() - 1
        }
    }
}

/// A section has no relations but those that start or end at it.
pub proof fn no_other_relation_is_seen(rows: Seq<StoredRelation>, uid: Seq<char>, k: int)
    requires
        0 <= k < relations_of_section(rows, uid).len(),
    ensures
        exists|i: int|
            0 <= i < rows.len() && #[trigger] touches(rows[i], uid) && relations_of_section(
                rows,
                uid,
            )[k].relation_type == rows[i].relation_type@,
{
    let all = relations_of_section(rows, uid);
    let a = relations_part(rows, uid, true, false).len();
    let b = relations_part(rows, uid, false, false).len();
    let c = relations_part(rows, uid, false, true).len();
    let i = if k < a {
        lemma_relation_origin(rows, uid, true, false, k)
    } else if k < a + b {
        lemma_relation_origin(rows, uid, false, false, k - a)
    } else if k < a + b + c {
        lemma_relation_origin(rows, uid, false, true, k - a - b)
    } else {
        lemma_relation_origin(rows, uid, true, true, k - a - b - c)
    };
    assert(touches(rows[i], uid));
}

/// Placeholders are question marks, as many as values, with a comma between any two.
pub proof fn placeholders_stand_between_commas(count: nat)
    requires
        count > 0,
    ensures
        marks(count).len() == 2 * count - 1,
        forall|i: int|
            0 <= i < 2 * count - 1 ==> #[trigger] marks(count)[i] == if i % 2 == 0 {
                '?'
            } else {
                ','
            },
    decreases count,
{
    if count > 1 {
        placeholders_stand_between_commas((count - 1) as nat);
    }
}

/// The text of an export is its lines one after another, each with a line feed behind it.
pub proof fn an_export_ends_every_line(lines: Seq<Seq<char>>, line: Seq<char>)
    ensures
        lines_text(lines.push(line)) == lines_text(lines) + line + seq!['\n'],
        lines_text(Seq::empty()) == Seq::<char>::empty(),
{
    assert(lines.push(line).drop_last() == lines);
}

} // verus!
