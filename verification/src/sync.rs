//! Syncing a vault with a Git remote.
//!
//! A [`Sync`] says what has to be done next; whoever runs it does that and answers
//! with what came of it, until the sync is finished.

use vstd::prelude::*;
use vstd::slice::slice_subrange;
use vstd::string::*;

use crate::ignore;
use crate::text::{
    from_chars, glue, has_char, join, join_texts, just, lines, occurs, slices, split_by, split_char,
    split_lines, split_words, starts_with, texts, to_chars, trim, trim_text, trimmed, words,
};

verus! {

// ---------------------------------------------------------------------------
// Remotes and branches
// ---------------------------------------------------------------------------

/// Why a repository URL is not accepted.
#[derive(Debug, Clone, Copy, PartialEq, Eq, Structural)]
pub enum RemoteError {
    Empty,
    /// The URL holds a credential.
    Token,
}

/// Whether the host part of an `http` URL holds an `@`.
pub open spec fn has_token(url: Seq<char>) -> bool {
    if starts_with(url, "https://"@) {
        split_by(url.skip(8), just('/'))[0].contains('@')
    } else if starts_with(url, "http://"@) {
        split_by(url.skip(7), just('/'))[0].contains('@')
    } else {
        false
    }
}

/// What is wrong with a repository URL.
pub open spec fn remote_error(repository: Seq<char>) -> Option<RemoteError> {
    let url = trimmed(repository);
    if url.len() == 0 {
        Some(RemoteError::Empty)
    } else if has_token(url) {
        Some(RemoteError::Token)
    } else {
        None
    }
}

fn token_in(rest: &[char]) -> (r: bool)
    ensures
        r == split_by(rest@, just('/'))[0].contains('@'),
{
    let parts = split_char(rest, '/');
    assert(slices(parts@)[0] == parts@[0]@);
    has_char(parts[0], '@')
}

/// Accepts a repository URL unless it is empty or holds a credential.
pub fn validate_remote(repository: &str) -> (r: Result<(), RemoteError>)
    ensures
        r == (match remote_error(repository@) {
            Some(e) => Err::<(), RemoteError>(e),
            None => Ok::<(), RemoteError>(()),
        }),
{
    proof {
        reveal_strlit("https://");
        reveal_strlit("http://");
    }
    let whole = to_chars(repository);
    let url = trim(whole.as_slice());
    if url.len() == 0 {
        return Err(RemoteError::Empty);
    }
    let secure = to_chars("https://");
    let plain = to_chars("http://");
    if occurs(url, secure.as_slice(), 0) {
        if token_in(slice_subrange(url, 8, url.len())) {
            return Err(RemoteError::Token);
        }
    } else if occurs(url, plain.as_slice(), 0) {
        if token_in(slice_subrange(url, 7, url.len())) {
            return Err(RemoteError::Token);
        }
    }
    Ok(())
}

/// The URL in what `git remote get-url` printed.
pub open spec fn url_in(output: Seq<char>) -> Option<Seq<char>> {
    if trimmed(output).len() == 0 {
        None
    } else {
        Some(trimmed(output))
    }
}

/// The remote, from what `git remote get-url` printed.
pub fn remote(output: &str) -> (r: Option<String>)
    ensures
        crate::text::opt_view(r) == url_in(output@),
{
    let url = trim_text(output);
    if to_chars(url.as_str()).len() == 0 {
        None
    } else {
        Some(url)
    }
}

/// The branch that a line of `git ls-remote --symref` names.
pub open spec fn branch_in(line: Seq<char>) -> Option<Seq<char>> {
    if starts_with(line, "ref: refs/heads/"@) && words(line.skip(16)).len() > 0 {
        Some(words(line.skip(16))[0])
    } else {
        None
    }
}

/// The first branch that a line names.
pub open spec fn first_branch(lines: Seq<Seq<char>>) -> Option<Seq<char>>
    decreases lines.len(),
{
    if lines.len() == 0 {
        None
    } else {
        match first_branch(lines.drop_last()) {
            Some(branch) => Some(branch),
            None => branch_in(lines.last()),
        }
    }
}

fn read_branch(line: &[char]) -> (r: Option<String>)
    ensures
        crate::text::opt_view(r) == branch_in(line@),
{
    proof {
        reveal_strlit("ref: refs/heads/");
    }
    let prefix = to_chars("ref: refs/heads/");
    if !occurs(line, prefix.as_slice(), 0) {
        return None;
    }
    let rest = slice_subrange(line, 16, line.len());
    assert(rest@ == line@.skip(16));
    let parts = split_words(rest);
    if parts.len() == 0 {
        None
    } else {
        assert(slices(parts@)[0] == parts@[0]@);
        Some(from_chars(parts[0]))
    }
}

/// The branch that the remote's `HEAD` points to, from what
/// `git ls-remote --symref origin HEAD` printed.
pub fn head_branch(output: &str) -> (r: Option<String>)
    ensures
        crate::text::opt_view(r) == first_branch(lines(output@)),
{
    let whole = to_chars(output);
    let parts = split_lines(whole.as_slice());
    let ghost views = lines(output@);
    let mut found: Option<String> = None;
    let mut i: usize = 0;
    assert(views.take(0) == Seq::<Seq<char>>::empty());
    while i < parts.len()
        invariant
            0 <= i <= parts.len(),
            slices(parts@) == views,
            crate::text::opt_view(found) == first_branch(views.take(i as int)),
        decreases parts.len() - i,
    {
        assert(views.take(i + 1).drop_last() == views.take(i as int));
        assert(views.take(i + 1).last() == parts@[i as int]@);
        if found.is_none() {
            found = read_branch(parts[i]);
        }
        i += 1;
    }
    assert(views.take(parts.len() as int) == views);
    found
}

// ---------------------------------------------------------------------------
// Commands
// ---------------------------------------------------------------------------

/// A Git command. `T` is the type of its texts.
#[derive(Debug)]
#[verifier::ext_equal]
pub enum Command<T> {
    Toplevel,
    Init,
    GetUrl,
    SetUrl(T),
    AddRemote(T),
    AddAll,
    CachedDiff,
    Commit,
    Fetch,
    CurrentBranch,
    /// Whether the remote has the branch.
    ShowRef(T),
    ListHead,
    MergeBase(T),
    Rebase(T),
    Merge(T),
    AbortRebase,
    AbortMerge,
    Push(T),
}

impl View for Command<String> {
    type V = Command<Seq<char>>;

    open spec fn view(&self) -> Command<Seq<char>> {
        match self {
            Command::Toplevel => Command::Toplevel,
            Command::Init => Command::Init,
            Command::GetUrl => Command::GetUrl,
            Command::SetUrl(t) => Command::SetUrl(t@),
            Command::AddRemote(t) => Command::AddRemote(t@),
            Command::AddAll => Command::AddAll,
            Command::CachedDiff => Command::CachedDiff,
            Command::Commit => Command::Commit,
            Command::Fetch => Command::Fetch,
            Command::CurrentBranch => Command::CurrentBranch,
            Command::ShowRef(t) => Command::ShowRef(t@),
            Command::ListHead => Command::ListHead,
            Command::MergeBase(t) => Command::MergeBase(t@),
            Command::Rebase(t) => Command::Rebase(t@),
            Command::Merge(t) => Command::Merge(t@),
            Command::AbortRebase => Command::AbortRebase,
            Command::AbortMerge => Command::AbortMerge,
            Command::Push(t) => Command::Push(t@),
        }
    }
}

/// The arguments of a command.
pub open spec fn arguments_of(command: Command<Seq<char>>) -> Seq<Seq<char>> {
    match command {
        Command::Toplevel => seq!["rev-parse"@, "--show-toplevel"@],
        Command::Init => seq!["init"@, "--initial-branch=main"@],
        Command::GetUrl => seq!["remote"@, "get-url"@, "origin"@],
        Command::SetUrl(url) => seq!["remote"@, "set-url"@, "origin"@, url],
        Command::AddRemote(url) => seq!["remote"@, "add"@, "origin"@, url],
        Command::AddAll => seq!["add"@, "--all"@],
        Command::CachedDiff => seq!["diff"@, "--cached"@, "--quiet"@],
        Command::Commit => seq!["commit"@, "-m"@, "Sync yalive vault"@],
        Command::Fetch => seq!["fetch"@, "--prune"@, "origin"@],
        Command::CurrentBranch => seq!["branch"@, "--show-current"@],
        Command::ShowRef(branch) => seq![
            "show-ref"@,
            "--verify"@,
            "--quiet"@,
            "refs/remotes/origin/"@ + branch,
        ],
        Command::ListHead => seq!["ls-remote"@, "--symref"@, "origin"@, "HEAD"@],
        Command::MergeBase(branch) => seq!["merge-base"@, "HEAD"@, "origin/"@ + branch],
        Command::Rebase(branch) => seq!["rebase"@, "origin/"@ + branch],
        Command::Merge(branch) => seq![
            "merge"@,
            "--allow-unrelated-histories"@,
            "--no-edit"@,
            "origin/"@ + branch,
        ],
        Command::AbortRebase => seq!["rebase"@, "--abort"@],
        Command::AbortMerge => seq!["merge"@, "--abort"@],
        Command::Push(branch) => seq!["push"@, "--set-upstream"@, "origin"@, "HEAD:"@ + branch],
    }
}

fn list2(a: &str, b: &str) -> (r: Vec<String>)
    ensures
        texts(r@) == seq![a@, b@],
{
    let mut r: Vec<String> = Vec::new();
    r.push(a.to_owned());
    r.push(b.to_owned());
    assert(texts(r@) == seq![a@, b@]);
    r
}

fn list3(a: &str, b: &str, c: &str) -> (r: Vec<String>)
    ensures
        texts(r@) == seq![a@, b@, c@],
{
    let mut r = list2(a, b);
    let ghost before = texts(r@);
    r.push(c.to_owned());
    assert(texts(r@) == before.push(c@));
    assert(texts(r@) == seq![a@, b@, c@]);
    r
}

fn list4(a: &str, b: &str, c: &str, d: &str) -> (r: Vec<String>)
    ensures
        texts(r@) == seq![a@, b@, c@, d@],
{
    let mut r = list3(a, b, c);
    let ghost before = texts(r@);
    r.push(d.to_owned());
    assert(texts(r@) == before.push(d@));
    assert(texts(r@) == seq![a@, b@, c@, d@]);
    r
}

/// The arguments to run Git with.
pub fn arguments(command: &Command<String>) -> (r: Vec<String>)
    ensures
        texts(r@) == arguments_of(command@),
{
    match command {
        Command::Toplevel => list2("rev-parse", "--show-toplevel"),
        Command::Init => list2("init", "--initial-branch=main"),
        Command::GetUrl => list3("remote", "get-url", "origin"),
        Command::SetUrl(url) => list4("remote", "set-url", "origin", url.as_str()),
        Command::AddRemote(url) => list4("remote", "add", "origin", url.as_str()),
        Command::AddAll => list2("add", "--all"),
        Command::CachedDiff => list3("diff", "--cached", "--quiet"),
        Command::Commit => list3("commit", "-m", "Sync yalive vault"),
        Command::Fetch => list3("fetch", "--prune", "origin"),
        Command::CurrentBranch => list2("branch", "--show-current"),
        Command::ShowRef(branch) => list4(
            "show-ref",
            "--verify",
            "--quiet",
            glue("refs/remotes/origin/", branch.as_str()).as_str(),
        ),
        Command::ListHead => list4("ls-remote", "--symref", "origin", "HEAD"),
        Command::MergeBase(branch) => list3(
            "merge-base",
            "HEAD",
            glue("origin/", branch.as_str()).as_str(),
        ),
        Command::Rebase(branch) => list2("rebase", glue("origin/", branch.as_str()).as_str()),
        Command::Merge(branch) => list4(
            "merge",
            "--allow-unrelated-histories",
            "--no-edit",
            glue("origin/", branch.as_str()).as_str(),
        ),
        Command::AbortRebase => list2("rebase", "--abort"),
        Command::AbortMerge => list2("merge", "--abort"),
        Command::Push(branch) => list4(
            "push",
            "--set-upstream",
            "origin",
            glue("HEAD:", branch.as_str()).as_str(),
        ),
    }
}

// ---------------------------------------------------------------------------
// Errors
// ---------------------------------------------------------------------------

/// What a failed command most likely means.
#[derive(Debug, Clone, Copy, PartialEq, Eq, Structural)]
pub enum Hint {
    Plain,
    Identity,
    Authentication,
    Conflict,
}

/// Why a sync failed. `T` is the type of its texts.
#[derive(Debug)]
#[verifier::ext_equal]
pub enum SyncError<T> {
    /// What was asked could not be done at all.
    NotDone(Hint),
    /// The vault lies inside another repository.
    InsideRepository,
    NoRemote,
    Remote(RemoteError),
    NoBranch,
    /// The reviews in the mailboxes could not be imported.
    Import,
    /// The snapshot for devices could not be written.
    Snapshot,
    /// A command failed. The message is what it printed, where that is reported.
    Git(Hint, Command<T>, Option<T>),
}

impl View for SyncError<String> {
    type V = SyncError<Seq<char>>;

    open spec fn view(&self) -> SyncError<Seq<char>> {
        match self {
            SyncError::NotDone(hint) => SyncError::NotDone(*hint),
            SyncError::InsideRepository => SyncError::InsideRepository,
            SyncError::NoRemote => SyncError::NoRemote,
            SyncError::Remote(e) => SyncError::Remote(*e),
            SyncError::NoBranch => SyncError::NoBranch,
            SyncError::Import => SyncError::Import,
            SyncError::Snapshot => SyncError::Snapshot,
            SyncError::Git(hint, command, message) => SyncError::Git(
                *hint,
                command@,
                crate::text::opt_view(*message),
            ),
        }
    }
}

/// The same error with another hint.
pub open spec fn hinted(error: SyncError<Seq<char>>, hint: Hint) -> SyncError<Seq<char>> {
    match error {
        SyncError::NotDone(_) => SyncError::NotDone(hint),
        SyncError::Git(_, command, message) => SyncError::Git(hint, command, message),
        other => other,
    }
}

pub open spec fn hint_of(error: SyncError<Seq<char>>) -> Hint {
    match error {
        SyncError::NotDone(hint) => hint,
        SyncError::Git(hint, _, _) => hint,
        _ => Hint::Plain,
    }
}

/// What a hint tells the user.
pub open spec fn hint_text(hint: Hint) -> Seq<char> {
    match hint {
        Hint::Plain => ""@,
        Hint::Identity => "could not commit; configure Git user.name and user.email"@,
        Hint::Authentication =>
            "GitHub authentication failed; use SSH or run `gh auth login` and `gh auth setup-git`"@,
        Hint::Conflict =>
            "sync conflict; local files were restored and no remote changes were overwritten"@,
    }
}

/// What went wrong, hints aside.
pub open spec fn cause_text(error: SyncError<Seq<char>>) -> Seq<char> {
    match error {
        SyncError::NotDone(_) => "running git; install Git to use vault sync"@,
        SyncError::InsideRepository =>
            "vault is inside another Git repository; use a standalone vault directory"@,
        SyncError::NoRemote =>
            "no Git remote configured; provide a repository URL in Options or with --repo"@,
        SyncError::Remote(RemoteError::Empty) => "repository URL cannot be empty"@,
        SyncError::Remote(RemoteError::Token) =>
            "repository URL must not contain a token; use `gh auth login` or SSH"@,
        SyncError::NoBranch => "Git repository has no current branch"@,
        SyncError::Import => "could not import the reviews of mobile devices"@,
        SyncError::Snapshot => "could not write the snapshot for mobile devices"@,
        SyncError::Git(_, command, None) => "git "@ + join(arguments_of(command), " "@)
            + " failed"@,
        SyncError::Git(_, command, Some(message)) => "git "@ + join(arguments_of(command), " "@)
            + " failed: "@ + (if trimmed(message).len() == 0 {
            "unknown error"@
        } else {
            trimmed(message)
        }),
    }
}

impl SyncError<String> {
    /// What went wrong, hints aside.
    pub fn cause(&self) -> (r: String)
        ensures
            r@ == cause_text(self@),
    {
        match self {
            SyncError::NotDone(_) => "running git; install Git to use vault sync".to_owned(),
            SyncError::InsideRepository =>
                "vault is inside another Git repository; use a standalone vault directory".to_owned(),
            SyncError::NoRemote =>
                "no Git remote configured; provide a repository URL in Options or with --repo".to_owned(),
            SyncError::Remote(RemoteError::Empty) => "repository URL cannot be empty".to_owned(),
            SyncError::Remote(RemoteError::Token) =>
                "repository URL must not contain a token; use `gh auth login` or SSH".to_owned(),
            SyncError::NoBranch => "Git repository has no current branch".to_owned(),
            SyncError::Import => "could not import the reviews of mobile devices".to_owned(),
            SyncError::Snapshot => "could not write the snapshot for mobile devices".to_owned(),
            SyncError::Git(_, command, message) => {
                let list = arguments(command);
                let mut r = "git ".to_owned();
                r.append(join_texts(&list, " ").as_str());
                match message {
                    None => {
                        r.append(" failed");
                    },
                    Some(m) => {
                        r.append(" failed: ");
                        let shown = trim_text(m.as_str());
                        if to_chars(shown.as_str()).len() == 0 {
                            r.append("unknown error");
                        } else {
                            r.append(shown.as_str());
                        }
                    },
                }
                r
            },
        }
    }

    /// What the error most likely means, where that is known.
    pub fn hint(&self) -> (r: Option<&'static str>)
        ensures
            crate::text::opt_str_view(r) == (if hint_of(self@) == Hint::Plain {
                None
            } else {
                Some(hint_text(hint_of(self@)))
            }),
    {
        let hint = match self {
            SyncError::NotDone(hint) => *hint,
            SyncError::Git(hint, _, _) => *hint,
            _ => Hint::Plain,
        };
        match hint {
            Hint::Plain => None,
            Hint::Identity => Some("could not commit; configure Git user.name and user.email"),
            Hint::Authentication => Some(
                "GitHub authentication failed; use SSH or run `gh auth login` and `gh auth setup-git`",
            ),
            Hint::Conflict => Some(
                "sync conflict; local files were restored and no remote changes were overwritten",
            ),
        }
    }
}

// ---------------------------------------------------------------------------
// The machine
// ---------------------------------------------------------------------------

/// What has to be done next.
#[derive(Debug)]
#[verifier::ext_equal]
pub enum Request<T> {
    /// Say whether the vault has a `.git` directory.
    FindDirectory,
    /// Read the vault's `.gitignore`.
    ReadIgnore,
    /// Replace the vault's `.gitignore`.
    WriteIgnore(T),
    /// Run Git in the vault.
    Git(Command<T>),
    /// Import the review events in the vault's mailboxes.
    ImportReviews,
    /// Write a fresh snapshot for devices into the vault.
    WriteSnapshot,
    /// Nothing: the sync is finished.
    Nothing,
}

/// What came of a request.
#[derive(Debug)]
#[verifier::ext_equal]
pub enum Reply<T> {
    Yes,
    No,
    /// The text of the file, or `None` if there is no file.
    Text(Option<T>),
    /// Git ran: whether it succeeded, what it printed, and what it complained of.
    Ran(bool, T, T),
    /// It could not be done.
    NotDone,
}

/// Where a sync stands. `T` is the type of its texts.
#[derive(Debug)]
#[verifier::ext_equal]
pub enum Stage<T> {
    /// Finding or making the repository; the flag says whether the remote is to be
    /// configured in it next.
    FindDirectory(bool),
    FindOuter(bool),
    Init(bool),
    ReadIgnore,
    WriteIgnore(T),
    FindRemote,
    SetRemote,
    AddRemote,
    ReadRemote,
    Add,
    Diff,
    Commit,
    Fetch,
    CurrentBranch,
    LocalRef,
    Head,
    RemoteRef,
    MergeBase,
    /// Bringing in the remote's commits; the flag says whether the histories are
    /// related.
    Integrate(bool),
    Abort(bool, SyncError<T>),
    Import,
    Snapshot,
    AddSnapshot,
    DiffSnapshot,
    CommitSnapshot,
    Push,
    Done,
    Failed(SyncError<T>),
}

/// A sync. `T` is the type of its texts.
#[derive(Debug)]
#[verifier::ext_equal]
pub struct Sync<T> {
    /// The URL that the remote is to be set to.
    pub repository: Option<T>,
    /// Whether to stop once the remote is set.
    pub only_configure: bool,
    pub remote: T,
    pub branch: T,
    pub committed: bool,
    pub stage: Stage<T>,
}

/// What a sync did.
#[derive(Debug, PartialEq, Eq)]
pub struct SyncSummary {
    pub remote: String,
    pub branch: String,
    pub committed: bool,
}

impl View for Request<String> {
    type V = Request<Seq<char>>;

    open spec fn view(&self) -> Request<Seq<char>> {
        match self {
            Request::FindDirectory => Request::FindDirectory,
            Request::ReadIgnore => Request::ReadIgnore,
            Request::WriteIgnore(t) => Request::WriteIgnore(t@),
            Request::Git(c) => Request::Git(c@),
            Request::ImportReviews => Request::ImportReviews,
            Request::WriteSnapshot => Request::WriteSnapshot,
            Request::Nothing => Request::Nothing,
        }
    }
}

impl View for Reply<String> {
    type V = Reply<Seq<char>>;

    open spec fn view(&self) -> Reply<Seq<char>> {
        match self {
            Reply::Yes => Reply::Yes,
            Reply::No => Reply::No,
            Reply::Text(t) => Reply::Text(crate::text::opt_view(*t)),
            Reply::Ran(ok, out, err) => Reply::Ran(*ok, out@, err@),
            Reply::NotDone => Reply::NotDone,
        }
    }
}

impl View for Stage<String> {
    type V = Stage<Seq<char>>;

    open spec fn view(&self) -> Stage<Seq<char>> {
        match self {
            Stage::FindDirectory(c) => Stage::FindDirectory(*c),
            Stage::FindOuter(c) => Stage::FindOuter(*c),
            Stage::Init(c) => Stage::Init(*c),
            Stage::ReadIgnore => Stage::ReadIgnore,
            Stage::WriteIgnore(t) => Stage::WriteIgnore(t@),
            Stage::FindRemote => Stage::FindRemote,
            Stage::SetRemote => Stage::SetRemote,
            Stage::AddRemote => Stage::AddRemote,
            Stage::ReadRemote => Stage::ReadRemote,
            Stage::Add => Stage::Add,
            Stage::Diff => Stage::Diff,
            Stage::Commit => Stage::Commit,
            Stage::Fetch => Stage::Fetch,
            Stage::CurrentBranch => Stage::CurrentBranch,
            Stage::LocalRef => Stage::LocalRef,
            Stage::Head => Stage::Head,
            Stage::RemoteRef => Stage::RemoteRef,
            Stage::MergeBase => Stage::MergeBase,
            Stage::Integrate(related) => Stage::Integrate(*related),
            Stage::Abort(related, e) => Stage::Abort(*related, e@),
            Stage::Import => Stage::Import,
            Stage::Snapshot => Stage::Snapshot,
            Stage::AddSnapshot => Stage::AddSnapshot,
            Stage::DiffSnapshot => Stage::DiffSnapshot,
            Stage::CommitSnapshot => Stage::CommitSnapshot,
            Stage::Push => Stage::Push,
            Stage::Done => Stage::Done,
            Stage::Failed(e) => Stage::Failed(e@),
        }
    }
}

impl View for Sync<String> {
    type V = Sync<Seq<char>>;

    open spec fn view(&self) -> Sync<Seq<char>> {
        Sync {
            repository: crate::text::opt_view(self.repository),
            only_configure: self.only_configure,
            remote: self.remote@,
            branch: self.branch@,
            committed: self.committed,
            stage: self.stage@,
        }
    }
}

/// The URL that the sync was given; empty when it was given none.
pub open spec fn target(s: Sync<Seq<char>>) -> Seq<char> {
    match s.repository {
        Some(url) => url,
        None => Seq::empty(),
    }
}

/// What a sync asks for.
pub open spec fn request_of(s: Sync<Seq<char>>) -> Request<Seq<char>> {
    match s.stage {
        Stage::FindDirectory(_) => Request::FindDirectory,
        Stage::FindOuter(_) => Request::Git(Command::Toplevel),
        Stage::Init(_) => Request::Git(Command::Init),
        Stage::ReadIgnore => Request::ReadIgnore,
        Stage::WriteIgnore(text) => Request::WriteIgnore(text),
        Stage::FindRemote | Stage::ReadRemote => Request::Git(Command::GetUrl),
        Stage::SetRemote => Request::Git(Command::SetUrl(target(s))),
        Stage::AddRemote => Request::Git(Command::AddRemote(target(s))),
        Stage::Add | Stage::AddSnapshot => Request::Git(Command::AddAll),
        Stage::Diff | Stage::DiffSnapshot => Request::Git(Command::CachedDiff),
        Stage::Commit | Stage::CommitSnapshot => Request::Git(Command::Commit),
        Stage::Import => Request::ImportReviews,
        Stage::Snapshot => Request::WriteSnapshot,
        Stage::Fetch => Request::Git(Command::Fetch),
        Stage::CurrentBranch => Request::Git(Command::CurrentBranch),
        Stage::LocalRef | Stage::RemoteRef => Request::Git(Command::ShowRef(s.branch)),
        Stage::Head => Request::Git(Command::ListHead),
        Stage::MergeBase => Request::Git(Command::MergeBase(s.branch)),
        Stage::Integrate(true) => Request::Git(Command::Rebase(s.branch)),
        Stage::Integrate(false) => Request::Git(Command::Merge(s.branch)),
        Stage::Abort(true, _) => Request::Git(Command::AbortRebase),
        Stage::Abort(false, _) => Request::Git(Command::AbortMerge),
        Stage::Push => Request::Git(Command::Push(s.branch)),
        Stage::Done | Stage::Failed(_) => Request::Nothing,
    }
}

/// The same sync at another stage.
pub open spec fn at(s: Sync<Seq<char>>, stage: Stage<Seq<char>>) -> Sync<Seq<char>> {
    Sync { stage, ..s }
}

pub open spec fn succeeded(reply: Reply<Seq<char>>) -> bool {
    reply matches Reply::Ran(ok, _, _) && ok
}

/// What a reply to a command printed, if the command succeeded.
pub open spec fn printed(reply: Reply<Seq<char>>) -> Option<Seq<char>> {
    match reply {
        Reply::Ran(true, out, _) => Some(out),
        _ => None,
    }
}

/// The error in the reply to the command that was asked for.
pub open spec fn failure(
    s: Sync<Seq<char>>,
    reply: Reply<Seq<char>>,
    hint: Hint,
) -> Option<SyncError<Seq<char>>> {
    match (reply, request_of(s)) {
        (Reply::Ran(true, _, _), _) => None,
        (Reply::Ran(false, _, err), Request::Git(command)) => Some(
            SyncError::Git(hint, command, Some(err)),
        ),
        _ => Some(SyncError::NotDone(hint)),
    }
}

/// The next stage after a command that has to succeed.
pub open spec fn after(
    s: Sync<Seq<char>>,
    reply: Reply<Seq<char>>,
    hint: Hint,
    next: Stage<Seq<char>>,
) -> Sync<Seq<char>> {
    match failure(s, reply, hint) {
        Some(error) => at(s, Stage::Failed(error)),
        None => at(s, next),
    }
}

/// The stage that starts configuring the remote.
pub open spec fn configure_stage(url: Seq<char>) -> Stage<Seq<char>> {
    match remote_error(url) {
        Some(e) => Stage::Failed(SyncError::Remote(e)),
        None => Stage::FindDirectory(true),
    }
}

/// The stage once the ignore file is in order.
pub open spec fn ignored_stage(s: Sync<Seq<char>>) -> Stage<Seq<char>> {
    match s.repository {
        Some(url) => configure_stage(url),
        None => Stage::ReadRemote,
    }
}

/// The stage once there is a repository.
pub open spec fn repository_stage(configuring: bool) -> Stage<Seq<char>> {
    if configuring {
        Stage::FindRemote
    } else {
        Stage::ReadIgnore
    }
}

/// The stage once the remote is set.
pub open spec fn configured_stage(s: Sync<Seq<char>>) -> Stage<Seq<char>> {
    if s.only_configure {
        Stage::Done
    } else {
        Stage::ReadRemote
    }
}

/// Where a sync stands after a reply.
pub open spec fn next(s: Sync<Seq<char>>, reply: Reply<Seq<char>>) -> Sync<Seq<char>> {
    match s.stage {
        Stage::FindDirectory(c) => at(
            s,
            if reply is Yes {
                repository_stage(c)
            } else {
                Stage::FindOuter(c)
            },
        ),
        Stage::FindOuter(c) => at(
            s,
            if succeeded(reply) {
                Stage::Failed(SyncError::InsideRepository)
            } else {
                Stage::Init(c)
            },
        ),
        Stage::Init(c) => after(s, reply, Hint::Plain, repository_stage(c)),
        Stage::ReadIgnore => match reply {
            Reply::Text(text) => {
                let source = match text {
                    Some(t) => t,
                    None => Seq::empty(),
                };
                if ignore::updated(source) == source {
                    at(s, ignored_stage(s))
                } else {
                    at(s, Stage::WriteIgnore(ignore::updated(source)))
                }
            },
            _ => at(s, Stage::Failed(SyncError::NotDone(Hint::Plain))),
        },
        Stage::WriteIgnore(_) => at(
            s,
            if reply is Yes {
                ignored_stage(s)
            } else {
                Stage::Failed(SyncError::NotDone(Hint::Plain))
            },
        ),
        Stage::FindRemote => {
            let url = match printed(reply) {
                Some(out) => url_in(out),
                None => None,
            };
            at(
                s,
                if url is Some {
                    Stage::SetRemote
                } else {
                    Stage::AddRemote
                },
            )
        },
        Stage::SetRemote | Stage::AddRemote => after(s, reply, Hint::Plain, configured_stage(s)),
        Stage::ReadRemote => {
            let found = match printed(reply) {
                Some(out) => url_in(out),
                None => None,
            };
            match found {
                None => at(s, Stage::Failed(SyncError::NoRemote)),
                Some(url) => match remote_error(url) {
                    Some(e) => at(s, Stage::Failed(SyncError::Remote(e))),
                    None => Sync { remote: url, stage: Stage::Add, ..s },
                },
            }
        },
        Stage::Add => after(s, reply, Hint::Plain, Stage::Diff),
        Stage::Diff => match reply {
            Reply::Ran(true, _, _) => Sync { committed: false, stage: Stage::Fetch, ..s },
            Reply::Ran(false, _, _) => Sync { committed: true, stage: Stage::Commit, ..s },
            _ => at(s, Stage::Failed(SyncError::NotDone(Hint::Plain))),
        },
        Stage::Commit => after(s, reply, Hint::Identity, Stage::Fetch),
        Stage::Fetch => after(s, reply, Hint::Authentication, Stage::CurrentBranch),
        Stage::CurrentBranch => match reply {
            Reply::Ran(true, out, _) => if trimmed(out).len() == 0 {
                at(s, Stage::Failed(SyncError::NoBranch))
            } else {
                Sync { branch: trimmed(out), stage: Stage::LocalRef, ..s }
            },
            Reply::Ran(false, _, _) => at(
                s,
                Stage::Failed(SyncError::Git(Hint::Plain, Command::CurrentBranch, None)),
            ),
            _ => at(s, Stage::Failed(SyncError::NotDone(Hint::Plain))),
        },
        Stage::LocalRef => match reply {
            Reply::Ran(false, _, _) => at(s, Stage::Head),
            _ => at(s, Stage::RemoteRef),
        },
        Stage::Head => {
            let head = match printed(reply) {
                Some(out) => first_branch(lines(out)),
                None => None,
            };
            match head {
                Some(branch) => Sync { branch, stage: Stage::RemoteRef, ..s },
                None => at(s, Stage::RemoteRef),
            }
        },
        Stage::RemoteRef => match reply {
            Reply::Ran(true, _, _) => at(s, Stage::MergeBase),
            Reply::Ran(false, _, _) => at(s, Stage::Import),
            _ => at(s, Stage::Failed(SyncError::NotDone(Hint::Plain))),
        },
        Stage::MergeBase => match reply {
            Reply::Ran(related, _, _) => at(s, Stage::Integrate(related)),
            _ => at(s, Stage::Failed(SyncError::NotDone(Hint::Plain))),
        },
        Stage::Integrate(related) => match failure(s, reply, Hint::Plain) {
            Some(error) => at(s, Stage::Abort(related, error)),
            None => at(s, Stage::Import),
        },
        Stage::Abort(_, error) => at(s, Stage::Failed(hinted(error, Hint::Conflict))),
        Stage::Import => at(
            s,
            if reply is Yes {
                Stage::Snapshot
            } else {
                Stage::Failed(SyncError::Import)
            },
        ),
        Stage::Snapshot => at(
            s,
            if reply is Yes {
                Stage::AddSnapshot
            } else {
                Stage::Failed(SyncError::Snapshot)
            },
        ),
        Stage::AddSnapshot => after(s, reply, Hint::Plain, Stage::DiffSnapshot),
        Stage::DiffSnapshot => match reply {
            Reply::Ran(true, _, _) => at(s, Stage::Push),
            Reply::Ran(false, _, _) => at(s, Stage::CommitSnapshot),
            _ => at(s, Stage::Failed(SyncError::NotDone(Hint::Plain))),
        },
        Stage::CommitSnapshot => after(s, reply, Hint::Identity, Stage::Push),
        Stage::Push => after(s, reply, Hint::Plain, Stage::Done),
        Stage::Done | Stage::Failed(_) => s,
    }
}

/// A sync that has not begun.
pub open spec fn begun(
    repository: Option<Seq<char>>,
    only_configure: bool,
    stage: Stage<Seq<char>>,
) -> Sync<Seq<char>> {
    Sync {
        repository,
        only_configure,
        remote: Seq::empty(),
        branch: Seq::empty(),
        committed: false,
        stage,
    }
}

fn first_stage(url: &str) -> (r: Stage<String>)
    ensures
        r@ == configure_stage(url@),
{
    match validate_remote(url) {
        Err(e) => Stage::Failed(SyncError::Remote(e)),
        Ok(_) => Stage::FindDirectory(true),
    }
}

fn copy_command(command: &Command<String>) -> (r: Command<String>)
    ensures
        r@ == command@,
{
    match command {
        Command::Toplevel => Command::Toplevel,
        Command::Init => Command::Init,
        Command::GetUrl => Command::GetUrl,
        Command::SetUrl(t) => Command::SetUrl(t.clone()),
        Command::AddRemote(t) => Command::AddRemote(t.clone()),
        Command::AddAll => Command::AddAll,
        Command::CachedDiff => Command::CachedDiff,
        Command::Commit => Command::Commit,
        Command::Fetch => Command::Fetch,
        Command::CurrentBranch => Command::CurrentBranch,
        Command::ShowRef(t) => Command::ShowRef(t.clone()),
        Command::ListHead => Command::ListHead,
        Command::MergeBase(t) => Command::MergeBase(t.clone()),
        Command::Rebase(t) => Command::Rebase(t.clone()),
        Command::Merge(t) => Command::Merge(t.clone()),
        Command::AbortRebase => Command::AbortRebase,
        Command::AbortMerge => Command::AbortMerge,
        Command::Push(t) => Command::Push(t.clone()),
    }
}

impl Sync<String> {
    /// A sync of a vault; the remote is set first where a URL is given.
    pub fn new(repository: Option<String>) -> (r: Self)
        ensures
            r@ == begun(
                crate::text::opt_view(repository),
                false,
                Stage::FindDirectory(false),
            ),
    {
        let r = Sync {
            repository,
            only_configure: false,
            remote: String::new(),
            branch: String::new(),
            committed: false,
            stage: Stage::FindDirectory(false),
        };
        assert(r@.remote == Seq::<char>::empty());
        assert(r@.branch == Seq::<char>::empty());
        r
    }

    /// A run that only sets the remote.
    pub fn configure_remote(repository: String) -> (r: Self)
        ensures
            r@ == begun(Some(repository@), true, configure_stage(repository@)),
    {
        let stage = first_stage(repository.as_str());
        let r = Sync {
            repository: Some(repository),
            only_configure: true,
            remote: String::new(),
            branch: String::new(),
            committed: false,
            stage,
        };
        assert(r@.remote == Seq::<char>::empty());
        assert(r@.branch == Seq::<char>::empty());
        r
    }

    fn url(&self) -> (r: String)
        ensures
            r@ == target(self@),
    {
        match &self.repository {
            Some(url) => url.clone(),
            None => {
                let r = String::new();
                assert(r@ == Seq::<char>::empty());
                r
            },
        }
    }

    /// What has to be done next.
    pub fn request(&self) -> (r: Request<String>)
        ensures
            r@ == request_of(self@),
    {
        match &self.stage {
            Stage::FindDirectory(_) => Request::FindDirectory,
            Stage::FindOuter(_) => Request::Git(Command::Toplevel),
            Stage::Init(_) => Request::Git(Command::Init),
            Stage::ReadIgnore => Request::ReadIgnore,
            Stage::WriteIgnore(text) => Request::WriteIgnore(text.clone()),
            Stage::FindRemote | Stage::ReadRemote => Request::Git(Command::GetUrl),
            Stage::SetRemote => Request::Git(Command::SetUrl(self.url())),
            Stage::AddRemote => Request::Git(Command::AddRemote(self.url())),
            Stage::Add | Stage::AddSnapshot => Request::Git(Command::AddAll),
            Stage::Diff | Stage::DiffSnapshot => Request::Git(Command::CachedDiff),
            Stage::Commit | Stage::CommitSnapshot => Request::Git(Command::Commit),
            Stage::Import => Request::ImportReviews,
            Stage::Snapshot => Request::WriteSnapshot,
            Stage::Fetch => Request::Git(Command::Fetch),
            Stage::CurrentBranch => Request::Git(Command::CurrentBranch),
            Stage::LocalRef | Stage::RemoteRef => Request::Git(
                Command::ShowRef(self.branch.clone()),
            ),
            Stage::Head => Request::Git(Command::ListHead),
            Stage::MergeBase => Request::Git(Command::MergeBase(self.branch.clone())),
            Stage::Integrate(related) => if *related {
                Request::Git(Command::Rebase(self.branch.clone()))
            } else {
                Request::Git(Command::Merge(self.branch.clone()))
            },
            Stage::Abort(related, _) => if *related {
                Request::Git(Command::AbortRebase)
            } else {
                Request::Git(Command::AbortMerge)
            },
            Stage::Push => Request::Git(Command::Push(self.branch.clone())),
            Stage::Done | Stage::Failed(_) => Request::Nothing,
        }
    }

    fn error_in(&self, reply: &Reply<String>, hint: Hint) -> (r: Option<SyncError<String>>)
        ensures
            match r {
                Some(e) => failure(self@, reply@, hint) == Some(e@),
                None => failure(self@, reply@, hint) is None,
            },
    {
        match reply {
            Reply::Ran(ok, _, err) => if *ok {
                None
            } else {
                match self.request() {
                    Request::Git(command) => Some(
                        SyncError::Git(hint, command, Some(err.clone())),
                    ),
                    _ => Some(SyncError::NotDone(hint)),
                }
            },
            _ => Some(SyncError::NotDone(hint)),
        }
    }

    fn stage_after(&self, reply: &Reply<String>, hint: Hint, next: Stage<String>) -> (r: Stage<
        String,
    >)
        ensures
            at(self@, r@) == after(self@, reply@, hint, next@),
    {
        match self.error_in(reply, hint) {
            Some(error) => Stage::Failed(error),
            None => next,
        }
    }

    fn configured(&self) -> (r: Stage<String>)
        ensures
            r@ == configured_stage(self@),
    {
        if self.only_configure {
            Stage::Done
        } else {
            Stage::ReadRemote
        }
    }

    fn ignored(&self) -> (r: Stage<String>)
        ensures
            r@ == ignored_stage(self@),
    {
        match &self.repository {
            Some(url) => first_stage(url.as_str()),
            None => Stage::ReadRemote,
        }
    }

    /// Takes what came of the request.
    #[verifier::rlimit(80)]
    #[verifier::spinoff_prover]
    pub fn answer(&mut self, reply: Reply<String>)
        ensures
            final(self)@ == next(old(self)@, reply@),
    {
        match &self.stage {
            Stage::FindDirectory(c) => {
                let c = *c;
                if let Reply::Yes = reply {
                    self.stage = with_repository(c);
                } else {
                    self.stage = Stage::FindOuter(c);
                }
            },
            Stage::FindOuter(c) => {
                let c = *c;
                if output_of(&reply).is_some() {
                    self.stage = Stage::Failed(SyncError::InsideRepository);
                } else {
                    self.stage = Stage::Init(c);
                }
            },
            Stage::Init(c) => {
                let c = *c;
                self.stage = self.stage_after(&reply, Hint::Plain, with_repository(c));
            },
            Stage::ReadIgnore => {
                match reply {
                    Reply::Text(text) => {
                        let source = match text {
                            Some(t) => t,
                            None => {
                                let empty = String::new();
                                assert(empty@ == Seq::<char>::empty());
                                empty
                            },
                        };
                        match ignore::update(source.as_str()) {
                            Some(new) => {
                                self.stage = Stage::WriteIgnore(new);
                            },
                            None => {
                                self.stage = self.ignored();
                            },
                        }
                    },
                    _ => {
                        self.stage = Stage::Failed(SyncError::NotDone(Hint::Plain));
                    },
                }
            },
            Stage::WriteIgnore(_) => {
                if let Reply::Yes = reply {
                    self.stage = self.ignored();
                } else {
                    self.stage = Stage::Failed(SyncError::NotDone(Hint::Plain));
                }
            },
            Stage::FindRemote => {
                if url_of(&reply).is_some() {
                    self.stage = Stage::SetRemote;
                } else {
                    self.stage = Stage::AddRemote;
                }
            },
            Stage::SetRemote | Stage::AddRemote => {
                self.stage = self.stage_after(&reply, Hint::Plain, self.configured());
            },
            Stage::ReadRemote => {
                match url_of(&reply) {
                    None => {
                        self.stage = Stage::Failed(SyncError::NoRemote);
                    },
                    Some(url) => {
                        match validate_remote(url.as_str()) {
                            Err(e) => {
                                self.stage = Stage::Failed(SyncError::Remote(e));
                            },
                            Ok(_) => {
                                self.remote = url;
                                self.stage = Stage::Add;
                            },
                        }
                    },
                }
            },
            Stage::Add => {
                self.stage = self.stage_after(&reply, Hint::Plain, Stage::Diff);
            },
            Stage::Diff => {
                match reply {
                    Reply::Ran(same, _, _) => {
                        self.committed = !same;
                        if same {
                            self.stage = Stage::Fetch;
                        } else {
                            self.stage = Stage::Commit;
                        }
                    },
                    _ => {
                        self.stage = Stage::Failed(SyncError::NotDone(Hint::Plain));
                    },
                }
            },
            Stage::Commit => {
                self.stage = self.stage_after(&reply, Hint::Identity, Stage::Fetch);
            },
            Stage::Fetch => {
                self.stage = self.stage_after(&reply, Hint::Authentication, Stage::CurrentBranch);
            },
            Stage::CurrentBranch => {
                match reply {
                    Reply::Ran(ok, out, _) => {
                        if ok {
                            let branch = trim_text(out.as_str());
                            if to_chars(branch.as_str()).len() == 0 {
                                self.stage = Stage::Failed(SyncError::NoBranch);
                            } else {
                                self.branch = branch;
                                self.stage = Stage::LocalRef;
                            }
                        } else {
                            self.stage =
                            Stage::Failed(
                                SyncError::Git(Hint::Plain, Command::CurrentBranch, None),
                            );
                        }
                    },
                    _ => {
                        self.stage = Stage::Failed(SyncError::NotDone(Hint::Plain));
                    },
                }
            },
            Stage::LocalRef => {
                match reply {
                    Reply::Ran(false, _, _) => {
                        self.stage = Stage::Head;
                    },
                    _ => {
                        self.stage = Stage::RemoteRef;
                    },
                }
            },
            Stage::Head => {
                if let Some(out) = output_of(&reply) {
                    if let Some(branch) = head_branch(out) {
                        self.branch = branch;
                    }
                }
                self.stage = Stage::RemoteRef;
            },
            Stage::RemoteRef => {
                match reply {
                    Reply::Ran(there, _, _) => {
                        if there {
                            self.stage = Stage::MergeBase;
                        } else {
                            self.stage = Stage::Import;
                        }
                    },
                    _ => {
                        self.stage = Stage::Failed(SyncError::NotDone(Hint::Plain));
                    },
                }
            },
            Stage::MergeBase => {
                match reply {
                    Reply::Ran(related, _, _) => {
                        self.stage = Stage::Integrate(related);
                    },
                    _ => {
                        self.stage = Stage::Failed(SyncError::NotDone(Hint::Plain));
                    },
                }
            },
            Stage::Integrate(related) => {
                let related = *related;
                match self.error_in(&reply, Hint::Plain) {
                    Some(error) => {
                        self.stage = Stage::Abort(related, error);
                    },
                    None => {
                        self.stage = Stage::Import;
                    },
                }
            },
            Stage::Abort(_, error) => {
                let error = in_conflict(error);
                self.stage = Stage::Failed(error);
            },
            Stage::Import => {
                if let Reply::Yes = reply {
                    self.stage = Stage::Snapshot;
                } else {
                    self.stage = Stage::Failed(SyncError::Import);
                }
            },
            Stage::Snapshot => {
                if let Reply::Yes = reply {
                    self.stage = Stage::AddSnapshot;
                } else {
                    self.stage = Stage::Failed(SyncError::Snapshot);
                }
            },
            Stage::AddSnapshot => {
                self.stage = self.stage_after(&reply, Hint::Plain, Stage::DiffSnapshot);
            },
            Stage::DiffSnapshot => {
                match reply {
                    Reply::Ran(same, _, _) => {
                        if same {
                            self.stage = Stage::Push;
                        } else {
                            self.stage = Stage::CommitSnapshot;
                        }
                    },
                    _ => {
                        self.stage = Stage::Failed(SyncError::NotDone(Hint::Plain));
                    },
                }
            },
            Stage::CommitSnapshot => {
                self.stage = self.stage_after(&reply, Hint::Identity, Stage::Push);
            },
            Stage::Push => {
                self.stage = self.stage_after(&reply, Hint::Plain, Stage::Done);
            },
            Stage::Done | Stage::Failed(_) => {},
        }
    }

    /// What the sync did, once it is done.
    pub fn summary(&self) -> (r: Option<SyncSummary>)
        ensures
            r is Some <==> self@.stage is Done,
            r matches Some(summary) ==> summary.remote@ == self@.remote && summary.branch@
                == self@.branch && summary.committed == self@.committed,
    {
        match &self.stage {
            Stage::Done => Some(
                SyncSummary {
                    remote: self.remote.clone(),
                    branch: self.branch.clone(),
                    committed: self.committed,
                },
            ),
            _ => None,
        }
    }
}

fn with_repository(configuring: bool) -> (r: Stage<String>)
    ensures
        r@ == repository_stage(configuring),
{
    if configuring {
        Stage::FindRemote
    } else {
        Stage::ReadIgnore
    }
}

fn output_of(reply: &Reply<String>) -> (r: Option<&str>)
    ensures
        crate::text::opt_str_view(r) == printed(reply@),
        r is Some <==> succeeded(reply@),
{
    match reply {
        Reply::Ran(ok, out, _) => if *ok {
            Some(out.as_str())
        } else {
            None
        },
        _ => None,
    }
}

fn url_of(reply: &Reply<String>) -> (r: Option<String>)
    ensures
        crate::text::opt_view(r) == (match printed(reply@) {
            Some(out) => url_in(out),
            None => None,
        }),
{
    match output_of(reply) {
        Some(out) => remote(out),
        None => None,
    }
}

fn in_conflict(error: &SyncError<String>) -> (r: SyncError<String>)
    ensures
        r@ == hinted(error@, Hint::Conflict),
{
    match error {
        SyncError::NotDone(_) => SyncError::NotDone(Hint::Conflict),
        SyncError::InsideRepository => SyncError::InsideRepository,
        SyncError::NoRemote => SyncError::NoRemote,
        SyncError::Remote(e) => SyncError::Remote(*e),
        SyncError::NoBranch => SyncError::NoBranch,
        SyncError::Import => SyncError::Import,
        SyncError::Snapshot => SyncError::Snapshot,
        SyncError::Git(_, command, message) => SyncError::Git(
            Hint::Conflict,
            copy_command(command),
            crate::model::clone_text(message),
        ),
    }
}

// ---------------------------------------------------------------------------
// Laws
// ---------------------------------------------------------------------------

/// Where a sync stands after replies.
pub open spec fn run(s: Sync<Seq<char>>, replies: Seq<Reply<Seq<char>>>) -> Sync<Seq<char>>
    decreases replies.len(),
{
    if replies.len() == 0 {
        s
    } else {
        next(run(s, replies.drop_last()), replies.last())
    }
}

/// Whether a sync is about to do what its remote or target has to be sound for.
pub open spec fn remotes_are_sound(s: Sync<Seq<char>>) -> bool {
    match s.stage {
        Stage::FindDirectory(true)
        | Stage::FindOuter(true)
        | Stage::Init(true)
        | Stage::FindRemote
        | Stage::SetRemote
        | Stage::AddRemote => s.repository is Some && remote_error(target(s)) is None,
        Stage::FindDirectory(false)
        | Stage::FindOuter(false)
        | Stage::Init(false)
        | Stage::ReadIgnore
        | Stage::WriteIgnore(_)
        | Stage::ReadRemote
        | Stage::Failed(_) => true,
        Stage::Done => s.only_configure || remote_error(s.remote) is None,
        _ => remote_error(s.remote) is None,
    }
}

proof fn lemma_sound_step(s: Sync<Seq<char>>, reply: Reply<Seq<char>>)
    requires
        remotes_are_sound(s),
    ensures
        remotes_are_sound(next(s, reply)),
{
}

/// Whatever Git answers, a URL that is empty or holds a credential is never set as the
/// remote, and nothing is committed, fetched or pushed while the remote is such a URL.
pub proof fn a_token_never_leaves_the_vault(
    repository: Option<Seq<char>>,
    only_configure: bool,
    replies: Seq<Reply<Seq<char>>>,
)
    requires
        only_configure ==> repository is Some,
    ensures
        ({
            let first = if only_configure {
                configure_stage(repository->0)
            } else {
                Stage::FindDirectory(false)
            };
            let s = run(begun(repository, only_configure, first), replies);
            &&& remotes_are_sound(s)
            &&& request_of(s) matches Request::Git(Command::SetUrl(url)) ==> remote_error(
                url,
            ) is None
            &&& request_of(s) matches Request::Git(Command::AddRemote(url)) ==> remote_error(
                url,
            ) is None
            &&& request_of(s) is Git && (request_of(s)->Git_0 is Commit
                || request_of(s)->Git_0 is Fetch || request_of(s)->Git_0 is Push)
                ==> remote_error(s.remote) is None
        }),
    decreases replies.len(),
{
    if replies.len() > 0 {
        a_token_never_leaves_the_vault(repository, only_configure, replies.drop_last());
        let first = if only_configure {
            configure_stage(repository->0)
        } else {
            Stage::FindDirectory(false)
        };
        lemma_sound_step(
            run(begun(repository, only_configure, first), replies.drop_last()),
            replies.last(),
        );
    }
}

/// When the remote's commits cannot be brought in, the attempt is undone, and the sync
/// then ends in a conflict: nothing is pushed, whatever Git answers.
pub proof fn a_conflict_is_undone_and_not_pushed(
    s: Sync<Seq<char>>,
    failed: Reply<Seq<char>>,
    undone: Reply<Seq<char>>,
    related: bool,
)
    requires
        s.stage == Stage::<Seq<char>>::Integrate(related),
        !succeeded(failed),
    ensures
        request_of(next(s, failed)) == Request::Git(
            if related {
                Command::<Seq<char>>::AbortRebase
            } else {
                Command::<Seq<char>>::AbortMerge
            },
        ),
        next(next(s, failed), undone).stage matches Stage::Failed(e) && hint_of(e)
            == Hint::Conflict,
{
}

/// What a sync asks for after the first `k` replies.
pub open spec fn asked(s: Sync<Seq<char>>, replies: Seq<Reply<Seq<char>>>, k: int) -> Request<
    Seq<char>,
> {
    request_of(run(s, replies.take(k)))
}

/// Whether the remote's commits are in the vault by the reply at `k`: they were brought in,
/// or the remote has none.
pub open spec fn integrated_at(
    s: Sync<Seq<char>>,
    replies: Seq<Reply<Seq<char>>>,
    k: int,
) -> bool {
    match asked(s, replies, k) {
        Request::Git(Command::Rebase(_)) | Request::Git(Command::Merge(_)) => succeeded(replies[k]),
        Request::Git(Command::ShowRef(_)) => replies[k] matches Reply::Ran(there, _, _) && !there,
        _ => false,
    }
}

/// The places in a run at which it fetched, integrated, imported, wrote the snapshot and
/// pushed.
pub struct Milestones {
    pub fetched: int,
    pub integrated: int,
    pub imported: int,
    pub written: int,
    pub pushed: int,
}

/// Whether the run fetched, then had the remote's commits, then imported.
pub open spec fn imported_by(
    s: Sync<Seq<char>>,
    replies: Seq<Reply<Seq<char>>>,
    m: Milestones,
) -> bool {
    &&& 0 <= m.fetched < m.integrated < m.imported < replies.len()
    &&& asked(s, replies, m.fetched) == Request::Git(Command::<Seq<char>>::Fetch)
    &&& succeeded(replies[m.fetched])
    &&& integrated_at(s, replies, m.integrated)
    &&& asked(s, replies, m.imported) == Request::<Seq<char>>::ImportReviews
    &&& replies[m.imported] is Yes
}

/// Whether the run wrote the snapshot after it had imported.
pub open spec fn written_by(
    s: Sync<Seq<char>>,
    replies: Seq<Reply<Seq<char>>>,
    m: Milestones,
) -> bool {
    &&& imported_by(s, replies, m)
    &&& m.imported < m.written < replies.len()
    &&& asked(s, replies, m.written) == Request::<Seq<char>>::WriteSnapshot
    &&& replies[m.written] is Yes
}

/// Whether the run pushed after it had written the snapshot.
pub open spec fn pushed_by(
    s: Sync<Seq<char>>,
    replies: Seq<Reply<Seq<char>>>,
    m: Milestones,
) -> bool {
    &&& written_by(s, replies, m)
    &&& m.written < m.pushed < replies.len()
    &&& asked(s, replies, m.pushed) matches Request::Git(Command::Push(_))
    &&& succeeded(replies[m.pushed])
}

/// Whether the milestones are those that the stage of the run stands behind.
spec fn reached_by(s: Sync<Seq<char>>, replies: Seq<Reply<Seq<char>>>, m: Milestones) -> bool {
    match run(s, replies).stage {
        Stage::CurrentBranch
        | Stage::LocalRef
        | Stage::Head
        | Stage::RemoteRef
        | Stage::MergeBase
        | Stage::Integrate(_) => {
            &&& 0 <= m.fetched < replies.len()
            &&& asked(s, replies, m.fetched) == Request::Git(Command::<Seq<char>>::Fetch)
            &&& succeeded(replies[m.fetched])
        },
        Stage::Import => {
            &&& 0 <= m.fetched < m.integrated < replies.len()
            &&& asked(s, replies, m.fetched) == Request::Git(Command::<Seq<char>>::Fetch)
            &&& succeeded(replies[m.fetched])
            &&& integrated_at(s, replies, m.integrated)
        },
        Stage::Snapshot => imported_by(s, replies, m),
        Stage::AddSnapshot
        | Stage::DiffSnapshot
        | Stage::CommitSnapshot
        | Stage::Push => written_by(s, replies, m),
        Stage::Done => pushed_by(s, replies, m),
        _ => true,
    }
}

#[verifier::rlimit(60)]
#[verifier::spinoff_prover]
proof fn lemma_milestones(
    repository: Option<Seq<char>>,
    replies: Seq<Reply<Seq<char>>>,
) -> (m: Milestones)
    ensures
        reached_by(begun(repository, false, Stage::FindDirectory(false)), replies, m),
        !run(begun(repository, false, Stage::FindDirectory(false)), replies).only_configure,
    decreases replies.len(),
{
    let s = begun(repository, false, Stage::FindDirectory(false));
    if replies.len() == 0 {
        Milestones { fetched: 0, integrated: 0, imported: 0, written: 0, pushed: 0 }
    } else {
        let rest = replies.drop_last();
        let last = rest.len() as int;
        let m = lemma_milestones(repository, rest);
        assert forall|k: int| 0 <= k <= last implies #[trigger] replies.take(k) == rest.take(k) by {}
        assert(replies.take(last) == rest);
        assert(rest.take(last) == rest);
        assert(asked(s, replies, last) == request_of(run(s, rest)));
        assert forall|k: int| 0 <= k < last implies #[trigger] asked(s, replies, k) == asked(
            s,
            rest,
            k,
        ) && replies[k] == rest[k] by {
            assert(replies.take(k) == rest.take(k));
        }
        match run(s, rest).stage {
            Stage::Fetch => Milestones { fetched: last, ..m },
            Stage::RemoteRef | Stage::Integrate(_) => Milestones { integrated: last, ..m },
            Stage::Import => Milestones { imported: last, ..m },
            Stage::Snapshot => Milestones { written: last, ..m },
            Stage::Push => Milestones { pushed: last, ..m },
            _ => m,
        }
    }
}

/// A sync that is done has fetched, has the remote's commits in the vault, has then imported
/// the reviews of devices, has then written a fresh snapshot, and has then pushed.
pub proof fn a_done_sync_has_imported_and_published(
    repository: Option<Seq<char>>,
    replies: Seq<Reply<Seq<char>>>,
)
    requires
        run(begun(repository, false, Stage::FindDirectory(false)), replies).stage is Done,
    ensures
        exists|m: Milestones| #[trigger]
            pushed_by(begun(repository, false, Stage::FindDirectory(false)), replies, m),
{
    let m = lemma_milestones(repository, replies);
    assert(pushed_by(begun(repository, false, Stage::FindDirectory(false)), replies, m));
}

/// Nothing is pushed before the reviews of devices were imported and a fresh snapshot was
/// written.
pub proof fn a_push_comes_after_the_snapshot(
    repository: Option<Seq<char>>,
    replies: Seq<Reply<Seq<char>>>,
)
    requires
        request_of(
            run(begun(repository, false, Stage::FindDirectory(false)), replies),
        ) matches Request::Git(Command::Push(_)),
    ensures
        exists|m: Milestones| #[trigger]
            written_by(begun(repository, false, Stage::FindDirectory(false)), replies, m),
{
    let m = lemma_milestones(repository, replies);
    assert(written_by(begun(repository, false, Stage::FindDirectory(false)), replies, m));
}

/// How far a sync is from its end.
pub open spec fn distance(s: Sync<Seq<char>>) -> nat {
    match s.stage {
        Stage::FindDirectory(false) => 28,
        Stage::FindOuter(false) => 27,
        Stage::Init(false) => 26,
        Stage::ReadIgnore => 25,
        Stage::WriteIgnore(_) => 24,
        Stage::FindDirectory(true) => 23,
        Stage::FindOuter(true) => 22,
        Stage::Init(true) => 21,
        Stage::FindRemote => 20,
        Stage::SetRemote => 19,
        Stage::AddRemote => 18,
        Stage::ReadRemote => 17,
        Stage::Add => 16,
        Stage::Diff => 15,
        Stage::Commit => 14,
        Stage::Fetch => 13,
        Stage::CurrentBranch => 12,
        Stage::LocalRef => 11,
        Stage::Head => 10,
        Stage::RemoteRef => 9,
        Stage::MergeBase => 8,
        Stage::Integrate(_) => 7,
        Stage::Import => 6,
        Stage::Snapshot => 5,
        Stage::AddSnapshot => 4,
        Stage::DiffSnapshot => 3,
        Stage::CommitSnapshot => 2,
        Stage::Push => 1,
        Stage::Abort(_, _) => 1,
        Stage::Done => 0,
        Stage::Failed(_) => 0,
    }
}

/// Every reply brings a sync nearer to its end, so that each sync ends.
pub proof fn every_sync_ends(s: Sync<Seq<char>>, reply: Reply<Seq<char>>)
    ensures
        request_of(s) is Nothing <==> distance(s) == 0,
        distance(s) > 0 ==> distance(next(s, reply)) < distance(s),
{
}

/// A credential before the host of a web address is refused, whatever stands behind the host;
/// an address of another kind is not looked into.
pub proof fn a_credential_is_refused(host: Seq<char>, path: Seq<char>)
    requires
        !host.contains('/'),
    ensures
        has_token("https://"@ + host) <==> host.contains('@'),
        has_token("http://"@ + host) <==> host.contains('@'),
        has_token("https://"@ + (host.push('/') + path)) <==> host.contains('@'),
        has_token("http://"@ + (host.push('/') + path)) <==> host.contains('@'),
{
    reveal_strlit("https://");
    reveal_strlit("http://");
    let long = host.push('/') + path;
    lemma_prefixed("https://"@, host);
    lemma_prefixed("http://"@, host);
    lemma_prefixed("https://"@, long);
    lemma_prefixed("http://"@, long);
    lemma_first_part(host, path);
    assert(("http://"@ + host)[4] == ':' && ("http://"@ + long)[4] == ':');
    assert("https://"@[4] == 's');
    if starts_with("http://"@ + host, "https://"@) {
        assert(("http://"@ + host).subrange(0, 8)[4] == "https://"@[4]);
    }
    if starts_with("http://"@ + long, "https://"@) {
        assert(("http://"@ + long).subrange(0, 8)[4] == "https://"@[4]);
    }
}

proof fn lemma_prefixed(prefix: Seq<char>, rest: Seq<char>)
    ensures
        starts_with(prefix + rest, prefix),
        (prefix + rest).skip(prefix.len() as int) == rest,
{
    assert((prefix + rest).subrange(0, prefix.len() as int) == prefix);
    assert((prefix + rest).skip(prefix.len() as int) == rest);
}

proof fn lemma_first_part(host: Seq<char>, path: Seq<char>)
    requires
        !host.contains('/'),
    ensures
        split_by(host, just('/'))[0] == host,
        split_by(host.push('/') + path, just('/'))[0] == host,
{
    let n = host.len() as int;
    let whole = host.push('/') + path;
    let p = just('/');
    assert forall|j: int| 0 <= j < n implies !p(#[trigger] host[j]) by {
        assert(host.contains(host[j]));
    }
    assert forall|j: int| 0 <= j < n implies !p(#[trigger] whole[j]) by {
        assert(whole[j] == host[j]);
        assert(host.contains(host[j]));
    }
    assert(p(whole[n]));
    crate::text::lemma_index_by_is(host, p, n);
    crate::text::lemma_index_by_is(whole, p, n);
    assert(whole.take(n) == host);
    assert(host.take(n) == host);
}

/// A repository is refused exactly where its address is blank or holds a credential.
pub proof fn a_repository_is_refused_for_a_reason(repository: Seq<char>)
    ensures
        remote_error(repository) == Some(RemoteError::Empty) <==> trimmed(repository).len() == 0,
        remote_error(repository) == Some(RemoteError::Token) <==> trimmed(repository).len() > 0
            && has_token(trimmed(repository)),
        remote_error(repository) is None <==> trimmed(repository).len() > 0 && !has_token(
            trimmed(repository),
        ),
{
}

/// The branch is the one that the first line with a symbolic reference names.
pub proof fn the_first_reference_names_the_branch(lines: Seq<Seq<char>>, line: Seq<char>)
    ensures
        first_branch(lines) is Some ==> first_branch(lines.push(line)) == first_branch(lines),
        first_branch(lines) is None ==> first_branch(lines.push(line)) == branch_in(line),
        !starts_with(line, "ref: refs/heads/"@) ==> branch_in(line) is None,
        first_branch(Seq::empty()) is None,
{
    assert(lines.push(line).drop_last() == lines);
}

/// What is staged is committed before anything is fetched, and nothing is committed where
/// nothing is staged.
pub proof fn what_is_staged_is_committed(s: Sync<Seq<char>>, out: Seq<char>, err: Seq<char>)
    requires
        s.stage == Stage::<Seq<char>>::Diff,
    ensures
        ({
            let changed = next(s, Reply::Ran(false, out, err));
            let clean = next(s, Reply::Ran(true, out, err));
            &&& changed.committed && request_of(changed) == Request::<Seq<char>>::Git(
                Command::Commit,
            )
            &&& !clean.committed && request_of(clean) == Request::<Seq<char>>::Git(Command::Fetch)
            &&& request_of(next(changed, Reply::Ran(true, out, err))) == Request::<Seq<char>>::Git(
                Command::Fetch,
            )
        }),
{
}

/// Histories with a common ancestor are rebased, and others merged; what fails is undone by
/// its own means.
pub proof fn related_histories_are_rebased(
    s: Sync<Seq<char>>,
    out: Seq<char>,
    err: Seq<char>,
    more: Seq<char>,
)
    requires
        s.stage == Stage::<Seq<char>>::MergeBase,
    ensures
        ({
            let related = next(s, Reply::Ran(true, out, err));
            let unrelated = next(s, Reply::Ran(false, out, err));
            let failed = Reply::Ran(false, out, more);
            &&& request_of(related) == Request::Git(Command::Rebase(s.branch))
            &&& request_of(unrelated) == Request::Git(Command::Merge(s.branch))
            &&& request_of(next(related, failed)) == Request::<Seq<char>>::Git(Command::AbortRebase)
            &&& request_of(next(unrelated, failed)) == Request::<Seq<char>>::Git(Command::AbortMerge)
        }),
{
}

/// A command that fails says what Git said of it, and what to do where that is known: of a
/// commit to name its author, of a fetch to sign in, of a conflict that nothing was lost.
pub proof fn a_failure_says_what_to_do(s: Sync<Seq<char>>, out: Seq<char>, err: Seq<char>)
    ensures
        ({
            let r = next(s, Reply::Ran(false, out, err)).stage;
            &&& s.stage == Stage::<Seq<char>>::Commit || s.stage == Stage::<
                Seq<char>,
            >::CommitSnapshot ==> r == Stage::Failed(
                SyncError::Git(Hint::Identity, Command::Commit, Some(err)),
            )
            &&& s.stage == Stage::<Seq<char>>::Fetch ==> r == Stage::Failed(
                SyncError::Git(Hint::Authentication, Command::Fetch, Some(err)),
            )
            &&& s.stage == Stage::<Seq<char>>::Push ==> r == Stage::Failed(
                SyncError::Git(Hint::Plain, Command::Push(s.branch), Some(err)),
            )
            &&& s.stage matches Stage::Abort(_, error) ==> (r matches Stage::Failed(e) && (error
                is Git || error is NotDone ==> hint_of(e) == Hint::Conflict))
        }),
{
}

} // verus!
