//! Keeping a vault in step with a Git remote.

use yalive::ignore::update;
use yalive::sync::{
    arguments, head_branch, remote, validate_remote, Command, RemoteError, Reply, Request, Stage,
    Sync, SyncError, SyncSummary,
};

fn ran(done: bool, output: &str) -> Reply<String> {
    Reply::Ran(done, output.to_string(), String::new())
}

/// Runs a sync to its end, and returns the commands that Git was given.
fn drive(sync: &mut Sync<String>, git: &dyn Fn(&str) -> Reply<String>) -> Vec<String> {
    let mut commands = Vec::new();
    for _ in 0..60 {
        let reply = match sync.request() {
            Request::FindDirectory => Reply::Yes,
            Request::ReadIgnore => Reply::Text(None),
            Request::WriteIgnore(_) => Reply::Yes,
            Request::Git(command) => {
                let line = arguments(&command).join(" ");
                let reply = git(&line);
                commands.push(line);
                reply
            }
            Request::ImportReviews => {
                commands.push("import".to_string());
                Reply::Yes
            }
            Request::WriteSnapshot => {
                commands.push("snapshot".to_string());
                Reply::Yes
            }
            Request::Nothing => return commands,
        };
        sync.answer(reply);
    }
    panic!("the sync does not end: {commands:?}");
}

fn failure(sync: &Sync<String>) -> &SyncError<String> {
    match &sync.stage {
        Stage::Failed(error) => error,
        _ => panic!("the sync did not fail"),
    }
}

#[test]
fn rejects_tokens_embedded_in_urls() {
    let error = validate_remote("https://secret@github.com/user/vault.git").unwrap_err();
    assert!(SyncError::<String>::Remote(error).cause().contains("must not contain a token"));
    validate_remote("https://github.com/user/vault.git").unwrap();
    validate_remote("git@github.com:user/vault.git").unwrap();
}

#[test]
fn an_empty_repository_is_refused() {
    assert_eq!(validate_remote("  "), Err(RemoteError::Empty));
    assert_eq!(
        SyncError::<String>::Remote(RemoteError::Empty).cause(),
        "repository URL cannot be empty"
    );
}

/// A Git that has everything in place, with changes to commit.
fn git(line: &str) -> Reply<String> {
    match line {
        "remote get-url origin" => ran(true, "git@github.com:user/vault.git\n"),
        "diff --cached --quiet" => ran(false, ""),
        "branch --show-current" => ran(true, "main\n"),
        _ => ran(true, ""),
    }
}

#[test]
fn a_sync_commits_fetches_rebases_and_pushes() {
    let mut sync = Sync::new(None);
    let commands = drive(&mut sync, &git);
    assert_eq!(
        sync.summary(),
        Some(SyncSummary {
            remote: "git@github.com:user/vault.git".to_string(),
            branch: "main".to_string(),
            committed: true,
        })
    );
    assert_eq!(commands.last().unwrap(), "push --set-upstream origin HEAD:main");
    let at = |line: &str| commands.iter().position(|c| c == line).unwrap_or(usize::MAX);
    assert!(at("commit -m Sync yalive vault") < at("fetch --prune origin"), "{commands:?}");
    assert!(at("fetch --prune origin") < at("rebase origin/main"), "{commands:?}");
}

#[test]
fn a_sync_without_changes_commits_nothing() {
    let mut sync = Sync::new(None);
    let commands = drive(&mut sync, &|line| match line {
        "diff --cached --quiet" => ran(true, ""),
        _ => git(line),
    });
    assert!(!commands.iter().any(|c| c.starts_with("commit")), "{commands:?}");
    assert!(!sync.summary().unwrap().committed);
}

#[test]
fn a_sync_imports_reviews_and_publishes_a_snapshot() {
    let mut sync = Sync::new(None);
    let commands = drive(&mut sync, &git);
    let end: Vec<&str> = commands.iter().rev().take(7).rev().map(String::as_str).collect();
    assert_eq!(
        end,
        [
            "rebase origin/main",
            "import",
            "snapshot",
            "add --all",
            "diff --cached --quiet",
            "commit -m Sync yalive vault",
            "push --set-upstream origin HEAD:main",
        ]
    );
}

#[test]
fn a_first_sync_publishes_a_snapshot_too() {
    let mut sync = Sync::new(None);
    let commands = drive(&mut sync, &|line| match line {
        "show-ref --verify --quiet refs/remotes/origin/main" => ran(false, ""),
        _ => git(line),
    });
    let at = |line: &str| commands.iter().position(|c| c == line).unwrap_or(usize::MAX);
    assert!(at("fetch --prune origin") < at("import"), "{commands:?}");
    assert!(at("import") < at("snapshot"), "{commands:?}");
    assert_eq!(commands.last().unwrap(), "push --set-upstream origin HEAD:main");
    assert!(sync.summary().is_some());
}

#[test]
fn nothing_is_pushed_when_reviews_cannot_be_imported() {
    for (last, cause) in [("import", "could not import"), ("snapshot", "could not write")] {
        let mut sync = Sync::new(None);
        let mut pushed = false;
        loop {
            let reply = match sync.request() {
                Request::FindDirectory | Request::WriteIgnore(_) => Reply::Yes,
                Request::ReadIgnore => Reply::Text(None),
                Request::ImportReviews if last == "import" => Reply::NotDone,
                Request::ImportReviews => Reply::Yes,
                Request::WriteSnapshot => Reply::NotDone,
                Request::Git(command) => {
                    pushed |= matches!(command, Command::Push(_));
                    git(&arguments(&command).join(" "))
                }
                Request::Nothing => break,
            };
            sync.answer(reply);
        }
        assert!(!pushed);
        assert!(failure(&sync).cause().starts_with(cause));
    }
}

#[test]
fn a_conflict_is_undone_and_not_pushed() {
    let mut sync = Sync::new(None);
    let commands = drive(&mut sync, &|line| match line {
        "rebase origin/main" => ran(false, ""),
        _ => git(line),
    });
    assert_eq!(commands.last().unwrap(), "rebase --abort");
    assert_eq!(sync.summary(), None);
    assert!(failure(&sync).hint().unwrap().contains("sync conflict"));
}

#[test]
fn unrelated_histories_are_merged() {
    let mut sync = Sync::new(None);
    let commands = drive(&mut sync, &|line| match line {
        "merge-base HEAD origin/main" => ran(false, ""),
        _ => git(line),
    });
    assert!(
        commands.contains(&"merge --allow-unrelated-histories --no-edit origin/main".to_string()),
        "{commands:?}"
    );
}

#[test]
fn a_token_never_leaves_the_vault() {
    let mut sync = Sync::new(Some("https://secret@github.com/user/vault.git".to_string()));
    let commands = drive(&mut sync, &git);
    assert!(!commands.iter().any(|c| c.contains("secret")), "{commands:?}");
    assert!(matches!(failure(&sync), SyncError::Remote(RemoteError::Token)));
}

#[test]
fn a_vault_without_a_remote_cannot_be_synced() {
    let mut sync = Sync::new(None);
    drive(&mut sync, &|line| match line {
        "remote get-url origin" => ran(false, ""),
        _ => git(line),
    });
    assert!(matches!(failure(&sync), SyncError::NoRemote));
}

#[test]
fn a_failed_commit_names_what_git_said() {
    let mut sync = Sync::new(None);
    drive(&mut sync, &|line| match line {
        "commit -m Sync yalive vault" => {
            Reply::Ran(false, String::new(), "who are you\n".to_string())
        }
        _ => git(line),
    });
    let error = failure(&sync);
    assert_eq!(error.cause(), "git commit -m Sync yalive vault failed: who are you");
    assert!(error.hint().unwrap().contains("user.name"));
}

#[test]
fn git_that_cannot_be_run_is_reported() {
    let mut sync = Sync::new(None);
    drive(&mut sync, &|line| match line {
        "add --all" => Reply::NotDone,
        _ => git(line),
    });
    assert!(failure(&sync).cause().contains("install Git"));
}

#[test]
fn a_vault_inside_another_repository_is_refused() {
    let mut sync = Sync::new(None);
    sync.answer(Reply::No);
    assert!(matches!(sync.request(), Request::Git(Command::Toplevel)));
    sync.answer(ran(true, "/outer\n"));
    assert!(matches!(failure(&sync), SyncError::InsideRepository));
}

#[test]
fn configuring_a_remote_stops_there() {
    let mut sync = Sync::configure_remote("git@github.com:user/other.git".to_string());
    let commands = drive(&mut sync, &git);
    assert!(
        commands.contains(&"remote set-url origin git@github.com:user/other.git".to_string()),
        "{commands:?}"
    );
    assert!(!commands.iter().any(|c| c.starts_with("push")), "{commands:?}");
}

#[test]
fn the_branch_of_a_remote_is_read_from_its_head() {
    assert_eq!(
        head_branch("ref: refs/heads/trunk\tHEAD\nabc\tHEAD\n").as_deref(),
        Some("trunk")
    );
    assert_eq!(head_branch(""), None);
    assert_eq!(remote("url\n").as_deref(), Some("url"));
    assert_eq!(remote("\n"), None);
}

#[test]
fn what_is_never_synced_is_ignored() {
    let text = update("target\n").unwrap();
    assert!(text.starts_with("target\n/.notes/index.sqlite\n"), "{text}");
    assert!(text.lines().any(|line| line == "/.notes/ygraphy-open.json"));
    assert_eq!(update(&text), None);
}
