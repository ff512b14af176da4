//! The Options page: scheduling, storage and syncing.

use vstd::prelude::*;
use vstd::string::*;

use crate::app::cursor::OPTION_COUNT;
use crate::app::ui::lines::{
    blank, lines_view, no_lines, one, push_blank, push_line, push_text, Line, LineView, Role,
};
use crate::app::ui::widgets::{heading, kv, kv_line, smaller, spread, spread_line};
use crate::config::{ReviewOrder, ReviewSettings};
use crate::text::{
    cut, decimal, decimal_text, from_chars, glue, position_from, position_of, texts, to_chars,
    uppercase_of,
};

verus! {

// ---------------------------------------------------------------------------
// The rows
// ---------------------------------------------------------------------------

/// What an option is called.
pub open spec fn label_of(i: int) -> Seq<char> {
    if i == 0 {
        "Desired retention"@
    } else if i == 1 {
        "New cards per day"@
    } else if i == 2 {
        "Maximum reviews per day"@
    } else if i == 3 {
        "Review order"@
    } else if i == 4 {
        "Bury sibling cards"@
    } else if i == 5 {
        "GitHub authentication"@
    } else if i == 6 {
        "Repository URL"@
    } else if i == 7 {
        "Sync now"@
    } else if i == 8 {
        "Open another vault"@
    } else {
        "Create new vault"@
    }
}

/// What an option does.
pub open spec fn help_of(i: int) -> Seq<char> {
    if i == 0 {
        "FSRS aims for this recall probability when it picks the next interval. Higher means shorter intervals and more reviews."@
    } else if i == 1 {
        "Caps cards you have never seen. Cards introduced earlier today count against it."@
    } else if i == 2 {
        "Caps the whole daily workload, including reviews already done today."@
    } else if i == 3 {
        "Due first clears the oldest scheduled cards. Random shuffles the queue."@
    } else if i == 4 {
        "Shows at most one due card per section each session, so related cards stop giving each other away."@
    } else if i == 5 {
        "Signs in through GitHub CLI and configures Git's credential helper. SSH users can skip this. yalive never sees or stores a token."@
    } else if i == 6 {
        "The repository this vault syncs with. Use the SSH form, or https:// after signing in. URLs containing tokens are rejected."@
    } else if i == 7 {
        "Commits local changes, fetches and integrates the remote, then pushes. Conflicts stop safely. The SQLite index is never uploaded."@
    } else if i == 8 {
        "Closes this vault and opens an existing one, remembering it as the default."@
    } else {
        "Creates the directory when needed, initialises .notes, and remembers it as the default."@
    }
}

/// The value of an option. `retention` is the retention that the scheduler aims for, as it
/// is shown.
pub open spec fn value_of(
    i: int,
    settings: ReviewSettings,
    retention: Seq<char>,
    remote: Option<Seq<char>>,
) -> Seq<char> {
    if i == 0 {
        retention
    } else if i == 1 {
        decimal(settings.new_cards_per_day as nat)
    } else if i == 2 {
        decimal(settings.max_reviews_per_day as nat)
    } else if i == 3 {
        match settings.review_order {
            ReviewOrder::Due => "Due first"@,
            ReviewOrder::Random => "Random"@,
        }
    } else if i == 4 {
        if settings.bury_siblings {
            "On"@
        } else {
            "Off"@
        }
    } else if i == 6 {
        match remote {
            Some(url) => url,
            None => "Not configured"@,
        }
    } else if i == 7 && remote is None {
        "Set a repository first"@
    } else {
        "Run"@
    }
}

/// What an option is called.
pub fn label(i: usize) -> (r: &'static str)
    ensures
        r@ == label_of(i as int),
{
    if i == 0 {
        "Desired retention"
    } else if i == 1 {
        "New cards per day"
    } else if i == 2 {
        "Maximum reviews per day"
    } else if i == 3 {
        "Review order"
    } else if i == 4 {
        "Bury sibling cards"
    } else if i == 5 {
        "GitHub authentication"
    } else if i == 6 {
        "Repository URL"
    } else if i == 7 {
        "Sync now"
    } else if i == 8 {
        "Open another vault"
    } else {
        "Create new vault"
    }
}

/// What an option does.
pub fn help(i: usize) -> (r: &'static str)
    ensures
        r@ == help_of(i as int),
{
    if i == 0 {
        "FSRS aims for this recall probability when it picks the next interval. Higher means shorter intervals and more reviews."
    } else if i == 1 {
        "Caps cards you have never seen. Cards introduced earlier today count against it."
    } else if i == 2 {
        "Caps the whole daily workload, including reviews already done today."
    } else if i == 3 {
        "Due first clears the oldest scheduled cards. Random shuffles the queue."
    } else if i == 4 {
        "Shows at most one due card per section each session, so related cards stop giving each other away."
    } else if i == 5 {
        "Signs in through GitHub CLI and configures Git's credential helper. SSH users can skip this. yalive never sees or stores a token."
    } else if i == 6 {
        "The repository this vault syncs with. Use the SSH form, or https:// after signing in. URLs containing tokens are rejected."
    } else if i == 7 {
        "Commits local changes, fetches and integrates the remote, then pushes. Conflicts stop safely. The SQLite index is never uploaded."
    } else if i == 8 {
        "Closes this vault and opens an existing one, remembering it as the default."
    } else {
        "Creates the directory when needed, initialises .notes, and remembers it as the default."
    }
}

/// The value of an option.
pub fn value(i: usize, settings: ReviewSettings, retention: &str, remote: Option<&str>) -> (r:
    String)
    ensures
        r@ == value_of(i as int, settings, retention@, crate::text::opt_str_view(remote)),
{
    if i == 0 {
        retention.to_owned()
    } else if i == 1 {
        decimal_text(settings.new_cards_per_day as u64)
    } else if i == 2 {
        decimal_text(settings.max_reviews_per_day as u64)
    } else if i == 3 {
        match settings.review_order {
            ReviewOrder::Due => "Due first".to_owned(),
            ReviewOrder::Random => "Random".to_owned(),
        }
    } else if i == 4 {
        if settings.bury_siblings {
            "On".to_owned()
        } else {
            "Off".to_owned()
        }
    } else if i == 6 {
        match remote {
            Some(url) => url.to_owned(),
            None => "Not configured".to_owned(),
        }
    } else if i == 7 && remote.is_none() {
        "Set a repository first".to_owned()
    } else {
        "Run".to_owned()
    }
}

/// The rows of the page.
pub open spec fn rows_of(
    settings: ReviewSettings,
    retention: Seq<char>,
    remote: Option<Seq<char>>,
    width: nat,
) -> Seq<LineView> {
    Seq::new(
        OPTION_COUNT as nat,
        |i: int|
            spread_line(
                label_of(i),
                value_of(i, settings, retention, remote),
                width,
                Role::Accent,
            ),
    )
}

/// The rows of the page: each option and its value.
pub fn rows(settings: ReviewSettings, retention: &str, remote: Option<&str>, width: usize) -> (r:
    Vec<Line>)
    ensures
        lines_view(r@) == rows_of(
            settings,
            retention@,
            crate::text::opt_str_view(remote),
            width as nat,
        ),
{
    let ghost shown = crate::text::opt_str_view(remote);
    let ghost all = rows_of(settings, retention@, shown, width as nat);
    let mut r = no_lines();
    let mut i: usize = 0;
    assert(all.take(0) == Seq::<LineView>::empty());
    while i < OPTION_COUNT
        invariant
            0 <= i <= OPTION_COUNT,
            shown == crate::text::opt_str_view(remote),
            all == rows_of(settings, retention@, shown, width as nat),
            lines_view(r@) == all.take(i as int),
        decreases OPTION_COUNT - i,
    {
        let text = value(i, settings, retention, remote);
        push_line(&mut r, spread(label(i), text.as_str(), width, Role::Accent));
        assert(all.take(i + 1) == all.take(i as int).push(all[i as int]));
        i += 1;
    }
    assert(all.take(i as int) == all);
    r
}

// ---------------------------------------------------------------------------
// The detail
// ---------------------------------------------------------------------------

/// The parts of a text between full stops that a space follows.
pub open spec fn sentences_of(s: Seq<char>) -> Seq<Seq<char>>
    decreases s.len(),
{
    if s.len() == 0 {
        Seq::empty()
    } else {
        match position_from(s, seq!['.', ' '], 0) {
            Some(p) => if 0 <= p && p + 2 <= s.len() {
                seq![s.take(p)] + sentences_of(s.skip(p + 2))
            } else {
                seq![s]
            },
            None => seq![s],
        }
    }
}

/// A sentence with its full stop.
pub open spec fn stopped(s: Seq<char>) -> Seq<char> {
    if s.len() > 0 && s.last() == '.' {
        s
    } else {
        s.push('.')
    }
}

proof fn lemma_stop_position(s: Seq<char>, from: int)
    requires
        from >= 0,
    ensures
        position_from(s, seq!['.', ' '], from) matches Some(p) ==> from <= p && p + 2 <= s.len(),
    decreases s.len() - from,
{
    if from < s.len() {
        lemma_stop_position(s, from + 1);
    }
}

/// The sentences of a text.
pub fn sentences(text: &str) -> (r: Vec<String>)
    ensures
        texts(r@) == sentences_of(text@),
{
    let whole = to_chars(text);
    let mut rest = whole.as_slice();
    let mut stop: Vec<char> = Vec::new();
    stop.push('.');
    stop.push(' ');
    assert(stop@ == seq!['.', ' ']);
    let mut r: Vec<String> = Vec::new();
    assert(texts(r@) + sentences_of(rest@) == sentences_of(text@));
    while rest.len() > 0
        invariant
            stop@ == seq!['.', ' '],
            texts(r@) + sentences_of(rest@) == sentences_of(text@),
        decreases rest.len(),
    {
        let ghost before = texts(r@);
        match position_of(rest, stop.as_slice()) {
            Some(p) => {
                proof {
                    lemma_stop_position(rest@, 0);
                }
                let part = from_chars(cut(rest, 0, p));
                let ghost t = part@;
                let next = cut(rest, p + 2, rest.len());
                assert(next@ == rest@.skip(p + 2));
                r.push(part);
                assert(texts(r@) == before.push(t));
                assert(texts(r@) + sentences_of(next@) == before + (seq![t] + sentences_of(next@)));
                rest = next;
            },
            None => {
                r.push(from_chars(rest));
                assert(texts(r@) == before + seq![rest@]);
                return r;
            },
        }
    }
    assert(sentences_of(rest@) == Seq::<Seq<char>>::empty());
    assert(texts(r@) == sentences_of(text@));
    r
}

/// What an option does, a sentence on each line.
pub open spec fn help_lines_of(i: int) -> Seq<LineView> {
    Seq::new(
        sentences_of(help_of(i)).len(),
        |k: int| one(stopped(sentences_of(help_of(i))[k]), Role::Text),
    )
}

/// The detail of an option, and what it is that the page depends on.
pub open spec fn detail_of(
    i: int,
    editor: Option<Seq<char>>,
    interval: nat,
    player: Seq<char>,
    width: nat,
) -> Seq<LineView> {
    help_lines_of(i) + seq![
        blank(),
        one(uppercase_of("Stored in"@), Role::Heading),
        one(".notes/config.toml"@, Role::Dim),
        one("Git credentials: system credential helper"@, Role::Faint),
        blank(),
        one(uppercase_of("Environment"@), Role::Heading),
        kv_line(
            "editor"@,
            match editor {
                Some(command) => command,
                None => "$VISUAL / $EDITOR / nvim"@,
            },
            width,
        ),
        kv_line("reindex"@, decimal(interval) + " ms"@, width),
        kv_line("player"@, player, width),
    ]
}

fn with_stop(text: &str) -> (r: String)
    ensures
        r@ == stopped(text@),
{
    let chars = to_chars(text);
    let mut r = text.to_owned();
    if chars.len() == 0 || chars[chars.len() - 1] != '.' {
        r.push('.');
    }
    r
}

/// The option that the detail is about.
pub open spec fn shown_option(selected: usize) -> int {
    smaller(selected as int, OPTION_COUNT - 1)
}

/// The title of the detail, and the detail. `player` is the command that plays clips.
pub fn detail(
    selected: usize,
    editor: Option<&str>,
    interval: u64,
    player: &str,
    width: usize,
) -> (r: (&'static str, Vec<Line>))
    ensures
        r.0@ == label_of(shown_option(selected)),
        lines_view(r.1@) == detail_of(
            shown_option(selected),
            crate::text::opt_str_view(editor),
            interval as nat,
            player@,
            width as nat,
        ),
{
    let i: usize = if selected < OPTION_COUNT - 1 {
        selected
    } else {
        OPTION_COUNT - 1
    };
    let list = sentences(help(i));
    let ghost all = help_lines_of(i as int);
    let mut r = no_lines();
    let mut k: usize = 0;
    assert(all.take(0) == Seq::<LineView>::empty());
    while k < list.len()
        invariant
            0 <= k <= list.len(),
            texts(list@) == sentences_of(help_of(i as int)),
            all == help_lines_of(i as int),
            lines_view(r@) == all.take(k as int),
        decreases list.len() - k,
    {
        assert(texts(list@)[k as int] == list@[k as int]@);
        push_text(&mut r, with_stop(list[k].as_str()).as_str(), Role::Text);
        assert(all.take(k + 1) == all.take(k as int).push(all[k as int]));
        k += 1;
    }
    assert(all.take(k as int) == all);
    push_blank(&mut r);
    push_line(&mut r, heading("Stored in"));
    push_text(&mut r, ".notes/config.toml", Role::Dim);
    push_text(&mut r, "Git credentials: system credential helper", Role::Faint);
    push_blank(&mut r);
    push_line(&mut r, heading("Environment"));
    let command = match editor {
        Some(command) => command,
        None => "$VISUAL / $EDITOR / nvim",
    };
    push_line(&mut r, kv("editor", command, width));
    let every = glue(decimal_text(interval).as_str(), " ms");
    push_line(&mut r, kv("reindex", every.as_str(), width));
    push_line(&mut r, kv("player", player, width));
    assert(lines_view(r@) == detail_of(
        i as int,
        crate::text::opt_str_view(editor),
        interval as nat,
        player@,
        width as nat,
    ));
    (label(i), r)
}

} // verus!
