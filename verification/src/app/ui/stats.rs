//! The Stats page: what is due, how recall is going, and what needs attention.
//!
//! Shares of reviews and response times come in as the texts that are shown.

use vstd::prelude::*;
use vstd::string::*;

use crate::app::ui::lines::{
    blank, lines_view, no_lines, one, push_blank, push_line, push_text, sp, Line, LineView, Role,
};
use crate::app::ui::widgets::{
    heading, less, meter, meter_spans, smaller, spread, spread_line,
};
use crate::app::util::{day_label, fit, fitted, pad, padded, text_or};
use crate::outside::utc_formatted;
use crate::stats::{Statistics, WeakNote};
use crate::text::{decimal, decimal_text, glue, glue3, texts, to_chars, uppercase_of};

verus! {

// ---------------------------------------------------------------------------
// The three numbers
// ---------------------------------------------------------------------------

/// A number, what it is, and what it means.
pub open spec fn cell_lines(
    label: Seq<char>,
    value: Seq<char>,
    caption: Seq<char>,
    role: Role,
    width: nat,
) -> Seq<LineView> {
    seq![
        one(fitted(uppercase_of(label), width), Role::Heading),
        one(fitted(value, width), role),
        one(fitted(caption, width), Role::Faint),
    ]
}

fn cell(label: &str, value: &str, caption: &str, role: Role, width: usize) -> (r: Vec<Line>)
    ensures
        lines_view(r@) == cell_lines(label@, value@, caption@, role, width as nat),
{
    let mut r = no_lines();
    push_text(&mut r, fit(label.to_uppercase().as_str(), width).as_str(), Role::Heading);
    push_text(&mut r, fit(value, width).as_str(), role);
    push_text(&mut r, fit(caption, width).as_str(), Role::Faint);
    assert(lines_view(r@) == cell_lines(label@, value@, caption@, role, width as nat));
    r
}

/// How many cards are due.
pub open spec fn due_cell_of(due: nat, width: nat) -> Seq<LineView> {
    cell_lines(
        "Due now"@,
        decimal(due),
        if due > 0 {
            "waiting for you"@
        } else {
            "queue is clear"@
        },
        if due > 0 {
            Role::AccentStrong
        } else {
            Role::FineStrong
        },
        width,
    )
}

/// How many cards are due.
pub fn due_cell(due: usize, width: usize) -> (r: Vec<Line>)
    ensures
        lines_view(r@) == due_cell_of(due as nat, width as nat),
{
    if due > 0 {
        cell(
            "Due now",
            decimal_text(due as u64).as_str(),
            "waiting for you",
            Role::AccentStrong,
            width,
        )
    } else {
        cell(
            "Due now",
            decimal_text(due as u64).as_str(),
            "queue is clear",
            Role::FineStrong,
            width,
        )
    }
}

/// The share of reviews of the last week that were right.
pub fn accuracy_cell(accuracy: &str, width: usize) -> (r: Vec<Line>)
    ensures
        lines_view(r@) == cell_lines(
            "Accuracy"@,
            accuracy@,
            "last 7 days"@,
            Role::Strong,
            width as nat,
        ),
{
    cell("Accuracy", accuracy, "last 7 days", Role::Strong, width)
}

/// On how many days in a row cards were reviewed, and how many today.
pub fn streak_cell(days: usize, today: usize, width: usize) -> (r: Vec<Line>)
    ensures
        lines_view(r@) == cell_lines(
            "Streak"@,
            decimal(days as nat) + " days"@,
            decimal(today as nat) + " reviewed today"@,
            Role::Strong,
            width as nat,
        ),
{
    let value = glue(decimal_text(days as u64).as_str(), " days");
    let caption = glue(decimal_text(today as u64).as_str(), " reviewed today");
    cell("Streak", value.as_str(), caption.as_str(), Role::Strong, width)
}

// ---------------------------------------------------------------------------
// Bars
// ---------------------------------------------------------------------------

/// How wide a bar is: what the label and the count leave, from 1 to 32.
pub open spec fn bar_width(count: nat, width: nat) -> nat {
    let room = less(width as int, (8 + decimal(count).len() + 3) as int);
    if room < 1 {
        1
    } else {
        smaller(room, 32) as nat
    }
}

/// A label, a bar and a count.
pub open spec fn bar_line(label: Seq<char>, count: nat, maximum: nat, width: nat) -> LineView {
    one(padded(label, 8), Role::Dim) + meter_spans(count, maximum, bar_width(count, width)) + seq![
        sp("  "@, Role::Text),
        sp(decimal(count), Role::Faint),
    ]
}

/// A label, a bar and a count.
pub fn bar_row(label: &str, count: usize, maximum: usize, width: usize) -> (r: Line)
    ensures
        r@ == bar_line(label@, count as nat, maximum as nat, width as nat),
{
    let text = decimal_text(count as u64);
    let used: usize = to_chars(text.as_str()).len();
    let room: usize = width.saturating_sub(11).saturating_sub(used);
    let length: usize = if room < 1 {
        1
    } else if room < 32 {
        room
    } else {
        32
    };
    let mut r = Line::of(pad(label, 8).as_str(), Role::Dim);
    r.extend(&meter(count, maximum, length));
    r.push("  ", Role::Text);
    r.push(text.as_str(), Role::Faint);
    assert(r@ == bar_line(label@, count as nat, maximum as nat, width as nat));
    r
}

/// The largest of the first `count` numbers.
pub open spec fn largest(list: Seq<(i64, usize)>, count: int) -> nat
    decreases count,
{
    if count <= 0 {
        0
    } else {
        let before = largest(list, count - 1);
        if list[count - 1].1 > before {
            list[count - 1].1 as nat
        } else {
            before
        }
    }
}

/// What a full bar stands for: the largest number, or one where there is none.
pub open spec fn full_bar(list: Seq<(i64, usize)>) -> nat {
    if list.len() == 0 {
        1
    } else {
        largest(list, list.len() as int)
    }
}

/// The name of a day.
pub open spec fn day_text(day: i64) -> Seq<char> {
    text_or(utc_formatted(day, "%a %d"@), "-------"@)
}

/// A bar for each day.
pub open spec fn day_bars(list: Seq<(i64, usize)>, width: nat) -> Seq<LineView> {
    Seq::new(
        list.len(),
        |i: int| bar_line(day_text(list[i].0), list[i].1 as nat, full_bar(list), width),
    )
}

fn find_largest(list: &Vec<(i64, usize)>) -> (r: usize)
    ensures
        r == full_bar(list@),
{
    if list.len() == 0 {
        return 1;
    }
    let mut r: usize = 0;
    let mut i: usize = 0;
    while i < list.len()
        invariant
            0 <= i <= list.len(),
            r == largest(list@, i as int),
        decreases list.len() - i,
    {
        if list[i].1 > r {
            r = list[i].1;
        }
        i += 1;
    }
    r
}

fn push_day_bars(r: &mut Vec<Line>, list: &Vec<(i64, usize)>, width: usize)
    ensures
        lines_view(final(r)@) == lines_view(old(r)@) + day_bars(list@, width as nat),
{
    let ghost before = lines_view(r@);
    let ghost all = day_bars(list@, width as nat);
    let most = find_largest(list);
    let mut i: usize = 0;
    assert(before + all.take(0) == before);
    while i < list.len()
        invariant
            0 <= i <= list.len(),
            most == full_bar(list@),
            all == day_bars(list@, width as nat),
            lines_view(r@) == before + all.take(i as int),
        decreases list.len() - i,
    {
        push_line(r, bar_row(day_label(list[i].0).as_str(), list[i].1, most, width));
        assert(all.take(i + 1) == all.take(i as int).push(all[i as int]));
        assert(lines_view(r@) == before + all.take(i + 1));
        i += 1;
    }
    assert(all.take(i as int) == all);
}

// ---------------------------------------------------------------------------
// Activity
// ---------------------------------------------------------------------------

/// What was reviewed in the last days. `response` is the average response time.
pub open spec fn activity_of(
    reviewed_week: nat,
    response: Seq<char>,
    days: Seq<(i64, usize)>,
    width: nat,
) -> Seq<LineView> {
    seq![
        one(uppercase_of("Activity · 14 days"@), Role::Heading),
        one(
            fitted(
                decimal(reviewed_week) + " reviews this week  ·  "@ + response
                    + " average response"@,
                width,
            ),
            Role::Faint,
        ),
        blank(),
    ] + day_bars(days, width)
}

/// What was reviewed in the last days. `response` is the average response time.
pub fn activity(stats: &Statistics, response: &str, width: usize) -> (r: Vec<Line>)
    ensures
        lines_view(r@) == activity_of(
            stats.reviewed_week as nat,
            response@,
            stats.daily_reviews@,
            width as nat,
        ),
{
    let mut r = no_lines();
    push_line(&mut r, heading("Activity · 14 days"));
    let mut text = glue3(
        decimal_text(stats.reviewed_week as u64).as_str(),
        " reviews this week  ·  ",
        response,
    );
    text.append(" average response");
    push_text(&mut r, fit(text.as_str(), width).as_str(), Role::Faint);
    push_blank(&mut r);
    push_day_bars(&mut r, &stats.daily_reviews, width);
    assert(lines_view(r@) == activity_of(
        stats.reviewed_week as nat,
        response@,
        stats.daily_reviews@,
        width as nat,
    ));
    r
}

// ---------------------------------------------------------------------------
// Signals
// ---------------------------------------------------------------------------

/// The largest of four counts.
pub open spec fn largest_of_four(counts: [usize; 4]) -> nat {
    let a = counts@[0];
    let b = if counts@[1] > a {
        counts@[1]
    } else {
        a
    };
    let c = if counts@[2] > b {
        counts@[2]
    } else {
        b
    };
    (if counts@[3] > c {
        counts@[3]
    } else {
        c
    }) as nat
}

/// A bar for each rating.
pub open spec fn rating_bars(counts: [usize; 4], width: nat) -> Seq<LineView> {
    let most = largest_of_four(counts);
    seq![
        bar_line("again"@, counts@[0] as nat, most, width),
        bar_line("hard"@, counts@[1] as nat, most, width),
        bar_line("good"@, counts@[2] as nat, most, width),
        bar_line("easy"@, counts@[3] as nat, most, width),
    ]
}

/// The row of a note whose cards are often missed. `score` is the share that was right.
pub open spec fn weak_line(note: WeakNote, score: Seq<char>, width: nat) -> LineView {
    spread_line(
        note.title@,
        score + "  ·  "@ + decimal(note.reviews as nat) + " reviews"@,
        width,
        Role::Warn,
    )
}

/// The notes whose cards are often missed.
pub open spec fn weak_lines(notes: Seq<WeakNote>, scores: Seq<Seq<char>>, width: nat) -> Seq<
    LineView,
> {
    if notes.len() == 0 {
        seq![one("Not enough review history yet"@, Role::Faint)]
    } else {
        Seq::new(notes.len(), |i: int| weak_line(notes[i], scores[i], width))
    }
}

/// How many notes have no topic, in words.
pub open spec fn untopiced_text(count: nat) -> Seq<char> {
    if count == 0 {
        "Every note has a topic"@
    } else if count == 1 {
        "1 note still needs a topic"@
    } else {
        decimal(count) + " notes still need a topic"@
    }
}

/// How many notes, topics and cards there are.
pub open spec fn library_lines(stats: Statistics, width: nat) -> Seq<LineView> {
    seq![
        one(
            fitted(
                decimal(stats.note_count as nat) + " notes  ·  "@ + decimal(
                    stats.topic_count as nat,
                ) + " topics  ·  "@ + decimal(stats.card_count as nat) + " active cards"@,
                width,
            ),
            Role::Dim,
        ),
        one(
            fitted(untopiced_text(stats.untopiced_count as nat), width),
            if stats.untopiced_count > 0 {
                Role::Warn
            } else {
                Role::Faint
            },
        ),
    ]
}

/// What is to come, how reviews were rated, and what needs attention.
pub open spec fn signals_of(
    stats: Statistics,
    accuracy: Seq<char>,
    scores: Seq<Seq<char>>,
    width: nat,
) -> Seq<LineView> {
    seq![one(uppercase_of("Workload · next 7 days"@), Role::Heading), blank()] + day_bars(
        stats.due_forecast@,
        width,
    ) + seq![
        blank(),
        one(uppercase_of("Ratings · 30 days"@), Role::Heading),
        one(accuracy + " accuracy"@, Role::Faint),
        blank(),
    ] + rating_bars(stats.rating_counts, width) + seq![
        blank(),
        one(uppercase_of("Needs attention"@), Role::Heading),
        blank(),
    ] + weak_lines(stats.weak_notes@, scores, width) + seq![
        blank(),
        one(uppercase_of("Library"@), Role::Heading),
    ] + library_lines(stats, width)
}

fn push_ratings(r: &mut Vec<Line>, counts: [usize; 4], width: usize)
    ensures
        lines_view(final(r)@) == lines_view(old(r)@) + rating_bars(counts, width as nat),
{
    let ghost before = lines_view(r@);
    let mut most: usize = counts[0];
    if counts[1] > most {
        most = counts[1];
    }
    if counts[2] > most {
        most = counts[2];
    }
    if counts[3] > most {
        most = counts[3];
    }
    push_line(r, bar_row("again", counts[0], most, width));
    push_line(r, bar_row("hard", counts[1], most, width));
    push_line(r, bar_row("good", counts[2], most, width));
    push_line(r, bar_row("easy", counts[3], most, width));
    assert(lines_view(r@) == before + rating_bars(counts, width as nat));
}

fn push_weak(r: &mut Vec<Line>, notes: &Vec<WeakNote>, scores: &Vec<String>, width: usize)
    requires
        scores.len() == notes.len(),
    ensures
        lines_view(final(r)@) == lines_view(old(r)@) + weak_lines(
            notes@,
            texts(scores@),
            width as nat,
        ),
{
    let ghost before = lines_view(r@);
    let ghost all = weak_lines(notes@, texts(scores@), width as nat);
    if notes.len() == 0 {
        push_text(r, "Not enough review history yet", Role::Faint);
        assert(lines_view(r@) == before + all);
        return;
    }
    let mut i: usize = 0;
    assert(before + all.take(0) == before);
    while i < notes.len()
        invariant
            0 <= i <= notes.len(),
            scores.len() == notes.len(),
            all == weak_lines(notes@, texts(scores@), width as nat),
            all.len() == notes.len(),
            lines_view(r@) == before + all.take(i as int),
        decreases notes.len() - i,
    {
        assert(texts(scores@)[i as int] == scores@[i as int]@);
        let mut text = glue3(
            scores[i].as_str(),
            "  ·  ",
            decimal_text(notes[i].reviews as u64).as_str(),
        );
        text.append(" reviews");
        push_line(r, spread(notes[i].title.as_str(), text.as_str(), width, Role::Warn));
        assert(all.take(i + 1) == all.take(i as int).push(all[i as int]));
        assert(lines_view(r@) == before + all.take(i + 1));
        i += 1;
    }
    assert(all.take(i as int) == all);
}

fn push_library(r: &mut Vec<Line>, stats: &Statistics, width: usize)
    ensures
        lines_view(final(r)@) == lines_view(old(r)@) + library_lines(*stats, width as nat),
{
    let ghost before = lines_view(r@);
    let mut text = glue3(
        decimal_text(stats.note_count as u64).as_str(),
        " notes  ·  ",
        decimal_text(stats.topic_count as u64).as_str(),
    );
    text.append(" topics  ·  ");
    text.append(decimal_text(stats.card_count as u64).as_str());
    text.append(" active cards");
    push_text(r, fit(text.as_str(), width).as_str(), Role::Dim);
    let missing = if stats.untopiced_count == 0 {
        "Every note has a topic".to_owned()
    } else if stats.untopiced_count == 1 {
        "1 note still needs a topic".to_owned()
    } else {
        glue(
            decimal_text(stats.untopiced_count as u64).as_str(),
            " notes still need a topic",
        )
    };
    push_text(
        r,
        fit(missing.as_str(), width).as_str(),
        if stats.untopiced_count > 0 {
            Role::Warn
        } else {
            Role::Faint
        },
    );
    assert(lines_view(r@) == before + library_lines(*stats, width as nat));
}

/// What is to come, how reviews were rated, and what needs attention. `accuracy` is the
/// share of reviews of the last month that were right, and `scores` holds that share for
/// each note whose cards are often missed.
pub fn signals(
    stats: &Statistics,
    accuracy: &str,
    scores: &Vec<String>,
    width: usize,
) -> (r: Vec<Line>)
    requires
        scores.len() == stats.weak_notes.len(),
    ensures
        lines_view(r@) == signals_of(*stats, accuracy@, texts(scores@), width as nat),
{
    let mut r = no_lines();
    push_line(&mut r, heading("Workload · next 7 days"));
    push_blank(&mut r);
    push_day_bars(&mut r, &stats.due_forecast, width);
    push_blank(&mut r);
    push_line(&mut r, heading("Ratings · 30 days"));
    push_text(&mut r, glue(accuracy, " accuracy").as_str(), Role::Faint);
    push_blank(&mut r);
    push_ratings(&mut r, stats.rating_counts, width);
    push_blank(&mut r);
    push_line(&mut r, heading("Needs attention"));
    push_blank(&mut r);
    push_weak(&mut r, &stats.weak_notes, scores, width);
    push_blank(&mut r);
    push_line(&mut r, heading("Library"));
    push_library(&mut r, stats, width);
    assert(lines_view(r@) == signals_of(*stats, accuracy@, texts(scores@), width as nat));
    r
}

} // verus!
