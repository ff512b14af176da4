//! What the review log says: how much was done, how well, and what lies ahead.

use vstd::prelude::*;
use vstd::string::*;

use crate::quiz::{distinct, holds};
use crate::reviews::DAY;
use crate::text::{opt_view, texts, to_chars};

verus! {

/// One review of a card that is still active.
#[derive(Debug)]
pub struct LogRow {
    pub reviewed_at: i64,
    pub rating: u32,
    pub answer_correct: Option<bool>,
    pub response_ms: Option<i64>,
    /// The note that the card belongs to.
    pub note: i64,
    pub title: String,
}

/// Reviews that were answered correctly, out of all.
#[derive(Debug, Clone, Copy, PartialEq, Eq, Structural)]
pub struct Accuracy {
    pub correct: usize,
    pub total: usize,
}

/// A note whose cards are often missed.
#[derive(Debug)]
pub struct WeakNote {
    pub title: String,
    pub reviews: usize,
    pub correct: usize,
}

#[derive(Debug)]
pub struct Statistics {
    pub note_count: usize,
    pub topic_count: usize,
    pub untopiced_count: usize,
    pub card_count: usize,
    pub due_now: usize,
    pub reviewed_today: usize,
    pub reviewed_week: usize,
    pub accuracy_week: Option<Accuracy>,
    pub accuracy_month: Option<Accuracy>,
    pub average_response_ms: Option<i64>,
    pub streak_days: usize,
    pub rating_counts: [usize; 4],
    pub daily_reviews: Vec<(i64, usize)>,
    pub due_forecast: Vec<(i64, usize)>,
    pub weak_notes: Vec<WeakNote>,
}

/// Whether a review was a success: the answer was correct or, where nothing was
/// asked, the rating was above the lowest.
pub open spec fn succeeded(row: LogRow) -> bool {
    match row.answer_correct {
        Some(correct) => correct,
        None => row.rating > 1,
    }
}

/// The number of times in a list from `from` on and before `to`.
pub open spec fn times_between(times: Seq<i64>, from: int, to: int) -> nat
    decreases times.len(),
{
    if times.len() == 0 {
        0
    } else {
        times_between(times.drop_last(), from, to) + (if from <= times.last() < to {
            1nat
        } else {
            0nat
        })
    }
}

/// When the reviews of a log were done.
pub open spec fn times_of(log: Seq<LogRow>) -> Seq<i64> {
    Seq::new(log.len(), |i: int| log[i].reviewed_at)
}

/// The reviews done since `from`.
pub open spec fn since(log: Seq<LogRow>, from: int) -> Seq<LogRow>
    decreases log.len(),
{
    if log.len() == 0 {
        Seq::empty()
    } else {
        let before = since(log.drop_last(), from);
        if log.last().reviewed_at >= from {
            before.push(log.last())
        } else {
            before
        }
    }
}

/// The number of successes in a log.
pub open spec fn successes(log: Seq<LogRow>) -> nat
    decreases log.len(),
{
    if log.len() == 0 {
        0
    } else {
        successes(log.drop_last()) + (if succeeded(log.last()) {
            1nat
        } else {
            0nat
        })
    }
}

/// How often reviews succeeded; nothing when there were none.
pub open spec fn accuracy_of(log: Seq<LogRow>) -> Option<Accuracy> {
    if log.len() == 0 {
        None
    } else {
        Some(Accuracy { correct: successes(log) as usize, total: log.len() as usize })
    }
}

/// The sum of the response times.
pub open spec fn response_sum(log: Seq<LogRow>) -> int
    decreases log.len(),
{
    if log.len() == 0 {
        0
    } else {
        response_sum(log.drop_last()) + (match log.last().response_ms {
            Some(ms) => ms as int,
            None => 0,
        })
    }
}

/// The number of reviews with a response time.
pub open spec fn response_count(log: Seq<LogRow>) -> nat
    decreases log.len(),
{
    if log.len() == 0 {
        0
    } else {
        response_count(log.drop_last()) + (if log.last().response_ms is Some {
            1nat
        } else {
            0nat
        })
    }
}

/// `a / b` rounded toward zero.
pub open spec fn toward_zero(a: int, b: int) -> int {
    if a >= 0 {
        a / b
    } else {
        -((-a) / b)
    }
}

/// The average response time, rounded toward zero.
pub open spec fn average_of(log: Seq<LogRow>) -> Option<int> {
    if response_count(log) == 0 {
        None
    } else {
        Some(toward_zero(response_sum(log), response_count(log) as int))
    }
}

/// The number of reviews with a rating.
pub open spec fn rated(log: Seq<LogRow>, rating: u32) -> nat
    decreases log.len(),
{
    if log.len() == 0 {
        0
    } else {
        rated(log.drop_last(), rating) + (if log.last().rating == rating {
            1nat
        } else {
            0nat
        })
    }
}

/// The days in a row, from today back, on which something was reviewed; `limit` at
/// most.
pub open spec fn streak_of(times: Seq<i64>, day_start: int, limit: nat) -> nat
    decreases limit,
{
    if limit == 0 || times_between(times, day_start, day_start + DAY) == 0 {
        0
    } else {
        1 + streak_of(times, day_start - DAY, (limit - 1) as nat)
    }
}

/// The days from `first` on, each with the number of times that fall on it.
pub open spec fn days_from(times: Seq<i64>, first: int, count: nat) -> Seq<(i64, usize)> {
    Seq::new(
        count,
        |i: int|
            (
                (first + i * DAY) as i64,
                times_between(times, first + i * DAY, first + (i + 1) * DAY) as usize,
            ),
    )
}

/// The number of times from `from` on and before `to`.
pub fn count_between(times: &Vec<i64>, from: i64, to: i64) -> (r: usize)
    ensures
        r == times_between(times@, from as int, to as int),
{
    let mut n: usize = 0;
    let mut i: usize = 0;
    assert(times@.take(0) == Seq::<i64>::empty());
    while i < times.len()
        invariant
            0 <= i <= times.len(),
            n <= i,
            n == times_between(times@.take(i as int), from as int, to as int),
        decreases times.len() - i,
    {
        assert(times@.take(i + 1).drop_last() == times@.take(i as int));
        assert(times@.take(i + 1).last() == times@[i as int]);
        if from <= times[i] && times[i] < to {
            n += 1;
        }
        i += 1;
    }
    assert(times@.take(times.len() as int) == times@);
    n
}

fn review_times(log: &Vec<LogRow>) -> (r: Vec<i64>)
    ensures
        r@ == times_of(log@),
{
    let mut r: Vec<i64> = Vec::new();
    let mut i: usize = 0;
    while i < log.len()
        invariant
            0 <= i <= log.len(),
            r.len() == i,
            forall|k: int| 0 <= k < i ==> r@[k] == log@[k].reviewed_at,
        decreases log.len() - i,
    {
        r.push(log[i].reviewed_at);
        i += 1;
    }
    assert(r@ == times_of(log@));
    r
}

/// The limits within which days can be counted from a time.
pub open spec fn in_range(time: int) -> bool {
    -0x4000_0000_0000_0000 <= time <= 0x4000_0000_0000_0000
}

/// Days in a row with a review, from today back.
pub fn streak(times: &Vec<i64>, day_start: i64, limit: u64) -> (r: u64)
    requires
        in_range(day_start as int),
        limit <= 365,
    ensures
        r == streak_of(times@, day_start as int, limit as nat),
        r <= limit,
{
    let mut days: u64 = 0;
    let mut start: i64 = day_start;
    while days < limit
        invariant
            0 <= days <= limit <= 365,
            in_range(day_start as int),
            start == day_start - days * DAY,
            streak_of(times@, day_start as int, limit as nat) == days + streak_of(
                times@,
                start as int,
                (limit - days) as nat,
            ),
        decreases limit - days,
    {
        if count_between(times, start, start + DAY) == 0 {
            return days;
        }
        start = start - DAY;
        days += 1;
    }
    days
}

/// Days from `first` on, each with the number of times that fall on it.
pub fn count_days(times: &Vec<i64>, first: i64, count: u64) -> (r: Vec<(i64, usize)>)
    requires
        in_range(first as int),
        count <= 365,
    ensures
        r@ == days_from(times@, first as int, count as nat),
{
    let mut r: Vec<(i64, usize)> = Vec::new();
    let mut i: u64 = 0;
    let ghost all = days_from(times@, first as int, count as nat);
    while i < count
        invariant
            0 <= i <= count <= 365,
            in_range(first as int),
            all == days_from(times@, first as int, count as nat),
            r@ == all.take(i as int),
        decreases count - i,
    {
        let start: i64 = first + (i as i64) * DAY;
        let n = count_between(times, start, start + DAY);
        r.push((start, n));
        assert(first + (i + 1) * DAY == start + DAY);
        assert(all[i as int] == (start, n));
        assert(all.take(i + 1) == all.take(i as int).push(all[i as int]));
        i += 1;
    }
    assert(all.take(count as int) == all);
    r
}

proof fn lemma_since_len(log: Seq<LogRow>, from: int)
    ensures
        since(log, from).len() <= log.len(),
        successes(since(log, from)) <= since(log, from).len(),
    decreases log.len(),
{
    if log.len() > 0 {
        lemma_since_len(log.drop_last(), from);
        let before = since(log.drop_last(), from);
        if log.last().reviewed_at >= from {
            assert(since(log, from).drop_last() == before);
        }
    }
}

proof fn lemma_since_take(log: Seq<LogRow>, from: int, i: int)
    requires
        0 <= i < log.len(),
    ensures
        since(log.take(i + 1), from) == if log[i].reviewed_at >= from {
            since(log.take(i), from).push(log[i])
        } else {
            since(log.take(i), from)
        },
{
    assert(log.take(i + 1).drop_last() == log.take(i));
    assert(log.take(i + 1).last() == log[i]);
}

/// The number of reviews since `from`, and how often they succeeded.
pub fn accuracy(log: &Vec<LogRow>, from: i64) -> (r: Option<Accuracy>)
    ensures
        r == accuracy_of(since(log@, from as int)),
{
    let mut total: usize = 0;
    let mut correct: usize = 0;
    let mut i: usize = 0;
    assert(log@.take(0) == Seq::<LogRow>::empty());
    while i < log.len()
        invariant
            0 <= i <= log.len(),
            total <= i,
            correct <= total,
            total == since(log@.take(i as int), from as int).len(),
            correct == successes(since(log@.take(i as int), from as int)),
        decreases log.len() - i,
    {
        proof {
            lemma_since_take(log@, from as int, i as int);
            let before = since(log@.take(i as int), from as int);
            assert(before.push(log@[i as int]).drop_last() == before);
        }
        if log[i].reviewed_at >= from {
            total += 1;
            let good = match log[i].answer_correct {
                Some(c) => c,
                None => log[i].rating > 1,
            };
            if good {
                correct += 1;
            }
        }
        i += 1;
    }
    assert(log@.take(log.len() as int) == log@);
    if total == 0 {
        None
    } else {
        Some(Accuracy { correct, total })
    }
}

/// The average response time of the reviews since `from`.
pub fn average_response(log: &Vec<LogRow>, from: i64) -> (r: Option<i64>)
    ensures
        match (r, average_of(since(log@, from as int))) {
            (Some(a), Some(b)) => a == b,
            (None, None) => true,
            _ => false,
        },
{
    let mut sum: i128 = 0;
    let mut n: usize = 0;
    let mut i: usize = 0;
    assert(log@.take(0) == Seq::<LogRow>::empty());
    while i < log.len()
        invariant
            0 <= i <= log.len(),
            n <= i,
            -(n * 0x8000_0000_0000_0000) <= sum <= n * 0x7fff_ffff_ffff_ffff,
            sum == response_sum(since(log@.take(i as int), from as int)),
            n == response_count(since(log@.take(i as int), from as int)),
        decreases log.len() - i,
    {
        proof {
            lemma_since_take(log@, from as int, i as int);
            let before = since(log@.take(i as int), from as int);
            assert(before.push(log@[i as int]).drop_last() == before);
        }
        if log[i].reviewed_at >= from {
            if let Some(ms) = log[i].response_ms {
                sum = sum + ms as i128;
                n += 1;
            }
        }
        i += 1;
    }
    assert(log@.take(log.len() as int) == log@);
    if n == 0 {
        return None;
    }
    let n: u128 = n as u128;
    if sum >= 0 {
        let q: u128 = sum as u128 / n;
        assert(q <= 0x7fff_ffff_ffff_ffff) by (nonlinear_arith)
            requires
                q == sum as u128 / n,
                n > 0,
                0 <= sum <= n * 0x7fff_ffff_ffff_ffff,
        ;
        Some(q as i64)
    } else {
        let low: u128 = (-sum) as u128;
        let q: u128 = low / n;
        assert(q <= 0x8000_0000_0000_0000) by (nonlinear_arith)
            requires
                q == low / n,
                n > 0,
                0 <= low <= n * 0x8000_0000_0000_0000,
        ;
        Some((-(q as i128)) as i64)
    }
}

/// The reviews since `from` with each of the four ratings.
pub fn count_ratings(log: &Vec<LogRow>, from: i64) -> (r: [usize; 4])
    ensures
        forall|k: int|
            0 <= k < 4 ==> #[trigger] r@[k] == rated(since(log@, from as int), (k + 1) as u32),
{
    let mut a: usize = 0;
    let mut b: usize = 0;
    let mut c: usize = 0;
    let mut d: usize = 0;
    let mut i: usize = 0;
    assert(log@.take(0) == Seq::<LogRow>::empty());
    while i < log.len()
        invariant
            0 <= i <= log.len(),
            a <= i,
            b <= i,
            c <= i,
            d <= i,
            a == rated(since(log@.take(i as int), from as int), 1),
            b == rated(since(log@.take(i as int), from as int), 2),
            c == rated(since(log@.take(i as int), from as int), 3),
            d == rated(since(log@.take(i as int), from as int), 4),
        decreases log.len() - i,
    {
        proof {
            lemma_since_take(log@, from as int, i as int);
            let before = since(log@.take(i as int), from as int);
            assert(before.push(log@[i as int]).drop_last() == before);
        }
        if log[i].reviewed_at >= from {
            let rating: u32 = log[i].rating;
            if rating == 1 {
                a += 1;
            } else if rating == 2 {
                b += 1;
            } else if rating == 3 {
                c += 1;
            } else if rating == 4 {
                d += 1;
            }
        }
        i += 1;
    }
    assert(log@.take(log.len() as int) == log@);
    [a, b, c, d]
}

// ---------------------------------------------------------------------------
// Topics
// ---------------------------------------------------------------------------

pub open spec fn only_spaces(s: Seq<char>) -> bool {
    forall|i: int| 0 <= i < s.len() ==> (#[trigger] s[i]) == ' '
}

/// Whether a topic says nothing: it is absent, or nothing but spaces.
pub open spec fn is_blank(topic: Option<Seq<char>>) -> bool {
    match topic {
        Some(t) => only_spaces(t),
        None => true,
    }
}

pub open spec fn blank_count(topics: Seq<Option<String>>) -> nat
    decreases topics.len(),
{
    if topics.len() == 0 {
        0
    } else {
        blank_count(topics.drop_last()) + (if is_blank(opt_view(topics.last())) {
            1nat
        } else {
            0nat
        })
    }
}

/// The topics that are given, in order.
pub open spec fn given_topics(topics: Seq<Option<String>>) -> Seq<Seq<char>>
    decreases topics.len(),
{
    if topics.len() == 0 {
        Seq::empty()
    } else {
        let before = given_topics(topics.drop_last());
        match topics.last() {
            Some(t) => before.push(t@),
            None => before,
        }
    }
}

fn all_spaces(text: &str) -> (r: bool)
    ensures
        r == only_spaces(text@),
{
    let chars = to_chars(text);
    let mut i: usize = 0;
    while i < chars.len()
        invariant
            0 <= i <= chars.len(),
            chars@ == text@,
            forall|k: int| 0 <= k < i ==> #[trigger] text@[k] == ' ',
        decreases chars.len() - i,
    {
        if chars[i] != ' ' {
            assert(text@[i as int] != ' ');
            return false;
        }
        i += 1;
    }
    true
}

fn blank(topic: &Option<String>) -> (r: bool)
    ensures
        r == is_blank(opt_view(*topic)),
{
    match topic {
        None => true,
        Some(text) => all_spaces(text.as_str()),
    }
}

/// The number of different topics, and of notes without one.
pub fn count_topics(topics: &Vec<Option<String>>) -> (r: (usize, usize))
    ensures
        r.0 == distinct(given_topics(topics@)).len(),
        r.1 == blank_count(topics@),
{
    let mut seen: Vec<String> = Vec::new();
    let mut blanks: usize = 0;
    let mut i: usize = 0;
    assert(topics@.take(0) == Seq::<Option<String>>::empty());
    assert(texts(seen@) == Seq::<Seq<char>>::empty());
    while i < topics.len()
        invariant
            0 <= i <= topics.len(),
            blanks <= i,
            blanks == blank_count(topics@.take(i as int)),
            texts(seen@) == distinct(given_topics(topics@.take(i as int))),
        decreases topics.len() - i,
    {
        assert(topics@.take(i + 1).drop_last() == topics@.take(i as int));
        assert(topics@.take(i + 1).last() == topics@[i as int]);
        if blank(&topics[i]) {
            blanks += 1;
        }
        let ghost before = texts(seen@);
        let ghost names = given_topics(topics@.take(i as int));
        if let Some(t) = &topics[i] {
            assert(names.push(t@).drop_last() == names);
            if !holds(&seen, t.as_str()) {
                seen.push(t.clone());
                assert(texts(seen@) == before.push(t@));
            }
        }
        i += 1;
    }
    assert(topics@.take(topics.len() as int) == topics@);
    assert(texts(seen@).len() == seen.len());
    (seen.len(), blanks)
}

// ---------------------------------------------------------------------------
// Weak notes
// ---------------------------------------------------------------------------

/// The reviews of one note.
#[verifier::ext_equal]
pub struct NoteScore {
    pub note: i64,
    pub title: Seq<char>,
    pub reviews: nat,
    pub correct: nat,
}

/// The place of a note among scores.
pub open spec fn score_at(scores: Seq<NoteScore>, note: i64) -> Option<int>
    decreases scores.len(),
{
    if scores.len() == 0 {
        None
    } else if scores.last().note == note {
        Some(scores.len() - 1)
    } else {
        score_at(scores.drop_last(), note)
    }
}

/// The reviews of each note, notes in the order in which they first appear.
pub open spec fn scores_of(log: Seq<LogRow>) -> Seq<NoteScore>
    decreases log.len(),
{
    if log.len() == 0 {
        Seq::empty()
    } else {
        let before = scores_of(log.drop_last());
        let row = log.last();
        let hit = if succeeded(row) {
            1nat
        } else {
            0nat
        };
        match score_at(before, row.note) {
            Some(i) => before.update(
                i,
                NoteScore {
                    note: row.note,
                    title: before[i].title,
                    reviews: before[i].reviews + 1,
                    correct: before[i].correct + hit,
                },
            ),
            None => before.push(
                NoteScore { note: row.note, title: row.title@, reviews: 1, correct: hit },
            ),
        }
    }
}

/// Whether `a` needs more attention than `b`: it succeeds less often or, when they
/// are even, was reviewed more.
pub open spec fn weaker(a: NoteScore, b: NoteScore) -> bool {
    a.correct * b.reviews < b.correct * a.reviews || a.correct * b.reviews == b.correct * a.reviews
        && a.reviews > b.reviews
}

/// Where a note goes among notes in order: behind those that it is not weaker than.
pub open spec fn weak_slot(order: Seq<NoteScore>, s: NoteScore) -> int
    decreases order.len(),
{
    if order.len() == 0 {
        0
    } else if weaker(s, order.last()) {
        weak_slot(order.drop_last(), s)
    } else {
        order.len() as int
    }
}

/// The notes that were reviewed at least twice, the weakest first.
pub open spec fn weak_order(scores: Seq<NoteScore>) -> Seq<NoteScore>
    decreases scores.len(),
{
    if scores.len() == 0 {
        Seq::empty()
    } else {
        let before = weak_order(scores.drop_last());
        if scores.last().reviews >= 2 {
            before.insert(weak_slot(before, scores.last()), scores.last())
        } else {
            before
        }
    }
}

/// The five weakest notes.
pub open spec fn weakest(log: Seq<LogRow>) -> Seq<NoteScore> {
    let all = weak_order(scores_of(log));
    if all.len() > 5 {
        all.take(5)
    } else {
        all
    }
}

struct Score {
    note: i64,
    title: String,
    reviews: usize,
    correct: usize,
}

impl Score {
    spec fn view(self) -> NoteScore {
        NoteScore {
            note: self.note,
            title: self.title@,
            reviews: self.reviews as nat,
            correct: self.correct as nat,
        }
    }
}

spec fn scores_view(v: Seq<Score>) -> Seq<NoteScore> {
    Seq::new(v.len(), |i: int| v[i].view())
}

fn find_score(scores: &Vec<Score>, note: i64) -> (r: Option<usize>)
    ensures
        match r {
            Some(i) => score_at(scores_view(scores@), note) == Some(i as int) && i < scores.len(),
            None => score_at(scores_view(scores@), note) is None,
        },
{
    let ghost views = scores_view(scores@);
    let mut i: usize = scores.len();
    assert(views.take(i as int) == views);
    while i > 0
        invariant
            0 <= i <= scores.len(),
            views == scores_view(scores@),
            score_at(views, note) == score_at(views.take(i as int), note),
        decreases i,
    {
        assert(views.take(i as int).drop_last() == views.take(i - 1));
        assert(views.take(i as int).last() == scores@[i - 1].view());
        if scores[i - 1].note == note {
            return Some(i - 1);
        }
        i -= 1;
    }
    None
}

fn is_weaker(a: &Score, b: &Score) -> (r: bool)
    ensures
        r == weaker(a.view(), b.view()),
{
    proof {
        let m = usize::MAX as int;
        assert(a.correct * b.reviews <= m * m && b.correct * a.reviews <= m * m)
            by (nonlinear_arith)
            requires
                0 <= a.correct <= m,
                0 <= a.reviews <= m,
                0 <= b.correct <= m,
                0 <= b.reviews <= m,
        ;
        assert(m * m <= u128::MAX) by (nonlinear_arith)
            requires
                0 <= m <= 0xffff_ffff_ffff_ffff,
        ;
    }
    let left: u128 = (a.correct as u128) * (b.reviews as u128);
    let right: u128 = (b.correct as u128) * (a.reviews as u128);
    left < right || left == right && a.reviews > b.reviews
}

/// The notes that need attention most, of the reviews since `from`.
pub fn weak_notes(log: &Vec<LogRow>, from: i64) -> (r: Vec<WeakNote>)
    ensures
        r.len() == weakest(since(log@, from as int)).len(),
        forall|i: int|
            0 <= i < r.len() ==> weak_note_is(
                #[trigger] r@[i],
                weakest(since(log@, from as int))[i],
            ),
{
    let mut scores: Vec<Score> = Vec::new();
    let mut i: usize = 0;
    assert(log@.take(0) == Seq::<LogRow>::empty());
    assert(scores_view(scores@) == Seq::<NoteScore>::empty());
    while i < log.len()
        invariant
            0 <= i <= log.len(),
            scores_view(scores@) == scores_of(since(log@.take(i as int), from as int)),
            forall|k: int|
                0 <= k < scores.len() ==> (#[trigger] scores@[k]).reviews <= i
                    && scores@[k].correct <= i,
        decreases log.len() - i,
    {
        proof {
            lemma_since_take(log@, from as int, i as int);
            let before = since(log@.take(i as int), from as int);
            assert(before.push(log@[i as int]).drop_last() == before);
        }
        if log[i].reviewed_at >= from {
            let good = match log[i].answer_correct {
                Some(c) => c,
                None => log[i].rating > 1,
            };
            let hit: usize = if good {
                1
            } else {
                0
            };
            let ghost before = scores_view(scores@);
            match find_score(&scores, log[i].note) {
                Some(at) => {
                    assert(scores@[at as int].view() == before[at as int]);
                    let one = Score {
                        note: log[i].note,
                        title: scores[at].title.clone(),
                        reviews: scores[at].reviews + 1,
                        correct: scores[at].correct + hit,
                    };
                    let ghost v = one.view();
                    scores.set(at, one);
                    assert(scores_view(scores@) == before.update(at as int, v));
                },
                None => {
                    let one = Score {
                        note: log[i].note,
                        title: log[i].title.clone(),
                        reviews: 1,
                        correct: hit,
                    };
                    let ghost v = one.view();
                    scores.push(one);
                    assert(scores_view(scores@) == before.push(v));
                },
            }
        }
        i += 1;
    }
    assert(log@.take(log.len() as int) == log@);
    let ghost all = scores_view(scores@);
    let mut order: Vec<Score> = Vec::new();
    let mut k: usize = 0;
    assert(all.take(0) == Seq::<NoteScore>::empty());
    assert(scores_view(order@) == Seq::<NoteScore>::empty());
    while k < scores.len()
        invariant
            0 <= k <= scores.len(),
            all == scores_view(scores@),
            scores_view(order@) == weak_order(all.take(k as int)),
        decreases scores.len() - k,
    {
        assert(all.take(k + 1).drop_last() == all.take(k as int));
        assert(all.take(k + 1).last() == scores@[k as int].view());
        if scores[k].reviews >= 2 {
            let ghost before = scores_view(order@);
            let mut at: usize = order.len();
            assert(before.take(at as int) == before);
            while at > 0 && is_weaker(&scores[k], &order[at - 1])
                invariant
                    0 <= at <= order.len(),
                    k < scores.len(),
                    before == scores_view(order@),
                    weak_slot(before, scores@[k as int].view()) == weak_slot(
                        before.take(at as int),
                        scores@[k as int].view(),
                    ),
                decreases at,
            {
                assert(before.take(at as int).drop_last() == before.take(at - 1));
                assert(before.take(at as int).last() == order@[at - 1].view());
                at -= 1;
            }
            if at > 0 {
                assert(before.take(at as int).last() == order@[at - 1].view());
            }
            let one = Score {
                note: scores[k].note,
                title: scores[k].title.clone(),
                reviews: scores[k].reviews,
                correct: scores[k].correct,
            };
            let ghost v = one.view();
            order.insert(at, one);
            assert(scores_view(order@) == before.insert(at as int, v));
        }
        k += 1;
    }
    assert(all.take(scores.len() as int) == all);
    let ghost sorted = scores_view(order@);
    let ghost goal = weakest(since(log@, from as int));
    let mut r: Vec<WeakNote> = Vec::new();
    let mut j: usize = 0;
    while j < order.len() && j < 5
        invariant
            0 <= j <= order.len(),
            j <= 5,
            sorted == scores_view(order@),
            r.len() == j,
            forall|n: int| 0 <= n < j ==> weak_note_is(#[trigger] r@[n], sorted[n]),
        decreases order.len() - j,
    {
        r.push(
            WeakNote {
                title: order[j].title.clone(),
                reviews: order[j].reviews,
                correct: order[j].correct,
            },
        );
        assert(sorted[j as int] == order@[j as int].view());
        j += 1;
    }
    r
}

/// Whether a weak note shows a score.
pub open spec fn weak_note_is(note: WeakNote, score: NoteScore) -> bool {
    note.title@ == score.title && note.reviews == score.reviews && note.correct == score.correct
}

// ---------------------------------------------------------------------------
// All of it
// ---------------------------------------------------------------------------

/// The statistics of a vault: the topic of each note, the number of active cards and
/// when each is due, and the log of their reviews. A day starts at `day_start`.
pub fn statistics(
    topics: &Vec<Option<String>>,
    card_count: usize,
    due: &Vec<i64>,
    log: &Vec<LogRow>,
    now: i64,
    day_start: i64,
) -> (r: Statistics)
    requires
        in_range(day_start as int),
        in_range(day_start - 13 * DAY),
        in_range(now as int),
    ensures
        ({
            let week = day_start - 6 * DAY;
            let month = day_start - 29 * DAY;
            let times = times_of(log@);
            &&& r.note_count == topics.len()
            &&& r.topic_count == distinct(given_topics(topics@)).len()
            &&& r.untopiced_count == blank_count(topics@)
            &&& r.card_count == card_count
            &&& r.due_now == times_between(due@, i64::MIN as int, now + 1)
            &&& r.reviewed_today == since(log@, day_start as int).len()
            &&& r.reviewed_week == since(log@, week).len()
            &&& r.accuracy_week == accuracy_of(since(log@, week))
            &&& r.accuracy_month == accuracy_of(since(log@, month))
            &&& match (r.average_response_ms, average_of(since(log@, week))) {
                (Some(a), Some(b)) => a == b,
                (None, None) => true,
                _ => false,
            }
            &&& r.streak_days == streak_of(times, day_start as int, 365)
            &&& forall|k: int|
                0 <= k < 4 ==> #[trigger] r.rating_counts@[k] == rated(
                    since(log@, month),
                    (k + 1) as u32,
                )
            &&& r.daily_reviews@ == days_from(times, day_start - 13 * DAY, 14)
            &&& r.due_forecast@ == days_from(due@, day_start as int, 7)
            &&& r.weak_notes.len() == weakest(since(log@, month)).len()
            &&& forall|i: int|
                0 <= i < r.weak_notes.len() ==> weak_note_is(
                    #[trigger] r.weak_notes@[i],
                    weakest(since(log@, month))[i],
                )
        }),
{
    let week: i64 = day_start - 6 * DAY;
    let month: i64 = day_start - 29 * DAY;
    let first: i64 = day_start - 13 * DAY;
    let times = review_times(log);
    let (topic_count, untopiced_count) = count_topics(topics);
    let today = accuracy(log, day_start);
    let this_week = accuracy(log, week);
    let count: usize = log.len();
    proof {
        lemma_since_len(log@, day_start as int);
        lemma_since_len(log@, week as int);
        assert(log@.len() == count);
    }
    let streak_days: u64 = streak(&times, day_start, 365);
    Statistics {
        note_count: topics.len(),
        topic_count,
        untopiced_count,
        card_count,
        due_now: count_between(due, i64::MIN, now + 1),
        reviewed_today: match today {
            Some(a) => a.total,
            None => 0,
        },
        reviewed_week: match this_week {
            Some(a) => a.total,
            None => 0,
        },
        accuracy_week: this_week,
        accuracy_month: accuracy(log, month),
        average_response_ms: average_response(log, week),
        streak_days: streak_days as usize,
        rating_counts: count_ratings(log, month),
        daily_reviews: count_days(&times, first, 14),
        due_forecast: count_days(due, day_start, 7),
        weak_notes: weak_notes(log, month),
    }
}

/// Every day of a streak has a review.
pub proof fn a_streak_has_no_gap(times: Seq<i64>, day_start: int, limit: nat, back: int)
    requires
        0 <= back < streak_of(times, day_start, limit),
    ensures
        times_between(times, day_start - back * DAY, day_start - back * DAY + DAY) > 0,
    decreases limit,
{
    if back > 0 {
        a_streak_has_no_gap(times, day_start - DAY, (limit - 1) as nat, back - 1);
        assert(day_start - DAY - (back - 1) * DAY == day_start - back * DAY) by (nonlinear_arith);
    }
}

/// The day before a streak has no review, unless the streak fills its limit.
pub proof fn a_streak_ends_at_a_gap(times: Seq<i64>, day_start: int, limit: nat)
    ensures
        streak_of(times, day_start, limit) <= limit,
        streak_of(times, day_start, limit) < limit ==> ({
            let n = streak_of(times, day_start, limit);
            times_between(times, day_start - n * DAY, day_start - n * DAY + DAY) == 0
        }),
    decreases limit,
{
    if limit > 0 && times_between(times, day_start, day_start + DAY) > 0 {
        a_streak_ends_at_a_gap(times, day_start - DAY, (limit - 1) as nat);
        let m = streak_of(times, day_start - DAY, (limit - 1) as nat);
        assert(day_start - DAY - m * DAY == day_start - (m + 1) * DAY) by (nonlinear_arith);
    }
}

// ---------------------------------------------------------------------------
// Laws of the figures
// ---------------------------------------------------------------------------

/// A review succeeds when its answer was right and, where none was checked, when it was rated
/// above 1. The successes of a log are the reviews of which that holds.
pub proof fn successes_are_right_answers(log: Seq<LogRow>)
    ensures
        successes(log) == log.filter(
            |row: LogRow| row.answer_correct == Some(true) || row.answer_correct is None
                && row.rating >= 2,
        ).len(),
        accuracy_of(log) is None <==> log.len() == 0,
    decreases log.len(),
{
    reveal(Seq::filter);
    if log.len() > 0 {
        successes_are_right_answers(log.drop_last());
    }
}

/// The reviews since a moment are those done at it or after it, in their order.
pub proof fn reviews_since_a_moment(log: Seq<LogRow>, from: int)
    ensures
        since(log, from) == log.filter(|row: LogRow| row.reviewed_at >= from),
    decreases log.len(),
{
    reveal(Seq::filter);
    if log.len() > 0 {
        reviews_since_a_moment(log.drop_last(), from);
    }
}

/// The reviews with a rating are those that have it.
pub proof fn reviews_with_a_rating(log: Seq<LogRow>, rating: u32)
    ensures
        rated(log, rating) == log.filter(|row: LogRow| row.rating == rating).len(),
    decreases log.len(),
{
    reveal(Seq::filter);
    if log.len() > 0 {
        reviews_with_a_rating(log.drop_last(), rating);
    }
}

/// A time falls between two moments where it is not before the first and before the second:
/// what falls between two and then between the second and a third falls between the first
/// and the third.
pub proof fn times_fall_into_one_span(times: Seq<i64>, a: int, b: int, c: int)
    requires
        a <= b <= c,
    ensures
        times_between(times, a, b) + times_between(times, b, c) == times_between(times, a, c),
        times_between(times, a, b) == times.filter(|t: i64| a <= t < b).len(),
        times_between(times, i64::MIN as int, i64::MAX + 1) == times.len(),
    decreases times.len(),
{
    reveal(Seq::filter);
    if times.len() > 0 {
        times_fall_into_one_span(times.drop_last(), a, b, c);
    }
}

/// A forecast has a day for each day, one after the other and each a day long, and counts for
/// it what falls on it.
pub proof fn days_follow_each_other(times: Seq<i64>, first: int, count: nat, i: int)
    requires
        0 <= i < count,
        i64::MIN <= first,
        first + count * 86_400 <= i64::MAX,
        times.len() <= usize::MAX,
    ensures
        days_from(times, first, count).len() == count,
        days_from(times, first, count)[i].0 == first + i * 86_400,
        days_from(times, first, count)[i].1 == times.filter(
            |t: i64| first + i * 86_400 <= t < first + (i + 1) * 86_400,
        ).len(),
{
    let from = first + i * 86_400;
    let to = first + (i + 1) * 86_400;
    times_fall_into_one_span(times, from, to, to);
    lemma_between_bound(times, from, to);
    assert(i * 86_400 <= count * 86_400) by (nonlinear_arith)
        requires
            0 <= i < count,
    ;
    assert(0 <= i * 86_400) by (nonlinear_arith)
        requires
            0 <= i,
    ;
    assert(times.filter(|t: i64| from <= t < to) == times.filter(
        |t: i64| first + i * 86_400 <= t < first + (i + 1) * 86_400,
    ));
}

proof fn lemma_between_bound(times: Seq<i64>, from: int, to: int)
    ensures
        times_between(times, from, to) <= times.len(),
    decreases times.len(),
{
    if times.len() > 0 {
        lemma_between_bound(times.drop_last(), from, to);
    }
}

/// The average response is the sum of the responses that were measured over their number,
/// rounded toward zero: it is off by less than one.
pub proof fn an_average_is_the_sum_over_the_number(log: Seq<LogRow>)
    ensures
        response_count(log) == log.filter(|row: LogRow| row.response_ms is Some).len(),
        average_of(log) is None <==> response_count(log) == 0,
        average_of(log) matches Some(average) ==> {
            let sum = response_sum(log);
            let n = response_count(log) as int;
            &&& sum >= 0 ==> 0 <= average && average * n <= sum < (average + 1) * n
            &&& sum < 0 ==> average <= 0 && (average - 1) * n < sum <= average * n
        },
{
    lemma_response_count(log);
    if response_count(log) > 0 {
        let sum = response_sum(log);
        let n = response_count(log) as int;
        if sum >= 0 {
            let q = sum / n;
            assert(0 <= q && q * n <= sum && sum < (q + 1) * n) by (nonlinear_arith)
                requires
                    sum >= 0,
                    n > 0,
                    q == sum / n,
            ;
        } else {
            let m = -sum;
            let q = m / n;
            assert(0 <= q && q * n <= m && m < (q + 1) * n) by (nonlinear_arith)
                requires
                    m >= 0,
                    n > 0,
                    q == m / n,
            ;
            assert((-q) * n == -(q * n)) by (nonlinear_arith);
            assert((-q - 1) * n == -((q + 1) * n)) by (nonlinear_arith);
        }
    }
}

proof fn lemma_response_count(log: Seq<LogRow>)
    ensures
        response_count(log) == log.filter(|row: LogRow| row.response_ms is Some).len(),
    decreases log.len(),
{
    reveal(Seq::filter);
    if log.len() > 0 {
        lemma_response_count(log.drop_last());
    }
}

proof fn lemma_score_at(scores: Seq<NoteScore>, note: i64)
    ensures
        match score_at(scores, note) {
            Some(i) => 0 <= i < scores.len() && scores[i].note == note,
            None => forall|i: int| 0 <= i < scores.len() ==> (#[trigger] scores[i]).note != note,
        },
    decreases scores.len(),
{
    if scores.len() > 0 && scores.last().note != note {
        let rest = scores.drop_last();
        lemma_score_at(rest, note);
        match score_at(rest, note) {
            Some(i) => {
                assert(rest[i] == scores[i]);
            },
            None => {
                assert forall|i: int| 0 <= i < scores.len() implies (#[trigger] scores[i]).note
                    != note by {
                    if i < rest.len() {
                        assert(rest[i] == scores[i]);
                    }
                }
            },
        }
    }
}

/// The reviews of a note in a log.
pub open spec fn reviews_of(log: Seq<LogRow>, note: i64) -> Seq<LogRow>
    decreases log.len(),
{
    if log.len() == 0 {
        Seq::empty()
    } else if log.last().note == note {
        reviews_of(log.drop_last(), note).push(log.last())
    } else {
        reviews_of(log.drop_last(), note)
    }
}

/// The score of a note counts its reviews and its successes, and those of no other note. Each
/// note that was reviewed has one score.
pub proof fn a_score_is_that_of_its_note(log: Seq<LogRow>)
    ensures
        forall|i: int|
            0 <= i < scores_of(log).len() ==> {
                let score = #[trigger] scores_of(log)[i];
                &&& score.reviews == reviews_of(log, score.note).len()
                &&& score.correct == successes(reviews_of(log, score.note))
            },
        forall|i: int, j: int|
            0 <= i < j < scores_of(log).len() ==> (#[trigger] scores_of(log)[i]).note != (
            #[trigger] scores_of(log)[j]).note,
        forall|k: int|
            0 <= k < log.len() ==> exists|i: int|
                0 <= i < scores_of(log).len() && (#[trigger] scores_of(log)[i]).note == (
                #[trigger] log[k]).note,
        forall|note: i64|
            (forall|k: int| 0 <= k < log.len() ==> (#[trigger] log[k]).note != note)
                ==> #[trigger] reviews_of(log, note).len() == 0,
    decreases log.len(),
{
    if log.len() > 0 {
        let less = log.drop_last();
        let row = log.last();
        a_score_is_that_of_its_note(less);
        let before = scores_of(less);
        let after = scores_of(log);
        lemma_score_at(before, row.note);
        assert(reviews_of(log, row.note).drop_last() == reviews_of(less, row.note));
        assert forall|note: i64|
            (forall|k: int|
                0 <= k < log.len() ==> (#[trigger] log[k]).note
                    != note) implies #[trigger] reviews_of(log, note).len() == 0 by {
            assert forall|k: int| 0 <= k < less.len() implies (#[trigger] less[k]).note != note by {
                assert(less[k] == log[k]);
            }
            assert(log[log.len() - 1].note != note);
            assert(reviews_of(less, note).len() == 0);
        }
        if score_at(before, row.note) is None {
            assert forall|k: int| 0 <= k < less.len() implies (#[trigger] less[k]).note
                != row.note by {
                let i = choose|i: int|
                    0 <= i < before.len() && (#[trigger] before[i]).note == less[k].note;
                assert(before[i].note != row.note);
            }
            assert(reviews_of(less, row.note).len() == 0);
            assert(reviews_of(less, row.note) == Seq::<LogRow>::empty());
        }
        assert forall|i: int| 0 <= i < after.len() implies {
            let score = #[trigger] after[i];
            &&& score.reviews == reviews_of(log, score.note).len()
            &&& score.correct == successes(reviews_of(log, score.note))
        } by {
            assert(successes(Seq::<LogRow>::empty()) == 0);
            let mine = reviews_of(log, row.note);
            assert(mine.last() == row);
            assert(successes(mine) == successes(mine.drop_last()) + (if succeeded(row) {
                1nat
            } else {
                0nat
            }));
            if i < before.len() {
                assert(before[i].reviews == reviews_of(less, before[i].note).len());
                assert(before[i].correct == successes(reviews_of(less, before[i].note)));
                assert(after[i].note == before[i].note);
                if before[i].note == row.note {
                    let k = score_at(before, row.note)->0;
                    assert(before[k].note == row.note);
                    assert(i == k);
                }
            } else {
                assert(after[i].note == row.note);
            }
        }
        assert forall|i: int, j: int| 0 <= i < j < after.len() implies (#[trigger] after[i]).note
            != (#[trigger] after[j]).note by {
            if j < before.len() {
                assert(before[i].note != before[j].note);
            } else {
                assert(before[i].note != row.note);
            }
        }
        assert forall|k: int| 0 <= k < log.len() implies exists|i: int|
            0 <= i < after.len() && (#[trigger] after[i]).note == (#[trigger] log[k]).note by {
            if k < less.len() {
                assert(less[k] == log[k]);
                let i = choose|i: int|
                    0 <= i < before.len() && (#[trigger] before[i]).note == less[k].note;
                assert(after[i].note == log[k].note);
            } else {
                match score_at(before, row.note) {
                    Some(i) => {
                        assert(after[i].note == row.note);
                    },
                    None => {
                        assert(after[before.len() as int].note == row.note);
                    },
                }
            }
        }
    }
}

proof fn lemma_ratio(a: nat, b: nat, c: nat, x: nat, y: nat, z: nat)
    by (nonlinear_arith)
    requires
        y > 0,
        a * y <= b * x,
        b * z <= c * y,
    ensures
        a * z <= c * x,
{
    assert(a * y * z <= b * x * z);
    assert(b * z * x <= c * y * x);
    assert(a * z * y <= c * x * y);
}

proof fn lemma_not_weaker(a: NoteScore, b: NoteScore, c: NoteScore)
    requires
        a.reviews > 0,
        b.reviews > 0,
        c.reviews > 0,
        !weaker(b, a),
        !weaker(c, b),
    ensures
        !weaker(c, a),
{
    lemma_ratio(a.correct, b.correct, c.correct, a.reviews, b.reviews, c.reviews);
    if a.correct * c.reviews == c.correct * a.reviews {
        lemma_ratio(c.correct, a.correct, b.correct, c.reviews, a.reviews, b.reviews);
        lemma_ratio(b.correct, c.correct, a.correct, b.reviews, c.reviews, a.reviews);
    }
}

proof fn lemma_weak_slot(order: Seq<NoteScore>, s: NoteScore)
    requires
        s.reviews > 0,
        forall|i: int| 0 <= i < order.len() ==> (#[trigger] order[i]).reviews > 0,
        forall|i: int, j: int|
            0 <= i < j < order.len() ==> !weaker(#[trigger] order[j], #[trigger] order[i]),
    ensures
        0 <= weak_slot(order, s) <= order.len(),
        forall|i: int| 0 <= i < weak_slot(order, s) ==> !weaker(s, #[trigger] order[i]),
        forall|i: int| weak_slot(order, s) <= i < order.len() ==> weaker(s, #[trigger] order[i]),
    decreases order.len(),
{
    if order.len() > 0 {
        let last = order.len() - 1;
        if weaker(s, order.last()) {
            let rest = order.drop_last();
            assert forall|i: int| 0 <= i < rest.len() implies (#[trigger] rest[i]).reviews > 0 by {
                assert(rest[i] == order[i]);
            }
            assert forall|i: int, j: int| 0 <= i < j < rest.len() implies !weaker(
                #[trigger] rest[j],
                #[trigger] rest[i],
            ) by {
                assert(rest[i] == order[i] && rest[j] == order[j]);
            }
            lemma_weak_slot(rest, s);
            assert forall|i: int| 0 <= i < weak_slot(order, s) implies !weaker(
                s,
                #[trigger] order[i],
            ) by {
                assert(rest[i] == order[i]);
            }
            assert forall|i: int| weak_slot(order, s) <= i < order.len() implies weaker(
                s,
                #[trigger] order[i],
            ) by {
                if i < rest.len() {
                    assert(rest[i] == order[i]);
                }
            }
        } else {
            assert forall|i: int| 0 <= i < order.len() implies !weaker(s, #[trigger] order[i]) by {
                if i < last {
                    lemma_not_weaker(order[i], order[last], s);
                }
            }
        }
    }
}

/// The weak notes are those that were reviewed twice or more, and they stand by how often
/// they succeed, the least first; of two that succeed as often, the one that was reviewed more
/// comes first.
pub proof fn weak_notes_come_weakest_first(scores: Seq<NoteScore>)
    ensures
        forall|x: NoteScore|
            #[trigger] weak_order(scores).contains(x) <==> scores.contains(x) && x.reviews >= 2,
        forall|i: int, j: int|
            0 <= i < j < weak_order(scores).len() ==> {
                let a = #[trigger] weak_order(scores)[i];
                let b = #[trigger] weak_order(scores)[j];
                a.correct * b.reviews < b.correct * a.reviews || a.correct * b.reviews == b.correct
                    * a.reviews && a.reviews >= b.reviews
            },
    decreases scores.len(),
{
    lemma_weak_order(scores);
    assert forall|i: int, j: int| 0 <= i < j < weak_order(scores).len() implies {
        let a = #[trigger] weak_order(scores)[i];
        let b = #[trigger] weak_order(scores)[j];
        a.correct * b.reviews < b.correct * a.reviews || a.correct * b.reviews == b.correct
            * a.reviews && a.reviews >= b.reviews
    } by {
        assert(!weaker(weak_order(scores)[j], weak_order(scores)[i]));
    }
}

proof fn lemma_weak_order(scores: Seq<NoteScore>)
    ensures
        forall|x: NoteScore|
            #[trigger] weak_order(scores).contains(x) <==> scores.contains(x) && x.reviews >= 2,
        forall|i: int|
            0 <= i < weak_order(scores).len() ==> (#[trigger] weak_order(scores)[i]).reviews > 0,
        forall|i: int, j: int|
            0 <= i < j < weak_order(scores).len() ==> !weaker(
                #[trigger] weak_order(scores)[j],
                #[trigger] weak_order(scores)[i],
            ),
    decreases scores.len(),
{
    if scores.len() > 0 {
        let rest = scores.drop_last();
        let new = scores.last();
        lemma_weak_order(rest);
        let before = weak_order(rest);
        let after = weak_order(scores);
        assert forall|x: NoteScore| #[trigger] after.contains(x) <==> scores.contains(x)
            && x.reviews >= 2 by {
            assert(before.contains(x) <==> rest.contains(x) && x.reviews >= 2);
            assert(scores.contains(x) <==> rest.contains(x) || x == new) by {
                if scores.contains(x) {
                    let i = choose|i: int| 0 <= i < scores.len() && scores[i] == x;
                    if i < rest.len() {
                        assert(rest[i] == x);
                    }
                }
                if rest.contains(x) {
                    let i = choose|i: int| 0 <= i < rest.len() && rest[i] == x;
                    assert(scores[i] == x);
                }
                assert(scores[scores.len() - 1] == new);
            }
            if new.reviews >= 2 {
                lemma_weak_slot(before, new);
                let at = weak_slot(before, new);
                assert(after[at] == new);
                if before.contains(x) {
                    let i = choose|i: int| 0 <= i < before.len() && before[i] == x;
                    if i < at {
                        assert(after[i] == x);
                    } else {
                        assert(after[i + 1] == x);
                    }
                }
                if after.contains(x) && x != new {
                    let i = choose|i: int| 0 <= i < after.len() && after[i] == x;
                    if i < at {
                        assert(before[i] == x);
                    } else {
                        assert(before[i - 1] == x);
                    }
                }
            }
        }
        if new.reviews >= 2 {
            lemma_weak_slot(before, new);
            let at = weak_slot(before, new);
            assert forall|i: int, j: int| 0 <= i < j < after.len() implies !weaker(
                #[trigger] after[j],
                #[trigger] after[i],
            ) by {
                if j < at {
                    assert(after[i] == before[i] && after[j] == before[j]);
                } else if j == at {
                    assert(after[i] == before[i]);
                } else if i < at {
                    assert(after[i] == before[i] && after[j] == before[j - 1]);
                } else if i == at {
                    assert(after[j] == before[j - 1]);
                    assert(weaker(new, before[j - 1]));
                } else {
                    assert(after[i] == before[i - 1] && after[j] == before[j - 1]);
                }
            }
            assert forall|i: int| 0 <= i < after.len() implies (#[trigger] after[i]).reviews
                > 0 by {
                if i < at {
                    assert(after[i] == before[i]);
                } else if i > at {
                    assert(after[i] == before[i - 1]);
                }
            }
        }
    }
}

/// At most five weak notes are told of, the weakest of all.
pub proof fn the_five_weakest_notes_are_told_of(log: Seq<LogRow>)
    ensures
        weakest(log).len() <= 5,
        weak_order(scores_of(log)).len() >= 5 ==> weakest(log).len() == 5,
        weak_order(scores_of(log)).len() <= 5 ==> weakest(log).len() == weak_order(
            scores_of(log),
        ).len(),
        forall|i: int|
            0 <= i < weakest(log).len() ==> #[trigger] weakest(log)[i] == weak_order(
                scores_of(log),
            )[i],
{
}

/// A note without a topic, or with one of spaces alone, is counted as such; a topic that is
/// given is kept as it is written.
pub proof fn notes_without_a_topic_are_counted(topics: Seq<Option<String>>, topic: Option<String>)
    ensures
        topic is None ==> blank_count(topics.push(topic)) == blank_count(topics) + 1
            && given_topics(topics.push(topic)) == given_topics(topics),
        topic matches Some(t) ==> given_topics(topics.push(topic)) == given_topics(topics).push(t@),
        topic matches Some(t) ==> blank_count(topics.push(topic)) == blank_count(topics) + (if (
        forall|i: int| 0 <= i < t@.len() ==> (#[trigger] t@[i]) == ' ') {
            1nat
        } else {
            0nat
        }),
{
    assert(topics.push(topic).drop_last() == topics);
}

} // verus!
