//! Which cards come up, when a card is due again, and what a device's reviews change.

use vstd::prelude::*;
use vstd::string::*;

use crate::config::ReviewOrder;
use crate::model::{ReviewEvent, ReviewScope};
use crate::outside::shuffle;
use crate::text::{
    from_chars, lemma_text_before_total, lemma_text_before_transitive, lines, slices, split_lines,
    text_before, text_comes_before, text_eq, texts, to_chars, trim, trimmed,
};

verus! {

/// The seconds of a day.
pub const DAY: i64 = 86_400;

// ---------------------------------------------------------------------------
// The queue
// ---------------------------------------------------------------------------

/// A card that is neither suspended nor archived, as far as the queue depends on it.
#[derive(Debug)]
pub struct QueueRow {
    pub id: i64,
    pub section_uid: String,
    pub due_at: i64,
    pub review_count: u32,
    /// Whether the card is in a deck at all, archived ones included.
    pub in_a_deck: bool,
    /// The decks that hold the card and are not archived.
    pub active_decks: Vec<i64>,
}

/// What is left of today's limits.
#[derive(Debug, Clone, Copy, PartialEq, Eq, Structural)]
pub struct Limits {
    pub reviews: usize,
    pub new_cards: usize,
}

/// What is left of a daily limit.
pub open spec fn left_of(limit: usize, used: usize) -> usize {
    if limit >= used {
        (limit - used) as usize
    } else {
        0
    }
}

/// What is left of today's limits, after what was done today.
pub fn remaining(
    new_cards_per_day: usize,
    max_reviews_per_day: usize,
    introduced_today: usize,
    reviewed_today: usize,
) -> (r: Limits)
    ensures
        r.reviews == left_of(max_reviews_per_day, reviewed_today),
        r.new_cards == left_of(new_cards_per_day, introduced_today),
{
    Limits {
        reviews: max_reviews_per_day.saturating_sub(reviewed_today),
        new_cards: new_cards_per_day.saturating_sub(introduced_today),
    }
}

/// Whether a scope holds a card. A card whose every deck is archived is in none.
pub open spec fn in_scope(row: QueueRow, scope: ReviewScope) -> bool {
    match scope {
        ReviewScope::All => !row.in_a_deck || row.active_decks@.len() > 0,
        ReviewScope::Deckless => !row.in_a_deck,
        ReviewScope::Deck(deck) => row.active_decks@.contains(deck),
    }
}

/// Whether a card may come up now; when forced, it need not be due.
pub open spec fn may_come_up(row: QueueRow, scope: ReviewScope, force: bool, now: i64) -> bool {
    (force || row.due_at <= now) && in_scope(row, scope)
}

/// The positions of the cards that may come up, in order.
pub open spec fn eligible(
    rows: Seq<QueueRow>,
    scope: ReviewScope,
    force: bool,
    now: i64,
) -> Seq<usize>
    decreases rows.len(),
{
    if rows.len() == 0 {
        Seq::empty()
    } else {
        let before = eligible(rows.drop_last(), scope, force, now);
        if may_come_up(rows.last(), scope, force, now) {
            before.push((rows.len() - 1) as usize)
        } else {
            before
        }
    }
}

/// What has been taken into the queue: the positions, the number of new cards that
/// were counted, and the sections that came up.
#[verifier::ext_equal]
pub struct Taken {
    pub positions: Seq<usize>,
    pub fresh: nat,
    pub sections: Seq<Seq<char>>,
}

/// The cards at the given positions, taken one after the other. A new card counts
/// against the limit of new cards; with siblings buried, a section comes up once.
pub open spec fn taken(
    rows: Seq<QueueRow>,
    positions: Seq<usize>,
    new_cards: usize,
    bury: bool,
) -> Taken
    decreases positions.len(),
{
    if positions.len() == 0 {
        Taken { positions: Seq::empty(), fresh: 0, sections: Seq::empty() }
    } else {
        let before = taken(rows, positions.drop_last(), new_cards, bury);
        let row = rows[positions.last() as int];
        let fresh = before.fresh + (if row.review_count == 0 {
            1nat
        } else {
            0nat
        });
        if row.review_count == 0 && before.fresh >= new_cards {
            before
        } else if !bury {
            Taken {
                positions: before.positions.push(positions.last()),
                fresh,
                sections: before.sections,
            }
        } else if before.sections.contains(row.section_uid@) {
            Taken { positions: before.positions, fresh, sections: before.sections }
        } else {
            Taken {
                positions: before.positions.push(positions.last()),
                fresh,
                sections: before.sections.push(row.section_uid@),
            }
        }
    }
}

/// The queue: what was taken, up to the limit of reviews.
pub open spec fn queue_of(
    rows: Seq<QueueRow>,
    positions: Seq<usize>,
    limits: Limits,
    bury: bool,
) -> Seq<usize> {
    let all = taken(rows, positions, limits.new_cards, bury).positions;
    if all.len() > limits.reviews {
        all.take(limits.reviews as int)
    } else {
        all
    }
}

fn holds_deck(decks: &Vec<i64>, deck: i64) -> (r: bool)
    ensures
        r == decks@.contains(deck),
{
    let mut i: usize = 0;
    while i < decks.len()
        invariant
            0 <= i <= decks.len(),
            forall|j: int| 0 <= j < i ==> decks@[j] != deck,
        decreases decks.len() - i,
    {
        if decks[i] == deck {
            assert(decks@[i as int] == deck);
            return true;
        }
        i += 1;
    }
    false
}

fn comes_up(row: &QueueRow, scope: ReviewScope, force: bool, now: i64) -> (r: bool)
    ensures
        r == may_come_up(*row, scope, force, now),
{
    if !force && row.due_at > now {
        return false;
    }
    match scope {
        ReviewScope::All => !row.in_a_deck || row.active_decks.len() > 0,
        ReviewScope::Deckless => !row.in_a_deck,
        ReviewScope::Deck(deck) => holds_deck(&row.active_decks, deck),
    }
}

/// The positions of the cards that may come up.
pub fn eligible_positions(
    rows: &Vec<QueueRow>,
    scope: ReviewScope,
    force: bool,
    now: i64,
) -> (r: Vec<usize>)
    ensures
        r@ == eligible(rows@, scope, force, now),
{
    let mut r: Vec<usize> = Vec::new();
    let mut i: usize = 0;
    assert(rows@.take(0) == Seq::<QueueRow>::empty());
    while i < rows.len()
        invariant
            0 <= i <= rows.len(),
            r@ == eligible(rows@.take(i as int), scope, force, now),
        decreases rows.len() - i,
    {
        assert(rows@.take(i + 1).drop_last() == rows@.take(i as int));
        assert(rows@.take(i + 1).last() == rows@[i as int]);
        if comes_up(&rows[i], scope, force, now) {
            r.push(i);
        }
        i += 1;
    }
    assert(rows@.take(rows.len() as int) == rows@);
    r
}

/// The queue for cards in the given order.
pub fn queue_from(
    rows: &Vec<QueueRow>,
    positions: &Vec<usize>,
    limits: Limits,
    bury: bool,
) -> (r: Vec<usize>)
    requires
        forall|i: int| 0 <= i < positions.len() ==> (#[trigger] positions@[i]) < rows.len(),
    ensures
        r@ == queue_of(rows@, positions@, limits, bury),
{
    let mut r: Vec<usize> = Vec::new();
    let mut sections: Vec<String> = Vec::new();
    let mut fresh: usize = 0;
    let mut i: usize = 0;
    assert(positions@.take(0) == Seq::<usize>::empty());
    assert(texts(sections@) == Seq::<Seq<char>>::empty());
    while i < positions.len()
        invariant
            0 <= i <= positions.len(),
            fresh <= i,
            forall|k: int| 0 <= k < positions.len() ==> (#[trigger] positions@[k]) < rows.len(),
            ({
                let t = taken(rows@, positions@.take(i as int), limits.new_cards, bury);
                r@ == t.positions && fresh == t.fresh && texts(sections@) == t.sections
            }),
        decreases positions.len() - i,
    {
        assert(positions@.take(i + 1).drop_last() == positions@.take(i as int));
        assert(positions@.take(i + 1).last() == positions@[i as int]);
        let at: usize = positions[i];
        let ghost before = texts(sections@);
        let is_new = rows[at].review_count == 0;
        if !is_new || fresh < limits.new_cards {
            if is_new {
                fresh += 1;
            }
            if !bury {
                r.push(at);
            } else if !crate::quiz::holds(&sections, rows[at].section_uid.as_str()) {
                sections.push(rows[at].section_uid.clone());
                assert(texts(sections@) == before.push(rows@[at as int].section_uid@));
                r.push(at);
            }
        }
        i += 1;
    }
    assert(positions@.take(positions.len() as int) == positions@);
    if r.len() > limits.reviews {
        r.truncate(limits.reviews);
        assert(r@ == queue_of(rows@, positions@, limits, bury));
    }
    r
}

/// The cards to review. In random order, which queue comes out is left to chance: it
/// is the queue for some order of the cards that may come up.
pub fn review_cards(
    rows: &Vec<QueueRow>,
    scope: ReviewScope,
    force: bool,
    now: i64,
    limits: Limits,
    order: ReviewOrder,
    bury: bool,
) -> (r: Vec<usize>)
    ensures
        order == ReviewOrder::Due && force ==> r@ == eligible(rows@, scope, force, now),
        order == ReviewOrder::Due && !force ==> r@ == queue_of(
            rows@,
            eligible(rows@, scope, force, now),
            limits,
            bury,
        ),
        exists|positions: Seq<usize>|
            {
                &&& positions.to_multiset() == eligible(rows@, scope, force, now).to_multiset()
                &&& r@ == if force {
                    positions
                } else {
                    #[trigger] queue_of(rows@, positions, limits, bury)
                }
            },
{
    let count: usize = rows.len();
    let mut positions = eligible_positions(rows, scope, force, now);
    let ghost all = positions@;
    assert(rows@.len() == count);
    if order == ReviewOrder::Random {
        shuffle(&mut positions);
    }
    let ghost shuffled = positions@;
    proof {
        lemma_eligible_inside(rows@, scope, force, now);
        lemma_same_elements(all, shuffled, rows@.len() as int);
    }
    let ghost queued = queue_of(rows@, shuffled, limits, bury);
    if force {
        positions
    } else {
        queue_from(rows, &positions, limits, bury)
    }
}

proof fn lemma_eligible_inside(rows: Seq<QueueRow>, scope: ReviewScope, force: bool, now: i64)
    requires
        rows.len() <= usize::MAX,
    ensures
        forall|i: int|
            0 <= i < eligible(rows, scope, force, now).len() ==> (#[trigger] eligible(
                rows,
                scope,
                force,
                now,
            )[i]) < rows.len() && may_come_up(
                rows[eligible(rows, scope, force, now)[i] as int],
                scope,
                force,
                now,
            ),
    decreases rows.len(),
{
    if rows.len() > 0 {
        lemma_eligible_inside(rows.drop_last(), scope, force, now);
        let before = eligible(rows.drop_last(), scope, force, now);
        let all = eligible(rows, scope, force, now);
        assert forall|i: int| 0 <= i < all.len() implies (#[trigger] all[i]) < rows.len()
            && may_come_up(rows[all[i] as int], scope, force, now) by {
            if i < before.len() {
                assert(all[i] == before[i]);
                assert(rows.drop_last()[before[i] as int] == rows[before[i] as int]);
            }
        }
    }
}

proof fn lemma_same_elements(a: Seq<usize>, b: Seq<usize>, bound: int)
    requires
        a.to_multiset() == b.to_multiset(),
        forall|i: int| 0 <= i < a.len() ==> (#[trigger] a[i]) < bound,
    ensures
        forall|i: int| 0 <= i < b.len() ==> (#[trigger] b[i]) < bound,
{
    broadcast use vstd::seq_lib::group_to_multiset_ensures;

    assert forall|i: int| 0 <= i < b.len() implies (#[trigger] b[i]) < bound by {
        assert(b.contains(b[i]));
        assert(b.to_multiset().count(b[i]) > 0);
        assert(a.to_multiset().count(b[i]) > 0);
        assert(a.contains(b[i]));
        let k = choose|k: int| 0 <= k < a.len() && a[k] == b[i];
        assert(a[k] < bound);
    }
}

/// Whether a card is due before another; of two that are due at once, the older card is
/// first.
pub open spec fn due_before(a: QueueRow, b: QueueRow) -> bool {
    a.due_at < b.due_at || a.due_at == b.due_at && a.id < b.id
}

/// Whether the cards stand in the order in which they are due.
pub open spec fn in_due_order(rows: Seq<QueueRow>) -> bool {
    forall|i: int, j: int|
        0 <= i < j < rows.len() ==> !due_before(#[trigger] rows[j], #[trigger] rows[i])
}

/// The same cards in the order in which they are due.
pub fn queue_order(rows: Vec<QueueRow>) -> (r: Vec<QueueRow>)
    ensures
        r@.to_multiset() == rows@.to_multiset(),
        in_due_order(r@),
{
    let mut rest = rows;
    let mut r: Vec<QueueRow> = Vec::new();
    proof {
        broadcast use vstd::seq_lib::group_to_multiset_ensures;

        assert(r@.to_multiset() =~= vstd::multiset::Multiset::empty());
        assert(rest@.to_multiset() =~= rest@.to_multiset().add(r@.to_multiset()));
    }
    while rest.len() > 0
        invariant
            rows@.to_multiset() == rest@.to_multiset().add(r@.to_multiset()),
            in_due_order(r@),
        decreases rest.len(),
    {
        let ghost before = r@;
        let ghost whole = rest@;
        let row = rest.pop().unwrap();
        let ghost left = rest@;
        let mut at: usize = r.len();
        while at > 0 && (row.due_at < r[at - 1].due_at || row.due_at == r[at - 1].due_at && row.id
            < r[at - 1].id)
            invariant
                0 <= at <= r.len(),
                r@ == before,
                in_due_order(before),
                forall|k: int| at <= k < before.len() ==> due_before(row, #[trigger] before[k]),
            decreases at,
        {
            at -= 1;
        }
        r.insert(at, row);
        proof {
            broadcast use vstd::seq_lib::group_to_multiset_ensures;

            assert(r@ == before.insert(at as int, row));
            assert(whole == left.push(row));
            assert(rows@.to_multiset() =~= left.to_multiset().add(r@.to_multiset()));
            assert forall|i: int, j: int| 0 <= i < j < r@.len() implies !due_before(
                #[trigger] r@[j],
                #[trigger] r@[i],
            ) by {
                if j < at {
                    assert(!due_before(before[j], before[i]));
                } else if j == at {
                    assert(!due_before(row, before[at - 1]));
                    if i < at - 1 {
                        assert(!due_before(before[at - 1], before[i]));
                    }
                } else if i < at {
                    assert(!due_before(before[j - 1], before[i]));
                } else if i == at {
                    assert(due_before(row, before[j - 1]));
                } else {
                    assert(!due_before(before[j - 1], before[i - 1]));
                }
            }
        }
    }
    proof {
        broadcast use vstd::seq_lib::group_to_multiset_ensures;

        assert(rest@.to_multiset() =~= vstd::multiset::Multiset::empty());
        assert(rows@.to_multiset() =~= r@.to_multiset());
    }
    r
}

/// The cards that are due, whatever deck holds them.
pub fn due_cards(
    rows: &Vec<QueueRow>,
    now: i64,
    limits: Limits,
    order: ReviewOrder,
    bury: bool,
) -> (r: Vec<usize>)
    ensures
        order == ReviewOrder::Due ==> r@ == queue_of(
            rows@,
            eligible(rows@, ReviewScope::All, false, now),
            limits,
            bury,
        ),
        exists|positions: Seq<usize>|
            positions.to_multiset() == eligible(
                rows@,
                ReviewScope::All,
                false,
                now,
            ).to_multiset() && r@ == #[trigger] queue_of(rows@, positions, limits, bury),
{
    review_cards(rows, ReviewScope::All, false, now, limits, order, bury)
}

// ---------------------------------------------------------------------------
// Laws of the queue
// ---------------------------------------------------------------------------

proof fn lemma_taken(rows: Seq<QueueRow>, positions: Seq<usize>, new_cards: usize, bury: bool)
    ensures
        ({
            let t = taken(rows, positions, new_cards, bury);
            &&& t.fresh <= new_cards
            &&& new_count(rows, t.positions) <= t.fresh
            &&& forall|k: int|
                0 <= k < t.positions.len() ==> positions.contains(#[trigger] t.positions[k])
            &&& bury ==> t.sections.len() == t.positions.len() && t.sections.no_duplicates()
                && forall|k: int|
                0 <= k < t.positions.len() ==> t.sections[k] == rows[(
                #[trigger] t.positions[k]) as int].section_uid@
        }),
    decreases positions.len(),
{
    if positions.len() > 0 {
        let rest = positions.drop_last();
        lemma_taken(rows, rest, new_cards, bury);
        let before = taken(rows, rest, new_cards, bury);
        let t = taken(rows, positions, new_cards, bury);
        assert forall|k: int| 0 <= k < t.positions.len() implies positions.contains(
            #[trigger] t.positions[k],
        ) by {
            if k < before.positions.len() {
                assert(t.positions[k] == before.positions[k]);
                assert(rest.contains(before.positions[k]));
                let j = choose|j: int| 0 <= j < rest.len() && rest[j] == before.positions[k];
                assert(positions[j] == t.positions[k]);
            } else {
                assert(positions[positions.len() - 1] == t.positions[k]);
            }
        }
        if t.positions.len() > before.positions.len() {
            assert(t.positions.drop_last() == before.positions);
        }
    }
}

/// The number of new cards among the positions.
pub open spec fn new_count(rows: Seq<QueueRow>, positions: Seq<usize>) -> nat
    decreases positions.len(),
{
    if positions.len() == 0 {
        0
    } else {
        new_count(rows, positions.drop_last()) + (if rows[positions.last() as int].review_count
            == 0 {
            1nat
        } else {
            0nat
        })
    }
}

proof fn lemma_new_count_take(rows: Seq<QueueRow>, positions: Seq<usize>, k: int)
    requires
        0 <= k <= positions.len(),
    ensures
        new_count(rows, positions.take(k)) <= new_count(rows, positions),
    decreases positions.len() - k,
{
    if k < positions.len() {
        lemma_new_count_take(rows, positions, k + 1);
        assert(positions.take(k + 1).drop_last() == positions.take(k));
    } else {
        assert(positions.take(k) == positions);
    }
}

/// A queue keeps to today's limits: it is no longer than the reviews that are left,
/// and holds no more new cards than are left.
pub proof fn a_queue_keeps_to_the_limits(
    rows: Seq<QueueRow>,
    positions: Seq<usize>,
    limits: Limits,
    bury: bool,
)
    ensures
        queue_of(rows, positions, limits, bury).len() <= limits.reviews,
        new_count(rows, queue_of(rows, positions, limits, bury)) <= limits.new_cards,
{
    lemma_taken(rows, positions, limits.new_cards, bury);
    let all = taken(rows, positions, limits.new_cards, bury).positions;
    if all.len() > limits.reviews {
        lemma_new_count_take(rows, all, limits.reviews as int);
    }
}

/// With siblings buried, no two cards of a queue are of the same section.
pub proof fn buried_siblings_do_not_meet(
    rows: Seq<QueueRow>,
    positions: Seq<usize>,
    limits: Limits,
    i: int,
    j: int,
)
    requires
        0 <= i < j < queue_of(rows, positions, limits, true).len(),
    ensures
        rows[queue_of(rows, positions, limits, true)[i] as int].section_uid@ != rows[queue_of(
            rows,
            positions,
            limits,
            true,
        )[j] as int].section_uid@,
{
    lemma_taken(rows, positions, limits.new_cards, true);
    let t = taken(rows, positions, limits.new_cards, true);
    let q = queue_of(rows, positions, limits, true);
    assert(q[i] == t.positions[i] && q[j] == t.positions[j]);
    assert(t.sections[i] != t.sections[j]);
}

/// A card comes up only when it is in the scope and, unless forced, due.
pub proof fn only_due_cards_come_up(
    rows: Seq<QueueRow>,
    scope: ReviewScope,
    now: i64,
    limits: Limits,
    bury: bool,
    i: int,
)
    requires
        rows.len() <= usize::MAX,
        0 <= i < queue_of(rows, eligible(rows, scope, false, now), limits, bury).len(),
    ensures
        ({
            let at = queue_of(rows, eligible(rows, scope, false, now), limits, bury)[i] as int;
            at < rows.len() && rows[at].due_at <= now && in_scope(rows[at], scope)
        }),
{
    let positions = eligible(rows, scope, false, now);
    lemma_taken(rows, positions, limits.new_cards, bury);
    lemma_eligible_inside(rows, scope, false, now);
    let t = taken(rows, positions, limits.new_cards, bury);
    let q = queue_of(rows, positions, limits, bury);
    assert(q[i] == t.positions[i]);
    assert(positions.contains(t.positions[i]));
    let k = choose|k: int| 0 <= k < positions.len() && positions[k] == q[i];
    assert(positions[k] < rows.len());
}

/// Whether each position is behind the one before it.
spec fn rising(positions: Seq<usize>) -> bool {
    forall|i: int, j: int|
        0 <= i < j < positions.len() ==> #[trigger] positions[i] < #[trigger] positions[j]
}

proof fn lemma_eligible_rising(rows: Seq<QueueRow>, scope: ReviewScope, force: bool, now: i64)
    requires
        rows.len() <= usize::MAX,
    ensures
        rising(eligible(rows, scope, force, now)),
    decreases rows.len(),
{
    if rows.len() > 0 {
        lemma_eligible_rising(rows.drop_last(), scope, force, now);
        lemma_eligible_inside(rows.drop_last(), scope, force, now);
    }
}

proof fn lemma_taken_rising(
    rows: Seq<QueueRow>,
    positions: Seq<usize>,
    new_cards: usize,
    bury: bool,
)
    requires
        rising(positions),
    ensures
        rising(taken(rows, positions, new_cards, bury).positions),
    decreases positions.len(),
{
    if positions.len() > 0 {
        let rest = positions.drop_last();
        assert(rising(rest)) by {
            assert forall|i: int, j: int| 0 <= i < j < rest.len() implies #[trigger] rest[i]
                < #[trigger] rest[j] by {
                assert(positions[i] < positions[j]);
            }
        }
        lemma_taken_rising(rows, rest, new_cards, bury);
        lemma_taken(rows, rest, new_cards, bury);
        let before = taken(rows, rest, new_cards, bury).positions;
        let after = taken(rows, positions, new_cards, bury).positions;
        assert forall|i: int, j: int| 0 <= i < j < after.len() implies #[trigger] after[i]
            < #[trigger] after[j] by {
            assert(after[i] == before[i]);
            if j < before.len() {
                assert(after[j] == before[j]);
            } else {
                assert(rest.contains(before[i]));
                let k = choose|k: int| 0 <= k < rest.len() && rest[k] == before[i];
                assert(positions[k] < positions[positions.len() - 1]);
            }
        }
    }
}

/// From cards that stand in the order in which they are due, a queue that is not shuffled
/// takes them in that order, whether it is forced or not.
pub proof fn a_due_queue_runs_in_due_order(
    rows: Seq<QueueRow>,
    scope: ReviewScope,
    force: bool,
    now: i64,
    limits: Limits,
    bury: bool,
)
    requires
        rows.len() <= usize::MAX,
        in_due_order(rows),
    ensures
        ({
            let all = eligible(rows, scope, force, now);
            let queue = queue_of(rows, all, limits, bury);
            &&& in_due_order(Seq::new(all.len(), |i: int| rows[all[i] as int]))
            &&& in_due_order(Seq::new(queue.len(), |i: int| rows[queue[i] as int]))
        }),
{
    let all = eligible(rows, scope, force, now);
    let queue = queue_of(rows, all, limits, bury);
    let took = taken(rows, all, limits.new_cards, bury).positions;
    lemma_eligible_rising(rows, scope, force, now);
    lemma_eligible_inside(rows, scope, force, now);
    lemma_taken_rising(rows, all, limits.new_cards, bury);
    lemma_taken(rows, all, limits.new_cards, bury);
    let first = Seq::new(all.len(), |i: int| rows[all[i] as int]);
    let second = Seq::new(queue.len(), |i: int| rows[queue[i] as int]);
    assert forall|i: int, j: int| 0 <= i < j < first.len() implies !due_before(
        #[trigger] first[j],
        #[trigger] first[i],
    ) by {
        assert(all[i] < all[j]);
        assert(!due_before(rows[all[j] as int], rows[all[i] as int]));
    }
    assert forall|i: int, j: int| 0 <= i < j < second.len() implies !due_before(
        #[trigger] second[j],
        #[trigger] second[i],
    ) by {
        assert(queue[i] == took[i] && queue[j] == took[j]);
        assert(took[i] < took[j]);
        assert(all.contains(took[j]));
        let k = choose|k: int| 0 <= k < all.len() && all[k] == took[j];
        assert(all[k] < rows.len());
        assert(!due_before(rows[queue[j] as int], rows[queue[i] as int]));
    }
}

/// What is left of a limit is what its use does not cover, and nothing once it is used up.
pub proof fn a_limit_is_used_up_by_its_use(limit: usize, used: usize)
    ensures
        used <= limit ==> left_of(limit, used) + used == limit,
        used >= limit ==> left_of(limit, used) == 0,
{
}

/// The cards that may come up are exactly those that are due, or asked for anyway, and that
/// the scope holds: all cards but those in archived decks alone, the cards in no deck at all,
/// or those of one deck. Each is named once, in the order in which the cards stand.
pub proof fn what_may_come_up_is_due_and_in_scope(
    rows: Seq<QueueRow>,
    scope: ReviewScope,
    force: bool,
    now: i64,
    p: usize,
)
    requires
        rows.len() <= usize::MAX,
    ensures
        eligible(rows, scope, force, now).contains(p) <==> {
            &&& p < rows.len()
            &&& force || rows[p as int].due_at <= now
            &&& match scope {
                ReviewScope::All => rows[p as int].in_a_deck ==> exists|d: i64|
                    rows[p as int].active_decks@.contains(d),
                ReviewScope::Deckless => !rows[p as int].in_a_deck,
                ReviewScope::Deck(deck) => rows[p as int].active_decks@.contains(deck),
            }
        },
        forall|i: int, j: int|
            0 <= i < j < eligible(rows, scope, force, now).len() ==> #[trigger] eligible(
                rows,
                scope,
                force,
                now,
            )[i] < #[trigger] eligible(rows, scope, force, now)[j],
{
    let all = eligible(rows, scope, force, now);
    lemma_eligible_inside(rows, scope, force, now);
    lemma_eligible_rising(rows, scope, force, now);
    lemma_eligible_whole(rows, scope, force, now, p);
    if p < rows.len() {
        let decks = rows[p as int].active_decks@;
        if decks.len() > 0 {
            assert(decks.contains(decks[0]));
        }
    }
    if all.contains(p) {
        let k = choose|k: int| 0 <= k < all.len() && all[k] == p;
        assert(all[k] < rows.len());
    }
}

proof fn lemma_eligible_whole(
    rows: Seq<QueueRow>,
    scope: ReviewScope,
    force: bool,
    now: i64,
    p: usize,
)
    requires
        rows.len() <= usize::MAX,
    ensures
        p < rows.len() && may_come_up(rows[p as int], scope, force, now) ==> eligible(
            rows,
            scope,
            force,
            now,
        ).contains(p),
    decreases rows.len(),
{
    if rows.len() > 0 {
        let rest = rows.drop_last();
        lemma_eligible_whole(rest, scope, force, now, p);
        let before = eligible(rest, scope, force, now);
        let all = eligible(rows, scope, force, now);
        if p < rest.len() {
            assert(rest[p as int] == rows[p as int]);
            if before.contains(p) {
                let k = choose|k: int| 0 <= k < before.len() && before[k] == p;
                assert(all[k] == p);
            }
        } else if p < rows.len() && may_come_up(rows[p as int], scope, force, now) {
            assert(all[before.len() as int] == p);
        }
    }
}

/// Whether the limit of new cards lets the card at a place come up: it holds back new cards
/// alone, once as many new cards as are left stand before.
pub open spec fn let_in(
    rows: Seq<QueueRow>,
    positions: Seq<usize>,
    new_cards: usize,
    k: int,
) -> bool {
    rows[positions[k] as int].review_count > 0 || new_count(rows, positions.take(k)) < new_cards
}

/// Whether the card at a place comes up, as long as reviews are left: it is let in and, with
/// siblings buried, no card of its section was let in before.
pub open spec fn comes_through(
    rows: Seq<QueueRow>,
    positions: Seq<usize>,
    new_cards: usize,
    bury: bool,
    k: int,
) -> bool {
    &&& let_in(rows, positions, new_cards, k)
    &&& bury ==> forall|j: int|
        0 <= j < k && rows[(#[trigger] positions[j]) as int].section_uid@
            == rows[positions[k] as int].section_uid@ ==> !let_in(rows, positions, new_cards, j)
}

/// How many cards come through at the first `k` places.
pub open spec fn through_count(
    rows: Seq<QueueRow>,
    positions: Seq<usize>,
    new_cards: usize,
    bury: bool,
    k: int,
) -> nat
    decreases k,
{
    if k <= 0 {
        0
    } else {
        through_count(rows, positions, new_cards, bury, k - 1) + (if comes_through(
            rows,
            positions,
            new_cards,
            bury,
            k - 1,
        ) {
            1nat
        } else {
            0nat
        })
    }
}

proof fn lemma_through_grows(
    rows: Seq<QueueRow>,
    positions: Seq<usize>,
    new_cards: usize,
    bury: bool,
    i: int,
    j: int,
)
    requires
        0 <= i <= j,
    ensures
        through_count(rows, positions, new_cards, bury, i) <= through_count(
            rows,
            positions,
            new_cards,
            bury,
            j,
        ),
        i < j && comes_through(rows, positions, new_cards, bury, i) ==> through_count(
            rows,
            positions,
            new_cards,
            bury,
            i,
        ) < through_count(rows, positions, new_cards, bury, j),
    decreases j - i,
{
    if i < j {
        lemma_through_grows(rows, positions, new_cards, bury, i, j - 1);
    }
}

/// Whether one of the first `n` places comes through as the one with the number `m`.
spec fn comes_from(
    rows: Seq<QueueRow>,
    positions: Seq<usize>,
    new_cards: usize,
    bury: bool,
    n: int,
    position: usize,
    m: int,
) -> bool {
    exists|k: int|
        0 <= k < n && #[trigger] comes_through(rows, positions, new_cards, bury, k)
            && through_count(rows, positions, new_cards, bury, k) == m && position == positions[k]
}

/// What the first `n` places add up to.
spec fn taken_is(
    rows: Seq<QueueRow>,
    positions: Seq<usize>,
    new_cards: usize,
    bury: bool,
    n: int,
) -> bool {
    let t = taken(rows, positions.take(n), new_cards, bury);
    let fresh = new_count(rows, positions.take(n));
    &&& t.fresh == (if fresh < new_cards {
        fresh
    } else {
        new_cards as nat
    })
    &&& t.positions.len() == through_count(rows, positions, new_cards, bury, n)
    &&& forall|k: int|
        0 <= k < n && #[trigger] comes_through(rows, positions, new_cards, bury, k)
            ==> t.positions[through_count(rows, positions, new_cards, bury, k) as int]
            == positions[k]
    &&& forall|m: int|
        0 <= m < t.positions.len() ==> #[trigger] comes_from(
            rows,
            positions,
            new_cards,
            bury,
            n,
            t.positions[m],
            m,
        )
    &&& bury ==> forall|s: Seq<char>| #[trigger]
        t.sections.contains(s) <==> exists|j: int|
            0 <= j < n && rows[(#[trigger] positions[j]) as int].section_uid@ == s && let_in(
                rows,
                positions,
                new_cards,
                j,
            )
}

proof fn lemma_taken_is(
    rows: Seq<QueueRow>,
    positions: Seq<usize>,
    new_cards: usize,
    bury: bool,
    n: int,
)
    requires
        0 <= n <= positions.len(),
    ensures
        taken_is(rows, positions, new_cards, bury, n),
    decreases n,
{
    if n == 0 {
        assert(positions.take(0) == Seq::<usize>::empty());
    } else {
        lemma_taken_is(rows, positions, new_cards, bury, n - 1);
        let here = n - 1;
        let shorter = positions.take(n - 1);
        let longer = positions.take(n);
        assert(longer.drop_last() == shorter);
        assert(longer.last() == positions[here]);
        let before = taken(rows, shorter, new_cards, bury);
        let after = taken(rows, longer, new_cards, bury);
        let row = rows[positions[here] as int];
        let uid = row.section_uid@;
        assert(let_in(rows, positions, new_cards, here) <==> !(row.review_count == 0
            && before.fresh >= new_cards));
        if bury {
            assert(before.sections.contains(uid) <==> exists|j: int|
                0 <= j < here && rows[(#[trigger] positions[j]) as int].section_uid@ == uid
                    && let_in(rows, positions, new_cards, j));
        }
        let through = comes_through(rows, positions, new_cards, bury, here);
        assert(through <==> after.positions == before.positions.push(positions[here])) by {
            if !through {
                assert(after.positions == before.positions);
                assert(after.positions.len() < before.positions.push(positions[here]).len());
            }
        }
        assert(!through ==> after.positions == before.positions);
        assert forall|k: int|
            0 <= k < n && #[trigger] comes_through(
                rows,
                positions,
                new_cards,
                bury,
                k,
            ) implies after.positions[through_count(rows, positions, new_cards, bury, k) as int]
            == positions[k] by {
            if k < here {
                lemma_through_grows(rows, positions, new_cards, bury, k, here);
                assert(before.positions[through_count(
                    rows,
                    positions,
                    new_cards,
                    bury,
                    k,
                ) as int] == positions[k]);
            }
        }
        assert forall|m: int| 0 <= m < after.positions.len() implies #[trigger] comes_from(
            rows,
            positions,
            new_cards,
            bury,
            n,
            after.positions[m],
            m,
        ) by {
            if m < before.positions.len() {
                assert(after.positions[m] == before.positions[m]);
                assert(comes_from(
                    rows,
                    positions,
                    new_cards,
                    bury,
                    here,
                    before.positions[m],
                    m,
                ));
                let k = choose|k: int|
                    0 <= k < here && #[trigger] comes_through(rows, positions, new_cards, bury, k)
                        && through_count(rows, positions, new_cards, bury, k) == m
                        && before.positions[m] == positions[k];
                assert(comes_through(rows, positions, new_cards, bury, k));
            } else {
                assert(comes_through(rows, positions, new_cards, bury, here));
            }
        }
        if bury {
            assert forall|s: Seq<char>| #[trigger]
                after.sections.contains(s) <==> exists|j: int|
                    0 <= j < n && rows[(#[trigger] positions[j]) as int].section_uid@ == s
                        && let_in(rows, positions, new_cards, j) by {
                assert(before.sections.contains(s) <==> exists|j: int|
                    0 <= j < here && rows[(#[trigger] positions[j]) as int].section_uid@ == s
                        && let_in(rows, positions, new_cards, j));
                if before.sections.contains(s) {
                    let at = choose|at: int|
                        0 <= at < before.sections.len() && before.sections[at] == s;
                    assert(after.sections[at] == s);
                }
                if after.sections.contains(s) && !before.sections.contains(s) {
                    let at = choose|at: int|
                        0 <= at < after.sections.len() && after.sections[at] == s;
                    if at < before.sections.len() {
                        assert(before.sections[at] == s);
                    }
                    assert(rows[positions[here] as int].section_uid@ == s);
                }
                if uid == s && let_in(rows, positions, new_cards, here)
                    && !before.sections.contains(s) {
                    assert(after.sections[before.sections.len() as int] == s);
                }
            }
        }
        assert(after.fresh == (if new_count(rows, longer) < new_cards {
            new_count(rows, longer)
        } else {
            new_cards as nat
        }));
        assert(after.positions.len() == through_count(rows, positions, new_cards, bury, n));
    }
}

proof fn lemma_queue_member(
    rows: Seq<QueueRow>,
    positions: Seq<usize>,
    limits: Limits,
    bury: bool,
    k: int,
)
    requires
        positions.no_duplicates(),
        0 <= k < positions.len(),
    ensures
        queue_of(rows, positions, limits, bury).contains(positions[k]) <==> comes_through(
            rows,
            positions,
            limits.new_cards,
            bury,
            k,
        ) && through_count(rows, positions, limits.new_cards, bury, k) < limits.reviews,
{
    let q = queue_of(rows, positions, limits, bury);
    let new_cards = limits.new_cards;
    let t = taken(rows, positions, new_cards, bury).positions;
    let end = positions.len() as int;
    lemma_taken_is(rows, positions, new_cards, bury, end);
    assert(positions.take(end) == positions);
    let at = through_count(rows, positions, new_cards, bury, k) as int;
    if comes_through(rows, positions, new_cards, bury, k) {
        lemma_through_grows(rows, positions, new_cards, bury, k, end);
        assert(t[at] == positions[k]);
        if at < limits.reviews {
            assert(q[at] == positions[k]);
        }
    }
    if q.contains(positions[k]) {
        let m = choose|m: int| 0 <= m < q.len() && q[m] == positions[k];
        assert(t[m] == q[m]);
        let i = lemma_queue_place(rows, positions, limits, bury, m);
        assert(i == k);
    }
}

/// The place that the card with the number `m` in the queue has among the positions.
proof fn lemma_queue_place(
    rows: Seq<QueueRow>,
    positions: Seq<usize>,
    limits: Limits,
    bury: bool,
    m: int,
) -> (i: int)
    requires
        0 <= m < queue_of(rows, positions, limits, bury).len(),
    ensures
        0 <= i < positions.len(),
        comes_through(rows, positions, limits.new_cards, bury, i),
        through_count(rows, positions, limits.new_cards, bury, i) == m,
        m < limits.reviews,
        queue_of(rows, positions, limits, bury)[m] == positions[i],
{
    let new_cards = limits.new_cards;
    let t = taken(rows, positions, new_cards, bury).positions;
    let end = positions.len() as int;
    lemma_taken_is(rows, positions, new_cards, bury, end);
    assert(positions.take(end) == positions);
    assert(t[m] == queue_of(rows, positions, limits, bury)[m]);
    assert(comes_from(rows, positions, new_cards, bury, end, t[m], m));
    choose|i: int|
        0 <= i < end && #[trigger] comes_through(rows, positions, new_cards, bury, i)
            && through_count(rows, positions, new_cards, bury, i) == m && t[m] == positions[i]
}

/// Whether one position stands before another.
pub open spec fn stands_before(positions: Seq<usize>, a: usize, b: usize) -> bool {
    exists|i: int, j: int|
        0 <= i < j < positions.len() && #[trigger] positions[i] == a && #[trigger] positions[j] == b
}

/// The queue misses nothing and adds nothing. A card comes up exactly when it comes through
/// and fewer cards than there are reviews left come through before it. The cards keep their
/// order.
pub proof fn a_queue_holds_what_comes_through(
    rows: Seq<QueueRow>,
    positions: Seq<usize>,
    limits: Limits,
    bury: bool,
)
    requires
        positions.no_duplicates(),
    ensures
        forall|k: int|
            0 <= k < positions.len() ==> (queue_of(rows, positions, limits, bury).contains(
                #[trigger] positions[k],
            ) <==> comes_through(rows, positions, limits.new_cards, bury, k) && through_count(
                rows,
                positions,
                limits.new_cards,
                bury,
                k,
            ) < limits.reviews),
        forall|m: int|
            0 <= m < queue_of(rows, positions, limits, bury).len() ==> positions.contains(
                #[trigger] queue_of(rows, positions, limits, bury)[m],
            ),
        forall|m: int, n: int|
            0 <= m < n < queue_of(rows, positions, limits, bury).len() ==> stands_before(
                positions,
                #[trigger] queue_of(rows, positions, limits, bury)[m],
                #[trigger] queue_of(rows, positions, limits, bury)[n],
            ),
{
    let q = queue_of(rows, positions, limits, bury);
    assert forall|k: int| 0 <= k < positions.len() implies (q.contains(#[trigger] positions[k])
        <==> comes_through(rows, positions, limits.new_cards, bury, k) && through_count(
        rows,
        positions,
        limits.new_cards,
        bury,
        k,
    ) < limits.reviews) by {
        lemma_queue_member(rows, positions, limits, bury, k);
    }
    assert forall|m: int| 0 <= m < q.len() implies positions.contains(#[trigger] q[m]) by {
        let i = lemma_queue_place(rows, positions, limits, bury, m);
    }
    assert forall|m: int, n: int| 0 <= m < n < q.len() implies stands_before(
        positions,
        #[trigger] q[m],
        #[trigger] q[n],
    ) by {
        let i = lemma_queue_place(rows, positions, limits, bury, m);
        let j = lemma_queue_place(rows, positions, limits, bury, n);
        if j <= i {
            lemma_through_grows(rows, positions, limits.new_cards, bury, j, i);
        }
        assert(positions[i] == q[m] && positions[j] == q[n]);
    }
}

/// A card that was reviewed before comes up whatever is left of the new cards, unless a card
/// of its section stands before it and siblings are buried, or the reviews are used up by the
/// cards before it.
pub proof fn a_reviewed_card_is_not_held_back(
    rows: Seq<QueueRow>,
    positions: Seq<usize>,
    limits: Limits,
    bury: bool,
    k: int,
)
    requires
        positions.no_duplicates(),
        0 <= k < positions.len(),
        k < limits.reviews,
        rows[positions[k] as int].review_count > 0,
        bury ==> forall|j: int|
            0 <= j < k ==> rows[(#[trigger] positions[j]) as int].section_uid@
                != rows[positions[k] as int].section_uid@,
    ensures
        queue_of(rows, positions, limits, bury).contains(positions[k]),
{
    lemma_queue_member(rows, positions, limits, bury, k);
    lemma_through_bound(rows, positions, limits.new_cards, bury, k);
    assert(comes_through(rows, positions, limits.new_cards, bury, k));
}

proof fn lemma_through_bound(
    rows: Seq<QueueRow>,
    positions: Seq<usize>,
    new_cards: usize,
    bury: bool,
    k: int,
)
    requires
        0 <= k,
    ensures
        through_count(rows, positions, new_cards, bury, k) <= k,
    decreases k,
{
    if k > 0 {
        lemma_through_bound(rows, positions, new_cards, bury, k - 1);
    }
}

/// Which reviewed cards come up does not depend on the limit of new cards, where no new card
/// stands among them: two limits give the same queue.
pub proof fn reviewed_cards_do_not_depend_on_new_ones(
    rows: Seq<QueueRow>,
    positions: Seq<usize>,
    limits: Limits,
    other: Limits,
    bury: bool,
)
    requires
        limits.reviews == other.reviews,
        forall|k: int|
            0 <= k < positions.len() ==> rows[(#[trigger] positions[k]) as int].review_count > 0,
    ensures
        queue_of(rows, positions, limits, bury) == queue_of(rows, positions, other, bury),
{
    lemma_same_taken(rows, positions, limits.new_cards, other.new_cards, bury);
}

proof fn lemma_same_taken(
    rows: Seq<QueueRow>,
    positions: Seq<usize>,
    a: usize,
    b: usize,
    bury: bool,
)
    requires
        forall|k: int|
            0 <= k < positions.len() ==> rows[(#[trigger] positions[k]) as int].review_count > 0,
    ensures
        taken(rows, positions, a, bury) == taken(rows, positions, b, bury),
    decreases positions.len(),
{
    if positions.len() > 0 {
        let rest = positions.drop_last();
        assert forall|k: int| 0 <= k < rest.len() implies rows[(
        #[trigger] rest[k]) as int].review_count > 0 by {
            assert(rest[k] == positions[k]);
        }
        lemma_same_taken(rows, rest, a, b, bury);
        assert(rows[positions[positions.len() - 1] as int].review_count > 0);
    }
}

// ---------------------------------------------------------------------------
// One review
// ---------------------------------------------------------------------------

/// How well a card was recalled.
#[derive(Debug, Clone, Copy, PartialEq, Eq, Structural)]
pub enum Grade {
    Again,
    Hard,
    Good,
    Easy,
}

/// The grade that a rating from 1 to 4 stands for.
pub open spec fn grade_of(rating: u32) -> Option<Grade> {
    if rating == 1 {
        Some(Grade::Again)
    } else if rating == 2 {
        Some(Grade::Hard)
    } else if rating == 3 {
        Some(Grade::Good)
    } else if rating == 4 {
        Some(Grade::Easy)
    } else {
        None
    }
}

/// Reads a rating; `None` when it is not between 1 and 4.
pub fn grade(rating: u32) -> (r: Option<Grade>)
    ensures
        r == grade_of(rating),
{
    match rating {
        1 => Some(Grade::Again),
        2 => Some(Grade::Hard),
        3 => Some(Grade::Good),
        4 => Some(Grade::Easy),
        _ => None,
    }
}

/// The whole days from the last review to now, in 32 bits; none when there was none, or it
/// lies ahead.
pub fn elapsed_days(last_review_at: Option<i64>, now: i64) -> (r: u32)
    requires
        last_review_at matches Some(last) ==> i64::MIN <= now - last <= i64::MAX,
    ensures
        r == match last_review_at {
            Some(last) => if now >= last {
                ((now - last) / (DAY as int)) % 0x1_0000_0000
            } else {
                0
            },
            None => 0,
        },
{
    match last_review_at {
        Some(last) => if now >= last {
            let days: u64 = ((now - last) / DAY) as u64;
            let short: u32 = (days % 0x1_0000_0000) as u32;
            short
        } else {
            0
        },
        None => 0,
    }
}

/// When a card is due that was scheduled for a number of days.
pub fn due_at(now: i64, scheduled_days: u32) -> (r: i64)
    requires
        now + scheduled_days * DAY <= i64::MAX,
    ensures
        r == now + scheduled_days * DAY,
{
    now + (scheduled_days as i64) * DAY
}

// ---------------------------------------------------------------------------
// Reviews from another device
// ---------------------------------------------------------------------------

/// What is known of a card's schedule.
#[derive(Debug, Clone, Copy, PartialEq, Eq, Structural)]
pub struct Schedule {
    pub due_at: i64,
    pub last_review_at: Option<i64>,
    pub scheduled_days: u32,
    pub review_count: u32,
    pub lapse_count: u32,
}

/// The schedule after a review at `now` that was graded and scheduled for a number of days.
/// A card lapses when it was not recalled.
pub open spec fn rescheduled(before: Schedule, grade: Grade, now: i64, days: u32) -> Schedule {
    Schedule {
        due_at: (now + days * DAY) as i64,
        last_review_at: Some(now),
        scheduled_days: days,
        review_count: (before.review_count + 1) as u32,
        lapse_count: if grade == Grade::Again {
            (before.lapse_count + 1) as u32
        } else {
            before.lapse_count
        },
    }
}

/// The schedule after a review.
pub fn reschedule(before: Schedule, grade: Grade, now: i64, days: u32) -> (r: Schedule)
    requires
        now + days * DAY <= i64::MAX,
        before.review_count < u32::MAX,
        before.lapse_count < u32::MAX,
    ensures
        r == rescheduled(before, grade, now, days),
{
    Schedule {
        due_at: due_at(now, days),
        last_review_at: Some(now),
        scheduled_days: days,
        review_count: before.review_count + 1,
        lapse_count: if grade == Grade::Again {
            before.lapse_count + 1
        } else {
            before.lapse_count
        },
    }
}

/// A card never lapses more often than it is reviewed.
pub proof fn lapses_are_reviews(before: Schedule, grade: Grade, now: i64, days: u32)
    requires
        before.lapse_count <= before.review_count < u32::MAX,
    ensures
        rescheduled(before, grade, now, days).lapse_count <= rescheduled(
            before,
            grade,
            now,
            days,
        ).review_count,
{
}

/// A review counts, is the last one, and puts the card off by the days it was scheduled for.
/// The card lapses at a rating of 1 and at no other.
pub proof fn a_review_moves_the_schedule(
    before: Schedule,
    rating: u32,
    grade: Grade,
    now: i64,
    days: u32,
)
    requires
        grade_of(rating) == Some(grade),
        now + days * 86_400 <= i64::MAX,
        before.review_count < u32::MAX,
        before.lapse_count < u32::MAX,
    ensures
        ({
            let after = rescheduled(before, grade, now, days);
            &&& after.due_at - now == days * 86_400
            &&& after.last_review_at == Some(now)
            &&& after.scheduled_days == days
            &&& after.review_count == before.review_count + 1
            &&& after.lapse_count == before.lapse_count + (if rating == 1 {
                1int
            } else {
                0int
            })
        }),
        1 <= rating <= 4,
{
}

/// The four ratings stand for the four grades, from the worst to the best.
pub proof fn ratings_rise_with_the_grade(a: u32, b: u32)
    ensures
        grade_of(a) is Some <==> 1 <= a <= 4,
        grade_of(a) is Some && grade_of(a) == grade_of(b) ==> a == b,
        grade_of(a) == Some(Grade::Again) && grade_of(b) is Some ==> a <= b,
        grade_of(a) == Some(Grade::Hard) && grade_of(b) == Some(Grade::Good) ==> a < b,
        grade_of(a) == Some(Grade::Easy) && grade_of(b) is Some ==> a >= b,
{
}

/// A card that reviews can be recorded on.
#[derive(Debug)]
pub struct KnownCard {
    pub uid: String,
    pub last_review_at: Option<i64>,
}

/// One event to import.
#[derive(Debug, Clone, Copy, PartialEq, Eq, Structural)]
pub struct ImportStep {
    /// The position of the event.
    pub event: usize,
    /// The position of its card.
    pub card: usize,
    /// Whether the card was reviewed since: the event is then logged, and the card
    /// keeps its schedule.
    pub late: bool,
}

/// Whether an event comes before another: by time, then by id.
pub open spec fn event_before(a: ReviewEvent, b: ReviewEvent) -> bool {
    a.reviewed_at < b.reviewed_at || a.reviewed_at == b.reviewed_at && text_before(
        a.event_id@,
        b.event_id@,
    )
}

/// Where the event at `i` goes among events in order: behind those that do not come
/// after it.
pub open spec fn slot(events: Seq<ReviewEvent>, order: Seq<usize>, i: usize) -> int
    decreases order.len(),
{
    if order.len() == 0 {
        0
    } else if event_before(events[i as int], events[order.last() as int]) {
        slot(events, order.drop_last(), i)
    } else {
        order.len() as int
    }
}

/// The positions of the first `count` events, in order.
pub open spec fn in_order(events: Seq<ReviewEvent>, count: int) -> Seq<usize>
    decreases count,
{
    if count <= 0 {
        Seq::empty()
    } else {
        let before = in_order(events, count - 1);
        before.insert(slot(events, before, (count - 1) as usize), (count - 1) as usize)
    }
}

/// Whether an event can be imported at all.
pub open spec fn is_valid(event: ReviewEvent) -> bool {
    grade_of(event.rating) is Some && trimmed(event.event_id@).len() > 0 && trimmed(
        event.device_id@,
    ).len() > 0
}

/// The position of a card.
pub open spec fn card_at(cards: Seq<KnownCard>, uid: Seq<char>) -> Option<int>
    decreases cards.len(),
{
    if cards.len() == 0 {
        None
    } else if cards[0].uid@ == uid {
        Some(0)
    } else {
        match card_at(cards.drop_first(), uid) {
            Some(i) => Some(i + 1),
            None => None,
        }
    }
}

/// The state of an import: the ids that were imported, when each card was last
/// reviewed, and the steps.
#[verifier::ext_equal]
pub struct Import {
    pub seen: Seq<Seq<char>>,
    pub last: Seq<Option<i64>>,
    pub steps: Seq<ImportStep>,
}

/// The import of one event. It is passed over when it is not valid, was imported
/// before, or its card is unknown.
pub open spec fn import_one(
    events: Seq<ReviewEvent>,
    cards: Seq<KnownCard>,
    state: Import,
    i: usize,
) -> Import {
    let event = events[i as int];
    match card_at(cards, event.card_uid@) {
        Some(c) => if is_valid(event) && !state.seen.contains(event.event_id@) {
            let late = state.last[c] matches Some(last) && last >= event.reviewed_at;
            Import {
                seen: state.seen.push(event.event_id@),
                last: if late {
                    state.last
                } else {
                    state.last.update(c, Some(event.reviewed_at))
                },
                steps: state.steps.push(ImportStep { event: i, card: c as usize, late }),
            }
        } else {
            state
        },
        None => state,
    }
}

/// The import of events in an order.
pub open spec fn import_all(
    events: Seq<ReviewEvent>,
    cards: Seq<KnownCard>,
    order: Seq<usize>,
    start: Import,
) -> Import
    decreases order.len(),
{
    if order.len() == 0 {
        start
    } else {
        import_one(
            events,
            cards,
            import_all(events, cards, order.drop_last(), start),
            order.last(),
        )
    }
}

pub open spec fn last_reviews(cards: Seq<KnownCard>) -> Seq<Option<i64>> {
    Seq::new(cards.len(), |i: int| cards[i].last_review_at)
}

/// The import of events into a vault that has imported `seen` before.
pub open spec fn import_of(
    events: Seq<ReviewEvent>,
    seen: Seq<Seq<char>>,
    cards: Seq<KnownCard>,
) -> Import {
    import_all(
        events,
        cards,
        in_order(events, events.len() as int),
        Import { seen, last: last_reviews(cards), steps: Seq::empty() },
    )
}

fn earlier(a: &ReviewEvent, b: &ReviewEvent) -> (r: bool)
    ensures
        r == event_before(*a, *b),
{
    a.reviewed_at < b.reviewed_at || a.reviewed_at == b.reviewed_at && text_comes_before(
        a.event_id.as_str(),
        b.event_id.as_str(),
    )
}

/// The lines that are not blank.
pub open spec fn filled(all: Seq<Seq<char>>) -> Seq<Seq<char>>
    decreases all.len(),
{
    if all.len() == 0 {
        Seq::empty()
    } else {
        let before = filled(all.drop_last());
        if trimmed(all.last()).len() == 0 {
            before
        } else {
            before.push(all.last())
        }
    }
}

/// The events in a mailbox, each as its line of JSON.
pub fn mailbox_lines(source: &str) -> (r: Vec<String>)
    ensures
        texts(r@) == filled(lines(source@)),
{
    let chars = to_chars(source);
    let all = split_lines(&chars);
    let ghost views = slices(all@);
    let mut r: Vec<String> = Vec::new();
    let mut i: usize = 0;
    assert(texts(r@) == Seq::<Seq<char>>::empty());
    assert(views.take(0) == Seq::<Seq<char>>::empty());
    while i < all.len()
        invariant
            0 <= i <= all.len(),
            views == slices(all@),
            texts(r@) == filled(views.take(i as int)),
        decreases all.len() - i,
    {
        assert(views.take(i + 1).drop_last() == views.take(i as int));
        assert(views.take(i + 1).last() == all@[i as int]@);
        let ghost before = texts(r@);
        if trim(all[i]).len() > 0 {
            r.push(from_chars(all[i]));
            assert(texts(r@) == before.push(all@[i as int]@));
        }
        i += 1;
    }
    assert(views.take(all.len() as int) == views);
    r
}

/// The positions of the events in the order in which they happened.
pub fn import_order(events: &Vec<ReviewEvent>) -> (r: Vec<usize>)
    ensures
        r@ == in_order(events@, events.len() as int),
        forall|k: int| 0 <= k < r.len() ==> (#[trigger] r@[k]) < events.len(),
{
    let mut order: Vec<usize> = Vec::new();
    let mut i: usize = 0;
    while i < events.len()
        invariant
            0 <= i <= events.len(),
            order@ == in_order(events@, i as int),
            forall|k: int| 0 <= k < order.len() ==> (#[trigger] order@[k]) < i,
        decreases events.len() - i,
    {
        let ghost before = order@;
        let mut at: usize = order.len();
        assert(before.take(at as int) == before);
        while at > 0 && earlier(&events[i], &events[order[at - 1]])
            invariant
                0 <= at <= order.len(),
                order@ == before,
                i < events.len(),
                forall|k: int| 0 <= k < order.len() ==> (#[trigger] order@[k]) < i,
                slot(events@, before, i) == slot(events@, before.take(at as int), i),
            decreases at,
        {
            assert(before.take(at as int).drop_last() == before.take(at - 1));
            at -= 1;
        }
        order.insert(at, i);
        i += 1;
    }
    order
}

fn find_card(cards: &Vec<KnownCard>, uid: &str) -> (r: Option<usize>)
    ensures
        match r {
            Some(c) => card_at(cards@, uid@) == Some(c as int) && c < cards.len(),
            None => card_at(cards@, uid@) is None,
        },
{
    let mut i: usize = 0;
    assert(cards@.skip(0) == cards@);
    while i < cards.len()
        invariant
            0 <= i <= cards.len(),
            card_at(cards@, uid@) == match card_at(cards@.skip(i as int), uid@) {
                Some(c) => Some(c + i),
                None => None,
            },
        decreases cards.len() - i,
    {
        assert(cards@.skip(i as int)[0] == cards@[i as int]);
        assert(cards@.skip(i as int).drop_first() == cards@.skip(i + 1));
        if text_eq(cards[i].uid.as_str(), uid) {
            return Some(i);
        }
        i += 1;
    }
    None
}

fn valid_event(event: &ReviewEvent) -> (r: bool)
    ensures
        r == is_valid(*event),
{
    let id = to_chars(event.event_id.as_str());
    let device = to_chars(event.device_id.as_str());
    grade(event.rating).is_some() && trim(&id).len() > 0 && trim(&device).len() > 0
}

/// Plans the import of reviews that another device reports: each at most once, in the
/// order in which they happened.
pub fn import_review_events(
    events: &Vec<ReviewEvent>,
    seen: &Vec<String>,
    cards: &Vec<KnownCard>,
) -> (r: Vec<ImportStep>)
    ensures
        r@ == import_of(events@, texts(seen@), cards@).steps,
{
    let order = import_order(events);
    let mut known = crate::text::clone_texts(seen);
    let mut last: Vec<Option<i64>> = Vec::new();
    let mut i: usize = 0;
    while i < cards.len()
        invariant
            0 <= i <= cards.len(),
            last.len() == i,
            forall|k: int| 0 <= k < i ==> last@[k] == cards@[k].last_review_at,
        decreases cards.len() - i,
    {
        last.push(cards[i].last_review_at);
        i += 1;
    }
    assert(last@ == last_reviews(cards@));
    let ghost start = Import {
        seen: texts(seen@),
        last: last_reviews(cards@),
        steps: Seq::empty(),
    };
    let mut steps: Vec<ImportStep> = Vec::new();
    let mut k: usize = 0;
    assert(order@.take(0) == Seq::<usize>::empty());
    while k < order.len()
        invariant
            0 <= k <= order.len(),
            forall|j: int| 0 <= j < order.len() ==> (#[trigger] order@[j]) < events.len(),
            last.len() == cards.len(),
            ({
                let s = import_all(events@, cards@, order@.take(k as int), start);
                texts(known@) == s.seen && last@ == s.last && steps@ == s.steps
            }),
        decreases order.len() - k,
    {
        assert(order@.take(k + 1).drop_last() == order@.take(k as int));
        assert(order@.take(k + 1).last() == order@[k as int]);
        let at: usize = order[k];
        let event = &events[at];
        let ghost before = texts(known@);
        if let Some(c) = find_card(cards, event.card_uid.as_str()) {
            if valid_event(event) && !crate::quiz::holds(&known, event.event_id.as_str()) {
                let late = match last[c] {
                    Some(when) => when >= event.reviewed_at,
                    None => false,
                };
                if !late {
                    last.set(c, Some(event.reviewed_at));
                }
                known.push(event.event_id.clone());
                assert(texts(known@) == before.push(event.event_id@));
                steps.push(ImportStep { event: at, card: c, late });
            }
        }
        k += 1;
    }
    assert(order@.take(order.len() as int) == order@);
    steps
}

// ---------------------------------------------------------------------------
// Laws of the import
// ---------------------------------------------------------------------------

/// Whether an import has nothing left to do with an event.
spec fn is_done(event: ReviewEvent, seen: Seq<Seq<char>>, cards: Seq<KnownCard>) -> bool {
    card_at(cards, event.card_uid@) is None || !is_valid(event) || seen.contains(event.event_id@)
}

proof fn lemma_import_done(
    events: Seq<ReviewEvent>,
    cards: Seq<KnownCard>,
    order: Seq<usize>,
    start: Import,
)
    ensures
        ({
            let end = import_all(events, cards, order, start);
            &&& forall|s: Seq<char>| start.seen.contains(s) ==> #[trigger] end.seen.contains(s)
            &&& forall|k: int|
                0 <= k < order.len() ==> is_done(
                    events[(#[trigger] order[k]) as int],
                    end.seen,
                    cards,
                )
        }),
    decreases order.len(),
{
    if order.len() > 0 {
        let rest = order.drop_last();
        lemma_import_done(events, cards, rest, start);
        let before = import_all(events, cards, rest, start);
        let end = import_all(events, cards, order, start);
        assert forall|s: Seq<char>| before.seen.contains(s) implies #[trigger] end.seen.contains(
            s,
        ) by {
            let k = choose|k: int| 0 <= k < before.seen.len() && before.seen[k] == s;
            assert(end.seen[k] == s);
        }
        assert forall|k: int| 0 <= k < order.len() implies is_done(
            events[(#[trigger] order[k]) as int],
            end.seen,
            cards,
        ) by {
            if k < rest.len() {
                assert(rest[k] == order[k]);
                assert(is_done(events[rest[k] as int], before.seen, cards));
            } else {
                let event = events[order.last() as int];
                if card_at(cards, event.card_uid@) is Some && is_valid(event)
                    && !before.seen.contains(event.event_id@) {
                    assert(end.seen[before.seen.len() as int] == event.event_id@);
                }
            }
        }
    }
}

proof fn lemma_import_idle(
    events: Seq<ReviewEvent>,
    cards: Seq<KnownCard>,
    order: Seq<usize>,
    start: Import,
)
    requires
        forall|k: int|
            0 <= k < order.len() ==> is_done(
                events[(#[trigger] order[k]) as int],
                start.seen,
                cards,
            ),
    ensures
        import_all(events, cards, order, start) == start,
    decreases order.len(),
{
    if order.len() > 0 {
        let rest = order.drop_last();
        assert forall|k: int| 0 <= k < rest.len() implies is_done(
            events[(#[trigger] rest[k]) as int],
            start.seen,
            cards,
        ) by {
            assert(rest[k] == order[k]);
        }
        lemma_import_idle(events, cards, rest, start);
        assert(is_done(events[order[order.len() - 1] as int], start.seen, cards));
    }
}

/// Whether two events are the same report of the same review.
pub open spec fn same_event(a: ReviewEvent, b: ReviewEvent) -> bool {
    &&& a.event_id@ == b.event_id@
    &&& a.device_id@ == b.device_id@
    &&& a.card_uid@ == b.card_uid@
    &&& a.rating == b.rating
    &&& a.reviewed_at == b.reviewed_at
}

/// Whether an event is among the events.
pub open spec fn is_reported(events: Seq<ReviewEvent>, event: ReviewEvent) -> bool {
    exists|i: int| 0 <= i < events.len() && same_event(#[trigger] events[i], event)
}

proof fn lemma_slot_inside(events: Seq<ReviewEvent>, order: Seq<usize>, i: usize)
    ensures
        0 <= slot(events, order, i) <= order.len(),
    decreases order.len(),
{
    if order.len() > 0 {
        lemma_slot_inside(events, order.drop_last(), i);
    }
}

proof fn lemma_in_order_is_whole(events: Seq<ReviewEvent>, count: int)
    requires
        0 <= count <= events.len(),
        events.len() <= usize::MAX,
    ensures
        in_order(events, count).len() == count,
        forall|k: int| 0 <= k < count ==> (#[trigger] in_order(events, count)[k]) < count,
        forall|i: usize| i < count ==> #[trigger] in_order(events, count).contains(i),
    decreases count,
{
    if count > 0 {
        lemma_in_order_is_whole(events, count - 1);
        let before = in_order(events, count - 1);
        let new = (count - 1) as usize;
        let at = slot(events, before, new);
        lemma_slot_inside(events, before, new);
        let after = before.insert(at, new);
        assert(after == in_order(events, count));
        assert forall|k: int| 0 <= k < count implies (#[trigger] after[k]) < count by {
            if k < at {
                assert(after[k] == before[k]);
            } else if k > at {
                assert(after[k] == before[k - 1]);
            }
        }
        assert forall|i: usize| i < count implies #[trigger] after.contains(i) by {
            if i == new {
                assert(after[at] == i);
            } else {
                assert(before.contains(i));
                let k = choose|k: int| 0 <= k < before.len() && before[k] == i;
                if k < at {
                    assert(after[k] == i);
                } else {
                    assert(after[k + 1] == i);
                }
            }
        }
    }
}

/// Importing events that were all imported before imports nothing: whatever their order,
/// how often each is reported, and whatever the cards look like by then, as long as they
/// are the same cards.
pub proof fn importing_twice_is_importing_once(
    events: Seq<ReviewEvent>,
    again: Seq<ReviewEvent>,
    seen: Seq<Seq<char>>,
    cards: Seq<KnownCard>,
    later: Seq<KnownCard>,
)
    requires
        events.len() <= usize::MAX,
        again.len() <= usize::MAX,
        forall|i: int| 0 <= i < again.len() ==> is_reported(events, #[trigger] again[i]),
        later.len() == cards.len(),
        forall|i: int| 0 <= i < cards.len() ==> (#[trigger] later[i]).uid@ == cards[i].uid@,
    ensures
        import_of(again, import_of(events, seen, cards).seen, later).steps == Seq::<
            ImportStep,
        >::empty(),
{
    let order = in_order(events, events.len() as int);
    let first = Import { seen, last: last_reviews(cards), steps: Seq::empty() };
    lemma_import_done(events, cards, order, first);
    lemma_in_order_is_whole(events, events.len() as int);
    let end = import_of(events, seen, cards);
    let order_again = in_order(again, again.len() as int);
    lemma_in_order_is_whole(again, again.len() as int);
    let second = Import { seen: end.seen, last: last_reviews(later), steps: Seq::empty() };
    assert forall|k: int| 0 <= k < order_again.len() implies is_done(
        again[(#[trigger] order_again[k]) as int],
        second.seen,
        later,
    ) by {
        let event = again[order_again[k] as int];
        assert(is_reported(events, event));
        let i = choose|i: int| 0 <= i < events.len() && same_event(#[trigger] events[i], event);
        assert(order.contains(i as usize));
        let place = choose|p: int| 0 <= p < order.len() && order[p] == i as usize;
        assert(is_done(events[order[place] as int], end.seen, cards));
        lemma_same_cards(cards, later, event.card_uid@);
    }
    lemma_import_idle(again, later, order_again, second);
}

proof fn lemma_same_cards(a: Seq<KnownCard>, b: Seq<KnownCard>, uid: Seq<char>)
    requires
        a.len() == b.len(),
        forall|i: int| 0 <= i < a.len() ==> (#[trigger] b[i]).uid@ == a[i].uid@,
    ensures
        card_at(a, uid) == card_at(b, uid),
    decreases a.len(),
{
    if a.len() > 0 {
        assert(b[0].uid@ == a[0].uid@);
        assert forall|i: int| 0 <= i < a.drop_first().len() implies (
        #[trigger] b.drop_first()[i]).uid@ == a.drop_first()[i].uid@ by {
            assert(b[i + 1].uid@ == a[i + 1].uid@);
        }
        lemma_same_cards(a.drop_first(), b.drop_first(), uid);
    }
}

/// Whether the positions name events in the order in which they happened.
pub open spec fn events_sorted(events: Seq<ReviewEvent>, order: Seq<usize>) -> bool {
    forall|i: int, j: int|
        0 <= i < j < order.len() ==> !event_before(
            events[(#[trigger] order[j]) as int],
            events[(#[trigger] order[i]) as int],
        )
}

proof fn lemma_not_before_transitive(a: ReviewEvent, b: ReviewEvent, c: ReviewEvent)
    requires
        !event_before(b, a),
        !event_before(c, b),
    ensures
        !event_before(c, a),
{
    lemma_text_before_total(a.event_id@, b.event_id@);
    lemma_text_before_total(b.event_id@, c.event_id@);
    lemma_text_before_total(a.event_id@, c.event_id@);
    if event_before(c, a) && a.reviewed_at == c.reviewed_at {
        // a, b and c share a time; c is before a by id.
        if a.event_id@ == b.event_id@ {
        } else if b.event_id@ == c.event_id@ {
        } else {
            lemma_text_before_transitive(a.event_id@, b.event_id@, c.event_id@);
        }
    }
}

proof fn lemma_before_not_after(a: ReviewEvent, b: ReviewEvent)
    requires
        event_before(a, b),
    ensures
        !event_before(b, a),
{
    lemma_text_before_total(a.event_id@, b.event_id@);
}

proof fn lemma_slot_splits(events: Seq<ReviewEvent>, order: Seq<usize>, i: usize)
    requires
        events_sorted(events, order),
    ensures
        0 <= slot(events, order, i) <= order.len(),
        forall|k: int|
            0 <= k < slot(events, order, i) ==> !event_before(
                events[i as int],
                events[(#[trigger] order[k]) as int],
            ),
        forall|k: int|
            slot(events, order, i) <= k < order.len() ==> event_before(
                events[i as int],
                events[(#[trigger] order[k]) as int],
            ),
    decreases order.len(),
{
    if order.len() > 0 {
        let last = events[order.last() as int];
        if event_before(events[i as int], last) {
            let rest = order.drop_last();
            assert(events_sorted(events, rest)) by {
                assert forall|a: int, b: int| 0 <= a < b < rest.len() implies !event_before(
                    events[(#[trigger] rest[b]) as int],
                    events[(#[trigger] rest[a]) as int],
                ) by {
                    assert(rest[a] == order[a] && rest[b] == order[b]);
                }
            }
            lemma_slot_splits(events, rest, i);
            assert forall|k: int| slot(events, order, i) <= k < order.len() implies event_before(
                events[i as int],
                events[(#[trigger] order[k]) as int],
            ) by {
                if k < rest.len() {
                    assert(rest[k] == order[k]);
                }
            }
            assert forall|k: int| 0 <= k < slot(events, order, i) implies !event_before(
                events[i as int],
                events[(#[trigger] order[k]) as int],
            ) by {
                assert(rest[k] == order[k]);
            }
        } else {
            assert forall|k: int| 0 <= k < order.len() implies !event_before(
                events[i as int],
                events[(#[trigger] order[k]) as int],
            ) by {
                if k < order.len() - 1 {
                    lemma_not_before_transitive(events[order[k] as int], last, events[i as int]);
                }
            }
        }
    }
}

/// Events are imported in the order in which they happened.
pub proof fn events_are_imported_in_order(events: Seq<ReviewEvent>, count: int)
    requires
        0 <= count <= events.len(),
        events.len() <= usize::MAX,
    ensures
        events_sorted(events, in_order(events, count)),
        in_order(events, count).len() == count,
    decreases count,
{
    if count > 0 {
        events_are_imported_in_order(events, count - 1);
        let before = in_order(events, count - 1);
        let new = (count - 1) as usize;
        lemma_slot_splits(events, before, new);
        let at = slot(events, before, new);
        let after = before.insert(at, new);
        assert forall|i: int, j: int| 0 <= i < j < after.len() implies !event_before(
            events[(#[trigger] after[j]) as int],
            events[(#[trigger] after[i]) as int],
        ) by {
            if i < at && j < at {
                assert(after[i] == before[i] && after[j] == before[j]);
            } else if i < at && j == at {
                assert(after[i] == before[i]);
            } else if i < at {
                assert(after[i] == before[i] && after[j] == before[j - 1]);
            } else if i == at {
                assert(after[j] == before[j - 1]);
                lemma_before_not_after(events[new as int], events[before[j - 1] as int]);
            } else {
                assert(after[i] == before[i - 1] && after[j] == before[j - 1]);
            }
        }
    }
}

/// Whether a text holds anything but white space.
pub open spec fn says_something(s: Seq<char>) -> bool {
    exists|i: int| 0 <= i < s.len() && !crate::text::char_is_whitespace(#[trigger] s[i])
}

/// Whether an event can be imported: its rating is one of the four, it names itself and its
/// device, and its card is known.
pub open spec fn is_importable(event: ReviewEvent, cards: Seq<KnownCard>) -> bool {
    &&& 1 <= event.rating <= 4
    &&& says_something(event.event_id@)
    &&& says_something(event.device_id@)
    &&& exists|c: int| 0 <= c < cards.len() && (#[trigger] cards[c]).uid@ == event.card_uid@
}

/// Whether a card was last reviewed at a moment or after it: before the import, or by one of
/// its first `count` steps that was not late.
pub open spec fn reviewed_since(
    events: Seq<ReviewEvent>,
    cards: Seq<KnownCard>,
    steps: Seq<ImportStep>,
    count: int,
    card: int,
    moment: i64,
) -> bool {
    ||| cards[card].last_review_at matches Some(last) && last >= moment
    ||| exists|t: int|
        0 <= t < count && (#[trigger] steps[t]).card == card && !steps[t].late
            && events[steps[t].event as int].reviewed_at >= moment
}

/// Whether the id of an event is that of one of the steps.
spec fn stepped(events: Seq<ReviewEvent>, steps: Seq<ImportStep>, id: Seq<char>) -> bool {
    exists|t: int|
        0 <= t < steps.len() && events[(#[trigger] steps[t]).event as int].event_id@ == id
}

proof fn lemma_card_at(cards: Seq<KnownCard>, uid: Seq<char>)
    ensures
        match card_at(cards, uid) {
            Some(c) => {
                &&& 0 <= c < cards.len()
                &&& cards[c].uid@ == uid
                &&& forall|j: int| 0 <= j < c ==> (#[trigger] cards[j]).uid@ != uid
            },
            None => forall|j: int| 0 <= j < cards.len() ==> (#[trigger] cards[j]).uid@ != uid,
        },
    decreases cards.len(),
{
    if cards.len() > 0 && cards[0].uid@ != uid {
        let rest = cards.drop_first();
        lemma_card_at(rest, uid);
        match card_at(rest, uid) {
            Some(c) => {
                assert(rest[c] == cards[c + 1]);
                assert forall|j: int| 0 <= j < c + 1 implies (#[trigger] cards[j]).uid@ != uid by {
                    if j > 0 {
                        assert(rest[j - 1] == cards[j]);
                    }
                }
            },
            None => {
                assert forall|j: int| 0 <= j < cards.len() implies (#[trigger] cards[j]).uid@
                    != uid by {
                    if j > 0 {
                        assert(rest[j - 1] == cards[j]);
                    }
                }
            },
        }
    }
}

proof fn lemma_says_something(s: Seq<char>)
    ensures
        says_something(s) <==> trimmed(s).len() > 0,
{
    let cut = crate::text::trimming_takes_white_space_alone(s);
}

proof fn lemma_importable(event: ReviewEvent, cards: Seq<KnownCard>)
    ensures
        is_importable(event, cards) <==> is_valid(event) && card_at(cards, event.card_uid@) is Some,
{
    lemma_says_something(event.event_id@);
    lemma_says_something(event.device_id@);
    lemma_card_at(cards, event.card_uid@);
    if card_at(cards, event.card_uid@) is Some {
        let c = card_at(cards, event.card_uid@)->0;
        assert(cards[c].uid@ == event.card_uid@);
    }
}

/// What holds of an import after the first `n` events in their order.
spec fn import_holds(
    events: Seq<ReviewEvent>,
    seen: Seq<Seq<char>>,
    cards: Seq<KnownCard>,
    order: Seq<usize>,
    state: Import,
    n: int,
) -> bool {
    &&& state.last.len() == cards.len()
    &&& forall|id: Seq<char>| #[trigger]
        state.seen.contains(id) <==> seen.contains(id) || stepped(events, state.steps, id)
    &&& forall|c: int, moment: i64|
        0 <= c < cards.len() ==> ((state.last[c] matches Some(last) && last >= moment)
            <==> #[trigger] reviewed_since(
            events,
            cards,
            state.steps,
            state.steps.len() as int,
            c,
            moment,
        ))
    &&& forall|k: int|
        0 <= k < n && is_importable(events[(#[trigger] order[k]) as int], cards)
            ==> state.seen.contains(events[order[k] as int].event_id@)
    &&& forall|t: int|
        0 <= t < state.steps.len() ==> #[trigger] step_holds(
            events,
            seen,
            cards,
            order,
            state.steps,
            t,
            n,
        )
}

/// What holds of one step: where it came from, its card, and whether it is late.
spec fn step_holds(
    events: Seq<ReviewEvent>,
    seen: Seq<Seq<char>>,
    cards: Seq<KnownCard>,
    order: Seq<usize>,
    steps: Seq<ImportStep>,
    t: int,
    n: int,
) -> bool {
    let step = steps[t];
    let event = events[step.event as int];
    &&& is_importable(event, cards)
    &&& step.card < cards.len()
    &&& cards[step.card as int].uid@ == event.card_uid@
    &&& forall|j: int| 0 <= j < step.card ==> (#[trigger] cards[j]).uid@ != event.card_uid@
    &&& step.late == reviewed_since(events, cards, steps, t, step.card as int, event.reviewed_at)
    &&& !seen.contains(event.event_id@)
    &&& forall|u: int|
        0 <= u < t ==> events[(#[trigger] steps[u]).event as int].event_id@ != event.event_id@
    &&& exists|k: int|
        0 <= k < n && #[trigger] order[k] == step.event && first_of_id(events, cards, order, k)
            && forall|u: int|
            0 <= u < t ==> comes_earlier(order, #[trigger] steps[u].event, k)
}

/// Whether no event before the one at `k` in the order could be imported under its id.
spec fn first_of_id(
    events: Seq<ReviewEvent>,
    cards: Seq<KnownCard>,
    order: Seq<usize>,
    k: int,
) -> bool {
    forall|j: int|
        0 <= j < k && is_importable(events[(#[trigger] order[j]) as int], cards)
            ==> events[order[j] as int].event_id@ != events[order[k] as int].event_id@
}

/// Whether an event stands before the place `k` in the order.
spec fn comes_earlier(order: Seq<usize>, event: usize, k: int) -> bool {
    exists|j: int| 0 <= j < k && #[trigger] order[j] == event
}

proof fn lemma_import_step(
    events: Seq<ReviewEvent>,
    seen: Seq<Seq<char>>,
    cards: Seq<KnownCard>,
    order: Seq<usize>,
    state: Import,
    n: int,
)
    requires
        0 <= n < order.len(),
        cards.len() <= usize::MAX,
        import_holds(events, seen, cards, order, state, n),
    ensures
        import_holds(
            events,
            seen,
            cards,
            order,
            import_one(events, cards, state, order[n]),
            n + 1,
        ),
{
    let i = order[n];
    let event = events[i as int];
    let next = import_one(events, cards, state, i);
    let steps = state.steps;
    lemma_importable(event, cards);
    lemma_card_at(cards, event.card_uid@);
    let done = is_importable(event, cards) && !state.seen.contains(event.event_id@);
    if done {
        let c = card_at(cards, event.card_uid@)->0;
        let late = state.last[c] matches Some(last) && last >= event.reviewed_at;
        let step = ImportStep { event: i, card: c as usize, late };
        let more = steps.push(step);
        assert(next.steps == more);
        assert(late == reviewed_since(
            events,
            cards,
            steps,
            steps.len() as int,
            c,
            event.reviewed_at,
        ));
        assert forall|id: Seq<char>| #[trigger] next.seen.contains(id) <==> seen.contains(id)
            || stepped(events, more, id) by {
            assert(state.seen.contains(id) <==> seen.contains(id) || stepped(events, steps, id));
            if state.seen.contains(id) {
                let k = choose|k: int| 0 <= k < state.seen.len() && state.seen[k] == id;
                assert(next.seen[k] == id);
            }
            if next.seen.contains(id) {
                let k = choose|k: int| 0 <= k < next.seen.len() && next.seen[k] == id;
                if k < state.seen.len() {
                    assert(state.seen[k] == id);
                }
            }
            if stepped(events, steps, id) {
                let t = choose|t: int|
                    0 <= t < steps.len() && events[(#[trigger] steps[t]).event as int].event_id@
                        == id;
                assert(more[t] == steps[t]);
            }
            if stepped(events, more, id) {
                let t = choose|t: int|
                    0 <= t < more.len() && events[(#[trigger] more[t]).event as int].event_id@
                        == id;
                if t < steps.len() {
                    assert(more[t] == steps[t]);
                } else {
                    assert(next.seen[state.seen.len() as int] == id);
                }
            }
            if id == event.event_id@ {
                assert(next.seen[state.seen.len() as int] == id);
                assert(more[steps.len() as int] == step);
            }
        }
        assert forall|d: int, moment: i64| 0 <= d < cards.len() implies ((
        next.last[d] matches Some(last) && last >= moment) <==> #[trigger] reviewed_since(
            events,
            cards,
            more,
            more.len() as int,
            d,
            moment,
        )) by {
            let old_way = reviewed_since(events, cards, steps, steps.len() as int, d, moment);
            lemma_since_push(events, cards, steps, step, d, moment);
            assert(reviewed_since(
                events,
                cards,
                steps,
                steps.len() as int,
                c,
                event.reviewed_at,
            ) == late);
        }
        assert forall|k: int|
            0 <= k < n + 1 && is_importable(
                events[(#[trigger] order[k]) as int],
                cards,
            ) implies next.seen.contains(events[order[k] as int].event_id@) by {
            let id = events[order[k] as int].event_id@;
            if k < n {
                assert(state.seen.contains(id));
                let at = choose|at: int| 0 <= at < state.seen.len() && state.seen[at] == id;
                assert(next.seen[at] == id);
            } else {
                assert(next.seen[state.seen.len() as int] == id);
            }
        }
        assert forall|t: int| 0 <= t < more.len() implies #[trigger] step_holds(
            events,
            seen,
            cards,
            order,
            more,
            t,
            n + 1,
        ) by {
            if t < steps.len() {
                assert(step_holds(events, seen, cards, order, steps, t, n));
                lemma_step_kept(events, seen, cards, order, steps, step, t, n);
            } else {
                assert(state.seen.contains(event.event_id@) <==> seen.contains(event.event_id@)
                    || stepped(events, steps, event.event_id@));
                lemma_since_prefix(events, cards, steps, step, c, event.reviewed_at);
                assert forall|u: int| 0 <= u < t implies events[(
                #[trigger] more[u]).event as int].event_id@ != event.event_id@ by {
                    assert(more[u] == steps[u]);
                }
                assert(first_of_id(events, cards, order, n)) by {
                    assert forall|j: int|
                        0 <= j < n && is_importable(
                            events[(#[trigger] order[j]) as int],
                            cards,
                        ) implies events[order[j] as int].event_id@
                        != events[order[n] as int].event_id@ by {
                        assert(state.seen.contains(events[order[j] as int].event_id@));
                    }
                }
                assert forall|u: int| 0 <= u < t implies comes_earlier(
                    order,
                    #[trigger] more[u].event,
                    n,
                ) by {
                    assert(more[u] == steps[u]);
                    assert(step_holds(events, seen, cards, order, steps, u, n));
                    let k = choose|k: int|
                        0 <= k < n && #[trigger] order[k] == steps[u].event && first_of_id(
                            events,
                            cards,
                            order,
                            k,
                        );
                    assert(order[k] == more[u].event);
                }
                assert(order[n] == step.event);
            }
        }
    } else {
        assert(next == state);
        assert forall|t: int| 0 <= t < steps.len() implies #[trigger] step_holds(
            events,
            seen,
            cards,
            order,
            steps,
            t,
            n + 1,
        ) by {
            assert(step_holds(events, seen, cards, order, steps, t, n));
        }
    }
}

proof fn lemma_since_push(
    events: Seq<ReviewEvent>,
    cards: Seq<KnownCard>,
    steps: Seq<ImportStep>,
    step: ImportStep,
    d: int,
    moment: i64,
)
    ensures
        reviewed_since(
            events,
            cards,
            steps.push(step),
            steps.len() + 1int,
            d,
            moment,
        ) <==> reviewed_since(events, cards, steps, steps.len() as int, d, moment) || (step.card
            == d && !step.late && events[step.event as int].reviewed_at >= moment),
{
    let more = steps.push(step);
    assert(more[steps.len() as int] == step);
    if exists|t: int|
        0 <= t < steps.len() && (#[trigger] steps[t]).card == d && !steps[t].late
            && events[steps[t].event as int].reviewed_at >= moment {
        let t = choose|t: int|
            0 <= t < steps.len() && (#[trigger] steps[t]).card == d && !steps[t].late
                && events[steps[t].event as int].reviewed_at >= moment;
        assert(more[t] == steps[t]);
    }
    if exists|t: int|
        0 <= t < more.len() && (#[trigger] more[t]).card == d && !more[t].late
            && events[more[t].event as int].reviewed_at >= moment {
        let t = choose|t: int|
            0 <= t < more.len() && (#[trigger] more[t]).card == d && !more[t].late
                && events[more[t].event as int].reviewed_at >= moment;
        if t < steps.len() {
            assert(more[t] == steps[t]);
        }
    }
}

proof fn lemma_since_prefix(
    events: Seq<ReviewEvent>,
    cards: Seq<KnownCard>,
    steps: Seq<ImportStep>,
    step: ImportStep,
    d: int,
    moment: i64,
)
    ensures
        forall|t: int|
            0 <= t <= steps.len() ==> (#[trigger] reviewed_since(
                events,
                cards,
                steps.push(step),
                t,
                d,
                moment,
            ) <==> reviewed_since(events, cards, steps, t, d, moment)),
{
    let more = steps.push(step);
    assert forall|t: int| 0 <= t <= steps.len() implies (#[trigger] reviewed_since(
        events,
        cards,
        more,
        t,
        d,
        moment,
    ) <==> reviewed_since(events, cards, steps, t, d, moment)) by {
        assert forall|u: int| 0 <= u < t implies more[u] == #[trigger] steps[u] by {}
        assert forall|u: int| 0 <= u < t implies steps[u] == #[trigger] more[u] by {}
    }
}

proof fn lemma_step_kept(
    events: Seq<ReviewEvent>,
    seen: Seq<Seq<char>>,
    cards: Seq<KnownCard>,
    order: Seq<usize>,
    steps: Seq<ImportStep>,
    step: ImportStep,
    t: int,
    n: int,
)
    requires
        0 <= t < steps.len(),
        step_holds(events, seen, cards, order, steps, t, n),
    ensures
        step_holds(events, seen, cards, order, steps.push(step), t, n + 1),
{
    let more = steps.push(step);
    let here = steps[t];
    let event = events[here.event as int];
    assert(more[t] == here);
    lemma_since_prefix(events, cards, steps, step, here.card as int, event.reviewed_at);
    assert forall|u: int| 0 <= u < t implies events[(#[trigger] more[u]).event as int].event_id@
        != event.event_id@ by {
        assert(more[u] == steps[u]);
    }
    let k = choose|k: int|
        0 <= k < n && #[trigger] order[k] == here.event && first_of_id(events, cards, order, k)
            && forall|u: int| 0 <= u < t ==> comes_earlier(order, #[trigger] steps[u].event, k);
    assert forall|u: int| 0 <= u < t implies comes_earlier(order, #[trigger] more[u].event, k) by {
        assert(more[u] == steps[u]);
    }
    assert(order[k] == here.event);
}

proof fn lemma_import_holds(
    events: Seq<ReviewEvent>,
    seen: Seq<Seq<char>>,
    cards: Seq<KnownCard>,
    order: Seq<usize>,
    n: int,
)
    requires
        0 <= n <= order.len(),
        cards.len() <= usize::MAX,
    ensures
        import_holds(
            events,
            seen,
            cards,
            order,
            import_all(
                events,
                cards,
                order.take(n),
                Import { seen, last: last_reviews(cards), steps: Seq::empty() },
            ),
            n,
        ),
    decreases n,
{
    let start = Import { seen, last: last_reviews(cards), steps: Seq::empty() };
    if n == 0 {
        assert(order.take(0) == Seq::<usize>::empty());
    } else {
        assert(order.take(n).drop_last() == order.take(n - 1));
        assert(order.take(n).last() == order[n - 1]);
        lemma_import_holds(events, seen, cards, order, n - 1);
        let before = import_all(events, cards, order.take(n - 1), start);
        lemma_import_step(events, seen, cards, order, before, n - 1);
    }
}

/// Every step of an import is an event that can be imported, on its card. It is late exactly
/// when the card was last reviewed at the event's time or after it, before the import or by
/// an earlier step that was not late; nothing else that the event says has a part in it.
pub proof fn a_step_is_late_only_behind_a_review(
    events: Seq<ReviewEvent>,
    seen: Seq<Seq<char>>,
    cards: Seq<KnownCard>,
    t: int,
)
    requires
        events.len() <= usize::MAX,
        cards.len() <= usize::MAX,
        0 <= t < import_of(events, seen, cards).steps.len(),
    ensures
        ({
            let steps = import_of(events, seen, cards).steps;
            let step = steps[t];
            let event = events[step.event as int];
            &&& step.event < events.len()
            &&& step.card < cards.len()
            &&& cards[step.card as int].uid@ == event.card_uid@
            &&& is_importable(event, cards)
            &&& step.late <==> {
                ||| cards[step.card as int].last_review_at matches Some(last) && last
                    >= event.reviewed_at
                ||| exists|u: int|
                    0 <= u < t && (#[trigger] steps[u]).card == step.card && !steps[u].late
                        && events[steps[u].event as int].reviewed_at >= event.reviewed_at
            }
        }),
{
    let order = in_order(events, events.len() as int);
    lemma_import_holds(events, seen, cards, order, order.len() as int);
    assert(order.take(order.len() as int) == order);
    lemma_in_order_is_whole(events, events.len() as int);
    let steps = import_of(events, seen, cards).steps;
    assert(step_holds(events, seen, cards, order, steps, t, order.len() as int));
    let k = choose|k: int|
        0 <= k < order.len() && #[trigger] order[k] == steps[t].event && first_of_id(
            events,
            cards,
            order,
            k,
        );
    assert(order[k] < events.len());
}

/// An import takes every event once: each event that can be imported and was not imported
/// before has a step under its id, no two steps have the same id, and none has one that was
/// imported before.
pub proof fn every_event_is_imported_once(
    events: Seq<ReviewEvent>,
    seen: Seq<Seq<char>>,
    cards: Seq<KnownCard>,
)
    requires
        events.len() <= usize::MAX,
        cards.len() <= usize::MAX,
    ensures
        ({
            let steps = import_of(events, seen, cards).steps;
            &&& forall|i: int|
                0 <= i < events.len() && is_importable(#[trigger] events[i], cards)
                    && !seen.contains(events[i].event_id@) ==> exists|t: int|
                    0 <= t < steps.len() && events[(#[trigger] steps[t]).event as int].event_id@
                        == events[i].event_id@
            &&& forall|t: int, u: int|
                0 <= u < t < steps.len() ==> events[(#[trigger] steps[u]).event as int].event_id@
                    != events[(#[trigger] steps[t]).event as int].event_id@
            &&& forall|t: int|
                0 <= t < steps.len() ==> !seen.contains(
                    events[(#[trigger] steps[t]).event as int].event_id@,
                )
        }),
{
    let order = in_order(events, events.len() as int);
    let end = order.len() as int;
    lemma_import_holds(events, seen, cards, order, end);
    assert(order.take(end) == order);
    lemma_in_order_is_whole(events, events.len() as int);
    let state = import_of(events, seen, cards);
    let steps = state.steps;
    assert forall|i: int|
        0 <= i < events.len() && is_importable(#[trigger] events[i], cards) && !seen.contains(
            events[i].event_id@,
        ) implies exists|t: int|
        0 <= t < steps.len() && events[(#[trigger] steps[t]).event as int].event_id@
            == events[i].event_id@ by {
        assert(order.contains(i as usize));
        let k = choose|k: int| 0 <= k < order.len() && order[k] == i as usize;
        assert(is_importable(events[order[k] as int], cards));
        assert(state.seen.contains(events[i].event_id@));
        assert(stepped(events, steps, events[i].event_id@));
    }
    assert forall|t: int, u: int| 0 <= u < t < steps.len() implies events[(
    #[trigger] steps[u]).event as int].event_id@ != events[(
    #[trigger] steps[t]).event as int].event_id@ by {
        assert(step_holds(events, seen, cards, order, steps, t, end));
    }
    assert forall|t: int| 0 <= t < steps.len() implies !seen.contains(
        events[(#[trigger] steps[t]).event as int].event_id@,
    ) by {
        assert(step_holds(events, seen, cards, order, steps, t, end));
    }
}

/// The steps of an import come in the order in which the reviews happened, and by id where
/// two happened at once. Of several events with the same id the earliest is taken.
pub proof fn steps_follow_the_clock(
    events: Seq<ReviewEvent>,
    seen: Seq<Seq<char>>,
    cards: Seq<KnownCard>,
)
    requires
        events.len() <= usize::MAX,
        cards.len() <= usize::MAX,
    ensures
        ({
            let steps = import_of(events, seen, cards).steps;
            &&& forall|u: int, t: int|
                0 <= u < t < steps.len() ==> {
                    let first = events[(#[trigger] steps[u]).event as int];
                    let later = events[(#[trigger] steps[t]).event as int];
                    first.reviewed_at < later.reviewed_at || first.reviewed_at == later.reviewed_at
                        && !text_before(later.event_id@, first.event_id@)
                }
            &&& forall|t: int, i: int|
                0 <= t < steps.len() && 0 <= i < events.len() && is_importable(
                    #[trigger] events[i],
                    cards,
                ) && events[i].event_id@ == events[(#[trigger] steps[t]).event as int].event_id@
                    ==> events[steps[t].event as int].reviewed_at <= events[i].reviewed_at
        }),
{
    let order = in_order(events, events.len() as int);
    let end = order.len() as int;
    lemma_import_holds(events, seen, cards, order, end);
    assert(order.take(end) == order);
    lemma_in_order_is_whole(events, events.len() as int);
    events_are_imported_in_order(events, events.len() as int);
    let steps = import_of(events, seen, cards).steps;
    assert forall|u: int, t: int| 0 <= u < t < steps.len() implies {
        let first = events[(#[trigger] steps[u]).event as int];
        let later = events[(#[trigger] steps[t]).event as int];
        first.reviewed_at < later.reviewed_at || first.reviewed_at == later.reviewed_at
            && !text_before(later.event_id@, first.event_id@)
    } by {
        assert(step_holds(events, seen, cards, order, steps, t, end));
        let k = choose|k: int|
            0 <= k < end && #[trigger] order[k] == steps[t].event && first_of_id(
                events,
                cards,
                order,
                k,
            ) && forall|w: int| 0 <= w < t ==> comes_earlier(order, #[trigger] steps[w].event, k);
        assert(comes_earlier(order, steps[u].event, k));
        let j = choose|j: int| 0 <= j < k && #[trigger] order[j] == steps[u].event;
        assert(!event_before(events[order[k] as int], events[order[j] as int]));
    }
    assert forall|t: int, i: int|
        0 <= t < steps.len() && 0 <= i < events.len() && is_importable(#[trigger] events[i], cards)
            && events[i].event_id@ == events[(
        #[trigger] steps[t]).event as int].event_id@ implies events[steps[t].event as int].reviewed_at
        <= events[i].reviewed_at by {
        assert(step_holds(events, seen, cards, order, steps, t, end));
        let k = choose|k: int|
            0 <= k < end && #[trigger] order[k] == steps[t].event && first_of_id(
                events,
                cards,
                order,
                k,
            );
        assert(order.contains(i as usize));
        let j = choose|j: int| 0 <= j < order.len() && order[j] == i as usize;
        if j < k {
            assert(is_importable(events[order[j] as int], cards));
        } else if k < j {
            assert(!event_before(events[order[j] as int], events[order[k] as int]));
        }
    }
}

/// Cards in the order in which they are due stand by the time at which they are due, and by
/// their age where that is the same.
pub proof fn due_order_is_by_time_and_age(rows: Seq<QueueRow>, i: int, j: int)
    requires
        in_due_order(rows),
        0 <= i < j < rows.len(),
    ensures
        rows[i].due_at < rows[j].due_at || rows[i].due_at == rows[j].due_at && rows[i].id
            <= rows[j].id,
{
}

proof fn lemma_filled(all: Seq<Seq<char>>, line: Seq<char>)
    ensures
        filled(all.push(line)) == if says_something(line) {
            filled(all).push(line)
        } else {
            filled(all)
        },
{
    lemma_says_something(line);
    assert(all.push(line).drop_last() == all);
}

/// A mailbox holds an event on every line that says something, in the order of the lines.
pub proof fn every_line_of_a_mailbox_counts(before: Seq<Seq<char>>, line: Seq<char>)
    ensures
        filled(Seq::empty()).len() == 0,
        says_something(line) ==> filled(before.push(line)) == filled(before).push(line),
        !says_something(line) ==> filled(before.push(line)) == filled(before),
{
    lemma_filled(before, line);
}

} // verus!
