//! The command palette.
//!
//! The four tabs cover what the vault is for. What is done a few times a month is found
//! here, by typing part of its name.

use vstd::prelude::*;
use vstd::string::*;

use crate::app::Page;
use crate::text::{
    contains_text, lower_text, lowercase_of, lowered, occurs_at, position_from, position_of, to_chars, trim_text, trimmed,
};

verus! {

#[derive(Debug, Clone, Copy, PartialEq, Eq, Structural)]
pub enum Command {
    OpenClean,
    OpenOptions,
    OpenArchived,
    NewNote,
    NewDeck,
    SyncNow,
    Reindex,
    AuthenticateGithub,
    SetRepository,
    OpenVault,
    CreateVault,
    Quit,
}

impl Command {
    pub open spec fn spec_page(self) -> Option<Page> {
        match self {
            Command::OpenClean => Some(Page::Clean),
            Command::OpenOptions => Some(Page::Options),
            Command::OpenArchived => Some(Page::Archived),
            _ => None,
        }
    }

    /// The page that the command opens, where it opens one.
    pub fn page(self) -> (r: Option<Page>)
        ensures
            r == self.spec_page(),
    {
        match self {
            Command::OpenClean => Some(Page::Clean),
            Command::OpenOptions => Some(Page::Options),
            Command::OpenArchived => Some(Page::Archived),
            _ => None,
        }
    }
}

#[derive(Debug, Clone, Copy)]
pub struct Entry {
    pub command: Command,
    pub name: &'static str,
    /// What running the command does.
    pub detail: &'static str,
}

/// What an [`Entry`] says.
#[verifier::ext_equal]
pub struct EntryView {
    pub command: Command,
    pub name: Seq<char>,
    pub detail: Seq<char>,
}

impl View for Entry {
    type V = EntryView;

    open spec fn view(&self) -> EntryView {
        EntryView { command: self.command, name: self.name@, detail: self.detail@ }
    }
}

pub open spec fn entries_view(v: Seq<Entry>) -> Seq<EntryView> {
    Seq::new(v.len(), |i: int| v[i]@)
}

/// How many commands there are.
pub const ENTRY_COUNT: usize = 12;

pub open spec fn entry_view(command: Command, name: Seq<char>, detail: Seq<char>) -> EntryView {
    EntryView { command, name, detail }
}

/// The command at a place in the palette.
pub open spec fn entry_at(i: int) -> EntryView {
    if i == 0 {
        entry_view(
            Command::OpenClean,
            "Clean"@,
            "notes without topics, cards without decks, unused images"@,
        )
    } else if i == 1 {
        entry_view(
            Command::OpenOptions,
            "Options"@,
            "review scheduling, editor, and GitHub sync"@,
        )
    } else if i == 2 {
        entry_view(Command::OpenArchived, "Archived"@, "restore something you archived"@)
    } else if i == 3 {
        entry_view(
            Command::NewNote,
            "New note"@,
            "create a Markdown note and open it in your editor"@,
        )
    } else if i == 4 {
        entry_view(
            Command::NewDeck,
            "New deck"@,
            "group cards into a deck you can review on its own"@,
        )
    } else if i == 5 {
        entry_view(
            Command::SyncNow,
            "Sync now"@,
            "commit, fetch, integrate, and push the vault"@,
        )
    } else if i == 6 {
        entry_view(
            Command::Reindex,
            "Reindex vault"@,
            "re-read every Markdown file and rebuild the search index"@,
        )
    } else if i == 7 {
        entry_view(
            Command::AuthenticateGithub,
            "Authenticate with GitHub"@,
            "sign in through GitHub CLI and configure Git credentials"@,
        )
    } else if i == 8 {
        entry_view(
            Command::SetRepository,
            "Set repository URL"@,
            "choose the GitHub repository this vault syncs with"@,
        )
    } else if i == 9 {
        entry_view(
            Command::OpenVault,
            "Open another vault"@,
            "close this vault and open an existing one"@,
        )
    } else if i == 10 {
        entry_view(
            Command::CreateVault,
            "Create new vault"@,
            "make a directory, index it, and remember it as the default"@,
        )
    } else {
        entry_view(Command::Quit, "Quit"@, "leave yalive"@)
    }
}

/// The command at a place in the palette.
pub fn entry(i: usize) -> (r: Entry)
    ensures
        r@ == entry_at(i as int),
{
    let (command, name, detail) = if i == 0 {
        (
            Command::OpenClean,
            "Clean",
            "notes without topics, cards without decks, unused images",
        )
    } else if i == 1 {
        (Command::OpenOptions, "Options", "review scheduling, editor, and GitHub sync")
    } else if i == 2 {
        (Command::OpenArchived, "Archived", "restore something you archived")
    } else if i == 3 {
        (Command::NewNote, "New note", "create a Markdown note and open it in your editor")
    } else if i == 4 {
        (Command::NewDeck, "New deck", "group cards into a deck you can review on its own")
    } else if i == 5 {
        (Command::SyncNow, "Sync now", "commit, fetch, integrate, and push the vault")
    } else if i == 6 {
        (
            Command::Reindex,
            "Reindex vault",
            "re-read every Markdown file and rebuild the search index",
        )
    } else if i == 7 {
        (
            Command::AuthenticateGithub,
            "Authenticate with GitHub",
            "sign in through GitHub CLI and configure Git credentials",
        )
    } else if i == 8 {
        (
            Command::SetRepository,
            "Set repository URL",
            "choose the GitHub repository this vault syncs with",
        )
    } else if i == 9 {
        (Command::OpenVault, "Open another vault", "close this vault and open an existing one")
    } else if i == 10 {
        (
            Command::CreateVault,
            "Create new vault",
            "make a directory, index it, and remember it as the default",
        )
    } else {
        (Command::Quit, "Quit", "leave yalive")
    };
    Entry { command, name, detail }
}

/// Whether the characters of `needle` stand in `haystack` in order.
pub open spec fn subsequence(needle: Seq<char>, haystack: Seq<char>) -> bool
    decreases haystack.len(),
{
    if needle.len() == 0 {
        true
    } else if haystack.len() == 0 {
        false
    } else if needle[0] == haystack[0] {
        subsequence(needle.drop_first(), haystack.drop_first())
    } else {
        subsequence(needle, haystack.drop_first())
    }
}

/// Whether the characters of `needle` stand in `haystack` in order.
pub fn is_subsequence(needle: &[char], haystack: &[char]) -> (r: bool)
    ensures
        r == subsequence(needle@, haystack@),
{
    let mut i: usize = 0;
    let mut j: usize = 0;
    assert(needle@.skip(0) == needle@);
    assert(haystack@.skip(0) == haystack@);
    while i < needle.len() && j < haystack.len()
        invariant
            0 <= i <= needle.len(),
            0 <= j <= haystack.len(),
            subsequence(needle@, haystack@) == subsequence(
                needle@.skip(i as int),
                haystack@.skip(j as int),
            ),
        decreases haystack.len() - j,
    {
        assert(haystack@.skip(j as int).drop_first() == haystack@.skip(j + 1));
        if needle[i] == haystack[j] {
            assert(needle@.skip(i as int).drop_first() == needle@.skip(i + 1));
            i += 1;
        }
        j += 1;
    }
    i == needle.len()
}

/// How well a command fits: whether it only spells the query out, how far in it starts,
/// and its place in the palette. Less is better.
#[verifier::ext_equal]
#[derive(Debug, Clone, Copy, PartialEq, Eq, Structural)]
pub struct Score {
    pub scattered: bool,
    pub position: usize,
    pub index: usize,
}

/// Whether one score is better than another.
pub open spec fn better(a: Score, b: Score) -> bool {
    if a.scattered != b.scattered {
        b.scattered
    } else {
        a.position * 100 + a.index < b.position * 100 + b.index
    }
}

/// How well a command fits a query in lower case, or `None` if it does not.
pub open spec fn score_of(needle: Seq<char>, i: int) -> Option<Score> {
    let name = lowered(entry_at(i).name);
    match position_from(name, needle, 0) {
        Some(position) => Some(
            Score { scattered: false, position: position as usize, index: i as usize },
        ),
        None => if subsequence(needle, name) {
            Some(Score { scattered: true, position: 0, index: i as usize })
        } else {
            None
        },
    }
}

/// Scores from best to worst, with one at its place.
pub open spec fn insert_score(list: Seq<Score>, score: Score) -> Seq<Score>
    decreases list.len(),
{
    if list.len() > 0 && better(score, list.last()) {
        insert_score(list.drop_last(), score).push(list.last())
    } else {
        list.push(score)
    }
}

/// The scores of the first `count` commands, from best to worst.
pub open spec fn scores(needle: Seq<char>, count: int) -> Seq<Score>
    decreases count,
{
    if count <= 0 {
        Seq::empty()
    } else {
        match score_of(needle, count - 1) {
            Some(score) => insert_score(scores(needle, count - 1), score),
            None => scores(needle, count - 1),
        }
    }
}

/// The commands that fit a query in lower case, best first.
pub open spec fn fitting(needle: Seq<char>) -> Seq<EntryView> {
    if needle.len() == 0 {
        Seq::new(ENTRY_COUNT as nat, |i: int| entry_at(i))
    } else {
        let list = scores(needle, ENTRY_COUNT as int);
        Seq::new(list.len(), |k: int| entry_at(list[k].index as int))
    }
}

proof fn lemma_insert_score(list: Seq<Score>, score: Score, k: int)
    requires
        0 <= k <= list.len(),
        forall|j: int| k <= j < list.len() ==> better(score, #[trigger] list[j]),
        k > 0 ==> !better(score, list[k - 1]),
    ensures
        insert_score(list, score) == list.insert(k, score),
    decreases list.len(),
{
    if k < list.len() {
        assert(better(score, list[list.len() - 1]));
        lemma_insert_score(list.drop_last(), score, k);
        assert(list.drop_last().insert(k, score).push(list.last()) == list.insert(k, score));
    } else {
        assert(list.push(score) == list.insert(k, score));
    }
}

/// What every score in a list of scores of command names holds.
pub open spec fn small(score: Score) -> bool {
    score.position < 100 && score.index < ENTRY_COUNT
}

fn is_better(a: Score, b: Score) -> (r: bool)
    requires
        small(a),
        small(b),
    ensures
        r == better(a, b),
{
    if a.scattered != b.scattered {
        b.scattered
    } else {
        a.position * 100 + a.index < b.position * 100 + b.index
    }
}

fn add_score(list: &mut Vec<Score>, score: Score)
    requires
        small(score),
        forall|k: int| 0 <= k < old(list)@.len() ==> small(#[trigger] old(list)@[k]),
    ensures
        final(list)@ == insert_score(old(list)@, score),
        forall|k: int| 0 <= k < final(list)@.len() ==> small(#[trigger] final(list)@[k]),
{
    let ghost before = list@;
    let mut k: usize = list.len();
    while k > 0
        invariant_except_break
            0 <= k <= list.len(),
            before == list@,
            small(score),
            forall|j: int| 0 <= j < before.len() ==> small(#[trigger] before[j]),
            forall|j: int| k <= j < before.len() ==> better(score, #[trigger] before[j]),
        ensures
            0 <= k <= list.len(),
            forall|j: int| k <= j < before.len() ==> better(score, #[trigger] before[j]),
            k > 0 ==> !better(score, before[k - 1]),
        decreases k,
    {
        assert(small(before[k - 1]));
        if !is_better(score, list[k - 1]) {
            break;
        }
        k -= 1;
    }
    proof {
        lemma_insert_score(before, score, k as int);
    }
    list.insert(k, score);
    assert forall|j: int| 0 <= j < list@.len() implies small(#[trigger] list@[j]) by {
        if j < k {
            assert(list@[j] == before[j]);
        } else if j > k {
            assert(list@[j] == before[j - 1]);
        }
    }
}

proof fn lemma_name_lengths(i: int)
    ensures
        entry_at(i).name.len() < 100,
{
    reveal_strlit("Clean");
    reveal_strlit("Options");
    reveal_strlit("Archived");
    reveal_strlit("New note");
    reveal_strlit("New deck");
    reveal_strlit("Sync now");
    reveal_strlit("Reindex vault");
    reveal_strlit("Authenticate with GitHub");
    reveal_strlit("Set repository URL");
    reveal_strlit("Open another vault");
    reveal_strlit("Create new vault");
    reveal_strlit("Quit");
}

fn score(needle: &[char], i: usize) -> (r: Option<Score>)
    requires
        i < ENTRY_COUNT,
    ensures
        r == score_of(needle@, i as int),
        r matches Some(s) ==> small(s),
{
    let item = entry(i);
    let low = lower_text(item.name);
    let name = to_chars(low.as_str());
    proof {
        lemma_name_lengths(i as int);
    }
    match position_of(name.as_slice(), needle) {
        Some(position) => Some(Score { scattered: false, position, index: i }),
        None => if is_subsequence(needle, name.as_slice()) {
            Some(Score { scattered: true, position: 0, index: i })
        } else {
            None
        },
    }
}

/// The commands that fit a query in lower case and without white space around it, best
/// first. A name that holds the query in one run comes before one that only spells it
/// out, and the earlier the run starts the better.
pub fn matching_lower(needle: &str) -> (r: Vec<Entry>)
    ensures
        entries_view(r@) == fitting(needle@),
{
    let wanted = to_chars(needle);
    let mut r: Vec<Entry> = Vec::new();
    if wanted.len() == 0 {
        let mut i: usize = 0;
        while i < ENTRY_COUNT
            invariant
                0 <= i <= ENTRY_COUNT,
                r.len() == i,
                forall|k: int| 0 <= k < i ==> (#[trigger] r@[k])@ == entry_at(k),
            decreases ENTRY_COUNT - i,
        {
            r.push(entry(i));
            i += 1;
        }
        assert(entries_view(r@) == fitting(needle@));
        return r;
    }
    let mut list: Vec<Score> = Vec::new();
    let mut i: usize = 0;
    while i < ENTRY_COUNT
        invariant
            0 <= i <= ENTRY_COUNT,
            wanted@ == needle@,
            list@ == scores(needle@, i as int),
            forall|k: int| 0 <= k < list@.len() ==> small(#[trigger] list@[k]),
        decreases ENTRY_COUNT - i,
    {
        if let Some(found) = score(wanted.as_slice(), i) {
            add_score(&mut list, found);
        }
        i += 1;
    }
    let mut k: usize = 0;
    while k < list.len()
        invariant
            0 <= k <= list.len(),
            r.len() == k,
            forall|j: int| 0 <= j < k ==> (#[trigger] r@[j])@ == entry_at(list@[j].index as int),
        decreases list.len() - k,
    {
        r.push(entry(list[k].index));
        k += 1;
    }
    assert(entries_view(r@) == fitting(needle@));
    r
}

/// The commands that fit a query, best first.
pub fn matching(query: &str) -> (r: Vec<Entry>)
    ensures
        entries_view(r@) == fitting(lowercase_of(trimmed(query@))),
{
    let needle = trim_text(query).as_str().to_lowercase();
    matching_lower(needle.as_str())
}

// ---------------------------------------------------------------------------
// Laws
// ---------------------------------------------------------------------------

proof fn lemma_scores_sorted(list: Seq<Score>, score: Score)
    requires
        forall|a: int, b: int|
            0 <= a < b < list.len() ==> !better(#[trigger] list[b], #[trigger] list[a]),
    ensures
        forall|a: int, b: int|
            0 <= a < b < insert_score(list, score).len() ==> !better(
                #[trigger] insert_score(list, score)[b],
                #[trigger] insert_score(list, score)[a],
            ),
        forall|x: Score| #[trigger]
            insert_score(list, score).contains(x) ==> list.contains(x) || x == score,
    decreases list.len(),
{
    let all = insert_score(list, score);
    if list.len() > 0 && better(score, list.last()) {
        let rest = list.drop_last();
        lemma_scores_sorted(rest, score);
        let inner = insert_score(rest, score);
        assert forall|a: int, b: int| 0 <= a < b < all.len() implies !better(
            #[trigger] all[b],
            #[trigger] all[a],
        ) by {
            if b == inner.len() {
                assert(inner.contains(all[a]));
                if rest.contains(all[a]) {
                    let j = choose|j: int| 0 <= j < rest.len() && rest[j] == all[a];
                    assert(list[j] == all[a]);
                    assert(!better(list[list.len() - 1], list[j]));
                }
            } else {
                assert(all[b] == inner[b] && all[a] == inner[a]);
            }
        }
        assert forall|x: Score| #[trigger] all.contains(x) implies list.contains(x) || x
            == score by {
            let k = choose|k: int| 0 <= k < all.len() && all[k] == x;
            if k < inner.len() {
                assert(inner.contains(x));
                if rest.contains(x) {
                    let j = choose|j: int| 0 <= j < rest.len() && rest[j] == x;
                    assert(list[j] == x);
                }
            } else {
                assert(list[list.len() - 1] == x);
            }
        }
    } else {
        assert forall|a: int, b: int| 0 <= a < b < all.len() implies !better(
            #[trigger] all[b],
            #[trigger] all[a],
        ) by {
            if b == list.len() {
                if better(score, list[a]) {
                    assert(a < list.len() - 1 ==> !better(list[list.len() - 1], list[a]));
                }
            } else {
                assert(all[b] == list[b] && all[a] == list[a]);
            }
        }
        assert forall|x: Score| #[trigger] all.contains(x) implies list.contains(x) || x
            == score by {
            let k = choose|k: int| 0 <= k < all.len() && all[k] == x;
            if k < list.len() {
                assert(list[k] == x);
            }
        }
    }
}

/// Of two commands that fit, the one whose name holds the query in one run stands before
/// one that only spells it out: scores never get better down the list.
pub proof fn contiguous_matches_outrank_scattered_ones(needle: Seq<char>, count: int)
    ensures
        forall|a: int, b: int|
            0 <= a < b < scores(needle, count).len() ==> !better(
                #[trigger] scores(needle, count)[b],
                #[trigger] scores(needle, count)[a],
            ),
    decreases count,
{
    if count > 0 {
        contiguous_matches_outrank_scattered_ones(needle, count - 1);
        let before = scores(needle, count - 1);
        let all = scores(needle, count);
        match score_of(needle, count - 1) {
            Some(score) => {
                lemma_scores_sorted(before, score);
                assert(all == insert_score(before, score));
            },
            None => {
                assert(all == before);
            },
        }
        assert forall|a: int, b: int| 0 <= a < b < all.len() implies !better(
            #[trigger] all[b],
            #[trigger] all[a],
        ) by {
        }
    }
}

/// A query of nothing offers every command.
pub proof fn an_empty_query_offers_every_command()
    ensures
        fitting(Seq::empty()).len() == ENTRY_COUNT,
        forall|i: int| 0 <= i < ENTRY_COUNT ==> fitting(Seq::empty())[i] == entry_at(i),
{
}

/// Characters of a text by their places.
pub open spec fn picked(haystack: Seq<char>, places: Seq<int>) -> Seq<char> {
    Seq::new(places.len(), |i: int| haystack[places[i]])
}

/// Places of a text, from left to right.
pub open spec fn rising(places: Seq<int>, length: nat) -> bool {
    &&& forall|i: int| 0 <= i < places.len() ==> 0 <= #[trigger] places[i] < length
    &&& forall|i: int, j: int|
        0 <= i < j < places.len() ==> #[trigger] places[i] < #[trigger] places[j]
}

proof fn lemma_spelt(needle: Seq<char>, haystack: Seq<char>) -> (places: Seq<int>)
    requires
        subsequence(needle, haystack),
    ensures
        rising(places, haystack.len()),
        picked(haystack, places) == needle,
    decreases haystack.len(),
{
    if needle.len() == 0 {
        let none = Seq::<int>::empty();
        assert(picked(haystack, none) == needle);
        none
    } else {
        let tail = haystack.drop_first();
        let here = needle[0] == haystack[0];
        let less = if here {
            needle.drop_first()
        } else {
            needle
        };
        let before = lemma_spelt(less, tail);
        let moved = Seq::new(before.len(), |i: int| before[i] + 1);
        let places = if here {
            seq![0int] + moved
        } else {
            moved
        };
        assert forall|i: int| 0 <= i < places.len() implies haystack[places[i]] == needle[i] by {
            if here {
                if i > 0 {
                    assert(picked(tail, before)[i - 1] == less[i - 1]);
                }
            } else {
                assert(picked(tail, before)[i] == less[i]);
            }
        }
        assert(picked(tail, before).len() == less.len());
        assert(picked(haystack, places) == needle);
        places
    }
}

proof fn lemma_spelling(needle: Seq<char>, haystack: Seq<char>, places: Seq<int>)
    requires
        rising(places, haystack.len()),
        picked(haystack, places) == needle,
    ensures
        subsequence(needle, haystack),
    decreases haystack.len(),
{
    if needle.len() > 0 {
        assert(picked(haystack, places)[0] == needle[0]);
        assert(places.len() == needle.len());
        let tail = haystack.drop_first();
        let here = needle[0] == haystack[0];
        let less = if here {
            needle.drop_first()
        } else {
            needle
        };
        let kept = if here {
            places.drop_first()
        } else {
            places
        };
        let moved = Seq::new(kept.len(), |i: int| kept[i] - 1);
        assert forall|i: int| 0 <= i < moved.len() implies 0 <= #[trigger] moved[i]
            < tail.len() by {
            if here {
                assert(places[0] < places[i + 1]);
            } else if i > 0 {
                assert(places[0] < places[i]);
            }
        }
        assert forall|i: int| 0 <= i < moved.len() implies tail[moved[i]] == less[i] by {
            if here {
                assert(picked(haystack, places)[i + 1] == needle[i + 1]);
            } else {
                assert(picked(haystack, places)[i] == needle[i]);
            }
        }
        assert(picked(tail, moved) == less);
        lemma_spelling(less, tail, moved);
    }
}

/// A text spells a query out when the characters of the query stand in it from left to
/// right, whatever stands between them.
pub proof fn spelling_goes_from_left_to_right(needle: Seq<char>, haystack: Seq<char>)
    ensures
        subsequence(needle, haystack) <==> exists|places: Seq<int>| #[trigger]
            rising(places, haystack.len()) && picked(haystack, places) == needle,
{
    if subsequence(needle, haystack) {
        let places = lemma_spelt(needle, haystack);
        assert(rising(places, haystack.len()));
    }
    if exists|places: Seq<int>| #[trigger]
        rising(places, haystack.len()) && picked(haystack, places) == needle {
        let places = choose|places: Seq<int>| #[trigger]
            rising(places, haystack.len()) && picked(haystack, places) == needle;
        lemma_spelling(needle, haystack, places);
    }
}

proof fn lemma_run_spells(needle: Seq<char>, haystack: Seq<char>, at: int)
    requires
        occurs_at(haystack, needle, at),
    ensures
        subsequence(needle, haystack),
{
    let places = Seq::new(needle.len(), |i: int| at + i);
    assert forall|i: int| 0 <= i < needle.len() implies haystack[places[i]] == needle[i] by {
        assert(haystack.subrange(at, at + needle.len())[i] == needle[i]);
    }
    assert(picked(haystack, places) == needle);
    lemma_spelling(needle, haystack, places);
}

proof fn lemma_inserted(list: Seq<Score>, score: Score, x: Score)
    ensures
        insert_score(list, score).contains(x) <==> list.contains(x) || x == score,
        insert_score(list, score).len() == list.len() + 1,
    decreases list.len(),
{
    let all = insert_score(list, score);
    if list.len() > 0 && better(score, list.last()) {
        let rest = list.drop_last();
        let less = insert_score(rest, score);
        lemma_inserted(rest, score, x);
        if all.contains(x) {
            let k = choose|k: int| 0 <= k < all.len() && all[k] == x;
            if k < less.len() {
                assert(less[k] == x);
                if rest.contains(x) {
                    let j = choose|j: int| 0 <= j < rest.len() && rest[j] == x;
                    assert(list[j] == x);
                }
            } else {
                assert(list[list.len() - 1] == x);
            }
        }
        if list.contains(x) || x == score {
            if x == score {
                let k = choose|k: int| 0 <= k < less.len() && less[k] == x;
                assert(all[k] == x);
            } else {
                let j = choose|j: int| 0 <= j < list.len() && list[j] == x;
                if j < rest.len() {
                    assert(rest[j] == x);
                    let k = choose|k: int| 0 <= k < less.len() && less[k] == x;
                    assert(all[k] == x);
                } else {
                    assert(all[less.len() as int] == x);
                }
            }
        }
    } else {
        if all.contains(x) {
            let k = choose|k: int| 0 <= k < all.len() && all[k] == x;
            if k < list.len() {
                assert(list[k] == x);
            }
        }
        if list.contains(x) {
            let j = choose|j: int| 0 <= j < list.len() && list[j] == x;
            assert(all[j] == x);
        }
        assert(all[list.len() as int] == score);
    }
}

proof fn lemma_scored(needle: Seq<char>, count: int, x: Score)
    requires
        0 <= count <= ENTRY_COUNT,
    ensures
        scores(needle, count).contains(x) <==> x.index < count && score_of(needle, x.index as int)
            == Some(x),
    decreases count,
{
    if count > 0 {
        lemma_scored(needle, count - 1, x);
        match score_of(needle, count - 1) {
            Some(score) => {
                lemma_inserted(scores(needle, count - 1), score, x);
            },
            None => {},
        }
    }
}

/// A query offers the commands whose names spell it out and no others; a name that holds it
/// in one run spells it out too.
pub proof fn every_command_that_fits_is_offered(needle: Seq<char>, i: int)
    requires
        0 <= i < ENTRY_COUNT,
    ensures
        (exists|k: int|
            0 <= k < scores(needle, ENTRY_COUNT as int).len() && (#[trigger] scores(
                needle,
                ENTRY_COUNT as int,
            )[k]).index == i) <==> subsequence(needle, lowered(entry_at(i).name)),
{
    let list = scores(needle, ENTRY_COUNT as int);
    let name = lowered(entry_at(i).name);
    if position_from(name, needle, 0) is Some {
        lemma_position_occurs(name, needle, 0);
        lemma_run_spells(needle, name, position_from(name, needle, 0)->0);
    }
    if subsequence(needle, name) {
        let x = score_of(needle, i)->0;
        lemma_scored(needle, ENTRY_COUNT as int, x);
        let k = choose|k: int| 0 <= k < list.len() && list[k] == x;
        assert(list[k].index == i);
    }
    if exists|k: int| 0 <= k < list.len() && (#[trigger] list[k]).index == i {
        let k = choose|k: int| 0 <= k < list.len() && (#[trigger] list[k]).index == i;
        assert(list.contains(list[k]));
        lemma_scored(needle, ENTRY_COUNT as int, list[k]);
    }
}

proof fn lemma_position_occurs(s: Seq<char>, p: Seq<char>, from: int)
    requires
        position_from(s, p, from) is Some,
    ensures
        occurs_at(s, p, position_from(s, p, from)->0),
    decreases s.len() - from,
{
    if !occurs_at(s, p, from) {
        lemma_position_occurs(s, p, from + 1);
    }
}

/// Commands whose names hold the query in one run come first, and of them those that hold it
/// further to the left.
pub proof fn commands_come_best_first(needle: Seq<char>, a: int, b: int)
    requires
        0 <= a < b < scores(needle, ENTRY_COUNT as int).len(),
        needle.len() > 0,
    ensures
        ({
            let x = scores(needle, ENTRY_COUNT as int)[a];
            let y = scores(needle, ENTRY_COUNT as int)[b];
            &&& x.scattered ==> y.scattered
            &&& !x.scattered && !y.scattered ==> x.position <= y.position
            &&& x.scattered ==> !contains_text(lowered(entry_at(x.index as int).name), needle)
            &&& !x.scattered ==> contains_text(lowered(entry_at(x.index as int).name), needle)
            &&& x.scattered == y.scattered && x.position == y.position ==> x.index <= y.index
        }),
{
    let list = scores(needle, ENTRY_COUNT as int);
    contiguous_matches_outrank_scattered_ones(needle, ENTRY_COUNT as int);
    assert(!better(list[b], list[a]));
    assert(list.contains(list[a]));
    assert(list.contains(list[b]));
    lemma_scored(needle, ENTRY_COUNT as int, list[a]);
    lemma_scored(needle, ENTRY_COUNT as int, list[b]);
    let name = lowered(entry_at(list[a].index as int).name);
    match position_from(name, needle, 0) {
        Some(at) => {
            lemma_position_occurs(name, needle, 0);
        },
        None => {
            if contains_text(name, needle) {
                let at = choose|at: int| occurs_at(name, needle, at);
                lemma_position_missed(name, needle, 0, at);
            }
        },
    }
}

proof fn lemma_position_missed(s: Seq<char>, p: Seq<char>, from: int, at: int)
    requires
        p.len() > 0,
        0 <= from <= at,
        occurs_at(s, p, at),
    ensures
        position_from(s, p, from) is Some,
    decreases s.len() - from,
{
    if !occurs_at(s, p, from) {
        lemma_position_missed(s, p, from + 1, at);
    }
}

} // verus!
