//! Turning what the user typed into something FTS5 will accept.
//!
//! `MATCH` takes an expression language, not text. The rule here is total: nothing
//! the user types is ever read as syntax. Every term is emitted as a quoted phrase,
//! and the only structure is what this module adds.

use vstd::prelude::*;
use vstd::string::*;

use crate::text::{
    all_ascii, char_is_alphanumeric, from_chars, join, join_texts, lemma_trim_padded,
    lemma_trim_upper, lowercase_of, lowered, punctuation, slices, split_words, text_eq, texts,
    to_chars, trim_by, trim_punctuation, uppered, words,
};

verus! {

/// Longest query an expression is built from, in terms.
pub const MAX_TERMS: usize = 32;

/// Words that carry no signal in a corpus of personal notes.
pub open spec fn stop_list(w: Seq<char>) -> bool {
    ||| w == "a"@ || w == "about"@ || w == "an"@ || w == "and"@ || w == "any"@ || w == "are"@
    ||| w == "as"@ || w == "at"@ || w == "be"@ || w == "been"@ || w == "but"@ || w == "by"@
    ||| w == "can"@ || w == "could"@ || w == "did"@ || w == "do"@ || w == "does"@ || w == "for"@
    ||| w == "from"@ || w == "get"@ || w == "got"@ || w == "had"@ || w == "has"@ || w == "have"@
    ||| w == "here"@ || w == "how"@ || w == "i"@ || w == "if"@ || w == "in"@ || w == "into"@
    ||| w == "is"@ || w == "it"@ || w == "its"@ || w == "just"@ || w == "me"@ || w == "my"@
    ||| w == "not"@ || w == "of"@ || w == "on"@ || w == "or"@ || w == "over"@ || w == "should"@
    ||| w == "so"@ || w == "some"@ || w == "than"@ || w == "that"@ || w == "the"@ || w == "their"@
    ||| w == "them"@ || w == "then"@ || w == "there"@ || w == "these"@ || w == "they"@
    ||| w == "this"@ || w == "to"@ || w == "under"@ || w == "use"@ || w == "using"@ || w == "was"@
    ||| w == "were"@ || w == "what"@ || w == "when"@ || w == "where"@ || w == "which"@
    ||| w == "while"@ || w == "why"@ || w == "will"@ || w == "with"@ || w == "without"@
    ||| w == "would"@ || w == "you"@ || w == "your"@
}

/// Whether a word is noise: its lowercase form, without the punctuation around it,
/// is on the list.
pub open spec fn stopword(word: Seq<char>) -> bool {
    stop_list(lowercase_of(trim_by(word, punctuation())))
}

/// Is this word noise?
///
/// Compares a form without the punctuation around it, so that `for?` is the word
/// `for`.
pub fn is_stopword(word: &str) -> (r: bool)
    ensures
        r == stopword(word@),
{
    let whole = to_chars(word);
    let bare = from_chars(trim_punctuation(&whole));
    let w = bare.to_lowercase();
    let w = w.as_str();
    text_eq(w, "a") || text_eq(w, "about") || text_eq(w, "an") || text_eq(w, "and")
        || text_eq(w, "any") || text_eq(w, "are") || text_eq(w, "as") || text_eq(w, "at")
        || text_eq(w, "be") || text_eq(w, "been") || text_eq(w, "but") || text_eq(w, "by")
        || text_eq(w, "can") || text_eq(w, "could") || text_eq(w, "did") || text_eq(w, "do")
        || text_eq(w, "does") || text_eq(w, "for") || text_eq(w, "from") || text_eq(w, "get")
        || text_eq(w, "got") || text_eq(w, "had") || text_eq(w, "has") || text_eq(w, "have")
        || text_eq(w, "here") || text_eq(w, "how") || text_eq(w, "i") || text_eq(w, "if")
        || text_eq(w, "in") || text_eq(w, "into") || text_eq(w, "is") || text_eq(w, "it")
        || text_eq(w, "its") || text_eq(w, "just") || text_eq(w, "me") || text_eq(w, "my")
        || text_eq(w, "not") || text_eq(w, "of") || text_eq(w, "on") || text_eq(w, "or")
        || text_eq(w, "over") || text_eq(w, "should") || text_eq(w, "so") || text_eq(w, "some")
        || text_eq(w, "than") || text_eq(w, "that") || text_eq(w, "the") || text_eq(w, "their")
        || text_eq(w, "them") || text_eq(w, "then") || text_eq(w, "there") || text_eq(w, "these")
        || text_eq(w, "they") || text_eq(w, "this") || text_eq(w, "to") || text_eq(w, "under")
        || text_eq(w, "use") || text_eq(w, "using") || text_eq(w, "was") || text_eq(w, "were")
        || text_eq(w, "what") || text_eq(w, "when") || text_eq(w, "where") || text_eq(w, "which")
        || text_eq(w, "while") || text_eq(w, "why") || text_eq(w, "will") || text_eq(w, "with")
        || text_eq(w, "without") || text_eq(w, "would") || text_eq(w, "you")
        || text_eq(w, "your")
}

/// Punctuation around a word does not make it another word, nor does the case of its ASCII
/// letters.
pub proof fn stopwords_ignore_punctuation_and_case(
    front: Seq<char>,
    word: Seq<char>,
    back: Seq<char>,
)
    requires
        forall|i: int| 0 <= i < front.len() ==> !char_is_alphanumeric(#[trigger] front[i]),
        forall|i: int| 0 <= i < back.len() ==> !char_is_alphanumeric(#[trigger] back[i]),
    ensures
        stopword(front + word + back) == stopword(word),
        all_ascii(word) ==> stopword(uppered(word)) == stopword(word),
        all_ascii(word) ==> stopword(word) == stop_list(lowered(trim_by(word, punctuation()))),
{
    lemma_trim_padded(front, word, back, punctuation());
    if all_ascii(word) {
        lemma_trim_upper(word);
        let bare = trim_by(word, punctuation());
        assert(lowered(uppered(bare)) == lowered(bare));
    }
}

/// How the terms of a query combine.
#[derive(Debug, Clone, Copy, PartialEq, Eq, Structural)]
pub enum Mode {
    /// Every term must match: for a filter that narrows a visible list.
    All,
    /// Any term may match, with stopwords dropped first: for a question.
    Any,
}

impl Default for Mode {
    fn default() -> (r: Self)
        ensures
            r == Mode::All,
    {
        Mode::All
    }
}

/// `word` with every double quote doubled, which is how FTS5 escapes one.
pub open spec fn doubled(word: Seq<char>) -> Seq<char>
    decreases word.len(),
{
    if word.len() == 0 {
        word
    } else if word.last() == '"' {
        doubled(word.drop_last()) + seq!['"', '"']
    } else {
        doubled(word.drop_last()).push(word.last())
    }
}

/// Whether the tokenizer keeps anything of the text.
pub open spec fn searchable(text: Seq<char>) -> bool {
    exists|i: int| 0 <= i < text.len() && char_is_alphanumeric(#[trigger] text[i])
}

/// A word made safe to stand inside quotes, or `None` when nothing of it can be
/// searched for.
pub open spec fn sanitised(word: Seq<char>) -> Option<Seq<char>> {
    if searchable(doubled(word)) {
        Some(doubled(word))
    } else {
        None
    }
}

/// The words that can be searched for, made safe.
pub open spec fn sanitised_words(parts: Seq<Seq<char>>) -> Seq<Seq<char>>
    decreases parts.len(),
{
    if parts.len() == 0 {
        Seq::empty()
    } else {
        let before = sanitised_words(parts.drop_last());
        match sanitised(parts.last()) {
            Some(term) => before.push(term),
            None => before,
        }
    }
}

/// The terms of a query: its first searchable words.
pub open spec fn terms(query: Seq<char>) -> Seq<Seq<char>> {
    let all = sanitised_words(words(query));
    if all.len() > MAX_TERMS {
        all.take(MAX_TERMS as int)
    } else {
        all
    }
}

/// The terms that are not noise.
pub open spec fn without_stopwords(parts: Seq<Seq<char>>) -> Seq<Seq<char>>
    decreases parts.len(),
{
    if parts.len() == 0 {
        Seq::empty()
    } else {
        let before = without_stopwords(parts.drop_last());
        if stopword(parts.last()) {
            before
        } else {
            before.push(parts.last())
        }
    }
}

/// The terms that an expression is built from. A query of nothing but stopwords
/// keeps them.
pub open spec fn chosen_terms(query: Seq<char>, mode: Mode) -> Seq<Seq<char>> {
    let all = terms(query);
    let kept = without_stopwords(all);
    if mode == Mode::Any && kept.len() > 0 {
        kept
    } else {
        all
    }
}

/// A term as a phrase.
pub open spec fn phrase(term: Seq<char>) -> Seq<char> {
    seq!['"'] + term + seq!['"']
}

pub open spec fn phrases(parts: Seq<Seq<char>>) -> Seq<Seq<char>> {
    Seq::new(parts.len(), |i: int| phrase(parts[i]))
}

/// What stands between two terms.
pub open spec fn joiner(mode: Mode) -> Seq<char> {
    match mode {
        Mode::All => " AND "@,
        Mode::Any => " OR "@,
    }
}

/// The expression for a query. The star behind the last phrase makes it a prefix.
pub open spec fn expression_of(query: Seq<char>, mode: Mode) -> Option<Seq<char>> {
    let chosen = chosen_terms(query, mode);
    if chosen.len() == 0 {
        None
    } else {
        Some(join(phrases(chosen), joiner(mode)) + seq!['*'])
    }
}

/// Reduces one word to something safe to put inside quotes.
pub fn sanitise(word: &[char]) -> (r: Option<String>)
    ensures
        crate::text::opt_view(r) == sanitised(word@),
{
    let mut escaped: Vec<char> = Vec::new();
    let mut i: usize = 0;
    assert(word@.take(0) == Seq::<char>::empty());
    while i < word.len()
        invariant
            0 <= i <= word.len(),
            escaped@ == doubled(word@.take(i as int)),
        decreases word.len() - i,
    {
        let c = word[i];
        let ghost before = escaped@;
        assert(word@.take(i + 1).drop_last() == word@.take(i as int));
        assert(word@.take(i + 1).last() == c);
        if c == '"' {
            escaped.push('"');
        }
        escaped.push(c);
        assert(c == '"' ==> escaped@ == before + seq!['"', '"']);
        i += 1;
    }
    assert(word@.take(word.len() as int) == word@);
    let mut k: usize = 0;
    while k < escaped.len()
        invariant
            0 <= k <= escaped.len(),
            escaped@ == doubled(word@),
            forall|j: int| 0 <= j < k ==> !char_is_alphanumeric(#[trigger] escaped@[j]),
        decreases escaped.len() - k,
    {
        if escaped[k].is_alphanumeric() {
            assert(searchable(escaped@));
            return Some(from_chars(&escaped));
        }
        k += 1;
    }
    None
}

/// Builds an FTS5 `MATCH` expression, or `None` if there is nothing to search for.
///
/// The last term gets a `*`, so that search as you type matches a word that is
/// being typed.
pub fn expression(query: &str) -> (r: Option<String>)
    ensures
        crate::text::opt_view(r) == expression_of(query@, Mode::All),
{
    expression_with(query, Mode::All)
}

/// [`expression`], choosing how the terms combine.
pub fn expression_with(query: &str, mode: Mode) -> (r: Option<String>)
    ensures
        crate::text::opt_view(r) == expression_of(query@, mode),
{
    let whole = to_chars(query);
    let parts = split_words(&whole);
    let all = query_terms(&parts);
    assert(texts(all@) == terms(query@));
    let mut kept: Vec<String> = Vec::new();
    let mut i: usize = 0;
    assert(texts(all@).take(0) == Seq::<Seq<char>>::empty());
    assert(texts(kept@) == Seq::<Seq<char>>::empty());
    while i < all.len()
        invariant
            0 <= i <= all.len(),
            texts(kept@) == without_stopwords(texts(all@).take(i as int)),
        decreases all.len() - i,
    {
        let ghost before = texts(kept@);
        assert(texts(all@).take(i + 1).drop_last() == texts(all@).take(i as int));
        assert(texts(all@).take(i + 1).last() == all@[i as int]@);
        if !is_stopword(all[i].as_str()) {
            kept.push(all[i].clone());
            assert(texts(kept@) == before.push(all@[i as int]@));
        }
        i += 1;
    }
    assert(texts(all@).take(all.len() as int) == texts(all@));
    let chosen = if mode == Mode::Any && kept.len() > 0 {
        kept
    } else {
        all
    };
    assert(texts(chosen@) == chosen_terms(query@, mode));
    if chosen.len() == 0 {
        return None;
    }
    let mut quoted: Vec<String> = Vec::new();
    let mut k: usize = 0;
    while k < chosen.len()
        invariant
            0 <= k <= chosen.len(),
            texts(quoted@) == phrases(texts(chosen@)).take(k as int),
        decreases chosen.len() - k,
    {
        let mut one = String::new();
        one.push('"');
        one.append(chosen[k].as_str());
        one.push('"');
        assert(one@ == phrase(chosen@[k as int]@));
        let ghost before = texts(quoted@);
        let ghost added = one@;
        quoted.push(one);
        assert(texts(quoted@) == before.push(added));
        assert(phrases(texts(chosen@))[k as int] == added);
        assert(texts(quoted@) == phrases(texts(chosen@)).take(k + 1));
        k += 1;
    }
    assert(texts(quoted@) == phrases(texts(chosen@)));
    let between = match mode {
        Mode::All => " AND ",
        Mode::Any => " OR ",
    };
    let mut r = join_texts(&quoted, between);
    r.push('*');
    assert(r@ == join(phrases(texts(chosen@)), joiner(mode)) + seq!['*']);
    Some(r)
}

/// The first searchable words, made safe.
fn query_terms(parts: &Vec<&[char]>) -> (r: Vec<String>)
    ensures
        texts(r@) == {
            let all = sanitised_words(slices(parts@));
            if all.len() > MAX_TERMS {
                all.take(MAX_TERMS as int)
            } else {
                all
            }
        },
{
    let mut r: Vec<String> = Vec::new();
    let mut i: usize = 0;
    let ghost views = slices(parts@);
    assert(views.take(0) == Seq::<Seq<char>>::empty());
    assert(texts(r@) == Seq::<Seq<char>>::empty());
    while i < parts.len() && r.len() < MAX_TERMS
        invariant
            0 <= i <= parts.len(),
            views == slices(parts@),
            r.len() <= MAX_TERMS,
            texts(r@) == sanitised_words(views.take(i as int)),
        decreases parts.len() - i,
    {
        let ghost before = texts(r@);
        assert(views.take(i + 1).drop_last() == views.take(i as int));
        assert(views.take(i + 1).last() == parts@[i as int]@);
        if let Some(term) = sanitise(parts[i]) {
            let ghost t = term@;
            r.push(term);
            assert(texts(r@) == before.push(t));
        }
        i += 1;
    }
    proof {
        lemma_sanitised_prefix(views, i as int);
        let all = sanitised_words(views);
        if i == parts.len() {
            assert(views.take(i as int) == views);
        }
        assert(texts(r@).len() == r.len());
        if r.len() == MAX_TERMS {
            assert(all.take(MAX_TERMS as int) == texts(r@));
            if all.len() == MAX_TERMS {
                assert(all.take(MAX_TERMS as int) == all);
            }
        }
    }
    r
}

/// The terms of the first words are the first terms.
proof fn lemma_sanitised_prefix(parts: Seq<Seq<char>>, k: int)
    requires
        0 <= k <= parts.len(),
    ensures
        sanitised_words(parts.take(k)).len() <= sanitised_words(parts).len(),
        sanitised_words(parts).take(sanitised_words(parts.take(k)).len() as int)
            == sanitised_words(parts.take(k)),
    decreases parts.len(),
{
    if k == parts.len() {
        assert(parts.take(k) == parts);
        let all = sanitised_words(parts);
        assert(all.take(all.len() as int) == all);
    } else {
        let rest = parts.drop_last();
        lemma_sanitised_prefix(rest, k);
        assert(rest.take(k) == parts.take(k));
        let n = sanitised_words(parts.take(k)).len() as int;
        assert(sanitised_words(parts).take(n) == sanitised_words(rest).take(n));
    }
}

// ---------------------------------------------------------------------------
// Laws
// ---------------------------------------------------------------------------

/// What of an expression stands outside its quoted phrases, where `inside` says
/// that a phrase is open at its start. A doubled quote closes a phrase and opens
/// it again.
pub open spec fn outside(s: Seq<char>, inside: bool) -> Seq<char>
    decreases s.len(),
{
    if s.len() == 0 {
        s
    } else if s[0] == '"' {
        outside(s.drop_first(), !inside)
    } else if inside {
        outside(s.drop_first(), inside)
    } else {
        seq![s[0]] + outside(s.drop_first(), inside)
    }
}

/// Whether a phrase is open at the end.
pub open spec fn open_at_end(s: Seq<char>, inside: bool) -> bool
    decreases s.len(),
{
    if s.len() == 0 {
        inside
    } else if s[0] == '"' {
        open_at_end(s.drop_first(), !inside)
    } else {
        open_at_end(s.drop_first(), inside)
    }
}

proof fn lemma_outside_concat(a: Seq<char>, b: Seq<char>, inside: bool)
    ensures
        outside(a + b, inside) == outside(a, inside) + outside(b, open_at_end(a, inside)),
        open_at_end(a + b, inside) == open_at_end(b, open_at_end(a, inside)),
    decreases a.len(),
{
    if a.len() == 0 {
        assert(a + b == b);
        assert(outside(a, inside) + outside(b, inside) == outside(b, inside));
    } else {
        let rest = a.drop_first();
        assert((a + b).drop_first() == rest + b);
        assert((a + b)[0] == a[0]);
        let next = if a[0] == '"' {
            !inside
        } else {
            inside
        };
        lemma_outside_concat(rest, b, next);
        if a[0] != '"' && !inside {
            assert(seq![a[0]] + (outside(rest, inside) + outside(b, open_at_end(rest, inside)))
                == (seq![a[0]] + outside(rest, inside)) + outside(b, open_at_end(rest, inside)));
        }
    }
}

/// Inside a phrase, an escaped word leaves nothing outside and the phrase open.
proof fn lemma_doubled_inside(word: Seq<char>)
    ensures
        outside(doubled(word), true) == Seq::<char>::empty(),
        open_at_end(doubled(word), true),
    decreases word.len(),
{
    if word.len() > 0 {
        let rest = word.drop_last();
        lemma_doubled_inside(rest);
        let tail = if word.last() == '"' {
            seq!['"', '"']
        } else {
            seq![word.last()]
        };
        assert(doubled(word) == doubled(rest) + tail);
        lemma_outside_concat(doubled(rest), tail, true);
        reveal_with_fuel(outside, 3);
        reveal_with_fuel(open_at_end, 3);
        assert(tail.drop_first().len() == tail.len() - 1);
        if word.last() == '"' {
            assert(tail.drop_first() == seq!['"']);
            assert(tail.drop_first().drop_first() == Seq::<char>::empty());
        } else {
            assert(tail.drop_first() == Seq::<char>::empty());
        }
        assert(outside(tail, true) == Seq::<char>::empty());
        assert(open_at_end(tail, true));
    }
}

/// A whole phrase leaves nothing outside, and is closed.
proof fn lemma_phrase_closed(word: Seq<char>)
    ensures
        outside(phrase(doubled(word)), false) == Seq::<char>::empty(),
        !open_at_end(phrase(doubled(word)), false),
{
    lemma_doubled_inside(word);
    let q = seq!['"'];
    assert(q.drop_first() == Seq::<char>::empty());
    reveal_with_fuel(outside, 2);
    reveal_with_fuel(open_at_end, 2);
    lemma_outside_concat(q + doubled(word), q, false);
    lemma_outside_concat(q, doubled(word), false);
    assert(outside(q, false) == Seq::<char>::empty());
    assert(open_at_end(q, false));
    assert(outside(q, true) == Seq::<char>::empty());
    assert(!open_at_end(q, true));
}

/// A text without quotes stands outside as it is.
proof fn lemma_outside_plain(s: Seq<char>)
    requires
        !s.contains('"'),
    ensures
        outside(s, false) == s,
        !open_at_end(s, false),
    decreases s.len(),
{
    if s.len() > 0 {
        assert(s.contains(s[0]));
        let rest = s.drop_first();
        assert forall|i: int| 0 <= i < rest.len() implies rest[i] != '"' by {
            assert(s.contains(s[i + 1]));
        }
        lemma_outside_plain(rest);
        assert(seq![s[0]] + rest == s);
    }
}

proof fn lemma_joiner_plain(mode: Mode)
    ensures
        !joiner(mode).contains('"'),
{
    reveal_strlit(" AND ");
    reveal_strlit(" OR ");
}

/// Whether the text is some word with its quotes doubled.
pub open spec fn is_escaped(t: Seq<char>) -> bool {
    exists|w: Seq<char>| t == doubled(w)
}

pub open spec fn escaped_terms(parts: Seq<Seq<char>>) -> bool {
    forall|i: int| 0 <= i < parts.len() ==> is_escaped(#[trigger] parts[i])
}

proof fn lemma_sanitised_escaped(parts: Seq<Seq<char>>)
    ensures
        escaped_terms(sanitised_words(parts)),
    decreases parts.len(),
{
    if parts.len() > 0 {
        lemma_sanitised_escaped(parts.drop_last());
    }
}

proof fn lemma_kept_escaped(parts: Seq<Seq<char>>)
    requires
        escaped_terms(parts),
    ensures
        escaped_terms(without_stopwords(parts)),
    decreases parts.len(),
{
    if parts.len() > 0 {
        let rest = parts.drop_last();
        assert forall|i: int| 0 <= i < rest.len() implies is_escaped(#[trigger] rest[i]) by {
            assert(rest[i] == parts[i]);
        }
        lemma_kept_escaped(rest);
        assert(parts.last() == parts[parts.len() - 1]);
    }
}

proof fn lemma_chosen_escaped(query: Seq<char>, mode: Mode)
    ensures
        escaped_terms(chosen_terms(query, mode)),
{
    lemma_sanitised_escaped(words(query));
    let all = sanitised_words(words(query));
    assert(escaped_terms(terms(query))) by {
        assert forall|i: int| 0 <= i < terms(query).len() implies is_escaped(#[trigger] terms(query)[i]) by {
            assert(terms(query)[i] == all[i]);
        }
    }
    lemma_kept_escaped(terms(query));
}

/// `n` joiners one after the other.
pub open spec fn joiners(n: nat, mode: Mode) -> Seq<char>
    decreases n,
{
    if n == 0 {
        Seq::empty()
    } else {
        joiners((n - 1) as nat, mode) + joiner(mode)
    }
}

proof fn lemma_joined_outside(parts: Seq<Seq<char>>, mode: Mode)
    requires
        escaped_terms(parts),
        parts.len() > 0,
    ensures
        outside(join(phrases(parts), joiner(mode)), false) == joiners(
            (parts.len() - 1) as nat,
            mode,
        ),
        !open_at_end(join(phrases(parts), joiner(mode)), false),
    decreases parts.len(),
{
    let last = parts.last();
    assert(last == parts[parts.len() - 1]);
    let w = choose|w: Seq<char>| last == doubled(w);
    lemma_phrase_closed(w);
    let all = phrases(parts);
    if parts.len() == 1 {
        assert(join(all, joiner(mode)) == phrase(last));
    } else {
        let rest = parts.drop_last();
        assert forall|i: int| 0 <= i < rest.len() implies is_escaped(#[trigger] rest[i]) by {
            assert(rest[i] == parts[i]);
        }
        lemma_joined_outside(rest, mode);
        assert(all.drop_last() == phrases(rest));
        assert(all.last() == phrase(last));
        let front = join(phrases(rest), joiner(mode));
        lemma_joiner_plain(mode);
        lemma_outside_plain(joiner(mode));
        lemma_outside_concat(front, joiner(mode), false);
        lemma_outside_concat(front + joiner(mode), phrase(last), false);
        let n = (parts.len() - 1) as nat;
        assert(joiners(n, mode) + Seq::<char>::empty() == joiners(n, mode));
    }
}

/// Nothing that the user types is read as syntax: outside the quoted phrases of an
/// expression stand the joiners and the star, and nothing else. Every phrase is
/// closed.
pub proof fn nothing_typed_is_syntax(query: Seq<char>, mode: Mode)
    ensures
        expression_of(query, mode) is Some ==> {
            let e = expression_of(query, mode)->0;
            let n = (chosen_terms(query, mode).len() - 1) as nat;
            &&& outside(e, false) == joiners(n, mode) + seq!['*']
            &&& !open_at_end(e, false)
        },
{
    let chosen = chosen_terms(query, mode);
    if chosen.len() > 0 {
        lemma_chosen_escaped(query, mode);
        lemma_joined_outside(chosen, mode);
        let front = join(phrases(chosen), joiner(mode));
        let star = seq!['*'];
        assert(!star.contains('"'));
        lemma_outside_plain(star);
        lemma_outside_concat(front, star, false);
    }
}

/// The number of double quotes in a text.
pub open spec fn quote_count(s: Seq<char>) -> nat
    decreases s.len(),
{
    if s.len() == 0 {
        0
    } else {
        quote_count(s.drop_first()) + (if s[0] == '"' {
            1nat
        } else {
            0nat
        })
    }
}

proof fn lemma_parity(s: Seq<char>, inside: bool)
    ensures
        open_at_end(s, inside) == (inside != (quote_count(s) % 2 == 1)),
    decreases s.len(),
{
    if s.len() > 0 {
        if s[0] == '"' {
            lemma_parity(s.drop_first(), !inside);
        } else {
            lemma_parity(s.drop_first(), inside);
        }
    }
}

/// Every expression has its quotes balanced.
pub proof fn quotes_are_balanced(query: Seq<char>, mode: Mode)
    ensures
        expression_of(query, mode) is Some ==> quote_count(expression_of(query, mode)->0) % 2 == 0,
{
    nothing_typed_is_syntax(query, mode);
    if expression_of(query, mode) is Some {
        lemma_parity(expression_of(query, mode)->0, false);
    }
}

/// Doubling quotes neither adds nor takes away anything to search for.
proof fn lemma_doubled_searchable(word: Seq<char>)
    ensures
        searchable(doubled(word)) == searchable(word),
    decreases word.len(),
{
    if word.len() > 0 {
        let rest = word.drop_last();
        lemma_doubled_searchable(rest);
        let d = doubled(word);
        let e = doubled(rest);
        if searchable(word) {
            let i = choose|i: int| 0 <= i < word.len() && char_is_alphanumeric(#[trigger] word[i]);
            if i < rest.len() {
                assert(char_is_alphanumeric(rest[i]));
                let j = choose|j: int| 0 <= j < e.len() && char_is_alphanumeric(#[trigger] e[j]);
                assert(d[j] == e[j]);
            } else {
                assert(d[d.len() - 1] == word.last());
            }
        }
        if searchable(d) {
            let j = choose|j: int| 0 <= j < d.len() && char_is_alphanumeric(#[trigger] d[j]);
            if j < e.len() {
                assert(d[j] == e[j]);
                let i = choose|i: int|
                    0 <= i < rest.len() && char_is_alphanumeric(#[trigger] rest[i]);
                assert(word[i] == rest[i]);
            } else {
                assert(d[j] == word.last());
                assert(char_is_alphanumeric(word[word.len() - 1]));
            }
        }
    }
}

proof fn lemma_sanitised_empty(parts: Seq<Seq<char>>)
    ensures
        sanitised_words(parts).len() == 0 <==> forall|i: int|
            0 <= i < parts.len() ==> !searchable(#[trigger] parts[i]),
    decreases parts.len(),
{
    if parts.len() > 0 {
        let rest = parts.drop_last();
        lemma_sanitised_empty(rest);
        lemma_doubled_searchable(parts.last());
        assert forall|i: int| 0 <= i < rest.len() implies rest[i] == parts[i] by {}
        assert(parts.last() == parts[parts.len() - 1]);
        if sanitised_words(parts).len() == 0 {
            assert forall|i: int| 0 <= i < parts.len() implies !searchable(#[trigger] parts[i]) by {
                if i < rest.len() {
                    assert(!searchable(rest[i]));
                }
            }
        }
        if forall|i: int| 0 <= i < parts.len() ==> !searchable(#[trigger] parts[i]) {
            assert forall|i: int| 0 <= i < rest.len() implies !searchable(#[trigger] rest[i]) by {
                assert(!searchable(parts[i]));
            }
            assert(!searchable(parts[parts.len() - 1]));
        }
    }
}

/// There is an expression exactly when some word of the query can be searched for,
/// in either mode.
pub proof fn none_means_nothing_to_search_for(query: Seq<char>, mode: Mode)
    ensures
        expression_of(query, mode) is Some <==> exists|i: int|
            0 <= i < words(query).len() && searchable(#[trigger] words(query)[i]),
{
    lemma_sanitised_empty(words(query));
}

/// An expression holds at most [`MAX_TERMS`] terms.
pub proof fn terms_are_bounded(query: Seq<char>, mode: Mode)
    ensures
        chosen_terms(query, mode).len() <= MAX_TERMS,
{
    lemma_kept_shorter(terms(query));
}

proof fn lemma_kept_shorter(parts: Seq<Seq<char>>)
    ensures
        without_stopwords(parts).len() <= parts.len(),
    decreases parts.len(),
{
    if parts.len() > 0 {
        lemma_kept_shorter(parts.drop_last());
    }
}

/// Every word of a query that can be searched for is a term, and no other word is.
pub proof fn every_searchable_word_is_a_term(parts: Seq<Seq<char>>, word: Seq<char>)
    ensures
        sanitised_words(Seq::empty()).len() == 0,
        (exists|i: int| 0 <= i < word.len() && char_is_alphanumeric(#[trigger] word[i]))
            ==> sanitised_words(parts.push(word)) == sanitised_words(parts).push(doubled(word)),
        (forall|i: int| 0 <= i < word.len() ==> !char_is_alphanumeric(#[trigger] word[i]))
            ==> sanitised_words(parts.push(word)) == sanitised_words(parts),
{
    assert(parts.push(word).drop_last() == parts);
    lemma_doubled_searchable(word);
}

/// A quotation mark in a word is doubled, and every other character stands as it is.
pub proof fn only_quotes_are_doubled(word: Seq<char>, c: char)
    ensures
        doubled(Seq::empty()).len() == 0,
        c == '"' ==> doubled(word.push(c)) == doubled(word).push(c).push(c),
        c != '"' ==> doubled(word.push(c)) == doubled(word).push(c),
{
    assert(word.push(c).drop_last() == word);
    assert(doubled(word) + seq!['"', '"'] == doubled(word).push('"').push('"'));
}

/// A query is searched for by its first thirty-two terms: by all of them, or by any one that
/// is no stopword, unless all are.
pub proof fn the_first_terms_are_searched_for(query: Seq<char>)
    ensures
        ({
            let all = sanitised_words(words(query));
            let first = if all.len() > 32 {
                all.take(32)
            } else {
                all
            };
            let told = first.filter(|t: Seq<char>| !stopword(t));
            &&& chosen_terms(query, Mode::All) == first
            &&& told.len() > 0 ==> chosen_terms(query, Mode::Any) == told
            &&& told.len() == 0 ==> chosen_terms(query, Mode::Any) == first
        }),
{
    lemma_without_stopwords(terms(query));
}

proof fn lemma_without_stopwords(parts: Seq<Seq<char>>)
    ensures
        without_stopwords(parts) == parts.filter(|t: Seq<char>| !stopword(t)),
    decreases parts.len(),
{
    reveal(Seq::filter);
    if parts.len() > 0 {
        lemma_without_stopwords(parts.drop_last());
    }
}

/// An expression is its terms, each between quotation marks, with `AND` or `OR` between them,
/// and the last may go on.
pub proof fn an_expression_joins_its_terms(query: Seq<char>, mode: Mode)
    ensures
        ({
            let chosen = chosen_terms(query, mode);
            let quoted = Seq::new(chosen.len(), |i: int| seq!['"'] + chosen[i] + seq!['"']);
            &&& chosen.len() == 0 ==> expression_of(query, mode) is None
            &&& chosen.len() > 0 && mode == Mode::All ==> expression_of(query, mode) == Some(
                join(quoted, " AND "@) + seq!['*'],
            )
            &&& chosen.len() > 0 && mode == Mode::Any ==> expression_of(query, mode) == Some(
                join(quoted, " OR "@) + seq!['*'],
            )
        }),
{
    let chosen = chosen_terms(query, mode);
    assert(phrases(chosen) =~= Seq::new(chosen.len(), |i: int| seq!['"'] + chosen[i] + seq!['"']));
}

} // verus!
