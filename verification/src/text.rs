//! Text as a sequence of characters.
//!
//! Everything here is stated over `Seq<char>`, the view of `str` and `String`.
//! The functions work on slices of characters, which can be cut without copying;
//! [`to_chars`] and [`from_chars`] go between the two.

use vstd::prelude::*;
use vstd::slice::slice_subrange;
use vstd::string::*;

verus! {

/// What `char::is_whitespace` answers outside ASCII.
pub uninterp spec fn unicode_whitespace(c: char) -> bool;

/// What `char::is_alphanumeric` answers outside ASCII.
pub uninterp spec fn unicode_alphanumeric(c: char) -> bool;

/// Whether a character is white space: in ASCII the space and the characters from
/// tab to carriage return.
pub open spec fn char_is_whitespace(c: char) -> bool {
    if c <= '\u{7f}' {
        c == ' ' || '\u{9}' <= c <= '\u{d}'
    } else {
        unicode_whitespace(c)
    }
}

/// Whether a character is a letter or a number.
pub open spec fn char_is_alphanumeric(c: char) -> bool {
    if c <= '\u{7f}' {
        is_ascii_alnum(c)
    } else {
        unicode_alphanumeric(c)
    }
}

/// What `str::to_lowercase` returns for a text that is not all ASCII.
pub uninterp spec fn unicode_lowercase(s: Seq<char>) -> Seq<char>;

/// What `str::to_uppercase` returns for a text that is not all ASCII.
pub uninterp spec fn unicode_uppercase(s: Seq<char>) -> Seq<char>;

/// Whether every character is ASCII.
pub open spec fn all_ascii(s: Seq<char>) -> bool {
    forall|i: int| 0 <= i < s.len() ==> (#[trigger] s[i]) <= '\u{7f}'
}

/// A text in lower case.
pub open spec fn lowercase_of(s: Seq<char>) -> Seq<char> {
    if all_ascii(s) {
        lowered(s)
    } else {
        unicode_lowercase(s)
    }
}

/// A text in upper case.
pub open spec fn uppercase_of(s: Seq<char>) -> Seq<char> {
    if all_ascii(s) {
        uppered(s)
    } else {
        unicode_uppercase(s)
    }
}

/// `char::is_whitespace`: Unicode's `White_Space` property, a fixed function of the
/// character. In ASCII that is the space and U+0009 to U+000D.
pub assume_specification[ char::is_whitespace ](c: char) -> (r: bool)
    ensures
        c <= '\u{7f}' ==> r == (c == ' ' || '\u{9}' <= c <= '\u{d}'),
        c > '\u{7f}' ==> r == unicode_whitespace(c),
;

/// `char::is_alphanumeric`: Unicode's `Alphabetic` property or a numeric category, a
/// fixed function of the character. In ASCII those are the letters and the digits.
pub assume_specification[ char::is_alphanumeric ](c: char) -> (r: bool)
    ensures
        c <= '\u{7f}' ==> r == is_ascii_alnum(c),
        c > '\u{7f}' ==> r == unicode_alphanumeric(c),
;

/// `str::to_lowercase`: the lowercase equivalent by Unicode's tables, a fixed
/// function of the characters. In ASCII those are the letters from `A` to `Z`.
pub assume_specification[ str::to_lowercase ](s: &str) -> (r: String)
    ensures
        all_ascii(s@) ==> r@ == lowered(s@),
        !all_ascii(s@) ==> r@ == unicode_lowercase(s@),
;

/// `str::to_uppercase`: the uppercase equivalent by Unicode's tables, a fixed
/// function of the characters. In ASCII those are the letters from `a` to `z`.
pub assume_specification[ str::to_uppercase ](s: &str) -> (r: String)
    ensures
        all_ascii(s@) ==> r@ == uppered(s@),
        !all_ascii(s@) ==> r@ == unicode_uppercase(s@),
;

/// `String::push` appends one character.
pub assume_specification[ String::push ](s: &mut String, c: char)
    ensures
        final(s)@ == old(s)@.push(c),
;

// ---------------------------------------------------------------------------
// Character classes
// ---------------------------------------------------------------------------

/// The class of white space.
pub open spec fn space() -> spec_fn(char) -> bool {
    |c: char| char_is_whitespace(c)
}

/// The class of everything that is neither a letter nor a number.
pub open spec fn punctuation() -> spec_fn(char) -> bool {
    |c: char| !char_is_alphanumeric(c)
}

/// The class that holds one character.
pub open spec fn just(d: char) -> spec_fn(char) -> bool {
    |c: char| c == d
}

pub open spec fn is_digit(c: char) -> bool {
    '0' <= c <= '9'
}

pub open spec fn is_ascii_letter(c: char) -> bool {
    'a' <= c <= 'z' || 'A' <= c <= 'Z'
}

pub open spec fn is_ascii_alnum(c: char) -> bool {
    is_digit(c) || is_ascii_letter(c)
}

pub open spec fn ascii_lower(c: char) -> char {
    if 'A' <= c <= 'Z' {
        (c as u32 + 32) as char
    } else {
        c
    }
}

pub open spec fn ascii_upper(c: char) -> char {
    if 'a' <= c <= 'z' {
        (c as u32 - 32) as char
    } else {
        c
    }
}

pub fn digit(c: char) -> (r: bool)
    ensures
        r == is_digit(c),
{
    '0' <= c && c <= '9'
}

pub fn ascii_alnum(c: char) -> (r: bool)
    ensures
        r == is_ascii_alnum(c),
{
    digit(c) || ('a' <= c && c <= 'z') || ('A' <= c && c <= 'Z')
}

pub fn lower_ascii(c: char) -> (r: char)
    ensures
        r == ascii_lower(c),
{
    if 'A' <= c && c <= 'Z' {
        (c as u8 + 32u8) as char
    } else {
        c
    }
}

// ---------------------------------------------------------------------------
// Between strings and characters
// ---------------------------------------------------------------------------

/// `s` with its ASCII letters in lower case.
pub open spec fn lowered(s: Seq<char>) -> Seq<char> {
    Seq::new(s.len(), |i: int| ascii_lower(s[i]))
}

/// `s` with its ASCII letters in upper case.
pub open spec fn uppered(s: Seq<char>) -> Seq<char> {
    Seq::new(s.len(), |i: int| ascii_upper(s[i]))
}

pub fn lower_text(s: &str) -> (r: String)
    ensures
        r@ == lowered(s@),
{
    let chars = to_chars(s);
    let mut low: Vec<char> = Vec::new();
    let mut i: usize = 0;
    while i < chars.len()
        invariant
            0 <= i <= chars.len(),
            chars@ == s@,
            low.len() == i,
            forall|k: int| 0 <= k < i ==> (#[trigger] low@[k]) == ascii_lower(s@[k]),
        decreases chars.len() - i,
    {
        low.push(lower_ascii(chars[i]));
        i += 1;
    }
    assert(low@ == lowered(s@));
    from_chars(low.as_slice())
}

pub fn to_chars(s: &str) -> (r: Vec<char>)
    ensures
        r@ == s@,
{
    let mut r: Vec<char> = Vec::new();
    for c in it: s.chars()
        invariant
            r@ == s@.take(it.index()),
            it.seq() == s@,
    {
        r.push(c);
        assert(s@.take(it.index() + 1) == s@.take(it.index()).push(c));
    }
    assert(s@.take(s@.len() as int) == s@);
    r
}

pub fn from_chars(s: &[char]) -> (r: String)
    ensures
        r@ == s@,
{
    let mut r = String::new();
    let mut i: usize = 0;
    while i < s.len()
        invariant
            0 <= i <= s.len(),
            r@ == s@.take(i as int),
        decreases s.len() - i,
    {
        r.push(s[i]);
        assert(s@.take(i + 1) == s@.take(i as int).push(s@[i as int]));
        i += 1;
    }
    assert(s@.take(s@.len() as int) == s@);
    r
}

/// The part of `s` from `from` up to `to`.
pub fn cut(s: &[char], from: usize, to: usize) -> (r: &[char])
    requires
        from <= to <= s.len(),
    ensures
        r@ == s@.subrange(from as int, to as int),
{
    slice_subrange(s, from, to)
}

pub fn chars_eq(a: &[char], b: &[char]) -> (r: bool)
    ensures
        r == (a@ == b@),
{
    if a.len() != b.len() {
        return false;
    }
    let mut i: usize = 0;
    while i < a.len()
        invariant
            0 <= i <= a.len(),
            a.len() == b.len(),
            forall|j: int| 0 <= j < i ==> a@[j] == b@[j],
        decreases a.len() - i,
    {
        if a[i] != b[i] {
            return false;
        }
        i += 1;
    }
    assert(a@ == b@);
    true
}

/// Whether two strings hold the same characters.
pub fn text_eq(a: &str, b: &str) -> (r: bool)
    ensures
        r == (a@ == b@),
{
    let left = to_chars(a);
    let right = to_chars(b);
    chars_eq(&left, &right)
}

/// The view of an optional text.
pub open spec fn opt_view(s: Option<String>) -> Option<Seq<char>> {
    match s {
        Some(text) => Some(text@),
        None => None,
    }
}

/// The view of an optional borrowed text.
pub open spec fn opt_str_view(s: Option<&str>) -> Option<Seq<char>> {
    match s {
        Some(text) => Some(text@),
        None => None,
    }
}

/// The views of a list of texts.
pub open spec fn texts(v: Seq<String>) -> Seq<Seq<char>> {
    Seq::new(v.len(), |i: int| v[i]@)
}

/// The views of a list of slices.
pub open spec fn slices(v: Seq<&[char]>) -> Seq<Seq<char>> {
    Seq::new(v.len(), |i: int| v[i]@)
}

pub fn clone_texts(v: &Vec<String>) -> (r: Vec<String>)
    ensures
        texts(r@) == texts(v@),
{
    let mut r: Vec<String> = Vec::new();
    let mut i: usize = 0;
    while i < v.len()
        invariant
            0 <= i <= v.len(),
            r.len() == i,
            forall|j: int| 0 <= j < i ==> r@[j]@ == v@[j]@,
        decreases v.len() - i,
    {
        r.push(v[i].clone());
        i += 1;
    }
    assert(texts(r@) == texts(v@));
    r
}

// ---------------------------------------------------------------------------
// Searching
// ---------------------------------------------------------------------------

/// The index of the first character in the class, or the length.
pub open spec fn index_by(s: Seq<char>, p: spec_fn(char) -> bool) -> int
    decreases s.len(),
{
    if s.len() == 0 || p(s[0]) {
        0
    } else {
        1 + index_by(s.drop_first(), p)
    }
}

pub proof fn lemma_index_by(s: Seq<char>, p: spec_fn(char) -> bool)
    ensures
        0 <= index_by(s, p) <= s.len(),
        forall|j: int| 0 <= j < index_by(s, p) ==> !p(#[trigger] s[j]),
        index_by(s, p) < s.len() ==> p(s[index_by(s, p)]),
    decreases s.len(),
{
    if s.len() == 0 || p(s[0]) {
    } else {
        let rest = s.drop_first();
        lemma_index_by(rest, p);
        assert forall|j: int| 0 <= j < index_by(s, p) implies !p(#[trigger] s[j]) by {
            if j > 0 {
                assert(s[j] == rest[j - 1]);
            }
        }
    }
}

pub proof fn lemma_index_by_is(s: Seq<char>, p: spec_fn(char) -> bool, k: int)
    requires
        0 <= k <= s.len(),
        forall|j: int| 0 <= j < k ==> !p(#[trigger] s[j]),
        k < s.len() ==> p(s[k]),
    ensures
        index_by(s, p) == k,
{
    lemma_index_by(s, p);
    let i = index_by(s, p);
    if i < k {
        assert(p(s[i]));
    } else if k < i {
        assert(!p(s[k]));
    }
}

/// The index of the last character in the class, or -1.
pub open spec fn last_index_by(s: Seq<char>, p: spec_fn(char) -> bool) -> int
    decreases s.len(),
{
    if s.len() == 0 {
        -1
    } else if p(s.last()) {
        s.len() - 1
    } else {
        last_index_by(s.drop_last(), p)
    }
}

pub proof fn lemma_last_index_by(s: Seq<char>, p: spec_fn(char) -> bool)
    ensures
        -1 <= last_index_by(s, p) < s.len(),
        forall|j: int| last_index_by(s, p) < j < s.len() ==> !p(#[trigger] s[j]),
        last_index_by(s, p) >= 0 ==> p(s[last_index_by(s, p)]),
    decreases s.len(),
{
    if s.len() > 0 && !p(s.last()) {
        let rest = s.drop_last();
        lemma_last_index_by(rest, p);
        assert forall|j: int| last_index_by(s, p) < j < s.len() implies !p(#[trigger] s[j]) by {
            if j < s.len() - 1 {
                assert(s[j] == rest[j]);
            }
        }
    }
}

pub fn find_char(s: &[char], c: char) -> (r: usize)
    ensures
        r == index_by(s@, just(c)),
        r <= s.len(),
{
    let mut i: usize = 0;
    while i < s.len() && s[i] != c
        invariant
            0 <= i <= s.len(),
            forall|j: int| 0 <= j < i ==> s@[j] != c,
        decreases s.len() - i,
    {
        i += 1;
    }
    proof {
        lemma_index_by_is(s@, just(c), i as int);
    }
    i
}

pub fn find_space(s: &[char]) -> (r: usize)
    ensures
        r == index_by(s@, space()),
        r <= s.len(),
{
    let mut i: usize = 0;
    while i < s.len() && !s[i].is_whitespace()
        invariant
            0 <= i <= s.len(),
            forall|j: int| 0 <= j < i ==> !char_is_whitespace(s@[j]),
        decreases s.len() - i,
    {
        i += 1;
    }
    proof {
        lemma_index_by_is(s@, space(), i as int);
    }
    i
}

/// The index of the last `c` in `s`, if there is one.
pub fn rfind_char(s: &[char], c: char) -> (r: Option<usize>)
    ensures
        r is Some <==> last_index_by(s@, just(c)) >= 0,
        r is Some ==> r->0 == last_index_by(s@, just(c)) && r->0 < s.len(),
{
    let mut i: usize = s.len();
    while i > 0
        invariant
            0 <= i <= s.len(),
            forall|j: int| i <= j < s.len() ==> s@[j] != c,
        decreases i,
    {
        if s[i - 1] == c {
            proof {
                lemma_last_index_by(s@, just(c));
                let k = last_index_by(s@, just(c));
                assert(just(c)(s@[i - 1]));
                assert(k >= i - 1);
                if k >= i {
                    assert(just(c)(s@[k]));
                }
            }
            return Some(i - 1);
        }
        i -= 1;
    }
    proof {
        lemma_last_index_by(s@, just(c));
    }
    None
}

/// Whether `p` stands in `s` at position `i`.
pub open spec fn occurs_at(s: Seq<char>, p: Seq<char>, i: int) -> bool {
    0 <= i && i + p.len() <= s.len() && s.subrange(i, i + p.len()) == p
}

/// Whether `p` stands anywhere in `s`.
pub open spec fn contains_text(s: Seq<char>, p: Seq<char>) -> bool {
    exists|i: int| occurs_at(s, p, i)
}

/// Whether `s` begins with `p`.
pub open spec fn starts_with(s: Seq<char>, p: Seq<char>) -> bool {
    occurs_at(s, p, 0)
}

pub fn occurs(s: &[char], p: &[char], at: usize) -> (r: bool)
    ensures
        r == occurs_at(s@, p@, at as int),
{
    if at > s.len() || p.len() > s.len() - at {
        return false;
    }
    let part = slice_subrange(s, at, at + p.len());
    chars_eq(part, p)
}

/// The first position at which `p` stands in `s`.
pub fn find_text(s: &[char], p: &[char]) -> (r: Option<usize>)
    ensures
        r is None <==> !contains_text(s@, p@),
        r is Some ==> occurs_at(s@, p@, r->0 as int) && r->0 + p.len() <= s.len(),
        r is Some ==> forall|j: int| 0 <= j < r->0 ==> !occurs_at(s@, p@, j),
{
    if p.len() > s.len() {
        return None;
    }
    let last: usize = s.len() - p.len();
    let mut i: usize = 0;
    loop
        invariant
            0 <= i <= last,
            last + p.len() == s.len(),
            forall|j: int| 0 <= j < i ==> !occurs_at(s@, p@, j),
        decreases last - i,
    {
        if occurs(s, p, i) {
            return Some(i);
        }
        if i == last {
            assert forall|j: int| !occurs_at(s@, p@, j) by {
                if j == i {
                }
            }
            return None;
        }
        i += 1;
    }
}

/// Where `p` first stands in `s`, from a position on.
pub open spec fn position_from(s: Seq<char>, p: Seq<char>, from: int) -> Option<int>
    decreases s.len() - from,
{
    if from < 0 || from >= s.len() {
        None
    } else if occurs_at(s, p, from) {
        Some(from)
    } else {
        position_from(s, p, from + 1)
    }
}

/// Where `p` first stands in `s`.
pub fn position_of(s: &[char], p: &[char]) -> (r: Option<usize>)
    ensures
        match r {
            Some(i) => position_from(s@, p@, 0) == Some(i as int) && i < s.len(),
            None => position_from(s@, p@, 0) is None,
        },
{
    let mut i: usize = 0;
    while i < s.len()
        invariant
            0 <= i <= s.len(),
            position_from(s@, p@, 0) == position_from(s@, p@, i as int),
        decreases s.len() - i,
    {
        if occurs(s, p, i) {
            return Some(i);
        }
        i += 1;
    }
    None
}

pub fn has_text(s: &[char], p: &[char]) -> (r: bool)
    ensures
        r == contains_text(s@, p@),
{
    find_text(s, p).is_some()
}

/// [`has_text`] on strings.
pub fn text_contains(s: &str, p: &str) -> (r: bool)
    ensures
        r == contains_text(s@, p@),
{
    let whole = to_chars(s);
    let part = to_chars(p);
    has_text(&whole, &part)
}

/// Whether the string begins with `p`.
pub fn text_starts_with(s: &str, p: &str) -> (r: bool)
    ensures
        r == starts_with(s@, p@),
{
    let whole = to_chars(s);
    let part = to_chars(p);
    occurs(&whole, &part, 0)
}

pub fn has_char(s: &[char], c: char) -> (r: bool)
    ensures
        r == s@.contains(c),
{
    let i = find_char(s, c);
    proof {
        lemma_index_by(s@, just(c));
        if i < s.len() {
            assert(just(c)(s@[i as int]));
        } else {
            assert forall|j: int| 0 <= j < s.len() implies s@[j] != c by {
                assert(!just(c)(s@[j]));
            }
        }
    }
    i < s.len()
}

// ---------------------------------------------------------------------------
// Trimming
// ---------------------------------------------------------------------------

/// `s` without its leading characters of the class.
pub open spec fn trim_start_by(s: Seq<char>, p: spec_fn(char) -> bool) -> Seq<char>
    decreases s.len(),
{
    if s.len() > 0 && p(s[0]) {
        trim_start_by(s.drop_first(), p)
    } else {
        s
    }
}

/// `s` without its trailing characters of the class.
pub open spec fn trim_end_by(s: Seq<char>, p: spec_fn(char) -> bool) -> Seq<char>
    decreases s.len(),
{
    if s.len() > 0 && p(s.last()) {
        trim_end_by(s.drop_last(), p)
    } else {
        s
    }
}

/// `s` without the characters of the class at both ends.
pub open spec fn trim_by(s: Seq<char>, p: spec_fn(char) -> bool) -> Seq<char> {
    trim_end_by(trim_start_by(s, p), p)
}

/// `s` without the white space around it.
pub open spec fn trimmed(s: Seq<char>) -> Seq<char> {
    trim_by(s, space())
}

/// Characters of the class around a text have no part in what trimming leaves.
pub proof fn lemma_trim_padded(
    front: Seq<char>,
    s: Seq<char>,
    back: Seq<char>,
    p: spec_fn(char) -> bool,
)
    requires
        forall|i: int| 0 <= i < front.len() ==> p(#[trigger] front[i]),
        forall|i: int| 0 <= i < back.len() ==> p(#[trigger] back[i]),
    ensures
        trim_by(front + s + back, p) == trim_by(s, p),
{
    lemma_trim_start_padded(front, s + back, p);
    assert(front + s + back == front + (s + back));
    lemma_trim_start_before(s, back, p);
    if trim_start_by(s, p).len() > 0 {
        lemma_trim_end_padded(trim_start_by(s, p), back, p);
    } else {
        lemma_trim_start_padded(back, Seq::empty(), p);
        assert(back + Seq::<char>::empty() == back);
        assert(trim_start_by(s, p) == Seq::<char>::empty());
    }
}

proof fn lemma_trim_start_padded(front: Seq<char>, s: Seq<char>, p: spec_fn(char) -> bool)
    requires
        forall|i: int| 0 <= i < front.len() ==> p(#[trigger] front[i]),
    ensures
        trim_start_by(front + s, p) == trim_start_by(s, p),
    decreases front.len(),
{
    if front.len() > 0 {
        assert((front + s)[0] == front[0]);
        assert((front + s).drop_first() == front.drop_first() + s);
        lemma_trim_start_padded(front.drop_first(), s, p);
    } else {
        assert(front + s == s);
    }
}

proof fn lemma_trim_start_before(s: Seq<char>, back: Seq<char>, p: spec_fn(char) -> bool)
    ensures
        trim_start_by(s + back, p) == if trim_start_by(s, p).len() > 0 {
            trim_start_by(s, p) + back
        } else {
            trim_start_by(back, p)
        },
    decreases s.len(),
{
    if s.len() == 0 {
        assert(s + back == back);
    } else {
        assert((s + back)[0] == s[0]);
        if p(s[0]) {
            assert((s + back).drop_first() == s.drop_first() + back);
            lemma_trim_start_before(s.drop_first(), back, p);
        }
    }
}

proof fn lemma_trim_end_padded(s: Seq<char>, back: Seq<char>, p: spec_fn(char) -> bool)
    requires
        forall|i: int| 0 <= i < back.len() ==> p(#[trigger] back[i]),
    ensures
        trim_end_by(s + back, p) == trim_end_by(s, p),
    decreases back.len(),
{
    if back.len() > 0 {
        assert((s + back).last() == back.last());
        assert((s + back).drop_last() == s + back.drop_last());
        lemma_trim_end_padded(s, back.drop_last(), p);
    } else {
        assert(s + back == s);
    }
}

proof fn lemma_trim_end_by(s: Seq<char>, p: spec_fn(char) -> bool)
    ensures
        trim_end_by(s, p).len() <= s.len(),
        trim_end_by(s, p) == s.take(trim_end_by(s, p).len() as int),
        trim_end_by(s, p).len() > 0 ==> !p(trim_end_by(s, p).last()),
        forall|j: int| trim_end_by(s, p).len() <= j < s.len() ==> p(#[trigger] s[j]),
    decreases s.len(),
{
    if s.len() > 0 && p(s.last()) {
        let rest = s.drop_last();
        lemma_trim_end_by(rest, p);
        let t = trim_end_by(s, p);
        assert(t == s.take(t.len() as int));
        assert forall|j: int| t.len() <= j < s.len() implies p(#[trigger] s[j]) by {
            if j < rest.len() {
                assert(s[j] == rest[j]);
            }
        }
    } else {
        assert(s == s.take(s.len() as int));
    }
}

/// A text that trimming leaves as it is has no white space at either end.
pub proof fn lemma_trimmed_ends(s: Seq<char>)
    requires
        trimmed(s) == s,
        s.len() > 0,
    ensures
        !char_is_whitespace(s[0]),
        !char_is_whitespace(s[s.len() - 1]),
{
    let p = space();
    let t = trim_start_by(s, p);
    lemma_trim_start_by(s, p);
    lemma_trim_end_by(t, p);
    assert(t.len() == s.len());
    assert(t == s);
    assert(!p(t[0]));
    assert(!p(trim_end_by(t, p).last()));
}

/// What trimming leaves is one stretch of the text: it starts and ends in a character that is
/// no white space, and before it and behind it there is nothing else. Nothing is left exactly
/// where all is white space.
pub proof fn trimming_takes_white_space_alone(s: Seq<char>) -> (cut: (int, int))
    ensures
        0 <= cut.0 <= cut.1 <= s.len(),
        trimmed(s) == s.subrange(cut.0, cut.1),
        forall|j: int| 0 <= j < cut.0 || cut.1 <= j < s.len() ==> char_is_whitespace(#[trigger] s[j]),
        cut.0 < cut.1 ==> !char_is_whitespace(s[cut.0]) && !char_is_whitespace(s[cut.1 - 1]),
        trimmed(s).len() == 0 <==> forall|j: int|
            0 <= j < s.len() ==> char_is_whitespace(#[trigger] s[j]),
{
    let p = space();
    let t = trim_start_by(s, p);
    let e = trim_end_by(t, p);
    let from = s.len() - t.len();
    let to = from + e.len();
    lemma_trim_start_by(s, p);
    lemma_trim_end_by(t, p);
    assert(e == s.subrange(from, to));
    assert forall|j: int| 0 <= j < from || to <= j < s.len() implies char_is_whitespace(
        #[trigger] s[j],
    ) by {
        if j < from {
            assert(p(s[j]));
        } else {
            assert(t[j - from] == s[j]);
            assert(p(t[j - from]));
        }
    }
    if from < to {
        assert(e[0] == t[0] && e[0] == s[from]);
        assert(e.last() == s[to - 1]);
        assert(!p(t[0]) && !p(e.last()));
    }
    (from, to)
}

/// In ASCII, upper case and trimming by punctuation go in either order.
pub proof fn lemma_trim_upper(s: Seq<char>)
    requires
        all_ascii(s),
    ensures
        trim_by(uppered(s), punctuation()) == uppered(trim_by(s, punctuation())),
        all_ascii(trim_by(s, punctuation())),
{
    lemma_trim_start_upper(s);
    lemma_trim_end_upper(trim_start_by(s, punctuation()));
}

proof fn lemma_trim_start_upper(s: Seq<char>)
    requires
        all_ascii(s),
    ensures
        trim_start_by(uppered(s), punctuation()) == uppered(trim_start_by(s, punctuation())),
        all_ascii(trim_start_by(s, punctuation())),
    decreases s.len(),
{
    if s.len() > 0 && punctuation()(s[0]) {
        assert(uppered(s).drop_first() == uppered(s.drop_first()));
        lemma_trim_start_upper(s.drop_first());
    }
}

proof fn lemma_trim_end_upper(s: Seq<char>)
    requires
        all_ascii(s),
    ensures
        trim_end_by(uppered(s), punctuation()) == uppered(trim_end_by(s, punctuation())),
        all_ascii(trim_end_by(s, punctuation())),
    decreases s.len(),
{
    if s.len() > 0 && punctuation()(s.last()) {
        assert(uppered(s).drop_last() == uppered(s.drop_last()));
        lemma_trim_end_upper(s.drop_last());
    }
}

/// What trimming at the front leaves is a suffix that does not start in the class.
pub proof fn lemma_trim_start_by(s: Seq<char>, p: spec_fn(char) -> bool)
    ensures
        trim_start_by(s, p).len() <= s.len(),
        trim_start_by(s, p) == s.skip(s.len() - trim_start_by(s, p).len()),
        trim_start_by(s, p).len() > 0 ==> !p(trim_start_by(s, p)[0]),
        forall|j: int| 0 <= j < s.len() - trim_start_by(s, p).len() ==> p(#[trigger] s[j]),
    decreases s.len(),
{
    if s.len() > 0 && p(s[0]) {
        let rest = s.drop_first();
        lemma_trim_start_by(rest, p);
        let t = trim_start_by(s, p);
        assert(t == s.skip(s.len() - t.len()));
        assert forall|j: int| 0 <= j < s.len() - t.len() implies p(#[trigger] s[j]) by {
            if j > 0 {
                assert(s[j] == rest[j - 1]);
            }
        }
    } else {
        assert(s == s.skip(0));
    }
}

/// A class that no end of `s` is in leaves `s` as it is.
pub proof fn lemma_trim_by_fixed(s: Seq<char>, p: spec_fn(char) -> bool)
    requires
        s.len() > 0 ==> !p(s[0]) && !p(s.last()),
    ensures
        trim_by(s, p) == s,
{
}

/// `s` without the white space around it.
pub fn trim(s: &[char]) -> (r: &[char])
    ensures
        r@ == trimmed(s@),
{
    let mut from: usize = 0;
    assert(s@.skip(0) == s@);
    while from < s.len() && s[from].is_whitespace()
        invariant
            0 <= from <= s.len(),
            trim_start_by(s@, space()) == trim_start_by(s@.skip(from as int), space()),
        decreases s.len() - from,
    {
        assert(s@.skip(from as int).drop_first() == s@.skip(from + 1));
        from += 1;
    }
    let ghost front = s@.skip(from as int);
    assert(trim_start_by(s@, space()) == front);
    let mut to: usize = s.len();
    assert(front.take(to - from) == front);
    while to > from && s[to - 1].is_whitespace()
        invariant
            0 <= from <= to <= s.len(),
            front == s@.skip(from as int),
            trim_end_by(front, space()) == trim_end_by(front.take(to - from), space()),
        decreases to - from,
    {
        assert(front.take(to - from).drop_last() == front.take(to - from - 1));
        to -= 1;
    }
    assert(front.take(to - from) == s@.subrange(from as int, to as int));
    slice_subrange(s, from, to)
}

/// `s` without the trailing `c`s.
pub fn trim_end_char(s: &[char], c: char) -> (r: &[char])
    ensures
        r@ == trim_end_by(s@, just(c)),
{
    let mut to: usize = s.len();
    assert(s@.take(to as int) == s@);
    while to > 0 && s[to - 1] == c
        invariant
            0 <= to <= s.len(),
            trim_end_by(s@, just(c)) == trim_end_by(s@.take(to as int), just(c)),
        decreases to,
    {
        assert(s@.take(to as int).drop_last() == s@.take(to - 1));
        to -= 1;
    }
    assert(s@.take(to as int) == s@.subrange(0, to as int));
    slice_subrange(s, 0, to)
}

/// `s` without what is neither letter nor number at both ends.
pub fn trim_punctuation(s: &[char]) -> (r: &[char])
    ensures
        r@ == trim_by(s@, punctuation()),
{
    let mut from: usize = 0;
    assert(s@.skip(0) == s@);
    while from < s.len() && !s[from].is_alphanumeric()
        invariant
            0 <= from <= s.len(),
            trim_start_by(s@, punctuation()) == trim_start_by(
                s@.skip(from as int),
                punctuation(),
            ),
        decreases s.len() - from,
    {
        assert(s@.skip(from as int).drop_first() == s@.skip(from + 1));
        from += 1;
    }
    let ghost front = s@.skip(from as int);
    assert(trim_start_by(s@, punctuation()) == front);
    let mut to: usize = s.len();
    assert(front.take(to - from) == front);
    while to > from && !s[to - 1].is_alphanumeric()
        invariant
            0 <= from <= to <= s.len(),
            front == s@.skip(from as int),
            trim_end_by(front, punctuation()) == trim_end_by(
                front.take(to - from),
                punctuation(),
            ),
        decreases to - from,
    {
        assert(front.take(to - from).drop_last() == front.take(to - from - 1));
        to -= 1;
    }
    assert(front.take(to - from) == s@.subrange(from as int, to as int));
    slice_subrange(s, from, to)
}

/// [`trim`] on strings.
pub fn trim_text(s: &str) -> (r: String)
    ensures
        r@ == trimmed(s@),
{
    let whole = to_chars(s);
    from_chars(trim(&whole))
}

// ---------------------------------------------------------------------------
// Splitting and joining
// ---------------------------------------------------------------------------

/// The parts of `s` between the characters of the class.
pub open spec fn split_by(s: Seq<char>, p: spec_fn(char) -> bool) -> Seq<Seq<char>>
    decreases s.len(),
{
    let i = index_by(s, p);
    if i < 0 || i >= s.len() {
        seq![s]
    } else {
        seq![s.take(i)] + split_by(s.skip(i + 1), p)
    }
}

/// The words of `s`: its longest runs without white space.
pub open spec fn words(s: Seq<char>) -> Seq<Seq<char>>
    decreases s.len(),
{
    let t = trim_start_by(s, space());
    let i = index_by(t, space());
    if t.len() == 0 || t.len() > s.len() || i <= 0 || i > t.len() {
        Seq::empty()
    } else {
        seq![t.take(i)] + words(t.skip(i))
    }
}

/// `parts` with `sep` between them.
pub open spec fn join(parts: Seq<Seq<char>>, sep: Seq<char>) -> Seq<char>
    decreases parts.len(),
{
    if parts.len() == 0 {
        Seq::empty()
    } else if parts.len() == 1 {
        parts[0]
    } else {
        join(parts.drop_last(), sep) + sep + parts.last()
    }
}

pub fn split_char(s: &[char], c: char) -> (r: Vec<&[char]>)
    ensures
        slices(r@) == split_by(s@, just(c)),
        r.len() > 0,
{
    let mut r: Vec<&[char]> = Vec::new();
    let mut rest = s;
    assert(slices(r@) + split_by(rest@, just(c)) == split_by(s@, just(c)));
    loop
        invariant
            slices(r@) + split_by(rest@, just(c)) == split_by(s@, just(c)),
        decreases rest.len(),
    {
        let i = find_char(rest, c);
        let ghost before = slices(r@);
        if i >= rest.len() {
            r.push(rest);
            assert(slices(r@) == before + seq![rest@]);
            return r;
        }
        let part = slice_subrange(rest, 0, i);
        r.push(part);
        let next = slice_subrange(rest, i + 1, rest.len());
        assert(part@ == rest@.take(i as int));
        assert(next@ == rest@.skip(i + 1));
        assert(slices(r@) == before + seq![part@]);
        assert(slices(r@) + split_by(next@, just(c)) == before + (seq![part@] + split_by(
            next@,
            just(c),
        )));
        rest = next;
    }
}

pub fn split_words(s: &[char]) -> (r: Vec<&[char]>)
    ensures
        slices(r@) == words(s@),
{
    let mut r: Vec<&[char]> = Vec::new();
    let mut rest = s;
    assert(slices(r@) + words(rest@) == words(s@));
    loop
        invariant
            slices(r@) + words(rest@) == words(s@),
        decreases rest.len(),
    {
        let mut from: usize = 0;
        assert(rest@.skip(0) == rest@);
        while from < rest.len() && rest[from].is_whitespace()
            invariant
                0 <= from <= rest.len(),
                trim_start_by(rest@, space()) == trim_start_by(rest@.skip(from as int), space()),
            decreases rest.len() - from,
        {
            assert(rest@.skip(from as int).drop_first() == rest@.skip(from + 1));
            from += 1;
        }
        let t = slice_subrange(rest, from, rest.len());
        assert(t@ == rest@.skip(from as int));
        assert(t@ == trim_start_by(rest@, space()));
        let ghost before = slices(r@);
        if t.len() == 0 {
            assert(words(rest@) == Seq::<Seq<char>>::empty());
            assert(slices(r@) == words(s@));
            return r;
        }
        let i = find_space(t);
        proof {
            lemma_index_by(t@, space());
            lemma_trim_start_by(rest@, space());
            assert(i > 0);
        }
        let part = slice_subrange(t, 0, i);
        r.push(part);
        let next = slice_subrange(t, i, t.len());
        assert(part@ == t@.take(i as int));
        assert(next@ == t@.skip(i as int));
        assert(slices(r@) == before + seq![part@]);
        assert(slices(r@) + words(next@) == before + (seq![part@] + words(next@)));
        rest = next;
    }
}

/// Joins texts with `sep` between them.
pub fn join_texts(parts: &Vec<String>, sep: &str) -> (r: String)
    ensures
        r@ == join(texts(parts@), sep@),
{
    let mut r = String::new();
    let mut i: usize = 0;
    assert(texts(parts@).take(0) == Seq::<Seq<char>>::empty());
    while i < parts.len()
        invariant
            0 <= i <= parts.len(),
            r@ == join(texts(parts@).take(i as int), sep@),
        decreases parts.len() - i,
    {
        if i > 0 {
            r.append(sep);
        }
        r.append(parts[i].as_str());
        assert(texts(parts@).take(i + 1).drop_last() == texts(parts@).take(i as int));
        i += 1;
    }
    assert(texts(parts@).take(parts.len() as int) == texts(parts@));
    r
}

/// Joins slices with `sep` between them.
pub fn join_slices(parts: &Vec<&[char]>, sep: char) -> (r: Vec<char>)
    ensures
        r@ == join(slices(parts@), seq![sep]),
{
    let mut r: Vec<char> = Vec::new();
    let mut i: usize = 0;
    assert(slices(parts@).take(0) == Seq::<Seq<char>>::empty());
    while i < parts.len()
        invariant
            0 <= i <= parts.len(),
            r@ == join(slices(parts@).take(i as int), seq![sep]),
        decreases parts.len() - i,
    {
        let ghost before = r@;
        if i > 0 {
            r.push(sep);
        }
        push_all(&mut r, parts[i]);
        assert(slices(parts@).take(i + 1).drop_last() == slices(parts@).take(i as int));
        assert(slices(parts@).take(i + 1).last() == parts@[i as int]@);
        if i > 0 {
            assert(r@ == before + seq![sep] + parts@[i as int]@);
        } else {
            assert(r@ == parts@[0]@);
        }
        i += 1;
    }
    assert(slices(parts@).take(parts.len() as int) == slices(parts@));
    r
}

/// Appends a slice.
pub fn push_all(r: &mut Vec<char>, s: &[char])
    ensures
        final(r)@ == old(r)@ + s@,
{
    let ghost before = r@;
    let mut i: usize = 0;
    assert(r@ == before + s@.take(0));
    while i < s.len()
        invariant
            0 <= i <= s.len(),
            r@ == before + s@.take(i as int),
        decreases s.len() - i,
    {
        r.push(s[i]);
        assert(s@.take(i + 1) == s@.take(i as int).push(s@[i as int]));
        assert(r@ == before + s@.take(i + 1));
        i += 1;
    }
    assert(s@.take(s.len() as int) == s@);
}

/// Two texts, one behind the other.
pub fn glue(a: &str, b: &str) -> (r: String)
    ensures
        r@ == a@ + b@,
{
    let mut r = a.to_owned();
    r.append(b);
    r
}

/// Three texts, one behind the other.
pub fn glue3(a: &str, b: &str, c: &str) -> (r: String)
    ensures
        r@ == a@ + b@ + c@,
{
    let mut r = a.to_owned();
    r.append(b);
    r.append(c);
    r
}

/// The lines of `s`. A line ends before `\n` or `\r\n`; what follows the last
/// line break is a line only when it is not empty.
pub open spec fn lines(s: Seq<char>) -> Seq<Seq<char>>
    decreases s.len(),
{
    let i = index_by(s, just('\n'));
    if s.len() == 0 || i < 0 {
        Seq::empty()
    } else if i >= s.len() {
        seq![s]
    } else {
        seq![without_return(s.take(i))] + lines(s.skip(i + 1))
    }
}

/// `s` without one trailing carriage return.
pub open spec fn without_return(s: Seq<char>) -> Seq<char> {
    if s.len() > 0 && s.last() == '\r' {
        s.drop_last()
    } else {
        s
    }
}

pub fn split_lines(s: &[char]) -> (r: Vec<&[char]>)
    ensures
        slices(r@) == lines(s@),
{
    let mut r: Vec<&[char]> = Vec::new();
    let mut rest = s;
    assert(slices(r@) + lines(rest@) == lines(s@));
    while rest.len() > 0
        invariant
            slices(r@) + lines(rest@) == lines(s@),
        decreases rest.len(),
    {
        let i = find_char(rest, '\n');
        let ghost before = slices(r@);
        if i >= rest.len() {
            r.push(rest);
            assert(slices(r@) == before + seq![rest@]);
            return r;
        }
        let end: usize = if i > 0 && rest[i - 1] == '\r' {
            i - 1
        } else {
            i
        };
        let part = slice_subrange(rest, 0, end);
        assert(part@ == without_return(rest@.take(i as int)));
        r.push(part);
        let next = slice_subrange(rest, i + 1, rest.len());
        assert(next@ == rest@.skip(i + 1));
        assert(slices(r@) == before + seq![part@]);
        assert(slices(r@) + lines(next@) == before + (seq![part@] + lines(next@)));
        rest = next;
    }
    assert(lines(rest@) == Seq::<Seq<char>>::empty());
    assert(slices(r@) == lines(s@));
    r
}

/// `s` with every `from` replaced by `to`, from left to right.
pub open spec fn replaced(s: Seq<char>, from: Seq<char>, to: Seq<char>) -> Seq<char>
    decreases s.len(),
{
    if s.len() == 0 || from.len() == 0 {
        s
    } else if starts_with(s, from) {
        to + replaced(s.skip(from.len() as int), from, to)
    } else {
        seq![s[0]] + replaced(s.drop_first(), from, to)
    }
}

pub fn replace(s: &[char], from: &[char], to: &[char]) -> (r: Vec<char>)
    requires
        from.len() > 0,
    ensures
        r@ == replaced(s@, from@, to@),
{
    let mut r: Vec<char> = Vec::new();
    let mut i: usize = 0;
    assert(s@.skip(0) == s@);
    assert(r@ + replaced(s@.skip(0), from@, to@) == replaced(s@, from@, to@));
    while i < s.len()
        invariant
            0 <= i <= s.len(),
            from.len() > 0,
            r@ + replaced(s@.skip(i as int), from@, to@) == replaced(s@, from@, to@),
        decreases s.len() - i,
    {
        let ghost rest = s@.skip(i as int);
        let ghost before = r@;
        if occurs(s, from, i) {
            assert(s@.subrange(i as int, i + from.len()) == rest.subrange(0, from.len() as int));
            assert(starts_with(rest, from@));
            push_all(&mut r, to);
            assert(rest.skip(from.len() as int) == s@.skip(i + from.len()));
            i += from.len();
            assert(r@ + replaced(s@.skip(i as int), from@, to@) == before + (to@ + replaced(
                s@.skip(i as int),
                from@,
                to@,
            )));
        } else {
            assert(!starts_with(rest, from@)) by {
                if starts_with(rest, from@) {
                    assert(s@.subrange(i as int, i + from.len()) == rest.subrange(
                        0,
                        from.len() as int,
                    ));
                }
            }
            r.push(s[i]);
            assert(rest.drop_first() == s@.skip(i + 1));
            i += 1;
            assert(r@ + replaced(s@.skip(i as int), from@, to@) == before + (seq![rest[0]]
                + replaced(s@.skip(i as int), from@, to@)));
        }
    }
    assert(replaced(s@.skip(i as int), from@, to@) == Seq::<char>::empty());
    assert(r@ == replaced(s@, from@, to@));
    r
}

// ---------------------------------------------------------------------------
// Numbers
// ---------------------------------------------------------------------------

/// The digit that stands for `d`.
pub open spec fn digit_char(d: int) -> char {
    (48 + d) as char
}

/// `n` in decimal, without leading zeros.
pub open spec fn decimal(n: nat) -> Seq<char>
    decreases n,
{
    if n < 10 {
        seq![digit_char(n as int)]
    } else {
        decimal(n / 10).push(digit_char((n % 10) as int))
    }
}

/// `n` in decimal, padded with zeros to two digits.
pub open spec fn two_digits(n: nat) -> Seq<char> {
    if n < 10 {
        seq!['0'] + decimal(n)
    } else {
        decimal(n)
    }
}

pub open spec fn all_digits(s: Seq<char>) -> bool {
    forall|i: int| 0 <= i < s.len() ==> is_digit(#[trigger] s[i])
}

/// The number that a run of digits stands for.
pub open spec fn digits_value(s: Seq<char>) -> nat
    decreases s.len(),
{
    if s.len() == 0 {
        0
    } else {
        (digits_value(s.drop_last()) * 10 + (s.last() as int - '0' as int)) as nat
    }
}

/// The number that `s` stands for, if it is one and at most `max`: digits, with
/// an optional plus sign in front.
pub open spec fn number_in(s: Seq<char>, max: int) -> Option<nat> {
    let t = if s.len() > 0 && s[0] == '+' {
        s.drop_first()
    } else {
        s
    };
    if t.len() > 0 && all_digits(t) && digits_value(t) <= max {
        Some(digits_value(t))
    } else {
        None
    }
}

/// The decimal form of a number is digits, and stands for that number.
pub proof fn lemma_decimal(n: nat)
    ensures
        decimal(n).len() > 0,
        all_digits(decimal(n)),
        digits_value(decimal(n)) == n,
    decreases n,
{
    let d = digit_char((n % 10) as int);
    assert(d as int == 48 + n % 10);
    if n < 10 {
        assert(n % 10 == n);
        let s = decimal(n);
        assert(s.drop_last() == Seq::<char>::empty());
        assert(digits_value(s.drop_last()) == 0);
    } else {
        lemma_decimal(n / 10);
        let s = decimal(n);
        assert(s.drop_last() == decimal(n / 10));
        assert(s.last() == d);
        assert(n == (n / 10) * 10 + n % 10);
    }
}

/// More digits stand for a larger number.
pub proof fn lemma_digits_value_prefix(s: Seq<char>, k: int)
    requires
        0 <= k <= s.len(),
        all_digits(s),
    ensures
        digits_value(s.take(k)) <= digits_value(s),
    decreases s.len() - k,
{
    if k < s.len() {
        lemma_digits_value_prefix(s, k + 1);
        let t = s.take(k + 1);
        assert(t.drop_last() == s.take(k));
        assert(is_digit(s[k]));
        assert(t.last() == s[k]);
    } else {
        assert(s.take(k) == s);
    }
}

pub fn push_decimal(r: &mut Vec<char>, n: u64)
    ensures
        final(r)@ == old(r)@ + decimal(n as nat),
    decreases n,
{
    let ghost before = r@;
    if n >= 10 {
        push_decimal(r, n / 10);
        assert(r@ == before + decimal((n / 10) as nat));
    }
    let d: u8 = (n % 10) as u8;
    r.push((48u8 + d) as char);
    assert(r@ == before + decimal(n as nat));
}

/// A number in decimal.
pub fn decimal_text(n: u64) -> (r: String)
    ensures
        r@ == decimal(n as nat),
{
    let mut v: Vec<char> = Vec::new();
    push_decimal(&mut v, n);
    assert(v@ == decimal(n as nat));
    from_chars(&v)
}

/// Reads a number as [`number_in`] says.
pub fn parse_u64(s: &[char]) -> (r: Option<u64>)
    ensures
        match r {
            Some(n) => number_in(s@, u64::MAX as int) == Some(n as nat),
            None => number_in(s@, u64::MAX as int) is None,
        },
{
    let from: usize = if s.len() > 0 && s[0] == '+' {
        1
    } else {
        0
    };
    let t = slice_subrange(s, from, s.len());
    assert(from == 0 ==> t@ == s@);
    assert(from == 1 ==> t@ == s@.drop_first());
    if t.len() == 0 {
        return None;
    }
    let mut i: usize = 0;
    while i < t.len()
        invariant
            0 <= i <= t.len(),
            all_digits(t@.take(i as int)),
            t@ == (if s@.len() > 0 && s@[0] == '+' {
                s@.drop_first()
            } else {
                s@
            }),
        decreases t.len() - i,
    {
        if !digit(t[i]) {
            assert(!is_digit(t@[i as int]));
            return None;
        }
        assert(t@.take(i + 1) == t@.take(i as int).push(t@[i as int]));
        i += 1;
    }
    assert(t@.take(t.len() as int) == t@);
    let mut n: u64 = 0;
    let mut k: usize = 0;
    assert(t@.take(0) == Seq::<char>::empty());
    while k < t.len()
        invariant
            0 <= k <= t.len(),
            all_digits(t@),
            t.len() > 0,
            n == digits_value(t@.take(k as int)),
            t@ == (if s@.len() > 0 && s@[0] == '+' {
                s@.drop_first()
            } else {
                s@
            }),
        decreases t.len() - k,
    {
        proof {
            assert(is_digit(t@[k as int]));
            assert(t@.take(k + 1).drop_last() == t@.take(k as int));
            assert(t@.take(k + 1).last() == t@[k as int]);
            lemma_digits_value_prefix(t@, k + 1);
        }
        let d: u64 = (t[k] as u32 - '0' as u32) as u64;
        if n > u64::MAX / 10 || n * 10 > u64::MAX - d {
            return None;
        }
        n = n * 10 + d;
        k += 1;
    }
    assert(t@.take(t.len() as int) == t@);
    Some(n)
}

// ---------------------------------------------------------------------------
// Slugs
// ---------------------------------------------------------------------------

/// `s` as a run of lowercase ASCII letters and digits with single hyphens
/// between; `sep` says that the run ends in a hyphen already.
pub open spec fn slug_from(s: Seq<char>, slug: Seq<char>, sep: bool) -> Seq<char>
    decreases s.len(),
{
    if s.len() == 0 {
        slug
    } else if is_ascii_alnum(s[0]) {
        slug_from(s.drop_first(), slug.push(ascii_lower(s[0])), false)
    } else if !sep && slug.len() > 0 {
        slug_from(s.drop_first(), slug.push('-'), true)
    } else {
        slug_from(s.drop_first(), slug, sep)
    }
}

/// The slug of `s`: every other run of characters becomes one hyphen, and none
/// stands at either end.
pub open spec fn slug_of(s: Seq<char>) -> Seq<char> {
    trim_end_by(slug_from(s, Seq::empty(), false), just('-'))
}

/// Whether a text has the shape of a slug: lowercase ASCII letters, digits and hyphens, with
/// no hyphen at either end and no two side by side.
pub open spec fn is_slug(s: Seq<char>) -> bool {
    &&& is_slug_run(s)
    &&& s.len() > 0 ==> s.last() != '-'
}

/// Whether a text is the front of a slug: it may end in a hyphen.
pub open spec fn is_slug_run(s: Seq<char>) -> bool {
    &&& forall|i: int|
        0 <= i < s.len() ==> 'a' <= #[trigger] s[i] <= 'z' || is_digit(s[i]) || s[i] == '-'
    &&& s.len() > 0 ==> s[0] != '-'
    &&& forall|i: int, j: int|
        #![trigger s[i], s[j]]
        0 <= i < s.len() && j == i + 1 && j < s.len() && s[i] == '-' ==> s[j] != '-'
}

/// The ASCII letters and digits of a text, in order and in lower case.
pub open spec fn slug_letters(s: Seq<char>) -> Seq<char>
    decreases s.len(),
{
    if s.len() == 0 {
        Seq::empty()
    } else if is_ascii_alnum(s.last()) {
        slug_letters(s.drop_last()).push(ascii_lower(s.last()))
    } else {
        slug_letters(s.drop_last())
    }
}

proof fn lemma_lower_is_slug_letter(c: char)
    requires
        is_ascii_alnum(c),
    ensures
        'a' <= ascii_lower(c) <= 'z' || is_digit(ascii_lower(c)),
        is_ascii_alnum(ascii_lower(c)),
        ascii_lower(c) != '-',
        ascii_lower(ascii_lower(c)) == ascii_lower(c),
{
}

proof fn lemma_slug_from_shape(s: Seq<char>, slug: Seq<char>, sep: bool)
    requires
        is_slug_run(slug),
        sep <==> slug.len() > 0 && slug.last() == '-',
    ensures
        is_slug_run(slug_from(s, slug, sep)),
    decreases s.len(),
{
    if s.len() > 0 {
        if is_ascii_alnum(s[0]) {
            lemma_lower_is_slug_letter(s[0]);
            lemma_slug_from_shape(s.drop_first(), slug.push(ascii_lower(s[0])), false);
        } else if !sep && slug.len() > 0 {
            let longer = slug.push('-');
            assert(is_slug_run(longer)) by {
                assert forall|i: int, j: int|
                    #![trigger longer[i], longer[j]]
                    0 <= i < longer.len() && j == i + 1 && j < longer.len() && longer[i]
                        == '-' implies longer[j] != '-' by {
                    assert(slug[i] == longer[i]);
                    if j < slug.len() {
                        assert(slug[j] == longer[j]);
                    }
                }
            }
            lemma_slug_from_shape(s.drop_first(), longer, true);
        } else {
            lemma_slug_from_shape(s.drop_first(), slug, sep);
        }
    }
}

proof fn lemma_run_without_hyphens(s: Seq<char>)
    requires
        is_slug_run(s),
    ensures
        s.filter(|c: char| c != '-') == slug_letters(s),
    decreases s.len(),
{
    reveal(Seq::filter);
    if s.len() > 0 {
        let rest = s.drop_last();
        assert(is_slug_run(rest)) by {
            assert forall|i: int, j: int|
                #![trigger rest[i], rest[j]]
                0 <= i < rest.len() && j == i + 1 && j < rest.len() && rest[i]
                    == '-' implies rest[j] != '-' by {
                assert(s[i] == rest[i] && s[j] == rest[j]);
            }
        }
        lemma_run_without_hyphens(rest);
        let last = s[s.len() - 1];
        if last != '-' {
            assert(ascii_lower(last) == last);
        }
    }
}

/// What a slug is made of: its shape, and that without its hyphens it is the ASCII letters
/// and digits of the text, in lower case and in their order.
pub proof fn a_slug_holds_the_letters_and_digits(s: Seq<char>)
    ensures
        is_slug(slug_of(s)),
        slug_of(s).filter(|c: char| c != '-') == slug_letters(s),
{
    lemma_slug_of(s);
    lemma_run_without_hyphens(slug_of(s));
}

proof fn lemma_slug_of(s: Seq<char>)
    ensures
        is_slug(slug_of(s)),
        slug_letters(slug_of(s)) == slug_letters(s),
{
    let run = slug_from(s, Seq::empty(), false);
    lemma_slug_from_shape(s, Seq::empty(), false);
    lemma_slug_from_letters(s, Seq::empty(), false);
    assert(Seq::<char>::empty() + slug_letters(s) == slug_letters(s));
    if run.len() > 0 && run.last() == '-' {
        let shorter = run.drop_last();
        assert(run[0] != '-');
        assert(run[run.len() - 2] != '-');
        assert(is_slug_run(shorter)) by {
            assert forall|i: int, j: int|
                #![trigger shorter[i], shorter[j]]
                0 <= i < shorter.len() && j == i + 1 && j < shorter.len() && shorter[i]
                    == '-' implies shorter[j] != '-' by {
                assert(run[i] == shorter[i] && run[j] == shorter[j]);
            }
        }
        assert(!just('-')(shorter.last()));
        assert(just('-')(run.last()));
        assert(trim_end_by(shorter, just('-')) == shorter);
        assert(slug_of(s) == shorter);
    }
}

proof fn lemma_slug_letters_add(a: Seq<char>, b: Seq<char>)
    ensures
        slug_letters(a + b) == slug_letters(a) + slug_letters(b),
    decreases b.len(),
{
    if b.len() == 0 {
        assert(a + b == a);
    } else {
        assert((a + b).drop_last() == a + b.drop_last());
        lemma_slug_letters_add(a, b.drop_last());
    }
}

proof fn lemma_slug_from_letters(s: Seq<char>, slug: Seq<char>, sep: bool)
    ensures
        slug_letters(slug_from(s, slug, sep)) == slug_letters(slug) + slug_letters(s),
    decreases s.len(),
{
    if s.len() > 0 {
        let first = seq![s[0]];
        let rest = s.drop_first();
        assert(s == first + rest);
        lemma_slug_letters_add(first, rest);
        assert(first.drop_last() == Seq::<char>::empty());
        assert(slug_letters(Seq::<char>::empty()) == Seq::<char>::empty());
        assert(first.last() == s[0]);
        if is_ascii_alnum(s[0]) {
            lemma_lower_is_slug_letter(s[0]);
            let longer = slug.push(ascii_lower(s[0]));
            lemma_slug_from_letters(rest, longer, false);
            assert(longer.drop_last() == slug);
            assert(slug_letters(first) == seq![ascii_lower(s[0])]);
            assert(slug_letters(longer) == slug_letters(slug) + slug_letters(first));
        } else if !sep && slug.len() > 0 {
            lemma_slug_from_letters(rest, slug.push('-'), true);
            assert(slug.push('-').drop_last() == slug);
        } else {
            lemma_slug_from_letters(rest, slug, sep);
        }
    }
}

proof fn lemma_slug_from_slug(s: Seq<char>, k: int)
    requires
        is_slug(s),
        0 <= k <= s.len(),
    ensures
        slug_from(s.skip(k), s.take(k), k > 0 && s[k - 1] == '-') == s,
    decreases s.len() - k,
{
    if k < s.len() {
        let rest = s.skip(k);
        assert(rest[0] == s[k]);
        assert(rest.drop_first() == s.skip(k + 1));
        assert(s.take(k).push(s[k]) == s.take(k + 1));
        lemma_slug_from_slug(s, k + 1);
        if s[k] == '-' {
            assert(k > 0);
            assert(s[k - 1] != '-');
        } else {
            assert(ascii_lower(s[k]) == s[k]);
        }
    } else {
        assert(s.take(k) == s);
    }
}

/// A slug is its own slug: taking the slug a second time changes nothing.
pub proof fn a_slug_is_its_own_slug(s: Seq<char>)
    ensures
        slug_of(slug_of(s)) == slug_of(s),
        is_slug(s) ==> slug_of(s) == s,
{
    lemma_slug_of(s);
    let slug = slug_of(s);
    lemma_slug_from_slug(slug, 0);
    assert(slug.skip(0) == slug && slug.take(0) == Seq::<char>::empty());
    if is_slug(s) {
        lemma_slug_from_slug(s, 0);
        assert(s.skip(0) == s && s.take(0) == Seq::<char>::empty());
    }
}

// ---------------------------------------------------------------------------
// Facts about splitting and joining
// ---------------------------------------------------------------------------

/// A text without the character is its only part.
pub proof fn lemma_split_none(s: Seq<char>, c: char)
    requires
        !s.contains(c),
    ensures
        split_by(s, just(c)) == seq![s],
{
    lemma_index_by(s, just(c));
    let i = index_by(s, just(c));
    if i < s.len() {
        assert(s.contains(s[i]));
    }
}

/// The parts of two texts with the character between them.
pub proof fn lemma_split_add(a: Seq<char>, c: char, b: Seq<char>)
    ensures
        split_by(a + seq![c] + b, just(c)) == split_by(a, just(c)) + split_by(b, just(c)),
    decreases a.len(),
{
    let p = just(c);
    let s = a + seq![c] + b;
    lemma_index_by(a, p);
    let i = index_by(a, p);
    if i < a.len() {
        assert forall|j: int| 0 <= j < i implies !p(#[trigger] s[j]) by {
            assert(s[j] == a[j]);
        }
        assert(s[i] == a[i]);
        lemma_index_by_is(s, p, i);
        let rest = a.skip(i + 1);
        lemma_split_add(rest, c, b);
        assert(s.skip(i + 1) == rest + seq![c] + b);
        assert(s.take(i) == a.take(i));
        assert(seq![a.take(i)] + (split_by(rest, p) + split_by(b, p)) == (seq![a.take(i)]
            + split_by(rest, p)) + split_by(b, p));
    } else {
        assert forall|j: int| 0 <= j < a.len() implies !p(#[trigger] s[j]) by {
            assert(s[j] == a[j]);
        }
        assert(s[a.len() as int] == c);
        lemma_index_by_is(s, p, a.len() as int);
        assert(s.take(a.len() as int) == a);
        assert(s.skip(a.len() + 1int) == b);
        assert(split_by(a, p) == seq![a]);
    }
}

proof fn lemma_split_nonempty(s: Seq<char>, p: spec_fn(char) -> bool)
    ensures
        split_by(s, p).len() > 0,
{
}

/// Joining from the front.
pub proof fn lemma_join_front(a: Seq<char>, rest: Seq<Seq<char>>, sep: Seq<char>)
    requires
        rest.len() > 0,
    ensures
        join(seq![a] + rest, sep) == a + sep + join(rest, sep),
    decreases rest.len(),
{
    let all = seq![a] + rest;
    assert(all.drop_last() == seq![a] + rest.drop_last());
    assert(all.last() == rest.last());
    if rest.len() == 1 {
        assert(all.drop_last() == seq![a]);
        assert(join(all.drop_last(), sep) == a);
        assert(join(rest, sep) == rest[0]);
    } else {
        lemma_join_front(a, rest.drop_last(), sep);
        assert(a + sep + join(rest.drop_last(), sep) + sep + rest.last() == a + sep + (join(
            rest.drop_last(),
            sep,
        ) + sep + rest.last()));
    }
}

/// The parts of a text, joined by the character that parted them, are the text.
pub proof fn lemma_join_split(s: Seq<char>, c: char)
    ensures
        join(split_by(s, just(c)), seq![c]) == s,
    decreases s.len(),
{
    let p = just(c);
    lemma_index_by(s, p);
    let i = index_by(s, p);
    if i < s.len() {
        let rest = s.skip(i + 1);
        lemma_join_split(rest, c);
        lemma_split_nonempty(rest, p);
        lemma_join_front(s.take(i), split_by(rest, p), seq![c]);
        assert(s.take(i) + seq![c] + rest == s);
    } else {
        assert(join(seq![s], seq![c]) == s);
    }
}

/// No part of a text holds the character that parted it.
pub proof fn lemma_split_parts(s: Seq<char>, c: char)
    ensures
        forall|i: int|
            0 <= i < split_by(s, just(c)).len() ==> !(#[trigger] split_by(
                s,
                just(c),
            )[i]).contains(c),
    decreases s.len(),
{
    let p = just(c);
    lemma_index_by(s, p);
    let i = index_by(s, p);
    let parts = split_by(s, p);
    if i < s.len() {
        let rest = s.skip(i + 1);
        lemma_split_parts(rest, c);
        assert forall|k: int| 0 <= k < parts.len() implies !(#[trigger] parts[k]).contains(c) by {
            if k == 0 {
                assert(parts[0] == s.take(i));
                assert forall|j: int| 0 <= j < i implies s.take(i)[j] != c by {
                    assert(!p(s[j]));
                }
            } else {
                assert(parts[k] == split_by(rest, p)[k - 1]);
            }
        }
    } else {
        assert forall|j: int| 0 <= j < s.len() implies s[j] != c by {
            assert(!p(s[j]));
        }
    }
}

/// Parts that do not hold a character come back when they are joined by it and parted again.
pub proof fn lemma_split_join(parts: Seq<Seq<char>>, c: char)
    requires
        parts.len() > 0,
        forall|i: int| 0 <= i < parts.len() ==> !(#[trigger] parts[i]).contains(c),
    ensures
        split_by(join(parts, seq![c]), just(c)) == parts,
    decreases parts.len(),
{
    lemma_split_none(parts.last(), c);
    if parts.len() == 1 {
        assert(parts == seq![parts[0]]);
    } else {
        let front = parts.drop_last();
        assert forall|i: int| 0 <= i < front.len() implies !(#[trigger] front[i]).contains(c) by {
            assert(front[i] == parts[i]);
        }
        lemma_split_join(front, c);
        lemma_split_add(join(front, seq![c]), c, parts.last());
        assert(front + seq![parts.last()] == parts);
    }
}

// ---------------------------------------------------------------------------
// Order
// ---------------------------------------------------------------------------

/// Whether `a` comes before `b`, character by character.
pub open spec fn text_before(a: Seq<char>, b: Seq<char>) -> bool
    decreases a.len(),
{
    if b.len() == 0 {
        false
    } else if a.len() == 0 {
        true
    } else if a[0] == b[0] {
        text_before(a.drop_first(), b.drop_first())
    } else {
        a[0] < b[0]
    }
}

/// The first difference decides which of two texts comes first: the lower character, or the
/// end of the shorter text.
pub proof fn the_first_difference_decides(a: Seq<char>, b: Seq<char>, k: int)
    requires
        0 <= k <= a.len(),
        k <= b.len(),
        a.take(k) == b.take(k),
        k < a.len() && k < b.len() ==> a[k] != b[k],
    ensures
        text_before(a, b) <==> k < b.len() && (k < a.len() ==> a[k] < b[k]),
    decreases k,
{
    if k > 0 {
        assert(a[0] == a.take(k)[0] && b[0] == b.take(k)[0]);
        let ra = a.drop_first();
        let rb = b.drop_first();
        assert(ra.take(k - 1) == a.take(k).drop_first());
        assert(rb.take(k - 1) == b.take(k).drop_first());
        the_first_difference_decides(ra, rb, k - 1);
    }
}

/// No text comes before itself, and of two different texts one comes before the
/// other and not the other way.
pub proof fn lemma_text_before_total(a: Seq<char>, b: Seq<char>)
    ensures
        !text_before(a, a),
        a != b ==> (text_before(a, b) <==> !text_before(b, a)),
    decreases a.len(),
{
    if a.len() > 0 {
        lemma_text_before_total(a.drop_first(), b.drop_first());
        if b.len() > 0 && a[0] == b[0] && a.drop_first() == b.drop_first() {
            assert(a == seq![a[0]] + a.drop_first());
            assert(b == seq![b[0]] + b.drop_first());
        }
    } else if b.len() == 0 {
        assert(a == b);
    }
}

pub proof fn lemma_text_before_transitive(a: Seq<char>, b: Seq<char>, c: Seq<char>)
    requires
        text_before(a, b),
        text_before(b, c),
    ensures
        text_before(a, c),
    decreases a.len(),
{
    if a.len() > 0 && a[0] == b[0] && b[0] == c[0] {
        lemma_text_before_transitive(a.drop_first(), b.drop_first(), c.drop_first());
    }
}

pub fn comes_before(a: &[char], b: &[char]) -> (r: bool)
    ensures
        r == text_before(a@, b@),
{
    let mut i: usize = 0;
    assert(a@.skip(0) == a@);
    assert(b@.skip(0) == b@);
    while i < a.len() && i < b.len() && a[i] == b[i]
        invariant
            0 <= i <= a.len(),
            i <= b.len(),
            text_before(a@, b@) == text_before(a@.skip(i as int), b@.skip(i as int)),
        decreases a.len() - i,
    {
        assert(a@.skip(i as int).drop_first() == a@.skip(i + 1));
        assert(b@.skip(i as int).drop_first() == b@.skip(i + 1));
        i += 1;
    }
    if i >= b.len() {
        false
    } else if i >= a.len() {
        true
    } else {
        a[i] < b[i]
    }
}

/// [`comes_before`] on strings.
pub fn text_comes_before(a: &str, b: &str) -> (r: bool)
    ensures
        r == text_before(a@, b@),
{
    let left = to_chars(a);
    let right = to_chars(b);
    comes_before(&left, &right)
}

// ---------------------------------------------------------------------------
// Laws of words and lines
// ---------------------------------------------------------------------------

/// What is not white space.
pub open spec fn solid() -> spec_fn(char) -> bool {
    |c: char| !char_is_whitespace(c)
}

proof fn lemma_filter_add(a: Seq<char>, b: Seq<char>)
    ensures
        (a + b).filter(solid()) == a.filter(solid()) + b.filter(solid()),
    decreases b.len(),
{
    reveal(Seq::filter);
    if b.len() == 0 {
        assert(a + b == a);
    } else {
        lemma_filter_add(a, b.drop_last());
        assert((a + b).drop_last() == a + b.drop_last());
        assert((a + b).last() == b.last());
    }
}

proof fn lemma_filter_all(s: Seq<char>, keep: bool)
    requires
        forall|i: int| 0 <= i < s.len() ==> char_is_whitespace(#[trigger] s[i]) != keep,
    ensures
        s.filter(solid()) == if keep {
            s
        } else {
            Seq::empty()
        },
    decreases s.len(),
{
    reveal(Seq::filter);
    if s.len() > 0 {
        let less = s.drop_last();
        assert forall|i: int| 0 <= i < less.len() implies char_is_whitespace(#[trigger] less[i])
            != keep by {
            assert(less[i] == s[i]);
        }
        lemma_filter_all(less, keep);
        assert(s.last() == s[s.len() - 1]);
    }
}

/// The words of a text hold no white space and are not empty, and one after the other they
/// are the text without its white space.
pub proof fn words_are_what_is_not_white_space(s: Seq<char>)
    ensures
        join(words(s), Seq::empty()) == s.filter(solid()),
        forall|i: int| 0 <= i < words(s).len() ==> (#[trigger] words(s)[i]).len() > 0,
        forall|i: int, j: int|
            0 <= i < words(s).len() && 0 <= j < words(s)[i].len() ==> !char_is_whitespace(
                #[trigger] words(s)[i][j],
            ),
    decreases s.len(),
{
    let t = trim_start_by(s, space());
    lemma_trim_start_by(s, space());
    let cut = s.len() - t.len();
    assert forall|i: int| 0 <= i < cut implies char_is_whitespace(#[trigger] s.take(cut)[i])
        != false by {
        assert(space()(s[i]));
    }
    lemma_filter_all(s.take(cut), false);
    lemma_filter_add(s.take(cut), t);
    assert(s == s.take(cut) + t);
    assert(Seq::<char>::empty() + t.filter(solid()) == t.filter(solid()));
    if t.len() == 0 {
        assert(t == Seq::<char>::empty());
        lemma_filter_all(t, false);
        assert(words(s) == Seq::<Seq<char>>::empty());
    } else {
        lemma_index_by(t, space());
        let i = index_by(t, space());
        assert(!space()(t[0]));
        assert(i > 0);
        let word = t.take(i);
        let rest = t.skip(i);
        assert forall|j: int| 0 <= j < word.len() implies char_is_whitespace(#[trigger] word[j])
            != true by {
            assert(!space()(t[j]));
        }
        lemma_filter_all(word, true);
        lemma_filter_add(word, rest);
        assert(t == word + rest);
        words_are_what_is_not_white_space(rest);
        let more = words(rest);
        assert(words(s) == seq![word] + more);
        if more.len() > 0 {
            lemma_join_front(word, more, Seq::empty());
            assert(word + Seq::<char>::empty() == word);
        } else {
            assert(words(s) == seq![word]);
            assert(word + Seq::<char>::empty() == word);
        }
        assert forall|k: int| 0 <= k < words(s).len() implies (#[trigger] words(s)[k]).len()
            > 0 by {
            if k > 0 {
                assert(words(s)[k] == more[k - 1]);
            }
        }
        assert forall|k: int, j: int|
            0 <= k < words(s).len() && 0 <= j < words(s)[k].len() implies !char_is_whitespace(
            #[trigger] words(s)[k][j],
        ) by {
            if k > 0 {
                assert(words(s)[k] == more[k - 1]);
                assert(!char_is_whitespace(more[k - 1][j]));
            } else {
                assert(words(s)[0][j] == word[j]);
            }
        }
    }
}

/// A line feed ends a line, with or without a carriage return before it, and starts the next.
/// What stands behind the last one is a line where there is anything.
pub proof fn a_line_feed_ends_a_line(line: Seq<char>, rest: Seq<char>)
    requires
        !line.contains('\n'),
    ensures
        line.len() > 0 ==> lines(line) == seq![line],
        lines(Seq::empty()).len() == 0,
        line.len() == 0 || line.last() != '\r' ==> lines(line.push('\n') + rest) == seq![line]
            + lines(rest),
        lines(line.push('\r').push('\n') + rest) == seq![line] + lines(rest),
{
    let p = just('\n');
    assert forall|j: int| 0 <= j < line.len() implies !p(#[trigger] line[j]) by {
        assert(line.contains(line[j]));
    }
    lemma_index_by_is(line, p, line.len() as int);
    lemma_line_end(line, rest);
    assert(!line.push('\r').contains('\n')) by {
        if line.push('\r').contains('\n') {
            let k = choose|k: int| 0 <= k < line.len() + 1 && line.push('\r')[k] == '\n';
            assert(line.contains(line[k]));
        }
    }
    lemma_line_end(line.push('\r'), rest);
    assert(line.push('\r').drop_last() == line);
}

proof fn lemma_line_end(line: Seq<char>, rest: Seq<char>)
    requires
        !line.contains('\n'),
    ensures
        lines(line.push('\n') + rest) == seq![without_return(line)] + lines(rest),
{
    let p = just('\n');
    let whole = line.push('\n') + rest;
    let n = line.len() as int;
    assert forall|j: int| 0 <= j < n implies !p(#[trigger] whole[j]) by {
        assert(whole[j] == line[j]);
        assert(line.contains(line[j]));
    }
    assert(p(whole[n]));
    lemma_index_by_is(whole, p, n);
    assert(whole.take(n) == line);
    assert(whole.skip(n + 1) == rest);
}

/// Replacing puts the new text for every old one and leaves the rest: a text without the old
/// one stays as it is, and behind such a text and one old one the replacing goes on.
pub proof fn replacing_leaves_the_rest(s: Seq<char>, c: char, to: Seq<char>, rest: Seq<char>)
    requires
        !s.contains(c),
    ensures
        replaced(s, seq![c], to) == s,
        replaced(s.push(c) + rest, seq![c], to) == s + to + replaced(rest, seq![c], to),
    decreases s.len(),
{
    let from = seq![c];
    if s.len() == 0 {
        let whole = s.push(c) + rest;
        assert(whole.subrange(0, 1) == from);
        assert(whole.skip(1) == rest);
        assert(s + to == to);
    } else {
        let less = s.drop_first();
        assert(s.contains(s[0]));
        assert(!less.contains(c)) by {
            if less.contains(c) {
                let k = choose|k: int| 0 <= k < less.len() && less[k] == c;
                assert(s[k + 1] == c);
            }
        }
        replacing_leaves_the_rest(less, c, to, rest);
        assert(!starts_with(s, from)) by {
            if starts_with(s, from) {
                assert(s.subrange(0, 1)[0] == from[0]);
            }
        }
        let whole = s.push(c) + rest;
        assert(!starts_with(whole, from)) by {
            if starts_with(whole, from) {
                assert(whole.subrange(0, 1)[0] == from[0]);
            }
        }
        assert(whole.drop_first() == less.push(c) + rest);
        assert(seq![s[0]] + less == s);
        assert(seq![s[0]] + (less + to + replaced(rest, from, to)) == s + to + replaced(
            rest,
            from,
            to,
        ));
    }
}

} // verus!
