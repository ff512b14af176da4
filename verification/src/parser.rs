//! What the lines of a note mean: timestamps, clips, actions, links, headings.

use vstd::prelude::*;
use vstd::string::*;

use crate::model::{
    actions_view, relations_view, ActionView, ClipRef, ClipView, ParsedAction, Relation,
    RelationView,
};
use crate::outside::{find_matches, groups_view, matches_view, regex_matches, Groups};
use crate::text::{
    all_digits, chars_eq, contains_text, cut, decimal, find_char, find_space, from_chars, has_char,
    index_by, is_digit, join, join_slices, just, last_index_by, lemma_decimal, lemma_index_by,
    lemma_index_by_is,
    lemma_split_join, lemma_split_parts, number_in, opt_view, parse_u64,
    rfind_char, slices, space, split_by, split_char, split_words, starts_with, text_eq, to_chars,
    trim, trim_end_by, trim_end_char, trimmed, words,
};

verus! {

/// What joins ancestor headings in `ParsedSection::heading_path`.
pub const HEADING_PATH_SEPARATOR: &'static str = " > ";

// ---------------------------------------------------------------------------
// Timestamps
// ---------------------------------------------------------------------------

/// Seconds from parts of which each counts sixty times the next.
pub open spec fn sexagesimal(parts: Seq<Seq<char>>) -> Option<u64>
    decreases parts.len(),
{
    if parts.len() == 0 {
        Some(0)
    } else {
        match (sexagesimal(parts.drop_last()), number_in(parts.last(), u64::MAX as int)) {
            (Some(high), Some(low)) => if high * 60 + low <= u64::MAX {
                Some((high * 60 + low) as u64)
            } else {
                None
            },
            _ => None,
        }
    }
}

/// The state of reading `1h30m15s`: the seconds of the units so far, the number
/// that waits for its unit, and whether a unit was seen.
#[verifier::ext_equal]
pub struct Units {
    pub total: u64,
    pub current: u64,
    pub seen: bool,
}

/// The seconds in one of a unit.
pub open spec fn unit_seconds(c: char) -> Option<u64> {
    if c == 'h' {
        Some(3600)
    } else if c == 'm' {
        Some(60)
    } else if c == 's' {
        Some(1)
    } else {
        None
    }
}

/// The state after reading `s`; `None` when `s` holds anything but digits and
/// units, or a number too large to count.
pub open spec fn units(s: Seq<char>) -> Option<Units>
    decreases s.len(),
{
    if s.len() == 0 {
        Some(Units { total: 0, current: 0, seen: false })
    } else {
        match units(s.drop_last()) {
            None => None,
            Some(u) => {
                let c = s.last();
                if is_digit(c) {
                    let next = u.current * 10 + (c as int - '0' as int);
                    if next <= u64::MAX {
                        Some(Units { total: u.total, current: next as u64, seen: u.seen })
                    } else {
                        None
                    }
                } else {
                    match unit_seconds(c) {
                        Some(each) => if u.total + u.current * each <= u64::MAX {
                            Some(
                                Units {
                                    total: (u.total + u.current * each) as u64,
                                    current: 0,
                                    seen: true,
                                },
                            )
                        } else {
                            None
                        },
                        None => None,
                    }
                }
            },
        }
    }
}

/// The seconds that `HH:MM:SS`, `MM:SS`, `1h2m3s` or bare seconds stand for.
pub open spec fn timestamp_of(text: Seq<char>) -> Option<u64> {
    let t = trimmed(text);
    if t.len() == 0 {
        None
    } else if t.contains(':') {
        sexagesimal(split_by(t, just(':')))
    } else {
        match number_in(t, u64::MAX as int) {
            Some(n) => Some(n as u64),
            None => match units(t) {
                Some(u) => if u.seen && u.total + u.current <= u64::MAX {
                    Some((u.total + u.current) as u64)
                } else {
                    None
                },
                None => None,
            },
        }
    }
}

/// `HH:MM:SS`, `MM:SS`, `1h2m3s`, or bare seconds.
pub fn parse_timestamp(text: &str) -> (r: Option<u64>)
    ensures
        r == timestamp_of(text@),
{
    let whole = to_chars(text);
    timestamp(&whole)
}

pub(crate) fn timestamp(text: &[char]) -> (r: Option<u64>)
    ensures
        r == timestamp_of(text@),
{
    let t = trim(text);
    if t.len() == 0 {
        return None;
    }
    if has_char(t, ':') {
        return colon_timestamp(t);
    }
    if let Some(bare) = parse_u64(t) {
        return Some(bare);
    }
    match unit_timestamp(t) {
        Some(u) => if u.seen {
            u.total.checked_add(u.current)
        } else {
            None
        },
        None => None,
    }
}

fn colon_timestamp(t: &[char]) -> (r: Option<u64>)
    ensures
        r == sexagesimal(split_by(t@, just(':'))),
{
    let parts = split_char(t, ':');
    let ghost views = slices(parts@);
    let mut seconds: u64 = 0;
    let mut i: usize = 0;
    assert(views.take(0) == Seq::<Seq<char>>::empty());
    while i < parts.len()
        invariant
            0 <= i <= parts.len(),
            views == slices(parts@),
            sexagesimal(views.take(i as int)) == Some(seconds),
            views == split_by(t@, just(':')),
        decreases parts.len() - i,
    {
        assert(views.take(i + 1).drop_last() == views.take(i as int));
        assert(views.take(i + 1).last() == parts@[i as int]@);
        let read = parse_u64(parts[i]);
        let next: Option<u64> = match read {
            Some(low) => match seconds.checked_mul(60) {
                Some(high) => high.checked_add(low),
                None => None,
            },
            None => None,
        };
        assert(next == sexagesimal(views.take(i + 1)));
        match next {
            Some(n) => {
                seconds = n;
            },
            None => {
                proof {
                    lemma_sexagesimal_none(views, i + 1);
                }
                return None;
            },
        }
        i += 1;
    }
    assert(views.take(parts.len() as int) == views);
    Some(seconds)
}

proof fn lemma_sexagesimal_none(parts: Seq<Seq<char>>, k: int)
    requires
        0 <= k <= parts.len(),
        sexagesimal(parts.take(k)) is None,
    ensures
        sexagesimal(parts) is None,
    decreases parts.len() - k,
{
    if k < parts.len() {
        assert(parts.take(k + 1).drop_last() == parts.take(k));
        lemma_sexagesimal_none(parts, k + 1);
    } else {
        assert(parts.take(k) == parts);
    }
}

fn unit_timestamp(t: &[char]) -> (r: Option<Units>)
    ensures
        r == units(t@),
{
    let mut total: u64 = 0;
    let mut current: u64 = 0;
    let mut seen: bool = false;
    let mut i: usize = 0;
    assert(t@.take(0) == Seq::<char>::empty());
    while i < t.len()
        invariant
            0 <= i <= t.len(),
            units(t@.take(i as int)) == Some(Units { total, current, seen }),
        decreases t.len() - i,
    {
        let c = t[i];
        assert(t@.take(i + 1).drop_last() == t@.take(i as int));
        assert(t@.take(i + 1).last() == c);
        if '0' <= c && c <= '9' {
            let d: u64 = (c as u32 - '0' as u32) as u64;
            let next: Option<u64> = match current.checked_mul(10) {
                Some(tens) => tens.checked_add(d),
                None => None,
            };
            match next {
                Some(n) => {
                    current = n;
                },
                None => {
                    proof {
                        lemma_units_none(t@, i + 1);
                    }
                    return None;
                },
            }
        } else {
            let each: u64 = if c == 'h' {
                3600
            } else if c == 'm' {
                60
            } else if c == 's' {
                1
            } else {
                proof {
                    lemma_units_none(t@, i + 1);
                }
                return None;
            };
            let next: Option<u64> = match current.checked_mul(each) {
                Some(more) => total.checked_add(more),
                None => None,
            };
            match next {
                Some(n) => {
                    total = n;
                    current = 0;
                    seen = true;
                },
                None => {
                    proof {
                        lemma_units_none(t@, i + 1);
                    }
                    return None;
                },
            }
        }
        i += 1;
    }
    assert(t@.take(t.len() as int) == t@);
    Some(Units { total, current, seen })
}

proof fn lemma_units_none(s: Seq<char>, k: int)
    requires
        0 <= k <= s.len(),
        units(s.take(k)) is None,
    ensures
        units(s) is None,
    decreases s.len() - k,
{
    if k < s.len() {
        assert(s.take(k + 1).drop_last() == s.take(k));
        lemma_units_none(s, k + 1);
    } else {
        assert(s.take(k) == s);
    }
}

// ---------------------------------------------------------------------------
// Timestamps in URLs
// ---------------------------------------------------------------------------

/// Whether a query parameter carries a moment: `t=` or `start=`.
pub open spec fn is_moment(parameter: Seq<char>) -> bool {
    let i = index_by(parameter, just('='));
    i < parameter.len() && (parameter.take(i) == "t"@ || parameter.take(i) == "start"@)
}

/// The seconds that a moment stands for.
pub open spec fn moment(parameter: Seq<char>) -> Option<u64> {
    timestamp_of(trim_end_by(parameter.skip(index_by(parameter, just('=')) + 1), just('s')))
}

/// The parameters without the moments that could be read.
pub open spec fn kept_parameters(parameters: Seq<Seq<char>>) -> Seq<Seq<char>>
    decreases parameters.len(),
{
    if parameters.len() == 0 {
        Seq::empty()
    } else {
        let before = kept_parameters(parameters.drop_last());
        if is_moment(parameters.last()) && moment(parameters.last()) is Some {
            before
        } else {
            before.push(parameters.last())
        }
    }
}

/// What the last moment stands for.
pub open spec fn last_moment(parameters: Seq<Seq<char>>) -> Option<u64>
    decreases parameters.len(),
{
    if parameters.len() == 0 {
        None
    } else if is_moment(parameters.last()) {
        moment(parameters.last())
    } else {
        last_moment(parameters.drop_last())
    }
}

/// A URL without the moment in its query, and that moment. One that cannot be read
/// stays where it is.
pub open spec fn url_parts(url: Seq<char>) -> (Seq<char>, Option<u64>) {
    let i = index_by(url, just('?'));
    if i >= url.len() {
        (url, None)
    } else {
        let parameters = split_by(url.skip(i + 1), just('&'));
        let seconds = last_moment(parameters);
        let kept = kept_parameters(parameters);
        if seconds is None {
            (url, None)
        } else if kept.len() == 0 {
            (url.take(i), seconds)
        } else {
            (url.take(i) + seq!['?'] + join(kept, seq!['&']), seconds)
        }
    }
}

/// Lifts a `t=` timestamp out of a URL, returning the URL without it.
pub fn strip_url_timestamp(url: &str) -> (r: (String, Option<u64>))
    ensures
        (r.0@, r.1) == url_parts(url@),
{
    let whole = to_chars(url);
    let (clean, seconds) = strip_moment(&whole);
    (from_chars(&clean), seconds)
}

fn read_moment(p: &[char]) -> (r: Option<Option<u64>>)
    ensures
        r is Some <==> is_moment(p@),
        r is Some ==> r->0 == moment(p@),
{
    let k = find_char(p, '=');
    if k >= p.len() {
        return None;
    }
    let key = cut(p, 0, k);
    assert(key@ == p@.take(k as int));
    let t = to_chars("t");
    let start = to_chars("start");
    if !chars_eq(key, &t) && !chars_eq(key, &start) {
        return None;
    }
    let value = cut(p, k + 1, p.len());
    assert(value@ == p@.skip(k + 1));
    Some(timestamp(trim_end_char(value, 's')))
}

fn strip_moment(url: &[char]) -> (r: (Vec<char>, Option<u64>))
    ensures
        (r.0@, r.1) == url_parts(url@),
{
    let i = find_char(url, '?');
    let mut same: Vec<char> = Vec::new();
    crate::text::push_all(&mut same, url);
    assert(same@ == url@);
    if i >= url.len() {
        return (same, None);
    }
    let query = cut(url, i + 1, url.len());
    assert(query@ == url@.skip(i + 1));
    let parameters = split_char(query, '&');
    let ghost views = slices(parameters@);
    let mut seconds: Option<u64> = None;
    let mut kept: Vec<&[char]> = Vec::new();
    let mut k: usize = 0;
    assert(views.take(0) == Seq::<Seq<char>>::empty());
    assert(slices(kept@) == Seq::<Seq<char>>::empty());
    while k < parameters.len()
        invariant
            0 <= k <= parameters.len(),
            views == slices(parameters@),
            seconds == last_moment(views.take(k as int)),
            slices(kept@) == kept_parameters(views.take(k as int)),
        decreases parameters.len() - k,
    {
        let p = parameters[k];
        let ghost before = slices(kept@);
        assert(views.take(k + 1).drop_last() == views.take(k as int));
        assert(views.take(k + 1).last() == p@);
        match read_moment(p) {
            Some(value) => {
                seconds = value;
                if value.is_none() {
                    kept.push(p);
                    assert(slices(kept@) == before.push(p@));
                }
            },
            None => {
                kept.push(p);
                assert(slices(kept@) == before.push(p@));
            },
        }
        k += 1;
    }
    assert(views.take(parameters.len() as int) == views);
    if seconds.is_none() {
        return (same, None);
    }
    let base = cut(url, 0, i);
    assert(base@ == url@.take(i as int));
    let mut clean: Vec<char> = Vec::new();
    crate::text::push_all(&mut clean, base);
    assert(clean@ == url@.take(i as int));
    if kept.len() > 0 {
        clean.push('?');
        let rest = join_slices(&kept, '&');
        crate::text::push_all(&mut clean, &rest);
        assert(clean@ == url@.take(i as int) + seq!['?'] + join(slices(kept@), seq!['&']));
    }
    (clean, seconds)
}

proof fn lemma_kept_parameters(parameters: Seq<Seq<char>>)
    ensures
        last_moment(kept_parameters(parameters)) is None,
        forall|i: int|
            0 <= i < kept_parameters(parameters).len() ==> parameters.contains(
                #[trigger] kept_parameters(parameters)[i],
            ),
    decreases parameters.len(),
{
    if parameters.len() > 0 {
        let rest = parameters.drop_last();
        lemma_kept_parameters(rest);
        let before = kept_parameters(rest);
        let kept = kept_parameters(parameters);
        assert forall|i: int| 0 <= i < kept.len() implies parameters.contains(
            #[trigger] kept[i],
        ) by {
            if i < before.len() {
                assert(rest.contains(before[i]));
                let k = choose|k: int| 0 <= k < rest.len() && rest[k] == before[i];
                assert(parameters[k] == kept[i]);
            } else {
                assert(parameters[parameters.len() - 1] == kept[i]);
            }
        }
        if kept.len() > before.len() {
            assert(kept.drop_last() == before);
        }
    }
}

/// Lifting the moment out of a URL a second time finds none and changes nothing, and a URL
/// without a moment stays as it is.
pub proof fn a_stripped_url_holds_no_moment(url: Seq<char>)
    ensures
        url_parts(url_parts(url).0) == (url_parts(url).0, None::<u64>),
        url_parts(url).1 is None ==> url_parts(url).0 == url,
{
    lemma_index_by(url, just('?'));
    let i = index_by(url, just('?'));
    if i < url.len() {
        let base = url.take(i);
        let parameters = split_by(url.skip(i + 1), just('&'));
        let kept = kept_parameters(parameters);
        if last_moment(parameters) is Some {
            lemma_kept_parameters(parameters);
            assert forall|j: int| 0 <= j < base.len() implies !just('?')(#[trigger] base[j]) by {
                assert(!just('?')(url[j]));
            }
            if kept.len() == 0 {
                lemma_index_by_is(base, just('?'), base.len() as int);
            } else {
                let query = join(kept, seq!['&']);
                let stripped = base + seq!['?'] + query;
                assert forall|j: int| 0 <= j < i implies !just('?')(#[trigger] stripped[j]) by {
                    assert(stripped[j] == base[j]);
                }
                assert(just('?')(stripped[i]));
                lemma_index_by_is(stripped, just('?'), i);
                assert(stripped.skip(i + 1) == query);
                lemma_split_parts(url.skip(i + 1), '&');
                assert forall|k: int| 0 <= k < kept.len() implies !(#[trigger] kept[k]).contains(
                    '&',
                ) by {
                    assert(parameters.contains(kept[k]));
                }
                lemma_split_join(kept, '&');
            }
        }
    }
}

// ---------------------------------------------------------------------------
// Clips
// ---------------------------------------------------------------------------

/// What stands before the first white space, and what stands behind it, trimmed.
pub open spec fn first_token(s: Seq<char>) -> (Seq<char>, Seq<char>) {
    let i = index_by(s, space());
    if i < s.len() {
        (s.take(i), trimmed(s.skip(i + 1)))
    } else {
        (s, Seq::empty())
    }
}

/// The start and end that `06:54` or `06:54-07:20` stand for.
pub open spec fn range_of(range: Seq<char>) -> (Option<u64>, Option<u64>) {
    let i = index_by(range, just('-'));
    if i < range.len() {
        (timestamp_of(range.take(i)), timestamp_of(range.skip(i + 1)))
    } else {
        (timestamp_of(range), None)
    }
}

/// A `clip:` value without the video's id: `URL`, `URL 06:54`, `URL 06:54-07:20`,
/// or any of those followed by a label.
pub open spec fn clip_parts_of(raw: Seq<char>) -> Option<ClipView> {
    let t = trimmed(raw);
    if t.len() == 0 {
        None
    } else {
        let (url, trailing) = first_token(t);
        let (clean, embedded) = url_parts(url);
        let (range, rest) = first_token(trailing);
        let (start, end) = range_of(range);
        // A range that reads as nothing was really a label, and has no end.
        let (end, label) = if start is None && range.len() > 0 {
            (None, trailing)
        } else {
            (end, rest)
        };
        Some(
            ClipView {
                url: clean,
                video_id: None,
                start: match (start, embedded) {
                    (Some(n), _) => n,
                    (None, Some(n)) => n,
                    (None, None) => 0,
                },
                end,
                label: if label.len() > 0 {
                    Some(label)
                } else {
                    None
                },
            },
        )
    }
}

pub(crate) fn split_token(s: &[char]) -> (r: (&[char], &[char]))
    ensures
        (r.0@, r.1@) == first_token(s@),
{
    let i = find_space(s);
    if i < s.len() {
        let head = cut(s, 0, i);
        let tail = cut(s, i + 1, s.len());
        assert(head@ == s@.take(i as int));
        assert(tail@ == s@.skip(i + 1));
        (head, trim(tail))
    } else {
        let tail = cut(s, s.len(), s.len());
        assert(tail@ == Seq::<char>::empty());
        (s, tail)
    }
}

fn read_range(range: &[char]) -> (r: (Option<u64>, Option<u64>))
    ensures
        r == range_of(range@),
{
    let i = find_char(range, '-');
    if i < range.len() {
        let from = cut(range, 0, i);
        let to = cut(range, i + 1, range.len());
        assert(from@ == range@.take(i as int));
        assert(to@ == range@.skip(i + 1));
        (timestamp(from), timestamp(to))
    } else {
        (timestamp(range), None)
    }
}

/// Parses a `clip:` value, leaving the video's id open.
pub fn clip_parts(raw: &str) -> (r: Option<ClipRef>)
    ensures
        crate::model::clip_view(r) == clip_parts_of(raw@),
{
    let whole = to_chars(raw);
    let t = trim(&whole);
    if t.len() == 0 {
        return None;
    }
    let (url, trailing) = split_token(t);
    let (clean, embedded) = strip_moment(url);
    let (range, rest) = split_token(trailing);
    let (start, end) = read_range(range);
    let (end, label) = if start.is_none() && range.len() > 0 {
        (None, trailing)
    } else {
        (end, rest)
    };
    Some(
        ClipRef {
            url: from_chars(&clean),
            video_id: None,
            start: match start {
                Some(n) => n,
                None => match embedded {
                    Some(n) => n,
                    None => 0,
                },
            },
            end,
            label: if label.len() > 0 {
                Some(from_chars(label))
            } else {
                None
            },
        },
    )
}

/// The pattern of a YouTube id in a URL.
pub open spec fn youtube_pattern() -> Seq<char> {
    r"(?:v=|/v/|youtu\.be/|/embed/|/shorts/|/live/)([A-Za-z0-9_-]{11})"@
}

/// The text of one group of a match.
pub open spec fn group_of(found: Seq<Option<Seq<char>>>, g: int) -> Option<Seq<char>> {
    if 0 <= g < found.len() {
        found[g]
    } else {
        None
    }
}

/// The matches, or none for a pattern that was rejected.
pub open spec fn found_or_none(
    found: Option<Seq<Seq<Option<Seq<char>>>>>,
) -> Seq<Seq<Option<Seq<char>>>> {
    match found {
        Some(m) => m,
        None => Seq::empty(),
    }
}

/// A group of the first match.
pub open spec fn first_group_of(
    found: Seq<Seq<Option<Seq<char>>>>,
    g: int,
) -> Option<Seq<char>> {
    if found.len() > 0 {
        group_of(found[0], g)
    } else {
        None
    }
}

/// Whether a URL is one of YouTube's.
pub open spec fn is_youtube(url: Seq<char>) -> bool {
    contains_text(url, "youtube.com"@) || contains_text(url, "youtu.be"@)
}

/// The video's id in a YouTube URL.
pub open spec fn youtube_id_of(url: Seq<char>) -> Option<Seq<char>> {
    if is_youtube(url) {
        first_group_of(found_or_none(regex_matches(youtube_pattern(), url)), 1)
    } else {
        None
    }
}

/// A whole `clip:` value.
pub open spec fn clip_of(raw: Seq<char>) -> Option<ClipView> {
    match clip_parts_of(raw) {
        Some(c) => Some(ClipView { video_id: youtube_id_of(c.url), ..c }),
        None => None,
    }
}

/// The text of one group of a match, borrowed.
pub fn group(found: &Groups, g: usize) -> (r: Option<&str>)
    ensures
        crate::text::opt_str_view(r) == group_of(groups_view(found@), g as int),
{
    if g < found.len() {
        crate::model::borrow_text(&found[g])
    } else {
        None
    }
}

/// A group of the first match.
pub fn first_group(found: &Vec<Groups>, g: usize) -> (r: Option<String>)
    ensures
        opt_view(r) == first_group_of(matches_view(found@), g as int),
{
    if found.len() > 0 {
        assert(matches_view(found@)[0] == groups_view(found@[0]@));
        match group(&found[0], g) {
            Some(text) => Some(text.to_owned()),
            None => None,
        }
    } else {
        None
    }
}

/// The matches of a pattern, or none for one that is rejected.
pub(crate) fn matches_in(pattern: &str, text: &str) -> (r: Vec<Groups>)
    ensures
        matches_view(r@) == found_or_none(regex_matches(pattern@, text@)),
{
    match find_matches(pattern, text) {
        Some(found) => found,
        None => {
            let none: Vec<Groups> = Vec::new();
            assert(matches_view(none@) == Seq::<Seq<Option<Seq<char>>>>::empty());
            none
        },
    }
}

/// The 11-character id out of any YouTube URL shape, or `None` for anything else.
pub fn youtube_id(url: &str) -> (r: Option<String>)
    ensures
        opt_view(r) == youtube_id_of(url@),
{
    if !crate::text::text_contains(url, "youtube.com") && !crate::text::text_contains(
        url,
        "youtu.be",
    ) {
        return None;
    }
    let found = matches_in(
        r"(?:v=|/v/|youtu\.be/|/embed/|/shorts/|/live/)([A-Za-z0-9_-]{11})",
        url,
    );
    first_group(&found, 1)
}

/// Parses a `clip:` value: `URL`, `URL 06:54`, `URL 06:54-07:20`, or any of those
/// followed by a label.
pub fn parse_clip(raw: &str) -> (r: Option<ClipRef>)
    ensures
        crate::model::clip_view(r) == clip_of(raw@),
{
    match clip_parts(raw) {
        Some(c) => {
            let video_id = youtube_id(c.url.as_str());
            Some(ClipRef { video_id, url: c.url, start: c.start, end: c.end, label: c.label })
        },
        None => None,
    }
}

// ---------------------------------------------------------------------------
// Paths
// ---------------------------------------------------------------------------

/// `PATH:LINE`, cut at the last colon. Only digits behind it are a line.
pub open spec fn path_and_line(text: Seq<char>) -> (Seq<char>, Option<u32>) {
    let i = last_index_by(text, just(':'));
    let tail = text.skip(i + 1);
    if i >= 0 && tail.len() > 0 && all_digits(tail) {
        (
            text.take(i),
            match number_in(tail, u32::MAX as int) {
                Some(n) => Some(n as u32),
                None => None,
            },
        )
    } else {
        (text, None)
    }
}

/// Splits `PATH:LINE`, on the last colon.
///
/// A trailing segment only counts as a line number if it is entirely digits.
pub fn split_path_and_line(text: &str) -> (r: (&str, Option<u32>))
    ensures
        (r.0@, r.1) == path_and_line(text@),
{
    let whole = to_chars(text);
    match rfind_char(&whole, ':') {
        None => (text, None),
        Some(i) => {
            let tail = cut(&whole, i + 1, whole.len());
            assert(tail@ == text@.skip(i + 1));
            if tail.len() == 0 || !only_digits(tail) {
                return (text, None);
            }
            let head = text.substring_char(0, i);
            assert(head@ == text@.take(i as int));
            let line: Option<u32> = match parse_u64(tail) {
                Some(n) => if n <= u32::MAX as u64 {
                    Some(n as u32)
                } else {
                    None
                },
                None => None,
            };
            (head, line)
        },
    }
}

pub fn only_digits(s: &[char]) -> (r: bool)
    ensures
        r == all_digits(s@),
{
    let mut i: usize = 0;
    while i < s.len()
        invariant
            0 <= i <= s.len(),
            forall|j: int| 0 <= j < i ==> is_digit(#[trigger] s@[j]),
        decreases s.len() - i,
    {
        if !crate::text::digit(s[i]) {
            assert(!is_digit(s@[i as int]));
            return false;
        }
        i += 1;
    }
    true
}

/// `path` taken from the directory `base`: an absolute path stays as it is.
pub open spec fn joined(base: Seq<char>, path: Seq<char>) -> Seq<char> {
    if path.len() > 0 && path[0] == '/' || base.len() == 0 {
        path
    } else if base.last() == '/' {
        base + path
    } else {
        base.push('/') + path
    }
}

pub fn join_path(base: &str, path: &str) -> (r: String)
    ensures
        r@ == joined(base@, path@),
{
    let b = to_chars(base);
    let p = to_chars(path);
    if p.len() > 0 && p[0] == '/' || b.len() == 0 {
        return path.to_owned();
    }
    let mut r = base.to_owned();
    if b[b.len() - 1] != '/' {
        r.push('/');
    }
    r.append(path);
    r
}

/// A path of an action with `~` expanded, taken from the note's directory.
pub open spec fn absolute_of(
    path: Seq<char>,
    note_dir: Seq<char>,
    home: Option<Seq<char>>,
) -> Seq<char> {
    let expanded = match home {
        Some(h) => if starts_with(path, "~/"@) {
            joined(h, path.skip(2))
        } else {
            path
        },
        None => path,
    };
    joined(note_dir, expanded)
}

/// Expands `~` and resolves a relative path against the note's directory.
pub fn absolute(path: &str, note_dir: &str, home: Option<&str>) -> (r: String)
    ensures
        r@ == absolute_of(path@, note_dir@, crate::text::opt_str_view(home)),
{
    if let Some(h) = home {
        if crate::text::text_starts_with(path, "~/") {
            proof {
                reveal_strlit("~/");
            }
            let whole = to_chars(path);
            let rest = cut(&whole, 2, whole.len());
            assert(rest@ == path@.skip(2));
            let rest = from_chars(rest);
            let expanded = join_path(h, rest.as_str());
            return join_path(note_dir, expanded.as_str());
        }
    }
    join_path(note_dir, path)
}

// ---------------------------------------------------------------------------
// Actions
// ---------------------------------------------------------------------------

/// The pattern of an `@action` on a line of its own.
pub open spec fn action_pattern() -> Seq<char> {
    r"(?m)^\s*@(file|video|app|project|url)\s+(.+?)\s*$"@
}

/// The action that a match of [`action_pattern`] declares.
pub open spec fn action_of(
    found: Seq<Option<Seq<char>>>,
    note_dir: Seq<char>,
    home: Option<Seq<char>>,
) -> Option<ActionView> {
    match (group_of(found, 1), group_of(found, 2)) {
        (Some(kind), Some(text)) => {
            let rest = trimmed(text);
            if rest.len() == 0 {
                None
            } else if kind == "file"@ {
                let (path, line) = path_and_line(rest);
                Some(
                    ActionView {
                        kind,
                        target: absolute_of(path, note_dir, home),
                        line,
                        timestamp_seconds: None,
                    },
                )
            } else if kind == "project"@ {
                Some(
                    ActionView {
                        kind,
                        target: absolute_of(rest, note_dir, home),
                        line: None,
                        timestamp_seconds: None,
                    },
                )
            } else if kind == "video"@ {
                let (url, trailing) = first_token(rest);
                let (clean, embedded) = url_parts(url);
                let stamp = if words(trailing).len() > 0 {
                    words(trailing)[0]
                } else {
                    Seq::empty()
                };
                Some(
                    ActionView {
                        kind,
                        target: clean,
                        line: None,
                        timestamp_seconds: match timestamp_of(stamp) {
                            Some(n) => Some(n),
                            None => embedded,
                        },
                    },
                )
            } else if kind == "app"@ {
                Some(
                    ActionView { kind, target: rest, line: None, timestamp_seconds: None },
                )
            } else {
                Some(
                    ActionView { kind: "url"@, target: rest, line: None, timestamp_seconds: None },
                )
            }
        },
        _ => None,
    }
}

/// The actions that matches of [`action_pattern`] declare, in order.
pub open spec fn actions_of(
    found: Seq<Seq<Option<Seq<char>>>>,
    note_dir: Seq<char>,
    home: Option<Seq<char>>,
) -> Seq<ActionView>
    decreases found.len(),
{
    if found.len() == 0 {
        Seq::empty()
    } else {
        let before = actions_of(found.drop_last(), note_dir, home);
        match action_of(found.last(), note_dir, home) {
            Some(a) => before.push(a),
            None => before,
        }
    }
}

pub(crate) fn read_action(found: &Groups, note_dir: &str, home: Option<&str>) -> (r: Option<ParsedAction>)
    ensures
        match (r, action_of(groups_view(found@), note_dir@, crate::text::opt_str_view(home))) {
            (Some(a), Some(b)) => a@ == b,
            (None, None) => true,
            _ => false,
        },
{
    let kind = match group(found, 1) {
        Some(k) => k,
        None => {
            return None;
        },
    };
    let text = match group(found, 2) {
        Some(t) => t,
        None => {
            return None;
        },
    };
    let whole = to_chars(text);
    let rest = trim(&whole);
    if rest.len() == 0 {
        return None;
    }
    let rest_text = from_chars(rest);
    if text_eq(kind, "file") {
        let (path, line) = split_path_and_line(rest_text.as_str());
        return Some(
            ParsedAction {
                kind: kind.to_owned(),
                target: absolute(path, note_dir, home),
                line,
                timestamp_seconds: None,
            },
        );
    }
    if text_eq(kind, "project") {
        return Some(
            ParsedAction {
                kind: kind.to_owned(),
                target: absolute(rest_text.as_str(), note_dir, home),
                line: None,
                timestamp_seconds: None,
            },
        );
    }
    if text_eq(kind, "video") {
        let (url, trailing) = split_token(rest);
        let (clean, embedded) = strip_moment(url);
        let tokens = split_words(trailing);
        assert(slices(tokens@) == words(trailing@));
        let seconds: Option<u64> = if tokens.len() > 0 {
            assert(slices(tokens@)[0] == tokens@[0]@);
            timestamp(tokens[0])
        } else {
            let nothing = cut(trailing, 0, 0);
            assert(nothing@ == Seq::<char>::empty());
            timestamp(nothing)
        };
        return Some(
            ParsedAction {
                kind: kind.to_owned(),
                target: from_chars(&clean),
                line: None,
                timestamp_seconds: match seconds {
                    Some(n) => Some(n),
                    None => embedded,
                },
            },
        );
    }
    if text_eq(kind, "app") {
        return Some(
            ParsedAction {
                kind: kind.to_owned(),
                target: rest_text,
                line: None,
                timestamp_seconds: None,
            },
        );
    }
    Some(
        ParsedAction {
            kind: "url".to_owned(),
            target: rest_text,
            line: None,
            timestamp_seconds: None,
        },
    )
}

/// The actions that matches of the action pattern declare.
pub fn actions_from(found: &Vec<Groups>, note_dir: &str, home: Option<&str>) -> (r: Vec<
    ParsedAction,
>)
    ensures
        actions_view(r@) == actions_of(
            matches_view(found@),
            note_dir@,
            crate::text::opt_str_view(home),
        ),
{
    let ghost views = matches_view(found@);
    let mut r: Vec<ParsedAction> = Vec::new();
    let mut i: usize = 0;
    assert(views.take(0) == Seq::<Seq<Option<Seq<char>>>>::empty());
    assert(actions_view(r@) == Seq::<ActionView>::empty());
    while i < found.len()
        invariant
            0 <= i <= found.len(),
            views == matches_view(found@),
            actions_view(r@) == actions_of(
                views.take(i as int),
                note_dir@,
                crate::text::opt_str_view(home),
            ),
        decreases found.len() - i,
    {
        let ghost before = actions_view(r@);
        assert(views.take(i + 1).drop_last() == views.take(i as int));
        assert(views.take(i + 1).last() == groups_view(found@[i as int]@));
        if let Some(action) = read_action(&found[i], note_dir, home) {
            let ghost added = action@;
            r.push(action);
            assert(actions_view(r@) == before.push(added));
        }
        i += 1;
    }
    assert(views.take(found.len() as int) == views);
    r
}

/// Parses the `@action` lines in a section body.
///
/// `note_dir` is the directory containing the note, so that a relative path
/// resolves the way the author meant it.
pub fn parse_actions(body: &str, note_dir: &str, home: Option<&str>) -> (r: Vec<ParsedAction>)
    ensures
        actions_view(r@) == actions_of(
            found_or_none(regex_matches(action_pattern(), body@)),
            note_dir@,
            crate::text::opt_str_view(home),
        ),
{
    let found = matches_in(r"(?m)^\s*@(file|video|app|project|url)\s+(.+?)\s*$", body);
    actions_from(&found, note_dir, home)
}

// ---------------------------------------------------------------------------
// Relations
// ---------------------------------------------------------------------------

/// The pattern of a link to a section, with or without its type.
pub open spec fn relation_pattern() -> Seq<char> {
    r"(?m)(?:(outgoing|contradicts|example-of|ingoing|supersedes)::\s*)?\[\[([^\]|]+)(?:\|[^\]]+)?\]\]"@
}

/// The section that a link in the note `note_id` points at.
pub open spec fn target_of(target: Seq<char>, note_id: Seq<char>) -> Seq<char> {
    let t = trimmed(target);
    if t.len() > 0 && t[0] == '#' {
        note_id + t
    } else if t.contains('#') {
        t
    } else {
        t + "#root"@
    }
}

/// The full uid of the section that a link points at: `#here` is in this note, and
/// a bare note is its root.
pub fn normalize_target(target: &str, note_id: &str) -> (r: String)
    ensures
        r@ == target_of(target@, note_id@),
{
    let whole = to_chars(target);
    let t = trim(&whole);
    let text = from_chars(t);
    if t.len() > 0 && t[0] == '#' {
        let mut r = note_id.to_owned();
        r.append(text.as_str());
        r
    } else if has_char(t, '#') {
        text
    } else {
        let mut r = text;
        r.append("#root");
        r
    }
}

/// The relation that a match of [`relation_pattern`] declares.
pub open spec fn relation_of(found: Seq<Option<Seq<char>>>, note_id: Seq<char>) -> Option<
    RelationView,
> {
    match (group_of(found, 0), group_of(found, 2)) {
        (Some(context), Some(target)) => Some(
            RelationView {
                relation_type: match group_of(found, 1) {
                    Some(kind) => kind,
                    None => "related"@,
                },
                target_uid: target_of(target, note_id),
                context,
            },
        ),
        _ => None,
    }
}

/// The relations that matches of [`relation_pattern`] declare, in order.
pub open spec fn relations_of(found: Seq<Seq<Option<Seq<char>>>>, note_id: Seq<char>) -> Seq<
    RelationView,
>
    decreases found.len(),
{
    if found.len() == 0 {
        Seq::empty()
    } else {
        let before = relations_of(found.drop_last(), note_id);
        match relation_of(found.last(), note_id) {
            Some(relation) => before.push(relation),
            None => before,
        }
    }
}

fn read_relation(found: &Groups, note_id: &str) -> (r: Option<Relation>)
    ensures
        match (r, relation_of(groups_view(found@), note_id@)) {
            (Some(a), Some(b)) => a@ == b,
            (None, None) => true,
            _ => false,
        },
{
    let context = match group(found, 0) {
        Some(text) => text,
        None => {
            return None;
        },
    };
    let target = match group(found, 2) {
        Some(text) => text,
        None => {
            return None;
        },
    };
    let relation_type = match group(found, 1) {
        Some(text) => text,
        None => "related",
    };
    Some(
        Relation {
            relation_type: relation_type.to_owned(),
            target_uid: normalize_target(target, note_id),
            context: context.to_owned(),
        },
    )
}

/// The relations that matches of the relation pattern declare.
pub fn relations_from(found: &Vec<Groups>, note_id: &str) -> (r: Vec<Relation>)
    ensures
        relations_view(r@) == relations_of(matches_view(found@), note_id@),
{
    let ghost views = matches_view(found@);
    let mut r: Vec<Relation> = Vec::new();
    let mut i: usize = 0;
    assert(views.take(0) == Seq::<Seq<Option<Seq<char>>>>::empty());
    assert(relations_view(r@) == Seq::<RelationView>::empty());
    while i < found.len()
        invariant
            0 <= i <= found.len(),
            views == matches_view(found@),
            relations_view(r@) == relations_of(views.take(i as int), note_id@),
        decreases found.len() - i,
    {
        let ghost before = relations_view(r@);
        assert(views.take(i + 1).drop_last() == views.take(i as int));
        assert(views.take(i + 1).last() == groups_view(found@[i as int]@));
        if let Some(relation) = read_relation(&found[i], note_id) {
            let ghost added = relation@;
            r.push(relation);
            assert(relations_view(r@) == before.push(added));
        }
        i += 1;
    }
    assert(views.take(found.len() as int) == views);
    r
}

/// Parses the links in a section body.
pub fn parse_relations(body: &str, note_id: &str) -> (r: Vec<Relation>)
    ensures
        relations_view(r@) == relations_of(
            found_or_none(regex_matches(relation_pattern(), body@)),
            note_id@,
        ),
{
    let found = matches_in(
        r"(?m)(?:(outgoing|contradicts|example-of|ingoing|supersedes)::\s*)?\[\[([^\]|]+)(?:\|[^\]]+)?\]\]",
        body,
    );
    relations_from(&found, note_id)
}

// ---------------------------------------------------------------------------
// Headings
// ---------------------------------------------------------------------------

/// The pattern of a heading that ends in `{#id}`.
pub open spec fn heading_pattern() -> Seq<char> {
    r"^(.*?)\s*\{#([A-Za-z0-9_-]+)\}\s*$"@
}

/// A heading without its `{#id}`, and that id.
pub open spec fn heading_of(raw: Seq<char>, found: Seq<Seq<Option<Seq<char>>>>) -> (
    Seq<char>,
    Option<Seq<char>>,
) {
    match (first_group_of(found, 1), first_group_of(found, 2)) {
        (Some(heading), Some(id)) => (trimmed(heading), Some(id)),
        _ => (trimmed(raw), None),
    }
}

/// What the matches of the heading pattern in `raw` say.
pub fn heading_from(raw: &str, found: &Vec<Groups>) -> (r: (String, Option<String>))
    ensures
        (r.0@, opt_view(r.1)) == heading_of(raw@, matches_view(found@)),
{
    match (first_group(found, 1), first_group(found, 2)) {
        (Some(heading), Some(id)) => (crate::text::trim_text(heading.as_str()), Some(id)),
        _ => (crate::text::trim_text(raw), None),
    }
}

/// Takes `{#id}` off the end of a heading.
pub fn split_heading_id(raw: &str) -> (r: (String, Option<String>))
    ensures
        (r.0@, opt_view(r.1)) == heading_of(
            raw@,
            found_or_none(regex_matches(heading_pattern(), raw@)),
        ),
{
    let found = matches_in(r"^(.*?)\s*\{#([A-Za-z0-9_-]+)\}\s*$", raw);
    heading_from(raw, &found)
}

/// A text as an id or a file stem: lowercase letters and digits, with single
/// hyphens between.
pub fn slugify(value: &str) -> (r: String)
    ensures
        r@ == crate::text::slug_of(value@),
{
    let whole = to_chars(value);
    let mut slug: Vec<char> = Vec::new();
    let mut separator: bool = false;
    let mut i: usize = 0;
    assert(whole@.skip(0) == whole@);
    while i < whole.len()
        invariant
            0 <= i <= whole.len(),
            crate::text::slug_from(whole@, Seq::empty(), false) == crate::text::slug_from(
                whole@.skip(i as int),
                slug@,
                separator,
            ),
        decreases whole.len() - i,
    {
        let c = whole[i];
        assert(whole@.skip(i as int).drop_first() == whole@.skip(i + 1));
        if crate::text::ascii_alnum(c) {
            slug.push(crate::text::lower_ascii(c));
            separator = false;
        } else if !separator && slug.len() > 0 {
            slug.push('-');
            separator = true;
        }
        i += 1;
    }
    from_chars(trim_end_char(&slug, '-'))
}

// ---------------------------------------------------------------------------
// Laws
// ---------------------------------------------------------------------------


/// Trimming leaves a text as it is that has no white space at either end.
proof fn lemma_no_trim(s: Seq<char>)
    requires
        s.len() > 0,
        !crate::text::char_is_whitespace(s[0]),
        !crate::text::char_is_whitespace(s[s.len() - 1]),
    ensures
        trimmed(s) == s,
{
    crate::text::lemma_trim_by_fixed(s, space());
}

proof fn lemma_no_moment()
    ensures
        timestamp_of(Seq::empty()) is None,
{
    let cut = crate::text::trimming_takes_white_space_alone(Seq::<char>::empty());
}

proof fn lemma_relations_add(
    a: Seq<Seq<Option<Seq<char>>>>,
    b: Seq<Seq<Option<Seq<char>>>>,
    note_id: Seq<char>,
)
    ensures
        relations_of(a + b, note_id) == relations_of(a, note_id) + relations_of(b, note_id),
    decreases b.len(),
{
    if b.len() == 0 {
        assert(a + b == a);
        assert(relations_of(a, note_id) + Seq::<RelationView>::empty() == relations_of(a, note_id));
    } else {
        assert((a + b).drop_last() == a + b.drop_last());
        assert((a + b).last() == b.last());
        lemma_relations_add(a, b.drop_last(), note_id);
    }
}

/// Every link in a section is a relation, in the order of the links: of the type that stands
/// before it, or plainly related where none does, with the words of the link kept as they
/// are.
pub proof fn every_link_is_a_relation(
    before: Seq<Seq<Option<Seq<char>>>>,
    link: Seq<Option<Seq<char>>>,
    after: Seq<Seq<Option<Seq<char>>>>,
    note_id: Seq<char>,
)
    requires
        link.len() == 3,
        link[0] is Some,
        link[2] is Some,
    ensures
        ({
            let all = relations_of(before.push(link) + after, note_id);
            let at = relations_of(before, note_id).len() as int;
            &&& all == relations_of(before, note_id).push(all[at]) + relations_of(after, note_id)
            &&& link[1] is Some ==> all[at].relation_type == link[1]->0
            &&& link[1] is None ==> all[at].relation_type == "related"@
            &&& all[at].context == link[0]->0
            &&& all[at].target_uid == target_of(link[2]->0, note_id)
        }),
{
    lemma_relations_add(before.push(link), after, note_id);
    assert(before.push(link).drop_last() == before);
    let first = relations_of(before, note_id);
    assert(relations_of(before.push(link), note_id).len() == first.len() + 1);
}

/// What a link points at: `#here` is a section of the note itself, just as if the note were
/// named; a note and a section are what they say; and a note alone is its root.
pub proof fn a_link_points_at_one_section(name: Seq<char>, id: Seq<char>, note_id: Seq<char>)
    requires
        trimmed(id) == id,
        trimmed(name) == name,
        id.len() > 0,
        name.len() > 0,
        !name.contains('#'),
    ensures
        target_of(seq!['#'] + id, note_id) == note_id.push('#') + id,
        target_of(name.push('#') + id, note_id) == name.push('#') + id,
        target_of(seq!['#'] + id, name) == target_of(name.push('#') + id, note_id),
        target_of(name, note_id) == target_of(name + "#root"@, note_id),
        target_of(name, note_id) == name + "#root"@,
{
    reveal_strlit("#root");
    crate::text::lemma_trimmed_ends(id);
    crate::text::lemma_trimmed_ends(name);
    let own = seq!['#'] + id;
    assert(own[own.len() - 1] == id[id.len() - 1] && own[0] == '#');
    lemma_no_trim(own);
    assert(note_id + own == note_id.push('#') + id);
    assert(name + own == name.push('#') + id);
    assert(name.contains(name[0]));
    let full = name.push('#') + id;
    lemma_named_target(name, id, note_id);
    let root = seq!['r', 'o', 'o', 't'];
    assert(name + "#root"@ == name.push('#') + root);
    lemma_named_target(name, root, note_id);
}

proof fn lemma_named_target(name: Seq<char>, id: Seq<char>, note_id: Seq<char>)
    requires
        name.len() > 0,
        id.len() > 0,
        !crate::text::char_is_whitespace(name[0]),
        !crate::text::char_is_whitespace(id[id.len() - 1]),
        name[0] != '#',
    ensures
        target_of(name.push('#') + id, note_id) == name.push('#') + id,
{
    let full = name.push('#') + id;
    assert(full[0] == name[0] && full[full.len() - 1] == id[id.len() - 1]);
    lemma_no_trim(full);
    assert(full[name.len() as int] == '#');
}

proof fn lemma_actions_add(
    a: Seq<Seq<Option<Seq<char>>>>,
    b: Seq<Seq<Option<Seq<char>>>>,
    note_dir: Seq<char>,
    home: Option<Seq<char>>,
)
    ensures
        actions_of(a + b, note_dir, home) == actions_of(a, note_dir, home) + actions_of(
            b,
            note_dir,
            home,
        ),
    decreases b.len(),
{
    if b.len() == 0 {
        assert(a + b == a);
        assert(actions_of(a, note_dir, home) + Seq::<ActionView>::empty() == actions_of(
            a,
            note_dir,
            home,
        ));
    } else {
        assert((a + b).drop_last() == a + b.drop_last());
        assert((a + b).last() == b.last());
        lemma_actions_add(a, b.drop_last(), note_dir, home);
    }
}

/// Every line that names an action and what it acts on is that action, in the order of the
/// lines. A file may have a line, a video a moment; a file and a project are found from the
/// note; an application and an address stand as they are.
pub proof fn every_action_line_is_an_action(
    before: Seq<Seq<Option<Seq<char>>>>,
    line: Seq<Option<Seq<char>>>,
    after: Seq<Seq<Option<Seq<char>>>>,
    note_dir: Seq<char>,
    home: Option<Seq<char>>,
)
    requires
        line.len() == 3,
        line[1] is Some,
        line[2] is Some,
        trimmed(line[2]->0).len() > 0,
    ensures
        ({
            let kind = line[1]->0;
            let rest = trimmed(line[2]->0);
            let all = actions_of(before.push(line) + after, note_dir, home);
            let at = actions_of(before, note_dir, home).len() as int;
            let action = all[at];
            let known = kind == "file"@ || kind == "project"@ || kind == "video"@ || kind == "app"@;
            &&& all == actions_of(before, note_dir, home).push(action) + actions_of(
                after,
                note_dir,
                home,
            )
            &&& known ==> action.kind == kind
            &&& !known ==> action.kind == "url"@
            &&& kind == "file"@ ==> action.target == absolute_of(
                path_and_line(rest).0,
                note_dir,
                home,
            ) && action.line == path_and_line(rest).1
            &&& kind == "project"@ ==> action.target == absolute_of(rest, note_dir, home)
            &&& kind == "app"@ || !known ==> action.target == rest
            &&& kind == "video"@ ==> action.target == url_parts(first_token(rest).0).0
            &&& kind != "file"@ ==> action.line is None
            &&& kind != "video"@ ==> action.timestamp_seconds is None
        }),
{
    reveal_strlit("file");
    reveal_strlit("project");
    reveal_strlit("video");
    reveal_strlit("app");
    assert("file"@[0] == 'f' && "project"@[0] == 'p' && "video"@[0] == 'v' && "app"@[0] == 'a');
    lemma_actions_add(before.push(line), after, note_dir, home);
    assert(before.push(line).drop_last() == before);
}

/// A moment behind the address of a video counts before one within the address, which counts
/// where none stands behind it that can be read.
pub proof fn a_moment_behind_a_video_counts_first(
    url: Seq<char>,
    stamp: Seq<char>,
    note_dir: Seq<char>,
    home: Option<Seq<char>>,
)
    requires
        url.len() > 0,
        forall|i: int| 0 <= i < url.len() ==> !crate::text::char_is_whitespace(#[trigger] url[i]),
        stamp.len() > 0,
        forall|i: int|
            0 <= i < stamp.len() ==> !crate::text::char_is_whitespace(#[trigger] stamp[i]),
    ensures
        ({
            let line = seq![None, Some("video"@), Some(url.push(' ') + stamp)];
            let bare = seq![None, Some("video"@), Some(url)];
            let with_stamp = action_of(line, note_dir, home);
            let without = action_of(bare, note_dir, home);
            &&& with_stamp is Some && without is Some
            &&& with_stamp->0.target == url_parts(url).0
            &&& without->0.target == url_parts(url).0
            &&& timestamp_of(stamp) is Some ==> with_stamp->0.timestamp_seconds == timestamp_of(
                stamp,
            )
            &&& timestamp_of(stamp) is None ==> with_stamp->0.timestamp_seconds == url_parts(url).1
            &&& without->0.timestamp_seconds == url_parts(url).1
        }),
{
    reveal_strlit("file");
    reveal_strlit("project");
    reveal_strlit("video");
    assert("file"@[0] == 'f' && "project"@[0] == 'p' && "video"@[0] == 'v');
    let whole = url.push(' ') + stamp;
    assert(whole[0] == url[0] && whole.last() == stamp.last());
    assert(stamp.last() == stamp[stamp.len() - 1]);
    crate::text::lemma_trim_by_fixed(whole, space());
    assert(url.last() == url[url.len() - 1]);
    crate::text::lemma_trim_by_fixed(url, space());
    lemma_first_token(url, stamp);
    lemma_whole_token(url);
    crate::text::lemma_trim_by_fixed(stamp, space());
    lemma_one_word(stamp);
    assert(words(Seq::<char>::empty()).len() == 0);
    lemma_no_moment();
}

pub(crate) proof fn lemma_first_token(a: Seq<char>, b: Seq<char>)
    requires
        forall|i: int| 0 <= i < a.len() ==> !crate::text::char_is_whitespace(#[trigger] a[i]),
    ensures
        first_token(a.push(' ') + b) == (a, trimmed(b)),
{
    let whole = a.push(' ') + b;
    assert forall|j: int| 0 <= j < a.len() implies !space()(#[trigger] whole[j]) by {
        assert(whole[j] == a[j]);
    }
    assert(whole[a.len() as int] == ' ');
    assert(space()(whole[a.len() as int]));
    lemma_index_by_is(whole, space(), a.len() as int);
    assert(whole.take(a.len() as int) == a);
    assert(whole.skip(a.len() + 1int) == b);
}

pub(crate) proof fn lemma_whole_token(a: Seq<char>)
    requires
        forall|i: int| 0 <= i < a.len() ==> !crate::text::char_is_whitespace(#[trigger] a[i]),
    ensures
        first_token(a) == (a, Seq::<char>::empty()),
{
    assert forall|j: int| 0 <= j < a.len() implies !space()(#[trigger] a[j]) by {}
    lemma_index_by_is(a, space(), a.len() as int);
}

proof fn lemma_one_word(a: Seq<char>)
    requires
        a.len() > 0,
        forall|i: int| 0 <= i < a.len() ==> !crate::text::char_is_whitespace(#[trigger] a[i]),
    ensures
        words(a).len() > 0,
        words(a)[0] == a,
{
    assert forall|j: int| 0 <= j < a.len() implies !space()(#[trigger] a[j]) by {}
    lemma_index_by_is(a, space(), a.len() as int);
    assert(!space()(a[0]));
    assert(a.take(a.len() as int) == a);
}

/// A path from the root stays as it is. One that starts in `~/` is taken from the home
/// directory, where it is known, and any other from the directory of the note.
pub proof fn a_path_is_taken_from_where_it_starts(
    path: Seq<char>,
    note_dir: Seq<char>,
    home: Seq<char>,
)
    requires
        note_dir.len() > 0,
        note_dir.last() != '/',
        home.len() > 0,
        home[0] == '/',
        home.last() != '/',
        path.len() > 0,
        path[0] != '/',
        path[0] != '~',
    ensures
        absolute_of(seq!['/'] + path, note_dir, Some(home)) == seq!['/'] + path,
        absolute_of(path, note_dir, Some(home)) == note_dir.push('/') + path,
        absolute_of(path, note_dir, None) == note_dir.push('/') + path,
        absolute_of(seq!['~', '/'] + path, note_dir, Some(home)) == home.push('/') + path,
{
    reveal_strlit("~/");
    assert("~/"@ == seq!['~', '/']);
    let rooted = seq!['/'] + path;
    assert(rooted[0] == '/');
    let at_home = seq!['~', '/'] + path;
    assert(at_home.subrange(0, 2) == "~/"@);
    assert(starts_with(at_home, "~/"@));
    assert(at_home.skip(2) == path);
    assert((home.push('/') + path)[0] == '/');
    assert(!starts_with(path, "~/"@)) by {
        if starts_with(path, "~/"@) {
            assert(path.subrange(0, 2)[0] == path[0]);
        }
    }
    assert(!starts_with(rooted, "~/"@)) by {
        if starts_with(rooted, "~/"@) {
            assert(rooted.subrange(0, 2)[0] == rooted[0]);
        }
    }
}

proof fn lemma_last_index_is(s: Seq<char>, p: spec_fn(char) -> bool, k: int)
    requires
        -1 <= k < s.len(),
        forall|j: int| k < j < s.len() ==> !p(#[trigger] s[j]),
        k >= 0 ==> p(s[k]),
    ensures
        last_index_by(s, p) == k,
    decreases s.len(),
{
    if s.len() > 0 && k < s.len() - 1 {
        assert(!p(s[s.len() - 1]));
        let rest = s.drop_last();
        assert forall|j: int| k < j < rest.len() implies !p(#[trigger] rest[j]) by {
            assert(rest[j] == s[j]);
        }
        lemma_last_index_is(rest, p, k);
    }
}

/// A line number behind the last colon of a path is read back, and a path without a colon has
/// none.
pub proof fn a_line_is_read_behind_the_last_colon(path: Seq<char>, line: u32)
    ensures
        path_and_line(path.push(':') + decimal(line as nat)) == (path, Some(line)),
        !path.contains(':') ==> path_and_line(path) == (path, None::<u32>),
{
    lemma_decimal(line as nat);
    let d = decimal(line as nat);
    let whole = path.push(':') + d;
    let at = path.len() as int;
    assert forall|j: int| at < j < whole.len() implies !just(':')(#[trigger] whole[j]) by {
        assert(whole[j] == d[j - at - 1]);
        assert(is_digit(d[j - at - 1]));
    }
    assert(just(':')(whole[at]));
    lemma_last_index_is(whole, just(':'), at);
    assert(whole.take(at) == path);
    assert(whole.skip(at + 1) == d);
    assert(is_digit(d[0]));
    assert(number_in(d, u32::MAX as int) == Some(line as nat));
    if !path.contains(':') {
        assert forall|j: int| -1 < j < path.len() implies !just(':')(#[trigger] path[j]) by {
            assert(path.contains(path[j]));
        }
        lemma_last_index_is(path, just(':'), -1);
    }
}

proof fn lemma_units_push_digits(s: Seq<char>, n: u64)
    requires
        units(s) is Some,
        units(s)->0.current == 0,
    ensures
        units(s + decimal(n as nat)) == Some(
            Units { total: units(s)->0.total, current: n, seen: units(s)->0.seen },
        ),
    decreases n,
{
    let d = decimal(n as nat);
    lemma_decimal(n as nat);
    if n < 10 {
        assert((s + d).drop_last() == s);
        assert(is_digit(d[0]));
        assert((s + d).last() == d[0]);
    } else {
        let less = decimal((n / 10) as nat);
        assert(d == less.push(crate::text::digit_char((n % 10) as int)));
        lemma_units_push_digits(s, n / 10);
        assert((s + d).drop_last() == s + less);
        assert((s + d).last() == d.last());
        assert(is_digit(d[d.len() - 1]));
    }
}

/// Hours, minutes and seconds that are written with their units read as the moment they add
/// up to, and a number alone reads as seconds.
pub proof fn units_add_up(h: u64, m: u64, s: u64)
    requires
        h * 3600 + m * 60 + s <= u64::MAX,
    ensures
        timestamp_of(
            decimal(h as nat) + seq!['h'] + decimal(m as nat) + seq!['m'] + decimal(s as nat)
                + seq!['s'],
        ) == Some((h * 3600 + m * 60 + s) as u64),
        timestamp_of(decimal(s as nat)) == Some(s),
{
    lemma_decimal(h as nat);
    lemma_decimal(m as nat);
    lemma_decimal(s as nat);
    let none = Seq::<char>::empty();
    let dh = decimal(h as nat);
    let dm = decimal(m as nat);
    let ds = decimal(s as nat);
    lemma_units_push_digits(none, h);
    assert(none + dh == dh);
    let a = dh + seq!['h'];
    assert(a.drop_last() == dh && a.last() == 'h');
    assert(units(a) == Some(Units { total: (h * 3600) as u64, current: 0, seen: true }));
    lemma_units_push_digits(a, m);
    let b = a + dm + seq!['m'];
    assert(b.drop_last() == a + dm && b.last() == 'm');
    assert(units(b) == Some(Units { total: (h * 3600 + m * 60) as u64, current: 0, seen: true }));
    lemma_units_push_digits(b, s);
    let t = b + ds + seq!['s'];
    assert(t.drop_last() == b + ds && t.last() == 's');
    assert(units(b + ds) == Some(
        Units { total: (h * 3600 + m * 60) as u64, current: s, seen: true },
    ));
    assert(unit_seconds('s') == Some(1u64));
    assert(s * 1u64 == s) by (nonlinear_arith);
    assert(units(t) == Some(
        Units { total: (h * 3600 + m * 60 + s) as u64, current: 0, seen: true },
    ));
    assert(is_digit(dh[0]));
    assert(t[0] == dh[0]);
    crate::text::lemma_trim_by_fixed(t, space());
    assert(!t.contains(':')) by {
        if t.contains(':') {
            let k = choose|k: int| 0 <= k < t.len() && t[k] == ':';
            if k < dh.len() {
                assert(t[k] == dh[k] && is_digit(dh[k]));
            } else if k == dh.len() {
                assert(t[k] == 'h');
            } else if k < a.len() + dm.len() {
                assert(t[k] == dm[k - a.len()] && is_digit(dm[k - a.len()]));
            } else if k == a.len() + dm.len() {
                assert(t[k] == 'm');
            } else if k < b.len() + ds.len() {
                assert(t[k] == ds[k - b.len()] && is_digit(ds[k - b.len()]));
            }
        }
    }
    assert(number_in(t, u64::MAX as int) is None) by {
        assert(t[0] != '+');
        assert(!is_digit(t[dh.len() as int]));
    }
    assert(is_digit(ds[0]) && is_digit(ds[ds.len() - 1]));
    crate::text::lemma_trim_by_fixed(ds, space());
    assert(!ds.contains(':')) by {
        if ds.contains(':') {
            let k = choose|k: int| 0 <= k < ds.len() && ds[k] == ':';
            assert(is_digit(ds[k]));
        }
    }
    assert(number_in(ds, u64::MAX as int) == Some(s as nat));
}

/// A clip is an address and, behind it, a moment or two and a label. A moment that stands
/// behind the address counts before one within it.
pub proof fn a_clip_is_read_from_its_parts(
    url: Seq<char>,
    from: Seq<char>,
    to: Seq<char>,
    label: Seq<char>,
)
    requires
        url.len() > 0,
        from.len() > 0,
        label.len() > 0,
        trimmed(label) == label,
        forall|i: int| 0 <= i < url.len() ==> !crate::text::char_is_whitespace(#[trigger] url[i]),
        forall|i: int|
            0 <= i < from.len() ==> !crate::text::char_is_whitespace(#[trigger] from[i]) && from[i]
                != '-',
        forall|i: int| 0 <= i < to.len() ==> !crate::text::char_is_whitespace(#[trigger] to[i]),
        timestamp_of(from) is Some,
    ensures
        ({
            let bare = clip_parts_of(url);
            let one = clip_parts_of(url.push(' ') + (from.push(' ') + label));
            let two = clip_parts_of(url.push(' ') + ((from.push('-') + to).push(' ') + label));
            let clean = url_parts(url).0;
            &&& bare == Some(
                ClipView {
                    url: clean,
                    video_id: None,
                    start: match url_parts(url).1 {
                        Some(n) => n,
                        None => 0,
                    },
                    end: None,
                    label: None,
                },
            )
            &&& one == Some(
                ClipView {
                    url: clean,
                    video_id: None,
                    start: timestamp_of(from)->0,
                    end: None,
                    label: Some(label),
                },
            )
            &&& two == Some(
                ClipView {
                    url: clean,
                    video_id: None,
                    start: timestamp_of(from)->0,
                    end: timestamp_of(to),
                    label: Some(label),
                },
            )
        }),
{
    crate::text::lemma_trimmed_ends(label);
    lemma_no_trim(url);
    lemma_whole_token(url);
    lemma_whole_token(Seq::<char>::empty());
    lemma_no_moment();
    assert(index_by(Seq::<char>::empty(), just('-')) == 0);
    let tail = from.push(' ') + label;
    lemma_clip_trims(url, from, label);
    lemma_first_token(url, tail);
    lemma_first_token(from, label);
    assert forall|j: int| 0 <= j < from.len() implies !just('-')(#[trigger] from[j]) by {}
    lemma_index_by_is(from, just('-'), from.len() as int);
    let range = from.push('-') + to;
    let tail = range.push(' ') + label;
    assert forall|i: int| 0 <= i < range.len() implies !crate::text::char_is_whitespace(
        #[trigger] range[i],
    ) by {
        if i < from.len() {
            assert(range[i] == from[i]);
        } else if i > from.len() {
            assert(range[i] == to[i - from.len() - 1]);
        }
    }
    lemma_clip_trims(url, range, label);
    lemma_first_token(url, tail);
    lemma_first_token(range, label);
    assert forall|j: int| 0 <= j < from.len() implies !just('-')(#[trigger] range[j]) by {
        assert(range[j] == from[j]);
    }
    assert(just('-')(range[from.len() as int]));
    lemma_index_by_is(range, just('-'), from.len() as int);
    assert(range.take(from.len() as int) == from);
    assert(range.skip(from.len() + 1int) == to);
}

proof fn lemma_clip_trims(url: Seq<char>, range: Seq<char>, label: Seq<char>)
    requires
        url.len() > 0,
        range.len() > 0,
        label.len() > 0,
        !crate::text::char_is_whitespace(url[0]),
        !crate::text::char_is_whitespace(range[0]),
        !crate::text::char_is_whitespace(label[label.len() - 1]),
    ensures
        trimmed(range.push(' ') + label) == range.push(' ') + label,
        trimmed(url.push(' ') + (range.push(' ') + label)) == url.push(' ') + (range.push(' ')
            + label),
{
    let tail = range.push(' ') + label;
    assert(tail[0] == range[0] && tail.last() == label[label.len() - 1]);
    crate::text::lemma_trim_by_fixed(tail, space());
    let whole = url.push(' ') + tail;
    assert(whole[0] == url[0] && whole.last() == label[label.len() - 1]);
    crate::text::lemma_trim_by_fixed(whole, space());
}

/// What stands behind the address of a clip and reads as no moment is its label, all of it,
/// and the clip has no end.
pub proof fn what_is_no_moment_is_a_label(url: Seq<char>, label: Seq<char>)
    requires
        url.len() > 0,
        label.len() > 0,
        trimmed(label) == label,
        forall|i: int| 0 <= i < url.len() ==> !crate::text::char_is_whitespace(#[trigger] url[i]),
        range_of(first_token(label).0).0 is None,
    ensures
        ({
            let clip = clip_parts_of(url.push(' ') + label);
            clip == Some(
                ClipView {
                    url: url_parts(url).0,
                    video_id: None,
                    start: match url_parts(url).1 {
                        Some(n) => n,
                        None => 0,
                    },
                    end: None,
                    label: Some(label),
                },
            )
        }),
{
    crate::text::lemma_trimmed_ends(label);
    let whole = url.push(' ') + label;
    assert(whole[0] == url[0] && whole[whole.len() - 1] == label[label.len() - 1]);
    lemma_no_trim(whole);
    lemma_first_token(url, label);
    lemma_index_by(label, space());
    assert(!space()(label[0]));
    assert(first_token(label).0.len() > 0);
}

/// A URL keeps its other parameters in their order when the moment is lifted out of it, and
/// the moment is that of the last parameter that names one.
pub proof fn lifting_a_moment_keeps_the_rest(
    base: Seq<char>,
    before: Seq<char>,
    value: Seq<char>,
    n: u64,
)
    requires
        !base.contains('?'),
        before.len() > 0,
        !before.contains('&'),
        !is_moment(before),
        !value.contains('&'),
        timestamp_of(trim_end_by(value, just('s'))) == Some(n),
    ensures
        url_parts(base.push('?') + before) == (base.push('?') + before, None::<u64>),
        url_parts(base.push('?') + (seq!['t', '='] + value)) == (base, Some(n)),
        url_parts(base.push('?') + (before.push('&') + (seq!['t', '='] + value))) == (
            base.push('?') + before,
            Some(n),
        ),
        url_parts(base.push('?') + ((seq!['t', '='] + value).push('&') + before)) == (
            base.push('?') + before,
            Some(n),
        ),
{
    reveal_strlit("t");
    reveal_strlit("start");
    let stamp = seq!['t', '='] + value;
    assert(!stamp.contains('&')) by {
        if stamp.contains('&') {
            let k = choose|k: int| 0 <= k < stamp.len() && stamp[k] == '&';
            assert(value.contains(value[k - 2]));
        }
    }
    assert(!just('=')(stamp[0]) && just('=')(stamp[1]));
    lemma_index_by_is(stamp, just('='), 1);
    assert(stamp.take(1) == "t"@);
    assert(stamp.skip(2) == value);
    assert(is_moment(stamp) && moment(stamp) == Some(n));
    lemma_query(base, before);
    lemma_query(base, stamp);
    lemma_query(base, before.push('&') + stamp);
    lemma_query(base, stamp.push('&') + before);
    crate::text::lemma_split_none(before, '&');
    crate::text::lemma_split_none(stamp, '&');
    crate::text::lemma_split_add(before, '&', stamp);
    crate::text::lemma_split_add(stamp, '&', before);
    assert(before + seq!['&'] + stamp == before.push('&') + stamp);
    assert(stamp + seq!['&'] + before == stamp.push('&') + before);
    let none = Seq::<Seq<char>>::empty();
    assert(seq![before].drop_last() == none);
    assert(seq![stamp].drop_last() == none);
    let ab = seq![before] + seq![stamp];
    let ba = seq![stamp] + seq![before];
    assert(ab.drop_last() == seq![before] && ab.last() == stamp);
    assert(ba.drop_last() == seq![stamp] && ba.last() == before);
    assert(kept_parameters(none) == none);
    assert(last_moment(none) is None);
    assert(kept_parameters(seq![before]) == seq![before]);
    assert(kept_parameters(seq![stamp]) == none);
    assert(kept_parameters(ba) == seq![before]);
    assert(join(seq![before], seq!['&']) == before);
    assert(base + seq!['?'] + before == base.push('?') + before);
}

proof fn lemma_query(base: Seq<char>, query: Seq<char>)
    requires
        !base.contains('?'),
    ensures
        ({
            let url = base.push('?') + query;
            let i = index_by(url, just('?'));
            i == base.len() && i < url.len() && url.take(i) == base && url.skip(i + 1) == query
        }),
{
    let url = base.push('?') + query;
    let i = base.len() as int;
    assert forall|j: int| 0 <= j < i implies !just('?')(#[trigger] url[j]) by {
        assert(url[j] == base[j]);
        assert(base.contains(base[j]));
    }
    assert(just('?')(url[i]));
    lemma_index_by_is(url, just('?'), i);
    assert(url.take(i) == base);
    assert(url.skip(i + 1) == query);
}

/// The id of a video stands behind one of the marks that its addresses have, and only in an
/// address of a video.
pub proof fn a_video_id_is_read_from_its_address(url: Seq<char>)
    ensures
        !contains_text(url, "youtube.com"@) && !contains_text(url, "youtu.be"@)
            ==> youtube_id_of(url) is None,
        contains_text(url, "youtube.com"@) || contains_text(url, "youtu.be"@) ==> youtube_id_of(url)
            == first_group_of(
            found_or_none(
                regex_matches(
                    r"(?:v=|/v/|youtu\.be/|/embed/|/shorts/|/live/)([A-Za-z0-9_-]{11})"@,
                    url,
                ),
            ),
            1,
        ),
{
}

/// A clip carries the id of its video, and is otherwise what was read from its parts.
pub proof fn a_clip_carries_the_id_of_its_video(raw: Seq<char>)
    ensures
        clip_of(raw) is Some <==> clip_parts_of(raw) is Some,
        clip_of(raw) matches Some(clip) ==> clip.video_id == youtube_id_of(clip.url) && clip.url
            == clip_parts_of(raw)->0.url && clip.start == clip_parts_of(raw)->0.start && clip.end
            == clip_parts_of(raw)->0.end && clip.label == clip_parts_of(raw)->0.label,
{
}

} // verus!
