//! Turning an `@video` target into the command that plays it.
//!
//! A template that cannot take a timestamp on its own gets it rebuilt into the URL,
//! from the parsed number rather than from what the author wrote.

use vstd::prelude::*;
use vstd::string::*;

use crate::outside::{matches_view, regex_matches, Groups};
use crate::parser::{
    found_or_none, group, group_of, is_moment, is_youtube, join_path, joined, kept_parameters,
    last_moment, matches_in, moment, sexagesimal, timestamp_of, url_parts,
};
use crate::text::{
    all_digits, clone_texts, contains_text, decimal, decimal_text, digit_char, digits_value,
    from_chars, index_by, is_digit, just, lemma_decimal, lemma_index_by, lemma_index_by_is,
    lemma_trim_by_fixed, number_in, occurs_at, opt_view, replace, replaced, space, split_by,
    starts_with, text_contains, texts, to_chars, trim_end_by, trimmed, two_digits,
};

verus! {

/// Whether a program is there to run, for the configured player and for each that
/// stands in for it.
#[derive(Debug, Clone, Copy, PartialEq, Eq, Structural)]
pub struct Installed {
    pub configured: bool,
    pub yclippy: bool,
    pub mpv: bool,
}

/// The paths at which the program of a template may be. A name with a separator is a
/// path; a bare name is looked up in each directory of the search path.
pub open spec fn candidates_of(template: Seq<Seq<char>>, search: Seq<Seq<char>>) -> Seq<Seq<char>> {
    if template.len() == 0 {
        Seq::empty()
    } else if template[0].contains('/') {
        seq![template[0]]
    } else {
        Seq::new(search.len(), |i: int| joined(search[i], template[0]))
    }
}

/// The paths at which the program of a template may be: it is installed when one of
/// them exists.
pub fn candidates(template: &Vec<String>, search: &Vec<String>) -> (r: Vec<String>)
    ensures
        texts(r@) == candidates_of(texts(template@), texts(search@)),
{
    let mut r: Vec<String> = Vec::new();
    if template.len() == 0 {
        assert(texts(r@) == Seq::<Seq<char>>::empty());
        return r;
    }
    let program = &template[0];
    assert(texts(template@)[0] == program@);
    let chars = to_chars(program.as_str());
    if crate::text::has_char(&chars, '/') {
        r.push(program.clone());
        assert(texts(r@) == seq![program@]);
        return r;
    }
    let mut i: usize = 0;
    while i < search.len()
        invariant
            0 <= i <= search.len(),
            r.len() == i,
            forall|k: int| 0 <= k < i ==> (#[trigger] r@[k])@ == joined(search@[k]@, program@),
        decreases search.len() - i,
    {
        r.push(join_path(search[i].as_str(), program.as_str()));
        i += 1;
    }
    assert(texts(r@) == candidates_of(texts(template@), texts(search@)));
    r
}

/// The last resort: whatever handles the URL.
pub open spec fn fallback_template() -> Seq<Seq<char>> {
    seq!["xdg-open"@, "{url}"@]
}

/// The player to use: the configured one, `yclippy`, `mpv`, or the last resort.
pub open spec fn player_of(configured: Option<Seq<Seq<char>>>, installed: Installed) -> Seq<
    Seq<char>,
> {
    if configured is Some && configured->0.len() > 0 && installed.configured {
        configured->0
    } else if installed.yclippy {
        seq!["yclippy"@, "play"@, "{url}"@, "--at"@, "{seconds}"@]
    } else if installed.mpv {
        seq!["mpv"@, "--start={seconds}"@, "{url}"@]
    } else {
        fallback_template()
    }
}

/// The view of an optional list of texts.
pub open spec fn template_view(t: Option<&Vec<String>>) -> Option<Seq<Seq<char>>> {
    match t {
        Some(list) => Some(texts(list@)),
        None => None,
    }
}

/// The template for `yclippy`.
pub fn yclippy_template() -> (r: Vec<String>)
    ensures
        texts(r@) == seq!["yclippy"@, "play"@, "{url}"@, "--at"@, "{seconds}"@],
{
    let mut r: Vec<String> = Vec::new();
    r.push("yclippy".to_owned());
    r.push("play".to_owned());
    r.push("{url}".to_owned());
    r.push("--at".to_owned());
    r.push("{seconds}".to_owned());
    assert(texts(r@) == seq!["yclippy"@, "play"@, "{url}"@, "--at"@, "{seconds}"@]);
    r
}

/// The template for `mpv`.
pub fn mpv_template() -> (r: Vec<String>)
    ensures
        texts(r@) == seq!["mpv"@, "--start={seconds}"@, "{url}"@],
{
    let mut r: Vec<String> = Vec::new();
    r.push("mpv".to_owned());
    r.push("--start={seconds}".to_owned());
    r.push("{url}".to_owned());
    assert(texts(r@) == seq!["mpv"@, "--start={seconds}"@, "{url}"@]);
    r
}

/// The player to use, given whatever the configuration asks for.
///
/// A configured player that is not installed falls back silently: a configuration
/// that came from another machine should still open the video.
pub fn resolve(configured: Option<&Vec<String>>, installed: Installed) -> (r: Vec<String>)
    ensures
        texts(r@) == player_of(template_view(configured), installed),
{
    if let Some(template) = configured {
        assert(texts(template@).len() == template.len());
        if template.len() > 0 && installed.configured {
            return clone_texts(template);
        }
    }
    if installed.yclippy {
        return yclippy_template();
    }
    if installed.mpv {
        return mpv_template();
    }
    default_template()
}

/// The last resort: whatever handles the URL, with the timestamp rebuilt in by
/// [`expand`].
pub fn default_template() -> (r: Vec<String>)
    ensures
        texts(r@) == fallback_template(),
{
    let mut r: Vec<String> = Vec::new();
    r.push("xdg-open".to_owned());
    r.push("{url}".to_owned());
    assert(texts(r@) == fallback_template());
    r
}

/// A URL with a timestamp put back into it.
pub open spec fn timestamped(url: Seq<char>, seconds: u64) -> Seq<char> {
    url + (if url.contains('?') {
        seq!['&']
    } else {
        seq!['?']
    }) + "t="@ + decimal(seconds as nat) + "s"@
}

/// Puts a timestamp back into a URL, for a handler that cannot take one separately.
pub fn with_timestamp(url: &str, seconds: u64) -> (r: String)
    ensures
        r@ == timestamped(url@, seconds),
{
    let chars = to_chars(url);
    let mut r = url.to_owned();
    if crate::text::has_char(&chars, '?') {
        r.push('&');
        assert(r@ == url@ + seq!['&']);
    } else {
        r.push('?');
        assert(r@ == url@ + seq!['?']);
    }
    r.append("t=");
    let shown = decimal_text(seconds);
    r.append(shown.as_str());
    r.append("s");
    r
}

/// Whether some element of a template takes the seconds.
pub open spec fn takes_seconds(template: Seq<Seq<char>>) -> bool {
    exists|i: int|
        0 <= i < template.len() && contains_text(#[trigger] template[i], "{seconds}"@)
}

/// One element of a template, filled in.
pub open spec fn filled(element: Seq<char>, url: Seq<char>, seconds: Option<u64>) -> Seq<char> {
    replaced(
        replaced(element, "{url}"@, url),
        "{seconds}"@,
        decimal(
            match seconds {
                Some(n) => n as nat,
                None => 0,
            },
        ),
    )
}

/// The URL that is filled in: with the timestamp, when nothing else takes it.
pub open spec fn url_for(template: Seq<Seq<char>>, url: Seq<char>, seconds: Option<u64>) -> Seq<
    char,
> {
    match seconds {
        Some(n) => if takes_seconds(template) {
            url
        } else {
            timestamped(url, n)
        },
        None => url,
    }
}

/// A template filled in, element by element.
pub open spec fn expanded(template: Seq<Seq<char>>, url: Seq<char>, seconds: Option<u64>) -> Seq<
    Seq<char>,
> {
    Seq::new(
        template.len(),
        |i: int| filled(template[i], url_for(template, url, seconds), seconds),
    )
}

fn any_takes_seconds(template: &Vec<String>) -> (r: bool)
    ensures
        r == takes_seconds(texts(template@)),
{
    let ghost views = texts(template@);
    let mut i: usize = 0;
    while i < template.len()
        invariant
            0 <= i <= template.len(),
            views == texts(template@),
            forall|k: int| 0 <= k < i ==> !contains_text(#[trigger] views[k], "{seconds}"@),
        decreases template.len() - i,
    {
        assert(views[i as int] == template@[i as int]@);
        if text_contains(template[i].as_str(), "{seconds}") {
            return true;
        }
        i += 1;
    }
    false
}

fn replace_text(s: &str, from: &str, to: &str) -> (r: String)
    requires
        from@.len() > 0,
    ensures
        r@ == replaced(s@, from@, to@),
{
    let a = to_chars(s);
    let b = to_chars(from);
    let c = to_chars(to);
    let r = replace(&a, &b, &c);
    from_chars(&r)
}

/// Expands `{url}` and `{seconds}` into an argument list.
///
/// Substitution happens inside each element and nothing is split again, so a URL with
/// a space in it stays one argument.
pub fn expand(template: &Vec<String>, url: &str, seconds: Option<u64>) -> (r: Vec<String>)
    ensures
        texts(r@) == expanded(texts(template@), url@, seconds),
        r.len() == template.len(),
{
    proof {
        reveal_strlit("{url}");
        reveal_strlit("{seconds}");
    }
    let shown_url = match seconds {
        Some(n) => if any_takes_seconds(template) {
            url.to_owned()
        } else {
            with_timestamp(url, n)
        },
        None => url.to_owned(),
    };
    let shown_seconds = decimal_text(
        match seconds {
            Some(n) => n,
            None => 0,
        },
    );
    let mut r: Vec<String> = Vec::new();
    let mut i: usize = 0;
    while i < template.len()
        invariant
            0 <= i <= template.len(),
            "{url}"@.len() > 0,
            "{seconds}"@.len() > 0,
            shown_url@ == url_for(texts(template@), url@, seconds),
            shown_seconds@ == decimal(
                match seconds {
                    Some(n) => n as nat,
                    None => 0,
                },
            ),
            r.len() == i,
            forall|k: int|
                0 <= k < i ==> (#[trigger] r@[k])@ == filled(
                    template@[k]@,
                    shown_url@,
                    seconds,
                ),
        decreases template.len() - i,
    {
        let once = replace_text(template[i].as_str(), "{url}", shown_url.as_str());
        r.push(replace_text(once.as_str(), "{seconds}", shown_seconds.as_str()));
        i += 1;
    }
    assert(texts(r@) == expanded(texts(template@), url@, seconds));
    r
}

/// `6:54` for 414 seconds, `1:06:54` for 4014.
pub open spec fn clock(seconds: u64) -> Seq<char> {
    let h = (seconds / 3600) as nat;
    let m = ((seconds % 3600) / 60) as nat;
    let s = (seconds % 60) as nat;
    if h > 0 {
        decimal(h) + ":"@ + two_digits(m) + ":"@ + two_digits(s)
    } else {
        decimal(m) + ":"@ + two_digits(s)
    }
}

fn append_two_digits(r: &mut String, n: u64)
    ensures
        final(r)@ == old(r)@ + two_digits(n as nat),
{
    let ghost before = r@;
    if n < 10 {
        r.push('0');
    }
    let shown = decimal_text(n);
    r.append(shown.as_str());
    assert(r@ == before + two_digits(n as nat));
}

/// A moment in the shape in which `@video` lines are written.
pub fn format_hms(seconds: u64) -> (r: String)
    ensures
        r@ == clock(seconds),
{
    let h: u64 = seconds / 3600;
    let m: u64 = (seconds % 3600) / 60;
    let s: u64 = seconds % 60;
    if h > 0 {
        let mut r = decimal_text(h);
        r.append(":");
        append_two_digits(&mut r, m);
        r.append(":");
        append_two_digits(&mut r, s);
        r
    } else {
        let mut r = decimal_text(m);
        r.append(":");
        append_two_digits(&mut r, s);
        r
    }
}

/// The pattern of a URL in prose.
pub open spec fn url_pattern() -> Seq<char> {
    r"https?://[^\s)>\]]+"@
}

/// The first of the matches that is a YouTube URL.
pub open spec fn first_video_of(found: Seq<Seq<Option<Seq<char>>>>) -> Option<Seq<char>>
    decreases found.len(),
{
    if found.len() == 0 {
        None
    } else {
        match group_of(found[0], 0) {
            Some(url) => if is_youtube(url) {
                Some(url)
            } else {
                first_video_of(found.drop_first())
            },
            None => first_video_of(found.drop_first()),
        }
    }
}

/// The first YouTube URL among matches of the URL pattern.
pub fn first_video(found: &Vec<Groups>) -> (r: Option<String>)
    ensures
        opt_view(r) == first_video_of(matches_view(found@)),
{
    let ghost views = matches_view(found@);
    let mut i: usize = 0;
    assert(views.skip(0) == views);
    while i < found.len()
        invariant
            0 <= i <= found.len(),
            views == matches_view(found@),
            first_video_of(views) == first_video_of(views.skip(i as int)),
        decreases found.len() - i,
    {
        assert(views.skip(i as int)[0] == crate::outside::groups_view(found@[i as int]@));
        assert(views.skip(i as int).drop_first() == views.skip(i + 1));
        if let Some(url) = group(&found[i], 0) {
            if text_contains(url, "youtube.com") || text_contains(url, "youtu.be") {
                return Some(url.to_owned());
            }
        }
        i += 1;
    }
    None
}

/// The first YouTube URL in a block of text, for sections that carry a link without
/// an `@video` line.
pub fn first_video_url(body: &str) -> (r: Option<String>)
    ensures
        opt_view(r) == first_video_of(found_or_none(regex_matches(url_pattern(), body@))),
{
    let found = matches_in(r"https?://[^\s)>\]]+", body);
    first_video(&found)
}

// ---------------------------------------------------------------------------
// Laws
// ---------------------------------------------------------------------------

/// Whatever is installed, there is a program to run, and without a configured player
/// some element takes the URL.
pub proof fn resolution_is_runnable(configured: Option<Seq<Seq<char>>>, installed: Installed)
    ensures
        player_of(configured, installed).len() > 0,
        !(configured is Some && installed.configured) ==> exists|i: int|
            0 <= i < player_of(configured, installed).len() && #[trigger] player_of(
                configured,
                installed,
            )[i] == "{url}"@,
{
    let p = player_of(configured, installed);
    if !(configured is Some && installed.configured) {
        if installed.yclippy {
            assert(p[2] == "{url}"@);
        } else if installed.mpv {
            assert(p[2] == "{url}"@);
        } else {
            assert(p[1] == "{url}"@);
        }
    }
}

/// Expanding a template keeps its length: nothing is split again.
pub proof fn expansion_keeps_the_arguments(
    template: Seq<Seq<char>>,
    url: Seq<char>,
    seconds: Option<u64>,
)
    ensures
        expanded(template, url, seconds).len() == template.len(),
{
}

proof fn lemma_digits_plain(s: Seq<char>)
    requires
        s.len() > 0,
        all_digits(s),
    ensures
        trimmed(s) == s,
        !s.contains(':'),
        !s.contains('&'),
        !s.contains('='),
        s[0] != '+',
        s.last() != 's',
{
    assert(is_digit(s[0]) && is_digit(s[s.len() - 1]));
    lemma_trim_by_fixed(s, space());
    assert forall|i: int| 0 <= i < s.len() implies s[i] != ':' && s[i] != '&' && s[i] != '=' by {
        assert(is_digit(s[i]));
    }
}

proof fn lemma_two_digits(n: nat)
    ensures
        two_digits(n).len() > 0,
        all_digits(two_digits(n)),
        digits_value(two_digits(n)) == n,
{
    lemma_decimal(n);
    if n < 10 {
        let s = two_digits(n);
        assert(s == seq!['0', digit_char(n as int)]);
        assert(s.drop_last() == seq!['0']);
        assert(seq!['0'].drop_last() == Seq::<char>::empty());
        reveal_with_fuel(digits_value, 3);
        assert(is_digit('0'));
        assert(is_digit(decimal(n)[0]));
        assert forall|i: int| 0 <= i < s.len() implies is_digit(#[trigger] s[i]) by {
            if i == 1 {
                assert(s[1] == decimal(n)[0]);
            }
        }
    }
}

/// A moment written as a clock reads back as the same moment.
pub proof fn a_clock_reads_back(seconds: u64)
    ensures
        timestamp_of(clock(seconds)) == Some(seconds),
{
    let h = (seconds / 3600) as nat;
    let m = ((seconds % 3600) / 60) as nat;
    let s = (seconds % 60) as nat;
    reveal_strlit(":");
    assert(":"@ == seq![':']);
    lemma_decimal(h);
    lemma_decimal(m);
    lemma_two_digits(m);
    lemma_two_digits(s);
    let dh = decimal(h);
    let dm = decimal(m);
    let tm = two_digits(m);
    let ts = two_digits(s);
    lemma_digits_plain(dh);
    lemma_digits_plain(dm);
    lemma_digits_plain(tm);
    lemma_digits_plain(ts);
    let t = clock(seconds);
    assert(t.last() == ts.last());
    assert(t[0] == if h > 0 {
        dh[0]
    } else {
        dm[0]
    });
    assert(is_digit(dh[0]) && is_digit(dm[0]) && is_digit(ts[ts.len() - 1]));
    lemma_trim_by_fixed(t, space());
    let max = u64::MAX as int;
    assert(number_in(ts, max) == Some(s));
    assert(number_in(tm, max) == Some(m));
    assert(number_in(dm, max) == Some(m));
    assert(number_in(dh, max) == Some(h));
    crate::text::lemma_split_none(ts, ':');
    reveal_with_fuel(sexagesimal, 4);
    if h > 0 {
        let tail = tm + seq![':'] + ts;
        assert(t == dh + seq![':'] + tail);
        assert(t[dh.len() as int] == ':');
        crate::text::lemma_split_none(dh, ':');
        crate::text::lemma_split_none(tm, ':');
        crate::text::lemma_split_add(tm, ':', ts);
        crate::text::lemma_split_add(dh, ':', tail);
        let parts = seq![dh, tm, ts];
        assert(split_by(t, just(':')) == parts);
        assert(parts.drop_last() == seq![dh, tm]);
        assert(parts.drop_last().drop_last() == seq![dh]);
        assert(parts.drop_last().drop_last().drop_last() == Seq::<Seq<char>>::empty());
        assert(sexagesimal(seq![dh]) == Some(h as u64));
        assert(sexagesimal(seq![dh, tm]) == Some((h * 60 + m) as u64));
        assert((h * 60 + m) * 60 + s == seconds);
    } else {
        assert(t == dm + seq![':'] + ts);
        assert(t[dm.len() as int] == ':');
        crate::text::lemma_split_none(dm, ':');
        crate::text::lemma_split_add(dm, ':', ts);
        let parts = seq![dm, ts];
        assert(split_by(t, just(':')) == parts);
        assert(parts.drop_last() == seq![dm]);
        assert(parts.drop_last().drop_last() == Seq::<Seq<char>>::empty());
        assert(sexagesimal(seq![dm]) == Some(m as u64));
        assert(m * 60 + s == seconds);
    }
}

/// The query parameters of a URL.
pub open spec fn parameters_of(url: Seq<char>) -> Seq<Seq<char>> {
    split_by(url.skip(index_by(url, just('?')) + 1), just('&'))
}

/// The parameter that a timestamp is put back as.
spec fn stamp(seconds: u64) -> Seq<char> {
    "t="@ + decimal(seconds as nat) + "s"@
}

proof fn lemma_stamp(seconds: u64)
    ensures
        is_moment(stamp(seconds)),
        moment(stamp(seconds)) == Some(seconds),
        !stamp(seconds).contains('&'),
{
    reveal_strlit("t=");
    reveal_strlit("t");
    reveal_strlit("s");
    lemma_decimal(seconds as nat);
    let d = decimal(seconds as nat);
    lemma_digits_plain(d);
    let p = stamp(seconds);
    assert(p[0] == 't' && p[1] == '=');
    lemma_index_by_is(p, just('='), 1);
    assert(p.take(1) == "t"@);
    let value = p.skip(2);
    assert(value == d + seq!['s']);
    assert(value.drop_last() == d);
    assert(value.last() == 's');
    assert(trim_end_by(value, just('s')) == trim_end_by(d, just('s')));
    assert(trim_end_by(d, just('s')) == d);
    assert(timestamp_of(d) == Some(seconds));
    assert forall|i: int| 0 <= i < p.len() implies p[i] != '&' by {
        if 2 <= i < p.len() - 1 {
            assert(p[i] == d[i - 2]);
            assert(is_digit(d[i - 2]));
        }
    }
}

proof fn lemma_kept_all(parameters: Seq<Seq<char>>)
    requires
        forall|i: int| 0 <= i < parameters.len() ==> !is_moment(#[trigger] parameters[i]),
    ensures
        kept_parameters(parameters) == parameters,
    decreases parameters.len(),
{
    if parameters.len() > 0 {
        let rest = parameters.drop_last();
        assert forall|i: int| 0 <= i < rest.len() implies !is_moment(#[trigger] rest[i]) by {
            assert(rest[i] == parameters[i]);
        }
        lemma_kept_all(rest);
        assert(!is_moment(parameters[parameters.len() - 1]));
        assert(rest.push(parameters.last()) == parameters);
    }
}

/// A timestamp that was put back into a URL is lifted out again, and leaves the URL
/// as it was. A URL that carries a moment of its own is no such URL.
pub proof fn a_rebuilt_url_is_taken_apart_again(url: Seq<char>, seconds: u64)
    requires
        url.contains('?') ==> forall|i: int|
            0 <= i < parameters_of(url).len() ==> !is_moment(#[trigger] parameters_of(url)[i]),
    ensures
        url_parts(timestamped(url, seconds)) == (url, Some(seconds)),
{
    let p = stamp(seconds);
    lemma_stamp(seconds);
    let whole = timestamped(url, seconds);
    let mark = just('?');
    lemma_index_by(url, mark);
    let i = index_by(url, mark);
    crate::text::lemma_split_none(p, '&');
    if url.contains('?') {
        let k = choose|k: int| 0 <= k < url.len() && url[k] == '?';
        assert(i < url.len()) by {
            if i >= url.len() {
                assert(!mark(url[k]));
            }
        }
        assert(whole == url + seq!['&'] + p);
        assert forall|j: int| 0 <= j < i implies !mark(#[trigger] whole[j]) by {
            assert(whole[j] == url[j]);
        }
        assert(whole[i] == url[i]);
        lemma_index_by_is(whole, mark, i);
        let query = url.skip(i + 1);
        assert(whole.skip(i + 1) == query + seq!['&'] + p);
        crate::text::lemma_split_add(query, '&', p);
        let own = parameters_of(url);
        let all = own + seq![p];
        assert(split_by(whole.skip(i + 1), just('&')) == all);
        assert(all.drop_last() == own);
        assert(all.last() == p);
        lemma_kept_all(own);
        assert(kept_parameters(all) == own);
        assert(last_moment(all) == Some(seconds));
        crate::text::lemma_join_split(query, '&');
        assert(whole.take(i) == url.take(i));
        assert(url[i] == '?');
        assert(url.take(i) + seq!['?'] + query == url);
        assert(own.len() > 0);
    } else {
        assert(i == url.len()) by {
            if i < url.len() {
                assert(url.contains(url[i]));
            }
        }
        assert(whole == url + seq!['?'] + p);
        assert forall|j: int| 0 <= j < i implies !mark(#[trigger] whole[j]) by {
            assert(whole[j] == url[j]);
        }
        assert(whole[i] == '?');
        lemma_index_by_is(whole, mark, i);
        assert(whole.skip(i + 1) == p);
        let all = seq![p];
        assert(all.drop_last() == Seq::<Seq<char>>::empty());
        assert(all.last() == p);
        assert(kept_parameters(all.drop_last()) == Seq::<Seq<char>>::empty());
        assert(kept_parameters(all) == Seq::<Seq<char>>::empty());
        assert(last_moment(all) == Some(seconds));
        assert(whole.take(i) == url);
    }
}

/// A configured player is used wherever it can run. Without one, `yclippy` goes before `mpv`,
/// and `mpv` before whatever handles the URL.
pub proof fn the_configured_player_goes_first(
    configured: Option<Seq<Seq<char>>>,
    installed: Installed,
)
    ensures
        ({
            let p = player_of(configured, installed);
            let runs = installed.configured && (configured matches Some(list) && list.len() > 0);
            &&& runs ==> Some(p) == configured
            &&& !runs && installed.yclippy ==> p[0] == "yclippy"@ && takes_seconds(p)
            &&& !runs && !installed.yclippy && installed.mpv ==> p[0] == "mpv"@ && takes_seconds(p)
            &&& !runs && !installed.yclippy && !installed.mpv ==> p[0] == "xdg-open"@
                && !takes_seconds(p)
        }),
{
    reveal_strlit("{seconds}");
    reveal_strlit("--start={seconds}");
    reveal_strlit("xdg-open");
    reveal_strlit("{url}");
    let p = player_of(configured, installed);
    let runs = installed.configured && (configured matches Some(list) && list.len() > 0);
    if !runs {
        if installed.yclippy {
            assert(p[4] == "{seconds}"@);
            assert("{seconds}"@.subrange(0, 9) == "{seconds}"@);
            assert(occurs_at("{seconds}"@, "{seconds}"@, 0));
        } else if installed.mpv {
            assert(p[1] == "--start={seconds}"@);
            assert("--start={seconds}"@.subrange(8, 17) == "{seconds}"@);
            assert(occurs_at("--start={seconds}"@, "{seconds}"@, 8));
        } else {
            assert(p[0] == "xdg-open"@ && p[1] == "{url}"@);
        }
    }
}

/// A program named by a path is looked for there alone, and one named by its bare name in
/// every directory of the search path, in order.
pub proof fn a_bare_name_is_looked_for_in_every_directory(
    template: Seq<Seq<char>>,
    search: Seq<Seq<char>>,
)
    requires
        template.len() > 0,
    ensures
        template[0].contains('/') ==> candidates_of(template, search) == seq![template[0]],
        !template[0].contains('/') ==> candidates_of(template, search).len() == search.len()
            && forall|i: int|
            0 <= i < search.len() && search[i].len() > 0 && search[i].last() != '/' ==> (
            #[trigger] candidates_of(template, search)[i]) == search[i] + seq!['/'] + template[0],
{
    if !template[0].contains('/') {
        assert forall|i: int|
            0 <= i < search.len() && search[i].len() > 0 && search[i].last() != '/' implies (
        #[trigger] candidates_of(template, search)[i]) == search[i] + seq!['/'] + template[0] by {
            if template[0].len() > 0 && template[0][0] == '/' {
                assert(template[0].contains('/'));
            }
            assert(search[i].push('/') == search[i] + seq!['/']);
        }
    }
}

proof fn lemma_replaced_absent(s: Seq<char>, from: Seq<char>, to: Seq<char>)
    requires
        !contains_text(s, from),
    ensures
        replaced(s, from, to) == s,
    decreases s.len(),
{
    if s.len() > 0 && from.len() > 0 {
        let less = s.drop_first();
        assert(!contains_text(less, from)) by {
            if contains_text(less, from) {
                let k = choose|k: int| occurs_at(less, from, k);
                assert(less.subrange(k, k + from.len()) == s.subrange(k + 1, k + 1 + from.len()));
                assert(occurs_at(s, from, k + 1));
            }
        }
        lemma_replaced_absent(less, from, to);
        assert(!starts_with(s, from)) by {
            if starts_with(s, from) {
                assert(occurs_at(s, from, 0));
            }
        }
        assert(seq![s[0]] + less == s);
    }
}

proof fn lemma_replaced_whole(from: Seq<char>, to: Seq<char>)
    requires
        from.len() > 0,
    ensures
        replaced(from, from, to) == to,
{
    assert(from.subrange(0, from.len() as int) == from);
    assert(starts_with(from, from));
    assert(from.skip(from.len() as int) == Seq::<char>::empty());
    assert(replaced(Seq::<char>::empty(), from, to) == Seq::<char>::empty());
    assert(to + Seq::<char>::empty() == to);
}

/// A player that takes the moment on its own gets the URL as it is and the moment in seconds;
/// one that does not gets the moment within the URL. What is neither stays as it is.
pub proof fn a_moment_is_handed_over_once(
    template: Seq<Seq<char>>,
    url: Seq<char>,
    n: u64,
    i: int,
)
    requires
        0 <= i < template.len(),
        !contains_text(url, "{seconds}"@),
        !contains_text(timestamped(url, n), "{seconds}"@),
    ensures
        ({
            let r = expanded(template, url, Some(n));
            let plain = expanded(template, url, None);
            &&& template[i] == "{url}"@ ==> plain[i] == url
            &&& template[i] == "{url}"@ && takes_seconds(template) ==> r[i] == url
            &&& template[i] == "{url}"@ && !takes_seconds(template) ==> r[i] == url + seq![
                if url.contains('?') {
                    '&'
                } else {
                    '?'
                },
            ] + "t="@ + decimal(n as nat) + "s"@
            &&& template[i] == "{seconds}"@ ==> r[i] == decimal(n as nat) && plain[i] == decimal(0)
            &&& !contains_text(template[i], "{url}"@) && !contains_text(
                template[i],
                "{seconds}"@,
            ) ==> r[i] == template[i] && plain[i] == template[i]
        }),
{
    reveal_strlit("{url}");
    reveal_strlit("{seconds}");
    let shown = url_for(template, url, Some(n));
    let to = decimal(n as nat);
    if template[i] == "{url}"@ {
        lemma_replaced_whole("{url}"@, shown);
        lemma_replaced_whole("{url}"@, url);
        lemma_replaced_absent(shown, "{seconds}"@, to);
        lemma_replaced_absent(url, "{seconds}"@, decimal(0));
    }
    if template[i] == "{seconds}"@ {
        assert(!contains_text("{seconds}"@, "{url}"@)) by {
            if contains_text("{seconds}"@, "{url}"@) {
                let k = choose|k: int| occurs_at("{seconds}"@, "{url}"@, k);
                assert("{seconds}"@.subrange(k, k + 5)[0] == "{url}"@[0]);
                assert("{seconds}"@.subrange(k, k + 5)[1] == "{url}"@[1]);
            }
        }
        lemma_replaced_absent("{seconds}"@, "{url}"@, shown);
        lemma_replaced_absent("{seconds}"@, "{url}"@, url);
        lemma_replaced_whole("{seconds}"@, to);
        lemma_replaced_whole("{seconds}"@, decimal(0));
    }
    if !contains_text(template[i], "{url}"@) && !contains_text(template[i], "{seconds}"@) {
        lemma_replaced_absent(template[i], "{url}"@, shown);
        lemma_replaced_absent(template[i], "{url}"@, url);
        lemma_replaced_absent(template[i], "{seconds}"@, to);
        lemma_replaced_absent(template[i], "{seconds}"@, decimal(0));
    }
}

/// Whether a match is the URL of a video.
pub open spec fn is_video(found: Seq<Option<Seq<char>>>) -> bool {
    found.len() > 0 && (found[0] matches Some(url) && (contains_text(url, "youtube.com"@)
        || contains_text(url, "youtu.be"@)))
}

/// The video of a text is the first URL in it that leads to one, whatever other URLs stand
/// before it.
pub proof fn the_first_video_url_is_found(found: Seq<Seq<Option<Seq<char>>>>)
    ensures
        match first_video_of(found) {
            Some(url) => exists|i: int|
                0 <= i < found.len() && #[trigger] is_video(found[i]) && found[i][0] == Some(url)
                    && forall|j: int| 0 <= j < i ==> !#[trigger] is_video(found[j]),
            None => forall|i: int| 0 <= i < found.len() ==> !#[trigger] is_video(found[i]),
        },
    decreases found.len(),
{
    if found.len() > 0 {
        let rest = found.drop_first();
        the_first_video_url_is_found(rest);
        if is_video(found[0]) {
            assert(first_video_of(found) == found[0][0]);
        } else {
            assert(first_video_of(found) == first_video_of(rest));
            match first_video_of(rest) {
                Some(url) => {
                    let i = choose|i: int|
                        0 <= i < rest.len() && #[trigger] is_video(rest[i]) && rest[i][0] == Some(
                            url,
                        ) && forall|j: int| 0 <= j < i ==> !#[trigger] is_video(rest[j]);
                    assert(is_video(found[i + 1]));
                    assert forall|j: int| 0 <= j < i + 1 implies !#[trigger] is_video(found[j]) by {
                        if j > 0 {
                            assert(!is_video(rest[j - 1]));
                        }
                    }
                },
                None => {
                    assert forall|i: int| 0 <= i < found.len() implies !#[trigger] is_video(
                        found[i],
                    ) by {
                        if i > 0 {
                            assert(!is_video(rest[i - 1]));
                        }
                    }
                },
            }
        }
    }
}

} // verus!
