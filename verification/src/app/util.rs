//! Helpers of the pages and of the key handling.

use vstd::prelude::*;
use vstd::string::*;

use crate::model::{ArchivedItem, GapDefinition, GapView, MatchOptions};
use crate::outside::{
    format_utc, json_string, regex_matches, regex_replaced, replace_matches, utc_formatted,
    write_json_string,
};
use crate::parser::{found_or_none, join_path, joined, matches_in, slugify};
use crate::text::{
    cut, find_char, from_chars, index_by, join, join_slices, just, lemma_index_by_is, lower_text,
    lowercase_of, lowered, opt_str_view, opt_view, slices, slug_of, split_words, starts_with, text_eq, text_starts_with, texts, to_chars, trim,
    trim_text, trimmed, words,
};

verus! {

// ---------------------------------------------------------------------------
// Widths
// ---------------------------------------------------------------------------

/// `value` cut to `width` characters, the last of them an ellipsis where something was
/// cut.
pub open spec fn fitted(value: Seq<char>, width: nat) -> Seq<char> {
    if width == 0 {
        Seq::empty()
    } else if value.len() <= width {
        value
    } else {
        value.take(width - 1).push('…')
    }
}

/// `count` spaces.
pub open spec fn spaces(count: nat) -> Seq<char> {
    Seq::new(count, |i: int| ' ')
}

/// `value` at exactly `width` characters.
pub open spec fn padded(value: Seq<char>, width: nat) -> Seq<char> {
    let fit = fitted(value, width);
    fit + spaces((width - fit.len()) as nat)
}

/// Shortens `value` to `width` characters, marking the cut with an ellipsis.
pub fn fit(value: &str, width: usize) -> (r: String)
    ensures
        r@ == fitted(value@, width as nat),
{
    if width == 0 {
        let empty = String::new();
        assert(empty@ == Seq::<char>::empty());
        return empty;
    }
    let chars = to_chars(value);
    if chars.len() <= width {
        return value.to_owned();
    }
    let mut r = from_chars(cut(chars.as_slice(), 0, width - 1));
    r.push('…');
    assert(r@ == fitted(value@, width as nat));
    r
}

pub fn push_spaces(r: &mut String, count: usize)
    ensures
        final(r)@ == old(r)@ + spaces(count as nat),
{
    let ghost before = r@;
    let mut i: usize = 0;
    assert(before + spaces(0) == before);
    while i < count
        invariant
            0 <= i <= count,
            r@ == before + spaces(i as nat),
        decreases count - i,
    {
        r.push(' ');
        assert(spaces((i + 1) as nat) == spaces(i as nat).push(' '));
        i += 1;
    }
}

/// Pads `value` to exactly `width` characters, shortening it where it does not fit.
pub fn pad(value: &str, width: usize) -> (r: String)
    ensures
        r@ == padded(value@, width as nat),
{
    let mut r = fit(value, width);
    let used: usize = to_chars(r.as_str()).len();
    push_spaces(&mut r, width - used);
    r
}

/// Nothing that was fitted is wider than asked, what fits is left as it is, and what was
/// cut ends with an ellipsis.
pub proof fn fitting_keeps_to_the_width(value: Seq<char>, width: nat)
    ensures
        fitted(value, width).len() <= width,
        value.len() <= width ==> fitted(value, width) == value,
        0 < width < value.len() ==> fitted(value, width).len() == width && fitted(
            value,
            width,
        ).last() == '…',
{
    if width == 0 {
        assert(value.len() == 0 ==> value == Seq::<char>::empty());
    }
}

/// What was padded has exactly the width asked for.
pub proof fn padding_reaches_the_width(value: Seq<char>, width: nat)
    ensures
        padded(value, width).len() == width,
{
    fitting_keeps_to_the_width(value, width);
}

/// Fitting again changes nothing.
pub proof fn fitting_twice_is_fitting_once(value: Seq<char>, width: nat)
    ensures
        fitted(fitted(value, width), width) == fitted(value, width),
{
    fitting_keeps_to_the_width(value, width);
}

// ---------------------------------------------------------------------------
// Dates
// ---------------------------------------------------------------------------

/// A text, or another in place of none.
pub open spec fn text_or(text: Option<Seq<char>>, other: Seq<char>) -> Seq<char> {
    match text {
        Some(t) => t,
        None => other,
    }
}

/// Takes a text, or another in place of none.
pub fn or_text(text: Option<String>, other: &str) -> (r: String)
    ensures
        r@ == text_or(opt_view(text), other@),
{
    match text {
        Some(t) => t,
        None => other.to_owned(),
    }
}

/// The date of a timestamp in UTC, as year, month and day.
pub fn short_date(timestamp: i64) -> (r: String)
    ensures
        r@ == text_or(utc_formatted(timestamp, "%Y-%m-%d"@), "unknown"@),
{
    or_text(format_utc(timestamp, "%Y-%m-%d"), "unknown")
}

/// The weekday and day of the month of a timestamp in UTC.
pub fn day_label(timestamp: i64) -> (r: String)
    ensures
        r@ == text_or(utc_formatted(timestamp, "%a %d"@), "-------"@),
{
    or_text(format_utc(timestamp, "%a %d"), "-------")
}

// ---------------------------------------------------------------------------
// Paths
// ---------------------------------------------------------------------------

/// The path that a user typed, from their home directory or the current one; `None`
/// where it needs a home directory and there is none.
pub open spec fn expanded(
    value: Seq<char>,
    home: Option<Seq<char>>,
    current: Seq<char>,
) -> Option<Seq<char>> {
    if value == seq!['~'] || starts_with(value, seq!['~', '/']) {
        match home {
            Some(h) => Some(
                joined(
                    current,
                    if value == seq!['~'] {
                        h
                    } else {
                        joined(h, value.skip(2))
                    },
                ),
            ),
            None => None,
        }
    } else {
        Some(joined(current, value))
    }
}

/// Turns what a user typed into a path: `~` is their home directory, and a relative path
/// starts in the current directory.
pub fn expand_home(value: &str, home: Option<&str>, current: &str) -> (r: Option<String>)
    ensures
        opt_view(r) == expanded(value@, crate::text::opt_str_view(home), current@),
{
    proof {
        reveal_strlit("~");
        reveal_strlit("~/");
        assert("~"@ == seq!['~']);
        assert("~/"@ == seq!['~', '/']);
    }
    if text_eq(value, "~") {
        match home {
            Some(h) => Some(join_path(current, h)),
            None => None,
        }
    } else if text_starts_with(value, "~/") {
        match home {
            Some(h) => {
                let chars = to_chars(value);
                let rest = from_chars(cut(chars.as_slice(), 2, chars.len()));
                assert(rest@ == value@.skip(2));
                Some(join_path(current, join_path(h, rest.as_str()).as_str()))
            },
            None => None,
        }
    } else {
        Some(join_path(current, value))
    }
}

/// What ends the path of a link.
pub open spec fn fragment() -> spec_fn(char) -> bool {
    |c: char| c == '#' || c == '?'
}

/// The target of a link without its query and fragment.
pub fn target_without_fragment(target: &str) -> (r: String)
    ensures
        r@ == target@.take(index_by(target@, fragment())),
{
    let chars = to_chars(target);
    let mut i: usize = 0;
    while i < chars.len() && chars[i] != '#' && chars[i] != '?'
        invariant
            0 <= i <= chars.len(),
            chars@ == target@,
            forall|j: int| 0 <= j < i ==> !fragment()(#[trigger] target@[j]),
        decreases chars.len() - i,
    {
        i += 1;
    }
    proof {
        lemma_index_by_is(target@, fragment(), i as int);
    }
    from_chars(cut(chars.as_slice(), 0, i))
}

/// The name of a new note's file, for the `attempt`-th try: the second try appends `-2`.
pub open spec fn note_stem(title: Seq<char>, attempt: nat) -> Seq<char> {
    let slug = slug_of(title);
    let base = if slug.len() == 0 {
        "note"@
    } else {
        slug
    };
    if attempt <= 1 {
        base
    } else {
        base + "-"@ + crate::text::decimal(attempt)
    }
}

/// The name, without its extension, of the file for a new note.
pub fn new_note_stem(title: &str, attempt: u64) -> (r: String)
    ensures
        r@ == note_stem(title@, attempt as nat),
{
    let slug = slugify(title);
    let mut r = if to_chars(slug.as_str()).len() == 0 {
        "note".to_owned()
    } else {
        slug
    };
    if attempt > 1 {
        r.append("-");
        r.append(crate::text::decimal_text(attempt).as_str());
    }
    r
}

/// The editor that is run: the configured one, then what the environment names, then `nvim`.
pub open spec fn editor_of(
    configured: Option<Seq<char>>,
    visual: Option<Seq<char>>,
    editor: Option<Seq<char>>,
) -> Seq<char> {
    match (configured, visual, editor) {
        (Some(e), _, _) => e,
        (None, Some(e), _) => e,
        (None, None, Some(e)) => e,
        (None, None, None) => "nvim"@,
    }
}

/// The command line that opens a file at a line: the words of the editor, the line and the
/// path. An editor without a word is `nvim`.
pub open spec fn editor_line(editor: Seq<char>, line: nat, path: Seq<char>) -> Seq<Seq<char>> {
    (if words(editor).len() == 0 {
        seq!["nvim"@]
    } else {
        words(editor)
    }) + seq!["+"@ + crate::text::decimal(line), path]
}

/// The command line that opens a file at a line. `visual` and `editor` are what the
/// environment names.
pub fn editor_command(
    configured: Option<&str>,
    visual: Option<&str>,
    editor: Option<&str>,
    line: u64,
    path: &str,
) -> (r: Vec<String>)
    ensures
        texts(r@) == editor_line(
            editor_of(opt_str_view(configured), opt_str_view(visual), opt_str_view(editor)),
            line as nat,
            path@,
        ),
{
    let chosen = match configured {
        Some(e) => e,
        None => match visual {
            Some(e) => e,
            None => match editor {
                Some(e) => e,
                None => "nvim",
            },
        },
    };
    let chars = to_chars(chosen);
    let parts = split_words(&chars);
    let ghost views = slices(parts@);
    let mut r: Vec<String> = Vec::new();
    let mut i: usize = 0;
    assert(views.take(0) == Seq::<Seq<char>>::empty());
    assert(texts(r@) == Seq::<Seq<char>>::empty());
    while i < parts.len()
        invariant
            0 <= i <= parts.len(),
            views == slices(parts@),
            texts(r@) == views.take(i as int),
        decreases parts.len() - i,
    {
        let ghost before = texts(r@);
        r.push(from_chars(parts[i]));
        assert(texts(r@) == before.push(views[i as int]));
        assert(views.take(i + 1) == views.take(i as int).push(views[i as int]));
        i += 1;
    }
    assert(views.take(parts.len() as int) == views);
    if parts.len() == 0 {
        let ghost before = texts(r@);
        r.push("nvim".to_owned());
        assert(texts(r@) == before.push("nvim"@));
    }
    let ghost head = texts(r@);
    let mut place = "+".to_owned();
    place.append(crate::text::decimal_text(line).as_str());
    let ghost at = place@;
    r.push(place);
    r.push(path.to_owned());
    assert(texts(r@) == head + seq![at, path@]);
    r
}

/// What was answered when asked for a vault: `false` to open one, `true` to create one.
pub open spec fn choice_of(typed: Seq<char>) -> Option<bool> {
    let word = lowered(trimmed(typed));
    if word == "o"@ || word == "open"@ {
        Some(false)
    } else if word == "c"@ || word == "create"@ {
        Some(true)
    } else {
        None
    }
}

/// Whether a vault is to be created, by what was answered; `None` for no answer.
pub fn vault_choice(typed: &str) -> (r: Option<bool>)
    ensures
        r == choice_of(typed@),
{
    let word = lower_text(trim_text(typed).as_str());
    let word = word.as_str();
    if text_eq(word, "o") || text_eq(word, "open") {
        Some(false)
    } else if text_eq(word, "c") || text_eq(word, "create") {
        Some(true)
    } else {
        None
    }
}

/// Whether a name for a new note's file is the first one that is not taken.
pub open spec fn is_free_stem(title: Seq<char>, taken: Seq<Seq<char>>, stem: Seq<char>) -> bool {
    exists|n: nat|
        1 <= n <= u64::MAX && stem == #[trigger] note_stem(title, n) && !taken.contains(stem)
            && forall|k: nat| 1 <= k < n ==> taken.contains(#[trigger] note_stem(title, k))
}

/// Whether every name for a new note's file is taken.
pub open spec fn no_free_stem(title: Seq<char>, taken: Seq<Seq<char>>) -> bool {
    forall|k: nat| 1 <= k < u64::MAX ==> taken.contains(#[trigger] note_stem(title, k))
}

/// The name of the file for a new note: the first that is not taken. `None` would mean
/// that every name is.
pub fn free_note_stem(title: &str, taken: &Vec<String>) -> (r: Option<String>)
    ensures
        match r {
            Some(stem) => is_free_stem(title@, texts(taken@), stem@),
            None => no_free_stem(title@, texts(taken@)),
        },
{
    let mut attempt: u64 = 1;
    while attempt < u64::MAX
        invariant
            1 <= attempt,
            forall|k: nat|
                1 <= k < attempt ==> texts(taken@).contains(#[trigger] note_stem(title@, k)),
        decreases u64::MAX - attempt,
    {
        let stem = new_note_stem(title, attempt);
        if !crate::quiz::holds(taken, stem.as_str()) {
            assert(stem@ == note_stem(title@, attempt as nat));
            return Some(stem);
        }
        attempt += 1;
    }
    None
}

/// The text of a new note. The title is given a second time as YAML writes it.
pub open spec fn note_source(note_id: Seq<char>, title: Seq<char>, quoted_title: Seq<char>) -> Seq<
    char,
> {
    "---\nid: "@ + note_id + "\ntitle: "@ + quoted_title + "\ntopic:\npinned: false\n---\n\n# "@
        + title + " {#root}\n\n"@
}

/// The text of a new note. The title is given a second time as YAML writes it.
pub fn new_note_source(note_id: &str, title: &str, quoted_title: &str) -> (r: String)
    ensures
        r@ == note_source(note_id@, title@, quoted_title@),
{
    let mut r = "---\nid: ".to_owned();
    r.append(note_id);
    r.append("\ntitle: ");
    r.append(quoted_title);
    r.append("\ntopic:\npinned: false\n---\n\n# ");
    r.append(title);
    r.append(" {#root}\n\n");
    r
}

/// A note to be created.
#[derive(Debug)]
pub struct NewNote {
    /// The name of its file without the extension, which is its id too.
    pub stem: String,
    pub source: String,
}

/// A new note under the title that was typed, which is written as a JSON string into its
/// front matter. `None` would mean that every name for its file is taken.
pub fn new_note(typed: &str, taken: &Vec<String>) -> (r: Option<NewNote>)
    ensures
        ({
            let title = trimmed(typed@);
            match r {
                Some(note) => is_free_stem(title, texts(taken@), note.stem@) && note.source@
                    == note_source(note.stem@, title, json_string(title)),
                None => no_free_stem(title, texts(taken@)),
            }
        }),
{
    let title = trim_text(typed);
    let quoted = write_json_string(title.as_str());
    match free_note_stem(title.as_str(), taken) {
        Some(stem) => match quoted {
            Some(quoted) => {
                let source = new_note_source(stem.as_str(), title.as_str(), quoted.as_str());
                Some(NewNote { stem, source })
            },
            None => None,
        },
        None => None,
    }
}

// ---------------------------------------------------------------------------
// Bodies
// ---------------------------------------------------------------------------

/// `s` without the line feeds at its start.
pub open spec fn past_feeds(s: Seq<char>) -> Seq<char> {
    crate::text::trim_start_by(s, just('\n'))
}

/// A body without the heading that it starts with, and the empty lines below it.
pub open spec fn headless(body: Seq<char>) -> Seq<char> {
    if body.len() == 0 || body[0] != '#' {
        body
    } else {
        let rest = body.skip(1);
        let i = index_by(rest, just('\n'));
        if i >= rest.len() {
            Seq::empty()
        } else {
            past_feeds(rest.skip(i + 1))
        }
    }
}

/// Drops the heading that a body starts with.
pub fn without_heading(body: &str) -> (r: String)
    ensures
        r@ == headless(body@),
{
    let chars = to_chars(body);
    if chars.len() == 0 || chars[0] != '#' {
        return body.to_owned();
    }
    let rest = cut(chars.as_slice(), 1, chars.len());
    assert(rest@ == body@.skip(1));
    let i: usize = find_char(rest, '\n');
    if i >= rest.len() {
        let empty = String::new();
        assert(empty@ == Seq::<char>::empty());
        return empty;
    }
    let mut tail = cut(rest, i + 1, rest.len());
    let ghost whole = tail@;
    assert(whole == body@.skip(1).skip(i + 1));
    while tail.len() > 0 && tail[0] == '\n'
        invariant
            past_feeds(tail@) == past_feeds(whole),
        decreases tail.len(),
    {
        let next = cut(tail, 1, tail.len());
        assert(next@ == tail@.drop_first());
        assert(just('\n')(tail@[0]));
        tail = next;
    }
    assert(past_feeds(tail@) == tail@);
    from_chars(tail)
}

/// A text in which matches were replaced, or the text itself where the pattern was
/// rejected.
pub open spec fn replaced_or_same(replaced: Option<Seq<char>>, text: Seq<char>) -> Seq<char> {
    text_or(replaced, text)
}

fn replace_in(pattern: &str, text: &str, replacement: &str) -> (r: String)
    ensures
        r@ == replaced_or_same(regex_replaced(pattern@, text@, replacement@), text@),
{
    or_text(replace_matches(pattern, text, replacement), text)
}

/// A body with its quizzes and images named in place of shown.
pub open spec fn shown_body(body: Seq<char>) -> Seq<char> {
    let plain = headless(body);
    let quizzes = replaced_or_same(
        regex_replaced(r"(?s)```quiz\s.*?```"@, plain, "[Quiz card]"@),
        plain,
    );
    replaced_or_same(
        regex_replaced(
            r"!\[([^\]]*)\]\([^)]+\)"@,
            quizzes,
            "[Image: ${1}] (press i to open)"@,
        ),
        quizzes,
    )
}

/// Turns a section body into what a pane shows: its heading is left to the pane's title,
/// and quizzes and images are named.
pub fn display_markdown(body: &str) -> (r: String)
    ensures
        r@ == shown_body(body@),
{
    let plain = without_heading(body);
    let quizzes = replace_in(r"(?s)```quiz\s.*?```", plain.as_str(), "[Quiz card]");
    replace_in(
        r"!\[([^\]]*)\]\([^)]+\)",
        quizzes.as_str(),
        "[Image: ${1}] (press i to open)",
    )
}

// ---------------------------------------------------------------------------
// Gaps
// ---------------------------------------------------------------------------

/// The answer that a gap is shown with.
pub open spec fn canonical(gap: GapView) -> Seq<char> {
    match (gap.answer, gap.answers) {
        (Some(answer), _) => answer,
        (None, Some(list)) => if list.len() > 0 {
            list[0]
        } else {
            "<regex answer>"@
        },
        (None, None) => "<regex answer>"@,
    }
}

/// The answer that a gap is shown with.
pub fn canonical_answer(gap: &GapDefinition) -> (r: String)
    ensures
        r@ == canonical(gap@),
{
    match &gap.answer {
        Some(answer) => answer.clone(),
        None => match &gap.answers {
            Some(list) => if list.len() > 0 {
                assert(texts(list@)[0] == list@[0]@);
                list[0].clone()
            } else {
                "<regex answer>".to_owned()
            },
            None => "<regex answer>".to_owned(),
        },
    }
}

/// An answer as it is compared.
pub open spec fn normalized(value: Seq<char>, options: MatchOptions) -> Seq<char> {
    let trimmed = if options.trim {
        trimmed(value)
    } else {
        value
    };
    let spaced = if options.normalize_whitespace {
        join(words(trimmed), seq![' '])
    } else {
        trimmed
    };
    if options.case_sensitive {
        spaced
    } else {
        lowercase_of(spaced)
    }
}

/// Brings an answer into the form in which it is compared.
pub fn normalize(value: &str, options: MatchOptions) -> (r: String)
    ensures
        r@ == normalized(value@, options),
{
    let chars = to_chars(value);
    let part = if options.trim {
        trim(chars.as_slice())
    } else {
        chars.as_slice()
    };
    let spaced = if options.normalize_whitespace {
        let list = split_words(part);
        from_chars(join_slices(&list, ' ').as_slice())
    } else {
        from_chars(part)
    };
    if options.case_sensitive {
        spaced
    } else {
        spaced.as_str().to_lowercase()
    }
}

/// Whether a list holds an answer, as answers are compared.
pub open spec fn accepts(
    list: Seq<Seq<char>>,
    submitted: Seq<char>,
    options: MatchOptions,
) -> bool {
    exists|i: int|
        0 <= i < list.len() && normalized(#[trigger] list[i], options) == normalized(
            submitted,
            options,
        )
}

/// Whether an answer is right, given whether the gap's pattern matched it.
pub open spec fn answers_gap(submitted: Seq<char>, gap: GapView, pattern_hit: bool) -> bool {
    ||| gap.regex is Some && pattern_hit
    ||| gap.answer matches Some(answer) && normalized(answer, gap.options) == normalized(
        submitted,
        gap.options,
    )
    ||| gap.answers matches Some(list) && accepts(list, submitted, gap.options)
}

/// Judges an answer, given whether the gap's pattern matched it.
pub fn judge_gap(submitted: &str, gap: &GapDefinition, pattern_hit: bool) -> (r: bool)
    ensures
        r == answers_gap(submitted@, gap@, pattern_hit),
{
    if gap.regex.is_some() && pattern_hit {
        return true;
    }
    let given = normalize(submitted, gap.options);
    if let Some(answer) = &gap.answer {
        if text_eq(normalize(answer.as_str(), gap.options).as_str(), given.as_str()) {
            return true;
        }
    }
    if let Some(list) = &gap.answers {
        let mut i: usize = 0;
        while i < list.len()
            invariant
                0 <= i <= list.len(),
                given@ == normalized(submitted@, gap.options),
                forall|k: int|
                    0 <= k < i ==> normalized((#[trigger] texts(list@)[k]), gap.options) != given@,
                gap@.answers == Some(texts(list@)),
            decreases list.len() - i,
        {
            assert(texts(list@)[i as int] == list@[i as int]@);
            if text_eq(normalize(list[i].as_str(), gap.options).as_str(), given.as_str()) {
                assert(accepts(texts(list@), submitted@, gap.options));
                return true;
            }
            i += 1;
        }
        assert(!accepts(texts(list@), submitted@, gap.options));
    }
    false
}

/// Whether a gap's pattern matches an answer.
pub open spec fn pattern_hits(gap: GapView, submitted: Seq<char>) -> bool {
    gap.regex matches Some(pattern) && found_or_none(regex_matches(pattern, submitted)).len() > 0
}

/// Whether what was typed fills a gap.
pub fn matches_gap(submitted: &str, gap: &GapDefinition) -> (r: bool)
    ensures
        r == answers_gap(submitted@, gap@, pattern_hits(gap@, submitted@)),
{
    let hit = match &gap.regex {
        Some(pattern) => matches_in(pattern.as_str(), submitted).len() > 0,
        None => false,
    };
    judge_gap(submitted, gap, hit)
}

/// An accepted answer, typed as it stands, is right.
pub proof fn the_answer_itself_is_right(gap: GapView, hit: bool)
    ensures
        gap.answer matches Some(answer) ==> answers_gap(answer, gap, hit),
        gap.answers matches Some(list) ==> forall|i: int|
            0 <= i < list.len() ==> answers_gap(#[trigger] list[i], gap, hit),
{
    if let Some(list) = gap.answers {
        assert forall|i: int| 0 <= i < list.len() implies answers_gap(
            #[trigger] list[i],
            gap,
            hit,
        ) by {
            assert(accepts(list, list[i], gap.options));
        }
    }
}

/// What the options of a gap do to an answer: as it stands where nothing is loosened, without
/// the white space around it, with single spaces between its words, or in lower case, each
/// where its option says so and nowhere else.
pub proof fn options_loosen_one_thing_each(value: Seq<char>, trim: bool, spaces: bool)
    ensures
        normalized(
            value,
            MatchOptions { trim: false, normalize_whitespace: false, case_sensitive: true },
        ) == value,
        normalized(
            value,
            MatchOptions { trim: true, normalize_whitespace: false, case_sensitive: true },
        ) == trimmed(value),
        normalized(
            value,
            MatchOptions { trim: false, normalize_whitespace: true, case_sensitive: true },
        ) == join(words(value), seq![' ']),
        normalized(
            value,
            MatchOptions { trim: true, normalize_whitespace: true, case_sensitive: true },
        ) == join(words(trimmed(value)), seq![' ']),
        normalized(
            value,
            MatchOptions { trim, normalize_whitespace: spaces, case_sensitive: false },
        ) == lowercase_of(
            normalized(
                value,
                MatchOptions { trim, normalize_whitespace: spaces, case_sensitive: true },
            ),
        ),
{
}

/// An answer is right exactly when the gap's pattern matches it, or it reads like an answer
/// that the gap accepts.
pub proof fn a_gap_takes_only_its_answers(submitted: Seq<char>, gap: GapView, hit: bool)
    ensures
        answers_gap(submitted, gap, hit) <==> {
            ||| gap.regex is Some && hit
            ||| exists|accepted: Seq<char>|
                (gap.answer == Some(accepted) || gap.answers is Some && gap.answers->0.contains(
                    accepted,
                )) && #[trigger] normalized(accepted, gap.options) == normalized(
                    submitted,
                    gap.options,
                )
        },
{
    if let Some(list) = gap.answers {
        if accepts(list, submitted, gap.options) {
            let i = choose|i: int|
                0 <= i < list.len() && normalized(#[trigger] list[i], gap.options) == normalized(
                    submitted,
                    gap.options,
                );
            assert(list.contains(list[i]));
        }
        assert forall|accepted: Seq<char>|
            list.contains(accepted) && #[trigger] normalized(accepted, gap.options) == normalized(
                submitted,
                gap.options,
            ) implies accepts(list, submitted, gap.options) by {
            let i = choose|i: int| 0 <= i < list.len() && list[i] == accepted;
            assert(normalized(list[i], gap.options) == normalized(submitted, gap.options));
        }
    }
}

// ---------------------------------------------------------------------------
// Archived items
// ---------------------------------------------------------------------------

/// What an archived item is called.
pub open spec fn archived_label(item: ArchivedItem) -> Seq<char> {
    match item {
        ArchivedItem::Note { title, .. } => "note "@ + title@,
        ArchivedItem::Section { heading, .. } => "section "@ + heading@,
        ArchivedItem::Quiz { label, .. } => "quiz "@ + label@,
        ArchivedItem::Deck { name, .. } => "deck "@ + name@,
    }
}

/// What an archived item is called.
pub fn archived_item_label(item: &ArchivedItem) -> (r: String)
    ensures
        r@ == archived_label(*item),
{
    let (kind, name) = match item {
        ArchivedItem::Note { title, .. } => ("note ", title.as_str()),
        ArchivedItem::Section { heading, .. } => ("section ", heading.as_str()),
        ArchivedItem::Quiz { label, .. } => ("quiz ", label.as_str()),
        ArchivedItem::Deck { name, .. } => ("deck ", name.as_str()),
    };
    let mut r = kind.to_owned();
    r.append(name);
    r
}

/// A new note is named after its title, or `note` where nothing of it can be part of a name;
/// from the second attempt on the name ends with the number of the attempt.
pub proof fn a_note_is_named_after_its_title(title: Seq<char>, attempt: nat)
    ensures
        slug_of(title).len() > 0 ==> note_stem(title, 1) == slug_of(title),
        slug_of(title).len() == 0 ==> note_stem(title, 1) == "note"@,
        attempt >= 2 ==> note_stem(title, attempt) == note_stem(title, 1) + "-"@
            + crate::text::decimal(attempt),
{
}

/// A tilde at the start of a path is the home, and any other path is taken from where one is
/// unless it is absolute.
pub proof fn a_tilde_is_the_home(home: Seq<char>, current: Seq<char>, path: Seq<char>)
    requires
        home.len() > 1,
        home[0] == '/',
        home.last() != '/',
        current.len() > 0,
        current.last() != '/',
        path.len() > 0,
    ensures
        expanded(seq!['~'], Some(home), current) == Some(home),
        expanded(seq!['~'], None, current) is None,
        path[0] != '/' ==> expanded(seq!['~', '/'] + path, Some(home), current) == Some(
            home + seq!['/'] + path,
        ),
        path[0] == '/' ==> expanded(path, Some(home), current) == Some(path),
        path[0] != '/' && path[0] != '~' ==> expanded(path, Some(home), current) == Some(
            current + seq!['/'] + path,
        ),
{
    let whole = seq!['~', '/'] + path;
    assert(whole.subrange(0, 2) == seq!['~', '/']);
    assert(whole.skip(2) == path);
    assert(whole != seq!['~']) by {
        assert(whole.len() > 1);
    }
    assert(home.push('/') == home + seq!['/']);
    assert(current.push('/') == current + seq!['/']);
    assert((home + seq!['/'] + path)[0] == '/');
    if starts_with(path, seq!['~', '/']) {
        assert(path.subrange(0, 2)[0] == '~');
    }
    if path == seq!['~'] {
        assert(path[0] == '~');
    }
}

/// The editor that is configured goes before the one for screens, that before the plain one,
/// and without any it is `nvim`. It gets the line and then the file as its last arguments.
pub proof fn the_configured_editor_goes_first(
    configured: Option<Seq<char>>,
    visual: Option<Seq<char>>,
    editor: Option<Seq<char>>,
    line: nat,
    path: Seq<char>,
)
    ensures
        configured is Some ==> editor_of(configured, visual, editor) == configured->0,
        configured is None && visual is Some ==> editor_of(configured, visual, editor)
            == visual->0,
        configured is None && visual is None && editor is Some ==> editor_of(
            configured,
            visual,
            editor,
        ) == editor->0,
        editor_of(None, None, None) == "nvim"@,
        ({
            let name = editor_of(configured, visual, editor);
            let r = editor_line(name, line, path);
            &&& r.len() >= 3 && r.last() == path && r[r.len() - 2] == "+"@
                + crate::text::decimal(line)
            &&& words(name).len() > 0 ==> r.take(r.len() - 2) == words(name)
            &&& words(name).len() == 0 ==> r[0] == "nvim"@
        }),
{
    let name = editor_of(configured, visual, editor);
    let r = editor_line(name, line, path);
    if words(name).len() > 0 {
        assert(r.take(r.len() - 2) == words(name));
    }
}

/// A vault is opened or created by the word for it or its first letter, and no other answer
/// chooses.
pub proof fn a_vault_is_chosen_by_a_word(typed: Seq<char>)
    ensures
        ({
            let word = lowered(trimmed(typed));
            &&& choice_of(typed) == Some(false) <==> word == "o"@ || word == "open"@
            &&& choice_of(typed) is None <==> word != "o"@ && word != "open"@ && word != "c"@
                && word != "create"@
        }),
{
}

/// A body is shown without the heading that it starts with and the blank lines behind it; a
/// body without one is shown as it is.
pub proof fn a_heading_is_not_shown_with_its_body(heading: Seq<char>, rest: Seq<char>)
    requires
        !heading.contains('\n'),
        rest.len() > 0 ==> rest[0] != '\n',
    ensures
        headless(seq!['#'] + heading) == Seq::<char>::empty(),
        headless((seq!['#'] + heading).push('\n') + rest) == rest,
        headless((seq!['#'] + heading).push('\n').push('\n') + rest) == rest,
        rest.len() > 0 && rest[0] != '#' ==> headless(rest) == rest,
{
    let p = just('\n');
    let n = heading.len() as int;
    let alone = seq!['#'] + heading;
    let once = alone.push('\n') + rest;
    let twice = alone.push('\n').push('\n') + rest;
    assert(alone.skip(1) == heading);
    assert(once.skip(1) == heading.push('\n') + rest);
    assert(twice.skip(1) == heading.push('\n') + (seq!['\n'] + rest));
    assert forall|j: int| 0 <= j < n implies !p(#[trigger] heading[j]) by {
        assert(heading.contains(heading[j]));
    }
    lemma_index_by_is(heading, p, n);
    lemma_heading_ends(heading, rest);
    lemma_heading_ends(heading, seq!['\n'] + rest);
    assert((seq!['\n'] + rest).drop_first() == rest);
    assert(crate::text::trim_start_by(rest, p) == rest);
    assert(p((seq!['\n'] + rest)[0]));
}

proof fn lemma_heading_ends(heading: Seq<char>, rest: Seq<char>)
    requires
        !heading.contains('\n'),
    ensures
        index_by(heading.push('\n') + rest, just('\n')) == heading.len(),
        (heading.push('\n') + rest).skip(heading.len() + 1int) == rest,
{
    let p = just('\n');
    let n = heading.len() as int;
    let whole = heading.push('\n') + rest;
    assert forall|j: int| 0 <= j < n implies !p(#[trigger] whole[j]) by {
        assert(whole[j] == heading[j]);
        assert(heading.contains(heading[j]));
    }
    assert(p(whole[n]));
    lemma_index_by_is(whole, p, n);
    assert(whole.skip(n + 1) == rest);
}

/// The answer that is shown for a gap is the one it names, else the first of its list, else
/// that there is a pattern for it.
pub proof fn the_first_answer_is_shown(gap: GapView)
    ensures
        gap.answer is Some ==> canonical(gap) == gap.answer->0,
        gap.answer is None && (gap.answers matches Some(list) && list.len() > 0) ==> canonical(gap)
            == gap.answers->0[0],
        gap.answer is None && !(gap.answers matches Some(list) && list.len() > 0) ==> canonical(gap)
            == "<regex answer>"@,
{
}

} // verus!
