//! What the library takes from other crates.
//!
//! Nothing in here is proved. Each function makes one call and changes the types
//! of what goes in and comes out; its contract is what the rest of the library
//! relies on.

use pulldown_cmark::{CodeBlockKind, Event, Options, Parser, Tag, TagEnd};
use vstd::prelude::*;

verus! {

/// One match of a pattern: group 0 is the whole match, and a group that took no
/// part in it is `None`.
pub type Groups = Vec<Option<String>>;

/// The view of one match.
pub open spec fn groups_view(g: Seq<Option<String>>) -> Seq<Option<Seq<char>>> {
    Seq::new(g.len(), |i: int| crate::text::opt_view(g[i]))
}

/// The views of several matches.
pub open spec fn matches_view(m: Seq<Groups>) -> Seq<Seq<Option<Seq<char>>>> {
    Seq::new(m.len(), |i: int| groups_view(m[i]@))
}

/// The matches of a pattern in a text, from left to right and without overlap, as
/// `regex` finds them; `None` for a pattern that it rejects.
pub uninterp spec fn regex_matches(
    pattern: Seq<char>,
    text: Seq<char>,
) -> Option<Seq<Seq<Option<Seq<char>>>>>;

/// `Regex::captures_iter` of crate `regex`, on a pattern compiled by `Regex::new`.
///
/// Claimed: the matches depend on the pattern and the text alone. What a pattern
/// matches is not stated.
#[verifier::external_body]
pub(crate) fn find_matches(pattern: &str, text: &str) -> (r: Option<Vec<Groups>>)
    ensures
        match r {
            Some(found) => regex_matches(pattern@, text@) == Some(matches_view(found@)),
            None => regex_matches(pattern@, text@) is None,
        },
{
    let regex = regex::Regex::new(pattern).ok()?;
    let convert = |found: regex::Captures<'_>| -> Groups {
        found.iter().map(|group| group.map(|part| part.as_str().to_string())).collect()
    };
    Some(regex.captures_iter(text).map(convert).collect())
}

/// A text with every match of a pattern replaced, as `regex` does it; `None` for
/// a pattern that it rejects.
pub uninterp spec fn regex_replaced(
    pattern: Seq<char>,
    text: Seq<char>,
    replacement: Seq<char>,
) -> Option<Seq<char>>;

/// `Regex::replace_all` of crate `regex`, on a pattern compiled by `Regex::new`.
/// In the replacement, `${1}` stands for what the first group matched.
///
/// Claimed: the result depends on the three texts alone.
#[verifier::external_body]
pub(crate) fn replace_matches(pattern: &str, text: &str, replacement: &str) -> (r: Option<String>)
    ensures
        match r {
            Some(s) => regex_replaced(pattern@, text@, replacement@) == Some(s@),
            None => regex_replaced(pattern@, text@, replacement@) is None,
        },
{
    let regex = regex::Regex::new(pattern).ok()?;
    Some(regex.replace_all(text, replacement).into_owned())
}

/// What a Markdown parser reports, as far as notes are made of it. A start is a byte
/// offset into the text.
#[derive(Debug)]
pub enum MarkdownEvent {
    HeadingStart { level: u32, id: Option<String>, start: usize },
    HeadingEnd,
    FenceStart { info: String, start: usize },
    CodeEnd,
    Text(String),
    Code(String),
    Other,
}

/// What a [`MarkdownEvent`] says.
#[verifier::ext_equal]
pub enum EventView {
    HeadingStart { level: u32, id: Option<Seq<char>>, start: usize },
    HeadingEnd,
    FenceStart { info: Seq<char>, start: usize },
    CodeEnd,
    Text(Seq<char>),
    Code(Seq<char>),
    Other,
}

impl View for MarkdownEvent {
    type V = EventView;

    open spec fn view(&self) -> EventView {
        match self {
            MarkdownEvent::HeadingStart { level, id, start } => EventView::HeadingStart {
                level: *level,
                id: crate::text::opt_view(*id),
                start: *start,
            },
            MarkdownEvent::HeadingEnd => EventView::HeadingEnd,
            MarkdownEvent::FenceStart { info, start } => EventView::FenceStart {
                info: info@,
                start: *start,
            },
            MarkdownEvent::CodeEnd => EventView::CodeEnd,
            MarkdownEvent::Text(text) => EventView::Text(text@),
            MarkdownEvent::Code(text) => EventView::Code(text@),
            MarkdownEvent::Other => EventView::Other,
        }
    }
}

pub open spec fn events_view(v: Seq<MarkdownEvent>) -> Seq<EventView> {
    Seq::new(v.len(), |i: int| v[i]@)
}

/// The events of a Markdown text, as `pulldown_cmark` reports them with every
/// extension on.
pub uninterp spec fn markdown_events_of(markdown: Seq<char>) -> Seq<EventView>;

/// `Parser::new_ext` of crate `pulldown_cmark` with `Options::all()`, and
/// `Parser::into_offset_iter` of the result.
///
/// Claimed: the events depend on the text alone. Where they start is not stated.
#[verifier::external_body]
pub(crate) fn markdown_events(markdown: &str) -> (r: Vec<MarkdownEvent>)
    ensures
        events_view(r@) == markdown_events_of(markdown@),
{
    Parser::new_ext(markdown, Options::all()).into_offset_iter().map(|(event, range)| match event {
        Event::Start(Tag::Heading { level, id, .. }) => MarkdownEvent::HeadingStart {
            level: level as u32, id: id.map(|text| text.to_string()), start: range.start },
        Event::End(TagEnd::Heading(_)) => MarkdownEvent::HeadingEnd,
        Event::Start(Tag::CodeBlock(CodeBlockKind::Fenced(info))) => MarkdownEvent::FenceStart {
            info: info.to_string(), start: range.start },
        Event::End(TagEnd::CodeBlock) => MarkdownEvent::CodeEnd,
        Event::Text(text) => MarkdownEvent::Text(text.to_string()),
        Event::Code(text) => MarkdownEvent::Code(text.to_string()),
        _ => MarkdownEvent::Other,
    }).collect()
}

/// Whether a path means the same wherever it is read: a backslash, a drive or a host at the
/// front are taken apart on some systems only.
pub open spec fn portable_path(path: Seq<char>) -> bool {
    &&& !path.contains('\\')
    &&& !(path.len() >= 2 && path[1] == ':')
    &&& !(path.len() >= 2 && path[0] == '/' && path[1] == '/')
}

/// A path without the extension of its last component.
pub uninterp spec fn path_without_extension(path: Seq<char>) -> Seq<char>;

/// A stem, a dot and an extension.
pub open spec fn dotted(stem: Seq<char>, extension: Seq<char>) -> Seq<char> {
    stem.push('.') + extension
}

/// Whether a stem and an extension make up the relative path of a file, with its
/// components separated by slashes and its name having a stem of its own.
pub open spec fn is_file_path(stem: Seq<char>, extension: Seq<char>) -> bool {
    &&& stem.len() > 0
    &&& stem[0] != '/'
    &&& stem.last() != '/'
    &&& stem.last() != '.'
    &&& extension.len() > 0
    &&& !extension.contains('/')
    &&& !extension.contains('.')
    &&& portable_path(dotted(stem, extension))
}

/// `Path::with_extension` of std, with an empty extension.
///
/// Claimed: the result depends on the path alone where the path means the same on every
/// system. The extension of a file's relative path, with the dot before it, is left out.
/// Of a path that some systems take apart in their own way nothing is stated.
#[verifier::external_body]
pub(crate) fn without_extension(path: &str) -> (r: String)
    ensures
        portable_path(path@) ==> r@ == path_without_extension(path@),
        forall|stem: Seq<char>, extension: Seq<char>|
            is_file_path(stem, extension) && path@ == #[trigger] dotted(stem, extension) ==> r@
                == stem,
{
    std::path::Path::new(path).with_extension("").to_string_lossy().into_owned()
}

/// The BLAKE3 hash of some bytes, in lowercase hexadecimal.
pub uninterp spec fn blake3_hex(bytes: Seq<u8>) -> Seq<char>;

/// `blake3::hash` of crate `blake3`, and `Hash::to_hex` of the result.
///
/// Claimed: the digest depends on the bytes alone.
#[verifier::external_body]
pub(crate) fn hash_bytes(bytes: &[u8]) -> (r: String)
    ensures
        r@ == blake3_hex(bytes@),
{
    blake3::hash(bytes).to_hex().to_string()
}

/// A hexadecimal digit, in lower case.
pub open spec fn hex_digit(value: int) -> char {
    if value < 10 {
        ('0' as int + value) as char
    } else {
        ('a' as int + value - 10) as char
    }
}

/// A character as it stands in a JSON string: a quotation mark, a backslash and what comes
/// before the space are escaped, and nothing else is.
pub open spec fn json_escaped(c: char) -> Seq<char> {
    if c == '"' || c == '\\' {
        seq!['\\', c]
    } else if c == '\u{8}' {
        seq!['\\', 'b']
    } else if c == '\t' {
        seq!['\\', 't']
    } else if c == '\n' {
        seq!['\\', 'n']
    } else if c == '\u{c}' {
        seq!['\\', 'f']
    } else if c == '\r' {
        seq!['\\', 'r']
    } else if 0x20 > c as int {
        seq!['\\', 'u', '0', '0', hex_digit(c as int / 16), hex_digit(c as int % 16)]
    } else {
        seq![c]
    }
}

/// The inside of a JSON string.
pub open spec fn json_inside(text: Seq<char>) -> Seq<char>
    decreases text.len(),
{
    if text.len() == 0 {
        Seq::empty()
    } else {
        json_inside(text.drop_last()) + json_escaped(text.last())
    }
}

/// A text as a JSON string.
pub open spec fn json_string(text: Seq<char>) -> Seq<char> {
    seq!['"'] + json_inside(text) + seq!['"']
}

/// `to_string` of crate `serde_json`, on a text.
///
/// Claimed: a text can always be written. It stands between quotation marks, with each of
/// its characters as it is or escaped.
#[verifier::external_body]
pub(crate) fn write_json_string(text: &str) -> (r: Option<String>)
    ensures
        r is Some && r->0@ == json_string(text@),
{
    serde_json::to_string(text).ok()
}

/// Texts as a JSON array: strings between square brackets, with commas and no spaces
/// between them.
pub open spec fn json_array(texts: Seq<Seq<char>>) -> Seq<char> {
    seq!['['] + crate::text::join(
        Seq::new(texts.len(), |i: int| json_string(texts[i])),
        seq![','],
    ) + seq![']']
}

/// `to_string` of crate `serde_json`, on a list of texts.
///
/// Claimed: a list of texts can always be written, as an array of the strings in their
/// order.
#[verifier::external_body]
pub(crate) fn write_json_array(texts: &Vec<String>) -> (r: Option<String>)
    ensures
        r is Some && r->0@ == json_array(crate::text::texts(texts@)),
{
    serde_json::to_string(texts).ok()
}

/// The text that a JSON string stands for, or what is wrong with the JSON.
pub uninterp spec fn json_text(source: Seq<char>) -> Result<Seq<char>, Seq<char>>;

/// `from_str` of crate `serde_json`, into a `String`; an error is printed.
///
/// Claimed: the text or the error depends on the source alone.
#[verifier::external_body]
pub(crate) fn read_json_string(source: &str) -> (r: Result<String, String>)
    ensures
        match r {
            Ok(text) => json_text(source@) == Ok::<Seq<char>, Seq<char>>(text@),
            Err(error) => json_text(source@) == Err::<Seq<char>, Seq<char>>(error@),
        },
{
    serde_json::from_str(source).map_err(|error| error.to_string())
}

/// A UTC date and time printed by a format of `chrono`; `None` for a number of
/// seconds that no date stands for.
pub uninterp spec fn utc_formatted(timestamp: i64, format: Seq<char>) -> Option<Seq<char>>;

/// `DateTime::from_timestamp` of crate `chrono`, printed by `DateTime::format`.
/// A format that `chrono` does not know would panic, so only the two in use are
/// admitted.
///
/// Claimed: the result depends on the timestamp and the format alone; the date is
/// in UTC.
#[verifier::external_body]
pub(crate) fn format_utc(timestamp: i64, format: &str) -> (r: Option<String>)
    requires
        format@ == "%Y-%m-%d"@ || format@ == "%a %d"@,
    ensures
        match r {
            Some(s) => utc_formatted(timestamp, format@) == Some(s@),
            None => utc_formatted(timestamp, format@) is None,
        },
{
    chrono::DateTime::from_timestamp(timestamp, 0).map(|date| date.format(format).to_string())
}

/// `SliceRandom::shuffle` of crate `rand`, on the thread's own generator.
///
/// Claimed: the same elements come out, in some order. Which order is left to
/// chance.
#[verifier::external_body]
pub(crate) fn shuffle(order: &mut Vec<usize>)
    ensures
        final(order)@.to_multiset() == old(order)@.to_multiset(),
{
    rand::seq::SliceRandom::shuffle(order.as_mut_slice(), &mut rand::rng())
}

} // verus!
