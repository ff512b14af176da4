//! The entries that a vault's `.gitignore` has to hold.

use vstd::prelude::*;
use vstd::string::*;

use crate::text::{
    char_is_whitespace, chars_eq, index_by, just, lemma_index_by, lemma_index_by_is,
    lemma_trim_by_fixed, lines, push_all, slices, space, split_lines, to_chars, trim,
    trim_start_by, trimmed, without_return,
};

verus! {

/// The paths below a vault that are never synced.
pub open spec fn entries() -> Seq<Seq<char>> {
    seq![
        "/.notes/index.sqlite"@,
        "/.notes/index.sqlite-shm"@,
        "/.notes/index.sqlite-wal"@,
        "/.notes/ygraphy-open.json"@,
        "/.notes/ygraphy-open.pending"@,
    ]
}

/// Whether a line of the file is the entry, white space around it aside.
pub open spec fn has_line(source: Seq<char>, entry: Seq<char>) -> bool {
    exists|k: int| 0 <= k < lines(source).len() && trimmed(#[trigger] lines(source)[k]) == entry
}

/// `source` with a line break at its end, unless it is empty or has one.
pub open spec fn ended(source: Seq<char>) -> Seq<char> {
    if source.len() > 0 && source.last() != '\n' {
        source.push('\n')
    } else {
        source
    }
}

/// `source` with the entry as its last line, unless it has it already.
pub open spec fn with_entry(source: Seq<char>, entry: Seq<char>) -> Seq<char> {
    if has_line(source, entry) {
        source
    } else {
        (ended(source) + entry).push('\n')
    }
}

/// `source` with the first `count` entries.
pub open spec fn with_entries(source: Seq<char>, count: int) -> Seq<char>
    decreases count,
{
    if count <= 0 {
        source
    } else {
        with_entry(with_entries(source, count - 1), entries()[count - 1])
    }
}

/// The text that the file has to hold.
pub open spec fn updated(source: Seq<char>) -> Seq<char> {
    with_entries(source, entries().len() as int)
}

fn holds_line(source: &[char], entry: &[char]) -> (r: bool)
    ensures
        r == has_line(source@, entry@),
{
    let parts = split_lines(source);
    let mut i: usize = 0;
    while i < parts.len()
        invariant
            0 <= i <= parts.len(),
            slices(parts@) == lines(source@),
            forall|k: int| 0 <= k < i ==> trimmed(#[trigger] lines(source@)[k]) != entry@,
        decreases parts.len() - i,
    {
        assert(lines(source@)[i as int] == parts@[i as int]@);
        if chars_eq(trim(parts[i]), entry) {
            return true;
        }
        i += 1;
    }
    false
}

fn add_entry(source: &mut Vec<char>, entry: &str)
    ensures
        final(source)@ == with_entry(old(source)@, entry@),
{
    let wanted = to_chars(entry);
    if !holds_line(source.as_slice(), wanted.as_slice()) {
        if source.len() > 0 && source[source.len() - 1] != '\n' {
            source.push('\n');
        }
        push_all(source, wanted.as_slice());
        source.push('\n');
    }
}

/// The text that has to replace the file's, or `None` when it lacks no entry.
pub fn update(source: &str) -> (r: Option<String>)
    ensures
        match r {
            Some(text) => text@ == updated(source@) && text@ != source@,
            None => updated(source@) == source@,
        },
{
    let before = to_chars(source);
    let mut after = to_chars(source);
    proof {
        reveal_with_fuel(with_entries, 6);
    }
    add_entry(&mut after, "/.notes/index.sqlite");
    add_entry(&mut after, "/.notes/index.sqlite-shm");
    add_entry(&mut after, "/.notes/index.sqlite-wal");
    add_entry(&mut after, "/.notes/ygraphy-open.json");
    add_entry(&mut after, "/.notes/ygraphy-open.pending");
    assert(after@ == updated(source@));
    if chars_eq(before.as_slice(), after.as_slice()) {
        None
    } else {
        Some(crate::text::from_chars(after.as_slice()))
    }
}

// ---------------------------------------------------------------------------
// Laws
// ---------------------------------------------------------------------------

/// Lines of a text that ends with a line break stay when text is added.
proof fn lemma_lines_add(a: Seq<char>, b: Seq<char>)
    requires
        a.len() == 0 || a.last() == '\n',
    ensures
        lines(a + b) == lines(a) + lines(b),
    decreases a.len(),
{
    if a.len() == 0 {
        assert(a + b == b);
    } else {
        let p = just('\n');
        lemma_index_by(a, p);
        let i = index_by(a, p);
        if i == a.len() {
            assert(!p(a[a.len() - 1]));
        }
        let whole = a + b;
        assert forall|j: int| 0 <= j < i implies !p(#[trigger] whole[j]) by {
            assert(whole[j] == a[j]);
        }
        lemma_index_by_is(whole, p, i);
        assert(whole.take(i) == a.take(i));
        assert(whole.skip(i + 1) == a.skip(i + 1) + b);
        lemma_lines_add(a.skip(i + 1), b);
        assert(lines(whole) == seq![without_return(a.take(i))] + (lines(a.skip(i + 1)) + lines(b)));
        assert(lines(a) == seq![without_return(a.take(i))] + lines(a.skip(i + 1)));
    }
}

proof fn lemma_one_line(entry: Seq<char>)
    requires
        entry.len() > 0,
        forall|j: int| 0 <= j < entry.len() ==> (#[trigger] entry[j]) != '\n',
        entry.last() != '\r',
    ensures
        lines(entry.push('\n')) == seq![entry],
{
    let whole = entry.push('\n');
    lemma_index_by_is(whole, just('\n'), entry.len() as int);
    assert(whole.take(entry.len() as int) == entry);
    assert(whole.skip(entry.len() + 1int) == Seq::<char>::empty());
    assert(lines(whole.skip(entry.len() + 1int)) == Seq::<Seq<char>>::empty());
    assert(lines(whole) == seq![entry] + Seq::<Seq<char>>::empty());
    assert(seq![entry] + Seq::<Seq<char>>::empty() == seq![entry]);
}

proof fn lemma_trim_start_last(s: Seq<char>, p: spec_fn(char) -> bool)
    requires
        s.len() > 0,
        p(s.last()),
    ensures
        trim_start_by(s.drop_last(), p) == trim_start_by(s, p) || (trim_start_by(s, p).len() > 0
            && trim_start_by(s, p).last() == s.last() && trim_start_by(s.drop_last(), p)
            == trim_start_by(s, p).drop_last()),
    decreases s.len(),
{
    if p(s[0]) {
        if s.len() == 1 {
            assert(s.drop_last() == s.drop_first());
            assert(trim_start_by(s.drop_first(), p) == s.drop_first());
        } else {
            let rest = s.drop_first();
            lemma_trim_start_last(rest, p);
            assert(rest.drop_last() == s.drop_last().drop_first());
            assert(trim_start_by(s.drop_last(), p) == trim_start_by(rest.drop_last(), p));
        }
    } else {
        assert(s.drop_last()[0] == s[0] || s.len() == 1);
    }
}

/// A carriage return at the end of a line is trimmed with the rest.
proof fn lemma_trimmed_return(s: Seq<char>)
    ensures
        trimmed(without_return(s)) == trimmed(s),
{
    if s.len() > 0 && s.last() == '\r' {
        let p = space();
        assert(char_is_whitespace('\r'));
        assert(p(s.last()));
        lemma_trim_start_last(s, p);
    }
}

/// A line break at the end changes no line but for the white space around it.
proof fn lemma_lines_ended(s: Seq<char>)
    requires
        s.len() > 0,
        s.last() != '\n',
    ensures
        lines(s.push('\n')).len() == lines(s).len(),
        forall|k: int|
            0 <= k < lines(s).len() ==> trimmed(#[trigger] lines(s)[k]) == trimmed(
                lines(s.push('\n'))[k],
            ),
    decreases s.len(),
{
    let p = just('\n');
    let e = s.push('\n');
    lemma_index_by(s, p);
    let i = index_by(s, p);
    assert forall|j: int| 0 <= j < i implies !p(#[trigger] e[j]) by {
        assert(e[j] == s[j]);
    }
    lemma_index_by_is(e, p, i);
    assert(e.take(i) == s.take(i));
    if i == s.len() {
        assert(s.take(i) == s);
        assert(e.skip(i + 1) == Seq::<char>::empty());
        assert(lines(e.skip(i + 1)) == Seq::<Seq<char>>::empty());
        lemma_trimmed_return(s);
        assert(lines(e)[0] == without_return(s));
    } else {
        let rest = s.skip(i + 1);
        assert(e.skip(i + 1) == rest.push('\n'));
        assert(i + 1 < s.len()) by {
            if i + 1 == s.len() {
                assert(p(s[i]));
                assert(s[i] == s.last());
            }
        }
        assert(rest.last() == s.last());
        lemma_lines_ended(rest);
        assert forall|k: int| 0 <= k < lines(s).len() implies trimmed(#[trigger] lines(s)[k])
            == trimmed(lines(e)[k]) by {
            if k > 0 {
                assert(lines(s)[k] == lines(rest)[k - 1]);
                assert(lines(e)[k] == lines(rest.push('\n'))[k - 1]);
            }
        }
    }
}

/// An entry that the file had stays in it when another is added.
proof fn lemma_line_stays(source: Seq<char>, entry: Seq<char>, added: Seq<char>)
    requires
        has_line(source, entry),
    ensures
        has_line(with_entry(source, added), entry),
{
    if !has_line(source, added) {
        let k = choose|k: int|
            0 <= k < lines(source).len() && trimmed(#[trigger] lines(source)[k]) == entry;
        let e = ended(source);
        if source.len() > 0 && source.last() != '\n' {
            lemma_lines_ended(source);
        }
        assert(trimmed(lines(e)[k]) == entry);
        let more = added.push('\n');
        let after = with_entry(source, added);
        assert(after == e + more);
        lemma_lines_add(e, more);
        assert(lines(after)[k] == lines(e)[k]);
    }
}

/// What an entry looks like: one line, with no white space at its ends.
spec fn is_plain(entry: Seq<char>) -> bool {
    &&& entry.len() > 0
    &&& forall|j: int| 0 <= j < entry.len() ==> (#[trigger] entry[j]) != '\n'
    &&& !char_is_whitespace(entry[0])
    &&& !char_is_whitespace(entry.last())
}

proof fn lemma_entry_added(source: Seq<char>, entry: Seq<char>)
    requires
        is_plain(entry),
    ensures
        has_line(with_entry(source, entry), entry),
{
    if !has_line(source, entry) {
        let e = ended(source);
        let more = entry.push('\n');
        let after = with_entry(source, entry);
        assert(after == e + more);
        lemma_lines_add(e, more);
        assert(char_is_whitespace('\r'));
        lemma_one_line(entry);
        let k = lines(e).len() as int;
        assert(lines(after)[k] == entry);
        lemma_trim_by_fixed(entry, space());
        assert(trimmed(lines(after)[k]) == entry);
    }
}

proof fn lemma_entries_plain()
    ensures
        forall|i: int| 0 <= i < entries().len() ==> is_plain(#[trigger] entries()[i]),
{
    reveal_strlit("/.notes/index.sqlite");
    reveal_strlit("/.notes/index.sqlite-shm");
    reveal_strlit("/.notes/index.sqlite-wal");
    reveal_strlit("/.notes/ygraphy-open.json");
    reveal_strlit("/.notes/ygraphy-open.pending");
    assert(is_plain("/.notes/index.sqlite"@));
    assert(is_plain("/.notes/index.sqlite-shm"@));
    assert(is_plain("/.notes/index.sqlite-wal"@));
    assert(is_plain("/.notes/ygraphy-open.json"@));
    assert(is_plain("/.notes/ygraphy-open.pending"@));
}

proof fn lemma_with_entries(source: Seq<char>, count: int)
    requires
        0 <= count <= entries().len(),
    ensures
        forall|i: int|
            0 <= i < count ==> has_line(with_entries(source, count), #[trigger] entries()[i]),
        source.is_prefix_of(with_entries(source, count)),
    decreases count,
{
    if count > 0 {
        lemma_with_entries(source, count - 1);
        lemma_entries_plain();
        let before = with_entries(source, count - 1);
        let added = entries()[count - 1];
        assert forall|i: int| 0 <= i < count implies has_line(
            with_entries(source, count),
            #[trigger] entries()[i],
        ) by {
            if i < count - 1 {
                lemma_line_stays(before, entries()[i], added);
            } else {
                lemma_entry_added(before, added);
            }
        }
        let after = with_entries(source, count);
        assert forall|j: int| 0 <= j < source.len() implies source[j] == after[j] by {
            assert(source[j] == before[j]);
        }
        assert(source.is_prefix_of(after));
    }
}

/// After an update every entry is a line of the file, and what the file held before
/// still stands at its start.
pub proof fn every_entry_is_ignored(source: Seq<char>, i: int)
    requires
        0 <= i < entries().len(),
    ensures
        has_line(updated(source), entries()[i]),
        source.is_prefix_of(updated(source)),
{
    lemma_with_entries(source, entries().len() as int);
}

proof fn lemma_nothing_to_add(source: Seq<char>, count: int)
    requires
        0 <= count <= entries().len(),
        forall|i: int| 0 <= i < entries().len() ==> has_line(source, #[trigger] entries()[i]),
    ensures
        with_entries(source, count) == source,
    decreases count,
{
    if count > 0 {
        lemma_nothing_to_add(source, count - 1);
    }
}

/// A file that was updated needs no update.
pub proof fn updating_twice_is_updating_once(source: Seq<char>)
    ensures
        updated(updated(source)) == updated(source),
{
    lemma_with_entries(source, entries().len() as int);
    lemma_nothing_to_add(updated(source), entries().len() as int);
}

} // verus!
