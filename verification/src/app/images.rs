//! Images that no note shows.

use vstd::prelude::*;
use vstd::string::*;

use crate::app::util::{fragment, target_without_fragment};
use crate::outside::{groups_view, matches_view, regex_matches, Groups};
use crate::parser::{found_or_none, group, group_of, matches_in};
use crate::quiz::holds;
use crate::text::{
    cut, from_chars, index_by, lower_text, lowered, opt_view, position_from, position_of,
    starts_with, text_eq, text_starts_with, texts, to_chars, trim, trimmed,
};

verus! {

/// What a file in a vault is, by its extension.
#[derive(Debug, Clone, Copy, PartialEq, Eq, Structural)]
pub enum FileKind {
    Markdown,
    Image,
    Other,
}

/// Whether an extension is that of an image.
pub open spec fn is_image_extension(e: Seq<char>) -> bool {
    e == "avif"@ || e == "bmp"@ || e == "gif"@ || e == "jpeg"@ || e == "jpg"@ || e == "png"@ || e
        == "svg"@ || e == "webp"@
}

pub open spec fn kind_of(extension: Seq<char>) -> FileKind {
    let e = lowered(extension);
    if e == "md"@ {
        FileKind::Markdown
    } else if is_image_extension(e) {
        FileKind::Image
    } else {
        FileKind::Other
    }
}

/// What a file is, by its extension in any case.
pub fn file_kind(extension: &str) -> (r: FileKind)
    ensures
        r == kind_of(extension@),
{
    let text = lower_text(extension);
    let e = text.as_str();
    if text_eq(e, "md") {
        FileKind::Markdown
    } else if text_eq(e, "avif") || text_eq(e, "bmp") || text_eq(e, "gif") || text_eq(e, "jpeg")
        || text_eq(e, "jpg") || text_eq(e, "png") || text_eq(e, "svg") || text_eq(e, "webp") {
        FileKind::Image
    } else {
        FileKind::Other
    }
}

// ---------------------------------------------------------------------------
// What notes show
// ---------------------------------------------------------------------------

/// What stands before the first ` "` in a target, where a title starts.
pub open spec fn untitled(target: Seq<char>, title: Option<int>) -> Seq<char> {
    match title {
        Some(i) => target.take(i),
        None => target,
    }
}

/// Where ` "` first stands in a target.
pub open spec fn title_start(target: Seq<char>) -> Option<int> {
    position_from(target, seq![' ', '"'], 0)
}

/// A target without its query and fragment.
pub open spec fn plain_target(target: Seq<char>) -> Seq<char> {
    target.take(index_by(target, fragment()))
}

/// The file that a Markdown image shows, or `None` for one on the web. Group 1 of the
/// match is a target in angle brackets, group 2 one without.
pub open spec fn image_target(found: Seq<Option<Seq<char>>>) -> Option<Seq<char>> {
    let raw = match (group_of(found, 1), group_of(found, 2)) {
        (Some(t), _) => trimmed(t),
        (None, Some(t)) => trimmed(t),
        (None, None) => Seq::empty(),
    };
    let target = plain_target(untitled(raw, title_start(raw)));
    if starts_with(target, "http://"@) || starts_with(target, "https://"@) {
        None
    } else {
        Some(target)
    }
}

/// The files that the first `count` Markdown images show.
pub open spec fn image_targets_of(found: Seq<Seq<Option<Seq<char>>>>, count: int) -> Seq<Seq<char>>
    decreases count,
{
    if count <= 0 {
        Seq::empty()
    } else {
        let before = image_targets_of(found, count - 1);
        match image_target(found[count - 1]) {
            Some(target) => before.push(target),
            None => before,
        }
    }
}

fn find_title(target: &[char]) -> (r: Option<usize>)
    ensures
        match r {
            Some(i) => title_start(target@) == Some(i as int) && i < target.len(),
            None => title_start(target@) is None,
        },
{
    let mut mark: Vec<char> = Vec::new();
    mark.push(' ');
    mark.push('"');
    assert(mark@ == seq![' ', '"']);
    position_of(target, mark.as_slice())
}

fn read_target(found: &Groups) -> (r: Option<String>)
    ensures
        opt_view(r) == image_target(groups_view(found@)),
{
    let first = match group(found, 1) {
        Some(t) => Some(t),
        None => group(found, 2),
    };
    let text = match first {
        Some(t) => to_chars(t),
        None => Vec::new(),
    };
    let raw = trim(text.as_slice());
    proof {
        if first is None {
            assert(text@ == Seq::<char>::empty());
            assert(raw@ == Seq::<char>::empty());
        }
    }
    let plain = match find_title(raw) {
        Some(i) => from_chars(cut(raw, 0, i)),
        None => from_chars(raw),
    };
    assert(plain@ == untitled(raw@, title_start(raw@)));
    let target = target_without_fragment(plain.as_str());
    if text_starts_with(target.as_str(), "http://") || text_starts_with(
        target.as_str(),
        "https://",
    ) {
        None
    } else {
        Some(target)
    }
}

/// The files that Markdown images show, from the matches of the image pattern.
pub fn image_targets_from(found: &Vec<Groups>) -> (r: Vec<String>)
    ensures
        texts(r@) == image_targets_of(matches_view(found@), found.len() as int),
{
    let ghost views = matches_view(found@);
    let mut r: Vec<String> = Vec::new();
    let mut i: usize = 0;
    assert(texts(r@) == Seq::<Seq<char>>::empty());
    while i < found.len()
        invariant
            0 <= i <= found.len(),
            views == matches_view(found@),
            texts(r@) == image_targets_of(views, i as int),
        decreases found.len() - i,
    {
        assert(views[i as int] == groups_view(found@[i as int]@));
        let ghost before = texts(r@);
        if let Some(target) = read_target(&found[i]) {
            let ghost t = target@;
            r.push(target);
            assert(texts(r@) == before.push(t));
        }
        i += 1;
    }
    r
}

/// The files that a note's Markdown images show, as written in the note.
pub fn image_targets(source: &str) -> (r: Vec<String>)
    ensures
        ({
            let found = found_or_none(
                regex_matches(r#"!\[[^\]]*\]\((?:<([^>]+)>|([^\)]+))\)"#@, source@),
            );
            texts(r@) == image_targets_of(found, found.len() as int)
        }),
{
    let found = matches_in(r#"!\[[^\]]*\]\((?:<([^>]+)>|([^\)]+))\)"#, source);
    image_targets_from(&found)
}

/// The file that a wiki image shows: group 1 of the match.
pub open spec fn wiki_target(found: Seq<Option<Seq<char>>>) -> Seq<char> {
    match group_of(found, 1) {
        Some(t) => plain_target(trimmed(t)),
        None => Seq::empty(),
    }
}

pub open spec fn wiki_targets_of(found: Seq<Seq<Option<Seq<char>>>>) -> Seq<Seq<char>> {
    Seq::new(found.len(), |i: int| wiki_target(found[i]))
}

/// The files that wiki images show, from the matches of the wiki image pattern.
pub fn wiki_targets_from(found: &Vec<Groups>) -> (r: Vec<String>)
    ensures
        texts(r@) == wiki_targets_of(matches_view(found@)),
{
    let ghost views = matches_view(found@);
    let mut r: Vec<String> = Vec::new();
    let mut i: usize = 0;
    while i < found.len()
        invariant
            0 <= i <= found.len(),
            views == matches_view(found@),
            r.len() == i,
            forall|k: int| 0 <= k < i ==> (#[trigger] r@[k])@ == wiki_target(views[k]),
        decreases found.len() - i,
    {
        assert(views[i as int] == groups_view(found@[i as int]@));
        match group(&found[i], 1) {
            Some(t) => {
                let chars = to_chars(t);
                let name = from_chars(trim(chars.as_slice()));
                r.push(target_without_fragment(name.as_str()));
            },
            None => {
                let empty = String::new();
                assert(empty@ == Seq::<char>::empty());
                r.push(empty);
            },
        }
        i += 1;
    }
    assert(texts(r@) == wiki_targets_of(views));
    r
}

/// The files that a note's wiki images show, as written in the note.
pub fn wiki_targets(source: &str) -> (r: Vec<String>)
    ensures
        texts(r@) == wiki_targets_of(found_or_none(regex_matches(r"!\[\[([^\]|#]+)"@, source@))),
{
    let found = matches_in(r"!\[\[([^\]|#]+)", source);
    wiki_targets_from(&found)
}

// ---------------------------------------------------------------------------
// Orphans
// ---------------------------------------------------------------------------

/// An image in the vault.
#[derive(Debug)]
pub struct VaultImage {
    pub path: String,
    pub name: Option<String>,
    /// The path from the vault, where it lies in it.
    pub relative: Option<String>,
}

/// Whether one path comes before another. A separator comes before all other characters,
/// so that paths are ordered component by component.
pub open spec fn path_before(a: Seq<char>, b: Seq<char>) -> bool
    decreases a.len(),
{
    if b.len() == 0 {
        false
    } else if a.len() == 0 {
        true
    } else if a[0] == b[0] {
        path_before(a.drop_first(), b.drop_first())
    } else {
        a[0] == '/' || (b[0] != '/' && a[0] < b[0])
    }
}

/// A list in order with a path at its place.
pub open spec fn insert_path(list: Seq<Seq<char>>, path: Seq<char>) -> Seq<Seq<char>>
    decreases list.len(),
{
    if list.len() > 0 && path_before(path, list.last()) {
        insert_path(list.drop_last(), path).push(list.last())
    } else {
        list.push(path)
    }
}

/// Whether no note shows the image, by its path or by its name.
pub open spec fn is_orphan(
    image: VaultImage,
    referenced: Seq<Seq<char>>,
    wiki_names: Seq<Seq<char>>,
) -> bool {
    !referenced.contains(image.path@) && !(image.name matches Some(n) && wiki_names.contains(n@))
}

/// The orphans among the first `count` images that lie in the vault, in order.
pub open spec fn orphans_of(
    images: Seq<VaultImage>,
    referenced: Seq<Seq<char>>,
    wiki_names: Seq<Seq<char>>,
    count: int,
) -> Seq<Seq<char>>
    decreases count,
{
    if count <= 0 {
        Seq::empty()
    } else {
        let before = orphans_of(images, referenced, wiki_names, count - 1);
        let image = images[count - 1];
        match image.relative {
            Some(path) => if is_orphan(image, referenced, wiki_names) {
                insert_path(before, path@)
            } else {
                before
            },
            None => before,
        }
    }
}

fn comes_before(a: &[char], b: &[char]) -> (r: bool)
    ensures
        r == path_before(a@, b@),
{
    let mut i: usize = 0;
    assert(a@.skip(0) == a@);
    assert(b@.skip(0) == b@);
    while i < a.len() && i < b.len() && a[i] == b[i]
        invariant
            0 <= i <= a.len(),
            i <= b.len(),
            path_before(a@, b@) == path_before(a@.skip(i as int), b@.skip(i as int)),
        decreases a.len() - i,
    {
        assert(a@.skip(i as int).drop_first() == a@.skip(i + 1));
        assert(b@.skip(i as int).drop_first() == b@.skip(i + 1));
        i += 1;
    }
    if i >= b.len() {
        false
    } else if i >= a.len() {
        true
    } else {
        a[i] == '/' || (b[i] != '/' && a[i] < b[i])
    }
}

proof fn lemma_insert_path(list: Seq<Seq<char>>, path: Seq<char>, k: int)
    requires
        0 <= k <= list.len(),
        forall|j: int| k <= j < list.len() ==> path_before(path, #[trigger] list[j]),
        k > 0 ==> !path_before(path, list[k - 1]),
    ensures
        insert_path(list, path) == list.insert(k, path),
    decreases list.len(),
{
    if k < list.len() {
        assert(path_before(path, list[list.len() - 1]));
        lemma_insert_path(list.drop_last(), path, k);
        assert(list.drop_last().insert(k, path).push(list.last()) == list.insert(k, path));
    } else {
        assert(list.push(path) == list.insert(k, path));
    }
}

fn add_path(list: &mut Vec<String>, path: &str)
    ensures
        texts(final(list)@) == insert_path(texts(old(list)@), path@),
{
    let chars = to_chars(path);
    let ghost views = texts(list@);
    let mut k: usize = list.len();
    while k > 0
        invariant_except_break
            0 <= k <= list.len(),
            chars@ == path@,
            views == texts(list@),
            forall|j: int| k <= j < views.len() ==> path_before(path@, #[trigger] views[j]),
        ensures
            0 <= k <= list.len(),
            forall|j: int| k <= j < views.len() ==> path_before(path@, #[trigger] views[j]),
            k > 0 ==> !path_before(path@, views[k - 1]),
        decreases k,
    {
        let other = to_chars(list[k - 1].as_str());
        assert(views[k - 1] == other@);
        if !comes_before(chars.as_slice(), other.as_slice()) {
            break;
        }
        k -= 1;
    }
    proof {
        lemma_insert_path(views, path@, k as int);
    }
    list.insert(k, path.to_owned());
    assert(texts(list@) == views.insert(k as int, path@));
}

/// The images that no note shows, as paths from the vault, in order.
pub fn orphan_images(
    images: &Vec<VaultImage>,
    referenced: &Vec<String>,
    wiki_names: &Vec<String>,
) -> (r: Vec<String>)
    ensures
        texts(r@) == orphans_of(
            images@,
            texts(referenced@),
            texts(wiki_names@),
            images.len() as int,
        ),
{
    let mut r: Vec<String> = Vec::new();
    let mut i: usize = 0;
    assert(texts(r@) == Seq::<Seq<char>>::empty());
    while i < images.len()
        invariant
            0 <= i <= images.len(),
            texts(r@) == orphans_of(images@, texts(referenced@), texts(wiki_names@), i as int),
        decreases images.len() - i,
    {
        let image = &images[i];
        if let Some(path) = &image.relative {
            let named = match &image.name {
                Some(name) => holds(wiki_names, name.as_str()),
                None => false,
            };
            if !holds(referenced, image.path.as_str()) && !named {
                add_path(&mut r, path.as_str());
            }
        }
        i += 1;
    }
    r
}

proof fn lemma_insert_holds(list: Seq<Seq<char>>, path: Seq<char>, p: Seq<char>)
    ensures
        insert_path(list, path).contains(p) <==> list.contains(p) || p == path,
    decreases list.len(),
{
    if list.len() > 0 && path_before(path, list.last()) {
        let rest = list.drop_last();
        lemma_insert_holds(rest, path, p);
        let inner = insert_path(rest, path);
        let all = inner.push(list.last());
        if all.contains(p) {
            let k = choose|k: int| 0 <= k < all.len() && all[k] == p;
            if k < inner.len() {
                assert(inner[k] == p);
                if rest.contains(p) {
                    let j = choose|j: int| 0 <= j < rest.len() && rest[j] == p;
                    assert(list[j] == p);
                }
            } else {
                assert(list[list.len() - 1] == p);
            }
        }
        if list.contains(p) {
            let j = choose|j: int| 0 <= j < list.len() && list[j] == p;
            if j < rest.len() {
                assert(rest[j] == p);
            } else {
                assert(all[inner.len() as int] == p);
            }
        }
        if inner.contains(p) {
            let k = choose|k: int| 0 <= k < inner.len() && inner[k] == p;
            assert(all[k] == p);
        }
    } else {
        let all = list.push(path);
        assert(all[list.len() as int] == path);
        if list.contains(p) {
            let j = choose|j: int| 0 <= j < list.len() && list[j] == p;
            assert(all[j] == p);
        }
        if all.contains(p) {
            let k = choose|k: int| 0 <= k < all.len() && all[k] == p;
            if k < list.len() {
                assert(list[k] == p);
            }
        }
    }
}

proof fn lemma_orphans(
    images: Seq<VaultImage>,
    referenced: Seq<Seq<char>>,
    wiki_names: Seq<Seq<char>>,
    count: int,
    path: Seq<char>,
)
    requires
        0 <= count <= images.len(),
    ensures
        orphans_of(images, referenced, wiki_names, count).contains(path) <==> exists|i: int|
            0 <= i < count && is_orphan(#[trigger] images[i], referenced, wiki_names) && opt_view(
                images[i].relative,
            ) == Some(path),
    decreases count,
{
    if count > 0 {
        lemma_orphans(images, referenced, wiki_names, count - 1, path);
        let before = orphans_of(images, referenced, wiki_names, count - 1);
        let image = images[count - 1];
        if image.relative is Some {
            lemma_insert_holds(before, image.relative->0@, path);
        }
        if exists|i: int|
            0 <= i < count && is_orphan(#[trigger] images[i], referenced, wiki_names) && opt_view(
                images[i].relative,
            ) == Some(path) {
            let i = choose|i: int|
                0 <= i < count && is_orphan(#[trigger] images[i], referenced, wiki_names)
                    && opt_view(images[i].relative) == Some(path);
            if i < count - 1 {
                assert(is_orphan(images[i], referenced, wiki_names));
            }
        }
    }
}

/// An image is listed exactly when it lies in the vault and no note shows it.
pub proof fn only_unreferenced_images_are_listed(
    images: Seq<VaultImage>,
    referenced: Seq<Seq<char>>,
    wiki_names: Seq<Seq<char>>,
    path: Seq<char>,
)
    ensures
        orphans_of(images, referenced, wiki_names, images.len() as int).contains(path)
            <==> exists|i: int|
            0 <= i < images.len() && is_orphan(#[trigger] images[i], referenced, wiki_names)
                && opt_view(images[i].relative) == Some(path),
{
    lemma_orphans(images, referenced, wiki_names, images.len() as int, path);
}

/// Paths are ordered by their first difference. There a path that goes on comes behind one
/// that ends, and a separator before every other character.
pub proof fn the_first_difference_orders_paths(
    common: Seq<char>,
    a: char,
    b: char,
    x: Seq<char>,
    y: Seq<char>,
)
    requires
        a != b,
    ensures
        !path_before(common, common),
        path_before(common, common.push(a) + x),
        !path_before(common.push(a) + x, common),
        path_before(common.push(a) + x, common.push(b) + y) <==> a == '/' || b != '/' && a < b,
    decreases common.len(),
{
    let left = common.push(a) + x;
    let right = common.push(b) + y;
    assert(left.len() > 0 && right.len() > 0);
    if common.len() > 0 {
        let rest = common.drop_first();
        the_first_difference_orders_paths(rest, a, b, x, y);
        assert(left.drop_first() == rest.push(a) + x);
        assert(right.drop_first() == rest.push(b) + y);
    }
}

proof fn lemma_path_order(a: Seq<char>, b: Seq<char>, c: Seq<char>)
    ensures
        !path_before(b, a) && !path_before(c, b) ==> !path_before(c, a),
        path_before(a, b) ==> !path_before(b, a),
    decreases a.len(),
{
    if a.len() > 0 && b.len() > 0 {
        if c.len() > 0 {
            lemma_path_order(a.drop_first(), b.drop_first(), c.drop_first());
        } else {
            lemma_path_order(a.drop_first(), b.drop_first(), c);
        }
    }
}

proof fn lemma_insert_sorted(list: Seq<Seq<char>>, path: Seq<char>)
    requires
        forall|i: int, j: int|
            0 <= i < j < list.len() ==> !path_before(#[trigger] list[j], #[trigger] list[i]),
    ensures
        forall|i: int, j: int|
            0 <= i < j < insert_path(list, path).len() ==> !path_before(
                #[trigger] insert_path(list, path)[j],
                #[trigger] insert_path(list, path)[i],
            ),
        forall|i: int|
            0 <= i < insert_path(list, path).len() ==> #[trigger] insert_path(list, path)[i]
                == path || list.contains(insert_path(list, path)[i]),
    decreases list.len(),
{
    let all = insert_path(list, path);
    if list.len() > 0 && path_before(path, list.last()) {
        let rest = list.drop_last();
        lemma_insert_sorted(rest, path);
        let less = insert_path(rest, path);
        assert forall|i: int| 0 <= i < all.len() implies #[trigger] all[i] == path
            || list.contains(all[i]) by {
            if i < less.len() {
                if less[i] != path {
                    let k = choose|k: int| 0 <= k < rest.len() && rest[k] == less[i];
                    assert(list[k] == less[i]);
                }
            } else {
                assert(list[list.len() - 1] == all[i]);
            }
        }
        assert forall|i: int, j: int| 0 <= i < j < all.len() implies !path_before(
            #[trigger] all[j],
            #[trigger] all[i],
        ) by {
            if j < less.len() {
                assert(all[i] == less[i] && all[j] == less[j]);
            } else {
                assert(all[i] == less[i]);
                if less[i] == path {
                    lemma_path_order(path, list.last(), path);
                } else {
                    let k = choose|k: int| 0 <= k < rest.len() && rest[k] == less[i];
                    assert(!path_before(list[list.len() - 1], list[k]));
                }
            }
        }
    } else {
        assert forall|i: int| 0 <= i < all.len() implies #[trigger] all[i] == path
            || list.contains(all[i]) by {
            if i < list.len() {
                assert(all[i] == list[i]);
            }
        }
        assert forall|i: int, j: int| 0 <= i < j < all.len() implies !path_before(
            #[trigger] all[j],
            #[trigger] all[i],
        ) by {
            if j < list.len() {
                assert(all[i] == list[i] && all[j] == list[j]);
            } else {
                assert(all[i] == list[i]);
                if i < list.len() - 1 {
                    assert(!path_before(list[list.len() - 1], list[i]));
                    lemma_path_order(list[i], list[list.len() - 1], path);
                }
            }
        }
    }
}

/// The images that no note shows are listed in the order of their paths.
pub proof fn orphans_are_listed_in_order(
    images: Seq<VaultImage>,
    referenced: Seq<Seq<char>>,
    wiki_names: Seq<Seq<char>>,
    count: int,
)
    ensures
        forall|i: int, j: int|
            0 <= i < j < orphans_of(images, referenced, wiki_names, count).len() ==> !path_before(
                #[trigger] orphans_of(images, referenced, wiki_names, count)[j],
                #[trigger] orphans_of(images, referenced, wiki_names, count)[i],
            ),
    decreases count,
{
    if count > 0 {
        orphans_are_listed_in_order(images, referenced, wiki_names, count - 1);
        let before = orphans_of(images, referenced, wiki_names, count - 1);
        if let Some(path) = images[count - 1].relative {
            lemma_insert_sorted(before, path@);
        }
    }
}

/// A note shows an image by its path or, in a wiki link, by its name.
pub proof fn a_shown_image_is_no_orphan(
    image: VaultImage,
    referenced: Seq<Seq<char>>,
    wiki_names: Seq<Seq<char>>,
)
    ensures
        referenced.contains(image.path@) ==> !is_orphan(image, referenced, wiki_names),
        image.name matches Some(n) && wiki_names.contains(n@) ==> !is_orphan(
            image,
            referenced,
            wiki_names,
        ),
        !referenced.contains(image.path@) && (image.name matches Some(n) ==> !wiki_names.contains(
            n@,
        )) ==> is_orphan(image, referenced, wiki_names),
{
}

/// A target ends where its query or fragment starts.
pub proof fn a_target_ends_before_its_fragment(target: Seq<char>, mark: char, rest: Seq<char>)
    requires
        !target.contains('#'),
        !target.contains('?'),
        mark == '#' || mark == '?',
    ensures
        plain_target(target) == target,
        plain_target(target.push(mark) + rest) == target,
{
    let n = target.len() as int;
    let whole = target.push(mark) + rest;
    assert forall|j: int| 0 <= j < n implies !fragment()(#[trigger] target[j]) by {
        assert(target.contains(target[j]));
    }
    assert forall|j: int| 0 <= j < n implies !fragment()(#[trigger] whole[j]) by {
        assert(whole[j] == target[j]);
        assert(target.contains(target[j]));
    }
    assert(fragment()(whole[n]));
    crate::text::lemma_index_by_is(target, fragment(), n);
    crate::text::lemma_index_by_is(whole, fragment(), n);
    assert(target.take(n) == target);
    assert(whole.take(n) == target);
}

/// An image on the web is no file of the vault, and any other target is one.
pub proof fn images_on_the_web_are_no_files(target: Seq<char>)
    requires
        trimmed(target) == target,
        !target.contains('#'),
        !target.contains('?'),
        !target.contains('"'),
    ensures
        ({
            let found = seq![None::<Seq<char>>, None::<Seq<char>>, Some(target)];
            let bracketed = seq![None::<Seq<char>>, Some(target), None::<Seq<char>>];
            &&& image_target(found) == image_target(bracketed)
            &&& starts_with(target, "http://"@) || starts_with(target, "https://"@) ==> image_target(
                found,
            ) is None
            &&& !starts_with(target, "http://"@) && !starts_with(target, "https://"@)
                ==> image_target(found) == Some(target)
        }),
{
    lemma_no_title(target, 0);
    a_target_ends_before_its_fragment(target, '#', Seq::empty());
}

proof fn lemma_no_title(target: Seq<char>, from: int)
    requires
        !target.contains('"'),
        0 <= from,
    ensures
        position_from(target, seq![' ', '"'], from) is None,
    decreases target.len() - from,
{
    if from < target.len() {
        if crate::text::occurs_at(target, seq![' ', '"'], from) {
            assert(target.subrange(from, from + 2)[1] == '"');
            assert(target.contains(target[from + 1]));
        }
        lemma_no_title(target, from + 1);
    }
}

} // verus!
