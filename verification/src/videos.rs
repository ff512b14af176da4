//! The videos that a vault refers to, as an editor lists them.

use vstd::prelude::*;
use vstd::string::*;

use crate::model::SectionRow;
use crate::outside::{groups_view, matches_view, regex_matches, Groups};
use crate::parser::{
    action_of, action_pattern, first_token, found_or_none, group, group_of, lemma_first_token,
    lemma_whole_token, matches_in, read_action, split_token, timestamp, timestamp_of,
};
use crate::text::{from_chars, opt_view, space, text_eq, to_chars, trim, trimmed};

verus! {

/// An `@video` line of a section.
#[derive(Debug)]
pub struct VideoRow {
    pub url: String,
    pub seconds: Option<u64>,
    pub label: Option<String>,
    pub note_title: String,
    pub section_uid: String,
    pub path: String,
    /// Where the section starts.
    pub line: usize,
}

/// What a [`VideoRow`] says.
#[verifier::ext_equal]
pub struct VideoView {
    pub url: Seq<char>,
    pub seconds: Option<u64>,
    pub label: Option<Seq<char>>,
    pub note_title: Seq<char>,
    pub section_uid: Seq<char>,
    pub path: Seq<char>,
    pub line: usize,
}

impl View for VideoRow {
    type V = VideoView;

    open spec fn view(&self) -> VideoView {
        VideoView {
            url: self.url@,
            seconds: self.seconds,
            label: opt_view(self.label),
            note_title: self.note_title@,
            section_uid: self.section_uid@,
            path: self.path@,
            line: self.line,
        }
    }
}

pub open spec fn videos_view(v: Seq<VideoRow>) -> Seq<VideoView> {
    Seq::new(v.len(), |i: int| v[i]@)
}

/// The label of `URL 06:54  Label` or `URL Label`.
pub open spec fn label_of(text: Seq<char>) -> Option<Seq<char>> {
    let trailing = first_token(trimmed(text)).1;
    let (stamp, rest) = first_token(trailing);
    let label = if timestamp_of(stamp) is Some {
        rest
    } else {
        trailing
    };
    if label.len() > 0 {
        Some(label)
    } else {
        None
    }
}

/// The video that a match of the action pattern declares; `None` for another action.
pub open spec fn video_of(section: SectionRow, found: Seq<Option<Seq<char>>>) -> Option<VideoView> {
    match action_of(found, Seq::empty(), None) {
        Some(action) => if action.kind == "video"@ {
            Some(
                VideoView {
                    url: action.target,
                    seconds: action.timestamp_seconds,
                    label: match group_of(found, 2) {
                        Some(text) => label_of(text),
                        None => None,
                    },
                    note_title: section.note_title@,
                    section_uid: section.uid@,
                    path: section.path@,
                    line: section.start_line,
                },
            )
        } else {
            None
        },
        None => None,
    }
}

/// The videos that matches of the action pattern declare, in order.
pub open spec fn videos_of(section: SectionRow, found: Seq<Seq<Option<Seq<char>>>>) -> Seq<
    VideoView,
>
    decreases found.len(),
{
    if found.len() == 0 {
        Seq::empty()
    } else {
        let before = videos_of(section, found.drop_last());
        match video_of(section, found.last()) {
            Some(video) => before.push(video),
            None => before,
        }
    }
}

/// The videos of a section.
pub open spec fn section_videos(section: SectionRow) -> Seq<VideoView> {
    videos_of(section, found_or_none(regex_matches(action_pattern(), section.body@)))
}

/// The videos of the sections, or of the one that is asked for.
pub open spec fn listed_videos(sections: Seq<SectionRow>, uid: Option<Seq<char>>) -> Seq<VideoView>
    decreases sections.len(),
{
    if sections.len() == 0 {
        Seq::empty()
    } else {
        let before = listed_videos(sections.drop_last(), uid);
        if uid is None || uid == Some(sections.last().uid@) {
            before + section_videos(sections.last())
        } else {
            before
        }
    }
}

fn read_label(text: &str) -> (r: Option<String>)
    ensures
        opt_view(r) == label_of(text@),
{
    let whole = to_chars(text);
    let (_, trailing) = split_token(trim(&whole));
    let (stamp, rest) = split_token(trailing);
    let label = if timestamp(stamp).is_some() {
        rest
    } else {
        trailing
    };
    if label.len() > 0 {
        Some(from_chars(label))
    } else {
        None
    }
}

fn read_video(section: &SectionRow, found: &Groups) -> (r: Option<VideoRow>)
    ensures
        match r {
            Some(video) => video_of(*section, groups_view(found@)) == Some(video@),
            None => video_of(*section, groups_view(found@)) is None,
        },
{
    proof {
        reveal_strlit("");
        assert(""@ == Seq::<char>::empty());
    }
    match read_action(found, "", None) {
        Some(action) => if text_eq(action.kind.as_str(), "video") {
            Some(
                VideoRow {
                    url: action.target,
                    seconds: action.timestamp_seconds,
                    label: match group(found, 2) {
                        Some(text) => read_label(text),
                        None => None,
                    },
                    note_title: section.note_title.clone(),
                    section_uid: section.uid.clone(),
                    path: section.path.clone(),
                    line: section.start_line,
                },
            )
        } else {
            None
        },
        None => None,
    }
}

/// The videos of a section, from the matches of the action pattern in its body.
pub fn videos_from(section: &SectionRow, found: &Vec<Groups>) -> (r: Vec<VideoRow>)
    ensures
        videos_view(r@) == videos_of(*section, matches_view(found@)),
{
    let ghost views = matches_view(found@);
    let mut r: Vec<VideoRow> = Vec::new();
    let mut i: usize = 0;
    assert(views.take(0) == Seq::<Seq<Option<Seq<char>>>>::empty());
    assert(videos_view(r@) == Seq::<VideoView>::empty());
    while i < found.len()
        invariant
            0 <= i <= found.len(),
            views == matches_view(found@),
            videos_view(r@) == videos_of(*section, views.take(i as int)),
        decreases found.len() - i,
    {
        let ghost before = videos_view(r@);
        assert(views.take(i + 1).drop_last() == views.take(i as int));
        assert(views.take(i + 1).last() == groups_view(found@[i as int]@));
        if let Some(video) = read_video(section, &found[i]) {
            let ghost added = video@;
            r.push(video);
            assert(videos_view(r@) == before.push(added));
        }
        i += 1;
    }
    assert(views.take(found.len() as int) == views);
    r
}

/// Every `@video` of the sections, or those of the one section that is asked for.
pub fn list_videos(sections: &Vec<SectionRow>, uid: Option<&str>) -> (r: Vec<VideoRow>)
    ensures
        videos_view(r@) == listed_videos(sections@, crate::text::opt_str_view(uid)),
{
    let ghost all = sections@;
    let ghost wanted = crate::text::opt_str_view(uid);
    let mut r: Vec<VideoRow> = Vec::new();
    let mut i: usize = 0;
    assert(all.take(0) == Seq::<SectionRow>::empty());
    assert(videos_view(r@) == Seq::<VideoView>::empty());
    while i < sections.len()
        invariant
            0 <= i <= sections.len(),
            all == sections@,
            wanted == crate::text::opt_str_view(uid),
            videos_view(r@) == listed_videos(all.take(i as int), wanted),
        decreases sections.len() - i,
    {
        assert(all.take(i + 1).drop_last() == all.take(i as int));
        assert(all.take(i + 1).last() == all[i as int]);
        let ghost before = videos_view(r@);
        let section = &sections[i];
        let asked = match uid {
            Some(uid) => text_eq(uid, section.uid.as_str()),
            None => true,
        };
        if asked {
            let found = matches_in(
                r"(?m)^\s*@(file|video|app|project|url)\s+(.+?)\s*$",
                section.body.as_str(),
            );
            let mut more = videos_from(section, &found);
            let ghost added = videos_view(more@);
            r.append(&mut more);
            assert(videos_view(r@) == before + added);
        }
        i += 1;
    }
    assert(all.take(sections.len() as int) == all);
    r
}

// ---------------------------------------------------------------------------
// Laws
// ---------------------------------------------------------------------------

/// Whether a video says where it was declared.
pub open spec fn declared_in(video: VideoView, section: SectionRow) -> bool {
    &&& video.section_uid == section.uid@
    &&& video.note_title == section.note_title@
    &&& video.path == section.path@
    &&& video.line == section.start_line
}

proof fn lemma_videos_of(section: SectionRow, found: Seq<Seq<Option<Seq<char>>>>)
    ensures
        forall|k: int|
            0 <= k < videos_of(section, found).len() ==> declared_in(
                #[trigger] videos_of(section, found)[k],
                section,
            ),
    decreases found.len(),
{
    if found.len() > 0 {
        lemma_videos_of(section, found.drop_last());
        let before = videos_of(section, found.drop_last());
        assert forall|k: int| 0 <= k < videos_of(section, found).len() implies declared_in(
            #[trigger] videos_of(section, found)[k],
            section,
        ) by {
            if k < before.len() {
                assert(videos_of(section, found)[k] == before[k]);
            }
        }
    }
}

/// Every video that is listed says in which section it stands, and that section was asked
/// for.
pub proof fn a_listed_video_says_where_it_stands(
    sections: Seq<SectionRow>,
    uid: Option<Seq<char>>,
    k: int,
)
    requires
        0 <= k < listed_videos(sections, uid).len(),
    ensures
        exists|i: int|
            0 <= i < sections.len() && declared_in(
                listed_videos(sections, uid)[k],
                #[trigger] sections[i],
            ) && (uid is Some ==> sections[i].uid@ == uid->0),
    decreases sections.len(),
{
    if sections.len() > 0 {
        let rest = sections.drop_last();
        let before = listed_videos(rest, uid);
        if k < before.len() {
            a_listed_video_says_where_it_stands(rest, uid, k);
            let i = choose|i: int|
                0 <= i < rest.len() && declared_in(before[k], #[trigger] rest[i]) && (uid is Some
                    ==> rest[i].uid@ == uid->0);
            assert(sections[i] == rest[i]);
        } else {
            lemma_videos_of(
                sections.last(),
                found_or_none(regex_matches(action_pattern(), sections.last().body@)),
            );
            assert(sections[sections.len() - 1] == sections.last());
        }
    }
}

/// The videos of the sections that are asked for are listed section by section, and a
/// section that is not asked for adds none.
pub proof fn videos_are_listed_section_by_section(
    sections: Seq<SectionRow>,
    more: SectionRow,
    uid: Seq<char>,
)
    ensures
        listed_videos(sections.push(more), None) == listed_videos(sections, None)
            + section_videos(more),
        listed_videos(sections.push(more), Some(uid)) == listed_videos(sections, Some(uid)) + (
        if more.uid@ == uid {
            section_videos(more)
        } else {
            Seq::empty()
        }),
{
    assert(sections.push(more).drop_last() == sections);
}

/// A line that names a video lists it, with the moment behind it and with what stands behind
/// both as its label; what stands behind the URL and is no moment belongs to the label.
pub proof fn a_video_line_is_read_from_its_parts(
    section: SectionRow,
    url: Seq<char>,
    stamp: Seq<char>,
    label: Seq<char>,
)
    requires
        url.len() > 0,
        forall|i: int| 0 <= i < url.len() ==> !crate::text::char_is_whitespace(#[trigger] url[i]),
        stamp.len() > 0,
        forall|i: int|
            0 <= i < stamp.len() ==> !crate::text::char_is_whitespace(#[trigger] stamp[i]),
        label.len() > 0,
        trimmed(label) == label,
        !crate::text::char_is_whitespace(label[0]),
        !crate::text::char_is_whitespace(label.last()),
    ensures
        ({
            let whole = url.push(' ') + (stamp.push(' ') + label);
            &&& label_of(url) is None
            &&& label_of(whole) == (if timestamp_of(stamp) is Some {
                Some(label)
            } else {
                Some(stamp.push(' ') + label)
            })
            &&& timestamp_of(stamp) is Some ==> label_of(url.push(' ') + stamp) is None
            &&& timestamp_of(stamp) is None ==> label_of(url.push(' ') + stamp) == Some(stamp)
        }),
{
    let rest = stamp.push(' ') + label;
    let whole = url.push(' ') + rest;
    assert(url.last() == url[url.len() - 1]);
    assert(stamp.last() == stamp[stamp.len() - 1]);
    crate::text::lemma_trim_by_fixed(url, space());
    assert(whole[0] == url[0] && whole.last() == label.last());
    crate::text::lemma_trim_by_fixed(whole, space());
    assert(rest[0] == stamp[0] && rest.last() == label.last());
    crate::text::lemma_trim_by_fixed(rest, space());
    let short = url.push(' ') + stamp;
    assert(short[0] == url[0] && short.last() == stamp.last());
    crate::text::lemma_trim_by_fixed(short, space());
    crate::text::lemma_trim_by_fixed(stamp, space());
    lemma_whole_token(url);
    lemma_first_token(url, rest);
    lemma_first_token(stamp, label);
    lemma_first_token(url, stamp);
    lemma_whole_token(stamp);
    lemma_whole_token(Seq::empty());
    assert(trimmed(Seq::<char>::empty()) == Seq::<char>::empty());
}

} // verus!
