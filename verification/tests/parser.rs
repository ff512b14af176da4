//! Timestamps, clips, actions, relations and slugs.

use yalive::model::{ParsedAction, SectionRow};
use yalive::parser::{
    absolute, clip_parts, heading_from, join_path, normalize_target, parse_actions, parse_clip,
    parse_relations, parse_timestamp, slugify, split_heading_id, split_path_and_line,
    strip_url_timestamp, youtube_id,
};
use yalive::videos::list_videos;

fn actions_in(body: &str) -> Vec<ParsedAction> {
    parse_actions(body, "/home/nabi/brain", Some("/home/nabi"))
}

#[test]
fn a_file_action_takes_a_line_number_from_the_last_colon() {
    assert_eq!(split_path_and_line("/tmp/a.rs:42"), ("/tmp/a.rs", Some(42)));
    assert_eq!(
        split_path_and_line("/tmp/odd:name/a.rs:42"),
        ("/tmp/odd:name/a.rs", Some(42))
    );
    assert_eq!(split_path_and_line("/tmp/a.rs:bar"), ("/tmp/a.rs:bar", None));
    assert_eq!(split_path_and_line("/tmp/a.rs"), ("/tmp/a.rs", None));
}

#[test]
fn a_line_number_that_does_not_fit_is_dropped() {
    assert_eq!(split_path_and_line("a:4294967295"), ("a", Some(4294967295)));
    assert_eq!(split_path_and_line("a:4294967296"), ("a", None));
    assert_eq!(split_path_and_line("a:"), ("a:", None));
    assert_eq!(split_path_and_line(":7"), ("", Some(7)));
}

#[test]
fn a_relative_file_action_resolves_against_the_note_not_the_daemon() {
    let actions = actions_in("@file ./diagrams/pipeline.svg\n");
    assert_eq!(actions[0].target, "/home/nabi/brain/./diagrams/pipeline.svg");
}

#[test]
fn a_tilde_in_an_action_is_expanded() {
    let actions = actions_in("@file ~/projects/obs/src/smoothing.rs:41\n");
    assert_eq!(actions[0].target, "/home/nabi/projects/obs/src/smoothing.rs");
    assert_eq!(actions[0].line, Some(41));
}

#[test]
fn a_tilde_stays_without_a_home() {
    assert_eq!(absolute("~/a", "/notes", None), "/notes/~/a");
    assert_eq!(absolute("/etc/hosts", "/notes", None), "/etc/hosts");
    assert_eq!(absolute("~/a", "/notes", Some("/home/x")), "/home/x/a");
    assert_eq!(join_path("/notes", "a.md"), "/notes/a.md");
    assert_eq!(join_path("/notes", "/a.md"), "/a.md");
}

#[test]
fn a_video_timestamp_is_accepted_in_every_form_a_note_might_use() {
    assert_eq!(parse_timestamp("1:23"), Some(83));
    assert_eq!(parse_timestamp("01:02:03"), Some(3723));
    assert_eq!(parse_timestamp("414"), Some(414));
    assert_eq!(parse_timestamp("6m54s"), Some(414));
    assert_eq!(parse_timestamp("1h30m"), Some(5400));
    assert_eq!(parse_timestamp("nonsense"), None);
    assert_eq!(parse_timestamp(""), None);
}

#[test]
fn a_timestamp_that_does_not_fit_is_none() {
    assert_eq!(parse_timestamp("18446744073709551615"), Some(18446744073709551615));
    assert_eq!(parse_timestamp("18446744073709551616"), None);
    assert_eq!(parse_timestamp("90s"), Some(90));
    assert_eq!(parse_timestamp("m"), Some(0));
    assert_eq!(parse_timestamp("18446744073709551615h"), None);
}

#[test]
fn a_timestamp_already_in_the_url_is_lifted_out_and_the_url_stored_clean() {
    let actions = actions_in("@video https://youtu.be/ABC?t=414\n");
    assert_eq!(actions[0].target, "https://youtu.be/ABC");
    assert_eq!(actions[0].timestamp_seconds, Some(414));

    let actions = actions_in("@video https://www.youtube.com/watch?v=ABC&t=6m54s\n");
    assert_eq!(actions[0].target, "https://www.youtube.com/watch?v=ABC");
    assert_eq!(actions[0].timestamp_seconds, Some(414));
}

#[test]
fn stripping_a_url_keeps_its_other_parameters() {
    assert_eq!(
        strip_url_timestamp("https://a.b/c?x=1&t=5&y=2"),
        ("https://a.b/c?x=1&y=2".to_string(), Some(5))
    );
    assert_eq!(
        strip_url_timestamp("https://a.b/c"),
        ("https://a.b/c".to_string(), None)
    );
}

#[test]
fn an_explicit_timestamp_beats_one_embedded_in_the_url() {
    let actions = actions_in("@video https://youtu.be/ABC?t=10 1:00\n");
    assert_eq!(actions[0].timestamp_seconds, Some(60));
}

#[test]
fn clip_values_carry_a_range_and_an_optional_label() {
    let clip =
        parse_clip("https://youtu.be/dQw4w9WgXcQ 06:54-07:20  The borrow checker bit").unwrap();
    assert_eq!(clip.url, "https://youtu.be/dQw4w9WgXcQ");
    assert_eq!(clip.video_id.as_deref(), Some("dQw4w9WgXcQ"));
    assert_eq!(clip.start, 414);
    assert_eq!(clip.end, Some(440));
    assert_eq!(clip.label.as_deref(), Some("The borrow checker bit"));

    let clip = parse_clip("https://youtu.be/dQw4w9WgXcQ 06:54").unwrap();
    assert_eq!(clip.start, 414);
    assert_eq!(clip.end, None);

    let clip = parse_clip("https://youtu.be/dQw4w9WgXcQ").unwrap();
    assert_eq!(clip.start, 0);
    assert_eq!(clip.label, None);

    let clip = parse_clip("https://www.youtube.com/watch?v=dQw4w9WgXcQ&t=90s").unwrap();
    assert_eq!(clip.url, "https://www.youtube.com/watch?v=dQw4w9WgXcQ");
    assert_eq!(clip.start, 90);

    let clip = parse_clip("https://youtu.be/dQw4w9WgXcQ  Just a label").unwrap();
    assert_eq!(clip.start, 0);
    assert_eq!(clip.label.as_deref(), Some("Just a label"));

    let clip = parse_clip("https://example.com/talk.mp4 1:00").unwrap();
    assert_eq!(clip.video_id, None);
    assert_eq!(clip.start, 60);

    assert!(parse_clip("   ").is_none());
}

#[test]
fn the_parts_of_a_clip_are_read_without_its_video_id() {
    let clip = clip_parts("https://youtu.be/dQw4w9WgXcQ 0:10-0:20 x").unwrap();
    assert_eq!(clip.url, "https://youtu.be/dQw4w9WgXcQ");
    assert_eq!(clip.video_id, None);
    assert_eq!((clip.start, clip.end), (10, Some(20)));
    assert!(clip_parts("").is_none());
}

#[test]
fn a_video_id_is_found_in_every_form_of_url() {
    assert_eq!(youtube_id("https://youtu.be/dQw4w9WgXcQ").as_deref(), Some("dQw4w9WgXcQ"));
    assert_eq!(
        youtube_id("https://www.youtube.com/watch?v=dQw4w9WgXcQ").as_deref(),
        Some("dQw4w9WgXcQ")
    );
    assert_eq!(youtube_id("https://example.com/talk.mp4"), None);
}

#[test]
fn a_label_after_the_timestamp_does_not_swallow_it() {
    let actions = actions_in("@video https://youtu.be/ABC 06:54  Chapter on borrowing\n");
    assert_eq!(actions[0].target, "https://youtu.be/ABC");
    assert_eq!(actions[0].timestamp_seconds, Some(414));

    let actions = actions_in("@video https://youtu.be/ABC?t=90 Just a label\n");
    assert_eq!(actions[0].timestamp_seconds, Some(90));

    let actions = actions_in("@video https://youtu.be/ABC Just a label\n");
    assert_eq!(actions[0].timestamp_seconds, None);
}

#[test]
fn an_unparseable_timestamp_is_left_in_the_url_rather_than_deleted() {
    let actions = actions_in("@video https://example.com/v?t=chapter-three\n");
    assert_eq!(actions[0].target, "https://example.com/v?t=chapter-three");
    assert_eq!(actions[0].timestamp_seconds, None);
}

#[test]
fn an_action_mentioned_mid_sentence_is_prose_not_an_action() {
    let actions = actions_in("I use the @file syntax to link things.\nSee @app blender too.\n");
    assert!(actions.is_empty(), "{actions:?}");
}

#[test]
fn every_action_kind_parses() {
    let actions = actions_in(
        "@file /tmp/a.rs:12\n\
         @video https://youtu.be/ABC 2:00\n\
         @app com.obsproject.Studio\n\
         @project ~/projects/obs\n\
         @url https://example.com/docs\n",
    );
    let kinds: Vec<&str> = actions.iter().map(|a| a.kind.as_str()).collect();
    assert_eq!(kinds, ["file", "video", "app", "project", "url"]);
    assert_eq!(actions[1].timestamp_seconds, Some(120));
    assert_eq!(actions[2].target, "com.obsproject.Studio");
}

#[test]
fn relations_are_read_with_their_type_and_target() {
    let relations =
        parse_relations("Related: [[memory#safety]]\nsupersedes:: [[#old]]\n[[other]]\n", "rust");
    let found: Vec<(&str, &str)> = relations
        .iter()
        .map(|r| (r.relation_type.as_str(), r.target_uid.as_str()))
        .collect();
    assert_eq!(
        found,
        [("related", "memory#safety"), ("supersedes", "rust#old"), ("related", "other#root")]
    );
}

#[test]
fn a_target_is_completed_from_its_note() {
    assert_eq!(normalize_target("memory#safety", "rust"), "memory#safety");
    assert_eq!(normalize_target("#old", "rust"), "rust#old");
    assert_eq!(normalize_target("memory", "rust"), "memory#root");
}

#[test]
fn an_id_is_split_off_a_heading() {
    assert_eq!(
        split_heading_id("Borrowing {#borrow}"),
        ("Borrowing".to_string(), Some("borrow".to_string()))
    );
    assert_eq!(split_heading_id("Borrowing"), ("Borrowing".to_string(), None));
    assert_eq!(
        heading_from("Borrowing", &vec![]),
        ("Borrowing".to_string(), None)
    );
}

#[test]
fn creates_safe_note_slugs() {
    assert_eq!(slugify("Rust: Ownership & Borrowing"), "rust-ownership-borrowing");
}

#[test]
fn slugify_produces_a_usable_file_stem() {
    assert_eq!(slugify("Rust Ownership & Borrowing"), "rust-ownership-borrowing");
    assert_eq!(slugify("   "), "");
}

#[test]
fn a_label_with_a_hyphen_is_no_range() {
    let clip = parse_clip("https://youtu.be/dQw4w9WgXcQ Part-2").unwrap();
    assert_eq!(clip.url, "https://youtu.be/dQw4w9WgXcQ");
    assert_eq!(clip.start, 0);
    assert_eq!(clip.end, None);
    assert_eq!(clip.label.as_deref(), Some("Part-2"));
    let clip = parse_clip("https://youtu.be/dQw4w9WgXcQ?t=5 Part-0 of it").unwrap();
    assert_eq!((clip.start, clip.end), (5, None));
    assert_eq!(clip.label.as_deref(), Some("Part-0 of it"));
}

fn section(uid: &str, body: &str) -> SectionRow {
    SectionRow {
        uid: uid.to_string(),
        note_title: "Rust".to_string(),
        heading: "Borrowing".to_string(),
        heading_path: "Rust".to_string(),
        body: body.to_string(),
        path: "rust.md".to_string(),
        start_line: 7,
        status: None,
    }
}

#[test]
fn videos_are_listed_with_their_labels() {
    let sections = vec![
        section(
            "rust#borrow",
            "@video https://youtu.be/dQw4w9WgXcQ 06:54  Chapter on borrowing\n\
             @url https://example.com\n\
             @video https://youtu.be/dQw4w9WgXcQ?t=9 The rest\n",
        ),
        section("rust#own", "Nothing.\n@video https://youtu.be/ABCdefGHIjk\n"),
    ];
    let all = list_videos(&sections, None);
    assert_eq!(all.len(), 3);
    assert_eq!(all[0].url, "https://youtu.be/dQw4w9WgXcQ");
    assert_eq!(all[0].seconds, Some(414));
    assert_eq!(all[0].label.as_deref(), Some("Chapter on borrowing"));
    assert_eq!((all[0].note_title.as_str(), all[0].path.as_str(), all[0].line), ("Rust", "rust.md", 7));
    assert_eq!(all[1].seconds, Some(9));
    assert_eq!(all[1].label.as_deref(), Some("The rest"));
    let own = list_videos(&sections, Some("rust#own"));
    assert_eq!(own.len(), 1);
    assert_eq!(own[0].section_uid, "rust#own");
    assert_eq!((own[0].seconds, own[0].label.as_deref()), (None, None));
}

#[test]
fn a_moment_is_lifted_out_of_a_url_once() {
    for (url, clean, seconds) in [
        ("https://a.b/c?x=1&t=5&y=2", "https://a.b/c?x=1&y=2", Some(5)),
        ("https://a.b/c?t=abc&start=70", "https://a.b/c?t=abc", Some(70)),
        ("https://a.b/c?start=70&t=abc", "https://a.b/c?start=70&t=abc", None),
        ("https://a.b/c?t=5", "https://a.b/c", Some(5)),
        ("https://a.b/c?", "https://a.b/c?", None),
    ] {
        assert_eq!(strip_url_timestamp(url), (clean.to_string(), seconds));
        assert_eq!(strip_url_timestamp(clean), (clean.to_string(), None));
    }
}

#[test]
fn a_slug_is_left_as_it_is() {
    for (text, slug) in [
        ("--A  b__C--", "a-b-c"),
        ("Été 2024!", "t-2024"),
        ("a-b-c", "a-b-c"),
        ("\u{130}", ""),
    ] {
        assert_eq!(slugify(text), slug);
        assert_eq!(slugify(slug), slug);
    }
}
