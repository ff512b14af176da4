//! Which program plays a clip, and how it is called.

use yalive::parser::strip_url_timestamp;
use yalive::player::{
    candidates, default_template, expand, first_video, first_video_url, format_hms, mpv_template,
    resolve, with_timestamp, yclippy_template, Installed,
};

fn argv(parts: &[&str]) -> Vec<String> {
    parts.iter().map(|s| s.to_string()).collect()
}

const NOTHING: Installed = Installed { configured: false, yclippy: false, mpv: false };

#[test]
fn seconds_placeholder_is_filled_and_the_url_left_alone() {
    let template = argv(&["yclippy", "play", "{url}", "--at", "{seconds}"]);
    let out = expand(&template, "https://youtu.be/ABC", Some(414));
    assert_eq!(out, argv(&["yclippy", "play", "https://youtu.be/ABC", "--at", "414"]));
}

#[test]
fn a_template_without_seconds_gets_the_timestamp_rebuilt_into_the_url() {
    let template = argv(&["xdg-open", "{url}"]);
    let out = expand(&template, "https://youtu.be/ABC", Some(414));
    assert_eq!(out, argv(&["xdg-open", "https://youtu.be/ABC?t=414s"]));
}

#[test]
fn rebuilding_respects_an_existing_query_string() {
    let template = argv(&["xdg-open", "{url}"]);
    let out = expand(&template, "https://www.youtube.com/watch?v=ABC", Some(90));
    assert_eq!(out, argv(&["xdg-open", "https://www.youtube.com/watch?v=ABC&t=90s"]));
}

#[test]
fn no_timestamp_means_no_rebuild() {
    let template = argv(&["xdg-open", "{url}"]);
    let out = expand(&template, "https://youtu.be/ABC", None);
    assert_eq!(out, argv(&["xdg-open", "https://youtu.be/ABC"]));
}

#[test]
fn substitution_does_not_resplit_on_whitespace() {
    let template = argv(&["mpv", "--start={seconds}", "{url}"]);
    let out = expand(&template, "https://example.com/a b", Some(5));
    assert_eq!(out.len(), 3);
    assert_eq!(out[2], "https://example.com/a b");
}

#[test]
fn resolution_always_produces_a_runnable_template() {
    for configured in [
        None,
        Some(argv(&["definitely-not-installed-xyz", "{url}"])),
        Some(argv(&[])),
    ] {
        for yclippy in [false, true] {
            for mpv in [false, true] {
                let installed = Installed { configured: false, yclippy, mpv };
                let resolved = resolve(configured.as_ref(), installed);
                assert!(!resolved.is_empty());
                assert!(resolved.iter().any(|part| part.contains("{url}")));
            }
        }
    }
}

#[test]
fn an_installed_configured_player_wins() {
    let configured = argv(&["sh", "-c", "true {url}"]);
    let installed = Installed { configured: true, yclippy: true, mpv: true };
    assert_eq!(resolve(Some(&configured), installed), configured);
}

#[test]
fn a_missing_configured_player_falls_back_silently() {
    let configured = argv(&["definitely-not-installed-xyz", "{url}"]);
    let resolved = resolve(Some(&configured), NOTHING);
    assert_ne!(resolved, configured);
}

#[test]
fn the_fallbacks_are_tried_in_order() {
    assert_eq!(resolve(None, Installed { yclippy: true, mpv: true, ..NOTHING }), yclippy_template());
    assert_eq!(resolve(None, Installed { mpv: true, ..NOTHING }), mpv_template());
    assert_eq!(resolve(None, NOTHING), default_template());
}

#[test]
fn is_installed_rejects_an_empty_template() {
    assert!(candidates(&argv(&[]), &argv(&["/usr/bin"])).is_empty());
}

#[test]
fn a_program_is_looked_for_in_every_directory() {
    let search = argv(&["/usr/bin", "/bin"]);
    assert_eq!(candidates(&argv(&["mpv", "{url}"]), &search), argv(&["/usr/bin/mpv", "/bin/mpv"]));
    assert_eq!(candidates(&argv(&["/opt/mpv"]), &search), argv(&["/opt/mpv"]));
}

#[test]
fn finds_only_video_urls_in_a_body() {
    let body = "See https://example.com/docs and https://youtu.be/ABC for more.";
    assert_eq!(first_video_url(body).as_deref(), Some("https://youtu.be/ABC"));
    assert_eq!(first_video_url("no links here"), None);
    assert_eq!(first_video(&vec![]), None);
}

#[test]
fn a_clock_is_printed_without_empty_hours() {
    assert_eq!(format_hms(414), "6:54");
    assert_eq!(format_hms(3723), "1:02:03");
    assert_eq!(format_hms(0), "0:00");
}

#[test]
fn a_rebuilt_url_gives_its_parts_back() {
    let url = with_timestamp("https://youtu.be/ABC", 414);
    assert_eq!(url, "https://youtu.be/ABC?t=414s");
    assert_eq!(strip_url_timestamp(&url), ("https://youtu.be/ABC".to_string(), Some(414)));
}
