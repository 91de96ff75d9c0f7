use sse_broadcast::frame::{channel_of_path, format_event};

#[test]
fn event_is_framed_with_two_trailing_newlines() {
    assert_eq!(format_event("update", "hello"), "event: update\ndata: hello\n\n");
}

#[test]
fn heartbeat_has_empty_data() {
    assert_eq!(format_event("heartbeat", ""), "event: heartbeat\ndata: \n\n");
}

#[test]
fn empty_event_and_data_keep_the_frame() {
    assert_eq!(format_event("", ""), "event: \ndata: \n\n");
}

#[test]
fn frame_keeps_text_outside_ascii() {
    assert_eq!(format_event("météo", "línea ü"), "event: météo\ndata: línea ü\n\n");
}

#[test]
fn channel_is_the_last_path_segment() {
    assert_eq!(channel_of_path("/events/news"), "news");
    assert_eq!(channel_of_path("/a/b/c/sports"), "sports");
    assert_eq!(channel_of_path("/news"), "news");
}

#[test]
fn path_without_slash_is_the_channel() {
    assert_eq!(channel_of_path("news"), "news");
}

#[test]
fn path_ending_in_slash_names_the_empty_channel() {
    assert_eq!(channel_of_path("/events/"), "");
    assert_eq!(channel_of_path("/"), "");
    assert_eq!(channel_of_path(""), "");
}

#[test]
fn channel_outside_ascii_is_cut_at_characters() {
    assert_eq!(channel_of_path("/événements/météo"), "météo");
    assert_eq!(channel_of_path("日本/語"), "語");
}
