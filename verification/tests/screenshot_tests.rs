use vidplay::screenshot::{capture_and_save_screenshot, screenshot_direct_args};

#[test]
fn file_uri_is_percent_decoded() {
    let args = capture_and_save_screenshot("file:///home/me/a%20b%2Fc.mp4", "/tmp/s.png").unwrap();
    assert_eq!(
        args,
        vec![
            "playbin",
            "uri=file:///home/me/a b/c.mp4",
            "!",
            "videoconvert",
            "!",
            "pngenc",
            "!",
            "filesink location=/tmp/s.png",
        ]
    );
}

#[test]
fn incomplete_escapes_are_kept() {
    let args = capture_and_save_screenshot("file:///x%2.mp4%", "o.png").unwrap();
    assert_eq!(args[1], "uri=file:///x%2.mp4%");
    let args = capture_and_save_screenshot("file:///caf%C3%A9", "o.png").unwrap();
    assert_eq!(args[1], "uri=file:///café");
}

#[test]
fn invalid_utf8_after_decoding_is_an_error() {
    assert!(capture_and_save_screenshot("file:///bad%FF.mp4", "o.png").is_err());
}

#[test]
fn other_uris_are_used_as_they_are() {
    let args = capture_and_save_screenshot("http://host/a%20b", "o.png").unwrap();
    assert_eq!(args[1], "uri=http://host/a%20b");
    assert_eq!(args[7], "filesink location=o.png");
}

#[test]
fn direct_command_uses_the_file_path() {
    let args = screenshot_direct_args("/v/a b.mkv", "/tmp/x.png");
    assert_eq!(args[0], "playbin");
    assert_eq!(args[1], "uri=file:///v/a b.mkv");
    assert_eq!(args[7], "filesink location=/tmp/x.png");
    assert_eq!(args.len(), 8);
}
