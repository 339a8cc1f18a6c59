use vidplay::subtitles::{
    ass_dialogues_usable, ass_time_usable,
    ass_time_to_duration, parse_example_subs, subtitles_from_parts, sort_by_start, strip_ass_tags, subtitle_at,
    ts_to_duration, AssDialogue, SubtitleEntry,
};

const MS: u128 = 1_000_000;

fn entry(start: u128, end: u128, text: &str) -> SubtitleEntry {
    SubtitleEntry { start, end, text: text.to_string() }
}

fn dialogue(start: &str, end: &str, text: &str) -> AssDialogue {
    AssDialogue {
        start: Some(start.to_string()),
        end: Some(end.to_string()),
        text: Some(text.to_string()),
    }
}

#[test]
fn srt_timestamp_to_nanoseconds() {
    assert_eq!(ts_to_duration((1, 2, 3, 4)), 3_723_004 * MS);
    assert_eq!(ts_to_duration((0, 0, 0, 0)), 0);
    assert_eq!(ts_to_duration((255, 59, 59, 999)), 921_599_999 * MS);
}

#[test]
fn ass_time_is_shifted_two_seconds() {
    assert_eq!(ass_time_to_duration("0:00:01.50"), Some(3_500 * MS));
    assert_eq!(ass_time_to_duration("1:02:03.04"), Some((3_723_040 + 2_000) * MS));
    assert_eq!(ass_time_to_duration("0:00:01.50:77"), Some(3_500 * MS));
    assert_eq!(ass_time_to_duration("0:00:01.5.9"), Some(3_050 * MS));
}

#[test]
fn malformed_ass_times_are_rejected() {
    assert_eq!(ass_time_to_duration("0:00"), None);
    assert_eq!(ass_time_to_duration("0:00:01"), None);
    assert_eq!(ass_time_to_duration("x:00:01.00"), None);
    assert_eq!(ass_time_to_duration("0:00:01.-5"), None);
    assert_eq!(ass_time_to_duration(""), None);
}

#[test]
fn ass_styling_is_removed() {
    assert_eq!(strip_ass_tags("{\\i1}Hello\\Nworld{\\i0}  "), "Hello\nworld");
    assert_eq!(strip_ass_tags("  plain  "), "plain");
    assert_eq!(strip_ass_tags("a}b{c"), "ab");
    assert_eq!(strip_ass_tags("{unclosed"), "");
    assert_eq!(strip_ass_tags("\\N"), "");
}

#[test]
fn stripping_twice_changes_nothing() {
    for line in ["{\\b1}x{\\b0}\\Ny ", "\\\\{x}N", " a\\Nb ", "{}{}"] {
        let once = strip_ass_tags(line);
        assert_eq!(strip_ass_tags(&once), once);
        assert!(!once.contains('{') && !once.contains('}'));
    }
}

#[test]
fn sorting_by_start_is_stable() {
    let v = vec![entry(5, 6, "c"), entry(1, 2, "a"), entry(5, 9, "d"), entry(1, 3, "b")];
    let r = sort_by_start(v);
    let texts: Vec<&str> = r.iter().map(|e| e.text.as_str()).collect();
    assert_eq!(texts, vec!["a", "b", "c", "d"]);
}

#[test]
fn subtitle_at_finds_first_covering_cue() {
    let subs = vec![entry(0, 10, "one"), entry(5, 20, "two"), entry(30, 40, "three")];
    assert_eq!(subtitle_at(&subs, 7), Some("one".to_string()));
    assert_eq!(subtitle_at(&subs, 10), Some("one".to_string()));
    assert_eq!(subtitle_at(&subs, 11), Some("two".to_string()));
    assert_eq!(subtitle_at(&subs, 25), None);
    assert_eq!(subtitle_at(&subs, 40), Some("three".to_string()));
    assert_eq!(subtitle_at(&Vec::new(), 0), None);
}

#[test]
fn srt_text_is_parsed_sorted_and_trimmed() {
    let srt = "2\n00:00:05,000 --> 00:00:06,000\n  second  \n\n1\n00:00:01,000 --> 00:00:02,500\nfirst\n";
    let subs = parse_example_subs(Some(srt.to_string()), Vec::new()).unwrap();
    assert_eq!(subs.len(), 2);
    assert_eq!(subs[0].start, 1_000 * MS);
    assert_eq!(subs[0].end, 2_500 * MS);
    assert_eq!(subs[0].text, "first");
    assert_eq!(subs[1].start, 5_000 * MS);
    assert_eq!(subs[1].text, "second");
}

#[test]
fn unreadable_or_malformed_srt_gives_no_cues() {
    assert_eq!(parse_example_subs(None, Vec::new()).unwrap().len(), 0);
    let bad = "[Script Info]\nTitle: x\n";
    assert_eq!(parse_example_subs(Some(bad.to_string()), Vec::new()).unwrap().len(), 0);
}

#[test]
fn ass_dialogues_are_merged_by_start_time() {
    let srt = "1\n00:00:03,000 --> 00:00:04,000\nsrt cue\n";
    let ass = vec![
        dialogue("0:00:02.00", "0:00:03.00", "{\\i1}late{\\i0}"),
        AssDialogue { start: None, end: Some("0:00:01.00".to_string()), text: Some("x".to_string()) },
        dialogue("0:00:00.00", "0:00:01.00", "early"),
    ];
    let subs = parse_example_subs(Some(srt.to_string()), ass).unwrap();
    let texts: Vec<&str> = subs.iter().map(|e| e.text.as_str()).collect();
    assert_eq!(texts, vec!["early", "srt cue", "late"]);
    assert_eq!(subs[0].start, 2_000 * MS);
    assert_eq!(subs[2].start, 4_000 * MS);
    assert_eq!(subs[2].end, 5_000 * MS);
}

#[test]
fn usable_ass_times() {
    assert!(ass_time_usable("0:00:01.00"));
    assert!(!ass_time_usable("0:00:01"));
    assert!(!ass_time_usable("5124095576030431:00:00.00"));
    assert!(ass_time_usable("5124095576030:00:00.00"));
    assert!(ass_dialogues_usable(&vec![dialogue("0:00:00.00", "0:00:01.00", "x")]));
    assert!(!ass_dialogues_usable(&vec![dialogue("0:00:00.00", "bad", "x")]));
    let partial = AssDialogue { start: Some("bad".to_string()), end: None, text: Some("x".to_string()) };
    assert!(ass_dialogues_usable(&vec![partial]));
}

#[test]
fn srt_cues_follow_srtlib_order_before_the_start_sort() {
    let srt = "2\n00:00:01,000 --> 00:00:02,000\nsecond\n\n1\n00:00:01,000 --> 00:00:03,000\nfirst\n";
    let subs = parse_example_subs(Some(srt.to_string()), Vec::new()).unwrap();
    let texts: Vec<&str> = subs.iter().map(|e| e.text.as_str()).collect();
    assert_eq!(texts, vec!["first", "second"]);
}

#[test]
fn srt_order_uses_raw_timestamps() {
    let srt = "1\n255:240:00,000 --> 0:00:00,000\nx\n\n1\n3:00:32,768 --> 0:00:01,000\nx\n";
    let subs = parse_example_subs(Some(srt.to_string()), Vec::new()).unwrap();
    assert_eq!(subs.len(), 2);
    assert_eq!(subs[0].start, subs[1].start);
    assert_eq!(subs[0].end, 1_000 * MS);
    assert_eq!(subs[1].end, 0);
}

#[test]
fn building_from_parsed_cues() {
    let cues = vec![
        (7, (0, 0, 5, 0), (0, 0, 6, 0), "  late  ".to_string()),
        (3, (0, 0, 1, 0), (0, 0, 2, 0), "early".to_string()),
    ];
    let ass = vec![dialogue("0:00:00.00", "0:00:00.50", "{\\b1}bold")];
    let subs = subtitles_from_parts(cues, ass);
    let texts: Vec<&str> = subs.iter().map(|e| e.text.as_str()).collect();
    assert_eq!(texts, vec!["early", "bold", "late"]);
    assert_eq!(subs[1].start, 2_000 * MS);
    assert_eq!(subs[1].end, 2_500 * MS);
    assert_eq!(subs[2].end, 6_000 * MS);
}
