use vidplay::player::{chosen_folder, default_video, PlayerState, ScreenshotPlan};
use vidplay::subtitles::SubtitleEntry;

fn strings(v: &[&str]) -> Vec<String> {
    v.iter().map(|s| s.to_string()).collect()
}

fn fresh() -> PlayerState {
    let subs = vec![
        SubtitleEntry { start: 0, end: 1_000, text: "zero".to_string() },
        SubtitleEntry { start: 2_000, end: 3_000, text: "two".to_string() },
    ];
    PlayerState::new("/v/start.mp4".to_string(), "/s/start.srt".to_string(), subs, None, None)
}

fn with_folder() -> PlayerState {
    let mut p = fresh();
    p.set_video_folder("/v".to_string(), strings(&["/v/a.mp4", "/v/b.mp4", "/v/c.mp4"]));
    p
}

#[test]
fn start_up_state() {
    let p = fresh();
    assert_eq!(p.video_url, "/v/start.mp4");
    assert_eq!(p.subtitle_file, "/s/start.srt");
    assert_eq!(p.subtitle_folder_current_sub, "/s/start.srt");
    assert_eq!(p.subtitle_folder, "none");
    assert_eq!(p.video_folder_better.folder, "None");
    assert_eq!(p.video_folder_better.current_video, ".");
    assert!(p.is_built_in_subs);
    assert!(!p.file_is_loaded);
    assert_eq!(p.active_subtitle, None);
}

#[test]
fn opening_a_folder_builds_the_playlist() {
    let p = with_folder();
    assert!(p.file_is_loaded);
    assert_eq!(p.vec, strings(&["a.mp4", "b.mp4", "c.mp4"]));
    assert_eq!(p.video_entries[1].display_name, "b.mp4");
    assert_eq!(p.video_entries[1].full_path, "/v/b.mp4");
    assert_eq!(p.sorted_folders.video[2], (2, "/v/c.mp4".to_string()));
    assert_eq!(p.video_folder_better.folder, "/v");
    assert_eq!(p.selected_index, 0);
    let mut q = fresh();
    q.set_video_folder(String::new(), Vec::new());
    assert!(!q.file_is_loaded);
    assert!(q.vec.is_empty());
}

#[test]
fn picking_a_video_in_the_list() {
    let mut p = with_folder();
    assert_eq!(p.entry_path(1), Some("/v/b.mp4".to_string()));
    assert_eq!(p.language_selected(1, true), Some("/v/b.mp4".to_string()));
    assert_eq!(p.selected_lang, "b.mp4");
    assert_eq!(p.selected_index, 1);
    p.video_loaded("/v/b.mp4".to_string());
    assert_eq!(p.video_url, "/v/b.mp4");
    assert_eq!(p.language_selected(2, false), None);
    assert_eq!(p.selected_index, 2);
    assert_eq!(p.selected_lang, "b.mp4");
    assert_eq!(p.language_selected(9, true), None);
    assert_eq!(p.entry_path(9), None);
}

#[test]
fn add_at_selection_moves_the_folder_position() {
    let mut p = with_folder();
    p.language_selected(1, true);
    assert_eq!(p.add_at_selection(true), Some("/v/b.mp4".to_string()));
    assert_eq!(p.video_folder_better.position, 2);
    assert_eq!(p.add_at_selection(false), None);
}

#[test]
fn manual_selection_picks_the_third_video() {
    let mut p = with_folder();
    p.manual_selection();
    assert_eq!(p.selected_index, 2);
    assert_eq!(p.manual_select, Some(2));
    assert_eq!(p.selected_lang, "c.mp4");
    let mut q = fresh();
    q.manual_selection();
    assert_eq!(q.manual_select, None);
}

#[test]
fn next_plays_the_folder_in_order() {
    let mut p = with_folder();
    let subs = strings(&["/s/1.srt", "/s/2.srt"]);
    assert_eq!(p.next_video(subs.clone()), "/v/a.mp4");
    assert_eq!(p.subtitle_file, "/s/1.srt");
    assert_eq!(p.next_video(subs.clone()), "/v/b.mp4");
    assert_eq!(p.subtitle_file, "/s/2.srt");
    assert_eq!(p.next_video(subs.clone()), "/v/c.mp4");
    assert_eq!(p.subtitle_file, "/s/2.srt");
    assert_eq!(p.video_folder_better.position, 3);
    assert_eq!(p.next_video(subs), "/v/c.mp4");
    assert_eq!(p.video_folder_better.position, 3);
    assert_eq!(p.subtitle_folder_position, 2);
}

#[test]
fn reported_subtitles_and_previous_subtitle() {
    let mut p = fresh();
    p.new_sub(Some("hi".to_string()));
    assert_eq!(p.active_subtitle, Some("hi".to_string()));
    assert_eq!(p.prev_sub, Some("hi".to_string()));
    p.toggle_own_subs();
    p.new_sub(None);
    assert_eq!(p.active_subtitle, None);
    assert_eq!(p.prev_sub, Some("hi".to_string()));
}

#[test]
fn own_subtitles_follow_the_playback_time() {
    let mut p = fresh();
    p.new_frame(2_500);
    assert_eq!(p.active_subtitle, None);
    p.toggle_own_subs();
    p.new_frame(2_500);
    assert_eq!(p.active_subtitle, Some("two".to_string()));
    p.seek();
    assert!(!p.follows_video());
    p.seek_release(500);
    assert!(p.follows_video());
    assert_eq!(p.active_subtitle, Some("zero".to_string()));
}

#[test]
fn toggles_come_back() {
    let mut p = fresh();
    assert!(p.toggle_mute());
    assert!(!p.toggle_mute());
    p.toggle_settings();
    assert!(p.settings_open);
    p.toggle_settings();
    assert!(!p.settings_open);
    p.toggle_own_subs();
    p.toggle_own_subs();
    assert!(p.is_built_in_subs);
}

#[test]
fn opening_files() {
    let mut p = fresh();
    assert_eq!(p.opened(Ok("/v/x.mp4".to_string())), Some("/v/x.mp4".to_string()));
    assert_eq!(p.video_url, "/v/x.mp4");
    assert_eq!(p.opened(Err("no file".to_string())), None);
    assert_eq!(p.video_url, "ntohing");
    p.video_opened();
    assert_eq!(p.active_subtitle, Some("zero".to_string()));
    assert_eq!(p.opened_subtitles(Err("none".to_string())), None);
    assert_eq!(p.subtitle_file, "ntohing");
    assert_eq!(p.opened_subtitles(Ok("/s/n.srt".to_string())), Some("/s/n.srt".to_string()));
    p.subtitles_loaded(vec![SubtitleEntry { start: 10, end: 20, text: "new".to_string() }], 15);
    assert_eq!(p.active_subtitle, Some("new".to_string()));
    p.opened_sub_folder(Ok("/subs".to_string()));
    assert_eq!(p.subtitle_folder, "/subs");
    p.opened_sub_folder(Err("x".to_string()));
    assert_eq!(p.subtitle_folder, "/subs");
}

#[test]
fn tracks_and_their_buttons() {
    let mut p = fresh();
    p.set_audio_tracks(3);
    assert_eq!(p.available_audio_tracks, strings(&["Audio Track 1", "Audio Track 2", "Audio Track 3"]));
    assert_eq!(p.audio_track_button(), Some(("Audio: Audio Track 1".to_string(), 1)));
    p.audio_track_selected(2);
    assert_eq!(p.audio_track_button(), Some(("Audio: Audio Track 3".to_string(), 0)));
    p.set_audio_tracks(0);
    assert!(p.available_audio_tracks.is_empty());
    assert_eq!(p.audio_track_button(), None);
    p.set_subtitle_tracks(2);
    assert!(p.has_embedded_subtitles);
    assert_eq!(p.subtitle_track_button(), Some(("Sub: Subtitle Track 1".to_string(), 1)));
    p.subtitle_track_selected(1);
    assert_eq!(p.subtitle_track_button(), Some(("Sub: Subtitle Track 2".to_string(), 0)));
    p.set_subtitle_tracks(-1);
    assert!(!p.has_embedded_subtitles);
    assert_eq!(p.subtitle_track_button(), None);
}

#[test]
fn pressing_the_track_button_cycles_back() {
    let mut p = fresh();
    p.set_audio_tracks(4);
    let start = p.current_audio_track;
    for _ in 0..4 {
        let (_, next) = p.audio_track_button().unwrap();
        p.audio_track_selected(next);
    }
    assert_eq!(p.current_audio_track, start);
}

#[test]
fn next_button_label() {
    let p = fresh();
    assert_eq!(p.next_button(), ("No next video".to_string(), false));
    let q = with_folder();
    assert_eq!(q.next_button(), ("Next video".to_string(), true));
}

#[test]
fn subtitle_text_unescapes_quotes() {
    let mut p = fresh();
    assert_eq!(p.subtitle_text(), "");
    p.new_sub(Some("it&apos;s &quot;ok&quot;".to_string()));
    assert_eq!(p.subtitle_text(), "it's \"ok\"");
}

#[test]
fn settings_labels() {
    let mut p = fresh();
    assert_eq!(p.default_video_label(), "None selected");
    assert_eq!(p.screenshot_folder_label(), "None selected");
    p.set_default_video(Ok("/v/fav.mkv".to_string()), true);
    assert_eq!(p.default_video_label(), "fav.mkv");
    p.set_default_video(Ok("/v/gone.mkv".to_string()), false);
    assert_eq!(p.default_video_path, None);
    p.set_screenshot_folder(Ok("/pics/shots".to_string()), true);
    assert_eq!(p.screenshot_folder_label(), "shots");
    p.set_screenshot_folder(Ok("/".to_string()), true);
    assert_eq!(p.screenshot_folder_label(), "/");
    p.set_screenshot_folder(Err("none".to_string()), true);
    assert_eq!(p.screenshot_folder, None);
}

#[test]
fn screenshot_goes_to_the_folder_or_asks() {
    let mut p = fresh();
    match p.screenshot_plan(1700000000, true) {
        ScreenshotPlan::Ask(name) => assert_eq!(name, "screenshot_uri_1700000000.png"),
        ScreenshotPlan::AutoSave(_) => panic!("no folder is set"),
    }
    p.set_screenshot_folder(Ok("/pics".to_string()), true);
    match p.screenshot_plan(42, true) {
        ScreenshotPlan::AutoSave(path) => assert_eq!(path, "/pics/screenshot_42.png"),
        ScreenshotPlan::Ask(_) => panic!("the folder is set"),
    }
    match p.screenshot_plan(42, false) {
        ScreenshotPlan::Ask(name) => assert_eq!(name, "screenshot_uri_42.png"),
        ScreenshotPlan::AutoSave(_) => panic!("the folder is gone"),
    }
}

#[test]
fn start_up_choices() {
    assert_eq!(default_video(Some("/a.mp4".to_string()), true, "/f.mkv".to_string()), "/a.mp4");
    assert_eq!(default_video(Some("/a.mp4".to_string()), false, "/f.mkv".to_string()), "/f.mkv");
    assert_eq!(default_video(None, true, "/f.mkv".to_string()), "/f.mkv");
    assert_eq!(chosen_folder(&Ok("/v".to_string())), "/v");
    assert_eq!(chosen_folder(&Err("no".to_string())), "");
}

#[test]
fn replacing_subtitles_keeps_the_shown_one() {
    let mut p = fresh();
    p.update_active_subtitle(500);
    assert_eq!(p.active_subtitle, Some("zero".to_string()));
    p.set_subtitles(Vec::new());
    assert_eq!(p.active_subtitle, Some("zero".to_string()));
    assert!(p.subtitles.is_empty());
    p.update_active_subtitle(500);
    assert_eq!(p.active_subtitle, None);
}

#[test]
fn reopening_the_last_video() {
    let mut p = fresh();
    p.open_last("/v/last.mp4".to_string(), "/s/gone.srt".to_string(), None);
    assert_eq!(p.video_url, "/v/last.mp4");
    assert_eq!(p.subtitle_file, "/s/gone.srt");
    assert_eq!(p.subtitles.len(), 2);
    let subs = vec![SubtitleEntry { start: 1, end: 2, text: "s".to_string() }];
    p.open_last("/v/last.mp4".to_string(), "/s/last.srt".to_string(), Some(subs));
    assert_eq!(p.subtitles.len(), 1);
    assert_eq!(p.subtitle_file, "/s/last.srt");
}
