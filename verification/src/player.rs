//! The player's state and how each user action or playback event changes
//! it. Everything that needs the outside world (opening a video, reading a
//! folder or a file, asking the user) is done by the caller, which hands
//! the outcome to these methods and performs the action they return.

use vstd::prelude::*;
use crate::app_types::{listing_view, SortedFolder, VideoEntry, VideoFolder};
use crate::paths::{file_name, file_name_of, join_of, join_path};
use crate::subtitles::{entries_view, first_cover, opt_view, subtitle_at, EntryView, SubtitleEntry};
use crate::text::{
    chars_of, decimal, labelled_number, law_parse_decimal, parse_u64, replace, replace_chars,
    string_of, strs_view,
};

verus! {

/// The player state as plain values.
pub struct PlayerView {
    pub dragging: bool,
    pub muted: bool,
    pub subtitles: Seq<EntryView>,
    pub active_subtitle: Option<Seq<char>>,
    pub prev_sub: Option<Seq<char>>,
    pub video_url: Seq<char>,
    pub subtitle_file: Seq<char>,
    pub subtitle_folder: Seq<char>,
    pub subtitle_folder_position: usize,
    pub subtitle_folder_current_sub: Seq<char>,
    pub video_folder: (Seq<char>, usize, Seq<char>),
    pub sorted_videos: Seq<(usize, Seq<char>)>,
    pub sorted_subs: Seq<(usize, Seq<char>)>,
    pub video_entries: Seq<(Seq<char>, Seq<char>)>,
    pub names: Seq<Seq<char>>,
    pub selected_lang: Seq<char>,
    pub selected_index: usize,
    pub manual_select: Option<usize>,
    pub is_built_in_subs: bool,
    pub file_is_loaded: bool,
    pub audio_tracks: Seq<Seq<char>>,
    pub current_audio_track: usize,
    pub subtitle_tracks: Seq<Seq<char>>,
    pub current_subtitle_track: usize,
    pub has_embedded_subtitles: bool,
    pub settings_open: bool,
    pub default_video_path: Option<Seq<char>>,
    pub screenshot_folder: Option<Seq<char>>,
}

/// The state of the player apart from the video itself, the playback
/// position, the volume and the layout settings.
pub struct PlayerState {
    pub dragging: bool,
    pub muted: bool,
    pub subtitles: Vec<SubtitleEntry>,
    pub active_subtitle: Option<String>,
    pub prev_sub: Option<String>,
    pub video_url: String,
    pub subtitle_file: String,
    pub subtitle_folder: String,
    pub subtitle_folder_position: usize,
    pub subtitle_folder_current_sub: String,
    pub video_folder_better: VideoFolder,
    pub sorted_folders: SortedFolder,
    pub video_entries: Vec<VideoEntry>,
    pub vec: Vec<String>,
    pub selected_lang: String,
    pub selected_index: usize,
    pub manual_select: Option<usize>,
    pub is_built_in_subs: bool,
    pub file_is_loaded: bool,
    pub available_audio_tracks: Vec<String>,
    pub current_audio_track: usize,
    pub available_subtitle_tracks: Vec<String>,
    pub current_subtitle_track: usize,
    pub has_embedded_subtitles: bool,
    pub settings_open: bool,
    pub default_video_path: Option<String>,
    pub screenshot_folder: Option<String>,
}

/// The views of a list of videos.
pub open spec fn videos_view(v: Seq<VideoEntry>) -> Seq<(Seq<char>, Seq<char>)> {
    v.map_values(|e: VideoEntry| e@)
}

impl View for PlayerState {
    type V = PlayerView;

    open spec fn view(&self) -> PlayerView {
        PlayerView {
            dragging: self.dragging,
            muted: self.muted,
            subtitles: entries_view(self.subtitles@),
            active_subtitle: opt_view(self.active_subtitle),
            prev_sub: opt_view(self.prev_sub),
            video_url: self.video_url@,
            subtitle_file: self.subtitle_file@,
            subtitle_folder: self.subtitle_folder@,
            subtitle_folder_position: self.subtitle_folder_position,
            subtitle_folder_current_sub: self.subtitle_folder_current_sub@,
            video_folder: self.video_folder_better@,
            sorted_videos: self.sorted_folders@.0,
            sorted_subs: self.sorted_folders@.1,
            video_entries: videos_view(self.video_entries@),
            names: strs_view(self.vec@),
            selected_lang: self.selected_lang@,
            selected_index: self.selected_index,
            manual_select: self.manual_select,
            is_built_in_subs: self.is_built_in_subs,
            file_is_loaded: self.file_is_loaded,
            audio_tracks: strs_view(self.available_audio_tracks@),
            current_audio_track: self.current_audio_track,
            subtitle_tracks: strs_view(self.available_subtitle_tracks@),
            current_subtitle_track: self.current_subtitle_track,
            has_embedded_subtitles: self.has_embedded_subtitles,
            settings_open: self.settings_open,
            default_video_path: opt_view(self.default_video_path),
            screenshot_folder: opt_view(self.screenshot_folder),
        }
    }
}

/// A listing numbered from zero, as `Iterator::enumerate` numbers it.
pub open spec fn enumerated(s: Seq<Seq<char>>) -> Seq<(usize, Seq<char>)> {
    Seq::new(s.len(), |i: int| (i as usize, s[i]))
}

/// Whether a numbered listing is numbered from zero in order.
pub open spec fn numbered_in_order(s: Seq<(usize, Seq<char>)>) -> bool {
    forall|j: int| 0 <= j < s.len() ==> (#[trigger] s[j]).0 == j
}

impl PlayerView {
    /// Well-formedness, kept by every operation: the video listing is
    /// numbered in order, and the listing, the playlist entries and the
    /// names shown in the list all describe the same videos at the same
    /// positions, so an index picked in the list names the entry and the
    /// listing item at that index.
    pub open spec fn wf(self) -> bool {
        &&& numbered_in_order(self.sorted_videos)
        &&& self.names.len() == self.video_entries.len()
        &&& self.sorted_videos.len() == self.video_entries.len()
        &&& forall|i: int|
            0 <= i < self.video_entries.len() ==> {
                &&& #[trigger] self.names[i] == self.video_entries[i].0
                &&& self.sorted_videos[i].1 == self.video_entries[i].1
            }
    }
}

/// The name shown for a video file: its file name, or nothing.
pub open spec fn display_name_of(p: Seq<char>) -> Seq<char> {
    match file_name_of(p) {
        Some(n) => n,
        None => Seq::empty(),
    }
}

/// Names `prefix` followed by 1, 2, ... for `n` tracks (none when `n` is
/// not positive).
pub open spec fn track_names(prefix: Seq<char>, n: i32) -> Seq<Seq<char>> {
    if n > 0 {
        Seq::new(n as nat, |i: int| prefix + decimal((i + 1) as nat))
    } else {
        Seq::empty()
    }
}

/// The state with mute switched.
pub open spec fn mute_toggled(v: PlayerView) -> PlayerView {
    PlayerView { muted: !v.muted, ..v }
}

/// The state with the choice between the video's own subtitles and the
/// player's switched.
pub open spec fn own_subs_toggled(v: PlayerView) -> PlayerView {
    PlayerView { is_built_in_subs: !v.is_built_in_subs, ..v }
}

/// The state with the settings window opened or closed.
pub open spec fn settings_toggled(v: PlayerView) -> PlayerView {
    PlayerView { settings_open: !v.settings_open, ..v }
}

/// The track a track button selects: the one after `current`, the first
/// after the last.
pub open spec fn next_track(current: usize, count: nat) -> usize {
    ((current + 1) % (count as int)) as usize
}

/// The video folder after "Next": when the position is within the
/// listing, the video there becomes current and the position moves past
/// it; otherwise nothing changes.
pub open spec fn advance_folder(
    folder: (Seq<char>, usize, Seq<char>),
    videos: Seq<(usize, Seq<char>)>,
) -> (Seq<char>, usize, Seq<char>) {
    if folder.1 < videos.len() {
        (folder.0, (folder.1 + 1) as usize, videos[folder.1 as int].1)
    } else {
        folder
    }
}

/// What to do for a screenshot: save it straight to a path, or ask the
/// user where to save it, proposing a file name.
pub enum ScreenshotPlan {
    AutoSave(String),
    Ask(String),
}

fn track_list(prefix: &str, n: i32) -> (r: Vec<String>)
    ensures
        strs_view(r@) == track_names(prefix@, n),
{
    let mut r: Vec<String> = Vec::new();
    if n <= 0 {
        assert(strs_view(r@) =~= Seq::<Seq<char>>::empty());
        return r;
    }
    let mut i: i32 = 0;
    while i < n
        invariant
            0 <= i <= n,
            strs_view(r@) == Seq::new(i as nat, |k: int| prefix@ + decimal((k + 1) as nat)),
        decreases n - i,
    {
        let l = labelled_number(prefix, (i + 1) as u64);
        let ghost before = strs_view(r@);
        r.push(l);
        i = i + 1;
        assert(strs_view(r@) =~= before.push(l@));
        assert(strs_view(r@) =~= Seq::new(i as nat, |k: int| prefix@ + decimal((k + 1) as nat)));
    }
    r
}

fn clone_opt(o: &Option<String>) -> (r: Option<String>)
    ensures
        opt_view(r) == opt_view(*o),
{
    match o {
        Some(s) => Some(s.clone()),
        None => None,
    }
}

/// The video to play at start-up: the configured default video when one
/// is set and `configured_exists` tells that it exists, else `fallback`.
pub fn default_video(configured: Option<String>, configured_exists: bool, fallback: String) -> (r:
    String)
    ensures
        r@ == match configured {
            Some(p) => if configured_exists {
                p@
            } else {
                fallback@
            },
            None => fallback@,
        },
{
    match configured {
        Some(p) => if configured_exists {
            p
        } else {
            fallback
        },
        None => fallback,
    }
}

/// The folder the user chose, or the empty path when none was chosen.
pub fn chosen_folder(result: &Result<String, String>) -> (r: String)
    ensures
        r@ == match result {
            Ok(p) => p@,
            Err(_) => Seq::empty(),
        },
{
    match result {
        Ok(p) => p.clone(),
        Err(_) => String::new(),
    }
}

impl PlayerState {
    /// The state at start-up, playing `video_url` with the subtitles
    /// `subtitles` read from `subtitle_file`, and the saved default video
    /// and screenshot folder.
    pub fn new(
        video_url: String,
        subtitle_file: String,
        subtitles: Vec<SubtitleEntry>,
        default_video_path: Option<String>,
        screenshot_folder: Option<String>,
    ) -> (r: PlayerState)
        ensures
            r@ == (PlayerView {
                dragging: false,
                muted: false,
                subtitles: entries_view(subtitles@),
                active_subtitle: None,
                prev_sub: None,
                video_url: video_url@,
                subtitle_file: subtitle_file@,
                subtitle_folder: "none"@,
                subtitle_folder_position: 0,
                subtitle_folder_current_sub: subtitle_file@,
                video_folder: ("None"@, 0, "."@),
                sorted_videos: Seq::empty(),
                sorted_subs: Seq::empty(),
                video_entries: Seq::empty(),
                names: Seq::empty(),
                selected_lang: Seq::empty(),
                selected_index: 0,
                manual_select: None,
                is_built_in_subs: true,
                file_is_loaded: false,
                audio_tracks: Seq::empty(),
                current_audio_track: 0,
                subtitle_tracks: Seq::empty(),
                current_subtitle_track: 0,
                has_embedded_subtitles: false,
                settings_open: false,
                default_video_path: opt_view(default_video_path),
                screenshot_folder: opt_view(screenshot_folder),
            }),
            r@.wf(),
    {
        let r = PlayerState {
            dragging: false,
            muted: false,
            subtitles,
            active_subtitle: None,
            prev_sub: None,
            video_url,
            subtitle_file: subtitle_file.clone(),
            subtitle_folder: String::from_str("none"),
            subtitle_folder_position: 0,
            subtitle_folder_current_sub: subtitle_file,
            video_folder_better: VideoFolder {
                folder: String::from_str("None"),
                position: 0,
                current_video: String::from_str("."),
            },
            sorted_folders: SortedFolder { video: Vec::new(), subs: Vec::new() },
            video_entries: Vec::new(),
            vec: Vec::new(),
            selected_lang: String::new(),
            selected_index: 0,
            manual_select: None,
            is_built_in_subs: true,
            file_is_loaded: false,
            available_audio_tracks: Vec::new(),
            current_audio_track: 0,
            available_subtitle_tracks: Vec::new(),
            current_subtitle_track: 0,
            has_embedded_subtitles: false,
            settings_open: false,
            default_video_path,
            screenshot_folder,
        };
        assert(r@.sorted_videos =~= Seq::empty());
        assert(r@.sorted_subs =~= Seq::empty());
        assert(r@.video_entries =~= Seq::empty());
        assert(r@.names =~= Seq::empty());
        assert(r@.audio_tracks =~= Seq::empty());
        assert(r@.subtitle_tracks =~= Seq::empty());
        r
    }

    /// The path of the video at `index` in the list, if there is one.
    pub fn entry_path(&self, index: usize) -> (r: Option<String>)
        ensures
            opt_view(r) == if index < self@.video_entries.len() {
                Some(self@.video_entries[index as int].1)
            } else {
                None
            },
    {
        if index < self.video_entries.len() {
            assert(self@.video_entries[index as int] == self.video_entries@[index as int]@);
            Some(self.video_entries[index].full_path.clone())
        } else {
            None
        }
    }

    /// A video was picked in the list. `file_exists` tells whether the file
    /// at `entry_path(index)` exists. Returns the path of the video to open
    /// when the entry exists and its file does.
    pub fn language_selected(&mut self, index: usize, file_exists: bool) -> (r: Option<String>)
        requires
            old(self)@.wf(),
        ensures
            final(self)@.wf(),
            ({
                let v = old(self)@;
                let hit = index < v.video_entries.len() && file_exists;
                &&& opt_view(r) == if hit {
                    Some(v.video_entries[index as int].1)
                } else {
                    None
                }
                &&& final(self)@ == (PlayerView {
                    selected_index: index,
                    manual_select: None,
                    selected_lang: if hit {
                        v.video_entries[index as int].0
                    } else {
                        v.selected_lang
                    },
                    ..v
                })
            }),
    {
        self.selected_index = index;
        self.manual_select = None;
        if index < self.video_entries.len() {
            if !file_exists {
                return None;
            }
            assert(self@.video_entries[index as int] == self.video_entries@[index as int]@);
            self.selected_lang = self.video_entries[index].display_name.clone();
            Some(self.video_entries[index].full_path.clone())
        } else {
            None
        }
    }

    /// "Add at selection": the folder position moves past the selected
    /// video, which is to be opened when it exists in the list and
    /// `file_exists` tells that its file does.
    pub fn add_at_selection(&mut self, file_exists: bool) -> (r: Option<String>)
        requires
            old(self)@.wf(),
            old(self).selected_index < usize::MAX,
        ensures
            final(self)@.wf(),
            ({
                let v = old(self)@;
                let i = v.selected_index;
                let hit = i < v.video_entries.len() && file_exists;
                &&& opt_view(r) == if hit {
                    Some(v.video_entries[i as int].1)
                } else {
                    None
                }
                &&& final(self)@ == (PlayerView {
                    video_folder: (v.video_folder.0, (i + 1) as usize, v.video_folder.2),
                    ..v
                })
            }),
    {
        self.video_folder_better.position = self.selected_index + 1;
        let i = self.selected_index;
        if i < self.video_entries.len() && file_exists {
            assert(self@.video_entries[i as int] == self.video_entries@[i as int]@);
            Some(self.video_entries[i].full_path.clone())
        } else {
            None
        }
    }

    /// "Manual selection": selects the third video of the list, if there is
    /// one.
    pub fn manual_selection(&mut self)
        requires
            old(self)@.wf(),
        ensures
            final(self)@.wf(),
            ({
                let v = old(self)@;
                final(self)@ == if 2 < v.video_entries.len() {
                    PlayerView {
                        selected_lang: v.video_entries[2].0,
                        selected_index: 2,
                        manual_select: Some(2),
                        ..v
                    }
                } else {
                    v
                }
            }),
    {
        if 2 < self.video_entries.len() {
            assert(self@.video_entries[2] == self.video_entries@[2]@);
            self.selected_lang = self.video_entries[2].display_name.clone();
            self.selected_index = 2;
            self.manual_select = Some(2);
        }
    }

    /// A new video was opened from `path`.
    pub fn video_loaded(&mut self, path: String)
        requires
            old(self)@.wf(),
        ensures
            final(self)@.wf(),
            final(self)@ == (PlayerView { video_url: path@, ..old(self)@ }),
    {
        self.video_url = path;
    }

    /// The video played last was opened again from `vid`, with its
    /// subtitle file `sub`; `subtitles` holds the cues read from that file
    /// when it exists (else the current cues stay).
    pub fn open_last(&mut self, vid: String, sub: String, subtitles: Option<Vec<SubtitleEntry>>)
        requires
            old(self)@.wf(),
        ensures
            final(self)@.wf(),
            final(self)@ == (PlayerView {
                video_url: vid@,
                subtitle_file: sub@,
                subtitles: match subtitles {
                    Some(v) => entries_view(v@),
                    None => old(self)@.subtitles,
                },
                ..old(self)@
            }),
    {
        match subtitles {
            Some(v) => {
                self.subtitles = v;
            },
            None => {},
        }
        self.video_url = vid;
        self.subtitle_file = sub;
    }

    /// The video reported the subtitle text it now shows.
    pub fn new_sub(&mut self, sub_text: Option<String>)
        requires
            old(self)@.wf(),
        ensures
            final(self)@.wf(),
            ({
                let v = old(self)@;
                final(self)@ == (PlayerView {
                    active_subtitle: opt_view(sub_text),
                    prev_sub: if v.is_built_in_subs {
                        opt_view(sub_text)
                    } else {
                        v.prev_sub
                    },
                    ..v
                })
            }),
    {
        if self.is_built_in_subs {
            self.prev_sub = clone_opt(&sub_text);
        }
        self.active_subtitle = sub_text;
    }

    /// Shows the subtitle on screen at time `t` (nanoseconds).
    pub fn update_active_subtitle(&mut self, t: u128)
        requires
            old(self)@.wf(),
        ensures
            final(self)@.wf(),
            final(self)@ == (PlayerView {
                active_subtitle: first_cover(old(self)@.subtitles, t),
                ..old(self)@
            }),
    {
        self.active_subtitle = subtitle_at(&self.subtitles, t);
    }

    /// The seek bar is being dragged.
    pub fn seek(&mut self)
        requires
            old(self)@.wf(),
        ensures
            final(self)@.wf(),
            final(self)@ == (PlayerView { dragging: true, ..old(self)@ }),
    {
        self.dragging = true;
    }

    /// The seek bar was released at time `t` (nanoseconds).
    pub fn seek_release(&mut self, t: u128)
        requires
            old(self)@.wf(),
        ensures
            final(self)@.wf(),
            final(self)@ == (PlayerView {
                dragging: false,
                active_subtitle: first_cover(old(self)@.subtitles, t),
                ..old(self)@
            }),
    {
        self.dragging = false;
        self.update_active_subtitle(t);
    }

    /// Whether a new frame should move the playback position to the
    /// video's: not while the seek bar is dragged.
    pub fn follows_video(&self) -> (r: bool)
        ensures
            r == !self@.dragging,
    {
        !self.dragging
    }

    /// A new frame was shown at time `t` (nanoseconds). Subtitles of the
    /// player's own file follow the playback time; built-in ones are
    /// reported by the video.
    pub fn new_frame(&mut self, t: u128)
        requires
            old(self)@.wf(),
        ensures
            final(self)@.wf(),
            final(self)@ == if old(self)@.is_built_in_subs {
                old(self)@
            } else {
                PlayerView { active_subtitle: first_cover(old(self)@.subtitles, t), ..old(self)@ }
            },
    {
        if !self.is_built_in_subs {
            self.update_active_subtitle(t);
        }
    }

    /// Toggles mute; returns whether the sound is now muted.
    pub fn toggle_mute(&mut self) -> (r: bool)
        requires
            old(self)@.wf(),
        ensures
            final(self)@.wf(),
            final(self)@ == mute_toggled(old(self)@),
            final(self).muted == !old(self).muted,
            r == final(self)@.muted,
            r == !old(self).muted,
    {
        self.muted = !self.muted;
        self.muted
    }

    /// The user chose a video file (`Ok` with its path) or gave up (`Err`).
    /// Returns the path of the video to open.
    pub fn opened(&mut self, result: Result<String, String>) -> (r: Option<String>)
        requires
            old(self)@.wf(),
        ensures
            final(self)@.wf(),
            match result {
                Ok(p) => {
                    &&& opt_view(r) == Some(p@)
                    &&& final(self)@ == (PlayerView { video_url: p@, ..old(self)@ })
                },
                Err(_) => {
                    &&& r is None
                    &&& final(self)@ == (PlayerView { video_url: "ntohing"@, ..old(self)@ })
                },
            },
    {
        match result {
            Ok(p) => {
                self.video_url = p.clone();
                Some(p)
            },
            Err(_) => {
                self.video_url = String::from_str("ntohing");
                None
            },
        }
    }

    /// The chosen video was opened: playback starts at the beginning.
    pub fn video_opened(&mut self)
        requires
            old(self)@.wf(),
        ensures
            final(self)@.wf(),
            final(self)@ == (PlayerView {
                dragging: false,
                active_subtitle: first_cover(old(self)@.subtitles, 0),
                ..old(self)@
            }),
    {
        self.dragging = false;
        self.update_active_subtitle(0);
    }

    /// The user chose a subtitle file (`Ok` with its path) or gave up
    /// (`Err`). Returns the path of the file to read.
    pub fn opened_subtitles(&mut self, file: Result<String, String>) -> (r: Option<String>)
        requires
            old(self)@.wf(),
        ensures
            final(self)@.wf(),
            match file {
                Ok(p) => {
                    &&& opt_view(r) == Some(p@)
                    &&& final(self)@ == (PlayerView { subtitle_file: p@, ..old(self)@ })
                },
                Err(_) => {
                    &&& r is None
                    &&& final(self)@ == (PlayerView { subtitle_file: "ntohing"@, ..old(self)@ })
                },
            },
    {
        match file {
            Ok(p) => {
                self.subtitle_file = p.clone();
                Some(p)
            },
            Err(_) => {
                self.subtitle_file = String::from_str("ntohing");
                None
            },
        }
    }

    /// New subtitles were read; the one on screen at time `t` (nanoseconds)
    /// is shown.
    pub fn subtitles_loaded(&mut self, subtitles: Vec<SubtitleEntry>, t: u128)
        requires
            old(self)@.wf(),
        ensures
            final(self)@.wf(),
            final(self)@ == (PlayerView {
                subtitles: entries_view(subtitles@),
                active_subtitle: first_cover(entries_view(subtitles@), t),
                ..old(self)@
            }),
    {
        self.subtitles = subtitles;
        self.update_active_subtitle(t);
    }

    /// Replaces the subtitles without changing the one on screen.
    pub fn set_subtitles(&mut self, subtitles: Vec<SubtitleEntry>)
        requires
            old(self)@.wf(),
        ensures
            final(self)@.wf(),
            final(self)@ == (PlayerView { subtitles: entries_view(subtitles@), ..old(self)@ }),
    {
        self.subtitles = subtitles;
    }

    /// The user chose a subtitle folder (`Ok` with its path) or gave up.
    pub fn opened_sub_folder(&mut self, folder: Result<String, String>)
        requires
            old(self)@.wf(),
        ensures
            final(self)@.wf(),
            final(self)@ == match folder {
                Ok(p) => PlayerView { subtitle_folder: p@, ..old(self)@ },
                Err(_) => old(self)@,
            },
    {
        match folder {
            Ok(p) => {
                self.subtitle_folder = p;
            },
            Err(_) => {},
        }
    }

    /// Switches between the video's own subtitles and the player's.
    pub fn toggle_own_subs(&mut self)
        requires
            old(self)@.wf(),
        ensures
            final(self)@.wf(),
            final(self)@ == own_subs_toggled(old(self)@),
            final(self).is_built_in_subs == !old(self).is_built_in_subs,
    {
        self.is_built_in_subs = !self.is_built_in_subs;
    }

    /// The audio track `index` was chosen.
    pub fn audio_track_selected(&mut self, index: usize)
        requires
            old(self)@.wf(),
        ensures
            final(self)@.wf(),
            final(self)@ == (PlayerView { current_audio_track: index, ..old(self)@ }),
    {
        self.current_audio_track = index;
    }

    /// The subtitle track `index` was chosen.
    pub fn subtitle_track_selected(&mut self, index: usize)
        requires
            old(self)@.wf(),
        ensures
            final(self)@.wf(),
            final(self)@ == (PlayerView { current_subtitle_track: index, ..old(self)@ }),
    {
        self.current_subtitle_track = index;
    }

    /// Opens or closes the settings window.
    pub fn toggle_settings(&mut self)
        requires
            old(self)@.wf(),
        ensures
            final(self)@.wf(),
            final(self)@ == settings_toggled(old(self)@),
            final(self).settings_open == !old(self).settings_open,
    {
        self.settings_open = !self.settings_open;
    }

    /// The user chose a default video (`Ok` with its path) or gave up;
    /// `exists` tells whether the chosen file exists.
    pub fn set_default_video(&mut self, result: Result<String, String>, exists: bool)
        requires
            old(self)@.wf(),
        ensures
            final(self)@.wf(),
            final(self)@ == (PlayerView {
                default_video_path: match result {
                    Ok(p) => if exists {
                        Some(p@)
                    } else {
                        None
                    },
                    Err(_) => None,
                },
                ..old(self)@
            }),
    {
        self.default_video_path = match result {
            Ok(p) => if exists {
                Some(p)
            } else {
                None
            },
            Err(_) => None,
        };
    }

    /// The user chose a screenshot folder (`Ok` with its path) or gave up;
    /// `is_dir` tells whether the chosen path is an existing directory.
    pub fn set_screenshot_folder(&mut self, result: Result<String, String>, is_dir: bool)
        requires
            old(self)@.wf(),
        ensures
            final(self)@.wf(),
            final(self)@ == (PlayerView {
                screenshot_folder: match result {
                    Ok(p) => if is_dir {
                        Some(p@)
                    } else {
                        None
                    },
                    Err(_) => None,
                },
                ..old(self)@
            }),
    {
        self.screenshot_folder = match result {
            Ok(p) => if is_dir {
                Some(p)
            } else {
                None
            },
            Err(_) => None,
        };
    }

    /// "Next": the next video of the folder and the next subtitle file of
    /// the subtitle folder (whose listing, in path order, is `sub_listing`)
    /// become current, each when there is one; the current subtitle file
    /// becomes the subtitle file. Returns the current video.
    pub fn next_video(&mut self, sub_listing: Vec<String>) -> (r: String)
        requires
            old(self)@.wf(),
        ensures
            final(self)@.wf(),
            ({
                let v = old(self)@;
                let subs = enumerated(strs_view(sub_listing@));
                let vpos = v.video_folder.1;
                let spos = v.subtitle_folder_position;
                let video_folder = advance_folder(v.video_folder, v.sorted_videos);
                let (sub_pos, sub) = if spos < subs.len() {
                    ((spos + 1) as usize, subs[spos as int].1)
                } else {
                    (spos, v.subtitle_folder_current_sub)
                };
                &&& final(self)@ == (PlayerView {
                    sorted_subs: subs,
                    video_folder: video_folder,
                    subtitle_folder_position: sub_pos,
                    subtitle_folder_current_sub: sub,
                    subtitle_file: sub,
                    ..v
                })
                &&& r@ == video_folder.2
            }),
    {
        let ghost lv = strs_view(sub_listing@);
        let mut subs: Vec<(usize, String)> = Vec::new();
        let mut i: usize = 0;
        while i < sub_listing.len()
            invariant
                i <= sub_listing.len(),
                lv == strs_view(sub_listing@),
                listing_view(subs@) == enumerated(lv.take(i as int)),
            decreases sub_listing.len() - i,
        {
            let ghost before = listing_view(subs@);
            let item = (i, sub_listing[i].clone());
            subs.push(item);
            assert(lv[i as int] == sub_listing@[i as int]@);
            i = i + 1;
            assert(listing_view(subs@) =~= before.push((item.0, item.1@)));
            assert(listing_view(subs@) =~= enumerated(lv.take(i as int)));
        }
        assert(lv.take(i as int) =~= lv);
        let vpos = self.video_folder_better.position;
        if vpos < self.sorted_folders.video.len() {
            let (k, ref vid) = self.sorted_folders.video[vpos];
            assert(self@.sorted_videos[vpos as int] == (k, vid@));
            self.video_folder_better.position = k + 1;
            self.video_folder_better.current_video = vid.clone();
        }
        let spos = self.subtitle_folder_position;
        if spos < subs.len() {
            let (k, ref sub) = subs[spos];
            assert(listing_view(subs@)[spos as int] == (k, sub@));
            self.subtitle_folder_position = k + 1;
            self.subtitle_folder_current_sub = sub.clone();
        }
        self.sorted_folders.subs = subs;
        self.subtitle_file = self.subtitle_folder_current_sub.clone();
        assert(self@.sorted_videos == old(self)@.sorted_videos);
        assert(self@.video_entries == old(self)@.video_entries);
        assert(self@.names == old(self)@.names);
        self.video_folder_better.current_video.clone()
    }

    /// A video folder was opened; `videos` is its listing in path order.
    /// The folder's videos become the playlist, shown by file name, and the
    /// selection is reset.
    pub fn set_video_folder(&mut self, folder: String, videos: Vec<String>)
        requires
            old(self)@.wf(),
        ensures
            final(self)@.wf(),
            ({
                let v = old(self)@;
                let paths = strs_view(videos@);
                final(self)@ == (PlayerView {
                    file_is_loaded: paths.len() > 0,
                    sorted_videos: enumerated(paths),
                    video_entries: paths.map_values(|p: Seq<char>| (display_name_of(p), p)),
                    names: paths.map_values(|p: Seq<char>| display_name_of(p)),
                    video_folder: (folder@, v.video_folder.1, v.video_folder.2),
                    selected_index: 0,
                    selected_lang: Seq::empty(),
                    manual_select: None,
                    ..v
                })
            }),
    {
        let ghost paths = strs_view(videos@);
        let mut listing: Vec<(usize, String)> = Vec::new();
        let mut entries: Vec<VideoEntry> = Vec::new();
        let mut names: Vec<String> = Vec::new();
        let mut i: usize = 0;
        while i < videos.len()
            invariant
                i <= videos.len(),
                paths == strs_view(videos@),
                listing_view(listing@) == enumerated(paths.take(i as int)),
                videos_view(entries@) == paths.take(i as int).map_values(
                    |p: Seq<char>| (display_name_of(p), p),
                ),
                strs_view(names@) == paths.take(i as int).map_values(
                    |p: Seq<char>| display_name_of(p),
                ),
            decreases videos.len() - i,
        {
            let vid = &videos[i];
            assert(paths[i as int] == vid@);
            let display_name = match file_name(vid.as_str()) {
                Some(n) => n,
                None => String::new(),
            };
            assert(display_name@ == display_name_of(vid@));
            let ghost l0 = listing_view(listing@);
            let ghost e0 = videos_view(entries@);
            let ghost n0 = strs_view(names@);
            listing.push((i, vid.clone()));
            names.push(display_name.clone());
            let entry = VideoEntry { display_name, full_path: vid.clone() };
            assert(entry@ == (display_name_of(vid@), vid@));
            entries.push(entry);
            i = i + 1;
            assert(listing_view(listing@) =~= l0.push(((i - 1) as usize, vid@)));
            assert(listing_view(listing@) =~= enumerated(paths.take(i as int)));
            assert(videos_view(entries@) =~= e0.push((display_name_of(vid@), vid@)));
            assert(videos_view(entries@) =~= paths.take(i as int).map_values(
                |p: Seq<char>| (display_name_of(p), p),
            ));
            assert(strs_view(names@) =~= n0.push(display_name_of(vid@)));
            assert(strs_view(names@) =~= paths.take(i as int).map_values(
                |p: Seq<char>| display_name_of(p),
            ));
        }
        assert(paths.take(i as int) =~= paths);
        self.file_is_loaded = videos.len() > 0;
        self.sorted_folders.video = listing;
        self.video_entries = entries;
        self.vec = names;
        self.video_folder_better.folder = folder;
        self.selected_index = 0;
        self.selected_lang = String::new();
        self.manual_select = None;
    }

    /// The video reports `n` audio tracks: they are named
    /// "Audio Track 1", "Audio Track 2", ..., and the first is current.
    pub fn set_audio_tracks(&mut self, n: i32)
        requires
            old(self)@.wf(),
        ensures
            final(self)@.wf(),
            final(self)@ == (PlayerView {
                audio_tracks: track_names("Audio Track "@, n),
                current_audio_track: 0,
                ..old(self)@
            }),
    {
        self.available_audio_tracks = track_list("Audio Track ", n);
        self.current_audio_track = 0;
    }

    /// The video reports `n` embedded subtitle tracks: they are named
    /// "Subtitle Track 1", ..., the first is current, and the video has
    /// embedded subtitles when there is at least one.
    pub fn set_subtitle_tracks(&mut self, n: i32)
        requires
            old(self)@.wf(),
        ensures
            final(self)@.wf(),
            final(self)@ == (PlayerView {
                subtitle_tracks: track_names("Subtitle Track "@, n),
                current_subtitle_track: 0,
                has_embedded_subtitles: n > 0,
                ..old(self)@
            }),
    {
        self.available_subtitle_tracks = track_list("Subtitle Track ", n);
        self.current_subtitle_track = 0;
        self.has_embedded_subtitles = n > 0;
    }

    /// The "next video" button: its label, and whether it can be pressed.
    pub fn next_button(&self) -> (r: (String, bool))
        ensures
            r.0@ == if self@.file_is_loaded {
                "Next video"@
            } else {
                "No next video"@
            },
            r.1 == self@.file_is_loaded,
    {
        if self.file_is_loaded {
            (String::from_str("Next video"), true)
        } else {
            (String::from_str("No next video"), false)
        }
    }

    /// The audio track button, shown when there are several tracks: its
    /// label names the current track, and pressing it selects the next
    /// track, cycling back to the first.
    pub fn audio_track_button(&self) -> (r: Option<(String, usize)>)
        requires
            self@.audio_tracks.len() > 1 ==> self@.current_audio_track < self@.audio_tracks.len(),
        ensures
            ({
                let v = self@;
                match r {
                    Some((label, next)) => {
                        &&& v.audio_tracks.len() > 1
                        &&& label@ == "Audio: "@ + v.audio_tracks[v.current_audio_track as int]
                        &&& next == next_track(v.current_audio_track, v.audio_tracks.len())
                    },
                    None => v.audio_tracks.len() <= 1,
                }
            }),
    {
        let n = self.available_audio_tracks.len();
        if n > 1 {
            let cur = self.current_audio_track;
            let mut v = chars_of("Audio: ");
            let t = chars_of(self.available_audio_tracks[cur].as_str());
            crate::text::push_chars(&mut v, &t);
            assert(self@.audio_tracks[cur as int] == self.available_audio_tracks@[cur as int]@);
            let next = (cur + 1) % n;
            assert(next == next_track(cur, n as nat));
            Some((string_of(&v), next))
        } else {
            None
        }
    }

    /// The subtitle track button, shown when there are several embedded
    /// tracks: its label names the current track, and pressing it selects
    /// the next track, cycling back to the first.
    pub fn subtitle_track_button(&self) -> (r: Option<(String, usize)>)
        requires
            self@.subtitle_tracks.len() > 1 ==> self@.current_subtitle_track
                < self@.subtitle_tracks.len(),
        ensures
            ({
                let v = self@;
                match r {
                    Some((label, next)) => {
                        &&& v.subtitle_tracks.len() > 1
                        &&& label@ == "Sub: "@ + v.subtitle_tracks[v.current_subtitle_track as int]
                        &&& next == next_track(
                            v.current_subtitle_track,
                            v.subtitle_tracks.len(),
                        )
                    },
                    None => v.subtitle_tracks.len() <= 1,
                }
            }),
    {
        let n = self.available_subtitle_tracks.len();
        if n > 1 {
            let cur = self.current_subtitle_track;
            let mut v = chars_of("Sub: ");
            let t = chars_of(self.available_subtitle_tracks[cur].as_str());
            crate::text::push_chars(&mut v, &t);
            assert(self@.subtitle_tracks[cur as int]
                == self.available_subtitle_tracks@[cur as int]@);
            let next = (cur + 1) % n;
            assert(next == next_track(cur, n as nat));
            Some((string_of(&v), next))
        } else {
            None
        }
    }

    /// The subtitle text to show: the current subtitle with the entities
    /// `&apos;` and `&quot;` turned into quote marks; empty when there is
    /// none.
    pub fn subtitle_text(&self) -> (r: String)
        ensures
            r@ == match self@.active_subtitle {
                Some(t) => replace(replace(t, "&apos;"@, "'"@), "&quot;"@, "\""@),
                None => Seq::empty(),
            },
    {
        match &self.active_subtitle {
            Some(t) => {
                let c = chars_of(t.as_str());
                let apos = chars_of("&apos;");
                let quote = chars_of("'");
                let quot = chars_of("&quot;");
                let dquote = chars_of("\"");
                proof {
                    reveal_strlit("&apos;");
                    reveal_strlit("&quot;");
                }
                let a = replace_chars(&c, &apos, &quote);
                let b = replace_chars(&a, &quot, &dquote);
                string_of(&b)
            },
            None => String::new(),
        }
    }

    /// The label of the default video setting: the file name of the
    /// default video, or "None selected".
    pub fn default_video_label(&self) -> (r: String)
        ensures
            r@ == match self@.default_video_path {
                Some(p) => match file_name_of(p) {
                    Some(n) => n,
                    None => "None selected"@,
                },
                None => "None selected"@,
            },
    {
        match &self.default_video_path {
            Some(p) => match file_name(p.as_str()) {
                Some(n) => n,
                None => String::from_str("None selected"),
            },
            None => String::from_str("None selected"),
        }
    }

    /// The label of the screenshot folder setting: the folder's name (the
    /// whole path when it has none), or "None selected".
    pub fn screenshot_folder_label(&self) -> (r: String)
        ensures
            r@ == match self@.screenshot_folder {
                Some(p) => match file_name_of(p) {
                    Some(n) => n,
                    None => p,
                },
                None => "None selected"@,
            },
    {
        match &self.screenshot_folder {
            Some(p) => match file_name(p.as_str()) {
                Some(n) => n,
                None => p.clone(),
            },
            None => String::from_str("None selected"),
        }
    }

    /// Where a screenshot taken at `secs` seconds since the Unix epoch goes:
    /// straight into the screenshot folder when one is set and
    /// `folder_is_dir` tells that it is an existing directory, else the
    /// user is asked, with a proposed file name.
    pub fn screenshot_plan(&self, secs: u64, folder_is_dir: bool) -> (r: ScreenshotPlan)
        ensures
            match self@.screenshot_folder {
                Some(f) if folder_is_dir => r matches ScreenshotPlan::AutoSave(p) && p@ == join_of(
                    f,
                    "screenshot_"@ + decimal(secs as nat) + ".png"@,
                ),
                _ => r matches ScreenshotPlan::Ask(n) && n@ == "screenshot_uri_"@ + decimal(
                    secs as nat,
                ) + ".png"@,
            },
    {
        match &self.screenshot_folder {
            Some(f) if folder_is_dir => {
                let mut name = chars_of(labelled_number("screenshot_", secs).as_str());
                crate::text::push_str_chars(&mut name, ".png");
                let name = string_of(&name);
                ScreenshotPlan::AutoSave(join_path(f.as_str(), name.as_str()))
            },
            _ => {
                let mut name = chars_of(labelled_number("screenshot_uri_", secs).as_str());
                crate::text::push_str_chars(&mut name, ".png");
                ScreenshotPlan::Ask(string_of(&name))
            },
        }
    }
}


/// Switching mute always changes whether the sound is muted, in every
/// state, and changes nothing else.
pub proof fn law_mute_toggle_flips(v: PlayerView)
    ensures
        mute_toggled(v).muted == !v.muted,
        (PlayerView { muted: v.muted, ..mute_toggled(v) }) == v,
{
}

/// Switching between the video's own subtitles and the player's always
/// changes which of them is used, whatever tracks the video has, and
/// changes nothing else.
pub proof fn law_own_subs_toggle_flips(v: PlayerView)
    ensures
        own_subs_toggled(v).is_built_in_subs == !v.is_built_in_subs,
        (PlayerView { is_built_in_subs: v.is_built_in_subs, ..own_subs_toggled(v) }) == v,
{
}

/// The settings button always opens a closed settings window and closes an
/// open one, and changes nothing else.
pub proof fn law_settings_toggle_flips(v: PlayerView)
    ensures
        settings_toggled(v).settings_open == !v.settings_open,
        (PlayerView { settings_open: v.settings_open, ..settings_toggled(v) }) == v,
{
}

/// Switching mute twice gives back the state it started from.
pub proof fn law_mute_toggle_twice(v: PlayerView)
    ensures
        mute_toggled(mute_toggled(v)) == v,
{
}

/// Switching between the video's own subtitles and the player's twice
/// gives back the state it started from.
pub proof fn law_own_subs_toggle_twice(v: PlayerView)
    ensures
        own_subs_toggled(own_subs_toggled(v)) == v,
{
}

/// Opening and closing the settings window gives back the state it
/// started from.
pub proof fn law_settings_toggle_twice(v: PlayerView)
    ensures
        settings_toggled(settings_toggled(v)) == v,
{
}

/// The track selected after pressing a track button `k` times, starting
/// from track `current` of `count`.
pub open spec fn press_track(current: usize, count: nat, k: nat) -> usize
    decreases k,
{
    if k == 0 {
        current
    } else {
        next_track(press_track(current, count, (k - 1) as nat), count)
    }
}

proof fn lemma_press_track(current: usize, count: nat, k: nat)
    requires
        current < count,
        count <= usize::MAX,
    ensures
        press_track(current, count, k) == (current + k) % (count as int),
    decreases k,
{
    let m = count as int;
    if k > 0 {
        lemma_press_track(current, count, (k - 1) as nat);
        let x = current + k - 1;
        if m > 1 {
            vstd::arithmetic::div_mod::lemma_small_mod(1, count);
            vstd::arithmetic::div_mod::lemma_add_mod_noop(x, 1, m);
        } else {
            assert(((x % 1) + 1) % 1 == (x + 1) % 1);
        }
    } else {
        vstd::arithmetic::div_mod::lemma_small_mod(current as nat, count);
    }
}

/// A track button goes through the tracks in turn: `k` presses from track
/// `current` select track `(current + k) mod count`, so every track is
/// reached and `count` presses come back to the starting track.
pub proof fn law_track_button_cycles(current: usize, count: nat, k: nat)
    requires
        current < count,
        count <= usize::MAX,
    ensures
        press_track(current, count, k) == (current + k) % (count as int),
        press_track(current, count, count) == current,
{
    let m = count as int;
    lemma_press_track(current, count, k);
    lemma_press_track(current, count, count);
    vstd::arithmetic::div_mod::lemma_add_mod_noop(current as int, m, m);
    vstd::arithmetic::div_mod::lemma_mod_self_0(m);
    vstd::arithmetic::div_mod::lemma_small_mod(current as nat, count);
}

/// The video folder after `k` presses of "Next".
pub open spec fn advance_folder_times(
    folder: (Seq<char>, usize, Seq<char>),
    videos: Seq<(usize, Seq<char>)>,
    k: nat,
) -> (Seq<char>, usize, Seq<char>)
    decreases k,
{
    if k == 0 {
        folder
    } else {
        advance_folder(advance_folder_times(folder, videos, (k - 1) as nat), videos)
    }
}

/// "Next" plays the folder's videos one after another in listing order:
/// `k` presses from position `p` make the video at `p + k - 1` current and
/// move the position to `p + k`; once the position is past the last
/// video, "Next" changes nothing.
pub proof fn law_next_plays_in_order(
    folder: (Seq<char>, usize, Seq<char>),
    videos: Seq<(usize, Seq<char>)>,
    k: nat,
)
    requires
        folder.1 + k <= videos.len(),
        videos.len() <= usize::MAX,
    ensures
        k > 0 ==> advance_folder_times(folder, videos, k) == (
            folder.0,
            (folder.1 + k) as usize,
            videos[folder.1 + k - 1].1,
        ),
        advance_folder_times(folder, videos, k).1 == folder.1 + k,
        advance_folder_times(folder, videos, k).1 == videos.len() ==> advance_folder(
            advance_folder_times(folder, videos, k),
            videos,
        ) == advance_folder_times(folder, videos, k),
    decreases k,
{
    if k > 0 {
        law_next_plays_in_order(folder, videos, (k - 1) as nat);
    }
}

/// Track lists name one entry per track, numbered from one in order:
/// entry `i` is the prefix followed by the number `i + 1`.
pub proof fn law_track_names_numbered(prefix: Seq<char>, n: i32, i: int)
    requires
        0 <= i < n,
    ensures
        track_names(prefix, n).len() == n,
        track_names(prefix, n)[i].take(prefix.len() as int) == prefix,
        parse_u64(track_names(prefix, n)[i].skip(prefix.len() as int)) == Some((i + 1) as u64),
{
    let t = track_names(prefix, n)[i];
    let d = decimal((i + 1) as nat);
    assert(t == prefix + d);
    assert(t.take(prefix.len() as int) =~= prefix);
    assert(t.skip(prefix.len() as int) =~= d);
    law_parse_decimal((i + 1) as u64);
}

} // verus!
