//! Plain data shared by the player: playlist entries, the video folder
//! being played through, the sorted folder listings and notifications.

use vstd::prelude::*;

verus! {

/// A video of the opened folder: the name shown in the list and the full
/// path of the file.
#[derive(Debug)]
pub struct VideoEntry {
    pub display_name: String,
    pub full_path: String,
}

impl View for VideoEntry {
    type V = (Seq<char>, Seq<char>);

    open spec fn view(&self) -> (Seq<char>, Seq<char>) {
        (self.display_name@, self.full_path@)
    }
}

/// The video folder being played through: its path, the position of the
/// next video to play, and the video played last.
#[derive(Debug)]
pub struct VideoFolder {
    pub folder: String,
    pub position: usize,
    pub current_video: String,
}

impl View for VideoFolder {
    type V = (Seq<char>, usize, Seq<char>);

    open spec fn view(&self) -> (Seq<char>, usize, Seq<char>) {
        (self.folder@, self.position, self.current_video@)
    }
}

/// The numbered listings of the video folder and of the subtitle folder,
/// each in path order.
#[derive(Debug)]
pub struct SortedFolder {
    pub video: Vec<(usize, String)>,
    pub subs: Vec<(usize, String)>,
}

/// A numbered listing as plain values.
pub open spec fn listing_view(v: Seq<(usize, String)>) -> Seq<(usize, Seq<char>)> {
    v.map_values(|x: (usize, String)| (x.0, x.1@))
}

impl View for SortedFolder {
    type V = (Seq<(usize, Seq<char>)>, Seq<(usize, Seq<char>)>);

    open spec fn view(&self) -> (Seq<(usize, Seq<char>)>, Seq<(usize, Seq<char>)>) {
        (listing_view(self.video@), listing_view(self.subs@))
    }
}

/// A message shown to the user.
#[derive(Debug)]
pub struct Notification {
    pub message: String,
}

impl View for Notification {
    type V = Seq<char>;

    open spec fn view(&self) -> Seq<char> {
        self.message@
    }
}

} // verus!
