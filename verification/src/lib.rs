//! Core logic of a desktop video player with subtitle support: subtitle
//! parsing and timing, playlist navigation, track selection and the
//! small text and path helpers the player relies on.

pub mod text;
pub mod app_types;
pub mod subtitles;
pub mod paths;
pub mod player;
pub mod screenshot;
