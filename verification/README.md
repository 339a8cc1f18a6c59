# vidplay

The verified core of a desktop video player with subtitle support.

`src/` is checked by Verus:

- `text`: whitespace trimming, substring replacement, decimal numbers,
  field splitting and string ordering on character sequences.
- `subtitles`: SubRip and Advanced SubStation cue timings, cleaning of
  styled dialogue, the merged cue list ordered by start time, and the cue
  shown at a playback time.
- `paths`: file names, joining and ordering of directory entries.
- `player`: the player state and its reaction to every user action and
  playback event that does not need the outside world.
- `screenshot`: the `gst-launch-1.0` command lines that save a frame.
- `app_types`: playlist and folder records.

`app/` is the window (iced), the video pipeline (GStreamer), file dialogs,
the settings file and the SQLite records; it drives the player state and
performs the actions the library decides on.

`tests/` runs the library on concrete values.
