# kestrelcut

The verified core of KestrelCut, a non-linear video editor that drives
FFmpeg for all decoding and encoding.

`src/` is a Verus library: every function carries a contract and is proved
against it.

- `text` — moving between `str`, `String` and character vectors, trimming,
  decimal formatting, label truncation.
- `arabic` — Arabic contextual joining into presentation forms plus the
  simplified bidi reordering used for painting; proved laws on both.
- `textshape` — which texts need right-to-left shaping, and the runs (with
  their direction) that unicode-bidi splits a title into.
- `subs` — SubRip parsing (times in milliseconds) and decoding of UTF-8 /
  UTF-16 subtitle files.
- `history` — the bounded undo/redo stack and its laws.
- `model` — ids, blend modes, transitions, easing, asset/clip/track kinds.
- `grouping` — clip groups: members, grouping and ungrouping, with laws.
- `probe` — reading ffprobe's JSON report and picking its video and audio
  streams.
- `media` — FFmpeg resolution order, file classification, filter-path
  escaping, encoder listing, `-progress` lines and waveform peaks.
- `exporter` — encoder rate-control arguments, hardware/software encoder
  menus, blend names, argument splitting (with laws on splitting), the
  encoder command tail and the failure message.
- `decoder` — the frame-pipe fill steps and reader decisions.
- `player` — quality levels, tools and the decoder restart hash.
- `scopes` — analysis grid, luma waveform, RGB parade and histogram images.
- `browser` — the file browser listing (hidden entries, folders first,
  name order, per-mode extensions).
- `app` — workspaces, dialogs, notifications, keyboard shortcuts, selection
  and grouping rules, media pool search, the FNV hash.
- `util` — byte sizes, timecodes and short durations.

`app/` is the program around it: process and file I/O, the project model
and timeline edits (which compute on floating-point seconds), the export
graph, title rasterizing and glyph layout with `rustybuzz`
and `ab_glyph`, and the command line.
