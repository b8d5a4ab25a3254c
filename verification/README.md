# launcher

A launcher and clipboard manager for Hyprland: overlays and windows that list
applications, open windows and what was copied, a picker for lines of text, and
a daemon that keeps two clipboard histories in step.

`src/` is the library. It holds the rules of the programs but for those that are
computed in floating point, verified with Verus:

- `text`, `order`, `path`, `double`, `time`: texts, stable rankings, paths, the
  order of doubles, dates and ages
- `keyfile`, `desktop`, `icons`, `icon_index`: application files and icons
- `hyprland`, `keys`, `fuzzy`, `search`, `common`: windows, keys, matching and
  highlighting
- `clip::db`, `clipboard`, `picture`: the clipboard history and its overlay
- `clipsync`: the protocol between two machines, what they exchange, and how a
  connection runs
- `usage`: the log of what was opened and how long it was used
- `launcher`, `layer_launcher`, `toggle`, `layer_clip`, `picker`, `layer`: the
  programs as states and what their events do to them

`app/` is the rest: windows, sockets, files, the database file, the decoding of
JPEG and WebP pictures, and whatever is computed in floating point. `tests/`
runs the library on concrete values.
