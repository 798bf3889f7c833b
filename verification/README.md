# rpf2fivem

Converts GTA V mod packages into FiveM resource folders: it unpacks the
package, reads the RPF7 archives inside it, sorts every file into the
resource's `stream`, `data`, `sfx` and `audioconfig` folders (or leaves it
out), and writes the resource's `fxmanifest.lua`.

The library in `src/` holds the conversion rules and is verified with Verus:

- `rpf` — the RPF7 header, entry table and name table, and the stored data of
  each entry; the scan for archives embedded in other data.
- `convert` — where each file goes (the allowlist of streamable formats and of
  FiveM `data_file` mounters, semantic data paths, audio files), the choice of
  one file per destination among loose files, and the decisions about existing
  output folders and renaming.
- `manifest` — the mounter of a data path and the text of `fxmanifest.lua`.
- `audio` — wavepack folders and matched game/sound configuration files.
- `web` — telling direct download links from mod pages and finding the
  download link in a page.
- `archive` — package formats and the `.rpf` files among unpacked files.
- `text`, `path`, `sorted` — the string, path and ordering operations the
  rules are stated with.

`app/` is the command-line program around it: arguments, downloads,
unpacking with the ZIP and 7z crates or `unrar`, and all reading and writing
of files.
