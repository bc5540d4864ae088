# open

A simpler alternative to `xdg-open` + `xdg-mime`: opens paths, URLs and media
types with their default applications, sets default applications and reports
media types.

The library in `src/` holds the logic, with contracts proved by Verus:

- `text` — the `str` splitting rules the file formats rely on (`split`,
  `split_terminator`, `lines`, `split_whitespace`, `split_once`), over
  `Seq<char>`, with the lemmas that make written text read back.
- `paths` — `Path::file_name` and `PathBuf::push` on Unix path text.
- `mime_type` — media types as parsed by the `mime` crate.
- `mime_map`, `mime_apps` — `mimeapps.list`: reading, writing (proved to read
  back), and the default applications of a type with its wildcard fallback.
- `desktop_entry` — desktop entries (read with `freedesktop_entry_parser`),
  their executable name, lookup by file name, category or executable, and
  the plan for launching one (once per argument where the command asks).
- `completions` — the completion cache from executable names to entries
  (proved to read back as written) and when it must be made again.
- `lib.rs` — `open`, the launch plan: paths grouped by application, each
  group launched once, the one launch that may take over the terminal last;
  setting a default, and how the media type of an input is found.

`app/` is the command line program: arguments, the file system, the XDG
directories, the shared MIME database and the starting of programs.
