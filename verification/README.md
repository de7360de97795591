# Rakunator

A small multi-track digital audio workstation: tracks of mono or stereo
clips that can be arranged, trimmed, split, joined, faded and mixed, a
piano-roll melody editor (Bethoven), and export to `.wav` and `.mp3`.

- `src/` is the library, written in Verus and verified: the editing
  model with its undo history and clipboard, project saving and loading,
  the melody model, the scale tables, the transport and meters, the WAV
  tag chunk, the Trip Toggler's peak selection and segments, the help
  search, the export names and dialog state, and the recent-projects
  list. Audio samples travel through it as the bit patterns of `f32`
  values; it never does floating-point arithmetic itself, and takes the
  few mixing operations its edits need as closures.
- `app/` is a command-line program around the library: file I/O (WAV
  import with hound, MP3 encoding with LAME and id3 tags, `.raku` JSON
  files with serde), and the floating-point signal processing (mixing,
  effects, synthesis).
- `tests/` exercises the library from outside.
