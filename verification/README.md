# ubereditor

The core of a video editor, verified with Verus: the project model and its
edits, undo and redo, the timeline as an edit list, and the calls of ffmpeg that
export a sequence, preview a frame, or read a file.

- `src/` is the library. Every function has a contract, and what holds of
  several functions together is stated in functions whose names start with
  `law_`.
- `app/` is the ordinary Rust around it: files, processes, JSON, and what
  needs a sine, a root or a logarithm.
- `tests/` runs the library on concrete projects.

## The library

| Module | What it holds |
|---|---|
| `model`, `keyframe`, `strmap`, `ident`, `time` | projects, sequences, tracks, clips, animated values, identifiers, and time in microseconds |
| `action`, `laws` | primitive actions with their inverses, and why an inverse restores the project |
| `ops`, `ranges`, `undoing`, `stock`, `staying` | editing operations as plans of actions, why every operation can be undone, and why what is valid stays valid |
| `history`, `store`, `calls` | transactions, undo and redo, and what holds of any row of calls |
| `validate`, `error` | the invariants of a project, and what can go wrong |
| `float`, `decimal`, `text`, `reading`, `seqs` | numbers in double precision, their decimal texts, and text |
| `render`, `packs`, `transitions`, `sound`, `captions`, `overlays`, `fonts`, `paths` | filter chains for effects, transforms, sound, captions and titles |
| `pieces`, `edl`, `graph`, `export`, `running`, `preview` | the ranges that are exported, the edit list, the ffmpeg graph of an export, its progress, and preview frames |
| `media`, `frames`, `wave`, `silence`, `denoise`, `stretch`, `tts` | media files, frames, sound, silences, noise, stretched sound and voices |

Numbers in double precision are held by their bits, and their arithmetic is
defined on integers: sums, products and quotients are rounded to nearest, ties
to even.

What is believed without proof is kept to wrappers around outside crates: the
drawing and the text of a ULID (`ident`), font queries and glyph widths
(`fonts`), and the xxh3 hash (`media`).
