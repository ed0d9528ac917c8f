# tail_maker

Tools for osu!mania skins: a renderer and parser for hold-note tail images,
repair of tails and key images in existing skins, skin.ini parsing and editing,
throw-length measurement and modification, and the planning behind the skin
toolbox (which images to copy, scale or replace).

Layout:

- `src/` is the library, written in Verus. Every function there carries a
  `requires`/`ensures` contract over a mathematical model of its data
  (images as `Seq<Seq<Pixel>>`, text as `Seq<char>`, skin.ini sections as
  sequences of records), and the properties that relate several functions are
  stated and proved as public proof functions named `lemma_*`.
  Calls into the `image` and `base64` crates and into `std::path` stand behind
  small trusted wrappers whose doc comments say what is assumed of them.
- `tests/` runs the library on concrete inputs.
- `app/` is the unverified shell: file and archive I/O, the event log, the
  tiny-skia renderer, contour-based cap-shape detection (floating point), and
  the command layer that hands plain values to the library and writes back
  what it returns.
