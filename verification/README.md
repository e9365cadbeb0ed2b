# Revela

Revela is a photo catalog and developer for film scans and RAW files. This
crate holds its engine and catalog rules as a library verified with Verus;
the desktop shell around it lives in `app/`.

## Layout

- `src/raster.rs` – the RGB image type and its pixel model.
- `src/geometry.rs` – quarter turns, mirrors, crops and EXIF-style
  orientation, with the laws that relate them.
- `src/pipeline.rs` – the exact parts of the develop pipeline: transposition,
  film-grain noise and the key of the cached pre-tone stage.
- `src/text.rs` – trimming, lower-casing, splitting, joining and replacing
  text, specified over `Seq<char>`.
- `src/decode.rs` – supported file extensions and EXIF date normalization.
- `src/thumbs.rs` – thumbnail content keys (FNV-1a) and file names.
- `src/cache.rs` – the bounded FIFO cache of decoded previews.
- `src/dups.rs` – difference hashes, Hamming distance and the union-find
  clustering of near-duplicate photos.
- `src/imaging.rs` – JPEG/PNG encoding, thumbnail hashing and preview
  `data:` URLs through the `image` and `base64` crates.
- `src/catalog.rs` – catalog records, rating/flag clamps and tag cleanup.
- `src/histogram.rs` – histogram sampling and counting.
- `src/commands.rs` – names typed by the user, export naming and
  duplicate summaries.
- `app/` – the Tauri commands, SQLite catalog, decoders and the
  floating-point image operations, calling into the library.
- `tests/` – executable tests of the library.
