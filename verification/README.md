# shp_editor

An editor for SHP sprites (palette-indexed animation frames), with its file
format, drawing tools, palettes, undo history and preview playback written
and proved in Verus.

- `src/` is the verified library:
  - `shp_format` states the SHP layout as mathematics (`spec_load`,
    `spec_save`); `shp_decode` and `shp` decode and encode it;
    `shp_roundtrip` proves that loading a saved sprite gives it back.
  - `palette` (the `.pal` format), `palette_groups` (bundled palettes by
    folder), `color_match` (nearest palette colour).
  - `draw`, `line`, `shapes`, `fill`: pixels, Bresenham lines, rectangles,
    midpoint circles, discs and flood fill on one frame.
  - `paste`, `rgba`, `render`: RGBA pictures into and out of frames.
  - `history` (undo and redo of one frame), `preview` (playback timing),
    `tool` (the tools, and what a pointer stroke draws), `image_io` (which
    decoder a picture file needs), `picture`
    (decoding PNG, JPEG and GIF bytes into RGBA frames).
- `tests/` runs the library on concrete values.
- `app/` is the window (eframe/egui), file dialogs, file reading and
  writing, PNG export and the floating-point parts of the interface.
