# lumadisk

A disk space analyzer: it maps every file under a folder by size, type and
age, finds byte-for-byte duplicates, and lets the user clean up through the
system Trash.

- `src/` is the library, verified with Verus: the scan result and its
  duplicate groups (`model`), the duplicate search (`duplicates`, with
  BLAKE3 hashing in `digest`), what a scan gathers (`scan`), the file views' filters
  and summaries (`browse`), text formatting (`text`), where the treemap cuts
  (`treemap`), the application icon (`icon`) and sorting (`order`).
- `app/` is the desktop program around it: the egui window, walking the
  folder, reading files, the Trash, file dialogs and the treemap geometry.
- `tests/` exercises the library.
