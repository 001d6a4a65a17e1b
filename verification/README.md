# flash

Files photos and videos into a library of folders (`2026/avril/10 avril 1.jpg`),
numbered day by day in the order of their time, with duplicates recognised by a
fingerprint of their content and files without a reliable date sent to a triage
folder (`à vérifier/`).

- `src/` is the library, verified with Verus: where every file goes (`plan`),
  the duplicate search and the correction of dates (`dedup`), the numbering
  order (`order`), the naming rules (`naming`, `unique`, `place`, `triage`),
  the dates read in file names, Exif data and MP4 `mvhd` atoms (`namedate`,
  `exifdate`, `mp4date`, `timing`), the fingerprints (`fingerprint`), the index
  and its file (`library`, `indexfile`, `adopt`), carrying out a plan (`apply`),
  the shape of the paths that the format writes (`layout`), what becomes of each
  file of a batch (`accounted`), and what holds of every run (`laws`).
- `app/main.rs` is a command-line program that does the reading and writing:
  `main <source>... <destination> [--move] [--format <format.json>]`.
- `tests/` runs the library on concrete cases.
