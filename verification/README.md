# beaver

Rename subtitle files to match the video files beside them.

beaver scans a folder (and, when asked, its subfolders), pairs every subtitle
with a video in the same folder — by episode id such as `S02E01` or `2x01`
first, then by Ratcliff/Obershelp similarity of the cleaned-up names — and
proposes a new name for each subtitle. A terminal interface walks through the
four steps (folder, rules, preview, apply); the command line previews by
default and applies with `--apply`.

## Layout

- `src/` is the library, written in Verus: every function carries a contract
  and is proved against it, except the thin wrappers around `unicode-width`,
  `unicode-normalization` and a few `std` calls (paths, character classes,
  lowercasing), whose contracts are taken on trust and say only what those
  functions document.
  - `names` — tokens, normalised stems, episode ids, language tags;
  - `similarity` — the similarity score, kept as an exact fraction, and the
    cheap upper bound that prunes hopeless candidates;
  - `planning` — classifying files, choosing a video for each subtitle and a
    free target name for each rename, folder by folder;
  - `applying` — what is recorded before renaming, what counts as a change on
    disk, when a rename must be refused, and how a run is reported;
  - `listing`, `cli` — the plan as printed, and the command line's decisions;
  - `tui` — the wizard as a state machine, the path field, and text fitting;
  - `paths`, `text`, `ordering`, `counting`, `parallel`, `presentation` —
    shared helpers and wording.
- `app/` is the program around the library: argument parsing, reading folders,
  renaming files, drawing the terminal, and the worker threads.
- `tests/` exercises the library through its public interface.

The proofs state, among other things, that a match never crosses folders, that
a fuzzy match reaches the threshold and leads every other video by the margin,
that episode ids ignore the threshold, that the interface only ever scans in
strict mode and only renames the ticked entries after a confirmation, and that
the order in which folders and files are listed does not change the plan, and
that whether words are separated by dots, underscores or spaces does not change
a stem's comparable form.
