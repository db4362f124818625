# patch_diff

The computing core of a patch viewer: it takes the events of a parsed unified
diff and works out the old and the new text of every file that the patch
touches, and it decides what the view shows about itself (title, tab).

- `src/text.rs`: line counting, runs of line feeds, cutting off an e-mail
  signature below a patch, saturating offset arithmetic.
- `src/hunk.rs`: hunks and their edits; applying edits whose ranges are given
  against the unedited context.
- `src/pathmap.rs`: a map from paths to values kept in the byte order of the
  paths. It takes the place of a `BTreeMap` keyed by strings: vstd specifies
  `BTreeMap`, but with `String` keys its contracts rest on the order of
  `String`, which Verus cannot relate to the keys' contents, so nothing useful
  about lookups, replacement or iteration order could be proved through it. The
  sorted vector states that order (`key_lt`, the byte order of `str`) as its
  type invariant.
- `src/paths.rs`: the `/`-segments of a path, the components that
  `std::path` makes of a portable path, and the name a file is listed under.
- `src/patch.rs`: the diff events, the state they build, and the list of
  patched files.
- `src/view.rs`: the view's title, tab and the views it stands in for.
- `src/laws.rs`: properties across events and functions (UTF-8 is kept,
  edit ranges refer to the unedited text, renames move texts, ...).
- `app/`: the editor integration (buffers, diffs, panes, actions) around the
  library.
