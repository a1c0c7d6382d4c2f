# sidebar_swatches

Two parts of a terminal text editor, with their behaviour stated in contracts and proved by Verus:

- a file tree sidebar: which directories are expanded, which row is selected, what keys and clicks
  do, and what is drawn;
- document colors: how the colors that language servers find in a document are shown, kept in place
  while the document changes, and asked for again.

## Layout

- `src/` is the verified library. It does no input or output. An operation on the sidebar is given
  the directories that have been read so far (`Listing`); where it needs another one, it changes
  nothing and asks for it (`Step::Read`).
  - `path`, `path_map`, `order`, `text`, `style`, `geometry`, `key`: the values it works on.
  - `entry`, `listing`, `tree`, `sidebar`, `diagnostics`, `git`, `row`, `render`: the sidebar.
  - `colors`, `color_moves`, `color_requests`: document colors.
  - `tree_laws`, `sidebar_laws`, `color_laws`, `color_order_laws`, `color_map_laws`,
    `color_invariants`: what holds over several operations.
- `app/` connects the library to the Helix editor: it reads directories, draws on the screen, talks
  to language servers, and computes with floating point numbers.
- `tests/` runs the library on concrete values.

What is not proved is the behaviour of `unicode-width` and of two functions of the standard library;
`src/text.rs` says what is relied on.
