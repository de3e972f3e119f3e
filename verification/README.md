# lessi

A terminal pager that understands ANSI styling, OSC 8 hyperlinks and inline sixel and kitty
images. What it decides and computes is a library verified with Verus; the program around it talks
to the terminal, and works out in floating point which line a resize keeps in the middle
(`relative_center`).

- `src/` is the library. `document` turns text into lines and images, `ansi` parses the lines,
  `state`, `navigation` and `input` say what keys and the pointer do, `screen` and `render` say
  what is drawn, and `session` puts them together: it names the next action and takes the next
  event. The modules ending in `_laws` state how these functions relate to each other.
- `src/external.rs` holds what is taken on trust of the standard library and of the crates for
  base64, zlib, PNG and character widths.
- `app/` is the program `lessi`: arguments, files, the terminal.
- `tests/` runs the library on examples.
