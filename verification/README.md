# protocol_viewer

A viewer for decoded electricity-metering protocol frames. The user types a
frame in hexadecimal; the decoded value tree is shown as a three-column tree
table (field name indented by depth, raw bytes in hexadecimal, readable value).

- `src/` is the verified library: reading typed hexadecimal text, hexadecimal
  and decimal rendering, flattening a value tree into table rows, the tree
  lines and tree items over those rows, item ids, text spans of bytes, and the
  state the viewer shows after each parse. Every function carries a contract
  that Verus proves, except one trusted wrapper around std's `String::push`
  whose contract (the character is appended) is taken from std's documentation.
- `app/` is the window around it (desktop and browser entry points, drawing,
  column resizing in pixels, and the call into the protocol decoder).
- `tests/` runs the library on concrete frames.
