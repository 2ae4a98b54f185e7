# wvi

A small modal text editor core, verified with Verus.

- `src/file_buffer.rs`: the text of a file as lines of characters; reading lines from
  bytes and writing them back as UTF-8 text, with the round trip proved.
- `src/input.rs`: a trie from key sequences to commands, and the parser that reads keys
  one at a time and runs the commands bound to them.
- `src/modes.rs` and `src/modes/`: cursor positions, cursor moves that keep the cursor
  inside the buffer, and the insert and normal modes.
- `src/buffer_map.rs`: file buffers by name.
- `src/commands.rs`: the editor's built-in commands.
- `app/`: the program around the library: keyboard events, files on disk, locks.

Keys are read as `u32` codes; the program maps keyboard key codes to them.
