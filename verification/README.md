# cursor-chat-cleanup

Analyses and cleans up the local chat store of Cursor (`state.vscdb`): a list of sessions by
size, selective deletion of sessions with all that belongs to them, and recovery of the space,
each operation previewed first and backed up before it deletes anything.

- `src/` is the library, verified with Verus. It decides and computes on plain values: which
  sessions are alive, which rows belong to whom, what a sweep, a deletion, a trim or a
  collection takes out and in which steps, what is left to restore, and what the screen shows
  and does. The doc comment of `src/lib.rs` lists the modules.
- `app/` is the program around it: the command line, the terminal, the databases and files.
  The protobuf message types that `app/proto.rs` reads are generated from their schema with
  `buffa-build` when the program is built.
- `tests/` holds the tests of the library.

A few calls go to other crates and to the standard library: JSON (`serde_json`), base64
(`base64`), hexadecimal digits (`faster-hex`), substring search (`memchr`), sizes for people
(`bytesize`), hashed collections (`rustc-hash`), and operations on strings. Each of them stands
behind one small function whose contract is stated and not proved; its doc comment names the
call.

Cursor is a trademark of Anysphere, Inc. This is an independent, unofficial tool. Quit Cursor
before you let it change anything.
