# tsbox

Packs arbitrary files into MPEG transport streams and extracts them again, and
takes ordinary transport streams apart into their elementary streams.

- `src/` is the library. Every function in it carries a contract that Verus
  proves. What the parts promise together is stated in the proof functions
  whose names begin with `law_`.
- `tests/` exercises the library from outside.
- `app/` is the command line program: arguments, files, threads and the call of
  `ffmpeg`. It does what the library decides.

Two outside functions are trusted: the SHA-256 of the `sha2` crate, of which
only that it is a function of its input is used, and `String::from_utf8`.

## Format

A packed file is a sequence of 188-byte packets: a program association table, a
program map table with one private stream, and the packets of that stream. The
stream holds a header (`TSBOX1\0`, version, length of the name, size, name), the
content, and a trailer (`TSBOXEND` and the SHA-256 of the content). Each of the
three begins a packet of its own, and so does every mebibyte of the content.
