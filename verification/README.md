# redbook

A tagger for FLAC rips. It identifies each album against the Apple Music catalog
by the barcode of the disc and the ISRCs of its tracks, rewrites the tags from
what the catalog says, and files the result into the music library.

`src/` is the library: everything that is decided or computed, verified with
Verus. `app/` is the program around it, which walks directories, talks to the
network, asks and prints. `tests/` exercises the library from outside.

| Module | What it holds |
| --- | --- |
| `text`, `table`, `ranking` | Strings, maps by string, and stable sorting |
| `apple::catalog` | Albums and tracks, and how they are put together page by page |
| `apple::lookup` | Which albums songs are on, by ISRC, in batches and with a memory |
| `apple::exchange` | Requests, and what becomes of the answers to them |
| `apple::token` | The token that the catalog is asked with |
| `flac` | Tags of files, grouping files into albums, rewriting tags |
| `similarity`, `select`, `selection` | Which albums some files may be, and in what order |
| `pairing`, `tags`, `tagger` | Which track a file is, what is written into it, what changes |
| `library` | Where albums, tracks and covers go |
| `session` | The steps from the albums that were found to the files that are written |
| `ui` | What is shown |

What the library promises as a whole stands in public proof functions next to
the code they speak of: that no file is lost on the way into groups, that no
track goes to two files, that existing metadata is replaced, that a dry run
writes nothing, and so on.

Some functions rest on what other crates do: `metaflac` for the blocks of a file,
`base64` for the payload of a token, `sanitize-filename` for parts of paths, and
the Unicode tables of the standard library. Each such call stands in a small
function of its own, whose contract says what is taken for granted of it.
