# ttb

A terminal viewer for TensorBoard scalar logs, whose logic is a verified
library.

`src/` is the library. It is written in Verus: every function in it is proved
to meet its contract, but for eight small wrappers around functions of ratatui
and the standard library, in `paint` and `text`. Their contracts are trusted,
and their doc comments say what they claim.

| Modules | What they hold |
| --- | --- |
| `wire`, `tfevents` | reading records and the scalars in them |
| `writer`, `roundtrip` | writing records, and that they are read back |
| `text`, `names`, `bits`, `numbers` | strings, sorted tables by name, doubles by their bits, numbers as text |
| `series`, `store`, `tailing`, `history` | points of a tag, runs and their files, and what holds while files are followed |
| `tags`, `tag_laws` | the tree of tags in the sidebar |
| `colors`, `plot`, `picture`, `columns` | hues and strokes, the braille canvas, pixel columns |
| `app`, `app_laws` | the state of the viewer and what keys do to it |
| `paint`, `layout`, `ui`, `charts`, `frame`, `frame_laws` | where everything is drawn |
| `cli`, `live`, `demo` | the command line, the two loops of the viewer, demo logs |

`app/` is the program around it: files, threads, the terminal, and all that is
computed in floating point. The library knows doubles only by their bits.

Proof functions whose names begin with `law_` state what holds of the library
as a whole.
