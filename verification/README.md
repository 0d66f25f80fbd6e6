# grove

A file browser for a terminal pane: a directory tree on one side and, on the
other, a preview of whatever is selected (text, pictures, video frames, PDF
pages). Snippets of a file go to the clipboard as fenced blocks, and a small
command works out the next version from commit messages.

The logic is a library verified with Verus. Its functions take what was read and
give back what to do next; everything that touches a disk, a process, a socket or
the terminal is in the program around it.

## Layout

`src/` is the library.

| module | holds |
| --- | --- |
| `text`, `path`, `order`, `entry` | characters, paths, the order of a listing |
| `tree`, `rows` | the tree, what it needs read, the rows it shows |
| `rounding`, `planes`, `picture`, `media` | double arithmetic on integers, planes of a TIFF, pictures, thumbnails and captions |
| `line`, `theme`, `wrap`, `shift`, `doc` | styled text, wrapping, documents and selections |
| `armor`, `clipboard` | clipboard escape sequences and fenced blocks |
| `release`, `update` | versions from commit messages, deciding whether to update |
| `rect`, `json`, `graphics` | rectangles and the requests that place a picture |
| `pane`, `screen` | what every event does, and what is drawn |

`tests/` runs the library, and `app/` is the program.

## What is proved and what is believed

Each public function states what it returns or changes. What relates several of
them is a public `proof fn` whose name is the statement, such as
`the_cursor_stays_on_its_path` in `pane` or `wrapping_loses_nothing` in `wrap`.

Calls into `image`, `base64`, `ratatui`, `serde_json` and a few functions of the
standard library are believed to do what the contracts of their wrappers say.
The wrappers are marked `#[verifier::external_body]`, and each says in its doc
comment which function it calls and what it claims of it.

Decoding a picture is believed of builds without overflow checks, as a release is:
with them on, a file made for the purpose can make a decoder of `image` panic.
