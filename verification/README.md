# host

The host side of a desktop shell whose surfaces are webviews: it boots a
workspace from a cascade of projects, tiles the window, serves each program's
modules over `ol://`, recycles webviews, carries the JSON protocol between
pages and the engine, and stands in for the engine with a fixture field.

`src/` is the library, written in Verus: every function has a contract over
sequences, sets and maps, and the laws that tie the operations together are
proof functions beside them.

- `text`, `json`, `url`, `order`, `search`: characters, JSON string literals,
  percent-encoding, sorting, first-match search.
- `protocol`: error codes and their wire names, response envelopes, the
  scripts that deliver answers and events into a page.
- `serve`: routing `ol://` requests, the shell page, module imports, MIME types;
  `crawl`: a program's module graph, each file compiled once; `transpile`: the
  transpiler's request and answer lines.
- `mounts`: the project cascade as a step-by-step walk, each step stated
  exactly; `boot`: which layer a program's surface goes to.
- `geometry`, `compose`, `field`, `tree`: the tile tree, its reading from the
  field (edges, the process a leaf displays, its program), the demo field.
- `stub`: the fixture field's reads and subscriptions; `settings`: settings
  grown to the defaults; `workspace`: what a launch creates; `bootstrap`: the
  first-party projects' seed declarations; `telemetry`: the events a finished
  open path becomes.
- `recycle`, `probe`, `timing`, `underlay`, `page`: the webview pool, the
  probe script and tally, open-path timings, the underlay's messages, the
  scripts installed on a page.

`app/` is the program around it: the window, the webviews, the event loop,
files and processes, floating-point layout, and the serde copies of the
library's types. `tests/` exercises the library.
