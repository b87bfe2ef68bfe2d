# js_runtime

Support for running the scripts of a web page: finding the page's scripts in
document order, deciding how each is fetched and evaluated, rewriting module
sources so they run as classic scripts, scanning sources (static ES module
syntax, import specifiers, comments, TypeScript markers, Vite chunk tables),
the SSR data fallback for client-rendered pages, and the decisions of the event
loops that run after the scripts.

- `src/` is the library, verified with Verus. Every public function states its
  result in its contract; the laws of the library are public proof functions.
- `app/` is the code around it that drives a JavaScript engine (boa) and the
  network. It performs the steps that the library decides (which script to
  fetch and whether to run it, what to inject, when the event loops stop);
  what it chooses itself concerns I/O only: batching requests and giving up
  once the run's deadline has passed.
- `tests/` run the library on concrete pages, sources and URLs.
