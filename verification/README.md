# rtk

Filters that shorten the output of build and system tools to what matters.

- `src/` is the library. Every filter is a function from the output of a tool to
  the text that is shown of it, with a contract that says exactly what that text
  is, and with laws on what it keeps. Regular expressions come from the `regex`
  crate: what it answers has a name in the contracts (`src/pattern.rs`), and the
  logic around it stands in functions that take the answers as arguments.
  - `jvm/`: Ant, Gradle and Maven, and the passes that collapse repeated stack
    traces, noise frames and repeated lines.
  - `system/`: logs, files, `tree` and `wc`.
- `tests/` runs the library.
- `app/` is the command-line program: it starts the tools, reads files, and prints
  what the library returns.
