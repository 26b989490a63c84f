# mustache_processor

A Mustache template engine (variables, sections, inverted sections,
partials, comments, delimiter changes, strict mode) whose parser and
renderer are verified with Verus, and the `mustache` command built on it.

Layout:

- `src/` — the verified library.
  - `parser.rs`: the template grammar as a spec function (`spec_parse`) and
    the parser proved to compute it, standalone-line trimming (whole-line, `\n` or
    `\r\n` line ends) and delimiter changes included.
  - `renderer.rs`: rendering as a spec function over the node tree, the
    context stack and a sequence of replies for the partials, which also
    gives the partial names asked for; the renderer proved against it, with
    every reply it used an answer the resolver's `answers` allows for the
    name it asked; and the laws of rendering (escaping, section/inverted-
    section complement, bounded partial recursion, strict mode only adding
    errors).
  - `value.rs`: the data model (`Value`, insertion-ordered `ValueMap`).
  - `error.rs`, `ast.rs`, `partial.rs`, `text.rs`: errors and their texts,
    the node tree, the resolver trait, character helpers.
  - `cli.rs`: the command line's checks, data format detection, and joining
    several rendered templates.
  - `lib.rs`: the `Mustache` engine and `Template`.
- `tests/` — tests run against the compiled library.
- `app/` — the command: argument parsing with clap, reading and writing
  files, JSON/YAML loading with serde, and partials read from a directory.
