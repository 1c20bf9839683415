# todoscan

Scans source files for annotation tags (TODO, FIXME, HACK, XXX, BUG) and
reports them as text, JSON or CSV.

- `src/` is the verified library:
  - `config.rs`: command-line options, output formats, extension lists,
    the pattern text, and the checks that build a `Config`;
  - `matcher.rs`: compiled patterns (over the `regex` crate) and the first
    annotation on a line;
  - `scanner.rs`: the lines of a file, the binary-file sniff, the matches of
    one file with their context, and which files a scan reads;
  - `output.rs`: the highlighted text form, CSV fields and rows, and the
    printer that holds JSON/CSV output until the end;
  - `text.rs`: character-level helpers (decimal rendering, trimming).
- `app/` is the command: option parsing with clap, path resolution,
  directory walking (ignore / walkdir), reading files, colours and JSON.
- `tests/` exercises the library on concrete inputs.
