# snorm

A command line tool that normalizes Litematica schematics against a
preferred block palette: it rewrites blocks by category (all stairs become
your stair, all glazed terracotta your color, ...) while keeping every block
state property the target accepts.

The decisions are made in a library verified with Verus; the program around
it reads and writes files, talks to the network and to the terminal.

## Layout

- `src/` — the verified library:
  - `block`, `overrides`, `palette`: block ids, override specs and palette
    configurations, parsed with exact error reporting;
  - `category`: the layered category detection (tags, blocks report
    definition types, state signatures, names);
  - `plan`: the replacement decision of every palette entry and its
    application to a region, with the precedence laws (command line
    overrides, configuration overrides, protection, categories);
  - `schematic`: regions as a palette and a block grid, region renames;
  - `report`, `inspect`, `selection`: what normalization and inspection
    report, and the interactive solid selection;
  - `mcdata`, `tags`, `extract`, `jar`: the extracted game data cache,
    vanilla tag resolution, the server jar download checks and reading a
    jar's data archive (plain or bundler) and block tags with the `zip`
    crate;
  - `complete`, `commands`, `cli`, `errors`: completion, command line
    arguments and exit codes.
- `tests/` — tests of the library.
- `app/` — the program: argument parsing, files, the data cache, downloads,
  the data generator and the terminal.

## Verifying

The library verifies with Verus; the tests run with the outside crates
linked.
