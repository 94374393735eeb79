# eso_addons_core

The core of an addon manager for The Elder Scrolls Online, verified with Verus: which addons a
search or a list shows, what installing, removing, refreshing and importing do to the catalogue,
and how a downloaded archive is unpacked.

The core works on a catalogue held in memory. It notes every statement that changes the catalogue
in a journal, and lays each out as tables, columns and values. The program around it reads the
catalogue file, lets the core decide, and carries the journal, the downloads and the steps of
unpacking out.

## Layout

- `src/text.rs`: order of texts, numbers and numerals, search patterns, comma-separated lists
- `src/table.rs`: tables with a key, and tables that are sets of rows
- `src/entity/`: the rows of the tables, and how they are joined
- `src/database.rs`: the catalogue, and the statements that change it
- `src/statement.rs`: the statements as the catalogue file is asked to carry them out
- `src/stored.rs`: what the catalogue file holds, and what a statement does to it
- `src/archive.rs`: reading archives with the `zip` crate, and the steps of unpacking one
- `src/service/`: the service: questions, installing and removing, importing, refreshing, downloads
- `src/laws.rs`: what holds of the service as a whole
- `tests/`: examples, among them a comparison with a real SQLite file
- `app/`: the program around the core: SQLite through `sea-orm`, promises, the file system

What is taken on trust are four functions in `src/archive.rs` around the `zip` crate: they open an
archive, count its entries, try whether an entry opens without a password, and read an entry (its
name in three forms, and its contents).
