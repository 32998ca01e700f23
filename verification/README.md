# textdb

Versioned text documents inside a database: content-defined chunks under a hash tree, edits that
touch only what they change, commits that rebase over concurrent writers, diffs and merges, and the
rules built on top of them — markdown structure, links, properties, search, accounts and shares.

The library is written in Verus. Each function states what it returns in its contract, and Verus
proves it.

| Path | What |
|---|---|
| `src/` | the library, verified |
| `src/md/` | markdown: sections, links, front matter, property queries, link resolution |
| `src/pg/` | the rules of the Postgres store, as functions of what the database answered |
| `tests/` | tests on concrete documents |
| `app/` | the statements the Postgres store runs, serialised forms, floating-point ranking |
| `extras/schema.sql` | the tables, views and functions those statements use |

## What is stated

- `tree`, `edit`: a document reads back as it was written, and its root depends on its text alone,
  however it came about (`law_history_independent`).
- `diff`, `myers`, `patch`, `unified`: what a diff says turns one text into the other, and a line
  diff is as short as any (`law_diff_is_shortest`).
- `commit`, `rebase`, `commute`: what each outcome of a commit holds, whoever else writes, when a
  commit is owed success, and that edits of different lines can be committed in either order
  (`law_commits_commute`).
- `access`, `projection`, `roundtrip`: an account sees its shares and nothing else, every path it
  sees names what it sees, and a document read in its paths and saved again is the document the
  store holds (`law_unproject_inverts`).
- `md`: the structure of a document given the events of its parser; word counts of sections compose
  (`law_section_words_compose`).
- `pg`: paths have one normal form, ranges hold exactly a subtree, batches are undone once.

A function whose name begins with `law_` is a theorem about the library. Its `requires` is all it
asks for.

## What is trusted

`blake3`, `pulldown-cmark`, `rand` and `serde_json` are called through small wrappers, and so are a
few functions of the standard library, most of which look Unicode tables up. Each wrapper says what
is claimed of the call.

What is proved of a function that takes a `Storage` or a `Lookup` holds for implementations that
meet the contracts of these traits. `MemStorage` and `FileList` are proved to. The storage and the
lookup in `app/`, which ask a database, are ordinary Rust that nothing checks against them.

Everything else is proved.
