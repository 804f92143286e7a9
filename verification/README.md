# metainjester

A local, single-user command that catalogues a directory tree into SQLite and
reports what changed on later runs. It observes metadata and content hashes; it
never copies, moves or edits a file.

    metainjester ingest <base-path>         scan, or continue a scan
    metainjester status                     what is known, read-only
    metainjester history prune [--apply]    bound the change history

## Layout

`src/` is the library, verified with Verus. It holds every decision; nothing in it
touches a file or a database.

| module     | what it decides                                                   |
|------------|-------------------------------------------------------------------|
| `config`   | merging configuration files, defaults, what is refused            |
| `walk`     | the traversal, as a dialogue with the filesystem                  |
| `tour`     | what a whole walk amounts to: it misses nothing, invents nothing  |
| `stage`    | hash reuse, files that change while read, batches, the space rule |
| `pipeline` | the hash workers and the writer, as dialogues                     |
| `promote`  | the new baseline and the change rows                              |
| `scan`     | starting, resuming and concluding a scan                          |
| `ledger`   | from the writer's batches to the files that are present           |
| `shift`    | what the workers and the writer amount to over a whole scan       |
| `rounds`   | whole scans: a rerun of an unchanged tree, a resumed scan         |
| `history`  | retention                                                         |
| `db`       | which database is used, and the single-writer guard               |
| `report`   | the command line and every line that is printed                   |
| `laws`     | what holds across scans                                           |
| `names`, `hash`, `rows`, `paths`, `text`, `error` | the pieces they are made of |

`app/` is the program around it: SQLite, threads, the filesystem, signals and
printing. `tests/` runs the library: whole scans of trees held in memory, and each
rule on concrete rows.
