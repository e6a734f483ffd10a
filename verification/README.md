# gitlet

A small version-control system in the style of Git (`init`, `add`, `commit`,
`rm`, `log`, `global-log`, `find`, `status`, `checkout`, `branch`,
`rm-branch`, `reset`, `merge`), written in Verus.

The library in `src/` holds the whole of the commands' logic over an
in-memory model of a repository: the `.gitlet` store (commits, blobs,
branches, HEAD, the staging area) and the working directory's plain files.
Every command has a contract over `RepoView`, the repository taken as plain
values; it needs only what it reads of the store, and keeps the store's
well-formedness (`RepoView::valid`).

- `text`, `filemap`: ordered text comparison, trimming, and maps and sets
  keyed by name, kept sorted.
- `utils`, `codec`, `blob`, `commit`, `index`: SHA-1 ids, the `bincode`
  layout of stored objects, and the objects themselves.
- `repository`: the store, its validity, and the commands but `merge`.
- `merge`: split points, the per-file merge rule and the `merge` command.
- `command`: reading a command line and running it (`Repository::run`).
- `laws`: properties that span several commands, proved.

`app/` is the program around the library: it reads the store and the working
directory from disk, runs one command, prints its lines, and writes back what
changed. `tests/` exercises the library on concrete repositories.
