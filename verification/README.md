# dayu_disk_manager

The verified core of a disk manager for Windows. It frees space on the system
drive by moving large directories to a repository on another drive and leaving
directory junctions in their place.

- `src/mft`: repairing and parsing NTFS file records, and the index over all of them.
- `src/scanner`: from the index, or from directory listings, to the tree that is
  shown: directory graph, totals, annotations, pages.
- `src/safety.rs`: the checks before a migration.
- `src/migrator`: migration, restoration and the removal of links as state
  machines. A machine says what is to be done next; the caller does it and
  reports what became of it.
- `src/copy_tree.rs`, `src/file_ops.rs`: copying and comparing trees.
- `src/explore.rs`: what is known of a tree while it is explored, in any order.
  `src/scanner/walks.rs` and `src/fixed_tree.rs` draw on it for scans and copies.
- `src/journal.rs`, `src/history.rs`, `src/store.rs`, `src/atomic_write.rs`: what
  is remembered, and how it is written.
- `src/commands.rs`, `src/app_state.rs`: what the user's commands do to the state.
- `app`: the application around the library. It reads and writes files, talks to
  the operating system and shows the user interface.

What the library promises stands in the contracts of its functions, and, where
it concerns several of them, in the proof functions whose names start with
`law_`.
