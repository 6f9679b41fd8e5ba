# argon_refs

References between the instances of a Roblox tree mean nothing outside of the
session they were made in. This library keeps them as paths instead, so that
they survive on disk, and proves with [Verus](https://github.com/verus-lang/verus)
that a path leads back to the instance it was made for.

It also holds the filter that tells the file system events caused by our own
writes from the changes a user makes.

## Layout

- `src/ref_path.rs`, `src/text.rs`: paths and their textual form.
- `src/model.rs`, `src/lineage.rs`, `src/tree.rs`, `src/growth.rs`: trees.
- `src/locate.rs`, `src/laws.rs`: describing an instance and finding it again.
- `src/refs.rs`, `src/link_laws.rs`, `src/position.rs`: the references of whole
  trees and snapshots.
- `src/dom.rs`, `src/dom_paths.rs`, `src/dom_snapshot.rs`, `src/dom_laws.rs`: model
  files.
- `src/echo.rs`, `src/debouncer.rs`, `src/debouncer_laws.rs`: file system events.
- `src/property.rs`, `src/location.rs`, `src/dom.rs`, `src/path.rs`,
  `src/tree.rs`: also hold the trusted calls into other crates and into `std`.
- `app/`: the file watcher, the model file reader and the warnings, which are not
  verified.
