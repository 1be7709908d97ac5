# nb_api

A typed, verified interface to the `nb` note-taking command line.

- `src/` is the library. It reads notes, tasks and bookmarks into documents
  that keep every byte, edits them under fingerprints and line references,
  plans transactions over the files of a notebook, keeps the `.index` files
  and their lock, and builds and reads the command lines of `nb` and `git`.
  Every function carries a contract that Verus proves. Public proof functions
  named `law_*` state what holds across functions, such as that parsing loses
  no byte, or what is read back of an entry that was written.
- `tests/` runs the library on concrete values.
- `app/` is the ordinary Rust around it: processes, files, environment, locks
  and the serialised forms. It performs the actions that the library decides
  on and hands back what came of them.
