# dccmd-rs

The logic of a command line client for DRACOON that imports and exports room
structures, as a library that is verified with Verus.

- `src/` is the library. An import is read from JSON, or from a JSON template
  and a CSV file that fills it. It is checked for admins, room names and
  conflicting permissions, and for users and groups that have to exist. Then
  rooms are created, and the current user, who needs the right to manage them,
  gets back what the import says. An export collects rooms with their
  permissions and policies, and puts them into a tree by their paths.
- `app/` is the client around it: command line, DRACOON API, files, terminal.
- `tests/` are the tests of the library.

Each function of the library states in its contract what it returns, and the
functions named `law_..` state what holds of several functions together.
What the library relies on of other crates stands in `src/crates.rs`; of the
standard library, in `src/text.rs`.
