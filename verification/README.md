# sandbox_run

`sandbox-run CMD [ARG...]` runs a command under bubblewrap: the working directory is writable,
system paths are readable, and the environment is cut down to what the command needs. Called
through a symlink such as `python -> sandbox-run`, it runs the `python` found on `PATH` that is
not the link itself.

- `src/` is the library, verified with Verus. It decides; it touches nothing.
- `app/` is the program: it reads files and variables, probes paths, runs `getent`, `sh` and
  `bwrap`, and hands what it finds to the library.
- `tests/` runs the library on concrete values.

Settings, from the environment or from a `.env` file in the working directory:

- `BWRAP_ARGS`: further `bwrap` arguments, one per line, or separated by blanks on a single line.
- `SANDBOX_RO_BIND`: patterns of paths to bind for reading, separated likewise or by commas.
- `VERBOSE`: trace the `bwrap` call.
