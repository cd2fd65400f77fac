# cargo-run-copy

`cargo run`, but the executable is copied to `target/run-copy/<hash>/` and the
copy is run, so that a running program never blocks the next build.

- `src/` is the verified library (Verus):
  - `cli.rs`: the command line (`run`, `build`, `run-from`, and the implicit
    `run`) as a specified parser, with its laws;
  - `paths.rs`: paths as component sequences; relative paths and the search for
    the `target` directory;
  - `hash.rs`: the BLAKE3 digest that names a copy;
  - `cargo_build.rs`: what cargo's JSON messages and exit status come to, and
    where the copy goes;
  - `exe_path_file.rs`: the file that records the copied executable's path.
- `app/main.rs` runs cargo, reads and writes files, starts the copied program,
  and prints clap's help and error messages.
- `tests/` exercises the library on concrete values.
