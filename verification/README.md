# ros2_message_gen

A generator of Rust crates from ROS 2 `.msg` / `.srv` definitions, and the CDR wire format
that ROS 2 messages travel in, with their behaviour stated as Verus contracts and proved.

## Layout

- `src/` — the verified library.
  - `wire`, `encoding`: byte order, fixed-width integers on the wire, the encapsulation header.
  - `decoder`, `encoder`: reading and writing CDR values, aligned relative to the payload.
  - `codec`: the `DecodeCdr` / `EncodeCdr` traits, sequences, arrays and whole messages.
  - `primitive`: sequences and arrays of fixed-width numbers read and written in one piece.
  - `utf16`, `unicode`, `arrays`, `text`: the text handling that the rest builds on.
  - `laws`: what a read gives back of a write, for every kind of value, and how the
    specialized sequence and array readers and writers agree with the generic ones.
  - `parser`: `.msg` / `.srv` definitions and the Rust types of their fields.
  - `render`, `generator`, `layout`, `runtime`: the source text of the generated structs and
    their `DecodeCdr` impls, the package manifests, the shared `cdr-runtime` and
    `ros2-dispatch` crates, and the files of each generated crate.
  - `workspace`: adding the generated crates to a Cargo workspace's `members`.
- `app/` — the command-line tool: walking interface trees, reading and writing files,
  environment variables, floating-point reads and writes, and a registry of serde-based
  message parsers.
- `tests/` — tests of the library.
