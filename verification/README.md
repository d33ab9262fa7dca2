# hardy-ltp

A Licklider Transmission Protocol engine in Rust, verified with Verus, and the
`bp` command line tools around a Bundle Protocol node.

- `src/` is the verified library: the wire format (`sdnv`, `segment`), the state
  machines of a sender and of a receiver (`session`), and the decisions of the
  tools (`tools`). Every function states what it returns in its `ensures`; what
  holds of the library as a whole is stated as public proof functions, most of
  them in `session/import_laws.rs` and `session/export_laws.rs`.
- `app/` is the `bp` program: arguments, files, signals and the connection to a
  node. It carries out the actions that the library decides on.
- `tests/` runs the library.

## What is taken on trust

The byte buffers of the `bytes` crate (`src/buffer.rs`), `Duration::from_secs`
(`src/clock.rs`) and the random numbers of the `rand` crate
(`src/tools/node.rs`). Each of these items says what it claims of the outside
function.

## How the sessions are specified

A session has a model, a plain value (`ImportModel`, `ExportModel`), and each
event has a spec function from model to model and list of actions. A method of
the session takes its model to the model that the spec function gives, and
returns the actions that it gives. The laws are proved over these functions:
for instance that a receiver delivers the sender's block once all segments have
arrived, in whatever order and however often, and that a retransmission sends
exactly the bytes that are missing.
