# corodaw

The core of a small digital audio workstation, written in Verus: the
functions under `src/` carry contracts that Verus proves, except the few
small wrappers marked `#[verifier::external_body]` that call the outside
crates (`fixedbitset`, `uuid`, `base64`, `wmidi`); their contracts are
trusted, and their doc comments say what they claim of the call.

- `src/` is the library: the audio graph (node wiring, which nodes a run
  needs and the order they run in, the copy of the output into the device
  buffer, the meter values handed to the user interface), the engine's
  index-numbered graph, and the project model (channels, their order, the
  undoable edits and the undo stacks, project files, and how a channel strip
  is wired into the graph).
- `tests/` runs the library on concrete inputs.
- `app/` is the ordinary Rust around it: channels and locks between threads,
  the floating-point processing of the nodes, project files on disk, plugin
  discovery and the MIDI input queue.

Verify with `verus src/lib.rs` (with the outside crates of `Cargo.toml`).
