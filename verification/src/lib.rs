//! Verified core of a small digital audio workstation.
//!
//! - The audio graph: node descriptions and their wiring (`node`, `world`,
//!   and the port-indexed form in `desc`), the audio thread's copy of the
//!   graph (`worker`), which nodes a run needs and in which order they run
//!   (`topology`, over the bit sets of `bitset`), the meter values handed to
//!   the user interface (`state`), and the copy of the output into the device
//!   buffer (`output`).
//! - The engine's index-numbered graph, from its description on the main
//!   thread to the graph the audio thread runs (`engine_graph`).
//! - The project: channels and their order (`channel`, `order`, `project`),
//!   the undoable edits and the undo stacks (`edits`, `commands`), project
//!   files (`document`), and how a channel strip is wired into the graph
//!   (`mixer`, `channel_audio`).
//! - Small pieces around them: MIDI input and its timing (`midi_time`), the plugin host's
//!   instance table (`registry`) and the permutation of the noise shown by
//!   the meters demo (`perlin`).

pub mod bitset;
pub mod topology;
pub mod node;
pub mod world;
pub mod worker;
pub mod state;
pub mod engine_graph;
pub mod channel;
pub mod order;
pub mod project;
pub mod edits;
pub mod commands;
pub mod document;
pub mod output;
pub mod mixer;
pub mod perlin;
pub mod midi_time;
pub mod registry;
pub mod desc;
pub mod channel_audio;
