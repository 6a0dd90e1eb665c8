//! RustCast: stream audio from sources (FIFOs, Spotify Connect, the system's own
//! audio) over multicast UDP to any number of synchronized clients, with zero..many
//! servers.
//!
//! - A server reads its sources and multicasts each on its own group; it announces
//!   its catalog, answers time-sync and serves the web UI.
//! - A client discovers sources from the catalog, plays the one selected for it
//!   from the UI, aligned to each packet's play-at timestamp so all clients stay in
//!   sync, and reports its telemetry to every server.
//!
//! What is decided here is proved; sockets, threads, files and the sound card are
//! the caller's. Times that a clock would give are arguments.
pub mod api;
pub mod assoc;
pub mod catalog;
pub mod client;
pub mod clients;
pub mod config;
pub mod delaytest;
pub mod events;
pub mod groups;
pub mod lists;
pub mod metrics;
pub mod order;
pub mod pcm;
pub mod player;
pub mod reconcile;
pub mod source;
pub mod stream;
pub mod supervisor;
pub mod sync;
pub mod text;
pub mod units;
pub mod wire;
