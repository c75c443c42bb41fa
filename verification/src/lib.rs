//! Verified core of a small static-site build tool.
//!
//! The library covers the build pipeline's logic: resolving per-locale
//! translation documents, composing pages into a shared layout through a
//! two-stage template render, planning the output tree, coordinating
//! rebuilds behind a debouncing state machine, and the live-reload
//! generation counter. Filesystem access, subprocess invocation and HTTP
//! serving live outside the library and hand it plain values.

pub mod coordinator;
pub mod errors;
pub mod pipeline;
pub mod render;
pub mod text;
pub mod translations;
pub mod websocket;
