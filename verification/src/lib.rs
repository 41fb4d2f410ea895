//! A terminal "framebuffer": a grid of renderable cells that is recomputed
//! every frame, filled chunk by chunk from a balanced work partition, and
//! emitted as UTF-8 text interleaved with ANSI truecolor escape sequences,
//! deduplicated against the last color written.

pub mod color;
pub mod iterators;
pub mod renderers;
pub mod term_framebuffer;
