//! A dependency-ordered evaluation engine for graphs of blocks.
//!
//! Blocks have named input and output ports. Connections lead from outputs
//! to inputs, and a block is evaluated after the blocks that feed it. One
//! pass evaluates every block; a block that is fed a sequence of values runs
//! once for each value, and what its runs return is gathered for the blocks
//! behind it.
//!
//! - [`dependency_resolution`]: a graph of "depends on" edges and the order
//!   in which its nodes are evaluated.
//! - [`value`]: the values that flow between ports.
//! - [`id`], [`block`]: identities, ports and blocks.
//! - [`context`]: the blocks of one graph and the connections between them.
//! - [`evaluation`]: one pass over the blocks, step by step.
//! - [`wiring`]: why a block finds what it depends on.
//! - [`interaction`]: what the pointer does to blocks and connections.
//! - [`timeline`]: which graphs a frame evaluates, and what becomes of
//!   their errors.
//! - [`kinds`]: the blocks that move values without computing on them.
//! - [`text`]: the words in which errors and identities are shown.
//!
//! The blocks themselves run outside of this library, and so does everything
//! that draws on a screen, reads a pointer, or computes with floating point.

pub mod block;
pub mod context;
pub mod dependency_resolution;
pub mod evaluation;
pub mod id;
pub mod interaction;
pub mod kinds;
pub mod text;
pub mod timeline;
pub mod value;
pub mod wiring;
