//! Streams world objects into a grid of cells and keeps the objects of each
//! cell as one record of a keyed record store.
//!
//! The store is an engine of its own, and this library never touches it.
//! Every operation on the store is a step machine: it hands out one
//! [`ctree::Call`] at a time and takes the store's [`ctree::Reply`] back, so
//! that the whole of the protocol (what is asked, in which order, and what
//! each answer leads to) is decided and verified here. Whoever drives a
//! machine performs the calls.
//!
//! - [`aw`]: objects, their cells, and the layout of their records.
//! - [`ctree`]: the calls and replies, and the insert that appends to what a
//!   key holds already.
//! - [`writer`]: gathers the objects of a cell into one write.
//! - [`loader`]: loads through the store's ordered fast path and defers what
//!   that refuses.
//! - [`model`]: what a store is taken to be, and what an insert achieves on
//!   every such store.
//! - [`session`]: what a loader achieves on every such store.
//! - [`propdump`]: the text format that objects arrive in.
//! - [`teleports`]: which objects a run takes in.
//! - [`scan`]: looking for a byte in a text.
pub mod aw;
pub mod ctree;
pub mod loader;
pub mod model;
pub mod propdump;
pub mod scan;
pub mod session;
pub mod teleports;
pub mod writer;
