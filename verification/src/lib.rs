//! Reactive composition core of a user-interface toolkit.
//!
//! A tree of fragments driven by observable state is turned into one flat
//! buffer of drawable primitives. Each fragment owns a contiguous index range
//! of that buffer; when its state changes, only that range is rewritten.
//! Container fragments divide the space they are given among their children
//! by weight and minimum size.
//!
//! - [`reactive`]: cells of state, the signals derived from them, and the
//!   waves in which a change reaches what depends on it.
//! - [`splice`]: the flat buffer, the range table, and the splices that
//!   rewrite one fragment's range.
//! - [`ui`]: primitives, fragment trees, geometry, and the weighted division
//!   of space.
//! - [`renderer`]: what is handed to the renderer after a change.
//! - [`app`]: what an application is set up with, and what it does on the
//!   events of its window.
//!
//! Every function of this crate is verified against the contract it
//! carries, with one exception: the contract of `index_bytes` in
//! [`renderer`], which hands the indices of a mesh to `bytemuck` to be read
//! as bytes, is taken on trust from that crate and not proved here.
//! Opening a window and talking to the graphics device are left to the
//! program that uses the crate.

pub mod app;
pub mod reactive;
pub mod renderer;
pub mod splice;
pub mod ui;
