//! A dynamic two-dimensional point index over dense, reusable-handle arenas,
//! with the plain data and rules that the game's other parts share.
//!
//! The index: [`packed`] holds the arenas and their handles, [`path`] the
//! halving of the domain, [`bucket`] and [`node`] the leaves and branches,
//! and [`tree`] the index itself; [`division`], [`contents`] and [`order`]
//! state what the index relies on. Around it: [`geometry`] and [`segment`],
//! [`manufacturing`], [`connector`], [`draw`], [`spawner`], [`games`] and
//! [`messages`].

pub mod bucket;
pub mod connector;
pub mod contents;
pub mod division;
pub mod draw;
pub mod error;
pub mod games;
pub mod geometry;
pub mod manufacturing;
pub mod messages;
pub mod node;
pub mod order;
pub mod packed;
pub mod path;
pub mod segment;
pub mod spawner;
pub mod tree;
