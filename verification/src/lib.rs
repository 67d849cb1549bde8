//! Procedural generation of a rectangular tile dungeon: a grid of wall and
//! floor tiles holding disjoint rectangular rooms, joined by L-shaped
//! corridors, together with the point at which the player starts.
//!
//! [`MapBuilder::new`] builds a map from the draws of a [`RandomSource`].
//! Its contract says what it asks of the source and what it builds from the
//! answers, over two models: [`placement`] says which rooms a sequence of
//! draws places, and [`corridors`] says in which order the rooms are linked
//! and which tiles the links cover. [`laws`] proves what follows for every
//! generated map: the rooms are apart, the floor is exactly the rooms and
//! the corridors, the start lies on floor, every room can be reached from
//! it, equal draws give equal maps, and so do equal seeds.
pub mod corridors;
pub mod geometry;
pub mod grid;
pub mod laws;
pub mod map_builder;
pub mod placement;
pub mod random;

pub use geometry::{Point, Rect};
pub use grid::{Grid, TileType};
pub use map_builder::{BuildError, MapBuilder, MapConfig};
pub use random::{RandomSource, ReplaySource, SeededSource};
