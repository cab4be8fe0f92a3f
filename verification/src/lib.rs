//! A small terminal-roguelike core: a grid of cells, procedurally generated
//! rooms connected by straight corridors, and entities that move across the
//! passable cells. Rendering and input belong to the surrounding program; this
//! crate holds the data model and the generator, with their contracts.

pub mod cell;
pub mod entity;
pub mod map;
pub mod order;
pub mod rng;
pub mod room;
