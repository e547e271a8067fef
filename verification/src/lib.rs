//! Low-polygon approximation of raster images on the pixel lattice.
//!
//! A picture is covered by a mesh of triangles whose vertices evolve over
//! generations, so that every triangle comes to span pixels of nearly one
//! colour. A generation lets every vertex try new positions round by round,
//! makes a Delaunay triangulation of each round, scores the faces by the
//! pixels that they cover, hands the scores to the vertices, merges what
//! was to the good, and chooses the points of the fittest faces as the seed
//! of the next generation.
//!
//! All quantities are whole numbers, which keeps every rule exact and open
//! to proof: coordinates are positions on the pixel lattice, colours are
//! 8-bit channels, and fitness is a fixed-point number in units of
//! `pixel_group::FITNESS_ONE`. Steps for the vertices are handed in from
//! outside, where they are drawn from a normal distribution.
//!
//! - `point`, `triangle`: positions, moves inside the picture, the
//!   containment test and the walk over the lattice points of a triangle.
//! - `pixel_group`: colour bins and the fitness of a face.
//! - `img`, `cache`: the picture, and what was worked out for triangles
//!   before.
//! - `member`, `face`: the vertices with their rounds, the faces, and the
//!   search for the face of a pixel.
//! - `triangulation`, `selection`, `generation`, `grid`: the mesh of a
//!   round, the choice of the best points, the rounds of a generation, the
//!   painted picture, and the grid that a search starts from.
//! - `config`: the tunable numbers.
//!
//! The crate also carries a few small, self-contained pieces: a doubly
//! linked list (`dll`), a list of pairs (`cons`), and a company roster, a
//! pig latin and a summary of numbers (`collections`).

pub mod cache;
pub mod collections;
pub mod config;
pub mod cons;
pub mod dll;
pub mod face;
pub mod generation;
pub mod grid;
pub mod img;
pub mod member;
pub mod pixel_group;
pub mod point;
pub mod selection;
pub mod triangle;
pub mod triangulation;
