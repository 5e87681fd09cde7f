//! Diffusion-tensor fields: the voxel grid, the decoding of raw sample words, the
//! header that describes a field, and the bookkeeping of the seed point search.

pub mod grid;

pub mod seeding;
pub mod decode;
pub mod options;
pub mod header;
