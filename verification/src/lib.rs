//! Order-faithful containers, sorting, random numbers and file-format logic
//! of the tiny3d point-cloud library, with their contracts.

pub mod gformat;
pub mod io;
pub mod orient;
pub mod stdhash;
pub mod ply;
pub mod ply_data;
pub mod random;
pub mod registration;
pub mod stdsort;
pub mod voxel;
