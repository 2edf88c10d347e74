pub mod aabb;
pub mod bits;
pub mod dag;
pub mod encode;
pub mod graph;
pub mod grid;
pub mod octree;
pub mod shader;
pub mod voxel_data_structure;
