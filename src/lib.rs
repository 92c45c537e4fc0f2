pub mod grid;
pub mod mesh;
pub mod obj;
pub mod primitives;
pub mod rotation;

pub use grid::{
    classify_bounds, compare_range, format_path, generate_cell, generate_grid, twist_rotation,
    Bounds, BoundsClassification, CellID, Range, RangeComparison, Tileset,
};
pub use mesh::Mesh;
pub use obj::ParseError;
pub use primitives::{Face, Vertex};
pub use rotation::CubeRotation;
