pub mod dot_product;
pub mod generator;
pub mod tensor_structure;
pub mod types;

pub use crate::dot_product::ScalarFactor;
pub use crate::generator::{generate_tensor_structures, CatalogCounts, GenConfig};
pub use crate::tensor_structure::TensorStructure;
pub use crate::types::{LegIndex, PolarizationPattern, ScalarKind, Transversality};
