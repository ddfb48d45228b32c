//! Enumeration of the orthogonal group O(n, GF(2)) for even n: field
//! arithmetic, binary vectors and matrices, the odd-parity index, the group
//! order, Householder reflections and the indexed construction of group
//! elements, all verified.
pub mod algebra;
pub mod binary;
pub mod error;
pub mod field;
pub mod householder;
pub mod order;
pub mod orthogonal;
pub mod util;

pub use binary::{BinMatrix, Binary};
pub use error::OrthoError;
pub use field::GF2;
pub use householder::{householder, map_vector};
pub use order::group_order;
pub use orthogonal::{indexed_element, sample_element};
pub use util::{bit_iter, indexed_odd_bit_iter};
