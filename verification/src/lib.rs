//! ConiX symbolic core: the integer and combinatorial layer of a sequential
//! conic optimizer. Sparse patterns, fill-reducing orderings, symbolic LDL
//! analysis, cone bookkeeping and KKT assembly patterns live here, generic
//! over the scalar type that the numeric layer supplies.

pub mod status;
pub mod settings;
pub mod csc;
pub mod assembly;
pub mod perm;
pub mod amd;
pub mod ldl;
pub mod cones;
pub mod kkt;
pub mod workspace;
