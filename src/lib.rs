//! Permission-tagged resources and the assembly of a flat list of them into
//! a forest ordered by parent/child links.

pub mod error;
pub mod model;
pub mod layer;
pub mod rules;
pub mod laws;

pub use error::ResError;
pub use model::{ResEditDTO, ResPageDTO, SysRes, SysResVO};
pub use layer::SysResService;
