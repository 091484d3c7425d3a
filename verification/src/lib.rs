pub mod hashing;
pub mod index;
pub mod laws;
pub mod map;
pub mod model;
pub mod store;

pub use map::{ArrowBytesViewMap, PayloadOps};
pub use model::{Batch, OutputType};
pub use store::FinishedArray;
