//! Reed-Solomon coding of stripes.
pub mod block;
pub mod hitchhiker;
pub mod reed_solomon;
pub mod stripe;

pub use block::Block;
pub use hitchhiker::HitchhikerXor;
pub use reed_solomon::ReedSolomon;
pub use stripe::{PartialStripe, Stripe};
