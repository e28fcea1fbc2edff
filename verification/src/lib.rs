//! Rabin's information dispersal over GF(2^8).

pub mod dispersal;
pub mod error;
pub mod gf;
pub mod ida;
pub mod linalg;
pub mod matrix;
pub mod share;
pub mod vandermonde;

pub use crate::error::IdaError;
pub use crate::ida::RabinIDA;
pub use crate::share::RabinShare;
