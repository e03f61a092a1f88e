//! A lazy cartesian-product combinator.
//!
//! Given a run-time list of input sequences, [`multi_cartesian_product`]
//! enumerates every tuple that picks one element from each input, one tuple
//! per request, in mixed-radix (odometer) order: the last input is the
//! fastest-varying position. The enumeration is fused: once it reports
//! exhaustion it stays exhausted.

pub mod model;
pub mod product;

pub use product::MultiProduct;
pub use product::MultiProductIter;
pub use product::multi_cartesian_product;
