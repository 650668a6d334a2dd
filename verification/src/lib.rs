pub mod error;
pub mod img;
pub mod policy;
pub mod filter;
pub mod compose;
pub mod codec;
pub mod pipeline;
