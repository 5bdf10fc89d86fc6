pub mod cache;
pub mod chunker;
pub mod driver;
pub mod fingerprint;
pub mod translator;
pub mod walker;

pub use chunker::split_into_chunks;
