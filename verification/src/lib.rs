//! A bounded buffer of fixed-shape sequence records over an ordered list
//! store: records are encoded to self-describing binary blobs, appended to
//! a named list, counted, and read back in contiguous ranges with a
//! parallel, order-preserving decode that drops undecodable blobs.

pub mod buffer;
pub mod codec;
pub mod data;
pub mod errors;
pub mod store;

pub use data::Column;
pub use data::Frame;
pub use data::Sequence;
pub use buffer::SeqBuffer;
pub use errors::BufferError;
