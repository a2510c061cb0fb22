//! A causal key-value engine: values are written under causal contexts,
//! concurrent writes are kept side by side until a later write covers them,
//! and contiguous key ranges can be listed page by page or watched for change.

pub mod batch;
pub mod causality;
pub mod drain;
pub mod encoding;
pub mod error;
pub mod item;
pub mod order;
pub mod paging;
pub mod poll;
pub mod range;
pub mod table;
pub mod watch;
pub mod wire;
