//! A clipboard helper's core: the secret record parsed from a password
//! store's text, the store's entry listing, the interactive pickers, and
//! the selection pipeline that ties them together.

pub mod parse;
pub mod pass;
pub mod pipeline;
pub mod secrets;
pub mod select;
pub mod show;

pub use secrets::Secrets;
