pub mod client;
pub mod codec;
pub mod crypto;
