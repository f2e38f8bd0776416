pub mod codec;
pub mod encoding;
pub mod media;
pub mod status;
pub mod store;
pub mod types;
