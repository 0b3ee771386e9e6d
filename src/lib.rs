pub mod codec;
pub mod device;
pub mod engine;
pub mod laws;
pub mod scheduler;
pub mod transcript;
