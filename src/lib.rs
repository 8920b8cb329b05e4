pub mod cells;
pub mod channel;
pub mod chunking;
pub mod codec;
pub mod loader;
pub mod resolver;
pub mod storage;
