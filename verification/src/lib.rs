//! An embedded transactional database: compiled transaction programs, the
//! durable log that carries them, and the rules by which their results become
//! visible, are fed to consumers and are replayed.

pub mod bind;
pub mod bytes;
pub mod compiler;
pub mod database;
pub mod external;
pub mod limits;
pub mod storage;
pub mod text;
pub mod vm;
