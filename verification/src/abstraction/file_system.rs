//! The file system a replica program uses.
pub mod stub;

pub use crate::simulation::runtime::environment::file_system::memory::OpenMode;
