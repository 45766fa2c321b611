pub mod tree;
pub mod offset;
pub mod error;
pub mod composition;
pub mod mission;
pub mod addon;
pub mod settings;
