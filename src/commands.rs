pub mod get;
pub mod list;
pub mod render;
pub mod tree;
pub mod walk;
