pub mod error;
pub mod modules;
pub mod node;
pub mod overlay;
pub mod text;
pub mod visit;
pub mod walk;
