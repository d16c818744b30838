pub mod address;
pub mod executor;
pub mod laws;
pub mod node;
pub mod protocol;
pub mod text;
pub mod tunnel;
