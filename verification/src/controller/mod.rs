pub mod builder;
pub mod handle;
pub mod node_routes;
pub mod root;
