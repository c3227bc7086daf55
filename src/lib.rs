pub mod canon;
pub mod diagnostics;
pub mod engine;
pub mod laws;
pub mod order;
pub mod pipeline;
pub mod snapshot;
pub mod tables;
pub mod text;
