pub mod context;
pub mod laws;
pub mod model;
pub mod scheduler;
pub mod tcb;
