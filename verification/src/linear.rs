pub mod stack;
pub mod static_queue;
