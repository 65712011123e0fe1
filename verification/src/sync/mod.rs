pub mod stack;
pub mod queue;
