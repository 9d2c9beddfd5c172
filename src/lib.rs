pub mod calculator_ast;
pub mod lcd;
pub mod linked_stack;
pub mod thread_counting;
