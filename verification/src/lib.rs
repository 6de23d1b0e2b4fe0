pub mod buffer;
pub mod commands;
pub mod dispatch;
pub mod echo;
pub mod editor;
pub mod evaluator;
pub mod gap_buffer;
pub mod input;
pub mod isearch;
pub mod kill_ring;
pub mod lisp;
pub mod mouse;
pub mod scripts;
pub mod string_ops;
