pub mod app_state;
pub mod depth_buffer;
pub mod stereogram;
pub mod tetris;
