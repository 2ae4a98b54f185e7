pub mod file_buffer;
pub mod input;
pub mod modes;
pub mod buffer_map;
pub mod commands;
