pub mod commands;
pub mod json;
pub mod mc;
pub mod text;
