pub mod input;
pub mod rendering;
