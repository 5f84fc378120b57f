pub mod text;
pub mod error;
pub mod bitset;
pub mod interval;
pub mod regex;
pub mod template;
