pub mod base_block;
pub mod disassember;
pub mod exploration;
pub mod image;
pub mod object;
pub mod parser;
pub mod segment;
pub mod text;
