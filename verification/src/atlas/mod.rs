pub mod maxrects;
pub mod types;
pub mod text;
pub mod pixels;
pub mod trim;
pub mod extrude;
pub mod packer;
pub mod compose;
pub mod prepare;
pub mod manifest;
pub mod scanner;
pub mod cli;
pub mod tree;
pub mod recent;
