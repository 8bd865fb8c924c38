pub mod dump;
pub mod resolve;
pub mod tree;
