pub mod bits;
pub mod bitbuf;
pub mod node;
pub mod tree;
pub mod archive;
pub mod laws;
