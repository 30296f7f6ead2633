pub mod archive;
pub mod bitio;
pub mod code;
pub mod codec;
pub mod tree;

pub use archive::HuffmanArchive;
pub use code::{CodeTable, HuffmanCode};
pub use codec::HuffmanError;
pub use tree::{collect_nodes, join_nodes, HuffmanTreeNode};
