pub mod codec;
pub mod keyset;
pub mod node;
pub mod order;
pub mod persistence;
pub mod primitive;
pub mod secondary;
pub mod table;
pub mod transaction;

pub use codec::IOError;
pub use keyset::KeySet;
pub use node::{IntermediateNode, LeafNode, Node, NodeError, RootNode};
pub use persistence::{dump, load};
pub use primitive::Primitive;
pub use secondary::{DefaultSecondaryIndex, SecondaryIndex, SecondaryIndexError};
pub use table::Table;
pub use transaction::{Request, Transaction, TransactionError, Write, WriteSecondary, WriteSet};
