//! A small embedded storage engine: fixed-size page records persisted in a
//! paged byte image, a bounded page cache with least-recently-used eviction,
//! and a B+ tree index for single-key insert and point search built on top
//! of the cache. A few carriers of the surrounding SQL layer — keyword
//! classification, a character cursor, and the plain statement types — ride
//! along; the SQL grammar itself stays outside the engine.

pub mod ast;
pub mod buffer_pool;
pub mod codec;
pub mod index;
pub mod lexer;
pub mod storage;
pub mod tokens;

pub use ast::{BinaryOperator, SortOrder, Table};
pub use index::{BPlusTree, ORDER};
pub use buffer_pool::BufferPool;
pub use lexer::Lexer;
pub use storage::{Error, Key, NodeType, PageData, StorageEngine, Value, PAGE_SIZE};
pub use tokens::{is_boolean, is_keyword};
