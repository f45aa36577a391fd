pub mod base;
pub mod btree;
pub mod catalog;
pub mod codec;
pub mod database;
pub mod encoding;
pub mod executor;
pub mod file;
pub mod io;
pub mod page;
pub mod storage;
pub mod tree;
pub mod types;

pub use base::{SegmentId, TuplePointer, BLOCKS_PER_UNCOMPRESSED_SEGMENT, BLOCK_SIZE};
pub use btree::{BTree, SplitResult};
pub use catalog::{compute_checksum, decode_catalog, encode_catalog, CatalogError, CatalogHeader, TableMetadata};
pub use database::{Database, DbError, MetadataManager};
pub use executor::{plan, ExecutorError, Executor, Plan, Reply, StatementShape};
pub use file::DatabaseFile;
pub use io::{aligned_size, check_alignment, AlignmentError, ALIGNMENT};
pub use page::{IndexEntry, IndexError, IndexPage, IndexPageHeader, INDEX_PAGE_SIZE, MAX_INDEX_ENTRIES};
pub use storage::{Block, Segment, SegmentHeader, StorageError};
pub use tree::InMemoryBTree;
pub use types::{Column, DataType, Row, Schema, Value};
