pub mod base64_codec;
pub mod byte_order;
pub mod export_import;
pub mod sync;
pub mod tree;

pub use export_import::{is_blank_line, ImportError, KvRecord, IMPORT_BATCH_SIZE};
pub use sync::queue::Queue;
pub use sync::stack::Stack;
pub use tree::{Batch, Tree};
