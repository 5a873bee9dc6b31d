pub mod order;
pub mod props;
pub mod record;
pub mod strings;
pub mod walk;

pub use record::{EntryMeta, FileInfo, FsEntry, FsTree};
pub use order::SortKey;
pub use walk::{explore_directory, parse_sort_key};
