pub mod bloomfilter;
pub mod codec;
pub mod skiplist;
pub mod sstable;
pub mod utils;
