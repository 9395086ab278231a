//! Read path and on-disk building blocks of a log-structured merge-tree:
//! the sorted block and its codec, the sorted string table, the mem-table,
//! and the iterators that merge them into one sorted view.

pub mod block;
pub mod byte_buf;
pub mod error;
pub mod iterators;
pub mod key_order;
pub mod mem_table;
pub mod skip_map;
pub mod sorted_run;
pub mod table;
pub mod wire;
