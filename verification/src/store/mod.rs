//! Storage of graphs.

pub mod adjacency;
pub mod bytes;
pub mod catalog_io;
pub mod cells;
pub mod chain;
pub mod compaction_laws;
pub mod disk;
pub mod disk_index;
pub mod dump;
pub mod float_bits;
pub mod graph_store;
pub mod index_key;
pub mod index_laws;
pub mod index_memory;
pub mod io;
pub mod json;
pub mod json_text;
pub mod key_map;
pub mod labels;
pub mod layout_laws;
pub mod lazy;
pub mod lazy_alike;
pub mod lazy_base;
pub mod lazy_index;
pub mod lazy_reads;
pub mod lazy_save;
pub mod lazy_writes;
pub mod names;
pub mod overlay;
pub mod overlay_index;
pub mod pager;
pub mod pager_file;
pub mod record;
pub mod save_all;
pub mod script_laws;
pub mod script_reader;
pub mod secondary_index;
pub mod secondary_index_io;
pub mod storage_laws;
pub mod string_table;
pub mod values;
pub mod writer;
