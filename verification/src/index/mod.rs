//! The index: what it holds, how it is stored, searched and built.

pub mod build;
pub mod distance;
pub mod early;
pub mod exact;
pub mod format;
pub mod hunt;
pub mod ivf;
pub mod model;
pub mod nearest;
pub mod offers;
pub mod reach;
pub mod reader;
pub mod repeat;
pub mod search;
pub mod shortlist;
pub mod stats;
pub mod tree;

pub use distance::{lower_bound_vec, partition_key};
pub use format::{
    pair_offset, Header, IndexError, BLOCK_BYTES, DEFAULT_LEAF_SIZE, DIM_PAIRS, HEADER_SIZE,
    IVF_VERSION, KD_PAIR_VERSION, LABEL_FRAUD, LABEL_LEGIT, MAGIC, MCC_TABLE_SIZE, NODE_SIZE,
    PART_SIZE, VERSION,
};
pub use model::LANES;
pub use reader::IndexReader;
