//! Core of a deterministic machine emulator whose memory is committed to by a
//! binary keccak hash tree: paged memory with cached digests, merkle roots and
//! inclusion proofs, and a single-step state machine over that memory.

mod errors;
mod gindex;
mod keccak;
mod memory;
mod page;
mod state;
mod tree;
mod utils;

pub use errors::VmError;
pub use gindex::{
    depth_of, is_leaf, is_left_child, left_child, parent, path_to_root, right_child, sibling,
};
pub use keccak::{keccak_concat_hashes, keccak_of};
pub use memory::{
    compute_root_from_proof, fold_proof, lemma_proof_for_folds_to_root, lemma_proof_soundness,
    lemma_read_after_write, lemma_root_depends_only_on_contents, lemma_untouched_root,
    lemma_write_preserves_others, sibling_index, Address, Gindex, Memory, PageEntry, PageIndex,
};
pub use page::{CachedPage, Page};
pub use state::{
    commitment_spec, encode_state, lemma_commitment_deterministic, lemma_exited_is_terminal,
    step_apply, step_error, MachineState, MachineView,
};
pub use tree::{
    node_hash, splice_bytes, zero_hash, zero_memory, zero_page, ADDR_SPACE, CHUNK_SIZE,
    PAGE_CHUNKS, PAGE_COUNT, PAGE_DEPTH, PAGE_SIZE, TREE_DEPTH,
};
pub use utils::{concat_fixed, sign_extend, sign_extend_spec};
