//! A typed arena: a bump allocator that stores values of one type in a list
//! of chunks and releases them all together when the arena goes away.
//!
//! Values are appended to the current chunk while it has room. When it is
//! full, a new chunk of at least twice the capacity becomes current and the
//! old one is retired unchanged, so a value never leaves the slot it was put in.

mod arena;
mod chunks;
mod iter;
mod pow2;

pub use arena::{
    first_capacity, grown_or_filled, initial_capacity, lemma_bulk_matches_single,
    lemma_capacity_floor, lemma_concat_push, lemma_concat_update_last, lemma_slots_kept_on_append,
    lemma_slots_kept_transitive, push_each, slots_kept, Arena, INITIAL_SIZE, MIN_CAPACITY,
};
pub use chunks::{concat_chunks, grown_capacity, growth_fits, offset};
pub use pow2::{lemma_next_pow2, lemma_next_pow2_bound, next_pow2, pow2};
pub use iter::IterMut;
