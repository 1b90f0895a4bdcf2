//! Lookahead buffers over iterators.
//!
//! A [`Ribbon`] holds some of the items that an iterator has produced, so that a consumer can
//! look at the items that follow the one it is working on before it decides what to do with it.
//!
//! - [`Band`]: a ring buffer of fixed capacity `N`; growing past `N` drops the oldest item.
//! - [`Tape`]: an unbounded buffer backed by a `VecDeque`; it never drops an item by itself.
pub mod band;
mod feed;
mod ribbon;
pub mod tape;

pub use band::Band;
pub use tape::Tape;

pub use ribbon::{
    appended, at_of, back_of, copied, front_of, kept, lawful, lemma_full_evicts_oldest,
    lemma_kept_push, queued, Enroll, Ribbon,
};
