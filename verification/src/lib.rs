//! A singly linked list with stack semantics (push/pop at the front),
//! in-place reversal, parity-directed interleaving of two lists,
//! element-wise mapping, structural equality, textual rendering, and
//! consuming iteration.

pub mod laws;
pub mod list;
pub mod seq_facts;
