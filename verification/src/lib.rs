//! A doubly linked list driven by a movable cursor.
//!
//! Every structural operation — insert, remove, replace, split — happens at
//! the cursor's current position; only travelling to a distant position
//! walks the chain. Traversal that runs off either end reports a boundary
//! outcome instead of failing, and a non-owning [`Cursor`] can range over a
//! list without disturbing the list's own position.
//!
//! Nodes live in an arena owned by the list and designate their neighbours
//! through stable integer handles, so relinking a node never moves an
//! element, and tearing the list down is the arena's ordinary drop. Every
//! operation carries a contract over the list's abstract value — the
//! sequence of its elements and the cursor's index — and the laws relating
//! the operations are proved alongside them.

mod cursor;
mod laws;
mod list;

pub use cursor::Cursor;
pub use laws::drained_forward;
pub use laws::lemma_advance_retreat_round_trip;
pub use laws::lemma_drain_forward;
pub use laws::lemma_move_to_in_range;
pub use laws::lemma_push_next_from_empty;
pub use laws::lemma_push_prev_from_empty;
pub use laws::lemma_split_reconstruct;
pub use laws::pushed_next_all;
pub use laws::pushed_prev_all;
pub use list::spec_advance;
pub use list::spec_consume_backward;
pub use list::spec_consume_forward;
pub use list::spec_insert_next;
pub use list::spec_insert_prev;
pub use list::spec_move_by;
pub use list::spec_move_to;
pub use list::spec_push_next;
pub use list::spec_push_prev;
pub use list::spec_retreat;
pub use list::IterList;
pub use list::Node;
