//! A doubly linked list kept as a ring of nodes around a permanent sentinel.
//!
//! The nodes live in an arena and name each other by slot number, so the
//! ring needs neither raw pointers nor shared ownership.  Values are pushed
//! and popped at both ends in constant time, and read front to back.
//!
//! * [`node`]: a node and its two links.
//! * [`ring`]: what it means for the nodes of an arena to form a ring, and
//!   what follows from it.
//! * [`release`]: what taking a node out of the arena does to a ring.
//! * [`model`]: each operation as a function on the sequence of values.
//! * [`list`]: the list and its operations.
//! * [`render`]: the text form of a list.
//! * [`laws`]: what runs of pushes and pops amount to.

pub mod laws;
pub mod list;
pub mod model;
pub mod node;
pub mod release;
pub mod render;
pub mod ring;

pub use list::LinkedList;
pub use node::Node;
