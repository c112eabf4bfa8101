//! Reactive event wiring: a source fires a value, and every callback that was
//! registered on it receives a clone, in registration order.
//!
//! Callbacks act on a world that the caller hands to `fire`, so that what a
//! dispatch did can be stated and proved. Steps are chained into one step,
//! a chain is closed by a callback, and a node of an arena lends its object to
//! one bound method at a time: a dispatch that would lend an object twice is
//! not admitted, and an attempt at it from code that nothing holds to the
//! contracts ends in a fault.

pub mod akkumulator;
pub mod event_sink;
pub mod event_source;
pub mod fault;
pub mod node;

pub use akkumulator::{Accumulate, Akkumulator};
pub use event_sink::{chain, connect, feed, lift, Callback, Chain, Either, Feed, Lift, Step, Then};
pub use event_source::EventSource;
pub use fault::Fault;
pub use node::{update, Arena, Bound, Method, Node, Slots, Update};
