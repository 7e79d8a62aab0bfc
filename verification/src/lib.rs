//! Single-flight value initialization for a concurrent cache.
//!
//! When several requesters ask for the same not-yet-cached key at once,
//! exactly one of them runs the expensive initializing computation while the
//! others wait on a shared waiter cell and receive the same outcome. This
//! crate verifies the coordination protocol itself: the waiter map, the
//! per-(key, tag) waiter cells, the tagged type-erased error container with
//! its always-sound downcast, and the retry-on-panic bookkeeping. The
//! blocking lock primitives and panic supervision that drive the protocol
//! across real threads are outside collaborators of this core.

pub mod erased;
pub mod initializer;
pub mod protocol;

pub use erased::ErasedError;
pub use erased::OptionallyNone;
pub use erased::TypeTag;
