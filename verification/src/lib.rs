//! A small JSON-over-HTTP service core: a typed request pipeline, a static
//! router, and an in-memory mug store with collision-free id assignment.
//!
//! The crate verifies the service logic: the JSON wire format for the record
//! types, the CRUD semantics of the storage backends, the error taxonomy and
//! its status mapping, and the decode/handle/encode/error-map sequence that
//! every route shares. Process bootstrap and socket handling live outside the
//! library and drive it with plain values.

pub mod codec;
pub mod echo;
pub mod error;
pub mod message;
pub mod mugs;
pub mod route;
pub mod storage;
