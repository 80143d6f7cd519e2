//! A self-describing dynamic value, [`Obj`], with a canonical equality, order
//! and hash, and the protocols that build one from a stream of decode events
//! and replay one as such a stream.
//!
//! * [`model`] is the mathematics: the stored form of an object and the
//!   canonical value it denotes.
//! * [`order`] defines the total order on canonical values; [`compare`]
//!   computes it, and gives `==`, `<` and `cmp` on objects.
//! * [`mapping`] is the mapping that an object can hold.
//! * [`hash`] is the byte stream that an object feeds to a hasher.
//! * [`event`] and [`visitor`] are the build and emit protocols.
//! * [`text`] renders the objects that are a literal of their own.
//! * [`laws`] states what holds of all of these together, and [`stream`]
//!   holds the lemmas on decoding that the laws of the protocols rest on.
pub mod binary;
pub mod compare;
pub mod event;
pub mod hash;
pub mod laws;
pub mod mapping;
pub mod model;
pub mod order;
pub mod stream;
pub mod text;
pub mod value;
pub mod visitor;

pub use event::{DecodeError, Event};
pub use mapping::ObjMap;
pub use order::Rel;
pub use value::Obj;
pub use visitor::{select_variant, GenericVisitor};
