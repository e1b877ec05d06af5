//! A decoder for compiled class files: the binary container that holds one
//! class of a managed runtime, with its constant pool, interfaces, fields,
//! methods and attributes.
//!
//! Decoding is a single forward pass over an immutable byte buffer. Every
//! decoder takes the buffer and an offset and gives back the decoded value
//! with the offset behind it, or an error that names what went wrong and
//! where. Each decoder is specified by a function on byte sequences and
//! proved to compute it.
//!
//! The modules `reader`, `constant`, `pool`, `attribute`, `member` and
//! `class` hold the decoders, leaf first, each with its specification;
//! `list` holds what the pool and the lists share. `encode` says how a
//! class is written, `round_trip` proves that decoding is the inverse of
//! writing, and `locality` that a decoder looks only at the bytes it
//! consumes.

pub mod attribute;
pub mod class;
pub mod constant;
pub mod encode;
pub mod error;
pub mod flags;
pub mod list;
pub mod locality;
pub mod member;
pub mod pool;
pub mod reader;
pub mod round_trip;

pub use attribute::{consume_attribute, consume_attributes, Attribute};
pub use class::{parse, Class, MAGIC};
pub use constant::{Const, ConstType};
pub use error::{DecodeError, ErrorKind};
pub use flags::AccessFlag;
pub use member::{
    consume_field, consume_fields, consume_interfaces, consume_method, consume_methods, Field,
    Interface, Method,
};
pub use pool::{consume_constant_pool, consume_entry, PoolError};
pub use reader::{consume_u16, consume_u32, consume_u64, consume_u8};
