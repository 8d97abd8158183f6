//! A codec for a compact, self-describing binary serialization format.
//!
//! `value` holds the data model; `wire` the tags and the numeric forms;
//! `ser` the writer and the spec of every encoding; `de` the reader; `text`
//! and `float` the UTF-8 and floating-point bit work both sides share;
//! `adapter` the rules that map application data onto values; `laws` what
//! holds between writing and reading; `refs` the lookup of a registered
//! value by its index; `refcheck` what it means for every `Ref` of a tree
//! to point at a registered value.

use vstd::prelude::*;

pub mod error;
pub mod value;
pub mod wire;
pub mod ser;
pub mod text;
pub mod float;
pub mod de;
pub mod adapter;
pub mod laws;
pub mod refs;
pub mod refcheck;

verus! {

} // verus!
