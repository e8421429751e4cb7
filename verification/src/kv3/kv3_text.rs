//! The KV3 text encoding.
use vstd::prelude::*;

pub mod serializer;

verus! {

/// The line break written between lines.
pub const NEW_LINE: &'static str = "\r\n";

}
