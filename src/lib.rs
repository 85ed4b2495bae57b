//! Trimming of adaptor contamination and of low-quality or ambiguous bases
//! from FASTQ read records, rewriting each record in place inside a
//! streaming buffer.
use vstd::prelude::*;
use vstd::string::to_string_from_display_ensures;

pub mod dispatch;
pub mod matcher;
pub mod record;
pub mod stream;
pub mod trim;
pub mod window;

verus! {

/// The text that `Display` gives for `e`.
pub fn stringify<T: std::fmt::Display>(e: T) -> (s: String)
    ensures
        to_string_from_display_ensures::<T>(&e, s),
{
    e.to_string()
}

} // verus!
