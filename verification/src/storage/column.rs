//! How the points of a series are laid out within a segment.
use crate::storage::gorilla;
use vstd::prelude::*;

verus! {

pub fn encode(points: &[(i64, u64)]) -> (out: Vec<u8>)
    ensures
        out@ == gorilla::encoded(points@),
        gorilla::decoded(out@, points@.len()) == Some(points@),
{
    gorilla::encode(points)
}

pub fn decode(data: &[u8], count: usize) -> (out: Vec<(i64, u64)>)
    requires
        gorilla::decoded(data@, count as nat) is Some,
    ensures
        Some(out@) == gorilla::decoded(data@, count as nat),
{
    gorilla::decode(data, count)
}

} // verus!
