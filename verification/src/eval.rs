//! The pure parts of the benchmark harness: the payload it writes and how it prints
//! optional numbers.
use vstd::prelude::*;

use crate::text::{decimal, decimal_string};

verus! {

/// Byte `index` of the benchmark payload.
pub open spec fn payload_byte(index: usize) -> u8 {
    (vstd::wrapping::usize_specs::wrapping_add(vstd::wrapping::usize_specs::wrapping_mul(index, 31), 17)
        % 251) as u8
}

/// A payload of `size` bytes that a read can be checked against.
pub fn deterministic_data(size: usize) -> (r: Vec<u8>)
    ensures
        r@.len() == size,
        forall|i: int| 0 <= i < size ==> r@[i] == payload_byte(i as usize),
{
    let mut r: Vec<u8> = Vec::new();
    for index in 0..size
        invariant
            r@.len() == index,
            forall|i: int| 0 <= i < index ==> r@[i] == payload_byte(i as usize),
    {
        let b = (index.wrapping_mul(31).wrapping_add(17) % 251) as u8;
        r.push(b);
    }
    r
}

/// A number as a CSV field: its decimal numeral, or empty where there is none.
pub fn optional(value: Option<usize>) -> (r: String)
    ensures
        r@ == match value {
            Some(v) => decimal(v as nat),
            None => Seq::<char>::empty(),
        },
{
    match value {
        Some(v) => decimal_string(v as u64),
        None => String::new(),
    }
}

} // verus!
