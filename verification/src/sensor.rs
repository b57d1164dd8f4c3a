use vstd::prelude::*;
use crate::naming::{push_zero_padded, zero_padded};

verus! {

/// Name of observatory `id`: `OBS_` and the identifier in decimal,
/// zero-padded to two digits.
pub open spec fn station_name_spec(id: nat) -> Seq<char> {
    "OBS_"@ + zero_padded(id, 2)
}

/// Name of observatory `id`.
pub fn station_name(id: u32) -> (name: String)
    ensures
        name@ == station_name_spec(id as nat),
{
    let mut name = String::from_str("OBS_");
    push_zero_padded(&mut name, id as u64, 2);
    name
}

} // verus!
