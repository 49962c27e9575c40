//! Leader selection.

use vstd::prelude::*;
use crate::geometry::{byte_digital_root, digital_root};

verus! {

/// A node leads when the digital root of its id equals that of the current
/// state root.
pub fn is_leader(node_id: &[u8], current_state_root: &[u8; 32]) -> (r: bool)
    ensures
        r == (byte_digital_root(node_id@) == byte_digital_root(current_state_root@)),
{
    let node_root = digital_root(node_id);
    let state_root = digital_root(current_state_root.as_slice());
    node_root == state_root
}

} // verus!
