//! Keyboard mapping for the camera controls.

use vstd::prelude::*;

verus! {

/// Index of a camera key in `[←, →, ↑, ↓, A, D, W, S]`.
pub open spec fn spec_arrow_key_index(key: Seq<char>) -> Option<usize> {
    if key == "ArrowLeft"@ {
        Some(0)
    } else if key == "ArrowRight"@ {
        Some(1)
    } else if key == "ArrowUp"@ {
        Some(2)
    } else if key == "ArrowDown"@ {
        Some(3)
    } else if key == "a"@ || key == "A"@ {
        Some(4)
    } else if key == "d"@ || key == "D"@ {
        Some(5)
    } else if key == "w"@ || key == "W"@ {
        Some(6)
    } else if key == "s"@ || key == "S"@ {
        Some(7)
    } else {
        None
    }
}

fn same(a: &String, b: &str) -> (r: bool)
    ensures
        r == (a@ == b@),
{
    let b = b.to_owned();
    *a == b
}

/// Maps arrow keys / WASD to indices `[←, →, ↑, ↓, A, D, W, S]`.
pub fn arrow_key_index(key: &str) -> (r: Option<usize>)
    ensures
        r == spec_arrow_key_index(key@),
{
    let k = key.to_owned();
    if same(&k, "ArrowLeft") {
        Some(0)
    } else if same(&k, "ArrowRight") {
        Some(1)
    } else if same(&k, "ArrowUp") {
        Some(2)
    } else if same(&k, "ArrowDown") {
        Some(3)
    } else if same(&k, "a") || same(&k, "A") {
        Some(4)
    } else if same(&k, "d") || same(&k, "D") {
        Some(5)
    } else if same(&k, "w") || same(&k, "W") {
        Some(6)
    } else if same(&k, "s") || same(&k, "S") {
        Some(7)
    } else {
        None
    }
}

/// Records a key going down (`down`) or up in the held-key flags
/// `[←, →, ↑, ↓, A, D, W, S]`. A camera key sets or clears its flag and is
/// reported handled, so that the page does not act on it too; any other key
/// leaves the flags as they are.
pub fn record_key(keys: &mut [bool; 8], key: &str, down: bool) -> (handled: bool)
    ensures
        handled == spec_arrow_key_index(key@) is Some,
        match spec_arrow_key_index(key@) {
            Some(i) => final(keys)@ == old(keys)@.update(i as int, down),
            None => final(keys)@ == old(keys)@,
        },
{
    match arrow_key_index(key) {
        Some(i) => {
            keys[i] = down;
            true
        },
        None => false,
    }
}

} // verus!
