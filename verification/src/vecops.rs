//! Small vector utilities.

use vstd::prelude::*;

verus! {

/// Removes the element at `idx` without preserving order: the last element
/// moves into its place. Out-of-range indices are rejected.
pub fn delete_ith_from_vec<T>(val: &mut Vec<T>, idx: usize) -> (r: Result<(), String>)
    ensures
        r is Ok <==> idx < old(val).len(),
        idx < old(val).len() ==> final(val)@ == old(val)@.update(
            idx as int,
            old(val)@.last(),
        ).drop_last(),
        idx >= old(val).len() ==> final(val)@ == old(val)@,
{
    let val_len = val.len();
    if idx >= val_len {
        return Err(msg_out_of_range());
    }
    val.swap_remove(idx);
    Ok(())
}

/// The rejection message for an out-of-range index.
fn msg_out_of_range() -> (r: String)
    ensures
        r@ == "Given idx is out of range"@,
{
    let r = String::from_str("Given idx is out of range");
    r
}

} // verus!
