//! Positional insertion into a sequence: a value lands at the requested
//! index, or at the end when the index lies past the last element.

use vstd::prelude::*;

verus! {

/// Inserts `value` at `index`, shifting later elements back; an index at or
/// past the length appends instead.
pub fn insert_at<T>(list: &mut Vec<T>, index: usize, value: T)
    ensures
        ({
            let m = if index <= old(list)@.len() {
                index as int
            } else {
                old(list)@.len() as int
            };
            final(list)@ == old(list)@.insert(m, value)
        }),
{
    let len = list.len();
    if index >= len {
        list.push(value);
        proof {
            assert(old(list)@.insert(old(list)@.len() as int, value) =~= old(list)@.push(value));
            if index <= old(list)@.len() {
                assert(index == old(list)@.len());
            }
        }
    } else {
        list.insert(index, value);
    }
}

} // verus!
