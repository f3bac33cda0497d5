//! Memory that collections take up, counted by the room that they have. Sums
//! stop at the largest number.

use vstd::prelude::*;

verus! {

/// A number of bytes, or the largest where it is larger.
pub open spec fn capped(n: nat) -> nat {
    if n <= usize::MAX {
        n
    } else {
        usize::MAX as nat
    }
}

/// The elements that a vector has room for, by `Vec::capacity`. How many that
/// is rests with the allocator; it is never less than the length.
#[verifier::external_body]
pub(crate) fn room_of<T>(v: &Vec<T>) -> (r: usize)
    ensures
        r >= v@.len(),
{
    v.capacity()
}

/// The bytes that a text has room for, by `String::capacity`. How many that is
/// rests with the allocator; it is never less than the length in bytes, so never
/// less than the number of characters.
#[verifier::external_body]
pub(crate) fn text_room(s: &String) -> (r: usize)
    ensures
        r >= s@.len(),
{
    s.capacity()
}

pub(crate) fn plus(a: usize, b: usize) -> (r: usize)
    ensures
        r == capped((a + b) as nat),
{
    a.saturating_add(b)
}

pub(crate) fn times(a: usize, b: usize) -> (r: usize)
    ensures
        r == capped((a as nat) * (b as nat)),
{
    match a.checked_mul(b) {
        Some(r) => r,
        None => usize::MAX,
    }
}

/// The bytes of lists of ids, by the ids that each has room for: some for each
/// list, and four for each id.
pub open spec fn lists_bytes(rooms: Seq<usize>, each: nat) -> nat
    decreases rooms.len(),
{
    if rooms.len() == 0 {
        0
    } else {
        lists_bytes(rooms.drop_last(), each) + each + (rooms.last() as nat) * 4
    }
}

/// The bytes of lists of ids.
pub fn sum_lists(rooms: &Vec<usize>, each: usize) -> (r: usize)
    ensures
        r == capped(lists_bytes(rooms@, each as nat)),
{
    let mut sum: usize = 0;
    let mut i: usize = 0;
    while i < rooms.len()
        invariant
            i <= rooms.len(),
            sum == capped(lists_bytes(rooms@.take(i as int), each as nat)),
        decreases rooms.len() - i,
    {
        assert(rooms@.take(i + 1).drop_last() =~= rooms@.take(i as int));
        sum = plus(plus(sum, each), times(rooms[i], 4));
        i = i + 1;
    }
    assert(rooms@.take(i as int) =~= rooms@);
    sum
}

} // verus!
