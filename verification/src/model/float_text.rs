//! Floating-point numbers in print. A number is held by its bits; how it reads
//! is answered by a caller's function.

use vstd::prelude::*;

verus! {

/// What a function prints for each number.
pub open spec fn float_texts<F: Fn(u64) -> String>(show: F) -> spec_fn(u64) -> Seq<char> {
    |bits: u64| (choose|s: String| #[trigger] call_ensures(show, (bits,), s))@
}

/// The function can be asked for every number, and always prints the same.
pub open spec fn prints_floats<F: Fn(u64) -> String>(show: F) -> bool {
    &&& forall|bits: u64| #[trigger] call_requires(show, (bits,))
    &&& forall|bits: u64, s: String| #[trigger]
        call_ensures(show, (bits,), s) ==> s@ == float_texts(show)(bits)
}

/// The printed form of a number.
pub(crate) fn print_float<F: Fn(u64) -> String>(bits: u64, show: &F) -> (r: String)
    requires
        prints_floats(*show),
    ensures
        r@ == float_texts(*show)(bits),
{
    show(bits)
}

} // verus!
