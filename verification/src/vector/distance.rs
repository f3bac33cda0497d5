//! Distances that a caller's function answers: from a query to a row, or from
//! one row to another.

use vstd::prelude::*;

verus! {

/// The answer of a function for a row.
pub open spec fn answer<F: Fn(usize) -> u32>(f: F, row: usize) -> u32 {
    choose|d: u32| #[trigger] call_ensures(f, (row,), d)
}

/// The function can be asked for each of some rows, and always answers the same.
pub open spec fn answers<F: Fn(usize) -> u32>(f: F, count: int) -> bool {
    &&& forall|row: usize| row < count ==> #[trigger] call_requires(f, (row,))
    &&& forall|row: usize, d: u32|
        row < count && #[trigger] call_ensures(f, (row,), d) ==> d == answer(f, row)
}

/// The answers for all rows.
pub open spec fn table<F: Fn(usize) -> u32>(f: F, count: int) -> Seq<u32> {
    Seq::new(count as nat, |row: int| answer(f, row as usize))
}

/// Asks for a row.
pub(crate) fn ask<F: Fn(usize) -> u32>(f: &F, row: usize, Ghost(count): Ghost<int>) -> (d: u32)
    requires
        answers(*f, count),
        row < count,
    ensures
        d == table(*f, count)[row as int],
{
    f(row)
}

/// The answer of a function for two rows.
pub open spec fn between<G: Fn(usize, usize) -> u32>(g: G, a: usize, b: usize) -> u32 {
    choose|d: u32| #[trigger] call_ensures(g, (a, b), d)
}

/// The function can be asked for any two of some rows, and always answers the
/// same.
pub open spec fn answers_pairs<G: Fn(usize, usize) -> u32>(g: G, count: int) -> bool {
    &&& forall|a: usize, b: usize|
        a < count && b < count ==> #[trigger] call_requires(g, (a, b))
    &&& forall|a: usize, b: usize, d: u32|
        a < count && b < count && #[trigger] call_ensures(g, (a, b), d) ==> d == between(
            g,
            a,
            b,
        )
}

/// The distances between all rows.
pub open spec fn pairs<G: Fn(usize, usize) -> u32>(g: G, count: int) -> Seq<Seq<u32>> {
    Seq::new(count as nat, |a: int| Seq::new(count as nat, |b: int| between(g, a as usize, b as usize)))
}

/// Asks for two rows.
pub(crate) fn ask_pair<G: Fn(usize, usize) -> u32>(
    g: &G,
    a: usize,
    b: usize,
    Ghost(count): Ghost<int>,
) -> (d: u32)
    requires
        answers_pairs(*g, count),
        a < count,
        b < count,
    ensures
        d == pairs(*g, count)[a as int][b as int],
{
    g(a, b)
}

} // verus!
