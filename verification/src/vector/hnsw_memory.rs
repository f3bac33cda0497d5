//! The memory of a proximity graph.

use vstd::prelude::*;

use super::hnsw::{Hnsw, HnswView};
use crate::heap::{plus, room_of, sum_lists, times};

verus! {

/// The room of one row: for lists, and of each list for ids.
pub struct RowRoom {
    pub room: usize,
    pub lists: Vec<usize>,
}

/// The bytes of rows: of each its header and those of its lists, and the ids.
pub open spec fn rows_bytes(rows: Seq<RowRoom>, header: nat) -> nat
    decreases rows.len(),
{
    if rows.len() == 0 {
        0
    } else {
        rows_bytes(rows.drop_last(), header) + header + (rows.last().room as nat) * header
            + crate::heap::lists_bytes(rows.last().lists@, 0)
    }
}

/// Rooms that hold the rows of a graph.
pub open spec fn rows_fit(g: HnswView, rows: Seq<RowRoom>) -> bool {
    &&& rows.len() == g.levels.len()
    &&& forall|i: int|
        0 <= i < rows.len() ==> {
            &&& (#[trigger] rows[i]).room >= g.levels[i].len()
            &&& rows[i].lists@.len() == g.levels[i].len()
            &&& forall|j: int|
                0 <= j < rows[i].lists@.len() ==> (#[trigger] rows[i].lists@[j])
                    >= g.levels[i][j].len()
        }
}

/// The bytes of rows, by their room.
pub fn sum_rows(rows: &Vec<RowRoom>, header: usize) -> (r: usize)
    ensures
        r == crate::heap::capped(rows_bytes(rows@, header as nat)),
{
    let mut sum: usize = 0;
    let mut i: usize = 0;
    while i < rows.len()
        invariant
            i <= rows.len(),
            sum == crate::heap::capped(rows_bytes(rows@.take(i as int), header as nat)),
        decreases rows.len() - i,
    {
        assert(rows@.take(i + 1).drop_last() =~= rows@.take(i as int));
        let own = plus(header, times(rows[i].room, header));
        sum = plus(plus(sum, own), sum_lists(&rows[i].lists, 0));
        i = i + 1;
    }
    assert(rows@.take(i as int) =~= rows@);
    sum
}

impl Hnsw {
    /// The bytes that the graph takes up.
    pub fn heap_bytes(&self) -> (r: usize)
        ensures
            exists|rows: Seq<RowRoom>| #[trigger]
                rows_fit(self@, rows) && r == crate::heap::capped(
                    rows_bytes(rows, vstd::layout::size_of::<Vec<u32>>()),
                ),
    {
        let mut rows: Vec<RowRoom> = Vec::new();
        let mut i: usize = 0;
        while i < self.levels.len()
            invariant
                i <= self.levels.len(),
                rows@.len() == i,
                forall|k: int|
                    0 <= k < i ==> {
                        &&& (#[trigger] rows@[k]).room >= self.levels@[k]@.len()
                        &&& rows@[k].lists@.len() == self.levels@[k]@.len()
                        &&& forall|j: int|
                            0 <= j < rows@[k].lists@.len() ==> (#[trigger] rows@[k].lists@[j])
                                >= self.levels@[k]@[j]@.len()
                    },
            decreases self.levels.len() - i,
        {
            let row = &self.levels[i];
            let mut lists: Vec<usize> = Vec::new();
            let mut l: usize = 0;
            while l < row.len()
                invariant
                    l <= row.len(),
                    lists@.len() == l,
                    forall|j: int| 0 <= j < l ==> (#[trigger] lists@[j]) >= row@[j]@.len(),
                decreases row.len() - l,
            {
                lists.push(room_of(&row[l]));
                l = l + 1;
            }
            rows.push(RowRoom { room: room_of(row), lists });
            i = i + 1;
        }
        assert(rows_fit(self@, rows@));
        sum_rows(&rows, core::mem::size_of::<Vec<u32>>())
    }
}

} // verus!
