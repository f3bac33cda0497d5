//! Incremental nearest-neighbour cursors.
//!
//! A cursor hands out the next nearest neighbour with no number fixed up
//! front: how deep a search must walk is known only once enough neighbours
//! satisfy the rest of the query.

use vstd::prelude::*;

use super::metric::is_less;
use super::ranking::rank_all;
use crate::model::value::Id;

verus! {

/// A resumable stream of neighbours, in approximately ascending distance.
pub trait NnCursor {
    /// What holds of the cursor between calls.
    spec fn wf(&self) -> bool;

    /// The neighbours still to come.
    spec fn rest(&self) -> Seq<(Id, u32)>;

    /// The number of candidates examined so far.
    spec fn examined(&self) -> u64;

    /// The next neighbour, if there is one.
    fn next(&mut self) -> (r: Option<(Id, u32)>)
        requires
            old(self).wf(),
        ensures
            final(self).wf(),
            match r {
                Some(e) => {
                    &&& old(self).rest().len() > 0
                    &&& e == old(self).rest()[0]
                    &&& final(self).rest() == old(self).rest().skip(1)
                },
                None => old(self).rest().len() == 0 && final(self).rest().len() == 0,
            },
    ;

    /// The number of candidates examined so far.
    fn expanded(&self) -> (r: u64)
        ensures
            r == self.examined(),
    ;
}

/// An exact cursor: all distances known, in order.
pub struct BruteForceCursor {
    pub sorted: Vec<(Id, u32)>,
    pub pos: usize,
    pub scanned: u64,
}

impl BruteForceCursor {
    /// A cursor over some neighbours, which it puts in order.
    pub fn from_unsorted(pairs: Vec<(Id, u32)>) -> (r: Self)
        ensures
            r.wf(),
            r.rest() == super::ranking::ranking(pairs@),
            r.sorted@ == super::ranking::ranking(pairs@),
            r.examined() == pairs@.len(),
    {
        let scanned = pairs.len() as u64;
        let sorted = rank_all(pairs);
        assert(sorted@.skip(0) =~= sorted@);
        BruteForceCursor { sorted, pos: 0, scanned }
    }

    /// A cursor over neighbours that are in order already.
    pub fn from_sorted(sorted: Vec<(Id, u32)>) -> (r: Self)
        ensures
            r.wf(),
            r.rest() == sorted@,
            r.sorted == sorted,
            r.examined() == sorted@.len(),
    {
        let scanned = sorted.len() as u64;
        assert(sorted@.skip(0) =~= sorted@);
        BruteForceCursor { sorted, pos: 0, scanned }
    }

    /// The number of neighbours, handed out or not.
    pub fn len(&self) -> (r: usize)
        ensures
            r == self.sorted@.len(),
    {
        self.sorted.len()
    }

    /// Whether there are none.
    pub fn is_empty(&self) -> (r: bool)
        ensures
            r == (self.sorted@.len() == 0),
    {
        self.sorted.len() == 0
    }
}

impl NnCursor for BruteForceCursor {
    open spec fn wf(&self) -> bool {
        self.pos <= self.sorted@.len()
    }

    open spec fn rest(&self) -> Seq<(Id, u32)> {
        self.sorted@.skip(self.pos as int)
    }

    open spec fn examined(&self) -> u64 {
        self.scanned
    }

    fn next(&mut self) -> (r: Option<(Id, u32)>)
        ensures
            final(self).sorted == old(self).sorted,
            final(self).examined() == old(self).examined(),
    {
        if self.pos < self.sorted.len() {
            let e = self.sorted[self.pos];
            let ghost before = self.rest();
            self.pos = self.pos + 1;
            assert(self.rest() =~= before.skip(1));
            Some(e)
        } else {
            None
        }
    }

    fn expanded(&self) -> (r: u64) {
        self.scanned
    }
}

/// A cursor without neighbours.
pub struct EmptyCursor;

impl NnCursor for EmptyCursor {
    open spec fn wf(&self) -> bool {
        true
    }

    open spec fn rest(&self) -> Seq<(Id, u32)> {
        Seq::empty()
    }

    open spec fn examined(&self) -> u64 {
        0
    }

    fn next(&mut self) -> (r: Option<(Id, u32)>) {
        None
    }

    fn expanded(&self) -> (r: u64) {
        0
    }
}

/// The number of neighbours that are nearer than the one before them.
pub open spec fn inversions_in(s: Seq<(Id, u32)>) -> nat
    decreases s.len(),
{
    if s.len() < 2 {
        0
    } else {
        inversions_in(s.drop_last()) + if super::metric::less(s.last().1, s[s.len() - 2].1) {
            1nat
        } else {
            0nat
        }
    }
}

proof fn inversions_bounded(s: Seq<(Id, u32)>)
    ensures
        inversions_in(s) <= s.len(),
    decreases s.len(),
{
    if s.len() >= 2 {
        inversions_bounded(s.drop_last());
    }
}

/// Neighbours in order have no inversion.
pub proof fn ordered_without_inversions(s: Seq<(Id, u32)>)
    requires
        super::ranking::ordered(s),
    ensures
        inversions_in(s) == 0,
    decreases s.len(),
{
    if s.len() >= 2 {
        let u = s.drop_last();
        assert forall|i: int, j: int| 0 <= i < j < u.len() implies !super::ranking::nearer(
            #[trigger] u[j],
            #[trigger] u[i],
        ) by {
            assert(!super::ranking::nearer(s[j], s[i]));
        }
        ordered_without_inversions(u);
        assert(!super::ranking::nearer(s[s.len() - 1], s[s.len() - 2]));
        super::metric::distances_in_order(s.last().1, s[s.len() - 2].1);
    }
}

/// A growing prefix of a cursor's neighbours. What was read once is read again
/// without driving the cursor.
pub struct NnStream<C> {
    pub cursor: C,
    pub prefix: Vec<(Id, u32)>,
    pub exhausted: bool,
    pub inversions: u64,
    /// The number of neighbours read.
    pub replays: u64,
    /// The number of neighbours taken from the cursor.
    pub extends: u64,
}

impl<C: NnCursor> NnStream<C> {
    /// The counters tell what they count, and an ended cursor stays ended.
    pub open spec fn wf(&self) -> bool {
        &&& self.cursor.wf()
        &&& self.extends == self.prefix@.len()
        &&& self.inversions == inversions_in(self.prefix@)
        &&& self.exhausted ==> self.cursor.rest().len() == 0
    }

    /// All neighbours, read or not.
    pub open spec fn all(&self) -> Seq<(Id, u32)> {
        self.prefix@ + self.cursor.rest()
    }

    /// A stream of which nothing was read.
    pub fn new(cursor: C) -> (r: Self)
        requires
            cursor.wf(),
        ensures
            r.wf(),
            r.all() == cursor.rest(),
            r.prefix@.len() == 0,
            r.replays == 0,
            r.cursor == cursor,
    {
        let r = NnStream {
            cursor,
            prefix: Vec::new(),
            exhausted: false,
            inversions: 0,
            replays: 0,
            extends: 0,
        };
        assert(r.all() =~= cursor.rest());
        r
    }

    /// The neighbour at a rank. The cursor is driven only past what was read
    /// before, and no rank ever changes its neighbour.
    pub fn at(&mut self, rank: usize) -> (r: Option<(Id, u32)>)
        requires
            old(self).wf(),
            old(self).replays < u64::MAX,
            rank < usize::MAX,
        ensures
            final(self).wf(),
            final(self).all() == old(self).all(),
            match r {
                Some(e) => rank < old(self).all().len() && e == old(self).all()[rank as int]
                    && final(self).replays == old(self).replays + 1,
                None => rank >= old(self).all().len() && final(self).replays == old(self).replays,
            },
            final(self).prefix@ == old(self).all().take(
                if rank < old(self).prefix@.len() {
                    old(self).prefix@.len() as int
                } else if rank < old(self).all().len() {
                    rank + 1
                } else {
                    old(self).all().len() as int
                },
            ),
    {
        let ghost all = self.all();
        assert(self.prefix@ =~= all.take(self.prefix@.len() as int));
        while self.prefix.len() <= rank && !self.exhausted
            invariant
                self.wf(),
                self.all() == all,
                all == old(self).all(),
                self.replays == old(self).replays,
                rank < usize::MAX,
                self.prefix@ == all.take(self.prefix@.len() as int),
                old(self).prefix@.len() <= self.prefix@.len() <= all.len(),
                self.prefix@.len() <= rank + 1 || self.prefix@.len() == old(self).prefix@.len(),
            decreases rank + 1 - self.prefix@.len(), (if self.exhausted {
                0int
            } else {
                1int
            }),
        {
            let ghost before = self.prefix@;
            let ghost rest = self.cursor.rest();
            match self.cursor.next() {
                Some(entry) => {
                    let n = self.prefix.len();
                    assert(n <= rank);
                    proof {
                        inversions_bounded(before);
                    }
                    let inverted = n > 0 && is_less(entry.1, self.prefix[n - 1].1);
                    if inverted {
                        self.inversions = self.inversions + 1;
                    }
                    self.prefix.push(entry);
                    self.extends = self.extends + 1;
                    proof {
                        assert(self.prefix@.drop_last() =~= before);
                        assert(self.all() =~= before + rest);
                        assert(self.prefix@ =~= all.take(self.prefix@.len() as int));
                    }
                },
                None => {
                    self.exhausted = true;
                    assert(self.all() =~= before + rest);
                },
            }
        }
        if rank < self.prefix.len() {
            self.replays = self.replays + 1;
            assert(self.all() =~= all);
            Some(self.prefix[rank])
        } else {
            assert(self.prefix@ =~= all);
            None
        }
    }

    /// How far the cursor has been driven.
    pub fn high_water(&self) -> (r: usize)
        ensures
            r == self.prefix@.len(),
    {
        self.prefix.len()
    }

    /// The number of neighbours so far that were nearer than the one before.
    pub fn inversions(&self) -> (r: u64)
        ensures
            r == self.inversions,
    {
        self.inversions
    }

    /// The number of candidates that the cursor examined.
    pub fn expanded(&self) -> (r: u64)
        ensures
            r == self.cursor.examined(),
    {
        self.cursor.expanded()
    }
}

} // verus!
