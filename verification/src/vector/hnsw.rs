//! A proximity graph over the rows of a vector attribute: its layout, its
//! validity and its bytes.
//!
//! Neighbours are rows, not node ids, so that the graph can be validated and
//! walked without the database.

use vstd::prelude::*;

use super::byte_reader::{ByteReader, SidecarError};
use crate::store::bytes::push_u32;

verus! {

/// A proximity graph in layers. `levels[i][l]` lists the neighbours of row `i`
/// at layer `l`; every row belongs to layer 0.
#[derive(Debug, Clone, PartialEq, Eq)]
pub struct Hnsw {
    /// The number of neighbours that a row keeps above layer 0, at most.
    pub m: u32,
    /// The number of neighbours that a row keeps at layer 0, at most.
    pub m0: u32,
    /// The number of candidates that the construction kept.
    pub ef_construction: u32,
    /// The row where a walk starts, of the topmost layer.
    pub entry: u32,
    /// The neighbours by row and layer.
    pub levels: Vec<Vec<Vec<u32>>>,
}

/// What a proximity graph holds.
#[verifier::ext_equal]
pub struct HnswView {
    pub m: u32,
    pub m0: u32,
    pub ef_construction: u32,
    pub entry: u32,
    pub levels: Seq<Seq<Seq<u32>>>,
}

/// The lists of one row.
pub open spec fn lists_view(v: Seq<Vec<u32>>) -> Seq<Seq<u32>> {
    Seq::new(v.len(), |l: int| v[l]@)
}

/// The lists of all rows.
pub open spec fn levels_view(v: Seq<Vec<Vec<u32>>>) -> Seq<Seq<Seq<u32>>> {
    Seq::new(v.len(), |i: int| lists_view(v[i]@))
}

impl View for Hnsw {
    type V = HnswView;

    open spec fn view(&self) -> HnswView {
        HnswView {
            m: self.m,
            m0: self.m0,
            ef_construction: self.ef_construction,
            entry: self.entry,
            levels: levels_view(self.levels@),
        }
    }
}

/// The neighbours of a row at a layer, none where it does not reach so high.
pub open spec fn neighbours_of(levels: Seq<Seq<Seq<u32>>>, i: int, l: int) -> Seq<u32> {
    if 0 <= i < levels.len() && 0 <= l < levels[i].len() {
        levels[i][l]
    } else {
        Seq::empty()
    }
}

/// The topmost layer of any row.
pub open spec fn top_layer(levels: Seq<Seq<Seq<u32>>>) -> int
    decreases levels.len(),
{
    if levels.len() == 0 {
        0
    } else {
        let rest = top_layer(levels.drop_last());
        if levels.last().len() - 1 > rest {
            levels.last().len() - 1
        } else {
            rest
        }
    }
}

/// No row reaches higher than the topmost layer, and some row reaches it.
pub proof fn top_layer_bounds(levels: Seq<Seq<Seq<u32>>>)
    ensures
        top_layer(levels) >= 0,
        forall|i: int|
            0 <= i < levels.len() ==> (#[trigger] levels[i]).len() <= top_layer(levels) + 1,
        top_layer(levels) > 0 ==> exists|i: int|
            0 <= i < levels.len() && (#[trigger] levels[i]).len() == top_layer(levels) + 1,
    decreases levels.len(),
{
    if levels.len() > 0 {
        let u = levels.drop_last();
        top_layer_bounds(u);
        assert forall|i: int| 0 <= i < levels.len() implies (#[trigger] levels[i]).len()
            <= top_layer(levels) + 1 by {
            if i < u.len() {
                assert(u[i].len() <= top_layer(u) + 1);
            }
        }
        if top_layer(levels) > 0 {
            if levels.last().len() - 1 > top_layer(u) {
                assert(levels[levels.len() - 1].len() == top_layer(levels) + 1);
            } else {
                let i = choose|i: int|
                    0 <= i < u.len() && (#[trigger] u[i]).len() == top_layer(u) + 1;
                assert(levels[i].len() == top_layer(levels) + 1);
            }
        }
    }
}

/// The error of the first neighbour in a list that is no row.
pub open spec fn list_error(list: Seq<u32>, row: int, layer: int, count: int) -> Option<
    SidecarError,
>
    decreases list.len(),
{
    if list.len() == 0 {
        None
    } else {
        match list_error(list.drop_last(), row, layer, count) {
            Some(e) => Some(e),
            None => if list.last() >= count {
                Some(
                    SidecarError::Neighbour {
                        neighbour: list.last(),
                        row: row as usize,
                        layer: layer as usize,
                        count: count as usize,
                    },
                )
            } else {
                None
            },
        }
    }
}

/// The error of the first neighbour of a row that is no row.
pub open spec fn row_error(lists: Seq<Seq<u32>>, row: int, count: int) -> Option<SidecarError>
    decreases lists.len(),
{
    if lists.len() == 0 {
        None
    } else {
        match row_error(lists.drop_last(), row, count) {
            Some(e) => Some(e),
            None => list_error(lists.last(), row, lists.len() - 1, count),
        }
    }
}

/// The error of the first neighbour of any row that is no row.
pub open spec fn rows_error(levels: Seq<Seq<Seq<u32>>>, count: int) -> Option<SidecarError>
    decreases levels.len(),
{
    if levels.len() == 0 {
        None
    } else {
        match rows_error(levels.drop_last(), count) {
            Some(e) => Some(e),
            None => row_error(levels.last(), levels.len() - 1, count),
        }
    }
}

/// What is wrong with a graph over some number of rows.
pub open spec fn graph_error(h: HnswView, count: int) -> Option<SidecarError> {
    if h.levels.len() != count {
        Some(SidecarError::RowCount { rows: h.levels.len() as usize, count: count as usize })
    } else if count > 0 && h.entry >= count {
        Some(SidecarError::Entry { entry: h.entry, count: count as usize })
    } else {
        rows_error(h.levels, count)
    }
}

/// Every neighbour is a row.
pub open spec fn in_range(levels: Seq<Seq<Seq<u32>>>, count: int) -> bool {
    forall|i: int, l: int, k: int|
        0 <= i < levels.len() && 0 <= l < levels[i].len() && 0 <= k < levels[i][l].len()
            ==> #[trigger] levels[i][l][k] < count
}

/// There is no error exactly where every neighbour is a row.
pub proof fn no_error_in_range(levels: Seq<Seq<Seq<u32>>>, count: int)
    ensures
        rows_error(levels, count) is None <==> in_range(levels, count),
    decreases levels.len(),
{
    if levels.len() > 0 {
        let u = levels.drop_last();
        no_error_in_range(u, count);
        row_without_error(levels.last(), levels.len() - 1, count);
        let last = levels.len() - 1;
        if in_range(levels, count) {
            assert forall|i: int, l: int, k: int|
                0 <= i < u.len() && 0 <= l < u[i].len() && 0 <= k
                    < u[i][l].len() implies #[trigger] u[i][l][k] < count by {
                assert(levels[i][l][k] < count);
            }
            assert forall|l: int, k: int|
                0 <= l < levels.last().len() && 0 <= k
                    < levels.last()[l].len() implies #[trigger] levels.last()[l][k] < count by {
                assert(levels[last][l][k] < count);
            }
        }
        if rows_error(levels, count) is None {
            assert forall|i: int, l: int, k: int|
                0 <= i < levels.len() && 0 <= l < levels[i].len() && 0 <= k
                    < levels[i][l].len() implies #[trigger] levels[i][l][k] < count by {
                if i < last {
                    assert(u[i][l][k] < count);
                } else {
                    assert(levels.last()[l][k] < count);
                }
            }
        }
    }
}

proof fn row_without_error(lists: Seq<Seq<u32>>, row: int, count: int)
    ensures
        row_error(lists, row, count) is None <==> forall|l: int, k: int|
            0 <= l < lists.len() && 0 <= k < lists[l].len() ==> #[trigger] lists[l][k] < count,
    decreases lists.len(),
{
    if lists.len() > 0 {
        let u = lists.drop_last();
        let last = lists.len() - 1;
        row_without_error(u, row, count);
        list_without_error(lists.last(), row, last, count);
        if forall|l: int, k: int|
            0 <= l < lists.len() && 0 <= k < lists[l].len() ==> #[trigger] lists[l][k] < count {
            assert forall|l: int, k: int|
                0 <= l < u.len() && 0 <= k < u[l].len() implies #[trigger] u[l][k] < count by {
                assert(lists[l][k] < count);
            }
            assert forall|k: int| 0 <= k < lists.last().len() implies #[trigger] lists.last()[k]
                < count by {
                assert(lists[last][k] < count);
            }
        }
        if row_error(lists, row, count) is None {
            assert forall|l: int, k: int|
                0 <= l < lists.len() && 0 <= k < lists[l].len() implies #[trigger] lists[l][k]
                < count by {
                if l < last {
                    assert(u[l][k] < count);
                } else {
                    assert(lists.last()[k] < count);
                }
            }
        }
    }
}

proof fn list_without_error(list: Seq<u32>, row: int, layer: int, count: int)
    ensures
        list_error(list, row, layer, count) is None <==> forall|k: int|
            0 <= k < list.len() ==> #[trigger] list[k] < count,
    decreases list.len(),
{
    if list.len() > 0 {
        let u = list.drop_last();
        list_without_error(u, row, layer, count);
        if forall|k: int| 0 <= k < list.len() ==> #[trigger] list[k] < count {
            assert forall|k: int| 0 <= k < u.len() implies #[trigger] u[k] < count by {
                assert(list[k] < count);
            }
            assert(list[list.len() - 1] < count);
        }
        if list_error(list, row, layer, count) is None {
            assert forall|k: int| 0 <= k < list.len() implies #[trigger] list[k] < count by {
                if k < u.len() {
                    assert(u[k] < count);
                }
            }
        }
    }
}

proof fn list_error_of_prefix(list: Seq<u32>, k: int, row: int, layer: int, count: int)
    requires
        0 <= k <= list.len(),
        list_error(list.take(k), row, layer, count) is Some,
    ensures
        list_error(list, row, layer, count) == list_error(list.take(k), row, layer, count),
    decreases list.len() - k,
{
    if k < list.len() {
        assert(list.take(k + 1).drop_last() =~= list.take(k));
        list_error_of_prefix(list, k + 1, row, layer, count);
    } else {
        assert(list.take(k) =~= list);
    }
}

proof fn row_error_of_prefix(lists: Seq<Seq<u32>>, k: int, row: int, count: int)
    requires
        0 <= k <= lists.len(),
        row_error(lists.take(k), row, count) is Some,
    ensures
        row_error(lists, row, count) == row_error(lists.take(k), row, count),
    decreases lists.len() - k,
{
    if k < lists.len() {
        assert(lists.take(k + 1).drop_last() =~= lists.take(k));
        row_error_of_prefix(lists, k + 1, row, count);
    } else {
        assert(lists.take(k) =~= lists);
    }
}

proof fn rows_error_of_prefix(levels: Seq<Seq<Seq<u32>>>, k: int, count: int)
    requires
        0 <= k <= levels.len(),
        rows_error(levels.take(k), count) is Some,
    ensures
        rows_error(levels, count) == rows_error(levels.take(k), count),
    decreases levels.len() - k,
{
    if k < levels.len() {
        assert(levels.take(k + 1).drop_last() =~= levels.take(k));
        rows_error_of_prefix(levels, k + 1, count);
    } else {
        assert(levels.take(k) =~= levels);
    }
}

/// The first neighbour in a list that is no row.
fn check_list(list: &Vec<u32>, row: usize, layer: usize, count: usize) -> (r: Option<
    SidecarError,
>)
    ensures
        r == list_error(list@, row as int, layer as int, count as int),
{
    let mut k: usize = 0;
    while k < list.len()
        invariant
            k <= list.len(),
            list_error(list@.take(k as int), row as int, layer as int, count as int) is None,
        decreases list.len() - k,
    {
        assert(list@.take(k + 1).drop_last() =~= list@.take(k as int));
        let n = list[k];
        if n as usize >= count {
            proof {
                list_error_of_prefix(list@, k + 1, row as int, layer as int, count as int);
            }
            return Some(SidecarError::Neighbour { neighbour: n, row, layer, count });
        }
        k = k + 1;
    }
    assert(list@.take(k as int) =~= list@);
    None
}

/// The first neighbour of a row that is no row.
fn check_row(lists: &Vec<Vec<u32>>, row: usize, count: usize) -> (r: Option<SidecarError>)
    ensures
        r == row_error(lists_view(lists@), row as int, count as int),
{
    let ghost all = lists_view(lists@);
    let mut l: usize = 0;
    while l < lists.len()
        invariant
            l <= lists.len(),
            all == lists_view(lists@),
            row_error(all.take(l as int), row as int, count as int) is None,
        decreases lists.len() - l,
    {
        assert(all.take(l + 1).drop_last() =~= all.take(l as int));
        match check_list(&lists[l], row, l, count) {
            Some(e) => {
                proof {
                    row_error_of_prefix(all, l + 1, row as int, count as int);
                }
                return Some(e);
            },
            None => {},
        }
        l = l + 1;
    }
    assert(all.take(l as int) =~= all);
    None
}

/// The bytes of some numbers.
pub open spec fn words(s: Seq<u32>) -> Seq<u8>
    decreases s.len(),
{
    if s.len() == 0 {
        Seq::empty()
    } else {
        words(s.drop_last()) + crate::store::bytes::le32(s.last())
    }
}

/// The bytes of one list: its length and its numbers.
pub open spec fn list_bytes(list: Seq<u32>) -> Seq<u8> {
    crate::store::bytes::le32(list.len() as u32) + words(list)
}

/// The bytes of some lists.
pub open spec fn lists_bytes(lists: Seq<Seq<u32>>) -> Seq<u8>
    decreases lists.len(),
{
    if lists.len() == 0 {
        Seq::empty()
    } else {
        lists_bytes(lists.drop_last()) + list_bytes(lists.last())
    }
}

/// The bytes of some rows: of each its number of layers and its lists.
pub open spec fn rows_bytes(levels: Seq<Seq<Seq<u32>>>) -> Seq<u8>
    decreases levels.len(),
{
    if levels.len() == 0 {
        Seq::empty()
    } else {
        rows_bytes(levels.drop_last()) + (crate::store::bytes::le32(levels.last().len() as u32)
            + lists_bytes(levels.last()))
    }
}

/// The bytes of a graph.
pub open spec fn graph_bytes(h: HnswView) -> Seq<u8> {
    crate::store::bytes::le32(h.m) + (crate::store::bytes::le32(h.m0) + (
    crate::store::bytes::le32(h.ef_construction) + (crate::store::bytes::le32(h.entry) + (
    crate::store::bytes::le32(h.levels.len() as u32) + rows_bytes(h.levels)))))
}

/// All lengths can be written.
pub open spec fn lengths_fit(levels: Seq<Seq<Seq<u32>>>) -> bool {
    &&& levels.len() <= u32::MAX
    &&& forall|i: int| 0 <= i < levels.len() ==> (#[trigger] levels[i]).len() <= u32::MAX
    &&& forall|i: int, l: int|
        0 <= i < levels.len() && 0 <= l < levels[i].len() ==> (#[trigger] levels[i][l]).len()
            <= u32::MAX
}

/// A list and what follows it, or how many bytes were wanted and left.
pub open spec fn list_read(s: Seq<u8>) -> Result<(Seq<u32>, Seq<u8>), (int, int)> {
    if s.len() < 4 {
        Err((4, s.len() as int))
    } else {
        let n = crate::store::bytes::head32(s);
        let t = s.skip(4);
        if t.len() < 4 * n {
            Err((4 * n, t.len() as int))
        } else {
            Ok((super::byte_reader::numbers(t, n as int), t.skip(4 * n)))
        }
    }
}

/// Some lists and what follows them.
pub open spec fn lists_read(s: Seq<u8>, n: int) -> Result<
    (Seq<Seq<u32>>, Seq<u8>),
    (int, int),
>
    decreases n,
{
    if n <= 0 {
        Ok((Seq::empty(), s))
    } else {
        match lists_read(s, n - 1) {
            Err(e) => Err(e),
            Ok((lists, t)) => match list_read(t) {
                Err(e) => Err(e),
                Ok((list, u)) => Ok((lists.push(list), u)),
            },
        }
    }
}

/// A row and what follows it.
pub open spec fn row_read(s: Seq<u8>) -> Result<(Seq<Seq<u32>>, Seq<u8>), (int, int)> {
    if s.len() < 4 {
        Err((4, s.len() as int))
    } else {
        lists_read(s.skip(4), crate::store::bytes::head32(s) as int)
    }
}

/// Some rows and what follows them.
pub open spec fn rows_read(s: Seq<u8>, n: int) -> Result<
    (Seq<Seq<Seq<u32>>>, Seq<u8>),
    (int, int),
>
    decreases n,
{
    if n <= 0 {
        Ok((Seq::empty(), s))
    } else {
        match rows_read(s, n - 1) {
            Err(e) => Err(e),
            Ok((rows, t)) => match row_read(t) {
                Err(e) => Err(e),
                Ok((row, u)) => Ok((rows.push(row), u)),
            },
        }
    }
}

/// A graph and what follows it.
pub open spec fn graph_read(s: Seq<u8>) -> Result<(HnswView, Seq<u8>), (int, int)> {
    if s.len() < 20 {
        Err((4, s.len() as int % 4))
    } else {
        match rows_read(s.skip(20), crate::store::bytes::num32(s, 16) as int) {
            Err(e) => Err(e),
            Ok((levels, t)) => Ok(
                (
                    (HnswView {
                        m: crate::store::bytes::num32(s, 0),
                        m0: crate::store::bytes::num32(s, 4),
                        ef_construction: crate::store::bytes::num32(s, 8),
                        entry: crate::store::bytes::num32(s, 12),
                        levels,
                    }),
                    t,
                ),
            ),
        }
    }
}

proof fn lists_read_fails(s: Seq<u8>, k: int, n: int)
    requires
        0 <= k <= n,
        lists_read(s, k) is Err,
    ensures
        lists_read(s, n) == lists_read(s, k),
    decreases n - k,
{
    if k < n {
        lists_read_fails(s, k, n - 1);
    }
}

proof fn rows_read_fails(s: Seq<u8>, k: int, n: int)
    requires
        0 <= k <= n,
        rows_read(s, k) is Err,
    ensures
        rows_read(s, n) == rows_read(s, k),
    decreases n - k,
{
    if k < n {
        rows_read_fails(s, k, n - 1);
    }
}

/// Numbers that were written are read back.
pub proof fn words_read_back(list: Seq<u32>, tail: Seq<u8>)
    ensures
        words(list).len() == 4 * list.len(),
        super::byte_reader::numbers(words(list) + tail, list.len() as int) == list,
        (words(list) + tail).skip(4 * list.len() as int) == tail,
    decreases list.len(),
{
    crate::store::bytes::number_lengths();
    if list.len() > 0 {
        let u = list.drop_last();
        let last = crate::store::bytes::le32(list.last());
        words_read_back(u, last + tail);
        let s = words(list) + tail;
        let t = words(u) + (last + tail);
        assert(s =~= t);
        crate::store::bytes::read_back_32(list.last(), tail);
        assert forall|i: int| 0 <= i < list.len() implies crate::store::bytes::num32(s, 4 * i)
            == #[trigger] list[i] by {
            if i < u.len() {
                assert(super::byte_reader::numbers(t, u.len() as int)[i] == u[i]);
            } else {
                assert(s.subrange(4 * i, 4 * i + 4) =~= (last + tail).take(4));
            }
        }
    }
    assert(super::byte_reader::numbers(words(list) + tail, list.len() as int) =~= list);
    assert((words(list) + tail).skip(4 * list.len() as int) =~= tail);
}

proof fn list_reads_back(list: Seq<u32>, tail: Seq<u8>)
    requires
        list.len() <= u32::MAX,
    ensures
        list_read(list_bytes(list) + tail) == Ok::<_, (int, int)>((list, tail)),
{
    let n = crate::store::bytes::le32(list.len() as u32);
    crate::store::bytes::read_back_32(list.len() as u32, words(list) + tail);
    assert(list_bytes(list) + tail =~= n + (words(list) + tail));
    words_read_back(list, tail);
}

proof fn lists_read_back(lists: Seq<Seq<u32>>, tail: Seq<u8>)
    requires
        forall|l: int| 0 <= l < lists.len() ==> (#[trigger] lists[l]).len() <= u32::MAX,
    ensures
        lists_read(lists_bytes(lists) + tail, lists.len() as int) == Ok::<_, (int, int)>(
            (lists, tail),
        ),
    decreases lists.len(),
{
    if lists.len() > 0 {
        let u = lists.drop_last();
        let last = list_bytes(lists.last());
        assert forall|l: int| 0 <= l < u.len() implies (#[trigger] u[l]).len() <= u32::MAX by {
            assert(lists[l].len() <= u32::MAX);
        }
        assert(lists[lists.len() - 1].len() <= u32::MAX);
        lists_read_back(u, last + tail);
        assert(lists_bytes(lists) + tail =~= lists_bytes(u) + (last + tail));
        list_reads_back(lists.last(), tail);
        assert(u.push(lists.last()) =~= lists);
    } else {
        assert(lists_bytes(lists) + tail =~= tail);
        assert(lists =~= Seq::empty());
    }
}

proof fn rows_read_back(levels: Seq<Seq<Seq<u32>>>, tail: Seq<u8>)
    requires
        lengths_fit(levels),
    ensures
        rows_read(rows_bytes(levels) + tail, levels.len() as int) == Ok::<_, (int, int)>(
            (levels, tail),
        ),
    decreases levels.len(),
{
    if levels.len() > 0 {
        let u = levels.drop_last();
        let row = levels.last();
        let n = crate::store::bytes::le32(row.len() as u32);
        let last = n + lists_bytes(row);
        assert forall|i: int| 0 <= i < u.len() implies (#[trigger] u[i]).len() <= u32::MAX by {
            assert(levels[i].len() <= u32::MAX);
        }
        assert forall|i: int, l: int| 0 <= i < u.len() && 0 <= l < u[i].len() implies (
        #[trigger] u[i][l]).len() <= u32::MAX by {
            assert(levels[i][l].len() <= u32::MAX);
        }
        rows_read_back(u, last + tail);
        assert(rows_bytes(levels) + tail =~= rows_bytes(u) + (last + tail));
        assert forall|l: int| 0 <= l < row.len() implies (#[trigger] row[l]).len() <= u32::MAX by {
            assert(levels[levels.len() - 1][l].len() <= u32::MAX);
        }
        assert(levels[levels.len() - 1].len() <= u32::MAX);
        lists_read_back(row, tail);
        crate::store::bytes::read_back_32(row.len() as u32, lists_bytes(row) + tail);
        assert(last + tail =~= n + (lists_bytes(row) + tail));
        assert(u.push(row) =~= levels);
    } else {
        assert(rows_bytes(levels) + tail =~= tail);
        assert(levels =~= Seq::empty());
    }
}

/// A graph that was written is read back, and nothing that follows it is read.
pub proof fn graph_reads_back(h: HnswView, tail: Seq<u8>)
    requires
        lengths_fit(h.levels),
    ensures
        graph_read(graph_bytes(h) + tail) == Ok::<_, (int, int)>((h, tail)),
{
    crate::store::bytes::number_lengths();
    let n = h.levels.len() as u32;
    let s = graph_bytes(h) + tail;
    let body = rows_bytes(h.levels) + tail;
    rows_read_back(h.levels, tail);
    crate::store::bytes::numbers_32();
    assert(s.skip(20) =~= body);
    assert(s.subrange(0, 4) =~= crate::store::bytes::le32(h.m));
    assert(s.subrange(4, 8) =~= crate::store::bytes::le32(h.m0));
    assert(s.subrange(8, 12) =~= crate::store::bytes::le32(h.ef_construction));
    assert(s.subrange(12, 16) =~= crate::store::bytes::le32(h.entry));
    assert(s.subrange(16, 20) =~= crate::store::bytes::le32(n));
}

/// Numbers are read from the bytes in front alone.
pub proof fn numbers_extend(s: Seq<u8>, n: int, more: Seq<u8>)
    requires
        0 <= 4 * n <= s.len(),
    ensures
        super::byte_reader::numbers(s + more, n) == super::byte_reader::numbers(s, n),
        (s + more).skip(4 * n) == s.skip(4 * n) + more,
{
    assert forall|i: int| 0 <= i < n implies #[trigger] super::byte_reader::numbers(s + more, n)[i]
        == super::byte_reader::numbers(s, n)[i] by {
        assert((s + more).subrange(4 * i, 4 * i + 4) =~= s.subrange(4 * i, 4 * i + 4));
    }
    assert(super::byte_reader::numbers(s + more, n) =~= super::byte_reader::numbers(s, n));
    assert((s + more).skip(4 * n) =~= s.skip(4 * n) + more);
}

proof fn list_extends(s: Seq<u8>, more: Seq<u8>)
    requires
        list_read(s) is Ok,
    ensures
        list_read(s + more) == Ok::<_, (int, int)>(
            (list_read(s)->Ok_0.0, list_read(s)->Ok_0.1 + more),
        ),
{
    let n = crate::store::bytes::head32(s);
    assert((s + more).take(4) =~= s.take(4));
    assert((s + more).skip(4) =~= s.skip(4) + more);
    numbers_extend(s.skip(4), n as int, more);
}

proof fn lists_extend(s: Seq<u8>, n: int, more: Seq<u8>)
    requires
        lists_read(s, n) is Ok,
    ensures
        lists_read(s + more, n) == Ok::<_, (int, int)>(
            (lists_read(s, n)->Ok_0.0, lists_read(s, n)->Ok_0.1 + more),
        ),
    decreases n,
{
    if n > 0 {
        lists_extend(s, n - 1, more);
        list_extends(lists_read(s, n - 1)->Ok_0.1, more);
    }
}

proof fn rows_extend(s: Seq<u8>, n: int, more: Seq<u8>)
    requires
        rows_read(s, n) is Ok,
    ensures
        rows_read(s + more, n) == Ok::<_, (int, int)>(
            (rows_read(s, n)->Ok_0.0, rows_read(s, n)->Ok_0.1 + more),
        ),
    decreases n,
{
    if n > 0 {
        rows_extend(s, n - 1, more);
        let t = rows_read(s, n - 1)->Ok_0.1;
        assert((t + more).take(4) =~= t.take(4));
        assert((t + more).skip(4) =~= t.skip(4) + more);
        lists_extend(t.skip(4), crate::store::bytes::head32(t) as int, more);
    }
}

/// What is read of a graph does not depend on the bytes behind it.
pub proof fn graph_extends(s: Seq<u8>, more: Seq<u8>)
    requires
        graph_read(s) is Ok,
    ensures
        graph_read(s + more) == Ok::<_, (int, int)>(
            (graph_read(s)->Ok_0.0, graph_read(s)->Ok_0.1 + more),
        ),
{
    let all = s + more;
    assert(all.subrange(0, 4) =~= s.subrange(0, 4));
    assert(all.subrange(4, 8) =~= s.subrange(4, 8));
    assert(all.subrange(8, 12) =~= s.subrange(8, 12));
    assert(all.subrange(12, 16) =~= s.subrange(12, 16));
    assert(all.subrange(16, 20) =~= s.subrange(16, 20));
    assert(all.skip(20) =~= s.skip(20) + more);
    rows_extend(s.skip(20), crate::store::bytes::num32(s, 16) as int, more);
}

/// The bytes of a graph without the last of them are refused, however few are
/// missing.
pub proof fn cut_graph_refused(h: HnswView, k: int)
    requires
        lengths_fit(h.levels),
        0 <= k < graph_bytes(h).len(),
    ensures
        graph_read(graph_bytes(h).take(k)) is Err,
{
    let all = graph_bytes(h);
    let s = all.take(k);
    let more = all.skip(k);
    assert(s + more =~= all);
    assert(all + Seq::<u8>::empty() =~= all);
    graph_reads_back(h, Seq::empty());
    if graph_read(s) is Ok {
        graph_extends(s, more);
        let t = graph_read(s)->Ok_0.1;
        assert((t + more).len() > 0);
    }
}

/// Appends the bytes of some numbers.
pub(crate) fn push_words(out: &mut Vec<u8>, list: &Vec<u32>)
    ensures
        final(out)@ == old(out)@ + words(list@),
{
    let ghost before = out@;
    let mut i: usize = 0;
    assert(before =~= before + words(list@.take(0)));
    while i < list.len()
        invariant
            i <= list.len(),
            out@ == before + words(list@.take(i as int)),
        decreases list.len() - i,
    {
        assert(list@.take(i + 1).drop_last() =~= list@.take(i as int));
        push_u32(out, list[i]);
        assert(out@ =~= before + words(list@.take(i + 1)));
        i = i + 1;
    }
    assert(list@.take(i as int) =~= list@);
}

fn push_lists(out: &mut Vec<u8>, lists: &Vec<Vec<u32>>)
    ensures
        final(out)@ == old(out)@ + lists_bytes(lists_view(lists@)),
{
    let ghost before = out@;
    let ghost all = lists_view(lists@);
    let mut i: usize = 0;
    assert(before =~= before + lists_bytes(all.take(0)));
    while i < lists.len()
        invariant
            i <= lists.len(),
            all == lists_view(lists@),
            out@ == before + lists_bytes(all.take(i as int)),
        decreases lists.len() - i,
    {
        assert(all.take(i + 1).drop_last() =~= all.take(i as int));
        push_u32(out, lists[i].len() as u32);
        push_words(out, &lists[i]);
        assert(out@ =~= before + lists_bytes(all.take(i + 1)));
        i = i + 1;
    }
    assert(all.take(i as int) =~= all);
}

fn read_list(rd: &mut ByteReader<'_>) -> (r: Result<Vec<u32>, SidecarError>)
    requires
        old(rd).wf(),
    ensures
        final(rd).wf(),
        final(rd).buf == old(rd).buf,
        match list_read(old(rd).rest()) {
            Ok((list, t)) => r is Ok && r->Ok_0@ == list && final(rd).rest() == t,
            Err((wanted, left)) => r == Err::<Vec<u32>, SidecarError>(
                super::byte_reader::cut(wanted, left, old(rd).buf@.len() as int),
            ),
        },
{
    let ghost s = rd.rest();
    let n = match rd.u32() {
        Ok(n) => n,
        Err(e) => {
            return Err(e);
        },
    };
    let ghost t = rd.rest();
    match rd.u32_vec(n as usize) {
        Ok(v) => Ok(v),
        Err(e) => Err(e),
    }
}

fn read_lists(rd: &mut ByteReader<'_>, n: usize) -> (r: Result<Vec<Vec<u32>>, SidecarError>)
    requires
        old(rd).wf(),
    ensures
        final(rd).wf(),
        final(rd).buf == old(rd).buf,
        match lists_read(old(rd).rest(), n as int) {
            Ok((lists, t)) => r is Ok && lists_view(r->Ok_0@) == lists && final(rd).rest() == t,
            Err((wanted, left)) => r == Err::<Vec<Vec<u32>>, SidecarError>(
                super::byte_reader::cut(wanted, left, old(rd).buf@.len() as int),
            ),
        },
{
    let ghost s = rd.rest();
    let mut lists: Vec<Vec<u32>> = Vec::new();
    let mut i: usize = 0;
    assert(lists_view(lists@) =~= Seq::empty());
    while i < n
        invariant
            i <= n,
            rd.wf(),
            rd.buf == old(rd).buf,
            s == old(rd).rest(),
            lists_read(s, i as int) == Ok::<_, (int, int)>((lists_view(lists@), rd.rest())),
        decreases n - i,
    {
        let ghost before = lists_view(lists@);
        match read_list(rd) {
            Ok(list) => {
                lists.push(list);
                assert(lists_view(lists@) =~= before.push(list@));
            },
            Err(e) => {
                proof {
                    lists_read_fails(s, i + 1, n as int);
                }
                return Err(e);
            },
        }
        i = i + 1;
    }
    Ok(lists)
}

impl Hnsw {
    /// A graph without rows.
    pub fn empty() -> (r: Self)
        ensures
            r@ == (HnswView {
                m: 0,
                m0: 0,
                ef_construction: 0,
                entry: 0,
                levels: Seq::empty(),
            }),
    {
        let r = Hnsw { m: 0, m0: 0, ef_construction: 0, entry: 0, levels: Vec::new() };
        assert(r@.levels =~= Seq::empty());
        r
    }

    /// The number of rows.
    pub fn len(&self) -> (r: usize)
        ensures
            r == self@.levels.len(),
    {
        self.levels.len()
    }

    /// Whether there are no rows.
    pub fn is_empty(&self) -> (r: bool)
        ensures
            r == (self@.levels.len() == 0),
    {
        self.levels.len() == 0
    }

    /// The topmost layer of any row.
    pub fn max_level(&self) -> (r: usize)
        ensures
            r == top_layer(self@.levels),
    {
        let ghost all = self@.levels;
        let mut best: usize = 0;
        let mut i: usize = 0;
        while i < self.levels.len()
            invariant
                i <= self.levels.len(),
                all == self@.levels,
                best == top_layer(all.take(i as int)),
            decreases self.levels.len() - i,
        {
            assert(all.take(i + 1).drop_last() =~= all.take(i as int));
            let n = self.levels[i].len();
            assert(all.take(i + 1).last().len() == n);
            if n > 0 && n - 1 > best {
                best = n - 1;
            }
            i = i + 1;
        }
        assert(all.take(i as int) =~= all);
        best
    }

    /// The neighbours of a row at a layer.
    pub fn neighbours(&self, i: usize, l: usize) -> (r: &[u32])
        ensures
            r@ == neighbours_of(self@.levels, i as int, l as int),
    {
        if i < self.levels.len() && l < self.levels[i].len() {
            self.levels[i][l].as_slice()
        } else {
            let none: &[u32] = &[];
            assert(none@ =~= Seq::empty());
            none
        }
    }

    /// Checks that the graph covers some number of rows, and that the entry
    /// point and every neighbour is one of them.
    pub fn validate(&self, count: usize) -> (r: Result<(), SidecarError>)
        ensures
            match r {
                Ok(()) => graph_error(self@, count as int) is None,
                Err(e) => graph_error(self@, count as int) == Some(e),
            },
    {
        if self.levels.len() != count {
            return Err(SidecarError::RowCount { rows: self.levels.len(), count });
        }
        if count > 0 && self.entry as usize >= count {
            return Err(SidecarError::Entry { entry: self.entry, count });
        }
        let ghost all = self@.levels;
        let mut i: usize = 0;
        while i < self.levels.len()
            invariant
                i <= self.levels.len(),
                all == self@.levels,
                all.len() == count,
                rows_error(all.take(i as int), count as int) is None,
                count > 0 ==> self.entry < count,
            decreases self.levels.len() - i,
        {
            assert(all.take(i + 1).drop_last() =~= all.take(i as int));
            match check_row(&self.levels[i], i, count) {
                Some(e) => {
                    proof {
                        rows_error_of_prefix(all, i + 1, count as int);
                    }
                    return Err(e);
                },
                None => {},
            }
            i = i + 1;
        }
        assert(all.take(i as int) =~= all);
        Ok(())
    }

    /// Appends the bytes of the graph.
    pub fn encode(&self, out: &mut Vec<u8>)
        requires
            lengths_fit(self@.levels),
        ensures
            final(out)@ == old(out)@ + graph_bytes(self@),
    {
        let ghost before = out@;
        let ghost all = self@.levels;
        push_u32(out, self.m);
        push_u32(out, self.m0);
        push_u32(out, self.ef_construction);
        push_u32(out, self.entry);
        push_u32(out, self.levels.len() as u32);
        let ghost head = out@;
        let mut i: usize = 0;
        assert(out@ =~= head + rows_bytes(all.take(0)));
        while i < self.levels.len()
            invariant
                i <= self.levels.len(),
                all == self@.levels,
                out@ == head + rows_bytes(all.take(i as int)),
            decreases self.levels.len() - i,
        {
            assert(all.take(i + 1).drop_last() =~= all.take(i as int));
            push_u32(out, self.levels[i].len() as u32);
            push_lists(out, &self.levels[i]);
            assert(all.take(i + 1).last() == lists_view(self.levels@[i as int]@));
            assert(out@ =~= head + rows_bytes(all.take(i + 1)));
            i = i + 1;
        }
        assert(all.take(i as int) =~= all);
        assert(out@ =~= before + graph_bytes(self@));
    }

    /// Reads a graph.
    pub fn decode(rd: &mut ByteReader<'_>) -> (r: Result<Hnsw, SidecarError>)
        requires
            old(rd).wf(),
        ensures
            final(rd).wf(),
            final(rd).buf == old(rd).buf,
            match graph_read(old(rd).rest()) {
                Ok((h, t)) => r is Ok && r->Ok_0@ == h && final(rd).rest() == t,
                Err((wanted, left)) => r == Err::<Hnsw, SidecarError>(
                    super::byte_reader::cut(wanted, left, old(rd).buf@.len() as int),
                ),
            },
    {
        let ghost all = rd.rest();
        let mut head: Vec<u32> = Vec::new();
        let mut k: usize = 0;
        assert(all.skip(0) =~= all);
        while k < 5
            invariant
                k <= 5,
                rd.wf(),
                rd.buf == old(rd).buf,
                all == old(rd).rest(),
                4 * k <= all.len(),
                rd.rest() == all.skip(4 * k),
                head@ == super::byte_reader::numbers(all, k as int),
            decreases 5 - k,
        {
            match rd.u32() {
                Ok(x) => {
                    proof {
                        assert(all.skip(4 * k).take(4) =~= all.subrange(4 * k, 4 * k + 4));
                        assert(all.skip(4 * k).skip(4) =~= all.skip(4 * (k + 1)));
                    }
                    head.push(x);
                    assert(head@ =~= super::byte_reader::numbers(all, k + 1));
                },
                Err(e) => {
                    assert(all.skip(4 * k).len() == all.len() % 4);
                    return Err(e);
                },
            }
            k = k + 1;
        }
        let count = head[4] as usize;
        let ghost s = rd.rest();
        let mut levels: Vec<Vec<Vec<u32>>> = Vec::new();
        let mut i: usize = 0;
        assert(levels_view(levels@) =~= Seq::empty());
        while i < count
            invariant
                i <= count,
                rd.wf(),
                rd.buf == old(rd).buf,
                all == old(rd).rest(),
                all.len() >= 20,
                s == all.skip(20),
                count == crate::store::bytes::num32(all, 16),
                rows_read(s, i as int) == Ok::<_, (int, int)>((levels_view(levels@), rd.rest())),
            decreases count - i,
        {
            let ghost before = levels_view(levels@);
            let ghost t = rd.rest();
            let n = match rd.u32() {
                Ok(n) => n,
                Err(e) => {
                    proof {
                        rows_read_fails(s, i + 1, count as int);
                    }
                    return Err(e);
                },
            };
            match read_lists(rd, n as usize) {
                Ok(lists) => {
                    levels.push(lists);
                    assert(levels_view(levels@) =~= before.push(lists_view(lists@)));
                },
                Err(e) => {
                    proof {
                        rows_read_fails(s, i + 1, count as int);
                    }
                    return Err(e);
                },
            }
            i = i + 1;
        }
        Ok(
            Hnsw {
                m: head[0],
                m0: head[1],
                ef_construction: head[2],
                entry: head[3],
                levels,
            },
        )
    }
}

impl Default for Hnsw {
    fn default() -> (r: Self)
        ensures
            r@ == (HnswView {
                m: 0,
                m0: 0,
                ef_construction: 0,
                entry: 0,
                levels: Seq::empty(),
            }),
    {
        Hnsw::empty()
    }
}

} // verus!
