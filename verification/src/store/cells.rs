//! Records as cells on the data pages of a file.

use vstd::prelude::*;

use super::bytes::{copy_range, get_u16};
use super::pager::{
    check_cells, insert_cell, new_page, PageType, Pager, StoreError, PAGE_HEADER, PAGE_SIZE,
};

verus! {

/// The cells on the pages of a type, in the order of pages. Nothing, where the
/// cells of such a page are not in order.
pub open spec fn cells_upto(pages: Seq<Seq<u8>>, t: PageType, n: nat) -> Option<Seq<Seq<u8>>>
    decreases n,
{
    if n <= 1 {
        Some(Seq::empty())
    } else {
        match cells_upto(pages, t, (n - 1) as nat) {
            None => None,
            Some(cells) => if super::pager::has_type(pages[n - 1], t) {
                if super::pager::cells_ok(pages[n - 1]) {
                    Some(cells + super::pager::page_cells(pages[n - 1]))
                } else {
                    None
                }
            } else {
                Some(cells)
            },
        }
    }
}

/// All cells on the pages of a type.
pub open spec fn all_cells(pages: Seq<Seq<u8>>, t: PageType) -> Option<Seq<Seq<u8>>> {
    cells_upto(pages, t, pages.len())
}

/// The cell at a place.
pub open spec fn cell_at(pages: Seq<Seq<u8>>, page: int, cell: int) -> Option<Seq<u8>> {
    if 0 <= page < pages.len() && super::pager::cells_ok(pages[page]) && 0 <= cell
        < super::pager::cell_count(pages[page]) {
        Some(super::pager::page_cells(pages[page])[cell])
    } else {
        None
    }
}

/// The last page of a type, with the cells of all of them in order.
pub open spec fn tail_ok(pages: Seq<Seq<u8>>, t: PageType, last: Option<u32>) -> bool {
    match last {
        None => forall|i: int|
            0 < i < pages.len() ==> !super::pager::has_type(#[trigger] pages[i], t),
        Some(l) => {
            &&& 0 < l < pages.len()
            &&& super::pager::has_type(pages[l as int], t)
            &&& super::pager::cells_ok(pages[l as int])
            &&& forall|i: int|
                l < i < pages.len() ==> !super::pager::has_type(#[trigger] pages[i], t)
        },
    }
}

/// Cells depend on the pages of their type alone.
proof fn upto_frame(a: Seq<Seq<u8>>, b: Seq<Seq<u8>>, kinds: Set<u8>, t: PageType, n: nat)
    requires
        super::pager::grown(a, b, kinds),
        !kinds.contains(t.byte()),
        n <= a.len(),
    ensures
        cells_upto(b, t, n) == cells_upto(a, t, n),
    decreases n,
{
    if n > 1 {
        upto_frame(a, b, kinds, t, (n - 1) as nat);
        assert(b[n - 1] == a[n - 1] || (kinds.contains(a[n - 1][0]) && b[n - 1][0]
            == a[n - 1][0]));
    }
}

/// Pages of other types add no cells.
proof fn upto_beyond(pages: Seq<Seq<u8>>, t: PageType, from: nat, n: nat)
    requires
        from <= n <= pages.len(),
        from >= 1,
        forall|i: int| from <= i < n ==> !super::pager::has_type(#[trigger] pages[i], t),
    ensures
        cells_upto(pages, t, n) == cells_upto(pages, t, from),
    decreases n - from,
{
    if from < n {
        upto_beyond(pages, t, from, (n - 1) as nat);
        assert(!super::pager::has_type(pages[n - 1], t));
    }
}

/// Changes to pages of other types leave the cells of a type as they are.
pub proof fn cells_frame(a: Seq<Seq<u8>>, b: Seq<Seq<u8>>, kinds: Set<u8>, t: PageType)
    requires
        super::pager::grown(a, b, kinds),
        !kinds.contains(t.byte()),
        a.len() >= 1,
    ensures
        all_cells(b, t) == all_cells(a, t),
        forall|last: Option<u32>| tail_ok(a, t, last) ==> #[trigger] tail_ok(b, t, last),
        forall|p: int, c: int|
            0 <= p < a.len() && super::pager::has_type(a[p], t) ==> #[trigger] cell_at(b, p, c)
                == cell_at(a, p, c),
        forall|p: int| 0 <= p < a.len() && super::pager::has_type(a[p], t) ==> #[trigger] b[p] == a[p],
{
    upto_frame(a, b, kinds, t, a.len());
    assert forall|i: int| a.len() <= i < b.len() implies !super::pager::has_type(
        #[trigger] b[i],
        t,
    ) by {
        assert(kinds.contains(b[i][0]));
    }
    upto_beyond(b, t, a.len(), b.len());
    assert forall|p: int| 0 <= p < a.len() && super::pager::has_type(a[p], t) implies #[trigger] b[p]
        == a[p] by {}
    assert forall|last: Option<u32>| tail_ok(a, t, last) implies #[trigger] tail_ok(b, t, last) by {
        assert forall|i: int|
            0 < i < b.len() && super::pager::has_type(#[trigger] b[i], t) implies i < a.len()
            && super::pager::has_type(a[i], t) by {
            if i < a.len() {
                assert(b[i] == a[i] || (kinds.contains(a[i][0]) && b[i][0] == a[i][0]));
            }
        }
    }
}

/// A cell that goes on the last page of its type comes last.
proof fn cells_insert(pages: Seq<Seq<u8>>, t: PageType, l: u32, page: Seq<u8>, cell: Seq<u8>)
    requires
        tail_ok(pages, t, Some(l)),
        all_cells(pages, t) is Some,
        page[0] == pages[l as int][0],
        super::pager::cells_ok(page),
        super::pager::page_cells(page) == super::pager::page_cells(pages[l as int]).push(cell),
    ensures
        all_cells(pages.update(l as int, page), t) == Some(all_cells(pages, t)->Some_0.push(cell)),
        tail_ok(pages.update(l as int, page), t, Some(l)),
{
    let after = pages.update(l as int, page);
    let n = (l + 1) as nat;
    upto_beyond(pages, t, n, pages.len());
    assert forall|i: int| n <= i < after.len() implies !super::pager::has_type(
        #[trigger] after[i],
        t,
    ) by {
        assert(after[i] == pages[i]);
    }
    upto_beyond(after, t, n, after.len());
    upto_same(pages, after, t, l as nat);
    if l == 0 {
    } else {
        let front = cells_upto(pages, t, l as nat)->Some_0;
        assert(front + super::pager::page_cells(pages[l as int]).push(cell) =~= (front
            + super::pager::page_cells(pages[l as int])).push(cell));
    }
}

proof fn upto_same(a: Seq<Seq<u8>>, b: Seq<Seq<u8>>, t: PageType, n: nat)
    requires
        n <= a.len(),
        n <= b.len(),
        forall|i: int| 0 <= i < n ==> #[trigger] b[i] == a[i],
    ensures
        cells_upto(b, t, n) == cells_upto(a, t, n),
    decreases n,
{
    if n > 1 {
        upto_same(a, b, t, (n - 1) as nat);
        assert(b[n - 1] == a[n - 1]);
    }
}

/// The cells of a new page come last.
proof fn cells_append(pages: Seq<Seq<u8>>, t: PageType, page: Seq<u8>)
    requires
        pages.len() >= 1,
        all_cells(pages, t) is Some,
        super::pager::has_type(page, t),
        super::pager::cells_ok(page),
    ensures
        all_cells(pages.push(page), t) == Some(
            all_cells(pages, t)->Some_0 + super::pager::page_cells(page),
        ),
{
    upto_same(pages, pages.push(page), t, pages.len());
}

/// The longest record that fits on a page.
pub const MAX_CELL: usize = 4086;

/// Stores a record on the last page of its type, or on a new one.
pub fn store_cell(pager: &mut Pager, t: PageType, cell: &Vec<u8>, last: &mut Option<u32>) -> (r:
    Result<(u32, u16), StoreError>)
    requires
        old(pager).wf(),
        tail_ok(old(pager)@, t, *old(last)),
        all_cells(old(pager)@, t) is Some,
    ensures
        final(pager).wf(),
        final(pager).free == old(pager).free,
        final(pager).header == old(pager).header,
        match r {
            Ok((page, index)) => {
                &&& cell@.len() <= MAX_CELL
                &&& super::pager::grown(old(pager)@, final(pager)@, set![t.byte()])
                &&& tail_ok(final(pager)@, t, *final(last))
                &&& all_cells(final(pager)@, t) == Some(
                    all_cells(old(pager)@, t)->Some_0.push(cell@),
                )
                &&& cell_at(final(pager)@, page as int, index as int) == Some(cell@)
                &&& super::pager::has_type(final(pager)@[page as int], t)
                &&& forall|p: int, c: int|
                    cell_at(old(pager)@, p, c) is Some ==> #[trigger] cell_at(final(pager)@, p, c)
                        == cell_at(old(pager)@, p, c)
                &&& final(pager)@.len() <= old(pager)@.len() + 1
            },
            Err(e) => (e == StoreError::CellTooLarge && cell@.len() > MAX_CELL) || (e
                == StoreError::Full && old(pager)@.len() == u32::MAX),
        },
{
    let ghost p0 = pager@;
    match *last {
        Some(l) => {
            let mut page = pager.copy_page(l);
            let ghost q0 = page@;
            match insert_cell(&mut page, cell) {
                Some(index) => {
                    let ghost q1 = page@;
                    proof {
                        fits_on_page(q0, cell@);
                        cells_insert(p0, t, l, q1, cell@);
                    }
                    pager.write_page(l, page);
                    proof {
                        let p1 = pager@;
                        assert(super::pager::page_cells(q1).len() == super::pager::page_cells(
                            q0,
                        ).len() + 1);
                        assert(super::pager::page_cells(q1)[index as int] == cell@);
                        assert(p1 == p0.update(l as int, q1));
                        assert forall|p: int, c: int| cell_at(p0, p, c) is Some implies #[trigger] cell_at(
                            p1,
                            p,
                            c,
                        ) == cell_at(p0, p, c) by {
                            if p == l {
                                assert(super::pager::page_cells(q1)[c] == super::pager::page_cells(
                                    q0,
                                )[c]);
                            } else {
                                assert(p1[p] == p0[p]);
                            }
                        }
                    }
                    return Ok((l, index));
                },
                None => {},
            }
        },
        None => {},
    }
    let mut page = new_page(t);
    proof {
        super::pager::blank_cells(t);
    }
    match insert_cell(&mut page, cell) {
        None => Err(StoreError::CellTooLarge),
        Some(index) => {
            let ghost q1 = page@;
            match pager.add_page(page) {
                Err(e) => Err(e),
                Ok(num) => {
                    *last = Some(num);
                    proof {
                        let p1 = pager@;
                        cells_append(p0, t, q1);
                        let c0 = all_cells(p0, t)->Some_0;
                        assert(Seq::<Seq<u8>>::empty().push(cell@)[0] == cell@);
                        assert(c0 + Seq::<Seq<u8>>::empty().push(cell@) =~= c0.push(cell@));
                        assert(p1[num as int] == q1);
                        assert forall|p: int, c: int| cell_at(p0, p, c) is Some implies #[trigger] cell_at(
                            p1,
                            p,
                            c,
                        ) == cell_at(p0, p, c) by {
                            assert(p1[p] == p0[p]);
                        }
                    }
                    Ok((num, index))
                },
            }
        },
    }
}

/// No page has more room than a new one.
proof fn fits_on_page(page: Seq<u8>, cell: Seq<u8>)
    requires
        super::pager::cells_ok(page),
        cell.len() <= super::pager::cell_room(page),
    ensures
        cell.len() <= MAX_CELL,
{
    let n = super::pager::cell_count(page);
    if n > 0 {
        super::pager::offsets_in_page(page, n - 1);
    }
}

/// The bytes of the `index`th cell.
pub fn copy_cell(page: &Vec<u8>, index: u16) -> (r: Vec<u8>)
    requires
        super::pager::cells_ok(page@),
        index < super::pager::cell_count(page@),
    ensures
        r@ == super::pager::page_cells(page@)[index as int],
{
    proof {
        super::pager::offsets_in_page(page@, index as int);
    }
    let start = get_u16(page, PAGE_HEADER + 2 * (index as usize)) as usize;
    let end: usize = if index == 0 {
        PAGE_SIZE
    } else {
        get_u16(page, PAGE_HEADER + 2 * (index as usize - 1)) as usize
    };
    copy_range(page, start, end)
}

/// The contents of several cells.
pub open spec fn cell_views(v: Seq<Vec<u8>>) -> Seq<Seq<u8>> {
    Seq::new(v.len(), |i: int| v[i]@)
}

/// The cells on the pages of a type.
pub fn collect_cells(pager: &Pager, t: PageType) -> (r: Option<Vec<Vec<u8>>>)
    requires
        pager.wf(),
    ensures
        match r {
            Some(v) => all_cells(pager@, t) == Some(cell_views(v@)),
            None => all_cells(pager@, t) is None,
        },
{
    let mut out: Vec<Vec<u8>> = Vec::new();
    let mut n: usize = 1;
    assert(cell_views(out@) =~= Seq::empty());
    while n < pager.pages.len()
        invariant
            1 <= n <= pager.pages.len(),
            pager.wf(),
            cells_upto(pager@, t, n as nat) == Some(cell_views(out@)),
        decreases pager.pages.len() - n,
    {
        let page = &pager.pages[n];
        assert(pager@[n as int] == page@);
        assert(page@.len() == PAGE_SIZE);
        if page[0] == t.code() {
            if !check_cells(page) {
                proof {
                    cells_missing(pager@, t, (n + 1) as nat, pager@.len());
                }
                return None;
            }
            let count = get_u16(page, 2);
            let ghost before = cell_views(out@);
            let ghost all = super::pager::page_cells(page@);
            let mut i: u16 = 0;
            assert(before + all.take(0) =~= before);
            while i < count
                invariant
                    i <= count,
                    count == super::pager::cell_count(page@),
                    super::pager::cells_ok(page@),
                    all == super::pager::page_cells(page@),
                    cell_views(out@) == before + all.take(i as int),
                decreases count - i,
            {
                let c = copy_cell(page, i);
                let ghost sofar = cell_views(out@);
                out.push(c);
                proof {
                    assert(cell_views(out@) =~= sofar.push(c@));
                    assert(all.take(i + 1) =~= all.take(i as int).push(all[i as int]));
                    assert(before + all.take(i + 1) =~= (before + all.take(i as int)).push(
                        all[i as int],
                    ));
                }
                i = i + 1;
            }
            assert(all.take(i as int) =~= all);
        }
        n = n + 1;
    }
    Some(out)
}

proof fn cells_missing(pages: Seq<Seq<u8>>, t: PageType, n: nat, m: nat)
    requires
        1 <= n <= m,
        cells_upto(pages, t, n) is None,
    ensures
        cells_upto(pages, t, m) is None,
    decreases m,
{
    if n < m {
        cells_missing(pages, t, n, (m - 1) as nat);
    }
}

/// Where the cells of the first pages of a type are.
pub open spec fn places_upto(pages: Seq<Seq<u8>>, t: PageType, n: nat) -> Seq<(u32, u16)>
    decreases n,
{
    if n <= 1 {
        Seq::empty()
    } else {
        let rest = places_upto(pages, t, (n - 1) as nat);
        if super::pager::has_type(pages[n - 1], t) {
            rest + Seq::new(
                super::pager::cell_count(pages[n - 1]) as nat,
                |i: int| ((n - 1) as u32, i as u16),
            )
        } else {
            rest
        }
    }
}

/// Each cell is at its place.
pub proof fn places_of_cells(pages: Seq<Seq<u8>>, t: PageType, n: nat)
    requires
        n <= pages.len() <= u32::MAX,
        cells_upto(pages, t, n) is Some,
    ensures
        places_upto(pages, t, n).len() == cells_upto(pages, t, n)->Some_0.len(),
        forall|i: int|
            0 <= i < places_upto(pages, t, n).len() ==> cell_at(
                pages,
                (#[trigger] places_upto(pages, t, n)[i]).0 as int,
                places_upto(pages, t, n)[i].1 as int,
            ) == Some(cells_upto(pages, t, n)->Some_0[i]),
    decreases n,
{
    if n > 1 {
        places_of_cells(pages, t, (n - 1) as nat);
        let a = places_upto(pages, t, (n - 1) as nat);
        let ca = cells_upto(pages, t, (n - 1) as nat)->Some_0;
        let b = places_upto(pages, t, n);
        let cb = cells_upto(pages, t, n)->Some_0;
        if super::pager::has_type(pages[n - 1], t) {
            assert forall|i: int| 0 <= i < b.len() implies cell_at(
                pages,
                (#[trigger] b[i]).0 as int,
                b[i].1 as int,
            ) == Some(cb[i]) by {
                if i < a.len() {
                    assert(b[i] == a[i]);
                    assert(cb[i] == ca[i]);
                } else {
                    let j = i - a.len();
                    assert(b[i] == ((n - 1) as u32, j as u16));
                    assert(cb[i] == super::pager::page_cells(pages[n - 1])[j]);
                }
            }
        }
    }
}

/// Where the cells of a type are.
pub fn collect_places(pager: &Pager, t: PageType) -> (r: Vec<(u32, u16)>)
    requires
        pager.wf(),
    ensures
        r@ == places_upto(pager@, t, pager@.len()),
{
    let mut out: Vec<(u32, u16)> = Vec::new();
    let mut n: usize = 1;
    while n < pager.pages.len()
        invariant
            1 <= n <= pager.pages.len(),
            pager.wf(),
            out@ == places_upto(pager@, t, n as nat),
        decreases pager.pages.len() - n,
    {
        let page = &pager.pages[n];
        assert(pager@[n as int] == page@);
        assert(page@.len() == PAGE_SIZE);
        if page[0] == t.code() {
            let count = get_u16(page, 2);
            let ghost before = out@;
            let ghost all = Seq::new(count as nat, |i: int| (n as u32, i as u16));
            let mut i: u16 = 0;
            assert(before + all.take(0) =~= before);
            while i < count
                invariant
                    i <= count,
                    n < pager.pages.len() <= u32::MAX,
                    all == Seq::new(count as nat, |i: int| (n as u32, i as u16)),
                    out@ == before + all.take(i as int),
                decreases count - i,
            {
                out.push((n as u32, i));
                proof {
                    assert(all.take(i + 1) =~= all.take(i as int).push((n as u32, i)));
                    assert(before + all.take(i + 1) =~= (before + all.take(i as int)).push(
                        (n as u32, i),
                    ));
                }
                i = i + 1;
            }
            assert(all.take(i as int) =~= all);
        }
        n = n + 1;
    }
    out
}

} // verus!
