//! Lists of fixed-size entries on chains of index pages.
//!
//! An index page has a count of entries, the number of the next page and the
//! entries one behind the other. The label index is a list of labels with the
//! first page of the ids under each, the adjacency index a list of nodes with
//! the first page of the edges at each.

use vstd::prelude::*;

use super::bytes::{copy_range, get_u16, get_u32, push_u32, put_u16, put_u32, write_at};
use super::pager::{new_page, PageType, Pager, StoreError, PAGE_SIZE};

verus! {

/// Where the entries of an index page start.
pub const IDX_HEADER: usize = 8;

/// An index page.
pub open spec fn index_page(count: u16, next: u32, payload: Seq<u8>) -> Seq<u8> {
    let p1 = super::bytes::splice(
        super::pager::blank(PageType::LabelIndex),
        2,
        super::bytes::le16(count),
    );
    let p2 = super::bytes::splice(p1, 4, super::bytes::le32(next));
    super::bytes::splice(p2, IDX_HEADER as int, payload)
}

proof fn index_page_parts(count: u16, next: u32, payload: Seq<u8>)
    requires
        IDX_HEADER + payload.len() <= PAGE_SIZE,
    ensures
        ({
            let p = index_page(count, next, payload);
            &&& p.len() == PAGE_SIZE
            &&& super::bytes::num16(p, 2) == count
            &&& super::bytes::num32(p, 4) == next
            &&& p.subrange(IDX_HEADER as int, IDX_HEADER + payload.len()) == payload
            &&& super::pager::has_type(p, PageType::LabelIndex)
        }),
{
    super::bytes::numbers_16();
    super::bytes::numbers_32();
    let p0 = super::pager::blank(PageType::LabelIndex);
    let b1 = super::bytes::le16(count);
    let b2 = super::bytes::le32(next);
    let p1 = super::bytes::splice(p0, 2, b1);
    let p2 = super::bytes::splice(p1, 4, b2);
    super::bytes::splice_put(p0, 2, b1);
    super::bytes::splice_put(p1, 4, b2);
    super::bytes::splice_put(p2, IDX_HEADER as int, payload);
    super::bytes::splice_keeps(p1, 4, b2, 2, 4);
    super::bytes::splice_keeps(p2, IDX_HEADER as int, payload, 2, 4);
    super::bytes::splice_keeps(p2, IDX_HEADER as int, payload, 4, 8);
    assert(p1[0] == p0[0]);
    assert(p2[0] == p1[0]);
    assert(index_page(count, next, payload)[0] == p2[0]);
}

/// The entries on a chain of pages, as bytes. A chain over more pages than
/// `fuel` goes round in a circle.
pub open spec fn chain_bytes(pages: Seq<Seq<u8>>, first: u32, width: nat, fuel: nat) -> Result<
    Seq<u8>,
    StoreError,
>
    decreases fuel,
{
    if first == 0 {
        Ok(Seq::empty())
    } else if fuel == 0 {
        Err(StoreError::Malformed)
    } else if first >= pages.len() {
        Err(StoreError::NoSuchPage)
    } else {
        let page = pages[first as int];
        let n = super::bytes::num16(page, 2) * width;
        if IDX_HEADER + n > PAGE_SIZE {
            Err(StoreError::Malformed)
        } else {
            match chain_bytes(pages, super::bytes::num32(page, 4), width, (fuel - 1) as nat) {
                Ok(rest) => Ok(page.subrange(IDX_HEADER as int, IDX_HEADER + n) + rest),
                Err(e) => Err(e),
            }
        }
    }
}

/// The entries of a list, as bytes.
pub open spec fn list_bytes(pages: Seq<Seq<u8>>, first: u32, width: nat) -> Result<
    Seq<u8>,
    StoreError,
> {
    chain_bytes(pages, first, width, pages.len())
}

/// A chain that ends reads the same behind more pages and with more fuel.
proof fn chain_frame(a: Seq<Seq<u8>>, b: Seq<Seq<u8>>, first: u32, width: nat, f: nat, g: nat)
    requires
        a.is_prefix_of(b),
        f <= g,
        chain_bytes(a, first, width, f) is Ok,
    ensures
        chain_bytes(b, first, width, g) == chain_bytes(a, first, width, f),
    decreases f,
{
    if first != 0 {
        let page = a[first as int];
        assert(b[first as int] == page);
        chain_frame(
            a,
            b,
            super::bytes::num32(page, 4),
            width,
            (f - 1) as nat,
            (g - 1) as nat,
        );
    }
}

/// A list reads the same behind more pages.
pub proof fn list_frame(a: Seq<Seq<u8>>, b: Seq<Seq<u8>>, first: u32, width: nat)
    requires
        a.is_prefix_of(b),
        list_bytes(a, first, width) is Ok,
    ensures
        list_bytes(b, first, width) == list_bytes(a, first, width),
{
    chain_frame(a, b, first, width, a.len(), b.len());
}

/// The types of pages that lists take.
pub open spec fn index_kinds() -> Set<u8> {
    set![PageType::LabelIndex.byte()]
}

/// What lists do to the pages: new index pages stand at the end.
pub open spec fn appended(a: Seq<Seq<u8>>, b: Seq<Seq<u8>>) -> bool {
    a.is_prefix_of(b) && forall|i: int|
        a.len() <= i < b.len() ==> super::pager::has_type(#[trigger] b[i], PageType::LabelIndex)
}

/// Pages added one time and again.
pub proof fn appended_twice(a: Seq<Seq<u8>>, b: Seq<Seq<u8>>, c: Seq<Seq<u8>>)
    requires
        appended(a, b),
        appended(b, c),
    ensures
        appended(a, c),
{
    assert(c.subrange(0, a.len() as int) =~= a) by {
        assert(b.subrange(0, a.len() as int) =~= a);
        assert(c.subrange(0, b.len() as int) =~= b);
        assert forall|i: int| 0 <= i < a.len() implies c[i] == a[i] by {
            assert(b.subrange(0, a.len() as int)[i] == a[i]);
            assert(c.subrange(0, b.len() as int)[i] == b[i]);
        }
    }
    assert forall|i: int| a.len() <= i < c.len() implies super::pager::has_type(
        #[trigger] c[i],
        PageType::LabelIndex,
    ) by {
        if i < b.len() {
            assert(c.subrange(0, b.len() as int)[i] == b[i]);
        }
    }
}

proof fn appended_page(a: Seq<Seq<u8>>, page: Seq<u8>)
    requires
        super::pager::has_type(page, PageType::LabelIndex),
    ensures
        appended(a, a.push(page)),
{
    assert(a.push(page).subrange(0, a.len() as int) =~= a);
}

proof fn appended_none(a: Seq<Seq<u8>>)
    ensures
        appended(a, a),
{
    assert(a.subrange(0, a.len() as int) =~= a);
}

/// The fewest entries that fill a page.
pub const PAGE_ENTRIES: usize = 454;

/// How many pages a list of so many entries takes at most.
pub open spec fn list_pages(n: nat) -> nat {
    (1 + n as int / PAGE_ENTRIES as int) as nat
}

/// How many pages lists take at most.
pub open spec fn lists_pages<T>(lists: Seq<Seq<T>>) -> nat
    decreases lists.len(),
{
    if lists.len() == 0 {
        0
    } else {
        lists_pages(lists.drop_last()) + list_pages(lists.last().len())
    }
}

/// How many entries lists have.
pub open spec fn total_len<T>(lists: Seq<Seq<T>>) -> nat
    decreases lists.len(),
{
    if lists.len() == 0 {
        0
    } else {
        total_len(lists.drop_last()) + lists.last().len()
    }
}

/// The lists of an index.
pub open spec fn entry_lists<T>(entries: Seq<(u32, Seq<T>)>) -> Seq<Seq<T>> {
    Seq::new(entries.len(), |i: int| entries[i].1)
}

/// How many pages an index takes at most: its lists, and its root.
pub open spec fn index_pages<T>(entries: Seq<(u32, Seq<T>)>) -> nat {
    lists_pages(entry_lists(entries)) + list_pages(entries.len())
}

/// The first lists take no more pages than all.
pub proof fn lists_pages_prefix<T>(lists: Seq<Seq<T>>, i: int)
    requires
        0 <= i <= lists.len(),
    ensures
        lists_pages(lists.take(i)) <= lists_pages(lists),
    decreases lists.len(),
{
    if i < lists.len() {
        assert(lists.drop_last().take(i) =~= lists.take(i));
        lists_pages_prefix(lists.drop_last(), i);
    } else {
        assert(lists.take(i) =~= lists);
    }
}

/// Lists with entries take no more pages than they have entries.
pub proof fn filled_lists_pages<T>(lists: Seq<Seq<T>>)
    requires
        forall|i: int| 0 <= i < lists.len() ==> (#[trigger] lists[i]).len() > 0,
    ensures
        lists_pages(lists) <= total_len(lists),
        lists.len() <= total_len(lists),
    decreases lists.len(),
{
    if lists.len() > 0 {
        assert forall|i: int| 0 <= i < lists.drop_last().len() implies (
        #[trigger] lists.drop_last()[i]).len() > 0 by {
            assert(lists[i].len() > 0);
        }
        filled_lists_pages(lists.drop_last());
        assert(lists[lists.len() - 1].len() > 0);
    }
}

/// One more entry in a list.
pub proof fn total_len_update<T>(lists: Seq<Seq<T>>, i: int, list: Seq<T>)
    requires
        0 <= i < lists.len(),
    ensures
        total_len(lists.update(i, list)) == total_len(lists) - lists[i].len() + list.len(),
    decreases lists.len(),
{
    let all = lists.update(i, list);
    if i < lists.len() - 1 {
        assert(all.drop_last() =~= lists.drop_last().update(i, list));
        total_len_update(lists.drop_last(), i, list);
    } else {
        assert(all.drop_last() =~= lists.drop_last());
    }
}

/// Adds a page in front of a chain.
fn add_index_page(pager: &mut Pager, count: u16, next: u32, payload: &Vec<u8>, width: usize) -> (r:
    Result<u32, StoreError>)
    requires
        old(pager).wf(),
        width > 0,
        payload@.len() == count * width,
        IDX_HEADER + payload@.len() <= PAGE_SIZE,
        list_bytes(old(pager)@, next, width as nat) is Ok,
    ensures
        final(pager).wf(),
        final(pager).free == old(pager).free,
        final(pager).header == old(pager).header,
        appended(old(pager)@, final(pager)@),
        match r {
            Ok(page) => 0 < page && list_bytes(final(pager)@, page, width as nat) == Ok::<
                _,
                StoreError,
            >(payload@ + list_bytes(old(pager)@, next, width as nat)->Ok_0) && final(pager)@.len()
                == old(pager)@.len() + 1,
            Err(e) => e == StoreError::Full && old(pager)@.len() == u32::MAX,
        },
{
    let ghost before = pager@;
    let mut page = new_page(PageType::LabelIndex);
    put_u16(&mut page, 2, count);
    put_u32(&mut page, 4, next);
    write_at(&mut page, IDX_HEADER, payload.as_slice());
    let ghost contents = page@;
    proof {
        assert(contents == index_page(count, next, payload@));
        index_page_parts(count, next, payload@);
    }
    match pager.add_page(page) {
        Err(e) => {
            proof {
                appended_none(before);
            }
            Err(e)
        },
        Ok(num) => {
            proof {
                let after = pager@;
                appended_page(before, contents);
                chain_frame(before, after, next, width as nat, before.len(), before.len());
                assert(after[num as int] == contents);
            }
            Ok(num)
        },
    }
}

/// Writes entries of one width: the pages are filled from the front of the
/// list on, and the last of them is written first.
fn write_entries(pager: &mut Pager, data: &Vec<u8>, width: usize) -> (r: Result<u32, StoreError>)
    requires
        old(pager).wf(),
        0 < width <= 9,
        data@.len() % (width as nat) == 0,
    ensures
        final(pager).wf(),
        final(pager).free == old(pager).free,
        final(pager).header == old(pager).header,
        appended(old(pager)@, final(pager)@),
        match r {
            Ok(first) => 0 < first && list_bytes(final(pager)@, first, width as nat) == Ok::<
                _,
                StoreError,
            >(data@) && final(pager)@.len() <= old(pager)@.len() + list_pages(
                (data@.len() as int / width as int) as nat,
            ),
            Err(e) => e == StoreError::Full && old(pager)@.len() + list_pages(
                (data@.len() as int / width as int) as nat,
            ) > u32::MAX,
        },
{
    let ghost start = pager@;
    proof {
        appended_none(start);
    }
    if data.len() == 0 {
        let none: Vec<u8> = Vec::new();
        assert(none@ + Seq::<u8>::empty() =~= data@);
        assert(0int / width as int == 0) by (nonlinear_arith)
            requires
                width > 0,
        ;
        return add_index_page(pager, 0, 0, &none, width);
    }
    let per_page: usize = (PAGE_SIZE - IDX_HEADER) / width;
    proof {
        assert(per_page * width <= 4088) by (nonlinear_arith)
            requires
                per_page == 4088int / (width as int),
                0 < width <= 9,
        ;
        assert(per_page >= 454) by (nonlinear_arith)
            requires
                per_page == 4088int / (width as int),
                0 < width <= 9,
        ;
        assert(per_page <= 4088) by (nonlinear_arith)
            requires
                per_page == 4088int / (width as int),
                0 < width <= 9,
        ;
    }
    let total: usize = data.len() / width;
    let ghost w = width as int;
    proof {
        vstd::arithmetic::div_mod::lemma_fundamental_div_mod(data@.len() as int, w);
        assert(total * width == data@.len()) by (nonlinear_arith)
            requires
                data@.len() == w * (data@.len() as int / w) + data@.len() as int % w,
                data@.len() as int % w == 0,
                total == data@.len() as int / w,
                w == width,
        ;
        assert(total > 0) by (nonlinear_arith)
            requires
                total * width == data@.len(),
                data@.len() > 0,
        ;
    }
    let mut left: usize = total;
    let mut next: u32 = 0;
    let ghost mut todo: int = (total - 1) / per_page as int + 1;
    proof {
        assert(data@.skip(left * width) =~= Seq::empty());
        assert(todo <= 1 + total / 454) by (nonlinear_arith)
            requires
                todo == (total - 1) / per_page as int + 1,
                per_page >= 454,
                total > 0,
        ;
    }
    let ghost all = todo;
    while left > 0
        invariant
            left <= total,
            0 < width <= 9,
            w == width,
            total * width == data@.len(),
            total > 0,
            per_page * width <= 4088,
            454 <= per_page <= 4088,
            left < total ==> next > 0,
            pager.wf(),
            pager.free == old(pager).free,
            pager.header == old(pager).header,
            start == old(pager)@,
            appended(start, pager@),
            list_bytes(pager@, next, width as nat) == Ok::<_, StoreError>(
                data@.skip(left * width),
            ),
            total == data@.len() as int / width as int,
            all <= list_pages(total as nat),
            left > 0 ==> todo == (left - 1) / per_page as int + 1,
            left == 0 ==> todo == 0,
            pager@.len() == start.len() + all - todo,
        decreases left,
    {
        assert((left - 1) / per_page as int >= 0) by (nonlinear_arith)
            requires
                left > 0,
                per_page > 0,
        ;
        let full: usize = (left - 1) / per_page;
        let count: usize;
        proof {
            assert(full * per_page < left) by (nonlinear_arith)
                requires
                    full == (left - 1) / (per_page as int),
                    per_page > 0,
                    left > 0,
            ;
            assert(left - full * per_page <= per_page) by (nonlinear_arith)
                requires
                    full == (left - 1) / (per_page as int),
                    per_page > 0,
                    left > 0,
            ;
        }
        let from: usize = full * per_page;
        count = left - from;
        proof {
            assert(from * width <= left * width <= total * width) by (nonlinear_arith)
                requires
                    from <= left <= total,
            ;
            assert(left * width - from * width == count * width) by (nonlinear_arith)
                requires
                    count == left - from,
            ;
            assert(count * width <= per_page * width) by (nonlinear_arith)
                requires
                    count <= per_page,
            ;
        }
        let n = data.len();
        let payload = copy_range(data, from * width, left * width);
        let ghost mid = pager@;
        match add_index_page(pager, count as u16, next, &payload, width) {
            Err(e) => {
                proof {
                    appended_twice(start, mid, pager@);
                }
                return Err(e);
            },
            Ok(num) => {
                proof {
                    appended_twice(start, mid, pager@);
                    assert(payload@ + data@.skip(left * width) =~= data@.skip(from * width));
                    todo = todo - 1;
                    assert(from > 0 ==> (from - 1) / per_page as int + 1 == todo) by (
                    nonlinear_arith)
                        requires
                            from == full * per_page,
                            todo == full,
                            per_page > 0,
                    ;
                    assert(from == 0 ==> full == 0) by (nonlinear_arith)
                        requires
                            from == full * per_page,
                            per_page > 0,
                    ;
                }
                next = num;
                left = from;
            },
        }
    }
    assert(data@.skip(0) =~= data@);
    Ok(next)
}

/// Reads entries of one width.
fn read_entries(pager: &Pager, first: u32, width: usize) -> (r: Result<Vec<u8>, StoreError>)
    requires
        pager.wf(),
        0 < width <= 9,
    ensures
        match r {
            Ok(data) => list_bytes(pager@, first, width as nat) == Ok::<_, StoreError>(data@),
            Err(e) => list_bytes(pager@, first, width as nat) == Err::<Seq<u8>, _>(e),
        },
{
    let mut buf: Vec<u8> = Vec::new();
    let mut current = first;
    let mut fuel: usize = pager.pages.len();
    proof {
        match list_bytes(pager@, first, width as nat) {
            Ok(rest) => {
                assert(Seq::<u8>::empty() + rest =~= rest);
            },
            Err(_) => {},
        }
    }
    while current != 0
        invariant
            pager.wf(),
            0 < width <= 9,
            list_bytes(pager@, first, width as nat) == (match chain_bytes(
                pager@,
                current,
                width as nat,
                fuel as nat,
            ) {
                Ok(rest) => Ok(buf@ + rest),
                Err(e) => Err(e),
            }),
        decreases fuel,
    {
        if fuel == 0 {
            return Err(StoreError::Malformed);
        }
        let page = match pager.read_page(current) {
            Ok(p) => p,
            Err(e) => {
                return Err(e);
            },
        };
        assert(page@.len() == PAGE_SIZE);
        let count = get_u16(page, 2) as usize;
        proof {
            assert(count * width <= 65535 * 9) by (nonlinear_arith)
                requires
                    count <= 65535,
                    width <= 9,
            ;
        }
        let n: usize = count * width;
        if IDX_HEADER + n > PAGE_SIZE {
            return Err(StoreError::Malformed);
        }
        let next = get_u32(page, 4);
        let ghost before = buf@;
        let mut part = copy_range(page, IDX_HEADER, IDX_HEADER + n);
        let ghost added = part@;
        buf.append(&mut part);
        proof {
            match chain_bytes(pager@, next, width as nat, (fuel - 1) as nat) {
                Ok(rest) => {
                    assert(before + (added + rest) =~= buf@ + rest);
                },
                Err(_) => {},
            }
        }
        current = next;
        fuel = fuel - 1;
    }
    assert(buf@ + Seq::<u8>::empty() =~= buf@);
    Ok(buf)
}

/// The ids in some bytes.
pub open spec fn ids_in(bytes: Seq<u8>) -> Seq<u32> {
    Seq::new(bytes.len() / 4, |i: int| super::bytes::num32(bytes, 4 * i))
}

/// The pairs of numbers in some bytes.
pub open spec fn pairs_in(bytes: Seq<u8>) -> Seq<(u32, u32)> {
    Seq::new(
        bytes.len() / 8,
        |i: int| (super::bytes::num32(bytes, 8 * i), super::bytes::num32(bytes, 8 * i + 4)),
    )
}

/// The triples in some bytes: two numbers and a byte.
pub open spec fn triples_in(bytes: Seq<u8>) -> Seq<(u32, u32, u8)> {
    Seq::new(
        bytes.len() / 9,
        |i: int|
            (
                super::bytes::num32(bytes, 9 * i),
                super::bytes::num32(bytes, 9 * i + 4),
                bytes[9 * i + 8],
            ),
    )
}

/// The list of ids that starts on a page.
pub open spec fn u32_list(pages: Seq<Seq<u8>>, first: u32) -> Result<Seq<u32>, StoreError> {
    match list_bytes(pages, first, 4) {
        Ok(bytes) => Ok(ids_in(bytes)),
        Err(e) => Err(e),
    }
}

/// The list of pairs that starts on a page.
pub open spec fn pair_list(pages: Seq<Seq<u8>>, first: u32) -> Result<Seq<(u32, u32)>, StoreError> {
    match list_bytes(pages, first, 8) {
        Ok(bytes) => Ok(pairs_in(bytes)),
        Err(e) => Err(e),
    }
}

/// The list of triples that starts on a page.
pub open spec fn triple_list(pages: Seq<Seq<u8>>, first: u32) -> Result<
    Seq<(u32, u32, u8)>,
    StoreError,
> {
    match list_bytes(pages, first, 9) {
        Ok(bytes) => Ok(triples_in(bytes)),
        Err(e) => Err(e),
    }
}

/// Lists read the same behind more pages.
pub proof fn lists_frame(a: Seq<Seq<u8>>, b: Seq<Seq<u8>>, first: u32)
    requires
        a.is_prefix_of(b),
    ensures
        u32_list(a, first) is Ok ==> u32_list(b, first) == u32_list(a, first),
        pair_list(a, first) is Ok ==> pair_list(b, first) == pair_list(a, first),
        triple_list(a, first) is Ok ==> triple_list(b, first) == triple_list(a, first),
{
    if list_bytes(a, first, 4) is Ok {
        list_frame(a, b, first, 4);
    }
    if list_bytes(a, first, 8) is Ok {
        list_frame(a, b, first, 8);
    }
    if list_bytes(a, first, 9) is Ok {
        list_frame(a, b, first, 9);
    }
}

/// One more id behind the others.
proof fn ids_push(bytes: Seq<u8>, x: u32)
    requires
        bytes.len() % 4 == 0,
    ensures
        ids_in(bytes + super::bytes::le32(x)) == ids_in(bytes).push(x),
        (bytes + super::bytes::le32(x)).len() == bytes.len() + 4,
{
    super::bytes::numbers_32();
    let all = bytes + super::bytes::le32(x);
    let n = (bytes.len() / 4) as int;
    assert forall|i: int| 0 <= i < n + 1 implies #[trigger] ids_in(all)[i] == ids_in(bytes).push(
        x,
    )[i] by {
        if i < n {
            assert(all.subrange(4 * i, 4 * i + 4) =~= bytes.subrange(4 * i, 4 * i + 4));
        } else {
            assert(all.subrange(4 * i, 4 * i + 4) =~= super::bytes::le32(x));
        }
    }
    assert(ids_in(all) =~= ids_in(bytes).push(x));
}

proof fn pairs_push(bytes: Seq<u8>, x: u32, y: u32)
    requires
        bytes.len() % 8 == 0,
    ensures
        pairs_in(bytes + super::bytes::le32(x) + super::bytes::le32(y)) == pairs_in(bytes).push(
            (x, y),
        ),
        (bytes + super::bytes::le32(x) + super::bytes::le32(y)).len() == bytes.len() + 8,
{
    super::bytes::numbers_32();
    let all = bytes + super::bytes::le32(x) + super::bytes::le32(y);
    let n = (bytes.len() / 8) as int;
    assert forall|i: int| 0 <= i < n + 1 implies #[trigger] pairs_in(all)[i] == pairs_in(
        bytes,
    ).push((x, y))[i] by {
        if i < n {
            assert(all.subrange(8 * i, 8 * i + 4) =~= bytes.subrange(8 * i, 8 * i + 4));
            assert(all.subrange(8 * i + 4, 8 * i + 8) =~= bytes.subrange(8 * i + 4, 8 * i + 8));
        } else {
            assert(all.subrange(8 * i, 8 * i + 4) =~= super::bytes::le32(x));
            assert(all.subrange(8 * i + 4, 8 * i + 8) =~= super::bytes::le32(y));
        }
    }
    assert(pairs_in(all) =~= pairs_in(bytes).push((x, y)));
}

proof fn triples_push(bytes: Seq<u8>, x: u32, y: u32, z: u8)
    requires
        bytes.len() % 9 == 0,
    ensures
        triples_in((bytes + super::bytes::le32(x) + super::bytes::le32(y)).push(z)) == triples_in(
            bytes,
        ).push((x, y, z)),
        (bytes + super::bytes::le32(x) + super::bytes::le32(y)).push(z).len() == bytes.len() + 9,
{
    super::bytes::numbers_32();
    let all = (bytes + super::bytes::le32(x) + super::bytes::le32(y)).push(z);
    let n = (bytes.len() / 9) as int;
    assert forall|i: int| 0 <= i < n + 1 implies #[trigger] triples_in(all)[i] == triples_in(
        bytes,
    ).push((x, y, z))[i] by {
        if i < n {
            assert(all.subrange(9 * i, 9 * i + 4) =~= bytes.subrange(9 * i, 9 * i + 4));
            assert(all.subrange(9 * i + 4, 9 * i + 8) =~= bytes.subrange(9 * i + 4, 9 * i + 8));
        } else {
            assert(all.subrange(9 * i, 9 * i + 4) =~= super::bytes::le32(x));
            assert(all.subrange(9 * i + 4, 9 * i + 8) =~= super::bytes::le32(y));
        }
    }
    assert(triples_in(all) =~= triples_in(bytes).push((x, y, z)));
}

/// Writes a list of ids. Only running out of pages stops it.
pub fn write_u32_list(pager: &mut Pager, values: &Vec<u32>) -> (r: Result<u32, StoreError>)
    requires
        old(pager).wf(),
    ensures
        final(pager).wf(),
        final(pager).free == old(pager).free,
        final(pager).header == old(pager).header,
        appended(old(pager)@, final(pager)@),
        match r {
            Ok(first) => 0 < first && u32_list(final(pager)@, first) == Ok::<_, StoreError>(
                values@,
            ) && final(pager)@.len() <= old(pager)@.len() + list_pages(values@.len()),
            Err(e) => e == StoreError::Full && old(pager)@.len() + list_pages(values@.len()) > u32::MAX,
        },
{
    let mut data: Vec<u8> = Vec::new();
    let mut i: usize = 0;
    assert(ids_in(data@) =~= values@.take(0));
    while i < values.len()
        invariant
            i <= values.len(),
            data@.len() == 4 * i,
            ids_in(data@) == values@.take(i as int),
        decreases values.len() - i,
    {
        proof {
            ids_push(data@, values@[i as int]);
            assert(values@.take(i + 1) =~= values@.take(i as int).push(values@[i as int]));
        }
        push_u32(&mut data, values[i]);
        i = i + 1;
    }
    assert(values@.take(i as int) =~= values@);
    write_entries(pager, &data, 4)
}

/// Writes a list of pairs. Only running out of pages stops it.
pub fn write_pair_list(pager: &mut Pager, pairs: &Vec<(u32, u32)>) -> (r: Result<u32, StoreError>)
    requires
        old(pager).wf(),
    ensures
        final(pager).wf(),
        final(pager).free == old(pager).free,
        final(pager).header == old(pager).header,
        appended(old(pager)@, final(pager)@),
        match r {
            Ok(first) => 0 < first && pair_list(final(pager)@, first) == Ok::<_, StoreError>(
                pairs@,
            ) && final(pager)@.len() <= old(pager)@.len() + list_pages(pairs@.len()),
            Err(e) => e == StoreError::Full && old(pager)@.len() + list_pages(pairs@.len()) > u32::MAX,
        },
{
    let mut data: Vec<u8> = Vec::new();
    let mut i: usize = 0;
    assert(pairs_in(data@) =~= pairs@.take(0));
    while i < pairs.len()
        invariant
            i <= pairs.len(),
            data@.len() == 8 * i,
            pairs_in(data@) == pairs@.take(i as int),
        decreases pairs.len() - i,
    {
        proof {
            pairs_push(data@, pairs@[i as int].0, pairs@[i as int].1);
            assert(pairs@.take(i + 1) =~= pairs@.take(i as int).push(pairs@[i as int]));
        }
        push_u32(&mut data, pairs[i].0);
        push_u32(&mut data, pairs[i].1);
        i = i + 1;
    }
    assert(pairs@.take(i as int) =~= pairs@);
    write_entries(pager, &data, 8)
}

/// Writes a list of triples. Only running out of pages stops it.
pub fn write_triple_list(pager: &mut Pager, triples: &Vec<(u32, u32, u8)>) -> (r: Result<
    u32,
    StoreError,
>)
    requires
        old(pager).wf(),
    ensures
        final(pager).wf(),
        final(pager).free == old(pager).free,
        final(pager).header == old(pager).header,
        appended(old(pager)@, final(pager)@),
        match r {
            Ok(first) => 0 < first && triple_list(final(pager)@, first) == Ok::<_, StoreError>(
                triples@,
            ) && final(pager)@.len() <= old(pager)@.len() + list_pages(triples@.len()),
            Err(e) => e == StoreError::Full && old(pager)@.len() + list_pages(triples@.len()) > u32::MAX,
        },
{
    let mut data: Vec<u8> = Vec::new();
    let mut i: usize = 0;
    assert(triples_in(data@) =~= triples@.take(0));
    while i < triples.len()
        invariant
            i <= triples.len(),
            data@.len() == 9 * i,
            triples_in(data@) == triples@.take(i as int),
        decreases triples.len() - i,
    {
        proof {
            let t = triples@[i as int];
            triples_push(data@, t.0, t.1, t.2);
            assert(triples@.take(i + 1) =~= triples@.take(i as int).push(t));
        }
        push_u32(&mut data, triples[i].0);
        push_u32(&mut data, triples[i].1);
        data.push(triples[i].2);
        i = i + 1;
    }
    assert(triples@.take(i as int) =~= triples@);
    write_entries(pager, &data, 9)
}

/// Reads a list of ids.
pub fn read_u32_chain(pager: &Pager, first_page: u32) -> (r: Result<Vec<u32>, StoreError>)
    requires
        pager.wf(),
    ensures
        match r {
            Ok(v) => u32_list(pager@, first_page) == Ok::<_, StoreError>(v@),
            Err(e) => u32_list(pager@, first_page) == Err::<Seq<u32>, _>(e),
        },
{
    let data = match read_entries(pager, first_page, 4) {
        Ok(d) => d,
        Err(e) => {
            return Err(e);
        },
    };
    let n: usize = data.len() / 4;
    let mut out: Vec<u32> = Vec::new();
    let mut i: usize = 0;
    while i < n
        invariant
            i <= n,
            n == data@.len() / 4,
            out@ == ids_in(data@).take(i as int),
        decreases n - i,
    {
        let all = data.len();
        out.push(get_u32(&data, 4 * i));
        i = i + 1;
        assert(out@ =~= ids_in(data@).take(i as int));
    }
    assert(out@ =~= ids_in(data@));
    Ok(out)
}

/// Reads a list of pairs.
pub fn read_pair_list(pager: &Pager, first_page: u32) -> (r: Result<Vec<(u32, u32)>, StoreError>)
    requires
        pager.wf(),
    ensures
        match r {
            Ok(v) => pair_list(pager@, first_page) == Ok::<_, StoreError>(v@),
            Err(e) => pair_list(pager@, first_page) == Err::<Seq<(u32, u32)>, _>(e),
        },
{
    let data = match read_entries(pager, first_page, 8) {
        Ok(d) => d,
        Err(e) => {
            return Err(e);
        },
    };
    let n: usize = data.len() / 8;
    let mut out: Vec<(u32, u32)> = Vec::new();
    let mut i: usize = 0;
    while i < n
        invariant
            i <= n,
            n == data@.len() / 8,
            out@ == pairs_in(data@).take(i as int),
        decreases n - i,
    {
        let all = data.len();
        out.push((get_u32(&data, 8 * i), get_u32(&data, 8 * i + 4)));
        i = i + 1;
        assert(out@ =~= pairs_in(data@).take(i as int));
    }
    assert(out@ =~= pairs_in(data@));
    Ok(out)
}

/// Reads a list of triples: an edge, the node at its other end, and its kind.
pub fn read_triple_chain(pager: &Pager, first_page: u32) -> (r: Result<
    Vec<(u32, u32, u8)>,
    StoreError,
>)
    requires
        pager.wf(),
    ensures
        match r {
            Ok(v) => triple_list(pager@, first_page) == Ok::<_, StoreError>(v@),
            Err(e) => triple_list(pager@, first_page) == Err::<Seq<(u32, u32, u8)>, _>(e),
        },
{
    let data = match read_entries(pager, first_page, 9) {
        Ok(d) => d,
        Err(e) => {
            return Err(e);
        },
    };
    let n: usize = data.len() / 9;
    let mut out: Vec<(u32, u32, u8)> = Vec::new();
    let mut i: usize = 0;
    while i < n
        invariant
            i <= n,
            n == data@.len() / 9,
            out@ == triples_in(data@).take(i as int),
        decreases n - i,
    {
        let all = data.len();
        out.push((get_u32(&data, 9 * i), get_u32(&data, 9 * i + 4), data[9 * i + 8]));
        i = i + 1;
        assert(out@ =~= triples_in(data@).take(i as int));
    }
    assert(out@ =~= triples_in(data@));
    Ok(out)
}

/// Reads the labels of a label index with the first page of each.
pub fn read_label_index_root(pager: &Pager, root_page: u32) -> (r: Result<
    Vec<(u32, u32)>,
    StoreError,
>)
    requires
        pager.wf(),
    ensures
        match r {
            Ok(v) => pair_list(pager@, root_page) == Ok::<_, StoreError>(v@),
            Err(e) => pair_list(pager@, root_page) == Err::<Seq<(u32, u32)>, _>(e),
        },
{
    read_pair_list(pager, root_page)
}

/// Reads the nodes of an adjacency index with the first page of each.
pub fn read_adjacency_root(pager: &Pager, root_page: u32) -> (r: Result<
    Vec<(u32, u32)>,
    StoreError,
>)
    requires
        pager.wf(),
    ensures
        match r {
            Ok(v) => pair_list(pager@, root_page) == Ok::<_, StoreError>(v@),
            Err(e) => pair_list(pager@, root_page) == Err::<Seq<(u32, u32)>, _>(e),
        },
{
    read_pair_list(pager, root_page)
}

/// An index from numbers to lists of ids, as it is stored at a root.
pub open spec fn id_index_at(pages: Seq<Seq<u8>>, root: u32, entries: Seq<(u32, Seq<u32>)>) -> bool {
    pair_list(pages, root) is Ok && ({
        let pairs = pair_list(pages, root)->Ok_0;
        pairs.len() == entries.len() && forall|i: int|
            0 <= i < entries.len() ==> (#[trigger] pairs[i]).0 == entries[i].0 && u32_list(
                pages,
                pairs[i].1,
            ) == Ok::<_, StoreError>(entries[i].1)
    })
}

/// An index from numbers to lists of triples, as it is stored at a root.
pub open spec fn triple_index_at(
    pages: Seq<Seq<u8>>,
    root: u32,
    entries: Seq<(u32, Seq<(u32, u32, u8)>)>,
) -> bool {
    pair_list(pages, root) is Ok && ({
        let pairs = pair_list(pages, root)->Ok_0;
        pairs.len() == entries.len() && forall|i: int|
            0 <= i < entries.len() ==> (#[trigger] pairs[i]).0 == entries[i].0 && triple_list(
                pages,
                pairs[i].1,
            ) == Ok::<_, StoreError>(entries[i].1)
    })
}

/// The entries of an index, with lists by their contents.
pub open spec fn id_entries(v: Seq<(u32, Vec<u32>)>) -> Seq<(u32, Seq<u32>)> {
    Seq::new(v.len(), |i: int| (v[i].0, v[i].1@))
}

/// The entries of an index, with lists by their contents.
pub open spec fn triple_entries(v: Seq<(u32, Vec<(u32, u32, u8)>)>) -> Seq<
    (u32, Seq<(u32, u32, u8)>),
> {
    Seq::new(v.len(), |i: int| (v[i].0, v[i].1@))
}

/// Writes a label index: a root with the labels, and the ids under each. Only
/// running out of pages stops it.
pub fn write_label_index(pager: &mut Pager, label_entries: &Vec<(u32, Vec<u32>)>) -> (r: Result<
    u32,
    StoreError,
>)
    requires
        old(pager).wf(),
    ensures
        final(pager).wf(),
        final(pager).free == old(pager).free,
        final(pager).header == old(pager).header,
        appended(old(pager)@, final(pager)@),
        match r {
            Ok(root) => 0 < root && id_index_at(
                final(pager)@,
                root,
                id_entries(label_entries@),
            ) && final(pager)@.len() <= old(pager)@.len() + index_pages(
                id_entries(label_entries@),
            ),
            Err(e) => e == StoreError::Full && old(pager)@.len() + index_pages(id_entries(label_entries@)) > u32::MAX,
        },
{
    let ghost start = pager@;
    let ghost all = entry_lists(id_entries(label_entries@));
    assert(lists_pages(all.take(0)) == 0);
    let mut root_entries: Vec<(u32, u32)> = Vec::new();
    let mut i: usize = 0;
    proof {
        appended_none(start);
    }
    while i < label_entries.len()
        invariant
            i <= label_entries.len(),
            pager.wf(),
            pager.free == old(pager).free,
            pager.header == old(pager).header,
            start == old(pager)@,
            appended(start, pager@),
            root_entries@.len() == i,
            all == entry_lists(id_entries(label_entries@)),
            pager@.len() <= start.len() + lists_pages(all.take(i as int)),
            forall|j: int|
                0 <= j < i ==> (#[trigger] root_entries@[j]).0 == label_entries@[j].0 && u32_list(
                    pager@,
                    root_entries@[j].1,
                ) == Ok::<_, StoreError>(label_entries@[j].1@),
        decreases label_entries.len() - i,
    {
        proof {
            assert(all.take(i + 1).drop_last() =~= all.take(i as int));
            assert(all.take(i + 1).last() == label_entries@[i as int].1@);
            lists_pages_prefix(all, i + 1);
        }
        let ghost mid = pager@;
        let written = write_u32_list(pager, &label_entries[i].1);
        proof {
            appended_twice(start, mid, pager@);
        }
        let first = match written {
            Ok(f) => f,
            Err(e) => {
                return Err(e);
            },
        };
        proof {
            assert forall|j: int| 0 <= j < i implies (#[trigger] root_entries@[j]).0
                == label_entries@[j].0 && u32_list(pager@, root_entries@[j].1) == Ok::<
                _,
                StoreError,
            >(label_entries@[j].1@) by {
                lists_frame(mid, pager@, root_entries@[j].1);
            }
        }
        root_entries.push((label_entries[i].0, first));
        i = i + 1;
    }
    assert(all.take(i as int) =~= all);
    let ghost mid = pager@;
    let written = write_pair_list(pager, &root_entries);
    proof {
        appended_twice(start, mid, pager@);
        if written is Ok {
            let pairs = root_entries@;
            assert forall|j: int| 0 <= j < pairs.len() implies (#[trigger] pairs[j]).0
                == id_entries(label_entries@)[j].0 && u32_list(pager@, pairs[j].1) == Ok::<
                _,
                StoreError,
            >(id_entries(label_entries@)[j].1) by {
                lists_frame(mid, pager@, pairs[j].1);
            }
        }
    }
    written
}

/// Writes an adjacency index: a root with the nodes, and the edges at each.
/// Only running out of pages stops it.
pub fn write_adjacency_index(pager: &mut Pager, adj_entries: &Vec<(u32, Vec<(u32, u32, u8)>)>) -> (r:
    Result<u32, StoreError>)
    requires
        old(pager).wf(),
    ensures
        final(pager).wf(),
        final(pager).free == old(pager).free,
        final(pager).header == old(pager).header,
        appended(old(pager)@, final(pager)@),
        match r {
            Ok(root) => 0 < root && triple_index_at(
                final(pager)@,
                root,
                triple_entries(adj_entries@),
            ) && final(pager)@.len() <= old(pager)@.len() + index_pages(
                triple_entries(adj_entries@),
            ),
            Err(e) => e == StoreError::Full && old(pager)@.len() + index_pages(triple_entries(adj_entries@)) > u32::MAX,
        },
{
    let ghost start = pager@;
    let ghost all = entry_lists(triple_entries(adj_entries@));
    assert(lists_pages(all.take(0)) == 0);
    let mut root_entries: Vec<(u32, u32)> = Vec::new();
    let mut i: usize = 0;
    proof {
        appended_none(start);
    }
    while i < adj_entries.len()
        invariant
            i <= adj_entries.len(),
            pager.wf(),
            pager.free == old(pager).free,
            pager.header == old(pager).header,
            start == old(pager)@,
            appended(start, pager@),
            root_entries@.len() == i,
            all == entry_lists(triple_entries(adj_entries@)),
            pager@.len() <= start.len() + lists_pages(all.take(i as int)),
            forall|j: int|
                0 <= j < i ==> (#[trigger] root_entries@[j]).0 == adj_entries@[j].0 && triple_list(
                    pager@,
                    root_entries@[j].1,
                ) == Ok::<_, StoreError>(adj_entries@[j].1@),
        decreases adj_entries.len() - i,
    {
        proof {
            assert(all.take(i + 1).drop_last() =~= all.take(i as int));
            assert(all.take(i + 1).last() == adj_entries@[i as int].1@);
            lists_pages_prefix(all, i + 1);
        }
        let ghost mid = pager@;
        let written = write_triple_list(pager, &adj_entries[i].1);
        proof {
            appended_twice(start, mid, pager@);
        }
        let first = match written {
            Ok(f) => f,
            Err(e) => {
                return Err(e);
            },
        };
        proof {
            assert forall|j: int| 0 <= j < i implies (#[trigger] root_entries@[j]).0
                == adj_entries@[j].0 && triple_list(pager@, root_entries@[j].1) == Ok::<
                _,
                StoreError,
            >(adj_entries@[j].1@) by {
                lists_frame(mid, pager@, root_entries@[j].1);
            }
        }
        root_entries.push((adj_entries[i].0, first));
        i = i + 1;
    }
    assert(all.take(i as int) =~= all);
    let ghost mid = pager@;
    let written = write_pair_list(pager, &root_entries);
    proof {
        appended_twice(start, mid, pager@);
        if written is Ok {
            let pairs = root_entries@;
            assert forall|j: int| 0 <= j < pairs.len() implies (#[trigger] pairs[j]).0
                == triple_entries(adj_entries@)[j].0 && triple_list(pager@, pairs[j].1) == Ok::<
                _,
                StoreError,
            >(triple_entries(adj_entries@)[j].1) by {
                lists_frame(mid, pager@, pairs[j].1);
            }
        }
    }
    written
}

/// Several lists of ids, stored at a root.
pub open spec fn lists_at(pages: Seq<Seq<u8>>, root: u32, lists: Seq<Seq<u32>>) -> bool {
    u32_list(pages, root) is Ok && ({
        let roots = u32_list(pages, root)->Ok_0;
        roots.len() == lists.len() && forall|i: int|
            0 <= i < lists.len() ==> u32_list(pages, #[trigger] roots[i]) == Ok::<_, StoreError>(
                lists[i],
            )
    })
}

/// The contents of several lists.
pub open spec fn list_views(v: Seq<Vec<u32>>) -> Seq<Seq<u32>> {
    Seq::new(v.len(), |i: int| v[i]@)
}

/// Writes several lists of ids under one root. Only running out of pages stops
/// it.
pub fn write_u32_lists(pager: &mut Pager, lists: &Vec<Vec<u32>>) -> (r: Result<u32, StoreError>)
    requires
        old(pager).wf(),
    ensures
        final(pager).wf(),
        final(pager).free == old(pager).free,
        final(pager).header == old(pager).header,
        appended(old(pager)@, final(pager)@),
        match r {
            Ok(root) => 0 < root && lists_at(final(pager)@, root, list_views(lists@))
                && final(pager)@.len() <= old(pager)@.len() + lists_pages(list_views(lists@))
                + list_pages(lists@.len()),
            Err(e) => e == StoreError::Full && old(pager)@.len() + lists_pages(list_views(lists@))
                + list_pages(lists@.len()) > u32::MAX,
        },
{
    let ghost start = pager@;
    let ghost all = list_views(lists@);
    assert(lists_pages(all.take(0)) == 0);
    let mut roots: Vec<u32> = Vec::new();
    let mut i: usize = 0;
    proof {
        appended_none(start);
    }
    while i < lists.len()
        invariant
            i <= lists.len(),
            pager.wf(),
            pager.free == old(pager).free,
            pager.header == old(pager).header,
            start == old(pager)@,
            appended(start, pager@),
            roots@.len() == i,
            all == list_views(lists@),
            pager@.len() <= start.len() + lists_pages(all.take(i as int)),
            forall|j: int|
                0 <= j < i ==> u32_list(pager@, #[trigger] roots@[j]) == Ok::<_, StoreError>(
                    lists@[j]@,
                ),
        decreases lists.len() - i,
    {
        proof {
            assert(all.take(i + 1).drop_last() =~= all.take(i as int));
            assert(all.take(i + 1).last() == lists@[i as int]@);
            lists_pages_prefix(all, i + 1);
        }
        let ghost mid = pager@;
        let written = write_u32_list(pager, &lists[i]);
        proof {
            appended_twice(start, mid, pager@);
        }
        let first = match written {
            Ok(f) => f,
            Err(e) => {
                return Err(e);
            },
        };
        proof {
            assert forall|j: int| 0 <= j < i implies u32_list(pager@, #[trigger] roots@[j])
                == Ok::<_, StoreError>(lists@[j]@) by {
                lists_frame(mid, pager@, roots@[j]);
            }
        }
        roots.push(first);
        i = i + 1;
    }
    assert(all.take(i as int) =~= all);
    let ghost mid = pager@;
    let written = write_u32_list(pager, &roots);
    proof {
        appended_twice(start, mid, pager@);
        if written is Ok {
            let rs = roots@;
            assert forall|j: int| 0 <= j < rs.len() implies u32_list(pager@, #[trigger] rs[j])
                == Ok::<_, StoreError>(list_views(lists@)[j]) by {
                lists_frame(mid, pager@, rs[j]);
            }
        }
    }
    written
}

/// Several lists of ids under one root, read one after the other.
pub open spec fn u32_lists(pages: Seq<Seq<u8>>, roots: Seq<u32>) -> Result<
    Seq<Seq<u32>>,
    StoreError,
>
    decreases roots.len(),
{
    if roots.len() == 0 {
        Ok(Seq::empty())
    } else {
        match u32_lists(pages, roots.drop_last()) {
            Err(e) => Err(e),
            Ok(lists) => match u32_list(pages, roots.last()) {
                Err(e) => Err(e),
                Ok(l) => Ok(lists.push(l)),
            },
        }
    }
}

/// Lists that were stored at a root are read from there.
pub proof fn lists_at_read(pages: Seq<Seq<u8>>, root: u32, lists: Seq<Seq<u32>>)
    requires
        lists_at(pages, root, lists),
    ensures
        u32_lists(pages, u32_list(pages, root)->Ok_0) == Ok::<_, StoreError>(lists),
{
    let roots = u32_list(pages, root)->Ok_0;
    lists_read_prefix(pages, roots, lists, roots.len() as int);
    assert(roots.take(roots.len() as int) =~= roots);
    assert(lists.take(lists.len() as int) =~= lists);
}

proof fn lists_read_prefix(pages: Seq<Seq<u8>>, roots: Seq<u32>, lists: Seq<Seq<u32>>, n: int)
    requires
        roots.len() == lists.len(),
        0 <= n <= roots.len(),
        forall|i: int|
            0 <= i < lists.len() ==> u32_list(pages, #[trigger] roots[i]) == Ok::<_, StoreError>(
                lists[i],
            ),
    ensures
        u32_lists(pages, roots.take(n)) == Ok::<_, StoreError>(lists.take(n)),
    decreases n,
{
    if n > 0 {
        lists_read_prefix(pages, roots, lists, n - 1);
        assert(roots.take(n).drop_last() =~= roots.take(n - 1));
        assert(roots.take(n).last() == roots[n - 1]);
        assert(lists.take(n) =~= lists.take(n - 1).push(lists[n - 1]));
    } else {
        assert(lists.take(0) =~= Seq::empty());
    }
}

/// Reads several lists of ids from one root.
pub fn read_u32_lists(pager: &Pager, root: u32) -> (r: Result<Vec<Vec<u32>>, StoreError>)
    requires
        pager.wf(),
    ensures
        match r {
            Ok(v) => u32_list(pager@, root) is Ok && u32_lists(
                pager@,
                u32_list(pager@, root)->Ok_0,
            ) == Ok::<_, StoreError>(list_views(v@)),
            Err(e) => match u32_list(pager@, root) {
                Err(f) => e == f,
                Ok(roots) => u32_lists(pager@, roots) == Err::<Seq<Seq<u32>>, _>(e),
            },
        },
{
    let roots = match read_u32_chain(pager, root) {
        Ok(v) => v,
        Err(e) => {
            return Err(e);
        },
    };
    let mut out: Vec<Vec<u32>> = Vec::new();
    let mut i: usize = 0;
    assert(list_views(out@) =~= Seq::empty());
    while i < roots.len()
        invariant
            i <= roots.len(),
            pager.wf(),
            u32_list(pager@, root) == Ok::<_, StoreError>(roots@),
            u32_lists(pager@, roots@.take(i as int)) == Ok::<_, StoreError>(list_views(out@)),
        decreases roots.len() - i,
    {
        proof {
            assert(roots@.take(i + 1).drop_last() =~= roots@.take(i as int));
            assert(roots@.take(i + 1).last() == roots@[i as int]);
        }
        let ghost before = list_views(out@);
        match read_u32_chain(pager, roots[i]) {
            Ok(l) => {
                out.push(l);
                assert(list_views(out@) =~= before.push(l@));
            },
            Err(e) => {
                proof {
                    lists_error(pager@, roots@, i as int, e);
                }
                return Err(e);
            },
        }
        i = i + 1;
    }
    assert(roots@.take(i as int) =~= roots@);
    Ok(out)
}

proof fn lists_error(pages: Seq<Seq<u8>>, roots: Seq<u32>, i: int, e: StoreError)
    requires
        0 <= i < roots.len(),
        u32_lists(pages, roots.take(i + 1)) == Err::<Seq<Seq<u32>>, _>(e),
    ensures
        u32_lists(pages, roots) == Err::<Seq<Seq<u32>>, _>(e),
    decreases roots.len() - i,
{
    if i + 1 == roots.len() {
        assert(roots.take(i + 1) =~= roots);
    } else {
        assert(roots.take(i + 2).drop_last() =~= roots.take(i + 1));
        lists_error(pages, roots, i + 1, e);
    }
}

} // verus!
