//! Bytes on chains of pages of one type. The first page of a chain has the
//! number of the next page, the length of all bytes and the first of them; each
//! further page has the number of the next one and more of the bytes.

use vstd::prelude::*;

use super::bytes::{copy_range, get_u32, put_u32, write_at};
use super::pager::{new_page, PageType, Pager, StoreError, PAGE_SIZE};
use super::string_table::{read_overflow, OVERFLOW_PAGE_PAYLOAD};

verus! {

/// The bytes on the first page of a chain.
pub const PAYLOAD_FIRST: usize = 4080;

/// How many bytes of a chain stand on its first page.
pub open spec fn first_len(total: int) -> int {
    if total < PAYLOAD_FIRST {
        total
    } else {
        PAYLOAD_FIRST as int
    }
}

/// The bytes of a chain.
pub open spec fn chain_payload(pages: Seq<Seq<u8>>, root: u32, t: PageType) -> Result<
    Seq<u8>,
    StoreError,
> {
    if root >= pages.len() {
        Err(StoreError::NoSuchPage)
    } else if !super::pager::has_type(pages[root as int], t) {
        Err(StoreError::WrongRoot)
    } else {
        let page = pages[root as int];
        let total = super::bytes::num32(page, 12) as int;
        let n = first_len(total);
        match super::string_table::overflow_bytes(
            pages,
            super::bytes::num32(page, 8),
            (total - n) as nat,
        ) {
            Ok(rest) => Ok(page.subrange(16, 16 + n) + rest),
            Err(e) => Err(e),
        }
    }
}

/// Reads the bytes of a chain.
pub fn read_chain(pager: &Pager, root: u32, t: PageType) -> (r: Result<Vec<u8>, StoreError>)
    requires
        pager.wf(),
    ensures
        match r {
            Ok(bytes) => chain_payload(pager@, root, t) == Ok::<_, StoreError>(bytes@),
            Err(e) => chain_payload(pager@, root, t) == Err::<Seq<u8>, _>(e),
        },
{
    let page = match pager.read_page(root) {
        Ok(p) => p,
        Err(e) => {
            return Err(e);
        },
    };
    assert(page@.len() == PAGE_SIZE);
    if page[0] != t.code() {
        return Err(StoreError::WrongRoot);
    }
    let total = get_u32(page, 12);
    let n: usize = if (total as u64) < PAYLOAD_FIRST as u64 {
        total as usize
    } else {
        PAYLOAD_FIRST
    };
    let mut bytes = copy_range(page, 16, 16 + n);
    let ghost head = bytes@;
    match read_overflow(get_u32(page, 8), total as usize - n, pager) {
        Ok(rest) => {
            let mut rest = rest;
            bytes.append(&mut rest);
            Ok(bytes)
        },
        Err(e) => Err(e),
    }
}

/// The pages of a chain, from its root on. A chain over a free page, or over
/// one page twice, is none.
pub open spec fn chain_walk(pages: Seq<Seq<u8>>, page: u32, seen: Seq<u32>, fuel: nat) -> Result<
    Seq<u32>,
    StoreError,
>
    decreases fuel,
{
    if page == 0 {
        Ok(seen)
    } else if page >= pages.len() {
        Err(StoreError::NoSuchPage)
    } else if fuel == 0 || super::pager::has_type(pages[page as int], PageType::Free)
        || seen.contains(page) {
        Err(StoreError::Malformed)
    } else {
        chain_walk(
            pages,
            super::bytes::num32(pages[page as int], 8),
            seen.push(page),
            (fuel - 1) as nat,
        )
    }
}

/// The pages with some of them blank.
pub open spec fn blanked(pages: Seq<Seq<u8>>, nums: Seq<u32>) -> Seq<Seq<u8>> {
    Seq::new(
        pages.len(),
        |i: int|
            if nums.contains(i as u32) {
                super::pager::blank(PageType::Free)
            } else {
                pages[i]
            },
    )
}

/// Gives the pages of a chain back.
pub fn free_chain(pager: &mut Pager, root: u32) -> (r: Result<(), StoreError>)
    requires
        old(pager).wf(),
        old(pager).free_blank(),
    ensures
        final(pager).wf(),
        final(pager).free_blank(),
        final(pager).header == old(pager).header,
        match r {
            Ok(_) => {
                &&& chain_walk(old(pager)@, root, Seq::empty(), old(pager)@.len()) is Ok
                &&& ({
                    let nums = chain_walk(
                        old(pager)@,
                        root,
                        Seq::empty(),
                        old(pager)@.len(),
                    )->Ok_0;
                    &&& final(pager)@ == blanked(old(pager)@, nums)
                    &&& final(pager).free@ == old(pager).free@ + nums
                })
            },
            Err(e) => chain_walk(old(pager)@, root, Seq::empty(), old(pager)@.len()) == Err::<
                Seq<u32>,
                _,
            >(e),
        },
{
    let ghost start = pager@;
    let ghost f0 = pager.free@;
    let ghost mut seen: Seq<u32> = Seq::empty();
    let mut page = root;
    let mut fuel: usize = pager.pages.len();
    assert(blanked(start, seen) =~= start);
    assert(f0 + seen =~= f0);
    while page != 0
        invariant
            pager.wf(),
            pager.free_blank(),
            pager.header == old(pager).header,
            start == old(pager)@,
            super::pager::pages_ok(start),
            f0 == old(pager).free@,
            f0.no_duplicates(),
            forall|i: int|
                0 <= i < f0.len() ==> f0[i] < start.len() && super::pager::has_type(
                    start[#[trigger] f0[i] as int],
                    PageType::Free,
                ),
            pager@ == blanked(start, seen),
            pager.free@ == f0 + seen,
            chain_walk(start, root, Seq::empty(), start.len()) == chain_walk(
                start,
                page,
                seen,
                fuel as nat,
            ),
        decreases fuel,
    {
        let contents = match pager.read_page(page) {
            Ok(c) => c,
            Err(e) => {
                return Err(e);
            },
        };
        assert(contents@.len() == PAGE_SIZE);
        proof {
            if seen.contains(page) {
                assert(contents@ == super::pager::blank(PageType::Free));
                assert(contents@[0] == PageType::Free.byte());
            } else {
                assert(contents@ == start[page as int]);
            }
        }
        if fuel == 0 || contents[0] == PageType::Free.code() {
            return Err(StoreError::Malformed);
        }
        let next = get_u32(contents, 8);
        proof {
            assert(!pager.free@.contains(page)) by {
                if pager.free@.contains(page) {
                    let i = choose|i: int|
                        0 <= i < pager.free@.len() && pager.free@[i] == page;
                    if i < f0.len() {
                        assert(f0[i] == page);
                        assert(super::pager::has_type(start[f0[i] as int], PageType::Free));
                    } else {
                        assert(seen[i - f0.len()] == page);
                        assert(seen.contains(page));
                    }
                }
            }
        }
        let ghost f1 = pager.free@;
        let ghost p1 = pager@;
        pager.free_page(page);
        proof {
            assert(pager.free_blank()) by {
                assert forall|i: int| 0 <= i < pager.free@.len() implies super::pager::has_type(
                    pager@[#[trigger] pager.free@[i] as int],
                    PageType::Free,
                ) by {
                    if i < f1.len() {
                        assert(pager.free@[i] == f1[i]);
                        assert(super::pager::has_type(p1[f1[i] as int], PageType::Free));
                    }
                }
            }
            let after = seen.push(page);
            assert forall|i: int| 0 <= i < start.len() implies blanked(start, after)[i]
                == blanked(start, seen).update(
                page as int,
                super::pager::blank(PageType::Free),
            )[i] by {
                pushed_page(seen, page, i as u32);
            }
            assert(blanked(start, after) =~= blanked(start, seen).update(
                page as int,
                super::pager::blank(PageType::Free),
            ));
            assert(f0 + after =~= (f0 + seen).push(page));
            seen = after;
        }
        page = next;
        fuel = fuel - 1;
    }
    Ok(())
}

proof fn pushed_page(s: Seq<u32>, x: u32, y: u32)
    ensures
        s.push(x).contains(y) <==> s.contains(y) || y == x,
{
    if s.contains(y) {
        let i = choose|i: int| 0 <= i < s.len() && s[i] == y;
        assert(s.push(x)[i] == y);
    }
    assert(s.push(x)[s.len() as int] == x);
    if s.push(x).contains(y) && y != x {
        let i = choose|i: int| 0 <= i < s.push(x).len() && s.push(x)[i] == y;
        assert(s[i] == y);
    }
}

/// The first page of a chain.
pub open spec fn first_page(t: PageType, next: u32, total: u32, payload: Seq<u8>) -> Seq<u8> {
    let p1 = super::bytes::splice(super::pager::blank(t), 8, super::bytes::le32(next));
    let p2 = super::bytes::splice(p1, 12, super::bytes::le32(total));
    super::bytes::splice(p2, 16, payload)
}

/// A further page of a chain.
pub open spec fn next_page(t: PageType, next: u32, payload: Seq<u8>) -> Seq<u8> {
    let p1 = super::bytes::splice(super::pager::blank(t), 8, super::bytes::le32(next));
    super::bytes::splice(p1, 12, payload)
}

proof fn first_page_parts(t: PageType, next: u32, total: u32, payload: Seq<u8>)
    requires
        payload.len() <= PAYLOAD_FIRST,
    ensures
        ({
            let p = first_page(t, next, total, payload);
            &&& p.len() == PAGE_SIZE
            &&& super::pager::has_type(p, t)
            &&& super::bytes::num32(p, 8) == next
            &&& super::bytes::num32(p, 12) == total
            &&& p.subrange(16, 16int + payload.len()) == payload
        }),
{
    super::bytes::numbers_32();
    let p0 = super::pager::blank(t);
    let b1 = super::bytes::le32(next);
    let b2 = super::bytes::le32(total);
    let p1 = super::bytes::splice(p0, 8, b1);
    let p2 = super::bytes::splice(p1, 12, b2);
    super::bytes::splice_put(p0, 8, b1);
    super::bytes::splice_put(p1, 12, b2);
    super::bytes::splice_put(p2, 16, payload);
    super::bytes::splice_keeps(p1, 12, b2, 8, 12);
    super::bytes::splice_keeps(p2, 16, payload, 8, 12);
    super::bytes::splice_keeps(p2, 16, payload, 12, 16);
    assert(p1[0] == p0[0]);
    assert(p2[0] == p1[0]);
    assert(first_page(t, next, total, payload)[0] == p2[0]);
}

proof fn next_page_parts(t: PageType, next: u32, payload: Seq<u8>)
    requires
        payload.len() <= OVERFLOW_PAGE_PAYLOAD,
    ensures
        ({
            let p = next_page(t, next, payload);
            &&& p.len() == PAGE_SIZE
            &&& super::pager::has_type(p, t)
            &&& super::bytes::num32(p, 8) == next
            &&& p.subrange(12, 12int + payload.len()) == payload
        }),
{
    super::bytes::numbers_32();
    let p0 = super::pager::blank(t);
    let b1 = super::bytes::le32(next);
    let p1 = super::bytes::splice(p0, 8, b1);
    super::bytes::splice_put(p0, 8, b1);
    super::bytes::splice_put(p1, 12, payload);
    super::bytes::splice_keeps(p1, 12, payload, 8, 12);
    assert(p1[0] == p0[0]);
    assert(next_page(t, next, payload)[0] == p1[0]);
}

/// Where the bytes of the `i`th page start.
spec fn page_start(i: int) -> int {
    if i == 0 {
        0
    } else {
        PAYLOAD_FIRST + (i - 1) * OVERFLOW_PAGE_PAYLOAD
    }
}

/// Where they end.
spec fn page_end(i: int, total: int) -> int {
    if page_start(i + 1) < total {
        page_start(i + 1)
    } else {
        total
    }
}

/// The contents of the `i`th page of a chain.
#[verifier::opaque]
spec fn chain_page(t: PageType, payload: Seq<u8>, nums: Seq<u32>, i: int) -> Seq<u8> {
    let next = if i + 1 < nums.len() {
        nums[i + 1]
    } else {
        0
    };
    let chunk = payload.subrange(page_start(i), page_end(i, payload.len() as int));
    if i == 0 {
        first_page(t, next, payload.len() as u32, chunk)
    } else {
        next_page(t, next, chunk)
    }
}

/// Pages taken for new contents: free ones, or new ones at the end.
pub open spec fn taken(old_pages: Seq<Seq<u8>>, old_free: Seq<u32>, page: u32) -> bool {
    old_free.contains(page) || page >= old_pages.len()
}

/// Takes pages.
fn take_pages(pager: &mut Pager, count: usize) -> (r: Result<Vec<u32>, StoreError>)
    requires
        old(pager).wf(),
    ensures
        final(pager).wf(),
        old(pager).free_blank() ==> final(pager).free_blank(),
        final(pager).header == old(pager).header,
        old(pager)@.len() <= final(pager)@.len(),
        forall|i: int| 0 <= i < old(pager)@.len() ==> #[trigger] final(pager)@[i] == old(pager)@[i],
        match r {
            Ok(nums) => {
                &&& nums@.len() == count
                &&& nums@.no_duplicates()
                &&& forall|i: int|
                    0 <= i < count ==> taken(old(pager)@, old(pager).free@, #[trigger] nums@[i])
                        && 0 < nums@[i] < final(pager)@.len() && !final(pager).free@.contains(
                        nums@[i],
                    )
                &&& forall|x: u32| #[trigger]
                    final(pager).free@.contains(x) ==> old(pager).free@.contains(x)
                &&& count > 0 && old(pager).free@.len() > 0 ==> nums@[0] == old(pager).free@.last()
                &&& count > 0 && old(pager).free@.len() == 0 ==> nums@[0] == old(pager)@.len()
                &&& old(pager).free@.len() == 0 ==> final(pager).free@.len() == 0 && final(pager)@.len()
                    == old(pager)@.len() + count && forall|i: int|
                    0 <= i < count ==> #[trigger] nums@[i] == old(pager)@.len() + i
            },
            Err(e) => e == StoreError::Full && old(pager)@.len() + count > u32::MAX + old(
                pager,
            ).free@.len(),
        },
{
    let ghost p0 = pager@;
    let ghost f0 = pager.free@;
    let mut nums: Vec<u32> = Vec::new();
    while nums.len() < count
        invariant
            nums@.len() <= count,
            p0 == old(pager)@,
            f0 == old(pager).free@,
            super::pager::pages_ok(p0),
            forall|i: int| 0 <= i < f0.len() ==> 0 < #[trigger] f0[i] < p0.len(),
            pager.wf(),
            old(pager).free_blank() ==> pager.free_blank(),
            pager.header == old(pager).header,
            p0.len() <= pager@.len(),
            forall|i: int| 0 <= i < p0.len() ==> #[trigger] pager@[i] == p0[i],
            nums@.no_duplicates(),
            forall|i: int|
                0 <= i < nums@.len() ==> taken(p0, f0, #[trigger] nums@[i]) && 0 < nums@[i]
                    < pager@.len() && !pager.free@.contains(nums@[i]),
            forall|x: u32| #[trigger] pager.free@.contains(x) ==> f0.contains(x),
            nums@.len() > 0 && f0.len() > 0 ==> nums@[0] == f0.last(),
            nums@.len() > 0 && f0.len() == 0 ==> nums@[0] == p0.len(),
            f0.len() == 0 ==> pager.free@.len() == 0 && pager@.len() == p0.len() + nums@.len()
                && forall|i: int| 0 <= i < nums@.len() ==> #[trigger] nums@[i] == p0.len() + i,
            nums@.len() == 0 ==> pager.free@ == f0 && pager@ == p0,
            pager@.len() + f0.len() == p0.len() + nums@.len() + pager.free@.len(),
        decreases count - nums.len(),
    {
        let ghost p1 = pager@;
        let ghost f1 = pager.free@;
        let taken_page = pager.allocate_page();
        proof {
            if old(pager).free_blank() {
                assert forall|i: int| 0 <= i < pager.free@.len() implies super::pager::has_type(
                    pager@[#[trigger] pager.free@[i] as int],
                    PageType::Free,
                ) by {
                    assert(pager.free@[i] == f1[i]);
                    assert(super::pager::has_type(p1[f1[i] as int], PageType::Free));
                }
            }
        }
        let page = match taken_page {
            Ok(p) => p,
            Err(e) => {
                return Err(e);
            },
        };
        proof {
            let f2 = pager.free@;
            if f1.len() > 0 {
                assert(f1[f1.len() - 1] == page);
                assert(f1.contains(page));
                assert(f2 == f1.drop_last());
            }
            assert forall|x: u32| #[trigger] f2.contains(x) implies f1.contains(x) && x != page by {
                let i = choose|i: int| 0 <= i < f2.len() && f2[i] == x;
                assert(f1[i] == x);
                if f1.len() > 0 {
                    assert(f1[i] != f1[f1.len() - 1]);
                } else {
                    assert(f1.contains(x));
                }
            }
            assert(!nums@.contains(page)) by {
                if nums@.contains(page) {
                    let i = choose|i: int| 0 <= i < nums@.len() && nums@[i] == page;
                    assert(!f1.contains(nums@[i]) && nums@[i] < p1.len());
                }
            }
        }
        let ghost before = nums@;
        nums.push(page);
        proof {
            assert forall|i: int, j: int|
                0 <= i < nums@.len() && 0 <= j < nums@.len() && i != j implies nums@[i]
                != nums@[j] by {
                if i < before.len() && j < before.len() {
                    assert(before[i] != before[j]);
                } else if i < before.len() {
                    assert(before.contains(before[i]));
                } else {
                    assert(before.contains(before[j]));
                }
            }
            assert forall|i: int| 0 <= i < nums@.len() implies taken(p0, f0, #[trigger] nums@[i])
                && 0 < nums@[i] < pager@.len() && !pager.free@.contains(nums@[i]) by {
                if i < before.len() {
                    assert(nums@[i] == before[i]);
                } else if f1.len() > 0 {
                    assert(f1.contains(page));
                }
            }
        }
    }
    Ok(nums)
}

/// How many pages a chain of so many bytes takes at most.
pub open spec fn chain_pages(total: nat) -> nat {
    (2 + total as int / OVERFLOW_PAGE_PAYLOAD as int) as nat
}

/// How many pages a chain takes.
fn chain_len(total: usize) -> (r: usize)
    ensures
        1 <= r <= chain_pages(total as nat),
        page_start(r as int) >= total,
        r > 1 ==> page_start(r - 1) < total,
{
    if total <= PAYLOAD_FIRST {
        1
    } else {
        let more: usize = total - PAYLOAD_FIRST;
        let full: usize = more / OVERFLOW_PAGE_PAYLOAD;
        if more % OVERFLOW_PAGE_PAYLOAD == 0 {
            1 + full
        } else {
            2 + full
        }
    }
}

/// The number of the page after the `i`th one.
spec fn after(nums: Seq<u32>, i: int) -> u32 {
    if i + 1 < nums.len() {
        nums[i + 1]
    } else {
        0
    }
}

/// The bytes of the `i`th page.
spec fn chunk(payload: Seq<u8>, i: int) -> Seq<u8> {
    payload.subrange(page_start(i), page_end(i, payload.len() as int))
}

proof fn chain_page_parts(t: PageType, payload: Seq<u8>, nums: Seq<u32>, i: int)
    requires
        0 <= i,
        page_start(i) <= payload.len() <= u32::MAX,
    ensures
        ({
            let p = chain_page(t, payload, nums, i);
            let c = chunk(payload, i);
            &&& p.len() == PAGE_SIZE
            &&& super::pager::has_type(p, t)
            &&& super::bytes::num32(p, 8) == after(nums, i)
            &&& i == 0 ==> super::bytes::num32(p, 12) == payload.len() && p.subrange(
                16,
                16int + c.len(),
            ) == c
            &&& i > 0 ==> p.subrange(12, 12int + c.len()) == c
        }),
{
    reveal(chain_page);
    let c = chunk(payload, i);
    assert(page_start(i + 1) == page_start(i) + (if i == 0 {
        PAYLOAD_FIRST as int
    } else {
        OVERFLOW_PAGE_PAYLOAD as int
    }));
    if i == 0 {
        first_page_parts(t, after(nums, i), payload.len() as u32, c);
    } else {
        next_page_parts(t, after(nums, i), c);
    }
}

/// One page of a chain.
fn make_page(payload: &Vec<u8>, nums: &Vec<u32>, i: usize, at: usize, t: PageType) -> (r: (
    Vec<u8>,
    usize,
))
    requires
        i < nums@.len(),
        at == page_start(i as int),
        at <= payload@.len() <= u32::MAX,
    ensures
        r.0@ == chain_page(t, payload@, nums@, i as int),
        r.0@.len() == PAGE_SIZE,
        r.1 == page_end(i as int, payload@.len() as int),
{
    let total = payload.len();
    let cap: usize = if i == 0 {
        PAYLOAD_FIRST
    } else {
        OVERFLOW_PAGE_PAYLOAD
    };
    let end: usize = if total - at < cap {
        total
    } else {
        at + cap
    };
    assert(page_start(i + 1) == page_start(i as int) + cap);
    let next: u32 = if i + 1 < nums.len() {
        nums[i + 1]
    } else {
        0
    };
    let part = copy_range(payload, at, end);
    let mut page = new_page(t);
    put_u32(&mut page, 8, next);
    if i == 0 {
        put_u32(&mut page, 12, total as u32);
        write_at(&mut page, 16, part.as_slice());
    } else {
        write_at(&mut page, 12, part.as_slice());
    }
    proof {
        reveal(chain_page);
        chain_page_parts(t, payload@, nums@, i as int);
    }
    (page, end)
}

/// The pages of a chain stand in their places.
spec fn chain_stands(
    pages: Seq<Seq<u8>>,
    t: PageType,
    payload: Seq<u8>,
    nums: Seq<u32>,
    upto: int,
) -> bool {
    forall|k: int|
        0 <= k < upto ==> 0 < nums[k] < pages.len() && pages[(#[trigger] nums[k]) as int]
            == chain_page(t, payload, nums, k)
}

/// Writes the pages of a chain.
fn fill_chain(pager: &mut Pager, payload: &Vec<u8>, nums: &Vec<u32>, t: PageType)
    requires
        old(pager).wf(),
        nums@.len() >= 1,
        nums@.no_duplicates(),
        payload@.len() <= u32::MAX,
        page_start(nums@.len() as int) >= payload@.len(),
        nums@.len() > 1 ==> page_start(nums@.len() - 1) < payload@.len(),
        forall|k: int| 0 <= k < nums@.len() ==> 0 < #[trigger] nums@[k] < old(pager)@.len(),
    ensures
        final(pager).wf(),
        final(pager).free == old(pager).free,
        final(pager).header == old(pager).header,
        final(pager)@.len() == old(pager)@.len(),
        chain_stands(final(pager)@, t, payload@, nums@, nums@.len() as int),
        forall|k: int|
            0 <= k < old(pager)@.len() && !nums@.contains(k as u32) ==> #[trigger] final(pager)@[k]
                == old(pager)@[k],
{
    let ghost p1 = pager@;
    let ghost n = nums@;
    let ghost total = payload@.len() as int;
    let count = nums.len();
    let mut i: usize = 0;
    let mut at: usize = 0;
    while i < count
        invariant
            i <= count,
            n == nums@,
            n.len() == count,
            count >= 1,
            n.no_duplicates(),
            total == payload@.len(),
            total <= u32::MAX,
            page_start(count as int) >= total,
            count > 1 ==> page_start(count - 1) < total,
            i < count ==> at == page_start(i as int),
            pager.wf(),
            pager.free == old(pager).free,
            pager.header == old(pager).header,
            p1 == old(pager)@,
            pager@.len() == p1.len(),
            p1.len() <= u32::MAX,
            forall|k: int| 0 <= k < count ==> 0 < #[trigger] n[k] < p1.len(),
            chain_stands(pager@, t, payload@, n, i as int),
            forall|k: int|
                0 <= k < p1.len() && !n.contains(k as u32) ==> #[trigger] pager@[k] == p1[k],
        decreases count - i,
    {
        proof {
            if i > 0 {
                starts_rise(i as int, count - 1);
            }
        }
        let (page, end) = make_page(payload, nums, i, at, t);
        let ghost before = pager@;
        assert(0 < n[i as int] < p1.len());
        pager.write_page(nums[i], page);
        proof {
            assert forall|k: int| 0 <= k < i + 1 implies 0 < n[k] < pager@.len()
                && pager@[(#[trigger] n[k]) as int] == chain_page(t, payload@, n, k) by {
                if k < i {
                    assert(n[k] != n[i as int]);
                    assert(before[n[k] as int] == chain_page(t, payload@, n, k));
                }
            }
            assert forall|k: int| 0 <= k < p1.len() && !n.contains(k as u32) implies #[trigger] pager@[k]
                == p1[k] by {
                assert(n.contains(n[i as int]));
                assert(before[k] == p1[k]);
            }
            if i + 1 < count {
                starts_rise(i + 1, count - 1);
                assert(page_end(i as int, total) == page_start(i + 1));
            }
        }
        at = end;
        i = i + 1;
    }
}

/// Writes bytes to a new chain. It fails where there are too many bytes for
/// their length to be written, and where no page is left.
pub fn write_chain(pager: &mut Pager, payload: &Vec<u8>, t: PageType) -> (r: Result<
    u32,
    StoreError,
>)
    requires
        old(pager).wf(),
    ensures
        final(pager).wf(),
        old(pager).free_blank() ==> final(pager).free_blank(),
        final(pager).header == old(pager).header,
        old(pager)@.len() <= final(pager)@.len(),
        forall|i: int|
            0 <= i < old(pager)@.len() && !old(pager).free@.contains(i as u32)
                ==> #[trigger] final(pager)@[i] == old(pager)@[i],
        match r {
            Ok(root) => {
                &&& 0 < root
                &&& chain_payload(final(pager)@, root, t) == Ok::<_, StoreError>(payload@)
                &&& old(pager).free@.len() > 0 ==> root == old(pager).free@.last()
                &&& old(pager).free@.len() == 0 ==> root == old(pager)@.len() && final(
                    pager).free@.len() == 0 && forall|i: int|
                    old(pager)@.len() <= i < final(pager)@.len() ==> super::pager::has_type(
                        #[trigger] final(pager)@[i],
                        t,
                    )
                &&& old(pager).free@.len() == 0 ==> final(pager)@.len() <= old(pager)@.len()
                    + chain_pages(payload@.len())
                &&& payload@.len() <= u32::MAX
            },
            Err(e) => (e == StoreError::TextTooLong && payload@.len() > u32::MAX) || (e
                == StoreError::Full && payload@.len() <= u32::MAX && old(pager)@.len()
                + chain_pages(payload@.len()) > u32::MAX + old(pager).free@.len()),
        },
{
    let total = payload.len();
    if total > u32::MAX as usize {
        return Err(StoreError::TextTooLong);
    }
    let count = chain_len(total);
    let ghost p0 = pager@;
    let ghost f0 = pager.free@;
    let nums = match take_pages(pager, count) {
        Ok(v) => v,
        Err(e) => {
            return Err(e);
        },
    };
    let ghost p1 = pager@;
    let ghost n = nums@;
    let ghost f1 = pager.free@;
    fill_chain(pager, payload, &nums, t);
    proof {
        if old(pager).free_blank() {
            assert forall|i: int| 0 <= i < pager.free@.len() implies super::pager::has_type(
                pager@[#[trigger] pager.free@[i] as int],
                PageType::Free,
            ) by {
                let x = f1[i];
                assert(super::pager::has_type(p1[x as int], PageType::Free));
                assert(!n.contains(x)) by {
                    if n.contains(x) {
                        let j = choose|j: int| 0 <= j < n.len() && n[j] == x;
                        assert(!f1.contains(n[j]));
                        assert(f1.contains(f1[i]));
                    }
                }
                assert(pager@[x as int] == p1[x as int]);
            }
        }
        chain_whole(pager@, t, payload@, n);
        if f0.len() == 0 {
            assert forall|i: int| p0.len() <= i < pager@.len() implies super::pager::has_type(
                #[trigger] pager@[i],
                t,
            ) by {
                let k = i - p0.len();
                assert(n[k] == i);
                if k > 0 {
                    starts_rise(k, n.len() - 1);
                }
                chain_page_parts(t, payload@, n, k);
                assert(pager@[n[k] as int] == chain_page(t, payload@, n, k));
            }
        }
        assert(p1.len() <= u32::MAX);
        assert forall|k: int| 0 <= k < p0.len() && !f0.contains(k as u32) implies #[trigger] pager@[k]
            == p0[k] by {
            assert(!n.contains(k as u32)) by {
                if n.contains(k as u32) {
                    let j = choose|j: int| 0 <= j < n.len() && n[j] == k as u32;
                    assert(taken(p0, f0, n[j]));
                }
            }
            assert(p1[k] == p0[k]);
        }
    }
    Ok(nums[0])
}

proof fn starts_rise(i: int, j: int)
    requires
        0 < i <= j,
    ensures
        page_start(i) <= page_start(j),
{
    assert((i - 1) * OVERFLOW_PAGE_PAYLOAD <= (j - 1) * OVERFLOW_PAGE_PAYLOAD) by (nonlinear_arith)
        requires
            i <= j,
    ;
}

proof fn overflow_step(pages: Seq<Seq<u8>>, page: u32, part: Seq<u8>, rest: Seq<u8>)
    requires
        0 < page < pages.len(),
        part.len() + rest.len() > 0,
        part.len() <= OVERFLOW_PAGE_PAYLOAD,
        rest.len() > 0 ==> part.len() == OVERFLOW_PAGE_PAYLOAD,
        pages[page as int].subrange(12, 12int + part.len()) == part,
        super::string_table::overflow_bytes(
            pages,
            super::bytes::num32(pages[page as int], 8),
            rest.len(),
        ) == Ok::<_, StoreError>(rest),
    ensures
        super::string_table::overflow_bytes(pages, page, part.len() + rest.len()) == Ok::<
            _,
            StoreError,
        >(part + rest),
{
}

/// What stands behind the `i`th page of a chain.
proof fn chain_reads(pages: Seq<Seq<u8>>, t: PageType, payload: Seq<u8>, nums: Seq<u32>, i: int)
    requires
        0 <= i < nums.len(),
        payload.len() <= u32::MAX,
        page_start(nums.len() as int) >= payload.len(),
        nums.len() > 1 ==> page_start(nums.len() - 1) < payload.len(),
        chain_stands(pages, t, payload, nums, nums.len() as int),
    ensures
        super::string_table::overflow_bytes(
            pages,
            after(nums, i),
            payload.skip(page_end(i, payload.len() as int)).len(),
        ) == Ok::<_, StoreError>(payload.skip(page_end(i, payload.len() as int))),
    decreases nums.len() - i,
{
    let total = payload.len() as int;
    let j = i + 1;
    if j < nums.len() {
        chain_reads(pages, t, payload, nums, j);
        assert(pages[nums[j] as int] == chain_page(t, payload, nums, j));
        starts_rise(j, nums.len() - 1);
        chain_page_parts(t, payload, nums, j);
        let part = chunk(payload, j);
        let rest = payload.skip(page_end(j, total));
        assert(page_start(j + 1) == page_start(j) + OVERFLOW_PAGE_PAYLOAD);
        assert(page_end(i, total) == page_start(j));
        assert(payload.skip(page_start(j)) =~= part + rest);
        overflow_step(pages, nums[j], part, rest);
    } else {
        assert(page_end(i, total) == total);
        assert(payload.skip(total) =~= Seq::empty());
    }
}

/// A written chain is read back.
proof fn chain_whole(pages: Seq<Seq<u8>>, t: PageType, payload: Seq<u8>, nums: Seq<u32>)
    requires
        0 < nums.len(),
        payload.len() <= u32::MAX,
        page_start(nums.len() as int) >= payload.len(),
        nums.len() > 1 ==> page_start(nums.len() - 1) < payload.len(),
        chain_stands(pages, t, payload, nums, nums.len() as int),
    ensures
        chain_payload(pages, nums[0], t) == Ok::<_, StoreError>(payload),
{
    chain_reads(pages, t, payload, nums, 0);
    chain_page_parts(t, payload, nums, 0);
    assert(pages[nums[0] as int] == chain_page(t, payload, nums, 0));
    let n = page_end(0, payload.len() as int);
    assert(n == first_len(payload.len() as int));
    assert(chunk(payload, 0) + payload.skip(n) =~= payload);
}

/// Replaces a chain: its pages are given back, and the bytes go to a new one.
/// A root of 0 stands for no chain.
pub fn rewrite_chain(pager: &mut Pager, payload: &Vec<u8>, old_root: u32, t: PageType) -> (r:
    Result<u32, StoreError>)
    requires
        old(pager).wf(),
        old(pager).free_blank(),
    ensures
        final(pager).wf(),
        final(pager).free_blank(),
        final(pager).header == old(pager).header,
        ({
            let walk = chain_walk(old(pager)@, old_root, Seq::empty(), old(pager)@.len());
            match r {
                Ok(root) => {
                    &&& walk is Ok
                    &&& 0 < root
                    &&& chain_payload(final(pager)@, root, t) == Ok::<_, StoreError>(payload@)
                    &&& walk->Ok_0.len() > 0 ==> root == walk->Ok_0.last()
                    &&& forall|i: int|
                        0 <= i < old(pager)@.len() && !old(pager).free@.contains(i as u32)
                            && !walk->Ok_0.contains(i as u32) ==> #[trigger] final(pager)@[i]
                            == old(pager)@[i]
                },
                Err(e) => walk == Err::<Seq<u32>, _>(e) || (walk is Ok && e
                    == StoreError::TextTooLong && payload@.len() > u32::MAX) || (walk is Ok && e
                    == StoreError::Full && old(pager)@.len() + chain_pages(payload@.len())
                    > u32::MAX + old(pager).free@.len() + walk->Ok_0.len()),
            }
        }),
{
    let ghost p0 = pager@;
    let ghost f0 = pager.free@;
    match free_chain(pager, old_root) {
        Ok(_) => {},
        Err(e) => {
            return Err(e);
        },
    }
    let ghost walk = chain_walk(p0, old_root, Seq::empty(), p0.len())->Ok_0;
    let ghost p1 = pager@;
    let ghost f1 = pager.free@;
    let r = write_chain(pager, payload, t);
    proof {
        if walk.len() > 0 {
            assert(f1.last() == walk.last());
        }
        assert forall|i: int|
            0 <= i < p0.len() && !f0.contains(i as u32) && !walk.contains(
                i as u32,
            ) implies #[trigger] pager@[i] == p0[i] by {
            assert(!f1.contains(i as u32)) by {
                if f1.contains(i as u32) {
                    let k = choose|k: int| 0 <= k < f1.len() && f1[k] == i as u32;
                    if k < f0.len() {
                        assert(f0[k] == i as u32);
                    } else {
                        assert(walk[k - f0.len()] == i as u32);
                    }
                }
            }
            assert(p1[i] == p0[i]);
        }
    }
    r
}

} // verus!
