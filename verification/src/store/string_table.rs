//! Strings of a file, each stored once and known by a number.
//!
//! A page of strings has a count of entries and the entries one behind the
//! other. An entry is the length of a string and its bytes. A string too long
//! for that has a marker in place of its length, then its length in four bytes,
//! the number of an overflow page and as many of its bytes as the page has room
//! for; the rest lies on a chain of overflow pages.

use vstd::prelude::*;

use super::bytes::{copy_range, get_u16, get_u32, put_u16, put_u32, write_at};
use super::pager::{new_page, PageType, Pager, StoreError, PAGE_SIZE};
use crate::text::{copy_text, same_text, text_from_bytes};

verus! {

/// Marks the entry of a long string.
pub const OVERFLOW_MARKER: u16 = 65535;

/// The bytes of a string on an overflow page.
pub const OVERFLOW_PAGE_PAYLOAD: usize = 4084;

/// The longest entry, length included, that is not spread over pages.
pub const MAX_INLINE: usize = 4086;

/// Where the entries of a page start.
pub const TABLE_START: usize = 10;

/// The bytes on a chain of overflow pages. The chain may end early.
pub open spec fn overflow_bytes(pages: Seq<Seq<u8>>, next: u32, need: nat) -> Result<
    Seq<u8>,
    StoreError,
>
    decreases need,
{
    if next == 0 || need == 0 {
        Ok(Seq::empty())
    } else if next >= pages.len() {
        Err(StoreError::NoSuchPage)
    } else {
        let page = pages[next as int];
        let n = if need < OVERFLOW_PAGE_PAYLOAD {
            need
        } else {
            OVERFLOW_PAGE_PAYLOAD as nat
        };
        match overflow_bytes(pages, super::bytes::num32(page, 8), (need - n) as nat) {
            Ok(rest) => Ok(page.subrange(12, 12int + n) + rest),
            Err(e) => Err(e),
        }
    }
}

/// The text of bytes.
pub open spec fn bytes_text(bytes: Seq<u8>) -> Result<Seq<char>, StoreError> {
    if vstd::utf8::valid_utf8(bytes) {
        Ok(vstd::utf8::decode_utf8(bytes))
    } else {
        Err(StoreError::InvalidText)
    }
}

/// How many bytes of a long string stand on the page of its entry.
pub open spec fn inline_len(offset: int, total: int) -> int {
    if PAGE_SIZE - offset - 10 < total {
        PAGE_SIZE - offset - 10
    } else {
        total
    }
}

/// The entry at an offset: its string and where it ends.
pub open spec fn read_entry(pages: Seq<Seq<u8>>, page: Seq<u8>, offset: int) -> Result<
    (Seq<char>, int),
    StoreError,
> {
    if offset + 2 > PAGE_SIZE {
        Err(StoreError::Malformed)
    } else {
        let len = super::bytes::num16(page, offset);
        if len == OVERFLOW_MARKER {
            if offset + 10 > PAGE_SIZE {
                Err(StoreError::Malformed)
            } else {
                let total = super::bytes::num32(page, offset + 2);
                let first = super::bytes::num32(page, offset + 6);
                let n = inline_len(offset, total as int);
                match overflow_bytes(pages, first, (total - n) as nat) {
                    Err(e) => Err(e),
                    Ok(rest) => match bytes_text(
                        page.subrange(offset + 10, offset + 10 + n) + rest,
                    ) {
                        Err(e) => Err(e),
                        Ok(s) => Ok((s, offset + 10 + n)),
                    },
                }
            }
        } else if offset + 2 + len > PAGE_SIZE {
            Err(StoreError::Malformed)
        } else {
            match bytes_text(page.subrange(offset + 2, offset + 2 + len)) {
                Err(e) => Err(e),
                Ok(s) => Ok((s, offset + 2 + len)),
            }
        }
    }
}

/// The first `n` entries of a page: their strings and where they end.
pub open spec fn read_entries(pages: Seq<Seq<u8>>, page: Seq<u8>, n: nat) -> Result<
    (Seq<Seq<char>>, int),
    StoreError,
>
    decreases n,
{
    if n == 0 {
        Ok((Seq::empty(), TABLE_START as int))
    } else {
        match read_entries(pages, page, (n - 1) as nat) {
            Err(e) => Err(e),
            Ok((strings, offset)) => match read_entry(pages, page, offset) {
                Err(e) => Err(e),
                Ok((s, end)) => Ok((strings.push(s), end)),
            },
        }
    }
}

/// How many entries a page has.
pub open spec fn entry_count(page: Seq<u8>) -> nat {
    super::bytes::num16(page, 8) as nat
}

/// The strings of a table that lies on the given pages.
pub open spec fn read_table(pages: Seq<Seq<u8>>, nums: Seq<u32>) -> Result<
    Seq<Seq<char>>,
    StoreError,
>
    decreases nums.len(),
{
    if nums.len() == 0 {
        Ok(Seq::empty())
    } else {
        match read_table(pages, nums.drop_last()) {
            Err(e) => Err(e),
            Ok(strings) => if nums.last() >= pages.len() {
                Err(StoreError::NoSuchPage)
            } else {
                let page = pages[nums.last() as int];
                match read_entries(pages, page, entry_count(page)) {
                    Err(e) => Err(e),
                    Ok((more, _)) => Ok(strings + more),
                }
            },
        }
    }
}

/// The pages of a chain are overflow pages.
pub open spec fn chain_typed(pages: Seq<Seq<u8>>, next: u32, need: nat) -> bool
    decreases need,
{
    next == 0 || need == 0 || (next < pages.len() && super::pager::has_type(
        pages[next as int],
        PageType::Overflow,
    ) && chain_typed(
        pages,
        super::bytes::num32(pages[next as int], 8),
        (need - if need < OVERFLOW_PAGE_PAYLOAD {
            need
        } else {
            OVERFLOW_PAGE_PAYLOAD as nat
        }) as nat,
    ))
}

/// The chain of an entry lies on overflow pages.
pub open spec fn entry_typed(pages: Seq<Seq<u8>>, page: Seq<u8>, offset: int) -> bool {
    super::bytes::num16(page, offset) == OVERFLOW_MARKER ==> {
        let total = super::bytes::num32(page, offset + 2);
        chain_typed(
            pages,
            super::bytes::num32(page, offset + 6),
            (total - inline_len(offset, total as int)) as nat,
        )
    }
}

/// The chains of the first `n` entries lie on overflow pages.
pub open spec fn entries_typed(pages: Seq<Seq<u8>>, page: Seq<u8>, n: nat) -> bool
    decreases n,
{
    n == 0 || (entries_typed(pages, page, (n - 1) as nat) && match read_entries(
        pages,
        page,
        (n - 1) as nat,
    ) {
        Ok((_, offset)) => entry_typed(pages, page, offset),
        Err(_) => true,
    })
}

/// A page of strings whose chains lie on overflow pages.
pub open spec fn string_page(pages: Seq<Seq<u8>>, num: u32) -> bool {
    &&& num < pages.len()
    &&& super::pager::has_type(pages[num as int], PageType::StringTable)
    &&& entries_typed(pages, pages[num as int], entry_count(pages[num as int]))
}

/// All pages of one type are the same in a later state.
pub open spec fn same_pages(a: Seq<Seq<u8>>, b: Seq<Seq<u8>>, t: PageType) -> bool {
    a.len() <= b.len() && forall|i: int|
        0 <= i < a.len() && super::pager::has_type(a[i], t) ==> #[trigger] b[i] == a[i]
}

/// No page of a type is new in a later state.
pub open spec fn no_more_pages(a: Seq<Seq<u8>>, b: Seq<Seq<u8>>, t: PageType) -> bool {
    forall|n: int|
        0 <= n < b.len() && super::pager::has_type(#[trigger] b[n], t) ==> n < a.len()
            && super::pager::has_type(a[n], t)
}

proof fn overflow_frame(a: Seq<Seq<u8>>, b: Seq<Seq<u8>>, next: u32, need: nat)
    requires
        same_pages(a, b, PageType::Overflow),
        chain_typed(a, next, need),
    ensures
        overflow_bytes(b, next, need) == overflow_bytes(a, next, need),
        chain_typed(b, next, need),
    decreases need,
{
    if next != 0 && need != 0 {
        assert(b[next as int] == a[next as int]);
        let n = if need < OVERFLOW_PAGE_PAYLOAD {
            need
        } else {
            OVERFLOW_PAGE_PAYLOAD as nat
        };
        overflow_frame(a, b, super::bytes::num32(a[next as int], 8), (need - n) as nat);
    }
}

proof fn entry_frame(a: Seq<Seq<u8>>, b: Seq<Seq<u8>>, page: Seq<u8>, offset: int)
    requires
        same_pages(a, b, PageType::Overflow),
        entry_typed(a, page, offset),
    ensures
        read_entry(b, page, offset) == read_entry(a, page, offset),
        entry_typed(b, page, offset),
{
    if super::bytes::num16(page, offset) == OVERFLOW_MARKER {
        let total = super::bytes::num32(page, offset + 2);
        overflow_frame(
            a,
            b,
            super::bytes::num32(page, offset + 6),
            (total - inline_len(offset, total as int)) as nat,
        );
    }
}

proof fn entries_frame(a: Seq<Seq<u8>>, b: Seq<Seq<u8>>, page: Seq<u8>, n: nat)
    requires
        same_pages(a, b, PageType::Overflow),
        entries_typed(a, page, n),
    ensures
        read_entries(b, page, n) == read_entries(a, page, n),
        entries_typed(b, page, n),
    decreases n,
{
    if n > 0 {
        entries_frame(a, b, page, (n - 1) as nat);
        match read_entries(a, page, (n - 1) as nat) {
            Ok((_, offset)) => {
                entry_frame(a, b, page, offset);
            },
            Err(_) => {},
        }
    }
}

/// A table reads the same as long as pages of strings and overflow pages stay.
pub proof fn table_frame(a: Seq<Seq<u8>>, b: Seq<Seq<u8>>, nums: Seq<u32>)
    requires
        same_pages(a, b, PageType::Overflow),
        same_pages(a, b, PageType::StringTable),
        forall|i: int| 0 <= i < nums.len() ==> string_page(a, #[trigger] nums[i]),
    ensures
        read_table(b, nums) == read_table(a, nums),
        forall|i: int| 0 <= i < nums.len() ==> string_page(b, #[trigger] nums[i]),
    decreases nums.len(),
{
    assert forall|i: int| 0 <= i < nums.len() implies string_page(b, #[trigger] nums[i]) by {
        assert(string_page(a, nums[i]));
        let page = a[nums[i] as int];
        assert(b[nums[i] as int] == page);
        entries_frame(a, b, page, entry_count(page));
    }
    if nums.len() > 0 {
        let rest = nums.drop_last();
        assert forall|i: int| 0 <= i < rest.len() implies string_page(a, #[trigger] rest[i]) by {
            assert(rest[i] == nums[i]);
        }
        table_frame(a, b, rest);
        let last = nums.last();
        assert(string_page(a, nums[nums.len() - 1]));
        let page = a[last as int];
        assert(b[last as int] == page);
        entries_frame(a, b, page, entry_count(page));
    }
}

/// Entries end behind where they start, on the page.
proof fn entries_end(pages: Seq<Seq<u8>>, page: Seq<u8>, n: nat)
    ensures
        match read_entries(pages, page, n) {
            Ok((strings, end)) => TABLE_START + 2 * n <= end <= PAGE_SIZE && strings.len() == n,
            Err(_) => true,
        },
    decreases n,
{
    if n > 0 {
        entries_end(pages, page, (n - 1) as nat);
    }
}

/// Entries are read from the bytes in front of their end alone.
proof fn entries_of_prefix(pages: Seq<Seq<u8>>, p: Seq<u8>, q: Seq<u8>, n: nat, keep: int)
    requires
        p.len() == PAGE_SIZE,
        q.len() == PAGE_SIZE,
        read_entries(pages, p, n) is Ok,
        read_entries(pages, p, n)->Ok_0.1 <= keep <= PAGE_SIZE,
        forall|i: int| TABLE_START <= i < keep ==> p[i] == q[i],
    ensures
        read_entries(pages, q, n) == read_entries(pages, p, n),
        entries_typed(pages, p, n) ==> entries_typed(pages, q, n),
    decreases n,
{
    if n > 0 {
        let m = (n - 1) as nat;
        entries_end(pages, p, m);
        entries_end(pages, p, n);
        let offset = read_entries(pages, p, m)->Ok_0.1;
        let end = read_entries(pages, p, n)->Ok_0.1;
        entries_of_prefix(pages, p, q, m, keep);
        assert(p.subrange(offset, offset + 2) =~= q.subrange(offset, offset + 2));
        let len = super::bytes::num16(p, offset);
        if len == OVERFLOW_MARKER {
            assert(p.subrange(offset + 2, offset + 6) =~= q.subrange(offset + 2, offset + 6));
            assert(p.subrange(offset + 6, offset + 10) =~= q.subrange(offset + 6, offset + 10));
            assert(p.subrange(offset + 10, end) =~= q.subrange(offset + 10, end));
        } else {
            assert(p.subrange(offset + 2, end) =~= q.subrange(offset + 2, end));
        }
    }
}

/// The position of the last such string, or -1.
pub open spec fn last_index(strings: Seq<Seq<char>>, s: Seq<char>) -> int
    decreases strings.len(),
{
    if strings.len() == 0 {
        -1
    } else if strings.last() == s {
        strings.len() - 1
    } else {
        last_index(strings.drop_last(), s)
    }
}

/// A string that occurs is found at a position that has it.
pub proof fn last_index_found(strings: Seq<Seq<char>>, s: Seq<char>)
    ensures
        -1 <= last_index(strings, s) < strings.len(),
        last_index(strings, s) >= 0 ==> strings[last_index(strings, s)] == s,
        strings.contains(s) <==> last_index(strings, s) >= 0,
    decreases strings.len(),
{
    if strings.len() > 0 {
        last_index_found(strings.drop_last(), s);
        let rest = strings.drop_last();
        if strings.last() != s {
            if strings.contains(s) {
                let i = choose|i: int| 0 <= i < strings.len() && strings[i] == s;
                assert(rest[i] == s);
            }
            if rest.contains(s) {
                let i = choose|i: int| 0 <= i < rest.len() && rest[i] == s;
                assert(strings[i] == s);
            }
        } else {
            assert(strings[strings.len() - 1] == s);
        }
    }
}

/// The strings of a file.
pub struct StringTable {
    /// The strings by their numbers.
    pub strings: Vec<String>,
    /// The pages of the table.
    pub pages: Vec<u32>,
    /// Where the next entry goes on the last page.
    pub current_offset: usize,
}

/// An overflow page.
pub open spec fn overflow_page(next: u32, payload: Seq<u8>) -> Seq<u8> {
    super::bytes::splice(
        super::bytes::splice(
            super::pager::blank(PageType::Overflow),
            8,
            super::bytes::le32(next),
        ),
        12,
        payload,
    )
}

proof fn overflow_page_parts(next: u32, payload: Seq<u8>)
    requires
        payload.len() <= OVERFLOW_PAGE_PAYLOAD,
    ensures
        overflow_page(next, payload).len() == PAGE_SIZE,
        super::bytes::num32(overflow_page(next, payload), 8) == next,
        overflow_page(next, payload).subrange(12, 12int + payload.len()) == payload,
        super::pager::has_type(overflow_page(next, payload), PageType::Overflow),
{
    super::bytes::numbers_32();
    let b = super::pager::blank(PageType::Overflow);
    let p = super::bytes::splice(b, 8, super::bytes::le32(next));
    super::bytes::splice_put(b, 8, super::bytes::le32(next));
    super::bytes::splice_put(p, 12, payload);
    super::bytes::splice_keeps(p, 12, payload, 8, 12);
}

/// The bytes on the `j`th overflow page.
pub open spec fn chunk(data: Seq<u8>, j: int) -> Seq<u8> {
    let from = j * OVERFLOW_PAGE_PAYLOAD;
    let to = if from + OVERFLOW_PAGE_PAYLOAD < data.len() {
        from + OVERFLOW_PAGE_PAYLOAD
    } else {
        data.len() as int
    };
    data.subrange(from, to)
}

/// The overflow pages of some bytes, numbered from `first` on.
pub open spec fn chain_pages(data: Seq<u8>, first: nat, k: nat) -> Seq<Seq<u8>> {
    Seq::new(
        k,
        |j: int|
            overflow_page(
                if (j + 1) * OVERFLOW_PAGE_PAYLOAD < data.len() {
                    (first + j + 1) as u32
                } else {
                    0
                },
                chunk(data, j),
            ),
    )
}

/// A chain that was written is read back.
proof fn chain_reads(pages: Seq<Seq<u8>>, data: Seq<u8>, first: nat, k: nat, j: int)
    requires
        0 < first,
        pages.len() <= u32::MAX,
        first + k <= pages.len(),
        forall|i: int|
            0 <= i < k ==> #[trigger] pages[first + i] == chain_pages(data, first, k)[i],
        0 <= j < k,
        (k - 1) * OVERFLOW_PAGE_PAYLOAD < data.len() <= k * OVERFLOW_PAGE_PAYLOAD,
    ensures
        overflow_bytes(
            pages,
            (first + j) as u32,
            (data.len() - j * OVERFLOW_PAGE_PAYLOAD) as nat,
        ) == Ok::<_, StoreError>(data.skip(j * OVERFLOW_PAGE_PAYLOAD)),
        chain_typed(
            pages,
            (first + j) as u32,
            (data.len() - j * OVERFLOW_PAGE_PAYLOAD) as nat,
        ),
    decreases k - j,
{
    let at = j * OVERFLOW_PAGE_PAYLOAD;
    let need = (data.len() - at) as nat;
    let page = pages[first + j];
    assert(page == chain_pages(data, first, k)[j]);
    let payload = chunk(data, j);
    overflow_page_parts(super::bytes::num32(page, 8), payload);
    if j + 1 < k {
        assert(at + OVERFLOW_PAGE_PAYLOAD < data.len());
        overflow_page_parts((first + j + 1) as u32, payload);
        chain_reads(pages, data, first, k, j + 1);
        assert(need > OVERFLOW_PAGE_PAYLOAD);
        assert((need - OVERFLOW_PAGE_PAYLOAD) as nat == (data.len() - (j + 1)
            * OVERFLOW_PAGE_PAYLOAD) as nat);
        assert(super::bytes::num32(page, 8) == (first + j + 1) as u32);
        assert(data.skip(at) =~= payload + data.skip((j + 1) * OVERFLOW_PAGE_PAYLOAD));
    } else {
        overflow_page_parts(0, payload);
        assert(data.skip(at) =~= payload + Seq::<u8>::empty());
        assert(need <= OVERFLOW_PAGE_PAYLOAD);
        assert(overflow_bytes(pages, 0, 0) == Ok::<Seq<u8>, StoreError>(Seq::empty()));
        assert(chain_typed(pages, 0, 0));
    }
}

/// Puts a short entry on a page.
fn write_short_entry(page: &mut Vec<u8>, off: usize, bytes: &Vec<u8>)
    requires
        old(page)@.len() == PAGE_SIZE,
        TABLE_START <= off,
        off + 2 + bytes@.len() <= PAGE_SIZE,
        entry_count(old(page)@) < u16::MAX,
    ensures
        final(page)@ == with_short_entry(old(page)@, off as int, bytes@),
{
    let count = get_u16(page, 8);
    put_u16(page, off, bytes.len() as u16);
    write_at(page, off + 2, bytes.as_slice());
    put_u16(page, 8, count + 1);
}

/// Puts a long entry on a page.
fn write_long_entry(page: &mut Vec<u8>, off: usize, total: u32, first: u32, head: &Vec<u8>)
    requires
        old(page)@.len() == PAGE_SIZE,
        TABLE_START <= off,
        off + 10 + head@.len() == PAGE_SIZE,
        entry_count(old(page)@) < u16::MAX,
    ensures
        final(page)@ == with_long_entry(old(page)@, off as int, total, first, head@),
{
    let count = get_u16(page, 8);
    put_u16(page, off, OVERFLOW_MARKER);
    put_u32(page, off + 2, total);
    put_u32(page, off + 6, first);
    write_at(page, off + 10, head.as_slice());
    put_u16(page, 8, count + 1);
}

/// Adds overflow pages for bytes.
fn write_overflow_chain(data: &Vec<u8>, pager: &mut Pager) -> (r: Result<u32, StoreError>)
    requires
        old(pager).wf(),
        0 < data@.len(),
    ensures
        final(pager).wf(),
        final(pager).free == old(pager).free,
        final(pager).header == old(pager).header,
        super::pager::grown(
            old(pager)@,
            final(pager)@,
            set![PageType::Overflow.byte()],
        ),
        final(pager)@.take(old(pager)@.len() as int) == old(pager)@,
        match r {
            Ok(first) => overflow_bytes(final(pager)@, first, data@.len()) == Ok::<_, StoreError>(
                data@,
            ) && chain_typed(final(pager)@, first, data@.len()) && final(pager)@.len() <= old(
                pager,
            )@.len() + 1 + data@.len() as int / OVERFLOW_PAGE_PAYLOAD as int,
            Err(e) => e == StoreError::Full && old(pager)@.len() + 1 + data@.len() as int
                / OVERFLOW_PAGE_PAYLOAD as int > u32::MAX,
        },
{
    let ghost start = pager@;
    let first = pager.pages.len();
    let n = data.len();
    let mut at: usize = 0;
    let ghost mut k: nat = 0;
    assert(start =~= start + chain_pages(data@, first as nat, 0));
    while at < n
        invariant
            at <= n,
            n == data@.len(),
            0 < n,
            first == start.len(),
            start == old(pager)@,
            super::pager::pages_ok(start),
            k > 0 ==> (k - 1) * OVERFLOW_PAGE_PAYLOAD < n,
            at < n ==> at == k * OVERFLOW_PAGE_PAYLOAD,
            at == n ==> n <= k * OVERFLOW_PAGE_PAYLOAD,
            k == 0 ==> at == 0,
            pager.wf(),
            pager.free == old(pager).free,
            pager.header == old(pager).header,
            pager@ == start + chain_pages(data@, first as nat, k),
        decreases n - at,
    {
        let len: usize = if n - at < OVERFLOW_PAGE_PAYLOAD {
            n - at
        } else {
            OVERFLOW_PAGE_PAYLOAD
        };
        let here = pager.pages.len();
        let next: u32 = if n - at > OVERFLOW_PAGE_PAYLOAD {
            if here >= u32::MAX as usize {
                proof {
                    chain_grown(start, data@, first as nat, k);
                    chain_count(k as int, n as int);
                }
                return Err(StoreError::Full);
            }
            (here + 1) as u32
        } else {
            0
        };
        let mut page = new_page(PageType::Overflow);
        put_u32(&mut page, 8, next);
        let payload = copy_range(data, at, at + len);
        write_at(&mut page, 12, payload.as_slice());
        let ghost contents = page@;
        proof {
            assert(k * OVERFLOW_PAGE_PAYLOAD + OVERFLOW_PAGE_PAYLOAD == (k + 1)
                * OVERFLOW_PAGE_PAYLOAD) by (nonlinear_arith);
            assert(payload@ == chunk(data@, k as int));
            overflow_page_parts(next, payload@);
            assert(contents == chain_pages(data@, first as nat, (k + 1) as nat)[k as int]);
        }
        match pager.add_page(page) {
            Err(e) => {
                proof {
                    chain_grown(start, data@, first as nat, k);
                    chain_count(k as int, n as int);
                }
                return Err(e);
            },
            Ok(_) => {},
        }
        proof {
            assert(start + chain_pages(data@, first as nat, (k + 1) as nat) =~= (start
                + chain_pages(data@, first as nat, k)).push(contents));
            k = k + 1;
        }
        at = at + len;
    }
    proof {
        chain_grown(start, data@, first as nat, k);
        chain_count(k - 1, n as int);
        let pages = pager@;
        assert forall|i: int| 0 <= i < k implies #[trigger] pages[first + i] == chain_pages(
            data@,
            first as nat,
            k,
        )[i] by {}
        chain_reads(pages, data@, first as nat, k, 0);
        assert(data@.skip(0) =~= data@);
    }
    Ok(first as u32)
}

/// Filled overflow pages are no more than what they hold.
proof fn chain_count(k: int, n: int)
    requires
        k * OVERFLOW_PAGE_PAYLOAD < n,
    ensures
        k <= n / OVERFLOW_PAGE_PAYLOAD as int,
{
    assert(k <= n / 4084) by (nonlinear_arith)
        requires
            k * 4084 < n,
    ;
}

proof fn chain_grown(start: Seq<Seq<u8>>, data: Seq<u8>, first: nat, k: nat)
    requires
        k > 0 ==> (k - 1) * OVERFLOW_PAGE_PAYLOAD < data.len(),
    ensures
        super::pager::grown(
            start,
            start + chain_pages(data, first, k),
            set![PageType::Overflow.byte()],
        ),
        (start + chain_pages(data, first, k)).take(start.len() as int) == start,
{
    let b = start + chain_pages(data, first, k);
    assert(b.take(start.len() as int) =~= start);
    assert forall|i: int| 0 <= i < start.len() implies #[trigger] b[i] == start[i] by {}
    assert forall|i: int| start.len() <= i < b.len() implies set![PageType::Overflow.byte()].contains(
        #[trigger] b[i][0],
    ) by {
        let j = i - start.len();
        assert(j * OVERFLOW_PAGE_PAYLOAD <= (k - 1) * OVERFLOW_PAGE_PAYLOAD) by (nonlinear_arith)
            requires
                j <= k - 1,
        ;
        let next = if (j + 1) * OVERFLOW_PAGE_PAYLOAD < data.len() {
            (first + j + 1) as u32
        } else {
            0
        };
        assert(b[i] == overflow_page(next, chunk(data, j)));
        overflow_page_parts(next, chunk(data, j));
    }
}

/// How many pages a new string takes at most.
pub open spec fn text_pages(s: Seq<char>) -> nat {
    let n = vstd::utf8::encode_utf8(s).len();
    if n <= MAX_INLINE - 2 {
        1
    } else {
        (2 + n as int / OVERFLOW_PAGE_PAYLOAD as int) as nat
    }
}

/// How many numbers are in use: of pages or of strings, whichever are more.
pub open spec fn numbers_used(strings: Seq<Seq<char>>, pages: Seq<Seq<u8>>) -> nat {
    if strings.len() > pages.len() {
        strings.len()
    } else {
        pages.len()
    }
}

/// A text whose length cannot be written.
pub open spec fn long_text(s: Seq<char>) -> bool {
    vstd::utf8::encode_utf8(s).len() > u32::MAX
}

/// Distinct page numbers are at most as many as there are pages.
pub(crate) proof fn distinct_pages(nums: Seq<u32>, n: nat)
    requires
        nums.no_duplicates(),
        forall|i: int| 0 <= i < nums.len() ==> #[trigger] nums[i] < n,
    ensures
        nums.len() <= n,
{
    let ints = nums.map_values(|x: u32| x as int);
    assert(ints.no_duplicates());
    ints.unique_seq_to_set();
    vstd::set_lib::lemma_int_range(0, n as int);
    let range = vstd::set_lib::set_int_range(0, n as int);
    assert(ints.to_set().subset_of(range)) by {
        assert forall|x: int| ints.to_set().contains(x) implies range.contains(x) by {
            let i = choose|i: int| 0 <= i < ints.len() && ints[i] == x;
            assert(nums[i] < n);
        }
    }
    vstd::set_lib::lemma_len_subset(ints.to_set(), range);
}

/// The types of pages that the table changes.
pub open spec fn text_kinds() -> Set<u8> {
    set![PageType::StringTable.byte(), PageType::Overflow.byte()]
}

/// Where the entries of the last page end, which is where the next one goes.
pub open spec fn table_end(pages: Seq<Seq<u8>>, nums: Seq<u32>) -> int {
    if nums.len() == 0 {
        TABLE_START as int
    } else {
        let page = pages[nums.last() as int];
        read_entries(pages, page, entry_count(page))->Ok_0.1
    }
}

/// These are the pages of a table: ascending pages of strings, and all such
/// pages from the first of them on.
pub open spec fn table_form(pages: Seq<Seq<u8>>, nums: Seq<u32>) -> bool {
    &&& nums.len() > 0
    &&& forall|i: int, j: int|
        0 <= i < j < nums.len() ==> #[trigger] nums[i] < #[trigger] nums[j]
    &&& forall|i: int| 0 <= i < nums.len() ==> string_page(pages, #[trigger] nums[i])
    &&& forall|n: int|
        nums[0] <= n < pages.len() && super::pager::has_type(
            #[trigger] pages[n],
            PageType::StringTable,
        ) ==> nums.contains(n as u32)
}

impl StringTable {
    /// The strings.
    pub open spec fn view(&self) -> Seq<Seq<char>> {
        crate::text::texts(self.strings@)
    }

    /// The table is what the pages hold, and its last page has room from
    /// `current_offset` on.
    #[verifier::opaque]
    pub open spec fn stored(&self, pages: Seq<Seq<u8>>) -> bool {
        &&& self.pages@.len() > 0
        &&& self.pages@.no_duplicates()
        &&& forall|i: int, j: int|
            0 <= i < j < self.pages@.len() ==> #[trigger] self.pages@[i] < #[trigger] self.pages@[j]
        &&& forall|i: int|
            0 <= i < self.pages@.len() ==> string_page(pages, #[trigger] self.pages@[i])
        &&& forall|n: int|
            self.first() <= n < pages.len() && super::pager::has_type(
                #[trigger] pages[n],
                PageType::StringTable,
            ) ==> self.pages@.contains(n as u32)
        &&& read_table(pages, self.pages@) == Ok::<_, StoreError>(self@)
        &&& ({
            let page = pages[self.pages@.last() as int];
            read_entries(pages, page, entry_count(page)) is Ok && read_entries(
                pages,
                page,
                entry_count(page),
            )->Ok_0.1 == self.current_offset
        })
        &&& self@.len() <= u32::MAX
    }

    /// The first page of the table.
    pub open spec fn first(&self) -> u32 {
        self.pages@[0]
    }

    /// A table without strings or pages.
    pub fn new() -> (r: Self)
        ensures
            r@ == Seq::<Seq<char>>::empty(),
            r.pages@ == Seq::<u32>::empty(),
    {
        let r = StringTable { strings: Vec::new(), pages: Vec::new(), current_offset: TABLE_START };
        assert(r@ =~= Seq::empty());
        r
    }

    /// Adds the first page of a new table.
    pub fn init(&mut self, pager: &mut Pager) -> (r: Result<u32, StoreError>)
        requires
            old(pager).wf(),
            old(self)@ == Seq::<Seq<char>>::empty(),
            old(self).pages@ == Seq::<u32>::empty(),
        ensures
            final(pager).wf(),
            final(pager).free == old(pager).free,
            final(pager).header == old(pager).header,
            final(self)@ == Seq::<Seq<char>>::empty(),
            match r {
                Ok(num) => {
                    &&& num == old(pager)@.len()
                    &&& final(pager)@ == old(pager)@.push(
                        super::pager::blank(PageType::StringTable),
                    )
                    &&& final(self).stored(final(pager)@)
                    &&& final(self).pages@ == seq![num]
                },
                Err(e) => e == StoreError::Full && old(pager)@.len() == u32::MAX
                    && final(pager)@ == old(pager)@,
            },
    {
        let ghost before = pager@;
        let num = match pager.add_page(new_page(PageType::StringTable)) {
            Ok(n) => n,
            Err(e) => {
                return Err(e);
            },
        };
        self.pages.push(num);
        self.current_offset = TABLE_START;
        proof {
            reveal(StringTable::stored);
            let page = super::pager::blank(PageType::StringTable);
            blank_entries();
            assert(pager@[num as int] == page);
            assert(string_page(pager@, num));
            assert(self.pages@ =~= seq![num]);
            assert(self.pages@[0] == num);
            assert forall|n: int|
                self.first() <= n < pager@.len() && super::pager::has_type(
                    #[trigger] pager@[n],
                    PageType::StringTable,
                ) implies self.pages@.contains(n as u32) by {
                assert(n == num);
            }
            assert(self.pages@.drop_last() =~= Seq::empty());
            assert(read_table(pager@, self.pages@.drop_last()) == Ok::<_, StoreError>(
                Seq::<Seq<char>>::empty(),
            ));
            assert(Seq::<Seq<char>>::empty() + Seq::<Seq<char>>::empty() =~= self@);
        }
        Ok(num)
    }

    /// The string with a number.
    pub fn resolve(&self, id: u32) -> (r: Option<&str>)
        ensures
            match r {
                Some(s) => id < self@.len() && s@ == self@[id as int],
                None => id >= self@.len(),
            },
    {
        if (id as usize) < self.strings.len() {
            Some(self.strings[id as usize].as_str())
        } else {
            None
        }
    }

    /// The number of a string: that of its last occurrence.
    pub fn id_for_str(&self, s: &str) -> (r: Option<u32>)
        requires
            self@.len() <= u32::MAX,
        ensures
            match r {
                Some(id) => id == last_index(self@, s@) && id < self@.len() && self@[id as int]
                    == s@,
                None => !self@.contains(s@),
            },
    {
        let ghost all = self@;
        let mut i: usize = self.strings.len();
        assert(all.take(i as int) =~= all);
        while i > 0
            invariant
                i <= self.strings.len() <= u32::MAX,
                all == self@,
                last_index(all, s@) == last_index(all.take(i as int), s@),
            decreases i,
        {
            proof {
                assert(all.take(i as int).drop_last() =~= all.take(i - 1));
                assert(all.take(i as int).last() == self.strings@[i - 1]@);
            }
            if same_text(self.strings[i - 1].as_str(), s) {
                return Some((i - 1) as u32);
            }
            i = i - 1;
        }
        proof {
            last_index_found(all, s@);
        }
        None
    }

    /// The number of a string, which is added where it is new. It fails where
    /// no page is left, where a string is too long, or where no number is left.
    pub fn intern(&mut self, s: &str, pager: &mut Pager) -> (r: Result<u32, StoreError>)
        requires
            old(pager).wf(),
            old(self).stored(old(pager)@),
        ensures
            final(pager).wf(),
            final(pager).free == old(pager).free,
            final(pager).header == old(pager).header,
            super::pager::grown(old(pager)@, final(pager)@, text_kinds()),
            match r {
                Ok(id) => {
                    &&& final(self).stored(final(pager)@)
                    &&& final(self).first() == old(self).first()
                    &&& id < final(self)@.len()
                    &&& final(self)@[id as int] == s@
                    &&& if old(self)@.contains(s@) {
                        &&& id == last_index(old(self)@, s@)
                        &&& final(self)@ == old(self)@
                        &&& final(self).pages@ == old(self).pages@
                        &&& final(pager)@ == old(pager)@
                    } else {
                        &&& id == old(self)@.len()
                        &&& final(self)@ == old(self)@.push(s@)
                    }
                    &&& !long_text(s@)
                    &&& numbers_used(final(self)@, final(pager)@) <= numbers_used(
                        old(self)@,
                        old(pager)@,
                    ) + text_pages(s@)
                },
                Err(e) => if long_text(s@) {
                    e == StoreError::TextTooLong
                } else {
                    &&& e == StoreError::Full
                    &&& !old(self)@.contains(s@)
                    &&& numbers_used(old(self)@, old(pager)@) + text_pages(s@) > u32::MAX
                },
            },
    {
        proof {
            self.stored_facts(pager@);
        }
        let bytes = s.as_bytes_vec();
        proof {
            vstd::utf8::encode_utf8_valid_utf8(s@);
            vstd::utf8::encode_utf8_decode_utf8(s@);
        }
        if bytes.len() > u32::MAX as usize {
            return Err(StoreError::TextTooLong);
        }
        match self.id_for_str(s) {
            Some(id) => {
                proof {
                    last_index_found(self@, s@);
                }
                return Ok(id);
            },
            None => {},
        }
        if self.strings.len() >= u32::MAX as usize {
            return Err(StoreError::Full);
        }
        let id = self.strings.len() as u32;
        if bytes.len() <= MAX_INLINE - 2 {
            match self.intern_inline(s, &bytes, pager) {
                Ok(_) => {},
                Err(e) => {
                    return Err(e);
                },
            }
        } else {
            match self.intern_overflow(s, &bytes, pager) {
                Ok(_) => {},
                Err(e) => {
                    return Err(e);
                },
            }
        }
        Ok(id)
    }

    /// Goes on to a new page.
    fn allocate_string_page(&mut self, pager: &mut Pager) -> (r: Result<(), StoreError>)
        requires
            old(pager).wf(),
            old(self).stored(old(pager)@),
        ensures
            final(pager).wf(),
            final(pager).free == old(pager).free,
            final(pager).header == old(pager).header,
            super::pager::grown(old(pager)@, final(pager)@, text_kinds()),
            match r {
                Ok(_) => {
                    &&& final(self).stored(final(pager)@)
                    &&& final(self).first() == old(self).first()
                    &&& final(self)@ == old(self)@
                    &&& final(self).current_offset == TABLE_START
                    &&& final(pager)@.len() == old(pager)@.len() + 1
                },
                Err(e) => e == StoreError::Full && old(pager)@.len() == u32::MAX,
            },
    {
        let ghost p0 = pager@;
        let ghost nums = self.pages@;
        proof {
            reveal(StringTable::stored);
        }
        let num = match pager.add_page(new_page(PageType::StringTable)) {
            Ok(n) => n,
            Err(e) => {
                return Err(e);
            },
        };
        self.pages.push(num);
        self.current_offset = TABLE_START;
        proof {
            let p1 = pager@;
            blank_entries();
            assert forall|i: int| 0 <= i < nums.len() implies string_page(p0, #[trigger] nums[i]) by {
            }
            table_frame(p0, p1, nums);
            assert(p1[num as int] == super::pager::blank(PageType::StringTable));
            assert(string_page(p1, num));
            assert forall|i: int| 0 <= i < self.pages@.len() implies string_page(
                p1,
                #[trigger] self.pages@[i],
            ) by {
                if i < nums.len() {
                    assert(self.pages@[i] == nums[i]);
                }
            }
            assert forall|i: int, j: int|
                0 <= i < self.pages@.len() && 0 <= j < self.pages@.len() && i
                    != j implies self.pages@[i] != self.pages@[j] by {
                if i < nums.len() {
                    assert(string_page(p0, nums[i]));
                }
                if j < nums.len() {
                    assert(string_page(p0, nums[j]));
                }
            }
            assert(self.pages@.drop_last() =~= nums);
            assert(self@ + Seq::<Seq<char>>::empty() =~= self@);
            assert forall|i: int, j: int| 0 <= i < j < self.pages@.len() implies #[trigger] self.pages@[i]
                < #[trigger] self.pages@[j] by {
                assert(string_page(p0, nums[i]));
            }
            assert forall|n: int|
                self.first() <= n < p1.len() && super::pager::has_type(
                    #[trigger] p1[n],
                    PageType::StringTable,
                ) implies self.pages@.contains(n as u32) by {
                if n == num {
                    assert(self.pages@[nums.len() as int] == num);
                } else {
                    assert(p1[n] == p0[n]);
                    assert(nums.contains(n as u32));
                    let k = choose|k: int| 0 <= k < nums.len() && nums[k] == n as u32;
                    assert(self.pages@[k] == n as u32);
                }
            }
        }
        Ok(())
    }

    /// Adds a string whose entry fits on a page.
    fn intern_inline(&mut self, s: &str, bytes: &Vec<u8>, pager: &mut Pager) -> (r: Result<
        (),
        StoreError,
    >)
        requires
            old(pager).wf(),
            old(self).stored(old(pager)@),
            old(self)@.len() < u32::MAX,
            bytes@ == vstd::utf8::encode_utf8(s@),
            bytes@.len() <= MAX_INLINE - 2,
        ensures
            final(pager).wf(),
            final(pager).free == old(pager).free,
            final(pager).header == old(pager).header,
            super::pager::grown(old(pager)@, final(pager)@, text_kinds()),
            match r {
                Ok(_) => final(self).stored(final(pager)@) && final(self).first() == old(
                    self).first() && final(self)@ == old(self)@.push(s@) && final(pager)@.len()
                    <= old(pager)@.len() + 1,
                Err(e) => e == StoreError::Full && old(pager)@.len() + 1 > u32::MAX,
            },
    {
        let ghost p0 = pager@;
        proof {
            self.stored_facts(pager@);
        }
        if self.current_offset + 2 + bytes.len() > PAGE_SIZE {
            match self.allocate_string_page(pager) {
                Ok(_) => {},
                Err(e) => {
                    return Err(e);
                },
            }
        }
        let ghost p1 = pager@;
        let ghost before = *self;
        proof {
            self.stored_facts(pager@);
            self.last_page(pager@);
        }
        let num = self.pages[self.pages.len() - 1];
        let off = self.current_offset;
        let mut page = pager.copy_page(num);
        let ghost q0 = page@;
        write_short_entry(&mut page, off, bytes);
        let ghost q3 = page@;
        proof {
            short_entry(p1, q0, off as int, s@);
        }
        pager.write_page(num, page);
        self.current_offset = off + 2 + bytes.len();
        self.strings.push(copy_text(s));
        proof {
            assert(self@ =~= before@.push(s@));
            Self::stored_with(before, *self, p1, q3, s@);
            super::pager::grown_twice(p0, p1, pager@, text_kinds());
        }
        Ok(())
    }

    /// Adds a string that is spread over pages.
    fn intern_overflow(&mut self, s: &str, bytes: &Vec<u8>, pager: &mut Pager) -> (r: Result<
        (),
        StoreError,
    >)
        requires
            old(pager).wf(),
            old(self).stored(old(pager)@),
            old(self)@.len() < u32::MAX,
            bytes@ == vstd::utf8::encode_utf8(s@),
            MAX_INLINE - 2 < bytes@.len() <= u32::MAX,
        ensures
            final(pager).wf(),
            final(pager).free == old(pager).free,
            final(pager).header == old(pager).header,
            super::pager::grown(old(pager)@, final(pager)@, text_kinds()),
            match r {
                Ok(_) => final(self).stored(final(pager)@) && final(self).first() == old(
                    self).first() && final(self)@ == old(self)@.push(s@) && final(pager)@.len()
                    <= old(pager)@.len() + 2 + bytes@.len() as int / OVERFLOW_PAGE_PAYLOAD as int,
                Err(e) => e == StoreError::Full && old(pager)@.len() + 2 + bytes@.len() as int / OVERFLOW_PAGE_PAYLOAD as int > u32::MAX,
            },
    {
        let ghost p0 = pager@;
        proof {
            self.stored_facts(pager@);
        }
        if self.current_offset + 10 > PAGE_SIZE {
            match self.allocate_string_page(pager) {
                Ok(_) => {},
                Err(e) => {
                    return Err(e);
                },
            }
        }
        let ghost p1 = pager@;
        let ghost before = *self;
        let off = self.current_offset;
        proof {
            self.stored_facts(pager@);
        }
        let inline: usize = PAGE_SIZE - off - 10;
        let rest = copy_range(bytes, inline, bytes.len());
        let written = write_overflow_chain(&rest, pager);
        assert(rest@.len() as int / 4084 <= bytes@.len() as int / 4084) by (nonlinear_arith)
            requires
                rest@.len() <= bytes@.len(),
        ;
        let ghost p2 = pager@;
        proof {
            super::pager::grown_wider(p1, p2, set![PageType::Overflow.byte()], text_kinds());
            super::pager::grown_twice(p0, p1, p2, text_kinds());
        }
        let first = match written {
            Ok(f) => f,
            Err(e) => {
                return Err(e);
            },
        };
        proof {
            assert forall|i: int| 0 <= i < p1.len() implies p2[i] == p1[i] by {
                assert(p2.take(p1.len() as int)[i] == p1[i]);
            }
            assert forall|n: int|
                0 <= n < p2.len() && super::pager::has_type(
                    #[trigger] p2[n],
                    PageType::StringTable,
                ) implies n < p1.len() && super::pager::has_type(
                p1[n],
                PageType::StringTable,
            ) by {
                if n >= p1.len() {
                    assert(set![PageType::Overflow.byte()].contains(p2[n][0]));
                }
            }
            self.stored_frame(p1, p2);
        }
        self.add_long_entry(s, bytes, first, &rest, pager);
        proof {
            super::pager::grown_twice(p0, p2, pager@, text_kinds());
        }
        Ok(())
    }

    /// Adds the entry of a string whose end lies on a chain of pages.
    fn add_long_entry(
        &mut self,
        s: &str,
        bytes: &Vec<u8>,
        first: u32,
        rest: &Vec<u8>,
        pager: &mut Pager,
    )
        requires
            old(pager).wf(),
            old(self).stored(old(pager)@),
            old(self)@.len() < u32::MAX,
            bytes@ == vstd::utf8::encode_utf8(s@),
            bytes@.len() <= u32::MAX,
            old(self).current_offset + 10 <= PAGE_SIZE,
            0 < rest@.len(),
            PAGE_SIZE - old(self).current_offset - 10 + rest@.len() == bytes@.len(),
            rest@ == bytes@.skip(PAGE_SIZE - old(self).current_offset - 10),
            overflow_bytes(old(pager)@, first, rest@.len()) == Ok::<_, StoreError>(rest@),
            chain_typed(old(pager)@, first, rest@.len()),
        ensures
            final(pager).wf(),
            final(pager).free == old(pager).free,
            final(pager).header == old(pager).header,
            super::pager::grown(old(pager)@, final(pager)@, text_kinds()),
            final(self).stored(final(pager)@),
            final(self).first() == old(self).first(),
            final(self)@ == old(self)@.push(s@),
            final(pager)@.len() == old(pager)@.len(),
    {
        let ghost before = *self;
        let ghost p2 = pager@;
        proof {
            self.stored_facts(p2);
            self.last_page(p2);
        }
        let off = self.current_offset;
        let inline: usize = PAGE_SIZE - off - 10;
        let num = self.pages[self.pages.len() - 1];
        let mut page = pager.copy_page(num);
        let ghost q0 = page@;
        let head = copy_range(bytes, 0, inline);
        write_long_entry(&mut page, off, bytes.len() as u32, first, &head);
        let ghost q5 = page@;
        proof {
            assert(head@ + rest@ =~= bytes@);
            long_entry(p2, q0, off as int, s@, first, head@, rest@);
        }
        pager.write_page(num, page);
        self.current_offset = PAGE_SIZE;
        self.strings.push(copy_text(s));
        proof {
            assert(self@ =~= before@.push(s@));
            Self::stored_with(before, *self, p2, q5, s@);
        }
    }

    /// The last page of the table, and what is on it.
    pub proof fn stored_facts(&self, pages: Seq<Seq<u8>>)
        requires
            self.stored(pages),
        ensures
            TABLE_START <= self.current_offset <= PAGE_SIZE,
            self.pages@.len() > 0,
            self.pages@.last() < pages.len(),
            super::pager::has_type(pages[self.pages@.last() as int], PageType::StringTable),
            self@.len() <= u32::MAX,
            read_table(pages, self.pages@) == Ok::<_, StoreError>(self@),
            entry_count(pages[self.pages@.last() as int]) < u16::MAX,
    {
        reveal(StringTable::stored);
        let page = pages[self.pages@.last() as int];
        assert(string_page(pages, self.pages@[self.pages@.len() - 1]));
        entries_end(pages, page, entry_count(page));
    }
    /// A table is there again when its pages are read: with its strings, and
    /// ready for more.
    pub proof fn loads_back(&self, pages: Seq<Seq<u8>>)
        requires
            self.stored(pages),
        ensures
            table_form(pages, self.pages@),
            read_table(pages, self.pages@) == Ok::<_, StoreError>(self@),
            table_end(pages, self.pages@) == self.current_offset,
            self@.len() <= u32::MAX,
    {
        reveal(StringTable::stored);
    }

    /// A table lies on no more pages than there are.
    pub proof fn page_count(&self, pages: Seq<Seq<u8>>)
        requires
            self.stored(pages),
        ensures
            self.pages@.len() <= pages.len(),
    {
        reveal(StringTable::stored);
        assert forall|i: int| 0 <= i < self.pages@.len() implies #[trigger] self.pages@[i]
            < pages.len() by {
            assert(string_page(pages, self.pages@[i]));
        }
        distinct_pages(self.pages@, pages.len());
    }


    /// The table is stored as long as pages of strings and overflow pages stay.
    pub proof fn stored_frame(&self, a: Seq<Seq<u8>>, b: Seq<Seq<u8>>)
        requires
            self.stored(a),
            same_pages(a, b, PageType::Overflow),
            same_pages(a, b, PageType::StringTable),
            no_more_pages(a, b, PageType::StringTable),
        ensures
            self.stored(b),
    {
        reveal(StringTable::stored);
        assert forall|n: int|
            self.first() <= n < b.len() && super::pager::has_type(
                #[trigger] b[n],
                PageType::StringTable,
            ) implies self.pages@.contains(n as u32) by {
            assert(super::pager::has_type(a[n], PageType::StringTable));
        }
        table_frame(a, b, self.pages@);
        let last = self.pages@.last();
        assert(string_page(a, self.pages@[self.pages@.len() - 1]));
        let page = a[last as int];
        assert(b[last as int] == page);
        entries_frame(a, b, page, entry_count(page));
    }

    /// The table after its last page got an entry.
    proof fn stored_with(
        before: StringTable,
        after: StringTable,
        pages: Seq<Seq<u8>>,
        page: Seq<u8>,
        s: Seq<char>,
    )
        requires
            before.stored(pages),
            after.pages@ == before.pages@,
            after@ == before@.push(s),
            before@.len() < u32::MAX,
            page.len() == PAGE_SIZE,
            page[0] == pages[before.pages@.last() as int][0],
            entry_count(page) == entry_count(pages[before.pages@.last() as int]) + 1,
            entries_typed(pages, page, entry_count(page)),
            read_entries(pages, page, entry_count(page)) == Ok::<_, StoreError>(
                (
                    read_entries(
                        pages,
                        pages[before.pages@.last() as int],
                        entry_count(pages[before.pages@.last() as int]),
                    )->Ok_0.0.push(s),
                    after.current_offset as int,
                ),
            ),
        ensures
            after.stored(pages.update(before.pages@.last() as int, page)),
            super::pager::grown(
                pages,
                pages.update(before.pages@.last() as int, page),
                text_kinds(),
            ),
    {
        reveal(StringTable::stored);
        before.stored_facts(pages);
        entry_added(pages, before.pages@, before@, page, s, after.current_offset as int);
        let now = pages.update(before.pages@.last() as int, page);
        assert forall|n: int|
            after.first() <= n < now.len() && super::pager::has_type(
                #[trigger] now[n],
                PageType::StringTable,
            ) implies after.pages@.contains(n as u32) by {
            assert(super::pager::has_type(pages[n], PageType::StringTable));
        }
    }

    /// What the last page of the table reads as.
    proof fn last_page(&self, pages: Seq<Seq<u8>>)
        requires
            self.stored(pages),
        ensures
            ({
                let q = pages[self.pages@.last() as int];
                &&& read_entries(pages, q, entry_count(q)) is Ok
                &&& read_entries(pages, q, entry_count(q))->Ok_0.1 == self.current_offset
                &&& entries_typed(pages, q, entry_count(q))
            }),
    {
        reveal(StringTable::stored);
        assert(string_page(pages, self.pages@[self.pages@.len() - 1]));
    }

    /// The table that lies on the given pages.
    pub fn load(nums: &Vec<u32>, pager: &Pager) -> (r: Result<Self, StoreError>)
        requires
            pager.wf(),
        ensures
            match r {
                Ok(table) => {
                    &&& read_table(pager@, nums@) == Ok::<_, StoreError>(table@)
                    &&& table.pages@ == nums@
                    &&& table.current_offset == table_end(pager@, nums@)
                    &&& table_form(pager@, nums@) && table@.len() <= u32::MAX ==> table.stored(
                        pager@,
                    )
                },
                Err(e) => read_table(pager@, nums@) == Err::<Seq<Seq<char>>, _>(e),
            },
    {
        let mut strings: Vec<String> = Vec::new();
        let mut current_offset: usize = TABLE_START;
        let mut i: usize = 0;
        assert(crate::text::texts(strings@) =~= Seq::empty());
        while i < nums.len()
            invariant
                i <= nums.len(),
                pager.wf(),
                read_table(pager@, nums@.take(i as int)) == Ok::<_, StoreError>(
                    crate::text::texts(strings@),
                ),
                current_offset == table_end(pager@, nums@.take(i as int)),
                i > 0 ==> nums@[i - 1] < pager@.len() && read_entries(
                    pager@,
                    pager@[nums@[i - 1] as int],
                    entry_count(pager@[nums@[i - 1] as int]),
                ) is Ok,
            decreases nums.len() - i,
        {
            let ghost before = crate::text::texts(strings@);
            proof {
                assert(nums@.take(i + 1).drop_last() =~= nums@.take(i as int));
                assert(nums@.take(i + 1).last() == nums@[i as int]);
            }
            let page = match pager.read_page(nums[i]) {
                Ok(p) => p,
                Err(e) => {
                    proof {
                        table_error(pager@, nums@, i as int, e);
                    }
                    return Err(e);
                },
            };
            assert(page@.len() == PAGE_SIZE);
            let count = get_u16(page, 8);
            let mut offset: usize = TABLE_START;
            let mut j: u16 = 0;
            assert(before + Seq::<Seq<char>>::empty() =~= before);
            while j < count
                invariant
                    j <= count,
                    i < nums.len(),
                    count == entry_count(page@),
                    pager.wf(),
                    page@.len() == PAGE_SIZE,
                    page@ == pager@[nums@[i as int] as int],
                    nums@[i as int] < pager@.len(),
                    nums@.take(i + 1).drop_last() == nums@.take(i as int),
                    nums@.take(i + 1).last() == nums@[i as int],
                    nums@.take(i + 1).len() == i + 1,
                    read_table(pager@, nums@.take(i as int)) == Ok::<_, StoreError>(before),
                    read_entries(pager@, page@, j as nat) is Ok,
                    read_entries(pager@, page@, j as nat)->Ok_0.1 == offset,
                    offset <= PAGE_SIZE,
                    crate::text::texts(strings@) == before + read_entries(
                        pager@,
                        page@,
                        j as nat,
                    )->Ok_0.0,
                decreases count - j,
            {
                let ghost sofar = read_entries(pager@, page@, j as nat)->Ok_0.0;
                match load_entry(page, offset, pager) {
                    Ok((s, end)) => {
                        let ghost old_strings = strings@;
                        strings.push(s);
                        proof {
                            assert(crate::text::texts(strings@) =~= crate::text::texts(
                                old_strings,
                            ).push(s@));
                            assert((before + sofar).push(s@) =~= before + sofar.push(s@));
                        }
                        offset = end;
                    },
                    Err(e) => {
                        proof {
                            entries_error(pager@, page@, j as nat, count as nat, e);
                            table_error(pager@, nums@, i as int, e);
                        }
                        return Err(e);
                    },
                }
                j = j + 1;
            }
            current_offset = offset;
            i = i + 1;
        }
        assert(nums@.take(i as int) =~= nums@);
        let mut pages: Vec<u32> = Vec::new();
        let mut k: usize = 0;
        while k < nums.len()
            invariant
                k <= nums.len(),
                pages@ == nums@.take(k as int),
            decreases nums.len() - k,
        {
            pages.push(nums[k]);
            k = k + 1;
            assert(pages@ =~= nums@.take(k as int));
        }
        assert(pages@ =~= nums@);
        let table = StringTable { strings, pages, current_offset };
        proof {
            reveal(StringTable::stored);
        }
        Ok(table)
    }

    /// The pages of the table.
    pub fn page_numbers(&self) -> (r: &Vec<u32>)
        ensures
            r@ == self.pages@,
    {
        &self.pages
    }

    /// How many strings the table has.
    pub fn len(&self) -> (r: usize)
        ensures
            r == self@.len(),
    {
        self.strings.len()
    }

    /// Whether the table has no string.
    pub fn is_empty(&self) -> (r: bool)
        ensures
            r == (self@.len() == 0),
    {
        self.strings.len() == 0
    }
}

impl Default for StringTable {
    fn default() -> (r: Self)
        ensures
            r@ == Seq::<Seq<char>>::empty(),
            r.pages@ == Seq::<u32>::empty(),
    {
        StringTable::new()
    }
}

/// A new page has no entry.
proof fn blank_entries()
    ensures
        entry_count(super::pager::blank(PageType::StringTable)) == 0,
        super::pager::has_type(super::pager::blank(PageType::StringTable), PageType::StringTable),
{
    assert(super::pager::blank(PageType::StringTable).subrange(8, 10) =~= seq![0u8, 0u8]);
}

/// A page of strings with one more short entry.
pub open spec fn with_short_entry(q: Seq<u8>, off: int, bytes: Seq<u8>) -> Seq<u8> {
    let q1 = super::bytes::splice(q, off, super::bytes::le16(bytes.len() as u16));
    let q2 = super::bytes::splice(q1, off + 2, bytes);
    super::bytes::splice(q2, 8, super::bytes::le16((entry_count(q) + 1) as u16))
}

/// The parts of such a page.
proof fn short_entry_page(q: Seq<u8>, off: int, bytes: Seq<u8>)
    requires
        q.len() == PAGE_SIZE,
        TABLE_START <= off,
        off + 2 + bytes.len() <= PAGE_SIZE,
        entry_count(q) < u16::MAX,
    ensures
        ({
            let q3 = with_short_entry(q, off, bytes);
            &&& q3.len() == PAGE_SIZE
            &&& super::bytes::num16(q3, off) == bytes.len()
            &&& q3.subrange(off + 2, off + 2 + bytes.len()) == bytes
            &&& entry_count(q3) == entry_count(q) + 1
            &&& q3[0] == q[0]
            &&& forall|i: int| TABLE_START <= i < off ==> q3[i] == q[i]
        }),
{
    super::bytes::numbers_16();
    let b1 = super::bytes::le16(bytes.len() as u16);
    let c = super::bytes::le16((entry_count(q) + 1) as u16);
    let q1 = super::bytes::splice(q, off, b1);
    let q2 = super::bytes::splice(q1, off + 2, bytes);
    let q3 = super::bytes::splice(q2, 8, c);
    super::bytes::splice_put(q, off, b1);
    super::bytes::splice_put(q1, off + 2, bytes);
    super::bytes::splice_put(q2, 8, c);
    super::bytes::splice_keeps(q1, off + 2, bytes, off, off + 2);
    super::bytes::splice_keeps(q2, 8, c, off, off + 2);
    super::bytes::splice_keeps(q2, 8, c, off + 2, off + 2 + bytes.len());
    assert forall|i: int| TABLE_START <= i < off implies q3[i] == q[i] by {
        assert(q1[i] == q[i]);
        assert(q2[i] == q1[i]);
    }
    assert(q1[0] == q[0]);
    assert(q2[0] == q1[0]);
}

/// A short entry is read behind those that were there.
proof fn short_entry(pages: Seq<Seq<u8>>, q: Seq<u8>, off: int, s: Seq<char>)
    requires
        q.len() == PAGE_SIZE,
        read_entries(pages, q, entry_count(q)) is Ok,
        read_entries(pages, q, entry_count(q))->Ok_0.1 == off,
        entries_typed(pages, q, entry_count(q)),
        off + 2 + vstd::utf8::encode_utf8(s).len() <= PAGE_SIZE,
    ensures
        ({
            let bytes = vstd::utf8::encode_utf8(s);
            let q3 = with_short_entry(q, off, bytes);
            &&& q3.len() == PAGE_SIZE
            &&& entry_count(q3) == entry_count(q) + 1
            &&& q3[0] == q[0]
            &&& entries_typed(pages, q3, entry_count(q3))
            &&& read_entries(pages, q3, entry_count(q3)) == Ok::<_, StoreError>(
                (
                    read_entries(pages, q, entry_count(q))->Ok_0.0.push(s),
                    off + 2 + bytes.len(),
                ),
            )
        }),
{
    let bytes = vstd::utf8::encode_utf8(s);
    let q3 = with_short_entry(q, off, bytes);
    let n = entry_count(q);
    entries_end(pages, q, n);
    short_entry_page(q, off, bytes);
    entries_of_prefix(pages, q, q3, n, off);
    vstd::utf8::encode_utf8_valid_utf8(s);
    vstd::utf8::encode_utf8_decode_utf8(s);
    assert(read_entry(pages, q3, off) == Ok::<_, StoreError>((s, off + 2 + bytes.len())));
    assert(entry_typed(pages, q3, off));
}

/// A page of strings with one more long entry.
pub open spec fn with_long_entry(q: Seq<u8>, off: int, total: u32, first: u32, head: Seq<u8>) -> Seq<
    u8,
> {
    let q1 = super::bytes::splice(q, off, super::bytes::le16(OVERFLOW_MARKER));
    let q2 = super::bytes::splice(q1, off + 2, super::bytes::le32(total));
    let q3 = super::bytes::splice(q2, off + 6, super::bytes::le32(first));
    let q4 = super::bytes::splice(q3, off + 10, head);
    super::bytes::splice(q4, 8, super::bytes::le16((entry_count(q) + 1) as u16))
}

/// A long entry is read behind those that were there.
proof fn long_entry(
    pages: Seq<Seq<u8>>,
    q: Seq<u8>,
    off: int,
    s: Seq<char>,
    first: u32,
    head: Seq<u8>,
    rest: Seq<u8>,
)
    requires
        q.len() == PAGE_SIZE,
        read_entries(pages, q, entry_count(q)) is Ok,
        read_entries(pages, q, entry_count(q))->Ok_0.1 == off,
        entries_typed(pages, q, entry_count(q)),
        off + 10 + head.len() == PAGE_SIZE,
        0 < rest.len(),
        head + rest == vstd::utf8::encode_utf8(s),
        vstd::utf8::encode_utf8(s).len() <= u32::MAX,
        overflow_bytes(pages, first, rest.len()) == Ok::<_, StoreError>(rest),
        chain_typed(pages, first, rest.len()),
    ensures
        ({
            let total = vstd::utf8::encode_utf8(s).len() as u32;
            let q5 = with_long_entry(q, off, total, first, head);
            &&& q5.len() == PAGE_SIZE
            &&& entry_count(q5) == entry_count(q) + 1
            &&& q5[0] == q[0]
            &&& entries_typed(pages, q5, entry_count(q5))
            &&& read_entries(pages, q5, entry_count(q5)) == Ok::<_, StoreError>(
                (
                    read_entries(pages, q, entry_count(q))->Ok_0.0.push(s),
                    PAGE_SIZE as int,
                ),
            )
        }),
{
    let total = vstd::utf8::encode_utf8(s).len() as u32;
    let n = entry_count(q);
    entries_end(pages, q, n);
    long_entry_page(q, off, total, first, head);
    let q1 = super::bytes::splice(q, off, super::bytes::le16(OVERFLOW_MARKER));
    let q2 = super::bytes::splice(q1, off + 2, super::bytes::le32(total));
    let q3 = super::bytes::splice(q2, off + 6, super::bytes::le32(first));
    let q4 = super::bytes::splice(q3, off + 10, head);
    let q5 = with_long_entry(q, off, total, first, head);
    let c = super::bytes::le16((n + 1) as u16);
    super::bytes::numbers_16();
    super::bytes::splice_put(q4, 8, c);
    super::bytes::splice_keeps(q4, 8, c, off, off + 2);
    super::bytes::splice_keeps(q4, 8, c, off + 2, off + 6);
    super::bytes::splice_keeps(q4, 8, c, off + 6, off + 10);
    super::bytes::splice_keeps(q4, 8, c, off + 10, off + 10 + head.len());
    assert forall|i: int| TABLE_START <= i < off implies q[i] == q5[i] by {
        assert(q4[i] == q[i]);
    }
    assert(q5[0] == q4[0]);
    entries_of_prefix(pages, q, q5, n, off);
    vstd::utf8::encode_utf8_valid_utf8(s);
    vstd::utf8::encode_utf8_decode_utf8(s);
    assert(inline_len(off, total as int) == head.len());
    assert(total - head.len() == rest.len());
    assert(read_entry(pages, q5, off) == Ok::<_, StoreError>((s, PAGE_SIZE as int)));
    assert(entry_typed(pages, q5, off));
}

/// The parts of a page with the entry of a long string.
proof fn long_entry_page(q0: Seq<u8>, off: int, total: u32, first: u32, head: Seq<u8>)
    requires
        q0.len() == PAGE_SIZE,
        TABLE_START <= off,
        off + 10 + head.len() == PAGE_SIZE,
    ensures
        ({
            let q1 = super::bytes::splice(q0, off, super::bytes::le16(OVERFLOW_MARKER));
            let q2 = super::bytes::splice(q1, off + 2, super::bytes::le32(total));
            let q3 = super::bytes::splice(q2, off + 6, super::bytes::le32(first));
            let q4 = super::bytes::splice(q3, off + 10, head);
            &&& q4.len() == PAGE_SIZE
            &&& super::bytes::num16(q4, off) == OVERFLOW_MARKER
            &&& super::bytes::num32(q4, off + 2) == total
            &&& super::bytes::num32(q4, off + 6) == first
            &&& q4.subrange(off + 10, off + 10 + head.len()) == head
            &&& super::bytes::num16(q4, 8) == super::bytes::num16(q0, 8)
            &&& forall|i: int| 0 <= i < off ==> q4[i] == q0[i]
        }),
{
    super::bytes::numbers_16();
    super::bytes::numbers_32();
    let b1 = super::bytes::le16(OVERFLOW_MARKER);
    let b2 = super::bytes::le32(total);
    let b3 = super::bytes::le32(first);
    let q1 = super::bytes::splice(q0, off, b1);
    let q2 = super::bytes::splice(q1, off + 2, b2);
    let q3 = super::bytes::splice(q2, off + 6, b3);
    let q4 = super::bytes::splice(q3, off + 10, head);
    super::bytes::splice_put(q0, off, b1);
    super::bytes::splice_put(q1, off + 2, b2);
    super::bytes::splice_put(q2, off + 6, b3);
    super::bytes::splice_put(q3, off + 10, head);
    super::bytes::splice_keeps(q1, off + 2, b2, off, off + 2);
    super::bytes::splice_keeps(q2, off + 6, b3, off, off + 2);
    super::bytes::splice_keeps(q3, off + 10, head, off, off + 2);
    super::bytes::splice_keeps(q2, off + 6, b3, off + 2, off + 6);
    super::bytes::splice_keeps(q3, off + 10, head, off + 2, off + 6);
    super::bytes::splice_keeps(q3, off + 10, head, off + 6, off + 10);
    super::bytes::splice_keeps(q0, off, b1, 8, 10);
    super::bytes::splice_keeps(q1, off + 2, b2, 8, 10);
    super::bytes::splice_keeps(q2, off + 6, b3, 8, 10);
    super::bytes::splice_keeps(q3, off + 10, head, 8, 10);
    assert forall|i: int| 0 <= i < off implies q4[i] == q0[i] by {
        assert(q1[i] == q0[i]);
        assert(q2[i] == q1[i]);
        assert(q3[i] == q2[i]);
    }
}

/// A table whose last page gets one more entry.
proof fn entry_added(
    pages: Seq<Seq<u8>>,
    nums: Seq<u32>,
    strings: Seq<Seq<char>>,
    page: Seq<u8>,
    s: Seq<char>,
    end: int,
)
    requires
        nums.len() > 0,
        nums.no_duplicates(),
        forall|i: int| 0 <= i < nums.len() ==> string_page(pages, #[trigger] nums[i]),
        read_table(pages, nums) == Ok::<_, StoreError>(strings),
        page.len() == PAGE_SIZE,
        super::pager::has_type(page, PageType::StringTable),
        entry_count(page) == entry_count(pages[nums.last() as int]) + 1,
        entries_typed(pages, page, entry_count(page)),
        read_entries(pages, page, entry_count(page)) == Ok::<_, StoreError>(
            (
                read_entries(
                    pages,
                    pages[nums.last() as int],
                    entry_count(pages[nums.last() as int]),
                )->Ok_0.0.push(s),
                end,
            ),
        ),
    ensures
        ({
            let after = pages.update(nums.last() as int, page);
            &&& forall|i: int| 0 <= i < nums.len() ==> string_page(after, #[trigger] nums[i])
            &&& read_table(after, nums) == Ok::<_, StoreError>(strings.push(s))
            &&& after[nums.last() as int] == page
            &&& read_entries(after, page, entry_count(page)) is Ok
            &&& read_entries(after, page, entry_count(page))->Ok_0.1 == end
        }),
{
    let last = nums.last();
    assert(string_page(pages, nums[nums.len() - 1]));
    let after = pages.update(last as int, page);
    assert(same_pages(pages, after, PageType::Overflow));
    let rest = nums.drop_last();
    assert forall|i: int| 0 <= i < nums.len() - 1 implies nums[i] != last by {
        assert(nums[i] != nums[nums.len() - 1]);
    }
    entries_frame(pages, after, page, entry_count(page));
    assert forall|i: int| 0 <= i < nums.len() implies string_page(after, #[trigger] nums[i]) by {
        assert(string_page(pages, nums[i]));
        if i < nums.len() - 1 {
            let p = pages[nums[i] as int];
            assert(after[nums[i] as int] == p);
            entries_frame(pages, after, p, entry_count(p));
        }
    }
    assert forall|i: int| 0 <= i < rest.len() implies rest[i] != last && string_page(
        pages,
        #[trigger] rest[i],
    ) by {
        assert(rest[i] == nums[i]);
    }
    table_without(pages, after, rest, last);
    let before = read_table(pages, rest)->Ok_0;
    let old_page = pages[last as int];
    let old_entries = read_entries(pages, old_page, entry_count(old_page))->Ok_0.0;
    assert(strings == before + old_entries);
    assert(before + old_entries.push(s) =~= strings.push(s));
}

/// Pages of a table that do not change read the same.
proof fn table_without(a: Seq<Seq<u8>>, b: Seq<Seq<u8>>, nums: Seq<u32>, changed: u32)
    requires
        same_pages(a, b, PageType::Overflow),
        a.len() <= b.len(),
        forall|i: int| 0 <= i < a.len() && i != changed ==> #[trigger] b[i] == a[i],
        forall|i: int|
            0 <= i < nums.len() ==> nums[i] != changed && string_page(a, #[trigger] nums[i]),
    ensures
        read_table(b, nums) == read_table(a, nums),
    decreases nums.len(),
{
    if nums.len() > 0 {
        let rest = nums.drop_last();
        assert forall|i: int| 0 <= i < rest.len() implies rest[i] != changed && string_page(
            a,
            #[trigger] rest[i],
        ) by {
            assert(rest[i] == nums[i]);
        }
        table_without(a, b, rest, changed);
        assert(string_page(a, nums[nums.len() - 1]));
        let page = a[nums.last() as int];
        assert(b[nums.last() as int] == page);
        entries_frame(a, b, page, entry_count(page));
    }
}

/// An error of the first pages is the error of the table.
proof fn table_error(pages: Seq<Seq<u8>>, nums: Seq<u32>, i: int, e: StoreError)
    requires
        0 <= i < nums.len(),
        read_table(pages, nums.take(i + 1)) == Err::<Seq<Seq<char>>, _>(e),
    ensures
        read_table(pages, nums) == Err::<Seq<Seq<char>>, _>(e),
    decreases nums.len() - i,
{
    if i + 1 == nums.len() {
        assert(nums.take(i + 1) =~= nums);
    } else {
        assert(nums.take(i + 2).drop_last() =~= nums.take(i + 1));
        table_error(pages, nums, i + 1, e);
    }
}

/// An error of the first entries is the error of the page.
proof fn entries_error(pages: Seq<Seq<u8>>, page: Seq<u8>, j: nat, n: nat, e: StoreError)
    requires
        j < n,
        read_entries(pages, page, (j + 1) as nat) == Err::<(Seq<Seq<char>>, int), _>(e),
    ensures
        read_entries(pages, page, n) == Err::<(Seq<Seq<char>>, int), _>(e),
    decreases n - j,
{
    if j + 1 < n {
        assert(read_entries(pages, page, (j + 2) as nat) == Err::<(Seq<Seq<char>>, int), _>(e));
        entries_error(pages, page, j + 1, n, e);
    }
}

/// Reads the entry at an offset.
fn load_entry(page: &Vec<u8>, offset: usize, pager: &Pager) -> (r: Result<
    (String, usize),
    StoreError,
>)
    requires
        pager.wf(),
        page@.len() == PAGE_SIZE,
        offset <= PAGE_SIZE,
    ensures
        match r {
            Ok((s, end)) => read_entry(pager@, page@, offset as int) == Ok::<_, StoreError>(
                (s@, end as int),
            ) && end <= PAGE_SIZE,
            Err(e) => read_entry(pager@, page@, offset as int) == Err::<(Seq<char>, int), _>(e),
        },
{
    if offset + 2 > PAGE_SIZE {
        return Err(StoreError::Malformed);
    }
    let len = get_u16(page, offset);
    if len == OVERFLOW_MARKER {
        if offset + 10 > PAGE_SIZE {
            return Err(StoreError::Malformed);
        }
        let total = get_u32(page, offset + 2);
        let first = get_u32(page, offset + 6);
        let room: usize = PAGE_SIZE - offset - 10;
        let n: usize = if (room as u64) < total as u64 {
            room
        } else {
            total as usize
        };
        let mut bytes = copy_range(page, offset + 10, offset + 10 + n);
        match read_overflow(first, total as usize - n, pager) {
            Err(e) => Err(e),
            Ok(rest) => {
                let mut rest = rest;
                bytes.append(&mut rest);
                match text_from_bytes(bytes) {
                    Some(s) => Ok((s, offset + 10 + n)),
                    None => Err(StoreError::InvalidText),
                }
            },
        }
    } else {
        if offset + 2 + len as usize > PAGE_SIZE {
            return Err(StoreError::Malformed);
        }
        let bytes = copy_range(page, offset + 2, offset + 2 + len as usize);
        match text_from_bytes(bytes) {
            Some(s) => Ok((s, offset + 2 + len as usize)),
            None => Err(StoreError::InvalidText),
        }
    }
}

/// Reads bytes from a chain of overflow pages.
pub(crate) fn read_overflow(first: u32, need: usize, pager: &Pager) -> (r: Result<Vec<u8>, StoreError>)
    requires
        pager.wf(),
    ensures
        match r {
            Ok(bytes) => overflow_bytes(pager@, first, need as nat) == Ok::<_, StoreError>(bytes@),
            Err(e) => overflow_bytes(pager@, first, need as nat) == Err::<Seq<u8>, _>(e),
        },
{
    let mut buf: Vec<u8> = Vec::new();
    let mut next = first;
    let mut left = need;
    proof {
        match overflow_bytes(pager@, first, need as nat) {
            Ok(rest) => {
                assert(Seq::<u8>::empty() + rest =~= rest);
            },
            Err(_) => {},
        }
    }
    while next != 0 && left > 0
        invariant
            pager.wf(),
            overflow_bytes(pager@, first, need as nat) == (match overflow_bytes(
                pager@,
                next,
                left as nat,
            ) {
                Ok(rest) => Ok(buf@ + rest),
                Err(e) => Err(e),
            }),
        decreases left,
    {
        let page = match pager.read_page(next) {
            Ok(p) => p,
            Err(e) => {
                return Err(e);
            },
        };
        assert(page@.len() == PAGE_SIZE);
        let n: usize = if left < OVERFLOW_PAGE_PAYLOAD {
            left
        } else {
            OVERFLOW_PAGE_PAYLOAD
        };
        let ghost before = buf@;
        let mut part = copy_range(page, 12, 12 + n);
        let ghost added = part@;
        buf.append(&mut part);
        let following = get_u32(page, 8);
        proof {
            match overflow_bytes(pager@, following, (left - n) as nat) {
                Ok(rest) => {
                    assert(before + (added + rest) =~= buf@ + rest);
                },
                Err(_) => {},
            }
        }
        next = following;
        left = left - n;
    }
    assert(buf@ + Seq::<u8>::empty() =~= buf@);
    Ok(buf)
}

pub(crate) proof fn overflow_prefix(a: Seq<Seq<u8>>, b: Seq<Seq<u8>>, next: u32, need: nat)
    requires
        a.is_prefix_of(b),
        overflow_bytes(a, next, need) is Ok,
    ensures
        overflow_bytes(b, next, need) == overflow_bytes(a, next, need),
    decreases need,
{
    if next != 0 && need != 0 {
        assert(b[next as int] == a[next as int]) by {
            assert(b.subrange(0, a.len() as int)[next as int] == a[next as int]);
        }
        let page = a[next as int];
        let n = if need < OVERFLOW_PAGE_PAYLOAD {
            need
        } else {
            OVERFLOW_PAGE_PAYLOAD as nat
        };
        overflow_prefix(a, b, super::bytes::num32(page, 8), (need - n) as nat);
    }
}

proof fn entry_prefix(a: Seq<Seq<u8>>, b: Seq<Seq<u8>>, page: Seq<u8>, offset: int)
    requires
        a.is_prefix_of(b),
        read_entry(a, page, offset) is Ok,
    ensures
        read_entry(b, page, offset) == read_entry(a, page, offset),
{
    if super::bytes::num16(page, offset) == OVERFLOW_MARKER {
        let total = super::bytes::num32(page, offset + 2) as int;
        let n = inline_len(offset, total);
        overflow_prefix(a, b, super::bytes::num32(page, offset + 6), (total - n) as nat);
    }
}

proof fn entries_prefix(a: Seq<Seq<u8>>, b: Seq<Seq<u8>>, page: Seq<u8>, n: nat)
    requires
        a.is_prefix_of(b),
        read_entries(a, page, n) is Ok,
    ensures
        read_entries(b, page, n) == read_entries(a, page, n),
    decreases n,
{
    if n > 0 {
        entries_prefix(a, b, page, (n - 1) as nat);
        entry_prefix(a, b, page, read_entries(a, page, (n - 1) as nat)->Ok_0.1);
    }
}

/// A table stays readable when pages are added.
pub proof fn table_prefix(a: Seq<Seq<u8>>, b: Seq<Seq<u8>>, nums: Seq<u32>)
    requires
        a.is_prefix_of(b),
        read_table(a, nums) is Ok,
    ensures
        read_table(b, nums) == read_table(a, nums),
    decreases nums.len(),
{
    if nums.len() > 0 {
        table_prefix(a, b, nums.drop_last());
        let num = nums.last();
        assert(b[num as int] == a[num as int]) by {
            assert(b.subrange(0, a.len() as int)[num as int] == a[num as int]);
        }
        entries_prefix(a, b, a[num as int], entry_count(a[num as int]));
    }
}

} // verus!
