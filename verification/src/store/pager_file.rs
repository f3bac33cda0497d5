//! A database file as bytes: thirteen numbers, the pages, and the numbers of the
//! pages that are free. The first eleven numbers are the header; the others
//! count the pages and the free ones.

use vstd::prelude::*;

use super::bytes::{copy_range, get_u32, push_u32};
use super::pager::{Header, Pager, StoreError, PAGE_SIZE};

verus! {

/// Where the pages start.
pub const PAGES_START: usize = 52;

/// The bytes of numbers.
pub open spec fn number_bytes(s: Seq<u32>) -> Seq<u8>
    decreases s.len(),
{
    if s.len() == 0 {
        Seq::empty()
    } else {
        number_bytes(s.drop_last()) + super::bytes::le32(s.last())
    }
}

/// The bytes of pages.
pub open spec fn page_bytes(pages: Seq<Seq<u8>>) -> Seq<u8>
    decreases pages.len(),
{
    if pages.len() == 0 {
        Seq::empty()
    } else {
        page_bytes(pages.drop_last()) + pages.last()
    }
}

/// The numbers in front of the pages.
pub open spec fn file_numbers(h: Header, pages: nat, free: nat) -> Seq<u32> {
    seq![
        h.node_count,
        h.edge_count,
        h.string_table_root,
        h.label_index_root,
        h.edge_label_index_root,
        h.adjacency_root,
        h.csr_adjacency_root,
        h.node_locs_root,
        h.edge_topo_root,
        h.catalog_root,
        h.secondary_index_root,
        pages as u32,
        free as u32,
    ]
}

/// The bytes of a file.
pub open spec fn file_bytes(h: Header, pages: Seq<Seq<u8>>, free: Seq<u32>) -> Seq<u8> {
    number_bytes(file_numbers(h, pages.len(), free.len())) + page_bytes(pages) + number_bytes(free)
}

/// Free page numbers are pages other than the first, each once.
pub open spec fn free_ok(free: Seq<u32>, count: int) -> bool {
    &&& forall|i: int| 0 <= i < free.len() ==> 0 < #[trigger] free[i] < count
    &&& free.no_duplicates()
}

/// The header in bytes.
pub open spec fn header_in(b: Seq<u8>) -> Header {
    Header {
        node_count: super::bytes::num32(b, 0),
        edge_count: super::bytes::num32(b, 4),
        string_table_root: super::bytes::num32(b, 8),
        label_index_root: super::bytes::num32(b, 12),
        edge_label_index_root: super::bytes::num32(b, 16),
        adjacency_root: super::bytes::num32(b, 20),
        csr_adjacency_root: super::bytes::num32(b, 24),
        node_locs_root: super::bytes::num32(b, 28),
        edge_topo_root: super::bytes::num32(b, 32),
        catalog_root: super::bytes::num32(b, 36),
        secondary_index_root: super::bytes::num32(b, 40),
    }
}

/// The pages in bytes.
pub open spec fn pages_in(b: Seq<u8>, count: nat) -> Seq<Seq<u8>> {
    Seq::new(
        count,
        |i: int| b.subrange(PAGES_START + PAGE_SIZE * i, PAGES_START + PAGE_SIZE * (i + 1)),
    )
}

/// The free page numbers in bytes.
pub open spec fn free_in(b: Seq<u8>, count: nat, free: nat) -> Seq<u32> {
    Seq::new(free, |i: int| super::bytes::num32(b, PAGES_START + PAGE_SIZE * count + 4 * i))
}

/// The file that bytes hold, if they hold one.
pub open spec fn file_of(b: Seq<u8>) -> Option<(Header, Seq<Seq<u8>>, Seq<u32>)> {
    let count = super::bytes::num32(b, 44) as nat;
    let free = super::bytes::num32(b, 48) as nat;
    if b.len() < PAGES_START || count == 0 || b.len() != PAGES_START + PAGE_SIZE * count + 4 * free
        || !free_ok(free_in(b, count, free), count as int) {
        None
    } else {
        Some((header_in(b), pages_in(b, count), free_in(b, count, free)))
    }
}

proof fn numbers_at(s: Seq<u32>, front: Seq<u8>, tail: Seq<u8>)
    ensures
        number_bytes(s).len() == 4 * s.len(),
        forall|i: int|
            0 <= i < s.len() ==> super::bytes::num32(
                front + number_bytes(s) + tail,
                front.len() + 4 * i,
            ) == #[trigger] s[i],
    decreases s.len(),
{
    super::bytes::number_lengths();
    if s.len() > 0 {
        let rest = s.drop_last();
        let last = super::bytes::le32(s.last());
        numbers_at(rest, front, last + tail);
        let all = front + number_bytes(s) + tail;
        assert(all =~= front + number_bytes(rest) + (last + tail));
        super::bytes::numbers_32();
        assert forall|i: int| 0 <= i < s.len() implies super::bytes::num32(
            all,
            front.len() + 4 * i,
        ) == #[trigger] s[i] by {
            if i < rest.len() {
                assert(rest[i] == s[i]);
            } else {
                assert(all.subrange(front.len() + 4 * i, front.len() + 4 * i + 4) =~= last);
            }
        }
    }
}

proof fn pages_at(pages: Seq<Seq<u8>>, front: Seq<u8>, tail: Seq<u8>)
    requires
        front.len() == PAGES_START,
        forall|i: int| 0 <= i < pages.len() ==> (#[trigger] pages[i]).len() == PAGE_SIZE,
    ensures
        page_bytes(pages).len() == PAGE_SIZE * pages.len(),
        pages_in(front + page_bytes(pages) + tail, pages.len()) == pages,
    decreases pages.len(),
{
    let all = front + page_bytes(pages) + tail;
    if pages.len() > 0 {
        let rest = pages.drop_last();
        let last = pages[pages.len() - 1];
        assert forall|i: int| 0 <= i < rest.len() implies (#[trigger] rest[i]).len() == PAGE_SIZE by {
            assert(pages[i].len() == PAGE_SIZE);
        }
        pages_at(rest, front, last + tail);
        assert(all =~= front + page_bytes(rest) + (last + tail));
        assert forall|i: int| 0 <= i < pages.len() implies #[trigger] pages_in(
            all,
            pages.len(),
        )[i] == pages[i] by {
            if i < rest.len() {
                assert(pages_in(all, rest.len())[i] == rest[i]);
            } else {
                assert(all.subrange(
                    PAGES_START + PAGE_SIZE * i,
                    PAGES_START + PAGE_SIZE * (i + 1),
                ) =~= last);
            }
        }
    }
    assert(pages_in(all, pages.len()) =~= pages);
}

/// A file that was written is read back.
pub proof fn file_reads_back(h: Header, pages: Seq<Seq<u8>>, free: Seq<u32>)
    requires
        0 < pages.len() <= u32::MAX,
        free.len() <= u32::MAX,
        forall|i: int| 0 <= i < pages.len() ==> (#[trigger] pages[i]).len() == PAGE_SIZE,
        free_ok(free, pages.len() as int),
    ensures
        file_of(file_bytes(h, pages, free)) == Some((h, pages, free)),
{
    let nums = file_numbers(h, pages.len(), free.len());
    let b = file_bytes(h, pages, free);
    let front = number_bytes(nums);
    let body = page_bytes(pages);
    let tail = number_bytes(free);
    numbers_at(nums, Seq::empty(), body + tail);
    assert(b =~= Seq::<u8>::empty() + front + (body + tail));
    pages_at(pages, front, tail);
    numbers_at(free, front + body, Seq::empty());
    assert(b =~= front + body + tail + Seq::<u8>::empty());
    assert(nums[0] == h.node_count && nums[1] == h.edge_count && nums[2] == h.string_table_root
        && nums[3] == h.label_index_root && nums[4] == h.edge_label_index_root && nums[5]
        == h.adjacency_root && nums[6] == h.csr_adjacency_root && nums[7] == h.node_locs_root
        && nums[8] == h.edge_topo_root && nums[9] == h.catalog_root && nums[10]
        == h.secondary_index_root && nums[11] == pages.len() && nums[12] == free.len());
    assert forall|i: int| 0 <= i < free.len() implies #[trigger] free_in(
        b,
        pages.len(),
        free.len(),
    )[i] == free[i] by {}
    assert(free_in(b, pages.len(), free.len()) =~= free);
}

fn push_numbers(out: &mut Vec<u8>, list: &Vec<u32>)
    ensures
        final(out)@ == old(out)@ + number_bytes(list@),
{
    let ghost before = out@;
    let mut i: usize = 0;
    assert(before =~= before + number_bytes(list@.take(0)));
    while i < list.len()
        invariant
            i <= list.len(),
            out@ == before + number_bytes(list@.take(i as int)),
        decreases list.len() - i,
    {
        assert(list@.take(i + 1).drop_last() =~= list@.take(i as int));
        push_u32(out, list[i]);
        assert(out@ =~= before + number_bytes(list@.take(i + 1)));
        i = i + 1;
    }
    assert(list@.take(i as int) =~= list@);
}

fn push_page(out: &mut Vec<u8>, page: &Vec<u8>)
    ensures
        final(out)@ == old(out)@ + page@,
{
    let ghost before = out@;
    let mut i: usize = 0;
    assert(before =~= before + page@.take(0));
    while i < page.len()
        invariant
            i <= page.len(),
            out@ == before + page@.take(i as int),
        decreases page.len() - i,
    {
        out.push(page[i]);
        assert(out@ =~= before + page@.take(i + 1));
        i = i + 1;
    }
    assert(page@.take(i as int) =~= page@);
}

/// The numbers in front of the pages.
fn number_list(h: Header, pages: u32, free: u32) -> (r: Vec<u32>)
    ensures
        r@ == file_numbers(h, pages as nat, free as nat),
{
    let mut nums: Vec<u32> = Vec::new();
    nums.push(h.node_count);
    nums.push(h.edge_count);
    nums.push(h.string_table_root);
    nums.push(h.label_index_root);
    nums.push(h.edge_label_index_root);
    nums.push(h.adjacency_root);
    nums.push(h.csr_adjacency_root);
    nums.push(h.node_locs_root);
    nums.push(h.edge_topo_root);
    nums.push(h.catalog_root);
    nums.push(h.secondary_index_root);
    nums.push(pages);
    nums.push(free);
    assert(nums@ =~= file_numbers(h, pages as nat, free as nat));
    nums
}

/// Whether free page numbers are pages other than the first, each once.
fn check_free(free: &Vec<u32>, count: usize) -> (r: bool)
    requires
        count <= u32::MAX,
    ensures
        r == free_ok(free@, count as int),
{
    let mut seen: Vec<bool> = Vec::new();
    let mut n: usize = 0;
    while n < count
        invariant
            n <= count,
            seen@.len() == n,
            forall|j: int| 0 <= j < n ==> !#[trigger] seen@[j],
        decreases count - n,
    {
        seen.push(false);
        n = n + 1;
    }
    let mut i: usize = 0;
    while i < free.len()
        invariant
            i <= free.len(),
            count <= u32::MAX,
            seen@.len() == count,
            free_ok(free@.take(i as int), count as int),
            forall|j: int|
                0 <= j < count ==> #[trigger] seen@[j] == free@.take(i as int).contains(j as u32),
        decreases free.len() - i,
    {
        let f = free[i] as usize;
        let ghost done = free@.take(i as int);
        let ghost next = free@.take(i + 1);
        assert(next =~= done.push(free@[i as int]));
        if f == 0 || f >= count {
            assert(!(0 < free@[i as int] < count));
            return false;
        }
        if seen[f] {
            proof {
                let k = choose|k: int| 0 <= k < done.len() && done[k] == f as u32;
                assert(free@[k] == free@[i as int]);
            }
            return false;
        }
        seen.set(f, true);
        proof {
            assert forall|a: int, b: int|
                0 <= a < next.len() && 0 <= b < next.len() && a != b implies next[a]
                != next[b] by {
                if a < i && b < i {
                    assert(done[a] != done[b]);
                } else if a < i {
                    assert(done.contains(done[a]));
                } else {
                    assert(done.contains(done[b]));
                }
            }
            assert forall|k: int| 0 <= k < next.len() implies 0 < #[trigger] next[k] < count by {
                if k < i {
                    assert(0 < done[k] < count);
                }
            }
            assert forall|j: int| 0 <= j < count implies #[trigger] seen@[j] == next.contains(
                j as u32,
            ) by {
                if j == f {
                    assert(next[i as int] == f as u32);
                } else {
                    if done.contains(j as u32) {
                        let k = choose|k: int| 0 <= k < done.len() && done[k] == j as u32;
                        assert(next[k] == j as u32);
                    }
                    if next.contains(j as u32) {
                        let k = choose|k: int| 0 <= k < next.len() && next[k] == j as u32;
                        assert(done[k] == j as u32);
                    }
                }
            }
        }
        i = i + 1;
    }
    assert(free@.take(i as int) =~= free@);
    true
}

impl Pager {
    /// The bytes of the file.
    pub fn to_bytes(&self) -> (r: Vec<u8>)
        requires
            self.wf(),
        ensures
            r@ == file_bytes(self.header, self@, self.free@),
            file_of(r@) == Some((self.header, self@, self.free@)),
    {
        proof {
            super::string_table::distinct_pages(self.free@, self@.len());
        }
        let pages = self.pages.len();
        let free = self.free.len();
        let nums = number_list(self.header, pages as u32, free as u32);
        let mut out: Vec<u8> = Vec::new();
        push_numbers(&mut out, &nums);
        let ghost front = number_bytes(nums@);
        let mut i: usize = 0;
        assert(out@ =~= front + page_bytes(self@.take(0)));
        while i < self.pages.len()
            invariant
                i <= self.pages.len(),
                out@ == front + page_bytes(self@.take(i as int)),
            decreases self.pages.len() - i,
        {
            assert(self@.take(i + 1).drop_last() =~= self@.take(i as int));
            assert(self@.take(i + 1).last() == self.pages@[i as int]@);
            push_page(&mut out, &self.pages[i]);
            assert(out@ =~= front + page_bytes(self@.take(i + 1)));
            i = i + 1;
        }
        assert(self@.take(i as int) =~= self@);
        push_numbers(&mut out, &self.free);
        proof {
            file_reads_back(self.header, self@, self.free@);
        }
        out
    }

    /// The file that bytes hold.
    pub fn from_bytes(bytes: &Vec<u8>) -> (r: Result<Pager, StoreError>)
        ensures
            match r {
                Ok(p) => p.wf() && file_of(bytes@) == Some((p.header, p@, p.free@)),
                Err(e) => file_of(bytes@) is None && e == StoreError::Malformed,
            },
    {
        let total = bytes.len();
        if total < PAGES_START {
            return Err(StoreError::Malformed);
        }
        let header = Header {
            node_count: get_u32(bytes, 0),
            edge_count: get_u32(bytes, 4),
            string_table_root: get_u32(bytes, 8),
            label_index_root: get_u32(bytes, 12),
            edge_label_index_root: get_u32(bytes, 16),
            adjacency_root: get_u32(bytes, 20),
            csr_adjacency_root: get_u32(bytes, 24),
            node_locs_root: get_u32(bytes, 28),
            edge_topo_root: get_u32(bytes, 32),
            catalog_root: get_u32(bytes, 36),
            secondary_index_root: get_u32(bytes, 40),
        };
        let count = get_u32(bytes, 44);
        let listed = get_u32(bytes, 48);
        let wanted: u64 = PAGES_START as u64 + PAGE_SIZE as u64 * count as u64 + 4 * listed as u64;
        if count == 0 || total as u64 != wanted {
            return Err(StoreError::Malformed);
        }
        let n = count as usize;
        let ghost all = pages_in(bytes@, n as nat);
        let mut pages: Vec<Vec<u8>> = Vec::new();
        let mut i: usize = 0;
        assert(super::pager::page_views(pages@) =~= all.take(0));
        while i < n
            invariant
                i <= n,
                n == count,
                total == bytes@.len(),
                total == PAGES_START + PAGE_SIZE * n + 4 * listed,
                all == pages_in(bytes@, n as nat),
                super::pager::page_views(pages@) == all.take(i as int),
            decreases n - i,
        {
            assert(PAGE_SIZE * i + PAGE_SIZE <= PAGE_SIZE * n) by (nonlinear_arith)
                requires
                    i < n,
            ;
            let at: usize = PAGES_START + PAGE_SIZE * i;
            let ghost before = pages@;
            pages.push(copy_range(bytes, at, at + PAGE_SIZE));
            assert(super::pager::page_views(pages@) =~= super::pager::page_views(before).push(
                all[i as int],
            ));
            assert(super::pager::page_views(pages@) =~= all.take(i + 1));
            i = i + 1;
        }
        assert(all.take(i as int) =~= all);
        let ghost list = free_in(bytes@, n as nat, listed as nat);
        let mut free: Vec<u32> = Vec::new();
        let start: usize = PAGES_START + PAGE_SIZE * n;
        let m = listed as usize;
        let mut k: usize = 0;
        while k < m
            invariant
                k <= m,
                m == listed,
                total == bytes@.len(),
                start == PAGES_START + PAGE_SIZE * n,
                total == start + 4 * m,
                list == free_in(bytes@, n as nat, listed as nat),
                free@ == list.take(k as int),
            decreases m - k,
        {
            free.push(get_u32(bytes, start + 4 * k));
            assert(free@ =~= list.take(k + 1));
            k = k + 1;
        }
        assert(list.take(k as int) =~= list);
        if !check_free(&free, n) {
            return Err(StoreError::Malformed);
        }
        let p = Pager { header, pages, free };
        proof {
            assert forall|j: int| 0 <= j < p@.len() implies (#[trigger] p@[j]).len()
                == PAGE_SIZE by {
                assert(p@[j] == all[j]);
                assert(PAGE_SIZE * j + PAGE_SIZE <= PAGE_SIZE * n) by (nonlinear_arith)
                    requires
                        j < n,
                ;
            }
        }
        Ok(p)
    }
}

} // verus!
