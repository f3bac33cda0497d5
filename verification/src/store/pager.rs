//! A database file as numbered pages of equal size. Page 0 stands for the
//! header.

use vstd::prelude::*;

use super::bytes::{get_u16, put_u16, write_at};

verus! {

/// The bytes of a page.
pub const PAGE_SIZE: usize = 4096;

/// The bytes in front of a page's contents.
pub const PAGE_HEADER: usize = 8;

/// What a page holds.
#[derive(Debug, Clone, Copy, PartialEq, Eq, Structural)]
pub enum PageType {
    Free,
    NodeData,
    EdgeData,
    StringTable,
    Overflow,
    LabelIndex,
    Catalog,
    SecondaryIndex,
}

/// Why the store refuses.
#[derive(Debug, Clone, Copy, PartialEq, Eq, Structural)]
pub enum StoreError {
    /// A page number beyond the end of the file.
    NoSuchPage,
    /// Bytes that are not a string.
    InvalidText,
    /// Contents that run off a page or refer to nothing.
    Malformed,
    /// No page number is left.
    Full,
    /// A string too long for its length to be written.
    TextTooLong,
    /// A record that does not fit on a page.
    CellTooLarge,
    /// A node, an edge or a path as the value of a property.
    ReferenceValue,
    /// More ends of undirected edges than can be numbered.
    TooManyEdges,
    /// A chain that starts on a page of another type.
    WrongRoot,
}

impl PageType {
    /// The byte that marks such a page.
    pub open spec fn byte(self) -> u8 {
        match self {
            PageType::Free => 0,
            PageType::NodeData => 1,
            PageType::EdgeData => 2,
            PageType::StringTable => 3,
            PageType::Overflow => 4,
            PageType::LabelIndex => 5,
            PageType::Catalog => 6,
            PageType::SecondaryIndex => 7,
        }
    }

    /// The byte that marks such a page.
    pub fn code(self) -> (r: u8)
        ensures
            r == self.byte(),
    {
        match self {
            PageType::Free => 0,
            PageType::NodeData => 1,
            PageType::EdgeData => 2,
            PageType::StringTable => 3,
            PageType::Overflow => 4,
            PageType::LabelIndex => 5,
            PageType::Catalog => 6,
            PageType::SecondaryIndex => 7,
        }
    }
}

/// The page has this type.
pub open spec fn has_type(page: Seq<u8>, t: PageType) -> bool {
    page[0] == t.byte()
}

/// A new page of a type: its contents are zero.
pub open spec fn blank(t: PageType) -> Seq<u8> {
    Seq::new(PAGE_SIZE as nat, |i: int| if i == 0 { t.byte() } else { 0 })
}

/// A new page of a type.
pub fn new_page(t: PageType) -> (r: Vec<u8>)
    ensures
        r@ == blank(t),
{
    let mut v: Vec<u8> = Vec::new();
    v.push(t.code());
    while v.len() < PAGE_SIZE
        invariant
            1 <= v@.len() <= PAGE_SIZE,
            v@[0] == t.byte(),
            forall|i: int| 1 <= i < v@.len() ==> v@[i] == 0,
        decreases PAGE_SIZE - v.len(),
    {
        v.push(0);
    }
    assert(v@ =~= blank(t));
    v
}

/// How many cells a page has.
pub open spec fn cell_count(page: Seq<u8>) -> u16 {
    super::bytes::num16(page, 2)
}

/// Where a cell starts.
pub open spec fn cell_offset(page: Seq<u8>, i: int) -> u16 {
    super::bytes::num16(page, PAGE_HEADER + 2 * i)
}

/// Where a cell ends: where the one before it starts.
pub open spec fn cell_end(page: Seq<u8>, i: int) -> int {
    if i == 0 {
        PAGE_SIZE as int
    } else {
        cell_offset(page, i - 1) as int
    }
}

/// The cells lie one below the other, behind the list of their starts.
pub open spec fn cells_ok(page: Seq<u8>) -> bool {
    &&& page.len() == PAGE_SIZE
    &&& PAGE_HEADER + 2 * cell_count(page) <= PAGE_SIZE
    &&& forall|i: int| 0 <= i < cell_count(page) ==> #[trigger] cell_bounded(page, i)
}

/// A cell lies behind the list of starts and below the one before it.
pub open spec fn cell_bounded(page: Seq<u8>, i: int) -> bool {
    PAGE_HEADER + 2 * cell_count(page) <= cell_offset(page, i) <= cell_end(page, i)
}

/// The bytes of the cells.
pub open spec fn page_cells(page: Seq<u8>) -> Seq<Seq<u8>> {
    Seq::new(
        cell_count(page) as nat,
        |i: int| page.subrange(cell_offset(page, i) as int, cell_end(page, i)),
    )
}

/// How many bytes another cell may have.
pub open spec fn cell_room(page: Seq<u8>) -> int {
    cell_end(page, cell_count(page) as int) - PAGE_HEADER - 2 * cell_count(page) - 2
}

/// A page without cells.
pub proof fn blank_cells(t: PageType)
    ensures
        cells_ok(blank(t)),
        page_cells(blank(t)) == Seq::<Seq<u8>>::empty(),
        cell_count(blank(t)) == 0,
        has_type(blank(t), t),
{
    let two = blank(t).subrange(2, 4);
    assert(two =~= seq![0u8, 0u8]);
    assert(page_cells(blank(t)) =~= Seq::empty());
}

/// A page with one more cell.
pub open spec fn with_cell(page: Seq<u8>, cell: Seq<u8>) -> Seq<u8> {
    let n = cell_count(page);
    let start = cell_end(page, n as int) - cell.len();
    let p1 = super::bytes::splice(page, 2, super::bytes::le16((n + 1) as u16));
    let p2 = super::bytes::splice(p1, PAGE_HEADER + 2 * n, super::bytes::le16(start as u16));
    super::bytes::splice(p2, start, cell)
}

/// Bytes of the page that a new cell does not touch.
proof fn with_cell_keeps(page: Seq<u8>, cell: Seq<u8>, lo: int, hi: int)
    requires
        cells_ok(page),
        cell.len() <= cell_room(page),
        0 <= lo <= hi <= PAGE_SIZE,
        hi <= 2 || 4 <= lo,
        hi <= PAGE_HEADER + 2 * cell_count(page) || cell_end(page, cell_count(page) as int) <= lo,
    ensures
        with_cell(page, cell).subrange(lo, hi) == page.subrange(lo, hi),
        with_cell(page, cell).len() == PAGE_SIZE,
{
    let n = cell_count(page);
    let end = cell_end(page, n as int);
    let start = end - cell.len();
    if n > 0 {
        offsets_in_page(page, n - 1);
        assert(cell_bounded(page, n - 1));
    }
    let b1 = super::bytes::le16((n + 1) as u16);
    let b2 = super::bytes::le16(start as u16);
    let p1 = super::bytes::splice(page, 2, b1);
    let p2 = super::bytes::splice(p1, PAGE_HEADER + 2 * n, b2);
    super::bytes::splice_put(page, 2, b1);
    super::bytes::splice_put(p1, PAGE_HEADER + 2 * n, b2);
    super::bytes::splice_put(p2, start, cell);
    super::bytes::splice_keeps(page, 2, b1, lo, hi);
    super::bytes::splice_keeps(p1, PAGE_HEADER + 2 * n, b2, lo, hi);
    super::bytes::splice_keeps(p2, start, cell, lo, hi);
}

/// What a page with one more cell holds.
proof fn with_cell_parts(page: Seq<u8>, cell: Seq<u8>)
    requires
        cells_ok(page),
        cell.len() <= cell_room(page),
    ensures
        ({
            let n = cell_count(page);
            let p = with_cell(page, cell);
            let end = cell_end(page, n as int);
            &&& p.len() == PAGE_SIZE
            &&& cell_count(p) == n + 1
            &&& cell_offset(p, n as int) == end - cell.len()
            &&& p.subrange(end - cell.len(), end) == cell
        }),
{
    let n = cell_count(page);
    let end = cell_end(page, n as int);
    let start = end - cell.len();
    if n > 0 {
        offsets_in_page(page, n - 1);
        assert(cell_bounded(page, n - 1));
    }
    let b1 = super::bytes::le16((n + 1) as u16);
    let b2 = super::bytes::le16(start as u16);
    let p1 = super::bytes::splice(page, 2, b1);
    let p2 = super::bytes::splice(p1, PAGE_HEADER + 2 * n, b2);
    super::bytes::numbers_16();
    super::bytes::splice_put(page, 2, b1);
    super::bytes::splice_put(p1, PAGE_HEADER + 2 * n, b2);
    super::bytes::splice_put(p2, start, cell);
    super::bytes::splice_keeps(p1, PAGE_HEADER + 2 * n, b2, 2, 4);
    super::bytes::splice_keeps(p2, start, cell, 2, 4);
    super::bytes::splice_keeps(p2, start, cell, PAGE_HEADER + 2 * n, PAGE_HEADER + 2 * n + 2);
}

/// A page with one more cell is in order and has it last.
proof fn with_cell_cells(page: Seq<u8>, cell: Seq<u8>)
    requires
        cells_ok(page),
        cell.len() <= cell_room(page),
    ensures
        cells_ok(with_cell(page, cell)),
        page_cells(with_cell(page, cell)) == page_cells(page).push(cell),
        with_cell(page, cell)[0] == page[0],
{
    let n = cell_count(page);
    let p = with_cell(page, cell);
    with_cell_parts(page, cell);
    if n > 0 {
        offsets_in_page(page, n - 1);
    }
    assert(PAGE_HEADER + 2 * cell_count(p) <= PAGE_SIZE);
    assert forall|i: int| 0 <= i < n implies #[trigger] cell_offset(p, i) == cell_offset(
        page,
        i,
    ) by {
        with_cell_keeps(page, cell, PAGE_HEADER + 2 * i, PAGE_HEADER + 2 * i + 2);
    }
    assert(cell_end(p, n as int) == cell_end(page, n as int)) by {
        if n > 0 {
            assert(cell_offset(p, n - 1) == cell_offset(page, n - 1));
        }
    }
    assert forall|i: int| 0 <= i < cell_count(p) implies #[trigger] cell_bounded(p, i) by {
        if i < n {
            offsets_fall(page, i, n - 1);
            assert(cell_offset(p, i) == cell_offset(page, i));
            if i > 0 {
                assert(cell_offset(p, i - 1) == cell_offset(page, i - 1));
            }
            assert(cell_bounded(page, i));
            assert(cell_bounded(page, n - 1));
        }
    }
    assert forall|i: int| 0 <= i < n + 1 implies #[trigger] page_cells(p)[i] == page_cells(
        page,
    ).push(cell)[i] by {
        if i < n {
            assert(cell_offset(p, i) == cell_offset(page, i));
            if i > 0 {
                assert(cell_offset(p, i - 1) == cell_offset(page, i - 1));
            }
            offsets_fall(page, i, n - 1);
            offsets_in_page(page, i);
            with_cell_keeps(page, cell, cell_offset(page, i) as int, cell_end(page, i));
        }
    }
    assert(page_cells(p) =~= page_cells(page).push(cell));
    with_cell_keeps(page, cell, 0, 1);
    assert(p.subrange(0, 1)[0] == p[0]);
    assert(page.subrange(0, 1)[0] == page[0]);
}

/// Puts a cell on a page, if it fits.
pub fn insert_cell(page: &mut Vec<u8>, cell: &Vec<u8>) -> (r: Option<u16>)
    requires
        cells_ok(old(page)@),
    ensures
        match r {
            Some(i) => {
                &&& cell@.len() <= cell_room(old(page)@)
                &&& i == cell_count(old(page)@)
                &&& cells_ok(final(page)@)
                &&& page_cells(final(page)@) == page_cells(old(page)@).push(cell@)
                &&& final(page)@[0] == old(page)@[0]
            },
            None => cell@.len() > cell_room(old(page)@) && final(page)@ == old(page)@,
        },
{
    let ghost p0 = page@;
    let n = get_u16(page, 2);
    let end: usize = if n == 0 {
        PAGE_SIZE
    } else {
        get_u16(page, PAGE_HEADER + 2 * (n as usize - 1)) as usize
    };
    proof {
        if n > 0 {
            offsets_in_page(p0, n - 1);
            assert(cell_bounded(p0, n - 1));
        }
    }
    let used: usize = PAGE_HEADER + 2 * (n as usize) + 2;
    if end < used || end - used < cell.len() {
        return None;
    }
    let start: usize = end - cell.len();
    put_u16(page, 2, (n + 1) as u16);
    put_u16(page, PAGE_HEADER + 2 * (n as usize), start as u16);
    write_at(page, start, cell.as_slice());
    proof {
        assert(page@ == with_cell(p0, cell@));
        with_cell_cells(p0, cell@);
    }
    Some(n)
}

/// A later cell starts no higher.
proof fn offsets_fall(page: Seq<u8>, i: int, j: int)
    requires
        cells_ok(page),
        0 <= i <= j < cell_count(page),
    ensures
        cell_offset(page, j) <= cell_offset(page, i),
    decreases j - i,
{
    if i < j {
        offsets_fall(page, i, j - 1);
        assert(cell_bounded(page, j));
    }
}

/// Cells lie within the page.
pub proof fn offsets_in_page(page: Seq<u8>, i: int)
    requires
        cells_ok(page),
        0 <= i < cell_count(page),
    ensures
        PAGE_HEADER <= cell_offset(page, i) <= cell_end(page, i) <= PAGE_SIZE,
{
    assert(cell_bounded(page, i));
    if i > 0 {
        offsets_fall(page, 0, i - 1);
        assert(cell_bounded(page, 0));
    }
}

/// Whether the cells of a page are in order.
pub fn check_cells(page: &Vec<u8>) -> (r: bool)
    requires
        page@.len() == PAGE_SIZE,
    ensures
        r == cells_ok(page@),
{
    let n = get_u16(page, 2) as usize;
    let low: usize = PAGE_HEADER + 2 * n;
    if low > PAGE_SIZE {
        return false;
    }
    let mut end: usize = PAGE_SIZE;
    let mut i: usize = 0;
    while i < n
        invariant
            i <= n,
            n == cell_count(page@),
            low == PAGE_HEADER + 2 * n,
            low <= PAGE_SIZE,
            page@.len() == PAGE_SIZE,
            end == cell_end(page@, i as int),
            forall|j: int| 0 <= j < i ==> #[trigger] cell_bounded(page@, j),
        decreases n - i,
    {
        let at = get_u16(page, PAGE_HEADER + 2 * i) as usize;
        assert(at == cell_offset(page@, i as int));
        if at < low || at > end {
            assert(!cell_bounded(page@, i as int));
            return false;
        }
        end = at;
        i = i + 1;
    }
    true
}

/// The pointers to what a file holds.
#[derive(Debug, Clone, Copy, PartialEq, Eq, Structural)]
pub struct Header {
    pub node_count: u32,
    pub edge_count: u32,
    pub string_table_root: u32,
    pub label_index_root: u32,
    pub edge_label_index_root: u32,
    pub adjacency_root: u32,
    pub csr_adjacency_root: u32,
    pub node_locs_root: u32,
    pub edge_topo_root: u32,
    pub catalog_root: u32,
    pub secondary_index_root: u32,
}

/// A database file.
pub struct Pager {
    pub header: Header,
    pub pages: Vec<Vec<u8>>,
    /// Pages that are no longer in use.
    pub free: Vec<u32>,
}

/// The contents of the pages.
pub open spec fn page_views(v: Seq<Vec<u8>>) -> Seq<Seq<u8>> {
    Seq::new(v.len(), |i: int| v[i]@)
}

/// Pages of the right size, few enough to be numbered.
pub open spec fn pages_ok(pages: Seq<Seq<u8>>) -> bool {
    &&& 1 <= pages.len() <= u32::MAX
    &&& forall|i: int| 0 <= i < pages.len() ==> (#[trigger] pages[i]).len() == PAGE_SIZE
}

/// What changes from one state of the pages to a later one: pages of the given
/// types may have other contents, and new pages have one of these types.
pub open spec fn grown(a: Seq<Seq<u8>>, b: Seq<Seq<u8>>, kinds: Set<u8>) -> bool {
    &&& a.len() <= b.len()
    &&& forall|i: int|
        0 <= i < a.len() ==> #[trigger] b[i] == a[i] || (kinds.contains(a[i][0]) && b[i][0]
            == a[i][0])
    &&& forall|i: int| a.len() <= i < b.len() ==> kinds.contains(#[trigger] b[i][0])
}

/// Changes of the same types one after the other.
pub proof fn grown_twice(a: Seq<Seq<u8>>, b: Seq<Seq<u8>>, c: Seq<Seq<u8>>, kinds: Set<u8>)
    requires
        grown(a, b, kinds),
        grown(b, c, kinds),
    ensures
        grown(a, c, kinds),
{
    assert forall|i: int| 0 <= i < a.len() implies #[trigger] c[i] == a[i] || (kinds.contains(
        a[i][0],
    ) && c[i][0] == a[i][0]) by {
        assert(b[i] == a[i] || (kinds.contains(a[i][0]) && b[i][0] == a[i][0]));
    }
    assert forall|i: int| a.len() <= i < c.len() implies kinds.contains(#[trigger] c[i][0]) by {
        if i < b.len() {
            assert(kinds.contains(b[i][0]));
            assert(c[i] == b[i] || c[i][0] == b[i][0]);
        }
    }
}

/// Changes of some types are changes of more types.
pub proof fn grown_wider(a: Seq<Seq<u8>>, b: Seq<Seq<u8>>, k: Set<u8>, kinds: Set<u8>)
    requires
        grown(a, b, k),
        k.subset_of(kinds),
    ensures
        grown(a, b, kinds),
{
    assert forall|i: int| a.len() <= i < b.len() implies kinds.contains(#[trigger] b[i][0]) by {
        assert(k.contains(b[i][0]));
    }
}

impl Pager {
    /// The contents of the pages.
    pub open spec fn view(&self) -> Seq<Seq<u8>> {
        page_views(self.pages@)
    }

    /// The free pages are marked as such.
    pub open spec fn free_blank(&self) -> bool {
        forall|i: int|
            0 <= i < self.free@.len() ==> has_type(
                self@[#[trigger] self.free@[i] as int],
                PageType::Free,
            )
    }

    /// The pages are in order, and free page numbers are pages, each once.
    pub open spec fn wf(&self) -> bool {
        &&& pages_ok(self@)
        &&& forall|i: int|
            0 <= i < self.free@.len() ==> 0 < #[trigger] self.free@[i] < self.pages@.len()
        &&& self.free@.no_duplicates()
    }

    /// A file without contents.
    pub fn create() -> (r: Self)
        ensures
            r.wf(),
            r@ == seq![blank(PageType::Free)],
            r.free@ == Seq::<u32>::empty(),
            r.header == Header::none(),
    {
        let mut pages: Vec<Vec<u8>> = Vec::new();
        pages.push(new_page(PageType::Free));
        let r = Pager { header: Header::empty(), pages, free: Vec::new() };
        assert(r@ =~= seq![blank(PageType::Free)]);
        r
    }

    /// How many pages the file has.
    pub fn page_count(&self) -> (r: u32)
        requires
            self.wf(),
        ensures
            r == self@.len(),
    {
        self.pages.len() as u32
    }

    /// The contents of a page.
    pub fn read_page(&self, page: u32) -> (r: Result<&Vec<u8>, StoreError>)
        ensures
            match r {
                Ok(p) => page < self@.len() && p@ == self@[page as int],
                Err(e) => page >= self@.len() && e == StoreError::NoSuchPage,
            },
    {
        if (page as usize) < self.pages.len() {
            Ok(&self.pages[page as usize])
        } else {
            Err(StoreError::NoSuchPage)
        }
    }

    /// A copy of the contents of a page.
    pub fn copy_page(&self, page: u32) -> (r: Vec<u8>)
        requires
            page < self@.len(),
        ensures
            r@ == self@[page as int],
    {
        let p = &self.pages[page as usize];
        super::bytes::copy_range(p, 0, p.len())
    }

    /// Replaces the contents of a page.
    pub fn write_page(&mut self, page: u32, contents: Vec<u8>)
        requires
            old(self).wf(),
            page < old(self)@.len(),
            contents@.len() == PAGE_SIZE,
        ensures
            final(self).wf(),
            final(self)@ == old(self)@.update(page as int, contents@),
            final(self).free == old(self).free,
            final(self).header == old(self).header,
    {
        let ghost before = self@;
        self.pages.set(page as usize, contents);
        assert(self@ =~= before.update(page as int, contents@));
    }

    /// A page number for new contents: a free page, or a new one at the end.
    pub fn allocate_page(&mut self) -> (r: Result<u32, StoreError>)
        requires
            old(self).wf(),
        ensures
            final(self).wf(),
            final(self).header == old(self).header,
            match r {
                Ok(page) => if old(self).free@.len() > 0 {
                    &&& page == old(self).free@.last()
                    &&& final(self)@ == old(self)@
                    &&& final(self).free@ == old(self).free@.drop_last()
                } else {
                    &&& page == old(self)@.len()
                    &&& final(self)@ == old(self)@.push(blank(PageType::Free))
                    &&& final(self).free@ == old(self).free@
                },
                Err(e) => {
                    &&& e == StoreError::Full
                    &&& old(self).free@.len() == 0
                    &&& old(self)@.len() == u32::MAX
                    &&& *final(self) == *old(self)
                },
            },
    {
        let ghost before = self@;
        if self.free.len() > 0 {
            let ghost f = self.free@;
            let page = self.free.pop().unwrap();
            assert(f[f.len() - 1] == page);
            assert(self.free@ =~= f.drop_last());
            assert forall|i: int, j: int|
                0 <= i < self.free@.len() && 0 <= j < self.free@.len() && i
                    != j implies self.free@[i] != self.free@[j] by {
                assert(f[i] != f[j]);
            }
            return Ok(page);
        }
        if self.pages.len() >= u32::MAX as usize {
            return Err(StoreError::Full);
        }
        let page = self.pages.len() as u32;
        self.pages.push(new_page(PageType::Free));
        assert(self@ =~= before.push(blank(PageType::Free)));
        Ok(page)
    }

    /// Adds a page at the end.
    pub fn add_page(&mut self, contents: Vec<u8>) -> (r: Result<u32, StoreError>)
        requires
            old(self).wf(),
            contents@.len() == PAGE_SIZE,
        ensures
            final(self).wf(),
            final(self).header == old(self).header,
            final(self).free == old(self).free,
            match r {
                Ok(page) => page == old(self)@.len() && final(self)@ == old(self)@.push(contents@),
                Err(e) => e == StoreError::Full && old(self)@.len() == u32::MAX && *final(self)
                    == *old(self),
            },
    {
        let ghost before = self@;
        if self.pages.len() >= u32::MAX as usize {
            return Err(StoreError::Full);
        }
        let page = self.pages.len() as u32;
        self.pages.push(contents);
        assert(self@ =~= before.push(contents@));
        Ok(page)
    }

    /// Gives a page back.
    pub fn free_page(&mut self, page: u32)
        requires
            old(self).wf(),
            0 < page < old(self)@.len(),
            !old(self).free@.contains(page),
        ensures
            final(self).wf(),
            final(self)@ == old(self)@.update(page as int, blank(PageType::Free)),
            final(self).free@ == old(self).free@.push(page),
            final(self).header == old(self).header,
    {
        let contents = new_page(PageType::Free);
        self.write_page(page, contents);
        let ghost f = self.free@;
        self.free.push(page);
        assert forall|i: int, j: int|
            0 <= i < self.free@.len() && 0 <= j < self.free@.len() && i
                != j implies self.free@[i] != self.free@[j] by {
            if i < f.len() {
                assert(f.contains(f[i]));
            }
            if j < f.len() {
                assert(f.contains(f[j]));
            }
        }
    }
}

impl Header {
    /// A header that points to nothing.
    pub open spec fn none() -> Header {
        Header {
            node_count: 0,
            edge_count: 0,
            string_table_root: 0,
            label_index_root: 0,
            edge_label_index_root: 0,
            adjacency_root: 0,
            csr_adjacency_root: 0,
            node_locs_root: 0,
            edge_topo_root: 0,
            catalog_root: 0,
            secondary_index_root: 0,
        }
    }

    /// A header that points to nothing.
    pub fn empty() -> (r: Header)
        ensures
            r == Header::none(),
    {
        Header {
            node_count: 0,
            edge_count: 0,
            string_table_root: 0,
            label_index_root: 0,
            edge_label_index_root: 0,
            adjacency_root: 0,
            csr_adjacency_root: 0,
            node_locs_root: 0,
            edge_topo_root: 0,
            catalog_root: 0,
            secondary_index_root: 0,
        }
    }
}

} // verus!
