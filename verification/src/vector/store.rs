//! The vector attributes of a database in memory.

use vstd::prelude::*;

use super::cursor::{BruteForceCursor, EmptyCursor, NnCursor};
use super::distance::ask;
use super::hnsw::Hnsw;
use super::hnsw_cursor::HnswCursor;
use super::metric::Metric;
use super::ranking::rank_all;
use super::sidecar::Sidecar;
use crate::fields::FieldMap;
use crate::model::value::Id;
use crate::text::{copy_text, same_text, text_of_usize};

verus! {

/// One vector attribute: the rows, the nodes they belong to, and a proximity
/// graph where one was built.
#[derive(Debug, Clone)]
pub struct VectorSet {
    pub attr: String,
    pub dim: usize,
    pub metric: Metric,
    pub fingerprint: u64,
    /// The node of each row, ascending.
    pub ids: Vec<u32>,
    /// The components of all rows, by their bits.
    pub data: Vec<u32>,
    pub hnsw: Option<Hnsw>,
}

impl View for VectorSet {
    type V = super::sidecar::SidecarView;

    open spec fn view(&self) -> super::sidecar::SidecarView {
        super::sidecar::SidecarView {
            attr: self.attr@,
            dim: self.dim as nat,
            metric: self.metric,
            fingerprint: self.fingerprint,
            ids: self.ids@,
            data: self.data@,
            hnsw: super::sidecar::hnsw_view(self.hnsw),
        }
    }
}

/// All rows with their distances.
pub open spec fn all_pairs(ids: Seq<u32>, dist: Seq<u32>) -> Seq<(Id, u32)> {
    Seq::new(ids.len(), |i: int| (ids[i], dist[i]))
}

/// The candidates that have a row, with their distances.
pub open spec fn candidate_pairs(ids: Seq<u32>, dist: Seq<u32>, candidates: Seq<Id>) -> Seq<
    (Id, u32),
>
    decreases candidates.len(),
{
    if candidates.len() == 0 {
        Seq::empty()
    } else {
        let rest = candidate_pairs(ids, dist, candidates.drop_last());
        let c = candidates.last();
        if ids.contains(c) {
            rest.push((c, dist[ids.index_of(c)]))
        } else {
            rest
        }
    }
}

/// Rows as neighbours.
pub open spec fn by_id(ids: Seq<u32>, rows: Seq<(u32, u32)>) -> Seq<(Id, u32)> {
    Seq::new(rows.len(), |k: int| (ids[rows[k].0 as int], rows[k].1))
}

/// The rows that a walk through a proximity graph hands out.
pub open spec fn walk_order(h: super::hnsw::HnswView, dist: Seq<u32>) -> Seq<(u32, u32)> {
    super::hnsw_cursor::emissions(
        h.levels,
        dist,
        super::hnsw_cursor::DEFAULT_EF_SEARCH as int,
        super::hnsw_cursor::begun(h, dist),
    )
}

/// What is said of a query of another dimension.
pub open spec fn dimension_message(attr: Seq<char>, dim: nat, len: nat) -> Seq<char> {
    "vector attribute `"@ + attr + "` has dimension "@ + crate::text::decimal(dim)
        + ", query vector has "@ + crate::text::decimal(len)
}

/// A cursor over an attribute.
pub enum Cursor<'a, F> {
    Nothing(EmptyCursor),
    Exact(BruteForceCursor),
    Walk(HnswCursor<'a, F>),
}

impl<'a, F: Fn(usize) -> u32> NnCursor for Cursor<'a, F> {
    open spec fn wf(&self) -> bool {
        match self {
            Cursor::Nothing(c) => c.wf(),
            Cursor::Exact(c) => c.wf(),
            Cursor::Walk(c) => c.wf(),
        }
    }

    open spec fn rest(&self) -> Seq<(Id, u32)> {
        match self {
            Cursor::Nothing(c) => c.rest(),
            Cursor::Exact(c) => c.rest(),
            Cursor::Walk(c) => c.rest(),
        }
    }

    open spec fn examined(&self) -> u64 {
        match self {
            Cursor::Nothing(c) => c.examined(),
            Cursor::Exact(c) => c.examined(),
            Cursor::Walk(c) => c.examined(),
        }
    }

    fn next(&mut self) -> (r: Option<(Id, u32)>) {
        match self {
            Cursor::Nothing(c) => c.next(),
            Cursor::Exact(c) => c.next(),
            Cursor::Walk(c) => c.next(),
        }
    }

    fn expanded(&self) -> (r: u64) {
        match self {
            Cursor::Nothing(c) => c.expanded(),
            Cursor::Exact(c) => c.expanded(),
            Cursor::Walk(c) => c.expanded(),
        }
    }
}

impl VectorSet {
    /// Rows and graph agree with each other.
    pub open spec fn wf(&self) -> bool {
        &&& super::sidecar::ids_ascend(self.ids@)
        &&& self.data@.len() == self.ids@.len() * self.dim
        &&& self.hnsw matches Some(h) ==> super::hnsw::in_range(
            h@.levels,
            self.ids@.len() as int,
        )
    }

    /// An attribute without a graph.
    pub fn new(
        attr: String,
        dim: usize,
        metric: Metric,
        fingerprint: u64,
        ids: Vec<u32>,
        data: Vec<u32>,
    ) -> (r: VectorSet)
        requires
            super::sidecar::ids_ascend(ids@),
            data@.len() == ids@.len() * dim,
        ensures
            r.wf(),
            r@ == (super::sidecar::SidecarView {
                attr: attr@,
                dim: dim as nat,
                metric,
                fingerprint,
                ids: ids@,
                data: data@,
                hnsw: None,
            }),
    {
        VectorSet { attr, dim, metric, fingerprint, ids, data, hnsw: None }
    }

    /// The attribute with a graph.
    pub fn with_hnsw(self, hnsw: Hnsw) -> (r: VectorSet)
        requires
            self.wf(),
            super::hnsw::in_range(hnsw@.levels, self@.ids.len() as int),
        ensures
            r.wf(),
            r@ == (super::sidecar::SidecarView { hnsw: Some(hnsw@), ..self@ }),
    {
        let mut set = self;
        set.hnsw = Some(hnsw);
        set
    }

    /// The attribute of a sidecar.
    pub fn from_sidecar(s: Sidecar) -> (r: VectorSet)
        requires
            s@.valid(),
        ensures
            r.wf(),
            r@ == s@,
    {
        proof {
            match s@.hnsw {
                Some(h) => {
                    super::hnsw::no_error_in_range(h.levels, s@.ids.len() as int);
                },
                None => {},
            }
        }
        VectorSet {
            attr: s.attr,
            dim: s.dim,
            metric: s.metric,
            fingerprint: s.fingerprint,
            ids: s.ids,
            data: s.data,
            hnsw: s.hnsw,
        }
    }

    /// The attribute as a sidecar.
    pub fn to_sidecar(&self) -> (r: Sidecar)
        ensures
            r@ == self@,
    {
        let hnsw = match &self.hnsw {
            Some(h) => Some(copy_graph(h)),
            None => None,
        };
        Sidecar {
            attr: copy_text(self.attr.as_str()),
            dim: self.dim,
            metric: self.metric,
            fingerprint: self.fingerprint,
            ids: vstd::slice::slice_to_vec(self.ids.as_slice()),
            data: vstd::slice::slice_to_vec(self.data.as_slice()),
            hnsw,
        }
    }

    /// The name of the attribute.
    pub fn attr(&self) -> (r: &str)
        ensures
            r@ == self@.attr,
    {
        self.attr.as_str()
    }

    /// The dimension.
    pub fn dim(&self) -> (r: usize)
        ensures
            r == self@.dim,
    {
        self.dim
    }

    /// The metric.
    pub fn metric(&self) -> (r: Metric)
        ensures
            r == self@.metric,
    {
        self.metric
    }

    /// The mark of the graph that the attribute belongs to.
    pub fn fingerprint(&self) -> (r: u64)
        ensures
            r == self@.fingerprint,
    {
        self.fingerprint
    }

    /// The number of rows.
    pub fn len(&self) -> (r: usize)
        ensures
            r == self@.ids.len(),
    {
        self.ids.len()
    }

    /// Whether there are no rows.
    pub fn is_empty(&self) -> (r: bool)
        ensures
            r == (self@.ids.len() == 0),
    {
        self.ids.len() == 0
    }

    /// Whether a graph was built.
    pub fn has_index(&self) -> (r: bool)
        ensures
            r == (self@.hnsw is Some),
    {
        self.hnsw.is_some()
    }

    /// The graph.
    pub fn hnsw(&self) -> (r: Option<&Hnsw>)
        ensures
            match r {
                Some(h) => self.hnsw == Some(*h) && self@.hnsw == Some(h@),
                None => self@.hnsw is None,
            },
    {
        match &self.hnsw {
            Some(h) => Some(h),
            None => None,
        }
    }

    /// The nodes that have a row, ascending.
    pub fn ids(&self) -> (r: &[u32])
        ensures
            r@ == self@.ids,
    {
        self.ids.as_slice()
    }

    /// The row of a node.
    pub fn row_index(&self, node: Id) -> (r: Option<usize>)
        requires
            self.wf(),
        ensures
            match r {
                Some(i) => self@.ids.contains(node) && i == self@.ids.index_of(node) && i
                    < self@.ids.len() && self@.ids[i as int] == node,
                None => !self@.ids.contains(node),
            },
    {
        let ghost ids = self.ids@;
        let mut lo: usize = 0;
        let mut hi: usize = self.ids.len();
        while lo < hi
            invariant
                ids == self.ids@,
                super::sidecar::ids_ascend(ids),
                lo <= hi <= ids.len(),
                forall|i: int| 0 <= i < lo ==> #[trigger] ids[i] < node,
                forall|i: int| hi <= i < ids.len() ==> node < #[trigger] ids[i],
            decreases hi - lo,
        {
            let mid: usize = lo + (hi - lo) / 2;
            let x = self.ids[mid];
            if x == node {
                proof {
                    assert(ids.contains(node));
                    let j = ids.index_of(node);
                    assert(ids[j] == node);
                    if j < mid {
                        assert(ids[j] < ids[mid as int]);
                    } else if mid < j {
                        assert(ids[mid as int] < ids[j]);
                    }
                }
                return Some(mid);
            }
            if x < node {
                assert forall|i: int| 0 <= i < mid + 1 implies #[trigger] ids[i] < node by {
                    if i < mid {
                        assert(ids[i] < ids[mid as int]);
                    }
                }
                lo = mid + 1;
            } else {
                assert forall|i: int| mid <= i < ids.len() implies node < #[trigger] ids[i] by {
                    if mid < i {
                        assert(ids[mid as int] < ids[i]);
                    }
                }
                hi = mid;
            }
        }
        None
    }

    /// The components of a row.
    pub open spec fn row_of(&self, i: int) -> Seq<u32> {
        self.data@.subrange(i * self.dim, i * self.dim + self.dim)
    }

    /// The components of the row of a node.
    pub fn row(&self, node: Id) -> (r: Option<&[u32]>)
        requires
            self.wf(),
        ensures
            match r {
                Some(s) => self@.ids.contains(node) && s@ == self.row_of(
                    self@.ids.index_of(node),
                ),
                None => !self@.ids.contains(node),
            },
    {
        match self.row_index(node) {
            Some(i) => Some(self.row_at(i)),
            None => None,
        }
    }

    /// The components of a row.
    pub fn row_at(&self, i: usize) -> (r: &[u32])
        requires
            self.wf(),
            i < self@.ids.len(),
        ensures
            r@ == self.row_of(i as int),
    {
        let total = self.data.len();
        let n = self.ids.len();
        assert(i * self.dim + self.dim <= n * self.dim) by (nonlinear_arith)
            requires
                i < n,
        ;
        assert(0 <= i * self.dim) by (nonlinear_arith);
        let from = i * self.dim;
        vstd::slice::slice_subrange(self.data.as_slice(), from, from + self.dim)
    }

    /// Checks that a query has the dimension of the attribute.
    pub fn validate_query(&self, q: &[u32]) -> (r: Result<(), String>)
        ensures
            match r {
                Ok(()) => q@.len() == self@.dim,
                Err(m) => q@.len() != self@.dim && m@ == dimension_message(
                    self@.attr,
                    self@.dim,
                    q@.len(),
                ),
            },
    {
        if q.len() != self.dim {
            let mut s = copy_text("vector attribute `");
            s.append(self.attr.as_str());
            s.append("` has dimension ");
            s.append(text_of_usize(self.dim).as_str());
            s.append(", query vector has ");
            s.append(text_of_usize(q.len()).as_str());
            return Err(s);
        }
        Ok(())
    }

    /// The distance of a node, where it has a row. A function answers the
    /// distance of each row.
    pub fn dist_to<F: Fn(usize) -> u32>(&self, dist: &F, node: Id) -> (r: Option<u32>)
        requires
            self.wf(),
            super::distance::answers(*dist, self@.ids.len() as int),
        ensures
            match r {
                Some(d) => self@.ids.contains(node) && d == super::distance::table(
                    *dist,
                    self@.ids.len() as int,
                )[self@.ids.index_of(node)],
                None => !self@.ids.contains(node),
            },
    {
        match self.row_index(node) {
            Some(i) => Some(ask(dist, i, Ghost(self.ids@.len() as int))),
            None => None,
        }
    }

    /// A cursor over the whole attribute: through the graph, where it is to be
    /// used and there is one, and else exact. A query of another dimension has
    /// no neighbours.
    pub fn cursor<'a, F: Fn(usize) -> u32>(
        &'a self,
        q: &[u32],
        use_index: bool,
        dist: F,
    ) -> (r: Cursor<'a, F>)
        requires
            self.wf(),
            super::distance::answers(dist, self@.ids.len() as int),
        ensures
            r.wf(),
            ({
                let table = super::distance::table(dist, self@.ids.len() as int);
                r.rest() == if q@.len() != self@.dim {
                    Seq::empty()
                } else if use_index && self@.hnsw is Some {
                    by_id(self@.ids, walk_order(self@.hnsw->Some_0, table))
                } else {
                    super::ranking::ranking(all_pairs(self@.ids, table))
                }
            }),
    {
        if q.len() != self.dim {
            return Cursor::Nothing(EmptyCursor);
        }
        if use_index {
            match &self.hnsw {
                Some(h) => {
                    let c = HnswCursor::new(self.ids.as_slice(), h, dist);
                    assert(c.rest() =~= by_id(
                        self@.ids,
                        walk_order(
                            h@,
                            super::distance::table(dist, self@.ids.len() as int),
                        ),
                    ));
                    return Cursor::Walk(c);
                },
                None => {},
            }
        }
        Cursor::Exact(self.brute_force_cursor(&dist))
    }

    /// The exact cursor.
    fn brute_force_cursor<F: Fn(usize) -> u32>(&self, dist: &F) -> (r: BruteForceCursor)
        requires
            super::distance::answers(*dist, self@.ids.len() as int),
        ensures
            r.wf(),
            r.rest() == super::ranking::ranking(
                all_pairs(
                    self@.ids,
                    super::distance::table(*dist, self@.ids.len() as int),
                ),
            ),
    {
        let ghost n = self.ids@.len() as int;
        let ghost all = all_pairs(self.ids@, super::distance::table(*dist, n));
        let mut pairs: Vec<(Id, u32)> = Vec::new();
        let mut i: usize = 0;
        while i < self.ids.len()
            invariant
                i <= n,
                n == self.ids@.len(),
                super::distance::answers(*dist, n),
                all == all_pairs(self.ids@, super::distance::table(*dist, n)),
                pairs@ == all.take(i as int),
            decreases n - i,
        {
            let d = ask(dist, i, Ghost(n));
            pairs.push((self.ids[i], d));
            i = i + 1;
            assert(pairs@ =~= all.take(i as int));
        }
        assert(all.take(i as int) =~= all);
        BruteForceCursor::from_unsorted(pairs)
    }

    /// A cursor over some candidates.
    pub fn cursor_over<F: Fn(usize) -> u32>(
        &self,
        q: &[u32],
        candidates: &[Id],
        dist: &F,
    ) -> (r: BruteForceCursor)
        requires
            self.wf(),
            super::distance::answers(*dist, self@.ids.len() as int),
        ensures
            r.wf(),
            ({
                let table = super::distance::table(*dist, self@.ids.len() as int);
                r.rest() == if q@.len() != self@.dim {
                    Seq::empty()
                } else {
                    super::ranking::ranking(candidate_pairs(self@.ids, table, candidates@))
                }
            }),
    {
        BruteForceCursor::from_sorted(self.rank_candidates(q, candidates, dist))
    }

    /// The candidates that have a row, nearest first.
    pub fn rank_candidates<F: Fn(usize) -> u32>(
        &self,
        q: &[u32],
        candidates: &[Id],
        dist: &F,
    ) -> (r: Vec<(Id, u32)>)
        requires
            self.wf(),
            super::distance::answers(*dist, self@.ids.len() as int),
        ensures
            ({
                let table = super::distance::table(*dist, self@.ids.len() as int);
                r@ == if q@.len() != self@.dim {
                    Seq::empty()
                } else {
                    super::ranking::ranking(candidate_pairs(self@.ids, table, candidates@))
                }
            }),
    {
        if q.len() != self.dim {
            return Vec::new();
        }
        let ghost table = super::distance::table(*dist, self.ids@.len() as int);
        let mut pairs: Vec<(Id, u32)> = Vec::new();
        let mut i: usize = 0;
        assert(candidates@.take(0) =~= Seq::empty());
        while i < candidates.len()
            invariant
                i <= candidates@.len(),
                self.wf(),
                super::distance::answers(*dist, self.ids@.len() as int),
                table == super::distance::table(*dist, self.ids@.len() as int),
                pairs@ == candidate_pairs(self.ids@, table, candidates@.take(i as int)),
            decreases candidates@.len() - i,
        {
            assert(candidates@.take(i + 1).drop_last() =~= candidates@.take(i as int));
            let c = candidates[i];
            match self.dist_to(dist, c) {
                Some(d) => {
                    pairs.push((c, d));
                },
                None => {},
            }
            i = i + 1;
        }
        assert(candidates@.take(i as int) =~= candidates@);
        rank_all(pairs)
    }
}

/// A copy of a graph.
fn copy_graph(h: &Hnsw) -> (r: Hnsw)
    ensures
        r@ == h@,
{
    let mut levels: Vec<Vec<Vec<u32>>> = Vec::new();
    let mut i: usize = 0;
    while i < h.levels.len()
        invariant
            i <= h.levels@.len(),
            levels@.len() == i,
            forall|a: int|
                0 <= a < i ==> super::hnsw::lists_view((#[trigger] levels@[a])@)
                    == super::hnsw::lists_view(h.levels@[a]@),
        decreases h.levels@.len() - i,
    {
        let row = &h.levels[i];
        let mut lists: Vec<Vec<u32>> = Vec::new();
        let mut l: usize = 0;
        while l < row.len()
            invariant
                l <= row@.len(),
                lists@.len() == l,
                forall|c: int| 0 <= c < l ==> (#[trigger] lists@[c])@ == row@[c]@,
            decreases row@.len() - l,
        {
            lists.push(vstd::slice::slice_to_vec(row[l].as_slice()));
            l = l + 1;
        }
        assert(super::hnsw::lists_view(lists@) =~= super::hnsw::lists_view(row@));
        levels.push(lists);
        i = i + 1;
    }
    let r = Hnsw {
        m: h.m,
        m0: h.m0,
        ef_construction: h.ef_construction,
        entry: h.entry,
        levels,
    };
    assert(r@.levels =~= h@.levels);
    r
}

/// The character of a hexadecimal digit.
pub open spec fn hex_char(d: nat) -> char {
    if d < 10 {
        (48 + d) as char
    } else {
        (87 + d) as char
    }
}

/// The hexadecimal digits of a number.
pub open spec fn hex_digits(n: nat) -> Seq<char>
    decreases n,
{
    if n < 16 {
        seq![hex_char(n)]
    } else {
        hex_digits(n / 16).push(hex_char(n % 16))
    }
}

/// The digits of a number in base 16.
fn text_of_hex(n: u64) -> (r: String)
    ensures
        r@ == hex_digits(n as nat),
    decreases n,
{
    let d = n % 16;
    let last: &str = match d {
        10 => "a",
        11 => "b",
        12 => "c",
        13 => "d",
        14 => "e",
        15 => "f",
        _ => "",
    };
    proof {
        reveal_strlit("a");
        reveal_strlit("b");
        reveal_strlit("c");
        reveal_strlit("d");
        reveal_strlit("e");
        reveal_strlit("f");
    }
    let mut s = if n < 16 {
        String::new()
    } else {
        text_of_hex(n / 16)
    };
    let ghost before = s@;
    if d < 10 {
        s.append(crate::text::text_of_u64(d).as_str());
        assert(crate::text::decimal(d as nat) =~= seq![hex_char(d as nat)]);
    } else {
        s.append(last);
        assert(last@ =~= seq![hex_char(d as nat)]);
    }
    assert(s@ =~= before.push(hex_char(d as nat)));
    assert(s@ =~= hex_digits(n as nat));
    s
}

/// A file that seems to be a sidecar: the attribute by its name, its path, and
/// its bytes or why they could not be read.
pub struct Found {
    pub attr: String,
    pub path: String,
    pub contents: Result<Vec<u8>, String>,
}

/// What a found file holds.
pub struct FoundView {
    pub attr: Seq<char>,
    pub path: Seq<char>,
    pub contents: Result<Seq<u8>, Seq<char>>,
}

impl View for Found {
    type V = FoundView;

    open spec fn view(&self) -> FoundView {
        FoundView {
            attr: self.attr@,
            path: self.path@,
            contents: match self.contents {
                Ok(b) => Ok(b@),
                Err(e) => Err(e@),
            },
        }
    }
}

/// What is said of a sidecar of another graph.
pub open spec fn other_graph(path: Seq<char>, found: u64, wanted: u64) -> Seq<char> {
    "vector sidecar `"@ + path + "` was built for a different graph (fingerprint 0x"@
        + hex_digits(found as nat) + " vs 0x"@ + hex_digits(wanted as nat)
        + "); skipping. Rebuild it with vec_build."@
}

/// What is said of a sidecar of another attribute.
pub open spec fn other_attr(path: Seq<char>, declared: Seq<char>, attr: Seq<char>) -> Seq<char> {
    "vector sidecar `"@ + path + "` declares attribute `"@ + declared
        + "` but is named for `"@ + attr + "`; skipping."@
}

/// What is said of a file that cannot be read.
pub open spec fn unreadable(path: Seq<char>, why: Seq<char>) -> Seq<char> {
    "vector sidecar `"@ + path + "`: "@ + why
}

/// The attribute of a found file, or why it is skipped.
pub open spec fn loaded(f: FoundView, fingerprint: u64) -> Result<
    super::sidecar::SidecarView,
    Seq<char>,
> {
    match f.contents {
        Err(e) => Err(unreadable(f.path, e)),
        Ok(bytes) => match super::sidecar::sidecar_read(bytes) {
            Err(e) => Err(
                unreadable(f.path, f.path + ": "@ + super::sidecar::message_of(e)),
            ),
            Ok(s) => if s.fingerprint != fingerprint {
                Err(other_graph(f.path, s.fingerprint, fingerprint))
            } else if s.attr != f.attr {
                Err(other_attr(f.path, s.attr, f.attr))
            } else {
                Ok(s)
            },
        },
    }
}

/// The attributes of some found files, later ones first.
pub open spec fn loaded_sets(found: Seq<FoundView>, fingerprint: u64) -> Map<
    Seq<char>,
    super::sidecar::SidecarView,
>
    decreases found.len(),
{
    if found.len() == 0 {
        Map::empty()
    } else {
        let rest = loaded_sets(found.drop_last(), fingerprint);
        match loaded(found.last(), fingerprint) {
            Ok(s) => rest.insert(found.last().attr, s),
            Err(_) => rest,
        }
    }
}

/// What is said of the found files that are skipped.
pub open spec fn load_warnings(found: Seq<FoundView>, fingerprint: u64) -> Seq<Seq<char>>
    decreases found.len(),
{
    if found.len() == 0 {
        Seq::empty()
    } else {
        let rest = load_warnings(found.drop_last(), fingerprint);
        match loaded(found.last(), fingerprint) {
            Ok(_) => rest,
            Err(m) => rest.push(m),
        }
    }
}

/// What some found files hold.
pub open spec fn found_views(found: Seq<Found>) -> Seq<FoundView> {
    Seq::new(found.len(), |i: int| found[i]@)
}

/// Reads a found file.
fn load_one(f: &Found, fingerprint: u64) -> (r: Result<VectorSet, String>)
    ensures
        match r {
            Ok(s) => s.wf() && loaded(f@, fingerprint) == Ok::<
                super::sidecar::SidecarView,
                Seq<char>,
            >(s@),
            Err(m) => loaded(f@, fingerprint) == Err::<super::sidecar::SidecarView, Seq<char>>(
                m@,
            ),
        },
{
    let mut text = copy_text("vector sidecar `");
    text.append(f.path.as_str());
    match &f.contents {
        Err(e) => {
            text.append("`: ");
            text.append(e.as_str());
            Err(text)
        },
        Ok(bytes) => match Sidecar::decode(bytes.as_slice()) {
            Err(e) => {
                let mut why = copy_text(f.path.as_str());
                why.append(": ");
                why.append(e.message().as_str());
                text.append("`: ");
                text.append(why.as_str());
                Err(text)
            },
            Ok(s) => {
                if s.fingerprint != fingerprint {
                    text.append("` was built for a different graph (fingerprint 0x");
                    text.append(text_of_hex(s.fingerprint).as_str());
                    text.append(" vs 0x");
                    text.append(text_of_hex(fingerprint).as_str());
                    text.append("); skipping. Rebuild it with vec_build.");
                    return Err(text);
                }
                if !same_text(s.attr.as_str(), f.attr.as_str()) {
                    text.append("` declares attribute `");
                    text.append(s.attr.as_str());
                    text.append("` but is named for `");
                    text.append(f.attr.as_str());
                    text.append("`; skipping.");
                    return Err(text);
                }
                proof {
                    super::sidecar::sidecar_read_valid(bytes@);
                }
                Ok(VectorSet::from_sidecar(s))
            },
        },
    }
}

/// All vector attributes of a database. Once data has changed they are switched
/// off: their rows key on node ids, which a save gives out anew.
pub struct VectorStore {
    pub sets: FieldMap<VectorSet>,
    pub enabled: bool,
}

impl VectorStore {
    /// The attributes by name.
    pub open spec fn held(&self) -> Map<Seq<char>, super::sidecar::SidecarView> {
        Map::new(
            |k: Seq<char>| self.sets@.contains_key(k),
            |k: Seq<char>| self.sets@[k]@,
        )
    }

    /// Every attribute is well and stands under its name.
    pub open spec fn wf(&self) -> bool {
        forall|k: Seq<char>| #[trigger]
            self.sets@.contains_key(k) ==> self.sets@[k].wf() && self.sets@[k]@.attr == k
    }

    /// A store without attributes.
    pub fn empty() -> (r: VectorStore)
        ensures
            r.wf(),
            r.held() == Map::<Seq<char>, super::sidecar::SidecarView>::empty(),
            r.enabled,
    {
        let r = VectorStore { sets: FieldMap::new(), enabled: true };
        assert(r.held() =~= Map::<Seq<char>, super::sidecar::SidecarView>::empty());
        r
    }

    /// The store of the sidecars found, with a warning for each that is
    /// skipped.
    pub fn open(found: &Vec<Found>, fingerprint: u64) -> (r: (VectorStore, Vec<String>))
        ensures
            r.0.wf(),
            r.0.enabled,
            r.0.held() == loaded_sets(found_views(found@), fingerprint),
            crate::text::texts(r.1@) == load_warnings(found_views(found@), fingerprint),
    {
        let ghost all = found_views(found@);
        let mut store = VectorStore::empty();
        let mut warnings: Vec<String> = Vec::new();
        let mut i: usize = 0;
        proof {
            assert(all.take(0) =~= Seq::empty());
            assert(crate::text::texts(warnings@) =~= Seq::empty());
        }
        while i < found.len()
            invariant
                i <= found@.len(),
                all == found_views(found@),
                store.wf(),
                store.enabled,
                store.held() == loaded_sets(all.take(i as int), fingerprint),
                crate::text::texts(warnings@) == load_warnings(all.take(i as int), fingerprint),
            decreases found@.len() - i,
        {
            let ghost said = crate::text::texts(warnings@);
            proof {
                assert(all.take(i + 1).drop_last() =~= all.take(i as int));
                assert(all.take(i + 1).last() == found@[i as int]@);
            }
            match load_one(&found[i], fingerprint) {
                Ok(set) => {
                    store.insert(set);
                },
                Err(m) => {
                    warnings.push(m);
                    assert(crate::text::texts(warnings@) =~= said.push(m@));
                },
            }
            i = i + 1;
        }
        assert(all.take(i as int) =~= all);
        (store, warnings)
    }

    /// The attribute of a name, unless vectors are switched off.
    pub fn get(&self, attr: &str) -> (r: Option<&VectorSet>)
        ensures
            match r {
                Some(s) => self.enabled && self.held().contains_key(attr@) && s@
                    == self.held()[attr@] && *s == self.sets@[attr@],
                None => !self.enabled || !self.held().contains_key(attr@),
            },
    {
        if !self.enabled {
            return None;
        }
        self.sets.get(attr)
    }

    /// The names of the attributes, in order, switched off or not.
    pub fn attrs(&self) -> (r: Vec<&str>)
        ensures
            Seq::new(r@.len(), |i: int| r@[i]@) == crate::fields::sorted_keys(self.held()),
    {
        let n = self.sets.len();
        let mut out: Vec<&str> = Vec::new();
        let mut i: usize = 0;
        while i < n
            invariant
                i <= n,
                n == self.sets.keys().len(),
                out@.len() == i,
                forall|j: int| 0 <= j < i ==> (#[trigger] out@[j])@ == self.sets.keys()[j],
            decreases n - i,
        {
            out.push(self.sets.key_at(i).as_str());
            i = i + 1;
        }
        proof {
            assert(self.held().dom() =~= self.sets@.dom());
            crate::fields::sorted_keys_of_dom(self.held(), self.sets@);
            assert(Seq::new(out@.len(), |i: int| out@[i]@) =~= self.sets.keys());
        }
        out
    }

    /// Whether there are no attributes.
    pub fn is_empty(&self) -> (r: bool)
        ensures
            r == (self.held() == Map::<Seq<char>, super::sidecar::SidecarView>::empty()),
    {
        proof {
            let none = Map::<Seq<char>, super::sidecar::SidecarView>::empty();
            if self.sets@ == Map::<Seq<char>, VectorSet>::empty() {
                assert(self.held() =~= none);
            } else if self.held() == none {
                assert forall|k: Seq<char>| !self.sets@.contains_key(k) by {
                    assert(!self.held().contains_key(k));
                }
                assert(self.sets@ =~= Map::<Seq<char>, VectorSet>::empty());
            }
        }
        self.sets.is_empty()
    }

    /// Whether vectors are switched on.
    pub fn is_enabled(&self) -> (r: bool)
        ensures
            r == self.enabled,
    {
        self.enabled
    }

    /// Switches vectors off.
    pub fn disable(&mut self)
        ensures
            !final(self).enabled,
            final(self).sets == old(self).sets,
    {
        self.enabled = false;
    }

    /// Adds an attribute, in place of one of the same name.
    pub fn insert(&mut self, set: VectorSet)
        requires
            old(self).wf(),
            set.wf(),
        ensures
            final(self).wf(),
            final(self).enabled == old(self).enabled,
            final(self).held() == old(self).held().insert(set@.attr, set@),
    {
        let name = copy_text(set.attr());
        let ghost before = self.held();
        self.sets.insert(name, set);
        assert(self.held() =~= before.insert(set@.attr, set@));
    }
}

} // verus!
