//! The bytes of a vector attribute, kept in a file of its own beside the
//! database.
//!
//! ```text
//! 0   8   magic
//! 8   4   version
//! 12  4   dimension
//! 16  4   number of rows
//! 20  1   metric
//! 21  1   flags               bit 0: a proximity graph follows the rows
//! 22  2   reserved
//! 24  8   fingerprint of the graph
//! 32  4   length of the name
//! 36  n   name of the attribute, UTF-8
//!         ids of the rows, ascending, four bytes each
//!         rows, one after the other, four bytes for each component
//!         the proximity graph
//! ```

use vstd::prelude::*;

use super::byte_reader::{ByteReader, SidecarError};
use super::hnsw::{push_words, Hnsw};
use super::metric::Metric;
use crate::order::sort_texts;
use crate::store::bytes::{push_bytes, push_u16, push_u32, push_u64};
use crate::text::{copy_text, same_text, text_from_bytes, text_of_u64, text_of_usize};

verus! {

/// The version of the format.
pub const VERSION: u32 = 1;

/// The flag of a proximity graph.
pub const FLAG_HAS_HNSW: u8 = 1;

/// What stands between the name of a database and that of an attribute.
pub const SIDECAR_INFIX: &'static str = ".vec.";

/// The first bytes of a sidecar.
pub open spec fn magic() -> Seq<u8> {
    seq![0x46u8, 0x47u8, 0x56u8, 0x45u8, 0x43u8, 0x31u8, 0u8, 0u8]
}

/// The first bytes of a sidecar.
fn magic_bytes() -> (r: Vec<u8>)
    ensures
        r@ == magic(),
{
    let r: Vec<u8> = vec![0x46u8, 0x47u8, 0x56u8, 0x45u8, 0x43u8, 0x31u8, 0u8, 0u8];
    assert(r@ =~= magic());
    r
}

/// The contents of a sidecar.
#[derive(Debug, Clone, PartialEq, Eq)]
pub struct Sidecar {
    pub attr: String,
    pub dim: usize,
    pub metric: Metric,
    pub fingerprint: u64,
    /// The node of each row, ascending.
    pub ids: Vec<u32>,
    /// The components of all rows, one row after the other, by their bits.
    pub data: Vec<u32>,
    pub hnsw: Option<Hnsw>,
}

/// What a sidecar holds.
#[verifier::ext_equal]
pub struct SidecarView {
    pub attr: Seq<char>,
    pub dim: nat,
    pub metric: Metric,
    pub fingerprint: u64,
    pub ids: Seq<u32>,
    pub data: Seq<u32>,
    pub hnsw: Option<super::hnsw::HnswView>,
}

/// The contents of an optional graph.
pub open spec fn hnsw_view(h: Option<Hnsw>) -> Option<super::hnsw::HnswView> {
    match h {
        Some(h) => Some(h@),
        None => None,
    }
}

impl View for Sidecar {
    type V = SidecarView;

    open spec fn view(&self) -> SidecarView {
        SidecarView {
            attr: self.attr@,
            dim: self.dim as nat,
            metric: self.metric,
            fingerprint: self.fingerprint,
            ids: self.ids@,
            data: self.data@,
            hnsw: hnsw_view(self.hnsw),
        }
    }
}

/// Numbers that ascend strictly.
pub open spec fn ids_ascend(ids: Seq<u32>) -> bool {
    forall|i: int, j: int| 0 <= i < j < ids.len() ==> #[trigger] ids[i] < #[trigger] ids[j]
}

impl SidecarView {
    /// All numbers fit their fields.
    pub open spec fn fits(self) -> bool {
        &&& self.dim <= u32::MAX
        &&& self.ids.len() <= u32::MAX
        &&& vstd::utf8::encode_utf8(self.attr).len() <= u32::MAX
        &&& self.hnsw matches Some(h) ==> super::hnsw::lengths_fit(h.levels)
    }

    /// Rows and graph agree with each other.
    pub open spec fn valid(self) -> bool {
        &&& self.dim == 0 ==> self.ids.len() == 0
        &&& ids_ascend(self.ids)
        &&& self.data.len() == self.ids.len() * self.dim
        &&& self.hnsw matches Some(h) ==> super::hnsw::graph_error(
            h,
            self.ids.len() as int,
        ) is None
    }
}

/// The fixed part of the bytes.
pub open spec fn header_bytes(s: SidecarView) -> Seq<u8> {
    magic() + crate::store::bytes::le32(VERSION) + crate::store::bytes::le32(s.dim as u32)
        + crate::store::bytes::le32(s.ids.len() as u32) + seq![
        super::metric::tag_of(s.metric),
        if s.hnsw is Some {
            FLAG_HAS_HNSW
        } else {
            0u8
        },
    ] + crate::store::bytes::le16(0) + crate::store::bytes::le64(s.fingerprint)
        + crate::store::bytes::le32(vstd::utf8::encode_utf8(s.attr).len() as u32)
}

/// The bytes of an optional graph.
pub open spec fn index_bytes(h: Option<super::hnsw::HnswView>) -> Seq<u8> {
    match h {
        Some(h) => super::hnsw::graph_bytes(h),
        None => Seq::empty(),
    }
}

/// The bytes of a sidecar.
pub open spec fn sidecar_bytes(s: SidecarView) -> Seq<u8> {
    header_bytes(s) + (vstd::utf8::encode_utf8(s.attr) + (super::hnsw::words(s.ids) + (
    super::hnsw::words(s.data) + index_bytes(s.hnsw))))
}

/// The error of a header that ends early, if it does.
pub open spec fn header_error(s: Seq<u8>) -> Option<SidecarError> {
    let n = s.len() as int;
    if n < 8 {
        Some(super::byte_reader::cut(8, n, n))
    } else if s.take(8) != magic() {
        Some(SidecarError::BadMagic)
    } else if n < 12 {
        Some(super::byte_reader::cut(4, n - 8, n))
    } else if crate::store::bytes::num32(s, 8) != VERSION {
        Some(SidecarError::Version(crate::store::bytes::num32(s, 8)))
    } else if n < 16 {
        Some(super::byte_reader::cut(4, n - 12, n))
    } else if n < 20 {
        Some(super::byte_reader::cut(4, n - 16, n))
    } else if n < 21 {
        Some(super::byte_reader::cut(1, n - 20, n))
    } else if super::metric::tagged(s[20]) is None {
        Some(SidecarError::UnknownMetric(s[20]))
    } else if n < 22 {
        Some(super::byte_reader::cut(1, n - 21, n))
    } else if n < 24 {
        Some(super::byte_reader::cut(2, n - 22, n))
    } else if n < 32 {
        Some(super::byte_reader::cut(8, n - 24, n))
    } else if n < 36 {
        Some(super::byte_reader::cut(4, n - 32, n))
    } else {
        None
    }
}

/// The rows after the name, with what follows them, or an error.
pub open spec fn rows_read(t: Seq<u8>, count: int, dim: int, total: int) -> Result<
    (Seq<u32>, Seq<u32>, Seq<u8>),
    SidecarError,
> {
    if dim == 0 && count > 0 {
        Err(SidecarError::NoDimension)
    } else if t.len() < 4 * count {
        Err(super::byte_reader::cut(4 * count, t.len() as int, total))
    } else {
        let ids = super::byte_reader::numbers(t, count);
        let u = t.skip(4 * count);
        if !ids_ascend(ids) {
            Err(SidecarError::IdsNotAscending)
        } else if u.len() < 4 * (count * dim) {
            Err(super::byte_reader::cut(4 * (count * dim), u.len() as int, total))
        } else {
            Ok((ids, super::byte_reader::numbers(u, count * dim), u.skip(4 * (count * dim))))
        }
    }
}

/// The graph after the rows, or an error.
pub open spec fn index_read(v: Seq<u8>, flags: u8, count: int, total: int) -> Result<
    Option<super::hnsw::HnswView>,
    SidecarError,
> {
    if flags % 2 == 0 {
        Ok(None)
    } else {
        match super::hnsw::graph_read(v) {
            Err((wanted, left)) => Err(super::byte_reader::cut(wanted, left, total)),
            Ok((h, _)) => match super::hnsw::graph_error(h, count) {
                Some(e) => Err(e),
                None => Ok(Some(h)),
            },
        }
    }
}

/// What some bytes hold as a sidecar, or why they hold none.
pub open spec fn sidecar_read(s: Seq<u8>) -> Result<SidecarView, SidecarError> {
    match header_error(s) {
        Some(e) => Err(e),
        None => {
            let dim = crate::store::bytes::num32(s, 12) as int;
            let count = crate::store::bytes::num32(s, 16) as int;
            let len = crate::store::bytes::num32(s, 32) as int;
            let t = s.skip(36);
            let name = t.take(len);
            if t.len() < len {
                Err(super::byte_reader::cut(len, t.len() as int, s.len() as int))
            } else if !vstd::utf8::valid_utf8(name) {
                Err(SidecarError::BadName)
            } else {
                match rows_read(t.skip(len), count, dim, s.len() as int) {
                    Err(e) => Err(e),
                    Ok((ids, data, v)) => match index_read(v, s[21], count, s.len() as int) {
                        Err(e) => Err(e),
                        Ok(hnsw) => Ok(
                            (SidecarView {
                                attr: vstd::utf8::decode_utf8(name),
                                dim: dim as nat,
                                metric: super::metric::tagged(s[20])->Some_0,
                                fingerprint: crate::store::bytes::from64(s.subrange(24, 32)),
                                ids,
                                data,
                                hnsw,
                            }),
                        ),
                    },
                }
            }
        },
    }
}

proof fn header_parts(s: SidecarView)
    requires
        s.fits(),
    ensures
        ({
            let h = header_bytes(s);
            &&& h.len() == 36
            &&& h.take(8) == magic()
            &&& crate::store::bytes::num32(h, 8) == VERSION
            &&& crate::store::bytes::num32(h, 12) == s.dim
            &&& crate::store::bytes::num32(h, 16) == s.ids.len()
            &&& h[20] == super::metric::tag_of(s.metric)
            &&& h[21] == if s.hnsw is Some {
                1u8
            } else {
                0u8
            }
            &&& crate::store::bytes::from64(h.subrange(24, 32)) == s.fingerprint
            &&& crate::store::bytes::num32(h, 32) == vstd::utf8::encode_utf8(s.attr).len()
        }),
{
    crate::store::bytes::number_lengths();
    crate::store::bytes::numbers_32();
    crate::store::bytes::numbers_64();
    let h = header_bytes(s);
    let n = vstd::utf8::encode_utf8(s.attr).len() as u32;
    assert(h.take(8) =~= magic());
    assert(h.subrange(8, 12) =~= crate::store::bytes::le32(VERSION));
    assert(h.subrange(12, 16) =~= crate::store::bytes::le32(s.dim as u32));
    assert(h.subrange(16, 20) =~= crate::store::bytes::le32(s.ids.len() as u32));
    assert(h.subrange(24, 32) =~= crate::store::bytes::le64(s.fingerprint));
    assert(h.subrange(32, 36) =~= crate::store::bytes::le32(n));
}

proof fn header_reads_back(s: SidecarView, rest: Seq<u8>)
    requires
        s.fits(),
    ensures
        ({
            let all = header_bytes(s) + rest;
            &&& header_error(all) is None
            &&& crate::store::bytes::num32(all, 12) == s.dim
            &&& crate::store::bytes::num32(all, 16) == s.ids.len()
            &&& super::metric::tagged(all[20]) == Some(s.metric)
            &&& all[21] == if s.hnsw is Some {
                1u8
            } else {
                0u8
            }
            &&& crate::store::bytes::from64(all.subrange(24, 32)) == s.fingerprint
            &&& crate::store::bytes::num32(all, 32) == vstd::utf8::encode_utf8(s.attr).len()
            &&& all.skip(36) == rest
        }),
{
    let h = header_bytes(s);
    let all = h + rest;
    header_parts(s);
    super::metric::metrics_read_back(s.metric);
    assert(all.take(8) =~= h.take(8));
    assert(all.subrange(8, 12) =~= h.subrange(8, 12));
    assert(all.subrange(12, 16) =~= h.subrange(12, 16));
    assert(all.subrange(16, 20) =~= h.subrange(16, 20));
    assert(all.subrange(24, 32) =~= h.subrange(24, 32));
    assert(all.subrange(32, 36) =~= h.subrange(32, 36));
    assert(all[20] == h[20] && all[21] == h[21]);
    assert(all.skip(36) =~= rest);
}

proof fn rows_read_back(s: SidecarView, tail: Seq<u8>, total: int)
    requires
        s.valid(),
    ensures
        rows_read(
            super::hnsw::words(s.ids) + (super::hnsw::words(s.data) + tail),
            s.ids.len() as int,
            s.dim as int,
            total,
        ) == Ok::<_, SidecarError>((s.ids, s.data, tail)),
{
    super::hnsw::words_read_back(s.ids, super::hnsw::words(s.data) + tail);
    super::hnsw::words_read_back(s.data, tail);
}

proof fn index_reads_back(s: SidecarView, total: int)
    requires
        s.fits(),
        s.valid(),
    ensures
        index_read(
            index_bytes(s.hnsw),
            if s.hnsw is Some {
                1u8
            } else {
                0u8
            },
            s.ids.len() as int,
            total,
        ) == Ok::<_, SidecarError>(s.hnsw),
{
    match s.hnsw {
        Some(g) => {
            super::hnsw::graph_reads_back(g, Seq::empty());
            assert(index_bytes(s.hnsw) + Seq::<u8>::empty() =~= index_bytes(s.hnsw));
        },
        None => {},
    }
}

/// A valid sidecar that was written is read back.
pub proof fn sidecar_reads_back(s: SidecarView)
    requires
        s.fits(),
        s.valid(),
    ensures
        sidecar_read(sidecar_bytes(s)) == Ok::<_, SidecarError>(s),
{
    let name = vstd::utf8::encode_utf8(s.attr);
    let tail = index_bytes(s.hnsw);
    let rows = super::hnsw::words(s.ids) + (super::hnsw::words(s.data) + tail);
    let total = sidecar_bytes(s).len() as int;
    header_reads_back(s, name + rows);
    assert((name + rows).take(name.len() as int) =~= name);
    assert((name + rows).skip(name.len() as int) =~= rows);
    vstd::utf8::encode_utf8_valid_utf8(s.attr);
    vstd::utf8::encode_utf8_decode_utf8(s.attr);
    rows_read_back(s, tail, total);
    index_reads_back(s, total);
}

proof fn rows_extend(t: Seq<u8>, count: int, dim: int, total: int, all: int, more: Seq<u8>)
    requires
        0 <= count,
        0 <= dim,
        rows_read(t, count, dim, total) is Ok,
    ensures
        ({
            let (ids, data, v) = rows_read(t, count, dim, total)->Ok_0;
            rows_read(t + more, count, dim, all) == Ok::<_, SidecarError>((ids, data, v + more))
        }),
{
    assert(0 <= count * dim) by (nonlinear_arith)
        requires
            0 <= count,
            0 <= dim,
    ;
    super::hnsw::numbers_extend(t, count, more);
    super::hnsw::numbers_extend(t.skip(4 * count), count * dim, more);
}

/// Of bytes that hold a sidecar every part can be read.
proof fn parts_read(p: Seq<u8>)
    requires
        sidecar_read(p) is Ok,
    ensures
        ({
            let dim = crate::store::bytes::num32(p, 12) as int;
            let count = crate::store::bytes::num32(p, 16) as int;
            let len = crate::store::bytes::num32(p, 32) as int;
            let rows = rows_read(p.skip(36).skip(len), count, dim, p.len() as int);
            &&& p.len() >= 36 + len
            &&& rows is Ok
            &&& index_read(rows->Ok_0.2, p[21], count, p.len() as int) is Ok
        }),
{
    assert(p.len() >= 36);
}

/// A graph that lacks its last bytes keeps its sidecar from being read.
proof fn cut_index_refused(s: SidecarView, v: Seq<u8>, more: Seq<u8>, total: int)
    requires
        s.fits(),
        more.len() > 0,
        v + more == index_bytes(s.hnsw),
    ensures
        s.hnsw is Some,
        index_read(v, 1u8, s.ids.len() as int, total) is Err,
{
    let tail = index_bytes(s.hnsw);
    assert((v + more).len() > 0);
    assert(v =~= tail.take(v.len() as int));
    super::hnsw::cut_graph_refused(s.hnsw->Some_0, v.len() as int);
}

/// The first bytes have the fixed part and the beginning of the rest.
proof fn cut_parts(h: Seq<u8>, body: Seq<u8>, k: int, len: int)
    requires
        h.len() == 36,
        0 <= len,
        36 + len <= k <= h.len() + body.len(),
    ensures
        ({
            let p = (h + body).take(k);
            &&& crate::store::bytes::num32(p, 12) == crate::store::bytes::num32(h, 12)
            &&& crate::store::bytes::num32(p, 16) == crate::store::bytes::num32(h, 16)
            &&& crate::store::bytes::num32(p, 32) == crate::store::bytes::num32(h, 32)
            &&& p[21] == h[21]
            &&& p.skip(36).skip(len) + (h + body).skip(k) == body.skip(len)
        }),
{
    let p = (h + body).take(k);
    assert(p.subrange(12, 16) =~= h.subrange(12, 16));
    assert(p.subrange(16, 20) =~= h.subrange(16, 20));
    assert(p.subrange(32, 36) =~= h.subrange(32, 36));
    assert(p.skip(36).skip(len) + (h + body).skip(k) =~= body.skip(len));
}

/// Rows that lack bytes at their end keep a sidecar from being read.
proof fn cut_rows_refused(s: SidecarView, t: Seq<u8>, more: Seq<u8>, n: int)
    requires
        s.fits(),
        s.valid(),
        more.len() > 0,
        t + more == super::hnsw::words(s.ids) + (super::hnsw::words(s.data) + index_bytes(s.hnsw)),
    ensures
        rows_read(t, s.ids.len() as int, s.dim as int, n) matches Ok((_, _, v)) ==> index_read(
            v,
            if s.hnsw is Some {
                1u8
            } else {
                0u8
            },
            s.ids.len() as int,
            n,
        ) is Err,
{
    let count = s.ids.len() as int;
    let dim = s.dim as int;
    if rows_read(t, count, dim, n) is Ok {
        rows_read_back(s, index_bytes(s.hnsw), 0);
        rows_extend(t, count, dim, n, 0, more);
        cut_index_refused(s, rows_read(t, count, dim, n)->Ok_0.2, more, n);
    }
}

/// The bytes of a sidecar without the last of them are refused, however few are
/// missing.
pub proof fn cut_sidecar_refused(s: SidecarView, k: int)
    requires
        s.fits(),
        s.valid(),
        0 <= k < sidecar_bytes(s).len(),
    ensures
        sidecar_read(sidecar_bytes(s).take(k)) is Err,
{
    let all = sidecar_bytes(s);
    let p = all.take(k);
    if sidecar_read(p) is Ok {
        let name = vstd::utf8::encode_utf8(s.attr);
        let rows = super::hnsw::words(s.ids) + (super::hnsw::words(s.data) + index_bytes(s.hnsw));
        let len = name.len() as int;
        let h = header_bytes(s);
        parts_read(p);
        header_parts(s);
        cut_parts(h, name + rows, k, 0);
        cut_parts(h, name + rows, k, len);
        assert((name + rows).skip(len) =~= rows);
        cut_rows_refused(s, p.skip(36).skip(len), all.skip(k), p.len() as int);
    }
}

/// What is read is valid.
pub proof fn sidecar_read_valid(s: Seq<u8>)
    requires
        sidecar_read(s) is Ok,
    ensures
        sidecar_read(s)->Ok_0.valid(),
{
}

/// The name of the file of an attribute.
pub open spec fn file_name(db: Seq<char>, attr: Seq<char>) -> Seq<char> {
    db + SIDECAR_INFIX@ + attr
}

/// The attribute whose file has a name.
pub open spec fn attr_of(db: Seq<char>, file: Seq<char>) -> Option<Seq<char>> {
    let prefix = db + SIDECAR_INFIX@;
    if file.len() > prefix.len() && file.take(prefix.len() as int) == prefix {
        Some(file.skip(prefix.len() as int))
    } else {
        None
    }
}

/// A file leads back to its attribute, and no two attributes share a file.
pub proof fn files_and_attributes(db: Seq<char>, attr: Seq<char>, file: Seq<char>)
    ensures
        attr.len() > 0 ==> attr_of(db, file_name(db, attr)) == Some(attr),
        attr_of(db, file) is Some ==> file_name(db, attr_of(db, file)->Some_0) == file,
{
    let prefix = db + SIDECAR_INFIX@;
    assert(file_name(db, attr).take(prefix.len() as int) =~= prefix);
    assert(file_name(db, attr).skip(prefix.len() as int) =~= attr);
    if attr_of(db, file) is Some {
        assert(file =~= file.take(prefix.len() as int) + file.skip(prefix.len() as int));
    }
}

/// The attributes that some files belong to.
pub open spec fn attrs_among(db: Seq<char>, files: Seq<Seq<char>>) -> Seq<Seq<char>>
    decreases files.len(),
{
    if files.len() == 0 {
        Seq::empty()
    } else {
        let rest = attrs_among(db, files.drop_last());
        match attr_of(db, files.last()) {
            Some(a) => rest.push(a),
            None => rest,
        }
    }
}

impl Sidecar {
    /// The number of rows.
    pub fn count(&self) -> (r: usize)
        ensures
            r == self@.ids.len(),
    {
        self.ids.len()
    }

    /// The file of an attribute, given that of the database.
    pub fn path_for(db: &str, attr: &str) -> (r: String)
        ensures
            r@ == file_name(db@, attr@),
    {
        let mut name = copy_text(db);
        name.append(SIDECAR_INFIX);
        name.append(attr);
        name
    }

    /// The attribute that a file belongs to, given that of the database.
    pub fn attr_from_path(db: &str, file: &str) -> (r: Option<String>)
        ensures
            match r {
                Some(a) => attr_of(db@, file@) == Some(a@),
                None => attr_of(db@, file@) is None,
            },
    {
        let mut prefix = copy_text(db);
        prefix.append(SIDECAR_INFIX);
        let n = prefix.as_str().unicode_len();
        let total = file.unicode_len();
        if total <= n {
            return None;
        }
        assert(file@.subrange(0, n as int) =~= file@.take(n as int));
        assert(file@.subrange(n as int, total as int) =~= file@.skip(n as int));
        if same_text(file.substring_char(0, n), prefix.as_str()) {
            Some(copy_text(file.substring_char(n, total)))
        } else {
            None
        }
    }

    /// The attributes that have a file among some, with it, in order.
    pub fn discover(db: &str, files: &Vec<String>) -> (r: Vec<(String, String)>)
        ensures
            Seq::new(r@.len(), |i: int| r@[i].0@) == crate::order::sorted(
                attrs_among(db@, crate::text::texts(files@)),
            ),
            forall|i: int|
                0 <= i < r@.len() ==> (#[trigger] r@[i]).1@ == file_name(db@, r@[i].0@),
    {
        let ghost all = crate::text::texts(files@);
        let mut attrs: Vec<String> = Vec::new();
        let mut i: usize = 0;
        assert(crate::text::texts(attrs@) =~= attrs_among(db@, all.take(0)));
        while i < files.len()
            invariant
                i <= files.len(),
                all == crate::text::texts(files@),
                crate::text::texts(attrs@) == attrs_among(db@, all.take(i as int)),
            decreases files.len() - i,
        {
            let ghost before = crate::text::texts(attrs@);
            assert(all.take(i + 1).drop_last() =~= all.take(i as int));
            assert(all.take(i + 1).last() == files@[i as int]@);
            match Sidecar::attr_from_path(db, files[i].as_str()) {
                Some(a) => {
                    attrs.push(a);
                    assert(crate::text::texts(attrs@) =~= before.push(a@));
                },
                None => {},
            }
            i = i + 1;
        }
        assert(all.take(i as int) =~= all);
        let sorted = sort_texts(attrs);
        let mut out: Vec<(String, String)> = Vec::new();
        let mut i: usize = 0;
        while i < sorted.len()
            invariant
                i <= sorted.len(),
                out@.len() == i,
                forall|j: int|
                    0 <= j < i ==> (#[trigger] out@[j]).0@ == sorted@[j]@ && out@[j].1@
                        == file_name(db@, sorted@[j]@),
            decreases sorted.len() - i,
        {
            let file = Sidecar::path_for(db, sorted[i].as_str());
            out.push((copy_text(sorted[i].as_str()), file));
            i = i + 1;
        }
        assert(Seq::new(out@.len(), |i: int| out@[i].0@) =~= crate::text::texts(sorted@));
        out
    }

    /// The bytes of the sidecar.
    pub fn encode(&self) -> (r: Vec<u8>)
        requires
            self@.fits(),
        ensures
            r@ == sidecar_bytes(self@),
    {
        let name = self.attr.as_str().as_bytes_vec();
        let ghost text = vstd::utf8::encode_utf8(self.attr@);
        assert(name@ == text);
        let mut out = magic_bytes();
        push_u32(&mut out, VERSION);
        push_u32(&mut out, self.dim as u32);
        push_u32(&mut out, self.ids.len() as u32);
        let ghost part = out@;
        out.push(self.metric.as_u8());
        let flags: u8 = if self.hnsw.is_some() {
            FLAG_HAS_HNSW
        } else {
            0
        };
        out.push(flags);
        assert(out@ =~= part + seq![super::metric::tag_of(self.metric), flags]);
        push_u16(&mut out, 0);
        push_u64(&mut out, self.fingerprint);
        push_u32(&mut out, name.len() as u32);
        assert(out@ =~= header_bytes(self@));
        push_bytes(&mut out, name);
        push_words(&mut out, &self.ids);
        push_words(&mut out, &self.data);
        match &self.hnsw {
            Some(h) => {
                h.encode(&mut out);
            },
            None => {},
        }
        assert(out@ =~= sidecar_bytes(self@));
        out
    }

    /// Reads a sidecar.
    pub fn decode(buf: &[u8]) -> (r: Result<Sidecar, SidecarError>)
        ensures
            match r {
                Ok(s) => sidecar_read(buf@) == Ok::<_, SidecarError>(s@),
                Err(e) => sidecar_read(buf@) == Err::<SidecarView, SidecarError>(e),
            },
    {
        let mut rd = ByteReader::new(buf);
        let head = match read_header(&mut rd) {
            Ok(h) => h,
            Err(e) => {
                return Err(e);
            },
        };
        let ghost t = rd.rest();
        let bytes = match rd.bytes(head.name_len as usize) {
            Ok(b) => b,
            Err(e) => {
                return Err(e);
            },
        };
        let attr = match text_from_bytes(vstd::slice::slice_to_vec(bytes)) {
            Some(s) => s,
            None => {
                return Err(SidecarError::BadName);
            },
        };
        let count = head.count as usize;
        let dim = head.dim as usize;
        let (ids, data) = match read_rows(&mut rd, count, dim) {
            Ok(p) => p,
            Err(e) => {
                return Err(e);
            },
        };
        let mut hnsw: Option<Hnsw> = None;
        if head.flags % 2 == 1 {
            let h = match Hnsw::decode(&mut rd) {
                Ok(h) => h,
                Err(e) => {
                    return Err(e);
                },
            };
            match h.validate(count) {
                Ok(()) => {},
                Err(e) => {
                    return Err(e);
                },
            }
            hnsw = Some(h);
        }
        Ok(
            Sidecar {
                attr,
                dim,
                metric: head.metric,
                fingerprint: head.fingerprint,
                ids,
                data,
                hnsw,
            },
        )
    }
}

/// The fixed part of a sidecar.
struct Header {
    dim: u32,
    count: u32,
    metric: Metric,
    flags: u8,
    fingerprint: u64,
    name_len: u32,
}

/// Reads the fixed part of a sidecar.
fn read_header(rd: &mut ByteReader<'_>) -> (r: Result<Header, SidecarError>)
    requires
        old(rd).wf(),
        old(rd).pos == 0,
    ensures
        final(rd).wf(),
        final(rd).buf == old(rd).buf,
        match r {
            Ok(h) => {
                let s = old(rd).buf@;
                &&& header_error(s) is None
                &&& final(rd).rest() == s.skip(36)
                &&& h.dim == crate::store::bytes::num32(s, 12)
                &&& h.count == crate::store::bytes::num32(s, 16)
                &&& super::metric::tagged(s[20]) == Some(h.metric)
                &&& h.flags == s[21]
                &&& h.fingerprint == crate::store::bytes::from64(s.subrange(24, 32))
                &&& h.name_len == crate::store::bytes::num32(s, 32)
            },
            Err(e) => header_error(old(rd).buf@) == Some(e),
        },
{
    let ghost s = rd.buf@;
    proof {
        assert(s.skip(0) =~= s);
        assert(s.len() >= 12 ==> s.skip(8).take(4) =~= s.subrange(8, 12));
        assert(s.len() >= 16 ==> s.skip(12).take(4) =~= s.subrange(12, 16));
        assert(s.len() >= 20 ==> s.skip(16).take(4) =~= s.subrange(16, 20));
        assert(s.len() >= 32 ==> s.skip(24).take(8) =~= s.subrange(24, 32));
        assert(s.len() >= 36 ==> s.skip(32).take(4) =~= s.subrange(32, 36));
    }
    let magic = match rd.bytes(8) {
        Ok(b) => b,
        Err(e) => {
            return Err(e);
        },
    };
    if !same_bytes(magic, magic_bytes().as_slice()) {
        return Err(SidecarError::BadMagic);
    }
    assert(rd.rest() == s.skip(8));
    let version = match rd.u32() {
        Ok(x) => x,
        Err(e) => {
            return Err(e);
        },
    };
    if version != VERSION {
        return Err(SidecarError::Version(version));
    }
    assert(rd.rest() =~= s.skip(12));
    let dim = match rd.u32() {
        Ok(x) => x,
        Err(e) => {
            return Err(e);
        },
    };
    assert(rd.rest() =~= s.skip(16));
    let count = match rd.u32() {
        Ok(x) => x,
        Err(e) => {
            return Err(e);
        },
    };
    assert(rd.rest() =~= s.skip(20));
    let tag = match rd.u8() {
        Ok(x) => x,
        Err(e) => {
            return Err(e);
        },
    };
    let metric = match Metric::from_u8(tag) {
        Some(m) => m,
        None => {
            return Err(SidecarError::UnknownMetric(tag));
        },
    };
    assert(rd.rest() =~= s.skip(21));
    let flags = match rd.u8() {
        Ok(x) => x,
        Err(e) => {
            return Err(e);
        },
    };
    assert(rd.rest() =~= s.skip(22));
    match rd.u16() {
        Ok(_) => {},
        Err(e) => {
            return Err(e);
        },
    }
    assert(rd.rest() =~= s.skip(24));
    let fingerprint = match rd.u64() {
        Ok(x) => x,
        Err(e) => {
            return Err(e);
        },
    };
    assert(rd.rest() =~= s.skip(32));
    let name_len = match rd.u32() {
        Ok(x) => x,
        Err(e) => {
            return Err(e);
        },
    };
    assert(rd.rest() =~= s.skip(36));
    Ok(Header { dim, count, metric, flags, fingerprint, name_len })
}

/// Whether two slices hold the same bytes.
fn same_bytes(a: &[u8], b: &[u8]) -> (r: bool)
    ensures
        r == (a@ == b@),
{
    if a.len() != b.len() {
        return false;
    }
    let mut i: usize = 0;
    while i < a.len()
        invariant
            i <= a.len(),
            a@.len() == b@.len(),
            forall|j: int| 0 <= j < i ==> a@[j] == b@[j],
        decreases a.len() - i,
    {
        if a[i] != b[i] {
            return false;
        }
        i = i + 1;
    }
    assert(a@ =~= b@);
    true
}

/// Whether numbers ascend strictly.
fn check_ascending(ids: &Vec<u32>) -> (r: bool)
    ensures
        r == ids_ascend(ids@),
{
    let mut i: usize = 1;
    while i < ids.len()
        invariant
            1 <= i,
            i <= ids.len() || ids.len() == 0,
            forall|a: int, b: int|
                0 <= a < b < i && b < ids@.len() ==> #[trigger] ids@[a] < #[trigger] ids@[b],
        decreases ids.len() - i,
    {
        if ids[i - 1] >= ids[i] {
            assert(!(ids@[i - 1] < ids@[i as int]));
            return false;
        }
        assert forall|a: int, b: int| 0 <= a < b < i + 1 && b < ids@.len() implies #[trigger] ids@[a]
            < #[trigger] ids@[b] by {
            if b == i && a < i - 1 {
                assert(ids@[a] < ids@[i - 1]);
            }
        }
        i = i + 1;
    }
    true
}

/// Reads the rows of a sidecar.
fn read_rows(rd: &mut ByteReader<'_>, count: usize, dim: usize) -> (r: Result<
    (Vec<u32>, Vec<u32>),
    SidecarError,
>)
    requires
        old(rd).wf(),
        count <= u32::MAX,
        dim <= u32::MAX,
    ensures
        final(rd).wf(),
        final(rd).buf == old(rd).buf,
        match rows_read(old(rd).rest(), count as int, dim as int, old(rd).buf@.len() as int) {
            Ok((ids, data, v)) => r is Ok && r->Ok_0.0@ == ids && r->Ok_0.1@ == data && final(rd).rest() == v,
            Err(e) => r == Err::<(Vec<u32>, Vec<u32>), SidecarError>(e),
        },
{
    if dim == 0 && count > 0 {
        return Err(SidecarError::NoDimension);
    }
    let total = rd.buf.len();
    let ids = match rd.u32_vec(count) {
        Ok(v) => v,
        Err(e) => {
            return Err(e);
        },
    };
    if !check_ascending(&ids) {
        return Err(SidecarError::IdsNotAscending);
    }
    match count.checked_mul(dim) {
        Some(n) => match rd.u32_vec(n) {
            Ok(data) => Ok((ids, data)),
            Err(e) => Err(e),
        },
        None => Err(SidecarError::Oversized),
    }
}

/// The text of an error.
pub open spec fn message_of(e: SidecarError) -> Seq<char> {
    match e {
        SidecarError::Truncated { wanted, offset, left } => "truncated sidecar: wanted "@
            + crate::text::decimal(wanted as nat) + " bytes at offset "@ + crate::text::decimal(
            offset as nat,
        ) + ", "@ + crate::text::decimal(left as nat) + " left"@,
        SidecarError::Oversized => "sidecar section is too large to address"@,
        SidecarError::BadMagic => "not a froGQL vector sidecar (bad magic)"@,
        SidecarError::Version(v) => "sidecar version "@ + crate::text::decimal(v as nat)
            + " is not supported (expected "@ + crate::text::decimal(VERSION as nat) + ")"@,
        SidecarError::UnknownMetric(t) => "unknown metric tag "@ + crate::text::decimal(t as nat),
        SidecarError::BadName => "attribute name is not valid utf-8"@,
        SidecarError::NoDimension => "sidecar declares dim 0 with a non-empty row set"@,
        SidecarError::IdsNotAscending => "sidecar ids must be strictly ascending"@,
        SidecarError::RowCount { rows, count } => "hnsw adjacency covers "@ + crate::text::decimal(
            rows as nat,
        ) + " rows but the sidecar holds "@ + crate::text::decimal(count as nat),
        SidecarError::Entry { entry, count } => "hnsw entry point "@ + crate::text::decimal(
            entry as nat,
        ) + " out of range (count "@ + crate::text::decimal(count as nat) + ")"@,
        SidecarError::Neighbour { neighbour, row, layer, count } => "hnsw neighbour "@
            + crate::text::decimal(neighbour as nat) + " of row "@ + crate::text::decimal(
            row as nat,
        ) + " at layer "@ + crate::text::decimal(layer as nat) + " is out of range (count "@
            + crate::text::decimal(count as nat) + ")"@,
    }
}

impl SidecarError {
    /// The text of the error.
    pub fn message(&self) -> (r: String)
        ensures
            r@ == message_of(*self),
    {
        match self {
            SidecarError::Truncated { wanted, offset, left } => {
                let mut s = copy_text("truncated sidecar: wanted ");
                s.append(text_of_usize(*wanted).as_str());
                s.append(" bytes at offset ");
                s.append(text_of_usize(*offset).as_str());
                s.append(", ");
                s.append(text_of_usize(*left).as_str());
                s.append(" left");
                s
            },
            SidecarError::Oversized => copy_text("sidecar section is too large to address"),
            SidecarError::BadMagic => copy_text("not a froGQL vector sidecar (bad magic)"),
            SidecarError::Version(v) => {
                let mut s = copy_text("sidecar version ");
                s.append(text_of_u64(*v as u64).as_str());
                s.append(" is not supported (expected ");
                s.append(text_of_u64(VERSION as u64).as_str());
                s.append(")");
                s
            },
            SidecarError::UnknownMetric(t) => {
                let mut s = copy_text("unknown metric tag ");
                s.append(text_of_u64(*t as u64).as_str());
                s
            },
            SidecarError::BadName => copy_text("attribute name is not valid utf-8"),
            SidecarError::NoDimension => copy_text(
                "sidecar declares dim 0 with a non-empty row set",
            ),
            SidecarError::IdsNotAscending => copy_text("sidecar ids must be strictly ascending"),
            SidecarError::RowCount { rows, count } => {
                let mut s = copy_text("hnsw adjacency covers ");
                s.append(text_of_usize(*rows).as_str());
                s.append(" rows but the sidecar holds ");
                s.append(text_of_usize(*count).as_str());
                s
            },
            SidecarError::Entry { entry, count } => {
                let mut s = copy_text("hnsw entry point ");
                s.append(text_of_u64(*entry as u64).as_str());
                s.append(" out of range (count ");
                s.append(text_of_usize(*count).as_str());
                s.append(")");
                s
            },
            SidecarError::Neighbour { neighbour, row, layer, count } => {
                let mut s = copy_text("hnsw neighbour ");
                s.append(text_of_u64(*neighbour as u64).as_str());
                s.append(" of row ");
                s.append(text_of_usize(*row).as_str());
                s.append(" at layer ");
                s.append(text_of_usize(*layer).as_str());
                s.append(" is out of range (count ");
                s.append(text_of_usize(*count).as_str());
                s.append(")");
                s
            },
        }
    }
}

/// A hash of some bytes: FNV-1a.
pub open spec fn fnv(bytes: Seq<u8>) -> u64
    decreases bytes.len(),
{
    if bytes.len() == 0 {
        0xcbf2_9ce4_8422_2325u64
    } else {
        (fnv(bytes.drop_last()) ^ (bytes.last() as u64)).wrapping_mul(0x0000_0100_0000_01b3u64)
    }
}

/// A mark of a graph by its numbers of nodes and edges. A sidecar of another
/// graph, or of this one before it was renumbered, mostly has another mark.
pub fn fingerprint(node_count: usize, edge_count: usize) -> (r: u64)
    ensures
        r == fnv(
            crate::store::bytes::le64(node_count as u64) + crate::store::bytes::le64(
                edge_count as u64,
            ),
        ),
{
    let mut bytes: Vec<u8> = Vec::new();
    push_u64(&mut bytes, node_count as u64);
    push_u64(&mut bytes, edge_count as u64);
    assert(bytes@ =~= crate::store::bytes::le64(node_count as u64) + crate::store::bytes::le64(
        edge_count as u64,
    ));
    let mut h: u64 = 0xcbf2_9ce4_8422_2325u64;
    let mut i: usize = 0;
    while i < bytes.len()
        invariant
            i <= bytes.len(),
            h == fnv(bytes@.take(i as int)),
        decreases bytes.len() - i,
    {
        assert(bytes@.take(i + 1).drop_last() =~= bytes@.take(i as int));
        h = (h ^ (bytes[i] as u64)).wrapping_mul(0x0000_0100_0000_01b3u64);
        i = i + 1;
    }
    assert(bytes@.take(i as int) =~= bytes@);
    h
}

} // verus!
