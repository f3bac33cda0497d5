//! A sequential reader of little-endian numbers, and what can be wrong with a
//! sidecar.

use vstd::prelude::*;

use crate::store::bytes::{u16_at, u32_at, u64_at};

verus! {

/// Why a sidecar cannot be read.
#[derive(Debug, Clone, Copy, PartialEq, Eq, Structural)]
pub enum SidecarError {
    /// Some bytes are wanted at an offset, and fewer are left.
    Truncated { wanted: usize, offset: usize, left: usize },
    /// A section has more bytes than can be addressed.
    Oversized,
    /// The first bytes are not those of a sidecar.
    BadMagic,
    /// The version is another one.
    Version(u32),
    /// No metric has the tag.
    UnknownMetric(u8),
    /// The name of the attribute is not UTF-8.
    BadName,
    /// There are rows, but of no dimension.
    NoDimension,
    /// The ids of the rows do not ascend.
    IdsNotAscending,
    /// The graph covers another number of rows.
    RowCount { rows: usize, count: usize },
    /// The entry point is no row.
    Entry { entry: u32, count: usize },
    /// A neighbour is no row.
    Neighbour { neighbour: u32, row: usize, layer: usize, count: usize },
}

/// The error of a read of `wanted` bytes where `left` of `total` are left.
pub open spec fn cut(wanted: int, left: int, total: int) -> SidecarError {
    if wanted > usize::MAX {
        SidecarError::Oversized
    } else {
        SidecarError::Truncated {
            wanted: wanted as usize,
            offset: (total - left) as usize,
            left: left as usize,
        }
    }
}

/// The numbers in the first bytes.
pub open spec fn numbers(s: Seq<u8>, n: int) -> Seq<u32> {
    Seq::new(n as nat, |i: int| crate::store::bytes::num32(s, 4 * i))
}

/// A reader of some bytes.
pub struct ByteReader<'a> {
    pub buf: &'a [u8],
    pub pos: usize,
}

impl<'a> ByteReader<'a> {
    /// The position lies within the bytes.
    pub open spec fn wf(&self) -> bool {
        self.pos <= self.buf@.len()
    }

    /// The bytes still to be read.
    pub open spec fn rest(&self) -> Seq<u8> {
        self.buf@.skip(self.pos as int)
    }

    /// The reader has moved past some more bytes.
    pub open spec fn follows(&self, before: Self, n: int) -> bool {
        &&& self.buf == before.buf
        &&& self.pos == before.pos + n
        &&& self.rest() == before.rest().skip(n)
    }

    /// The error where some bytes are not left.
    pub open spec fn lack(&self, wanted: int) -> SidecarError {
        cut(wanted, self.rest().len() as int, self.buf@.len() as int)
    }

    /// A reader at the first byte.
    pub fn new(buf: &'a [u8]) -> (r: Self)
        ensures
            r.wf(),
            r.buf == buf,
            r.rest() == buf@,
    {
        assert(buf@.skip(0) =~= buf@);
        ByteReader { buf, pos: 0 }
    }

    /// The number of bytes still to be read.
    pub fn remaining(&self) -> (r: usize)
        requires
            self.wf(),
        ensures
            r == self.rest().len(),
    {
        self.buf.len() - self.pos
    }

    /// Moves past some bytes and gives the position before them.
    fn take(&mut self, n: usize) -> (r: Result<usize, SidecarError>)
        requires
            old(self).wf(),
        ensures
            final(self).wf(),
            match r {
                Ok(at) => n <= old(self).rest().len() && at == old(self).pos && final(self).follows(*old(self), n as int),
                Err(e) => n > old(self).rest().len() && e == old(self).lack(n as int)
                    && *final(self) == *old(self),
            },
    {
        let total = self.buf.len();
        let left = total - self.pos;
        if left < n {
            return Err(SidecarError::Truncated { wanted: n, offset: self.pos, left });
        }
        let at = self.pos;
        let ghost rest = self.rest();
        self.pos = self.pos + n;
        assert(self.rest() =~= rest.skip(n as int));
        Ok(at)
    }

    /// One byte.
    pub fn u8(&mut self) -> (r: Result<u8, SidecarError>)
        requires
            old(self).wf(),
        ensures
            final(self).wf(),
            match r {
                Ok(x) => 1 <= old(self).rest().len() && x == old(self).rest()[0] && final(self).follows(*old(self), 1),
                Err(e) => 1 > old(self).rest().len() && e == old(self).lack(1) && *final(self)
                    == *old(self),
            },
    {
        match self.take(1) {
            Ok(at) => Ok(self.buf[at]),
            Err(e) => Err(e),
        }
    }

    /// The number of two bytes.
    pub fn u16(&mut self) -> (r: Result<u16, SidecarError>)
        requires
            old(self).wf(),
        ensures
            final(self).wf(),
            match r {
                Ok(x) => 2 <= old(self).rest().len() && x == crate::store::bytes::head16(
                    old(self).rest(),
                ) && final(self).follows(*old(self), 2),
                Err(e) => 2 > old(self).rest().len() && e == old(self).lack(2) && *final(self)
                    == *old(self),
            },
    {
        match self.take(2) {
            Ok(at) => Ok(u16_at(self.buf, at)),
            Err(e) => Err(e),
        }
    }

    /// The number of four bytes.
    pub fn u32(&mut self) -> (r: Result<u32, SidecarError>)
        requires
            old(self).wf(),
        ensures
            final(self).wf(),
            match r {
                Ok(x) => 4 <= old(self).rest().len() && x == crate::store::bytes::head32(
                    old(self).rest(),
                ) && final(self).follows(*old(self), 4),
                Err(e) => 4 > old(self).rest().len() && e == old(self).lack(4) && *final(self)
                    == *old(self),
            },
    {
        match self.take(4) {
            Ok(at) => Ok(u32_at(self.buf, at)),
            Err(e) => Err(e),
        }
    }

    /// The number of eight bytes.
    pub fn u64(&mut self) -> (r: Result<u64, SidecarError>)
        requires
            old(self).wf(),
        ensures
            final(self).wf(),
            match r {
                Ok(x) => 8 <= old(self).rest().len() && x == crate::store::bytes::head64(
                    old(self).rest(),
                ) && final(self).follows(*old(self), 8),
                Err(e) => 8 > old(self).rest().len() && e == old(self).lack(8) && *final(self)
                    == *old(self),
            },
    {
        match self.take(8) {
            Ok(at) => Ok(u64_at(self.buf, at)),
            Err(e) => Err(e),
        }
    }

    /// Some bytes.
    pub fn bytes(&mut self, n: usize) -> (r: Result<&'a [u8], SidecarError>)
        requires
            old(self).wf(),
        ensures
            final(self).wf(),
            match r {
                Ok(b) => n <= old(self).rest().len() && b@ == old(self).rest().take(n as int)
                    && final(self).follows(*old(self), n as int),
                Err(e) => n > old(self).rest().len() && e == old(self).lack(n as int)
                    && *final(self) == *old(self),
            },
    {
        let ghost rest = self.rest();
        let total = self.buf.len();
        match self.take(n) {
            Ok(at) => {
                let b = vstd::slice::slice_subrange(self.buf, at, at + n);
                assert(b@ =~= rest.take(n as int));
                Ok(b)
            },
            Err(e) => Err(e),
        }
    }

    /// Some numbers of four bytes each.
    pub fn u32_vec(&mut self, n: usize) -> (r: Result<Vec<u32>, SidecarError>)
        requires
            old(self).wf(),
        ensures
            final(self).wf(),
            match r {
                Ok(v) => 4 * n <= old(self).rest().len() && v@ == numbers(
                    old(self).rest(),
                    n as int,
                ) && final(self).follows(*old(self), 4 * n),
                Err(e) => 4 * n > old(self).rest().len() && e == old(self).lack(4 * n)
                    && *final(self) == *old(self),
            },
    {
        let total = self.buf.len();
        if n > usize::MAX / 4 {
            return Err(SidecarError::Oversized);
        }
        let ghost rest = self.rest();
        let at = match self.take(n * 4) {
            Ok(at) => at,
            Err(e) => {
                return Err(e);
            },
        };
        let mut out: Vec<u32> = Vec::new();
        let mut i: usize = 0;
        while i < n
            invariant
                i <= n,
                at + 4 * n <= self.buf@.len(),
                rest == self.buf@.skip(at as int),
                n <= usize::MAX / 4,
                out@ == numbers(rest, i as int),
            decreases n - i,
        {
            proof {
                assert(self.buf@.skip(at + 4 * i).take(4) =~= rest.subrange(4 * i, 4 * i + 4));
            }
            let total = self.buf.len();
            out.push(u32_at(self.buf, at + 4 * i));
            i = i + 1;
            assert(out@ =~= numbers(rest, i as int));
        }
        Ok(out)
    }
}

} // verus!
