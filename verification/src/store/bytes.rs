//! Little-endian numbers in byte strings.

use vstd::prelude::*;

verus! {

/// The two bytes of a number, the low one first.
pub open spec fn le16(x: u16) -> Seq<u8> {
    seq![(x % 256) as u8, (x / 256) as u8]
}

/// The four bytes of a number, the low one first.
pub open spec fn le32(x: u32) -> Seq<u8> {
    seq![
        (x % 256) as u8,
        (x / 256 % 256) as u8,
        (x / 65536 % 256) as u8,
        (x / 16777216) as u8,
    ]
}

/// The eight bytes of a number, the low one first.
pub open spec fn le64(x: u64) -> Seq<u8> {
    le32((x % 4294967296) as u32) + le32((x / 4294967296) as u32)
}

/// The number of two bytes.
pub open spec fn from16(s: Seq<u8>) -> u16 {
    (s[0] + 256 * s[1]) as u16
}

/// The number of four bytes.
pub open spec fn from32(s: Seq<u8>) -> u32 {
    (s[0] + 256 * s[1] + 65536 * s[2] + 16777216 * s[3]) as u32
}

/// The number of eight bytes.
pub open spec fn from64(s: Seq<u8>) -> u64 {
    (from32(s.take(4)) + 4294967296 * from32(s.skip(4))) as u64
}

/// Writing and reading a number are inverse to each other.
pub proof fn numbers_16()
    ensures
        forall|x: u16| (#[trigger] le16(x)).len() == 2 && from16(le16(x)) == x,
        forall|s: Seq<u8>| s.len() == 2 ==> le16(#[trigger] from16(s)) == s,
{
    assert forall|s: Seq<u8>| s.len() == 2 implies le16(#[trigger] from16(s)) == s by {
        assert(le16(from16(s)) =~= s);
    }
}

/// Writing and reading a number are inverse to each other.
pub proof fn numbers_32()
    ensures
        forall|x: u32| (#[trigger] le32(x)).len() == 4 && from32(le32(x)) == x,
        forall|s: Seq<u8>| s.len() == 4 ==> le32(#[trigger] from32(s)) == s,
{
    assert forall|s: Seq<u8>| s.len() == 4 implies le32(#[trigger] from32(s)) == s by {
        assert(le32(from32(s)) =~= s);
    }
}

/// Writing and reading a number are inverse to each other.
pub proof fn numbers_64()
    ensures
        forall|x: u64| (#[trigger] le64(x)).len() == 8 && from64(le64(x)) == x,
{
    numbers_32();
    assert forall|x: u64| (#[trigger] le64(x)).len() == 8 && from64(le64(x)) == x by {
        let lo = (x % 4294967296) as u32;
        let hi = (x / 4294967296) as u32;
        assert(le32(lo).len() == 4 && le32(hi).len() == 4);
        assert(le64(x).take(4) =~= le32(lo));
        assert(le64(x).skip(4) =~= le32(hi));
    }
}

/// The two bytes of a number.
fn bytes_16(x: u16) -> (r: Vec<u8>)
    ensures
        r@ == le16(x),
{
    let mut v: Vec<u8> = Vec::new();
    v.push((x % 256) as u8);
    v.push((x / 256) as u8);
    assert(v@ =~= le16(x));
    v
}

/// The four bytes of a number.
fn bytes_32(x: u32) -> (r: Vec<u8>)
    ensures
        r@ == le32(x),
{
    let mut v: Vec<u8> = Vec::new();
    v.push((x % 256) as u8);
    v.push((x / 256 % 256) as u8);
    v.push((x / 65536 % 256) as u8);
    v.push((x / 16777216) as u8);
    assert(v@ =~= le32(x));
    v
}

/// The number in the first two bytes.
pub open spec fn head16(s: Seq<u8>) -> u16 {
    from16(s.take(2))
}

/// The number in the first four bytes.
pub open spec fn head32(s: Seq<u8>) -> u32 {
    from32(s.take(4))
}

/// The number in the first eight bytes.
pub open spec fn head64(s: Seq<u8>) -> u64 {
    from64(s.take(8))
}

/// A number that was written is read back.
pub proof fn read_back_16(x: u16, tail: Seq<u8>)
    ensures
        le16(x).len() == 2,
        head16(le16(x) + tail) == x,
        (le16(x) + tail).skip(2) == tail,
{
    numbers_16();
    assert((le16(x) + tail).take(2) =~= le16(x));
    assert((le16(x) + tail).skip(2) =~= tail);
}

/// A number that was written is read back.
pub proof fn read_back_32(x: u32, tail: Seq<u8>)
    ensures
        le32(x).len() == 4,
        head32(le32(x) + tail) == x,
        (le32(x) + tail).skip(4) == tail,
{
    numbers_32();
    assert((le32(x) + tail).take(4) =~= le32(x));
    assert((le32(x) + tail).skip(4) =~= tail);
}

/// A number that was written is read back.
pub proof fn read_back_64(x: u64, tail: Seq<u8>)
    ensures
        le64(x).len() == 8,
        head64(le64(x) + tail) == x,
        (le64(x) + tail).skip(8) == tail,
{
    numbers_64();
    assert((le64(x) + tail).take(8) =~= le64(x));
    assert((le64(x) + tail).skip(8) =~= tail);
}

/// Appends bytes.
pub fn push_bytes(buf: &mut Vec<u8>, bytes: Vec<u8>)
    ensures
        final(buf)@ == old(buf)@ + bytes@,
{
    let mut b = bytes;
    buf.append(&mut b);
}

/// Appends the two bytes of a number.
pub fn push_u16(buf: &mut Vec<u8>, x: u16)
    ensures
        final(buf)@ == old(buf)@ + le16(x),
{
    push_bytes(buf, bytes_16(x));
}

/// Appends the four bytes of a number.
pub fn push_u32(buf: &mut Vec<u8>, x: u32)
    ensures
        final(buf)@ == old(buf)@ + le32(x),
{
    push_bytes(buf, bytes_32(x));
}

/// Appends the eight bytes of a number.
pub fn push_u64(buf: &mut Vec<u8>, x: u64)
    ensures
        final(buf)@ == old(buf)@ + le64(x),
{
    let ghost before = buf@;
    push_u32(buf, (x % 4294967296) as u32);
    push_u32(buf, (x / 4294967296) as u32);
    assert(buf@ =~= before + le64(x));
}

/// The number in the two bytes at a position.
pub fn u16_at(data: &[u8], pos: usize) -> (r: u16)
    requires
        pos + 2 <= data@.len(),
    ensures
        r == head16(data@.skip(pos as int)),
{
    let n = data.len();
    let x: u16 = data[pos] as u16 + 256 * (data[pos + 1] as u16);
    assert(data@.skip(pos as int).take(2) =~= seq![data@[pos as int], data@[pos + 1]]);
    x
}

/// The number in the four bytes at a position.
pub fn u32_at(data: &[u8], pos: usize) -> (r: u32)
    requires
        pos + 4 <= data@.len(),
    ensures
        r == head32(data@.skip(pos as int)),
{
    let n = data.len();
    let x: u32 = data[pos] as u32 + 256 * (data[pos + 1] as u32) + 65536 * (data[pos + 2] as u32)
        + 16777216 * (data[pos + 3] as u32);
    assert(data@.skip(pos as int).take(4) =~= seq![
        data@[pos as int],
        data@[pos + 1],
        data@[pos + 2],
        data@[pos + 3],
    ]);
    x
}

/// The number in the eight bytes at a position.
pub fn u64_at(data: &[u8], pos: usize) -> (r: u64)
    requires
        pos + 8 <= data@.len(),
    ensures
        r == head64(data@.skip(pos as int)),
{
    let n = data.len();
    let lo = u32_at(data, pos);
    let hi = u32_at(data, pos + 4);
    proof {
        let s = data@.skip(pos as int).take(8);
        assert(s.take(4) =~= data@.skip(pos as int).take(4));
        assert(s.skip(4) =~= data@.skip(pos + 4).take(4));
    }
    lo as u64 + 4294967296 * (hi as u64)
}

/// The number in the two bytes at a position.
pub open spec fn num16(s: Seq<u8>, at: int) -> u16 {
    from16(s.subrange(at, at + 2))
}

/// The number in the four bytes at a position.
pub open spec fn num32(s: Seq<u8>, at: int) -> u32 {
    from32(s.subrange(at, at + 4))
}

/// The number in the two bytes at a position.
pub fn get_u16(data: &Vec<u8>, at: usize) -> (r: u16)
    requires
        at + 2 <= data@.len(),
    ensures
        r == num16(data@, at as int),
{
    proof {
        assert(data@.skip(at as int).take(2) =~= data@.subrange(at as int, at + 2));
    }
    u16_at(data.as_slice(), at)
}

/// The number in the four bytes at a position.
pub fn get_u32(data: &Vec<u8>, at: usize) -> (r: u32)
    requires
        at + 4 <= data@.len(),
    ensures
        r == num32(data@, at as int),
{
    proof {
        assert(data@.skip(at as int).take(4) =~= data@.subrange(at as int, at + 4));
    }
    u32_at(data.as_slice(), at)
}

/// Bytes with some of them replaced from a position on.
pub open spec fn splice(s: Seq<u8>, at: int, bytes: Seq<u8>) -> Seq<u8> {
    s.take(at) + bytes + s.skip(at + bytes.len())
}

/// What replaced bytes read as.
pub proof fn splice_put(s: Seq<u8>, at: int, bytes: Seq<u8>)
    requires
        0 <= at,
        at + bytes.len() <= s.len(),
    ensures
        splice(s, at, bytes).len() == s.len(),
        splice(s, at, bytes).subrange(at, at + bytes.len()) == bytes,
{
    assert(splice(s, at, bytes).subrange(at, at + bytes.len()) =~= bytes);
}

/// The other bytes stay.
pub proof fn splice_keeps(s: Seq<u8>, at: int, bytes: Seq<u8>, lo: int, hi: int)
    requires
        0 <= at,
        at + bytes.len() <= s.len(),
        0 <= lo <= hi <= s.len(),
        hi <= at || at + bytes.len() <= lo,
    ensures
        splice(s, at, bytes).subrange(lo, hi) == s.subrange(lo, hi),
{
    assert(splice(s, at, bytes).subrange(lo, hi) =~= s.subrange(lo, hi));
}

/// Replaces bytes from a position on.
pub fn write_at(data: &mut Vec<u8>, at: usize, bytes: &[u8])
    requires
        at + bytes@.len() <= old(data)@.len(),
    ensures
        final(data)@ == splice(old(data)@, at as int, bytes@),
{
    let ghost before = data@;
    let mut i: usize = 0;
    assert(before =~= splice(before, at as int, bytes@.take(0)));
    while i < bytes.len()
        invariant
            i <= bytes.len(),
            data@.len() == before.len(),
            at + bytes@.len() <= data@.len(),
            data@ == splice(before, at as int, bytes@.take(i as int)),
        decreases bytes.len() - i,
    {
        let n = data.len();
        data.set(at + i, bytes[i]);
        i = i + 1;
        assert(data@ =~= splice(before, at as int, bytes@.take(i as int)));
    }
    assert(bytes@.take(i as int) =~= bytes@);
}

/// Replaces two bytes by a number.
pub fn put_u16(data: &mut Vec<u8>, at: usize, x: u16)
    requires
        at + 2 <= old(data)@.len(),
    ensures
        final(data)@ == splice(old(data)@, at as int, le16(x)),
        final(data)@.len() == old(data)@.len(),
        num16(final(data)@, at as int) == x,
{
    proof {
        numbers_16();
        splice_put(data@, at as int, le16(x));
    }
    let b = bytes_16(x);
    write_at(data, at, b.as_slice());
}

/// Replaces four bytes by a number.
pub fn put_u32(data: &mut Vec<u8>, at: usize, x: u32)
    requires
        at + 4 <= old(data)@.len(),
    ensures
        final(data)@ == splice(old(data)@, at as int, le32(x)),
        final(data)@.len() == old(data)@.len(),
        num32(final(data)@, at as int) == x,
{
    proof {
        numbers_32();
        splice_put(data@, at as int, le32(x));
    }
    let b = bytes_32(x);
    write_at(data, at, b.as_slice());
}

/// The length of a written number.
pub proof fn number_lengths()
    ensures
        forall|x: u16| (#[trigger] le16(x)).len() == 2,
        forall|x: u32| (#[trigger] le32(x)).len() == 4,
        forall|x: u64| (#[trigger] le64(x)).len() == 8,
{
    numbers_16();
    numbers_32();
    numbers_64();
}

/// A copy of some bytes.
pub fn copy_range(data: &Vec<u8>, from: usize, to: usize) -> (r: Vec<u8>)
    requires
        from <= to <= data@.len(),
    ensures
        r@ == data@.subrange(from as int, to as int),
{
    vstd::slice::slice_to_vec(vstd::slice::slice_subrange(data.as_slice(), from, to))
}

} // verus!
