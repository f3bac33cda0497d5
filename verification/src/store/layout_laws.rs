//! Where the parts of a record stand in its bytes.

use vstd::prelude::*;

use super::record::{EdgeRecordView, PropView, RecordView};

verus! {

proof fn word_of_bytes(x: u32)
    ensures
        ({
            let s = super::bytes::le32(x);
            s.len() == 4 && x == s[0] + 0x100 * s[1] + 0x1_0000 * s[2] + 0x100_0000 * s[3]
        }),
{
}

/// Numbers are written the low byte first.
pub proof fn low_bytes_come_first(a: u16, b: u32, c: u64)
    ensures
        ({
            let s = super::bytes::le16(a);
            s.len() == 2 && a == s[0] + 0x100 * s[1]
        }),
        ({
            let s = super::bytes::le32(b);
            s.len() == 4 && b == s[0] + 0x100 * s[1] + 0x1_0000 * s[2] + 0x100_0000 * s[3]
        }),
        ({
            let s = super::bytes::le64(c);
            s.len() == 8 && c == s[0] + 0x100 * s[1] + 0x1_0000 * s[2] + 0x100_0000 * s[3]
                + 0x1_0000_0000 * (s[4] + 0x100 * s[5] + 0x1_0000 * s[6] + 0x100_0000 * s[7])
        }),
{
    word_of_bytes(b);
    let low = (c % 4294967296) as u32;
    let high = (c / 4294967296) as u32;
    word_of_bytes(low);
    word_of_bytes(high);
    let s = super::bytes::le64(c);
    let (l, h) = (super::bytes::le32(low), super::bytes::le32(high));
    assert(s == l + h);
    assert(s[0] == l[0] && s[1] == l[1] && s[2] == l[2] && s[3] == l[3]);
    assert(s[4] == h[0] && s[5] == h[1] && s[6] == h[2] && s[7] == h[3]);
    assert(c == low + 0x1_0000_0000 * high);
}

/// A value begins with a byte that tells its kind.
pub proof fn values_begin_with_their_kind(v: PropView)
    ensures
        super::record::value_bytes(v).len() >= 1,
        super::record::value_bytes(v)[0] == match v {
            PropView::Int(_) => 0u8,
            PropView::Str(_) => 1u8,
            PropView::Bool(_) => 2u8,
            PropView::Float(_) => 3u8,
            PropView::List(_) => 4u8,
            PropView::Record(_) => 5u8,
            PropView::Null => 6u8,
        },
        v is Int ==> super::record::value_bytes(v).skip(1) == super::bytes::le64(v->Int_0 as u64),
        v is Float ==> super::record::value_bytes(v).skip(1) == super::bytes::le64(v->Float_0),
        v is Str ==> super::record::value_bytes(v).skip(1) == super::bytes::le32(v->Str_0),
        v is Bool ==> super::record::value_bytes(v).skip(1) =~= seq![
            if v->Bool_0 {
                1u8
            } else {
                0u8
            },
        ],
        v is Null ==> super::record::value_bytes(v).len() == 1,
{
    let b = super::record::value_bytes(v);
    match v {
        PropView::Int(n) => assert(b.skip(1) =~= super::bytes::le64(n as u64)),
        PropView::Float(bits) => assert(b.skip(1) =~= super::bytes::le64(bits)),
        PropView::Str(id) => assert(b.skip(1) =~= super::bytes::le32(id)),
        _ => {},
    }
}

/// A node record begins with its name and the number of its labels.
pub proof fn nodes_begin_with_their_name(r: RecordView)
    ensures
        super::record::node_bytes(r).len() >= 8,
        super::record::node_bytes(r).take(4) == super::bytes::le32(r.user_id_str_id),
        super::record::node_bytes(r).subrange(4, 6) == super::bytes::le16(
            r.label_str_ids.len() as u16,
        ),
{
    let b = super::record::node_bytes(r);
    let name = super::bytes::le32(r.user_id_str_id);
    let count = super::bytes::le16(r.label_str_ids.len() as u16);
    assert(b.take(4) =~= name);
    assert(b.subrange(4, 6) =~= count);
}

/// An edge record is the record of a node, then the node that the edge leaves, the
/// node that it enters, and a byte that is zero where it has a direction and one
/// where it has none.
pub proof fn edges_end_with_their_ends(r: EdgeRecordView)
    ensures
        ({
            let b = super::record::edge_bytes(r);
            let n = b.len() as int;
            &&& n >= 17
            &&& b.take(n - 9) == super::record::node_bytes(r.node)
            &&& b.subrange(n - 9, n - 5) == super::bytes::le32(r.src_internal_id)
            &&& b.subrange(n - 5, n - 1) == super::bytes::le32(r.tgt_internal_id)
            &&& b[n - 1] == if r.directed {
                0u8
            } else {
                1u8
            }
        }),
{
    nodes_begin_with_their_name(r.node);
    let b = super::record::edge_bytes(r);
    let n = b.len() as int;
    assert(b.take(n - 9) =~= super::record::node_bytes(r.node));
    assert(b.subrange(n - 9, n - 5) =~= super::bytes::le32(r.src_internal_id));
    assert(b.subrange(n - 5, n - 1) =~= super::bytes::le32(r.tgt_internal_id));
}

} // verus!
