//! The bytes of node and edge records.
//!
//! A node is the id of its name, a count and the ids of its labels, a count and
//! its properties. A property is the id of its name and a value, which is a tag
//! and what the tag calls for. An edge is the same, followed by its two end
//! points and one byte for its direction.

use vstd::prelude::*;

use super::bytes::{push_u16, push_u32, push_u64, u16_at, u32_at, u64_at};

verus! {

pub const VALUE_TYPE_INT: u8 = 0;

pub const VALUE_TYPE_STR: u8 = 1;

pub const VALUE_TYPE_BOOL: u8 = 2;

pub const VALUE_TYPE_FLOAT: u8 = 3;

pub const VALUE_TYPE_LIST: u8 = 4;

pub const VALUE_TYPE_RECORD: u8 = 5;

pub const VALUE_TYPE_NULL: u8 = 6;

pub const DIR_DIRECTED: u8 = 0;

pub const DIR_UNDIRECTED: u8 = 1;

/// A property value as it is stored: strings and field names by their ids,
/// floating-point numbers by their bits. A null stands only inside lists and
/// records.
#[derive(Debug, PartialEq, Eq)]
pub enum PropValue {
    Int(i64),
    Str(u32),
    Bool(bool),
    Float(u64),
    List(Vec<PropValue>),
    Record(Vec<(u32, PropValue)>),
    Null,
}

/// The value of a `PropValue`.
pub enum PropView {
    Int(i64),
    Str(u32),
    Bool(bool),
    Float(u64),
    List(Seq<PropView>),
    Record(Seq<(u32, PropView)>),
    Null,
}

impl PropValue {
    /// The value, with lists by their contents.
    pub open spec fn view(&self) -> PropView
        decreases self,
    {
        match self {
            PropValue::Int(n) => PropView::Int(*n),
            PropValue::Str(id) => PropView::Str(*id),
            PropValue::Bool(b) => PropView::Bool(*b),
            PropValue::Float(bits) => PropView::Float(*bits),
            PropValue::List(items) => PropView::List(
                Seq::new(
                    items@.len(),
                    |i: int|
                        if 0 <= i < items@.len() {
                            items@[i].view()
                        } else {
                            arbitrary()
                        },
                ),
            ),
            PropValue::Record(fields) => PropView::Record(
                Seq::new(
                    fields@.len(),
                    |i: int|
                        (
                            fields@[i].0,
                            if 0 <= i < fields@.len() {
                                fields@[i].1.view()
                            } else {
                                arbitrary()
                            },
                        ),
                ),
            ),
            PropValue::Null => PropView::Null,
        }
    }
}

/// The values of several properties.
pub open spec fn field_views(v: Seq<(u32, PropValue)>) -> Seq<(u32, PropView)> {
    Seq::new(v.len(), |i: int| (v[i].0, v[i].1@))
}

/// The bytes of a value.
pub open spec fn value_bytes(v: PropView) -> Seq<u8>
    decreases v,
{
    match v {
        PropView::Int(n) => seq![VALUE_TYPE_INT] + super::bytes::le64(n as u64),
        PropView::Str(id) => seq![VALUE_TYPE_STR] + super::bytes::le32(id),
        PropView::Bool(b) => seq![
            VALUE_TYPE_BOOL,
            if b {
                1
            } else {
                0
            },
        ],
        PropView::Float(bits) => seq![VALUE_TYPE_FLOAT] + super::bytes::le64(bits),
        PropView::List(items) => seq![VALUE_TYPE_LIST] + super::bytes::le32(items.len() as u32)
            + item_bytes(items),
        PropView::Record(fields) => seq![VALUE_TYPE_RECORD] + super::bytes::le32(
            fields.len() as u32,
        ) + field_bytes(fields),
        PropView::Null => seq![VALUE_TYPE_NULL],
    }
}

/// The bytes of the values, one after the other.
pub open spec fn item_bytes(items: Seq<PropView>) -> Seq<u8>
    decreases items,
{
    if items.len() == 0 {
        Seq::empty()
    } else {
        value_bytes(items[0]) + item_bytes(items.drop_first())
    }
}

/// The bytes of named values, one after the other.
pub open spec fn field_bytes(fields: Seq<(u32, PropView)>) -> Seq<u8>
    decreases fields,
{
    if fields.len() == 0 {
        Seq::empty()
    } else {
        super::bytes::le32(fields[0].0) + value_bytes(fields[0].1) + field_bytes(
            fields.drop_first(),
        )
    }
}

/// The bytes of ids, one after the other.
pub open spec fn id_bytes(ids: Seq<u32>) -> Seq<u8>
    decreases ids.len(),
{
    if ids.len() == 0 {
        Seq::empty()
    } else {
        super::bytes::le32(ids[0]) + id_bytes(ids.drop_first())
    }
}

/// Every list and record in the value is short enough to be counted.
pub open spec fn countable(v: PropView) -> bool
    decreases v,
{
    match v {
        PropView::List(items) => items.len() <= u32::MAX && forall|i: int|
            0 <= i < items.len() ==> countable(#[trigger] items[i]),
        PropView::Record(fields) => fields.len() <= u32::MAX && forall|i: int|
            0 <= i < fields.len() ==> countable((#[trigger] fields[i]).1),
        _ => true,
    }
}

/// Reads a value: what it is, and the bytes behind it.
pub open spec fn parse_value(s: Seq<u8>) -> Option<(PropView, Seq<u8>)>
    decreases s.len(), 0int,
{
    if s.len() == 0 {
        None
    } else {
        let t = s.skip(1);
        if s[0] == VALUE_TYPE_NULL {
            Some((PropView::Null, t))
        } else if s[0] == VALUE_TYPE_INT {
            if t.len() < 8 {
                None
            } else {
                Some((PropView::Int(super::bytes::head64(t) as i64), t.skip(8)))
            }
        } else if s[0] == VALUE_TYPE_STR {
            if t.len() < 4 {
                None
            } else {
                Some((PropView::Str(super::bytes::head32(t)), t.skip(4)))
            }
        } else if s[0] == VALUE_TYPE_BOOL {
            if t.len() < 1 {
                None
            } else {
                Some((PropView::Bool(t[0] != 0), t.skip(1)))
            }
        } else if s[0] == VALUE_TYPE_FLOAT {
            if t.len() < 8 {
                None
            } else {
                Some((PropView::Float(super::bytes::head64(t)), t.skip(8)))
            }
        } else if s[0] == VALUE_TYPE_LIST {
            if t.len() < 4 {
                None
            } else {
                match parse_items(t.skip(4), super::bytes::head32(t) as nat) {
                    None => None,
                    Some((items, rest)) => Some((PropView::List(items), rest)),
                }
            }
        } else if s[0] == VALUE_TYPE_RECORD {
            if t.len() < 4 {
                None
            } else {
                match parse_fields(t.skip(4), super::bytes::head32(t) as nat) {
                    None => None,
                    Some((fields, rest)) => Some((PropView::Record(fields), rest)),
                }
            }
        } else {
            None
        }
    }
}

/// Reads `n` values.
pub open spec fn parse_items(s: Seq<u8>, n: nat) -> Option<(Seq<PropView>, Seq<u8>)>
    decreases s.len(), n + 1,
{
    if n == 0 {
        Some((Seq::empty(), s))
    } else {
        match parse_value(s) {
            None => None,
            Some((v, rest)) => if rest.len() < s.len() {
                match parse_items(rest, (n - 1) as nat) {
                    None => None,
                    Some((items, end)) => Some((seq![v] + items, end)),
                }
            } else {
                None
            },
        }
    }
}

/// Reads `n` named values.
pub open spec fn parse_fields(s: Seq<u8>, n: nat) -> Option<(Seq<(u32, PropView)>, Seq<u8>)>
    decreases s.len(), n + 1,
{
    if n == 0 {
        Some((Seq::empty(), s))
    } else if s.len() < 4 {
        None
    } else {
        match parse_value(s.skip(4)) {
            None => None,
            Some((v, rest)) => if rest.len() < s.len() {
                match parse_fields(rest, (n - 1) as nat) {
                    None => None,
                    Some((fields, end)) => Some(
                        (seq![(super::bytes::head32(s), v)] + fields, end),
                    ),
                }
            } else {
                None
            },
        }
    }
}

/// Reads `n` ids.
pub open spec fn parse_ids(s: Seq<u8>, n: nat) -> Option<(Seq<u32>, Seq<u8>)>
    decreases n,
{
    if n == 0 {
        Some((Seq::empty(), s))
    } else if s.len() < 4 {
        None
    } else {
        match parse_ids(s.skip(4), (n - 1) as nat) {
            None => None,
            Some((ids, rest)) => Some((seq![super::bytes::head32(s)] + ids, rest)),
        }
    }
}

/// A value takes at least one byte.
proof fn parse_shrinks(s: Seq<u8>)
    ensures
        match parse_value(s) {
            Some((_, rest)) => rest.len() < s.len(),
            None => true,
        },
    decreases s.len(), 0int,
{
    if s.len() > 0 {
        let t = s.skip(1);
        if t.len() >= 4 {
            parse_items_shrinks(t.skip(4), super::bytes::head32(t) as nat);
            parse_fields_shrinks(t.skip(4), super::bytes::head32(t) as nat);
        }
    }
}

proof fn parse_items_shrinks(s: Seq<u8>, n: nat)
    ensures
        match parse_items(s, n) {
            Some((_, rest)) => rest.len() <= s.len(),
            None => true,
        },
    decreases s.len(), n + 1,
{
    if n > 0 {
        match parse_value(s) {
            Some((_, rest)) => {
                if rest.len() < s.len() {
                    parse_items_shrinks(rest, (n - 1) as nat);
                }
            },
            None => {},
        }
    }
}

proof fn parse_fields_shrinks(s: Seq<u8>, n: nat)
    ensures
        match parse_fields(s, n) {
            Some((_, rest)) => rest.len() <= s.len(),
            None => true,
        },
    decreases s.len(), n + 1,
{
    if n > 0 && s.len() >= 4 {
        match parse_value(s.skip(4)) {
            Some((_, rest)) => {
                if rest.len() < s.len() {
                    parse_fields_shrinks(rest, (n - 1) as nat);
                }
            },
            None => {},
        }
    }
}

/// A value that was written is read back, whatever stands behind it.
pub proof fn value_round_trip(v: PropView, tail: Seq<u8>)
    requires
        countable(v),
    ensures
        parse_value(value_bytes(v) + tail) == Some((v, tail)),
    decreases v,
{
    let s = value_bytes(v) + tail;
    let t = s.skip(1);
    match v {
        PropView::Int(n) => {
            super::bytes::read_back_64(n as u64, tail);
            assert(t =~= super::bytes::le64(n as u64) + tail);
            assert((n as u64) as i64 == n) by (bit_vector);
        },
        PropView::Str(id) => {
            super::bytes::read_back_32(id, tail);
            assert(t =~= super::bytes::le32(id) + tail);
        },
        PropView::Bool(b) => {
            assert(t.skip(1) =~= tail);
        },
        PropView::Float(bits) => {
            super::bytes::read_back_64(bits, tail);
            assert(t =~= super::bytes::le64(bits) + tail);
        },
        PropView::List(items) => {
            let n = items.len() as u32;
            super::bytes::read_back_32(n, item_bytes(items) + tail);
            assert(t =~= super::bytes::le32(n) + (item_bytes(items) + tail));
            items_round_trip(items, tail);
        },
        PropView::Record(fields) => {
            let n = fields.len() as u32;
            super::bytes::read_back_32(n, field_bytes(fields) + tail);
            assert(t =~= super::bytes::le32(n) + (field_bytes(fields) + tail));
            fields_round_trip(fields, tail);
        },
        PropView::Null => {
            assert(t =~= tail);
        },
    }
}

proof fn items_round_trip(items: Seq<PropView>, tail: Seq<u8>)
    requires
        forall|i: int| 0 <= i < items.len() ==> countable(#[trigger] items[i]),
    ensures
        parse_items(item_bytes(items) + tail, items.len()) == Some((items, tail)),
    decreases items,
{
    let s = item_bytes(items) + tail;
    if items.len() == 0 {
        assert(s =~= tail);
        assert(items =~= Seq::empty());
    } else {
        let rest = items.drop_first();
        assert forall|i: int| 0 <= i < rest.len() implies countable(#[trigger] rest[i]) by {
            assert(rest[i] == items[i + 1]);
        }
        assert(s =~= value_bytes(items[0]) + (item_bytes(rest) + tail));
        assert(countable(items[0]));
        value_round_trip(items[0], item_bytes(rest) + tail);
        parse_shrinks(s);
        items_round_trip(rest, tail);
        assert(seq![items[0]] + rest =~= items);
    }
}

proof fn fields_round_trip(fields: Seq<(u32, PropView)>, tail: Seq<u8>)
    requires
        forall|i: int| 0 <= i < fields.len() ==> countable((#[trigger] fields[i]).1),
    ensures
        parse_fields(field_bytes(fields) + tail, fields.len()) == Some((fields, tail)),
    decreases fields,
{
    let s = field_bytes(fields) + tail;
    if fields.len() == 0 {
        assert(s =~= tail);
        assert(fields =~= Seq::empty());
    } else {
        let rest = fields.drop_first();
        assert forall|i: int| 0 <= i < rest.len() implies countable((#[trigger] rest[i]).1) by {
            assert(rest[i] == fields[i + 1]);
        }
        let behind = value_bytes(fields[0].1) + (field_bytes(rest) + tail);
        super::bytes::read_back_32(fields[0].0, behind);
        assert(s =~= super::bytes::le32(fields[0].0) + behind);
        assert(countable(fields[0].1));
        assert(decreases_to!(fields => fields[0]));
        assert(decreases_to!(fields[0] => fields[0].1));
        value_round_trip(fields[0].1, field_bytes(rest) + tail);
        parse_shrinks(behind);
        fields_round_trip(rest, tail);
        assert(seq![(fields[0].0, fields[0].1)] + rest =~= fields);
    }
}

proof fn ids_round_trip(ids: Seq<u32>, tail: Seq<u8>)
    ensures
        parse_ids(id_bytes(ids) + tail, ids.len()) == Some((ids, tail)),
    decreases ids.len(),
{
    let s = id_bytes(ids) + tail;
    if ids.len() == 0 {
        assert(s =~= tail);
        assert(ids =~= Seq::empty());
    } else {
        let rest = ids.drop_first();
        super::bytes::read_back_32(ids[0], id_bytes(rest) + tail);
        assert(s =~= super::bytes::le32(ids[0]) + (id_bytes(rest) + tail));
        ids_round_trip(rest, tail);
        assert(seq![ids[0]] + rest =~= ids);
    }
}

/// One more value behind the others.
pub(crate) proof fn item_bytes_push(items: Seq<PropView>, v: PropView)
    ensures
        item_bytes(items.push(v)) == item_bytes(items) + value_bytes(v),
    decreases items.len(),
{
    let all = items.push(v);
    if items.len() == 0 {
        assert(all.drop_first() =~= Seq::empty());
        assert(item_bytes(all.drop_first()) =~= Seq::empty());
        assert(item_bytes(all) =~= value_bytes(v));
        assert(item_bytes(items) + value_bytes(v) =~= value_bytes(v));
    } else {
        assert(all.drop_first() =~= items.drop_first().push(v));
        item_bytes_push(items.drop_first(), v);
        assert(item_bytes(all) =~= value_bytes(items[0]) + (item_bytes(items.drop_first())
            + value_bytes(v)));
        assert(item_bytes(items) + value_bytes(v) =~= value_bytes(items[0]) + (item_bytes(
            items.drop_first(),
        ) + value_bytes(v)));
    }
}

/// One more named value behind the others.
pub(crate) proof fn field_bytes_push(fields: Seq<(u32, PropView)>, f: (u32, PropView))
    ensures
        field_bytes(fields.push(f)) == field_bytes(fields) + (super::bytes::le32(f.0)
            + value_bytes(f.1)),
    decreases fields.len(),
{
    let all = fields.push(f);
    let one = super::bytes::le32(f.0) + value_bytes(f.1);
    if fields.len() == 0 {
        assert(all.drop_first() =~= Seq::empty());
        assert(field_bytes(all.drop_first()) =~= Seq::empty());
        assert(field_bytes(all) =~= one);
        assert(field_bytes(fields) + one =~= one);
    } else {
        assert(all.drop_first() =~= fields.drop_first().push(f));
        field_bytes_push(fields.drop_first(), f);
        let head = super::bytes::le32(fields[0].0) + value_bytes(fields[0].1);
        assert(field_bytes(all) =~= head + (field_bytes(fields.drop_first()) + one));
        assert(field_bytes(fields) + one =~= head + (field_bytes(fields.drop_first()) + one));
    }
}

proof fn id_bytes_push(ids: Seq<u32>, id: u32)
    ensures
        id_bytes(ids.push(id)) == id_bytes(ids) + super::bytes::le32(id),
    decreases ids.len(),
{
    let all = ids.push(id);
    let one = super::bytes::le32(id);
    if ids.len() == 0 {
        assert(all.drop_first() =~= Seq::empty());
        assert(id_bytes(all.drop_first()) =~= Seq::empty());
        assert(id_bytes(all) =~= one);
        assert(id_bytes(ids) + one =~= one);
    } else {
        assert(all.drop_first() =~= ids.drop_first().push(id));
        id_bytes_push(ids.drop_first(), id);
        let head = super::bytes::le32(ids[0]);
        assert(id_bytes(all) =~= head + (id_bytes(ids.drop_first()) + one));
        assert(id_bytes(ids) + one =~= head + (id_bytes(ids.drop_first()) + one));
    }
}

/// Appends the bytes of a value.
fn encode_prop_value(buf: &mut Vec<u8>, val: &PropValue)
    ensures
        final(buf)@ == old(buf)@ + value_bytes(val@),
    decreases val,
{
    let ghost start = buf@;
    match val {
        PropValue::Null => {
            buf.push(VALUE_TYPE_NULL);
            assert(buf@ =~= start + value_bytes(val@));
        },
        PropValue::Int(n) => {
            buf.push(VALUE_TYPE_INT);
            push_u64(buf, *n as u64);
            assert(buf@ =~= start + value_bytes(val@));
        },
        PropValue::Str(id) => {
            buf.push(VALUE_TYPE_STR);
            push_u32(buf, *id);
            assert(buf@ =~= start + value_bytes(val@));
        },
        PropValue::Bool(b) => {
            buf.push(VALUE_TYPE_BOOL);
            buf.push(
                if *b {
                    1
                } else {
                    0
                },
            );
            assert(buf@ =~= start + value_bytes(val@));
        },
        PropValue::Float(bits) => {
            buf.push(VALUE_TYPE_FLOAT);
            push_u64(buf, *bits);
            assert(buf@ =~= start + value_bytes(val@));
        },
        PropValue::List(items) => {
            let ghost all = val@->List_0;
            buf.push(VALUE_TYPE_LIST);
            push_u32(buf, items.len() as u32);
            let ghost head = buf@;
            let mut i: usize = 0;
            assert(head =~= head + item_bytes(all.take(0)));
            while i < items.len()
                invariant
                    i <= items.len(),
                    *val == PropValue::List(*items),
                    all == val@->List_0,
                    all.len() == items.len(),
                    buf@ == head + item_bytes(all.take(i as int)),
                decreases items.len() - i,
            {
                assert(decreases_to!(val => val->List_0));
                encode_prop_value(buf, &items[i]);
                proof {
                    assert(all[i as int] == items@[i as int]@);
                    assert(all.take(i + 1) =~= all.take(i as int).push(all[i as int]));
                    item_bytes_push(all.take(i as int), all[i as int]);
                    assert(head + item_bytes(all.take(i as int)) + value_bytes(all[i as int])
                        =~= head + item_bytes(all.take(i + 1)));
                }
                i = i + 1;
            }
            assert(all.take(i as int) =~= all);
            assert(buf@ =~= start + value_bytes(val@));
        },
        PropValue::Record(fields) => {
            buf.push(VALUE_TYPE_RECORD);
            push_u32(buf, fields.len() as u32);
            let ghost head = buf@;
            assert(decreases_to!(val => val->Record_0));
            encode_fields(buf, fields);
            assert(val@->Record_0 =~= field_views(fields@));
            assert(buf@ =~= start + value_bytes(val@));
        },
    }
}

/// Appends the bytes of named values.
fn encode_fields(buf: &mut Vec<u8>, fields: &Vec<(u32, PropValue)>)
    ensures
        final(buf)@ == old(buf)@ + field_bytes(field_views(fields@)),
    decreases fields,
{
    let ghost head = buf@;
    let ghost all = field_views(fields@);
    let mut i: usize = 0;
    assert(head =~= head + field_bytes(all.take(0)));
    while i < fields.len()
        invariant
            i <= fields.len(),
            all == field_views(fields@),
            buf@ == head + field_bytes(all.take(i as int)),
        decreases fields.len() - i,
    {
        proof {
            assert(decreases_to!(fields => fields@));
            assert(decreases_to!(fields@ => fields@[i as int]));
            assert(decreases_to!(fields@[i as int] => fields@[i as int].1));
        }
        push_u32(buf, fields[i].0);
        encode_prop_value(buf, &fields[i].1);
        proof {
            let f = all[i as int];
            assert(all.take(i + 1) =~= all.take(i as int).push(f));
            field_bytes_push(all.take(i as int), f);
            assert(head + field_bytes(all.take(i as int)) + super::bytes::le32(f.0) + value_bytes(
                f.1,
            ) =~= head + field_bytes(all.take(i + 1)));
        }
        i = i + 1;
    }
    assert(all.take(i as int) =~= all);
}

/// A node record.
#[verifier::ext_equal]
pub ghost struct RecordView {
    pub user_id_str_id: u32,
    pub label_str_ids: Seq<u32>,
    pub props: Seq<(u32, PropView)>,
}

/// An edge record.
#[verifier::ext_equal]
pub ghost struct EdgeRecordView {
    pub node: RecordView,
    pub src_internal_id: u32,
    pub tgt_internal_id: u32,
    pub directed: bool,
}

/// The bytes of a node record.
pub open spec fn node_bytes(r: RecordView) -> Seq<u8> {
    super::bytes::le32(r.user_id_str_id) + super::bytes::le16(r.label_str_ids.len() as u16)
        + id_bytes(r.label_str_ids) + super::bytes::le16(r.props.len() as u16) + field_bytes(
        r.props,
    )
}

/// The byte of a direction.
pub open spec fn direction_byte(directed: bool) -> u8 {
    if directed {
        DIR_DIRECTED
    } else {
        DIR_UNDIRECTED
    }
}

/// The bytes of an edge record.
pub open spec fn edge_bytes(r: EdgeRecordView) -> Seq<u8> {
    node_bytes(r.node) + super::bytes::le32(r.src_internal_id) + super::bytes::le32(
        r.tgt_internal_id,
    ) + seq![direction_byte(r.directed)]
}

/// Reads a node record: what it is, and the bytes behind it.
pub open spec fn parse_node(s: Seq<u8>) -> Option<(RecordView, Seq<u8>)> {
    if s.len() < 6 {
        None
    } else {
        let t = s.skip(4);
        match parse_ids(t.skip(2), super::bytes::head16(t) as nat) {
            None => None,
            Some((labels, u)) => if u.len() < 2 {
                None
            } else {
                match parse_fields(u.skip(2), super::bytes::head16(u) as nat) {
                    None => None,
                    Some((props, rest)) => Some(
                        (
                            RecordView {
                                user_id_str_id: super::bytes::head32(s),
                                label_str_ids: labels,
                                props,
                            },
                            rest,
                        ),
                    ),
                }
            },
        }
    }
}

/// Reads an edge record.
pub open spec fn parse_edge(s: Seq<u8>) -> Option<EdgeRecordView> {
    match parse_node(s) {
        None => None,
        Some((node, t)) => if t.len() < 9 {
            None
        } else {
            Some(
                EdgeRecordView {
                    node,
                    src_internal_id: super::bytes::head32(t),
                    tgt_internal_id: super::bytes::head32(t.skip(4)),
                    directed: t[8] == DIR_DIRECTED,
                },
            )
        },
    }
}

/// The counts of the record can be written.
pub open spec fn countable_record(r: RecordView) -> bool {
    &&& r.label_str_ids.len() <= u16::MAX
    &&& r.props.len() <= u16::MAX
    &&& forall|i: int| 0 <= i < r.props.len() ==> countable((#[trigger] r.props[i]).1)
}

proof fn short_items(items: Seq<PropView>)
    requires
        item_bytes(items).len() <= u32::MAX,
    ensures
        items.len() <= item_bytes(items).len(),
        forall|i: int| 0 <= i < items.len() ==> countable(#[trigger] items[i]),
    decreases items,
{
    if items.len() > 0 {
        let rest = items.drop_first();
        short_value(items[0]);
        short_items(rest);
        assert forall|i: int| 0 <= i < items.len() implies countable(#[trigger] items[i]) by {
            if i > 0 {
                assert(rest[i - 1] == items[i]);
            }
        }
    }
}

proof fn short_fields(fields: Seq<(u32, PropView)>)
    requires
        field_bytes(fields).len() <= u32::MAX,
    ensures
        5 * fields.len() <= field_bytes(fields).len(),
        forall|i: int| 0 <= i < fields.len() ==> countable((#[trigger] fields[i]).1),
    decreases fields,
{
    super::bytes::number_lengths();
    if fields.len() > 0 {
        let rest = fields.drop_first();
        assert(super::bytes::le32(fields[0].0).len() == 4);
        assert(decreases_to!(fields => fields[0]));
        assert(decreases_to!(fields[0] => fields[0].1));
        short_value(fields[0].1);
        short_fields(rest);
        assert forall|i: int| 0 <= i < fields.len() implies countable((#[trigger] fields[i]).1) by {
            if i > 0 {
                assert(rest[i - 1] == fields[i]);
            }
        }
    }
}

/// A value of few bytes has no list that is too long to be counted.
proof fn short_value(v: PropView)
    requires
        value_bytes(v).len() <= u32::MAX,
    ensures
        countable(v),
        1 <= value_bytes(v).len(),
    decreases v,
{
    super::bytes::number_lengths();
    match v {
        PropView::List(items) => {
            assert(super::bytes::le32(items.len() as u32).len() == 4);
            short_items(items);
        },
        PropView::Record(fields) => {
            assert(super::bytes::le32(fields.len() as u32).len() == 4);
            short_fields(fields);
        },
        _ => {},
    }
}

pub(crate) proof fn id_bytes_len(ids: Seq<u32>)
    ensures
        id_bytes(ids).len() == 4 * ids.len(),
    decreases ids.len(),
{
    super::bytes::number_lengths();
    if ids.len() > 0 {
        assert(super::bytes::le32(ids[0]).len() == 4);
        id_bytes_len(ids.drop_first());
    }
}

/// A record of few bytes can be counted.
pub proof fn short_record(r: RecordView)
    requires
        node_bytes(r).len() <= u16::MAX,
    ensures
        countable_record(r),
{
    super::bytes::number_lengths();
    assert(super::bytes::le32(r.user_id_str_id).len() == 4);
    assert(super::bytes::le16(r.label_str_ids.len() as u16).len() == 2);
    assert(super::bytes::le16(r.props.len() as u16).len() == 2);
    id_bytes_len(r.label_str_ids);
    short_fields(r.props);
}

/// A node record that was written is read back.
pub proof fn node_round_trip(r: RecordView, tail: Seq<u8>)
    requires
        countable_record(r),
    ensures
        parse_node(node_bytes(r) + tail) == Some((r, tail)),
{
    let s = node_bytes(r) + tail;
    let labels = id_bytes(r.label_str_ids);
    let props = field_bytes(r.props);
    let ln = super::bytes::le16(r.label_str_ids.len() as u16);
    let pn = super::bytes::le16(r.props.len() as u16);
    super::bytes::read_back_32(r.user_id_str_id, ln + (labels + (pn + (props + tail))));
    super::bytes::read_back_16(
        r.label_str_ids.len() as u16,
        labels + (pn + (props + tail)),
    );
    super::bytes::read_back_16(r.props.len() as u16, props + tail);
    assert(s =~= super::bytes::le32(r.user_id_str_id) + (ln + (labels + (pn + (props + tail)))));
    ids_round_trip(r.label_str_ids, pn + (props + tail));
    fields_round_trip(r.props, tail);
}

/// An edge record that was written is read back.
pub proof fn edge_round_trip(r: EdgeRecordView)
    requires
        countable_record(r.node),
    ensures
        parse_edge(edge_bytes(r)) == Some(r),
{
    let src = super::bytes::le32(r.src_internal_id);
    let tgt = super::bytes::le32(r.tgt_internal_id);
    let d = seq![direction_byte(r.directed)];
    let t = src + (tgt + d);
    assert(edge_bytes(r) =~= node_bytes(r.node) + t);
    node_round_trip(r.node, t);
    super::bytes::read_back_32(r.src_internal_id, tgt + d);
    super::bytes::read_back_32(r.tgt_internal_id, d);
    assert(t.skip(8) =~= d);
    assert(t[8] == d[0]);
}

fn push_ids(buf: &mut Vec<u8>, ids: &[u32])
    ensures
        final(buf)@ == old(buf)@ + id_bytes(ids@),
{
    let ghost head = buf@;
    let mut i: usize = 0;
    assert(head =~= head + id_bytes(ids@.take(0)));
    while i < ids.len()
        invariant
            i <= ids.len(),
            buf@ == head + id_bytes(ids@.take(i as int)),
        decreases ids.len() - i,
    {
        push_u32(buf, ids[i]);
        proof {
            assert(ids@.take(i + 1) =~= ids@.take(i as int).push(ids@[i as int]));
            id_bytes_push(ids@.take(i as int), ids@[i as int]);
            assert(head + id_bytes(ids@.take(i as int)) + super::bytes::le32(ids@[i as int])
                =~= head + id_bytes(ids@.take(i + 1)));
        }
        i = i + 1;
    }
    assert(ids@.take(i as int) =~= ids@);
}

/// The bytes of a node record.
pub fn encode_node(
    user_id_str_id: u32,
    label_str_ids: &[u32],
    props: &Vec<(u32, PropValue)>,
) -> (r: Vec<u8>)
    ensures
        r@ == node_bytes(
            (RecordView {
                user_id_str_id,
                label_str_ids: label_str_ids@,
                props: field_views(props@),
            }),
        ),
{
    let mut buf: Vec<u8> = Vec::new();
    push_u32(&mut buf, user_id_str_id);
    push_u16(&mut buf, label_str_ids.len() as u16);
    push_ids(&mut buf, label_str_ids);
    push_u16(&mut buf, props.len() as u16);
    encode_fields(&mut buf, props);
    proof {
        let r = RecordView {
            user_id_str_id,
            label_str_ids: label_str_ids@,
            props: field_views(props@),
        };
        assert(buf@ =~= node_bytes(r));
    }
    buf
}

/// The bytes of an edge record.
pub fn encode_edge(
    user_id_str_id: u32,
    label_str_ids: &[u32],
    props: &Vec<(u32, PropValue)>,
    src_internal_id: u32,
    tgt_internal_id: u32,
    directed: bool,
) -> (r: Vec<u8>)
    ensures
        r@ == edge_bytes(
            (EdgeRecordView {
                node: RecordView {
                    user_id_str_id,
                    label_str_ids: label_str_ids@,
                    props: field_views(props@),
                },
                src_internal_id,
                tgt_internal_id,
                directed,
            }),
        ),
{
    let mut buf = encode_node(user_id_str_id, label_str_ids, props);
    push_u32(&mut buf, src_internal_id);
    push_u32(&mut buf, tgt_internal_id);
    buf.push(
        if directed {
            DIR_DIRECTED
        } else {
            DIR_UNDIRECTED
        },
    );
    proof {
        let node = RecordView {
            user_id_str_id,
            label_str_ids: label_str_ids@,
            props: field_views(props@),
        };
        let r = EdgeRecordView { node, src_internal_id, tgt_internal_id, directed };
        assert(buf@ =~= edge_bytes(r));
    }
    buf
}

/// A node record that was read.
#[derive(Debug)]
pub struct DecodedNode {
    pub user_id_str_id: u32,
    pub label_str_ids: Vec<u32>,
    pub props: Vec<(u32, PropValue)>,
}

/// An edge record that was read.
#[derive(Debug)]
pub struct DecodedEdge {
    pub node: DecodedNode,
    pub src_internal_id: u32,
    pub tgt_internal_id: u32,
    pub directed: bool,
}

impl DecodedNode {
    /// The value.
    pub open spec fn view(&self) -> RecordView {
        RecordView {
            user_id_str_id: self.user_id_str_id,
            label_str_ids: self.label_str_ids@,
            props: field_views(self.props@),
        }
    }
}

impl DecodedEdge {
    /// The value.
    pub open spec fn view(&self) -> EdgeRecordView {
        EdgeRecordView {
            node: self.node@,
            src_internal_id: self.src_internal_id,
            tgt_internal_id: self.tgt_internal_id,
            directed: self.directed,
        }
    }
}

/// Reads a value at a position, up to a position behind it.
fn decode_prop_value(data: &[u8], pos: usize) -> (r: Option<(PropValue, usize)>)
    requires
        pos <= data@.len(),
    ensures
        match r {
            Some((v, end)) => pos < end <= data@.len() && parse_value(data@.skip(pos as int))
                == Some((v@, data@.skip(end as int))),
            None => parse_value(data@.skip(pos as int)) is None,
        },
    decreases data@.len() - pos, 0int,
{
    let ghost s = data@.skip(pos as int);
    let n = data.len();
    if pos >= n {
        return None;
    }
    let tag = data[pos];
    let ghost t = s.skip(1);
    let at = pos + 1;
    assert(s[0] == tag);
    assert(t =~= data@.skip(at as int));
    if tag == VALUE_TYPE_NULL {
        Some((PropValue::Null, at))
    } else if tag == VALUE_TYPE_INT {
        if n - at < 8 {
            return None;
        }
        assert(t.skip(8) =~= data@.skip(at + 8));
        let x = u64_at(data, at);
        Some((PropValue::Int(x as i64), at + 8))
    } else if tag == VALUE_TYPE_STR {
        if n - at < 4 {
            return None;
        }
        assert(t.skip(4) =~= data@.skip(at + 4));
        Some((PropValue::Str(u32_at(data, at)), at + 4))
    } else if tag == VALUE_TYPE_BOOL {
        if n - at < 1 {
            return None;
        }
        assert(t.skip(1) =~= data@.skip(at + 1));
        assert(t[0] == data@[at as int]);
        Some((PropValue::Bool(data[at] != 0), at + 1))
    } else if tag == VALUE_TYPE_FLOAT {
        if n - at < 8 {
            return None;
        }
        assert(t.skip(8) =~= data@.skip(at + 8));
        Some((PropValue::Float(u64_at(data, at)), at + 8))
    } else if tag == VALUE_TYPE_LIST {
        if n - at < 4 {
            return None;
        }
        assert(t.skip(4) =~= data@.skip(at + 4));
        let count = u32_at(data, at);
        match decode_items(data, at + 4, count) {
            None => None,
            Some((items, end)) => {
                let r = PropValue::List(items);
                assert(r@->List_0 =~= item_views(items@));
                Some((r, end))
            },
        }
    } else if tag == VALUE_TYPE_RECORD {
        if n - at < 4 {
            return None;
        }
        assert(t.skip(4) =~= data@.skip(at + 4));
        let count = u32_at(data, at);
        match decode_fields(data, at + 4, count) {
            None => None,
            Some((fields, end)) => {
                let r = PropValue::Record(fields);
                assert(r@->Record_0 =~= field_views(fields@));
                Some((r, end))
            },
        }
    } else {
        None
    }
}

/// The values of several items.
pub open spec fn item_views(v: Seq<PropValue>) -> Seq<PropView> {
    Seq::new(v.len(), |i: int| v[i]@)
}

/// Reads `count` values at a position.
fn decode_items(data: &[u8], pos: usize, count: u32) -> (r: Option<(Vec<PropValue>, usize)>)
    requires
        pos <= data@.len(),
    ensures
        match r {
            Some((items, end)) => pos <= end <= data@.len() && parse_items(
                data@.skip(pos as int),
                count as nat,
            ) == Some((item_views(items@), data@.skip(end as int))),
            None => parse_items(data@.skip(pos as int), count as nat) is None,
        },
    decreases data@.len() - pos, 1int,
{
    let ghost s = data@.skip(pos as int);
    let mut items: Vec<PropValue> = Vec::new();
    let mut at = pos;
    let mut i: u32 = 0;
    assert(item_views(items@) =~= Seq::empty());
    assert(match parse_items(s, count as nat) {
        Some((rest, end)) => parse_items(s, count as nat) == Some(
            (Seq::<PropView>::empty() + rest, end),
        ),
        None => true,
    }) by {
        match parse_items(s, count as nat) {
            Some((rest, end)) => {
                assert(Seq::<PropView>::empty() + rest =~= rest);
            },
            None => {},
        }
    }
    while i < count
        invariant
            i <= count,
            pos <= at <= data@.len(),
            s == data@.skip(pos as int),
            parse_items(s, count as nat) == (match parse_items(
                data@.skip(at as int),
                (count - i) as nat,
            ) {
                Some((rest, end)) => Some((item_views(items@) + rest, end)),
                None => None,
            }),
        decreases count - i,
    {
        let ghost before = item_views(items@);
        proof {
            parse_shrinks(data@.skip(at as int));
        }
        match decode_prop_value(data, at) {
            None => {
                return None;
            },
            Some((v, end)) => {
                items.push(v);
                proof {
                    assert(item_views(items@) =~= before.push(v@));
                    match parse_items(data@.skip(end as int), (count - i - 1) as nat) {
                        Some((rest, e)) => {
                            assert(before + (seq![v@] + rest) =~= item_views(items@) + rest);
                        },
                        None => {},
                    }
                }
                at = end;
            },
        }
        i = i + 1;
    }
    proof {
        assert(item_views(items@) + Seq::<PropView>::empty() =~= item_views(items@));
    }
    Some((items, at))
}

/// Reads `count` named values at a position.
fn decode_fields(data: &[u8], pos: usize, count: u32) -> (r: Option<
    (Vec<(u32, PropValue)>, usize),
>)
    requires
        pos <= data@.len(),
    ensures
        match r {
            Some((fields, end)) => pos <= end <= data@.len() && parse_fields(
                data@.skip(pos as int),
                count as nat,
            ) == Some((field_views(fields@), data@.skip(end as int))),
            None => parse_fields(data@.skip(pos as int), count as nat) is None,
        },
    decreases data@.len() - pos, 1int,
{
    let ghost s = data@.skip(pos as int);
    let mut fields: Vec<(u32, PropValue)> = Vec::new();
    let mut at = pos;
    let mut i: u32 = 0;
    assert(field_views(fields@) =~= Seq::empty());
    proof {
        match parse_fields(s, count as nat) {
            Some((rest, end)) => {
                assert(Seq::<(u32, PropView)>::empty() + rest =~= rest);
            },
            None => {},
        }
    }
    while i < count
        invariant
            i <= count,
            pos <= at <= data@.len(),
            s == data@.skip(pos as int),
            parse_fields(s, count as nat) == (match parse_fields(
                data@.skip(at as int),
                (count - i) as nat,
            ) {
                Some((rest, end)) => Some((field_views(fields@) + rest, end)),
                None => None,
            }),
        decreases count - i,
    {
        let ghost before = field_views(fields@);
        if data.len() - at < 4 {
            return None;
        }
        let name = u32_at(data, at);
        proof {
            assert(data@.skip(at as int).skip(4) =~= data@.skip(at + 4));
            parse_shrinks(data@.skip(at + 4));
        }
        match decode_prop_value(data, at + 4) {
            None => {
                return None;
            },
            Some((v, end)) => {
                fields.push((name, v));
                proof {
                    assert(field_views(fields@) =~= before.push((name, v@)));
                    match parse_fields(data@.skip(end as int), (count - i - 1) as nat) {
                        Some((rest, e)) => {
                            assert(before + (seq![(name, v@)] + rest) =~= field_views(fields@)
                                + rest);
                        },
                        None => {},
                    }
                }
                at = end;
            },
        }
        i = i + 1;
    }
    proof {
        assert(field_views(fields@) + Seq::<(u32, PropView)>::empty() =~= field_views(fields@));
    }
    Some((fields, at))
}

/// Reads `count` ids at a position.
fn decode_ids(data: &[u8], pos: usize, count: u16) -> (r: Option<(Vec<u32>, usize)>)
    requires
        pos <= data@.len(),
    ensures
        match r {
            Some((ids, end)) => pos <= end <= data@.len() && parse_ids(
                data@.skip(pos as int),
                count as nat,
            ) == Some((ids@, data@.skip(end as int))),
            None => parse_ids(data@.skip(pos as int), count as nat) is None,
        },
{
    let ghost s = data@.skip(pos as int);
    let mut ids: Vec<u32> = Vec::new();
    let mut at = pos;
    let mut i: u16 = 0;
    proof {
        match parse_ids(s, count as nat) {
            Some((rest, end)) => {
                assert(Seq::<u32>::empty() + rest =~= rest);
            },
            None => {},
        }
    }
    while i < count
        invariant
            i <= count,
            pos <= at <= data@.len(),
            s == data@.skip(pos as int),
            parse_ids(s, count as nat) == (match parse_ids(
                data@.skip(at as int),
                (count - i) as nat,
            ) {
                Some((rest, end)) => Some((ids@ + rest, end)),
                None => None,
            }),
        decreases count - i,
    {
        let ghost before = ids@;
        if data.len() - at < 4 {
            return None;
        }
        let id = u32_at(data, at);
        ids.push(id);
        proof {
            assert(data@.skip(at as int).skip(4) =~= data@.skip(at + 4));
            match parse_ids(data@.skip(at + 4), (count - i - 1) as nat) {
                Some((rest, e)) => {
                    assert(before + (seq![id] + rest) =~= ids@ + rest);
                },
                None => {},
            }
        }
        at = at + 4;
        i = i + 1;
    }
    assert(ids@ + Seq::<u32>::empty() =~= ids@);
    Some((ids, at))
}

/// Reads a node record, up to a position behind it. The bytes may be those of
/// no record.
pub fn read_node(data: &[u8]) -> (r: Option<(DecodedNode, usize)>)
    ensures
        match r {
            Some((node, end)) => end <= data@.len() && parse_node(data@) == Some(
                (node@, data@.skip(end as int)),
            ),
            None => parse_node(data@) is None,
        },
{
    if data.len() < 6 {
        return None;
    }
    assert(data@.skip(0) =~= data@);
    let user_id_str_id = u32_at(data, 0);
    let count = u16_at(data, 4);
    assert(data@.skip(4).skip(2) =~= data@.skip(6));
    match decode_ids(data, 6, count) {
        None => None,
        Some((label_str_ids, at)) => {
            if data.len() - at < 2 {
                return None;
            }
            let props_count = u16_at(data, at);
            assert(data@.skip(at as int).skip(2) =~= data@.skip(at + 2));
            match decode_fields(data, at + 2, props_count as u32) {
                None => None,
                Some((props, end)) => Some(
                    (DecodedNode { user_id_str_id, label_str_ids, props }, end),
                ),
            }
        },
    }
}

/// Reads an edge record. The bytes may be those of no record.
pub fn read_edge(data: &[u8]) -> (r: Option<DecodedEdge>)
    ensures
        match r {
            Some(edge) => parse_edge(data@) == Some(edge@),
            None => parse_edge(data@) is None,
        },
{
    match read_node(data) {
        None => None,
        Some((node, at)) => {
            if data.len() - at < 9 {
                return None;
            }
            let src_internal_id = u32_at(data, at);
            assert(data@.skip(at as int).skip(4) =~= data@.skip(at + 4));
            let tgt_internal_id = u32_at(data, at + 4);
            let directed = data[at + 8] == DIR_DIRECTED;
            assert(data@.skip(at as int)[8] == data@[at + 8]);
            Some(DecodedEdge { node, src_internal_id, tgt_internal_id, directed })
        },
    }
}

/// Reads a node record: what it is, and how many bytes it takes.
pub fn decode_node(data: &[u8]) -> (r: (DecodedNode, usize))
    requires
        parse_node(data@) is Some,
    ensures
        r.1 <= data@.len(),
        parse_node(data@) == Some((r.0@, data@.skip(r.1 as int))),
{
    match read_node(data) {
        Some(r) => r,
        None => {
            assert(false);
            (
                DecodedNode {
                    user_id_str_id: 0,
                    label_str_ids: Vec::new(),
                    props: Vec::new(),
                },
                0,
            )
        },
    }
}

/// Reads an edge record.
pub fn decode_edge(data: &[u8]) -> (r: DecodedEdge)
    requires
        parse_edge(data@) is Some,
    ensures
        parse_edge(data@) == Some(r@),
{
    let n = data.len();
    let (node, at) = decode_node(data);
    assert(data@.skip(at as int).len() == n - at);
    let src_internal_id = u32_at(data, at);
    assert(data@.skip(at as int).skip(4) =~= data@.skip(at + 4));
    let tgt_internal_id = u32_at(data, at + 4);
    let directed = data[at + 8] == DIR_DIRECTED;
    assert(data@.skip(at as int)[8] == data@[at + 8]);
    DecodedEdge { node, src_internal_id, tgt_internal_id, directed }
}

} // verus!
