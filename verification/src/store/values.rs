//! Property values between a graph and the strings of a file.

use vstd::prelude::*;

use super::pager::{Pager, StoreError};
use super::record::{PropValue, PropView};
use super::string_table::StringTable;
use crate::fields::FieldMap;
use crate::model::value::{Props, Value, ValueView};
use crate::text::copy_text;

verus! {

/// The value that a stored value stands for. Nothing, where a string is
/// missing.
pub open spec fn resolve_value(v: PropView, strings: Seq<Seq<char>>) -> Option<ValueView>
    decreases v,
{
    match v {
        PropView::Null => Some(ValueView::Null),
        PropView::Int(n) => Some(ValueView::Int(n)),
        PropView::Float(bits) => Some(ValueView::Float(bits)),
        PropView::Bool(b) => Some(ValueView::Bool(b)),
        PropView::Str(id) => if id < strings.len() {
            Some(ValueView::Str(strings[id as int]))
        } else {
            None
        },
        PropView::List(items) => match resolve_items(items, strings) {
            Some(values) => Some(ValueView::List(values)),
            None => None,
        },
        PropView::Record(fields) => match resolve_fields(fields, strings) {
            Some(m) => Some(ValueView::Record(m)),
            None => None,
        },
    }
}

/// The values that stored values stand for.
pub open spec fn resolve_items(items: Seq<PropView>, strings: Seq<Seq<char>>) -> Option<
    Seq<ValueView>,
>
    decreases items,
{
    if items.len() == 0 {
        Some(Seq::empty())
    } else {
        match (
            resolve_items(items.drop_last(), strings),
            resolve_value(items[items.len() - 1], strings),
        ) {
            (Some(rest), Some(v)) => Some(rest.push(v)),
            _ => None,
        }
    }
}

/// The fields that stored fields stand for; a later one of the same name takes
/// the place of an earlier one.
pub open spec fn resolve_fields(fields: Seq<(u32, PropView)>, strings: Seq<Seq<char>>) -> Option<
    Map<Seq<char>, ValueView>,
>
    decreases fields,
{
    if fields.len() == 0 {
        Some(Map::empty())
    } else {
        let f = fields[fields.len() - 1];
        match (
            resolve_fields(fields.drop_last(), strings),
            resolve_value(fields[fields.len() - 1].1, strings),
        ) {
            (Some(rest), Some(v)) => if f.0 < strings.len() {
                Some(rest.insert(strings[f.0 as int], v))
            } else {
                None
            },
            _ => None,
        }
    }
}

/// The strings with the given numbers.
pub open spec fn resolve_ids(ids: Seq<u32>, strings: Seq<Seq<char>>) -> Option<Seq<Seq<char>>>
    decreases ids.len(),
{
    if ids.len() == 0 {
        Some(Seq::empty())
    } else {
        match resolve_ids(ids.drop_last(), strings) {
            Some(rest) => if ids.last() < strings.len() {
                Some(rest.push(strings[ids.last() as int]))
            } else {
                None
            },
            None => None,
        }
    }
}

/// What stands for a value still does when strings are added.
pub proof fn value_stays(v: PropView, a: Seq<Seq<char>>, b: Seq<Seq<char>>)
    requires
        a.is_prefix_of(b),
        resolve_value(v, a) is Some,
    ensures
        resolve_value(v, b) == resolve_value(v, a),
    decreases v,
{
    prefix_index(a, b);
    match v {
        PropView::List(items) => {
            items_stay(items, a, b);
        },
        PropView::Record(fields) => {
            fields_stay(fields, a, b);
        },
        _ => {},
    }
}

proof fn prefix_index(a: Seq<Seq<char>>, b: Seq<Seq<char>>)
    requires
        a.is_prefix_of(b),
    ensures
        a.len() <= b.len(),
        forall|i: int| 0 <= i < a.len() ==> #[trigger] a[i] == b[i],
{
    assert forall|i: int| 0 <= i < a.len() implies #[trigger] a[i] == b[i] by {
        assert(b.subrange(0, a.len() as int)[i] == a[i]);
    }
}

proof fn items_stay(items: Seq<PropView>, a: Seq<Seq<char>>, b: Seq<Seq<char>>)
    requires
        a.is_prefix_of(b),
        resolve_items(items, a) is Some,
    ensures
        resolve_items(items, b) == resolve_items(items, a),
    decreases items,
{
    if items.len() > 0 {
        items_stay(items.drop_last(), a, b);
        value_stays(items[items.len() - 1], a, b);
    }
}

/// What stands for fields still does when strings are added.
pub proof fn fields_stay(fields: Seq<(u32, PropView)>, a: Seq<Seq<char>>, b: Seq<Seq<char>>)
    requires
        a.is_prefix_of(b),
        resolve_fields(fields, a) is Some,
    ensures
        resolve_fields(fields, b) == resolve_fields(fields, a),
    decreases fields,
{
    prefix_index(a, b);
    if fields.len() > 0 {
        fields_stay(fields.drop_last(), a, b);
        assert(decreases_to!(fields => fields[fields.len() - 1]));
        assert(decreases_to!(fields[fields.len() - 1] => fields[fields.len() - 1].1));
        value_stays(fields[fields.len() - 1].1, a, b);
    }
}

/// Strings keep their numbers when strings are added.
pub proof fn ids_stay(ids: Seq<u32>, a: Seq<Seq<char>>, b: Seq<Seq<char>>)
    requires
        a.is_prefix_of(b),
        resolve_ids(ids, a) is Some,
    ensures
        resolve_ids(ids, b) == resolve_ids(ids, a),
    decreases ids.len(),
{
    prefix_index(a, b);
    if ids.len() > 0 {
        ids_stay(ids.drop_last(), a, b);
    }
}

/// The value that a stored value stands for.
pub fn prop_to_value(v: &PropValue, strings: &StringTable) -> (r: Option<Value>)
    ensures
        match r {
            Some(x) => resolve_value(v@, strings@) == Some(x@),
            None => resolve_value(v@, strings@) is None,
        },
    decreases v,
{
    match v {
        PropValue::Null => Some(Value::Null),
        PropValue::Int(n) => Some(Value::Int(*n)),
        PropValue::Float(bits) => Some(Value::Float(*bits)),
        PropValue::Bool(b) => Some(Value::Bool(*b)),
        PropValue::Str(id) => match strings.resolve(*id) {
            Some(s) => Some(Value::Str(copy_text(s))),
            None => None,
        },
        PropValue::List(items) => {
            let ghost all = v@->List_0;
            let mut out: Vec<Value> = Vec::new();
            let mut i: usize = 0;
            assert(crate::model::value::value_views(out@) =~= Seq::empty());
            while i < items.len()
                invariant
                    i <= items.len(),
                    *v == PropValue::List(*items),
                    all == v@->List_0,
                    all.len() == items.len(),
                    resolve_items(all.take(i as int), strings@) == Some(
                        crate::model::value::value_views(out@),
                    ),
                decreases items.len() - i,
            {
                assert(decreases_to!(v => v->List_0));
                proof {
                    assert(all[i as int] == items@[i as int]@);
                    assert(all.take(i + 1).drop_last() =~= all.take(i as int));
                    assert(all.take(i + 1)[i as int] == all[i as int]);
                }
                let ghost before = crate::model::value::value_views(out@);
                match prop_to_value(&items[i], strings) {
                    Some(x) => {
                        out.push(x);
                        assert(crate::model::value::value_views(out@) =~= before.push(x@));
                    },
                    None => {
                        proof {
                            items_missing(all, strings@, i as int);
                        }
                        return None;
                    },
                }
                i = i + 1;
            }
            assert(all.take(i as int) =~= all);
            let r = Value::List(out);
            assert(r@->List_0 =~= crate::model::value::value_views(out@));
            Some(r)
        },
        PropValue::Record(fields) => {
            assert(decreases_to!(v => v->Record_0));
            assert(v@->Record_0 =~= super::record::field_views(fields@));
            match decode_props(fields, strings) {
                Some(m) => {
                    let r = Value::Record(m);
                    assert(r@->Record_0 =~= crate::model::value::props_view(m));
                    Some(r)
                },
                None => None,
            }
        },
    }
}

proof fn items_missing(all: Seq<PropView>, strings: Seq<Seq<char>>, i: int)
    requires
        0 <= i < all.len(),
        resolve_items(all.take(i + 1), strings) is None,
    ensures
        resolve_items(all, strings) is None,
    decreases all.len() - i,
{
    if i + 1 == all.len() {
        assert(all.take(i + 1) =~= all);
    } else {
        assert(all.take(i + 2).drop_last() =~= all.take(i + 1));
        items_missing(all, strings, i + 1);
    }
}

proof fn fields_missing(all: Seq<(u32, PropView)>, strings: Seq<Seq<char>>, i: int)
    requires
        0 <= i < all.len(),
        resolve_fields(all.take(i + 1), strings) is None,
    ensures
        resolve_fields(all, strings) is None,
    decreases all.len() - i,
{
    if i + 1 == all.len() {
        assert(all.take(i + 1) =~= all);
    } else {
        assert(all.take(i + 2).drop_last() =~= all.take(i + 1));
        fields_missing(all, strings, i + 1);
    }
}

proof fn ids_missing(all: Seq<u32>, strings: Seq<Seq<char>>, i: int)
    requires
        0 <= i < all.len(),
        resolve_ids(all.take(i + 1), strings) is None,
    ensures
        resolve_ids(all, strings) is None,
    decreases all.len() - i,
{
    if i + 1 == all.len() {
        assert(all.take(i + 1) =~= all);
    } else {
        assert(all.take(i + 2).drop_last() =~= all.take(i + 1));
        ids_missing(all, strings, i + 1);
    }
}

/// The properties that stored properties stand for.
pub fn decode_props(encoded: &Vec<(u32, PropValue)>, strings: &StringTable) -> (r: Option<Props>)
    ensures
        match r {
            Some(m) => resolve_fields(super::record::field_views(encoded@), strings@) == Some(
                crate::model::value::props_view(m),
            ),
            None => resolve_fields(super::record::field_views(encoded@), strings@) is None,
        },
    decreases encoded,
{
    let ghost all = super::record::field_views(encoded@);
    let mut out: Props = FieldMap::new();
    let mut i: usize = 0;
    assert(crate::model::value::props_view(out) =~= Map::empty());
    while i < encoded.len()
        invariant
            i <= encoded.len(),
            all == super::record::field_views(encoded@),
            resolve_fields(all.take(i as int), strings@) == Some(
                crate::model::value::props_view(out),
            ),
        decreases encoded.len() - i,
    {
        proof {
            assert(decreases_to!(encoded => encoded@));
            assert(decreases_to!(encoded@ => encoded@[i as int]));
            assert(decreases_to!(encoded@[i as int] => encoded@[i as int].1));
            assert(all[i as int] == (encoded@[i as int].0, encoded@[i as int].1@));
            assert(all.take(i + 1).drop_last() =~= all.take(i as int));
            assert(all.take(i + 1)[i as int] == all[i as int]);
        }
        let ghost before = crate::model::value::props_view(out);
        let value = match prop_to_value(&encoded[i].1, strings) {
            Some(x) => x,
            None => {
                proof {
                    fields_missing(all, strings@, i as int);
                }
                return None;
            },
        };
        match strings.resolve(encoded[i].0) {
            Some(name) => {
                out.insert(copy_text(name), value);
                assert(crate::model::value::props_view(out) =~= before.insert(name@, value@));
            },
            None => {
                proof {
                    fields_missing(all, strings@, i as int);
                }
                return None;
            },
        }
        i = i + 1;
    }
    assert(all.take(i as int) =~= all);
    Some(out)
}

/// The strings with the given numbers.
pub fn resolve_strings(ids: &Vec<u32>, strings: &StringTable) -> (r: Option<Vec<String>>)
    ensures
        match r {
            Some(v) => resolve_ids(ids@, strings@) == Some(crate::text::texts(v@)),
            None => resolve_ids(ids@, strings@) is None,
        },
{
    let mut out: Vec<String> = Vec::new();
    let mut i: usize = 0;
    assert(crate::text::texts(out@) =~= Seq::empty());
    while i < ids.len()
        invariant
            i <= ids.len(),
            resolve_ids(ids@.take(i as int), strings@) == Some(crate::text::texts(out@)),
        decreases ids.len() - i,
    {
        proof {
            assert(ids@.take(i + 1).drop_last() =~= ids@.take(i as int));
            assert(ids@.take(i + 1).last() == ids@[i as int]);
        }
        let ghost before = crate::text::texts(out@);
        match strings.resolve(ids[i]) {
            Some(s) => {
                out.push(copy_text(s));
                assert(crate::text::texts(out@) =~= before.push(s@));
            },
            None => {
                proof {
                    ids_missing(ids@, strings@, i as int);
                }
                return None;
            },
        }
        i = i + 1;
    }
    assert(ids@.take(i as int) =~= ids@);
    Some(out)
}

/// What in a value keeps it from being stored: a reference, or a text that is
/// too long.
pub open spec fn blocks(v: ValueView, e: StoreError) -> bool
    decreases v,
{
    match v {
        ValueView::Str(s) => e == StoreError::TextTooLong && super::string_table::long_text(s),
        ValueView::List(items) => exists|i: int|
            0 <= i < items.len() && blocks(#[trigger] items[i], e),
        ValueView::Record(m) => exists|k: Seq<char>| #[trigger]
            m.contains_key(k) && (blocks(m[k], e) || (e == StoreError::TextTooLong && super::string_table::long_text(
                k,
            ))),
        ValueView::Node(_) => e == StoreError::ReferenceValue,
        ValueView::Edge(_) => e == StoreError::ReferenceValue,
        ValueView::Path(_) => e == StoreError::ReferenceValue,
        _ => false,
    }
}

/// What in fields keeps them from being stored. Nulls may be left out.
pub open spec fn fields_block(m: Map<Seq<char>, ValueView>, skip_null: bool, e: StoreError) -> bool {
    exists|k: Seq<char>| #[trigger]
        m.contains_key(k) && !(skip_null && m[k] is Null) && (blocks(m[k], e) || (e
            == StoreError::TextTooLong && super::string_table::long_text(k)))
}

/// What in properties keeps them from being stored.
pub open spec fn props_block(m: Map<Seq<char>, ValueView>, e: StoreError) -> bool {
    fields_block(m, true, e)
}

/// How many pages texts take at most.
pub open spec fn texts_pages(list: Seq<Seq<char>>) -> nat
    decreases list.len(),
{
    if list.len() == 0 {
        0
    } else {
        texts_pages(list.drop_last()) + super::string_table::text_pages(list.last())
    }
}

/// How many pages the texts in a value take at most.
pub open spec fn value_pages(v: ValueView) -> nat
    decreases v, 0int,
{
    match v {
        ValueView::Str(s) => super::string_table::text_pages(s),
        ValueView::List(items) => items_pages(items),
        ValueView::Record(m) => fields_pages(m, crate::fields::sorted_keys(m), false),
        _ => 0,
    }
}

/// How many pages the texts in values take at most.
pub open spec fn items_pages(items: Seq<ValueView>) -> nat
    decreases items, 0int,
{
    if items.len() == 0 {
        0
    } else {
        items_pages(items.drop_last()) + value_pages(items[items.len() - 1])
    }
}

/// How many pages the texts in fields take at most. Nulls may be left out.
pub open spec fn fields_pages(
    m: Map<Seq<char>, ValueView>,
    keys: Seq<Seq<char>>,
    skip_null: bool,
) -> nat
    decreases m, keys.len(),
{
    if keys.len() == 0 {
        0
    } else {
        fields_pages(m, keys.drop_last(), skip_null) + if m.dom().finite() && m.contains_key(
            keys.last(),
        ) && !(skip_null && m[keys.last()] is Null) {
            super::string_table::text_pages(keys.last()) + value_pages(m[keys.last()])
        } else {
            0
        }
    }
}

/// How many pages the texts in properties take at most.
pub open spec fn props_pages(m: Map<Seq<char>, ValueView>) -> nat {
    fields_pages(m, crate::fields::sorted_keys(m), true)
}

/// How many bytes a value takes in a record.
pub open spec fn value_size(v: ValueView) -> nat
    decreases v, 0int,
{
    match v {
        ValueView::Null => 1,
        ValueView::Bool(_) => 2,
        ValueView::Int(_) => 9,
        ValueView::Float(_) => 9,
        ValueView::Str(_) => 5,
        ValueView::List(items) => 5 + items_size(items),
        ValueView::Record(m) => 5 + fields_size(m, crate::fields::sorted_keys(m), false),
        _ => 0,
    }
}

/// How many bytes values take in a record.
pub open spec fn items_size(items: Seq<ValueView>) -> nat
    decreases items, 0int,
{
    if items.len() == 0 {
        0
    } else {
        items_size(items.drop_last()) + value_size(items[items.len() - 1])
    }
}

/// How many bytes fields take in a record. Nulls may be left out.
pub open spec fn fields_size(
    m: Map<Seq<char>, ValueView>,
    keys: Seq<Seq<char>>,
    skip_null: bool,
) -> nat
    decreases m, keys.len(),
{
    if keys.len() == 0 {
        0
    } else {
        fields_size(m, keys.drop_last(), skip_null) + if m.dom().finite() && m.contains_key(
            keys.last(),
        ) && !(skip_null && m[keys.last()] is Null) {
            4 + value_size(m[keys.last()])
        } else {
            0
        }
    }
}

/// How many bytes properties take in a record.
pub open spec fn props_size(m: Map<Seq<char>, ValueView>) -> nat {
    fields_size(m, crate::fields::sorted_keys(m), true)
}

/// Every text takes a page at least.
pub proof fn texts_pages_len(list: Seq<Seq<char>>)
    ensures
        list.len() <= texts_pages(list),
    decreases list.len(),
{
    if list.len() > 0 {
        texts_pages_len(list.drop_last());
    }
}

/// Numbers stand for as many strings.
pub proof fn ids_len(ids: Seq<u32>, strings: Seq<Seq<char>>)
    requires
        resolve_ids(ids, strings) is Some,
    ensures
        resolve_ids(ids, strings)->Some_0.len() == ids.len(),
    decreases ids.len(),
{
    if ids.len() > 0 {
        ids_len(ids.drop_last(), strings);
    }
}

proof fn texts_pages_prefix(list: Seq<Seq<char>>, i: int)
    requires
        0 <= i <= list.len(),
    ensures
        texts_pages(list.take(i)) <= texts_pages(list),
    decreases list.len(),
{
    if i < list.len() {
        assert(list.drop_last().take(i) =~= list.take(i));
        texts_pages_prefix(list.drop_last(), i);
    } else {
        assert(list.take(i) =~= list);
    }
}

proof fn items_pages_prefix(items: Seq<ValueView>, i: int)
    requires
        0 <= i <= items.len(),
    ensures
        items_pages(items.take(i)) <= items_pages(items),
    decreases items.len(),
{
    if i < items.len() {
        assert(items.drop_last().take(i) =~= items.take(i));
        items_pages_prefix(items.drop_last(), i);
    } else {
        assert(items.take(i) =~= items);
    }
}

proof fn fields_pages_prefix(
    m: Map<Seq<char>, ValueView>,
    keys: Seq<Seq<char>>,
    skip_null: bool,
    i: int,
)
    requires
        0 <= i <= keys.len(),
    ensures
        fields_pages(m, keys.take(i), skip_null) <= fields_pages(m, keys, skip_null),
    decreases keys.len(),
{
    if i < keys.len() {
        assert(keys.drop_last().take(i) =~= keys.take(i));
        fields_pages_prefix(m, keys.drop_last(), skip_null, i);
    } else {
        assert(keys.take(i) =~= keys);
    }
}

/// What interning does: pages of strings change, and strings are added.
pub open spec fn text_step(
    p0: Seq<Seq<u8>>,
    p1: Seq<Seq<u8>>,
    s0: Seq<Seq<char>>,
    s1: Seq<Seq<char>>,
) -> bool {
    &&& super::pager::grown(p0, p1, super::string_table::text_kinds())
    &&& s0.is_prefix_of(s1)
    &&& s0.no_duplicates() ==> s1.no_duplicates()
}

/// Two steps are a step.
pub proof fn text_steps(
    p0: Seq<Seq<u8>>,
    p1: Seq<Seq<u8>>,
    p2: Seq<Seq<u8>>,
    s0: Seq<Seq<char>>,
    s1: Seq<Seq<char>>,
    s2: Seq<Seq<char>>,
)
    requires
        text_step(p0, p1, s0, s1),
        text_step(p1, p2, s1, s2),
    ensures
        text_step(p0, p2, s0, s2),
{
    super::pager::grown_twice(p0, p1, p2, super::string_table::text_kinds());
    prefix_index(s0, s1);
    prefix_index(s1, s2);
    assert(s2.subrange(0, s0.len() as int) =~= s0);
}

/// Nothing done is a step.
pub proof fn text_rest(p: Seq<Seq<u8>>, s: Seq<Seq<char>>)
    ensures
        text_step(p, p, s, s),
{
    assert(s.subrange(0, s.len() as int) =~= s);
}

/// The number of a string, which is added where it is new.
pub fn intern_text(s: &str, st: &mut StringTable, pager: &mut Pager) -> (r: Result<u32, StoreError>)
    requires
        old(pager).wf(),
        old(st).stored(old(pager)@),
    ensures
        final(pager).wf(),
        final(pager).free == old(pager).free,
        final(pager).header == old(pager).header,
        match r {
            Ok(id) => {
                &&& final(st).stored(final(pager)@)
                &&& final(st).first() == old(st).first()
                &&& text_step(old(pager)@, final(pager)@, old(st)@, final(st)@)
                &&& id < final(st)@.len()
                &&& final(st)@[id as int] == s@
                &&& !super::string_table::long_text(s@)
                &&& super::string_table::numbers_used(final(st)@, final(pager)@)
                    <= super::string_table::numbers_used(old(st)@, old(pager)@)
                    + super::string_table::text_pages(s@)
            },
            Err(e) => (e == StoreError::Full && super::string_table::numbers_used(old(st)@, old(pager)@)
                + super::string_table::text_pages(s@) > u32::MAX) || (e == StoreError::TextTooLong
                && super::string_table::long_text(s@)),
        },
{
    let r = st.intern(s, pager);
    proof {
        if r is Ok {
            if old(st)@.contains(s@) {
                text_rest(old(pager)@, old(st)@);
            } else {
                assert(st@.subrange(0, old(st)@.len() as int) =~= old(st)@);
                assert(old(st)@.no_duplicates() ==> st@.no_duplicates()) by {
                    if old(st)@.no_duplicates() {
                        assert forall|i: int, j: int|
                            0 <= i < st@.len() && 0 <= j < st@.len() && i != j implies st@[i]
                            != st@[j] by {
                            if i < old(st)@.len() && j < old(st)@.len() {
                                assert(old(st)@[i] != old(st)@[j]);
                            } else if i < old(st)@.len() {
                                assert(old(st)@.contains(old(st)@[i]));
                            } else {
                                assert(old(st)@.contains(old(st)@[j]));
                            }
                        }
                    }
                }
            }
        }
    }
    r
}

/// The numbers of strings.
pub fn intern_strings(list: &Vec<String>, st: &mut StringTable, pager: &mut Pager) -> (r: Result<
    Vec<u32>,
    StoreError,
>)
    requires
        old(pager).wf(),
        old(st).stored(old(pager)@),
    ensures
        final(pager).wf(),
        final(pager).free == old(pager).free,
        final(pager).header == old(pager).header,
        match r {
            Ok(ids) => {
                &&& final(st).stored(final(pager)@)
                &&& final(st).first() == old(st).first()
                &&& text_step(old(pager)@, final(pager)@, old(st)@, final(st)@)
                &&& resolve_ids(ids@, final(st)@) == Some(crate::text::texts(list@))
                &&& ids@.len() == list@.len()
                &&& forall|i: int|
                    0 <= i < list@.len() ==> !super::string_table::long_text((#[trigger] list@[i])@)
                &&& super::string_table::numbers_used(final(st)@, final(pager)@)
                    <= super::string_table::numbers_used(old(st)@, old(pager)@) + texts_pages(
                    crate::text::texts(list@),
                )
            },
            Err(e) => (e == StoreError::Full && super::string_table::numbers_used(old(st)@, old(pager)@)
                + texts_pages(crate::text::texts(list@)) > u32::MAX) || (e
                == StoreError::TextTooLong && exists|i: int|
                0 <= i < list@.len() && super::string_table::long_text((#[trigger] list@[i])@)),
        },
{
    let ghost p0 = pager@;
    let ghost s0 = st@;
    let ghost all = crate::text::texts(list@);
    let mut out: Vec<u32> = Vec::new();
    let mut i: usize = 0;
    proof {
        text_rest(p0, s0);
        assert(all.take(0) =~= Seq::empty());
    }
    while i < list.len()
        invariant
            i <= list.len(),
            all == crate::text::texts(list@),
            pager.wf(),
            pager.free == old(pager).free,
            pager.header == old(pager).header,
            st.stored(pager@),
            st.first() == old(st).first(),
            text_step(p0, pager@, s0, st@),
            out@.len() == i,
            resolve_ids(out@, st@) == Some(all.take(i as int)),
            p0 == old(pager)@,
            s0 == old(st)@,
            super::string_table::numbers_used(st@, pager@) <= super::string_table::numbers_used(
                s0,
                p0,
            ) + texts_pages(all.take(i as int)),
            forall|j: int|
                0 <= j < i ==> !super::string_table::long_text((#[trigger] list@[j])@),
        decreases list.len() - i,
    {
        proof {
            assert(all.take(i + 1).drop_last() =~= all.take(i as int));
            assert(all.take(i + 1).last() == list@[i as int]@);
            texts_pages_prefix(all, i + 1);
        }
        let ghost p1 = pager@;
        let ghost s1 = st@;
        match intern_text(list[i].as_str(), st, pager) {
            Ok(id) => {
                let ghost before = out@;
                proof {
                    text_steps(p0, p1, pager@, s0, s1, st@);
                    ids_stay(before, s1, st@);
                }
                out.push(id);
                proof {
                    assert(out@.drop_last() =~= before);
                    assert(all[i as int] == list@[i as int]@);
                    assert(all.take(i + 1) =~= all.take(i as int).push(all[i as int]));
                }
            },
            Err(e) => {
                return Err(e);
            },
        }
        i = i + 1;
    }
    assert(all.take(i as int) =~= all);
    Ok(out)
}

/// The stored form of a value.
pub fn value_to_prop(v: &Value, st: &mut StringTable, pager: &mut Pager) -> (r: Result<
    PropValue,
    StoreError,
>)
    requires
        old(pager).wf(),
        old(st).stored(old(pager)@),
    ensures
        final(pager).wf(),
        final(pager).free == old(pager).free,
        final(pager).header == old(pager).header,
        match r {
            Ok(p) => {
                &&& final(st).stored(final(pager)@)
                &&& final(st).first() == old(st).first()
                &&& text_step(old(pager)@, final(pager)@, old(st)@, final(st)@)
                &&& resolve_value(p@, final(st)@) == Some(v@)
                &&& forall|e: StoreError| !#[trigger] blocks(v@, e)
                &&& super::record::value_bytes(p@).len() == value_size(v@)
                &&& super::string_table::numbers_used(final(st)@, final(pager)@)
                    <= super::string_table::numbers_used(old(st)@, old(pager)@) + value_pages(v@)
            },
            Err(e) => (e == StoreError::Full && super::string_table::numbers_used(old(st)@, old(pager)@)
                + value_pages(v@) > u32::MAX) || blocks(v@, e),
        },
    decreases v,
{
    let ghost p0 = pager@;
    let ghost s0 = st@;
    proof {
        text_rest(p0, s0);
        super::bytes::number_lengths();
    }
    match v {
        Value::Null => Ok(PropValue::Null),
        Value::Int(n) => Ok(PropValue::Int(*n)),
        Value::Float(bits) => Ok(PropValue::Float(*bits)),
        Value::Bool(b) => Ok(PropValue::Bool(*b)),
        Value::Str(s) => match intern_text(s.as_str(), st, pager) {
            Ok(id) => Ok(PropValue::Str(id)),
            Err(e) => Err(e),
        },
        Value::List(items) => {
            let ghost all = v@->List_0;
            let mut out: Vec<PropValue> = Vec::new();
            let mut i: usize = 0;
            assert(super::record::item_views(out@) =~= Seq::empty());
            assert(all.take(0) =~= Seq::empty());
            while i < items.len()
                invariant
                    i <= items.len(),
                    *v == Value::List(*items),
                    all == v@->List_0,
                    all.len() == items.len(),
                    pager.wf(),
                    pager.free == old(pager).free,
                    pager.header == old(pager).header,
                    st.stored(pager@),
                    st.first() == old(st).first(),
                    text_step(p0, pager@, s0, st@),
                    p0 == old(pager)@,
                    s0 == old(st)@,
                    resolve_items(super::record::item_views(out@), st@) == Some(
                        all.take(i as int),
                    ),
                    super::record::item_bytes(super::record::item_views(out@)).len()
                        == items_size(all.take(i as int)),
                    super::string_table::numbers_used(st@, pager@)
                        <= super::string_table::numbers_used(s0, p0) + items_pages(
                        all.take(i as int),
                    ),
                    forall|j: int, e: StoreError|
                        0 <= j < i ==> !#[trigger] blocks(all[j], e),
                decreases items.len() - i,
            {
                proof {
                    assert(all.take(i + 1).drop_last() =~= all.take(i as int));
                    assert(all.take(i + 1)[i as int] == all[i as int]);
                    items_pages_prefix(all, i + 1);
                }
                assert(decreases_to!(v => v->List_0));
                let ghost p1 = pager@;
                let ghost s1 = st@;
                let ghost before = super::record::item_views(out@);
                assert(all[i as int] == items@[i as int]@);
                match value_to_prop(&items[i], st, pager) {
                    Ok(p) => {
                        out.push(p);
                        proof {
                            text_steps(p0, p1, pager@, s0, s1, st@);
                            items_stay(before, s1, st@);
                            let now = super::record::item_views(out@);
                            assert(now =~= before.push(p@));
                            super::record::item_bytes_push(before, p@);
                            assert(now.drop_last() =~= before);
                            assert(now[now.len() - 1] == p@);
                            assert(all.take(i + 1) =~= all.take(i as int).push(all[i as int]));
                        }
                    },
                    Err(e) => {
                        proof {
                            if blocks(all[i as int], e) {
                                assert(blocks(v@, e));
                            }
                        }
                        return Err(e);
                    },
                }
                i = i + 1;
            }
            assert(all.take(i as int) =~= all);
            let r = PropValue::List(out);
            assert(r@->List_0 =~= super::record::item_views(out@));
            proof {
                super::bytes::number_lengths();
                assert forall|e: StoreError| !#[trigger] blocks(v@, e) by {
                    if blocks(v@, e) {
                        let j = choose|j: int|
                            0 <= j < all.len() && blocks(#[trigger] all[j], e);
                        assert(!blocks(all[j], e));
                    }
                }
            }
            Ok(r)
        },
        Value::Record(fields) => {
            let ghost m = v@->Record_0;
            proof {
                assert(decreases_to!(v => v->Record_0));
                assert(m =~= crate::model::value::props_view(*fields));
            }
            match encode_fields(fields, false, st, pager) {
                Ok(out) => {
                    let r = PropValue::Record(out);
                    assert(r@->Record_0 =~= super::record::field_views(out@));
                    assert(kept_props(m, false) =~= m);
                    proof {
                        super::bytes::number_lengths();
                        assert forall|e: StoreError| !#[trigger] blocks(v@, e) by {
                            record_blocks(m, e);
                            assert(!fields_block(m, false, e));
                        }
                    }
                    Ok(r)
                },
                Err(e) => {
                    proof {
                        record_blocks(m, e);
                    }
                    Err(e)
                },
            }
        },
        Value::Node(_) => Err(StoreError::ReferenceValue),
        Value::Edge(_) => Err(StoreError::ReferenceValue),
        Value::Path(_) => Err(StoreError::ReferenceValue),
    }
}

proof fn record_blocks(m: Map<Seq<char>, ValueView>, e: StoreError)
    ensures
        blocks(ValueView::Record(m), e) == fields_block(m, false, e),
{
    reveal_with_fuel(blocks, 2);
    let v = ValueView::Record(m);
    assert(v->Record_0 == m);
    if fields_block(m, false, e) {
        let k = choose|k: Seq<char>| #[trigger]
            m.contains_key(k) && !(false && m[k] is Null) && (blocks(m[k], e) || (e
                == StoreError::TextTooLong && super::string_table::long_text(k)));
        assert(m.contains_key(k) && (blocks(m[k], e) || (e == StoreError::TextTooLong
            && super::string_table::long_text(k))));
        assert(blocks(v, e));
    }
    if blocks(v, e) {
        let k = choose|k: Seq<char>| #[trigger]
            m.contains_key(k) && (blocks(m[k], e) || (e == StoreError::TextTooLong
                && super::string_table::long_text(k)));
        assert(m.contains_key(k));
        assert(fields_block(m, false, e));
    }
}

/// The fields that are stored: all of them, or all but nulls.
pub open spec fn kept_props(m: Map<Seq<char>, ValueView>, skip_null: bool) -> Map<
    Seq<char>,
    ValueView,
> {
    Map::new(
        |k: Seq<char>| m.contains_key(k) && !(skip_null && m[k] is Null),
        |k: Seq<char>| m[k],
    )
}

/// The fields among the first keys.
spec fn kept_among(m: Map<Seq<char>, ValueView>, skip_null: bool, keys: Set<Seq<char>>) -> Map<
    Seq<char>,
    ValueView,
> {
    Map::new(
        |k: Seq<char>| keys.contains(k) && m.contains_key(k) && !(skip_null && m[k] is Null),
        |k: Seq<char>| m[k],
    )
}

/// Whether a value is null.
fn is_null(v: &Value) -> (r: bool)
    ensures
        r == (v@ is Null),
{
    match v {
        Value::Null => true,
        _ => false,
    }
}

/// The stored form of fields in ascending order of names. A null among
/// properties is stored by leaving it out.
fn encode_fields(fields: &FieldMap<Value>, skip_null: bool, st: &mut StringTable, pager: &mut Pager) -> (r:
    Result<Vec<(u32, PropValue)>, StoreError>)
    requires
        old(pager).wf(),
        old(st).stored(old(pager)@),
    ensures
        final(pager).wf(),
        final(pager).free == old(pager).free,
        final(pager).header == old(pager).header,
        match r {
            Ok(out) => {
                &&& final(st).stored(final(pager)@)
                &&& final(st).first() == old(st).first()
                &&& text_step(old(pager)@, final(pager)@, old(st)@, final(st)@)
                &&& resolve_fields(super::record::field_views(out@), final(st)@) == Some(
                    kept_props(crate::model::value::props_view(*fields), skip_null),
                )
                &&& forall|e: StoreError|
                    !#[trigger] fields_block(
                        crate::model::value::props_view(*fields),
                        skip_null,
                        e,
                    )
                &&& super::record::field_bytes(super::record::field_views(out@)).len()
                    == fields_size(
                    crate::model::value::props_view(*fields),
                    crate::fields::sorted_keys(crate::model::value::props_view(*fields)),
                    skip_null,
                )
                &&& super::string_table::numbers_used(final(st)@, final(pager)@)
                    <= super::string_table::numbers_used(old(st)@, old(pager)@) + fields_pages(
                    crate::model::value::props_view(*fields),
                    crate::fields::sorted_keys(crate::model::value::props_view(*fields)),
                    skip_null,
                )
            },
            Err(e) => (e == StoreError::Full && super::string_table::numbers_used(old(st)@, old(pager)@)
                + fields_pages(
                crate::model::value::props_view(*fields),
                crate::fields::sorted_keys(crate::model::value::props_view(*fields)),
                skip_null,
            ) > u32::MAX) || fields_block(
                crate::model::value::props_view(*fields),
                skip_null,
                e,
            ),
        },
    decreases fields,
{
    let ghost p0 = pager@;
    let ghost s0 = st@;
    let ghost m = crate::model::value::props_view(*fields);
    proof {
        text_rest(p0, s0);
    }
    let n = fields.len();
    let ghost keys = fields.keys();
    let mut out: Vec<(u32, PropValue)> = Vec::new();
    let mut i: usize = 0;
    proof {
        assert(m.dom() =~= fields@.dom());
        crate::fields::sorted_keys_of_dom(m, fields@);
        assert(keys.take(0).to_set() =~= Set::<Seq<char>>::empty());
        assert(super::record::field_views(out@) =~= Seq::empty());
        assert(kept_among(m, skip_null, keys.take(0).to_set()) =~= Map::empty());
    }
    while i < n
        invariant
            i <= n,
            n == keys.len(),
            keys == fields.keys(),
            keys.no_duplicates(),
            keys.to_set() == fields@.dom(),
            m == crate::model::value::props_view(*fields),
            pager.wf(),
            pager.free == old(pager).free,
            pager.header == old(pager).header,
            st.stored(pager@),
            st.first() == old(st).first(),
            text_step(p0, pager@, s0, st@),
            p0 == old(pager)@,
            s0 == old(st)@,
            resolve_fields(super::record::field_views(out@), st@) == Some(
                kept_among(m, skip_null, keys.take(i as int).to_set()),
            ),
            keys == crate::fields::sorted_keys(m),
            m.dom().finite(),
            super::record::field_bytes(super::record::field_views(out@)).len() == fields_size(
                m,
                keys.take(i as int),
                skip_null,
            ),
            super::string_table::numbers_used(st@, pager@) <= super::string_table::numbers_used(
                s0,
                p0,
            ) + fields_pages(m, keys.take(i as int), skip_null),
            forall|j: int, e: StoreError|
                0 <= j < i && !(skip_null && m[keys[j]] is Null)
                    ==> !#[trigger] blocks(m[keys[j]], e),
            forall|j: int|
                0 <= j < i && !(skip_null && m[keys[j]] is Null)
                    ==> !super::string_table::long_text(#[trigger] keys[j]),
        decreases n - i,
    {
        proof {
            super::bytes::number_lengths();
            assert(keys.take(i + 1).drop_last() =~= keys.take(i as int));
            assert(keys.take(i + 1).last() == keys[i as int]);
            fields_pages_prefix(m, keys, skip_null, i + 1);
            fields.values_decrease();
            crate::fields::prefix_set_step(keys, i as int);
        }
        let ghost key = keys[i as int];
        let ghost sofar = kept_among(m, skip_null, keys.take(i as int).to_set());
        let ghost next = kept_among(m, skip_null, keys.take(i + 1).to_set());
        let v = fields.value_at(i);
        assert(m.contains_key(key) && m[key] == v@);
        if skip_null && is_null(v) {
            assert(next =~= sofar);
        } else {
            let ghost p1 = pager@;
            let ghost s1 = st@;
            let name = match intern_text(fields.key_at(i).as_str(), st, pager) {
                Ok(id) => id,
                Err(e) => {
                    return Err(e);
                },
            };
            let ghost p2 = pager@;
            let ghost s2 = st@;
            match value_to_prop(v, st, pager) {
                Ok(p) => {
                    let ghost before = super::record::field_views(out@);
                    proof {
                        text_steps(p0, p1, p2, s0, s1, s2);
                        text_steps(p1, p2, pager@, s1, s2, st@);
                        text_steps(p0, p2, pager@, s0, s2, st@);
                        fields_stay(before, s1, st@);
                        prefix_index(s2, st@);
                        assert(s2[name as int] == st@[name as int]);
                    }
                    out.push((name, p));
                    proof {
                        let now = super::record::field_views(out@);
                        assert(now =~= before.push((name, p@)));
                        super::record::field_bytes_push(before, (name, p@));
                        assert(now.drop_last() =~= before);
                        assert(now[now.len() - 1] == (name, p@));
                        assert(next =~= sofar.insert(key, v@));
                    }
                },
                Err(e) => {
                    return Err(e);
                },
            }
        }
        i = i + 1;
    }
    proof {
        assert(keys.take(n as int) =~= keys);
        assert(kept_among(m, skip_null, keys.to_set()) =~= kept_props(m, skip_null));
        assert forall|e: StoreError| !#[trigger] fields_block(m, skip_null, e) by {
            if fields_block(m, skip_null, e) {
                let k = choose|k: Seq<char>| #[trigger]
                    m.contains_key(k) && !(skip_null && m[k] is Null) && (blocks(m[k], e) || (e
                        == StoreError::TextTooLong && super::string_table::long_text(k)));
                assert(keys.to_set().contains(k));
                let j = choose|j: int| 0 <= j < keys.len() && keys[j] == k;
                assert(!blocks(m[keys[j]], e));
                assert(!super::string_table::long_text(keys[j]));
            }
        }
    }
    Ok(out)
}

/// The stored form of properties.
pub fn encode_props(props: &Props, st: &mut StringTable, pager: &mut Pager) -> (r: Result<
    Vec<(u32, PropValue)>,
    StoreError,
>)
    requires
        old(pager).wf(),
        old(st).stored(old(pager)@),
    ensures
        final(pager).wf(),
        final(pager).free == old(pager).free,
        final(pager).header == old(pager).header,
        match r {
            Ok(out) => {
                &&& final(st).stored(final(pager)@)
                &&& final(st).first() == old(st).first()
                &&& text_step(old(pager)@, final(pager)@, old(st)@, final(st)@)
                &&& resolve_fields(super::record::field_views(out@), final(st)@) == Some(
                    kept_props(crate::model::value::props_view(*props), true),
                )
                &&& forall|e: StoreError|
                    !#[trigger] props_block(crate::model::value::props_view(*props), e)
                &&& super::record::field_bytes(super::record::field_views(out@)).len()
                    == props_size(crate::model::value::props_view(*props))
                &&& super::string_table::numbers_used(final(st)@, final(pager)@)
                    <= super::string_table::numbers_used(old(st)@, old(pager)@) + props_pages(
                    crate::model::value::props_view(*props),
                )
            },
            Err(e) => (e == StoreError::Full && super::string_table::numbers_used(old(st)@, old(pager)@)
                + props_pages(crate::model::value::props_view(*props)) > u32::MAX)
                || props_block(crate::model::value::props_view(*props), e),
        },
{
    let r = encode_fields(props, true, st, pager);
    proof {
        assert forall|e: StoreError| r is Ok implies !#[trigger] props_block(
            crate::model::value::props_view(*props),
            e,
        ) by {
            assert(!fields_block(crate::model::value::props_view(*props), true, e));
        }
    }
    r
}

} // verus!
