//! What it means that two values are equal.

use vstd::prelude::*;

use super::value::ValueView;
use crate::typing::simple_type::SimpleTypeView;

verus! {

/// Floating-point numbers are equal exactly where neither is not-a-number and
/// their bits stand for one number.
pub proof fn floats_are_equal_as_numbers(a: u64, b: u64)
    ensures
        super::value::float_equal(a, b) <==> !super::value::is_nan(a) && !super::value::is_nan(b)
            && crate::store::float_bits::float_number(a) == crate::store::float_bits::float_number(b),
{
    let sign = 0x8000_0000_0000_0000int;
    let la = a as int % sign;
    let lb = b as int % sign;
    assert(la == if a < sign {
        a as int
    } else {
        a - sign
    });
    assert(lb == if b < sign {
        b as int
    } else {
        b - sign
    });
    crate::store::float_bits::magnitude_order(la, lb);
    crate::store::float_bits::magnitude_order(lb, la);
    crate::store::float_bits::magnitude_order(0, la);
    crate::store::float_bits::magnitude_order(0, lb);
    assert(crate::store::float_bits::magnitude(0) == 0);
}

/// Equality goes both ways.
pub proof fn equality_is_symmetric(v: ValueView, w: ValueView)
    requires
        v.equals(w),
    ensures
        w.equals(v),
    decreases v,
{
    match (v, w) {
        (ValueView::List(a), ValueView::List(b)) => {
            assert forall|i: int| 0 <= i < b.len() implies (#[trigger] b[i]).equals(a[i]) by {
                assert(a[i].equals(b[i]));
                equality_is_symmetric(a[i], b[i]);
            }
        },
        (ValueView::Record(a), ValueView::Record(b)) => {
            assert forall|k: Seq<char>| #[trigger] b.contains_key(k) implies b[k].equals(a[k]) by {
                assert(a.dom().contains(k));
                assert(a.contains_key(k));
                equality_is_symmetric(a[k], b[k]);
            }
        },
        _ => {},
    }
}

/// What equals a third value equals what that equals.
pub proof fn equality_is_transitive(u: ValueView, v: ValueView, w: ValueView)
    requires
        u.equals(v),
        v.equals(w),
    ensures
        u.equals(w),
    decreases u,
{
    match (u, v, w) {
        (ValueView::List(a), ValueView::List(b), ValueView::List(c)) => {
            assert forall|i: int| 0 <= i < a.len() implies (#[trigger] a[i]).equals(c[i]) by {
                assert(a[i].equals(b[i]));
                assert(b[i].equals(c[i]));
                equality_is_transitive(a[i], b[i], c[i]);
            }
        },
        (ValueView::Record(a), ValueView::Record(b), ValueView::Record(c)) => {
            assert forall|k: Seq<char>| #[trigger] a.contains_key(k) implies a[k].equals(c[k]) by {
                assert(b.dom().contains(k));
                assert(b.contains_key(k));
                equality_is_transitive(a[k], b[k], c[k]);
            }
        },
        (ValueView::Float(a), ValueView::Float(b), ValueView::Float(c)) => {
            floats_are_equal_as_numbers(a, b);
            floats_are_equal_as_numbers(b, c);
            floats_are_equal_as_numbers(a, c);
        },
        _ => {},
    }
}

/// Nothing in the value is not-a-number.
pub open spec fn without_nan(v: ValueView) -> bool
    decreases v,
{
    match v {
        ValueView::Float(bits) => !super::value::is_nan(bits),
        ValueView::List(items) => forall|i: int|
            0 <= i < items.len() ==> without_nan(#[trigger] items[i]),
        ValueView::Record(m) => m.dom().finite() && forall|k: Seq<char>| #[trigger]
            m.contains_key(k) ==> without_nan(m[k]),
        _ => true,
    }
}

/// A value equals itself where nothing in it is not-a-number, and whatever equals
/// a scalar other than a floating-point number, a null or a reference is the same.
pub proof fn values_equal_themselves(v: ValueView, w: ValueView)
    requires
        without_nan(v),
    ensures
        v.equals(v),
        !(v is Float) && !(v is List) && !(v is Record) ==> (v.equals(w) <==> v == w),
    decreases v,
{
    match v {
        ValueView::List(items) => {
            assert forall|i: int| 0 <= i < items.len() implies (#[trigger] items[i]).equals(
                items[i],
            ) by {
                values_equal_themselves(items[i], w);
            }
        },
        ValueView::Record(m) => {
            assert forall|k: Seq<char>| #[trigger] m.contains_key(k) implies m[k].equals(m[k]) by {
                values_equal_themselves(m[k], w);
            }
        },
        _ => {},
    }
}

/// Equal values are of the same types.
pub proof fn equal_values_are_of_the_same_types(v: ValueView, w: ValueView, t: SimpleTypeView)
    requires
        v.equals(w),
    ensures
        crate::syntax::expr::conforms(v, t) <==> crate::syntax::expr::conforms(w, t),
    decreases t,
{
    match t {
        SimpleTypeView::Union(a, b) => {
            equal_values_are_of_the_same_types(v, w, *a);
            equal_values_are_of_the_same_types(v, w, *b);
        },
        SimpleTypeView::List(elem) => {
            if v is List && w is List {
                let (a, b) = (v->List_0, w->List_0);
                assert forall|i: int| 0 <= i < a.len() implies (crate::syntax::expr::conforms(
                    #[trigger] a[i],
                    *elem,
                ) <==> crate::syntax::expr::conforms(b[i], *elem)) by {
                    equal_values_are_of_the_same_types(a[i], b[i], *elem);
                }
                if crate::syntax::expr::conforms(v, t) {
                    assert forall|i: int| 0 <= i < b.len() implies crate::syntax::expr::conforms(
                        #[trigger] b[i],
                        *elem,
                    ) by {
                        assert(crate::syntax::expr::conforms(a[i], *elem));
                    }
                }
            }
        },
        SimpleTypeView::Record(fields) => {
            if v is Record && w is Record {
                let (a, b) = (v->Record_0, w->Record_0);
                if a.dom() == fields.dom() {
                    assert forall|k: Seq<char>| #[trigger] fields.contains_key(k) implies (
                    crate::syntax::expr::conforms(a[k], fields[k])
                        <==> crate::syntax::expr::conforms(b[k], fields[k])) by {
                        assert(a.dom().contains(k));
                        assert(a.contains_key(k));
                        equal_values_are_of_the_same_types(a[k], b[k], fields[k]);
                    }
                }
            }
        },
        _ => {},
    }
}

} // verus!
