//! The keys of an index on a property, and their order.

use vstd::prelude::*;

use super::float_bits::{exact_integer, int_below, NAN, SIGN};
use crate::model::value::{Value, ValueView};
use crate::text::{copy_text, same_text, text_less};

verus! {

/// A value that an index can file. Numbers are one domain: a floating-point
/// number that is an integer is filed as that integer, so 3 and 3.0 have one
/// key. Any other is filed by an image of its bits that keeps the order.
#[derive(Debug)]
pub enum IndexKey {
    Int(i64),
    Float(u64),
    Str(String),
    Bool(bool),
}

/// The value of a key.
pub enum KeyView {
    Int(i64),
    Float(u64),
    Str(Seq<char>),
    Bool(bool),
}

/// The image of bits: the order of images is the order of numbers.
pub open spec fn encode(bits: u64) -> u64 {
    if bits < SIGN {
        (bits + SIGN) as u64
    } else {
        (u64::MAX - bits) as u64
    }
}

/// The bits of an image.
pub open spec fn decode(image: u64) -> u64 {
    if image >= SIGN {
        (image - SIGN) as u64
    } else {
        (u64::MAX - image) as u64
    }
}

/// Bits with one pattern for all that are not a number.
pub open spec fn normal(bits: u64) -> u64 {
    if crate::model::value::is_nan(bits) {
        NAN
    } else {
        bits
    }
}

/// The number is an integer that `i64` holds.
pub open spec fn is_integer(bits: u64) -> bool {
    exists|n: i64|
        super::float_bits::float_number(bits) == #[trigger] super::float_bits::int_number(n as int)
}

/// That integer.
pub open spec fn integer_of(bits: u64) -> i64 {
    choose|n: i64|
        super::float_bits::float_number(bits) == #[trigger] super::float_bits::int_number(n as int)
}

/// The key of a floating-point number.
pub open spec fn float_key(bits: u64) -> KeyView {
    if is_integer(normal(bits)) {
        KeyView::Int(integer_of(normal(bits)))
    } else {
        KeyView::Float(encode(normal(bits)))
    }
}

/// The key of a value. Lists, records, references and nulls have none.
pub open spec fn key_of(v: ValueView) -> Option<KeyView> {
    match v {
        ValueView::Int(n) => Some(KeyView::Int(n)),
        ValueView::Float(bits) => Some(float_key(bits)),
        ValueView::Str(s) => Some(KeyView::Str(s)),
        ValueView::Bool(b) => Some(KeyView::Bool(b)),
        _ => None,
    }
}

impl KeyView {
    /// A number is filed in its one way.
    pub open spec fn ok(self) -> bool {
        match self {
            KeyView::Float(image) => decode(image) == normal(decode(image)) && !is_integer(
                decode(image),
            ),
            _ => true,
        }
    }

    /// Where the kinds of keys stand: numbers, strings, truth values.
    pub open spec fn rank(self) -> int {
        match self {
            KeyView::Int(_) => 0,
            KeyView::Float(_) => 0,
            KeyView::Str(_) => 1,
            KeyView::Bool(_) => 2,
        }
    }

    /// The number of a key.
    pub open spec fn number(self) -> int {
        match self {
            KeyView::Int(n) => super::float_bits::int_number(n as int),
            KeyView::Float(image) => super::float_bits::float_number(decode(image)),
            _ => 0,
        }
    }

    /// The order of keys.
    pub open spec fn lt(self, other: KeyView) -> bool {
        match (self, other) {
            (KeyView::Str(a), KeyView::Str(b)) => crate::text::text_lt(a, b),
            (KeyView::Bool(a), KeyView::Bool(b)) => !a && b,
            _ => if self.rank() == other.rank() {
                self.number() < other.number()
            } else {
                self.rank() < other.rank()
            },
        }
    }
}

proof fn int_number_injective(a: int, b: int)
    requires
        super::float_bits::int_number(a) == super::float_bits::int_number(b),
    ensures
        a == b,
{
    vstd::arithmetic::power2::lemma_pow2_pos(1074);
    let o = super::float_bits::one() as int;
    assert(a == b) by (nonlinear_arith)
        requires
            a * o == b * o,
            o > 0,
    ;
}

proof fn int_number_order(a: int, b: int)
    ensures
        a < b <==> super::float_bits::int_number(a) < super::float_bits::int_number(b),
{
    vstd::arithmetic::power2::lemma_pow2_pos(1074);
    let o = super::float_bits::one() as int;
    assert(a < b <==> a * o < b * o) by (nonlinear_arith)
        requires
            o > 0,
    ;
}

proof fn image_order(a: u64, b: u64)
    requires
        !is_integer(decode(a)),
        !is_integer(decode(b)),
    ensures
        a < b <==> super::float_bits::float_number(decode(a)) < super::float_bits::float_number(
            decode(b),
        ),
{
    let (x, y) = (decode(a), decode(b));
    not_zero(x);
    not_zero(y);
    if x < SIGN && y < SIGN {
        super::float_bits::magnitude_order(x as int, y as int);
    } else if x >= SIGN && y >= SIGN {
        super::float_bits::magnitude_order(x - SIGN, y - SIGN);
        super::float_bits::magnitude_order(y - SIGN, x - SIGN);
    }
}

proof fn not_zero(bits: u64)
    requires
        !is_integer(bits),
    ensures
        bits < SIGN ==> super::float_bits::float_number(bits) > 0,
        bits >= SIGN ==> super::float_bits::float_number(bits) < 0,
{
    let size = if bits < SIGN {
        bits as int
    } else {
        bits - SIGN
    };
    if super::float_bits::magnitude(size) == 0 {
        assert(super::float_bits::float_number(bits) == super::float_bits::int_number(0i64 as int));
        assert(is_integer(bits));
    }
}

/// The order of keys is strict and total, so keys that no order parts are one.
pub proof fn key_order_total(a: KeyView, b: KeyView, c: KeyView)
    requires
        a.ok(),
        b.ok(),
        c.ok(),
    ensures
        !a.lt(a),
        a.lt(b) && b.lt(c) ==> a.lt(c),
        a.lt(b) || b.lt(a) || a == b,
        a.lt(b) ==> !b.lt(a),
{
    if a.rank() == b.rank() && a != b {
        match (a, b) {
            (KeyView::Int(x), KeyView::Int(y)) => {
                int_number_order(x as int, y as int);
                int_number_order(y as int, x as int);
            },
            (KeyView::Float(x), KeyView::Float(y)) => {
                image_order(x, y);
                image_order(y, x);
            },
            (KeyView::Int(x), KeyView::Float(y)) => {
                if a.number() == b.number() {
                    assert(super::float_bits::float_number(decode(y))
                        == super::float_bits::int_number(x as int));
                }
            },
            (KeyView::Float(x), KeyView::Int(y)) => {
                if a.number() == b.number() {
                    assert(super::float_bits::float_number(decode(x))
                        == super::float_bits::int_number(y as int));
                }
            },
            (KeyView::Str(x), KeyView::Str(y)) => {
                crate::text::text_lt_total(x, y);
            },
            _ => {},
        }
    }
    match (a, b, c) {
        (KeyView::Str(x), KeyView::Str(y), KeyView::Str(z)) => {
            if crate::text::text_lt(x, y) && crate::text::text_lt(y, z) {
                crate::text::text_lt_transitive(x, y, z);
            }
        },
        _ => {},
    }
    match a {
        KeyView::Str(x) => {
            crate::text::text_lt_irreflexive(x);
            match b {
                KeyView::Str(y) => {
                    if crate::text::text_lt(x, y) && crate::text::text_lt(y, x) {
                        crate::text::text_lt_transitive(x, y, x);
                    }
                },
                _ => {},
            }
        },
        _ => {},
    }
}

/// Keys of values are ordered as the values are: integers by size, truth values
/// with false first, texts by their first difference. Numbers come before texts,
/// and texts before truth values.
pub proof fn keys_order_as_values(x: i64, y: i64, p: bool, q: bool, s: Seq<char>, c: char, d: char, t: Seq<char>, u: Seq<char>)
    ensures
        key_of(ValueView::Int(x))->Some_0.lt(key_of(ValueView::Int(y))->Some_0) <==> x < y,
        key_of(ValueView::Bool(p))->Some_0.lt(key_of(ValueView::Bool(q))->Some_0) <==> (p == false
            && q == true),
        key_of(ValueView::Str(s))->Some_0.lt(key_of(ValueView::Str(s.push(c) + t))->Some_0),
        !key_of(ValueView::Str(s.push(c) + t))->Some_0.lt(key_of(ValueView::Str(s))->Some_0),
        (c as int) < (d as int) ==> key_of(ValueView::Str(s.push(c) + t))->Some_0.lt(
            key_of(ValueView::Str(s.push(d) + u))->Some_0,
        ),
        key_of(ValueView::Int(x))->Some_0.lt(key_of(ValueView::Str(s))->Some_0),
        key_of(ValueView::Str(s))->Some_0.lt(key_of(ValueView::Bool(p))->Some_0),
        key_of(ValueView::Int(x))->Some_0.lt(key_of(ValueView::Bool(p))->Some_0),
{
    int_number_order(x as int, y as int);
    crate::text::text_lt_extends(s, c, t);
    crate::text::text_lt_first_difference(s, c, d, t, u);
    let longer = s.push(c) + t;
    if crate::text::text_lt(longer, s) {
        crate::text::text_lt_transitive(s, longer, s);
        crate::text::text_lt_irreflexive(s);
    }
}

/// Two values of one kind other than floating-point numbers have one key exactly
/// where they are equal, and values without a key are those that are neither a
/// number, a text nor a truth value.
pub proof fn keys_tell_values_apart(v: ValueView, w: ValueView)
    ensures
        key_of(v) is Some <==> v is Int || v is Float || v is Str || v is Bool,
        key_of(v) is Some && !(v is Float) && !(w is Float) && key_of(v) == key_of(w) ==> v == w,
{
}

/// The key of a value is filed in its one way.
pub proof fn keys_are_filed_one_way(v: ValueView)
    ensures
        key_of(v) is Some ==> key_of(v)->Some_0.ok(),
{
    match v {
        ValueView::Float(bits) => {
            let b = normal(bits);
            assert(decode(encode(b)) == b);
            assert(normal(b) == b);
        },
        _ => {},
    }
}

/// Keys of floating-point numbers are ordered by the numbers that their bits
/// stand for, among each other and with integers.
pub proof fn number_keys_order(a: u64, b: u64, n: i64)
    ensures
        key_of(ValueView::Float(a))->Some_0.lt(key_of(ValueView::Float(b))->Some_0)
            <==> super::float_bits::float_number(normal(a)) < super::float_bits::float_number(
            normal(b),
        ),
        key_of(ValueView::Int(n))->Some_0.lt(key_of(ValueView::Float(a))->Some_0)
            <==> super::float_bits::int_number(n as int) < super::float_bits::float_number(
            normal(a),
        ),
        key_of(ValueView::Float(a))->Some_0.lt(key_of(ValueView::Int(n))->Some_0)
            <==> super::float_bits::float_number(normal(a)) < super::float_bits::int_number(
            n as int,
        ),
{
    float_key_number(a);
    float_key_number(b);
}

proof fn float_key_number(bits: u64)
    ensures
        float_key(bits).number() == super::float_bits::float_number(normal(bits)),
        float_key(bits).rank() == 0,
{
    let b = normal(bits);
    if is_integer(b) {
        let n = integer_of(b);
        assert(super::float_bits::float_number(b) == super::float_bits::int_number(n as int));
    } else {
        assert(decode(encode(b)) == b);
    }
}

/// Values that compare equal as numbers have one key: an integer and the
/// floating-point number of the same size.
pub proof fn numbers_share_keys(n: i64, bits: u64)
    requires
        super::float_bits::float_number(normal(bits)) == super::float_bits::int_number(n as int),
    ensures
        key_of(ValueView::Float(bits)) == key_of(ValueView::Int(n)),
{
    let b = normal(bits);
    assert(is_integer(b));
    int_number_injective(integer_of(b) as int, n as int);
}

impl IndexKey {
    /// The value.
    pub open spec fn view(&self) -> KeyView {
        match self {
            IndexKey::Int(n) => KeyView::Int(*n),
            IndexKey::Float(image) => KeyView::Float(*image),
            IndexKey::Str(s) => KeyView::Str(s@),
            IndexKey::Bool(b) => KeyView::Bool(*b),
        }
    }

    /// The key of a value.
    pub fn from_value(v: &Value) -> (r: Option<Self>)
        ensures
            match r {
                Some(k) => key_of(v@) == Some(k@) && k@.ok(),
                None => key_of(v@) is None,
            },
    {
        match v {
            Value::Int(n) => Some(IndexKey::Int(*n)),
            Value::Float(bits) => Some(IndexKey::from_float(*bits)),
            Value::Str(s) => Some(IndexKey::Str(copy_text(s.as_str()))),
            Value::Bool(b) => Some(IndexKey::Bool(*b)),
            _ => None,
        }
    }

    /// The key of a floating-point number.
    fn from_float(bits: u64) -> (r: Self)
        ensures
            r@ == float_key(bits),
            r@.ok(),
    {
        let b: u64 = if bits % 0x8000_0000_0000_0000 > 0x7ff0_0000_0000_0000 {
            NAN
        } else {
            bits
        };
        match exact_integer(b) {
            Some(n) => {
                proof {
                    assert(is_integer(b));
                    int_number_injective(integer_of(b) as int, n as int);
                }
                IndexKey::Int(n)
            },
            None => {
                let image: u64 = if b < SIGN {
                    b + SIGN
                } else {
                    u64::MAX - b
                };
                assert(decode(image) == b);
                IndexKey::Float(image)
            },
        }
    }

    /// Whether a key comes before another.
    pub fn less(&self, other: &IndexKey) -> (r: bool)
        requires
            self@.ok(),
            other@.ok(),
        ensures
            r == self@.lt(other@),
    {
        match (self, other) {
            (IndexKey::Int(a), IndexKey::Int(b)) => {
                proof {
                    int_number_order(*a as int, *b as int);
                }
                *a < *b
            },
            (IndexKey::Float(a), IndexKey::Float(b)) => {
                proof {
                    image_order(*a, *b);
                }
                *a < *b
            },
            (IndexKey::Int(a), IndexKey::Float(b)) => int_below(*a, bits_of(*b)),
            (IndexKey::Float(a), IndexKey::Int(b)) => {
                proof {
                    if self@.number() == other@.number() {
                        assert(super::float_bits::float_number(decode(*a))
                            == super::float_bits::int_number(*b as int));
                    }
                }
                !int_below(*b, bits_of(*a))
            },
            (IndexKey::Str(a), IndexKey::Str(b)) => text_less(a.as_str(), b.as_str()),
            (IndexKey::Bool(a), IndexKey::Bool(b)) => !*a && *b,
            _ => self.place() < other.place(),
        }
    }

    fn place(&self) -> (r: u8)
        ensures
            r == self@.rank(),
    {
        match self {
            IndexKey::Int(_) => 0,
            IndexKey::Float(_) => 0,
            IndexKey::Str(_) => 1,
            IndexKey::Bool(_) => 2,
        }
    }

    /// Whether two keys are the same.
    pub fn same(&self, other: &IndexKey) -> (r: bool)
        ensures
            r == (self@ == other@),
    {
        match (self, other) {
            (IndexKey::Int(a), IndexKey::Int(b)) => *a == *b,
            (IndexKey::Float(a), IndexKey::Float(b)) => *a == *b,
            (IndexKey::Str(a), IndexKey::Str(b)) => same_text(a.as_str(), b.as_str()),
            (IndexKey::Bool(a), IndexKey::Bool(b)) => *a == *b,
            _ => false,
        }
    }

    /// A copy.
    pub fn copy(&self) -> (r: IndexKey)
        ensures
            r@ == self@,
    {
        match self {
            IndexKey::Int(n) => IndexKey::Int(*n),
            IndexKey::Float(image) => IndexKey::Float(*image),
            IndexKey::Str(s) => IndexKey::Str(copy_text(s.as_str())),
            IndexKey::Bool(b) => IndexKey::Bool(*b),
        }
    }
}

/// The bits of an image.
fn bits_of(image: u64) -> (r: u64)
    ensures
        r == decode(image),
{
    if image >= SIGN {
        image - SIGN
    } else {
        u64::MAX - image
    }
}

} // verus!
