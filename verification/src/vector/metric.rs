//! Distance metrics and the order of distances.
//!
//! Every metric is a distance: smaller means nearer. A distance is a
//! single-precision number, held by its IEEE 754 bits.

use std::cmp::Ordering;
use vstd::prelude::*;

verus! {

/// The tag of the squared euclidean distance.
pub const METRIC_L2SQ: u8 = 0;

/// The tag of the cosine distance.
pub const METRIC_COSINE: u8 = 1;

/// The tag of the negated inner product.
pub const METRIC_IP: u8 = 2;

/// A distance between vectors.
#[derive(Debug, Clone, Copy, PartialEq, Eq, Structural)]
pub enum Metric {
    /// Squared euclidean distance, which orders as the euclidean one does.
    L2Sq,
    /// One less the cosine. A vector of length zero counts as orthogonal.
    Cosine,
    /// Negated inner product: a ranking key, though no metric.
    Ip,
}

/// The tag of a metric.
pub open spec fn tag_of(m: Metric) -> u8 {
    match m {
        Metric::L2Sq => METRIC_L2SQ,
        Metric::Cosine => METRIC_COSINE,
        Metric::Ip => METRIC_IP,
    }
}

/// The metric of a tag.
pub open spec fn tagged(tag: u8) -> Option<Metric> {
    if tag == METRIC_L2SQ {
        Some(Metric::L2Sq)
    } else if tag == METRIC_COSINE {
        Some(Metric::Cosine)
    } else if tag == METRIC_IP {
        Some(Metric::Ip)
    } else {
        None
    }
}

/// The name of a metric.
pub open spec fn name_of(m: Metric) -> Seq<char> {
    match m {
        Metric::L2Sq => "l2sq"@,
        Metric::Cosine => "cosine"@,
        Metric::Ip => "ip"@,
    }
}

/// A character in lower case, where it is an ASCII letter.
pub open spec fn lower_char(c: char) -> char {
    if 'A' <= c && c <= 'Z' {
        ((c as u32 + 32) as u8) as char
    } else {
        c
    }
}

/// A text with its ASCII letters in lower case.
pub open spec fn ascii_lower(s: Seq<char>) -> Seq<char> {
    Seq::new(s.len(), |i: int| lower_char(s[i]))
}

/// The metric that a text names, whatever the case of its letters.
pub open spec fn named(s: Seq<char>) -> Option<Metric> {
    let t = ascii_lower(s);
    if t == "l2"@ || t == "l2sq"@ || t == "euclidean"@ {
        Some(Metric::L2Sq)
    } else if t == "cosine"@ || t == "cos"@ {
        Some(Metric::Cosine)
    } else if t == "ip"@ || t == "dot"@ || t == "inner"@ {
        Some(Metric::Ip)
    } else {
        None
    }
}

/// Tags and names lead back to their metric.
pub proof fn metrics_read_back(m: Metric)
    ensures
        tagged(tag_of(m)) == Some(m),
        named(name_of(m)) == Some(m),
{
    reveal_strlit("l2");
    reveal_strlit("l2sq");
    reveal_strlit("euclidean");
    reveal_strlit("cosine");
    reveal_strlit("cos");
    reveal_strlit("ip");
    reveal_strlit("dot");
    reveal_strlit("inner");
    assert(ascii_lower(name_of(m)) =~= name_of(m));
    match m {
        Metric::Ip => {
            assert("ip"@[0] == 'i');
            assert("l2"@[0] == 'l');
        },
        _ => {},
    }
}

/// Whether a text is `word` but for the case of ASCII letters.
fn spells(s: &str, word: &str) -> (r: bool)
    ensures
        r == (ascii_lower(s@) == word@),
{
    let mut cs = s.chars();
    let mut cw = word.chars();
    let ghost t = ascii_lower(s@);
    let ghost mut n: int = 0;
    assert(s@.skip(0) =~= s@);
    assert(word@.skip(0) =~= word@);
    loop
        invariant
            0 <= n <= s@.len(),
            n <= word@.len(),
            t == ascii_lower(s@),
            t.take(n) == word@.take(n),
            vstd::std_specs::iter::IteratorSpec::remaining(&cs) == s@.skip(n),
            vstd::std_specs::iter::IteratorSpec::remaining(&cw) == word@.skip(n),
        decreases s@.len() - n,
    {
        let x = cs.next();
        let y = cw.next();
        match x {
            None => {
                assert(t.take(n) =~= t);
                if y.is_none() {
                    assert(word@.take(n) =~= word@);
                    return true;
                }
                assert(word@.len() > t.len());
                return false;
            },
            Some(c) => match y {
                None => {
                    assert(t.len() > word@.len());
                    return false;
                },
                Some(d) => {
                    assert(c == s@[n as int]);
                    assert(d == word@[n as int]);
                    let upper = 'A' <= c && c <= 'Z';
                    let same = if upper {
                        'a' <= d && d <= 'z' && c as u32 + 32 == d as u32
                    } else {
                        c == d
                    };
                    assert(t[n] == lower_char(c));
                    assert(same == (t[n] == d));
                    if !same {
                        return false;
                    }
                    proof {
                        assert(t.take(n + 1) =~= t.take(n).push(t[n]));
                        assert(word@.take(n + 1) =~= word@.take(n).push(d));
                        assert(s@.skip(n).drop_first() =~= s@.skip(n + 1));
                        assert(word@.skip(n).drop_first() =~= word@.skip(n + 1));
                        n = n + 1;
                    }
                },
            },
        }
    }
}

impl Metric {
    /// The tag of the metric.
    pub fn as_u8(self) -> (r: u8)
        ensures
            r == tag_of(self),
    {
        match self {
            Metric::L2Sq => METRIC_L2SQ,
            Metric::Cosine => METRIC_COSINE,
            Metric::Ip => METRIC_IP,
        }
    }

    /// The metric of a tag.
    pub fn from_u8(tag: u8) -> (r: Option<Metric>)
        ensures
            r == tagged(tag),
    {
        if tag == METRIC_L2SQ {
            Some(Metric::L2Sq)
        } else if tag == METRIC_COSINE {
            Some(Metric::Cosine)
        } else if tag == METRIC_IP {
            Some(Metric::Ip)
        } else {
            None
        }
    }

    /// The metric that a text names.
    pub fn parse(s: &str) -> (r: Option<Metric>)
        ensures
            r == named(s@),
    {
        if spells(s, "l2") || spells(s, "l2sq") || spells(s, "euclidean") {
            Some(Metric::L2Sq)
        } else if spells(s, "cosine") || spells(s, "cos") {
            Some(Metric::Cosine)
        } else if spells(s, "ip") || spells(s, "dot") || spells(s, "inner") {
            Some(Metric::Ip)
        } else {
            None
        }
    }

    /// The name of the metric.
    pub fn name(self) -> (r: &'static str)
        ensures
            r@ == name_of(self),
    {
        match self {
            Metric::L2Sq => "l2sq",
            Metric::Cosine => "cosine",
            Metric::Ip => "ip",
        }
    }

    /// Whether the metric reads the lengths of its vectors.
    pub fn needs_norms(self) -> (r: bool)
        ensures
            r == (self == Metric::Cosine),
    {
        match self {
            Metric::Cosine => true,
            _ => false,
        }
    }
}

/// The bit of the sign.
pub const SIGN: u32 = 0x8000_0000;

/// The bits of infinity. Larger ones, but for the sign, are not-a-number.
pub const INFINITY: u32 = 0x7f80_0000;

/// The place of a distance in the total order of all bits: negative numbers,
/// then positive ones, each with its infinity and its not-a-numbers outermost.
pub open spec fn rank(d: u32) -> int {
    if d < SIGN {
        d as int
    } else {
        SIGN - d - 1
    }
}

/// Whether some bits are not-a-number.
pub open spec fn is_nan(d: u32) -> bool {
    if d < SIGN {
        d > INFINITY
    } else {
        d - SIGN > INFINITY
    }
}

/// An integer for each number, in the order of the numbers: both zeros are 0.
pub open spec fn number(d: u32) -> int {
    if d < SIGN {
        d as int
    } else {
        SIGN - d
    }
}

/// Whether one distance is a smaller number than another. No not-a-number is
/// smaller or larger than anything.
pub open spec fn less(a: u32, b: u32) -> bool {
    !is_nan(a) && !is_nan(b) && number(a) < number(b)
}

/// The total order tells any two bits apart, agrees with the order of numbers,
/// and has not-a-numbers without a sign after all numbers.
pub proof fn distances_in_order(a: u32, b: u32)
    ensures
        rank(a) == rank(b) <==> a == b,
        less(a, b) ==> rank(a) < rank(b),
        !is_nan(a) && is_nan(b) && b < SIGN ==> rank(a) < rank(b),
{
}

/// The place of a distance in the total order.
fn rank_of(d: u32) -> (r: i64)
    ensures
        r == rank(d),
{
    if d < SIGN {
        d as i64
    } else {
        SIGN as i64 - d as i64 - 1
    }
}

/// Whether one distance comes before another in the total order.
pub fn ranks_before(a: u32, b: u32) -> (r: bool)
    ensures
        r == (rank(a) < rank(b)),
{
    rank_of(a) < rank_of(b)
}

/// Compares two distances in the total order.
pub fn cmp_dist(a: u32, b: u32) -> (r: Ordering)
    ensures
        match r {
            Ordering::Less => rank(a) < rank(b),
            Ordering::Equal => a == b,
            Ordering::Greater => rank(b) < rank(a),
        },
{
    if ranks_before(a, b) {
        Ordering::Less
    } else if ranks_before(b, a) {
        Ordering::Greater
    } else {
        Ordering::Equal
    }
}

/// Whether one distance is a smaller number than another.
pub fn is_less(a: u32, b: u32) -> (r: bool)
    ensures
        r == less(a, b),
{
    let (low_a, neg_a): (u32, bool) = if a < SIGN {
        (a, false)
    } else {
        (a - SIGN, true)
    };
    let (low_b, neg_b): (u32, bool) = if b < SIGN {
        (b, false)
    } else {
        (b - SIGN, true)
    };
    if low_a > INFINITY || low_b > INFINITY {
        false
    } else if neg_a {
        if neg_b {
            low_b < low_a
        } else {
            low_a > 0 || low_b > 0
        }
    } else {
        !neg_b && low_a < low_b
    }
}

} // verus!
