//! Text: the order of strings, decimal rendering, joining.

use vstd::prelude::*;

verus! {

/// `a` comes strictly before `b` in the lexicographic order of code points,
/// which is the order of `str`.
pub open spec fn text_lt(a: Seq<char>, b: Seq<char>) -> bool
    decreases a.len(),
{
    if b.len() == 0 {
        false
    } else if a.len() == 0 {
        true
    } else if a[0] == b[0] {
        text_lt(a.drop_first(), b.drop_first())
    } else {
        (a[0] as int) < (b[0] as int)
    }
}

/// A text comes before every longer text that begins with it.
pub proof fn text_lt_extends(s: Seq<char>, c: char, t: Seq<char>)
    ensures
        text_lt(s, s.push(c) + t),
    decreases s.len(),
{
    let longer = s.push(c) + t;
    if s.len() > 0 {
        assert(longer[0] == s[0]);
        assert(longer.drop_first() =~= s.drop_first().push(c) + t);
        text_lt_extends(s.drop_first(), c, t);
    }
}

/// Texts that differ are ordered by their first difference.
pub proof fn text_lt_first_difference(
    s: Seq<char>,
    c: char,
    d: char,
    t: Seq<char>,
    u: Seq<char>,
)
    ensures
        (c as int) < (d as int) ==> text_lt(s.push(c) + t, s.push(d) + u),
    decreases s.len(),
{
    let a = s.push(c) + t;
    let b = s.push(d) + u;
    if s.len() == 0 {
        assert(a[0] == c && b[0] == d);
    } else {
        assert(a[0] == s[0] && b[0] == s[0]);
        assert(a.drop_first() =~= s.drop_first().push(c) + t);
        assert(b.drop_first() =~= s.drop_first().push(d) + u);
        text_lt_first_difference(s.drop_first(), c, d, t, u);
    }
}

/// The order is irreflexive.
pub proof fn text_lt_irreflexive(a: Seq<char>)
    ensures
        !text_lt(a, a),
    decreases a.len(),
{
    if a.len() > 0 {
        text_lt_irreflexive(a.drop_first());
    }
}

/// The order is transitive.
pub proof fn text_lt_transitive(a: Seq<char>, b: Seq<char>, c: Seq<char>)
    requires
        text_lt(a, b),
        text_lt(b, c),
    ensures
        text_lt(a, c),
    decreases a.len(),
{
    if a.len() > 0 && a[0] == b[0] && b[0] == c[0] {
        text_lt_transitive(a.drop_first(), b.drop_first(), c.drop_first());
    }
}

/// Two different strings are ordered one way or the other.
pub proof fn text_lt_total(a: Seq<char>, b: Seq<char>)
    ensures
        text_lt(a, b) || text_lt(b, a) || a == b,
    decreases a.len(),
{
    if a.len() == 0 && b.len() == 0 {
        assert(a =~= b);
    } else if a.len() > 0 && b.len() > 0 && a[0] == b[0] {
        text_lt_total(a.drop_first(), b.drop_first());
        if a.drop_first() == b.drop_first() {
            assert(a =~= seq![a[0]] + a.drop_first());
            assert(b =~= seq![b[0]] + b.drop_first());
        }
    }
}

/// Whether `a` comes strictly before `b`.
pub fn text_less(a: &str, b: &str) -> (r: bool)
    ensures
        r == text_lt(a@, b@),
{
    let mut ca = a.chars();
    let mut cb = b.chars();
    let ghost mut n: int = 0;
    assert(a@.skip(0) =~= a@);
    assert(b@.skip(0) =~= b@);
    loop
        invariant
            0 <= n <= a@.len(),
            n <= b@.len(),
            text_lt(a@, b@) == text_lt(a@.skip(n), b@.skip(n)),
            vstd::std_specs::iter::IteratorSpec::remaining(&ca) == a@.skip(n),
            vstd::std_specs::iter::IteratorSpec::remaining(&cb) == b@.skip(n),
        decreases a@.len() - n,
    {
        let x = ca.next();
        let y = cb.next();
        match y {
            None => {
                return false;
            },
            Some(d) => match x {
                None => {
                    return true;
                },
                Some(c) => {
                    assert(c == a@.skip(n)[0]);
                    assert(d == b@.skip(n)[0]);
                    if c != d {
                        return c < d;
                    }
                    proof {
                        assert(a@.skip(n).drop_first() =~= a@.skip(n + 1));
                        assert(b@.skip(n).drop_first() =~= b@.skip(n + 1));
                        n = n + 1;
                    }
                },
            },
        }
    }
}

/// Whether `a` and `b` hold the same characters.
pub fn same_text(a: &str, b: &str) -> (r: bool)
    ensures
        r == (a@ == b@),
{
    let mut ca = a.chars();
    let mut cb = b.chars();
    let ghost mut n: int = 0;
    assert(a@.skip(0) =~= a@);
    assert(b@.skip(0) =~= b@);
    loop
        invariant
            0 <= n <= a@.len(),
            n <= b@.len(),
            a@.take(n) == b@.take(n),
            vstd::std_specs::iter::IteratorSpec::remaining(&ca) == a@.skip(n),
            vstd::std_specs::iter::IteratorSpec::remaining(&cb) == b@.skip(n),
        decreases a@.len() - n,
    {
        let x = ca.next();
        let y = cb.next();
        match x {
            None => {
                assert(a@.take(n) =~= a@);
                if y.is_none() {
                    assert(b@.take(n) =~= b@);
                    return true;
                }
                assert(b@.len() > a@.len());
                return false;
            },
            Some(c) => match y {
                None => {
                    assert(a@.len() > b@.len());
                    return false;
                },
                Some(d) => {
                    assert(c == a@[n as int]);
                    assert(d == b@[n as int]);
                    if c != d {
                        return false;
                    }
                    proof {
                        assert(a@.take(n + 1) =~= a@.take(n).push(c));
                        assert(b@.take(n + 1) =~= b@.take(n).push(d));
                        assert(a@.skip(n).drop_first() =~= a@.skip(n + 1));
                        assert(b@.skip(n).drop_first() =~= b@.skip(n + 1));
                        n = n + 1;
                    }
                },
            },
        }
    }
}

/// The character of a decimal digit.
pub open spec fn digit_char(d: nat) -> char {
    (48 + d) as char
}

/// The decimal rendering of a natural number.
pub open spec fn decimal(n: nat) -> Seq<char>
    decreases n,
{
    if n < 10 {
        seq![digit_char(n)]
    } else {
        decimal(n / 10).push(digit_char(n % 10))
    }
}

/// Different numbers are rendered differently.
pub proof fn decimal_injective(a: nat, b: nat)
    requires
        decimal(a) == decimal(b),
    ensures
        a == b,
    decreases a,
{
    if a >= 10 && b >= 10 {
        let s = decimal(a / 10);
        let t = decimal(b / 10);
        assert(s =~= decimal(a).drop_last());
        assert(t =~= decimal(b).drop_last());
        decimal_injective(a / 10, b / 10);
        assert(decimal(a).last() == digit_char(a % 10));
        assert(decimal(b).last() == digit_char(b % 10));
    } else if a < 10 && b < 10 {
        assert(decimal(a)[0] == digit_char(a));
        assert(decimal(b)[0] == digit_char(b));
    } else if a < 10 {
        assert(decimal(b).len() > 1) by {
            decimal_filled(b / 10);
        }
    } else {
        assert(decimal(a).len() > 1) by {
            decimal_filled(a / 10);
        }
    }
}

proof fn decimal_filled(n: nat)
    ensures
        decimal(n).len() > 0,
    decreases n,
{
}

/// The decimal rendering of an integer.
pub open spec fn signed_decimal(n: int) -> Seq<char> {
    if n < 0 {
        seq!['-'] + decimal((-n) as nat)
    } else {
        decimal(n as nat)
    }
}

fn digit_text(d: u64) -> (r: &'static str)
    requires
        d < 10,
    ensures
        r@ == seq![digit_char(d as nat)],
{
    proof {
        reveal_strlit("0");
        reveal_strlit("1");
        reveal_strlit("2");
        reveal_strlit("3");
        reveal_strlit("4");
        reveal_strlit("5");
        reveal_strlit("6");
        reveal_strlit("7");
        reveal_strlit("8");
        reveal_strlit("9");
    }
    let r = match d {
        0 => "0",
        1 => "1",
        2 => "2",
        3 => "3",
        4 => "4",
        5 => "5",
        6 => "6",
        7 => "7",
        8 => "8",
        _ => "9",
    };
    assert(r@ =~= seq![digit_char(d as nat)]);
    r
}

/// Renders `n` in decimal.
pub fn text_of_u64(n: u64) -> (r: String)
    ensures
        r@ == decimal(n as nat),
    decreases n,
{
    if n < 10 {
        digit_text(n).to_owned()
    } else {
        let mut s = text_of_u64(n / 10);
        s.append(digit_text(n % 10));
        assert(s@ =~= decimal(n as nat));
        s
    }
}

/// Renders `n` in decimal, with a sign where it is negative.
pub fn text_of_i64(n: i64) -> (r: String)
    ensures
        r@ == signed_decimal(n as int),
{
    if n < 0 {
        let m: u64 = (-(n as i128)) as u64;
        let mut s = "-".to_owned();
        proof {
            reveal_strlit("-");
        }
        s.append(text_of_u64(m).as_str());
        assert(s@ =~= signed_decimal(n as int));
        s
    } else {
        text_of_u64(n as u64)
    }
}

/// Renders the number after `n` in decimal.
pub fn text_of_next(n: usize) -> (r: String)
    ensures
        r@ == decimal(n as nat + 1),
{
    if n < 9 {
        text_of_usize(n + 1)
    } else {
        let m: u128 = n as u128 + 1;
        let mut s = text_of_u64((m / 10) as u64);
        s.append(digit_text((m % 10) as u64));
        assert(s@ =~= decimal(n as nat + 1));
        s
    }
}

/// Renders `n` in decimal.
pub fn text_of_usize(n: usize) -> (r: String)
    ensures
        r@ == decimal(n as nat),
{
    text_of_u64(n as u64)
}

/// The parts with `sep` between neighbours.
pub open spec fn joined(parts: Seq<Seq<char>>, sep: Seq<char>) -> Seq<char>
    decreases parts.len(),
{
    if parts.len() == 0 {
        Seq::empty()
    } else if parts.len() == 1 {
        parts[0]
    } else {
        joined(parts.drop_last(), sep) + sep + parts.last()
    }
}

/// The contents of each string.
pub open spec fn texts(v: Seq<String>) -> Seq<Seq<char>> {
    Seq::new(v.len(), |i: int| v[i]@)
}

/// The parts with `sep` between neighbours, as `join` on a slice of strings.
pub fn join_texts(parts: &Vec<String>, sep: &str) -> (r: String)
    ensures
        r@ == joined(texts(parts@), sep@),
{
    let mut out = String::new();
    let mut i: usize = 0;
    while i < parts.len()
        invariant
            i <= parts.len(),
            out@ == joined(texts(parts@).take(i as int), sep@),
        decreases parts.len() - i,
    {
        let ghost next = texts(parts@).take(i + 1);
        assert(next.drop_last() =~= texts(parts@).take(i as int));
        if i > 0 {
            out.append(sep);
        }
        out.append(parts[i].as_str());
        assert(out@ =~= joined(next, sep@));
        i = i + 1;
    }
    assert(texts(parts@).take(i as int) =~= texts(parts@));
    out
}

/// An owned copy of `s`.
pub fn copy_text(s: &str) -> (r: String)
    ensures
        r@ == s@,
{
    s.to_owned()
}

/// What `quoted_text` returns.
pub uninterp spec fn quoted(s: Seq<char>) -> Seq<char>;

/// A text in double quotes with its special characters escaped: the `Debug`
/// form that `format!` gives a `str`. Which characters are escaped, and how,
/// is left to std; only that the text alone decides is claimed.
#[verifier::external_body]
pub(crate) fn quoted_text(s: &str) -> (r: String)
    ensures
        r@ == quoted(s@),
{
    format!("{:?}", s)
}

/// The text of some bytes: `String::from_utf8`. It gives the text that the
/// bytes encode, and nothing where they are not valid UTF-8.
#[verifier::external_body]
pub(crate) fn text_from_bytes(bytes: Vec<u8>) -> (r: Option<String>)
    ensures
        match r {
            Some(s) => vstd::utf8::valid_utf8(bytes@) && s@ == vstd::utf8::decode_utf8(bytes@),
            None => !vstd::utf8::valid_utf8(bytes@),
        },
{
    String::from_utf8(bytes).ok()
}

} // verus!
