//! Lexicographic order on lists, and lists in ascending order.

use vstd::prelude::*;

use crate::text::{same_text, text_less};

verus! {

/// The lexicographic order on lists, by an order on their elements.
pub open spec fn lex_lt<T>(lt: spec_fn(T, T) -> bool, a: Seq<T>, b: Seq<T>) -> bool
    decreases a.len(),
{
    if b.len() == 0 {
        false
    } else if a.len() == 0 {
        true
    } else if a[0] != b[0] {
        lt(a[0], b[0])
    } else {
        lex_lt(lt, a.drop_first(), b.drop_first())
    }
}

/// A strict total order.
pub open spec fn strict_total<T>(lt: spec_fn(T, T) -> bool) -> bool {
    &&& forall|a: T| !#[trigger] lt(a, a)
    &&& forall|a: T, b: T, c: T| #[trigger] lt(a, b) && #[trigger] lt(b, c) ==> lt(a, c)
    &&& forall|a: T, b: T| #![trigger lt(a, b)] a == b || lt(a, b) || lt(b, a)
}

/// The lexicographic order by a strict total order is one.
pub proof fn lex_strict_total<T>(lt: spec_fn(T, T) -> bool)
    requires
        strict_total(lt),
    ensures
        strict_total(|a: Seq<T>, b: Seq<T>| lex_lt(lt, a, b)),
{
    let l = |a: Seq<T>, b: Seq<T>| lex_lt(lt, a, b);
    assert forall|a: Seq<T>| !#[trigger] l(a, a) by {
        lex_irreflexive(lt, a);
    }
    assert forall|a: Seq<T>, b: Seq<T>, c: Seq<T>|
        #[trigger] l(a, b) && #[trigger] l(b, c) implies l(a, c) by {
        lex_transitive(lt, a, b, c);
    }
    assert forall|a: Seq<T>, b: Seq<T>| #![trigger l(a, b)] a == b || l(a, b) || l(b, a) by {
        lex_total(lt, a, b);
    }
}

proof fn lex_irreflexive<T>(lt: spec_fn(T, T) -> bool, a: Seq<T>)
    requires
        strict_total(lt),
    ensures
        !lex_lt(lt, a, a),
    decreases a.len(),
{
    if a.len() > 0 {
        lex_irreflexive(lt, a.drop_first());
    }
}

proof fn lex_transitive<T>(lt: spec_fn(T, T) -> bool, a: Seq<T>, b: Seq<T>, c: Seq<T>)
    requires
        strict_total(lt),
        lex_lt(lt, a, b),
        lex_lt(lt, b, c),
    ensures
        lex_lt(lt, a, c),
    decreases a.len(),
{
    if a.len() > 0 {
        if a[0] == b[0] && b[0] == c[0] {
            lex_transitive(lt, a.drop_first(), b.drop_first(), c.drop_first());
        } else if a[0] != b[0] && b[0] != c[0] {
            assert(lt(a[0], b[0]) && lt(b[0], c[0]));
            assert(lt(a[0], c[0]));
            if a[0] == c[0] {
                assert(!lt(a[0], a[0]));
            }
        }
    }
}

proof fn lex_total<T>(lt: spec_fn(T, T) -> bool, a: Seq<T>, b: Seq<T>)
    requires
        strict_total(lt),
    ensures
        a == b || lex_lt(lt, a, b) || lex_lt(lt, b, a),
    decreases a.len(),
{
    if a.len() == 0 && b.len() == 0 {
        assert(a =~= b);
    } else if a.len() > 0 && b.len() > 0 {
        if a[0] == b[0] {
            lex_total(lt, a.drop_first(), b.drop_first());
            if a.drop_first() == b.drop_first() {
                assert(a =~= seq![a[0]] + a.drop_first());
                assert(b =~= seq![b[0]] + b.drop_first());
            }
        } else {
            assert(lt(a[0], b[0]) || lt(b[0], a[0]));
        }
    }
}

/// Lists that agree on a prefix compare as what follows it.
proof fn lex_skip<T>(lt: spec_fn(T, T) -> bool, a: Seq<T>, b: Seq<T>, n: int)
    requires
        0 <= n <= a.len(),
        n <= b.len(),
        a.take(n) == b.take(n),
    ensures
        lex_lt(lt, a, b) == lex_lt(lt, a.skip(n), b.skip(n)),
    decreases n,
{
    if n == 0 {
        assert(a.skip(0) =~= a);
        assert(b.skip(0) =~= b);
    } else {
        assert(a[0] == b[0]) by {
            assert(a.take(n)[0] == a[0]);
            assert(b.take(n)[0] == b[0]);
        }
        let a1 = a.drop_first();
        let b1 = b.drop_first();
        assert(a1.take(n - 1) =~= b1.take(n - 1)) by {
            assert(a1.take(n - 1) =~= a.take(n).drop_first());
            assert(b1.take(n - 1) =~= b.take(n).drop_first());
        }
        lex_skip(lt, a1, b1, n - 1);
        assert(a1.skip(n - 1) =~= a.skip(n));
        assert(b1.skip(n - 1) =~= b.skip(n));
        assert(lex_lt(lt, a, b) == lex_lt(lt, a1, b1));
    }
}

/// Elements in strictly ascending order.
pub open spec fn rising<T>(lt: spec_fn(T, T) -> bool, s: Seq<T>) -> bool {
    forall|i: int, j: int| 0 <= i < j < s.len() ==> lt(#[trigger] s[i], #[trigger] s[j])
}

/// The elements of a set in ascending order.
pub open spec fn enumeration<T>(lt: spec_fn(T, T) -> bool, elements: Set<T>) -> Seq<T> {
    choose|s: Seq<T>| #[trigger] rising(lt, s) && s.to_set() == elements
}

/// An ascending list is determined by its elements.
pub proof fn rising_is_unique<T>(lt: spec_fn(T, T) -> bool, a: Seq<T>, b: Seq<T>)
    requires
        strict_total(lt),
        rising(lt, a),
        rising(lt, b),
        a.to_set() == b.to_set(),
    ensures
        a == b,
    decreases a.len(),
{
    if a.len() == 0 {
        if b.len() > 0 {
            assert(b.to_set().contains(b[0]));
            assert(a.to_set().contains(b[0]));
        }
        assert(a =~= b);
    } else if b.len() == 0 {
        assert(a.to_set().contains(a[0]));
        assert(b.to_set().contains(a[0]));
    } else {
        let x = a.last();
        let y = b.last();
        assert(a.to_set().contains(x));
        assert(b.to_set().contains(y));
        assert(b.to_set().contains(x));
        assert(a.to_set().contains(y));
        let i = choose|i: int| 0 <= i < b.len() && b[i] == x;
        let j = choose|j: int| 0 <= j < a.len() && a[j] == y;
        if x != y {
            assert(lt(b[i], b[b.len() - 1]));
            assert(lt(a[j], a[a.len() - 1]));
            assert(lt(x, y) && lt(y, x));
            assert(lt(x, x));
        }
        let a1 = a.drop_last();
        let b1 = b.drop_last();
        assert forall|v: T| a1.to_set().contains(v) == b1.to_set().contains(v) by {
            if a1.contains(v) {
                let p = choose|p: int| 0 <= p < a1.len() && a1[p] == v;
                assert(a[p] == v);
                assert(a.to_set().contains(v));
                assert(lt(a[p], a[a.len() - 1]));
                assert(b.to_set().contains(v));
                let q = choose|q: int| 0 <= q < b.len() && b[q] == v;
                if q == b.len() - 1 {
                    assert(lt(x, x));
                }
                assert(b1[q] == v);
            }
            if b1.contains(v) {
                let p = choose|p: int| 0 <= p < b1.len() && b1[p] == v;
                assert(b[p] == v);
                assert(b.to_set().contains(v));
                assert(lt(b[p], b[b.len() - 1]));
                assert(a.to_set().contains(v));
                let q = choose|q: int| 0 <= q < a.len() && a[q] == v;
                if q == a.len() - 1 {
                    assert(lt(x, x));
                }
                assert(a1[q] == v);
            }
        }
        assert(a1.to_set() =~= b1.to_set());
        rising_is_unique(lt, a1, b1);
        assert(a =~= a1.push(x));
        assert(b =~= b1.push(y));
    }
}

/// The order on texts.
pub open spec fn text_order() -> spec_fn(Seq<char>, Seq<char>) -> bool {
    |a: Seq<char>, b: Seq<char>| crate::text::text_lt(a, b)
}

/// The order on lists of texts.
pub open spec fn list_order() -> spec_fn(Seq<Seq<char>>, Seq<Seq<char>>) -> bool {
    |a: Seq<Seq<char>>, b: Seq<Seq<char>>| lex_lt(text_order(), a, b)
}

/// The order on lists of lists of texts.
pub open spec fn key_order() -> spec_fn(Seq<Seq<Seq<char>>>, Seq<Seq<Seq<char>>>) -> bool {
    |a: Seq<Seq<Seq<char>>>, b: Seq<Seq<Seq<char>>>| lex_lt(list_order(), a, b)
}

/// These orders are strict and total.
pub proof fn orders_total()
    ensures
        strict_total(text_order()),
        strict_total(list_order()),
        strict_total(key_order()),
{
    let lt = text_order();
    assert forall|a: Seq<char>| !#[trigger] lt(a, a) by {
        crate::text::text_lt_irreflexive(a);
    }
    assert forall|a: Seq<char>, b: Seq<char>, c: Seq<char>|
        #[trigger] lt(a, b) && #[trigger] lt(b, c) implies lt(a, c) by {
        crate::text::text_lt_transitive(a, b, c);
    }
    assert forall|a: Seq<char>, b: Seq<char>| #![trigger lt(a, b)] a == b || lt(a, b) || lt(
        b,
        a,
    ) by {
        crate::text::text_lt_total(a, b);
    }
    lex_strict_total(text_order());
    assert(list_order() =~= |a: Seq<Seq<char>>, b: Seq<Seq<char>>| lex_lt(text_order(), a, b));
    lex_strict_total(list_order());
    assert(key_order() =~= |a: Seq<Seq<Seq<char>>>, b: Seq<Seq<Seq<char>>>|
        lex_lt(list_order(), a, b));
}

/// Whether two lists of texts are equal.
pub fn same_list(a: &Vec<String>, b: &Vec<String>) -> (r: bool)
    ensures
        r == (crate::text::texts(a@) == crate::text::texts(b@)),
{
    let ghost ta = crate::text::texts(a@);
    let ghost tb = crate::text::texts(b@);
    if a.len() != b.len() {
        assert(ta.len() != tb.len());
        return false;
    }
    let mut i: usize = 0;
    while i < a.len()
        invariant
            i <= a.len(),
            a.len() == b.len(),
            ta == crate::text::texts(a@),
            tb == crate::text::texts(b@),
            forall|j: int| 0 <= j < i ==> #[trigger] ta[j] == tb[j],
        decreases a.len() - i,
    {
        assert(ta[i as int] == a@[i as int]@);
        assert(tb[i as int] == b@[i as int]@);
        if !same_text(a[i].as_str(), b[i].as_str()) {
            return false;
        }
        i = i + 1;
    }
    assert(ta =~= tb);
    true
}

/// Whether one list of texts comes before another.
pub fn list_less(a: &Vec<String>, b: &Vec<String>) -> (r: bool)
    ensures
        r == list_order()(crate::text::texts(a@), crate::text::texts(b@)),
{
    let ghost ta = crate::text::texts(a@);
    let ghost tb = crate::text::texts(b@);
    let mut i: usize = 0;
    while i < a.len() && i < b.len()
        invariant
            i <= a.len(),
            i <= b.len(),
            ta == crate::text::texts(a@),
            tb == crate::text::texts(b@),
            ta.take(i as int) == tb.take(i as int),
        decreases a.len() - i,
    {
        assert(ta[i as int] == a@[i as int]@);
        assert(tb[i as int] == b@[i as int]@);
        if !same_text(a[i].as_str(), b[i].as_str()) {
            proof {
                lex_skip(text_order(), ta, tb, i as int);
                assert(ta.skip(i as int)[0] == ta[i as int]);
                assert(tb.skip(i as int)[0] == tb[i as int]);
            }
            return text_less(a[i].as_str(), b[i].as_str());
        }
        assert(ta.take(i + 1) =~= ta.take(i as int).push(ta[i as int]));
        assert(tb.take(i + 1) =~= tb.take(i as int).push(tb[i as int]));
        i = i + 1;
    }
    proof {
        lex_skip(text_order(), ta, tb, i as int);
    }
    i < b.len()
}

/// The value of a list of lists of texts.
pub open spec fn key_view(k: Seq<Vec<String>>) -> Seq<Seq<Seq<char>>> {
    Seq::new(k.len(), |i: int| crate::text::texts(k[i]@))
}

/// The value of several keys.
pub open spec fn key_views(ks: Seq<Vec<Vec<String>>>) -> Seq<Seq<Seq<Seq<char>>>> {
    Seq::new(ks.len(), |i: int| key_view(ks[i]@))
}

/// Whether two keys are equal.
pub fn same_key(a: &Vec<Vec<String>>, b: &Vec<Vec<String>>) -> (r: bool)
    ensures
        r == (key_view(a@) == key_view(b@)),
{
    let ghost ta = key_view(a@);
    let ghost tb = key_view(b@);
    if a.len() != b.len() {
        assert(ta.len() != tb.len());
        return false;
    }
    let mut i: usize = 0;
    while i < a.len()
        invariant
            i <= a.len(),
            a.len() == b.len(),
            ta == key_view(a@),
            tb == key_view(b@),
            forall|j: int| 0 <= j < i ==> #[trigger] ta[j] == tb[j],
        decreases a.len() - i,
    {
        assert(ta[i as int] == crate::text::texts(a@[i as int]@));
        assert(tb[i as int] == crate::text::texts(b@[i as int]@));
        if !same_list(&a[i], &b[i]) {
            return false;
        }
        i = i + 1;
    }
    assert(ta =~= tb);
    true
}

/// Whether one key comes before another.
pub fn key_less(a: &Vec<Vec<String>>, b: &Vec<Vec<String>>) -> (r: bool)
    ensures
        r == key_order()(key_view(a@), key_view(b@)),
{
    let ghost ta = key_view(a@);
    let ghost tb = key_view(b@);
    let mut i: usize = 0;
    while i < a.len() && i < b.len()
        invariant
            i <= a.len(),
            i <= b.len(),
            ta == key_view(a@),
            tb == key_view(b@),
            ta.take(i as int) == tb.take(i as int),
        decreases a.len() - i,
    {
        assert(ta[i as int] == crate::text::texts(a@[i as int]@));
        assert(tb[i as int] == crate::text::texts(b@[i as int]@));
        if !same_list(&a[i], &b[i]) {
            proof {
                lex_skip(list_order(), ta, tb, i as int);
                assert(ta.skip(i as int)[0] == ta[i as int]);
                assert(tb.skip(i as int)[0] == tb[i as int]);
            }
            return list_less(&a[i], &b[i]);
        }
        assert(ta.take(i + 1) =~= ta.take(i as int).push(ta[i as int]));
        assert(tb.take(i + 1) =~= tb.take(i as int).push(tb[i as int]));
        i = i + 1;
    }
    proof {
        lex_skip(list_order(), ta, tb, i as int);
    }
    i < b.len()
}

/// Copies a list of texts.
pub fn copy_list(a: &Vec<String>) -> (r: Vec<String>)
    ensures
        crate::text::texts(r@) == crate::text::texts(a@),
{
    let mut out: Vec<String> = Vec::new();
    let mut i: usize = 0;
    while i < a.len()
        invariant
            i <= a.len(),
            out@.len() == i,
            forall|j: int| 0 <= j < i ==> (#[trigger] out@[j])@ == a@[j]@,
        decreases a.len() - i,
    {
        out.push(a[i].clone());
        i = i + 1;
    }
    assert(crate::text::texts(out@) =~= crate::text::texts(a@));
    out
}

/// Copies a key.
pub fn copy_key(a: &Vec<Vec<String>>) -> (r: Vec<Vec<String>>)
    ensures
        key_view(r@) == key_view(a@),
{
    let mut out: Vec<Vec<String>> = Vec::new();
    let mut i: usize = 0;
    while i < a.len()
        invariant
            i <= a.len(),
            out@.len() == i,
            forall|j: int|
                0 <= j < i ==> crate::text::texts((#[trigger] out@[j])@) == crate::text::texts(
                    a@[j]@,
                ),
        decreases a.len() - i,
    {
        out.push(copy_list(&a[i]));
        i = i + 1;
    }
    assert(key_view(out@) =~= key_view(a@));
    out
}

/// Adds a key to an ascending list where it is not in it.
pub fn add_key(keys: &mut Vec<Vec<Vec<String>>>, k: &Vec<Vec<String>>)
    requires
        rising(key_order(), key_views(old(keys)@)),
    ensures
        rising(key_order(), key_views(final(keys)@)),
        key_views(final(keys)@).to_set() == key_views(old(keys)@).to_set().insert(key_view(k@)),
{
    let ghost before = key_views(keys@);
    let ghost kv = key_view(k@);
    proof {
        orders_total();
    }
    let mut i: usize = 0;
    while i < keys.len() && key_less(&keys[i], k)
        invariant
            i <= keys.len(),
            before == key_views(keys@),
            kv == key_view(k@),
            forall|j: int| 0 <= j < i ==> key_order()(#[trigger] before[j], kv),
        decreases keys.len() - i,
    {
        assert(before[i as int] == key_view(keys@[i as int]@));
        i = i + 1;
    }
    if i < keys.len() && same_key(&keys[i], k) {
        proof {
            assert(before[i as int] == kv);
            assert(before.to_set().contains(kv));
            assert(before.to_set().insert(kv) =~= before.to_set());
        }
        return;
    }
    proof {
        if i < keys.len() {
            assert(before[i as int] == key_view(keys@[i as int]@));
            assert(key_order()(kv, before[i as int]));
        }
        rising_insert(key_order(), before, i as int, kv);
    }
    let ghost inner = keys@;
    let c = copy_key(k);
    keys.insert(i, c);
    assert(key_views(keys@) =~= before.insert(i as int, kv));
}

/// An element put between smaller and larger ones.
pub proof fn rising_insert<T>(lt: spec_fn(T, T) -> bool, s: Seq<T>, i: int, x: T)
    requires
        strict_total(lt),
        rising(lt, s),
        0 <= i <= s.len(),
        forall|j: int| 0 <= j < i ==> lt(#[trigger] s[j], x),
        i < s.len() ==> lt(x, s[i]),
    ensures
        rising(lt, s.insert(i, x)),
        s.insert(i, x).to_set() == s.to_set().insert(x),
{
    let t = s.insert(i, x);
    assert forall|p: int, q: int| 0 <= p < q < t.len() implies lt(
        #[trigger] t[p],
        #[trigger] t[q],
    ) by {
        if p < i && q == i {
        } else if p == i && q > i {
            if q > i + 1 {
                assert(lt(s[i], s[q - 1]));
            }
        } else if p < i && q > i {
            assert(lt(s[p], s[q - 1]));
        } else if p > i {
            assert(lt(s[p - 1], s[q - 1]));
        } else {
            assert(lt(s[p], s[q]));
        }
    }
    assert forall|v: T| t.to_set().contains(v) == s.to_set().insert(x).contains(v) by {
        if t.contains(v) {
            let p = choose|p: int| 0 <= p < t.len() && t[p] == v;
            if p < i {
                assert(s[p] == v);
            } else if p > i {
                assert(s[p - 1] == v);
            }
        }
        if s.contains(v) {
            let p = choose|p: int| 0 <= p < s.len() && s[p] == v;
            if p < i {
                assert(t[p] == v);
            } else {
                assert(t[p + 1] == v);
            }
        }
        if v == x {
            assert(t[i] == v);
        }
    }
    assert(t.to_set() =~= s.to_set().insert(x));
}

/// Where an element belongs in an ascending list.
proof fn place_in<T>(lt: spec_fn(T, T) -> bool, s: Seq<T>, x: T) -> (p: int)
    requires
        strict_total(lt),
        rising(lt, s),
        !s.contains(x),
    ensures
        0 <= p <= s.len(),
        forall|j: int| 0 <= j < p ==> lt(#[trigger] s[j], x),
        p < s.len() ==> lt(x, s[p]),
    decreases s.len(),
{
    if s.len() == 0 {
        0
    } else {
        let n = s.len() - 1;
        assert(s[n] != x);
        if lt(s[n], x) {
            assert forall|j: int| 0 <= j < s.len() implies lt(#[trigger] s[j], x) by {
                if j < n {
                    assert(lt(s[j], s[n]));
                }
            }
            s.len() as int
        } else {
            let t = s.drop_last();
            assert(lt(x, s[n]));
            assert(!t.contains(x)) by {
                if t.contains(x) {
                    let j = choose|j: int| 0 <= j < t.len() && t[j] == x;
                    assert(s[j] == x);
                }
            }
            let p = place_in(lt, t, x);
            assert forall|j: int| 0 <= j < p implies lt(#[trigger] s[j], x) by {
                assert(t[j] == s[j]);
            }
            if p < t.len() {
                assert(t[p] == s[p]);
            }
            p
        }
    }
}

proof fn rising_of<T>(lt: spec_fn(T, T) -> bool, s: Seq<T>) -> (t: Seq<T>)
    requires
        strict_total(lt),
    ensures
        rising(lt, t),
        t.to_set() == s.to_set(),
    decreases s.len(),
{
    if s.len() == 0 {
        s
    } else {
        let x = s.last();
        let t = rising_of(lt, s.drop_last());
        assert(s.to_set() =~= s.drop_last().to_set().insert(x)) by {
            assert(s =~= s.drop_last().push(x));
            broadcast use vstd::seq_lib::group_seq_properties;

        }
        if t.contains(x) {
            assert(t.to_set().contains(x));
            assert(t.to_set() =~= s.to_set());
            t
        } else {
            let p = place_in(lt, t, x);
            rising_insert(lt, t, p, x);
            t.insert(p, x)
        }
    }
}

/// The elements of a list can be enumerated in ascending order.
pub proof fn enumeration_of<T>(lt: spec_fn(T, T) -> bool, s: Seq<T>)
    requires
        strict_total(lt),
    ensures
        rising(lt, enumeration(lt, s.to_set())),
        enumeration(lt, s.to_set()).to_set() == s.to_set(),
{
    let t = rising_of(lt, s);
    assert(rising(lt, t) && t.to_set() == s.to_set());
}

/// A list with one more element in its place.
pub open spec fn placed(s: Seq<Seq<char>>, x: Seq<char>) -> Seq<Seq<char>>
    decreases s.len(),
{
    if s.len() == 0 {
        seq![x]
    } else if crate::text::text_lt(x, s.last()) {
        placed(s.drop_last(), x).push(s.last())
    } else {
        s.push(x)
    }
}

/// The texts in ascending order, equal ones each as often as they occur.
pub open spec fn sorted(s: Seq<Seq<char>>) -> Seq<Seq<char>>
    decreases s.len(),
{
    if s.len() == 0 {
        Seq::empty()
    } else {
        placed(sorted(s.drop_last()), s.last())
    }
}

/// No text comes before the one to its left.
pub open spec fn in_order(s: Seq<Seq<char>>) -> bool {
    forall|i: int, j: int|
        0 <= i < j < s.len() ==> !crate::text::text_lt(#[trigger] s[j], #[trigger] s[i])
}

/// Placing keeps the order and adds one text.
proof fn placed_in_order(s: Seq<Seq<char>>, x: Seq<char>)
    requires
        in_order(s),
    ensures
        in_order(placed(s, x)),
        placed(s, x).to_multiset() == s.to_multiset().insert(x),
    decreases s.len(),
{
    broadcast use vstd::seq_lib::group_to_multiset_ensures;

    let t = placed(s, x);
    if s.len() == 0 {
        assert(t =~= s.push(x));
    } else if crate::text::text_lt(x, s.last()) {
        let u = s.drop_last();
        placed_in_order(u, x);
        let v = placed(u, x);
        assert(s =~= u.push(s.last()));
        assert forall|i: int, j: int| 0 <= i < j < t.len() implies !crate::text::text_lt(
            #[trigger] t[j],
            #[trigger] t[i],
        ) by {
            if j == t.len() - 1 {
                assert(v.to_multiset().contains(v[i]));
                if v[i] == x {
                    if crate::text::text_lt(s.last(), x) {
                        crate::text::text_lt_transitive(x, s.last(), x);
                        crate::text::text_lt_irreflexive(x);
                    }
                } else {
                    assert(u.to_multiset().contains(v[i]));
                    assert(u.contains(v[i]));
                    let p = choose|p: int| 0 <= p < u.len() && u[p] == v[i];
                    assert(s[p] == v[i]);
                    assert(!crate::text::text_lt(s[s.len() - 1], s[p]));
                }
            } else {
                assert(!crate::text::text_lt(v[j], v[i]));
            }
        }
        assert(t.to_multiset() =~= s.to_multiset().insert(x));
    } else {
        assert forall|i: int, j: int| 0 <= i < j < t.len() implies !crate::text::text_lt(
            #[trigger] t[j],
            #[trigger] t[i],
        ) by {
            if j == t.len() - 1 {
                if i < s.len() - 1 && crate::text::text_lt(x, s[i]) {
                    assert(!crate::text::text_lt(s[s.len() - 1], s[i]));
                    crate::text::text_lt_total(s.last(), s[i]);
                    if s.last() != s[i] {
                        crate::text::text_lt_transitive(x, s[i], s.last());
                    }
                }
            } else {
                assert(!crate::text::text_lt(s[j], s[i]));
            }
        }
    }
}

/// Sorting orders the texts and neither loses nor adds any.
pub proof fn sorted_in_order(s: Seq<Seq<char>>)
    ensures
        in_order(sorted(s)),
        sorted(s).to_multiset() == s.to_multiset(),
        sorted(s).len() == s.len(),
    decreases s.len(),
{
    broadcast use vstd::seq_lib::group_to_multiset_ensures;

    if s.len() > 0 {
        sorted_in_order(s.drop_last());
        placed_in_order(sorted(s.drop_last()), s.last());
        assert(s =~= s.drop_last().push(s.last()));
    }
    assert(sorted(s).len() == sorted(s).to_multiset().len());
    assert(s.len() == s.to_multiset().len());
}

/// Puts a text in its place.
fn place(list: &mut Vec<String>, x: String)
    ensures
        crate::text::texts(final(list)@) == placed(crate::text::texts(old(list)@), x@),
{
    let ghost all = crate::text::texts(list@);
    let mut i: usize = list.len();
    assert(all.take(i as int) =~= all);
    assert(placed(all, x@) =~= placed(all.take(i as int), x@) + all.skip(i as int));
    while i > 0 && text_less(x.as_str(), list[i - 1].as_str())
        invariant
            i <= list.len(),
            all == crate::text::texts(list@),
            placed(all, x@) == placed(all.take(i as int), x@) + all.skip(i as int),
        decreases i,
    {
        proof {
            let t = all.take(i as int);
            assert(t.last() == list@[i - 1]@);
            assert(t.drop_last() =~= all.take(i - 1));
            assert(placed(t, x@) == placed(all.take(i - 1), x@).push(t.last()));
            assert(placed(t, x@) + all.skip(i as int) =~= placed(all.take(i - 1), x@) + all.skip(
                i - 1,
            ));
        }
        i = i - 1;
    }
    proof {
        let t = all.take(i as int);
        if i > 0 {
            assert(t.last() == list@[i - 1]@);
        }
        assert(placed(t, x@) =~= t.push(x@));
        assert(placed(all, x@) =~= all.insert(i as int, x@));
    }
    list.insert(i, x);
    assert(crate::text::texts(list@) =~= all.insert(i as int, x@));
}

/// The texts in ascending order.
pub fn sort_texts(list: Vec<String>) -> (r: Vec<String>)
    ensures
        crate::text::texts(r@) == sorted(crate::text::texts(list@)),
{
    let ghost all = crate::text::texts(list@);
    let mut out: Vec<String> = Vec::new();
    let mut i: usize = 0;
    assert(crate::text::texts(out@) =~= sorted(all.take(0)));
    while i < list.len()
        invariant
            i <= list.len(),
            all == crate::text::texts(list@),
            crate::text::texts(out@) == sorted(all.take(i as int)),
        decreases list.len() - i,
    {
        assert(all.take(i + 1).drop_last() =~= all.take(i as int));
        assert(all.take(i + 1).last() == list@[i as int]@);
        place(&mut out, list[i].clone());
        i = i + 1;
    }
    assert(all.take(i as int) =~= all);
    out
}

} // verus!
