//! String-keyed maps kept in key order.

use vstd::prelude::*;

use crate::text::text_less;

verus! {

/// Keys in strictly ascending order.
pub open spec fn ascending(keys: Seq<Seq<char>>) -> bool {
    forall|i: int, j: int|
        0 <= i < j < keys.len() ==> crate::text::text_lt(#[trigger] keys[i], #[trigger] keys[j])
}

/// The keys of a map in ascending order.
pub open spec fn sorted_keys<V>(m: Map<Seq<char>, V>) -> Seq<Seq<char>> {
    choose|s: Seq<Seq<char>>| #[trigger] ascending(s) && s.to_set() == m.dom()
}

/// The names of a set in ascending order.
pub open spec fn sorted_names(names: Set<Seq<char>>) -> Seq<Seq<char>> {
    choose|s: Seq<Seq<char>>| #[trigger] ascending(s) && s.to_set() == names
}

/// The ascending enumeration depends on the keys alone.
pub proof fn sorted_keys_of_dom<A, B>(a: Map<Seq<char>, A>, b: Map<Seq<char>, B>)
    requires
        a.dom() == b.dom(),
    ensures
        sorted_keys(a) == sorted_keys(b),
{
    assert((|s: Seq<Seq<char>>| ascending(s) && s.to_set() == a.dom()) =~= (|s: Seq<Seq<char>>|
        ascending(s) && s.to_set() == b.dom()));
}

/// A finite map has its keys in ascending order: each once, and no others.
pub proof fn sorted_keys_facts<V>(m: Map<Seq<char>, V>)
    requires
        m.dom().finite(),
    ensures
        ascending(sorted_keys(m)),
        sorted_keys(m).to_set() == m.dom(),
        sorted_keys(m).no_duplicates(),
        forall|i: int| 0 <= i < sorted_keys(m).len() ==> m.contains_key(#[trigger] sorted_keys(m)[i]),
{
    let lt = crate::order::text_order();
    let some = m.dom().to_seq();
    vstd::seq_lib::seq_to_set_is_finite(some);
    assert(some.to_set() =~= m.dom()) by {
        m.dom().lemma_to_seq_to_set_id();
    }
    crate::order::orders_total();
    crate::order::enumeration_of(lt, some);
    let s = crate::order::enumeration(lt, some.to_set());
    assert forall|i: int, j: int| 0 <= i < j < s.len() implies crate::text::text_lt(
        #[trigger] s[i],
        #[trigger] s[j],
    ) by {
        assert(lt(s[i], s[j]));
    }
    assert(ascending(s) && s.to_set() == m.dom());
    let keys = sorted_keys(m);
    assert forall|i: int, j: int| 0 <= i < keys.len() && 0 <= j < keys.len() && i
        != j implies keys[i] != keys[j] by {
        crate::text::text_lt_irreflexive(keys[i]);
        if i < j {
            assert(crate::text::text_lt(keys[i], keys[j]));
        } else {
            assert(crate::text::text_lt(keys[j], keys[i]));
        }
    }
    assert forall|i: int| 0 <= i < keys.len() implies m.contains_key(#[trigger] keys[i]) by {
        assert(keys.to_set().contains(keys[i]));
    }
}

/// A finite map from strings to `V`, enumerated in ascending key order.
#[derive(Debug, PartialEq, Eq)]
pub struct FieldMap<V> {
    entries: Vec<(String, V)>,
}

/// Position of `key` among the first `n` entries, or `-1`.
spec fn position<V>(s: Seq<(String, V)>, key: Seq<char>) -> int
    decreases s.len(),
{
    if s.len() == 0 {
        -1
    } else if s.last().0@ == key {
        s.len() - 1
    } else {
        position(s.drop_last(), key)
    }
}

proof fn position_in_range<V>(s: Seq<(String, V)>, key: Seq<char>)
    ensures
        -1 <= position(s, key) < s.len(),
        position(s, key) >= 0 ==> s[position(s, key)].0@ == key,
        position(s, key) < 0 ==> forall|i: int| 0 <= i < s.len() ==> (#[trigger] s[i]).0@ != key,
    decreases s.len(),
{
    if s.len() > 0 && s.last().0@ != key {
        position_in_range(s.drop_last(), key);
        assert forall|i: int| position(s, key) < 0 && 0 <= i < s.len() implies (#[trigger] s[i]).0@
            != key by {
            if i < s.len() - 1 {
                assert(s.drop_last()[i] == s[i]);
            }
        }
    }
}

spec fn key_seq<V>(s: Seq<(String, V)>) -> Seq<Seq<char>> {
    Seq::new(s.len(), |i: int| s[i].0@)
}

spec fn entry_map<V>(s: Seq<(String, V)>) -> Map<Seq<char>, V> {
    Map::new(|k: Seq<char>| position(s, k) >= 0, |k: Seq<char>| s[position(s, k)].1)
}

/// Where the keys ascend, an entry is found under its key at its own position.
proof fn position_of_entry<V>(s: Seq<(String, V)>, i: int)
    requires
        ascending(key_seq(s)),
        0 <= i < s.len(),
    ensures
        position(s, s[i].0@) == i,
        entry_map(s).contains_key(s[i].0@),
        entry_map(s)[s[i].0@] == s[i].1,
{
    let k = s[i].0@;
    position_in_range(s, k);
    let p = position(s, k);
    if p != i {
        assert(key_seq(s)[i] == k && key_seq(s)[p] == k);
        crate::text::text_lt_irreflexive(k);
    }
}

/// A strictly ascending sequence is determined by its set of elements.
pub proof fn ascending_is_unique(a: Seq<Seq<char>>, b: Seq<Seq<char>>)
    requires
        ascending(a),
        ascending(b),
        a.to_set() == b.to_set(),
    ensures
        a == b,
    decreases a.len(),
{
    if a.len() == 0 {
        if b.len() > 0 {
            assert(b.to_set().contains(b[0]));
            assert(a.to_set().contains(b[0]));
        }
        assert(a =~= b);
    } else if b.len() == 0 {
        assert(a.to_set().contains(a[0]));
        assert(b.to_set().contains(a[0]));
    } else {
        let x = a.last();
        let y = b.last();
        assert(a.to_set().contains(x));
        assert(b.to_set().contains(y));
        assert(b.to_set().contains(x));
        assert(a.to_set().contains(y));
        let i = choose|i: int| 0 <= i < b.len() && b[i] == x;
        let j = choose|j: int| 0 <= j < a.len() && a[j] == y;
        if x != y {
            assert(crate::text::text_lt(b[i], b[b.len() - 1]));
            assert(crate::text::text_lt(a[j], a[a.len() - 1]));
            crate::text::text_lt_transitive(x, y, x);
            crate::text::text_lt_irreflexive(x);
        }
        let a1 = a.drop_last();
        let b1 = b.drop_last();
        assert forall|z: Seq<char>| a1.to_set().contains(z) <==> b1.to_set().contains(z) by {
            if a1.to_set().contains(z) {
                let p = choose|p: int| 0 <= p < a1.len() && a1[p] == z;
                assert(a[p] == z);
                assert(crate::text::text_lt(a[p], a[a.len() - 1]));
                crate::text::text_lt_irreflexive(x);
                assert(a.to_set().contains(z));
                let q = choose|q: int| 0 <= q < b.len() && b[q] == z;
                assert(b1[q] == z);
            }
            if b1.to_set().contains(z) {
                let p = choose|p: int| 0 <= p < b1.len() && b1[p] == z;
                assert(b[p] == z);
                assert(crate::text::text_lt(b[p], b[b.len() - 1]));
                crate::text::text_lt_irreflexive(x);
                assert(b.to_set().contains(z));
                let q = choose|q: int| 0 <= q < a.len() && a[q] == z;
                assert(a1[q] == z);
            }
        }
        assert(a1.to_set() =~= b1.to_set());
        assert forall|i: int, j: int| 0 <= i < j < a1.len() implies crate::text::text_lt(
            #[trigger] a1[i],
            #[trigger] a1[j],
        ) by {
            assert(a1[i] == a[i] && a1[j] == a[j]);
        }
        assert forall|i: int, j: int| 0 <= i < j < b1.len() implies crate::text::text_lt(
            #[trigger] b1[i],
            #[trigger] b1[j],
        ) by {
            assert(b1[i] == b[i] && b1[j] == b[j]);
        }
        ascending_is_unique(a1, b1);
        assert(a =~= a1.push(x));
        assert(b =~= b1.push(y));
    }
}

/// One more key of an enumeration.
pub proof fn prefix_set_step(keys: Seq<Seq<char>>, i: int)
    requires
        0 <= i < keys.len(),
    ensures
        keys.take(i + 1).to_set() == keys.take(i).to_set().insert(keys[i]),
        keys.no_duplicates() ==> !keys.take(i).to_set().contains(keys[i]),
{
    let a = keys.take(i + 1);
    let b = keys.take(i);
    assert forall|k: Seq<char>| a.to_set().contains(k) <==> b.to_set().insert(keys[i]).contains(
        k,
    ) by {
        if a.to_set().contains(k) {
            let j = choose|j: int| 0 <= j < a.len() && a[j] == k;
            if j < i {
                assert(b[j] == k);
            }
        }
        if b.to_set().contains(k) {
            let j = choose|j: int| 0 <= j < b.len() && b[j] == k;
            assert(a[j] == k);
        }
        assert(a[i] == keys[i]);
    }
    assert(a.to_set() =~= b.to_set().insert(keys[i]));
}

impl<V> FieldMap<V> {
    #[verifier::type_invariant]
    spec fn keys_ascend(self) -> bool {
        ascending(key_seq(self.entries@))
    }

    /// The mapping.
    pub closed spec fn view(&self) -> Map<Seq<char>, V> {
        entry_map(self.entries@)
    }

    /// The keys in the order of enumeration.
    pub closed spec fn keys(&self) -> Seq<Seq<char>> {
        key_seq(self.entries@)
    }

    /// The values in the order of enumeration.
    pub closed spec fn values(&self) -> Seq<V> {
        Seq::new(self.entries@.len(), |i: int| self.entries@[i].1)
    }

    /// Every value is smaller than the map, for recursion over values.
    pub proof fn values_decrease(&self)
        ensures
            forall|k: Seq<char>| self@.contains_key(k) ==> decreases_to!(self => #[trigger] self@[k]),
    {
        assert forall|k: Seq<char>| self@.contains_key(k) implies decreases_to!(
            self => #[trigger] self@[k]
        ) by {
            position_in_range(self.entries@, k);
            let i = position(self.entries@, k);
            assert(decreases_to!(self => self.entries));
            assert(decreases_to!(self.entries => self.entries@));
            assert(decreases_to!(self.entries@ => self.entries@[i]));
            assert(decreases_to!(self.entries@[i] => self.entries@[i].1));
        }
    }

    proof fn facts(s: Seq<(String, V)>)
        requires
            ascending(key_seq(s)),
        ensures
            key_seq(s).to_set() == entry_map(s).dom(),
            key_seq(s) == sorted_keys(entry_map(s)),
            entry_map(s).dom().finite(),
            forall|i: int|
                0 <= i < s.len() ==> entry_map(s).contains_key(#[trigger] key_seq(s)[i])
                    && entry_map(s)[key_seq(s)[i]] == s[i].1,
    {
        assert forall|i: int| 0 <= i < s.len() implies entry_map(s).contains_key(
            #[trigger] key_seq(s)[i],
        ) && entry_map(s)[key_seq(s)[i]] == s[i].1 by {
            position_of_entry(s, i);
        }
        assert forall|k: Seq<char>|
            key_seq(s).to_set().contains(k) <==> entry_map(s).dom().contains(k) by {
            if entry_map(s).dom().contains(k) {
                position_in_range(s, k);
                assert(key_seq(s)[position(s, k)] == k);
            }
        }
        assert(key_seq(s).to_set() =~= entry_map(s).dom());
        vstd::seq_lib::seq_to_set_is_finite(key_seq(s));
        let t = sorted_keys(entry_map(s));
        ascending_is_unique(key_seq(s), t);
    }

    /// The keys are enumerated in ascending order, each with its value.
    pub fn len(&self) -> (n: usize)
        ensures
            n == self.keys().len(),
            n == self.values().len(),
            self.keys() == sorted_keys(self@),
            self.keys().to_set() == self@.dom(),
            ascending(self.keys()),
            self@.dom().finite(),
            self@.dom().len() == n,
            self.keys().no_duplicates(),
            forall|k: Seq<char>|
                self@.contains_key(k) ==> exists|i: int|
                    0 <= i < n && #[trigger] self.keys()[i] == k,
            forall|i: int|
                0 <= i < n ==> self@.contains_key(#[trigger] self.keys()[i])
                    && self@[self.keys()[i]] == self.values()[i],
    {
        proof {
            use_type_invariant(self);
            Self::facts(self.entries@);
            assert forall|i: int, j: int| 0 <= i < self.keys().len() && 0 <= j < self.keys().len()
                && i != j implies self.keys()[i] != self.keys()[j] by {
                if i < j {
                    crate::text::text_lt_irreflexive(self.keys()[i]);
                } else {
                    crate::text::text_lt_irreflexive(self.keys()[j]);
                }
            }
            self.keys().unique_seq_to_set();
            assert forall|k: Seq<char>| self@.contains_key(k) implies exists|i: int|
                0 <= i < self.keys().len() && #[trigger] self.keys()[i] == k by {
                assert(self.keys().to_set().contains(k));
            }
        }
        self.entries.len()
    }

    /// An empty map.
    pub fn new() -> (r: Self)
        ensures
            r@ == Map::<Seq<char>, V>::empty(),
    {
        let r = FieldMap { entries: Vec::new() };
        assert(r@ =~= Map::<Seq<char>, V>::empty());
        r
    }

    /// Whether the map holds no key.
    pub fn is_empty(&self) -> (r: bool)
        ensures
            r == (self@ == Map::<Seq<char>, V>::empty()),
    {
        proof {
            if self.entries@.len() == 0 {
                assert(self@ =~= Map::<Seq<char>, V>::empty());
            } else {
                use_type_invariant(self);
                position_of_entry(self.entries@, 0);
                assert(self@.contains_key(self.entries@[0].0@));
            }
        }
        self.entries.len() == 0
    }

    /// The key at position `i` of the enumeration.
    pub fn key_at(&self, i: usize) -> (k: &String)
        requires
            i < self.keys().len(),
        ensures
            k@ == self.keys()[i as int],
    {
        &self.entries[i].0
    }

    /// The value at position `i` of the enumeration.
    pub fn value_at(&self, i: usize) -> (v: &V)
        requires
            i < self.keys().len(),
        ensures
            *v == self.values()[i as int],
            self@.contains_key(self.keys()[i as int]),
            *v == self@[self.keys()[i as int]],
    {
        proof {
            use_type_invariant(self);
            position_of_entry(self.entries@, i as int);
        }
        &self.entries[i].1
    }

    /// The first position whose key is not before `key`.
    fn lower_bound(&self, key: &str) -> (n: usize)
        ensures
            n <= self.entries@.len(),
            forall|i: int|
                0 <= i < n ==> crate::text::text_lt((#[trigger] self.entries@[i]).0@, key@),
            n < self.entries@.len() ==> !crate::text::text_lt(self.entries@[n as int].0@, key@),
    {
        let mut n: usize = 0;
        while n < self.entries.len() && text_less(self.entries[n].0.as_str(), key)
            invariant
                n <= self.entries@.len(),
                forall|i: int|
                    0 <= i < n ==> crate::text::text_lt((#[trigger] self.entries@[i]).0@, key@),
            decreases self.entries@.len() - n,
        {
            n = n + 1;
        }
        n
    }

    /// Keys from a lower bound on that differ from `key` come after it.
    proof fn after_lower_bound(s: Seq<(String, V)>, key: Seq<char>, n: int)
        requires
            ascending(key_seq(s)),
            0 <= n <= s.len(),
            n < s.len() ==> !crate::text::text_lt(s[n].0@, key),
        ensures
            forall|i: int| n < i < s.len() ==> crate::text::text_lt(key, (#[trigger] s[i]).0@),
            n < s.len() && s[n].0@ != key ==> crate::text::text_lt(key, s[n].0@),
    {
        if n < s.len() {
            crate::text::text_lt_total(key, s[n].0@);
            assert forall|i: int| n < i < s.len() implies crate::text::text_lt(
                key,
                (#[trigger] s[i]).0@,
            ) by {
                assert(crate::text::text_lt(key_seq(s)[n], key_seq(s)[i]));
                if s[n].0@ != key {
                    crate::text::text_lt_transitive(key, s[n].0@, s[i].0@);
                }
            }
        }
    }

    /// The value under `key`.
    pub fn get(&self, key: &str) -> (r: Option<&V>)
        ensures
            match r {
                Some(v) => self@.contains_key(key@) && *v == self@[key@],
                None => !self@.contains_key(key@),
            },
    {
        let n = self.lower_bound(key);
        proof {
            use_type_invariant(self);
            Self::after_lower_bound(self.entries@, key@, n as int);
            position_in_range(self.entries@, key@);
            crate::text::text_lt_irreflexive(key@);
        }
        if n < self.entries.len() && crate::text::same_text(self.entries[n].0.as_str(), key) {
            proof {
                position_of_entry(self.entries@, n as int);
            }
            Some(&self.entries[n].1)
        } else {
            None
        }
    }

    /// Whether `key` is present.
    pub fn contains_key(&self, key: &str) -> (r: bool)
        ensures
            r == self@.contains_key(key@),
    {
        self.get(key).is_some()
    }

    /// Binds `key` to `value`, replacing what it was bound to.
    pub fn insert(&mut self, key: String, value: V)
        ensures
            final(self)@ == old(self)@.insert(key@, value),
    {
        proof {
            use_type_invariant(&*self);
        }
        let n = self.lower_bound(key.as_str());
        let mut v: Vec<(String, V)> = Vec::new();
        std::mem::swap(&mut v, &mut self.entries);
        let ghost s = v@;
        let ghost k = key@;
        proof {
            Self::after_lower_bound(s, k, n as int);
            crate::text::text_lt_irreflexive(k);
        }
        if n < v.len() && crate::text::same_text(v[n].0.as_str(), key.as_str()) {
            v.set(n, (key, value));
            proof {
                assert(key_seq(v@) =~= key_seq(s));
                Self::facts(s);
                Self::facts(v@);
                assert forall|q: Seq<char>| #[trigger]
                    entry_map(v@).contains_key(q) implies entry_map(v@)[q] == entry_map(s).insert(
                    k,
                    value,
                )[q] by {
                    position_in_range(v@, q);
                    let p = position(v@, q);
                    position_of_entry(v@, p);
                    position_of_entry(s, p);
                    position_of_entry(s, n as int);
                    position_of_entry(v@, n as int);
                }
                position_of_entry(s, n as int);
                assert(entry_map(v@) =~= entry_map(s).insert(k, value));
            }
        } else {
            v.insert(n, (key, value));
            proof {
                let t = v@;
                assert forall|i: int, j: int| 0 <= i < j < t.len() implies crate::text::text_lt(
                    #[trigger] key_seq(t)[i],
                    #[trigger] key_seq(t)[j],
                ) by {
                    if j < n {
                        assert(key_seq(s)[i] == key_seq(t)[i] && key_seq(s)[j] == key_seq(t)[j]);
                    } else if i < n && j > n {
                        assert(key_seq(s)[i] == key_seq(t)[i] && key_seq(s)[j - 1] == key_seq(
                            t,
                        )[j]);
                    } else if i > n {
                        assert(key_seq(s)[i - 1] == key_seq(t)[i] && key_seq(s)[j - 1] == key_seq(
                            t,
                        )[j]);
                    } else if i == n {
                        assert(t[j] == s[j - 1]);
                    } else {
                        assert(t[i] == s[i]);
                    }
                }
                Self::facts(s);
                Self::facts(t);
                assert(t[n as int] == (key, value));
                position_of_entry(t, n as int);
                assert forall|q: Seq<char>|
                    entry_map(t).contains_key(q) <==> #[trigger] entry_map(s).insert(
                        k,
                        value,
                    ).contains_key(q) by {
                    position_in_range(t, q);
                    position_in_range(s, q);
                    let p = position(t, q);
                    if p >= 0 && q != k {
                        if p < n {
                            assert(s[p] == t[p]);
                        } else {
                            assert(s[p - 1] == t[p]);
                        }
                    }
                    let r = position(s, q);
                    if r >= 0 {
                        if r < n {
                            assert(s[r] == t[r]);
                            position_of_entry(t, r);
                        } else {
                            assert(s[r] == t[r + 1]);
                            position_of_entry(t, r + 1);
                        }
                    }
                }
                assert forall|q: Seq<char>| #[trigger]
                    entry_map(t).contains_key(q) implies entry_map(t)[q] == entry_map(s).insert(
                    k,
                    value,
                )[q] by {
                    position_in_range(t, q);
                    let p = position(t, q);
                    if p < n {
                        assert(s[p] == t[p]);
                        position_of_entry(s, p);
                        assert(q != k);
                    } else if p > n {
                        assert(s[p - 1] == t[p]);
                        position_of_entry(s, p - 1);
                        assert(q != k);
                    }
                }
                assert(entry_map(t) =~= entry_map(s).insert(k, value));
            }
        }
        self.entries = v;
    }

    /// Unbinds `key` and hands back what it was bound to.
    pub fn remove(&mut self, key: &str) -> (r: Option<V>)
        ensures
            final(self)@ == old(self)@.remove(key@),
            match r {
                Some(v) => old(self)@.contains_key(key@) && v == old(self)@[key@],
                None => !old(self)@.contains_key(key@),
            },
    {
        proof {
            use_type_invariant(&*self);
        }
        let n = self.lower_bound(key);
        let mut v: Vec<(String, V)> = Vec::new();
        std::mem::swap(&mut v, &mut self.entries);
        let ghost s = v@;
        let ghost k = key@;
        proof {
            Self::after_lower_bound(s, k, n as int);
            crate::text::text_lt_irreflexive(k);
            position_in_range(s, k);
        }
        if n < v.len() && crate::text::same_text(v[n].0.as_str(), key) {
            let found = v.remove(n);
            proof {
                position_of_entry(s, n as int);
            }
            proof {
                let t = v@;
                assert forall|i: int, j: int| 0 <= i < j < t.len() implies crate::text::text_lt(
                    #[trigger] key_seq(t)[i],
                    #[trigger] key_seq(t)[j],
                ) by {
                    let a = if i < n { i } else { i + 1 };
                    let b = if j < n { j } else { j + 1 };
                    assert(key_seq(s)[a] == key_seq(t)[i] && key_seq(s)[b] == key_seq(t)[j]);
                }
                assert forall|q: Seq<char>|
                    entry_map(t).contains_key(q) <==> #[trigger] entry_map(s).remove(
                        k,
                    ).contains_key(q) by {
                    position_in_range(t, q);
                    position_in_range(s, q);
                    let p = position(t, q);
                    if p >= 0 {
                        if p < n {
                            assert(s[p] == t[p]);
                        } else {
                            assert(s[p + 1] == t[p]);
                        }
                    }
                    let r = position(s, q);
                    if r >= 0 && q != k {
                        if r < n {
                            assert(s[r] == t[r]);
                        } else {
                            assert(s[r] == t[r - 1]);
                        }
                    }
                }
                assert forall|q: Seq<char>| #[trigger]
                    entry_map(t).contains_key(q) implies entry_map(t)[q] == entry_map(s).remove(
                    k,
                )[q] by {
                    position_in_range(t, q);
                    let p = position(t, q);
                    if p < n {
                        assert(s[p] == t[p]);
                        position_of_entry(s, p);
                    } else {
                        assert(s[p + 1] == t[p]);
                        position_of_entry(s, p + 1);
                    }
                }
                assert(entry_map(t) =~= entry_map(s).remove(k));
            }
            self.entries = v;
            Some(found.1)
        } else {
            proof {
                assert(!entry_map(s).contains_key(k));
                assert(entry_map(s) =~= entry_map(s).remove(k));
            }
            self.entries = v;
            None
        }
    }
}

/// Whether two maps have the same keys.
pub fn same_keys<A, B>(a: &FieldMap<A>, b: &FieldMap<B>) -> (r: bool)
    ensures
        r == (a@.dom() == b@.dom()),
{
    let n = a.len();
    if n != b.len() {
        return false;
    }
    let mut i: usize = 0;
    while i < n
        invariant
            i <= n,
            n == a.keys().len(),
            n == b.keys().len(),
            a.keys().to_set() == a@.dom(),
            b.keys().to_set() == b@.dom(),
            ascending(a.keys()),
            ascending(b.keys()),
            forall|j: int| 0 <= j < i ==> a.keys()[j] == b.keys()[j],
        decreases n - i,
    {
        if !crate::text::same_text(a.key_at(i).as_str(), b.key_at(i).as_str()) {
            proof {
                if a@.dom() == b@.dom() {
                    ascending_is_unique(a.keys(), b.keys());
                }
            }
            return false;
        }
        i = i + 1;
    }
    assert(a.keys() =~= b.keys());
    true
}

/// Whether every key of `a` is a key of `b`.
pub fn keys_within<A, B>(a: &FieldMap<A>, b: &FieldMap<B>) -> (r: bool)
    ensures
        r == a@.dom().subset_of(b@.dom()),
{
    let n = a.len();
    let mut i: usize = 0;
    while i < n
        invariant
            i <= n,
            n == a.keys().len(),
            a.keys().to_set() == a@.dom(),
            forall|j: int| 0 <= j < i ==> b@.contains_key(#[trigger] a.keys()[j]),
        decreases n - i,
    {
        if !b.contains_key(a.key_at(i).as_str()) {
            assert(a.keys().to_set().contains(a.keys()[i as int]));
            return false;
        }
        i = i + 1;
    }
    assert forall|k: Seq<char>| a@.dom().contains(k) implies b@.dom().contains(k) by {
        assert(a.keys().to_set().contains(k));
    }
    true
}

/// A finite set of names, enumerated in ascending order.
#[derive(Debug, PartialEq, Eq)]
pub struct NameSet {
    map: FieldMap<()>,
}

impl NameSet {
    /// The names.
    pub closed spec fn view(&self) -> Set<Seq<char>> {
        self.map@.dom()
    }

    /// The names in ascending order.
    pub closed spec fn names(&self) -> Seq<Seq<char>> {
        self.map.keys()
    }

    /// The empty set.
    pub fn new() -> (r: Self)
        ensures
            r@ == Set::<Seq<char>>::empty(),
    {
        NameSet { map: FieldMap::new() }
    }

    /// How many names there are.
    pub fn len(&self) -> (n: usize)
        ensures
            n == self.names().len(),
            self.names() == sorted_names(self@),
            self.names().to_set() == self@,
            self.names().no_duplicates(),
            ascending(self.names()),
            self@.finite(),
            self@.len() == n,
    {
        let n = self.map.len();
        proof {
            ascending_is_unique(self.names(), sorted_names(self@));
        }
        n
    }

    /// The name at position `i` of the enumeration.
    pub fn at(&self, i: usize) -> (r: &String)
        requires
            i < self.names().len(),
        ensures
            r@ == self.names()[i as int],
    {
        self.map.key_at(i)
    }

    /// Whether the name is in the set.
    pub fn contains(&self, name: &str) -> (r: bool)
        ensures
            r == self@.contains(name@),
    {
        self.map.contains_key(name)
    }

    /// Adds a name.
    pub fn insert(&mut self, name: String)
        ensures
            final(self)@ == old(self)@.insert(name@),
    {
        self.map.insert(name, ());
        assert(self@ =~= old(self)@.insert(name@));
    }

    /// Takes a name out.
    pub fn remove(&mut self, name: &str)
        ensures
            final(self)@ == old(self)@.remove(name@),
    {
        let _ = self.map.remove(name);
        assert(self@ =~= old(self)@.remove(name@));
    }

    /// Adds every name of another set.
    pub fn extend(&mut self, other: &NameSet)
        ensures
            final(self)@ == old(self)@.union(other@),
    {
        let n = other.len();
        let mut i: usize = 0;
        assert(other.names().take(0).to_set() =~= Set::<Seq<char>>::empty());
        assert(self@ =~= old(self)@.union(other.names().take(0).to_set()));
        while i < n
            invariant
                i <= n,
                n == other.names().len(),
                self@ == old(self)@.union(other.names().take(i as int).to_set()),
            decreases n - i,
        {
            proof {
                prefix_set_step(other.names(), i as int);
            }
            self.insert(other.at(i).clone());
            i = i + 1;
            assert(self@ =~= old(self)@.union(other.names().take(i as int).to_set()));
        }
        assert(other.names().take(n as int) =~= other.names());
    }
}

/// The first of some numbered names that is not in use.
pub open spec fn is_first_free(
    used: Set<Seq<char>>,
    name: spec_fn(nat) -> Seq<char>,
    n: nat,
) -> bool {
    !used.contains(name(n)) && forall|m: nat| m < n ==> used.contains(#[trigger] name(m))
}

/// The number of the first of some numbered names that is not in use.
pub open spec fn first_free(used: Set<Seq<char>>, name: spec_fn(nat) -> Seq<char>) -> nat {
    choose|n: nat| is_first_free(used, name, n)
}

/// Names that differ for different numbers.
pub open spec fn all_differ(name: spec_fn(nat) -> Seq<char>) -> bool {
    forall|a: nat, b: nat| #[trigger] name(a) == #[trigger] name(b) ==> a == b
}

/// No more names are in use than there are.
pub(crate) proof fn used_before(
    used: Set<Seq<char>>,
    name: spec_fn(nat) -> Seq<char>,
    n: nat,
)
    requires
        used.finite(),
        all_differ(name),
        forall|m: nat| m < n ==> used.contains(#[trigger] name(m)),
    ensures
        n <= used.len(),
    decreases n,
{
    if n > 0 {
        let last = name((n - 1) as nat);
        assert(used.contains(last));
        let rest = used.remove(last);
        assert forall|m: nat| m < n - 1 implies rest.contains(#[trigger] name(m)) by {
            assert(used.contains(name(m)));
        }
        used_before(rest, name, (n - 1) as nat);
    }
}

proof fn found_from(used: Set<Seq<char>>, name: spec_fn(nat) -> Seq<char>, n: nat) -> (k: nat)
    requires
        used.finite(),
        all_differ(name),
        forall|m: nat| m < n ==> used.contains(#[trigger] name(m)),
    ensures
        is_first_free(used, name, k),
    decreases used.len() + 1 - n,
{
    used_before(used, name, n);
    if used.contains(name(n)) {
        assert forall|m: nat| m < n + 1 implies used.contains(#[trigger] name(m)) by {
            if m == n {
                assert(name(m) == name(n));
            }
        }
        used_before(used, name, n + 1);
        found_from(used, name, n + 1)
    } else {
        n
    }
}

/// Among numbered names that differ there is a first one that is not in use.
pub proof fn first_free_found(used: Set<Seq<char>>, name: spec_fn(nat) -> Seq<char>)
    requires
        used.finite(),
        all_differ(name),
    ensures
        is_first_free(used, name, first_free(used, name)),
        first_free(used, name) <= used.len(),
{
    let k = found_from(used, name, 0);
    used_before(used, name, first_free(used, name));
}

/// There is only one first name that is not in use.
pub proof fn first_free_unique(used: Set<Seq<char>>, name: spec_fn(nat) -> Seq<char>, n: nat)
    requires
        is_first_free(used, name, n),
    ensures
        first_free(used, name) == n,
{
    let k = first_free(used, name);
    assert(is_first_free(used, name, k));
    if k < n {
        assert(used.contains(name(k)));
    }
    if n < k {
        assert(used.contains(name(n)));
    }
}

} // verus!
