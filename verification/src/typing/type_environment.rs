//! Type environments: what the variables of a pattern are bound to.

use vstd::prelude::*;

use std::rc::Rc;

use super::variable_type::{Schema, SchemaView, VariableType, VariableTypeView};
use crate::fields::FieldMap;
use crate::syntax::descriptor::Descriptor;
use crate::text::copy_text;

verus! {

/// A mapping from variable names to types.
#[derive(Debug, PartialEq, Eq)]
pub struct TypeEnvironment {
    bindings: FieldMap<Rc<VariableType>>,
}

/// The value of a `TypeEnvironment`.
pub type Env = Map<Seq<char>, VariableTypeView>;

/// The join of two environments: a variable that only one side binds may be
/// null.
pub open spec fn env_union(a: Env, b: Env) -> Env {
    Map::new(
        |k: Seq<char>| a.contains_key(k) || b.contains_key(k),
        |k: Seq<char>|
            if a.contains_key(k) && b.contains_key(k) {
                a[k].join(b[k])
            } else if a.contains_key(k) {
                a[k].join(VariableTypeView::Null)
            } else {
                VariableTypeView::Null.join(b[k])
            },
    )
}

/// The two types of `k` have nothing in common though neither is empty.
pub open spec fn env_conflict(a: Env, b: Env, k: Seq<char>) -> bool {
    &&& a.contains_key(k)
    &&& b.contains_key(k)
    &&& a[k].meet(b[k]) is Zero
    &&& !a[k].is_empty()
    &&& !b[k].is_empty()
}

/// The first of the keys at which the environments conflict.
pub open spec fn first_conflict(a: Env, b: Env, keys: Seq<Seq<char>>) -> Option<Seq<char>>
    decreases keys.len(),
{
    if keys.len() == 0 {
        None
    } else {
        match first_conflict(a, b, keys.drop_last()) {
            Some(k) => Some(k),
            None => if env_conflict(a, b, keys.last()) {
                Some(keys.last())
            } else {
                None
            },
        }
    }
}

/// The meet of two environments that do not conflict.
pub open spec fn env_meet(schema: SchemaView, a: Env, b: Env) -> Env {
    Map::new(
        |k: Seq<char>| a.contains_key(k) || b.contains_key(k),
        |k: Seq<char>|
            if a.contains_key(k) && b.contains_key(k) {
                schema.refine(a[k].meet(b[k]))
            } else if a.contains_key(k) {
                a[k]
            } else {
                b[k]
            },
    )
}

/// What is said of a conflict.
pub open spec fn conflict_text(a: Env, b: Env, k: Seq<char>) -> Seq<char> {
    "Cannot reconcile types for variable "@ + k + ": "@ + a[k].text() + " and "@ + b[k].text()
}

/// The meet of two environments, or what is said of the first conflict.
pub open spec fn env_meet_result(schema: SchemaView, a: Env, b: Env) -> Result<Env, Seq<char>> {
    match first_conflict(a, b, crate::fields::sorted_keys(b)) {
        Some(k) => Err(conflict_text(a, b, k)),
        None => Ok(env_meet(schema, a, b)),
    }
}

/// The left outer join: a shared variable keeps its type where the right side
/// does not match, and a variable of the right side alone may be null.
pub open spec fn env_outer_join(schema: SchemaView, a: Env, b: Env) -> Env {
    Map::new(
        |k: Seq<char>| a.contains_key(k) || b.contains_key(k),
        |k: Seq<char>|
            if a.contains_key(k) && b.contains_key(k) {
                a[k].join(schema.refine(a[k].meet(b[k])))
            } else if a.contains_key(k) {
                a[k]
            } else {
                b[k].join(VariableTypeView::Null)
            },
    )
}

/// Some variable has an empty type.
pub open spec fn env_is_empty(a: Env) -> bool {
    exists|k: Seq<char>| #[trigger] a.contains_key(k) && a[k].is_empty()
}

/// Every variable stands for a group.
pub open spec fn env_to_group(a: Env) -> Env {
    Map::new(
        |k: Seq<char>| a.contains_key(k),
        |k: Seq<char>| VariableTypeView::Group(Box::new(a[k])),
    )
}

/// An environment with one binding, or none.
pub open spec fn env_of(var: Option<Seq<char>>, t: VariableTypeView) -> Env {
    match var {
        Some(v) => Map::empty().insert(v, t),
        None => Map::empty(),
    }
}

/// The bindings of `b` put over those of `a`.
pub open spec fn env_overlay(a: Env, b: Env) -> Env {
    a.union_prefer_right(b)
}

/// An outer join with nothing is no change.
pub proof fn outer_join_with_nothing(schema: SchemaView, a: Env)
    ensures
        env_outer_join(schema, a, Map::empty()) == a,
{
    assert(env_outer_join(schema, a, Map::empty()) =~= a);
}

/// A meet with nothing is no change, on either side.
pub proof fn meet_with_nothing(schema: SchemaView, a: Env)
    ensures
        env_meet_result(schema, a, Map::empty()) == Ok::<Env, Seq<char>>(a),
        env_meet(schema, Map::empty(), a) == a,
        first_conflict(Map::empty(), a, crate::fields::sorted_keys(a)) is None,
{
    assert(env_meet(schema, a, Map::empty()) =~= a);
    assert(env_meet(schema, Map::empty(), a) =~= a);
    no_conflict_without_bindings(a, Map::empty(), crate::fields::sorted_keys(Map::<Seq<char>, VariableTypeView>::empty()));
    no_conflict_without_bindings(Map::empty(), a, crate::fields::sorted_keys(a));
}

proof fn no_conflict_without_bindings(a: Env, b: Env, keys: Seq<Seq<char>>)
    requires
        a == Map::<Seq<char>, VariableTypeView>::empty() || b == Map::<Seq<char>, VariableTypeView>::empty(),
    ensures
        first_conflict(a, b, keys) is None,
    decreases keys.len(),
{
    if keys.len() > 0 {
        no_conflict_without_bindings(a, b, keys.drop_last());
    }
}

/// The join with itself is no change: equal types collapse.
pub proof fn union_with_itself(a: Env)
    ensures
        env_union(a, a) == a,
{
    assert(env_union(a, a) =~= a);
}

impl Clone for TypeEnvironment {
    fn clone(&self) -> (r: Self)
        ensures
            r@ == self@,
    {
        let mut out = TypeEnvironment::new();
        let n = self.bindings.len();
        let mut i: usize = 0;
        assert(self.bindings.keys().take(0).to_set() =~= Set::<Seq<char>>::empty());
        while i < n
            invariant
                i <= n,
                n == self.bindings.keys().len(),
                self.bindings.keys().no_duplicates(),
                self.bindings.keys().to_set() == self.bindings@.dom(),
                out@.dom() == self.bindings.keys().take(i as int).to_set(),
                forall|j: int|
                    0 <= j < i ==> out@[#[trigger] self.bindings.keys()[j]]
                        == self@[self.bindings.keys()[j]],
            decreases n - i,
        {
            proof {
                crate::fields::prefix_set_step(self.bindings.keys(), i as int);
            }
            out.set_shared(
                self.bindings.key_at(i).as_str(),
                Rc::clone(self.bindings.value_at(i)),
            );
            i = i + 1;
        }
        proof {
            assert(self.bindings.keys().take(n as int) =~= self.bindings.keys());
            assert forall|k: Seq<char>| self@.contains_key(k) implies out@[k] == self@[k] by {
                assert(self.bindings.keys().to_set().contains(k));
            }
            assert(out@ =~= self@);
        }
        out
    }
}

impl TypeEnvironment {
    /// The bindings.
    pub closed spec fn view(&self) -> Env {
        Map::new(
            |k: Seq<char>| self.bindings@.contains_key(k),
            |k: Seq<char>| self.bindings@[k]@,
        )
    }

    /// The variables in ascending order.
    pub closed spec fn names(&self) -> Seq<Seq<char>> {
        self.bindings.keys()
    }

    /// No bindings.
    pub fn new() -> (r: Self)
        ensures
            r@ == Map::<Seq<char>, VariableTypeView>::empty(),
    {
        let r = TypeEnvironment { bindings: FieldMap::new() };
        assert(r@ =~= Map::<Seq<char>, VariableTypeView>::empty());
        r
    }

    /// Binds the variable of the descriptor, if it has one.
    pub fn create_context(descriptor: &Descriptor, t: VariableType) -> (r: Self)
        ensures
            r@ == env_of(descriptor.var_name(), t@),
    {
        TypeEnvironment::create_context_shared(descriptor, Rc::new(t))
    }

    /// Binds the variable of the descriptor, if it has one.
    pub fn create_context_shared(descriptor: &Descriptor, t: Rc<VariableType>) -> (r: Self)
        ensures
            r@ == env_of(descriptor.var_name(), t@),
    {
        let mut env = TypeEnvironment::new();
        if let Some(var) = &descriptor.var {
            env.set_shared(var.as_str(), t);
        }
        env
    }

    /// Binds a variable.
    pub fn set(&mut self, key: &str, value: VariableType)
        ensures
            final(self)@ == old(self)@.insert(key@, value@),
    {
        self.set_shared(key, Rc::new(value));
    }

    /// Binds a variable to a shared type.
    pub fn set_shared(&mut self, key: &str, value: Rc<VariableType>)
        ensures
            final(self)@ == old(self)@.insert(key@, value@),
    {
        self.bindings.insert(copy_text(key), value);
        assert(self@ =~= old(self)@.insert(key@, value@));
    }

    /// The type of a variable.
    pub fn get(&self, key: &str) -> (r: Option<&VariableType>)
        ensures
            match r {
                Some(t) => self@.contains_key(key@) && t@ == self@[key@],
                None => !self@.contains_key(key@),
            },
    {
        match self.bindings.get(key) {
            Some(t) => Some(&**t),
            None => None,
        }
    }

    /// The shared type of a variable.
    pub fn get_shared(&self, key: &str) -> (r: Option<&Rc<VariableType>>)
        ensures
            match r {
                Some(t) => self@.contains_key(key@) && t@ == self@[key@],
                None => !self@.contains_key(key@),
            },
    {
        self.bindings.get(key)
    }

    /// How many variables are bound.
    pub fn len(&self) -> (n: usize)
        ensures
            n == self.names().len(),
            self.names() == crate::fields::sorted_keys(self@),
            self.names().to_set() == self@.dom(),
            self.names().no_duplicates(),
            self@.dom().finite(),
    {
        let n = self.bindings.len();
        proof {
            assert(self@.dom() =~= self.bindings@.dom());
            crate::fields::sorted_keys_of_dom(self@, self.bindings@);
        }
        n
    }

    /// The variable at position `i`.
    pub fn name_at(&self, i: usize) -> (r: &String)
        requires
            i < self.names().len(),
        ensures
            r@ == self.names()[i as int],
    {
        self.bindings.key_at(i)
    }

    /// The type of the variable at position `i`.
    pub fn type_at(&self, i: usize) -> (r: &Rc<VariableType>)
        requires
            i < self.names().len(),
        ensures
            self@.contains_key(self.names()[i as int]),
            r@ == self@[self.names()[i as int]],
    {
        self.bindings.value_at(i)
    }

    /// The variables in ascending order.
    pub fn keys(&self) -> (r: Vec<&String>)
        ensures
            r@.len() == crate::fields::sorted_keys(self@).len(),
            forall|i: int|
                0 <= i < r@.len() ==> (#[trigger] r@[i])@ == crate::fields::sorted_keys(self@)[i],
    {
        let n = self.len();
        let mut out: Vec<&String> = Vec::new();
        let mut i: usize = 0;
        while i < n
            invariant
                i <= n,
                n == self.names().len(),
                out@.len() == i,
                forall|j: int| 0 <= j < i ==> (#[trigger] out@[j])@ == self.names()[j],
            decreases n - i,
        {
            out.push(self.name_at(i));
            i = i + 1;
        }
        out
    }

    /// The bindings in ascending order of the variables.
    pub fn iter(&self) -> (r: Vec<(&String, &Rc<VariableType>)>)
        ensures
            r@.len() == crate::fields::sorted_keys(self@).len(),
            forall|i: int|
                0 <= i < r@.len() ==> (#[trigger] r@[i]).0@ == crate::fields::sorted_keys(
                    self@,
                )[i] && r@[i].1@ == self@[r@[i].0@],
    {
        let n = self.len();
        let mut out: Vec<(&String, &Rc<VariableType>)> = Vec::new();
        let mut i: usize = 0;
        while i < n
            invariant
                i <= n,
                n == self.names().len(),
                out@.len() == i,
                forall|j: int|
                    0 <= j < i ==> (#[trigger] out@[j]).0@ == self.names()[j] && out@[j].1@
                        == self@[out@[j].0@],
            decreases n - i,
        {
            out.push((self.name_at(i), self.type_at(i)));
            i = i + 1;
        }
        out
    }

    /// The pointwise join of two environments.
    pub fn union(_schema: &Schema, a: &TypeEnvironment, b: &TypeEnvironment) -> (r: TypeEnvironment)
        ensures
            r@ == env_union(a@, b@),
    {
        let mut out = TypeEnvironment::new();
        let ghost want = env_union(a@, b@);
        let n = a.len();
        let mut i: usize = 0;
        assert(a.names().take(0).to_set() =~= Set::<Seq<char>>::empty());
        while i < n
            invariant
                i <= n,
                n == a.names().len(),
                want == env_union(a@, b@),
                a.names().to_set() == a@.dom(),
                out@.dom() == a.names().take(i as int).to_set(),
                forall|k: Seq<char>| out@.contains_key(k) ==> #[trigger] out@[k] == want[k],
            decreases n - i,
        {
            proof {
                crate::fields::prefix_set_step(a.names(), i as int);
            }
            let key = a.name_at(i);
            let ta = a.type_at(i);
            let other = match b.get(key.as_str()) {
                Some(tb) => tb.clone(),
                None => VariableType::Null,
            };
            out.set(key.as_str(), VariableType::join((**ta).clone(), other));
            i = i + 1;
        }
        proof {
            assert(a.names().take(n as int) =~= a.names());
            assert(b.names().take(0).to_set() =~= Set::<Seq<char>>::empty());
            assert(out@.dom() =~= a@.dom().union(b.names().take(0).to_set()));
        }
        let p = b.len();
        let mut j: usize = 0;
        while j < p
            invariant
                j <= p,
                p == b.names().len(),
                want == env_union(a@, b@),
                b.names().to_set() == b@.dom(),
                out@.dom() == a@.dom().union(b.names().take(j as int).to_set()),
                forall|k: Seq<char>| out@.contains_key(k) ==> #[trigger] out@[k] == want[k],
            decreases p - j,
        {
            proof {
                crate::fields::prefix_set_step(b.names(), j as int);
            }
            let key = b.name_at(j);
            let tb = b.type_at(j);
            let ghost before = out@;
            if a.get(key.as_str()).is_none() {
                out.set(key.as_str(), VariableType::join(VariableType::Null, (**tb).clone()));
                assert(out@.dom() =~= before.dom().insert(key@));
            }
            j = j + 1;
            assert(out@.dom() =~= a@.dom().union(b.names().take(j as int).to_set()));
        }
        proof {
            assert(b.names().take(p as int) =~= b.names());
            assert(out@ =~= want);
        }
        out
    }

    /// The pointwise meet of two environments, refined against the schema.
    pub fn meet(schema: &Schema, a: &TypeEnvironment, b: &TypeEnvironment) -> (r: Result<
        TypeEnvironment,
        String,
    >)
        ensures
            match r {
                Ok(env) => env_meet_result(schema@, a@, b@) == Ok::<Env, Seq<char>>(env@),
                Err(m) => env_meet_result(schema@, a@, b@) == Err::<Env, Seq<char>>(m@),
            },
    {
        match TypeEnvironment::meet_owned(schema, a.clone(), b) {
            Ok(env) => Ok(env),
            Err(e) => Err(e.1),
        }
    }

    /// `meet` that consumes the left environment and hands it back unchanged
    /// in the error case.
    pub fn meet_owned(schema: &Schema, a: TypeEnvironment, b: &TypeEnvironment) -> (r: Result<
        TypeEnvironment,
        (TypeEnvironment, String),
    >)
        ensures
            match r {
                Ok(env) => env_meet_result(schema@, a@, b@) == Ok::<Env, Seq<char>>(env@),
                Err((back, m)) => back == a && env_meet_result(schema@, a@, b@) == Err::<
                    Env,
                    Seq<char>,
                >(m@),
            },
    {
        let p = b.len();
        let mut merged: Vec<VariableType> = Vec::new();
        let mut j: usize = 0;
        while j < p
            invariant
                j <= p,
                p == b.names().len(),
                b.names() == crate::fields::sorted_keys(b@),
                b.names().to_set() == b@.dom(),
                merged@.len() == j,
                first_conflict(a@, b@, b.names().take(j as int)) is None,
                forall|i: int|
                    0 <= i < j ==> (#[trigger] merged@[i])@ == env_meet(
                        schema@,
                        a@,
                        b@,
                    )[b.names()[i]],
            decreases p - j,
        {
            let key = b.name_at(j);
            let tb = b.type_at(j);
            proof {
                assert(b.names().take(j + 1).drop_last() =~= b.names().take(j as int));
            }
            let t = match a.get(key.as_str()) {
                Some(ta) => {
                    let met = VariableType::meet(ta, &**tb);
                    let bottom = match met {
                        VariableType::Zero => true,
                        _ => false,
                    };
                    if bottom && !ta.is_empty() && !tb.is_empty() {
                        let mut msg = copy_text("Cannot reconcile types for variable ");
                        msg.append(key.as_str());
                        msg.append(": ");
                        msg.append(ta.to_string().as_str());
                        msg.append(" and ");
                        msg.append(tb.to_string().as_str());
                        proof {
                            conflict_found(a@, b@, b.names(), j as int);
                            assert(msg@ =~= conflict_text(a@, b@, key@));
                        }
                        return Err((a, msg));
                    }
                    VariableType::refine(schema, &met)
                },
                None => (**tb).clone(),
            };
            merged.push(t);
            j = j + 1;
        }
        assert(b.names().take(p as int) =~= b.names());
        let ghost before = a@;
        let ghost want = env_meet(schema@, a@, b@);
        let mut out = a;
        let mut i: usize = 0;
        assert(b.names().take(0).to_set() =~= Set::<Seq<char>>::empty());
        assert(out@.dom() =~= before.dom().union(b.names().take(0).to_set()));
        while i < p
            invariant
                i <= p,
                p == b.names().len(),
                p == merged@.len(),
                b.names().no_duplicates(),
                b.names().to_set() == b@.dom(),
                want == env_meet(schema@, before, b@),
                forall|q: int| 0 <= q < p ==> (#[trigger] merged@[q])@ == want[b.names()[q]],
                out@.dom() == before.dom().union(b.names().take(i as int).to_set()),
                forall|k: Seq<char>|
                    out@.contains_key(k) ==> #[trigger] out@[k] == (if b.names().take(
                        i as int,
                    ).to_set().contains(k) {
                        want[k]
                    } else {
                        before[k]
                    }),
            decreases p - i,
        {
            proof {
                crate::fields::prefix_set_step(b.names(), i as int);
            }
            out.set(b.name_at(i).as_str(), merged[i].clone());
            i = i + 1;
            assert(out@.dom() =~= before.dom().union(b.names().take(i as int).to_set()));
        }
        proof {
            assert(b.names().take(p as int) =~= b.names());
            assert(out@ =~= want);
        }
        Ok(out)
    }

    /// The left outer join of two environments.
    pub fn outer_join(
        schema: &Schema,
        a: &TypeEnvironment,
        b: &TypeEnvironment,
    ) -> (r: TypeEnvironment)
        ensures
            r@ == env_outer_join(schema@, a@, b@),
    {
        let mut out = TypeEnvironment::new();
        let ghost want = env_outer_join(schema@, a@, b@);
        let n = a.len();
        let mut i: usize = 0;
        assert(a.names().take(0).to_set() =~= Set::<Seq<char>>::empty());
        while i < n
            invariant
                i <= n,
                n == a.names().len(),
                want == env_outer_join(schema@, a@, b@),
                a.names().to_set() == a@.dom(),
                out@.dom() == a.names().take(i as int).to_set(),
                forall|k: Seq<char>| out@.contains_key(k) ==> #[trigger] out@[k] == want[k],
            decreases n - i,
        {
            proof {
                crate::fields::prefix_set_step(a.names(), i as int);
            }
            let key = a.name_at(i);
            let ta = a.type_at(i);
            let t = match b.get(key.as_str()) {
                Some(tb) => {
                    let met = VariableType::meet(&**ta, tb);
                    let refined = VariableType::refine(schema, &met);
                    VariableType::join((**ta).clone(), refined)
                },
                None => (**ta).clone(),
            };
            out.set(key.as_str(), t);
            i = i + 1;
        }
        proof {
            assert(a.names().take(n as int) =~= a.names());
            assert(b.names().take(0).to_set() =~= Set::<Seq<char>>::empty());
            assert(out@.dom() =~= a@.dom().union(b.names().take(0).to_set()));
        }
        let p = b.len();
        let mut j: usize = 0;
        while j < p
            invariant
                j <= p,
                p == b.names().len(),
                want == env_outer_join(schema@, a@, b@),
                b.names().to_set() == b@.dom(),
                out@.dom() == a@.dom().union(b.names().take(j as int).to_set()),
                forall|k: Seq<char>| out@.contains_key(k) ==> #[trigger] out@[k] == want[k],
            decreases p - j,
        {
            proof {
                crate::fields::prefix_set_step(b.names(), j as int);
            }
            let key = b.name_at(j);
            let tb = b.type_at(j);
            let ghost before = out@;
            if a.get(key.as_str()).is_none() {
                out.set(key.as_str(), VariableType::join((**tb).clone(), VariableType::Null));
                assert(out@.dom() =~= before.dom().insert(key@));
            }
            j = j + 1;
            assert(out@.dom() =~= a@.dom().union(b.names().take(j as int).to_set()));
        }
        proof {
            assert(b.names().take(p as int) =~= b.names());
            assert(out@ =~= want);
        }
        out
    }

    /// Whether some variable has an empty type.
    pub fn is_empty(&self) -> (r: bool)
        ensures
            r == env_is_empty(self@),
    {
        let n = self.len();
        let mut i: usize = 0;
        while i < n
            invariant
                i <= n,
                n == self.names().len(),
                self.names().to_set() == self@.dom(),
                forall|j: int| 0 <= j < i ==> !self@[#[trigger] self.names()[j]].is_empty(),
            decreases n - i,
        {
            if self.type_at(i).is_empty() {
                assert(self@.contains_key(self.names()[i as int]));
                return true;
            }
            i = i + 1;
        }
        proof {
            assert forall|k: Seq<char>| #[trigger] self@.contains_key(k) implies !self@[
                k
            ].is_empty() by {
                assert(self.names().to_set().contains(k));
            }
        }
        false
    }

    /// Every variable bound to a group of what it was bound to.
    pub fn to_group(&self) -> (r: TypeEnvironment)
        ensures
            r@ == env_to_group(self@),
    {
        let mut out = TypeEnvironment::new();
        let ghost want = env_to_group(self@);
        let n = self.len();
        let mut i: usize = 0;
        assert(self.names().take(0).to_set() =~= Set::<Seq<char>>::empty());
        while i < n
            invariant
                i <= n,
                n == self.names().len(),
                want == env_to_group(self@),
                self.names().to_set() == self@.dom(),
                out@.dom() == self.names().take(i as int).to_set(),
                forall|k: Seq<char>| out@.contains_key(k) ==> #[trigger] out@[k] == want[k],
            decreases n - i,
        {
            proof {
                crate::fields::prefix_set_step(self.names(), i as int);
            }
            let inner = (**self.type_at(i)).clone();
            out.set(self.name_at(i).as_str(), VariableType::Group(Box::new(inner)));
            i = i + 1;
        }
        proof {
            assert(self.names().take(n as int) =~= self.names());
            assert(out@ =~= want);
        }
        out
    }

    /// The bindings of `other` put over those of this environment.
    pub fn overlay(&self, other: &TypeEnvironment) -> (r: TypeEnvironment)
        ensures
            r@ == env_overlay(self@, other@),
    {
        let mut out = self.clone();
        let p = other.len();
        let mut j: usize = 0;
        assert(other.names().take(0).to_set() =~= Set::<Seq<char>>::empty());
        while j < p
            invariant
                j <= p,
                p == other.names().len(),
                other.names().to_set() == other@.dom(),
                forall|k: Seq<char>| #[trigger]
                    out@.contains_key(k) <==> self@.contains_key(k) || other.names().take(
                        j as int,
                    ).to_set().contains(k),
                forall|k: Seq<char>|
                    out@.contains_key(k) ==> #[trigger] out@[k] == (if other.names().take(
                        j as int,
                    ).to_set().contains(k) {
                        other@[k]
                    } else {
                        self@[k]
                    }),
            decreases p - j,
        {
            proof {
                crate::fields::prefix_set_step(other.names(), j as int);
            }
            out.set_shared(other.name_at(j).as_str(), Rc::clone(other.type_at(j)));
            j = j + 1;
        }
        proof {
            assert(other.names().take(p as int) =~= other.names());
            assert(out@ =~= env_overlay(self@, other@));
        }
        out
    }
}

/// A conflict after a prefix without any is the first.
proof fn conflict_found(a: Env, b: Env, keys: Seq<Seq<char>>, j: int)
    requires
        0 <= j < keys.len(),
        first_conflict(a, b, keys.take(j)) is None,
        env_conflict(a, b, keys[j]),
    ensures
        first_conflict(a, b, keys) == Some(keys[j]),
{
    conflict_found_within(a, b, keys, j, keys.len() as int);
    assert(keys.take(keys.len() as int) =~= keys);
}

proof fn conflict_found_within(a: Env, b: Env, keys: Seq<Seq<char>>, j: int, n: int)
    requires
        0 <= j < n <= keys.len(),
        first_conflict(a, b, keys.take(j)) is None,
        env_conflict(a, b, keys[j]),
    ensures
        first_conflict(a, b, keys.take(n)) == Some(keys[j]),
    decreases n - j,
{
    assert(keys.take(n).drop_last() =~= keys.take(n - 1));
    if j < n - 1 {
        conflict_found_within(a, b, keys, j, n - 1);
    }
}

} // verus!
