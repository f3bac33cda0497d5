//! Elements by their names.

use vstd::prelude::*;

use crate::fields::FieldMap;
use crate::model::value::Id;
use crate::text::copy_text;

verus! {

/// Each name has the last element of that name.
pub open spec fn names_ok(m: Map<Seq<char>, Id>, names: Seq<Seq<char>>) -> bool {
    forall|n: Seq<char>|
        {
            &&& #[trigger] m.contains_key(n) <==> names.contains(n)
            &&& m.contains_key(n) ==> m[n] == super::string_table::last_index(names, n) && m[n]
                < names.len() && names[m[n] as int] == n
        }
}

/// The last element of each name.
pub fn index_names(names: &Vec<String>) -> (r: FieldMap<Id>)
    requires
        names@.len() <= u32::MAX,
    ensures
        names_ok(r@, crate::text::texts(names@)),
{
    let ghost all = crate::text::texts(names@);
    let mut out: FieldMap<Id> = FieldMap::new();
    let mut i: usize = 0;
    while i < names.len()
        invariant
            i <= names.len() <= u32::MAX,
            all == crate::text::texts(names@),
            forall|n: Seq<char>|
                {
                    &&& #[trigger] out@.contains_key(n) <==> super::string_table::last_index(
                        all.take(i as int),
                        n,
                    ) >= 0
                    &&& out@.contains_key(n) ==> out@[n] == super::string_table::last_index(
                        all.take(i as int),
                        n,
                    )
                },
        decreases names.len() - i,
    {
        let ghost before = out@;
        out.insert(names[i].clone(), i as u32);
        proof {
            assert(all.take(i + 1).drop_last() =~= all.take(i as int));
            assert(all.take(i + 1).last() == all[i as int]);
            assert forall|n: Seq<char>|
                {
                    &&& #[trigger] out@.contains_key(n) <==> super::string_table::last_index(
                        all.take(i + 1),
                        n,
                    ) >= 0
                    &&& out@.contains_key(n) ==> out@[n] == super::string_table::last_index(
                        all.take(i + 1),
                        n,
                    )
                } by {
                assert(before.contains_key(n) <==> super::string_table::last_index(
                    all.take(i as int),
                    n,
                ) >= 0);
            }
        }
        i = i + 1;
    }
    proof {
        assert(all.take(i as int) =~= all);
        assert forall|n: Seq<char>|
            {
                &&& #[trigger] out@.contains_key(n) <==> all.contains(n)
                &&& out@.contains_key(n) ==> out@[n] == super::string_table::last_index(all, n)
                    && out@[n] < all.len() && all[out@[n] as int] == n
            } by {
            super::string_table::last_index_found(all, n);
        }
    }
    out
}

/// The names of elements.
pub open spec fn names_of(names: Seq<Seq<char>>, ids: Seq<Id>) -> Seq<Seq<char>> {
    Seq::new(ids.len(), |i: int| names[ids[i] as int])
}

/// The names of elements.
pub fn copy_names(names: &Vec<String>, ids: &[Id]) -> (r: Vec<String>)
    requires
        forall|i: int| 0 <= i < ids@.len() ==> #[trigger] ids@[i] < names@.len(),
    ensures
        crate::text::texts(r@) == names_of(crate::text::texts(names@), ids@),
{
    let mut out: Vec<String> = Vec::new();
    let mut i: usize = 0;
    while i < ids.len()
        invariant
            i <= ids.len(),
            forall|i: int| 0 <= i < ids@.len() ==> #[trigger] ids@[i] < names@.len(),
            out@.len() == i,
            forall|j: int| 0 <= j < i ==> (#[trigger] out@[j])@ == names@[ids@[j] as int]@,
        decreases ids.len() - i,
    {
        assert(ids@[i as int] < names@.len());
        out.push(names[ids[i] as usize].clone());
        i = i + 1;
    }
    assert(crate::text::texts(out@) =~= names_of(crate::text::texts(names@), ids@));
    out
}

/// The ids of a list that have a direction, or have none.
pub open spec fn flagged_ids(ids: Seq<Id>, directed: Seq<bool>, flag: bool) -> Seq<Id>
    decreases ids.len(),
{
    if ids.len() == 0 {
        Seq::empty()
    } else {
        let rest = flagged_ids(ids.drop_last(), directed, flag);
        if directed[ids.last() as int] == flag {
            rest.push(ids.last())
        } else {
            rest
        }
    }
}

/// The ids of a list that have a direction, or have none.
pub fn keep_flagged(ids: &Vec<Id>, directed: &Vec<bool>, flag: bool) -> (r: Vec<Id>)
    requires
        forall|i: int| 0 <= i < ids@.len() ==> #[trigger] ids@[i] < directed@.len(),
    ensures
        r@ == flagged_ids(ids@, directed@, flag),
        forall|i: int| 0 <= i < r@.len() ==> #[trigger] r@[i] < directed@.len(),
{
    let mut out: Vec<Id> = Vec::new();
    let mut i: usize = 0;
    while i < ids.len()
        invariant
            i <= ids.len(),
            forall|i: int| 0 <= i < ids@.len() ==> #[trigger] ids@[i] < directed@.len(),
            out@ == flagged_ids(ids@.take(i as int), directed@, flag),
            forall|j: int| 0 <= j < out@.len() ==> #[trigger] out@[j] < directed@.len(),
        decreases ids.len() - i,
    {
        assert(ids@.take(i + 1).drop_last() =~= ids@.take(i as int));
        assert(ids@[i as int] < directed@.len());
        if directed[ids[i] as usize] == flag {
            out.push(ids[i]);
        }
        i = i + 1;
    }
    assert(ids@.take(i as int) =~= ids@);
    out
}

/// An edge as a step of a path, by its name.
#[derive(Debug)]
pub enum NamedStep {
    EdgeDirectional(String),
    EdgeUndirectional(String),
}

/// The step of an edge.
pub fn named_step(name: &str, directed: bool) -> (r: NamedStep)
    ensures
        match r {
            NamedStep::EdgeDirectional(n) => directed && n@ == name@,
            NamedStep::EdgeUndirectional(n) => !directed && n@ == name@,
        },
{
    if directed {
        NamedStep::EdgeDirectional(copy_text(name))
    } else {
        NamedStep::EdgeUndirectional(copy_text(name))
    }
}

} // verus!
