//! Declared indexes in a file. Inferred ones are not kept: they come back from
//! the graph.

use vstd::prelude::*;

use super::chain::{free_chain, read_chain, rewrite_chain};
use super::pager::{PageType, Pager, StoreError};
use super::secondary_index::{IndexKind, IndexSpec};
use crate::text::copy_text;

verus! {

/// A declared index.
pub struct DeclaredSpec {
    pub name: String,
    pub label: String,
    pub prop: String,
    pub kind: IndexKind,
}

/// A declared index as it is kept: its kind is a number, 0 for a hash index and
/// 1 for an ordered one.
pub struct PersistedSpec {
    pub name: String,
    pub label: String,
    pub prop: String,
    pub kind: u8,
}

/// A declared index as it is kept.
pub ghost struct PersistedView {
    pub name: Seq<char>,
    pub label: Seq<char>,
    pub prop: Seq<char>,
    pub kind: u8,
}

impl PersistedSpec {
    /// The value.
    pub open spec fn view(&self) -> PersistedView {
        PersistedView { name: self.name@, label: self.label@, prop: self.prop@, kind: self.kind }
    }
}

impl DeclaredSpec {
    /// The index as it is kept.
    pub open spec fn view(&self) -> PersistedView {
        PersistedView {
            name: self.name@,
            label: self.label@,
            prop: self.prop@,
            kind: kind_code(self.kind),
        }
    }
}

/// The number of a kind.
pub open spec fn kind_code(kind: IndexKind) -> u8 {
    match kind {
        IndexKind::Hash => 0,
        IndexKind::BTree => 1,
    }
}

/// The kind of a number. Any number but 0 is an ordered index.
pub open spec fn kind_of(code: u8) -> IndexKind {
    if code == 0 {
        IndexKind::Hash
    } else {
        IndexKind::BTree
    }
}

/// A declared index that was kept is declared again as it was.
pub proof fn kept_as_declared(kind: IndexKind)
    ensures
        kind_of(kind_code(kind)) == kind,
{
}

/// The declared ones among indexes, as they are kept.
pub open spec fn declared_of(specs: Seq<IndexSpec>) -> Seq<PersistedView>
    decreases specs.len(),
{
    if specs.len() == 0 {
        Seq::empty()
    } else {
        let rest = declared_of(specs.drop_last());
        let s = specs.last();
        if s.auto {
            rest
        } else {
            rest.push(
                PersistedView {
                    name: s.name@,
                    label: s.label@,
                    prop: s.prop@,
                    kind: kind_code(s.kind),
                },
            )
        }
    }
}

/// The values of kept indexes.
pub open spec fn persisted_views(v: Seq<PersistedSpec>) -> Seq<PersistedView> {
    Seq::new(v.len(), |i: int| v[i]@)
}

/// The declared ones among indexes, as they are kept.
pub fn persisted(specs: &Vec<IndexSpec>) -> (r: Vec<PersistedSpec>)
    ensures
        persisted_views(r@) == declared_of(specs@),
{
    let mut out: Vec<PersistedSpec> = Vec::new();
    let mut i: usize = 0;
    assert(persisted_views(out@) =~= declared_of(specs@.take(0)));
    while i < specs.len()
        invariant
            i <= specs.len(),
            persisted_views(out@) == declared_of(specs@.take(i as int)),
        decreases specs.len() - i,
    {
        assert(specs@.take(i + 1).drop_last() =~= specs@.take(i as int));
        let s = &specs[i];
        let ghost before = persisted_views(out@);
        if !s.auto {
            let kind: u8 = match s.kind {
                IndexKind::Hash => 0,
                IndexKind::BTree => 1,
            };
            let p = PersistedSpec {
                name: copy_text(s.name.as_str()),
                label: copy_text(s.label.as_str()),
                prop: copy_text(s.prop.as_str()),
                kind,
            };
            let ghost v = p@;
            out.push(p);
            assert(persisted_views(out@) =~= before.push(v));
        }
        i = i + 1;
    }
    assert(specs@.take(i as int) =~= specs@);
    out
}

/// The declared index of a kept one. Any number but 0 is an ordered index.
pub fn declared(p: PersistedSpec) -> (r: DeclaredSpec)
    ensures
        r.name == p.name,
        r.label == p.label,
        r.prop == p.prop,
        r.kind == kind_of(p.kind),
        p.kind <= 1 ==> r@ == p@,
{
    let kind = if p.kind == 0 {
        IndexKind::Hash
    } else {
        IndexKind::BTree
    };
    DeclaredSpec { name: p.name, label: p.label, prop: p.prop, kind }
}

/// Reads the bytes of the declared indexes. A root of 0 stands for none.
pub fn read_specs(pager: &Pager, root: u32) -> (r: Result<Vec<u8>, StoreError>)
    requires
        pager.wf(),
    ensures
        match r {
            Ok(bytes) => if root == 0 {
                bytes@.len() == 0
            } else {
                super::chain::chain_payload(pager@, root, PageType::SecondaryIndex) == Ok::<
                    _,
                    StoreError,
                >(bytes@)
            },
            Err(e) => root != 0 && super::chain::chain_payload(
                pager@,
                root,
                PageType::SecondaryIndex,
            ) == Err::<Seq<u8>, _>(e),
        },
{
    if root == 0 {
        Ok(Vec::new())
    } else {
        read_chain(pager, root, PageType::SecondaryIndex)
    }
}

/// Writes the bytes of the declared indexes in place of those from before. No
/// bytes are written where there is no index: the root is then 0.
pub fn write_specs(pager: &mut Pager, encoded: Option<&Vec<u8>>, old_root: u32) -> (r: Result<
    u32,
    StoreError,
>)
    requires
        old(pager).wf(),
        old(pager).free_blank(),
    ensures
        final(pager).wf(),
        final(pager).free_blank(),
        final(pager).header == old(pager).header,
        ({
            let walk = super::chain::chain_walk(
                old(pager)@,
                old_root,
                Seq::empty(),
                old(pager)@.len(),
            );
            match r {
                Ok(root) => {
                    &&& walk is Ok
                    &&& forall|i: int|
                        0 <= i < old(pager)@.len() && !old(pager).free@.contains(i as u32)
                            && !walk->Ok_0.contains(i as u32) ==> #[trigger] final(pager)@[i]
                            == old(pager)@[i]
                    &&& match encoded {
                        Some(bytes) => root != 0 && super::chain::chain_payload(
                            final(pager)@,
                            root,
                            PageType::SecondaryIndex,
                        ) == Ok::<_, StoreError>(bytes@) && (walk->Ok_0.len() > 0 ==> root
                            == walk->Ok_0.last()),
                        None => root == 0,
                    }
                },
                Err(e) => walk == Err::<Seq<u32>, _>(e) || (walk is Ok && encoded is Some && ((e
                    == StoreError::TextTooLong && encoded->Some_0@.len() > u32::MAX) || (e
                    == StoreError::Full && old(pager)@.len() + super::chain::chain_pages(
                    encoded->Some_0@.len(),
                ) > u32::MAX + old(pager).free@.len() + walk->Ok_0.len()))),
            }
        }),
{
    match encoded {
        Some(bytes) => rewrite_chain(pager, bytes, old_root, PageType::SecondaryIndex),
        None => match free_chain(pager, old_root) {
            Ok(_) => Ok(0),
            Err(e) => Err(e),
        },
    }
}

} // verus!
