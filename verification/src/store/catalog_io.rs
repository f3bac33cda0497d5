//! The catalog of graph types in a file, as bytes on a chain of pages.

use vstd::prelude::*;

use super::chain::{read_chain, rewrite_chain};
use super::pager::{Header, PageType, Pager, StoreError};

verus! {

/// Reads the bytes of the catalog. A root of 0 stands for none.
pub fn read_catalog(pager: &Pager, root: u32) -> (r: Result<Vec<u8>, StoreError>)
    requires
        pager.wf(),
    ensures
        match r {
            Ok(bytes) => if root == 0 {
                bytes@.len() == 0
            } else {
                super::chain::chain_payload(pager@, root, PageType::Catalog) == Ok::<
                    _,
                    StoreError,
                >(bytes@)
            },
            Err(e) => root != 0 && super::chain::chain_payload(pager@, root, PageType::Catalog)
                == Err::<Seq<u8>, _>(e),
        },
{
    if root == 0 {
        Ok(Vec::new())
    } else {
        read_chain(pager, root, PageType::Catalog)
    }
}

/// Writes the bytes of the catalog in place of those from before, whose pages
/// are given back. What is returned is the new root.
pub fn write_catalog(pager: &mut Pager, bytes: &Vec<u8>, old_root: u32) -> (r: Result<
    u32,
    StoreError,
>)
    requires
        old(pager).wf(),
        old(pager).free_blank(),
    ensures
        final(pager).wf(),
        final(pager).free_blank(),
        final(pager).header == old(pager).header,
        ({
            let walk = super::chain::chain_walk(
                old(pager)@,
                old_root,
                Seq::empty(),
                old(pager)@.len(),
            );
            match r {
                Ok(root) => {
                    &&& walk is Ok
                    &&& root != 0
                    &&& super::chain::chain_payload(final(pager)@, root, PageType::Catalog) == Ok::<
                        _,
                        StoreError,
                    >(bytes@)
                    &&& walk->Ok_0.len() > 0 ==> root == walk->Ok_0.last()
                    &&& forall|i: int|
                        0 <= i < old(pager)@.len() && !old(pager).free@.contains(i as u32)
                            && !walk->Ok_0.contains(i as u32) ==> #[trigger] final(pager)@[i]
                            == old(pager)@[i]
                },
                Err(e) => walk == Err::<Seq<u32>, _>(e) || (walk is Ok && e
                    == StoreError::TextTooLong && bytes@.len() > u32::MAX) || (walk is Ok && e
                    == StoreError::Full && old(pager)@.len() + super::chain::chain_pages(
                    bytes@.len(),
                ) > u32::MAX + old(pager).free@.len() + walk->Ok_0.len()),
            }
        }),
{
    rewrite_chain(pager, bytes, old_root, PageType::Catalog)
}

/// Writes the bytes of the catalog in place of those from before, and says in
/// the header where they are.
pub fn save_catalog(pager: &mut Pager, bytes: &Vec<u8>) -> (r: Result<(), StoreError>)
    requires
        old(pager).wf(),
        old(pager).free_blank(),
    ensures
        final(pager).wf(),
        final(pager).free_blank(),
        final(pager).header == (Header {
            catalog_root: final(pager).header.catalog_root,
            ..old(pager).header
        }),
        ({
            let walk = super::chain::chain_walk(
                old(pager)@,
                old(pager).header.catalog_root,
                Seq::empty(),
                old(pager)@.len(),
            );
            match r {
                Ok(_) => {
                    &&& walk is Ok
                    &&& final(pager).header.catalog_root != 0
                    &&& super::chain::chain_payload(
                        final(pager)@,
                        final(pager).header.catalog_root,
                        PageType::Catalog,
                    ) == Ok::<_, StoreError>(bytes@)
                    &&& forall|i: int|
                        0 <= i < old(pager)@.len() && !old(pager).free@.contains(i as u32)
                            && !walk->Ok_0.contains(i as u32) ==> #[trigger] final(pager)@[i]
                            == old(pager)@[i]
                },
                Err(e) => {
                    &&& final(pager).header == old(pager).header
                    &&& walk == Err::<Seq<u32>, _>(e) || (walk is Ok && e
                        == StoreError::TextTooLong && bytes@.len() > u32::MAX) || (walk is Ok && e
                        == StoreError::Full && old(pager)@.len() + super::chain::chain_pages(
                        bytes@.len(),
                    ) > u32::MAX + old(pager).free@.len() + walk->Ok_0.len())
                },
            }
        }),
{
    let root = pager.header.catalog_root;
    match write_catalog(pager, bytes, root) {
        Ok(root) => {
            pager.header.catalog_root = root;
            Ok(())
        },
        Err(e) => Err(e),
    }
}

} // verus!
