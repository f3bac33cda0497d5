//! Which of the files found for a graph give it an attribute.

use vstd::prelude::*;

use super::sidecar::SidecarView;
use super::store::FoundView;

verus! {

/// What a file holds, where it can be read.
#[verifier::opaque]
pub open spec fn holding(f: FoundView) -> Option<SidecarView> {
    match f.contents {
        Ok(bytes) => match super::sidecar::sidecar_read(bytes) {
            Ok(s) => Some(s),
            Err(_) => None,
        },
        Err(_) => None,
    }
}

/// A file can be read, is of the graph, and holds the attribute that it is named
/// after.
pub open spec fn is_good(f: FoundView, fingerprint: u64) -> bool {
    &&& holding(f) is Some
    &&& holding(f)->Some_0.fingerprint == fingerprint
    &&& holding(f)->Some_0.attr == f.attr
}

/// The number of files that are not.
pub open spec fn bad_ones(found: Seq<FoundView>, fingerprint: u64) -> nat
    decreases found.len(),
{
    if found.len() == 0 {
        0
    } else {
        bad_ones(found.drop_last(), fingerprint) + if is_good(found.last(), fingerprint) {
            0nat
        } else {
            1nat
        }
    }
}

/// What one more file adds.
#[verifier::rlimit(60)]
proof fn one_more(found: Seq<FoundView>, fingerprint: u64)
    requires
        found.len() > 0,
    ensures
        is_good(found.last(), fingerprint) ==> super::store::loaded_sets(found, fingerprint)
            == super::store::loaded_sets(found.drop_last(), fingerprint).insert(
            found.last().attr,
            holding(found.last())->Some_0,
        ) && super::store::load_warnings(found, fingerprint) == super::store::load_warnings(
            found.drop_last(),
            fingerprint,
        ),
        !is_good(found.last(), fingerprint) ==> super::store::loaded_sets(found, fingerprint)
            == super::store::loaded_sets(found.drop_last(), fingerprint)
            && super::store::load_warnings(found, fingerprint).len()
            == super::store::load_warnings(found.drop_last(), fingerprint).len() + 1,
{
    reveal(holding);
    reveal_with_fuel(super::store::loaded_sets, 1);
    reveal_with_fuel(super::store::load_warnings, 1);
}

/// An attribute is held exactly where a good file is named after it, with what the
/// last of these holds. Of every other file one thing is said.
#[verifier::rlimit(60)]
pub proof fn the_last_good_file_is_held(
    found: Seq<FoundView>,
    fingerprint: u64,
    attr: Seq<char>,
    i: int,
)
    ensures
        super::store::loaded_sets(found, fingerprint).contains_key(attr) ==> exists|j: int|
            0 <= j < found.len() && #[trigger] found[j].attr == attr && is_good(
                found[j],
                fingerprint,
            ),
        0 <= i < found.len() && found[i].attr == attr && is_good(found[i], fingerprint)
            ==> super::store::loaded_sets(found, fingerprint).contains_key(attr),
        0 <= i < found.len() && found[i].attr == attr && is_good(found[i], fingerprint) && (forall|
            j: int,
        |
            i < j < found.len() && #[trigger] found[j].attr == attr ==> !is_good(
                found[j],
                fingerprint,
            )) ==> super::store::loaded_sets(found, fingerprint)[attr] == holding(
            found[i],
        )->Some_0,
        super::store::load_warnings(found, fingerprint).len() == bad_ones(found, fingerprint),
    decreases found.len(),
{
    if found.len() > 0 {
        let u = found.drop_last();
        the_last_good_file_is_held(u, fingerprint, attr, i);
        one_more(found, fingerprint);
        let before = super::store::loaded_sets(u, fingerprint);
        let last = found[found.len() - 1];
        assert(last == found.last());
        if before.contains_key(attr) {
            let j = choose|j: int|
                0 <= j < u.len() && #[trigger] u[j].attr == attr && is_good(u[j], fingerprint);
            assert(found[j].attr == attr && is_good(found[j], fingerprint));
        }
        if is_good(last, fingerprint) && last.attr == attr {
            assert(found[found.len() - 1].attr == attr);
        }
        if 0 <= i < u.len() && found[i].attr == attr && is_good(found[i], fingerprint) {
            assert(u[i] == found[i]);
            if forall|j: int|
                i < j < found.len() && #[trigger] found[j].attr == attr ==> !is_good(
                    found[j],
                    fingerprint,
                ) {
                assert forall|j: int| i < j < u.len() && #[trigger] u[j].attr == attr implies
                    !is_good(u[j], fingerprint) by {
                    assert(found[j].attr == attr);
                }
                if last.attr == attr {
                    assert(found[found.len() - 1].attr == attr);
                    assert(!is_good(last, fingerprint));
                }
            }
        }
    }
}

/// The attributes of a graph are those for which there is a file.
pub proof fn attributes_have_a_file(db: Seq<char>, files: Seq<Seq<char>>, attr: Seq<char>)
    ensures
        super::sidecar::attrs_among(db, files).contains(attr) <==> attr.len() > 0 && files.contains(
            super::sidecar::file_name(db, attr),
        ),
    decreases files.len(),
{
    let name = super::sidecar::file_name(db, attr);
    if files.len() > 0 {
        let u = files.drop_last();
        let last = files.last();
        attributes_have_a_file(db, u, attr);
        super::sidecar::files_and_attributes(db, attr, last);
        let rest = super::sidecar::attrs_among(db, u);
        let all = super::sidecar::attrs_among(db, files);
        assert(files.contains(name) <==> u.contains(name) || last == name) by {
            if u.contains(name) {
                let k = choose|k: int| 0 <= k < u.len() && u[k] == name;
                assert(files[k] == name);
            }
            if files.contains(name) && last != name {
                let k = choose|k: int| 0 <= k < files.len() && files[k] == name;
                assert(u[k] == name);
            }
            assert(files[files.len() - 1] == last);
        }
        if rest.contains(attr) {
            let k = choose|k: int| 0 <= k < rest.len() && rest[k] == attr;
            assert(all[k] == attr);
        }
        if all.contains(attr) && !rest.contains(attr) {
            let k = choose|k: int| 0 <= k < all.len() && all[k] == attr;
            if k < rest.len() {
                assert(rest[k] == attr);
            }
            assert(super::sidecar::attr_of(db, last) == Some(attr));
        }
        if attr.len() > 0 && last == name {
            assert(all[rest.len() as int] == attr);
        }
    }
}

} // verus!
