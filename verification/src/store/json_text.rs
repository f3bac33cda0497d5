//! Documents as text.

use serde_json::Value as ParsedDocument;
use vstd::prelude::*;

use super::graph_store::GraphStore;
use super::json::{read_json_value, Json, JsonError, JsonView, ShapeError};
use crate::fields::FieldMap;

verus! {

/// A document of `serde_json`.
#[verifier::external_type_specification]
#[verifier::external_body]
pub struct ExParsedDocument(ParsedDocument);

/// What a document of `serde_json` holds.
pub uninterp spec fn held(v: ParsedDocument) -> JsonView;

/// What `serde_json::from_str` makes of a text: what the document holds, or
/// what is told of the error.
pub uninterp spec fn parsed(text: Seq<char>) -> Result<JsonView, Seq<char>>;

/// Calls `serde_json::from_str`, with a document of `serde_json` as the type
/// that is parsed. What comes back depends on the text alone: a document, or an
/// error, which is handed out as its text.
#[verifier::external_body]
fn parse_value(text: &str) -> (r: Result<ParsedDocument, String>)
    ensures
        match r {
            Ok(v) => parsed(text@) == Ok::<_, Seq<char>>(held(v)),
            Err(m) => parsed(text@) == Err::<JsonView, _>(m@),
        },
{
    serde_json::from_str(text).map_err(|e: serde_json::Error| e.to_string())
}

/// The outermost part of a document of `serde_json`.
enum Layer {
    Null,
    Bool(bool),
    Int(i64),
    Float(u64),
    Text(String),
    Array(Vec<ParsedDocument>),
    Object(Vec<(String, ParsedDocument)>),
}

/// What the items of a list hold.
spec fn items_held(items: Seq<ParsedDocument>) -> Seq<JsonView> {
    Seq::new(items.len(), |i: int| held(items[i]))
}

/// What the first members of an object hold.
spec fn members_held(members: Seq<(String, ParsedDocument)>, n: int) -> Map<Seq<char>, JsonView>
    decreases n,
{
    if n <= 0 {
        Map::empty()
    } else {
        members_held(members, n - 1).insert(members[n - 1].0@, held(members[n - 1].1))
    }
}

/// What a layer says of the document.
spec fn layer_held(layer: Layer) -> JsonView {
    match layer {
        Layer::Null => JsonView::Null,
        Layer::Bool(b) => JsonView::Bool(b),
        Layer::Int(n) => JsonView::Int(n),
        Layer::Float(bits) => JsonView::Float(bits),
        Layer::Text(s) => JsonView::Text(s@),
        Layer::Array(items) => JsonView::Array(items_held(items@)),
        Layer::Object(members) => JsonView::Object(
            members_held(members@, members@.len() as int),
        ),
    }
}

/// Takes the outermost part off a document of `serde_json`, by its variants. A
/// number is asked for by `Number::as_i64`; one that is no `i64` is handed out
/// as the bits of `Number::as_f64`. The members of an object come each once.
#[verifier::external_body]
fn take_layer(v: ParsedDocument) -> (r: Layer)
    ensures
        held(v) == layer_held(r),
        r matches Layer::Object(m) ==> forall|i: int, j: int|
            0 <= i < j < m@.len() ==> (#[trigger] m@[i]).0@ != (#[trigger] m@[j]).0@,
{
    match v {
        ParsedDocument::Null => Layer::Null,
        ParsedDocument::Bool(b) => Layer::Bool(b),
        ParsedDocument::Number(n) => match n.as_i64() {
            Some(i) => Layer::Int(i),
            None => Layer::Float(n.as_f64().unwrap_or_default().to_bits()),
        },
        ParsedDocument::String(s) => Layer::Text(s),
        ParsedDocument::Array(items) => Layer::Array(items),
        ParsedDocument::Object(members) => Layer::Object(members.into_iter().collect()),
    }
}

/// A member is among those that an object holds.
proof fn member_held(members: Seq<(String, ParsedDocument)>, n: int, i: int)
    requires
        0 <= i < n <= members.len(),
        forall|a: int, b: int|
            0 <= a < b < members.len() ==> (#[trigger] members[a]).0@ != (#[trigger] members[b]).0@,
    ensures
        members_held(members, n).contains_key(members[i].0@),
        members_held(members, n)[members[i].0@] == held(members[i].1),
    decreases n,
{
    if i < n - 1 {
        member_held(members, n - 1, i);
        assert(members[i].0@ != members[n - 1].0@);
    }
}

/// The document that a document of `serde_json` holds.
fn take_value(v: ParsedDocument) -> (r: Json)
    ensures
        r@ == held(v),
    decreases held(v),
{
    let ghost whole = held(v);
    match take_layer(v) {
        Layer::Null => Json::Null,
        Layer::Bool(b) => Json::Bool(b),
        Layer::Int(n) => Json::Int(n),
        Layer::Float(bits) => Json::Float(bits),
        Layer::Text(s) => Json::Text(s),
        Layer::Array(items) => {
            let mut items = items;
            let ghost all = items@;
            let mut back: Vec<Json> = Vec::new();
            while items.len() > 0
                invariant
                    whole == held(v),
                    whole == JsonView::Array(items_held(all)),
                    items@.len() + back@.len() == all.len(),
                    items@ == all.take(items@.len() as int),
                    forall|k: int|
                        0 <= k < back@.len() ==> (#[trigger] back@[k])@ == held(
                            all[all.len() - 1 - k],
                        ),
                decreases items.len(),
            {
                let ghost n = items@.len() as int;
                match items.pop() {
                    Some(x) => {
                        proof {
                            assert(x == all[n - 1]);
                            assert(items_held(all)[n - 1] == held(x));
                            assert(decreases_to!(whole => whole->Array_0));
                        }
                        back.push(take_value(x));
                        assert(items@ =~= all.take(n - 1));
                    },
                    None => {},
                }
            }
            let r = Json::Array(reversed(back));
            proof {
                r.container_views();
                assert(r@->Array_0 =~= whole->Array_0);
            }
            r
        },
        Layer::Object(members) => {
            let mut rest = members;
            let ghost all = rest@;
            let mut m: FieldMap<Json> = FieldMap::new();
            while rest.len() > 0
                invariant
                    whole == held(v),
                    whole == JsonView::Object(members_held(all, all.len() as int)),
                    forall|a: int, b: int|
                        0 <= a < b < all.len() ==> (#[trigger] all[a]).0@ != (
                        #[trigger] all[b]).0@,
                    rest@.len() <= all.len(),
                    rest@ == all.take(rest@.len() as int),
                    forall|k: int|
                        rest@.len() <= k < all.len() ==> m@.contains_key((#[trigger] all[k]).0@)
                            && m@[all[k].0@]@ == held(all[k].1),
                    forall|key: Seq<char>| #[trigger]
                        m@.contains_key(key) ==> exists|k: int|
                            rest@.len() <= k < all.len() && (#[trigger] all[k]).0@ == key,
                decreases rest.len(),
            {
                let ghost n = rest@.len() as int;
                match rest.pop() {
                    Some((k, x)) => {
                        proof {
                            assert((k, x) == all[n - 1]);
                            member_held(all, all.len() as int, n - 1);
                            assert(decreases_to!(whole => whole->Object_0));
                            assert(whole->Object_0.contains_key(k@));
                        }
                        let c = take_value(x);
                        m.insert(k, c);
                        assert(rest@ =~= all.take(n - 1));
                    },
                    None => {},
                }
            }
            let r = Json::Object(m);
            proof {
                r.container_views();
                members_keys(all, all.len() as int);
                assert forall|key: Seq<char>|
                    whole->Object_0.contains_key(key) <==> m@.contains_key(key) by {
                    if whole->Object_0.contains_key(key) {
                        let k = choose|k: int|
                            0 <= k < all.len() && (#[trigger] all[k]).0@ == key;
                        assert(m@.contains_key(all[k].0@));
                    }
                    if m@.contains_key(key) {
                        let k = choose|k: int|
                            0 <= k < all.len() && (#[trigger] all[k]).0@ == key;
                        member_held(all, all.len() as int, k);
                    }
                }
                assert forall|key: Seq<char>| m@.contains_key(key) implies m@[key]@
                    == whole->Object_0[key] by {
                    let k = choose|k: int| 0 <= k < all.len() && (#[trigger] all[k]).0@ == key;
                    member_held(all, all.len() as int, k);
                }
                assert(r@->Object_0 =~= whole->Object_0);
            }
            r
        },
    }
}

proof fn members_keys(members: Seq<(String, ParsedDocument)>, n: int)
    requires
        n <= members.len(),
    ensures
        forall|key: Seq<char>| #[trigger]
            members_held(members, n).contains_key(key) ==> exists|k: int|
                0 <= k < n && (#[trigger] members[k]).0@ == key,
    decreases n,
{
    if n > 0 {
        members_keys(members, n - 1);
        assert forall|key: Seq<char>| #[trigger]
            members_held(members, n).contains_key(key) implies exists|k: int|
            0 <= k < n && (#[trigger] members[k]).0@ == key by {
            if key == members[n - 1].0@ {
            } else {
                assert(members_held(members, n - 1).contains_key(key));
            }
        }
    }
}

/// The items in the order against this one.
fn reversed(v: Vec<Json>) -> (r: Vec<Json>)
    ensures
        r@ == v@.reverse(),
{
    let mut v = v;
    let ghost all = v@;
    let mut out: Vec<Json> = Vec::new();
    while v.len() > 0
        invariant
            v@.len() + out@.len() == all.len(),
            v@ == all.take(v@.len() as int),
            forall|k: int| 0 <= k < out@.len() ==> #[trigger] out@[k] == all[all.len() - 1 - k],
        decreases v.len(),
    {
        let ghost n = v@.len() as int;
        match v.pop() {
            Some(x) => {
                out.push(x);
                assert(v@ =~= all.take(n - 1));
            },
            None => {},
        }
    }
    assert(out@ =~= all.reverse());
    out
}

/// The document of a text.
pub fn parse_json(text: &str) -> (r: Result<Json, String>)
    ensures
        match r {
            Ok(j) => parsed(text@) == Ok::<_, Seq<char>>(j@),
            Err(m) => parsed(text@) == Err::<JsonView, _>(m@),
        },
{
    match parse_value(text) {
        Ok(v) => Ok(take_value(v)),
        Err(m) => Err(m),
    }
}

/// Why a text is not stored as a graph.
pub enum TextError {
    /// It is no document.
    Syntax(String),
    /// Something that it lists is no node or no edge.
    Malformed(ShapeError),
    /// Its document is not stored.
    Import(JsonError),
}

impl GraphStore {
    /// Makes a file of the graph that a document holds, whatever it holds. What
    /// is no node or no edge is named.
    pub fn import_document(json: &Json) -> (r: Result<GraphStore, TextError>)
        ensures
            match r {
                Ok(s) => super::json::well_shaped(json@) && super::json::import_outcome(
                    json@,
                    Ok(s),
                ),
                Err(TextError::Syntax(_)) => false,
                Err(TextError::Malformed(e)) => !super::json::well_shaped(json@)
                    && super::json::first_malformed(json@, e),
                Err(TextError::Import(e)) => super::json::well_shaped(json@)
                    && super::json::import_outcome(json@, Err(e)),
            },
    {
        match read_json_value(json) {
            Err(ShapeError::BadNode(i)) => {
                return Err(TextError::Malformed(ShapeError::BadNode(i)));
            },
            Err(ShapeError::BadEdge(i)) => {
                return Err(TextError::Malformed(ShapeError::BadEdge(i)));
            },
            Ok(p) => {
                proof {
                    super::json::records_are_shaped(json@, p.0@, p.1@);
                }
            },
            Err(_) => {},
        }
        match GraphStore::from_json_value(json) {
            Ok(s) => Ok(s),
            Err(e) => Err(TextError::Import(e)),
        }
    }

    /// Makes a file of the graph that the document of a text holds.
    pub fn from_json_text(text: &str) -> (r: Result<GraphStore, TextError>)
        ensures
            match parsed(text@) {
                Err(m) => r matches Err(TextError::Syntax(s)) && s@ == m,
                Ok(doc) => match r {
                    Ok(s) => super::json::well_shaped(doc) && super::json::import_outcome(
                        doc,
                        Ok(s),
                    ),
                    Err(TextError::Syntax(_)) => false,
                    Err(TextError::Malformed(e)) => !super::json::well_shaped(doc)
                        && super::json::first_malformed(doc, e),
                    Err(TextError::Import(e)) => super::json::well_shaped(doc)
                        && super::json::import_outcome(doc, Err(e)),
                },
            },
    {
        match parse_json(text) {
            Ok(j) => GraphStore::import_document(&j),
            Err(m) => Err(TextError::Syntax(m)),
        }
    }
}

} // verus!
