//! A graph as a script of statements that rebuild it. Every node gets a
//! temporary property by which the statements for edges find it again, and a
//! last statement removes it.

use vstd::prelude::*;

use super::secondary_index::add_keys;
use crate::fields::{FieldMap, NameSet};
use crate::model::graph::MemoryGraphStore;
use crate::model::graph_access::{all_edges, EdgeView, GraphAccess, GraphModel, NodeView};
use crate::model::value::{Id, Props, Value, ValueView};
use crate::text::{copy_text, join_texts, quoted_text, text_of_i64, text_of_u64};

verus! {

/// A part of a script: text, or the place of a floating-point number given by
/// its bits.
#[derive(Debug, PartialEq, Eq)]
pub enum Piece {
    Text(String),
    Float(u64),
}

/// The value of a `Piece`.
pub enum PieceView {
    Text(Seq<char>),
    Float(u64),
}

impl Piece {
    /// The value.
    pub open spec fn view(&self) -> PieceView {
        match self {
            Piece::Text(s) => PieceView::Text(s@),
            Piece::Float(bits) => PieceView::Float(*bits),
        }
    }
}

/// The values of several pieces.
pub open spec fn piece_views(v: Seq<Piece>) -> Seq<PieceView> {
    Seq::new(v.len(), |i: int| v[i]@)
}

/// A piece of text.
pub open spec fn plain(s: Seq<char>) -> Seq<PieceView> {
    seq![PieceView::Text(s)]
}

/// What is said of a string that cannot be written as a literal.
pub open spec fn quote_error(s: Seq<char>) -> Seq<char> {
    "dump-gql: string value contains a single quote, which the lexer cannot round-trip (value: "@
        + crate::text::quoted(s) + ")"@
}

/// A value that has no literal and is left out.
pub open spec fn is_reference(v: ValueView) -> bool {
    v is Node || v is Edge || v is Path
}

/// The literal of a value, or what is said of its first string with a single
/// quote.
pub open spec fn value_pieces(v: ValueView) -> Result<Seq<PieceView>, Seq<char>>
    decreases v, 0int,
{
    match v {
        ValueView::Null => Ok(plain("NULL"@)),
        ValueView::Int(n) => Ok(plain(crate::text::signed_decimal(n as int))),
        ValueView::Float(bits) => Ok(seq![PieceView::Float(bits)]),
        ValueView::Bool(b) => Ok(
            plain(
                if b {
                    "true"@
                } else {
                    "false"@
                },
            ),
        ),
        ValueView::Str(s) => if s.contains('\'') {
            Err(quote_error(s))
        } else {
            Ok(plain("'"@ + s + "'"@))
        },
        ValueView::List(items) => match item_pieces(items) {
            Ok(p) => Ok(plain("["@) + p + plain("]"@)),
            Err(e) => Err(e),
        },
        ValueView::Record(m) => match field_pieces(m, crate::fields::sorted_keys(m)) {
            Ok(p) => Ok(plain("{"@) + p + plain("}"@)),
            Err(e) => Err(e),
        },
        ValueView::Node(_) => Ok(Seq::empty()),
        ValueView::Edge(_) => Ok(Seq::empty()),
        ValueView::Path(_) => Ok(Seq::empty()),
    }
}

/// The literals of the items, with commas between them.
pub open spec fn item_pieces(items: Seq<ValueView>) -> Result<Seq<PieceView>, Seq<char>>
    decreases items, 0int,
{
    if items.len() == 0 {
        Ok(Seq::empty())
    } else {
        match item_pieces(items.drop_last()) {
            Err(e) => Err(e),
            Ok(rest) => match value_pieces(items[items.len() - 1]) {
                Err(e) => Err(e),
                Ok(p) => if items.len() == 1 {
                    Ok(rest + p)
                } else {
                    Ok(rest + plain(", "@) + p)
                },
            },
        }
    }
}

/// The named fields with their literals, with commas between them.
pub open spec fn field_pieces(m: Map<Seq<char>, ValueView>, keys: Seq<Seq<char>>) -> Result<
    Seq<PieceView>,
    Seq<char>,
>
    decreases m, keys.len(),
{
    if keys.len() == 0 {
        Ok(Seq::empty())
    } else {
        match field_pieces(m, keys.drop_last()) {
            Err(e) => Err(e),
            Ok(rest) => if m.dom().finite() && m.contains_key(keys.last()) {
                match value_pieces(m[keys.last()]) {
                    Err(e) => Err(e),
                    Ok(p) => if keys.len() == 1 {
                        Ok(rest + plain(keys.last()) + plain(": "@) + p)
                    } else {
                        Ok(rest + plain(", "@) + plain(keys.last()) + plain(": "@) + p)
                    },
                }
            } else {
                Ok(rest)
            },
        }
    }
}

/// The properties among `keys` that have a literal, with commas between them.
pub open spec fn prop_pieces(m: Map<Seq<char>, ValueView>, keys: Seq<Seq<char>>) -> Result<
    Seq<PieceView>,
    Seq<char>,
>
    decreases keys.len(),
{
    if keys.len() == 0 {
        Ok(Seq::empty())
    } else {
        match prop_pieces(m, keys.drop_last()) {
            Err(e) => Err(e),
            Ok(rest) => if is_reference(m[keys.last()]) {
                Ok(rest)
            } else {
                match value_pieces(m[keys.last()]) {
                    Err(e) => Err(e),
                    Ok(p) => if rest.len() == 0 {
                        Ok(rest + plain(keys.last()) + plain(": "@) + p)
                    } else {
                        Ok(rest + plain(", "@) + plain(keys.last()) + plain(": "@) + p)
                    },
                }
            },
        }
    }
}

/// The labels of a descriptor.
pub open spec fn label_pieces(labels: Seq<Seq<char>>) -> Seq<PieceView> {
    if labels.len() == 0 {
        Seq::empty()
    } else {
        plain(":"@) + plain(crate::text::joined(labels, " & "@))
    }
}

/// Labels and properties between the brackets of an element.
pub open spec fn descriptor_pieces(labels: Seq<Seq<char>>, props: Map<Seq<char>, ValueView>) -> Result<
    Seq<PieceView>,
    Seq<char>,
> {
    if props == Map::<Seq<char>, ValueView>::empty() {
        Ok(label_pieces(labels))
    } else {
        match prop_pieces(props, crate::fields::sorted_keys(props)) {
            Err(e) => Err(e),
            Ok(p) => Ok(
                label_pieces(labels) + plain(
                    if labels.len() == 0 {
                        "{"@
                    } else {
                        " {"@
                    },
                ) + p + plain("}"@),
            ),
        }
    }
}

/// The temporary name of a node.
pub open spec fn mark(id: Id) -> Seq<char> {
    "n_"@ + crate::text::decimal(id as nat)
}

/// The statement that inserts a node.
pub open spec fn node_pieces(n: NodeView, id: Id, prop: Seq<char>) -> Result<
    Seq<PieceView>,
    Seq<char>,
> {
    match descriptor_pieces(n.labels.required(), n.props.insert(prop, ValueView::Str(mark(id)))) {
        Err(e) => Err(e),
        Ok(p) => Ok(plain("INSERT ("@) + p + plain(");\n"@)),
    }
}

/// The statement that inserts an edge between two nodes found by their
/// temporary names.
pub open spec fn edge_pieces(e: EdgeView, prop: Seq<char>) -> Result<Seq<PieceView>, Seq<char>> {
    match descriptor_pieces(e.labels.required(), e.props) {
        Err(err) => Err(err),
        Ok(p) => Ok(
            plain(
                "MATCH (a:* {"@ + prop + ": '"@ + mark(e.src) + "'}), (b:* {"@ + prop + ": '"@
                    + mark(e.tgt) + "'}) INSERT (a)"@,
            ) + plain(
                if e.directed {
                    "-["@
                } else {
                    "~["@
                },
            ) + p + plain(
                if e.directed {
                    "]->(b);\n"@
                } else {
                    "]~(b);\n"@
                },
            ),
        ),
    }
}

/// The statements for the nodes.
pub open spec fn all_node_pieces(m: GraphModel, ids: Seq<Id>, prop: Seq<char>) -> Result<
    Seq<PieceView>,
    Seq<char>,
>
    decreases ids.len(),
{
    if ids.len() == 0 {
        Ok(Seq::empty())
    } else {
        match all_node_pieces(m, ids.drop_last(), prop) {
            Err(e) => Err(e),
            Ok(rest) => match node_pieces(m.nodes[ids.last()], ids.last(), prop) {
                Err(e) => Err(e),
                Ok(p) => Ok(rest + p),
            },
        }
    }
}

/// The statements for the edges.
pub open spec fn all_edge_pieces(m: GraphModel, ids: Seq<Id>, prop: Seq<char>) -> Result<
    Seq<PieceView>,
    Seq<char>,
>
    decreases ids.len(),
{
    if ids.len() == 0 {
        Ok(Seq::empty())
    } else {
        match all_edge_pieces(m, ids.drop_last(), prop) {
            Err(e) => Err(e),
            Ok(rest) => match edge_pieces(m.edges[ids.last()], prop) {
                Err(e) => Err(e),
                Ok(p) => Ok(rest + p),
            },
        }
    }
}

/// Some listed element has a property of this name.
pub open spec fn prop_used(m: GraphModel, name: Seq<char>) -> bool {
    ||| exists|i: int|
        0 <= i < m.node_ids.len() && m.nodes[#[trigger] m.node_ids[i]].props.contains_key(name)
    ||| exists|i: int|
        0 <= i < m.edge_ids().len() && m.edges[#[trigger] m.edge_ids()[i]].props.contains_key(name)
}

/// A name for the temporary property.
pub open spec fn candidate(i: nat) -> Seq<char> {
    if i == 0 {
        "_dump_id"@
    } else {
        "__dump_id_v"@ + crate::text::decimal(i)
    }
}

/// The names for the temporary property, in the order in which they are tried.
pub open spec fn candidates() -> spec_fn(nat) -> Seq<char> {
    |i: nat| candidate(i)
}

/// The names of the properties that listed elements have.
pub open spec fn used_names(m: GraphModel) -> Set<Seq<char>> {
    Set::new(|name: Seq<char>| prop_used(m, name))
}

/// The first name for the temporary property that no listed element uses.
pub open spec fn first_unused(m: GraphModel) -> Seq<char> {
    candidate(crate::fields::first_free(used_names(m), candidates()))
}

/// The script that rebuilds a graph.
pub open spec fn script(m: GraphModel) -> Result<Seq<PieceView>, Seq<char>> {
    let prop = first_unused(m);
    match all_node_pieces(m, m.node_ids, prop) {
        Err(e) => Err(e),
        Ok(nodes) => match all_edge_pieces(m, m.edge_ids(), prop) {
            Err(e) => Err(e),
            Ok(edges) => Ok(
                plain("-- froGQL dump (.dump-gql)\n-- nodes ----\n"@) + nodes + plain(
                    "-- edges ----\n"@,
                ) + edges + plain("-- cleanup --\nMATCH (n) REMOVE n."@) + plain(prop) + plain(
                    ";\n"@,
                ),
            ),
        },
    }
}

proof fn candidates_differ()
    ensures
        crate::fields::all_differ(candidates()),
{
    let name = candidates();
    assert forall|a: nat, b: nat| #[trigger] name(a) == #[trigger] name(b) implies a == b by {
        reveal_strlit("_dump_id");
        reveal_strlit("__dump_id_v");
        let x = name(a);
        let y = name(b);
        if a != 0 && b != 0 {
            assert(x.skip(11) =~= crate::text::decimal(a));
            assert(y.skip(11) =~= crate::text::decimal(b));
            crate::text::decimal_injective(a, b);
        } else {
            assert(a != 0 ==> x.len() >= 11);
            assert(b != 0 ==> y.len() >= 11);
        }
    }
}

/// The temporary property is none that the graph has: it is the first such name
/// in the order in which names are tried.
pub proof fn temporary_name_is_fresh(m: GraphModel)
    requires
        used_names(m).finite(),
    ensures
        !prop_used(m, first_unused(m)),
        exists|i: nat| #[trigger]
            candidate(i) == first_unused(m) && forall|j: nat|
                j < i ==> prop_used(m, #[trigger] candidate(j)),
{
    candidates_differ();
    crate::fields::first_free_found(used_names(m), candidates());
    let i = crate::fields::first_free(used_names(m), candidates());
    assert forall|j: nat| j < i implies prop_used(m, #[trigger] candidate(j)) by {
        let name = candidates();
        assert(used_names(m).contains(name(j)));
    }
    assert(candidate(i) == first_unused(m));
}

fn push_text(out: &mut Vec<Piece>, s: &str)
    ensures
        piece_views(final(out)@) == piece_views(old(out)@) + plain(s@),
{
    out.push(Piece::Text(copy_text(s)));
    assert(piece_views(out@) =~= piece_views(old(out)@) + plain(s@));
}

/// Whether a string has a single quote in it.
fn has_quote(s: &str) -> (r: bool)
    ensures
        r == s@.contains('\''),
{
    let n = s.unicode_len();
    let mut i: usize = 0;
    while i < n
        invariant
            i <= n,
            n == s@.len(),
            forall|j: int| 0 <= j < i ==> s@[j] != '\'',
        decreases n - i,
    {
        if s.get_char(i) == '\'' {
            assert(s@[i as int] == '\'');
            return true;
        }
        i = i + 1;
    }
    false
}

/// Appends the literal of a value.
fn format_gql_value(v: &Value, out: &mut Vec<Piece>) -> (r: Result<(), String>)
    ensures
        match r {
            Ok(_) => value_pieces(v@) is Ok && piece_views(final(out)@) == piece_views(old(out)@)
                + value_pieces(v@)->Ok_0,
            Err(e) => value_pieces(v@) == Err::<Seq<PieceView>, _>(e@),
        },
    decreases v, 0int,
{
    let ghost start = piece_views(out@);
    match v {
        Value::Null => {
            push_text(out, "NULL");
            Ok(())
        },
        Value::Int(n) => {
            push_text(out, text_of_i64(*n).as_str());
            Ok(())
        },
        Value::Float(bits) => {
            out.push(Piece::Float(*bits));
            assert(piece_views(out@) =~= start + seq![PieceView::Float(*bits)]);
            Ok(())
        },
        Value::Bool(b) => {
            if *b {
                push_text(out, "true");
            } else {
                push_text(out, "false");
            }
            Ok(())
        },
        Value::Str(s) => {
            if has_quote(s.as_str()) {
                let mut e = copy_text(
                    "dump-gql: string value contains a single quote, which the lexer cannot round-trip (value: ",
                );
                e.append(quoted_text(s.as_str()).as_str());
                e.append(")");
                return Err(e);
            }
            let mut t = copy_text("'");
            t.append(s.as_str());
            t.append("'");
            push_text(out, t.as_str());
            Ok(())
        },
        Value::List(items) => {
            let ghost all = v@->List_0;
            push_text(out, "[");
            let ghost opened = piece_views(out@);
            let mut i: usize = 0;
            assert(item_pieces(all.take(0)) == Ok::<_, Seq<char>>(Seq::<PieceView>::empty()));
            assert(opened + Seq::<PieceView>::empty() =~= opened);
            while i < items.len()
                invariant
                    i <= items.len(),
                    *v == Value::List(*items),
                    all == v@->List_0,
                    all.len() == items.len(),
                    item_pieces(all.take(i as int)) is Ok,
                    piece_views(out@) == opened + item_pieces(all.take(i as int))->Ok_0,
                decreases items.len() - i,
            {
                assert(decreases_to!(v => v->List_0));
                let ghost rest = item_pieces(all.take(i as int))->Ok_0;
                proof {
                    assert(all[i as int] == items@[i as int]@);
                    assert(all.take(i + 1).drop_last() =~= all.take(i as int));
                    assert(all.take(i + 1)[i as int] == all[i as int]);
                }
                if i > 0 {
                    push_text(out, ", ");
                }
                match format_gql_value(&items[i], out) {
                    Ok(_) => {},
                    Err(e) => {
                        proof {
                            first_item_error(all, i as int, e@);
                        }
                        return Err(e);
                    },
                }
                proof {
                    let p = value_pieces(all[i as int])->Ok_0;
                    if i > 0 {
                        assert(opened + rest + plain(", "@) + p =~= opened + (rest + plain(", "@)
                            + p));
                    } else {
                        assert(opened + rest + p =~= opened + (rest + p));
                    }
                }
                i = i + 1;
            }
            assert(all.take(i as int) =~= all);
            push_text(out, "]");
            proof {
                let p = item_pieces(all)->Ok_0;
                assert(start + plain("["@) + p + plain("]"@) =~= start + (plain("["@) + p + plain(
                    "]"@,
                )));
            }
            Ok(())
        },
        Value::Record(fields) => {
            let ghost m = v@->Record_0;
            push_text(out, "{");
            let ghost opened = piece_views(out@);
            proof {
                assert(m =~= crate::model::value::props_view(*fields));
                assert(decreases_to!(v => v->Record_0));
            }
            match format_fields(fields, out) {
                Ok(_) => {},
                Err(e) => {
                    return Err(e);
                },
            }
            push_text(out, "}");
            proof {
                let p = field_pieces(m, crate::fields::sorted_keys(m))->Ok_0;
                assert(start + plain("{"@) + p + plain("}"@) =~= start + (plain("{"@) + p + plain(
                    "}"@,
                )));
            }
            Ok(())
        },
        Value::Node(_) => {
            assert(piece_views(out@) =~= start + Seq::<PieceView>::empty());
            Ok(())
        },
        Value::Edge(_) => {
            assert(piece_views(out@) =~= start + Seq::<PieceView>::empty());
            Ok(())
        },
        Value::Path(_) => {
            assert(piece_views(out@) =~= start + Seq::<PieceView>::empty());
            Ok(())
        },
    }
}

/// An error of a prefix is the error of the whole list.
proof fn first_item_error(all: Seq<ValueView>, i: int, e: Seq<char>)
    requires
        0 <= i < all.len(),
        item_pieces(all.take(i + 1)) == Err::<Seq<PieceView>, _>(e),
    ensures
        item_pieces(all) == Err::<Seq<PieceView>, _>(e),
    decreases all.len() - i,
{
    if i + 1 == all.len() {
        assert(all.take(i + 1) =~= all);
    } else {
        assert(all.take(i + 2).drop_last() =~= all.take(i + 1));
        first_item_error(all, i + 1, e);
    }
}

proof fn first_field_error(m: Map<Seq<char>, ValueView>, keys: Seq<Seq<char>>, i: int, e: Seq<char>)
    requires
        0 <= i < keys.len(),
        field_pieces(m, keys.take(i + 1)) == Err::<Seq<PieceView>, _>(e),
    ensures
        field_pieces(m, keys) == Err::<Seq<PieceView>, _>(e),
    decreases keys.len() - i,
{
    if i + 1 == keys.len() {
        assert(keys.take(i + 1) =~= keys);
    } else {
        assert(keys.take(i + 2).drop_last() =~= keys.take(i + 1));
        first_field_error(m, keys, i + 1, e);
    }
}

proof fn first_prop_error(m: Map<Seq<char>, ValueView>, keys: Seq<Seq<char>>, i: int, e: Seq<char>)
    requires
        0 <= i < keys.len(),
        prop_pieces(m, keys.take(i + 1)) == Err::<Seq<PieceView>, _>(e),
    ensures
        prop_pieces(m, keys) == Err::<Seq<PieceView>, _>(e),
    decreases keys.len() - i,
{
    if i + 1 == keys.len() {
        assert(keys.take(i + 1) =~= keys);
    } else {
        assert(keys.take(i + 2).drop_last() =~= keys.take(i + 1));
        first_prop_error(m, keys, i + 1, e);
    }
}

/// Appends the fields of a record.
fn format_fields(fields: &FieldMap<Value>, out: &mut Vec<Piece>) -> (r: Result<(), String>)
    ensures
        ({
            let m = crate::model::value::props_view(*fields);
            let p = field_pieces(m, crate::fields::sorted_keys(m));
            match r {
                Ok(_) => p is Ok && piece_views(final(out)@) == piece_views(old(out)@) + p->Ok_0,
                Err(e) => p == Err::<Seq<PieceView>, _>(e@),
            }
        }),
    decreases fields, 1int,
{
    let ghost m = crate::model::value::props_view(*fields);
    let ghost start = piece_views(out@);
    let n = fields.len();
    let ghost keys = fields.keys();
    proof {
        assert(m.dom() =~= fields@.dom());
        crate::fields::sorted_keys_of_dom(m, fields@);
    }
    let mut i: usize = 0;
    assert(start + Seq::<PieceView>::empty() =~= start);
    while i < n
        invariant
            i <= n,
            n == keys.len(),
            keys == fields.keys(),
            keys == crate::fields::sorted_keys(m),
            m == crate::model::value::props_view(*fields),
            m.dom().finite(),
            field_pieces(m, keys.take(i as int)) is Ok,
            piece_views(out@) == start + field_pieces(m, keys.take(i as int))->Ok_0,
        decreases n - i,
    {
        let ghost rest = field_pieces(m, keys.take(i as int))->Ok_0;
        proof {
            fields.values_decrease();
            assert(keys.take(i + 1).drop_last() =~= keys.take(i as int));
            assert(keys.take(i + 1).last() == keys[i as int]);
        }
        let v = fields.value_at(i);
        assert(m.contains_key(keys[i as int]) && m[keys[i as int]] == v@);
        if i > 0 {
            push_text(out, ", ");
        }
        push_text(out, fields.key_at(i).as_str());
        push_text(out, ": ");
        match format_gql_value(v, out) {
            Ok(_) => {},
            Err(e) => {
                proof {
                    first_field_error(m, keys, i as int, e@);
                }
                return Err(e);
            },
        }
        proof {
            let p = value_pieces(v@)->Ok_0;
            let k = plain(keys[i as int]);
            let c = plain(": "@);
            if i > 0 {
                let comma = plain(", "@);
                assert(start + rest + comma + k + c + p =~= start + (rest + comma + k + c + p));
            } else {
                assert(start + rest + k + c + p =~= start + (rest + k + c + p));
            }
        }
        i = i + 1;
    }
    assert(keys.take(i as int) =~= keys);
    Ok(())
}

/// Whether a value has no literal.
fn no_literal(v: &Value) -> (r: bool)
    ensures
        r == is_reference(v@),
{
    match v {
        Value::Node(_) => true,
        Value::Edge(_) => true,
        Value::Path(_) => true,
        _ => false,
    }
}

/// Appends labels and properties.
fn format_descriptor(labels: &Vec<String>, props: &Props, out: &mut Vec<Piece>) -> (r: Result<
    (),
    String,
>)
    ensures
        ({
            let p = descriptor_pieces(
                crate::text::texts(labels@),
                crate::model::value::props_view(*props),
            );
            match r {
                Ok(_) => p is Ok && piece_views(final(out)@) == piece_views(old(out)@) + p->Ok_0,
                Err(e) => p == Err::<Seq<PieceView>, _>(e@),
            }
        }),
{
    let ghost start = piece_views(out@);
    let ghost m = crate::model::value::props_view(*props);
    let ghost lp = label_pieces(crate::text::texts(labels@));
    if labels.len() > 0 {
        push_text(out, ":");
        push_text(out, join_texts(labels, " & ").as_str());
    }
    assert(piece_views(out@) =~= start + lp);
    proof {
        if m == Map::<Seq<char>, ValueView>::empty() {
            assert(props@ =~= Map::<Seq<char>, Value>::empty()) by {
                assert forall|k: Seq<char>| !props@.contains_key(k) by {
                    assert(!m.contains_key(k));
                }
            }
        } else if props@ == Map::<Seq<char>, Value>::empty() {
            assert(m =~= Map::<Seq<char>, ValueView>::empty());
        }
    }
    if props.is_empty() {
        return Ok(());
    }
    let brace = if labels.len() == 0 {
        "{"
    } else {
        " {"
    };
    push_text(out, brace);
    let ghost opened = piece_views(out@);
    let n = props.len();
    let ghost keys = props.keys();
    proof {
        assert(m.dom() =~= props@.dom());
        crate::fields::sorted_keys_of_dom(m, props@);
    }
    let mut i: usize = 0;
    let mut first = true;
    assert(opened + Seq::<PieceView>::empty() =~= opened);
    while i < n
        invariant
            i <= n,
            n == keys.len(),
            keys == props.keys(),
            keys == crate::fields::sorted_keys(m),
            m == crate::model::value::props_view(*props),
            m != Map::<Seq<char>, ValueView>::empty(),
            lp == label_pieces(crate::text::texts(labels@)),
            prop_pieces(m, keys.take(i as int)) is Ok,
            first == (prop_pieces(m, keys.take(i as int))->Ok_0.len() == 0),
            piece_views(out@) == opened + prop_pieces(m, keys.take(i as int))->Ok_0,
        decreases n - i,
    {
        let ghost rest = prop_pieces(m, keys.take(i as int))->Ok_0;
        proof {
            assert(keys.take(i + 1).drop_last() =~= keys.take(i as int));
            assert(keys.take(i + 1).last() == keys[i as int]);
        }
        let v = props.value_at(i);
        assert(m.contains_key(keys[i as int]) && m[keys[i as int]] == v@);
        if !no_literal(v) {
            if !first {
                push_text(out, ", ");
            }
            push_text(out, props.key_at(i).as_str());
            push_text(out, ": ");
            match format_gql_value(v, out) {
                Ok(_) => {},
                Err(e) => {
                    proof {
                        first_prop_error(m, keys, i as int, e@);
                    }
                    return Err(e);
                },
            }
            proof {
                let p = value_pieces(v@)->Ok_0;
                let k = plain(keys[i as int]);
                let c = plain(": "@);
                if !first {
                    let comma = plain(", "@);
                    assert(opened + rest + comma + k + c + p =~= opened + (rest + comma + k + c
                        + p));
                } else {
                    assert(opened + rest + k + c + p =~= opened + (rest + k + c + p));
                }
            }
            first = false;
        }
        i = i + 1;
    }
    assert(keys.take(i as int) =~= keys);
    push_text(out, "}");
    proof {
        let p = prop_pieces(m, keys)->Ok_0;
        let b = plain(brace@);
        assert(start + lp + b + p + plain("}"@) =~= start + (lp + b + p + plain("}"@)));
    }
    Ok(())
}

/// The temporary name of a node.
fn node_mark(id: Id) -> (r: String)
    ensures
        r@ == mark(id),
{
    let mut s = copy_text("n_");
    s.append(text_of_u64(id as u64).as_str());
    s
}

/// Appends the statement for a node.
fn format_node_insert<G: GraphAccess>(g: &G, id: Id, prop: &str, out: &mut Vec<Piece>) -> (r:
    Result<(), String>)
    requires
        g.sound(),
        g.model().nodes.contains_key(id),
    ensures
        ({
            let p = node_pieces(g.model().nodes[id], id, prop@);
            match r {
                Ok(_) => p is Ok && piece_views(final(out)@) == piece_views(old(out)@) + p->Ok_0,
                Err(e) => p == Err::<Seq<PieceView>, _>(e@),
            }
        }),
{
    let ghost start = piece_views(out@);
    let ghost n = g.model().nodes[id];
    let labels = MemoryGraphStore::label_strings(&g.node_labels(id));
    let mut props = g.node_props(id);
    let value = Value::Str(node_mark(id));
    assert(value@ == ValueView::Str(mark(id)));
    props.insert(copy_text(prop), value);
    assert(crate::model::value::props_view(props) =~= n.props.insert(
        prop@,
        ValueView::Str(mark(id)),
    ));
    push_text(out, "INSERT (");
    let ghost opened = piece_views(out@);
    match format_descriptor(&labels, &props, out) {
        Ok(_) => {},
        Err(e) => {
            return Err(e);
        },
    }
    let ghost p = descriptor_pieces(
        n.labels.required(),
        n.props.insert(prop@, ValueView::Str(mark(id))),
    )->Ok_0;
    push_text(out, ");\n");
    assert(start + plain("INSERT ("@) + p + plain(");\n"@) =~= start + (plain("INSERT ("@) + p
        + plain(");\n"@)));
    Ok(())
}

/// Appends the statement for an edge.
fn format_edge_insert<G: GraphAccess>(g: &G, id: Id, prop: &str, out: &mut Vec<Piece>) -> (r:
    Result<(), String>)
    requires
        g.sound(),
        g.model().edges.contains_key(id),
    ensures
        ({
            let p = edge_pieces(g.model().edges[id], prop@);
            match r {
                Ok(_) => p is Ok && piece_views(final(out)@) == piece_views(old(out)@) + p->Ok_0,
                Err(e) => p == Err::<Seq<PieceView>, _>(e@),
            }
        }),
{
    let ghost start = piece_views(out@);
    let ghost e = g.model().edges[id];
    let labels = MemoryGraphStore::label_strings(&g.edge_labels(id));
    let props = g.edge_props(id);
    let directed = g.is_directed(id);
    let mut head = copy_text("MATCH (a:* {");
    head.append(prop);
    head.append(": '");
    head.append(node_mark(g.src(id)).as_str());
    head.append("'}), (b:* {");
    head.append(prop);
    head.append(": '");
    head.append(node_mark(g.tgt(id)).as_str());
    head.append("'}) INSERT (a)");
    push_text(out, head.as_str());
    let left = if directed {
        "-["
    } else {
        "~["
    };
    push_text(out, left);
    match format_descriptor(&labels, &props, out) {
        Ok(_) => {},
        Err(err) => {
            return Err(err);
        },
    }
    let right = if directed {
        "]->(b);\n"
    } else {
        "]~(b);\n"
    };
    push_text(out, right);
    proof {
        let p = descriptor_pieces(e.labels.required(), e.props)->Ok_0;
        let h = plain(head@);
        assert(start + h + plain(left@) + p + plain(right@) =~= start + (h + plain(left@) + p
            + plain(right@)));
    }
    Ok(())
}

/// The names of the properties that listed elements have.
fn collect_used<G: GraphAccess>(g: &G) -> (r: NameSet)
    requires
        g.sound(),
    ensures
        r@ == used_names(g.model()),
{
    proof {
        g.sound_model();
    }
    let ghost m = g.model();
    let mut used = NameSet::new();
    let ids = g.nodes();
    let mut i: usize = 0;
    while i < ids.len()
        invariant
            i <= ids.len(),
            g.sound(),
            m == g.model(),
            m.well_formed(),
            ids@ == m.node_ids,
            forall|x: Seq<char>| #[trigger]
                used@.contains(x) <==> exists|j: int|
                    0 <= j < i && m.nodes[#[trigger] m.node_ids[j]].props.contains_key(x),
        decreases ids.len() - i,
    {
        assert(m.nodes.contains_key(m.node_ids[i as int]));
        let props = g.node_props(ids[i]);
        let ghost was = used@;
        add_keys(&mut used, &props);
        proof {
            assert forall|x: Seq<char>| #[trigger]
                used@.contains(x) <==> exists|j: int|
                0 <= j < i + 1 && m.nodes[#[trigger] m.node_ids[j]].props.contains_key(x) by {
                assert(crate::model::value::props_view(props).contains_key(x)
                    == props@.contains_key(x));
                assert(was.contains(x) <==> exists|j: int|
                    0 <= j < i && m.nodes[#[trigger] m.node_ids[j]].props.contains_key(x));
                if props@.contains_key(x) {
                    assert(m.nodes[m.node_ids[i as int]].props.contains_key(x));
                }
            }
        }
        i = i + 1;
    }
    let ghost at_nodes = used@;
    let eids = all_edges(g);
    let mut k: usize = 0;
    while k < eids.len()
        invariant
            k <= eids.len(),
            g.sound(),
            m == g.model(),
            m.well_formed(),
            eids@ == m.edge_ids(),
            forall|x: Seq<char>| #[trigger]
                used@.contains(x) <==> at_nodes.contains(x) || exists|j: int|
                    0 <= j < k && m.edges[#[trigger] m.edge_ids()[j]].props.contains_key(x),
        decreases eids.len() - k,
    {
        assert(m.edge_known(m.edge_ids()[k as int]));
        let props = g.edge_props(eids[k]);
        let ghost was = used@;
        add_keys(&mut used, &props);
        proof {
            assert forall|x: Seq<char>| #[trigger]
                used@.contains(x) <==> at_nodes.contains(x) || exists|j: int|
                0 <= j < k + 1 && m.edges[#[trigger] m.edge_ids()[j]].props.contains_key(x) by {
                assert(crate::model::value::props_view(props).contains_key(x)
                    == props@.contains_key(x));
                assert(was.contains(x) <==> at_nodes.contains(x) || exists|j: int|
                    0 <= j < k && m.edges[#[trigger] m.edge_ids()[j]].props.contains_key(x));
                if props@.contains_key(x) {
                    assert(m.edges[m.edge_ids()[k as int]].props.contains_key(x));
                }
            }
        }
        k = k + 1;
    }
    proof {
        assert forall|x: Seq<char>| used@.contains(x) <==> used_names(m).contains(x) by {
            assert(at_nodes.contains(x) <==> exists|j: int|
                0 <= j < i && m.nodes[#[trigger] m.node_ids[j]].props.contains_key(x));
        }
        assert(used@ =~= used_names(m));
    }
    used
}

/// A candidate for the name of the temporary property.
fn candidate_name(i: u64) -> (r: String)
    ensures
        r@ == candidate(i as nat),
{
    if i == 0 {
        copy_text("_dump_id")
    } else {
        let mut s = copy_text("__dump_id_v");
        s.append(text_of_u64(i).as_str());
        s
    }
}

/// A name for the temporary property that no listed element uses.
pub fn pick_dump_id_prop<G: GraphAccess>(g: &G) -> (r: String)
    requires
        g.sound(),
    ensures
        r@ == first_unused(g.model()),
        !prop_used(g.model(), r@),
        exists|i: nat| #[trigger]
            candidate(i) == r@ && forall|j: nat|
                j < i ==> prop_used(g.model(), #[trigger] candidate(j)),
{
    let used = collect_used(g);
    let count = used.len();
    let ghost name = candidates();
    proof {
        temporary_name_is_fresh(g.model());
        candidates_differ();
        crate::fields::first_free_found(used@, name);
    }
    let mut i: usize = 0;
    while i < count
        invariant
            i <= count,
            name == candidates(),
            count == used@.len(),
            used@ == used_names(g.model()),
            forall|m: nat| m < i ==> used@.contains(#[trigger] name(m)),
            !prop_used(g.model(), first_unused(g.model())),
            exists|k: nat| #[trigger]
                candidate(k) == first_unused(g.model()) && forall|j: nat|
                    j < k ==> prop_used(g.model(), #[trigger] candidate(j)),
        decreases count - i,
    {
        let s = candidate_name(i as u64);
        assert(s@ == name(i as nat));
        if !used.contains(s.as_str()) {
            proof {
                crate::fields::first_free_unique(used@, name, i as nat);
            }
            return s;
        }
        i = i + 1;
    }
    proof {
        let k = crate::fields::first_free(used@, name);
        if k < i {
            assert(used@.contains(name(k)));
        }
    }
    candidate_name(i as u64)
}

proof fn first_node_error(m: GraphModel, ids: Seq<Id>, prop: Seq<char>, i: int, e: Seq<char>)
    requires
        0 <= i < ids.len(),
        all_node_pieces(m, ids.take(i + 1), prop) == Err::<Seq<PieceView>, _>(e),
    ensures
        all_node_pieces(m, ids, prop) == Err::<Seq<PieceView>, _>(e),
    decreases ids.len() - i,
{
    if i + 1 == ids.len() {
        assert(ids.take(i + 1) =~= ids);
    } else {
        assert(ids.take(i + 2).drop_last() =~= ids.take(i + 1));
        first_node_error(m, ids, prop, i + 1, e);
    }
}

proof fn first_edge_error(m: GraphModel, ids: Seq<Id>, prop: Seq<char>, i: int, e: Seq<char>)
    requires
        0 <= i < ids.len(),
        all_edge_pieces(m, ids.take(i + 1), prop) == Err::<Seq<PieceView>, _>(e),
    ensures
        all_edge_pieces(m, ids, prop) == Err::<Seq<PieceView>, _>(e),
    decreases ids.len() - i,
{
    if i + 1 == ids.len() {
        assert(ids.take(i + 1) =~= ids);
    } else {
        assert(ids.take(i + 2).drop_last() =~= ids.take(i + 1));
        first_edge_error(m, ids, prop, i + 1, e);
    }
}

/// The script that rebuilds a graph, as pieces. It fails where a string value
/// has a single quote in it.
pub fn dump_to_gql_pieces<G: GraphAccess>(g: &G) -> (r: Result<Vec<Piece>, String>)
    requires
        g.sound(),
    ensures
        !prop_used(g.model(), first_unused(g.model())),
        match r {
            Ok(p) => script(g.model()) == Ok::<_, Seq<char>>(piece_views(p@)),
            Err(e) => script(g.model()) == Err::<Seq<PieceView>, _>(e@),
        },
{
    proof {
        g.sound_model();
    }
    let ghost m = g.model();
    let prop = pick_dump_id_prop(g);
    let mut out: Vec<Piece> = Vec::new();
    push_text(&mut out, "-- froGQL dump (.dump-gql)\n-- nodes ----\n");
    let ghost start = piece_views(out@);
    assert(start =~= plain("-- froGQL dump (.dump-gql)\n-- nodes ----\n"@));
    let ids = g.nodes();
    let mut i: usize = 0;
    assert(start + Seq::<PieceView>::empty() =~= start);
    while i < ids.len()
        invariant
            i <= ids.len(),
            g.sound(),
            m == g.model(),
            m.well_formed(),
            ids@ == m.node_ids,
            prop@ == first_unused(m),
            !prop_used(m, prop@),
            all_node_pieces(m, ids@.take(i as int), prop@) is Ok,
            piece_views(out@) == start + all_node_pieces(m, ids@.take(i as int), prop@)->Ok_0,
        decreases ids.len() - i,
    {
        let ghost rest = all_node_pieces(m, ids@.take(i as int), prop@)->Ok_0;
        proof {
            assert(m.nodes.contains_key(m.node_ids[i as int]));
            assert(ids@.take(i + 1).drop_last() =~= ids@.take(i as int));
            assert(ids@.take(i + 1).last() == ids@[i as int]);
        }
        match format_node_insert(g, ids[i], prop.as_str(), &mut out) {
            Ok(_) => {},
            Err(e) => {
                proof {
                    first_node_error(m, ids@, prop@, i as int, e@);
                }
                return Err(e);
            },
        }
        proof {
            let p = node_pieces(m.nodes[ids@[i as int]], ids@[i as int], prop@)->Ok_0;
            assert(start + rest + p =~= start + (rest + p));
        }
        i = i + 1;
    }
    assert(ids@.take(i as int) =~= ids@);
    let ghost nodes = all_node_pieces(m, m.node_ids, prop@)->Ok_0;
    push_text(&mut out, "-- edges ----\n");
    let ghost middle = piece_views(out@);
    let eids = all_edges(g);
    let mut i: usize = 0;
    assert(middle + Seq::<PieceView>::empty() =~= middle);
    while i < eids.len()
        invariant
            i <= eids.len(),
            g.sound(),
            m == g.model(),
            m.well_formed(),
            eids@ == m.edge_ids(),
            prop@ == first_unused(m),
            !prop_used(m, prop@),
            all_node_pieces(m, m.node_ids, prop@) is Ok,
            all_edge_pieces(m, eids@.take(i as int), prop@) is Ok,
            piece_views(out@) == middle + all_edge_pieces(m, eids@.take(i as int), prop@)->Ok_0,
        decreases eids.len() - i,
    {
        let ghost rest = all_edge_pieces(m, eids@.take(i as int), prop@)->Ok_0;
        proof {
            assert(m.edge_known(m.edge_ids()[i as int]));
            assert(eids@.take(i + 1).drop_last() =~= eids@.take(i as int));
            assert(eids@.take(i + 1).last() == eids@[i as int]);
        }
        match format_edge_insert(g, eids[i], prop.as_str(), &mut out) {
            Ok(_) => {},
            Err(e) => {
                proof {
                    first_edge_error(m, eids@, prop@, i as int, e@);
                }
                return Err(e);
            },
        }
        proof {
            let p = edge_pieces(m.edges[eids@[i as int]], prop@)->Ok_0;
            assert(middle + rest + p =~= middle + (rest + p));
        }
        i = i + 1;
    }
    assert(eids@.take(i as int) =~= eids@);
    push_text(&mut out, "-- cleanup --\nMATCH (n) REMOVE n.");
    push_text(&mut out, prop.as_str());
    push_text(&mut out, ";\n");
    Ok(out)
}

} // verus!
