//! A script rebuilds its graph.

use vstd::prelude::*;

use super::dump::PieceView;
use super::script_reader::{Built, BuiltEdge, Described, Statement};
use crate::model::graph_access::{EdgeView, GraphModel, NodeView};
use crate::model::value::{Id, ValueView};

verus! {

proof fn last_cut_at(a: Seq<char>, c: char, b: Seq<char>)
    requires
        forall|i: int| 0 <= i < b.len() ==> b[i] != c,
    ensures
        super::script_reader::last_cut(a + seq![c] + b, c) == a.len(),
    decreases b.len(),
{
    let t = a + seq![c] + b;
    if b.len() > 0 {
        assert(t.last() == b.last());
        assert(t.drop_last() =~= a + seq![c] + b.drop_last());
        last_cut_at(a, c, b.drop_last());
    } else {
        assert(t.last() == c);
    }
}

proof fn last_cut_none(t: Seq<char>, c: char)
    requires
        forall|i: int| 0 <= i < t.len() ==> t[i] != c,
    ensures
        super::script_reader::last_cut(t, c) == -1,
    decreases t.len(),
{
    if t.len() > 0 {
        assert(t.last() == t[t.len() - 1]);
        last_cut_none(t.drop_last(), c);
    }
}

proof fn first_cut_at(a: Seq<char>, c: char, b: Seq<char>)
    requires
        forall|i: int| 0 <= i < a.len() ==> a[i] != c,
    ensures
        super::script_reader::first_cut(a + seq![c] + b, c) == a.len(),
    decreases a.len(),
{
    let t = a + seq![c] + b;
    if a.len() > 0 {
        assert(t[0] == a[0]);
        assert(t.drop_first() =~= a.drop_first() + seq![c] + b);
        first_cut_at(a.drop_first(), c, b);
    } else {
        assert(t[0] == c);
    }
}

proof fn decimal_reads_back(n: nat)
    ensures
        super::script_reader::number(crate::text::decimal(n)) == n,
        crate::text::decimal(n).len() > 0,
        forall|i: int|
            0 <= i < crate::text::decimal(n).len() ==> '0' as int <= (
            #[trigger] crate::text::decimal(n)[i]) as int <= '9' as int,
    decreases n,
{
    let s = crate::text::decimal(n);
    if n < 10 {
        assert(s.drop_last() =~= Seq::<char>::empty());
        assert(s.last() as int == 48 + n);
        assert(super::script_reader::number(s.drop_last()) == 0);
    } else {
        decimal_reads_back(n / 10);
        assert(s.drop_last() =~= crate::text::decimal(n / 10));
        assert(s.last() as int == 48 + n % 10);
        assert(super::script_reader::number(s) == super::script_reader::number(s.drop_last()) * 10
            + (s.last() as int - '0' as int));
        assert forall|i: int| 0 <= i < s.len() implies '0' as int <= (#[trigger] s[i]) as int
            <= '9' as int by {
            if i < s.len() - 1 {
                assert(s[i] == crate::text::decimal(n / 10)[i]);
            }
        }
    }
}

/// The text of an integer begins with a sign or a digit, and is read as it.
proof fn integer_reads_back(n: i64)
    ensures
        super::script_reader::integer(crate::text::signed_decimal(n as int)) == n,
        crate::text::signed_decimal(n as int).len() > 0,
        ({
            let c = crate::text::signed_decimal(n as int)[0];
            c == '-' || '0' as int <= c as int <= '9' as int
        }),
{
    let s = crate::text::signed_decimal(n as int);
    if n < 0 {
        decimal_reads_back((-n) as nat);
        assert(s.drop_first() =~= crate::text::decimal((-n) as nat));
    } else {
        decimal_reads_back(n as nat);
        assert(s[0] as int >= '0' as int);
    }
}

/// Labels are read back where none has an ampersand in it.
proof fn labels_read_back(labels: Seq<Seq<char>>)
    requires
        labels.len() > 0,
        forall|i: int| 0 <= i < labels.len() ==> !(#[trigger] labels[i]).contains('&'),
    ensures
        super::script_reader::read_labels(crate::text::joined(labels, " & "@)) == labels,
    decreases labels.len(),
{
    reveal_strlit(" & ");
    let last = labels[labels.len() - 1];
    assert forall|i: int| 0 <= i < last.len() implies last[i] != '&' by {
        if last[i] == '&' {
            assert(last.contains('&'));
        }
    }
    if labels.len() == 1 {
        last_cut_none(last, '&');
        assert(labels =~= seq![last]);
    } else {
        let init = labels.drop_last();
        let before = crate::text::joined(init, " & "@);
        let t = crate::text::joined(labels, " & "@);
        assert forall|i: int| 0 <= i < init.len() implies !(#[trigger] init[i]).contains('&') by {
            assert(!labels[i].contains('&'));
        }
        labels_read_back(init);
        assert(t =~= before.push(' ') + seq!['&'] + (seq![' '] + last));
        last_cut_at(before.push(' '), '&', seq![' '] + last);
        let k = before.len() as int + 1;
        assert(t.take(k - 1) =~= before);
        assert(t.skip(k + 2) =~= last);
        assert(labels =~= init.push(last));
    }
}

/// No reference to an element of a graph occurs in the value.
pub open spec fn without_reference(v: ValueView) -> bool
    decreases v,
{
    match v {
        ValueView::Node(_) => false,
        ValueView::Edge(_) => false,
        ValueView::Path(_) => false,
        ValueView::List(items) => forall|i: int|
            0 <= i < items.len() ==> without_reference(#[trigger] items[i]),
        ValueView::Record(m) => m.dom().finite() && forall|k: Seq<char>| #[trigger]
            m.contains_key(k) ==> without_reference(m[k]),
        _ => true,
    }
}

/// The piece is none that separates values.
pub open spec fn no_mark(p: Seq<PieceView>) -> bool {
    &&& p.len() > 0
    &&& !super::script_reader::is_text(p, 0, "]"@)
    &&& !super::script_reader::is_text(p, 0, "}"@)
    &&& !super::script_reader::is_text(p, 0, ", "@)
}

/// The literal of a value is read as the value.
pub proof fn literal_reads_back(v: ValueView, tail: Seq<PieceView>)
    requires
        without_reference(v),
        super::dump::value_pieces(v) is Ok,
        !super::script_reader::is_text(tail, 0, ": "@),
    ensures
        super::script_reader::read_value(super::dump::value_pieces(v)->Ok_0 + tail) == Some(
            (v, tail),
        ),
        no_mark(super::dump::value_pieces(v)->Ok_0),
    decreases v, 0int,
{
    reveal_strlit("NULL");
    reveal_strlit("true");
    reveal_strlit("false");
    reveal_strlit("[");
    reveal_strlit("{");
    reveal_strlit("]");
    reveal_strlit("}");
    reveal_strlit(", ");
    reveal_strlit("'");
    reveal_strlit(": ");
    let p = super::dump::value_pieces(v)->Ok_0;
    let all = p + tail;
    match v {
        ValueView::Int(n) => {
            integer_reads_back(n);
            let t = crate::text::signed_decimal(n as int);
            assert(all[0] == PieceView::Text(t));
            assert(t[0] != "NULL"@[0] && t[0] != "true"@[0] && t[0] != "false"@[0] && t[0]
                != "["@[0] && t[0] != "{"@[0] && t[0] != "]"@[0] && t[0] != "}"@[0] && t[0]
                != ", "@[0] && t[0] != '\'');
            assert(all.skip(1) =~= tail);
        },
        ValueView::Str(s) => {
            let t = "'"@ + s + "'"@;
            assert(all[0] == PieceView::Text(t));
            assert(t[0] == '\'' && t.last() == '\'');
            assert(t[0] != "NULL"@[0] && t[0] != "true"@[0] && t[0] != "false"@[0] && t[0]
                != "["@[0] && t[0] != "{"@[0] && t[0] != "]"@[0] && t[0] != "}"@[0] && t[0]
                != ", "@[0]);
            assert(t.subrange(1, t.len() - 1) =~= s);
            assert(all.skip(1) =~= tail);
        },
        ValueView::List(items) => {
            let inner = super::dump::item_pieces(items)->Ok_0;
            let close = super::dump::plain("]"@) + tail;
            assert(close[0] == PieceView::Text("]"@) && "]"@[0] != ": "@[0]);
            items_read_back(items, close);
            assert(all[0] == PieceView::Text("["@));
            assert("["@[0] != "NULL"@[0] && "["@[0] != "true"@[0] && "["@[0] != "false"@[0]);
            assert("["@[0] != "]"@[0] && "["@[0] != "}"@[0] && "["@[0] != ", "@[0]);
            assert(all.skip(1) =~= inner + close);
            assert(close.skip(1) =~= tail);
            assert(super::script_reader::read_items(close, items) == Some((items, tail)));
        },
        ValueView::Record(m) => {
            let keys = crate::fields::sorted_keys(m);
            let inner = super::dump::field_pieces(m, keys)->Ok_0;
            let close = super::dump::plain("}"@) + tail;
            crate::fields::sorted_keys_facts(m);
            assert(close[0] == PieceView::Text("}"@) && "}"@[0] != ": "@[0]);
            fields_read_back(m, keys, close);
            assert(all[0] == PieceView::Text("{"@));
            assert("{"@[0] != "NULL"@[0] && "{"@[0] != "true"@[0] && "{"@[0] != "false"@[0]
                && "{"@[0] != "["@[0]);
            assert("{"@[0] != "]"@[0] && "{"@[0] != "}"@[0] && "{"@[0] != ", "@[0]);
            assert(all.skip(1) =~= inner + close);
            closes(m, tail);
            assert(m.restrict(keys.to_set()) =~= m);
        },
        ValueView::Bool(b) => {
            assert("true"@[0] != "NULL"@[0] && "false"@[0] != "NULL"@[0] && "true"@[0]
                != "false"@[0]);
            assert("true"@[0] != "]"@[0] && "true"@[0] != "}"@[0] && "true"@[0] != ", "@[0]);
            assert("false"@[0] != "]"@[0] && "false"@[0] != "}"@[0] && "false"@[0] != ", "@[0]);
            assert(all.skip(1) =~= tail);
        },
        ValueView::Null => {
            assert("NULL"@[0] != "]"@[0] && "NULL"@[0] != "}"@[0] && "NULL"@[0] != ", "@[0]);
            assert(all.skip(1) =~= tail);
        },
        ValueView::Float(bits) => {
            assert(all[0] == PieceView::Float(bits));
            assert(all.skip(1) =~= tail);
        },
        _ => {},
    }
}

/// Behind the fields of a record its end is read.
proof fn closes(m: Map<Seq<char>, ValueView>, tail: Seq<PieceView>)
    requires
        !super::script_reader::is_text(tail, 0, ": "@),
    ensures
        super::script_reader::read_fields(super::dump::plain("}"@) + tail, m) == Some((m, tail)),
{
    reveal_strlit("}");
    reveal_strlit(", ");
    let close = super::dump::plain("}"@) + tail;
    assert("}"@[0] != ", "@[0]);
    assert(close[0] == PieceView::Text("}"@));
    assert(close.skip(1) =~= tail);
    if close.len() >= 2 {
        assert(close[1] == tail[0]);
    }
}

/// The items of a list are read as they are written.
proof fn items_read_back(items: Seq<ValueView>, tail: Seq<PieceView>)
    requires
        forall|i: int| 0 <= i < items.len() ==> without_reference(#[trigger] items[i]),
        super::dump::item_pieces(items) is Ok,
        !super::script_reader::is_text(tail, 0, ": "@),
    ensures
        super::script_reader::read_items(
            super::dump::item_pieces(items)->Ok_0 + tail,
            Seq::empty(),
        ) == super::script_reader::read_items(tail, items),
    decreases items, 0int,
{
    reveal_strlit(", ");
    reveal_strlit(": ");
    reveal_strlit("]");
    let all = super::dump::item_pieces(items)->Ok_0 + tail;
    if items.len() == 0 {
        assert(all =~= tail);
        assert(items =~= Seq::empty());
    } else {
        let init = items.drop_last();
        let v = items[items.len() - 1];
        let rest = super::dump::item_pieces(init)->Ok_0;
        let p = super::dump::value_pieces(v)->Ok_0;
        assert forall|i: int| 0 <= i < init.len() implies without_reference(#[trigger] init[i]) by {
            assert(without_reference(items[i]));
        }
        literal_reads_back(v, tail);
        let next = if items.len() == 1 {
            p + tail
        } else {
            super::dump::plain(", "@) + (p + tail)
        };
        assert(all =~= rest + next);
        assert(", "@[0] != ": "@[0]);
        if items.len() == 1 {
            assert(rest =~= Seq::empty());
            assert(all =~= p + tail);
            assert(!super::script_reader::is_text(all, 0, "]"@)) by {
                assert(all[0] == p[0]);
            }
            assert(init =~= Seq::empty());
        } else {
            assert(next[0] == PieceView::Text(", "@));
            items_read_back(init, next);
            assert(next.skip(1) =~= p + tail);
            assert(", "@[0] != "]"@[0]);
        }
        assert(init.push(v) =~= items);
    }
}

/// The fields of a record are read as they are written.
proof fn fields_read_back(m: Map<Seq<char>, ValueView>, keys: Seq<Seq<char>>, tail: Seq<PieceView>)
    requires
        m.dom().finite(),
        keys.no_duplicates(),
        forall|i: int| 0 <= i < keys.len() ==> m.contains_key(#[trigger] keys[i]),
        forall|k: Seq<char>| #[trigger] m.contains_key(k) ==> without_reference(m[k]),
        super::dump::field_pieces(m, keys) is Ok,
        !super::script_reader::is_text(tail, 0, ": "@),
    ensures
        super::script_reader::read_fields(
            super::dump::field_pieces(m, keys)->Ok_0 + tail,
            Map::empty(),
        ) == super::script_reader::read_fields(tail, m.restrict(keys.to_set())),
    decreases m, keys.len(),
{
    reveal_strlit(", ");
    reveal_strlit(": ");
    let all = super::dump::field_pieces(m, keys)->Ok_0 + tail;
    if keys.len() == 0 {
        assert(all =~= tail);
        assert(m.restrict(keys.to_set()) =~= Map::empty());
    } else {
        let init = keys.drop_last();
        let k = keys[keys.len() - 1];
        assert(m.contains_key(k));
        let v = m[k];
        let rest = super::dump::field_pieces(m, init)->Ok_0;
        let p = super::dump::value_pieces(v)->Ok_0;
        assert forall|i: int| 0 <= i < init.len() implies m.contains_key(#[trigger] init[i]) by {
            assert(m.contains_key(keys[i]));
        }
        assert forall|i: int, j: int| 0 <= i < init.len() && 0 <= j < init.len() && i
            != j implies init[i] != init[j] by {
            assert(keys[i] != keys[j]);
        }
        literal_reads_back(v, tail);
        let field = super::dump::plain(k) + super::dump::plain(": "@) + (p + tail);
        let next = if keys.len() == 1 {
            field
        } else {
            super::dump::plain(", "@) + field
        };
        assert(all =~= rest + next);
        assert(", "@[0] != ": "@[0]);
        assert(field[0] == PieceView::Text(k));
        assert(field[1] == PieceView::Text(": "@));
        assert(field.skip(2) =~= p + tail);
        let had = m.restrict(init.to_set());
        let now = m.restrict(keys.to_set());
        assert(keys =~= init.push(k));
        assert forall|x: Seq<char>| keys.to_set().contains(x) <==> init.to_set().contains(x) || x
            == k by {
            if keys.to_set().contains(x) {
                let i = choose|i: int| 0 <= i < keys.len() && keys[i] == x;
                if i < init.len() {
                    assert(init[i] == x);
                }
            }
            if init.to_set().contains(x) {
                let i = choose|i: int| 0 <= i < init.len() && init[i] == x;
                assert(keys[i] == x);
            }
            assert(keys[keys.len() - 1] == k);
        }
        assert(had.insert(k, v) =~= now);
        if keys.len() == 1 {
            assert(rest =~= Seq::empty());
            assert(all =~= field);
            assert(had =~= Map::empty());
        } else {
            assert(next[0] == PieceView::Text(", "@));
            fields_read_back(m, init, next);
            assert(next.skip(1) =~= field);
            assert(had.contains_key(init[0])) by {
                assert(init.to_set().contains(init[0]));
                assert(m.contains_key(init[0]));
            }
            assert(had != Map::<Seq<char>, ValueView>::empty());
        }
    }
}

/// Properties of an element that have a literal are written as the fields of a
/// record are.
proof fn props_as_fields(m: Map<Seq<char>, ValueView>, keys: Seq<Seq<char>>)
    requires
        m.dom().finite(),
        forall|i: int| 0 <= i < keys.len() ==> m.contains_key(#[trigger] keys[i]),
        forall|k: Seq<char>| #[trigger] m.contains_key(k) ==> without_reference(m[k]),
        super::dump::prop_pieces(m, keys) is Ok,
    ensures
        super::dump::field_pieces(m, keys) == super::dump::prop_pieces(m, keys),
        keys.len() > 0 ==> super::dump::prop_pieces(m, keys)->Ok_0.len() > 0,
    decreases keys.len(),
{
    if keys.len() > 0 {
        let init = keys.drop_last();
        assert forall|i: int| 0 <= i < init.len() implies m.contains_key(#[trigger] init[i]) by {
            assert(m.contains_key(keys[i]));
        }
        assert(m.contains_key(keys[keys.len() - 1]));
        assert(without_reference(m[keys.last()]));
        props_as_fields(m, init);
    }
}

/// The texts that can stand behind what is between brackets.
spec fn is_end(p: Seq<PieceView>) -> bool {
    &&& !super::script_reader::is_text(p, 0, ":"@)
    &&& !super::script_reader::is_text(p, 0, ": "@)
    &&& !super::script_reader::is_text(p, 0, "{"@)
    &&& !super::script_reader::is_text(p, 0, " {"@)
}

/// Labels that can be told apart in a conjunction.
pub open spec fn plain_labels(labels: Seq<Seq<char>>) -> bool {
    forall|i: int| 0 <= i < labels.len() ==> !(#[trigger] labels[i]).contains('&')
}

/// Properties that can be written.
pub open spec fn plain_props(m: Map<Seq<char>, ValueView>) -> bool {
    m.dom().finite() && forall|k: Seq<char>| #[trigger]
        m.contains_key(k) ==> without_reference(m[k])
}

/// Labels and properties are read as they are written.
proof fn descriptor_reads_back(
    labels: Seq<Seq<char>>,
    props: Map<Seq<char>, ValueView>,
    tail: Seq<PieceView>,
)
    requires
        plain_labels(labels),
        plain_props(props),
        super::dump::descriptor_pieces(labels, props) is Ok,
        is_end(tail),
    ensures
        super::script_reader::read_descriptor(
            super::dump::descriptor_pieces(labels, props)->Ok_0 + tail,
        ) == Some((Described { labels, props }, tail)),
{
    reveal_strlit(":");
    reveal_strlit("{");
    reveal_strlit(" {");
    let all = super::dump::descriptor_pieces(labels, props)->Ok_0 + tail;
    let lp = super::dump::label_pieces(labels);
    assert(":"@[0] != "{"@[0] && ":"@[0] != " {"@[0]);
    if labels.len() > 0 {
        labels_read_back(labels);
    } else {
        assert(labels =~= Seq::empty());
    }
    if props == Map::<Seq<char>, ValueView>::empty() {
        assert(all =~= lp + tail);
        if labels.len() > 0 {
            assert(all[0] == PieceView::Text(":"@));
            assert(all[1] == PieceView::Text(crate::text::joined(labels, " & "@)));
            assert(all.skip(2) =~= tail);
        } else {
            assert(all =~= tail);
        }
    } else {
        let keys = crate::fields::sorted_keys(props);
        crate::fields::sorted_keys_facts(props);
        props_as_fields(props, keys);
        let inner = super::dump::field_pieces(props, keys)->Ok_0;
        let brace = if labels.len() == 0 {
            "{"@
        } else {
            " {"@
        };
        let close = super::dump::plain("}"@) + tail;
        assert(all =~= lp + (super::dump::plain(brace) + (inner + close)));
        let q = super::dump::plain(brace) + (inner + close);
        if labels.len() > 0 {
            assert(all[0] == PieceView::Text(":"@));
            assert(all[1] == PieceView::Text(crate::text::joined(labels, " & "@)));
            assert(all.skip(2) =~= q);
        } else {
            assert(all =~= q);
            assert(q[0] == PieceView::Text("{"@));
        }
        assert(q[0] == PieceView::Text(brace));
        assert(q.skip(1) =~= inner + close);
        reveal_strlit("}");
        reveal_strlit(": ");
        assert(close[0] == PieceView::Text("}"@) && "}"@[0] != ": "@[0]);
        fields_read_back(props, keys, close);
        closes(props, tail);
        assert(props.restrict(keys.to_set()) =~= props);
    }
}

/// The node that a statement inserts: a node of the graph with its mark.
pub open spec fn marked(n: NodeView, id: Id, prop: Seq<char>) -> Described {
    Described {
        labels: n.labels.required(),
        props: n.props.insert(prop, ValueView::Str(super::dump::mark(id))),
    }
}

/// The statement for a node inserts it.
proof fn node_statement_reads(n: NodeView, id: Id, prop: Seq<char>, tail: Seq<PieceView>)
    requires
        plain_labels(n.labels.required()),
        plain_props(n.props),
        super::dump::node_pieces(n, id, prop) is Ok,
    ensures
        super::script_reader::read_statement(super::dump::node_pieces(n, id, prop)->Ok_0 + tail)
            == Some((Statement::Node(marked(n, id, prop)), tail)),
        super::dump::node_pieces(n, id, prop)->Ok_0.len() > 0,
{
    reveal(super::script_reader::read_statement);
    reveal_strlit("INSERT (");
    reveal_strlit(");\n");
    reveal_strlit(":");
    reveal_strlit(": ");
    reveal_strlit("{");
    reveal_strlit(" {");
    let d = marked(n, id, prop);
    let all = super::dump::node_pieces(n, id, prop)->Ok_0 + tail;
    let p = super::dump::descriptor_pieces(d.labels, d.props)->Ok_0;
    let close = super::dump::plain(");\n"@) + tail;
    assert(close[0] == PieceView::Text(");\n"@));
    assert(");\n"@[0] != ":"@[0] && ");\n"@[0] != ": "@[0] && ");\n"@[0] != "{"@[0] && ");\n"@[0]
        != " {"@[0]);
    assert forall|k: Seq<char>| #[trigger] d.props.contains_key(k) implies without_reference(
        d.props[k],
    ) by {
        if k != prop {
            assert(n.props.contains_key(k));
        }
    }
    descriptor_reads_back(d.labels, d.props, close);
    assert(all[0] == PieceView::Text("INSERT ("@));
    assert(all.skip(1) =~= p + close);
    assert(super::script_reader::uncommented("INSERT ("@) == "INSERT ("@) by {
        assert("INSERT ("@[0] == 'I');
    }
    assert(close.skip(1) =~= tail);
}

/// The name of the temporary property and the mark of a node have no quote.
proof fn names_without_quote(i: nat, id: Id)
    ensures
        forall|k: int|
            0 <= k < super::dump::candidate(i).len() ==> (#[trigger] super::dump::candidate(i)[k])
                != '\'',
        forall|k: int|
            0 <= k < super::dump::mark(id).len() ==> (#[trigger] super::dump::mark(id)[k]) != '\'',
{
    reveal_strlit("_dump_id");
    reveal_strlit("__dump_id_v");
    reveal_strlit("n_");
    decimal_reads_back(i);
    decimal_reads_back(id as nat);
    let c = super::dump::candidate(i);
    assert forall|k: int| 0 <= k < c.len() implies (#[trigger] c[k]) != '\'' by {
        if i > 0 && k >= 11 {
            assert(c[k] == crate::text::decimal(i)[k - 11]);
        }
    }
    let t = super::dump::mark(id);
    assert forall|k: int| 0 <= k < t.len() implies (#[trigger] t[k]) != '\'' by {
        if k >= 2 {
            assert(t[k] == crate::text::decimal(id as nat)[k - 2]);
        }
    }
}

proof fn cut_quote(a: Seq<char>, b: Seq<char>)
    requires
        forall|i: int| 0 <= i < b.len() ==> b[i] != '\'',
    ensures
        super::script_reader::unquoted(a + seq!['\''] + b) == (a, b),
{
    last_cut_at(a, '\'', b);
    let t = a + seq!['\''] + b;
    assert(t.take(a.len() as int) =~= a);
    assert(t.skip(a.len() as int + 1) =~= b);
}

/// The head of a statement for an edge names the properties it looks for.
proof fn match_reads(prop: Seq<char>, x: Seq<char>, y: Seq<char>)
    requires
        forall|k: int| 0 <= k < prop.len() ==> prop[k] != '\'',
        forall|k: int| 0 <= k < x.len() ==> x[k] != '\'',
        forall|k: int| 0 <= k < y.len() ==> y[k] != '\'',
    ensures
        super::script_reader::read_match(match_text(prop, x, y)) == Some(((prop, x), (prop, y))),
{
    reveal(match_text);
    reveal_strlit("MATCH (a:* {");
    reveal_strlit(": '");
    reveal_strlit(": ");
    reveal_strlit("'}), (b:* {");
    reveal_strlit("}), (b:* {");
    reveal_strlit("'}) INSERT (a)");
    reveal_strlit("}) INSERT (a)");
    let q = seq!['\''];
    let head = "MATCH (a:* {"@ + prop + ": "@;
    let middle = "}), (b:* {"@ + prop + ": "@;
    let end = "}) INSERT (a)"@;
    let t = match_text(prop, x, y);
    let t2 = head + q + x;
    let t3 = t2 + q + middle;
    let t4 = t3 + q + y;
    assert(": '"@ =~= ": "@ + q);
    assert("'}), (b:* {"@ =~= q + "}), (b:* {"@);
    assert("'}) INSERT (a)"@ =~= q + end);
    assert(t =~= t4 + q + end);
    assert forall|i: int| 0 <= i < middle.len() implies middle[i] != '\'' by {
        if 10 <= i < 10 + prop.len() {
            assert(middle[i] == prop[i - 10]);
        }
    }
    cut_quote(t4, end);
    cut_quote(t3, y);
    cut_quote(t2, middle);
    cut_quote(head, x);
    assert(head.take(12) =~= "MATCH (a:* {"@);
    assert(head.skip(head.len() - 2) =~= ": "@);
    assert(head.subrange(12, head.len() - 2) =~= prop);
    assert(middle.take(10) =~= "}), (b:* {"@);
    assert(middle.skip(middle.len() - 2) =~= ": "@);
    assert(middle.subrange(10, middle.len() - 2) =~= prop);
}

/// The edge that a statement inserts.
pub open spec fn described(e: EdgeView) -> Described {
    Described { labels: e.labels.required(), props: e.props }
}

/// The statement for an edge inserts it from the node with the mark of its source
/// to the node with the mark of its target.
proof fn edge_statement_reads(e: EdgeView, i: nat, tail: Seq<PieceView>)
    requires
        plain_labels(e.labels.required()),
        plain_props(e.props),
        super::dump::edge_pieces(e, super::dump::candidate(i)) is Ok,
    ensures
        ({
            let prop = super::dump::candidate(i);
            super::script_reader::read_statement(super::dump::edge_pieces(e, prop)->Ok_0 + tail)
                == Some(
                (
                    Statement::Edge {
                        from: (prop, super::dump::mark(e.src)),
                        to: (prop, super::dump::mark(e.tgt)),
                        directed: e.directed,
                        edge: described(e),
                    },
                    tail,
                ),
            )
        }),
        super::dump::edge_pieces(e, super::dump::candidate(i))->Ok_0.len() > 0,
{
    let prop = super::dump::candidate(i);
    let x = super::dump::mark(e.src);
    let y = super::dump::mark(e.tgt);
    let head = match_text(prop, x, y);
    assert(super::script_reader::read_match(head) == Some(((prop, x), (prop, y)))) by {
        names_without_quote(i, e.src);
        names_without_quote(i, e.tgt);
        match_reads(prop, x, y);
    }
    heads_differ(prop, x, y);
    let d = described(e);
    let p = super::dump::descriptor_pieces(d.labels, d.props)->Ok_0;
    let left = if e.directed {
        "-["@
    } else {
        "~["@
    };
    let right = if e.directed {
        "]->(b);\n"@
    } else {
        "]~(b);\n"@
    };
    let close = super::dump::plain(right) + tail;
    let all = super::dump::edge_pieces(e, prop)->Ok_0 + tail;
    arrows_end(e.directed, tail);
    descriptor_reads_back(d.labels, d.props, close);
    assert(super::dump::edge_pieces(e, prop)->Ok_0 == super::dump::plain(head)
        + super::dump::plain(left) + p + super::dump::plain(right)) by {
        reveal(match_text);
    }
    regrouped(super::dump::plain(head), super::dump::plain(left), p, super::dump::plain(right), tail);
    statement_of_parts(head, left, right, p, d, e.directed, tail);
}

/// A statement for an edge is read from its parts.
proof fn statement_of_parts(
    head: Seq<char>,
    left: Seq<char>,
    right: Seq<char>,
    p: Seq<PieceView>,
    d: Described,
    directed: bool,
    tail: Seq<PieceView>,
)
    requires
        head.len() > 0,
        super::script_reader::uncommented(head) == head,
        head != "INSERT ("@,
        head != "MATCH (n) REMOVE n."@,
        super::script_reader::read_match(head) is Some,
        super::script_reader::read_descriptor(p + (super::dump::plain(right) + tail)) == Some(
            (d, super::dump::plain(right) + tail),
        ),
        "-["@ != "~["@,
        "]->(b);\n"@ != "]~(b);\n"@,
        directed ==> left == "-["@ && right == "]->(b);\n"@,
        !directed ==> left == "~["@ && right == "]~(b);\n"@,
    ensures
        super::script_reader::read_statement(
            super::dump::plain(head) + super::dump::plain(left) + (p + (super::dump::plain(right)
                + tail)),
        ) == Some(
            (
                Statement::Edge {
                    from: super::script_reader::read_match(head)->Some_0.0,
                    to: super::script_reader::read_match(head)->Some_0.1,
                    directed,
                    edge: d,
                },
                tail,
            ),
        ),
{
    reveal(super::script_reader::read_statement);
    let close = super::dump::plain(right) + tail;
    let all = super::dump::plain(head) + super::dump::plain(left) + (p + close);
    assert(all[0] == PieceView::Text(head));
    assert(all[1] == PieceView::Text(left));
    assert(all.skip(2) =~= p + close);
    assert(close[0] == PieceView::Text(right));
    assert(close.skip(1) =~= tail);
}

#[verifier::opaque]
spec fn match_text(prop: Seq<char>, x: Seq<char>, y: Seq<char>) -> Seq<char> {
    "MATCH (a:* {"@ + prop + ": '"@ + x + "'}), (b:* {"@ + prop + ": '"@ + y + "'}) INSERT (a)"@
}

proof fn heads_differ(prop: Seq<char>, x: Seq<char>, y: Seq<char>)
    ensures
        match_text(prop, x, y).len() > 0,
        super::script_reader::uncommented(match_text(prop, x, y)) == match_text(prop, x, y),
        match_text(prop, x, y) != "INSERT ("@,
        match_text(prop, x, y) != "MATCH (n) REMOVE n."@,
{
    reveal(match_text);
    reveal_strlit("MATCH (a:* {");
    reveal_strlit("INSERT (");
    reveal_strlit("MATCH (n) REMOVE n.");
    let head = match_text(prop, x, y);
    assert(head[0] == "MATCH (a:* {"@[0] && head[7] == "MATCH (a:* {"@[7]);
    assert(head[0] != "INSERT ("@[0]);
    assert(head[7] != "MATCH (n) REMOVE n."@[7]);
}

proof fn regrouped(
    a: Seq<PieceView>,
    b: Seq<PieceView>,
    c: Seq<PieceView>,
    d: Seq<PieceView>,
    e: Seq<PieceView>,
)
    ensures
        a + b + c + d + e == a + b + (c + (d + e)),
{
    assert(a + b + c + d + e =~= a + b + (c + (d + e)));
}

proof fn arrows_end(directed: bool, tail: Seq<PieceView>)
    ensures
        "-["@ != "~["@,
        "]->(b);\n"@ != "]~(b);\n"@,
        directed ==> is_end(super::dump::plain("]->(b);\n"@) + tail),
        !directed ==> is_end(super::dump::plain("]~(b);\n"@) + tail),
{
    reveal_strlit("-[");
    reveal_strlit("~[");
    reveal_strlit("]->(b);\n");
    reveal_strlit("]~(b);\n");
    reveal_strlit(":");
    reveal_strlit(": ");
    reveal_strlit("{");
    reveal_strlit(" {");
    assert("-["@[0] != "~["@[0]);
    assert("]->(b);\n"@[1] != "]~(b);\n"@[1]);
    assert("]->(b);\n"@[0] == ']' && "]~(b);\n"@[0] == ']');
    assert(":"@[0] != ']' && ": "@[0] != ']' && "{"@[0] != ']' && " {"@[0] != ']');
    assert((super::dump::plain("]->(b);\n"@) + tail)[0] == PieceView::Text("]->(b);\n"@));
    assert((super::dump::plain("]~(b);\n"@) + tail)[0] == PieceView::Text("]~(b);\n"@));
}

/// The listed nodes with their marks.
spec fn marked_nodes(m: GraphModel, ids: Seq<Id>, prop: Seq<char>) -> Seq<Described> {
    Seq::new(ids.len(), |i: int| marked(m.nodes[ids[i]], ids[i], prop))
}

/// The listed edges between the places of their ends.
spec fn placed_edges(m: GraphModel, ids: Seq<Id>) -> Seq<BuiltEdge> {
    Seq::new(
        ids.len(),
        |k: int|
            BuiltEdge {
                edge: described(m.edges[ids[k]]),
                src: m.node_ids.index_of(m.edges[ids[k]].src),
                tgt: m.node_ids.index_of(m.edges[ids[k]].tgt),
                directed: m.edges[ids[k]].directed,
            },
    )
}

/// The statements for the nodes insert the nodes.
proof fn node_statements_run(m: GraphModel, ids: Seq<Id>, prop: Seq<char>, tail: Seq<PieceView>)
    requires
        forall|i: int|
            0 <= i < ids.len() ==> plain_labels(m.nodes[#[trigger] ids[i]].labels.required())
                && plain_props(m.nodes[ids[i]].props),
        super::dump::all_node_pieces(m, ids, prop) is Ok,
    ensures
        super::script_reader::run(
            (Built { nodes: Seq::empty(), edges: Seq::empty() }),
            super::dump::all_node_pieces(m, ids, prop)->Ok_0 + tail,
        ) == super::script_reader::run(
            (Built { nodes: marked_nodes(m, ids, prop), edges: Seq::empty() }),
            tail,
        ),
    decreases ids.len(),
{
    let all = super::dump::all_node_pieces(m, ids, prop)->Ok_0;
    if ids.len() == 0 {
        assert(all + tail =~= tail);
        assert(marked_nodes(m, ids, prop) =~= Seq::empty());
    } else {
        let init = ids.drop_last();
        let id = ids[ids.len() - 1];
        assert(plain_labels(m.nodes[id].labels.required()) && plain_props(m.nodes[id].props));
        assert forall|i: int| 0 <= i < init.len() implies plain_labels(
            m.nodes[#[trigger] init[i]].labels.required(),
        ) && plain_props(m.nodes[init[i]].props) by {
            assert(plain_props(m.nodes[ids[i]].props));
        }
        let p = super::dump::node_pieces(m.nodes[id], id, prop)->Ok_0;
        let rest = super::dump::all_node_pieces(m, init, prop)->Ok_0;
        assert(all + tail =~= rest + (p + tail));
        node_statements_run(m, init, prop, p + tail);
        node_statement_reads(m.nodes[id], id, prop, tail);
        assert(marked_nodes(m, ids, prop) =~= marked_nodes(m, init, prop).push(
            marked(m.nodes[id], id, prop),
        ));
    }
}

proof fn marks_differ(a: Id, b: Id)
    requires
        super::dump::mark(a) == super::dump::mark(b),
    ensures
        a == b,
{
    reveal_strlit("n_");
    let x = super::dump::mark(a);
    let y = super::dump::mark(b);
    assert(x.skip(2) =~= crate::text::decimal(a as nat));
    assert(y.skip(2) =~= crate::text::decimal(b as nat));
    crate::text::decimal_injective(a as nat, b as nat);
}

/// A mark is found at one node.
proof fn mark_found(m: GraphModel, ids: Seq<Id>, prop: Seq<char>, i: int)
    requires
        ids.no_duplicates(),
        0 <= i < ids.len(),
    ensures
        super::script_reader::carriers(
            marked_nodes(m, ids, prop),
            prop,
            super::dump::mark(ids[i]),
        ) == seq![i],
    decreases ids.len(),
{
    let nodes = marked_nodes(m, ids, prop);
    let init = ids.drop_last();
    let last = ids.len() - 1;
    assert(nodes.drop_last() =~= marked_nodes(m, init, prop));
    assert(nodes.last() == marked(m.nodes[ids[last]], ids[last], prop));
    assert forall|a: int, b: int| 0 <= a < init.len() && 0 <= b < init.len() && a
        != b implies init[a] != init[b] by {
        assert(ids[a] != ids[b]);
    }
    if i < last {
        mark_found(m, init, prop, i);
        assert(ids[i] != ids[last]);
        if super::dump::mark(ids[i]) == super::dump::mark(ids[last]) {
            marks_differ(ids[i], ids[last]);
        }
    } else {
        assert forall|j: int| 0 <= j < init.len() implies #[trigger] init[j] != ids[last] by {
            assert(ids[j] != ids[last]);
        }
        mark_missing(m, init, prop, ids[last]);
        assert(Seq::<int>::empty().push(last) =~= seq![last]);
    }
}

proof fn mark_missing(m: GraphModel, ids: Seq<Id>, prop: Seq<char>, id: Id)
    requires
        forall|j: int| 0 <= j < ids.len() ==> #[trigger] ids[j] != id,
    ensures
        super::script_reader::carriers(
            marked_nodes(m, ids, prop),
            prop,
            super::dump::mark(id),
        ) == Seq::<int>::empty(),
    decreases ids.len(),
{
    if ids.len() > 0 {
        let nodes = marked_nodes(m, ids, prop);
        let init = ids.drop_last();
        assert(nodes.drop_last() =~= marked_nodes(m, init, prop));
        assert forall|j: int| 0 <= j < init.len() implies #[trigger] init[j] != id by {
            assert(ids[j] != id);
        }
        mark_missing(m, init, prop, id);
        assert(ids[ids.len() - 1] != id);
        if super::dump::mark(ids.last()) == super::dump::mark(id) {
            marks_differ(ids.last(), id);
        }
    }
}

/// Where each mark is found at one node there is one edge more.
proof fn one_edge_more(g: Built, prop: Seq<char>, e: EdgeView, a: int, b: int)
    requires
        super::script_reader::carriers(g.nodes, prop, super::dump::mark(e.src)) == seq![a],
        super::script_reader::carriers(g.nodes, prop, super::dump::mark(e.tgt)) == seq![b],
    ensures
        super::script_reader::applied(
            g,
            Statement::Edge {
                from: (prop, super::dump::mark(e.src)),
                to: (prop, super::dump::mark(e.tgt)),
                directed: e.directed,
                edge: described(e),
            },
        ) == (Built {
            nodes: g.nodes,
            edges: g.edges.push(
                BuiltEdge { edge: described(e), src: a, tgt: b, directed: e.directed },
            ),
        }),
{
    let after = super::script_reader::applied(
        g,
        Statement::Edge {
            from: (prop, super::dump::mark(e.src)),
            to: (prop, super::dump::mark(e.tgt)),
            directed: e.directed,
            edge: described(e),
        },
    );
    let x = seq![a];
    let y = seq![b];
    assert(x.len() * y.len() == 1) by (nonlinear_arith)
        requires
            x.len() == 1,
            y.len() == 1,
    ;
    assert(0int / y.len() as int == 0 && 0int % y.len() as int == 0);
    assert(after.edges =~= g.edges.push(
        BuiltEdge { edge: described(e), src: a, tgt: b, directed: e.directed },
    ));
}

/// The statements for the edges insert the edges.
proof fn edge_statements_run(m: GraphModel, ids: Seq<Id>, c: nat, tail: Seq<PieceView>)
    requires
        m.node_ids.no_duplicates(),
        forall|i: int|
            0 <= i < ids.len() ==> plain_labels(m.edges[#[trigger] ids[i]].labels.required())
                && plain_props(m.edges[ids[i]].props) && m.node_ids.contains(m.edges[ids[i]].src)
                && m.node_ids.contains(m.edges[ids[i]].tgt),
        super::dump::all_edge_pieces(m, ids, super::dump::candidate(c)) is Ok,
    ensures
        ({
            let prop = super::dump::candidate(c);
            let nodes = marked_nodes(m, m.node_ids, prop);
            super::script_reader::run(
                (Built { nodes, edges: Seq::empty() }),
                super::dump::all_edge_pieces(m, ids, prop)->Ok_0 + tail,
            ) == super::script_reader::run((Built { nodes, edges: placed_edges(m, ids) }), tail)
        }),
    decreases ids.len(),
{
    let prop = super::dump::candidate(c);
    let nodes = marked_nodes(m, m.node_ids, prop);
    let all = super::dump::all_edge_pieces(m, ids, prop)->Ok_0;
    if ids.len() == 0 {
        assert(all + tail =~= tail);
        assert(placed_edges(m, ids) =~= Seq::empty());
    } else {
        let init = ids.drop_last();
        let id = ids[ids.len() - 1];
        let e = m.edges[id];
        assert(plain_props(m.edges[ids[ids.len() - 1]].props));
        assert forall|i: int| 0 <= i < init.len() implies plain_labels(
            m.edges[#[trigger] init[i]].labels.required(),
        ) && plain_props(m.edges[init[i]].props) && m.node_ids.contains(m.edges[init[i]].src)
            && m.node_ids.contains(m.edges[init[i]].tgt) by {
            assert(plain_props(m.edges[ids[i]].props));
        }
        let p = super::dump::edge_pieces(e, prop)->Ok_0;
        let rest = super::dump::all_edge_pieces(m, init, prop)->Ok_0;
        assert(all + tail =~= rest + (p + tail));
        edge_statements_run(m, init, c, p + tail);
        edge_statement_reads(e, c, tail);
        let a = m.node_ids.index_of(e.src);
        let b = m.node_ids.index_of(e.tgt);
        assert(0 <= a < m.node_ids.len() && m.node_ids[a] == e.src);
        assert(0 <= b < m.node_ids.len() && m.node_ids[b] == e.tgt);
        let before = Built { nodes, edges: placed_edges(m, init) };
        let st = Statement::Edge {
            from: (prop, super::dump::mark(e.src)),
            to: (prop, super::dump::mark(e.tgt)),
            directed: e.directed,
            edge: described(e),
        };
        let after = super::script_reader::applied(before, st);
        mark_found(m, m.node_ids, prop, a);
        mark_found(m, m.node_ids, prop, b);
        one_edge_more(before, prop, e, a, b);
        assert(placed_edges(m, ids) =~= placed_edges(m, init).push(
            BuiltEdge { edge: described(e), src: a, tgt: b, directed: e.directed },
        ));
        assert(after == (Built { nodes, edges: placed_edges(m, ids) }));
    }
}

/// A graph that statements have built is a given one, up to ids: the same nodes in
/// the same order, and each edge with its labels and properties, its direction,
/// and from the node that is its source to the node that is its target.
pub open spec fn rebuilds(m: GraphModel, g: Built) -> bool {
    &&& g.nodes.len() == m.node_ids.len()
    &&& forall|i: int|
        0 <= i < g.nodes.len() ==> (#[trigger] g.nodes[i]).labels
            == m.nodes[m.node_ids[i]].labels.required() && g.nodes[i].props
            == m.nodes[m.node_ids[i]].props
    &&& g.edges.len() == m.edge_ids().len()
    &&& forall|k: int|
        0 <= k < g.edges.len() ==> {
            let e = m.edges[m.edge_ids()[k]];
            let b = #[trigger] g.edges[k];
            &&& b.edge.labels == e.labels.required()
            &&& b.edge.props == e.props
            &&& b.directed == e.directed
            &&& 0 <= b.src < g.nodes.len() && m.node_ids[b.src] == e.src
            &&& 0 <= b.tgt < g.nodes.len() && m.node_ids[b.tgt] == e.tgt
        }
}

/// A graph whose elements can be written: labels without ampersands, and
/// properties without references. Its edges run between listed nodes, and no node
/// is listed twice.
pub open spec fn writable(m: GraphModel) -> bool {
    &&& m.node_ids.no_duplicates()
    &&& super::dump::used_names(m).finite()
    &&& forall|i: int|
        0 <= i < m.node_ids.len() ==> plain_labels(
            m.nodes[#[trigger] m.node_ids[i]].labels.required(),
        ) && plain_props(m.nodes[m.node_ids[i]].props)
    &&& forall|i: int|
        0 <= i < m.edge_ids().len() ==> plain_labels(
            m.edges[#[trigger] m.edge_ids()[i]].labels.required(),
        ) && plain_props(m.edges[m.edge_ids()[i]].props) && m.node_ids.contains(
            m.edges[m.edge_ids()[i]].src,
        ) && m.node_ids.contains(m.edges[m.edge_ids()[i]].tgt)
}

proof fn comments_are_skipped()
    ensures
        super::script_reader::uncommented("-- froGQL dump (.dump-gql)\n-- nodes ----\n"@)
            == Seq::<char>::empty(),
        super::script_reader::uncommented("-- edges ----\n"@) == Seq::<char>::empty(),
        super::script_reader::uncommented("-- cleanup --\nMATCH (n) REMOVE n."@)
            == "MATCH (n) REMOVE n."@,
{
    reveal_strlit("-- froGQL dump (.dump-gql)\n-- nodes ----\n");
    reveal_strlit("-- edges ----\n");
    reveal_strlit("-- cleanup --\nMATCH (n) REMOVE n.");
    reveal_strlit("MATCH (n) REMOVE n.");
    let none = Seq::<char>::empty();
    let a = "-- froGQL dump (.dump-gql)\n-- nodes ----\n"@;
    let b = "-- edges ----\n"@;
    let c = "-- cleanup --\nMATCH (n) REMOVE n."@;
    let a1 = a.skip(27);
    assert(a =~= a.take(26) + seq!['\n'] + a1);
    first_cut_at(a.take(26), '\n', a1);
    assert(a1 =~= a1.take(13) + seq!['\n'] + none);
    first_cut_at(a1.take(13), '\n', none);
    assert(a1.skip(14) =~= none);
    assert(super::script_reader::uncommented(none) == none);
    assert(a1[0] == '-' && a1[1] == '-');
    assert(super::script_reader::uncommented(a1) == none);
    assert(b =~= b.take(13) + seq!['\n'] + none);
    first_cut_at(b.take(13), '\n', none);
    assert(b.skip(14) =~= none);
    assert(c =~= c.take(13) + seq!['\n'] + "MATCH (n) REMOVE n."@);
    first_cut_at(c.take(13), '\n', "MATCH (n) REMOVE n."@);
    assert(c.skip(14) =~= "MATCH (n) REMOVE n."@);
    assert("MATCH (n) REMOVE n."@[0] == 'M');
    assert(super::script_reader::uncommented("MATCH (n) REMOVE n."@) == "MATCH (n) REMOVE n."@);
    assert(c[0] == '-' && c[1] == '-');
}

/// The last statement takes the marks away.
proof fn cleanup_runs(g: Built, prop: Seq<char>)
    ensures
        super::script_reader::run(
            g,
            super::dump::plain("-- cleanup --\nMATCH (n) REMOVE n."@) + super::dump::plain(prop)
                + super::dump::plain(";\n"@),
        ) == Some(super::script_reader::applied(g, Statement::Remove(prop))),
{
    reveal(super::script_reader::read_statement);
    let p = super::dump::plain("-- cleanup --\nMATCH (n) REMOVE n."@) + super::dump::plain(prop)
        + super::dump::plain(";\n"@);
    comments_are_skipped();
    reveal_strlit("MATCH (n) REMOVE n.");
    reveal_strlit("INSERT (");
    assert("MATCH (n) REMOVE n."@[0] != "INSERT ("@[0]);
    assert(p.skip(3) =~= Seq::empty());
    let after = super::script_reader::applied(g, Statement::Remove(prop));
    assert(super::script_reader::run(after, p.skip(3)) == Some(after));
}

proof fn comment_runs(g: Built, t: Seq<char>, tail: Seq<PieceView>)
    requires
        super::script_reader::uncommented(t) == Seq::<char>::empty(),
    ensures
        super::script_reader::run(g, super::dump::plain(t) + tail) == super::script_reader::run(
            g,
            tail,
        ),
{
    reveal(super::script_reader::read_statement);
    let p = super::dump::plain(t) + tail;
    assert(p[0] == PieceView::Text(t));
    assert(p.skip(1) =~= tail);
}

/// A script rebuilds its graph: running it from the empty graph gives the graph,
/// up to ids.
pub proof fn script_rebuilds(m: GraphModel)
    requires
        writable(m),
        super::dump::script(m) is Ok,
    ensures
        ({
            let g = super::script_reader::run(
                (Built { nodes: Seq::empty(), edges: Seq::empty() }),
                super::dump::script(m)->Ok_0,
            );
            g is Some && rebuilds(m, g->Some_0)
        }),
{
    let prop = super::dump::first_unused(m);
    let c = crate::fields::first_free(super::dump::used_names(m), super::dump::candidates());
    assert(prop == super::dump::candidate(c));
    super::dump::temporary_name_is_fresh(m);
    let nodes = super::dump::all_node_pieces(m, m.node_ids, prop)->Ok_0;
    let edges = super::dump::all_edge_pieces(m, m.edge_ids(), prop)->Ok_0;
    let first = "-- froGQL dump (.dump-gql)\n-- nodes ----\n"@;
    let second = "-- edges ----\n"@;
    let cleanup = super::dump::plain("-- cleanup --\nMATCH (n) REMOVE n."@) + super::dump::plain(
        prop,
    ) + super::dump::plain(";\n"@);
    let from_edges = edges + cleanup;
    let from_second = super::dump::plain(second) + from_edges;
    let from_nodes = nodes + from_second;
    let p = super::dump::script(m)->Ok_0;
    assert(p =~= super::dump::plain(first) + from_nodes);
    comments_are_skipped();
    let none = Built { nodes: Seq::empty(), edges: Seq::empty() };
    comment_runs(none, first, from_nodes);
    node_statements_run(m, m.node_ids, prop, from_second);
    let with_nodes = Built { nodes: marked_nodes(m, m.node_ids, prop), edges: Seq::empty() };
    comment_runs(with_nodes, second, from_edges);
    edge_statements_run(m, m.edge_ids(), c, cleanup);
    let full = Built {
        nodes: marked_nodes(m, m.node_ids, prop),
        edges: placed_edges(m, m.edge_ids()),
    };
    cleanup_runs(full, prop);
    let g = super::script_reader::applied(full, Statement::Remove(prop));
    assert(super::script_reader::run(none, p) == Some(g));
    assert forall|i: int| 0 <= i < g.nodes.len() implies (#[trigger] g.nodes[i]).labels
        == m.nodes[m.node_ids[i]].labels.required() && g.nodes[i].props
        == m.nodes[m.node_ids[i]].props by {
        let n = m.nodes[m.node_ids[i]];
        assert(!n.props.contains_key(prop));
        assert(n.props.insert(prop, ValueView::Str(super::dump::mark(m.node_ids[i]))).remove(prop)
            =~= n.props);
    }
    assert forall|k: int| 0 <= k < g.edges.len() implies ({
        let e = m.edges[m.edge_ids()[k]];
        let b = #[trigger] g.edges[k];
        &&& b.edge.labels == e.labels.required()
        &&& b.edge.props == e.props
        &&& b.directed == e.directed
        &&& 0 <= b.src < g.nodes.len() && m.node_ids[b.src] == e.src
        &&& 0 <= b.tgt < g.nodes.len() && m.node_ids[b.tgt] == e.tgt
    }) by {
        let e = m.edges[m.edge_ids()[k]];
        assert(m.node_ids.contains(e.src) && m.node_ids.contains(e.tgt));
    }
}

} // verus!
