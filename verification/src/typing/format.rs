//! Schemas in the notation of CREATE GRAPH TYPE.

use vstd::prelude::*;

use super::descriptor_type::{DescriptorType, DescriptorTypeView};
use super::label_type::{LabelType, LabelTypeView};
use super::property_type::{PropertyType, PropertyTypeView};
use super::simple_type::{SimpleType, SimpleTypeView};
use super::variable_type::{Schema, SchemaView, VariableType, VariableTypeView};
use crate::fields::{FieldMap, NameSet};
use crate::text::{copy_text, join_texts, text_of_next, text_of_usize};

verus! {

/// What `char::is_alphanumeric` returns.
pub uninterp spec fn alphanumeric(c: char) -> bool;

/// What `char::to_lowercase` yields.
pub uninterp spec fn lowercase(c: char) -> Seq<char>;

/// `char::is_alphanumeric`: whether std's Unicode tables hold the character
/// for a letter or a number. Only that the character alone decides is claimed.
#[verifier::external_body]
fn is_alphanumeric(c: char) -> (r: bool)
    ensures
        r == alphanumeric(c),
{
    c.is_alphanumeric()
}

/// `char::to_lowercase`: the lower case of the character by std's Unicode
/// tables, one or more characters. Only that the character alone decides is
/// claimed.
#[verifier::external_body]
fn to_lowercase(c: char) -> (r: String)
    ensures
        r@ == lowercase(c),
{
    c.to_lowercase().to_string()
}

/// A type: uppercase atoms, `LIST<T>`, `T | T` and `{field T}`.
pub open spec fn simple_type_text(t: SimpleTypeView) -> Seq<char>
    decreases t, 0nat,
{
    match t {
        SimpleTypeView::Z => "INT"@,
        SimpleTypeView::F => "FLOAT"@,
        SimpleTypeView::B => "BOOL"@,
        SimpleTypeView::S => "STRING"@,
        SimpleTypeView::Star => "ANY"@,
        SimpleTypeView::Zero => "⊥"@,
        SimpleTypeView::Union(a, b) => simple_type_atom_text(*a) + " | "@ + simple_type_atom_text(
            *b,
        ),
        SimpleTypeView::List(inner) => "LIST<"@ + simple_type_text(*inner) + ">"@,
        SimpleTypeView::Group(inner) => "group<"@ + simple_type_text(*inner) + ">"@,
        SimpleTypeView::Record(fields) => "{"@ + crate::text::joined(
            field_texts(fields),
            ", "@,
        ) + "}"@,
        SimpleTypeView::Node => "NODE"@,
        SimpleTypeView::Edge => "EDGE"@,
        SimpleTypeView::Path => "PATH"@,
    }
}

/// A type inside a union: a union in parentheses.
pub open spec fn simple_type_atom_text(t: SimpleTypeView) -> Seq<char>
    decreases t, 1nat,
{
    if t is Union {
        "("@ + simple_type_text(t) + ")"@
    } else {
        simple_type_text(t)
    }
}

/// Each field and its type, in ascending order of the names.
pub open spec fn field_texts(m: Map<Seq<char>, SimpleTypeView>) -> Seq<Seq<char>>
    decreases m, 0nat,
{
    let keys = crate::fields::sorted_keys(m);
    Seq::new(
        keys.len(),
        |i: int|
            if 0 <= i < keys.len() && m.dom().finite() && m.contains_key(keys[i]) {
                keys[i] + " "@ + simple_type_text(m[keys[i]])
            } else {
                arbitrary()
            },
    )
}

/// A label constraint; empty where there is none.
pub open spec fn label_text(l: LabelTypeView) -> Seq<char>
    decreases l, 0nat,
{
    match l {
        LabelTypeView::Label(s) => s,
        LabelTypeView::Star => Seq::empty(),
        LabelTypeView::Top => Seq::empty(),
        LabelTypeView::Empty => "ε"@,
        LabelTypeView::And(a, b) => label_operand_text(*a) + "&"@ + label_operand_text(*b),
        LabelTypeView::Or(a, b) => label_operand_text(*a) + "|"@ + label_operand_text(*b),
        LabelTypeView::Neg(a) => "!"@ + label_operand_text(*a),
    }
}

/// A label constraint inside another: a compound one in parentheses.
pub open spec fn label_operand_text(l: LabelTypeView) -> Seq<char>
    decreases l, 1nat,
{
    if l is And || l is Or {
        "("@ + label_text(l) + ")"@
    } else {
        label_text(l)
    }
}

/// A property record; empty where any properties will do.
pub open spec fn record_text(p: PropertyTypeView) -> Seq<char> {
    match p {
        PropertyTypeView::Open(m) => if m.dom() == Set::<Seq<char>>::empty() {
            Seq::empty()
        } else {
            "{"@ + crate::text::joined(field_texts(m), ", "@) + ", *}"@
        },
        PropertyTypeView::Closed(m) => if m.dom() == Set::<Seq<char>>::empty() {
            "{}"@
        } else {
            "{"@ + crate::text::joined(field_texts(m), ", "@) + "}"@
        },
        PropertyTypeView::Zero => "⊥"@,
    }
}

/// A node type.
pub open spec fn node_text(d: DescriptorTypeView) -> Seq<char> {
    let label = label_text(d.label);
    let props = record_text(d.props);
    if label.len() == 0 && props.len() == 0 {
        "()"@
    } else if props.len() == 0 {
        "(:"@ + label + ")"@
    } else if label.len() == 0 {
        "("@ + props + ")"@
    } else {
        "(:"@ + label + " "@ + props + ")"@
    }
}

/// What stands in the brackets of an edge type.
pub open spec fn edge_text(d: DescriptorTypeView) -> Seq<char> {
    let label = label_text(d.label);
    let props = record_text(d.props);
    if label.len() == 0 {
        props
    } else if props.len() == 0 {
        ":"@ + label
    } else {
        ":"@ + label + " "@ + props
    }
}

/// An end of an edge type: the node type's name where it has one.
pub open spec fn endpoint_text(t: VariableTypeView, names: Map<Seq<char>, Seq<char>>) -> Seq<char> {
    match t {
        VariableTypeView::Node(d) => if names.contains_key(node_text(d)) {
            "("@ + names[node_text(d)] + ")"@
        } else {
            node_text(d)
        },
        _ => "("@ + plain_text(t) + ")"@,
    }
}

/// A type with no names for its ends.
pub open spec fn plain_text(t: VariableTypeView) -> Seq<char>
    decreases t,
{
    match t {
        VariableTypeView::Node(d) => node_text(d),
        VariableTypeView::EdgeDirectional { desc, left, right } => plain_end_text(*left) + "-["@
            + edge_text(desc) + "]->"@ + plain_end_text(*right),
        VariableTypeView::EdgeNonDirectional { desc, left, right } => plain_end_text(*left)
            + "~["@ + edge_text(desc) + "]~"@ + plain_end_text(*right),
        VariableTypeView::Union(a, b) => "("@ + plain_text(*a) + ") | ("@ + plain_text(*b) + ")"@,
        VariableTypeView::Group(inner) => "group<"@ + plain_text(*inner) + ">"@,
        VariableTypeView::Null => "Null"@,
        VariableTypeView::Path => "PATH"@,
        VariableTypeView::Zero => "⊥"@,
    }
}

/// An end of an edge type that has no name.
pub open spec fn plain_end_text(t: VariableTypeView) -> Seq<char>
    decreases t,
{
    match t {
        VariableTypeView::Node(d) => node_text(d),
        VariableTypeView::EdgeDirectional { desc, left, right } => "("@ + (plain_end_text(*left)
            + "-["@ + edge_text(desc) + "]->"@ + plain_end_text(*right)) + ")"@,
        VariableTypeView::EdgeNonDirectional { desc, left, right } => "("@ + (plain_end_text(*left)
            + "~["@ + edge_text(desc) + "]~"@ + plain_end_text(*right)) + ")"@,
        VariableTypeView::Union(a, b) => "("@ + ("("@ + plain_text(*a) + ") | ("@ + plain_text(*b)
            + ")"@) + ")"@,
        VariableTypeView::Group(inner) => "("@ + ("group<"@ + plain_text(*inner) + ">"@) + ")"@,
        VariableTypeView::Null => "("@ + "Null"@ + ")"@,
        VariableTypeView::Path => "("@ + "PATH"@ + ")"@,
        VariableTypeView::Zero => "("@ + "⊥"@ + ")"@,
    }
}

/// An end without a name is printed the same in either form.
proof fn plain_end(t: VariableTypeView)
    ensures
        endpoint_text(t, Map::empty()) == plain_end_text(t),
{
}

/// A type, with the ends of an edge by their names.
pub open spec fn variable_text(t: VariableTypeView, names: Map<Seq<char>, Seq<char>>) -> Seq<char> {
    match t {
        VariableTypeView::EdgeDirectional { desc, left, right } => endpoint_text(*left, names)
            + "-["@ + edge_text(desc) + "]->"@ + endpoint_text(*right, names),
        VariableTypeView::EdgeNonDirectional { desc, left, right } => endpoint_text(*left, names)
            + "~["@ + edge_text(desc) + "]~"@ + endpoint_text(*right, names),
        _ => plain_text(t),
    }
}

/// One character of a name: a letter or a digit in lower case, `_` for the
/// rest.
pub open spec fn name_piece(keep: bool, lowered: Seq<char>) -> Seq<char> {
    if keep {
        lowered
    } else {
        "_"@
    }
}

/// A label as part of a name.
pub open spec fn label_slug(s: Seq<char>) -> Seq<char>
    decreases s.len(),
{
    if s.len() == 0 {
        Seq::empty()
    } else {
        label_slug(s.drop_last()) + name_piece(alphanumeric(s.last()), lowercase(s.last()))
    }
}

/// The labels of a conjunction as a name, with `_` between them.
pub open spec fn labels_slug(parts: Seq<Seq<char>>) -> Seq<char>
    decreases parts.len(),
{
    if parts.len() == 0 {
        Seq::empty()
    } else {
        let before = labels_slug(parts.drop_last());
        if before.len() > 0 {
            before + "_"@ + label_slug(parts.last())
        } else {
            before + label_slug(parts.last())
        }
    }
}

/// The name that the node type at position `i` asks for: after its labels, or
/// by its position where they are no plain conjunction.
pub open spec fn base_name(label: LabelTypeView, i: nat) -> Seq<char> {
    if label.is_conjunction() {
        labels_slug(label.required())
    } else {
        "t"@ + crate::text::decimal(i + 1)
    }
}

/// The `n`-th name after `base`.
pub open spec fn numbered(base: Seq<char>, n: nat) -> Seq<char> {
    if n == 1 {
        base
    } else {
        base + "_"@ + crate::text::decimal(n)
    }
}

/// The names after `base`: itself, and then with numbers from 2 on.
pub open spec fn names_after(base: Seq<char>) -> spec_fn(nat) -> Seq<char> {
    |n: nat| numbered(base, n + 1)
}

/// The first name after `base` that no type has.
pub open spec fn free_name(names: Map<Seq<char>, Seq<char>>, base: Seq<char>) -> Seq<char> {
    numbered(base, crate::fields::first_free(names.values(), names_after(base)) + 1)
}

/// The names of the node types, each type by how it is printed.
pub open spec fn naming(nodes: Seq<VariableTypeView>) -> Map<Seq<char>, Seq<char>>
    decreases nodes.len(),
{
    if nodes.len() == 0 {
        Map::empty()
    } else {
        let before = naming(nodes.drop_last());
        match nodes.last() {
            VariableTypeView::Node(d) => if before.contains_key(node_text(d)) {
                before
            } else {
                before.insert(
                    node_text(d),
                    free_name(before, base_name(d.label, (nodes.len() - 1) as nat)),
                )
            },
            _ => before,
        }
    }
}

proof fn numbers_differ(base: Seq<char>)
    ensures
        crate::fields::all_differ(names_after(base)),
{
    let name = names_after(base);
    assert forall|a: nat, b: nat| #[trigger] name(a) == #[trigger] name(b) implies a == b by {
        reveal_strlit("_");
        let x = name(a);
        let y = name(b);
        let k = base.len() as int + 1;
        if a != 0 && b != 0 {
            assert(x.skip(k) =~= crate::text::decimal(a + 1));
            assert(y.skip(k) =~= crate::text::decimal(b + 1));
            crate::text::decimal_injective(a + 1, b + 1);
        } else {
            assert(a != 0 ==> x.len() > base.len());
            assert(b != 0 ==> y.len() > base.len());
        }
    }
}

/// One more name is one more that is taken.
proof fn name_added(names: Map<Seq<char>, Seq<char>>, k: Seq<char>, name: Seq<char>)
    requires
        !names.contains_key(k),
    ensures
        names.insert(k, name).values() == names.values().insert(name),
{
    let more = names.insert(k, name);
    assert forall|v: Seq<char>| more.values().contains(v) <==> names.values().insert(
        name,
    ).contains(v) by {
        if names.values().contains(v) {
            let j = choose|j: Seq<char>| #[trigger] names.contains_key(j) && names[j] == v;
            assert(more.contains_key(j) && more[j] == v);
        }
        if v == name {
            assert(more.contains_key(k) && more[k] == v);
        }
        if more.values().contains(v) && v != name {
            let j = choose|j: Seq<char>| #[trigger] more.contains_key(j) && more[j] == v;
            assert(names.contains_key(j) && names[j] == v);
        }
    }
    assert(more.values() =~= names.values().insert(name));
}

/// Node types that are printed differently have different names.
pub proof fn names_differ(nodes: Seq<VariableTypeView>)
    ensures
        naming(nodes).values().finite(),
        forall|j: Seq<char>, k: Seq<char>| #[trigger]
            naming(nodes).contains_key(j) && #[trigger] naming(nodes).contains_key(k) && j != k
                ==> naming(nodes)[j] != naming(nodes)[k],
    decreases nodes.len(),
{
    if nodes.len() == 0 {
        assert(naming(nodes).values() =~= Set::empty());
    } else {
        names_differ(nodes.drop_last());
        let before = naming(nodes.drop_last());
        match nodes.last() {
            VariableTypeView::Node(d) => {
                if !before.contains_key(node_text(d)) {
                    let base = base_name(d.label, (nodes.len() - 1) as nat);
                    let name = free_name(before, base);
                    numbers_differ(base);
                    crate::fields::first_free_found(before.values(), names_after(base));
                    name_added(before, node_text(d), name);
                    assert(!before.values().contains(name));
                    assert forall|j: Seq<char>| #[trigger] before.contains_key(j) implies before[j]
                        != name by {
                        assert(before.values().contains(before[j]));
                    }
                }
            },
            _ => {},
        }
    }
}

/// The lines of the node types.
pub open spec fn node_lines(
    nodes: Seq<VariableTypeView>,
    names: Map<Seq<char>, Seq<char>>,
) -> Seq<char>
    decreases nodes.len(),
{
    if nodes.len() == 0 {
        Seq::empty()
    } else {
        let t = nodes.last();
        let start = node_lines(nodes.drop_last(), names) + "    "@;
        let named = match t {
            VariableTypeView::Node(d) => if names.contains_key(node_text(d)) {
                start + names[node_text(d)] + " = "@
            } else {
                start
            },
            _ => start,
        };
        named + plain_text(t) + "\n"@
    }
}

/// The lines of the edge types.
pub open spec fn edge_lines(
    edges: Seq<VariableTypeView>,
    names: Map<Seq<char>, Seq<char>>,
) -> Seq<char>
    decreases edges.len(),
{
    if edges.len() == 0 {
        Seq::empty()
    } else {
        edge_lines(edges.drop_last(), names) + "    "@ + variable_text(edges.last(), names) + "\n"@
    }
}

/// The names in use: none where there are no edges to use them.
pub open spec fn names_in_use(schema: SchemaView) -> Map<Seq<char>, Seq<char>> {
    if schema.edges.len() == 0 {
        Map::empty()
    } else {
        naming(schema.nodes)
    }
}

/// A schema, one entry per line.
pub open spec fn schema_text(schema: SchemaView) -> Seq<char> {
    let names = names_in_use(schema);
    let nodes = if schema.nodes.len() > 0 {
        "Node types:\n"@ + node_lines(schema.nodes, names)
    } else {
        Seq::empty()
    };
    if schema.nodes.len() == 0 && schema.edges.len() == 0 {
        "(empty schema)\n"@
    } else if schema.edges.len() == 0 {
        nodes
    } else if schema.nodes.len() == 0 {
        "Edge types:\n"@ + edge_lines(schema.edges, names)
    } else {
        nodes + "\nEdge types:\n"@ + edge_lines(schema.edges, names)
    }
}

/// A node type is named where the schema declares it before.
pub proof fn declared_types_are_named(nodes: Seq<VariableTypeView>, i: int)
    requires
        0 <= i < nodes.len(),
        nodes[i] is Node,
    ensures
        naming(nodes).contains_key(node_text(nodes[i]->Node_0)),
    decreases nodes.len(),
{
    if i < nodes.len() - 1 {
        declared_types_are_named(nodes.drop_last(), i);
    }
}

/// Node types that print the same have the same name, and a name once given
/// stays when types are added.
pub proof fn names_stay(nodes: Seq<VariableTypeView>, more: VariableTypeView, k: Seq<char>)
    requires
        naming(nodes).contains_key(k),
    ensures
        naming(nodes.push(more)).contains_key(k),
        naming(nodes.push(more))[k] == naming(nodes)[k],
{
    assert(nodes.push(more).drop_last() =~= nodes);
}

/// A field map, each field with its type.
fn format_field_map(m: &FieldMap<SimpleType>) -> (r: String)
    ensures
        r@ == crate::text::joined(field_texts(super::simple_type::fields_view(*m)), ", "@),
    decreases m, 0nat,
{
    let ghost view = super::simple_type::fields_view(*m);
    let n = m.len();
    let mut parts: Vec<String> = Vec::new();
    let mut i: usize = 0;
    proof {
        assert(view.dom() =~= m@.dom());
        crate::fields::sorted_keys_of_dom(view, m@);
        m.values_decrease();
    }
    while i < n
        invariant
            i <= n,
            n == m.keys().len(),
            view == super::simple_type::fields_view(*m),
            view.dom() == m@.dom(),
            m@.dom().finite(),
            m.keys().to_set() == m@.dom(),
            m.keys() == crate::fields::sorted_keys(view),
            forall|j: int| 0 <= j < n ==> m.values()[j] == m@[#[trigger] m.keys()[j]],
            m.values().len() == n,
            forall|k: Seq<char>| m@.contains_key(k) ==> decreases_to!(m => #[trigger] m@[k]),
            parts@.len() == i,
            forall|j: int| 0 <= j < i ==> (#[trigger] parts@[j])@ == field_texts(view)[j],
        decreases n - i,
    {
        let ghost k = m.keys()[i as int];
        proof {
            assert(m.keys().to_set().contains(k));
            assert(m@.contains_key(k));
            assert(decreases_to!(m => m@[k]));
        }
        let mut s = copy_text(m.key_at(i).as_str());
        s.append(" ");
        let v = m.value_at(i);
        assert(*v == m@[k]);
        s.append(format_simple_type(v).as_str());
        assert(s@ == field_texts(view)[i as int]);
        parts.push(s);
        i = i + 1;
    }
    assert(crate::text::texts(parts@) =~= field_texts(view));
    join_texts(&parts, ", ")
}

/// A type in the notation of CREATE GRAPH TYPE.
pub fn format_simple_type(t: &SimpleType) -> (r: String)
    ensures
        r@ == simple_type_text(t@),
    decreases t, 0nat,
{
    match t {
        SimpleType::Z => copy_text("INT"),
        SimpleType::F => copy_text("FLOAT"),
        SimpleType::B => copy_text("BOOL"),
        SimpleType::S => copy_text("STRING"),
        SimpleType::Star => copy_text("ANY"),
        SimpleType::Zero => copy_text("⊥"),
        SimpleType::Union(a, b) => {
            let mut s = format_simple_type_atom(a);
            s.append(" | ");
            s.append(format_simple_type_atom(b).as_str());
            s
        },
        SimpleType::List(inner) => {
            let mut s = copy_text("LIST<");
            s.append(format_simple_type(inner).as_str());
            s.append(">");
            s
        },
        SimpleType::Group(inner) => {
            let mut s = copy_text("group<");
            s.append(format_simple_type(inner).as_str());
            s.append(">");
            s
        },
        SimpleType::Record(fields) => {
            assert(t@->Record_0 =~= super::simple_type::fields_view(*fields));
            let mut s = copy_text("{");
            s.append(format_field_map(fields).as_str());
            s.append("}");
            s
        },
        SimpleType::Node => copy_text("NODE"),
        SimpleType::Edge => copy_text("EDGE"),
        SimpleType::Path => copy_text("PATH"),
    }
}

/// A type inside a union.
fn format_simple_type_atom(t: &SimpleType) -> (r: String)
    ensures
        r@ == simple_type_atom_text(t@),
    decreases t, 1nat,
{
    match t {
        SimpleType::Union(_, _) => {
            let mut s = copy_text("(");
            s.append(format_simple_type(t).as_str());
            s.append(")");
            s
        },
        _ => format_simple_type(t),
    }
}

/// A label constraint.
fn format_label(l: &LabelType) -> (r: String)
    ensures
        r@ == label_text(l@),
    decreases l, 0nat,
{
    match l {
        LabelType::Label(s) => copy_text(s.as_str()),
        LabelType::Star => String::new(),
        LabelType::Top => String::new(),
        LabelType::Empty => copy_text("ε"),
        LabelType::And(a, b) => {
            let mut s = format_label_inner(a);
            s.append("&");
            s.append(format_label_inner(b).as_str());
            s
        },
        LabelType::Or(a, b) => {
            let mut s = format_label_inner(a);
            s.append("|");
            s.append(format_label_inner(b).as_str());
            s
        },
        LabelType::Neg(inner) => {
            let mut s = copy_text("!");
            s.append(format_label_inner(inner).as_str());
            s
        },
    }
}

/// A label constraint inside another.
fn format_label_inner(l: &LabelType) -> (r: String)
    ensures
        r@ == label_operand_text(l@),
    decreases l, 1nat,
{
    let compound = match l {
        LabelType::And(_, _) => true,
        LabelType::Or(_, _) => true,
        _ => false,
    };
    if compound {
        let mut s = copy_text("(");
        s.append(format_label(l).as_str());
        s.append(")");
        s
    } else {
        format_label(l)
    }
}

/// A property record.
fn format_property_record(p: &PropertyType) -> (r: String)
    ensures
        r@ == record_text(p@),
{
    match p {
        PropertyType::Open(m) => {
            assert(p@->Open_0 =~= super::simple_type::fields_view(*m));
            assert(p@->Open_0.dom() =~= m@.dom());
            if m.is_empty() {
                assert(m@.dom() =~= Set::<Seq<char>>::empty());
                return String::new();
            }
            proof {
                if m@.dom() == Set::<Seq<char>>::empty() {
                    assert(m@ =~= Map::<Seq<char>, SimpleType>::empty());
                }
            }
            let mut s = copy_text("{");
            s.append(format_field_map(m).as_str());
            s.append(", *}");
            s
        },
        PropertyType::Closed(m) => {
            assert(p@->Closed_0 =~= super::simple_type::fields_view(*m));
            assert(p@->Closed_0.dom() =~= m@.dom());
            if m.is_empty() {
                assert(m@.dom() =~= Set::<Seq<char>>::empty());
                return copy_text("{}");
            }
            proof {
                if m@.dom() == Set::<Seq<char>>::empty() {
                    assert(m@ =~= Map::<Seq<char>, SimpleType>::empty());
                }
            }
            let mut s = copy_text("{");
            s.append(format_field_map(m).as_str());
            s.append("}");
            s
        },
        PropertyType::Zero => copy_text("⊥"),
    }
}

/// Whether a text is empty.
fn is_blank(s: &String) -> (r: bool)
    ensures
        r == (s@.len() == 0),
{
    s.as_str().unicode_len() == 0
}

/// A node type.
pub fn format_node_descriptor(d: &DescriptorType) -> (r: String)
    ensures
        r@ == node_text(d@),
{
    let label = format_label(&d.label);
    let props = format_property_record(&d.props);
    let no_label = is_blank(&label);
    let no_props = is_blank(&props);
    if no_label && no_props {
        return copy_text("()");
    }
    if no_props {
        let mut s = copy_text("(:");
        s.append(label.as_str());
        s.append(")");
        return s;
    }
    if no_label {
        let mut s = copy_text("(");
        s.append(props.as_str());
        s.append(")");
        return s;
    }
    let mut s = copy_text("(:");
    s.append(label.as_str());
    s.append(" ");
    s.append(props.as_str());
    s.append(")");
    s
}

/// What stands in the brackets of an edge type.
fn format_edge_descriptor(d: &DescriptorType) -> (r: String)
    ensures
        r@ == edge_text(d@),
{
    let label = format_label(&d.label);
    let props = format_property_record(&d.props);
    if is_blank(&label) {
        return props;
    }
    let mut s = copy_text(":");
    s.append(label.as_str());
    if !is_blank(&props) {
        s.append(" ");
        s.append(props.as_str());
    }
    s
}

/// Short names for the node types of a schema, so that an edge can refer to
/// one. A name belongs to all types that are printed the same.
pub struct NodeTypeNames {
    by_rendering: FieldMap<String>,
}

/// The value of a map of texts.
pub open spec fn name_map(m: FieldMap<String>) -> Map<Seq<char>, Seq<char>> {
    Map::new(|k: Seq<char>| m@.contains_key(k), |k: Seq<char>| m@[k]@)
}

/// A name after `base`, counted from 0.
fn numbered_name(base: &str, n: usize) -> (r: String)
    ensures
        r@ == numbered(base@, n as nat + 1),
{
    let mut s = copy_text(base);
    if n > 0 {
        s.append("_");
        s.append(text_of_next(n).as_str());
    }
    s
}

/// The first name after `base` that is not taken.
fn pick_name(taken: &NameSet, base: &str) -> (r: String)
    ensures
        r@ == numbered(base@, crate::fields::first_free(taken@, names_after(base@)) + 1),
        !taken@.contains(r@),
{
    let count = taken.len();
    let ghost name = names_after(base@);
    proof {
        numbers_differ(base@);
        crate::fields::first_free_found(taken@, name);
    }
    let mut n: usize = 0;
    while n < count
        invariant
            n <= count,
            name == names_after(base@),
            count == taken@.len(),
            forall|m: nat| m < n ==> taken@.contains(#[trigger] name(m)),
        decreases count - n,
    {
        let s = numbered_name(base, n);
        assert(s@ == name(n as nat));
        if !taken.contains(s.as_str()) {
            proof {
                crate::fields::first_free_unique(taken@, name, n as nat);
            }
            return s;
        }
        n = n + 1;
    }
    proof {
        let k = crate::fields::first_free(taken@, name);
        if k < n {
            assert(taken@.contains(name(k)));
        }
    }
    numbered_name(base, n)
}

impl NodeTypeNames {
    /// The names, by how the types are printed.
    pub closed spec fn view(&self) -> Map<Seq<char>, Seq<char>> {
        name_map(self.by_rendering)
    }

    /// Names for every node type of the schema.
    pub fn of(schema: &Schema) -> (r: Self)
        ensures
            r@ == naming(schema@.nodes),
    {
        let nodes = schema.nodes();
        let ghost views = schema@.nodes;
        let mut by_rendering: FieldMap<String> = FieldMap::new();
        let mut taken = NameSet::new();
        let mut i: usize = 0;
        assert(name_map(by_rendering) =~= Map::empty());
        assert(name_map(by_rendering).values() =~= taken@);
        while i < nodes.len()
            invariant
                i <= nodes.len(),
                views == super::variable_type::type_views(nodes@),
                name_map(by_rendering) == naming(views.take(i as int)),
                taken@ == name_map(by_rendering).values(),
            decreases nodes.len() - i,
        {
            assert(views.take(i + 1).drop_last() =~= views.take(i as int));
            assert(views.take(i + 1).last() == nodes@[i as int]@);
            if let VariableType::Node(d) = &nodes[i] {
                let rendering = format_node_descriptor(d);
                assert(name_map(by_rendering).contains_key(rendering@)
                    == by_rendering@.contains_key(rendering@));
                if !by_rendering.contains_key(rendering.as_str()) {
                    let base = match name_from_labels(&d.label) {
                        Some(name) => name,
                        None => {
                            let mut s = copy_text("t");
                            s.append(text_of_usize(i + 1).as_str());
                            s
                        },
                    };
                    assert(base@ == base_name(d@.label, i as nat));
                    let ghost names0 = name_map(by_rendering);
                    let name = pick_name(&taken, base.as_str());
                    let ghost k = rendering@;
                    proof {
                        name_added(names0, k, name@);
                    }
                    taken.insert(name.clone());
                    by_rendering.insert(rendering, name);
                    assert(name_map(by_rendering) =~= names0.insert(k, name@));
                }
            }
            i = i + 1;
        }
        assert(views.take(i as int) =~= views);
        NodeTypeNames { by_rendering }
    }

    /// The name of a node type; none where the schema does not declare it.
    pub fn get(&self, d: &DescriptorType) -> (r: Option<&str>)
        ensures
            match r {
                Some(s) => self@.contains_key(node_text(d@)) && s@ == self@[node_text(d@)],
                None => !self@.contains_key(node_text(d@)),
            },
    {
        match self.by_rendering.get(format_node_descriptor(d).as_str()) {
            Some(s) => Some(s.as_str()),
            None => None,
        }
    }
}

/// One character of a name, given whether it is kept and its lower case.
pub fn name_character(keep: bool, lowered: String) -> (r: String)
    ensures
        r@ == name_piece(keep, lowered@),
{
    if keep {
        lowered
    } else {
        copy_text("_")
    }
}

/// A label as part of a name.
fn slug_of(s: &str) -> (r: String)
    ensures
        r@ == label_slug(s@),
{
    let mut out = String::new();
    let n = s.unicode_len();
    let mut i: usize = 0;
    while i < n
        invariant
            i <= n,
            n == s@.len(),
            out@ == label_slug(s@.take(i as int)),
        decreases n - i,
    {
        let c = s.get_char(i);
        assert(s@.take(i + 1).drop_last() =~= s@.take(i as int));
        let piece = name_character(is_alphanumeric(c), to_lowercase(c));
        out.append(piece.as_str());
        i = i + 1;
    }
    assert(s@.take(i as int) =~= s@);
    out
}

/// A name after the labels of a conjunction: `A&B` gives `a_b`. None where
/// the label is no plain conjunction.
pub fn name_from_labels(label: &LabelType) -> (r: Option<String>)
    ensures
        match r {
            Some(s) => label@.is_conjunction() && s@ == labels_slug(label@.required()),
            None => !label@.is_conjunction(),
        },
{
    if !label.is_conjunction() {
        return None;
    }
    let parts = label.required_labels();
    let ghost names = label@.required();
    let mut name = String::new();
    let mut i: usize = 0;
    while i < parts.len()
        invariant
            i <= parts.len(),
            parts@.len() == names.len(),
            forall|j: int| 0 <= j < parts@.len() ==> (#[trigger] parts@[j])@ == names[j],
            name@ == labels_slug(names.take(i as int)),
        decreases parts.len() - i,
    {
        assert(names.take(i + 1).drop_last() =~= names.take(i as int));
        assert(names.take(i + 1).last() == parts@[i as int]@);
        if !is_blank(&name) {
            name.append("_");
        }
        name.append(slug_of(parts[i]).as_str());
        i = i + 1;
    }
    assert(names.take(i as int) =~= names);
    Some(name)
}

/// The names that stand for an optional table of names.
pub open spec fn option_names(names: Option<&NodeTypeNames>) -> Map<Seq<char>, Seq<char>> {
    match names {
        Some(n) => n@,
        None => Map::empty(),
    }
}

/// An end of an edge type.
fn format_endpoint_with(t: &VariableType, names: Option<&NodeTypeNames>) -> (r: String)
    ensures
        r@ == endpoint_text(t@, option_names(names)),
    decreases t, 1nat,
{
    if let VariableType::Node(d) = t {
        if let Some(n) = names {
            if let Some(name) = n.get(d) {
                let mut s = copy_text("(");
                s.append(name);
                s.append(")");
                return s;
            }
        }
        return format_node_descriptor(d);
    }
    let mut s = copy_text("(");
    s.append(format_variable(t).as_str());
    s.append(")");
    s
}

/// A type in the notation of CREATE GRAPH TYPE.
pub fn format_variable(t: &VariableType) -> (r: String)
    ensures
        r@ == plain_text(t@),
    decreases t, 0nat,
{
    match t {
        VariableType::Node(d) => format_node_descriptor(d),
        VariableType::EdgeDirectional { desc, left, right } => {
            proof {
                plain_end(left@);
                plain_end(right@);
            }
            let mut s = format_endpoint_with(left, None);
            s.append("-[");
            s.append(format_edge_descriptor(desc).as_str());
            s.append("]->");
            s.append(format_endpoint_with(right, None).as_str());
            s
        },
        VariableType::EdgeNonDirectional { desc, left, right } => {
            proof {
                plain_end(left@);
                plain_end(right@);
            }
            let mut s = format_endpoint_with(left, None);
            s.append("~[");
            s.append(format_edge_descriptor(desc).as_str());
            s.append("]~");
            s.append(format_endpoint_with(right, None).as_str());
            s
        },
        VariableType::Union(a, b) => {
            let mut s = copy_text("(");
            s.append(format_variable(a).as_str());
            s.append(") | (");
            s.append(format_variable(b).as_str());
            s.append(")");
            s
        },
        VariableType::Group(inner) => {
            let mut s = copy_text("group<");
            s.append(format_variable(inner).as_str());
            s.append(">");
            s
        },
        VariableType::Null => copy_text("Null"),
        VariableType::Path => copy_text("PATH"),
        VariableType::Zero => copy_text("⊥"),
    }
}

/// A type, with the ends of an edge by the names they have.
pub fn format_variable_with(t: &VariableType, names: Option<&NodeTypeNames>) -> (r: String)
    ensures
        r@ == variable_text(t@, option_names(names)),
{
    match t {
        VariableType::EdgeDirectional { desc, left, right } => {
            let mut s = format_endpoint_with(left, names);
            s.append("-[");
            s.append(format_edge_descriptor(desc).as_str());
            s.append("]->");
            s.append(format_endpoint_with(right, names).as_str());
            s
        },
        VariableType::EdgeNonDirectional { desc, left, right } => {
            let mut s = format_endpoint_with(left, names);
            s.append("~[");
            s.append(format_edge_descriptor(desc).as_str());
            s.append("]~");
            s.append(format_endpoint_with(right, names).as_str());
            s
        },
        _ => format_variable(t),
    }
}

/// A schema, one entry per line. Node types are named where there are edges
/// to refer to them.
pub fn format_schema(schema: &Schema) -> (r: String)
    ensures
        r@ == schema_text(schema@),
{
    let nodes = schema.nodes();
    let edges = schema.edges();
    let names = if edges.len() == 0 {
        None
    } else {
        Some(NodeTypeNames::of(schema))
    };
    let ghost table = names_in_use(schema@);
    let ghost node_views = schema@.nodes;
    let ghost edge_views = schema@.edges;
    assert(node_views == super::variable_type::type_views(nodes@));
    assert(edge_views == super::variable_type::type_views(edges@));
    if nodes.len() == 0 && edges.len() == 0 {
        return copy_text("(empty schema)\n");
    }
    let mut lines = String::new();
    let mut i: usize = 0;
    while i < nodes.len()
        invariant
            i <= nodes.len(),
            node_views == super::variable_type::type_views(nodes@),
            names is Some ==> names->0@ == table,
            names is None ==> table == Map::<Seq<char>, Seq<char>>::empty(),
            lines@ == node_lines(node_views.take(i as int), table),
        decreases nodes.len() - i,
    {
        assert(node_views.take(i + 1).drop_last() =~= node_views.take(i as int));
        assert(node_views.take(i + 1).last() == nodes@[i as int]@);
        lines.append("    ");
        if let VariableType::Node(d) = &nodes[i] {
            if let Some(n) = &names {
                if let Some(name) = n.get(d) {
                    lines.append(name);
                    lines.append(" = ");
                }
            }
        }
        lines.append(format_variable(&nodes[i]).as_str());
        lines.append("\n");
        i = i + 1;
    }
    assert(node_views.take(i as int) =~= node_views);
    let mut out = String::new();
    if nodes.len() > 0 {
        out.append("Node types:\n");
        out.append(lines.as_str());
        assert(out@ =~= "Node types:\n"@ + node_lines(node_views, table));
    }
    if edges.len() == 0 {
        return out;
    }
    let mut tail = String::new();
    let mut k: usize = 0;
    while k < edges.len()
        invariant
            k <= edges.len(),
            edge_views == super::variable_type::type_views(edges@),
            names is Some,
            names->0@ == table,
            tail@ == edge_lines(edge_views.take(k as int), table),
        decreases edges.len() - k,
    {
        assert(edge_views.take(k + 1).drop_last() =~= edge_views.take(k as int));
        assert(edge_views.take(k + 1).last() == edges@[k as int]@);
        tail.append("    ");
        let line = match &names {
            Some(n) => format_variable_with(&edges[k], Some(n)),
            None => format_variable_with(&edges[k], None),
        };
        tail.append(line.as_str());
        tail.append("\n");
        k = k + 1;
    }
    assert(edge_views.take(k as int) =~= edge_views);
    if nodes.len() > 0 {
        out.append("\nEdge types:\n");
    } else {
        out.append("Edge types:\n");
        assert(out@ =~= "Edge types:\n"@);
    }
    out.append(tail.as_str());
    out
}

} // verus!
