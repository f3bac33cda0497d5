//! What is said of patterns and types that do not fit the schema.

use vstd::prelude::*;

use super::descriptor_type::{DescriptorType, DescriptorTypeView};
use super::label_type::{LabelType, LabelTypeView};
use super::path_type::EdgeDir;
use super::property_type::PropertyType;
use super::simple_type::{SimpleType, SimpleTypeView};
use super::variable_type::{Schema, SchemaView, VariableType, VariableTypeView};
use crate::model::value::{Value, ValueView};
use crate::text::{copy_text, join_texts};

verus! {

/// The type of a literal. A null, a list's elements and a record's fields are
/// not tracked.
pub open spec fn value_type(v: ValueView) -> SimpleTypeView {
    match v {
        ValueView::Null => SimpleTypeView::Star,
        ValueView::Int(_) => SimpleTypeView::Z,
        ValueView::Float(_) => SimpleTypeView::F,
        ValueView::Str(_) => SimpleTypeView::S,
        ValueView::Bool(_) => SimpleTypeView::B,
        ValueView::List(_) => SimpleTypeView::List(Box::new(SimpleTypeView::Star)),
        ValueView::Record(_) => SimpleTypeView::Star,
        ValueView::Node(_) => SimpleTypeView::Node,
        ValueView::Edge(_) => SimpleTypeView::Edge,
        ValueView::Path(_) => SimpleTypeView::Path,
    }
}

/// The type of a literal.
pub fn simple_type_of_value(v: &Value) -> (r: SimpleType)
    ensures
        r@ == value_type(v@),
{
    match v {
        Value::Null => SimpleType::Star,
        Value::Int(_) => SimpleType::Z,
        Value::Float(_) => SimpleType::F,
        Value::Str(_) => SimpleType::S,
        Value::Bool(_) => SimpleType::B,
        Value::List(_) => {
            let any = SimpleType::Star;
            assert(any@ == SimpleTypeView::Star);
            SimpleType::List(Box::new(any))
        },
        Value::Record(_) => SimpleType::Star,
        Value::Node(_) => SimpleType::Node,
        Value::Edge(_) => SimpleType::Edge,
        Value::Path(_) => SimpleType::Path,
    }
}

/// The type that a variable has as a value. Edges of either kind are edges,
/// and a group is not known as a value.
pub open spec fn reference_type(t: VariableTypeView) -> SimpleTypeView
    decreases t,
{
    match t {
        VariableTypeView::Node(_) => SimpleTypeView::Node,
        VariableTypeView::EdgeDirectional { .. } => SimpleTypeView::Edge,
        VariableTypeView::EdgeNonDirectional { .. } => SimpleTypeView::Edge,
        VariableTypeView::Union(a, b) => reference_type(*a).union(reference_type(*b)),
        VariableTypeView::Null => SimpleTypeView::Star,
        VariableTypeView::Path => SimpleTypeView::Path,
        VariableTypeView::Zero => SimpleTypeView::Zero,
        VariableTypeView::Group(_) => SimpleTypeView::Star,
    }
}

/// The type that a variable has as a value.
pub fn variable_type_to_simple_type(t: &VariableType) -> (r: SimpleType)
    ensures
        r@ == reference_type(t@),
    decreases t,
{
    match t {
        VariableType::Node(_) => SimpleType::Node,
        VariableType::EdgeDirectional { .. } => SimpleType::Edge,
        VariableType::EdgeNonDirectional { .. } => SimpleType::Edge,
        VariableType::Union(a, b) => {
            let x = variable_type_to_simple_type(a);
            let y = variable_type_to_simple_type(b);
            SimpleType::union(&x, &y)
        },
        VariableType::Null => SimpleType::Star,
        VariableType::Path => SimpleType::Path,
        VariableType::Zero => SimpleType::Zero,
        VariableType::Group(_) => SimpleType::Star,
    }
}

/// Rows can be sorted by values of the type: scalars, unions of scalars and
/// the unknown type.
pub open spec fn orderable(t: SimpleTypeView) -> bool
    decreases t,
{
    match t {
        SimpleTypeView::Z => true,
        SimpleTypeView::F => true,
        SimpleTypeView::B => true,
        SimpleTypeView::S => true,
        SimpleTypeView::Star => true,
        SimpleTypeView::Union(a, b) => orderable(*a) && orderable(*b),
        _ => false,
    }
}

/// Whether rows can be sorted by values of the type.
pub fn is_orderable_per_iso_22_14(t: &SimpleType) -> (r: bool)
    ensures
        r == orderable(t@),
    decreases t,
{
    match t {
        SimpleType::Z => true,
        SimpleType::F => true,
        SimpleType::B => true,
        SimpleType::S => true,
        SimpleType::Star => true,
        SimpleType::Zero => false,
        SimpleType::Union(a, b) => is_orderable_per_iso_22_14(a) && is_orderable_per_iso_22_14(b),
        SimpleType::List(_) => false,
        SimpleType::Record(_) => false,
        SimpleType::Group(_) => false,
        SimpleType::Node => false,
        SimpleType::Edge => false,
        SimpleType::Path => false,
    }
}

/// A variable type in the notation of queries.
pub open spec fn short_text(t: VariableTypeView) -> Seq<char>
    decreases t,
{
    match t {
        VariableTypeView::Node(d) => "(:"@ + d.label.text() + ")"@,
        VariableTypeView::EdgeDirectional { desc, .. } => "-[:"@ + desc.label.text() + "]->"@,
        VariableTypeView::EdgeNonDirectional { desc, .. } => "~[:"@ + desc.label.text() + "]~"@,
        VariableTypeView::Union(a, b) => short_text(*a) + " or "@ + short_text(*b),
        VariableTypeView::Group(inner) => "group<"@ + short_text(*inner) + ">"@,
        VariableTypeView::Null => "Null"@,
        VariableTypeView::Path => "path"@,
        VariableTypeView::Zero => "⊥"@,
    }
}

/// A variable type in the notation of queries.
pub fn short_var_type(t: &VariableType) -> (r: String)
    ensures
        r@ == short_text(t@),
    decreases t,
{
    match t {
        VariableType::Node(d) => {
            let mut s = copy_text("(:");
            s.append(d.label.to_string().as_str());
            s.append(")");
            s
        },
        VariableType::EdgeDirectional { desc, .. } => {
            let mut s = copy_text("-[:");
            s.append(desc.label.to_string().as_str());
            s.append("]->");
            s
        },
        VariableType::EdgeNonDirectional { desc, .. } => {
            let mut s = copy_text("~[:");
            s.append(desc.label.to_string().as_str());
            s.append("]~");
            s
        },
        VariableType::Union(a, b) => {
            let mut s = short_var_type(a);
            s.append(" or ");
            s.append(short_var_type(b).as_str());
            s
        },
        VariableType::Group(inner) => {
            let mut s = copy_text("group<");
            s.append(short_var_type(inner).as_str());
            s.append(">");
            s
        },
        VariableType::Null => copy_text("Null"),
        VariableType::Path => copy_text("path"),
        VariableType::Zero => copy_text("⊥"),
    }
}

/// The descriptor of a node type.
pub open spec fn node_desc(t: VariableTypeView) -> Option<DescriptorTypeView> {
    match t {
        VariableTypeView::Node(d) => Some(d),
        _ => None,
    }
}

/// The descriptor of an edge type that a direction can cross.
pub open spec fn edge_desc(t: VariableTypeView, dir: EdgeDir) -> Option<DescriptorTypeView> {
    match t {
        VariableTypeView::EdgeDirectional { desc, .. } => if dir == EdgeDir::Undirected {
            None
        } else {
            Some(desc)
        },
        VariableTypeView::EdgeNonDirectional { desc, .. } => if dir == EdgeDir::Undirected || dir
            == EdgeDir::Any {
            Some(desc)
        } else {
            None
        },
        _ => None,
    }
}

/// The entry's descriptor: of a node where no direction is given, else of an
/// edge that the direction can cross.
pub open spec fn entry_desc(t: VariableTypeView, dir: Option<EdgeDir>) -> Option<
    DescriptorTypeView,
> {
    match dir {
        None => node_desc(t),
        Some(d) => edge_desc(t, d),
    }
}

/// The descriptors of the entries, in order.
pub open spec fn entry_descs(entries: Seq<VariableTypeView>, dir: Option<EdgeDir>) -> Seq<
    DescriptorTypeView,
>
    decreases entries.len(),
{
    if entries.len() == 0 {
        Seq::empty()
    } else {
        let rest = entry_descs(entries.drop_last(), dir);
        match entry_desc(entries.last(), dir) {
            Some(d) => rest.push(d),
            None => rest,
        }
    }
}

/// The descriptors whose label entails `label`, in order.
pub open spec fn with_label(ds: Seq<DescriptorTypeView>, label: LabelTypeView) -> Seq<
    DescriptorTypeView,
>
    decreases ds.len(),
{
    if ds.len() == 0 {
        Seq::empty()
    } else {
        let rest = with_label(ds.drop_last(), label);
        if ds.last().label.subtype(label) {
            rest.push(ds.last())
        } else {
            rest
        }
    }
}

/// Some descriptor's properties are a subtype of those of `query`.
pub open spec fn some_props_fit(
    ds: Seq<DescriptorTypeView>,
    query: DescriptorTypeView,
) -> bool {
    exists|i: int| 0 <= i < ds.len() && (#[trigger] ds[i]).props.subtype(query.props)
}

/// The properties of each descriptor.
pub open spec fn alternatives_text(ds: Seq<DescriptorTypeView>) -> Seq<char> {
    crate::text::joined(Seq::new(ds.len(), |i: int| ds[i].props.text()), " or "@)
}

/// Why no node of the schema fits: no label does, or the properties differ.
pub open spec fn node_mismatch_text(schema: SchemaView, query: DescriptorTypeView) -> Seq<char> {
    let fit = with_label(entry_descs(schema.nodes, None), query.label);
    if fit.len() == 0 {
        "node pattern (:"@ + query.label.text()
            + ") does not match any node type in the active schema (label not in schema)"@
    } else {
        "node pattern (:"@ + query.label.text() + " "@ + query.props.text()
            + ") does not match the schema — properties differ (schema expects "@
            + alternatives_text(fit) + ")"@
    }
}

/// What stands before and after the label of an edge pattern.
pub open spec fn arrows(dir: EdgeDir) -> (Seq<char>, Seq<char>) {
    match dir {
        EdgeDir::Right => ("-[:"@, "]->"@),
        EdgeDir::Left => ("<-[:"@, "]-"@),
        EdgeDir::Undirected => ("~[:"@, "]~"@),
        EdgeDir::Any => ("-[:"@, "]-"@),
    }
}

/// Why no edge of the schema fits: the direction, the label, the properties
/// or the end nodes.
pub open spec fn edge_mismatch_text(
    schema: SchemaView,
    query: DescriptorTypeView,
    dir: EdgeDir,
) -> Seq<char> {
    let (open, close) = arrows(dir);
    let same_dir = entry_descs(schema.edges, Some(dir));
    let fit = with_label(same_dir, query.label);
    if same_dir.len() == 0 {
        "edge pattern "@ + open + query.label.text() + close
            + " does not match any edge type (no schema edges with this directionality)"@
    } else if fit.len() == 0 {
        "edge pattern "@ + open + query.label.text() + close
            + " does not match any edge type (label not in schema)"@
    } else if !some_props_fit(fit, query) {
        "edge pattern "@ + open + query.label.text() + " "@ + query.props.text() + close
            + " does not match the schema — properties differ (schema expects "@
            + alternatives_text(fit) + ")"@
    } else {
        "edge pattern "@ + open + query.label.text() + close
            + " does not match the schema — endpoint types do not match"@
    }
}

/// The value of each descriptor.
pub open spec fn ref_views(v: Seq<&DescriptorType>) -> Seq<DescriptorTypeView> {
    Seq::new(v.len(), |i: int| v[i]@)
}

/// The descriptor of an entry.
fn entry_descriptor_ref(t: &VariableType, dir: Option<EdgeDir>) -> (r: Option<&DescriptorType>)
    ensures
        match r {
            Some(d) => entry_desc(t@, dir) == Some(d@),
            None => entry_desc(t@, dir) is None,
        },
{
    match dir {
        None => match t {
            VariableType::Node(d) => Some(d),
            _ => None,
        },
        Some(dir) => match t {
            VariableType::EdgeDirectional { desc, .. } => if dir == EdgeDir::Undirected {
                None
            } else {
                Some(desc)
            },
            VariableType::EdgeNonDirectional { desc, .. } => if dir == EdgeDir::Undirected || dir
                == EdgeDir::Any {
                Some(desc)
            } else {
                None
            },
            _ => None,
        },
    }
}

/// The descriptors of the entries, in order.
fn entry_descriptors(entries: &Vec<VariableType>, dir: Option<EdgeDir>) -> (r: Vec<
    &DescriptorType,
>)
    ensures
        ref_views(r@) == entry_descs(super::variable_type::type_views(entries@), dir),
{
    let ghost views = super::variable_type::type_views(entries@);
    let mut out: Vec<&DescriptorType> = Vec::new();
    let mut i: usize = 0;
    assert(ref_views(out@) =~= entry_descs(views.take(0), dir));
    while i < entries.len()
        invariant
            i <= entries.len(),
            views == super::variable_type::type_views(entries@),
            ref_views(out@) == entry_descs(views.take(i as int), dir),
        decreases entries.len() - i,
    {
        assert(views.take(i + 1).drop_last() =~= views.take(i as int));
        let ghost before = out@;
        if let Some(d) = entry_descriptor_ref(&entries[i], dir) {
            out.push(d);
            assert(ref_views(out@) =~= ref_views(before).push(d@));
        }
        i = i + 1;
    }
    assert(views.take(i as int) =~= views);
    out
}

/// The descriptors whose label entails that of `query`, in order.
fn label_compatible<'a>(ds: &Vec<&'a DescriptorType>, label: &LabelType) -> (r: Vec<
    &'a DescriptorType,
>)
    ensures
        ref_views(r@) == with_label(ref_views(ds@), label@),
{
    let ghost views = ref_views(ds@);
    let mut out: Vec<&DescriptorType> = Vec::new();
    let mut i: usize = 0;
    assert(ref_views(out@) =~= with_label(views.take(0), label@));
    while i < ds.len()
        invariant
            i <= ds.len(),
            views == ref_views(ds@),
            ref_views(out@) == with_label(views.take(i as int), label@),
        decreases ds.len() - i,
    {
        assert(views.take(i + 1).drop_last() =~= views.take(i as int));
        let ghost before = out@;
        let d: &DescriptorType = ds[i];
        if LabelType::is_subtype(&d.label, label) {
            out.push(d);
            assert(ref_views(out@) =~= ref_views(before).push(d@));
        }
        i = i + 1;
    }
    assert(views.take(i as int) =~= views);
    out
}

/// The properties of each descriptor.
fn describe_property_alternatives(ds: &Vec<&DescriptorType>) -> (r: String)
    ensures
        r@ == alternatives_text(ref_views(ds@)),
{
    let mut parts: Vec<String> = Vec::new();
    let mut i: usize = 0;
    while i < ds.len()
        invariant
            i <= ds.len(),
            parts@.len() == i,
            forall|j: int| 0 <= j < i ==> (#[trigger] parts@[j])@ == ds@[j]@.props.text(),
        decreases ds.len() - i,
    {
        let d: &DescriptorType = ds[i];
        parts.push(d.props.to_string());
        i = i + 1;
    }
    proof {
        let views = ref_views(ds@);
        assert(crate::text::texts(parts@) =~= Seq::new(
            views.len(),
            |i: int| views[i].props.text(),
        ));
    }
    join_texts(&parts, " or ")
}

/// Why no node of the schema fits.
pub fn diagnose_node_mismatch(schema: &Schema, query: &DescriptorType) -> (r: String)
    ensures
        r@ == node_mismatch_text(schema@, query@),
{
    let nodes = entry_descriptors(schema.nodes(), None);
    let fit = label_compatible(&nodes, &query.label);
    let mut s = copy_text("node pattern (:");
    s.append(query.label.to_string().as_str());
    if fit.len() == 0 {
        s.append(") does not match any node type in the active schema (label not in schema)");
        return s;
    }
    s.append(" ");
    s.append(query.props.to_string().as_str());
    s.append(") does not match the schema — properties differ (schema expects ");
    s.append(describe_property_alternatives(&fit).as_str());
    s.append(")");
    s
}

/// Whether some descriptor's properties are a subtype of those of `query`.
fn any_props_fit(ds: &Vec<&DescriptorType>, query: &DescriptorType) -> (r: bool)
    ensures
        r == some_props_fit(ref_views(ds@), query@),
{
    let mut i: usize = 0;
    while i < ds.len()
        invariant
            i <= ds.len(),
            forall|j: int|
                0 <= j < i ==> !(#[trigger] ref_views(ds@)[j]).props.subtype(query@.props),
        decreases ds.len() - i,
    {
        let d: &DescriptorType = ds[i];
        assert(ref_views(ds@)[i as int] == d@);
        if PropertyType::is_subtype(&d.props, &query.props) {
            return true;
        }
        i = i + 1;
    }
    false
}

/// Why no edge of the schema fits.
pub fn diagnose_edge_mismatch(schema: &Schema, query: &DescriptorType, dir: EdgeDir) -> (r: String)
    ensures
        r@ == edge_mismatch_text(schema@, query@, dir),
{
    let (arrow_open, arrow_close) = match dir {
        EdgeDir::Right => ("-[:", "]->"),
        EdgeDir::Left => ("<-[:", "]-"),
        EdgeDir::Undirected => ("~[:", "]~"),
        EdgeDir::Any => ("-[:", "]-"),
    };
    let same_dir = entry_descriptors(schema.edges(), Some(dir));
    let mut s = copy_text("edge pattern ");
    s.append(arrow_open);
    s.append(query.label.to_string().as_str());
    if same_dir.len() == 0 {
        s.append(arrow_close);
        s.append(" does not match any edge type (no schema edges with this directionality)");
        return s;
    }
    let fit = label_compatible(&same_dir, &query.label);
    if fit.len() == 0 {
        s.append(arrow_close);
        s.append(" does not match any edge type (label not in schema)");
        return s;
    }
    if !any_props_fit(&fit, query) {
        s.append(" ");
        s.append(query.props.to_string().as_str());
        s.append(arrow_close);
        s.append(" does not match the schema — properties differ (schema expects ");
        s.append(describe_property_alternatives(&fit).as_str());
        s.append(")");
        return s;
    }
    s.append(arrow_close);
    s.append(" does not match the schema — endpoint types do not match");
    s
}

} // verus!
