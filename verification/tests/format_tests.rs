use frogql::fields::FieldMap;
use frogql::typing::descriptor_type::DescriptorType;
use frogql::typing::label_type::LabelType;
use frogql::typing::format::{format_node_descriptor, format_schema, format_variable};
use frogql::typing::property_type::PropertyType;
use frogql::typing::simple_type::SimpleType;
use frogql::typing::variable_type::{Schema, VariableType};

fn closed(fields: &[(&str, SimpleType)]) -> PropertyType {
    let mut m = FieldMap::new();
    for (k, v) in fields {
        m.insert((*k).to_string(), v.clone());
    }
    PropertyType::Closed(m)
}

#[test]
fn formats_simple_node() {
    let d = DescriptorType::new(
        LabelType::Label("Person".into()),
        closed(&[("name", SimpleType::S), ("age", SimpleType::Z)]),
    );
    let s = format_node_descriptor(&d);
    // Keys stand in order, so age < name.
    assert_eq!(s, "(:Person {age INT, name STRING})");
}

#[test]
fn formats_directed_edge() {
    let edge = VariableType::EdgeDirectional {
        desc: DescriptorType::new(
            LabelType::Label("KNOWS".into()),
            closed(&[("since", SimpleType::Z)]),
        ),
        left: Box::new(VariableType::Node(DescriptorType::new(
            LabelType::Label("Person".into()),
            PropertyType::open_empty(),
        ))),
        right: Box::new(VariableType::Node(DescriptorType::new(
            LabelType::Label("Person".into()),
            PropertyType::open_empty(),
        ))),
    };
    assert_eq!(
        format_variable(&edge),
        "(:Person)-[:KNOWS {since INT}]->(:Person)"
    );
}

#[test]
fn formats_undirected_edge() {
    let edge = VariableType::EdgeNonDirectional {
        desc: DescriptorType::new(
            LabelType::Label("FRIENDS".into()),
            PropertyType::open_empty(),
        ),
        left: Box::new(VariableType::Node(DescriptorType::new(
            LabelType::Label("Person".into()),
            PropertyType::open_empty(),
        ))),
        right: Box::new(VariableType::Node(DescriptorType::new(
            LabelType::Label("Person".into()),
            PropertyType::open_empty(),
        ))),
    };
    assert_eq!(format_variable(&edge), "(:Person)~[:FRIENDS]~(:Person)");
}

#[test]
fn formats_compound_label() {
    let d = DescriptorType::new(
        LabelType::And(
            Box::new(LabelType::Label("Person".into())),
            Box::new(LabelType::Label("Employee".into())),
        ),
        PropertyType::open_empty(),
    );
    assert_eq!(format_node_descriptor(&d), "(:Person&Employee)");
}

#[test]
fn formats_list_record_union_any() {
    let mut nested = FieldMap::new();
    nested.insert("city".to_string(), SimpleType::S);
    let d = DescriptorType::new(
        LabelType::Label("Doc".into()),
        closed(&[
            ("tags", SimpleType::List(Box::new(SimpleType::S))),
            (
                "id",
                SimpleType::Union(Box::new(SimpleType::S), Box::new(SimpleType::Z)),
            ),
            ("payload", SimpleType::Star),
            ("addr", SimpleType::Record(nested)),
        ]),
    );
    let s = format_node_descriptor(&d);
    assert!(s.contains("tags LIST<STRING>"));
    assert!(s.contains("id STRING | INT"));
    assert!(s.contains("payload ANY"));
    assert!(s.contains("addr {city STRING}"));
}

#[test]
fn formats_open_record_with_star_marker() {
    let d = DescriptorType::new(
        LabelType::Label("Loose".into()),
        PropertyType::Open({
            let mut m = FieldMap::new();
            m.insert("name".to_string(), SimpleType::S);
            m
        }),
    );
    let s = format_node_descriptor(&d);
    assert_eq!(s, "(:Loose {name STRING, *})");
}
