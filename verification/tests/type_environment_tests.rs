use frogql::typing::descriptor_type::DescriptorType;
use frogql::typing::label_type::LabelType;
use frogql::typing::property_type::PropertyType;
use frogql::typing::type_environment::TypeEnvironment;
use frogql::typing::variable_type::{Schema, VariableType};

fn nstar() -> VariableType {
    VariableType::node_star()
}

#[test]
fn test_union_shared_key_joins_pointwise() {
    let mut a = TypeEnvironment::new();
    let mut b = TypeEnvironment::new();
    a.set("x", nstar());
    b.set("x", nstar());
    let u = TypeEnvironment::union(&Schema::star(), &a, &b);
    // Equal types collapse under join.
    assert_eq!(u.get("x"), Some(&nstar()));
}

#[test]
fn test_union_key_only_in_left_joins_with_null() {
    let mut a = TypeEnvironment::new();
    let b = TypeEnvironment::new();
    a.set("x", nstar());
    let u = TypeEnvironment::union(&Schema::star(), &a, &b);
    assert_eq!(
        u.get("x"),
        Some(&VariableType::Union(
            Box::new(nstar()),
            Box::new(VariableType::Null),
        )),
    );
}

#[test]
fn test_union_key_only_in_right_joins_with_null() {
    let a = TypeEnvironment::new();
    let mut b = TypeEnvironment::new();
    b.set("y", nstar());
    let u = TypeEnvironment::union(&Schema::star(), &a, &b);
    assert_eq!(
        u.get("y"),
        Some(&VariableType::Union(
            Box::new(VariableType::Null),
            Box::new(nstar()),
        )),
    );
}

/// `Γ₁ ⋈ {} = Γ₁`: optional with no new bindings is identity. The
/// success branch (meet) and unsuccess branch are both Γ₁, so their
/// join collapses back to Γ₁.
#[test]
fn test_outer_join_empty_right_is_identity() {
    let mut a = TypeEnvironment::new();
    a.set("x", nstar());
    let r = TypeEnvironment::outer_join(&Schema::star(), &a, &TypeEnvironment::new());
    assert_eq!(r.get("x"), Some(&nstar()));
    assert_eq!(r.keys().len(), 1);
}

/// New variable in the optional side gets `T_k ⊔ Null` per TLEFTJOIN:
/// the optional's real type when it matches, `Null` when it does not.
#[test]
fn test_outer_join_new_var_gains_null() {
    let mut a = TypeEnvironment::new();
    a.set("x", nstar());
    let mut b = TypeEnvironment::new();
    b.set("y", nstar());
    let r = TypeEnvironment::outer_join(&Schema::star(), &a, &b);
    assert_eq!(r.get("x"), Some(&nstar()));
    assert_eq!(
        r.get("y"),
        Some(&VariableType::Union(
            Box::new(nstar()),
            Box::new(VariableType::Null),
        )),
    );
}

/// Variable shared between left and optional: unsuccess keeps the left
/// type unchanged; success refines (meet under schema). Star schema
/// makes meet a no-op, so the result collapses to Γ₁'s type.
#[test]
fn test_outer_join_shared_var_unchanged_under_star_schema() {
    let mut a = TypeEnvironment::new();
    a.set("x", nstar());
    let mut b = TypeEnvironment::new();
    b.set("x", nstar());
    let r = TypeEnvironment::outer_join(&Schema::star(), &a, &b);
    assert_eq!(r.get("x"), Some(&nstar()));
}

/// When the meet on a shared variable collapses to Zero (irreconcilable
/// types), TLEFTJOIN's `T_{i1} ⊔ T'_i` reduces to `T_{i1} ⊔ Zero`. Zero
/// is the bottom of the join lattice, so the binding stays at the
/// left-side type. Right-only variables still get `T_k ⊔ Null`.
#[test]
fn test_outer_join_irreconcilable_meet_falls_back_to_unsuccess() {

    let person = VariableType::Node(DescriptorType::new(
        LabelType::Label("Person".into()),
        PropertyType::open_empty(),
    ));
    let edge = VariableType::edge_directional(DescriptorType::new(
        LabelType::Label("Transfer".into()),
        PropertyType::open_empty(),
    ));

    let mut a = TypeEnvironment::new();
    a.set("x", person.clone());
    let mut b = TypeEnvironment::new();
    b.set("x", edge);
    b.set("y", nstar());

    let r = TypeEnvironment::outer_join(&Schema::star(), &a, &b);
    assert_eq!(r.get("x"), Some(&person));
    assert_eq!(
        r.get("y"),
        Some(&VariableType::Union(
            Box::new(nstar()),
            Box::new(VariableType::Null),
        )),
    );
}
