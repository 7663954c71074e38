use record_layout::closure::{dependency_order, dependency_places, target_places};
use record_layout::decl::{Decl, DeclKind, TypeRef};
use record_layout::registry::Registry;
use record_layout::report::build_registry;

fn plain(name: &str) -> TypeRef {
    TypeRef { canonical: name.to_string(), size: Some(8), pointee: None }
}

fn pointer_to(target: TypeRef) -> TypeRef {
    TypeRef {
        canonical: format!("{} *", target.canonical),
        size: Some(8),
        pointee: Some(Box::new(target)),
    }
}

fn field(name: &str, ty: TypeRef) -> Decl {
    Decl {
        kind: DeclKind::Field,
        is_definition: true,
        name: Some(name.to_string()),
        ty: Some(ty),
        member_offset: Some(0),
        enum_value: None,
        bit_field_width: None,
        children: vec![],
    }
}

fn record(name: &str, depends_on: &[&str]) -> Decl {
    Decl {
        kind: DeclKind::Struct,
        is_definition: true,
        name: Some(name.to_string()),
        ty: Some(plain(name)),
        member_offset: None,
        enum_value: None,
        bit_field_width: None,
        children: depends_on.iter().map(|d| field("f", pointer_to(plain(d)))).collect(),
    }
}

fn registry_of(records: Vec<Decl>, asked: &[&str]) -> Registry {
    let unit = Decl {
        kind: DeclKind::Other,
        is_definition: false,
        name: None,
        ty: None,
        member_offset: None,
        enum_value: None,
        bit_field_width: None,
        children: records,
    };
    build_registry(&unit, &asked.iter().map(|s| s.to_string()).collect())
}

fn order_of(records: Vec<Decl>, asked: &[&str]) -> Vec<String> {
    let registry = registry_of(records, asked);
    let order = dependency_order(&registry);
    let places = dependency_places(&registry);
    assert_eq!(order.len(), places.len());
    for (id, place) in order.iter().zip(places.iter()) {
        assert_eq!(id, &registry.record(*place).type_id);
    }
    order.iter().map(|id| id.to_string()).collect()
}

#[test]
fn without_targets_the_order_is_empty() {
    let registry = registry_of(vec![record("A", &[])], &[]);
    assert_eq!(target_places(&registry), Vec::<usize>::new());
    assert_eq!(dependency_places(&registry), Vec::<usize>::new());
    assert!(dependency_order(&registry).is_empty());
}

#[test]
fn targets_are_placed_in_ascending_order_of_their_names() {
    let registry =
        registry_of(vec![record("M", &[]), record("Z", &[]), record("A", &[])], &["Z", "A", "M"]);
    assert_eq!(target_places(&registry), vec![2, 0, 1]);
    assert_eq!(dependency_places(&registry), vec![1, 0, 2]);
}

#[test]
fn a_chain_is_listed_from_its_end() {
    let records = vec![record("A", &["B"]), record("B", &["C"]), record("C", &["D"]), record("D", &[])];
    assert_eq!(order_of(records, &["A"]), vec!["D", "C", "B", "A"]);
}

#[test]
fn what_no_target_leads_to_is_left_out() {
    let records = vec![record("A", &["B"]), record("B", &[]), record("C", &["A"])];
    assert_eq!(order_of(records, &["A"]), vec!["B", "A"]);
}

#[test]
fn a_record_that_depends_on_itself_is_listed_once() {
    assert_eq!(order_of(vec![record("Node", &["Node"])], &["Node"]), vec!["Node"]);
    assert_eq!(order_of(vec![record("Node", &["Node", "Node"])], &["Node"]), vec!["Node"]);
}

#[test]
fn a_ring_is_listed_once_round() {
    let records = vec![record("A", &["B"]), record("B", &["C"]), record("C", &["A"])];
    assert_eq!(order_of(records, &["A"]), vec!["C", "B", "A"]);
    let records = vec![record("A", &["B"]), record("B", &["C"]), record("C", &["A"])];
    assert_eq!(order_of(records, &["B"]), vec!["A", "C", "B"]);
}

#[test]
fn the_last_field_is_followed_first() {
    let records = vec![record("A", &["B", "C"]), record("B", &[]), record("C", &[])];
    assert_eq!(order_of(records, &["A"]), vec!["C", "B", "A"]);
}

#[test]
fn a_record_that_two_depend_on_is_listed_once() {
    let records =
        vec![record("A", &["B", "C"]), record("B", &["D"]), record("C", &["D"]), record("D", &[])];
    assert_eq!(order_of(records, &["A"]), vec!["D", "C", "B", "A"]);
}

#[test]
fn a_target_that_another_target_depends_on() {
    // Z is taken up first and lists A, which is a target too, behind itself.
    let records = vec![record("A", &[]), record("Z", &["A"])];
    assert_eq!(order_of(records, &["A", "Z"]), vec!["Z", "A"]);
    let records = vec![record("A", &["Z"]), record("Z", &[])];
    assert_eq!(order_of(records, &["A", "Z"]), vec!["Z", "A"]);
}

#[test]
fn types_that_are_not_records_lead_nowhere() {
    let records = vec![record("A", &["int", "Missing", "B"]), record("B", &["char"])];
    assert_eq!(order_of(records, &["A"]), vec!["B", "A"]);
}
