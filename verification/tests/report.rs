use record_layout::decl::{Decl, DeclKind, TypeRef};
use record_layout::registry::Registry;
use record_layout::render::render_registry;
use record_layout::report::{build_registry, check_filters, extract, report, ExtractError};

fn plain(name: &str, size: usize) -> TypeRef {
    TypeRef { canonical: name.to_string(), size: Some(size), pointee: None }
}

fn pointer_to(target: TypeRef) -> TypeRef {
    TypeRef {
        canonical: format!("{} *", target.canonical),
        size: Some(8),
        pointee: Some(Box::new(target)),
    }
}

fn field(name: &str, ty: TypeRef, offset: usize) -> Decl {
    Decl {
        kind: DeclKind::Field,
        is_definition: true,
        name: Some(name.to_string()),
        ty: Some(ty),
        member_offset: Some(offset),
        enum_value: None,
        bit_field_width: None,
        children: vec![],
    }
}

fn record(kind: DeclKind, name: &str, size: usize, children: Vec<Decl>) -> Decl {
    Decl {
        kind,
        is_definition: true,
        name: Some(name.to_string()),
        ty: Some(plain(name, size)),
        member_offset: None,
        enum_value: None,
        bit_field_width: None,
        children,
    }
}

fn unit(children: Vec<Decl>) -> Decl {
    Decl {
        kind: DeclKind::Other,
        is_definition: false,
        name: None,
        ty: None,
        member_offset: None,
        enum_value: None,
        bit_field_width: None,
        children,
    }
}

fn names(list: &[&str]) -> Vec<String> {
    list.iter().map(|s| s.to_string()).collect()
}

fn point_and_line() -> Decl {
    unit(vec![
        record(
            DeclKind::Struct,
            "Point",
            8,
            vec![field("x", plain("int", 4), 0), field("y", plain("int", 4), 32)],
        ),
        record(
            DeclKind::Struct,
            "Line",
            16,
            vec![field("a", plain("Point", 8), 0), field("b", plain("Point", 8), 64)],
        ),
    ])
}

#[test]
fn line_brings_point_first() {
    let lines = extract(&point_and_line(), &names(&["Line"])).unwrap();
    assert_eq!(
        lines,
        vec![
            "Point[8] struct { x: int @ 0, y: int @ 32 }".to_string(),
            "Line[16] struct { a: Point @ 0, b: Point @ 64 }".to_string(),
        ]
    );
}

#[test]
fn point_alone_brings_nothing_else() {
    let lines = extract(&point_and_line(), &names(&["Point"])).unwrap();
    assert_eq!(lines, vec!["Point[8] struct { x: int @ 0, y: int @ 32 }".to_string()]);
}

#[test]
fn node_that_points_to_itself_is_listed_once() {
    let node = plain("Node", 8);
    let tree = unit(vec![record(
        DeclKind::Struct,
        "Node",
        8,
        vec![field("next", pointer_to(node), 0)],
    )]);
    let registry = build_registry(&tree, &names(&["Node"]));
    assert_eq!(registry.len(), 1);
    let stored = registry.record(0);
    assert_eq!(stored.fields.len(), 1);
    assert_eq!(stored.fields[0].underlying, stored.type_id);
    assert_eq!(stored.fields[0].type_id.as_str(), "Node *");
    let lines = report(&registry).unwrap();
    assert_eq!(lines, vec!["Node[8] struct { next: Node * @ 0 }".to_string()]);
}

#[test]
fn two_records_that_point_to_each_other_are_both_listed_once() {
    let tree = unit(vec![
        record(DeclKind::Struct, "A", 8, vec![field("b", pointer_to(plain("B", 8)), 0)]),
        record(DeclKind::Struct, "B", 8, vec![field("a", pointer_to(plain("A", 8)), 0)]),
    ]);
    let lines = extract(&tree, &names(&["A"])).unwrap();
    assert_eq!(
        lines,
        vec![
            "B[8] struct { a: A * @ 0 }".to_string(),
            "A[8] struct { b: B * @ 0 }".to_string(),
        ]
    );
}

#[test]
fn no_filters_is_an_error() {
    assert_eq!(extract(&point_and_line(), &vec![]), Err(ExtractError::NoFilters));
    assert_eq!(check_filters(&vec![]), Err(ExtractError::NoFilters));
    assert_eq!(check_filters(&names(&["Line"])), Ok(()));
}

#[test]
fn filters_that_match_nothing_are_an_error() {
    assert_eq!(extract(&point_and_line(), &names(&["Circle"])), Err(ExtractError::NoTargets));
    let registry = build_registry(&point_and_line(), &names(&["Circle"]));
    assert_eq!(registry.len(), 2);
    assert!(registry.targets().is_empty());
    assert_eq!(report(&registry), Err(ExtractError::NoTargets));
}

#[test]
fn an_empty_unit_has_no_targets() {
    assert_eq!(extract(&unit(vec![]), &names(&["Line"])), Err(ExtractError::NoTargets));
    assert_eq!(report(&Registry::new()), Err(ExtractError::NoTargets));
}

#[test]
fn errors_have_words() {
    assert_eq!(ExtractError::NoFilters.message(), "Need a name filter");
    assert_eq!(ExtractError::NoTargets.message(), "No record matches the name filters");
    assert_eq!(ExtractError::NothingFound.message(), "Failed to find any names");
}

#[test]
fn targets_are_walked_from_the_last_name_down() {
    let tree = unit(vec![
        record(DeclKind::Struct, "A", 4, vec![]),
        record(DeclKind::Struct, "B", 4, vec![]),
        record(DeclKind::Struct, "C", 4, vec![]),
    ]);
    let lines = extract(&tree, &names(&["B", "A", "C"])).unwrap();
    assert_eq!(
        lines,
        vec![
            "C[4] struct {  }".to_string(),
            "B[4] struct {  }".to_string(),
            "A[4] struct {  }".to_string(),
        ]
    );
}

#[test]
fn a_dependency_that_waits_on_the_stack_comes_late() {
    // A discovers C and then B; B is taken up first and finds C waiting.
    let tree = unit(vec![
        record(
            DeclKind::Struct,
            "A",
            12,
            vec![field("c", plain("C", 4), 0), field("b", plain("B", 4), 32)],
        ),
        record(DeclKind::Struct, "B", 4, vec![field("c", plain("C", 4), 0)]),
        record(DeclKind::Struct, "C", 4, vec![]),
    ]);
    let lines = extract(&tree, &names(&["A"])).unwrap();
    assert_eq!(
        lines,
        vec![
            "B[4] struct { c: C @ 0 }".to_string(),
            "C[4] struct {  }".to_string(),
            "A[12] struct { c: C @ 0, b: B @ 32 }".to_string(),
        ]
    );
}

#[test]
fn a_diamond_is_listed_bottom_up() {
    let tree = unit(vec![
        record(
            DeclKind::Struct,
            "A",
            8,
            vec![field("b", plain("B", 4), 0), field("c", plain("C", 4), 32)],
        ),
        record(DeclKind::Struct, "B", 4, vec![field("d", plain("D", 4), 0)]),
        record(DeclKind::Struct, "C", 4, vec![field("d", plain("D", 4), 0)]),
        record(DeclKind::Struct, "D", 4, vec![]),
    ]);
    let lines = extract(&tree, &names(&["A"])).unwrap();
    assert_eq!(
        lines,
        vec![
            "D[4] struct {  }".to_string(),
            "C[4] struct { d: D @ 0 }".to_string(),
            "B[4] struct { d: D @ 0 }".to_string(),
            "A[8] struct { b: B @ 0, c: C @ 32 }".to_string(),
        ]
    );
}

#[test]
fn a_field_of_an_unknown_type_is_a_dead_end() {
    let tree = unit(vec![record(
        DeclKind::Struct,
        "Holder",
        8,
        vec![field("p", pointer_to(plain("Opaque", 0)), 0)],
    )]);
    let lines = extract(&tree, &names(&["Holder"])).unwrap();
    assert_eq!(lines, vec!["Holder[8] struct { p: Opaque * @ 0 }".to_string()]);
}

#[test]
fn the_dump_lists_every_record_in_the_order_of_first_meeting() {
    let registry = build_registry(&point_and_line(), &names(&["Line"]));
    assert_eq!(
        render_registry(&registry),
        "Point[8] struct { x: int @ 0, y: int @ 32 },\nLine[16] struct { a: Point @ 0, b: Point @ 64 }"
    );
    assert_eq!(render_registry(&Registry::new()), "");
}
