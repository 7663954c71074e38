use record_layout::decl::{find_record_def, underlying_type, Decl, DeclKind, TypeRef};
use record_layout::type_id::TypeId;

fn plain(name: &str, size: usize) -> TypeRef {
    TypeRef { canonical: name.to_string(), size: Some(size), pointee: None }
}

fn pointer_to(target: TypeRef) -> TypeRef {
    TypeRef {
        canonical: format!("{} *", target.canonical),
        size: Some(8),
        pointee: Some(Box::new(target)),
    }
}

fn node(kind: DeclKind, is_definition: bool, name: Option<&str>, ty: Option<TypeRef>) -> Decl {
    Decl {
        kind,
        is_definition,
        name: name.map(|n| n.to_string()),
        ty,
        member_offset: None,
        enum_value: None,
        bit_field_width: None,
        children: vec![],
    }
}

#[test]
fn references_to_one_canonical_type_have_one_identity() {
    let by_tag = plain("struct Foo", 8);
    let by_typedef = TypeRef { canonical: "struct Foo".to_string(), size: Some(8), pointee: None };
    let other = plain("struct Bar", 8);
    assert_eq!(by_tag.type_id(), by_typedef.type_id());
    assert!(by_tag.type_id().same(&by_typedef.type_id()));
    assert_ne!(by_tag.type_id(), other.type_id());
    assert!(!by_tag.type_id().same(&other.type_id()));
    assert_eq!(by_tag.type_id(), TypeId::new("struct Foo".to_string()));
}

#[test]
fn a_type_id_is_its_spelling() {
    let id = TypeId::new("struct Foo".to_string());
    assert_eq!(id.as_str(), "struct Foo");
    assert_eq!(id.to_string(), "struct Foo");
    assert_eq!(id.clone(), id);
}

#[test]
fn pointers_are_followed_to_the_end() {
    let inner = plain("struct Node", 16);
    assert_eq!(underlying_type(&inner), &inner);
    let one = pointer_to(plain("struct Node", 16));
    assert_eq!(underlying_type(&one), &inner);
    let two = pointer_to(pointer_to(plain("struct Node", 16)));
    assert_eq!(two.canonical, "struct Node * *");
    assert_eq!(underlying_type(&two), &inner);
    assert_eq!(underlying_type(&two).type_id().as_str(), "struct Node");
    assert_eq!(two.type_id().as_str(), "struct Node * *");
}

#[test]
fn a_record_definition_counts_under_its_tag() {
    for kind in [DeclKind::Struct, DeclKind::Union, DeclKind::Enum] {
        let decl = node(kind, true, Some("Tag"), Some(plain("Tag", 4)));
        let (record, name) = find_record_def(&decl).unwrap();
        assert_eq!(record, &decl);
        assert_eq!(name, "Tag");
    }
}

#[test]
fn an_anonymous_record_counts_under_its_canonical_type() {
    let decl = node(DeclKind::Struct, true, None, Some(plain("struct (anonymous at a.h:3:1)", 4)));
    let (record, name) = find_record_def(&decl).unwrap();
    assert_eq!(record, &decl);
    assert_eq!(name, "struct (anonymous at a.h:3:1)");
}

#[test]
fn an_anonymous_record_without_a_type_does_not_count() {
    let decl = node(DeclKind::Union, true, None, None);
    assert_eq!(find_record_def(&decl), None);
}

#[test]
fn a_forward_declaration_does_not_count() {
    let decl = node(DeclKind::Struct, false, Some("Later"), Some(plain("Later", 0)));
    assert_eq!(find_record_def(&decl), None);
}

#[test]
fn a_typedef_counts_for_the_record_it_defines() {
    let mut typedef = node(DeclKind::Typedef, true, Some("Foo"), Some(plain("Foo", 4)));
    typedef.children = vec![
        node(DeclKind::Other, true, None, None),
        node(DeclKind::Struct, false, Some("Fwd"), None),
        node(DeclKind::Struct, true, None, Some(plain("Foo", 4))),
        node(DeclKind::Union, true, Some("Second"), Some(plain("Second", 4))),
    ];
    let (record, name) = find_record_def(&typedef).unwrap();
    assert_eq!(record, &typedef.children[2]);
    assert_eq!(name, "Foo");
}

#[test]
fn a_typedef_of_something_else_does_not_count() {
    let mut typedef = node(DeclKind::Typedef, true, Some("Int"), Some(plain("int", 4)));
    assert_eq!(find_record_def(&typedef), None);
    typedef.children = vec![node(DeclKind::Struct, false, Some("Fwd"), None)];
    assert_eq!(find_record_def(&typedef), None);
}

#[test]
fn a_typedef_without_a_name_does_not_count() {
    let mut typedef = node(DeclKind::Typedef, true, None, None);
    typedef.children = vec![node(DeclKind::Struct, true, None, Some(plain("S", 4)))];
    assert_eq!(find_record_def(&typedef), None);
}

#[test]
fn other_declarations_do_not_count() {
    for kind in [DeclKind::Field, DeclKind::EnumConstant, DeclKind::Other] {
        let mut decl = node(kind, true, Some("x"), Some(plain("int", 4)));
        decl.children = vec![node(DeclKind::Struct, true, Some("S"), Some(plain("S", 4)))];
        assert_eq!(find_record_def(&decl), None);
    }
}

#[test]
fn kinds_of_records() {
    assert!(DeclKind::Struct.declares_record());
    assert!(DeclKind::Union.declares_record());
    assert!(DeclKind::Enum.declares_record());
    assert!(!DeclKind::Typedef.declares_record());
    assert!(!DeclKind::Field.declares_record());
    assert!(!DeclKind::EnumConstant.declares_record());
    assert!(!DeclKind::Other.declares_record());
    assert!(node(DeclKind::Enum, true, None, None).defines_record());
    assert!(!node(DeclKind::Enum, false, None, None).defines_record());
    assert!(!node(DeclKind::Typedef, true, None, None).defines_record());
}
