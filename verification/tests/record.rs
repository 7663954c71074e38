use record_layout::decl::{Decl, DeclKind, TypeRef};
use record_layout::names::NameSet;
use record_layout::record::{field_of, fields_of, Field, RecordInfo, RecordKind};
use record_layout::render::{render_field, render_record};
use record_layout::type_id::TypeId;

fn plain(name: &str, size: usize) -> TypeRef {
    TypeRef { canonical: name.to_string(), size: Some(size), pointee: None }
}

fn pointer_to(target: TypeRef) -> TypeRef {
    TypeRef {
        canonical: format!("{} *", target.canonical),
        size: Some(8),
        pointee: Some(Box::new(target)),
    }
}

fn member(kind: DeclKind, name: Option<&str>, ty: Option<TypeRef>) -> Decl {
    Decl {
        kind,
        is_definition: true,
        name: name.map(|n| n.to_string()),
        ty,
        member_offset: None,
        enum_value: None,
        bit_field_width: None,
        children: vec![],
    }
}

fn id(spelling: &str) -> TypeId {
    TypeId::new(spelling.to_string())
}

#[test]
fn a_named_field_takes_the_offset_of_its_name() {
    let mut child = member(DeclKind::Field, Some("next"), Some(pointer_to(plain("Node", 16))));
    child.member_offset = Some(64);
    assert_eq!(
        field_of(&child),
        Some(Field {
            name: Some("next".to_string()),
            type_id: id("Node *"),
            underlying: id("Node"),
            offset: Some(64),
            bit_field_width: None,
        })
    );
}

#[test]
fn a_bit_field_keeps_its_width() {
    let mut child = member(DeclKind::Field, Some("flag"), Some(plain("unsigned int", 4)));
    child.member_offset = Some(3);
    child.bit_field_width = Some(1);
    let field = field_of(&child).unwrap();
    assert_eq!(field.offset, Some(3));
    assert_eq!(field.bit_field_width, Some(1));
    assert_eq!(render_field(&field), "flag: unsigned int(1) @ 3");
}

#[test]
fn an_enum_constant_takes_its_value_for_an_offset() {
    let mut child = member(DeclKind::EnumConstant, Some("RED"), Some(plain("int", 4)));
    child.enum_value = Some(7);
    let field = field_of(&child).unwrap();
    assert_eq!(field.offset, Some(7));
    assert_eq!(field.name, Some("RED".to_string()));
    assert_eq!(render_field(&field), "RED: int @ 7");
}

#[test]
fn the_offset_of_the_name_goes_before_the_value() {
    let mut child = member(DeclKind::EnumConstant, Some("RED"), Some(plain("int", 4)));
    child.enum_value = Some(7);
    child.member_offset = Some(32);
    assert_eq!(field_of(&child).unwrap().offset, Some(32));
}

#[test]
fn without_a_name_the_offset_is_not_looked_at() {
    let mut child = member(DeclKind::Field, None, Some(plain("int", 4)));
    child.member_offset = Some(32);
    assert_eq!(field_of(&child).unwrap().offset, None);
    let mut constant = member(DeclKind::EnumConstant, None, Some(plain("int", 4)));
    constant.member_offset = Some(32);
    constant.enum_value = Some(5);
    assert_eq!(field_of(&constant).unwrap().offset, Some(5));
}

#[test]
fn the_value_of_anything_but_an_enum_constant_is_not_looked_at() {
    let mut child = member(DeclKind::Field, Some("x"), Some(plain("int", 4)));
    child.enum_value = Some(5);
    assert_eq!(field_of(&child).unwrap().offset, None);
}

#[test]
fn nested_structs_and_unions_are_members() {
    let inner = member(DeclKind::Struct, None, Some(plain("struct (anonymous)", 8)));
    let field = field_of(&inner).unwrap();
    assert_eq!(field.name, None);
    assert_eq!(field.offset, None);
    assert_eq!(render_field(&field), "_: struct (anonymous)");
    assert!(field_of(&member(DeclKind::Union, Some("u"), Some(plain("union u", 8)))).is_some());
}

#[test]
fn what_is_no_member_gives_no_field() {
    assert_eq!(field_of(&member(DeclKind::Enum, Some("e"), Some(plain("enum e", 4)))), None);
    assert_eq!(field_of(&member(DeclKind::Typedef, Some("t"), Some(plain("int", 4)))), None);
    assert_eq!(field_of(&member(DeclKind::Other, Some("o"), Some(plain("int", 4)))), None);
}

#[test]
fn a_member_without_a_type_gives_no_field() {
    assert_eq!(field_of(&member(DeclKind::Field, Some("x"), None)), None);
}

#[test]
fn fields_come_in_declaration_order() {
    let mut a = member(DeclKind::Field, Some("a"), Some(plain("int", 4)));
    a.member_offset = Some(0);
    let skipped = member(DeclKind::Other, Some("attr"), None);
    let untyped = member(DeclKind::Field, Some("broken"), None);
    let mut b = member(DeclKind::Field, Some("b"), Some(pointer_to(plain("char", 1))));
    b.member_offset = Some(64);
    let fields = fields_of(&vec![a, skipped, untyped, b]);
    let texts: Vec<String> = fields.iter().map(render_field).collect();
    assert_eq!(texts, vec!["a: int @ 0", "b: char * @ 64"]);
    assert_eq!(fields_of(&vec![]), vec![]);
}

#[test]
fn kinds_of_declarations_and_of_records() {
    assert_eq!(RecordKind::from_decl(DeclKind::Struct), Some(RecordKind::Struct));
    assert_eq!(RecordKind::from_decl(DeclKind::Union), Some(RecordKind::Union));
    assert_eq!(RecordKind::from_decl(DeclKind::Enum), Some(RecordKind::Enum));
    assert_eq!(RecordKind::from_decl(DeclKind::Typedef), None);
    assert_eq!(RecordKind::from_decl(DeclKind::Field), None);
    assert_eq!(RecordKind::from_decl(DeclKind::EnumConstant), None);
    assert_eq!(RecordKind::from_decl(DeclKind::Other), None);
    assert_eq!(RecordKind::Struct.name(), "struct");
    assert_eq!(RecordKind::Union.name(), "union");
    assert_eq!(RecordKind::Enum.name(), "enum");
}

#[test]
fn a_field_is_rendered_in_each_of_its_forms() {
    let mut field = Field {
        name: Some("x".to_string()),
        type_id: id("int"),
        underlying: id("int"),
        offset: None,
        bit_field_width: None,
    };
    assert_eq!(render_field(&field), "x: int");
    field.offset = Some(0);
    assert_eq!(render_field(&field), "x: int @ 0");
    field.bit_field_width = Some(12);
    assert_eq!(render_field(&field), "x: int(12) @ 0");
    field.offset = None;
    assert_eq!(render_field(&field), "x: int(12)");
    field.name = None;
    assert_eq!(render_field(&field), "_: int(12)");
}

#[test]
fn the_underlying_type_is_not_rendered() {
    let field = Field {
        name: Some("p".to_string()),
        type_id: id("struct S **"),
        underlying: id("struct S"),
        offset: Some(128),
        bit_field_width: None,
    };
    assert_eq!(render_field(&field), "p: struct S ** @ 128");
}

#[test]
fn a_record_is_rendered_on_one_line() {
    let mut aliases = NameSet::new();
    aliases.insert("Pair".to_string());
    aliases.insert("pair_t".to_string());
    let mut record = RecordInfo {
        kind: RecordKind::Union,
        type_id: id("union Pair"),
        size: 8,
        aliases,
        fields: vec![],
    };
    assert_eq!(render_record(&record), "union Pair[8] union {  }");
    record.fields.push(Field {
        name: Some("whole".to_string()),
        type_id: id("long"),
        underlying: id("long"),
        offset: Some(0),
        bit_field_width: None,
    });
    assert_eq!(render_record(&record), "union Pair[8] union { whole: long @ 0 }");
    record.fields.push(Field {
        name: None,
        type_id: id("int"),
        underlying: id("int"),
        offset: None,
        bit_field_width: Some(3),
    });
    record.fields.push(Field {
        name: Some("rest".to_string()),
        type_id: id("char *"),
        underlying: id("char"),
        offset: Some(32),
        bit_field_width: None,
    });
    assert_eq!(
        render_record(&record),
        "union Pair[8] union { whole: long @ 0, _: int(3), rest: char * @ 32 }"
    );
    record.kind = RecordKind::Enum;
    record.size = 4;
    record.fields.truncate(1);
    assert_eq!(render_record(&record), "union Pair[4] enum { whole: long @ 0 }");
}

#[test]
fn to_string_renders() {
    let field = Field {
        name: Some("x".to_string()),
        type_id: id("int"),
        underlying: id("int"),
        offset: Some(32),
        bit_field_width: None,
    };
    assert_eq!(field.to_string(), "x: int @ 32");
    let record = RecordInfo {
        kind: RecordKind::Struct,
        type_id: id("struct S"),
        size: 8,
        aliases: NameSet::new(),
        fields: vec![field],
    };
    assert_eq!(record.to_string(), "struct S[8] struct { x: int @ 32 }");
}

#[test]
fn a_copy_of_a_record_equals_the_record() {
    let mut aliases = NameSet::new();
    aliases.insert("b".to_string());
    aliases.insert("a".to_string());
    let record = RecordInfo {
        kind: RecordKind::Union,
        type_id: id("union U"),
        size: 16,
        aliases,
        fields: vec![
            Field {
                name: Some("x".to_string()),
                type_id: id("int *"),
                underlying: id("int"),
                offset: Some(0),
                bit_field_width: None,
            },
            Field {
                name: None,
                type_id: id("char"),
                underlying: id("char"),
                offset: None,
                bit_field_width: Some(2),
            },
        ],
    };
    let copy = record.clone();
    assert_eq!(copy, record);
    assert_eq!(copy.fields[0].clone(), record.fields[0]);
    assert_eq!(copy.aliases.clone(), record.aliases);
    assert_eq!(copy.aliases.len(), 2);
}
