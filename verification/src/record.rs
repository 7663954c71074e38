//! Records and their fields, as the registry holds them.

use crate::decl::{underlying_type, Decl, DeclKind};
use crate::names::NameSet;
use crate::type_id::TypeId;
use vstd::prelude::*;

verus! {

/// What a record is declared as.
#[derive(Debug, Clone, Copy, PartialEq, Eq, PartialOrd, Ord, Hash)]
pub enum RecordKind {
    Struct,
    Union,
    Enum,
}

/// One member of a record.
#[derive(Debug, PartialEq, Eq)]
pub struct Field {
    /// Absent for an anonymous member.
    pub name: Option<String>,
    /// The declared type, pointers kept.
    pub type_id: TypeId,
    /// The type that the declared type leads to once all pointers are
    /// followed. It says which record the member depends on, and nothing
    /// else.
    pub underlying: TypeId,
    /// The offset in bits within the record; for an enum constant, its
    /// value.
    pub offset: Option<usize>,
    pub bit_field_width: Option<usize>,
}

/// A field as a mathematical value.
pub struct FieldView {
    pub name: Option<Seq<char>>,
    pub type_id: Seq<char>,
    pub underlying: Seq<char>,
    pub offset: Option<usize>,
    pub bit_field_width: Option<usize>,
}

/// A struct, union or enum with its layout.
#[derive(Debug, PartialEq, Eq)]
pub struct RecordInfo {
    pub kind: RecordKind,
    /// The record's own identity: the key it is stored under.
    pub type_id: TypeId,
    /// Size in bytes.
    pub size: usize,
    /// Every name that the record was met under.
    pub aliases: NameSet,
    /// The members in declaration order.
    pub fields: Vec<Field>,
}

/// A record as a mathematical value.
pub struct RecordView {
    pub kind: RecordKind,
    pub type_id: Seq<char>,
    pub size: usize,
    pub aliases: Set<Seq<char>>,
    pub fields: Seq<FieldView>,
}

/// The text of an optional string.
pub open spec fn opt_text(s: Option<String>) -> Option<Seq<char>> {
    match s {
        Some(s) => Some(s@),
        None => None,
    }
}

impl View for Field {
    type V = FieldView;

    open spec fn view(&self) -> FieldView {
        FieldView {
            name: opt_text(self.name),
            type_id: self.type_id@,
            underlying: self.underlying@,
            offset: self.offset,
            bit_field_width: self.bit_field_width,
        }
    }
}

/// The fields that a sequence holds, as mathematical values.
pub open spec fn field_views(fields: Seq<Field>) -> Seq<FieldView> {
    fields.map_values(|f: Field| f@)
}

impl View for RecordInfo {
    type V = RecordView;

    open spec fn view(&self) -> RecordView {
        RecordView {
            kind: self.kind,
            type_id: self.type_id@,
            size: self.size,
            aliases: self.aliases.names(),
            fields: field_views(self.fields@),
        }
    }
}

impl Clone for Field {
    fn clone(&self) -> (f: Field)
        ensures
            f == *self,
    {
        Field {
            name: match &self.name {
                Some(name) => Some(name.clone()),
                None => None,
            },
            type_id: self.type_id.clone(),
            underlying: self.underlying.clone(),
            offset: self.offset,
            bit_field_width: self.bit_field_width,
        }
    }
}

impl Clone for RecordInfo {
    fn clone(&self) -> (r: RecordInfo)
        ensures
            r@ == self@,
    {
        let mut fields: Vec<Field> = Vec::new();
        let mut i: usize = 0;
        while i < self.fields.len()
            invariant
                i <= self.fields@.len(),
                fields@.len() == i,
                forall|k: int| 0 <= k < i ==> fields@[k] == self.fields@[k],
            decreases self.fields@.len() - i,
        {
            fields.push(self.fields[i].clone());
            i += 1;
        }
        assert(field_views(fields@) =~= field_views(self.fields@));
        RecordInfo {
            kind: self.kind,
            type_id: self.type_id.clone(),
            size: self.size,
            aliases: self.aliases.clone(),
            fields,
        }
    }
}

impl RecordKind {
    /// The kind of record that a declaration of kind `kind` declares.
    pub open spec fn of(kind: DeclKind) -> Option<RecordKind> {
        match kind {
            DeclKind::Struct => Some(RecordKind::Struct),
            DeclKind::Union => Some(RecordKind::Union),
            DeclKind::Enum => Some(RecordKind::Enum),
            _ => None,
        }
    }

    #[verifier::when_used_as_spec(of)]
    pub fn from_decl(kind: DeclKind) -> (r: Option<RecordKind>)
        ensures
            r == RecordKind::of(kind),
    {
        match kind {
            DeclKind::Struct => Some(RecordKind::Struct),
            DeclKind::Union => Some(RecordKind::Union),
            DeclKind::Enum => Some(RecordKind::Enum),
            _ => None,
        }
    }
}

/// Fields, enum constants and nested structs and unions are the members of
/// a record.
pub open spec fn is_member(child: Decl) -> bool {
    child.kind is Field || child.kind is EnumConstant || child.kind is Union
        || child.kind is Struct
}

/// Where a member lies in its record: the offset that its name resolves
/// to; failing that, for an enum constant, its value; else nothing.
pub open spec fn resolved_offset(child: Decl) -> Option<usize> {
    if child.name is Some && child.member_offset is Some {
        child.member_offset
    } else if child.kind is EnumConstant && child.enum_value is Some {
        Some(child.enum_value->0 as usize)
    } else {
        None
    }
}

/// The field that a child of a record declaration stands for. A child that
/// is no member, or whose type is not known, stands for none.
pub open spec fn member_field(child: Decl) -> Option<FieldView> {
    if is_member(child) && child.ty is Some {
        Some(
            FieldView {
                name: opt_text(child.name),
                type_id: child.ty->0.id(),
                underlying: child.ty->0.innermost().id(),
                offset: resolved_offset(child),
                bit_field_width: child.bit_field_width,
            },
        )
    } else {
        None
    }
}

/// The fields of a record whose declaration has these children, in
/// declaration order.
pub open spec fn member_fields(children: Seq<Decl>) -> Seq<FieldView>
    decreases children.len(),
{
    if children.len() == 0 {
        Seq::empty()
    } else {
        let before = member_fields(children.drop_last());
        match member_field(children.last()) {
            Some(f) => before.push(f),
            None => before,
        }
    }
}

/// Where `child` lies in its record.
fn offset_of(child: &Decl) -> (offset: Option<usize>)
    ensures
        offset == resolved_offset(*child),
{
    if child.name.is_some() && child.member_offset.is_some() {
        return child.member_offset;
    }
    match (child.kind, child.enum_value) {
        (DeclKind::EnumConstant, Some(value)) => Some(value as usize),
        _ => None,
    }
}

/// The field that `child` stands for, if it stands for one.
pub fn field_of(child: &Decl) -> (field: Option<Field>)
    ensures
        match field {
            Some(f) => member_field(*child) == Some(f@),
            None => member_field(*child) is None,
        },
{
    match child.kind {
        DeclKind::Field | DeclKind::EnumConstant | DeclKind::Union | DeclKind::Struct => {},
        _ => {
            return None;
        },
    }
    match &child.ty {
        None => None,
        Some(ty) => {
            let name = match &child.name {
                Some(n) => Some(n.clone()),
                None => None,
            };
            Some(
                Field {
                    name,
                    type_id: ty.type_id(),
                    underlying: underlying_type(ty).type_id(),
                    offset: offset_of(child),
                    bit_field_width: child.bit_field_width,
                },
            )
        },
    }
}

/// The fields of a record whose declaration has these children.
pub fn fields_of(children: &Vec<Decl>) -> (fields: Vec<Field>)
    ensures
        field_views(fields@) == member_fields(children@),
{
    let mut fields: Vec<Field> = Vec::new();
    let mut i: usize = 0;
    assert(children@.take(0) =~= Seq::<Decl>::empty());
    assert(field_views(fields@) =~= Seq::<FieldView>::empty());
    while i < children.len()
        invariant
            i <= children.len(),
            field_views(fields@) == member_fields(children@.take(i as int)),
        decreases children.len() - i,
    {
        let ghost before = fields@;
        proof {
            assert(children@.take(i + 1).drop_last() =~= children@.take(i as int));
            assert(children@.take(i + 1).last() == children@[i as int]);
        }
        match field_of(&children[i]) {
            Some(f) => {
                fields.push(f);
                assert(field_views(fields@) =~= field_views(before).push(f@));
            },
            None => {},
        }
        i += 1;
    }
    assert(children@.take(i as int) =~= children@);
    fields
}

} // verus!
