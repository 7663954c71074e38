//! What a C front end reports of a translation unit, as plain values: a tree
//! of declarations, and for each type its canonical spelling, its size and
//! what it points to.

use crate::type_id::TypeId;
use vstd::prelude::*;

verus! {

/// The kind of a declaration, as far as the layout of records depends on it.
#[derive(Debug, Clone, Copy, PartialEq, Eq)]
pub enum DeclKind {
    Struct,
    Union,
    Enum,
    Typedef,
    Field,
    EnumConstant,
    Other,
}

/// A reference to a type.
#[derive(Debug, PartialEq, Eq)]
pub struct TypeRef {
    /// The spelling of the canonical form of the type: typedefs resolved,
    /// no alias left.
    pub canonical: String,
    /// The size of the type in bytes, where it has one.
    pub size: Option<usize>,
    /// For a pointer or a reference, the type it points to.
    pub pointee: Option<Box<TypeRef>>,
}

/// One node of the tree of declarations.
#[derive(Debug, PartialEq, Eq)]
pub struct Decl {
    pub kind: DeclKind,
    /// Whether the node defines what it declares; a forward declaration does
    /// not.
    pub is_definition: bool,
    pub name: Option<String>,
    pub ty: Option<TypeRef>,
    /// The offset in bits of the member of this name in the enclosing
    /// record, where the name resolves to one.
    pub member_offset: Option<usize>,
    /// The value of an enum constant.
    pub enum_value: Option<u64>,
    /// The width in bits of a bit-field.
    pub bit_field_width: Option<usize>,
    pub children: Vec<Decl>,
}

impl DeclKind {
    /// Struct, union and enum declarations are the records.
    pub open spec fn is_record(self) -> bool {
        self is Struct || self is Union || self is Enum
    }

    #[verifier::when_used_as_spec(is_record)]
    pub fn declares_record(self) -> (r: bool)
        ensures
            r == self.is_record(),
    {
        match self {
            DeclKind::Struct => true,
            DeclKind::Union => true,
            DeclKind::Enum => true,
            _ => false,
        }
    }
}

impl TypeRef {
    /// The identity of the type that `self` refers to.
    pub open spec fn id(self) -> Seq<char> {
        self.canonical@
    }

    /// The type reached from `self` when every pointer is followed.
    pub open spec fn innermost(self) -> TypeRef
        decreases self,
    {
        match self.pointee {
            Some(p) => p.innermost(),
            None => self,
        }
    }

    /// The identity of the type that `self` refers to. References to one
    /// canonical type get equal identities, references to different ones get
    /// different identities.
    pub fn type_id(&self) -> (id: TypeId)
        ensures
            id@ == self.id(),
    {
        TypeId::new(self.canonical.clone())
    }
}

/// Two type references have the same identity exactly if their canonical
/// forms are spelled alike.
pub proof fn lemma_identity_stable(a: TypeRef, b: TypeRef)
    ensures
        (a.id() == b.id()) <==> (a.canonical@ == b.canonical@),
{
}

/// Follows pointers from `ty` until a type is reached that points nowhere.
pub fn underlying_type(ty: &TypeRef) -> (inner: &TypeRef)
    ensures
        *inner == ty.innermost(),
        inner.pointee is None,
{
    let mut cur = ty;
    loop
        invariant
            cur.innermost() == ty.innermost(),
        decreases *cur,
    {
        match &cur.pointee {
            Some(next) => {
                cur = &**next;
            },
            None => {
                return cur;
            },
        }
    }
}

impl Decl {
    /// The node is the definition of a struct, a union or an enum.
    pub open spec fn is_record_definition(&self) -> bool {
        self.is_definition && self.kind.is_record()
    }

    #[verifier::when_used_as_spec(is_record_definition)]
    pub fn defines_record(&self) -> (r: bool)
        ensures
            r == self.is_record_definition(),
    {
        self.is_definition && self.kind.declares_record()
    }
}

/// The place of the first record definition among `children`, from `start`
/// on.
pub open spec fn first_record_child(children: Seq<Decl>, start: int) -> Option<int>
    decreases children.len() - start,
{
    if start < 0 || start >= children.len() {
        None
    } else if children[start].is_record_definition() {
        Some(start)
    } else {
        first_record_child(children, start + 1)
    }
}

/// The record that `node` contributes, with the name it goes by there:
/// - a record definition counts under its tag, or, where it has none, under
///   the spelling of its own canonical type;
/// - a typedef counts for the first record definition among its children,
///   under the typedef's name;
/// - nothing else counts, and no forward declaration.
pub open spec fn record_def(node: Decl) -> Option<(Decl, Seq<char>)> {
    if node.is_record_definition() {
        match (node.name, node.ty) {
            (Some(name), _) => Some((node, name@)),
            (None, Some(ty)) => Some((node, ty.id())),
            (None, None) => None,
        }
    } else if node.kind is Typedef {
        match (first_record_child(node.children@, 0), node.name) {
            (Some(i), Some(name)) => Some((node.children@[i], name@)),
            _ => None,
        }
    } else {
        None
    }
}

/// Decides whether `node` contributes a record, and under which name.
pub fn find_record_def(node: &Decl) -> (found: Option<(&Decl, String)>)
    ensures
        match found {
            Some((record, name)) => record_def(*node) == Some((*record, name@)),
            None => record_def(*node) is None,
        },
{
    if node.defines_record() {
        return match &node.name {
            Some(name) => Some((node, name.clone())),
            None => match &node.ty {
                Some(ty) => Some((node, ty.type_id().to_string())),
                None => None,
            },
        };
    }
    match node.kind {
        DeclKind::Typedef => {},
        _ => {
            return None;
        },
    }
    let mut i: usize = 0;
    while i < node.children.len()
        invariant
            i <= node.children.len(),
            !node.is_record_definition(),
            node.kind is Typedef,
            first_record_child(node.children@, 0) == first_record_child(node.children@, i as int),
        decreases node.children.len() - i,
    {
        if node.children[i].defines_record() {
            return match &node.name {
                Some(name) => Some((&node.children[i], name.clone())),
                None => None,
            };
        }
        i += 1;
    }
    None
}

} // verus!
