//! Records as text.
//!
//! A record is one line: its identity, its size in square brackets, its
//! kind, and its fields in braces, `name: type` each, with the width of a
//! bit-field in round brackets and the offset behind an `@`.

use crate::names::texts;
use crate::record::{field_views, Field, FieldView, RecordInfo, RecordKind, RecordView};
use crate::registry::Registry;
use crate::text::{decimal, push_decimal};
use itertools::Itertools;
use vstd::prelude::*;
use vstd::string::StringExecFns;

verus! {

/// The parts one after the other, with `sep` between each two.
pub open spec fn join(parts: Seq<Seq<char>>, sep: Seq<char>) -> Seq<char>
    decreases parts.len(),
{
    if parts.len() == 0 {
        Seq::empty()
    } else if parts.len() == 1 {
        parts[0]
    } else {
        join(parts.drop_last(), sep) + sep + parts.last()
    }
}

/// `Itertools::format`, formatted once: the strings in their order, with
/// `sep` between each two and nothing before the first or behind the last.
#[verifier::external_body]
fn joined(parts: &Vec<String>, sep: &str) -> (out: String)
    ensures
        out@ == join(texts(parts@), sep@),
{
    format!("{}", parts.iter().format(sep))
}

/// The word for a kind of record.
pub open spec fn kind_text(kind: RecordKind) -> Seq<char> {
    match kind {
        RecordKind::Struct => seq!['s', 't', 'r', 'u', 'c', 't'],
        RecordKind::Union => seq!['u', 'n', 'i', 'o', 'n'],
        RecordKind::Enum => seq!['e', 'n', 'u', 'm'],
    }
}

/// A field as text: `name: type`, then `(width)` for a bit-field, then
/// ` @ offset` where the offset is known. A field without a name goes by
/// `_`.
pub open spec fn field_text(field: FieldView) -> Seq<char> {
    let name = match field.name {
        Some(name) => name,
        None => seq!['_'],
    };
    let width = match field.bit_field_width {
        Some(width) => seq!['('] + decimal(width as nat) + seq![')'],
        None => Seq::empty(),
    };
    let offset = match field.offset {
        Some(offset) => seq![' ', '@', ' '] + decimal(offset as nat),
        None => Seq::empty(),
    };
    name + seq![':', ' '] + field.type_id + width + offset
}

/// The texts of the fields of a record.
pub open spec fn field_texts(fields: Seq<FieldView>) -> Seq<Seq<char>> {
    fields.map_values(|f: FieldView| field_text(f))
}

/// A record as text: `type[size] kind { field, field }`.
pub open spec fn record_text(record: RecordView) -> Seq<char> {
    record.type_id + seq!['['] + decimal(record.size as nat) + seq![']', ' '] + kind_text(
        record.kind,
    ) + seq![' ', '{', ' '] + join(field_texts(record.fields), seq![',', ' ']) + seq![' ', '}']
}

impl RecordKind {
    /// The word for the kind: `struct`, `union` or `enum`.
    pub fn name(&self) -> (word: &'static str)
        ensures
            word@ == kind_text(*self),
    {
        proof {
            reveal_strlit("struct");
            reveal_strlit("union");
            reveal_strlit("enum");
        }
        let word = match self {
            RecordKind::Struct => "struct",
            RecordKind::Union => "union",
            RecordKind::Enum => "enum",
        };
        assert(word@ =~= kind_text(*self));
        word
    }
}

/// Renders one field.
pub fn render_field(field: &Field) -> (out: String)
    ensures
        out@ == field_text(field@),
{
    proof {
        reveal_strlit("_");
        reveal_strlit(": ");
        reveal_strlit("(");
        reveal_strlit(")");
        reveal_strlit(" @ ");
    }
    let mut out = String::new();
    match &field.name {
        Some(name) => out.append(name.as_str()),
        None => out.append("_"),
    }
    out.append(": ");
    out.append(field.type_id.as_str());
    let ghost head = match field@.name {
        Some(name) => name,
        None => seq!['_'],
    } + seq![':', ' '] + field@.type_id;
    assert(out@ =~= head);
    match field.bit_field_width {
        Some(width) => {
            out.append("(");
            push_decimal(&mut out, width);
            out.append(")");
            assert(out@ =~= head + (seq!['('] + decimal(width as nat) + seq![')']));
        },
        None => {
            assert(out@ =~= head + Seq::<char>::empty());
        },
    }
    let ghost middle = out@;
    match field.offset {
        Some(offset) => {
            out.append(" @ ");
            push_decimal(&mut out, offset);
            assert(out@ =~= middle + (seq![' ', '@', ' '] + decimal(offset as nat)));
        },
        None => {
            assert(out@ =~= middle + Seq::<char>::empty());
        },
    }
    out
}

/// Renders one record.
pub fn render_record(record: &RecordInfo) -> (out: String)
    ensures
        out@ == record_text(record@),
{
    proof {
        reveal_strlit("[");
        reveal_strlit("] ");
        reveal_strlit(" { ");
        reveal_strlit(", ");
        reveal_strlit(" }");
    }
    let mut parts: Vec<String> = Vec::new();
    let mut k: usize = 0;
    while k < record.fields.len()
        invariant
            k <= record.fields@.len(),
            parts@.len() == k,
            forall|i: int|
                0 <= i < k ==> (#[trigger] parts@[i])@ == field_text(record.fields@[i]@),
        decreases record.fields@.len() - k,
    {
        parts.push(render_field(&record.fields[k]));
        k += 1;
    }
    assert(texts(parts@) =~= field_texts(field_views(record.fields@)));
    let mut out = String::new();
    out.append(record.type_id.as_str());
    out.append("[");
    push_decimal(&mut out, record.size);
    out.append("] ");
    out.append(record.kind.name());
    out.append(" { ");
    let ghost head = record@.type_id + seq!['['] + decimal(record.size as nat) + seq![']', ' ']
        + kind_text(record.kind) + seq![' ', '{', ' '];
    assert(out@ =~= head);
    let fields = joined(&parts, ", ");
    proof {
        assert(", "@ =~= seq![',', ' ']);
        assert(fields@ == join(field_texts(record@.fields), seq![',', ' ']));
    }
    out.append(fields.as_str());
    out.append(" }");
    assert(out@ == head + fields@ + seq![' ', '}']);
    out
}

impl Field {
    /// The field as text, as `render_field` writes it.
    pub fn to_string(&self) -> (out: String)
        ensures
            out@ == field_text(self@),
    {
        render_field(self)
    }
}

impl RecordInfo {
    /// The record as text, as `render_record` writes it.
    pub fn to_string(&self) -> (out: String)
        ensures
            out@ == record_text(self@),
    {
        render_record(self)
    }
}

/// The texts of records.
pub open spec fn record_texts(records: Seq<RecordView>) -> Seq<Seq<char>> {
    records.map_values(|r: RecordView| record_text(r))
}

/// Renders every record of the registry, in the order in which they were
/// first met, with a comma and a line break between each two.
pub fn render_registry(registry: &Registry) -> (out: String)
    ensures
        out@ == join(record_texts(registry@.records), seq![',', '\n']),
{
    proof {
        reveal_strlit(",\n");
    }
    let mut parts: Vec<String> = Vec::new();
    let mut k: usize = 0;
    while k < registry.len()
        invariant
            k <= registry@.records.len(),
            parts@.len() == k,
            forall|i: int|
                0 <= i < k ==> (#[trigger] parts@[i])@ == record_text(registry@.records[i]),
        decreases registry@.records.len() - k,
    {
        parts.push(render_record(registry.record(k)));
        k += 1;
    }
    assert(texts(parts@) =~= record_texts(registry@.records));
    assert(",\n"@ =~= seq![',', '\n']);
    joined(&parts, ",\n")
}

} // verus!
