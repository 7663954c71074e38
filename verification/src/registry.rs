//! The store of records, one per type identity, in the order in which they
//! were first met.

use crate::decl::{find_record_def, record_def, Decl};
use crate::names::{ascending, holds_name, in_order, lemma_in_order, texts, NameSet};
use crate::record::{fields_of, member_fields, FieldView, RecordInfo, RecordKind, RecordView};
use crate::type_id::TypeId;
use indexmap::IndexMap;
use vstd::prelude::*;

verus! {

/// `indexmap::IndexMap`: a hash map that keeps its pairs in the order in
/// which their keys were first inserted, and numbers them from 0 in that
/// order. Nothing inside it is visible here.
#[verifier::external_type_specification]
#[verifier::external_body]
#[verifier::reject_recursive_types(K)]
#[verifier::reject_recursive_types(V)]
#[verifier::reject_recursive_types(S)]
pub struct ExIndexMap<K, V, S>(IndexMap<K, V, S>);

/// The pairs of key and record that a map holds, in the map's own order:
/// the order in which the keys were first inserted.
pub uninterp spec fn entries(map: IndexMap<String, RecordInfo>) -> Seq<(Seq<char>, RecordInfo)>;

/// `IndexMap::new`: a map that holds nothing.
#[verifier::external_body]
fn map_new() -> (map: IndexMap<String, RecordInfo>)
    ensures
        entries(map) == Seq::<(Seq<char>, RecordInfo)>::empty(),
{
    IndexMap::new()
}

/// `IndexMap::len`: the number of pairs.
#[verifier::external_body]
fn map_len(map: &IndexMap<String, RecordInfo>) -> (n: usize)
    ensures
        n == entries(*map).len(),
{
    map.len()
}

/// `IndexMap::get_index_of`: the place of the pair whose key spells `key`,
/// or nothing where no key does.
#[verifier::external_body]
fn map_index_of(map: &IndexMap<String, RecordInfo>, key: &str) -> (place: Option<usize>)
    ensures
        match place {
            Some(i) => i < entries(*map).len() && entries(*map)[i as int].0 == key@,
            None => forall|i: int| 0 <= i < entries(*map).len() ==> entries(*map)[i].0 != key@,
        },
{
    map.get_index_of(key)
}

/// `Index<usize>` of `IndexMap`: the record at place `i`.
#[verifier::external_body]
fn map_at(map: &IndexMap<String, RecordInfo>, i: usize) -> (record: &RecordInfo)
    requires
        i < entries(*map).len(),
    ensures
        *record == entries(*map)[i as int].1,
{
    &map[i]
}

/// `IndexMut<usize>` of `IndexMap`: the record at place `i`, to be changed
/// where it lies. Its key and every other pair stay as they are.
#[verifier::external_body]
fn map_at_mut(map: &mut IndexMap<String, RecordInfo>, i: usize) -> (record: &mut RecordInfo)
    requires
        i < entries(*old(map)).len(),
    ensures
        *record == entries(*old(map))[i as int].1,
        entries(*final(map)) == entries(*old(map)).update(
            i as int,
            (entries(*old(map))[i as int].0, *final(record)),
        ),
{
    &mut map[i]
}

/// `IndexMap::insert`: where no key spells `key`, the pair goes to the end
/// and nothing is returned; where one does, its record is replaced where it
/// lies and returned. All other pairs stay as they are.
#[verifier::external_body]
fn map_insert(map: &mut IndexMap<String, RecordInfo>, key: String, record: RecordInfo) -> (replaced:
    Option<RecordInfo>)
    ensures
        (forall|i: int| 0 <= i < entries(*old(map)).len() ==> entries(*old(map))[i].0 != key@)
            ==> replaced is None && entries(*final(map)) == entries(*old(map)).push(
            (key@, record),
        ),
        forall|i: int|
            0 <= i < entries(*old(map)).len() && entries(*old(map))[i].0 == key@ ==> replaced
                == Some(entries(*old(map))[i].1) && entries(*final(map)) == entries(
                *old(map),
            ).update(i, (key@, record)),
{
    map.insert(key, record)
}

/// The records of a registry and the types that were asked for, as
/// mathematical values.
pub struct RegistryView {
    /// The records, in the order in which their types were first met.
    pub records: Seq<RecordView>,
    /// The identities of the records of which a name was asked for.
    pub targets: Set<Seq<char>>,
}

/// What one declaration adds to a registry.
pub struct Registration {
    pub type_id: Seq<char>,
    pub name: Seq<char>,
    pub kind: RecordKind,
    pub size: usize,
    pub fields: Seq<FieldView>,
}

/// No two records have the same identity.
pub open spec fn distinct_ids(records: Seq<RecordView>) -> bool {
    forall|i: int, j: int|
        0 <= i < j < records.len() ==> (#[trigger] records[i]).type_id != (
        #[trigger] records[j]).type_id
}

/// Whether `i` is the place of the record of identity `id`.
pub open spec fn is_place_of(records: Seq<RecordView>, id: Seq<char>, i: int) -> bool {
    0 <= i < records.len() && records[i].type_id == id
}

/// Whether a record of identity `id` is among `records`.
pub open spec fn has_id(records: Seq<RecordView>, id: Seq<char>) -> bool {
    exists|i: int| is_place_of(records, id, i)
}

/// The place of the record of identity `id`.
pub open spec fn place_of(records: Seq<RecordView>, id: Seq<char>) -> int {
    choose|i: int| is_place_of(records, id, i)
}

/// What registering `record` under `name` adds: nothing, unless the record
/// is a struct, union or enum whose type and size are known.
pub open spec fn registration_of(record: Decl, name: Seq<char>) -> Option<Registration> {
    if record.ty is Some && record.ty->0.size is Some && RecordKind::of(record.kind) is Some {
        Some(
            Registration {
                type_id: record.ty->0.id(),
                name,
                kind: RecordKind::of(record.kind)->0,
                size: record.ty->0.size->0,
                fields: member_fields(record.children@),
            },
        )
    } else {
        None
    }
}

/// What the declaration `node` adds to a registry, if anything.
pub open spec fn registration(node: Decl) -> Option<Registration> {
    match record_def(node) {
        Some((record, name)) => registration_of(record, name),
        None => None,
    }
}

/// The registry after one registration. A type that is met for the first
/// time gets a record at the end; a type that is known keeps its record and
/// only gains the name. The type becomes a target if the name was asked for.
pub open spec fn enroll(v: RegistryView, r: Registration, filters: Set<Seq<char>>) -> RegistryView {
    RegistryView {
        records: if has_id(v.records, r.type_id) {
            let i = place_of(v.records, r.type_id);
            v.records.update(
                i,
                RecordView { aliases: v.records[i].aliases.insert(r.name), ..v.records[i] },
            )
        } else {
            v.records.push(
                RecordView {
                    kind: r.kind,
                    type_id: r.type_id,
                    size: r.size,
                    aliases: set![r.name],
                    fields: r.fields,
                },
            )
        },
        targets: if filters.contains(r.name) {
            v.targets.insert(r.type_id)
        } else {
            v.targets
        },
    }
}

/// The registry after the declaration `node` was looked at.
pub open spec fn noted(v: RegistryView, node: Decl, filters: Set<Seq<char>>) -> RegistryView {
    match registration(node) {
        Some(r) => enroll(v, r, filters),
        None => v,
    }
}

/// What `node` itself registers: one registration or none.
pub open spec fn own_registration(node: Decl) -> Seq<Registration> {
    match registration(node) {
        Some(r) => seq![r],
        None => Seq::empty(),
    }
}

/// The registrations that the declarations below `node` make, from the
/// child at `start` on, in the order of a walk that visits a declaration
/// before its children and the children from first to last.
pub open spec fn registrations(node: Decl, start: int) -> Seq<Registration>
    decreases node, node.children@.len() - start,
{
    if start < 0 || start >= node.children@.len() {
        Seq::empty()
    } else {
        let child = node.children@[start];
        own_registration(child) + registrations(child, 0) + registrations(node, start + 1)
    }
}

/// The registry after the registrations `rs`, made one after the other.
pub open spec fn enroll_all(v: RegistryView, rs: Seq<Registration>, filters: Set<Seq<char>>) -> RegistryView
    decreases rs.len(),
{
    if rs.len() == 0 {
        v
    } else {
        enroll(enroll_all(v, rs.drop_last(), filters), rs.last(), filters)
    }
}

/// Registering `a` and then `b` is registering `a + b`.
pub proof fn lemma_enroll_all_concat(
    v: RegistryView,
    a: Seq<Registration>,
    b: Seq<Registration>,
    filters: Set<Seq<char>>,
)
    ensures
        enroll_all(v, a + b, filters) == enroll_all(enroll_all(v, a, filters), b, filters),
    decreases b.len(),
{
    if b.len() == 0 {
        assert(a + b =~= a);
    } else {
        assert((a + b).drop_last() =~= a + b.drop_last());
        assert((a + b).last() == b.last());
        lemma_enroll_all_concat(v, a, b.drop_last(), filters);
    }
}

/// The records that were found, each once, with the types that were asked
/// for.
pub struct Registry {
    records: IndexMap<String, RecordInfo>,
    targets: NameSet,
}

/// The records that the pairs of a map hold.
pub open spec fn record_views(entries: Seq<(Seq<char>, RecordInfo)>) -> Seq<RecordView> {
    entries.map_values(|e: (Seq<char>, RecordInfo)| e.1@)
}

impl View for Registry {
    type V = RegistryView;

    closed spec fn view(&self) -> RegistryView {
        RegistryView { records: record_views(entries(self.records)), targets: self.targets.names() }
    }
}

impl Registry {
    /// Every record lies under its own identity, no identity occurs twice,
    /// and every target is the identity of a record.
    pub closed spec fn wf(&self) -> bool {
        let es = entries(self.records);
        &&& forall|i: int|
            0 <= i < es.len() ==> (#[trigger] es[i]).0 == es[i].1.type_id@ && es[i].1.aliases.wf()
        &&& distinct_ids(self@.records)
        &&& self.targets.wf()
        &&& forall|k: int|
            0 <= k < self.targets@.len() ==> has_id(self@.records, #[trigger] self.targets@[k])
    }

    /// The targets in ascending order.
    pub open spec fn target_order(&self) -> Seq<Seq<char>> {
        in_order(self@.targets)
    }

    /// What a well-formed registry promises of its values.
    pub proof fn lemma_wf(&self)
        requires
            self.wf(),
        ensures
            distinct_ids(self@.records),
            ascending(self.target_order()),
            self.target_order().to_set() == self@.targets,
            forall|k: int|
                0 <= k < self.target_order().len() ==> has_id(
                    self@.records,
                    #[trigger] self.target_order()[k],
                ),
    {
        lemma_in_order(self.targets@);
    }

    /// A registry without records and without targets.
    pub fn new() -> (registry: Registry)
        ensures
            registry.wf(),
            registry@.records == Seq::<RecordView>::empty(),
            registry@.targets == Set::<Seq<char>>::empty(),
    {
        let registry = Registry { records: map_new(), targets: NameSet::new() };
        assert(registry@.records =~= Seq::<RecordView>::empty());
        assert(registry@.targets =~= Set::<Seq<char>>::empty());
        registry
    }

    /// The number of records.
    pub fn len(&self) -> (n: usize)
        ensures
            n == self@.records.len(),
    {
        map_len(&self.records)
    }

    /// The record at place `i` of the order of first meeting.
    pub fn record(&self, i: usize) -> (record: &RecordInfo)
        requires
            i < self@.records.len(),
        ensures
            record@ == self@.records[i as int],
            self.wf() ==> record.aliases.wf(),
    {
        map_at(&self.records, i)
    }

    /// The place of the record whose identity is spelled `spelling`, if
    /// there is one.
    pub fn find(&self, spelling: &str) -> (place: Option<usize>)
        requires
            self.wf(),
        ensures
            match place {
                Some(i) => is_place_of(self@.records, spelling@, i as int),
                None => !has_id(self@.records, spelling@),
            },
    {
        let place = map_index_of(&self.records, spelling);
        proof {
            let es = entries(self.records);
            if place is None {
                assert forall|i: int| !is_place_of(self@.records, spelling@, i) by {
                    if 0 <= i < es.len() {
                        assert(es[i].0 == es[i].1.type_id@);
                    }
                }
            } else {
                assert(es[place->0 as int].0 == es[place->0 as int].1.type_id@);
            }
        }
        place
    }

    /// The place of the record of identity `id`, if there is one.
    pub fn index_of(&self, id: &TypeId) -> (place: Option<usize>)
        requires
            self.wf(),
        ensures
            match place {
                Some(i) => is_place_of(self@.records, id@, i as int),
                None => !has_id(self@.records, id@),
            },
    {
        self.find(id.as_str())
    }

    /// The record of identity `id`, if there is one.
    pub fn get(&self, id: &TypeId) -> (record: Option<&RecordInfo>)
        requires
            self.wf(),
        ensures
            match record {
                Some(r) => has_id(self@.records, id@) && r@ == self@.records[place_of(
                    self@.records,
                    id@,
                )],
                None => !has_id(self@.records, id@),
            },
    {
        match self.index_of(id) {
            Some(i) => {
                proof {
                    lemma_place_unique(self@.records, id@, i as int);
                }
                Some(self.record(i))
            },
            None => None,
        }
    }

    /// The types that were asked for.
    pub fn targets(&self) -> (targets: &NameSet)
        requires
            self.wf(),
        ensures
            targets.wf(),
            targets@ == self.target_order(),
    {
        proof {
            lemma_in_order(self.targets@);
        }
        &self.targets
    }

    /// The place of the record of identity `type_id`. Where the type is met
    /// for the first time, its record is made from `record` and put at the
    /// end, with no name yet.
    fn place_for(&mut self, record: &Decl, type_id: &TypeId, kind: RecordKind, size: usize) -> (place:
        usize)
        requires
            old(self).wf(),
        ensures
            final(self).wf(),
            final(self)@.targets == old(self)@.targets,
            is_place_of(final(self)@.records, type_id@, place as int),
            has_id(old(self)@.records, type_id@) ==> final(self)@.records == old(self)@.records
                && place == place_of(old(self)@.records, type_id@),
            !has_id(old(self)@.records, type_id@) ==> place == old(self)@.records.len()
                && final(self)@.records == old(self)@.records.push(
                RecordView {
                    kind,
                    type_id: type_id@,
                    size,
                    aliases: Set::empty(),
                    fields: member_fields(record.children@),
                },
            ),
    {
        let ghost before = self@;
        match self.index_of(type_id) {
            Some(place) => {
                proof {
                    lemma_place_unique(before.records, type_id@, place as int);
                }
                place
            },
            None => {
                let place = map_len(&self.records);
                let info = RecordInfo {
                    kind,
                    type_id: type_id.clone(),
                    size,
                    aliases: NameSet::new(),
                    fields: fields_of(&record.children),
                };
                proof {
                    let es = entries(self.records);
                    assert forall|i: int| 0 <= i < es.len() implies es[i].0 != type_id@ by {
                        assert(is_place_of(before.records, es[i].1.type_id@, i));
                    }
                    assert(info@.aliases =~= Set::<Seq<char>>::empty());
                }
                map_insert(&mut self.records, type_id.to_string(), info);
                proof {
                    assert(self@.records =~= before.records.push(info@));
                    assert forall|i: int, j: int| 0 <= i < j < self@.records.len() implies (
                    #[trigger] self@.records[i]).type_id != (#[trigger] self@.records[j]).type_id by {
                        if j == place {
                            assert(is_place_of(before.records, before.records[i].type_id, i));
                        }
                    }
                    assert forall|k: int| 0 <= k < self.targets@.len() implies has_id(
                        self@.records,
                        #[trigger] self.targets@[k],
                    ) by {
                        let i = place_of(before.records, self.targets@[k]);
                        assert(is_place_of(before.records, self.targets@[k], i));
                        assert(is_place_of(self@.records, self.targets@[k], i));
                    }
                }
                place
            },
        }
    }

    /// Makes the type `type_id`, of which there is a record, a target.
    fn add_target(&mut self, type_id: &TypeId)
        requires
            old(self).wf(),
            has_id(old(self)@.records, type_id@),
        ensures
            final(self).wf(),
            final(self)@.records == old(self)@.records,
            final(self)@.targets == old(self)@.targets.insert(type_id@),
    {
        self.targets.insert(type_id.to_string());
        proof {
            assert forall|k: int| 0 <= k < self.targets@.len() implies has_id(
                self@.records,
                #[trigger] self.targets@[k],
            ) by {
                let t = self.targets@[k];
                assert(self.targets@.to_set().contains(t));
                if t != type_id@ {
                    assert(old(self).targets@.to_set().contains(t));
                    let k0 = choose|k0: int|
                        0 <= k0 < old(self).targets@.len() && old(self).targets@[k0] == t;
                    assert(has_id(self@.records, old(self).targets@[k0]));
                }
            }
        }
    }

    /// Lets the record at `place` go by `name` as well.
    fn add_alias(&mut self, place: usize, name: String)
        requires
            old(self).wf(),
            place < old(self)@.records.len(),
        ensures
            final(self).wf(),
            final(self)@.targets == old(self)@.targets,
            final(self)@.records == old(self)@.records.update(
                place as int,
                RecordView {
                    aliases: old(self)@.records[place as int].aliases.insert(name@),
                    ..old(self)@.records[place as int]
                },
            ),
    {
        let ghost before = self@;
        let ghost es = entries(self.records);
        let slot = map_at_mut(&mut self.records, place);
        slot.aliases.insert(name);
        proof {
            let after = entries(self.records);
            assert(after[place as int].1.type_id == es[place as int].1.type_id);
            assert(self@.records =~= before.records.update(
                place as int,
                RecordView {
                    aliases: before.records[place as int].aliases.insert(name@),
                    ..before.records[place as int]
                },
            ));
            assert forall|k: int| 0 <= k < self.targets@.len() implies has_id(
                self@.records,
                #[trigger] self.targets@[k],
            ) by {
                let t = self.targets@[k];
                let i = place_of(before.records, t);
                assert(is_place_of(before.records, t, i));
                assert(is_place_of(self@.records, t, i));
            }
        }
    }

    /// Registers `record` under `name`. Nothing happens unless the record is
    /// a struct, union or enum whose type and size are known. A type met for
    /// the first time gets its record; a known one only gains the name. The
    /// type becomes a target if `name` is one of `filters`.
    pub fn register(&mut self, record: &Decl, name: String, filters: &Vec<String>)
        requires
            old(self).wf(),
        ensures
            final(self).wf(),
            final(self)@ == match registration_of(*record, name@) {
                Some(r) => enroll(old(self)@, r, texts(filters@).to_set()),
                None => old(self)@,
            },
    {
        let ty = match &record.ty {
            Some(ty) => ty,
            None => {
                return ;
            },
        };
        let size = match ty.size {
            Some(size) => size,
            None => {
                return ;
            },
        };
        let kind = match RecordKind::from_decl(record.kind) {
            Some(kind) => kind,
            None => {
                return ;
            },
        };
        let type_id = ty.type_id();
        let ghost before = self@;
        let place = self.place_for(record, &type_id, kind, size);
        if holds_name(filters, &name) {
            self.add_target(&type_id);
        }
        self.add_alias(place, name);
        proof {
            let r = registration_of(*record, name@)->0;
            let after = enroll(before, r, texts(filters@).to_set());
            if !has_id(before.records, r.type_id) {
                assert(Set::<Seq<char>>::empty().insert(name@) =~= set![name@]);
            }
            assert(self@.records =~= after.records);
        }
    }

    /// Looks at one declaration: where it contributes a record, the record
    /// is registered under the name it goes by.
    pub fn note(&mut self, node: &Decl, filters: &Vec<String>)
        requires
            old(self).wf(),
        ensures
            final(self).wf(),
            final(self)@ == noted(old(self)@, *node, texts(filters@).to_set()),
    {
        match find_record_def(node) {
            Some((record, name)) => {
                self.register(record, name, filters);
            },
            None => {},
        }
    }

    /// Looks at every declaration below `root`, each before its children.
    pub fn scan(&mut self, root: &Decl, filters: &Vec<String>)
        requires
            old(self).wf(),
        ensures
            final(self).wf(),
            final(self)@ == enroll_all(
                old(self)@,
                registrations(*root, 0),
                texts(filters@).to_set(),
            ),
        decreases root,
    {
        let ghost fs = texts(filters@).to_set();
        let mut i: usize = 0;
        while i < root.children.len()
            invariant
                i <= root.children.len(),
                self.wf(),
                fs == texts(filters@).to_set(),
                enroll_all(self@, registrations(*root, i as int), fs) == enroll_all(
                    old(self)@,
                    registrations(*root, 0),
                    fs,
                ),
            decreases root.children.len() - i,
        {
            let child = &root.children[i];
            let ghost start = self@;
            proof {
                let own = own_registration(*child);
                let below = registrations(*child, 0);
                let rest = registrations(*root, i + 1);
                assert(registrations(*root, i as int) == own + below + rest);
                lemma_enroll_all_concat(start, own + below, rest, fs);
                lemma_enroll_all_concat(start, own, below, fs);
                assert(enroll_all(start, own, fs) == noted(start, *child, fs)) by {
                    reveal_with_fuel(enroll_all, 2);
                    if own.len() > 0 {
                        assert(own.drop_last() =~= Seq::<Registration>::empty());
                    }
                }
            }
            self.note(child, filters);
            self.scan(child, filters);
            i += 1;
        }
    }
}

/// The names under which `rs` registers the type `id`.
pub open spec fn names_for(rs: Seq<Registration>, id: Seq<char>) -> Set<Seq<char>> {
    Set::new(
        |name: Seq<char>|
            exists|k: int| 0 <= k < rs.len() && (#[trigger] rs[k]).type_id == id && rs[k].name == name,
    )
}

/// Whether one of `rs` registers the type `id`.
pub open spec fn registers(rs: Seq<Registration>, id: Seq<char>) -> bool {
    exists|k: int| 0 <= k < rs.len() && (#[trigger] rs[k]).type_id == id
}

/// The names that the record of identity `id` goes by; none where no such
/// record is known.
pub open spec fn aliases_of(records: Seq<RecordView>, id: Seq<char>) -> Set<Seq<char>> {
    if has_id(records, id) {
        records[place_of(records, id)].aliases
    } else {
        Set::empty()
    }
}

/// Whatever is registered later, a record that is known stays at its place
/// with its identity, kind, size and fields; it can only gain names. No
/// identity comes to occur twice.
pub proof fn lemma_first_discovery_wins(
    v: RegistryView,
    rs: Seq<Registration>,
    filters: Set<Seq<char>>,
    i: int,
)
    requires
        distinct_ids(v.records),
        0 <= i < v.records.len(),
    ensures
        distinct_ids(enroll_all(v, rs, filters).records),
        i < enroll_all(v, rs, filters).records.len(),
        enroll_all(v, rs, filters).records[i].type_id == v.records[i].type_id,
        enroll_all(v, rs, filters).records[i].kind == v.records[i].kind,
        enroll_all(v, rs, filters).records[i].size == v.records[i].size,
        enroll_all(v, rs, filters).records[i].fields == v.records[i].fields,
        v.records[i].aliases.subset_of(enroll_all(v, rs, filters).records[i].aliases),
    decreases rs.len(),
{
    if rs.len() > 0 {
        lemma_first_discovery_wins(v, rs.drop_last(), filters, i);
        lemma_enroll(enroll_all(v, rs.drop_last(), filters), rs.last(), filters);
    }
}

/// One registration: the record of the registered type is there afterwards
/// and goes by the name; every other record is as it was.
pub proof fn lemma_enroll(v: RegistryView, r: Registration, filters: Set<Seq<char>>)
    requires
        distinct_ids(v.records),
    ensures
        distinct_ids(enroll(v, r, filters).records),
        enroll(v, r, filters).records.len() >= v.records.len(),
        forall|i: int|
            0 <= i < v.records.len() ==> {
                let before = #[trigger] v.records[i];
                let after = enroll(v, r, filters).records[i];
                &&& after.type_id == before.type_id
                &&& after.kind == before.kind
                &&& after.size == before.size
                &&& after.fields == before.fields
                &&& after.aliases == if before.type_id == r.type_id {
                    before.aliases.insert(r.name)
                } else {
                    before.aliases
                }
            },
        forall|id: Seq<char>|
            has_id(enroll(v, r, filters).records, id) <==> has_id(v.records, id) || id == r.type_id,
        forall|id: Seq<char>| #[trigger]
            aliases_of(enroll(v, r, filters).records, id) == if id == r.type_id {
                aliases_of(v.records, id).insert(r.name)
            } else {
                aliases_of(v.records, id)
            },
{
    let after = enroll(v, r, filters).records;
    let n = v.records.len() as int;
    if has_id(v.records, r.type_id) {
        let p = place_of(v.records, r.type_id);
        assert(is_place_of(v.records, r.type_id, p));
        assert forall|i: int, j: int| 0 <= i < j < after.len() implies (#[trigger] after[i]).type_id
            != (#[trigger] after[j]).type_id by {
            assert(v.records[i].type_id != v.records[j].type_id);
        }
        assert forall|i: int| 0 <= i < n implies (#[trigger] v.records[i]).type_id == r.type_id
            <==> i == p by {
            if v.records[i].type_id == r.type_id {
                lemma_place_unique(v.records, r.type_id, i);
            }
        }
    } else {
        assert forall|i: int, j: int| 0 <= i < j < after.len() implies (#[trigger] after[i]).type_id
            != (#[trigger] after[j]).type_id by {
            if j == n {
                assert(is_place_of(v.records, v.records[i].type_id, i));
            } else {
                assert(v.records[i].type_id != v.records[j].type_id);
            }
        }
        assert forall|i: int| 0 <= i < n implies (#[trigger] v.records[i]).type_id
            != r.type_id by {
            assert(is_place_of(v.records, v.records[i].type_id, i));
        }
        assert(is_place_of(after, r.type_id, n));
    }
    assert forall|id: Seq<char>|
        has_id(after, id) <==> has_id(v.records, id) || id == r.type_id by {
        if has_id(after, id) {
            let i = place_of(after, id);
            assert(is_place_of(after, id, i));
            if i < n {
                assert(is_place_of(v.records, id, i));
            }
        }
        if has_id(v.records, id) {
            let i = place_of(v.records, id);
            assert(is_place_of(v.records, id, i));
            assert(is_place_of(after, id, i));
        }
        if id == r.type_id && !has_id(v.records, id) {
            assert(is_place_of(after, id, n));
        }
    }
    assert forall|id: Seq<char>| #[trigger]
        aliases_of(after, id) == if id == r.type_id {
            aliases_of(v.records, id).insert(r.name)
        } else {
            aliases_of(v.records, id)
        } by {
        if has_id(v.records, id) {
            let i = place_of(v.records, id);
            assert(is_place_of(v.records, id, i));
            assert(is_place_of(after, id, i));
            lemma_place_unique(after, id, i);
        } else if id == r.type_id {
            assert(is_place_of(after, id, n));
            lemma_place_unique(after, id, n);
            assert(set![r.name] =~= Set::<Seq<char>>::empty().insert(r.name));
        }
    }
}

/// After the registrations `rs`, a type has a record exactly if it had one
/// before or one of `rs` registers it; it has one record only; and that
/// record goes by the names it had and by every name under which `rs`
/// registers the type, and by no other.
pub proof fn lemma_aliases(
    v: RegistryView,
    rs: Seq<Registration>,
    filters: Set<Seq<char>>,
    id: Seq<char>,
)
    requires
        distinct_ids(v.records),
    ensures
        distinct_ids(enroll_all(v, rs, filters).records),
        has_id(enroll_all(v, rs, filters).records, id) <==> has_id(v.records, id) || registers(
            rs,
            id,
        ),
        aliases_of(enroll_all(v, rs, filters).records, id) == aliases_of(v.records, id).union(
            names_for(rs, id),
        ),
    decreases rs.len(),
{
    if rs.len() == 0 {
        assert(aliases_of(v.records, id).union(names_for(rs, id)) =~= aliases_of(v.records, id));
    } else {
        let init = rs.drop_last();
        let r = rs.last();
        let mid = enroll_all(v, init, filters);
        lemma_aliases(v, init, filters, id);
        lemma_enroll(mid, r, filters);
        assert(aliases_of(enroll(mid, r, filters).records, id) == if id == r.type_id {
            aliases_of(mid.records, id).insert(r.name)
        } else {
            aliases_of(mid.records, id)
        });
        assert(registers(rs, id) <==> registers(init, id) || r.type_id == id) by {
            if registers(init, id) {
                let k = choose|k: int| 0 <= k < init.len() && (#[trigger] init[k]).type_id == id;
                assert(rs[k].type_id == id);
            }
            if r.type_id == id {
                assert(rs[rs.len() - 1].type_id == id);
            }
            if registers(rs, id) {
                let k = choose|k: int| 0 <= k < rs.len() && (#[trigger] rs[k]).type_id == id;
                if k < init.len() {
                    assert(init[k].type_id == id);
                }
            }
        }
        assert(names_for(rs, id) =~= if id == r.type_id {
            names_for(init, id).insert(r.name)
        } else {
            names_for(init, id)
        }) by {
            assert forall|name: Seq<char>| names_for(rs, id).contains(name) <==> (names_for(
                init,
                id,
            ).contains(name) || (id == r.type_id && name == r.name)) by {
                if names_for(init, id).contains(name) {
                    let k = choose|k: int|
                        0 <= k < init.len() && (#[trigger] init[k]).type_id == id && init[k].name
                            == name;
                    assert(rs[k].type_id == id && rs[k].name == name);
                }
                if id == r.type_id && name == r.name {
                    assert(rs[rs.len() - 1].type_id == id && rs[rs.len() - 1].name == name);
                }
                if names_for(rs, id).contains(name) {
                    let k = choose|k: int|
                        0 <= k < rs.len() && (#[trigger] rs[k]).type_id == id && rs[k].name
                            == name;
                    if k < init.len() {
                        assert(init[k].type_id == id && init[k].name == name);
                    }
                }
            }
        }
        assert(aliases_of(enroll_all(v, rs, filters).records, id) =~= aliases_of(
            v.records,
            id,
        ).union(names_for(rs, id)));
    }
}

/// The types that `rs` registers under a name that was asked for.
pub open spec fn asked_for(rs: Seq<Registration>, filters: Set<Seq<char>>) -> Set<Seq<char>> {
    Set::new(
        |id: Seq<char>|
            exists|k: int|
                0 <= k < rs.len() && (#[trigger] rs[k]).type_id == id && filters.contains(
                    rs[k].name,
                ),
    )
}

/// After the registrations `rs`, the targets are those that were targets
/// before and the types that `rs` registers under one of the names that were
/// asked for; each of them has a record, if the old ones had.
pub proof fn lemma_targets(v: RegistryView, rs: Seq<Registration>, filters: Set<Seq<char>>)
    requires
        distinct_ids(v.records),
    ensures
        enroll_all(v, rs, filters).targets == v.targets.union(asked_for(rs, filters)),
        (forall|t: Seq<char>| v.targets.contains(t) ==> has_id(v.records, t)) ==> (forall|
            t: Seq<char>,
        |
            enroll_all(v, rs, filters).targets.contains(t) ==> has_id(
                enroll_all(v, rs, filters).records,
                t,
            )),
    decreases rs.len(),
{
    if rs.len() == 0 {
        assert(v.targets.union(asked_for(rs, filters)) =~= v.targets);
    } else {
        let init = rs.drop_last();
        let r = rs.last();
        let mid = enroll_all(v, init, filters);
        lemma_targets(v, init, filters);
        lemma_aliases(v, init, filters, r.type_id);
        lemma_enroll(mid, r, filters);
        assert forall|id: Seq<char>| asked_for(rs, filters).contains(id) <==> (asked_for(
            init,
            filters,
        ).contains(id) || (id == r.type_id && filters.contains(r.name))) by {
            if asked_for(init, filters).contains(id) {
                let k = choose|k: int|
                    0 <= k < init.len() && (#[trigger] init[k]).type_id == id && filters.contains(
                        init[k].name,
                    );
                assert(rs[k].type_id == id && filters.contains(rs[k].name));
            }
            if id == r.type_id && filters.contains(r.name) {
                assert(rs[rs.len() - 1].type_id == id);
            }
            if asked_for(rs, filters).contains(id) {
                let k = choose|k: int|
                    0 <= k < rs.len() && (#[trigger] rs[k]).type_id == id && filters.contains(
                        rs[k].name,
                    );
                if k < init.len() {
                    assert(init[k].type_id == id && filters.contains(init[k].name));
                }
            }
        }
        assert(enroll_all(v, rs, filters).targets =~= v.targets.union(asked_for(rs, filters)));
    }
}

/// Among records of distinct identities, an identity has one place.
pub proof fn lemma_place_unique(records: Seq<RecordView>, id: Seq<char>, i: int)
    requires
        distinct_ids(records),
        is_place_of(records, id, i),
    ensures
        has_id(records, id),
        place_of(records, id) == i,
{
    let j = place_of(records, id);
    assert(is_place_of(records, id, j));
    if i < j {
        assert(records[i].type_id != records[j].type_id);
    } else if j < i {
        assert(records[j].type_id != records[i].type_id);
    }
}

} // verus!
