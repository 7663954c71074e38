//! From a tree of declarations to the lines of the report.

use crate::closure::{dependency_places, lemma_roots_valid, places, root_places};
use crate::decl::Decl;
use crate::graph::{in_closure, is_dependency_order, lemma_listed_is_record, lemma_reaches_self};
use crate::names::{in_order, lemma_ascending_distinct, texts};
use crate::registry::{enroll_all, registrations, Registry, RegistryView};
use crate::render::{record_text, render_record};
use crate::walk::walk_order;
use vstd::prelude::*;

verus! {

/// Why there is no report.
#[derive(Debug, Clone, Copy, PartialEq, Eq)]
pub enum ExtractError {
    /// No name was asked for.
    NoFilters,
    /// No record goes by any of the names that were asked for.
    NoTargets,
    /// The walk from the targets listed nothing.
    NothingFound,
}

impl ExtractError {
    /// The error in words.
    pub fn message(&self) -> (text: &'static str)
        ensures
            text@ == match self {
                ExtractError::NoFilters => "Need a name filter"@,
                ExtractError::NoTargets => "No record matches the name filters"@,
                ExtractError::NothingFound => "Failed to find any names"@,
            },
    {
        match self {
            ExtractError::NoFilters => "Need a name filter",
            ExtractError::NoTargets => "No record matches the name filters",
            ExtractError::NothingFound => "Failed to find any names",
        }
    }
}

/// A registry that holds nothing.
pub open spec fn empty_registry() -> RegistryView {
    RegistryView { records: Seq::empty(), targets: Set::empty() }
}

/// The registry after every declaration below `unit` was looked at.
pub open spec fn scanned(unit: Decl, filters: Seq<String>) -> RegistryView {
    enroll_all(empty_registry(), registrations(unit, 0), texts(filters).to_set())
}

/// The places of the targets of a registry and of every record they lead
/// to, dependencies first.
pub open spec fn order_of(v: RegistryView) -> Seq<int> {
    walk_order(v.records, root_places(v.records, in_order(v.targets)))
}

/// The report of a registry: one line for each record of `order_of`.
pub open spec fn report_lines(v: RegistryView) -> Seq<Seq<char>> {
    order_of(v).map_values(|p: int| record_text(v.records[p]))
}

/// Names must have been asked for.
pub fn check_filters(filters: &Vec<String>) -> (checked: Result<(), ExtractError>)
    ensures
        checked == if filters@.len() == 0 {
            Err::<(), ExtractError>(ExtractError::NoFilters)
        } else {
            Ok::<(), ExtractError>(())
        },
{
    if filters.len() == 0 {
        Err(ExtractError::NoFilters)
    } else {
        Ok(())
    }
}

/// Looks at every declaration below `unit` and collects the records.
pub fn build_registry(unit: &Decl, filters: &Vec<String>) -> (registry: Registry)
    ensures
        registry.wf(),
        registry@ == scanned(*unit, filters@),
{
    let mut registry = Registry::new();
    assert(registry@ == empty_registry());
    registry.scan(unit, filters);
    registry
}

/// The lines of the report: the targets and every record they lead to,
/// dependencies first. There is none without a target.
pub fn report(registry: &Registry) -> (lines: Result<Vec<String>, ExtractError>)
    requires
        registry.wf(),
    ensures
        match lines {
            Ok(lines) => registry@.targets.len() > 0 && texts(lines@) == report_lines(registry@),
            Err(e) => e == ExtractError::NoTargets && registry@.targets.len() == 0,
        },
{
    proof {
        registry.lemma_wf();
        lemma_ascending_distinct(registry.target_order());
        registry.target_order().unique_seq_to_set();
    }
    if registry.targets().is_empty() {
        return Err(ExtractError::NoTargets);
    }
    let order = dependency_places(registry);
    proof {
        let records = registry@.records;
        let roots = root_places(records, registry.target_order());
        lemma_roots_valid(records, registry.target_order());
        lemma_reaches_self(records, roots[0]);
        assert(roots.to_set().contains(roots[0]));
        assert(in_closure(records, roots.to_set(), roots[0]));
        assert(places(order@).contains(roots[0]));
    }
    if order.len() == 0 {
        return Err(ExtractError::NothingFound);
    }
    let mut lines: Vec<String> = Vec::new();
    let mut k: usize = 0;
    while k < order.len()
        invariant
            k <= order@.len(),
            lines@.len() == k,
            is_dependency_order(
                registry@.records,
                root_places(registry@.records, registry.target_order()).to_set(),
                places(order@),
            ),
            forall|i: int|
                0 <= i < k ==> (#[trigger] lines@[i])@ == record_text(
                    registry@.records[order@[i] as int],
                ),
        decreases order@.len() - k,
    {
        proof {
            lemma_listed_is_record(
                registry@.records,
                root_places(registry@.records, registry.target_order()).to_set(),
                places(order@),
                k as int,
            );
        }
        lines.push(render_record(registry.record(order[k])));
        k += 1;
    }
    assert(texts(lines@) =~= report_lines(registry@));
    Ok(lines)
}

/// The whole way: from the declarations below `unit` and the names that
/// were asked for to the lines of the report.
pub fn extract(unit: &Decl, filters: &Vec<String>) -> (lines: Result<Vec<String>, ExtractError>)
    ensures
        match lines {
            Ok(lines) => filters@.len() > 0 && scanned(*unit, filters@).targets.len() > 0 && texts(
                lines@,
            ) == report_lines(scanned(*unit, filters@)),
            Err(ExtractError::NoFilters) => filters@.len() == 0,
            Err(ExtractError::NoTargets) => filters@.len() > 0 && scanned(
                *unit,
                filters@,
            ).targets.len() == 0,
            Err(ExtractError::NothingFound) => false,
        },
{
    match check_filters(filters) {
        Err(e) => {
            return Err(e);
        },
        Ok(_) => {},
    }
    let registry = build_registry(unit, filters);
    report(&registry)
}

} // verus!
