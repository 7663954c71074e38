//! The dependencies among the records of a registry, as a graph on their
//! places, and what an order of the records owes to it.

use crate::record::RecordView;
use crate::registry::is_place_of;
use vstd::prelude::*;

verus! {

/// Field `k` of the record at place `x` depends on the record at place `y`.
pub open spec fn leads_to(records: Seq<RecordView>, x: int, k: int, y: int) -> bool {
    &&& 0 <= x < records.len()
    &&& 0 <= k < records[x].fields.len()
    &&& is_place_of(records, records[x].fields[k].underlying, y)
}

/// The record at place `x` depends on the record at place `y`.
pub open spec fn edge(records: Seq<RecordView>, x: int, y: int) -> bool {
    exists|k: int| leads_to(records, x, k, y)
}

/// A sequence of places, each record depending on the next.
pub open spec fn is_chain(records: Seq<RecordView>, path: Seq<int>) -> bool {
    &&& path.len() > 0
    &&& 0 <= path[0] < records.len()
    &&& forall|k: int| 0 <= k < path.len() - 1 ==> edge(records, #[trigger] path[k], path[k + 1])
}

/// The record at `y` is the record at `x` or one that it depends on,
/// directly or through others.
pub open spec fn reaches(records: Seq<RecordView>, x: int, y: int) -> bool {
    exists|path: Seq<int>| #[trigger] is_chain(records, path) && path[0] == x && path.last() == y
}

/// The record at `y` is a root or one that a root leads to.
pub open spec fn in_closure(records: Seq<RecordView>, roots: Set<int>, y: int) -> bool {
    exists|r: int| roots.contains(r) && #[trigger] reaches(records, r, y)
}

/// The places of the roots are places of records, and none occurs twice.
pub open spec fn valid_roots(records: Seq<RecordView>, roots: Seq<int>) -> bool {
    &&& roots.no_duplicates()
    &&& forall|i: int| 0 <= i < roots.len() ==> 0 <= #[trigger] roots[i] < records.len()
}

/// The dependency of `x` on `y` is one that the walk honours by listing `y`
/// first: `y` does not lead back to `x`, `y` is not a root, and no other
/// record that leads to `x` depends on `y` as well.
pub open spec fn honoured(records: Seq<RecordView>, roots: Set<int>, x: int, y: int) -> bool {
    &&& edge(records, x, y)
    &&& x != y
    &&& !reaches(records, y, x)
    &&& !roots.contains(y)
    &&& forall|z: int| z != x && #[trigger] edge(records, z, y) ==> !reaches(records, z, x)
}

/// What the walk owes: `order` lists the roots and every record they lead
/// to, each once; a dependency that is honoured comes before the record
/// that has it; and every record but a root comes before one that depends on
/// it.
pub open spec fn is_dependency_order(
    records: Seq<RecordView>,
    roots: Set<int>,
    order: Seq<int>,
) -> bool {
    &&& order.no_duplicates()
    &&& forall|x: int| order.contains(x) <==> in_closure(records, roots, x)
    &&& forall|a: int, y: int|
        0 <= a < order.len() && #[trigger] honoured(records, roots, order[a], y) ==> exists|
            b: int,
        |
            0 <= b < a && order[b] == y
    &&& forall|b: int|
        0 <= b < order.len() && !roots.contains(#[trigger] order[b]) ==> exists|a: int|
            b < a < order.len() && edge(records, #[trigger] order[a], order[b])
}

/// A record reaches itself.
pub proof fn lemma_reaches_self(records: Seq<RecordView>, x: int)
    requires
        0 <= x < records.len(),
    ensures
        reaches(records, x, x),
{
    let path = seq![x];
    assert(is_chain(records, path));
    assert(path[0] == x && path.last() == x);
}

/// What reaches a record reaches what the record depends on.
pub proof fn lemma_reaches_step(records: Seq<RecordView>, x: int, y: int, z: int)
    requires
        reaches(records, x, y),
        edge(records, y, z),
    ensures
        reaches(records, x, z),
{
    let path = choose|path: Seq<int>|
        #[trigger] is_chain(records, path) && path[0] == x && path.last() == y;
    let longer = path.push(z);
    assert forall|k: int| 0 <= k < longer.len() - 1 implies edge(
        records,
        #[trigger] longer[k],
        longer[k + 1],
    ) by {
        if k < path.len() - 1 {
            assert(edge(records, path[k], path[k + 1]));
        }
    }
    assert(is_chain(records, longer));
    assert(longer[0] == x && longer.last() == z);
}

/// What a record in the closure depends on is in the closure.
pub proof fn lemma_closure_step(records: Seq<RecordView>, roots: Set<int>, y: int, z: int)
    requires
        in_closure(records, roots, y),
        edge(records, y, z),
    ensures
        in_closure(records, roots, z),
{
    let r = choose|r: int| roots.contains(r) && #[trigger] reaches(records, r, y);
    lemma_reaches_step(records, r, y, z);
}

/// The place `x` occurs in `order`, and only once.
pub open spec fn listed_once(order: Seq<int>, x: int) -> bool {
    exists|a: int|
        0 <= a < order.len() && #[trigger] order[a] == x && forall|b: int|
            0 <= b < order.len() && #[trigger] order[b] == x ==> b == a
}

/// Both places occur in `order`, `y` before `x`.
pub open spec fn listed_before(order: Seq<int>, y: int, x: int) -> bool {
    exists|b: int, a: int| 0 <= b < a < order.len() && #[trigger] order[b] == y && #[trigger] order[a] == x
}

/// Every record that a root leads to, through records of the registry, is
/// listed, and listed once.
pub proof fn lemma_reachable_listed_once(
    records: Seq<RecordView>,
    roots: Set<int>,
    order: Seq<int>,
    r: int,
    x: int,
)
    requires
        is_dependency_order(records, roots, order),
        roots.contains(r),
        reaches(records, r, x),
    ensures
        listed_once(order, x),
{
    assert(in_closure(records, roots, x));
    assert(order.contains(x));
    let a = choose|a: int| 0 <= a < order.len() && order[a] == x;
    assert(order[a] == x);
}

/// A record of the closure that depends on itself is listed once, like any
/// other.
pub proof fn lemma_self_reference_listed_once(
    records: Seq<RecordView>,
    roots: Set<int>,
    order: Seq<int>,
    x: int,
)
    requires
        is_dependency_order(records, roots, order),
        in_closure(records, roots, x),
        edge(records, x, x),
    ensures
        listed_once(order, x),
{
    let r = choose|r: int| roots.contains(r) && #[trigger] reaches(records, r, x);
    lemma_reachable_listed_once(records, roots, order, r, x);
}

/// Along a chain of dependencies that the walk honours, the last record is
/// listed before the first.
pub proof fn lemma_dependencies_first(
    records: Seq<RecordView>,
    roots: Set<int>,
    order: Seq<int>,
    path: Seq<int>,
)
    requires
        is_dependency_order(records, roots, order),
        path.len() >= 2,
        order.contains(path[0]),
        forall|k: int|
            0 <= k < path.len() - 1 ==> honoured(records, roots, #[trigger] path[k], path[k + 1]),
    ensures
        listed_before(order, path.last(), path[0]),
    decreases path.len(),
{
    let a = choose|a: int| 0 <= a < order.len() && order[a] == path[0];
    assert(honoured(records, roots, path[0], path[0int + 1]));
    let b = choose|b: int| 0 <= b < a && order[b] == path[1];
    if path.len() == 2 {
        assert(order[b] == path.last() && order[a] == path[0]);
    } else {
        let rest = path.drop_first();
        assert forall|k: int| 0 <= k < rest.len() - 1 implies honoured(
            records,
            roots,
            #[trigger] rest[k],
            rest[k + 1],
        ) by {
            assert(honoured(records, roots, path[k + 1], path[k + 1 + 1]));
        }
        assert(order.contains(rest[0]));
        lemma_dependencies_first(records, roots, order, rest);
        let (d, c) = choose|d: int, c: int|
            0 <= d < c < order.len() && #[trigger] order[d] == rest.last() && #[trigger] order[c]
                == rest[0];
        assert(c == b);
        assert(order[d] == path.last() && order[a] == path[0]);
    }
}

/// Every record that is listed, a root apart, is listed before a record
/// that depends on it.
pub proof fn lemma_before_a_dependent(
    records: Seq<RecordView>,
    roots: Set<int>,
    order: Seq<int>,
    y: int,
)
    requires
        is_dependency_order(records, roots, order),
        order.contains(y),
        !roots.contains(y),
    ensures
        exists|x: int| #[trigger] edge(records, x, y) && listed_before(order, y, x),
{
    let b = choose|b: int| 0 <= b < order.len() && order[b] == y;
    let a = choose|a: int| b < a < order.len() && edge(records, #[trigger] order[a], order[b]);
    let x = order[a];
    assert(order[b] == y && order[a] == x);
    assert(edge(records, x, y) && listed_before(order, y, x));
}

/// A listed record that only one other record depends on, and that is no
/// root, is listed before that record.
pub proof fn lemma_sole_dependent(
    records: Seq<RecordView>,
    roots: Set<int>,
    order: Seq<int>,
    x: int,
    y: int,
)
    requires
        is_dependency_order(records, roots, order),
        order.contains(y),
        !roots.contains(y),
        forall|z: int| #[trigger] edge(records, z, y) ==> z == x,
    ensures
        listed_before(order, y, x),
{
    lemma_before_a_dependent(records, roots, order, y);
}

/// Every place that the walk lists is the place of a record.
pub proof fn lemma_listed_is_record(
    records: Seq<RecordView>,
    roots: Set<int>,
    order: Seq<int>,
    k: int,
)
    requires
        is_dependency_order(records, roots, order),
        0 <= k < order.len(),
    ensures
        0 <= order[k] < records.len(),
{
    let x = order[k];
    assert(order.contains(x));
    let r = choose|r: int| roots.contains(r) && #[trigger] reaches(records, r, x);
    let path = choose|path: Seq<int>|
        #[trigger] is_chain(records, path) && path[0] == r && path.last() == x;
    if path.len() > 1 {
        let j = path.len() - 2;
        assert(edge(records, path[j], path[j + 1]));
        let f = choose|f: int| leads_to(records, path[j], f, x);
        assert(leads_to(records, path[j], f, x));
    }
}

} // verus!
