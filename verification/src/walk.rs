//! The walk over the records, as a mathematical model.
//!
//! Fields may lead back to their own record, so the walk keeps an explicit
//! stack and three marks per record: discovered (it is or was on the
//! stack), visited (its fields were looked at) and processed (it is in the
//! result). This module says what one step does and proves what holds of
//! the walk at every moment.

use crate::graph::{
    edge, honoured, in_closure, is_chain, is_dependency_order, leads_to, lemma_closure_step,
    lemma_reaches_self, lemma_reaches_step, reaches, valid_roots,
};
use crate::record::{FieldView, RecordView};
use crate::registry::{distinct_ids, has_id, is_place_of, lemma_place_unique, place_of};
use vstd::prelude::*;

verus! {

/// The state of the walk.
pub struct Walk {
    /// The places still to be looked at, the next one last.
    pub stack: Seq<int>,
    pub discovered: Set<int>,
    pub visited: Set<int>,
    pub processed: Set<int>,
    /// The result so far.
    pub order: Seq<int>,
}

/// The place of the record that a field depends on, if the registry holds
/// that record.
pub open spec fn dependency(records: Seq<RecordView>, field: FieldView) -> Option<int> {
    if has_id(records, field.underlying) {
        Some(place_of(records, field.underlying))
    } else {
        None
    }
}

/// The walk before its first step: the roots are on the stack, the last
/// root on top, and discovered.
pub open spec fn start(roots: Seq<int>) -> Walk {
    Walk {
        stack: roots,
        discovered: roots.to_set(),
        visited: Set::empty(),
        processed: Set::empty(),
        order: Seq::empty(),
    }
}

/// Goes through `fields` from field `k` on and pushes every dependency that
/// is not yet discovered.
pub open spec fn discover(records: Seq<RecordView>, fields: Seq<FieldView>, k: int, w: Walk) -> Walk
    decreases fields.len() - k,
{
    if k < 0 || k >= fields.len() {
        w
    } else {
        let next = match dependency(records, fields[k]) {
            Some(y) => if w.discovered.contains(y) {
                w
            } else {
                Walk { stack: w.stack.push(y), discovered: w.discovered.insert(y), ..w }
            },
            None => w,
        };
        discover(records, fields, k + 1, next)
    }
}

/// One step of the walk. The top of the stack is taken off. If it was not
/// visited, it is marked, put back, and its dependencies are pushed on top
/// of it. If it was, its dependencies have been dealt with, and it goes to
/// the result.
pub open spec fn step(records: Seq<RecordView>, w: Walk) -> Walk {
    if w.stack.len() == 0 {
        w
    } else {
        let top = w.stack.last();
        if !w.visited.contains(top) {
            discover(records, records[top].fields, 0, Walk { visited: w.visited.insert(top), ..w })
        } else if !w.processed.contains(top) {
            Walk {
                stack: w.stack.drop_last(),
                processed: w.processed.insert(top),
                order: w.order.push(top),
                ..w
            }
        } else {
            Walk { stack: w.stack.drop_last(), ..w }
        }
    }
}

/// The walk after at most `fuel` steps from `w`; it stops when the stack is
/// empty.
pub open spec fn run(records: Seq<RecordView>, w: Walk, fuel: nat) -> Walk
    decreases fuel,
{
    if fuel == 0 || w.stack.len() == 0 {
        w
    } else {
        run(records, step(records, w), (fuel - 1) as nat)
    }
}

/// The order in which the walk from `roots` lists the records. Every
/// record is taken off the stack at most twice, so twice as many steps as
/// there are records are enough.
pub open spec fn walk_order(records: Seq<RecordView>, roots: Seq<int>) -> Seq<int> {
    run(records, start(roots), 2 * records.len()).order
}

/// The number of steps that the walk may still take.
pub open spec fn budget(records: Seq<RecordView>, w: Walk) -> int {
    2 * records.len() - w.visited.len() - w.processed.len()
}

/// What holds of the walk between two steps.
pub closed spec fn walk_inv(records: Seq<RecordView>, roots: Seq<int>, w: Walk) -> bool {
    steady(records, roots, w) && closed_upto(records, w, -1, 0)
}

/// The dependencies of the visited records are discovered; for the record
/// at `x`, only those of its fields before `k`.
spec fn closed_upto(records: Seq<RecordView>, w: Walk, x: int, k: int) -> bool {
    forall|v: int, j: int, y: int|
        w.visited.contains(v) && #[trigger] leads_to(records, v, j, y) && (v != x || j < k)
            ==> w.discovered.contains(y)
}

/// The place at `q` of the stack is there for a reason: it is a root, or a
/// visited record below it depends on it.
spec fn called_for(records: Seq<RecordView>, roots: Seq<int>, w: Walk, q: int) -> bool {
    roots.to_set().contains(w.stack[q]) || exists|p: int|
        0 <= p < q && w.visited.contains(#[trigger] w.stack[p]) && edge(
            records,
            w.stack[p],
            w.stack[q],
        )
}

/// The record listed at `b` is a root, or a record that depends on it is
/// listed behind it or is visited and still on the stack.
spec fn awaited(records: Seq<RecordView>, roots: Seq<int>, w: Walk, b: int) -> bool {
    ||| roots.to_set().contains(w.order[b])
    ||| exists|a: int| b < a < w.order.len() && edge(records, #[trigger] w.order[a], w.order[b])
    ||| exists|p: int|
        0 <= p < w.stack.len() && w.visited.contains(#[trigger] w.stack[p]) && edge(
            records,
            w.stack[p],
            w.order[b],
        )
}

/// What holds of the walk at every moment, also while the dependencies of
/// a record are being pushed.
spec fn steady(records: Seq<RecordView>, roots: Seq<int>, w: Walk) -> bool {
    &&& w.discovered.finite() && w.visited.finite() && w.processed.finite()
    &&& forall|x: int| w.discovered.contains(x) ==> 0 <= x < records.len()
    &&& forall|x: int| w.visited.contains(x) ==> w.discovered.contains(x)
    &&& forall|x: int| w.processed.contains(x) ==> w.visited.contains(x)
    &&& forall|q: int|
        0 <= q < w.stack.len() ==> w.discovered.contains(#[trigger] w.stack[q])
            && !w.processed.contains(w.stack[q])
    &&& w.stack.no_duplicates()
    &&& forall|x: int|
        w.discovered.contains(x) && !w.processed.contains(x) ==> w.stack.contains(x)
    &&& w.order.no_duplicates()
    &&& forall|x: int| w.order.contains(x) <==> w.processed.contains(x)
    &&& forall|i: int| 0 <= i < roots.len() ==> w.discovered.contains(#[trigger] roots[i])
    &&& forall|x: int| w.discovered.contains(x) ==> in_closure(records, roots.to_set(), x)
    &&& forall|p: int, q: int|
        0 <= p < q < w.stack.len() && w.visited.contains(#[trigger] w.stack[p]) ==> reaches(
            records,
            w.stack[p],
            #[trigger] w.stack[q],
        )
    &&& forall|q: int| 0 <= q < w.stack.len() ==> #[trigger] called_for(records, roots, w, q)
    &&& forall|a: int, y: int|
        0 <= a < w.order.len() && #[trigger] honoured(records, roots.to_set(), w.order[a], y)
            ==> exists|b: int| 0 <= b < a && w.order[b] == y
    &&& forall|b: int| 0 <= b < w.order.len() ==> #[trigger] awaited(records, roots, w, b)
}

/// The invariant holds before the first step.
pub proof fn lemma_start(records: Seq<RecordView>, roots: Seq<int>)
    requires
        valid_roots(records, roots),
    ensures
        walk_inv(records, roots, start(roots)),
        budget(records, start(roots)) == 2 * records.len(),
{
    let w = start(roots);
    vstd::seq_lib::seq_to_set_is_finite(roots);
    assert forall|x: int| w.discovered.contains(x) implies 0 <= x < records.len() && in_closure(
        records,
        roots.to_set(),
        x,
    ) by {
        let i = choose|i: int| 0 <= i < roots.len() && roots[i] == x;
        assert(0 <= roots[i] < records.len());
        lemma_reaches_self(records, x);
    }
    assert forall|x: int| w.discovered.contains(x) && !w.processed.contains(x) implies w.stack.contains(
        x,
    ) by {}
    assert forall|q: int| 0 <= q < w.stack.len() implies #[trigger] called_for(
        records,
        roots,
        w,
        q,
    ) by {
        assert(roots.to_set().contains(roots[q]));
    }
}

/// Pushing the dependencies of a visited record keeps the invariant, and
/// once all its fields are gone through, its dependencies are discovered.
/// The record lies at `m` on the stack, with nothing visited above it.
proof fn lemma_discover(records: Seq<RecordView>, roots: Seq<int>, w: Walk, m: int, k: int)
    requires
        distinct_ids(records),
        steady(records, roots, w),
        0 <= m < w.stack.len(),
        w.visited.contains(w.stack[m]),
        forall|q: int| m < q < w.stack.len() ==> !w.visited.contains(#[trigger] w.stack[q]),
        0 <= k <= records[w.stack[m]].fields.len(),
        closed_upto(records, w, w.stack[m], k),
    ensures
        steady(records, roots, discover(records, records[w.stack[m]].fields, k, w)),
        closed_upto(records, discover(records, records[w.stack[m]].fields, k, w), -1, 0),
        discover(records, records[w.stack[m]].fields, k, w).visited == w.visited,
        discover(records, records[w.stack[m]].fields, k, w).processed == w.processed,
        discover(records, records[w.stack[m]].fields, k, w).order == w.order,
    decreases records[w.stack[m]].fields.len() - k,
{
    let x = w.stack[m];
    let fields = records[x].fields;
    if k >= fields.len() {
        assert forall|v: int, j: int, y: int|
            w.visited.contains(v) && #[trigger] leads_to(records, v, j, y) implies w.discovered.contains(
            y,
        ) by {
            assert(v != x || j < k);
        }
    } else {
        let field = fields[k];
        let next = match dependency(records, field) {
            Some(y) => if w.discovered.contains(y) {
                w
            } else {
                Walk { stack: w.stack.push(y), discovered: w.discovered.insert(y), ..w }
            },
            None => w,
        };
        assert(next.stack[m] == x);
        assert(steady(records, roots, next) && closed_upto(records, next, x, k + 1) && (forall|
            q: int,
        |
            m < q < next.stack.len() ==> !next.visited.contains(#[trigger] next.stack[q]))) by {
            match dependency(records, field) {
                None => {
                    assert forall|v: int, j: int, y: int|
                        next.visited.contains(v) && #[trigger] leads_to(records, v, j, y) && (v != x
                            || j < k + 1) implies next.discovered.contains(y) by {
                        if v == x && j == k {
                            assert(is_place_of(records, field.underlying, y));
                        }
                    }
                },
                Some(y) => {
                    assert(is_place_of(records, field.underlying, y));
                    assert(leads_to(records, x, k, y));
                    assert(edge(records, x, y));
                    assert forall|v: int, j: int, z: int|
                        next.visited.contains(v) && #[trigger] leads_to(records, v, j, z) && (v != x
                            || j < k + 1) implies next.discovered.contains(z) by {
                        if v == x && j == k {
                            lemma_place_unique(records, field.underlying, z);
                        }
                    }
                    if !w.discovered.contains(y) {
                        lemma_push_keeps_inv(records, roots, w, m, y);
                    }
                },
            }
        }
        lemma_discover(records, roots, next, m, k + 1);
    }
}

/// Pushing a dependency of the visited record at `m` that was not
/// discovered before keeps the invariant.
proof fn lemma_push_keeps_inv(records: Seq<RecordView>, roots: Seq<int>, w: Walk, m: int, y: int)
    requires
        steady(records, roots, w),
        0 <= m < w.stack.len(),
        w.visited.contains(w.stack[m]),
        forall|q: int| m < q < w.stack.len() ==> !w.visited.contains(#[trigger] w.stack[q]),
        edge(records, w.stack[m], y),
        0 <= y < records.len(),
        !w.discovered.contains(y),
    ensures
        steady(
            records,
            roots,
            Walk { stack: w.stack.push(y), discovered: w.discovered.insert(y), ..w },
        ),
        forall|q: int|
            m < q < w.stack.len() + 1 ==> !w.visited.contains(#[trigger] w.stack.push(y)[q]),
{
    let x = w.stack[m];
    let next = Walk { stack: w.stack.push(y), discovered: w.discovered.insert(y), ..w };
    let top = w.stack.len() as int;
    assert(next.stack[top] == y);
    assert forall|q: int| 0 <= q < next.stack.len() implies next.discovered.contains(
        #[trigger] next.stack[q],
    ) && !next.processed.contains(next.stack[q]) by {
        if q < top {
            assert(next.stack[q] == w.stack[q]);
        }
    }
    assert(next.stack.no_duplicates()) by {
        assert forall|i: int, j: int|
            0 <= i < next.stack.len() && 0 <= j < next.stack.len() && i != j implies next.stack[i]
            != next.stack[j] by {
            if i < top {
                assert(w.discovered.contains(w.stack[i]));
            }
            if j < top {
                assert(w.discovered.contains(w.stack[j]));
            }
        }
    }
    assert forall|z: int|
        next.discovered.contains(z) && !next.processed.contains(z) implies next.stack.contains(
        z,
    ) by {
        if z != y {
            let q = choose|q: int| 0 <= q < w.stack.len() && w.stack[q] == z;
            assert(next.stack[q] == z);
        }
    }
    assert forall|z: int| next.discovered.contains(z) implies in_closure(
        records,
        roots.to_set(),
        z,
    ) by {
        if z == y {
            lemma_closure_step(records, roots.to_set(), x, y);
        }
    }
    assert forall|p: int, q: int|
        0 <= p < q < next.stack.len() && next.visited.contains(
            #[trigger] next.stack[p],
        ) implies reaches(records, next.stack[p], #[trigger] next.stack[q]) by {
        assert(next.stack[p] == w.stack[p]);
        if q < top {
            assert(next.stack[q] == w.stack[q]);
        } else {
            if p < m {
                assert(reaches(records, w.stack[p], w.stack[m]));
            } else {
                assert(p == m);
                lemma_reaches_self(records, x);
            }
            lemma_reaches_step(records, w.stack[p], x, y);
        }
    }
    assert forall|q: int| 0 <= q < next.stack.len() implies #[trigger] called_for(
        records,
        roots,
        next,
        q,
    ) by {
        if q < top {
            assert(next.stack[q] == w.stack[q]);
            assert(called_for(records, roots, w, q));
            if !roots.to_set().contains(w.stack[q]) {
                let p = choose|p: int|
                    0 <= p < q && w.visited.contains(#[trigger] w.stack[p]) && edge(
                        records,
                        w.stack[p],
                        w.stack[q],
                    );
                assert(next.stack[p] == w.stack[p]);
            }
        } else {
            assert(next.stack[m] == x);
        }
    }
    assert forall|b: int| 0 <= b < next.order.len() implies #[trigger] awaited(
        records,
        roots,
        next,
        b,
    ) by {
        assert(awaited(records, roots, w, b));
        if exists|p: int|
            0 <= p < w.stack.len() && w.visited.contains(#[trigger] w.stack[p]) && edge(
                records,
                w.stack[p],
                w.order[b],
            ) {
            let p = choose|p: int|
                0 <= p < w.stack.len() && w.visited.contains(#[trigger] w.stack[p]) && edge(
                    records,
                    w.stack[p],
                    w.order[b],
                );
            assert(next.stack[p] == w.stack[p]);
        }
    }
    assert forall|q: int| m < q < w.stack.len() + 1 implies !w.visited.contains(
        #[trigger] w.stack.push(y)[q],
    ) by {
        if q < top {
            assert(next.stack[q] == w.stack[q]);
        }
    }
}

/// While the stack is not empty, a step keeps the invariant and uses up
/// one unit of the budget.
pub proof fn lemma_step(records: Seq<RecordView>, roots: Seq<int>, w: Walk)
    requires
        distinct_ids(records),
        walk_inv(records, roots, w),
        w.stack.len() > 0,
    ensures
        walk_inv(records, roots, step(records, w)),
        budget(records, step(records, w)) == budget(records, w) - 1,
        budget(records, step(records, w)) >= 0,
        0 <= w.stack.last() < records.len(),
{
    let top = w.stack.last();
    assert(w.discovered.contains(w.stack[w.stack.len() - 1]));
    assert(!w.processed.contains(w.stack[w.stack.len() - 1]));
    lemma_marks_bounded(records, roots, w);
    if !w.visited.contains(top) {
        lemma_step_visits(records, roots, w);
    } else {
        lemma_step_lists(records, roots, w);
    }
}

/// The step that visits the top of the stack keeps the invariant.
proof fn lemma_step_visits(records: Seq<RecordView>, roots: Seq<int>, w: Walk)
    requires
        distinct_ids(records),
        steady(records, roots, w),
        closed_upto(records, w, -1, 0),
        w.stack.len() > 0,
        !w.visited.contains(w.stack.last()),
    ensures
        steady(records, roots, step(records, w)),
        closed_upto(records, step(records, w), -1, 0),
        step(records, w).visited == w.visited.insert(w.stack.last()),
        step(records, w).processed == w.processed,
{
    let m = w.stack.len() - 1;
    let top = w.stack[m];
    assert(w.discovered.contains(top) && !w.processed.contains(top));
    let marked = Walk { visited: w.visited.insert(top), ..w };
    assert forall|p: int, q: int|
        0 <= p < q < marked.stack.len() && marked.visited.contains(
            #[trigger] marked.stack[p],
        ) implies reaches(records, marked.stack[p], #[trigger] marked.stack[q]) by {
        if marked.stack[p] == top {
            assert(p == m);
        }
    }
    assert forall|q: int| 0 <= q < marked.stack.len() implies #[trigger] called_for(
        records,
        roots,
        marked,
        q,
    ) by {
        assert(called_for(records, roots, w, q));
        if !roots.to_set().contains(w.stack[q]) {
            let p = choose|p: int|
                0 <= p < q && w.visited.contains(#[trigger] w.stack[p]) && edge(
                    records,
                    w.stack[p],
                    w.stack[q],
                );
            assert(marked.visited.contains(marked.stack[p]));
        }
    }
    assert forall|b: int| 0 <= b < marked.order.len() implies #[trigger] awaited(
        records,
        roots,
        marked,
        b,
    ) by {
        assert(awaited(records, roots, w, b));
        if exists|p: int|
            0 <= p < w.stack.len() && w.visited.contains(#[trigger] w.stack[p]) && edge(
                records,
                w.stack[p],
                w.order[b],
            ) {
            let p = choose|p: int|
                0 <= p < w.stack.len() && w.visited.contains(#[trigger] w.stack[p]) && edge(
                    records,
                    w.stack[p],
                    w.order[b],
                );
            assert(marked.visited.contains(marked.stack[p]));
        }
    }
    assert(steady(records, roots, marked));
    lemma_discover(records, roots, marked, m, 0);
}

/// The step that lists the top of the stack keeps the invariant.
proof fn lemma_step_lists(records: Seq<RecordView>, roots: Seq<int>, w: Walk)
    requires
        distinct_ids(records),
        steady(records, roots, w),
        closed_upto(records, w, -1, 0),
        w.stack.len() > 0,
        w.visited.contains(w.stack.last()),
    ensures
        steady(records, roots, step(records, w)),
        closed_upto(records, step(records, w), -1, 0),
        step(records, w).visited == w.visited,
        step(records, w).processed == w.processed.insert(w.stack.last()),
{
    let m = w.stack.len() - 1;
    let top = w.stack[m];
    assert(w.discovered.contains(top) && !w.processed.contains(top));
    let after = step(records, w);
    let rest = w.stack.drop_last();
    assert forall|q: int| 0 <= q < rest.len() implies after.discovered.contains(
        #[trigger] rest[q],
    ) && !after.processed.contains(rest[q]) by {
        assert(rest[q] == w.stack[q]);
    }
    assert forall|x: int|
        after.discovered.contains(x) && !after.processed.contains(x) implies rest.contains(
        x,
    ) by {
        let q = choose|q: int| 0 <= q < w.stack.len() && w.stack[q] == x;
        assert(rest[q] == x);
    }
    assert(after.order.no_duplicates()) by {
        assert forall|i: int, j: int|
            0 <= i < after.order.len() && 0 <= j < after.order.len() && i != j implies after.order[i]
            != after.order[j] by {
            if i < w.order.len() {
                assert(w.order.contains(w.order[i]));
            }
            if j < w.order.len() {
                assert(w.order.contains(w.order[j]));
            }
        }
    }
    assert forall|x: int| after.order.contains(x) <==> after.processed.contains(x) by {
        if after.order.contains(x) {
            let i = choose|i: int| 0 <= i < after.order.len() && after.order[i] == x;
            if i < w.order.len() {
                assert(w.order.contains(w.order[i]));
            }
        }
        if after.processed.contains(x) {
            if x == top {
                assert(after.order[w.order.len() as int] == x);
            } else {
                let i = choose|i: int| 0 <= i < w.order.len() && w.order[i] == x;
                assert(after.order[i] == x);
            }
        }
    }
    assert forall|p: int, q: int|
        0 <= p < q < rest.len() && after.visited.contains(#[trigger] rest[p]) implies reaches(
        records,
        rest[p],
        #[trigger] rest[q],
    ) by {
        assert(rest[p] == w.stack[p] && rest[q] == w.stack[q]);
    }
    assert forall|q: int| 0 <= q < rest.len() implies #[trigger] called_for(
        records,
        roots,
        after,
        q,
    ) by {
        assert(rest[q] == w.stack[q]);
        assert(called_for(records, roots, w, q));
        if !roots.to_set().contains(w.stack[q]) {
            let p = choose|p: int|
                0 <= p < q && w.visited.contains(#[trigger] w.stack[p]) && edge(
                    records,
                    w.stack[p],
                    w.stack[q],
                );
            assert(rest[p] == w.stack[p]);
        }
    }
    assert forall|b: int| 0 <= b < after.order.len() implies #[trigger] awaited(
        records,
        roots,
        after,
        b,
    ) by {
        let last = w.order.len() as int;
        assert(after.order[last] == top);
        if b < last {
            assert(after.order[b] == w.order[b]);
            assert(awaited(records, roots, w, b));
            if exists|a: int|
                b < a < w.order.len() && edge(records, #[trigger] w.order[a], w.order[b]) {
                let a = choose|a: int|
                    b < a < w.order.len() && edge(records, #[trigger] w.order[a], w.order[b]);
                assert(after.order[a] == w.order[a]);
            } else if exists|p: int|
                0 <= p < w.stack.len() && w.visited.contains(#[trigger] w.stack[p]) && edge(
                    records,
                    w.stack[p],
                    w.order[b],
                ) {
                let p = choose|p: int|
                    0 <= p < w.stack.len() && w.visited.contains(#[trigger] w.stack[p])
                        && edge(records, w.stack[p], w.order[b]);
                if p < m {
                    assert(rest[p] == w.stack[p]);
                    assert(after.visited.contains(after.stack[p]) && edge(
                        records,
                        after.stack[p],
                        after.order[b],
                    ));
                } else {
                    assert(edge(records, after.order[last], after.order[b]));
                }
            }
        } else {
            assert(called_for(records, roots, w, m));
            if !roots.to_set().contains(top) {
                let p = choose|p: int|
                    0 <= p < m && w.visited.contains(#[trigger] w.stack[p]) && edge(
                        records,
                        w.stack[p],
                        w.stack[m],
                    );
                assert(rest[p] == w.stack[p]);
                assert(after.visited.contains(after.stack[p]) && edge(
                    records,
                    after.stack[p],
                    after.order[b],
                ));
            }
        }
    }
    assert forall|a: int, y: int|
        0 <= a < after.order.len() && #[trigger] honoured(
            records,
            roots.to_set(),
            after.order[a],
            y,
        ) implies exists|b: int| 0 <= b < a && after.order[b] == y by {
        if a < w.order.len() {
            assert(after.order[a] == w.order[a]);
            let b = choose|b: int| 0 <= b < a && w.order[b] == y;
            assert(after.order[b] == y);
        } else {
            lemma_honoured_is_listed(records, roots, w, y);
            let b = choose|b: int| 0 <= b < w.order.len() && w.order[b] == y;
            assert(after.order[b] == y);
        }
    }
}

/// When a visited record is on top of the stack, each of its dependencies
/// that the walk honours is in the result already.
proof fn lemma_honoured_is_listed(records: Seq<RecordView>, roots: Seq<int>, w: Walk, y: int)
    requires
        steady(records, roots, w),
        closed_upto(records, w, -1, 0),
        w.stack.len() > 0,
        w.visited.contains(w.stack.last()),
        honoured(records, roots.to_set(), w.stack.last(), y),
    ensures
        w.order.contains(y),
{
    let m = w.stack.len() - 1;
    let top = w.stack[m];
    let k = choose|k: int| leads_to(records, top, k, y);
    assert(leads_to(records, top, k, y));
    assert(w.discovered.contains(y));
    if !w.processed.contains(y) {
        let q = choose|q: int| 0 <= q < w.stack.len() && w.stack[q] == y;
        assert(q < m);
        if w.visited.contains(w.stack[q]) {
            assert(reaches(records, w.stack[q], w.stack[m]));
        } else {
            assert(called_for(records, roots, w, q));
            let p = choose|p: int|
                0 <= p < q && w.visited.contains(#[trigger] w.stack[p]) && edge(
                    records,
                    w.stack[p],
                    w.stack[q],
                );
            assert(reaches(records, w.stack[p], w.stack[m]));
            assert(w.stack[p] != top);
        }
    }
}

/// The marks are sets of places, so there are no more of each than there
/// are records; and what is on the stack is not processed.
proof fn lemma_marks_bounded(records: Seq<RecordView>, roots: Seq<int>, w: Walk)
    requires
        steady(records, roots, w),
    ensures
        w.visited.len() <= records.len(),
        w.processed.len() <= w.visited.len(),
        w.stack.len() > 0 ==> w.processed.len() < records.len(),
        w.stack.len() > 0 && !w.visited.contains(w.stack.last()) ==> w.visited.len()
            < records.len(),
{
    let all = vstd::set_lib::set_int_range(0, records.len() as int);
    vstd::set_lib::lemma_int_range(0, records.len() as int);
    vstd::set_lib::lemma_len_subset(w.visited, all);
    vstd::set_lib::lemma_len_subset(w.processed, w.visited);
    if w.stack.len() > 0 {
        let top = w.stack.last();
        assert(w.discovered.contains(top));
        vstd::set_lib::lemma_len_subset(w.processed.insert(top), all);
        if !w.visited.contains(top) {
            vstd::set_lib::lemma_len_subset(w.visited.insert(top), all);
        }
    }
}

/// With fuel for the budget, the walk runs until the stack is empty, and
/// the invariant holds at its end.
pub proof fn lemma_run(records: Seq<RecordView>, roots: Seq<int>, w: Walk, fuel: nat)
    requires
        distinct_ids(records),
        walk_inv(records, roots, w),
        budget(records, w) <= fuel,
    ensures
        walk_inv(records, roots, run(records, w, fuel)),
        run(records, w, fuel).stack.len() == 0,
    decreases fuel,
{
    if w.stack.len() > 0 {
        lemma_step(records, roots, w);
        lemma_run(records, roots, step(records, w), (fuel - 1) as nat);
    }
}

/// Where every dependency of a discovered record is discovered, every
/// record of a chain that starts at a discovered record is.
proof fn lemma_chain_discovered(records: Seq<RecordView>, w: Walk, path: Seq<int>, i: int)
    requires
        is_chain(records, path),
        0 <= i < path.len(),
        w.discovered.contains(path[0]),
        forall|x: int| w.discovered.contains(x) ==> w.visited.contains(x),
        closed_upto(records, w, -1, 0),
    ensures
        w.discovered.contains(path[i]),
    decreases i,
{
    if i > 0 {
        lemma_chain_discovered(records, w, path, i - 1);
        let x = path[i - 1];
        let y = path[i];
        assert(edge(records, x, path[i - 1 + 1]));
        let k = choose|k: int| leads_to(records, x, k, y);
        assert(leads_to(records, x, k, y));
    }
}

/// When the stack is empty, the result is what the walk owes.
pub proof fn lemma_finished(records: Seq<RecordView>, roots: Seq<int>, w: Walk)
    requires
        walk_inv(records, roots, w),
        w.stack.len() == 0,
    ensures
        is_dependency_order(records, roots.to_set(), w.order),
{
    assert forall|x: int| w.discovered.contains(x) implies w.processed.contains(x) by {
        if !w.processed.contains(x) {
            assert(w.stack.contains(x));
        }
    }
    assert forall|x: int| in_closure(records, roots.to_set(), x) implies w.order.contains(x) by {
        let r = choose|r: int| roots.to_set().contains(r) && #[trigger] reaches(records, r, x);
        let path = choose|path: Seq<int>|
            #[trigger] is_chain(records, path) && path[0] == r && path.last() == x;
        let i = choose|i: int| 0 <= i < roots.len() && roots[i] == r;
        assert(w.discovered.contains(roots[i]));
        lemma_chain_discovered(records, w, path, path.len() - 1);
    }
    assert forall|b: int|
        0 <= b < w.order.len() && !roots.to_set().contains(#[trigger] w.order[b]) implies exists|
        a: int,
    |
        b < a < w.order.len() && edge(records, #[trigger] w.order[a], w.order[b]) by {
        assert(awaited(records, roots, w, b));
    }
}

/// The order of the walk is what the walk owes: the roots and all they
/// lead to, each once, honoured dependencies first.
pub proof fn lemma_walk_order(records: Seq<RecordView>, roots: Seq<int>)
    requires
        distinct_ids(records),
        valid_roots(records, roots),
    ensures
        is_dependency_order(records, roots.to_set(), walk_order(records, roots)),
{
    lemma_start(records, roots);
    lemma_run(records, roots, start(roots), 2 * records.len());
    lemma_finished(records, roots, run(records, start(roots), 2 * records.len()));
}

} // verus!
