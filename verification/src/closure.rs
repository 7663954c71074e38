//! From the records that were asked for to every record they depend on,
//! dependencies first.
//!
//! A record depends on another where one of its fields, pointers followed,
//! is of the other's type.

use crate::graph::{
    in_closure, is_dependency_order, lemma_listed_is_record, lemma_reaches_self, valid_roots,
};
use crate::names::{ascending, lemma_ascending_distinct};
use crate::record::{field_views, RecordView};
use crate::registry::{distinct_ids, has_id, is_place_of, lemma_place_unique, place_of, Registry};
use crate::type_id::TypeId;
use crate::walk::{
    budget, discover, lemma_start, lemma_step, lemma_walk_order, run, start, step, walk_inv,
    walk_order, Walk,
};
use vstd::prelude::*;

verus! {

/// The places of the records that `targets` name.
pub open spec fn root_places(records: Seq<RecordView>, targets: Seq<Seq<char>>) -> Seq<int> {
    targets.map_values(|t: Seq<char>| place_of(records, t))
}

/// The places that a vector holds.
pub open spec fn places(v: Seq<usize>) -> Seq<int> {
    v.map_values(|p: usize| p as int)
}

/// The places that are marked in `v`.
pub open spec fn marked(v: Seq<bool>) -> Set<int> {
    Set::new(|i: int| 0 <= i < v.len() && v[i])
}

/// The identities of the records at the places `order`.
pub open spec fn ids_at(records: Seq<RecordView>, order: Seq<int>) -> Seq<Seq<char>> {
    order.map_values(|p: int| records[p].type_id)
}

/// The identities that a vector holds.
pub open spec fn ids(v: Seq<TypeId>) -> Seq<Seq<char>> {
    v.map_values(|id: TypeId| id@)
}

/// The targets of a registry name records, each another one.
pub proof fn lemma_roots_valid(records: Seq<RecordView>, targets: Seq<Seq<char>>)
    requires
        ascending(targets),
        forall|k: int| 0 <= k < targets.len() ==> has_id(records, #[trigger] targets[k]),
    ensures
        valid_roots(records, root_places(records, targets)),
{
    let roots = root_places(records, targets);
    lemma_ascending_distinct(targets);
    assert forall|i: int| 0 <= i < roots.len() implies is_place_of(
        records,
        targets[i],
        #[trigger] roots[i],
    ) by {
        assert(has_id(records, targets[i]));
    }
    assert forall|i: int, j: int| 0 <= i < roots.len() && 0 <= j < roots.len() && i != j implies roots[i]
        != roots[j] by {
        assert(is_place_of(records, targets[i], roots[i]));
        assert(is_place_of(records, targets[j], roots[j]));
    }
}

/// `n` marks, none of them set.
fn unmarked(n: usize) -> (v: Vec<bool>)
    ensures
        v@.len() == n,
        forall|i: int| 0 <= i < n ==> !v@[i],
{
    let mut v: Vec<bool> = Vec::new();
    while v.len() < n
        invariant
            v@.len() <= n,
            forall|i: int| 0 <= i < v@.len() ==> !v@[i],
        decreases n - v@.len(),
    {
        v.push(false);
    }
    v
}

/// The places of the targets, in ascending order of their names.
pub fn target_places(registry: &Registry) -> (roots: Vec<usize>)
    requires
        registry.wf(),
    ensures
        places(roots@) == root_places(registry@.records, registry.target_order()),
{
    let targets = registry.targets();
    let mut roots: Vec<usize> = Vec::new();
    let mut k: usize = 0;
    proof {
        registry.lemma_wf();
    }
    while k < targets.len()
        invariant
            registry.wf(),
            targets@ == registry.target_order(),
            k <= targets@.len(),
            roots@.len() == k,
            forall|i: int|
                0 <= i < k ==> roots@[i] as int == place_of(
                    registry@.records,
                    #[trigger] targets@[i],
                ),
            forall|i: int| 0 <= i < targets@.len() ==> has_id(registry@.records, #[trigger] targets@[i]),
            distinct_ids(registry@.records),
        decreases targets@.len() - k,
    {
        match registry.find(targets.get(k).as_str()) {
            Some(place) => {
                proof {
                    lemma_place_unique(registry@.records, targets@[k as int], place as int);
                }
                roots.push(place);
            },
            None => {
                assert(has_id(registry@.records, targets@[k as int]));
            },
        }
        k += 1;
    }
    assert(places(roots@) =~= root_places(registry@.records, registry.target_order()));
    roots
}

/// The exec state of the walk holds what `w` holds.
pub open spec fn mirrors(
    w: Walk,
    stack: Seq<usize>,
    discovered: Seq<bool>,
    visited: Seq<bool>,
    processed: Seq<bool>,
    order: Seq<usize>,
) -> bool {
    &&& places(stack) == w.stack
    &&& marked(discovered) == w.discovered
    &&& marked(visited) == w.visited
    &&& marked(processed) == w.processed
    &&& places(order) == w.order
}

/// Walks from the targets of `registry` over the fields of its records and
/// lists the place of every record that is met, dependencies first.
///
/// The targets go on a stack. A place that is taken off for the first time
/// is put back with its undiscovered dependencies on top; when it is taken
/// off again, they have been dealt with, and it is listed.
pub fn dependency_places(registry: &Registry) -> (order: Vec<usize>)
    requires
        registry.wf(),
    ensures
        places(order@) == walk_order(
            registry@.records,
            root_places(registry@.records, registry.target_order()),
        ),
        is_dependency_order(
            registry@.records,
            root_places(registry@.records, registry.target_order()).to_set(),
            places(order@),
        ),
{
    let ghost records = registry@.records;
    let ghost roots = root_places(records, registry.target_order());
    let n = registry.len();
    let mut stack = target_places(registry);
    let mut discovered = unmarked(n);
    let mut visited = unmarked(n);
    let mut processed = unmarked(n);
    let mut order: Vec<usize> = Vec::new();
    proof {
        registry.lemma_wf();
        lemma_roots_valid(records, registry.target_order());
        lemma_start(records, roots);
        lemma_walk_order(records, roots);
    }
    let mut r: usize = 0;
    while r < stack.len()
        invariant
            r <= stack@.len(),
            places(stack@) == roots,
            valid_roots(records, roots),
            discovered@.len() == n,
            n == records.len(),
            forall|i: int| 0 <= i < n ==> (discovered@[i] <==> exists|q: int| 0 <= q < r && roots[q] == i),
        decreases stack@.len() - r,
    {
        let ghost before = discovered@;
        let place = stack[r];
        assert(roots[r as int] == place);
        discovered.set(place, true);
        assert forall|i: int| 0 <= i < n implies (discovered@[i] <==> exists|q: int|
            0 <= q < r + 1 && roots[q] == i) by {
            if discovered@[i] {
                if i != place {
                    let q = choose|q: int| 0 <= q < r && roots[q] == i;
                    assert(0 <= q < r + 1 && roots[q] == i);
                }
            }
            if exists|q: int| 0 <= q < r + 1 && roots[q] == i {
                let q = choose|q: int| 0 <= q < r + 1 && roots[q] == i;
                if q < r {
                    assert(before[i]);
                }
            }
        }
        r += 1;
    }
    let ghost mut w = start(roots);
    let ghost mut fuel: nat = 2 * records.len();
    proof {
        assert(marked(discovered@) =~= w.discovered);
        assert(marked(visited@) =~= w.visited);
        assert(marked(processed@) =~= w.processed);
        assert(places(order@) =~= w.order);
    }
    while stack.len() > 0
        invariant
            registry.wf(),
            records == registry@.records,
            distinct_ids(records),
            n == records.len(),
            discovered@.len() == n,
            visited@.len() == n,
            processed@.len() == n,
            mirrors(w, stack@, discovered@, visited@, processed@, order@),
            walk_inv(records, roots, w),
            budget(records, w) <= fuel,
            run(records, w, fuel) == run(records, start(roots), 2 * records.len()),
        decreases fuel,
    {
        let ghost w0 = w;
        proof {
            lemma_step(records, roots, w0);
            assert(w0.stack.last() == stack@.last() as int);
        }
        let x = stack.pop().unwrap();
        if !visited[x] {
            visited.set(x, true);
            stack.push(x);
            let record = registry.record(x);
            let ghost mut cur = Walk { visited: w0.visited.insert(x as int), ..w0 };
            proof {
                assert(marked(visited@) =~= cur.visited);
                assert(places(stack@) =~= cur.stack);
            }
            let mut k: usize = 0;
            while k < record.fields.len()
                invariant
                    registry.wf(),
                    records == registry@.records,
                    distinct_ids(records),
                    n == records.len(),
                    discovered@.len() == n,
                    0 <= x < n,
                    k <= record.fields@.len(),
                    field_views(record.fields@) == records[x as int].fields,
                    mirrors(cur, stack@, discovered@, visited@, processed@, order@),
                    discover(records, records[x as int].fields, k as int, cur) == step(records, w0),
                decreases record.fields@.len() - k,
            {
                let field = &record.fields[k];
                let ghost fv = records[x as int].fields[k as int];
                assert(fv == field@);
                match registry.index_of(&field.underlying) {
                    Some(y) => {
                        proof {
                            lemma_place_unique(records, fv.underlying, y as int);
                        }
                        if !discovered[y] {
                            discovered.set(y, true);
                            stack.push(y);
                            proof {
                                cur = Walk {
                                    stack: cur.stack.push(y as int),
                                    discovered: cur.discovered.insert(y as int),
                                    ..cur
                                };
                                assert(marked(discovered@) =~= cur.discovered);
                                assert(places(stack@) =~= cur.stack);
                            }
                        }
                    },
                    None => {},
                }
                k += 1;
            }
            proof {
                w = cur;
            }
        } else if !processed[x] {
            processed.set(x, true);
            order.push(x);
            proof {
                w = step(records, w0);
                assert(marked(processed@) =~= w.processed);
                assert(places(stack@) =~= w.stack);
                assert(places(order@) =~= w.order);
            }
        } else {
            proof {
                w = step(records, w0);
                assert(places(stack@) =~= w.stack);
            }
        }
        proof {
            fuel = (fuel - 1) as nat;
        }
    }
    order
}

/// The identities of the targets of `registry` and of every record they
/// lead to, in the order of `dependency_places`.
pub fn dependency_order(registry: &Registry) -> (order: Vec<TypeId>)
    requires
        registry.wf(),
    ensures
        ids(order@) == ids_at(
            registry@.records,
            walk_order(
                registry@.records,
                root_places(registry@.records, registry.target_order()),
            ),
        ),
        ids(order@).no_duplicates(),
        forall|t: Seq<char>| registry@.targets.contains(t) ==> ids(order@).contains(t),
{
    let found = dependency_places(registry);
    let ghost all = places(found@);
    let ghost records = registry@.records;
    let ghost roots = root_places(records, registry.target_order());
    proof {
        registry.lemma_wf();
        lemma_roots_valid(records, registry.target_order());
    }
    let mut order: Vec<TypeId> = Vec::new();
    let mut k: usize = 0;
    while k < found.len()
        invariant
            k <= found@.len(),
            all == places(found@),
            is_dependency_order(
                registry@.records,
                root_places(registry@.records, registry.target_order()).to_set(),
                all,
            ),
            order@.len() == k,
            forall|i: int| 0 <= i < k ==> (#[trigger] order@[i])@ == registry@.records[all[i]].type_id,
        decreases found@.len() - k,
    {
        proof {
            lemma_listed_is_record(
                registry@.records,
                root_places(registry@.records, registry.target_order()).to_set(),
                all,
                k as int,
            );
        }
        order.push(registry.record(found[k]).type_id.clone());
        k += 1;
    }
    proof {
        assert(ids(order@) =~= ids_at(records, all));
        assert forall|i: int, j: int|
            0 <= i < order@.len() && 0 <= j < order@.len() && i != j implies ids(order@)[i] != ids(
            order@,
        )[j] by {
            lemma_listed_is_record(records, roots.to_set(), all, i);
            lemma_listed_is_record(records, roots.to_set(), all, j);
            assert(all[i] != all[j]);
            if all[i] < all[j] {
                assert(records[all[i]].type_id != records[all[j]].type_id);
            } else {
                assert(records[all[j]].type_id != records[all[i]].type_id);
            }
        }
        assert forall|t: Seq<char>| registry@.targets.contains(t) implies ids(order@).contains(
            t,
        ) by {
            let k = choose|k: int|
                0 <= k < registry.target_order().len() && registry.target_order()[k] == t;
            assert(has_id(records, registry.target_order()[k]));
            assert(is_place_of(records, t, roots[k]));
            lemma_reaches_self(records, roots[k]);
            assert(roots.to_set().contains(roots[k]));
            assert(in_closure(records, roots.to_set(), roots[k]));
            assert(all.contains(roots[k]));
            let a = choose|a: int| 0 <= a < all.len() && all[a] == roots[k];
            assert(ids(order@)[a] == t);
        }
    }
    order
}

} // verus!
