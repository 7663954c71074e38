//! A set of names, kept in ascending order.

use crate::text::{is_before, lemma_name_before_transitive, lemma_name_order, name_before};
use vstd::prelude::*;

verus! {

/// The character sequences that a sequence of strings holds.
pub open spec fn texts(v: Seq<String>) -> Seq<Seq<char>> {
    v.map_values(|s: String| s@)
}

/// Every element sorts strictly before the ones behind it.
pub open spec fn ascending(s: Seq<Seq<char>>) -> bool {
    forall|i: int, j: int| 0 <= i < j < s.len() ==> name_before(#[trigger] s[i], #[trigger] s[j])
}

/// An ascending sequence holds no name twice.
pub proof fn lemma_ascending_distinct(s: Seq<Seq<char>>)
    requires
        ascending(s),
    ensures
        s.no_duplicates(),
{
    assert forall|i: int, j: int| 0 <= i < s.len() && 0 <= j < s.len() && i != j implies s[i]
        != s[j] by {
        lemma_name_order(s[i], s[j]);
        if i < j {
            assert(name_before(s[i], s[j]));
        } else {
            assert(name_before(s[j], s[i]));
        }
    }
}

/// Two ascending sequences of the same names are one sequence.
pub proof fn lemma_ascending_unique(a: Seq<Seq<char>>, b: Seq<Seq<char>>)
    requires
        ascending(a),
        ascending(b),
        a.to_set() == b.to_set(),
    ensures
        a == b,
    decreases a.len(),
{
    lemma_ascending_distinct(a);
    lemma_ascending_distinct(b);
    a.unique_seq_to_set();
    b.unique_seq_to_set();
    if a.len() == 0 {
        assert(a =~= b);
    } else {
        let x = a.last();
        let y = b.last();
        assert(a.to_set().contains(x));
        assert(b.to_set().contains(y));
        let j = choose|j: int| 0 <= j < b.len() && b[j] == x;
        let i = choose|i: int| 0 <= i < a.len() && a[i] == y;
        lemma_name_order(x, y);
        if i < a.len() - 1 {
            assert(name_before(a[i], a[a.len() - 1]));
        }
        if j < b.len() - 1 {
            assert(name_before(b[j], b[b.len() - 1]));
        }
        assert(x == y);
        let a0 = a.drop_last();
        let b0 = b.drop_last();
        assert forall|z: Seq<char>| a0.to_set().contains(z) <==> b0.to_set().contains(z) by {
            if a0.to_set().contains(z) {
                let k = choose|k: int| 0 <= k < a0.len() && a0[k] == z;
                assert(a[k] == z);
                assert(a.to_set().contains(z));
                let l = choose|l: int| 0 <= l < b.len() && b[l] == z;
                assert(b0[l] == z);
            }
            if b0.to_set().contains(z) {
                let k = choose|k: int| 0 <= k < b0.len() && b0[k] == z;
                assert(b[k] == z);
                assert(b.to_set().contains(z));
                let l = choose|l: int| 0 <= l < a.len() && a[l] == z;
                assert(a0[l] == z);
            }
        }
        assert(a0.to_set() =~= b0.to_set());
        lemma_ascending_unique(a0, b0);
        assert(a =~= a0.push(x));
        assert(b =~= b0.push(y));
    }
}

/// The names of a set in ascending order.
pub open spec fn in_order(names: Set<Seq<char>>) -> Seq<Seq<char>> {
    choose|s: Seq<Seq<char>>| ascending(s) && s.to_set() == names
}

/// An ascending sequence is the ascending order of its names.
pub proof fn lemma_in_order(s: Seq<Seq<char>>)
    requires
        ascending(s),
    ensures
        in_order(s.to_set()) == s,
{
    lemma_ascending_unique(in_order(s.to_set()), s);
}

/// Whether one of `v` spells `name`.
pub fn holds_name(v: &Vec<String>, name: &String) -> (found: bool)
    ensures
        found == texts(v@).contains(name@),
{
    let mut i: usize = 0;
    while i < v.len()
        invariant
            i <= v.len(),
            forall|k: int| 0 <= k < i ==> texts(v@)[k] != name@,
        decreases v.len() - i,
    {
        if v[i] == *name {
            assert(texts(v@)[i as int] == name@);
            return true;
        }
        i += 1;
    }
    false
}

/// A set of names. It is walked in ascending order.
#[derive(Debug, PartialEq, Eq)]
pub struct NameSet {
    items: Vec<String>,
}

impl View for NameSet {
    type V = Seq<Seq<char>>;

    /// The names, smallest first.
    closed spec fn view(&self) -> Seq<Seq<char>> {
        texts(self.items@)
    }
}

impl Clone for NameSet {
    fn clone(&self) -> (s: NameSet)
        ensures
            s@ == self@,
    {
        let mut items: Vec<String> = Vec::new();
        let mut i: usize = 0;
        while i < self.items.len()
            invariant
                i <= self.items@.len(),
                items@.len() == i,
                forall|k: int| 0 <= k < i ==> items@[k]@ == self.items@[k]@,
            decreases self.items@.len() - i,
        {
            items.push(self.items[i].clone());
            i += 1;
        }
        let s = NameSet { items };
        assert(s@ =~= self@);
        s
    }
}

impl NameSet {
    /// The names are in strictly ascending order.
    pub open spec fn wf(&self) -> bool {
        ascending(self@)
    }

    /// The names as a set.
    pub open spec fn names(&self) -> Set<Seq<char>> {
        self@.to_set()
    }

    /// The empty set.
    pub fn new() -> (s: NameSet)
        ensures
            s.wf(),
            s@ == Seq::<Seq<char>>::empty(),
    {
        let s = NameSet { items: Vec::new() };
        assert(s@ =~= Seq::<Seq<char>>::empty());
        s
    }

    /// The number of names.
    pub fn len(&self) -> (n: usize)
        ensures
            n == self@.len(),
            self.wf() ==> n == self.names().len(),
    {
        proof {
            if self.wf() {
                lemma_ascending_distinct(self@);
                self@.unique_seq_to_set();
            }
        }
        self.items.len()
    }

    /// Whether the set holds no name.
    pub fn is_empty(&self) -> (e: bool)
        ensures
            e == (self@.len() == 0),
    {
        self.items.len() == 0
    }

    /// The name at place `i` of the ascending order.
    pub fn get(&self, i: usize) -> (name: &String)
        requires
            i < self@.len(),
        ensures
            name@ == self@[i as int],
    {
        &self.items[i]
    }

    /// Whether the set holds `name`.
    pub fn contains(&self, name: &String) -> (found: bool)
        ensures
            found == self@.contains(name@),
    {
        holds_name(&self.items, name)
    }

    /// Adds `name` at its place in the order, unless the set holds it
    /// already. Returns whether the set grew.
    pub fn insert(&mut self, name: String) -> (added: bool)
        requires
            old(self).wf(),
        ensures
            final(self).wf(),
            added == !old(self)@.contains(name@),
            !added ==> final(self)@ == old(self)@,
            added ==> exists|k: int|
                0 <= k <= old(self)@.len() && final(self)@ == #[trigger] old(self)@.insert(
                    k,
                    name@,
                ),
            final(self).names() == old(self).names().insert(name@),
    {
        let ghost before = self@;
        let mut i: usize = 0;
        while i < self.items.len() && is_before(self.items[i].as_str(), name.as_str())
            invariant
                i <= self.items.len(),
                self@ == before,
                forall|k: int| 0 <= k < i ==> name_before(#[trigger] before[k], name@),
            decreases self.items.len() - i,
        {
            i += 1;
        }
        if i < self.items.len() && self.items[i] == name {
            assert(before[i as int] == name@);
            assert(before.to_set() =~= before.to_set().insert(name@));
            return false;
        }
        proof {
            assert forall|k: int| i <= k < before.len() implies name_before(
                name@,
                #[trigger] before[k],
            ) by {
                lemma_name_order(before[i as int], name@);
                if k > i {
                    lemma_name_before_transitive(name@, before[i as int], before[k]);
                }
            }
            assert forall|k: int| 0 <= k < before.len() implies before[k] != name@ by {
                lemma_name_order(before[k], name@);
            }
        }
        self.items.insert(i, name);
        proof {
            assert(self@ =~= before.insert(i as int, name@));
            assert(self@.to_set() =~= before.to_set().insert(name@)) by {
                assert forall|x: Seq<char>| self@.to_set().contains(x) implies before.to_set().insert(
                    name@,
                ).contains(x) by {
                    let k = choose|k: int| 0 <= k < self@.len() && self@[k] == x;
                    if k < i {
                        assert(before[k] == x);
                    } else if k > i {
                        assert(before[k - 1] == x);
                    }
                }
                assert forall|x: Seq<char>| before.to_set().insert(name@).contains(
                    x,
                ) implies self@.to_set().contains(x) by {
                    if x == name@ {
                        assert(self@[i as int] == x);
                    } else {
                        let k = choose|k: int| 0 <= k < before.len() && before[k] == x;
                        if k < i {
                            assert(self@[k] == x);
                        } else {
                            assert(self@[k + 1] == x);
                        }
                    }
                }
            }
        }
        true
    }
}

} // verus!
