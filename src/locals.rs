//! The values that the evaluator last reported for a cell, by name.

use vstd::prelude::*;
use crate::kernel_client::ExecutionType;

verus! {

#[verifier::external_type_specification]
#[verifier::external_body]
pub struct ExValue(serde_json::Value);

/// Relies on the derived `Clone` of `serde_json::Value`: a structural copy.
pub assume_specification[ <serde_json::Value as Clone>::clone ](v: &serde_json::Value) -> (r:
    serde_json::Value)
    ensures
        r == *v,
;

/// A value the evaluator reported; the core passes it on without reading it.
#[derive(Debug)]
pub struct LocalValue {
    pub value: serde_json::Value,
    pub local_type: ExecutionType,
}

impl LocalValue {
    /// A copy of this value.
    pub fn duplicate(&self) -> (r: LocalValue)
        ensures
            r == *self,
    {
        LocalValue { value: self.value.clone(), local_type: self.local_type }
    }
}

/// The map that a list of entries stands for: a later entry for a name
/// overrides an earlier one.
pub open spec fn locals_map(s: Seq<(String, LocalValue)>) -> Map<Seq<char>, LocalValue>
    decreases s.len(),
{
    if s.len() == 0 {
        Map::empty()
    } else {
        locals_map(s.drop_last()).insert(s.last().0@, s.last().1)
    }
}

proof fn lemma_locals_last(s: Seq<(String, LocalValue)>, k: Seq<char>, j: int)
    requires
        0 <= j < s.len(),
        s[j].0@ == k,
        forall|l: int| j < l < s.len() ==> #[trigger] s[l].0@ != k,
    ensures
        locals_map(s).contains_key(k),
        locals_map(s)[k] == s[j].1,
    decreases s.len(),
{
    if j < s.len() - 1 {
        assert(s.drop_last()[j] == s[j]);
        assert forall|l: int| j < l < s.drop_last().len() implies #[trigger] s.drop_last()[l].0@ != k by {
            assert(s.drop_last()[l] == s[l]);
        }
        lemma_locals_last(s.drop_last(), k, j);
        assert(s[s.len() - 1].0@ != k);
    }
}

proof fn lemma_locals_absent(s: Seq<(String, LocalValue)>, k: Seq<char>)
    requires
        forall|l: int| 0 <= l < s.len() ==> #[trigger] s[l].0@ != k,
    ensures
        !locals_map(s).contains_key(k),
    decreases s.len(),
{
    if s.len() > 0 {
        assert forall|l: int| 0 <= l < s.drop_last().len() implies #[trigger] s.drop_last()[l].0@ != k by {
            assert(s.drop_last()[l] == s[l]);
        }
        lemma_locals_absent(s.drop_last(), k);
        assert(s[s.len() - 1].0@ != k);
    }
}

proof fn lemma_locals_same(a: Seq<(String, LocalValue)>, b: Seq<(String, LocalValue)>)
    requires
        a.len() == b.len(),
        forall|k: int| 0 <= k < a.len() ==> (#[trigger] a[k]).0@ == b[k].0@ && a[k].1 == b[k].1,
    ensures
        locals_map(a) == locals_map(b),
    decreases a.len(),
{
    if a.len() > 0 {
        assert forall|k: int| 0 <= k < a.drop_last().len() implies (#[trigger] a.drop_last()[k]).0@ == b.drop_last()[k].0@ && a.drop_last()[k].1 == b.drop_last()[k].1 by {
            assert(a.drop_last()[k] == a[k]);
            assert(b.drop_last()[k] == b[k]);
        }
        lemma_locals_same(a.drop_last(), b.drop_last());
    }
}

/// Values by name.
#[derive(Debug)]
pub struct Locals {
    entries: Vec<(String, LocalValue)>,
}

impl View for Locals {
    type V = Map<Seq<char>, LocalValue>;

    closed spec fn view(&self) -> Map<Seq<char>, LocalValue> {
        locals_map(self.entries@)
    }
}

impl Locals {
    pub fn new() -> (r: Locals)
        ensures
            r@ == Map::<Seq<char>, LocalValue>::empty(),
    {
        Locals { entries: Vec::new() }
    }

    pub fn get(&self, name: &String) -> (r: Option<&LocalValue>)
        ensures
            r.is_some() == self@.contains_key(name@),
            r.is_some() ==> *r.unwrap() == self@[name@],
    {
        let mut i: usize = self.entries.len();
        while i > 0
            invariant
                i <= self.entries@.len(),
                forall|l: int| i <= l < self.entries@.len() ==> #[trigger] self.entries@[l].0@ != name@,
            decreases i,
        {
            i = i - 1;
            if self.entries[i].0 == *name {
                proof {
                    lemma_locals_last(self.entries@, name@, i as int);
                }
                return Some(&self.entries[i].1);
            }
        }
        proof {
            lemma_locals_absent(self.entries@, name@);
        }
        None
    }

    /// A copy of these values.
    pub fn duplicate(&self) -> (r: Locals)
        ensures
            r@ == self@,
    {
        let mut entries: Vec<(String, LocalValue)> = Vec::new();
        let mut i: usize = 0;
        while i < self.entries.len()
            invariant
                i <= self.entries@.len(),
                entries@.len() == i,
                forall|k: int| 0 <= k < i ==> (#[trigger] entries@[k]).0@ == self.entries@[k].0@ && entries@[k].1 == self.entries@[k].1,
            decreases self.entries.len() - i,
        {
            entries.push((self.entries[i].0.clone(), self.entries[i].1.duplicate()));
            i = i + 1;
        }
        proof {
            lemma_locals_same(entries@, self.entries@);
        }
        Locals { entries }
    }

    /// The entries in the order they were set; for a name set more than
    /// once, the last entry holds its value.
    pub fn as_entries(&self) -> (r: &Vec<(String, LocalValue)>)
        ensures
            locals_map(r@) == self@,
    {
        &self.entries
    }

    /// Sets the value of `name`, replacing an earlier one.
    pub fn insert(&mut self, name: &String, value: LocalValue)
        ensures
            final(self)@ == old(self)@.insert(name@, value),
    {
        self.entries.push((name.clone(), value));
        assert(self.entries@.drop_last() =~= old(self).entries@);
    }

    /// Takes over every entry of `delta`; its values win over earlier ones.
    pub fn extend(&mut self, delta: Locals)
        ensures
            final(self)@ == old(self)@.union_prefer_right(delta@),
    {
        let Locals { entries } = delta;
        let ghost d = entries@;
        let mut rest = entries;
        let mut taken: Vec<(String, LocalValue)> = Vec::new();
        let mut moved: Vec<(String, LocalValue)> = Vec::new();
        proof {
            assert(taken@ =~= d.subrange(0, 0));
        }
        // Reverse `rest` into `moved`, then replay it in the order it came in.
        while rest.len() > 0
            invariant
                moved@.len() + rest@.len() == d.len(),
                rest@ == d.subrange(0, rest@.len() as int),
                forall|k: int| 0 <= k < moved@.len() ==> #[trigger] moved@[k] == d[d.len() - 1 - k],
            decreases rest.len(),
        {
            let e = rest.pop().unwrap();
            moved.push(e);
        }
        let ghost base = self@;
        while moved.len() > 0
            invariant
                taken@.len() + moved@.len() == d.len(),
                taken@ == d.subrange(0, taken@.len() as int),
                forall|k: int| 0 <= k < moved@.len() ==> #[trigger] moved@[k] == d[d.len() - 1 - k],
                self@ == base.union_prefer_right(locals_map(taken@)),
            decreases moved.len(),
        {
            let e = moved.pop().unwrap();
            let ghost prev = taken@;
            proof {
                assert(e == d[taken@.len() as int]);
            }
            self.insert(&e.0, e.1.duplicate());
            taken.push(e);
            proof {
                assert(taken@ =~= d.subrange(0, taken@.len() as int));
                assert(taken@.drop_last() =~= prev);
                assert(self@ =~= base.union_prefer_right(locals_map(taken@)));
            }
        }
        assert(taken@ =~= d);
    }
}

} // verus!
