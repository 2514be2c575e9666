//! Sets of identifiers and the notebook-wide scope, which maps each bound
//! identifier to the id of the cell that binds it.

use vstd::prelude::*;
use crate::text::views;

verus! {

/// A finite set of identifiers.
#[derive(Debug)]
pub struct NameSet {
    names: Vec<String>,
}

impl View for NameSet {
    type V = Set<Seq<char>>;

    closed spec fn view(&self) -> Set<Seq<char>> {
        views(self.names@).to_set()
    }
}

proof fn lemma_views_push(v: Seq<String>, x: String)
    ensures
        views(v.push(x)).to_set() == views(v).to_set().insert(x@),
{
    assert(views(v.push(x)) =~= views(v).push(x@));
    assert forall|n: Seq<char>| #[trigger] views(v).push(x@).contains(n) <==> views(v).contains(n) || n == x@ by {
        if views(v).contains(n) {
            let i = choose|i: int| 0 <= i < views(v).len() && views(v)[i] == n;
            assert(views(v).push(x@)[i] == n);
        }
        if n == x@ {
            assert(views(v).push(x@)[views(v).len() as int] == n);
        }
        if views(v).push(x@).contains(n) {
            let i = choose|i: int| 0 <= i < views(v).push(x@).len() && views(v).push(x@)[i] == n;
            if i < views(v).len() {
                assert(views(v)[i] == n);
            }
        }
    }
    assert(views(v.push(x)).to_set() =~= views(v).to_set().insert(x@));
}

impl NameSet {
    pub fn new() -> (r: NameSet)
        ensures
            r@ == Set::<Seq<char>>::empty(),
    {
        let r = NameSet { names: Vec::new() };
        assert(views(r.names@).to_set() =~= Set::<Seq<char>>::empty());
        r
    }

    pub fn contains(&self, name: &String) -> (r: bool)
        ensures
            r == self@.contains(name@),
    {
        let mut i: usize = 0;
        while i < self.names.len()
            invariant
                i <= self.names@.len(),
                forall|k: int| 0 <= k < i ==> #[trigger] self.names@[k]@ != name@,
            decreases self.names.len() - i,
        {
            if self.names[i] == *name {
                assert(views(self.names@)[i as int] == name@);
                return true;
            }
            i = i + 1;
        }
        assert(!views(self.names@).contains(name@)) by {
            if views(self.names@).contains(name@) {
                let k = choose|k: int| 0 <= k < views(self.names@).len() && views(self.names@)[k] == name@;
                assert(self.names@[k]@ != name@);
            }
        }
        false
    }

    pub fn insert(&mut self, name: &String)
        ensures
            final(self)@ == old(self)@.insert(name@),
    {
        if !self.contains(name) {
            let s = name.clone();
            proof {
                lemma_views_push(self.names@, s);
            }
            self.names.push(s);
        } else {
            assert(old(self)@.insert(name@) =~= old(self)@);
        }
    }

    pub fn remove(&mut self, name: &String)
        ensures
            final(self)@ == old(self)@.remove(name@),
    {
        let mut kept: Vec<String> = Vec::new();
        let mut i: usize = 0;
        while i < self.names.len()
            invariant
                i <= self.names@.len(),
                views(kept@).to_set() == views(self.names@.subrange(0, i as int)).to_set().remove(name@),
            decreases self.names.len() - i,
        {
            let ghost before = kept@;
            proof {
                assert(self.names@.subrange(0, i + 1) =~= self.names@.subrange(0, i as int).push(self.names@[i as int]));
                lemma_views_push(self.names@.subrange(0, i as int), self.names@[i as int]);
            }
            if !(self.names[i] == *name) {
                let s = self.names[i].clone();
                proof {
                    lemma_views_push(before, s);
                }
                kept.push(s);
                assert(views(kept@).to_set() =~= views(self.names@.subrange(0, i + 1)).to_set().remove(name@));
            } else {
                assert(views(kept@).to_set() =~= views(self.names@.subrange(0, i + 1)).to_set().remove(name@));
            }
            i = i + 1;
        }
        assert(self.names@.subrange(0, self.names@.len() as int) =~= self.names@);
        self.names = kept;
    }

    pub fn clear(&mut self)
        ensures
            final(self)@ == Set::<Seq<char>>::empty(),
    {
        self.names = Vec::new();
        assert(views(self.names@).to_set() =~= Set::<Seq<char>>::empty());
    }

    /// A copy of this set.
    pub fn duplicate(&self) -> (r: NameSet)
        ensures
            r@ == self@,
    {
        let mut names: Vec<String> = Vec::new();
        let mut i: usize = 0;
        while i < self.names.len()
            invariant
                i <= self.names@.len(),
                names@.len() == i,
                forall|k: int| 0 <= k < i ==> #[trigger] names@[k]@ == self.names@[k]@,
            decreases self.names.len() - i,
        {
            names.push(self.names[i].clone());
            i = i + 1;
        }
        let r = NameSet { names };
        assert(views(r.names@) =~= views(self.names@));
        r
    }

    /// Adds every name of `more`.
    pub fn insert_all(&mut self, more: &Vec<String>)
        ensures
            final(self)@ == old(self)@.union(views(more@).to_set()),
    {
        let mut i: usize = 0;
        while i < more.len()
            invariant
                i <= more@.len(),
                self@ == old(self)@.union(views(more@.subrange(0, i as int)).to_set()),
            decreases more.len() - i,
        {
            self.insert(&more[i]);
            proof {
                lemma_views_push(more@.subrange(0, i as int), more@[i as int]);
                assert(more@.subrange(0, i + 1) =~= more@.subrange(0, i as int).push(more@[i as int]));
                assert(self@ =~= old(self)@.union(views(more@.subrange(0, i + 1)).to_set()));
            }
            i = i + 1;
        }
        assert(more@.subrange(0, more@.len() as int) =~= more@);
    }

    /// Removes every name of `other`.
    pub fn remove_all(&mut self, other: &NameSet)
        ensures
            final(self)@ == old(self)@.difference(other@),
    {
        let v = other.as_vec();
        let mut i: usize = 0;
        while i < v.len()
            invariant
                i <= v@.len(),
                views(v@).to_set() == other@,
                self@ == old(self)@.difference(views(v@.subrange(0, i as int)).to_set()),
            decreases v.len() - i,
        {
            self.remove(&v[i]);
            proof {
                lemma_views_push(v@.subrange(0, i as int), v@[i as int]);
                assert(v@.subrange(0, i + 1) =~= v@.subrange(0, i as int).push(v@[i as int]));
                assert(self@ =~= old(self)@.difference(views(v@.subrange(0, i + 1)).to_set()));
            }
            i = i + 1;
        }
        assert(v@.subrange(0, v@.len() as int) =~= v@);
    }

    /// The names, each once or more, in no particular order.
    pub fn as_vec(&self) -> (r: &Vec<String>)
        ensures
            views(r@).to_set() == self@,
    {
        &self.names
    }
}

/// The map that a list of entries stands for: a later entry for a name
/// overrides an earlier one.
pub open spec fn entries_map(s: Seq<(String, String)>) -> Map<Seq<char>, Seq<char>>
    decreases s.len(),
{
    if s.len() == 0 {
        Map::empty()
    } else {
        entries_map(s.drop_last()).insert(s.last().0@, s.last().1@)
    }
}

proof fn lemma_entries_last(s: Seq<(String, String)>, k: Seq<char>, j: int)
    requires
        0 <= j < s.len(),
        s[j].0@ == k,
        forall|l: int| j < l < s.len() ==> #[trigger] s[l].0@ != k,
    ensures
        entries_map(s).contains_key(k),
        entries_map(s)[k] == s[j].1@,
    decreases s.len(),
{
    if j < s.len() - 1 {
        assert(s.drop_last()[j] == s[j]);
        assert forall|l: int| j < l < s.drop_last().len() implies #[trigger] s.drop_last()[l].0@ != k by {
            assert(s.drop_last()[l] == s[l]);
        }
        lemma_entries_last(s.drop_last(), k, j);
        assert(s[s.len() - 1].0@ != k);
    }
}

proof fn lemma_entries_absent(s: Seq<(String, String)>, k: Seq<char>)
    requires
        forall|l: int| 0 <= l < s.len() ==> #[trigger] s[l].0@ != k,
    ensures
        !entries_map(s).contains_key(k),
    decreases s.len(),
{
    if s.len() > 0 {
        assert forall|l: int| 0 <= l < s.drop_last().len() implies #[trigger] s.drop_last()[l].0@ != k by {
            assert(s.drop_last()[l] == s[l]);
        }
        lemma_entries_absent(s.drop_last(), k);
        assert(s[s.len() - 1].0@ != k);
    }
}

proof fn lemma_entries_same(a: Seq<(String, String)>, b: Seq<(String, String)>)
    requires
        a.len() == b.len(),
        forall|k: int| 0 <= k < a.len() ==> (#[trigger] a[k]).0@ == b[k].0@ && a[k].1@ == b[k].1@,
    ensures
        entries_map(a) == entries_map(b),
    decreases a.len(),
{
    if a.len() > 0 {
        assert forall|k: int| 0 <= k < a.drop_last().len() implies (#[trigger] a.drop_last()[k]).0@ == b.drop_last()[k].0@ && a.drop_last()[k].1@ == b.drop_last()[k].1@ by {
            assert(a.drop_last()[k] == a[k]);
            assert(b.drop_last()[k] == b[k]);
        }
        lemma_entries_same(a.drop_last(), b.drop_last());
    }
}

/// `m` without the entries that map one of `names` to `id`.
pub open spec fn release(m: Map<Seq<char>, Seq<char>>, names: Set<Seq<char>>, id: Seq<char>) -> Map<
    Seq<char>,
    Seq<char>,
> {
    m.restrict(m.dom().filter(|k: Seq<char>| !(names.contains(k) && m[k] == id)))
}

/// The notebook-wide scope: which cell binds each identifier.
#[derive(Debug)]
pub struct Scope {
    entries: Vec<(String, String)>,
}

impl View for Scope {
    type V = Map<Seq<char>, Seq<char>>;

    closed spec fn view(&self) -> Map<Seq<char>, Seq<char>> {
        entries_map(self.entries@)
    }
}

impl Scope {
    pub fn new() -> (r: Scope)
        ensures
            r@ == Map::<Seq<char>, Seq<char>>::empty(),
    {
        Scope { entries: Vec::new() }
    }

    /// The id of the cell that binds `name`, if any.
    pub fn get(&self, name: &String) -> (r: Option<&String>)
        ensures
            r.is_some() == self@.contains_key(name@),
            r.is_some() ==> r.unwrap()@ == self@[name@],
    {
        let mut i: usize = self.entries.len();
        while i > 0
            invariant
                i <= self.entries@.len(),
                forall|l: int| i <= l < self.entries@.len() ==> #[trigger] self.entries@[l].0@ != name@,
            decreases i,
        {
            i = i - 1;
            if self.entries[i].0 == *name {
                proof {
                    lemma_entries_last(self.entries@, name@, i as int);
                }
                return Some(&self.entries[i].1);
            }
        }
        proof {
            lemma_entries_absent(self.entries@, name@);
        }
        None
    }

    /// A copy of this scope.
    pub fn duplicate(&self) -> (r: Scope)
        ensures
            r@ == self@,
    {
        let mut entries: Vec<(String, String)> = Vec::new();
        let mut i: usize = 0;
        while i < self.entries.len()
            invariant
                i <= self.entries@.len(),
                entries@.len() == i,
                forall|k: int| 0 <= k < i ==> (#[trigger] entries@[k]).0@ == self.entries@[k].0@ && entries@[k].1@ == self.entries@[k].1@,
            decreases self.entries.len() - i,
        {
            entries.push((self.entries[i].0.clone(), self.entries[i].1.clone()));
            i = i + 1;
        }
        proof {
            lemma_entries_same(entries@, self.entries@);
        }
        Scope { entries }
    }

    /// Binds `name` to the cell `id`, replacing any earlier binding.
    pub fn insert(&mut self, name: &String, id: &String)
        ensures
            final(self)@ == old(self)@.insert(name@, id@),
    {
        self.entries.push((name.clone(), id.clone()));
        assert(self.entries@.drop_last() =~= old(self).entries@);
    }

    /// Forgets the binding of `name`.
    pub fn remove(&mut self, name: &String)
        ensures
            final(self)@ == old(self)@.remove(name@),
    {
        let mut kept: Vec<(String, String)> = Vec::new();
        let mut i: usize = 0;
        while i < self.entries.len()
            invariant
                i <= self.entries@.len(),
                entries_map(kept@) == entries_map(self.entries@.subrange(0, i as int)).remove(name@),
            decreases self.entries.len() - i,
        {
            let ghost prefix = self.entries@.subrange(0, i as int);
            proof {
                assert(self.entries@.subrange(0, i + 1).drop_last() =~= prefix);
            }
            if !(self.entries[i].0 == *name) {
                let e = (self.entries[i].0.clone(), self.entries[i].1.clone());
                let ghost before = kept@;
                kept.push(e);
                assert(kept@.drop_last() =~= before);
                assert(entries_map(kept@) =~= entries_map(self.entries@.subrange(0, i + 1)).remove(name@));
            } else {
                assert(entries_map(kept@) =~= entries_map(self.entries@.subrange(0, i + 1)).remove(name@));
            }
            i = i + 1;
        }
        assert(self.entries@.subrange(0, self.entries@.len() as int) =~= self.entries@);
        self.entries = kept;
    }

    /// Forgets each of `names` that is bound to the cell `id`; bindings to
    /// other cells stay.
    pub fn release(&mut self, names: &NameSet, id: &String)
        ensures
            final(self)@ == release(old(self)@, names@, id@),
    {
        let v = names.as_vec();
        let mut i: usize = 0;
        while i < v.len()
            invariant
                i <= v@.len(),
                views(v@).to_set() == names@,
                self@ == release(old(self)@, views(v@.subrange(0, i as int)).to_set(), id@),
            decreases v.len() - i,
        {
            let ghost before = self@;
            let owned = match self.get(&v[i]) {
                Some(owner) => *owner == *id,
                None => false,
            };
            if owned {
                self.remove(&v[i]);
            }
            proof {
                assert(views(v@.subrange(0, i + 1)) =~= views(v@.subrange(0, i as int)).push(v@[i as int]@));
                let a = views(v@.subrange(0, i as int)).to_set();
                let b = views(v@.subrange(0, i + 1)).to_set();
                assert forall|n: Seq<char>| #[trigger] b.contains(n) <==> a.contains(n) || n == v@[i as int]@ by {
                    let sa = views(v@.subrange(0, i as int));
                    let sb = views(v@.subrange(0, i + 1));
                    if sa.contains(n) {
                        let j = choose|j: int| 0 <= j < sa.len() && sa[j] == n;
                        assert(sb[j] == n);
                    }
                    if n == v@[i as int]@ {
                        assert(sb[i as int] == n);
                    }
                    if sb.contains(n) {
                        let j = choose|j: int| 0 <= j < sb.len() && sb[j] == n;
                        if j < i {
                            assert(sa[j] == n);
                        }
                    }
                }
                assert(self@ =~= release(old(self)@, b, id@));
            }
            i = i + 1;
        }
        assert(v@.subrange(0, v@.len() as int) =~= v@);
    }
}

} // verus!
