//! Directed graphs given by adjacency lists, cycle detection, and the
//! ordering of nodes so that every node comes after its children.

use vstd::prelude::*;
use vstd::set_lib::lemma_len_subset;
use crate::errors::TopologyErrors;
use crate::text::views;

verus! {

/// Adjacency lists: for each node, its children.
#[derive(Debug)]
pub struct AdjList {
    entries: Vec<(String, Vec<String>)>,
}

/// The map that a list of entries stands for: a later entry for a node
/// overrides an earlier one.
pub open spec fn adj_map(s: Seq<(String, Vec<String>)>) -> Map<Seq<char>, Seq<Seq<char>>>
    decreases s.len(),
{
    if s.len() == 0 {
        Map::empty()
    } else {
        adj_map(s.drop_last()).insert(s.last().0@, views(s.last().1@))
    }
}

proof fn lemma_adj_last(s: Seq<(String, Vec<String>)>, k: Seq<char>, j: int)
    requires
        0 <= j < s.len(),
        s[j].0@ == k,
        forall|l: int| j < l < s.len() ==> #[trigger] s[l].0@ != k,
    ensures
        adj_map(s).contains_key(k),
        adj_map(s)[k] == views(s[j].1@),
    decreases s.len(),
{
    if j < s.len() - 1 {
        assert(s.drop_last()[j] == s[j]);
        assert forall|l: int| j < l < s.drop_last().len() implies #[trigger] s.drop_last()[l].0@ != k by {
            assert(s.drop_last()[l] == s[l]);
        }
        lemma_adj_last(s.drop_last(), k, j);
        assert(s[s.len() - 1].0@ != k);
    }
}

proof fn lemma_adj_absent(s: Seq<(String, Vec<String>)>, k: Seq<char>)
    requires
        forall|l: int| 0 <= l < s.len() ==> #[trigger] s[l].0@ != k,
    ensures
        !adj_map(s).contains_key(k),
    decreases s.len(),
{
    if s.len() > 0 {
        assert forall|l: int| 0 <= l < s.drop_last().len() implies #[trigger] s.drop_last()[l].0@ != k by {
            assert(s.drop_last()[l] == s[l]);
        }
        lemma_adj_absent(s.drop_last(), k);
        assert(s[s.len() - 1].0@ != k);
    }
}

proof fn lemma_adj_keys(s: Seq<(String, Vec<String>)>, k: Seq<char>)
    requires
        adj_map(s).contains_key(k),
    ensures
        exists|l: int| 0 <= l < s.len() && #[trigger] s[l].0@ == k,
    decreases s.len(),
{
    if s.len() > 0 && s.last().0@ != k {
        lemma_adj_keys(s.drop_last(), k);
        let l = choose|l: int| 0 <= l < s.drop_last().len() && #[trigger] s.drop_last()[l].0@ == k;
        assert(s[l] == s.drop_last()[l]);
    }
}

/// `x` occurs in `v`.
pub fn contains_name(v: &Vec<String>, x: &String) -> (r: bool)
    ensures
        r == views(v@).contains(x@),
{
    let mut i: usize = 0;
    while i < v.len()
        invariant
            i <= v@.len(),
            forall|k: int| 0 <= k < i ==> #[trigger] v@[k]@ != x@,
        decreases v.len() - i,
    {
        if v[i] == *x {
            assert(views(v@)[i as int] == x@);
            return true;
        }
        i = i + 1;
    }
    assert(!views(v@).contains(x@)) by {
        if views(v@).contains(x@) {
            let k = choose|k: int| 0 <= k < views(v@).len() && views(v@)[k] == x@;
            assert(v@[k]@ != x@);
        }
    }
    false
}

impl View for AdjList {
    type V = Map<Seq<char>, Seq<Seq<char>>>;

    closed spec fn view(&self) -> Map<Seq<char>, Seq<Seq<char>>> {
        adj_map(self.entries@)
    }
}

impl AdjList {
    pub fn new() -> (r: AdjList)
        ensures
            r@ == Map::<Seq<char>, Seq<Seq<char>>>::empty(),
    {
        AdjList { entries: Vec::new() }
    }

    /// Sets the children of `node`, replacing any earlier ones.
    pub fn insert(&mut self, node: String, children: Vec<String>)
        ensures
            final(self)@ == old(self)@.insert(node@, views(children@)),
    {
        self.entries.push((node, children));
        assert(self.entries@.drop_last() =~= old(self).entries@);
    }

    pub fn get(&self, node: &String) -> (r: Option<&Vec<String>>)
        ensures
            r.is_some() == self@.contains_key(node@),
            r.is_some() ==> views(r.unwrap()@) == self@[node@],
    {
        let mut i: usize = self.entries.len();
        while i > 0
            invariant
                i <= self.entries@.len(),
                forall|l: int| i <= l < self.entries@.len() ==> #[trigger] self.entries@[l].0@ != node@,
            decreases i,
        {
            i = i - 1;
            if self.entries[i].0 == *node {
                proof {
                    lemma_adj_last(self.entries@, node@, i as int);
                }
                return Some(&self.entries[i].1);
            }
        }
        proof {
            lemma_adj_absent(self.entries@, node@);
        }
        None
    }

    /// The nodes that have an entry, each once.
    pub fn keys(&self) -> (r: Vec<String>)
        ensures
            views(r@).no_duplicates(),
            views(r@).to_set() == self@.dom(),
    {
        let mut r: Vec<String> = Vec::new();
        let mut i: usize = 0;
        while i < self.entries.len()
            invariant
                i <= self.entries@.len(),
                views(r@).no_duplicates(),
                forall|n: Seq<char>| #[trigger] views(r@).contains(n) <==> exists|l: int| 0 <= l < i && #[trigger] self.entries@[l].0@ == n,
            decreases self.entries.len() - i,
        {
            let ghost before = r@;
            if !contains_name(&r, &self.entries[i].0) {
                r.push(self.entries[i].0.clone());
                assert(views(r@) =~= views(before).push(self.entries@[i as int].0@));
            }
            assert forall|n: Seq<char>| #[trigger] views(r@).contains(n) <==> exists|l: int| 0 <= l < i + 1 && #[trigger] self.entries@[l].0@ == n by {
                if views(r@).contains(n) && n != self.entries@[i as int].0@ {
                    let k = choose|k: int| 0 <= k < views(r@).len() && views(r@)[k] == n;
                    assert(views(before)[k] == n);
                    assert(views(before).contains(n));
                }
                if views(before).contains(n) {
                    let k = choose|k: int| 0 <= k < views(before).len() && views(before)[k] == n;
                    assert(views(r@)[k] == n);
                }
                if n == self.entries@[i as int].0@ && !views(before).contains(n) {
                    assert(views(r@)[views(r@).len() - 1] == n);
                }
            }
            i = i + 1;
        }
        assert forall|n: Seq<char>| #[trigger] views(r@).to_set().contains(n) <==> adj_map(self.entries@).contains_key(n) by {
            if adj_map(self.entries@).contains_key(n) {
                lemma_adj_keys(self.entries@, n);
            }
            if views(r@).contains(n) {
                let l = choose|l: int| 0 <= l < self.entries@.len() && #[trigger] self.entries@[l].0@ == n;
                // the last entry for `n` decides
                lemma_last_occurrence(self.entries@, n, l);
                let m = choose|m: int| l <= m < self.entries@.len() && #[trigger] self.entries@[m].0@ == n
                    && forall|q: int| m < q < self.entries@.len() ==> #[trigger] self.entries@[q].0@ != n;
                lemma_adj_last(self.entries@, n, m);
            }
        }
        assert(views(r@).to_set() =~= adj_map(self.entries@).dom());
        r
    }
}

proof fn lemma_last_occurrence(s: Seq<(String, Vec<String>)>, n: Seq<char>, l: int)
    requires
        0 <= l < s.len(),
        s[l].0@ == n,
    ensures
        exists|m: int| l <= m < s.len() && #[trigger] s[m].0@ == n && forall|q: int| m < q < s.len() ==> #[trigger] s[q].0@ != n,
    decreases s.len() - l,
{
    if exists|m: int| l < m < s.len() && #[trigger] s[m].0@ == n {
        let m = choose|m: int| l < m < s.len() && #[trigger] s[m].0@ == n;
        lemma_last_occurrence(s, n, m);
    } else {
        assert(forall|q: int| l < q < s.len() ==> #[trigger] s[q].0@ != n);
    }
}

/// `v` is a child of `u`.
pub open spec fn edge(g: Map<Seq<char>, Seq<Seq<char>>>, u: Seq<char>, v: Seq<char>) -> bool {
    g.contains_key(u) && g[u].contains(v)
}

/// Step `i` of the walk `p` follows an edge.
pub open spec fn step(g: Map<Seq<char>, Seq<Seq<char>>>, p: Seq<Seq<char>>, i: int) -> bool {
    edge(g, p[i], p[i + 1])
}

/// `p` is a closed walk of at least one edge.
pub open spec fn is_cycle(g: Map<Seq<char>, Seq<Seq<char>>>, p: Seq<Seq<char>>) -> bool {
    &&& p.len() >= 2
    &&& p[0] == p[p.len() - 1]
    &&& forall|i: int| 0 <= i < p.len() - 1 ==> #[trigger] step(g, p, i)
}

pub open spec fn cyclic(g: Map<Seq<char>, Seq<Seq<char>>>) -> bool {
    exists|p: Seq<Seq<char>>| is_cycle(g, p)
}

/// No child of `u` is among `rem`.
pub open spec fn ready(g: Map<Seq<char>, Seq<Seq<char>>>, rem: Seq<Seq<char>>, u: Seq<char>) -> bool {
    forall|v: Seq<char>| #[trigger] edge(g, u, v) ==> !rem.contains(v)
}

/// The first index from `i` on whose node is ready.
pub open spec fn first_ready(g: Map<Seq<char>, Seq<Seq<char>>>, rem: Seq<Seq<char>>, i: int) -> Option<
    int,
>
    decreases rem.len() - i,
{
    if i < 0 || i >= rem.len() {
        None
    } else if ready(g, rem, rem[i]) {
        Some(i)
    } else {
        first_ready(g, rem, i + 1)
    }
}

/// `prefix` put before the sequence in `rest`, if there is one.
pub open spec fn prepend(prefix: Seq<Seq<char>>, rest: Option<Seq<Seq<char>>>) -> Option<Seq<Seq<char>>> {
    match rest {
        Some(r) => Some(prefix + r),
        None => None,
    }
}

/// The nodes of `rem` ordered so that each comes after its children among
/// them: repeatedly the first ready node is taken out. None when no node is
/// ready while some remain.
pub open spec fn kahn(g: Map<Seq<char>, Seq<Seq<char>>>, rem: Seq<Seq<char>>) -> Option<Seq<Seq<char>>>
    decreases rem.len(),
{
    if rem.len() == 0 {
        Some(Seq::empty())
    } else {
        match first_ready(g, rem, 0) {
            Some(i) => if 0 <= i < rem.len() {
                prepend(seq![rem[i]], kahn(g, rem.remove(i)))
            } else {
                None
            },
            None => None,
        }
    }
}

proof fn lemma_first_ready(g: Map<Seq<char>, Seq<Seq<char>>>, rem: Seq<Seq<char>>, i: int)
    requires
        0 <= i,
    ensures
        first_ready(g, rem, i) matches Some(j) ==> i <= j < rem.len() && ready(g, rem, rem[j]),
        first_ready(g, rem, i) is None ==> forall|j: int| i <= j < rem.len() ==> !ready(g, rem, #[trigger] rem[j]),
    decreases rem.len() - i,
{
    if i < rem.len() && !ready(g, rem, rem[i]) {
        lemma_first_ready(g, rem, i + 1);
    }
}

/// Every edge between members of `o` goes from a later to an earlier one.
pub open spec fn children_first(g: Map<Seq<char>, Seq<Seq<char>>>, o: Seq<Seq<char>>) -> bool {
    forall|a: int, b: int|
        0 <= a < o.len() && 0 <= b < o.len() && #[trigger] edge(g, o[a], o[b]) ==> b < a
}

/// What `kahn` returns orders exactly the given nodes, children first.
pub proof fn lemma_kahn_sound(g: Map<Seq<char>, Seq<Seq<char>>>, r: Seq<Seq<char>>)
    requires
        kahn(g, r) is Some,
    ensures
        ({
            let o = kahn(g, r)->Some_0;
            &&& o.len() == r.len()
            &&& forall|x: Seq<char>| o.contains(x) <==> r.contains(x)
            &&& r.no_duplicates() ==> o.no_duplicates()
            &&& children_first(g, o)
        }),
    decreases r.len(),
{
    if r.len() > 0 {
        lemma_first_ready(g, r, 0);
        let i = first_ready(g, r, 0)->Some_0;
        let r2 = r.remove(i);
        lemma_kahn_sound(g, r2);
        let rest = kahn(g, r2)->Some_0;
        let o = seq![r[i]] + rest;
        assert(kahn(g, r) == Some(o));
        assert forall|x: Seq<char>| r2.contains(x) ==> r.contains(x) by {
            if r2.contains(x) {
                let k = choose|k: int| 0 <= k < r2.len() && r2[k] == x;
                if k < i {
                    assert(r[k] == x);
                } else {
                    assert(r[k + 1] == x);
                }
            }
        }
        assert forall|x: Seq<char>| o.contains(x) <==> r.contains(x) by {
            if o.contains(x) {
                let k = choose|k: int| 0 <= k < o.len() && o[k] == x;
                if k > 0 {
                    assert(rest[k - 1] == x);
                    assert(rest.contains(x));
                }
            }
            if r.contains(x) {
                let k = choose|k: int| 0 <= k < r.len() && r[k] == x;
                if k == i {
                    assert(o[0] == x);
                } else if k < i {
                    assert(r2[k] == x);
                    assert(rest.contains(x));
                    let m = choose|m: int| 0 <= m < rest.len() && rest[m] == x;
                    assert(o[m + 1] == x);
                } else {
                    assert(r2[k - 1] == x);
                    assert(rest.contains(x));
                    let m = choose|m: int| 0 <= m < rest.len() && rest[m] == x;
                    assert(o[m + 1] == x);
                }
            }
        }
        if r.no_duplicates() {
            assert(r2.no_duplicates()) by {
                assert forall|a: int, b: int| 0 <= a < r2.len() && 0 <= b < r2.len() && a != b implies r2[a] != r2[b] by {
                    let ra = if a < i { a } else { a + 1 };
                    let rb = if b < i { b } else { b + 1 };
                    assert(r2[a] == r[ra]);
                    assert(r2[b] == r[rb]);
                }
            }
            assert(!rest.contains(r[i])) by {
                if rest.contains(r[i]) {
                    assert(r2.contains(r[i]));
                    let k = choose|k: int| 0 <= k < r2.len() && r2[k] == r[i];
                    if k < i {
                        assert(r[k] == r[i]);
                    } else {
                        assert(r[k + 1] == r[i]);
                    }
                }
            }
            assert forall|a: int, b: int| 0 <= a < o.len() && 0 <= b < o.len() && a != b implies o[a] != o[b] by {
                if a == 0 && b > 0 {
                    assert(o[b] == rest[b - 1]);
                } else if b == 0 && a > 0 {
                    assert(o[a] == rest[a - 1]);
                } else if a > 0 && b > 0 {
                    assert(o[a] == rest[a - 1]);
                    assert(o[b] == rest[b - 1]);
                }
            }
        }
        assert forall|a: int, b: int|
            0 <= a < o.len() && 0 <= b < o.len() && #[trigger] edge(g, o[a], o[b]) implies b < a by {
            if a == 0 {
                assert(o[0] == r[i]);
                assert(r.contains(o[b]));
            } else if b > 0 {
                assert(o[a] == rest[a - 1]);
                assert(o[b] == rest[b - 1]);
                assert(edge(g, rest[a - 1], rest[b - 1]));
            }
        }
    }
}

/// The position of `x` in `o`.
pub open spec fn pos(o: Seq<Seq<char>>, x: Seq<char>) -> int {
    choose|a: int| 0 <= a < o.len() && o[a] == x
}

proof fn lemma_on_cycle_in_dom(g: Map<Seq<char>, Seq<Seq<char>>>, p: Seq<Seq<char>>, k: int)
    requires
        is_cycle(g, p),
        0 <= k < p.len(),
    ensures
        g.contains_key(p[k]),
{
    if k < p.len() - 1 {
        assert(step(g, p, k));
    } else {
        assert(step(g, p, 0));
    }
}

proof fn lemma_descends(g: Map<Seq<char>, Seq<Seq<char>>>, o: Seq<Seq<char>>, p: Seq<Seq<char>>, k: int)
    requires
        is_cycle(g, p),
        1 <= k < p.len(),
        forall|x: Seq<char>| g.contains_key(x) ==> o.contains(x),
        children_first(g, o),
    ensures
        0 <= pos(o, p[k]) < o.len(),
        o[pos(o, p[k])] == p[k],
        pos(o, p[k]) < pos(o, p[0]),
    decreases k,
{
    lemma_on_cycle_in_dom(g, p, k);
    lemma_on_cycle_in_dom(g, p, k - 1);
    lemma_on_cycle_in_dom(g, p, 0);
    assert(o.contains(p[k]));
    assert(o.contains(p[k - 1]));
    assert(o.contains(p[0]));
    assert(step(g, p, k - 1));
    assert(edge(g, p[k - 1], p[k]));
    let a = pos(o, p[k - 1]);
    let b = pos(o, p[k]);
    assert(edge(g, o[a], o[b]));
    if k > 1 {
        lemma_descends(g, o, p, k - 1);
    }
}

proof fn lemma_order_acyclic(g: Map<Seq<char>, Seq<Seq<char>>>, o: Seq<Seq<char>>)
    requires
        forall|x: Seq<char>| g.contains_key(x) ==> o.contains(x),
        children_first(g, o),
    ensures
        !cyclic(g),
{
    if cyclic(g) {
        let p = choose|p: Seq<Seq<char>>| is_cycle(g, p);
        lemma_descends(g, o, p, p.len() - 1);
    }
}

/// A child of `node` that is still among `remaining`, if there is one.
fn child_within(node: &String, adj: &AdjList, remaining: &Vec<String>) -> (r: Option<String>)
    ensures
        r matches Some(c) ==> edge(adj@, node@, c@) && views(remaining@).contains(c@),
        r is None ==> ready(adj@, views(remaining@), node@),
{
    match adj.get(node) {
        Some(children) => {
            let mut i: usize = 0;
            while i < children.len()
                invariant
                    i <= children@.len(),
                    adj@.contains_key(node@),
                    views(children@) == adj@[node@],
                    forall|k: int| 0 <= k < i ==> !views(remaining@).contains(#[trigger] children@[k]@),
                decreases children.len() - i,
            {
                if contains_name(remaining, &children[i]) {
                    assert(views(children@)[i as int] == children@[i as int]@);
                    return Some(children[i].clone());
                }
                i = i + 1;
            }
            assert forall|v: Seq<char>| #[trigger] edge(adj@, node@, v) implies !views(remaining@).contains(v) by {
                let k = choose|k: int| 0 <= k < adj@[node@].len() && adj@[node@][k] == v;
                assert(views(children@)[k] == children@[k]@);
            }
            None
        },
        None => None,
    }
}

proof fn lemma_walk_bound(walk: Seq<Seq<char>>, rem: Seq<Seq<char>>)
    requires
        walk.no_duplicates(),
        forall|x: Seq<char>| walk.contains(x) ==> rem.contains(x),
    ensures
        walk.len() <= rem.len(),
{
    walk.unique_seq_to_set();
    rem.lemma_cardinality_of_set();
    assert(walk.to_set().subset_of(rem.to_set()));
    lemma_len_subset(walk.to_set(), rem.to_set());
}

/// Orders `nodes` so that each comes after its children among them, taking
/// at each step the first node, in the given order, none of whose children
/// is left. None when the nodes left all have a child left, which only a
/// cycle allows.
pub fn peel(adj: &AdjList, nodes: &Vec<String>) -> (r: Option<Vec<String>>)
    ensures
        r matches Some(o) ==> kahn(adj@, views(nodes@)) == Some(views(o@)),
        r is None ==> kahn(adj@, views(nodes@)) is None && cyclic(adj@),
{
    let ghost g = adj@;
    let mut rem: Vec<String> = Vec::new();
    let mut k: usize = 0;
    while k < nodes.len()
        invariant
            k <= nodes@.len(),
            views(rem@) == views(nodes@).subrange(0, k as int),
        decreases nodes.len() - k,
    {
        let ghost before = views(rem@);
        rem.push(nodes[k].clone());
        assert(views(rem@) =~= before.push(nodes@[k as int]@));
        assert(views(rem@) =~= views(nodes@).subrange(0, k + 1));
        k = k + 1;
    }
    assert(views(nodes@).subrange(0, nodes@.len() as int) =~= views(nodes@));
    let mut order: Vec<String> = Vec::new();
    assert(views(order@) =~= Seq::<Seq<char>>::empty());
    while rem.len() > 0
        invariant
            kahn(g, views(nodes@)) == prepend(views(order@), kahn(g, views(rem@))),
            g == adj@,
        decreases rem.len(),
    {
        let ghost rv = views(rem@);
        let mut i: usize = 0;
        let mut found = false;
        while !found && i < rem.len()
            invariant
                i <= rem@.len(),
                rv == views(rem@),
                g == adj@,
                first_ready(g, rv, 0) == if found { Some(i as int) } else { first_ready(g, rv, i as int) },
                found ==> i < rem@.len(),
            decreases rem.len() - i + (if found { 0int } else { 1int }),
        {
            assert(rv[i as int] == rem@[i as int]@);
            if !Graph::has_cycle_util(&rem[i], adj, &rem) {
                found = true;
            } else {
                i = i + 1;
            }
        }
        if !found {
            proof {
                lemma_first_ready(g, rv, 0);
            }
            // every node left has a child left: follow children until one repeats
            let mut walk: Vec<String> = Vec::new();
            walk.push(rem[0].clone());
            proof {
                assert(rv[0] == rem@[0]@);
                assert(views(walk@) =~= seq![rv[0]]);
            }
            loop
                invariant
                    rv == views(rem@),
                    g == adj@,
                    rv.len() > 0,
                    first_ready(g, rv, 0) is None,
                    forall|j: int| 0 <= j < rv.len() ==> !ready(g, rv, #[trigger] rv[j]),
                    walk@.len() >= 1,
                    views(walk@).no_duplicates(),
                    forall|x: Seq<char>| views(walk@).contains(x) ==> rv.contains(x),
                    forall|j: int| 0 <= j < walk@.len() - 1 ==> #[trigger] edge(g, walk@[j]@, walk@[j + 1]@),
                    kahn(g, views(nodes@)) == prepend(views(order@), kahn(g, rv)),
                decreases rv.len() - walk@.len(),
            {
                let last = walk.len() - 1;
                proof {
                    let x = walk@[last as int]@;
                    assert(views(walk@)[last as int] == x);
                    assert(views(walk@).contains(x));
                    assert(rv.contains(x));
                    let q = choose|q: int| 0 <= q < rv.len() && rv[q] == x;
                    assert(!ready(g, rv, rv[q]));
                    assert(!ready(g, views(rem@), x));
                }
                let c = match child_within(&walk[last], adj, &rem) {
                    Some(c) => c,
                    None => {
                        assert(false);
                        return None;
                    },
                };
                if contains_name(&walk, &c) {
                    proof {
                        let w = views(walk@);
                        let j = choose|j: int| 0 <= j < w.len() && w[j] == c@;
                        let cyc = w.subrange(j, w.len() as int).push(c@);
                        assert forall|t: int| 0 <= t < cyc.len() - 1 implies #[trigger] step(g, cyc, t) by {
                            if t < cyc.len() - 2 {
                                assert(edge(g, walk@[j + t]@, walk@[j + t + 1]@));
                                assert(cyc[t] == walk@[j + t]@);
                                assert(cyc[t + 1] == walk@[j + t + 1]@);
                            } else {
                                assert(cyc[t] == walk@[walk@.len() - 1]@);
                            }
                        }
                        assert(is_cycle(g, cyc));
                        assert(kahn(g, rv) is None);
                    }
                    return None;
                }
                let ghost before = views(walk@);
                walk.push(c);
                proof {
                    let w = views(walk@);
                    assert(w =~= before.push(c@));
                    assert forall|x: Seq<char>| w.contains(x) implies rv.contains(x) by {
                        let t = choose|t: int| 0 <= t < w.len() && w[t] == x;
                        if t < before.len() {
                            assert(before[t] == x);
                        }
                    }
                    assert forall|a: int, b: int| 0 <= a < w.len() && 0 <= b < w.len() && a != b implies w[a] != w[b] by {
                        if a == w.len() - 1 {
                            assert(before.contains(before[b]) );
                        } else if b == w.len() - 1 {
                            assert(before.contains(before[a]));
                        }
                    }
                    lemma_walk_bound(w, rv);
                }
            }
        }
        proof {
            lemma_first_ready(g, rv, 0);
        }
        let ghost ov = views(order@);
        let taken = rem.remove(i);
        order.push(taken);
        proof {
            assert(views(rem@) =~= rv.remove(i as int));
            assert(views(order@) =~= ov + seq![rv[i as int]]);
            match kahn(g, views(rem@)) {
                Some(rest) => {
                    assert(ov + (seq![rv[i as int]] + rest) =~= views(order@) + rest);
                },
                None => {},
            }
        }
    }
    proof {
        assert(views(order@) + Seq::<Seq<char>>::empty() =~= views(order@));
    }
    Some(order)
}

/// `p` is a walk of zero or more edges.
pub open spec fn is_walk(g: Map<Seq<char>, Seq<Seq<char>>>, p: Seq<Seq<char>>) -> bool {
    &&& p.len() >= 1
    &&& forall|i: int| 0 <= i < p.len() - 1 ==> #[trigger] step(g, p, i)
}

/// `b` can be reached from `a` by following edges.
pub open spec fn reach(g: Map<Seq<char>, Seq<Seq<char>>>, a: Seq<char>, b: Seq<char>) -> bool {
    exists|p: Seq<Seq<char>>| is_walk(g, p) && p[0] == a && p[p.len() - 1] == b
}

/// Every child of a member of `s` is a member.
pub open spec fn closed(g: Map<Seq<char>, Seq<Seq<char>>>, s: Seq<Seq<char>>) -> bool {
    forall|u: Seq<char>, v: Seq<char>| s.contains(u) && #[trigger] edge(g, u, v) ==> s.contains(v)
}

proof fn lemma_closed_reach(g: Map<Seq<char>, Seq<Seq<char>>>, s: Seq<Seq<char>>, p: Seq<Seq<char>>)
    requires
        is_walk(g, p),
        s.contains(p[0]),
        closed(g, s),
    ensures
        s.contains(p[p.len() - 1]),
    decreases p.len(),
{
    if p.len() > 1 {
        let q = p.drop_last();
        assert forall|i: int| 0 <= i < q.len() - 1 implies #[trigger] step(g, q, i) by {
            assert(step(g, p, i));
        }
        lemma_closed_reach(g, s, q);
        assert(step(g, p, p.len() - 2));
    }
}

/// `start` and every node that is a child of some node.
fn all_nodes(g: &AdjList, start: &String) -> (r: Vec<String>)
    ensures
        views(r@).contains(start@),
        forall|u: Seq<char>, v: Seq<char>| #[trigger] edge(g@, u, v) ==> views(r@).contains(v),
{
    let keys = g.keys();
    let mut r: Vec<String> = Vec::new();
    r.push(start.clone());
    assert(views(r@)[0] == start@);
    let mut i: usize = 0;
    while i < keys.len()
        invariant
            i <= keys@.len(),
            views(keys@).to_set() == g@.dom(),
            views(r@).contains(start@),
            forall|k: int, v: Seq<char>| 0 <= k < i && #[trigger] edge(g@, keys@[k]@, v) ==> views(r@).contains(v),
        decreases keys.len() - i,
    {
        assert(views(keys@).contains(keys@[i as int]@)) by {
            assert(views(keys@)[i as int] == keys@[i as int]@);
        }
        let children = match g.get(&keys[i]) {
            Some(c) => c,
            None => {
                assert(false);
                return r;
            },
        };
        let mut j: usize = 0;
        while j < children.len()
            invariant
                j <= children@.len(),
                i < keys@.len(),
                views(children@) == g@[keys@[i as int]@],
                g@.contains_key(keys@[i as int]@),
                views(r@).contains(start@),
                forall|k: int, v: Seq<char>| 0 <= k < i && #[trigger] edge(g@, keys@[k]@, v) ==> views(r@).contains(v),
                forall|m: int| 0 <= m < j ==> views(r@).contains(#[trigger] children@[m]@),
            decreases children.len() - j,
        {
            let ghost before = views(r@);
            r.push(children[j].clone());
            proof {
                assert(views(r@) =~= before.push(children@[j as int]@));
                assert forall|x: Seq<char>| before.contains(x) implies views(r@).contains(x) by {
                    let q = choose|q: int| 0 <= q < before.len() && before[q] == x;
                    assert(views(r@)[q] == x);
                }
                assert(views(r@)[before.len() as int] == children@[j as int]@);
            }
            j = j + 1;
        }
        proof {
            assert forall|k: int, v: Seq<char>| 0 <= k < i + 1 && #[trigger] edge(g@, keys@[k]@, v) implies views(r@).contains(v) by {
                if k == i {
                    let m = choose|m: int| 0 <= m < g@[keys@[i as int]@].len() && g@[keys@[i as int]@][m] == v;
                    assert(views(children@)[m] == children@[m]@);
                }
            }
        }
        i = i + 1;
    }
    proof {
        assert forall|u: Seq<char>, v: Seq<char>| #[trigger] edge(g@, u, v) implies views(r@).contains(v) by {
            assert(views(keys@).to_set().contains(u));
            let k = choose|k: int| 0 <= k < views(keys@).len() && views(keys@)[k] == u;
            assert(edge(g@, keys@[k]@, v));
        }
    }
    r
}

/// Every node reachable from `start`, `start` included, each once.
pub fn closure(g: &AdjList, start: &String) -> (r: Vec<String>)
    ensures
        forall|x: Seq<char>| views(r@).contains(x) <==> reach(g@, start@, x),
{
    let universe = all_nodes(g, start);
    let mut seen: Vec<String> = Vec::new();
    seen.push(start.clone());
    proof {
        assert(views(seen@) =~= seq![start@]);
        assert(is_walk(g@, seq![start@]));
    }
    let mut done: usize = 0;
    while done < seen.len()
        invariant
            done <= seen@.len(),
            seen@.len() >= 1,
            views(seen@)[0] == start@,
            views(seen@).no_duplicates(),
            forall|x: Seq<char>| views(seen@).contains(x) ==> views(universe@).contains(x),
            forall|x: Seq<char>| views(seen@).contains(x) ==> reach(g@, start@, x),
            forall|k: int, v: Seq<char>| 0 <= k < done && #[trigger] edge(g@, seen@[k]@, v) ==> views(seen@).contains(v),
            views(universe@).contains(start@),
            forall|u: Seq<char>, v: Seq<char>| #[trigger] edge(g@, u, v) ==> views(universe@).contains(v),
        decreases universe@.len() - done,
    {
        proof {
            lemma_walk_bound(views(seen@), views(universe@));
        }
        let u = seen[done].clone();
        proof {
            assert(views(seen@)[done as int] == u@);
            assert(views(seen@).contains(u@));
        }
        match g.get(&u) {
            Some(children) => {
                let mut j: usize = 0;
                while j < children.len()
                    invariant
                        j <= children@.len(),
                        done < seen@.len(),
                        u@ == seen@[done as int]@,
                        g@.contains_key(u@),
                        views(children@) == g@[u@],
                        reach(g@, start@, u@),
                        seen@.len() >= 1,
                        views(seen@)[0] == start@,
                        views(seen@).no_duplicates(),
                        forall|x: Seq<char>| views(seen@).contains(x) ==> views(universe@).contains(x),
                        forall|x: Seq<char>| views(seen@).contains(x) ==> reach(g@, start@, x),
                        forall|k: int, v: Seq<char>| 0 <= k < done && #[trigger] edge(g@, seen@[k]@, v) ==> views(seen@).contains(v),
                        forall|m: int| 0 <= m < j ==> views(seen@).contains(#[trigger] children@[m]@),
                        forall|u2: Seq<char>, v: Seq<char>| #[trigger] edge(g@, u2, v) ==> views(universe@).contains(v),
                    decreases children.len() - j,
                {
                    if !contains_name(&seen, &children[j]) {
                        let ghost before = views(seen@);
                        let ghost c = children@[j as int]@;
                        proof {
                            assert(views(children@)[j as int] == c);
                            assert(edge(g@, u@, c));
                            let p = choose|p: Seq<Seq<char>>| is_walk(g@, p) && p[0] == start@ && p[p.len() - 1] == u@;
                            let longer = p.push(c);
                            assert forall|t: int| 0 <= t < longer.len() - 1 implies #[trigger] step(g@, longer, t) by {
                                if t < p.len() - 1 {
                                    assert(step(g@, p, t));
                                }
                            }
                            assert(is_walk(g@, longer));
                            assert(longer[0] == start@);
                            assert(longer[longer.len() - 1] == c);
                            assert(reach(g@, start@, c));
                        }
                        seen.push(children[j].clone());
                        proof {
                            assert(views(seen@) =~= before.push(c));
                            assert forall|x: Seq<char>| views(seen@).contains(x) implies before.contains(x) || x == c by {
                                let q = choose|q: int| 0 <= q < views(seen@).len() && views(seen@)[q] == x;
                                if q < before.len() {
                                    assert(before[q] == x);
                                }
                            }
                            assert forall|x: Seq<char>| before.contains(x) implies views(seen@).contains(x) by {
                                let q = choose|q: int| 0 <= q < before.len() && before[q] == x;
                                assert(views(seen@)[q] == x);
                            }
                            assert(views(seen@)[before.len() as int] == c);
                            assert forall|x: Seq<char>| views(seen@).contains(x) implies reach(g@, start@, x) by {
                                if x != c {
                                    assert(before.contains(x));
                                }
                            }
                            assert forall|a: int, b: int| 0 <= a < views(seen@).len() && 0 <= b < views(seen@).len() && a != b implies views(seen@)[a] != views(seen@)[b] by {
                                if a == before.len() {
                                    assert(before.contains(before[b]));
                                } else if b == before.len() {
                                    assert(before.contains(before[a]));
                                }
                            }
                        }
                    }
                    j = j + 1;
                }
                proof {
                    assert forall|k: int, v: Seq<char>| 0 <= k < done + 1 && #[trigger] edge(g@, seen@[k]@, v) implies views(seen@).contains(v) by {
                        if k == done {
                            let m = choose|m: int| 0 <= m < g@[u@].len() && g@[u@][m] == v;
                            assert(views(children@)[m] == children@[m]@);
                        }
                    }
                }
            },
            None => {
                assert forall|k: int, v: Seq<char>| 0 <= k < done + 1 && #[trigger] edge(g@, seen@[k]@, v) implies views(seen@).contains(v) by {}
            },
        }
        done = done + 1;
    }
    proof {
        assert(closed(g@, views(seen@))) by {
            assert forall|a: Seq<char>, v: Seq<char>| views(seen@).contains(a) && #[trigger] edge(g@, a, v) implies views(seen@).contains(v) by {
                let k = choose|k: int| 0 <= k < views(seen@).len() && views(seen@)[k] == a;
                assert(edge(g@, seen@[k]@, v));
            }
        }
        assert forall|x: Seq<char>| reach(g@, start@, x) implies views(seen@).contains(x) by {
            let p = choose|p: Seq<Seq<char>>| is_walk(g@, p) && p[0] == start@ && p[p.len() - 1] == x;
            lemma_closed_reach(g@, views(seen@), p);
        }
    }
    seen
}

/// A copy of a list of names.
pub fn copy_names(v: &Vec<String>) -> (r: Vec<String>)
    ensures
        views(r@) == views(v@),
{
    let mut r: Vec<String> = Vec::new();
    let mut i: usize = 0;
    while i < v.len()
        invariant
            i <= v@.len(),
            views(r@) == views(v@).subrange(0, i as int),
        decreases v.len() - i,
    {
        let ghost before = views(r@);
        r.push(v[i].clone());
        assert(views(r@) =~= before.push(v@[i as int]@));
        assert(views(r@) =~= views(v@).subrange(0, i + 1));
        i = i + 1;
    }
    assert(views(v@).subrange(0, v@.len() as int) =~= views(v@));
    r
}

/// A graph kept free of cycles: an edge goes from a node to a child.
#[derive(Debug)]
pub struct Graph {
    pub adj_list: AdjList,
}

impl Graph {
    pub fn new() -> (r: Graph)
        ensures
            r.adj_list@ == Map::<Seq<char>, Seq<Seq<char>>>::empty(),
    {
        Graph { adj_list: AdjList::new() }
    }

    /// The children of `uuid`, if it is a node.
    pub fn get(&self, uuid: &String) -> (r: Option<&Vec<String>>)
        ensures
            r.is_some() == self.adj_list@.contains_key(uuid@),
            r.is_some() ==> views(r.unwrap()@) == self.adj_list@[uuid@],
    {
        self.adj_list.get(uuid)
    }

    /// A node seen for the first time enters with no children. For a known
    /// node, `child_uuids` are added to its children, unless that closes a
    /// cycle: then the graph stays as it was.
    pub fn add_node(&mut self, parent_uuid: &String, child_uuids: Option<&Vec<String>>) -> (r: Result<
        (),
        TopologyErrors,
    >)
        ensures
            !old(self).adj_list@.contains_key(parent_uuid@) ==> r.is_ok() && final(self).adj_list@
                == old(self).adj_list@.insert(parent_uuid@, Seq::empty()),
            old(self).adj_list@.contains_key(parent_uuid@) ==> {
                let added = match child_uuids {
                    Some(c) => views(c@),
                    None => Seq::empty(),
                };
                let next = old(self).adj_list@.insert(
                    parent_uuid@,
                    old(self).adj_list@[parent_uuid@] + added,
                );
                &&& r.is_err() == cyclic(next)
                &&& r.is_err() ==> r == Err::<(), TopologyErrors>(TopologyErrors::CycleDetected)
                    && final(self).adj_list@ == old(self).adj_list@
                &&& r.is_ok() ==> final(self).adj_list@ == next
            },
    {
        let deps = match self.adj_list.get(parent_uuid) {
            Some(parent_deps) => copy_names(parent_deps),
            None => {
                let empty: Vec<String> = Vec::new();
                assert(views(empty@) =~= Seq::<Seq<char>>::empty());
                self.adj_list.insert(parent_uuid.clone(), empty);
                return Ok(());
            },
        };
        let mut next_deps = copy_names(&deps);
        match child_uuids {
            Some(child_uuids) => {
                let mut more = copy_names(child_uuids);
                let ghost a = views(next_deps@);
                next_deps.append(&mut more);
                assert(views(next_deps@) =~= a + views(child_uuids@));
            },
            None => {
                assert(views(next_deps@) =~= views(deps@) + Seq::<Seq<char>>::empty());
            },
        }
        self.adj_list.insert(parent_uuid.clone(), next_deps);
        if Self::has_cycle(&self.adj_list) {
            self.adj_list.insert(parent_uuid.clone(), deps);
            assert(self.adj_list@ =~= old(self).adj_list@);
            return Err(TopologyErrors::CycleDetected);
        }
        Ok(())
    }

    /// Some child of `node` is still among `remaining`.
    pub fn has_cycle_util(node: &String, adj_list: &AdjList, remaining: &Vec<String>) -> (r: bool)
        ensures
            r == !ready(adj_list@, views(remaining@), node@),
    {
        child_within(node, adj_list, remaining).is_some()
    }

    /// The graph given by `adj_list` has a cycle.
    pub fn has_cycle(adj_list: &AdjList) -> (r: bool)
        ensures
            r == cyclic(adj_list@),
    {
    let keys = adj_list.keys();
    match peel(adj_list, &keys) {
        Some(o) => {
            proof {
                lemma_kahn_sound(adj_list@, views(keys@));
                assert forall|x: Seq<char>| adj_list@.contains_key(x) implies views(o@).contains(x) by {
                    assert(views(keys@).to_set().contains(x));
                }
                lemma_order_acyclic(adj_list@, views(o@));
            }
            false
        },
        None => true,
    }
    }
}

} // verus!
