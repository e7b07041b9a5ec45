use vstd::prelude::*;

use crate::order::{Chain, chain_of, chains_of, strictly_sorted, chain_equal, sort_chains};

verus! {

/// `p` is a prefix of `c`.
pub open spec fn is_prefix(p: Chain, c: Chain) -> bool {
    p.len() <= c.len() && c.take(p.len() as int) == p
}

/// `x` is a child of `p`: it extends `p` by one component.
pub open spec fn is_child(p: Chain, x: Chain) -> bool {
    x.len() == p.len() + 1 && x.take(p.len() as int) == p
}

/// Some chain of the graph is a child of `p`.
pub open spec fn has_child(m: Map<Chain, bool>, p: Chain) -> bool {
    exists|x: Chain| #[trigger] m.contains_key(x) && is_child(p, x)
}

/// The graph after every chain and edge along `c` has been made to exist, with `c`
/// marked as an entry.
pub open spec fn ensured(m: Map<Chain, bool>, c: Chain) -> Map<Chain, bool> {
    Map::new(
        |x: Chain| m.contains_key(x) || (1 <= x.len() && is_prefix(x, c)),
        |x: Chain| x == c || (m.contains_key(x) && m[x]),
    )
}

/// Starting at `b` and following edges of the graph, one arrives at `c`.
pub open spec fn reaches(m: Map<Chain, bool>, b: Chain, c: Chain) -> bool {
    is_prefix(b, c) && forall|k: int| b.len() < k <= c.len() ==> #[trigger] m.contains_key(c.take(k))
}

/// `c` is an entry of the graph with no children.
pub open spec fn is_leaf_entry(m: Map<Chain, bool>, c: Chain) -> bool {
    m.contains_key(c) && m[c] && !has_child(m, c)
}

/// The entries with no children that a descent from `b` collects.
pub open spec fn leaves_under(m: Map<Chain, bool>, b: Chain) -> Set<Chain> {
    Set::new(|c: Chain| reaches(m, b, c) && is_leaf_entry(m, c))
}

/// The children of `p` in the graph.
pub open spec fn children_of(m: Map<Chain, bool>, p: Chain) -> Set<Chain> {
    Set::new(|x: Chain| m.contains_key(x) && is_child(p, x))
}

/// What a scan of the graph below `b` keeps: children of `b`, or leaf entries reached from `b`.
pub open spec fn selected(m: Map<Chain, bool>, b: Chain, c: Chain, leaves: bool) -> bool {
    if leaves {
        reaches(m, b, c) && is_leaf_entry(m, c)
    } else {
        m.contains_key(c) && is_child(b, c)
    }
}

/// A content-addressed graph of chains. A chain is present when the edge from its
/// parent to it exists; the value says whether it was created as an entry. The root,
/// the empty chain, is implicit.
pub struct Graph {
    nodes: Vec<Vec<String>>,
    entries: Vec<bool>,
    contents: Ghost<Map<Chain, bool>>,
}

impl View for Graph {
    type V = Map<Chain, bool>;

    closed spec fn view(&self) -> Map<Chain, bool> {
        self.contents@
    }
}

/// Whether `p` is a prefix of `c`.
pub fn prefix_of(p: &Vec<String>, c: &Vec<String>) -> (r: bool)
    ensures
        r == is_prefix(chain_of(p@), chain_of(c@)),
{
    if p.len() > c.len() {
        return false;
    }
    let mut i: usize = 0;
    while i < p.len()
        invariant
            i <= p.len() <= c.len(),
            forall|k: int| 0 <= k < i ==> chain_of(p@)[k] == chain_of(c@)[k],
        decreases p.len() - i,
    {
        if p[i] != c[i] {
            assert(chain_of(c@).take(p.len() as int)[i as int] == chain_of(c@)[i as int]);
            return false;
        }
        i = i + 1;
    }
    assert(chain_of(c@).take(p.len() as int) =~= chain_of(p@));
    true
}

proof fn lemma_chain_push(v: Seq<String>, s: String)
    ensures
        chain_of(v.push(s)) == chain_of(v).push(s@),
{
    assert(chain_of(v.push(s)) =~= chain_of(v).push(s@));
}

proof fn lemma_take_push<A>(c: Seq<A>, i: int)
    requires
        0 <= i < c.len(),
    ensures
        c.take(i + 1) == c.take(i).push(c[i]),
{
    assert(c.take(i + 1) =~= c.take(i).push(c[i]));
}

/// The first `k` components of `c`.
pub fn take_chain(c: &Vec<String>, k: usize) -> (r: Vec<String>)
    requires
        k <= c.len(),
    ensures
        chain_of(r@) == chain_of(c@).take(k as int),
{
    let mut r: Vec<String> = Vec::new();
    let mut i: usize = 0;
    while i < k
        invariant
            i <= k <= c.len(),
            chain_of(r@) == chain_of(c@).take(i as int),
        decreases k - i,
    {
        let ghost old_r = r@;
        let s = c[i].clone();
        r.push(s);
        proof {
            assert(r@ == old_r.push(s));
            lemma_chain_push(old_r, s);
            lemma_take_push(chain_of(c@), i as int);
        }
        i = i + 1;
    }
    r
}

impl Graph {
    /// The chain of the `i`-th stored node.
    pub closed spec fn node(&self, i: int) -> Chain {
        chain_of(self.nodes@[i]@)
    }

    /// The stored nodes list each chain of the graph once, with its entry mark.
    pub closed spec fn wf(&self) -> bool {
        &&& self.nodes.len() == self.entries.len()
        &&& forall|i: int|
            0 <= i < self.nodes.len() ==> self.contents@.contains_key(#[trigger] self.node(i))
                && self.contents@[self.node(i)] == self.entries@[i]
        &&& forall|c: Chain|
            #[trigger] self.contents@.contains_key(c) ==> exists|i: int|
                0 <= i < self.nodes.len() && #[trigger] self.node(i) == c
        &&& forall|i: int, j: int|
            0 <= i < self.nodes.len() && 0 <= j < self.nodes.len() && i != j ==> #[trigger] self.node(i)
                != #[trigger] self.node(j)
    }

    /// An empty graph: only the root.
    pub fn new() -> (r: Graph)
        ensures
            r.wf(),
            r@ == Map::<Chain, bool>::empty(),
    {
        Graph { nodes: Vec::new(), entries: Vec::new(), contents: Ghost(Map::empty()) }
    }

    fn find(&self, c: &Vec<String>) -> (r: Option<usize>)
        requires
            self.wf(),
        ensures
            r is None <==> !self@.contains_key(chain_of(c@)),
            r matches Some(i) ==> i < self.nodes.len() && self.node(i as int) == chain_of(c@),
    {
        let mut i: usize = 0;
        while i < self.nodes.len()
            invariant
                self.wf(),
                i <= self.nodes.len(),
                forall|j: int| 0 <= j < i ==> #[trigger] self.node(j) != chain_of(c@),
            decreases self.nodes.len() - i,
        {
            if chain_equal(&self.nodes[i], c) {
                assert(self@.contains_key(self.node(i as int)));
                return Some(i);
            }
            i = i + 1;
        }
        None
    }

    /// Whether the edge into `c` exists.
    pub fn contains(&self, c: &Vec<String>) -> (r: bool)
        requires
            self.wf(),
        ensures
            r == self@.contains_key(chain_of(c@)),
    {
        self.find(c).is_some()
    }

    /// Whether `c` exists as an entry.
    pub fn is_entry(&self, c: &Vec<String>) -> (r: bool)
        requires
            self.wf(),
        ensures
            r == (self@.contains_key(chain_of(c@)) && self@[chain_of(c@)]),
    {
        match self.find(c) {
            Some(i) => self.entries[i],
            None => false,
        }
    }

    /// Whether some chain of the graph is a child of `p`.
    pub fn has_children(&self, p: &Vec<String>) -> (r: bool)
        requires
            self.wf(),
        ensures
            r == has_child(self@, chain_of(p@)),
    {
        let mut i: usize = 0;
        while i < self.nodes.len()
            invariant
                self.wf(),
                i <= self.nodes.len(),
                forall|j: int| 0 <= j < i ==> !is_child(chain_of(p@), #[trigger] self.node(j)),
            decreases self.nodes.len() - i,
        {
            if self.nodes[i].len() > p.len() && self.nodes[i].len() - 1 == p.len() && prefix_of(p, &self.nodes[i]) {
                assert(self@.contains_key(self.node(i as int)));
                return true;
            }
            i = i + 1;
        }
        assert forall|x: Chain| #[trigger] self@.contains_key(x) implies !is_child(chain_of(p@), x) by {
            let j = choose|j: int| 0 <= j < self.nodes.len() && #[trigger] self.node(j) == x;
        }
        false
    }

    /// Deletes the edge into `c`: `c` is no longer part of the graph.
    pub fn delete_edge(&mut self, c: &Vec<String>)
        requires
            old(self).wf(),
        ensures
            final(self).wf(),
            final(self)@ == old(self)@.remove(chain_of(c@)),
    {
        match self.find(c) {
            None => {
                assert(self@.remove(chain_of(c@)) =~= self@);
            },
            Some(i) => {
                let ghost old_g = *self;
                self.nodes.remove(i);
                self.entries.remove(i);
                self.contents = Ghost(self.contents@.remove(chain_of(c@)));
                proof {
                    assert forall|k: int| 0 <= k < self.nodes.len() implies #[trigger] self.node(k)
                        == old_g.node(if k < i { k } else { k + 1 }) by {}
                    assert forall|k: int| 0 <= k < self.nodes.len() implies self.contents@.contains_key(
                        #[trigger] self.node(k),
                    ) && self.contents@[self.node(k)] == self.entries@[k] by {
                        let ok = if k < i { k } else { k + 1 };
                        assert(old_g.node(ok) != old_g.node(i as int));
                    }
                    assert forall|x: Chain| #[trigger] self.contents@.contains_key(x) implies exists|k: int|
                        0 <= k < self.nodes.len() && #[trigger] self.node(k) == x by {
                        let j = choose|j: int| 0 <= j < old_g.nodes.len() && #[trigger] old_g.node(j) == x;
                        let k = if j < i { j } else { j - 1 };
                        assert(self.node(k) == x);
                    }
                    assert forall|a: int, b: int|
                        0 <= a < self.nodes.len() && 0 <= b < self.nodes.len() && a != b implies #[trigger] self.node(a)
                            != #[trigger] self.node(b) by {
                        let oa = if a < i { a } else { a + 1 };
                        let ob = if b < i { b } else { b + 1 };
                        assert(old_g.node(oa) != old_g.node(ob));
                    }
                }
            },
        }
    }

    /// Makes every chain and edge along `c` exist, and marks `c` as an entry.
    pub fn ensure_chain(&mut self, c: &Vec<String>)
        requires
            old(self).wf(),
            c.len() >= 1,
        ensures
            final(self).wf(),
            final(self)@ == ensured(old(self)@, chain_of(c@)),
    {
        let ghost m0 = self@;
        let ghost cc = chain_of(c@);
        let mut prefix: Vec<String> = Vec::new();
        let mut k: usize = 0;
        assert(self@ =~= Map::new(
            |x: Chain| m0.contains_key(x) || (1 <= x.len() <= 0 && is_prefix(x, cc)),
            |x: Chain| (x == cc && x.len() <= 0) || (m0.contains_key(x) && m0[x]),
        ));
        assert(chain_of(prefix@) =~= cc.take(0));
        while k < c.len()
            invariant
                self.wf(),
                k <= c.len(),
                cc == chain_of(c@),
                chain_of(prefix@) == cc.take(k as int),
                self@ == Map::new(
                    |x: Chain| m0.contains_key(x) || (1 <= x.len() <= k && is_prefix(x, cc)),
                    |x: Chain| (x == cc && x.len() <= k) || (m0.contains_key(x) && m0[x]),
                ),
            decreases c.len() - k,
        {
            let ghost old_p = prefix@;
            let s = c[k].clone();
            prefix.push(s);
            proof {
                assert(prefix@ == old_p.push(s));
                lemma_chain_push(old_p, s);
                lemma_take_push(cc, k as int);
            }
            k = k + 1;
            let ghost pc = cc.take(k as int);
            assert(chain_of(prefix@) =~= pc);
            let last = k == c.len();
            proof {
                if last {
                    assert(pc =~= cc);
                }
            }
            match self.find(&prefix) {
                None => {
                    let ghost old_g = *self;
                    self.nodes.push(prefix.clone());
                    self.entries.push(last);
                    self.contents = Ghost(self.contents@.insert(pc, last));
                    proof {
                        let n = old_g.nodes.len() as int;
                        assert(self.node(n) == pc);
                        assert forall|j: int| 0 <= j < n implies #[trigger] self.node(j) == old_g.node(j) by {}
                        assert forall|j: int| 0 <= j < self.nodes.len() implies self.contents@.contains_key(
                            #[trigger] self.node(j),
                        ) && self.contents@[self.node(j)] == self.entries@[j] by {
                            if j < n {
                                assert(old_g@.contains_key(old_g.node(j)));
                                assert(old_g.node(j) != pc);
                            }
                        }
                        assert forall|x: Chain| #[trigger] self.contents@.contains_key(x) implies exists|j: int|
                            0 <= j < self.nodes.len() && #[trigger] self.node(j) == x by {
                            if x != pc {
                                let j = choose|j: int| 0 <= j < old_g.nodes.len() && #[trigger] old_g.node(j) == x;
                                assert(self.node(j) == x);
                            } else {
                                assert(self.node(n) == x);
                            }
                        }
                        assert forall|a: int, b: int|
                            0 <= a < self.nodes.len() && 0 <= b < self.nodes.len() && a != b implies #[trigger] self.node(a)
                                != #[trigger] self.node(b) by {
                            if a < n && b < n {
                                assert(old_g.node(a) != old_g.node(b));
                            } else if a < n {
                                assert(old_g@.contains_key(old_g.node(a)));
                            } else if b < n {
                                assert(old_g@.contains_key(old_g.node(b)));
                            }
                        }
                    }
                },
                Some(i) => {
                    if last {
                        let ghost old_g = *self;
                        self.entries.set(i, true);
                        self.contents = Ghost(self.contents@.insert(pc, true));
                        proof {
                            assert forall|j: int| 0 <= j < self.nodes.len() implies #[trigger] self.node(j) == old_g.node(j) by {}
                            assert forall|j: int| 0 <= j < self.nodes.len() implies self.contents@.contains_key(
                                #[trigger] self.node(j),
                            ) && self.contents@[self.node(j)] == self.entries@[j] by {
                                if j != i {
                                    assert(old_g.node(j) != old_g.node(i as int));
                                }
                            }
                            assert forall|x: Chain| #[trigger] self.contents@.contains_key(x) implies exists|j: int|
                                0 <= j < self.nodes.len() && #[trigger] self.node(j) == x by {
                                if x != pc {
                                    assert(old_g@.contains_key(x));
                                    let j = choose|j: int| 0 <= j < old_g.nodes.len() && #[trigger] old_g.node(j) == x;
                                    assert(self.node(j) == x);
                                } else {
                                    assert(self.node(i as int) == x);
                                }
                            }
                        }
                    }
                },
            }
            proof {
                let target = Map::new(
                    |x: Chain| m0.contains_key(x) || (1 <= x.len() <= k && is_prefix(x, cc)),
                    |x: Chain| (x == cc && x.len() <= k) || (m0.contains_key(x) && m0[x]),
                );
                assert forall|x: Chain| #[trigger] self@.contains_key(x) <==> target.contains_key(x) by {
                    if 1 <= x.len() && is_prefix(x, cc) && x.len() == k {
                        assert(x =~= pc);
                    }
                    if x == pc {
                        assert(is_prefix(pc, cc));
                    }
                }
                assert forall|x: Chain| #[trigger] self@.contains_key(x) implies self@[x] == target[x] by {
                    if x == pc && !last {
                        assert(x != cc);
                    }
                }
                assert(self@ =~= target);
            }
        }
        proof {
            assert(self@ =~= ensured(m0, cc));
        }
    }

    /// Every chain of the graph, once each.
    pub fn chains(&self) -> (r: Vec<Vec<String>>)
        requires
            self.wf(),
        ensures
            chains_of(r@).no_duplicates(),
            chains_of(r@).to_set() == self@.dom(),
    {
        let mut r: Vec<Vec<String>> = Vec::new();
        let mut i: usize = 0;
        while i < self.nodes.len()
            invariant
                self.wf(),
                i <= self.nodes.len(),
                r.len() == i,
                forall|j: int| 0 <= j < i ==> #[trigger] chains_of(r@)[j] == self.node(j),
            decreases self.nodes.len() - i,
        {
            let ghost old_r = chains_of(r@);
            r.push(self.nodes[i].clone());
            proof {
                assert(chains_of(r@) =~= old_r.push(self.node(i as int)));
                assert forall|j: int| 0 <= j < i + 1 implies #[trigger] chains_of(r@)[j] == self.node(j) by {
                    if j < i {
                        assert(old_r[j] == self.node(j));
                    }
                }
            }
            i = i + 1;
        }
        proof {
            assert forall|a: int, b: int| 0 <= a < b < r.len() implies chains_of(r@)[a] != chains_of(r@)[b] by {
                assert(self.node(a) != self.node(b));
            }
            assert forall|c: Chain| chains_of(r@).to_set().contains(c) <==> self@.dom().contains(c) by {
                if chains_of(r@).to_set().contains(c) {
                    let j = choose|j: int| 0 <= j < r.len() && #[trigger] chains_of(r@)[j] == c;
                    assert(self@.contains_key(self.node(j)));
                }
                if self@.dom().contains(c) {
                    let j = choose|j: int| 0 <= j < self.nodes.len() && #[trigger] self.node(j) == c;
                    assert(chains_of(r@)[j] == c);
                }
            }
            assert(chains_of(r@).to_set() =~= self@.dom());
        }
        r
    }

    /// The length of the longest chain of the graph.
    pub fn max_len(&self) -> (n: usize)
        requires
            self.wf(),
        ensures
            forall|x: Chain| #[trigger] self@.contains_key(x) ==> x.len() <= n,
    {
        let mut n: usize = 0;
        let mut i: usize = 0;
        while i < self.nodes.len()
            invariant
                self.wf(),
                i <= self.nodes.len(),
                forall|j: int| 0 <= j < i ==> (#[trigger] self.node(j)).len() <= n,
            decreases self.nodes.len() - i,
        {
            if self.nodes[i].len() > n {
                n = self.nodes[i].len();
            }
            i = i + 1;
        }
        assert forall|x: Chain| #[trigger] self@.contains_key(x) implies x.len() <= n by {
            let j = choose|j: int| 0 <= j < self.nodes.len() && #[trigger] self.node(j) == x;
        }
        n
    }

    /// Whether following edges from `b` arrives at `c`.
    pub fn reaches_from(&self, b: &Vec<String>, c: &Vec<String>) -> (r: bool)
        requires
            self.wf(),
        ensures
            r == reaches(self@, chain_of(b@), chain_of(c@)),
    {
        if !prefix_of(b, c) {
            return false;
        }
        let mut k: usize = b.len();
        while k < c.len()
            invariant
                self.wf(),
                b.len() <= k <= c.len(),
                forall|j: int| b.len() < j <= k ==> #[trigger] self@.contains_key(chain_of(c@).take(j)),
            decreases c.len() - k,
        {
            k = k + 1;
            let pre = take_chain(c, k);
            if !self.contains(&pre) {
                return false;
            }
        }
        true
    }

    /// The chains that `selected` keeps for `b`, in `chain_lt` order.
    fn scan(&self, b: &Vec<String>, leaves: bool) -> (r: Vec<Vec<String>>)
        requires
            self.wf(),
        ensures
            strictly_sorted(chains_of(r@)),
            chains_of(r@).to_set() == Set::new(|c: Chain| selected(self@, chain_of(b@), c, leaves)),
    {
        let ghost bc = chain_of(b@);
        let mut out: Vec<Vec<String>> = Vec::new();
        let ghost mut idx: Seq<int> = Seq::empty();
        let mut i: usize = 0;
        while i < self.nodes.len()
            invariant
                self.wf(),
                bc == chain_of(b@),
                i <= self.nodes.len(),
                out.len() == idx.len(),
                forall|t: int| 0 <= t < idx.len() ==> 0 <= #[trigger] idx[t] < i,
                forall|t: int, u: int| 0 <= t < u < idx.len() ==> #[trigger] idx[t] < #[trigger] idx[u],
                forall|t: int| 0 <= t < idx.len() ==> #[trigger] chains_of(out@)[t] == self.node(idx[t]),
                forall|t: int| 0 <= t < idx.len() ==> selected(self@, bc, #[trigger] chains_of(out@)[t], leaves),
                forall|j: int|
                    0 <= j < i && selected(self@, bc, #[trigger] self.node(j), leaves) ==> exists|t: int|
                        0 <= t < idx.len() && #[trigger] idx[t] == j,
            decreases self.nodes.len() - i,
        {
            let keep = if leaves {
                self.entries[i] && self.reaches_from(b, &self.nodes[i]) && !self.has_children(&self.nodes[i])
            } else {
                self.nodes[i].len() > b.len() && self.nodes[i].len() - 1 == b.len() && prefix_of(b, &self.nodes[i])
            };
            proof {
                assert(self@.contains_key(self.node(i as int)));
            }
            if keep {
                let ghost old_out = out@;
                let ghost old_idx = idx;
                out.push(self.nodes[i].clone());
                proof {
                    idx = idx.push(i as int);
                    assert(chains_of(out@) =~= chains_of(old_out).push(self.node(i as int)));
                    assert forall|j: int|
                        0 <= j < i + 1 && selected(self@, bc, #[trigger] self.node(j), leaves) implies exists|t: int|
                            0 <= t < idx.len() && #[trigger] idx[t] == j by {
                        if j == i {
                            assert(idx[idx.len() - 1] == j);
                        } else {
                            let t = choose|t: int| 0 <= t < old_idx.len() && #[trigger] old_idx[t] == j;
                            assert(idx[t] == j);
                        }
                    }
                }
            }
            i = i + 1;
        }
        proof {
            assert forall|t: int, u: int| 0 <= t < u < out.len() implies chains_of(out@)[t] != chains_of(out@)[u] by {
                assert(idx[t] < idx[u]);
            }
            assert forall|c: Chain| chains_of(out@).to_set().contains(c) <==> selected(self@, bc, c, leaves) by {
                if chains_of(out@).to_set().contains(c) {
                    let t = choose|t: int| 0 <= t < out.len() && #[trigger] chains_of(out@)[t] == c;
                }
                if selected(self@, bc, c, leaves) {
                    assert(self@.contains_key(c));
                    let j = choose|j: int| 0 <= j < self.nodes.len() && #[trigger] self.node(j) == c;
                    let t = choose|t: int| 0 <= t < idx.len() && #[trigger] idx[t] == j;
                    assert(chains_of(out@)[t] == c);
                }
            }
            assert(chains_of(out@).to_set() =~= Set::new(|c: Chain| selected(self@, bc, c, leaves)));
        }
        sort_chains(out)
    }

    /// The children of `p`, in `chain_lt` order.
    pub fn children(&self, p: &Vec<String>) -> (r: Vec<Vec<String>>)
        requires
            self.wf(),
        ensures
            strictly_sorted(chains_of(r@)),
            chains_of(r@).to_set() == children_of(self@, chain_of(p@)),
    {
        let r = self.scan(p, false);
        assert(chains_of(r@).to_set() =~= children_of(self@, chain_of(p@)));
        r
    }

    /// The entries with no children reached from `b`, in `chain_lt` order.
    pub fn leaves(&self, b: &Vec<String>) -> (r: Vec<Vec<String>>)
        requires
            self.wf(),
        ensures
            strictly_sorted(chains_of(r@)),
            chains_of(r@).to_set() == leaves_under(self@, chain_of(b@)),
    {
        let r = self.scan(b, true);
        assert(chains_of(r@).to_set() =~= leaves_under(self@, chain_of(b@)));
        r
    }
}

} // verus!
