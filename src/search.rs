use vstd::prelude::*;

use crate::graph::{Graph, leaves_under, reaches, is_prefix, has_child, is_child, children_of};
use crate::order::{Chain, chain_of, chains_of, chain_lt, strictly_sorted, chain_equal};
use crate::graph::take_chain;

verus! {

/// The shortest bucket a search from `s` ascends to: the bucket just below the index
/// name, or `s` itself when it is the index name alone.
pub open spec fn floor_len(s: Chain) -> int {
    if s.len() >= 2 {
        2
    } else {
        s.len() as int
    }
}

/// The length of the deepest bucket, a prefix of `s` no longer than `j`, whose descent
/// collects `c`; `floor_len(s) - 1` when there is none.
pub open spec fn level_from(m: Map<Chain, bool>, s: Chain, c: Chain, j: int) -> int
    decreases j - floor_len(s) + 1,
{
    if j < floor_len(s) {
        floor_len(s) - 1
    } else if leaves_under(m, s.take(j)).contains(c) {
        j
    } else {
        level_from(m, s, c, j - 1)
    }
}

/// The deepest bucket on the way up from `s` whose descent collects `c`.
pub open spec fn level(m: Map<Chain, bool>, s: Chain, c: Chain) -> int {
    level_from(m, s, c, s.len() as int)
}

/// `c` is collected by the descent from some bucket on the way up from `s`.
pub open spec fn is_candidate(m: Map<Chain, bool>, s: Chain, c: Chain) -> bool {
    level(m, s, c) >= floor_len(s)
}

/// A search from `s` lists `a` before `b`: `a` is found in a deeper bucket, or in the
/// same bucket and first in `chain_lt` order.
pub open spec fn ranks_before(m: Map<Chain, bool>, s: Chain, a: Chain, b: Chain) -> bool {
    level(m, s, a) > level(m, s, b) || (level(m, s, a) == level(m, s, b) && chain_lt(a, b))
}

/// `r` is what a search from `s` returns: the first `limit` candidates in rank order, or
/// all of them where there are fewer.
pub open spec fn is_search_result(m: Map<Chain, bool>, s: Chain, limit: nat, r: Seq<Chain>) -> bool {
    &&& r.len() <= limit
    &&& forall|i: int| 0 <= i < r.len() ==> is_candidate(m, s, #[trigger] r[i])
    &&& forall|i: int, k: int| 0 <= i < k < r.len() ==> ranks_before(m, s, #[trigger] r[i], #[trigger] r[k])
    &&& forall|c: Chain|
        is_candidate(m, s, c) && !r.contains(c) ==> r.len() == limit && forall|i: int|
            0 <= i < r.len() ==> ranks_before(m, s, #[trigger] r[i], c)
}

/// The first `limit` chains of `s`, or all of them where there are fewer.
pub open spec fn cap(s: Seq<Chain>, limit: nat) -> Seq<Chain> {
    if s.len() <= limit {
        s
    } else {
        s.take(limit as int)
    }
}

/// `choices` gives, for each chain it holds, an order of that chain's children: each
/// child once.
pub open spec fn is_child_order(m: Map<Chain, bool>, choices: Map<Chain, Seq<Chain>>) -> bool {
    forall|n: Chain|
        #[trigger] choices.contains_key(n) ==> choices[n].no_duplicates() && choices[n].to_set() == children_of(
            m,
            n,
        )
}

/// The entries that a depth-first walk from each chain of `s` in turn meets, visiting the
/// children of a chain in the order that `choices` gives. A chain without children is met
/// where it is an entry. `fuel` bounds the depth.
pub open spec fn walk(m: Map<Chain, bool>, choices: Map<Chain, Seq<Chain>>, s: Seq<Chain>, fuel: nat) -> Seq<Chain>
    decreases fuel, s.len(),
{
    if s.len() == 0 {
        Seq::empty()
    } else {
        let n = s[0];
        let head = if !has_child(m, n) {
            if m.contains_key(n) && m[n] {
                seq![n]
            } else {
                Seq::empty()
            }
        } else if fuel == 0 || !choices.contains_key(n) {
            Seq::empty()
        } else {
            walk(m, choices, choices[n], (fuel - 1) as nat)
        };
        head + walk(m, choices, s.drop_first(), fuel)
    }
}

/// `r` is what a random sample from `b` may return: the first `limit` entries of a
/// depth-first walk from `b` that visits the children of each chain in some order. The
/// order covers every chain with children reached from `b`, and the walk goes deep enough
/// for every chain of the graph.
pub open spec fn is_sample(m: Map<Chain, bool>, b: Chain, limit: nat, r: Seq<Chain>) -> bool {
    exists|choices: Map<Chain, Seq<Chain>>, fuel: nat|
        #![trigger walk(m, choices, seq![b], fuel)]
        is_child_order(m, choices) && (forall|n: Chain|
            reaches(m, b, n) && has_child(m, n) ==> #[trigger] choices.contains_key(n)) && (forall|x: Chain|
            #[trigger] m.contains_key(x) ==> x.len() < b.len() + fuel) && r == cap(walk(m, choices, seq![b], fuel), limit)
}

proof fn lemma_level_from(m: Map<Chain, bool>, s: Chain, c: Chain, j: int, j2: int)
    requires
        floor_len(s) - 1 <= j,
    ensures
        floor_len(s) - 1 <= level_from(m, s, c, j) <= j,
        level_from(m, s, c, j) >= floor_len(s) ==> leaves_under(m, s.take(level_from(m, s, c, j))).contains(c),
        floor_len(s) <= j2 <= j && leaves_under(m, s.take(j2)).contains(c) ==> level_from(m, s, c, j) >= j2,
    decreases j - floor_len(s) + 1,
{
    if j >= floor_len(s) && !leaves_under(m, s.take(j)).contains(c) {
        lemma_level_from(m, s, c, j - 1, j2);
    }
}

/// Facts about `level` that the search loop relies on.
proof fn lemma_level(m: Map<Chain, bool>, s: Chain, c: Chain, j: int)
    requires
        s.len() >= 1,
    ensures
        floor_len(s) - 1 <= level(m, s, c) <= s.len(),
        is_candidate(m, s, c) ==> leaves_under(m, s.take(level(m, s, c))).contains(c),
        is_candidate(m, s, c) ==> c.len() >= 1,
        floor_len(s) <= j <= s.len() && leaves_under(m, s.take(j)).contains(c) ==> level(m, s, c) >= j,
{
    lemma_level_from(m, s, c, s.len() as int, j);
    if is_candidate(m, s, c) {
        let l = level(m, s, c);
        assert(reaches(m, s.take(l), c));
        assert(is_prefix(s.take(l), c));
    }
}

/// A chain that a search from `s` collects has at least one component.
pub proof fn lemma_candidate_len(m: Map<Chain, bool>, s: Chain, c: Chain)
    requires
        s.len() >= 1,
        is_candidate(m, s, c),
    ensures
        c.len() >= 1,
{
    lemma_level(m, s, c, 0);
}

/// A leaf entry that the descent from the shortest bucket of a search collects is a
/// candidate of that search.
pub proof fn lemma_candidate_of_floor(m: Map<Chain, bool>, s: Chain, c: Chain)
    requires
        s.len() >= 2,
        leaves_under(m, s.take(2)).contains(c),
    ensures
        is_candidate(m, s, c),
{
    lemma_level(m, s, c, 2);
}

/// Whether `c` is among the paths of `r`.
pub fn contains_chain(r: &Vec<Vec<String>>, c: &Vec<String>) -> (b: bool)
    ensures
        b == chains_of(r@).contains(chain_of(c@)),
{
    let mut i: usize = 0;
    while i < r.len()
        invariant
            i <= r.len(),
            forall|k: int| 0 <= k < i ==> chains_of(r@)[k] != chain_of(c@),
        decreases r.len() - i,
    {
        if chain_equal(&r[i], c) {
            assert(chains_of(r@)[i as int] == chain_of(c@));
            return true;
        }
        i = i + 1;
    }
    false
}

/// Descends into the bucket `path` and, while fewer than `limit` entries are found,
/// ascends to its parent buckets, down to the one just below the index name.
pub fn collect_results(graph: &Graph, path: &Vec<String>, limit: usize) -> (r: Vec<Vec<String>>)
    requires
        graph.wf(),
        path.len() >= 1,
    ensures
        is_search_result(graph@, chain_of(path@), limit as nat, chains_of(r@)),
{
    let ghost m = graph@;
    let ghost s = chain_of(path@);
    let floor: usize = if path.len() >= 2 { 2 } else { path.len() };
    let mut r: Vec<Vec<String>> = Vec::new();
    let mut j: usize = path.len();
    proof {
        assert forall|c: Chain| level(m, s, c) > j implies #[trigger] chains_of(r@).contains(c) by {
            lemma_level(m, s, c, 0);
        }
    }
    while j >= floor && r.len() < limit
        invariant
            graph.wf(),
            m == graph@,
            s == chain_of(path@),
            s.len() >= 1,
            floor == floor_len(s),
            floor - 1 <= j <= s.len(),
            r.len() <= limit,
            forall|i: int| 0 <= i < r.len() ==> level(m, s, #[trigger] chains_of(r@)[i]) > j,
            r.len() < limit ==> forall|c: Chain| level(m, s, c) > j ==> #[trigger] chains_of(r@).contains(c),
            forall|i: int, k: int|
                0 <= i < k < r.len() ==> ranks_before(m, s, #[trigger] chains_of(r@)[i], #[trigger] chains_of(r@)[k]),
            forall|c: Chain|
                is_candidate(m, s, c) && !chains_of(r@).contains(c) ==> forall|i: int|
                    0 <= i < r.len() ==> ranks_before(m, s, #[trigger] chains_of(r@)[i], c),
        decreases j,
    {
        let bucket = take_chain(path, j);
        let ls = graph.leaves(&bucket);
        let ghost lv = chains_of(ls@);
        let mut t: usize = 0;
        while t < ls.len()
            invariant
                graph.wf(),
                m == graph@,
                s == chain_of(path@),
                s.len() >= 1,
                floor == floor_len(s),
                floor <= j <= s.len(),
                lv == chains_of(ls@),
                strictly_sorted(lv),
                lv.to_set() == leaves_under(m, s.take(j as int)),
                t <= ls.len(),
                r.len() <= limit,
                forall|i: int| 0 <= i < r.len() ==> level(m, s, #[trigger] chains_of(r@)[i]) >= j,
                r.len() < limit ==> forall|c: Chain|
                    (level(m, s, c) > j || lv.take(t as int).contains(c)) ==> #[trigger] chains_of(r@).contains(c),
                forall|i: int, k: int|
                    0 <= i < k < r.len() ==> ranks_before(m, s, #[trigger] chains_of(r@)[i], #[trigger] chains_of(r@)[k]),
                forall|c: Chain|
                    is_candidate(m, s, c) && !chains_of(r@).contains(c) ==> forall|i: int|
                        0 <= i < r.len() ==> ranks_before(m, s, #[trigger] chains_of(r@)[i], c),
            decreases ls.len() - t,
        {
            let ghost ct = lv[t as int];
            proof {
                assert(lv.to_set().contains(ct));
                lemma_level(m, s, ct, j as int);
                assert(lv.take(t + 1) =~= lv.take(t as int).push(ct));
            }
            if r.len() < limit && !contains_chain(&r, &ls[t]) {
                let ghost old_r = chains_of(r@);
                proof {
                    assert(level(m, s, ct) == j) by {
                        if level(m, s, ct) > j {
                            assert(old_r.contains(ct));
                        }
                    }
                    assert(is_candidate(m, s, ct));
                    assert forall|i: int| 0 <= i < old_r.len() implies ranks_before(m, s, #[trigger] old_r[i], ct) by {}
                    assert forall|c: Chain| is_candidate(m, s, c) && !old_r.contains(c) && c != ct implies ranks_before(
                        m,
                        s,
                        ct,
                        c,
                    ) by {
                        lemma_level(m, s, c, j as int);
                        if level(m, s, c) > j {
                            assert(old_r.contains(c));
                        } else if level(m, s, c) == j {
                            assert(lv.to_set().contains(c));
                            let u = choose|u: int| 0 <= u < lv.len() && #[trigger] lv[u] == c;
                            if u < t {
                                assert(lv.take(t as int)[u] == c);
                                assert(old_r.contains(c));
                            } else {
                                assert(u != t);
                                assert(chain_lt(lv[t as int], lv[u]));
                            }
                        }
                    }
                }
                r.push(ls[t].clone());
                proof {
                    let nr = chains_of(r@);
                    assert(nr =~= old_r.push(ct));
                    assert forall|c: Chain| is_candidate(m, s, c) && !nr.contains(c) implies forall|i: int|
                        0 <= i < nr.len() ==> ranks_before(m, s, #[trigger] nr[i], c) by {
                        assert(!old_r.contains(c)) by {
                            if old_r.contains(c) {
                                let u = choose|u: int| 0 <= u < old_r.len() && #[trigger] old_r[u] == c;
                                assert(nr[u] == c);
                            }
                        }
                        assert(c != ct) by {
                            assert(nr[nr.len() - 1] == ct);
                        }
                        assert forall|i: int| 0 <= i < nr.len() implies ranks_before(m, s, #[trigger] nr[i], c) by {
                            if i < old_r.len() {
                                assert(nr[i] == old_r[i]);
                            }
                        }
                    }
                    assert forall|i: int, k: int| 0 <= i < k < nr.len() implies ranks_before(
                        m,
                        s,
                        #[trigger] nr[i],
                        #[trigger] nr[k],
                    ) by {
                        if k == nr.len() - 1 {
                            assert(nr[i] == old_r[i]);
                        } else {
                            assert(nr[i] == old_r[i]);
                            assert(nr[k] == old_r[k]);
                        }
                    }
                    assert forall|c: Chain|
                        (level(m, s, c) > j || lv.take(t + 1).contains(c)) && nr.len() < limit implies #[trigger] nr.contains(c) by {
                        if c == ct {
                            assert(nr[nr.len() - 1] == ct);
                        } else {
                            if lv.take(t + 1).contains(c) {
                                let u = choose|u: int| 0 <= u < t + 1 && #[trigger] lv.take(t + 1)[u] == c;
                                assert(lv.take(t as int)[u] == c);
                            }
                            assert(old_r.contains(c));
                            let u = choose|u: int| 0 <= u < old_r.len() && #[trigger] old_r[u] == c;
                            assert(nr[u] == c);
                        }
                    }
                }
            } else {
                proof {
                    assert forall|c: Chain|
                        (level(m, s, c) > j || lv.take(t + 1).contains(c)) && r.len() < limit implies #[trigger] chains_of(
                            r@,
                        ).contains(c) by {
                        if c != ct && lv.take(t + 1).contains(c) {
                            let u = choose|u: int| 0 <= u < t + 1 && #[trigger] lv.take(t + 1)[u] == c;
                            assert(lv.take(t as int)[u] == c);
                        }
                    }
                }
            }
            t = t + 1;
        }
        proof {
            assert(lv.take(t as int) =~= lv);
            assert forall|c: Chain| level(m, s, c) > j - 1 && r.len() < limit implies #[trigger] chains_of(r@).contains(c) by {
                if level(m, s, c) == j {
                    lemma_level(m, s, c, j as int);
                    assert(lv.to_set().contains(c));
                }
            }
        }
        j = j - 1;
    }
    proof {
        let rr = chains_of(r@);
        assert forall|i: int| 0 <= i < rr.len() implies is_candidate(m, s, #[trigger] rr[i]) by {}
        assert forall|c: Chain| is_candidate(m, s, c) && !rr.contains(c) implies rr.len() == limit by {}
    }
    r
}

/// Relies on rand's `SliceRandom::shuffle` with the thread-local generator: the paths are
/// permuted in place.
#[verifier::external_body]
fn shuffle_paths(v: &mut Vec<Vec<String>>)
    ensures
        final(v)@.to_multiset() == old(v)@.to_multiset(),
{
    rand::seq::SliceRandom::shuffle(v.as_mut_slice(), &mut rand::thread_rng())
}

proof fn lemma_prefix_trans(a: Chain, b: Chain, c: Chain)
    requires
        is_prefix(a, b),
        is_prefix(b, c),
    ensures
        is_prefix(a, c),
{
    assert(c.take(a.len() as int) =~= b.take(a.len() as int));
}

/// A walk from chains below `p` reads `choices` only at chains below `p`.
proof fn lemma_walk_frame(
    m: Map<Chain, bool>,
    c1: Map<Chain, Seq<Chain>>,
    c2: Map<Chain, Seq<Chain>>,
    s: Seq<Chain>,
    fuel: nat,
    p: Chain,
)
    requires
        is_child_order(m, c1),
        forall|i: int| 0 <= i < s.len() ==> is_prefix(p, #[trigger] s[i]),
        forall|n: Chain|
            is_prefix(p, n) ==> (#[trigger] c1.contains_key(n) == c2.contains_key(n) && (c1.contains_key(n) ==> c1[n]
                == c2[n])),
    ensures
        walk(m, c1, s, fuel) == walk(m, c2, s, fuel),
    decreases fuel, s.len(),
{
    if s.len() > 0 {
        let n = s[0];
        assert(is_prefix(p, s[0]));
        if has_child(m, n) && fuel > 0 && c1.contains_key(n) {
            let ks = c1[n];
            assert forall|i: int| 0 <= i < ks.len() implies is_prefix(p, #[trigger] ks[i]) by {
                assert(ks.to_set().contains(ks[i]));
                assert(is_child(n, ks[i]));
                lemma_prefix_trans(p, n, ks[i]);
            }
            lemma_walk_frame(m, c1, c2, ks, (fuel - 1) as nat, p);
        }
        assert forall|i: int| 0 <= i < s.drop_first().len() implies is_prefix(p, #[trigger] s.drop_first()[i]) by {
            assert(s.drop_first()[i] == s[i + 1]);
        }
        lemma_walk_frame(m, c1, c2, s.drop_first(), fuel, p);
    }
}

/// A walk over `a + b` is the walk over `a` followed by the walk over `b`.
proof fn lemma_walk_concat(m: Map<Chain, bool>, ch: Map<Chain, Seq<Chain>>, a: Seq<Chain>, b: Seq<Chain>, fuel: nat)
    ensures
        walk(m, ch, a + b, fuel) == walk(m, ch, a, fuel) + walk(m, ch, b, fuel),
    decreases a.len(),
{
    if a.len() == 0 {
        assert(a + b =~= b);
        assert(walk(m, ch, a, fuel) + walk(m, ch, b, fuel) =~= walk(m, ch, b, fuel));
    } else {
        assert((a + b).drop_first() =~= a.drop_first() + b);
        assert((a + b)[0] == a[0]);
        lemma_walk_concat(m, ch, a.drop_first(), b, fuel);
        let h = walk(m, ch, seq![a[0]], fuel);
        assert(walk(m, ch, a + b, fuel) =~= (walk(m, ch, a, fuel) + walk(m, ch, b, fuel)));
    }
}

proof fn lemma_cap_cap(a: Seq<Chain>, b: Seq<Chain>, limit: nat)
    ensures
        cap(cap(a, limit) + b, limit) == cap(a + b, limit),
{
    if a.len() <= limit {
    } else {
        assert(cap(a, limit) + b =~= a.take(limit as int) + b);
        assert((a.take(limit as int) + b).take(limit as int) =~= a.take(limit as int));
        assert((a + b).take(limit as int) =~= a.take(limit as int));
    }
}

proof fn lemma_children_distinct(nc: Chain, k1: Chain, k2: Chain, x: Chain)
    requires
        is_child(nc, k1),
        is_child(nc, k2),
        k1 != k2,
        is_prefix(k1, x),
    ensures
        !is_prefix(k2, x),
{
    if is_prefix(k2, x) {
        assert(k1 =~= x.take(k1.len() as int));
        assert(k2 =~= x.take(k2.len() as int));
    }
}

/// Descends from `node`, presenting the children of each chain in a random order, and
/// appends the entries it meets to `r` while `r` holds fewer than `limit` paths. Returns
/// the orders that it chose.
fn sample_from(
    graph: &Graph,
    node: &Vec<String>,
    limit: usize,
    bound: usize,
    r: &mut Vec<Vec<String>>,
    Ghost(base): Ghost<Chain>,
) -> (choices: Ghost<Map<Chain, Seq<Chain>>>)
    requires
        graph.wf(),
        forall|x: Chain| #[trigger] graph@.contains_key(x) ==> x.len() <= bound,
        node.len() <= bound + 1,
        is_prefix(base, chain_of(node@)),
        old(r).len() <= limit,
        forall|i: int| 0 <= i < old(r).len() ==> is_prefix(base, #[trigger] chains_of(old(r)@)[i]),
    ensures
        is_child_order(graph@, choices@),
        forall|n: Chain| #[trigger] choices@.contains_key(n) ==> is_prefix(chain_of(node@), n),
        forall|n: Chain|
            reaches(graph@, chain_of(node@), n) && has_child(graph@, n) ==> #[trigger] choices@.contains_key(n),
        chains_of(final(r)@) == cap(
            chains_of(old(r)@) + walk(graph@, choices@, seq![chain_of(node@)], (bound + 1 - node.len()) as nat),
            limit as nat,
        ),
        final(r).len() <= limit,
        forall|i: int| 0 <= i < final(r).len() ==> is_prefix(base, #[trigger] chains_of(final(r)@)[i]),
    decreases bound + 1 - node.len(),
{
    let ghost m = graph@;
    let ghost nc = chain_of(node@);
    let ghost fuel = (bound + 1 - node.len()) as nat;
    let ghost r0 = chains_of(r@);
    if !graph.has_children(node) {
        let ghost w = walk(m, Map::empty(), seq![nc], fuel);
        proof {
            assert(walk(m, Map::empty(), seq![nc].drop_first(), fuel) == Seq::<Chain>::empty());
            assert forall|n: Chain| reaches(m, nc, n) && has_child(m, n) implies #[trigger] Map::<
                Chain,
                Seq<Chain>,
            >::empty().contains_key(n) by {
                if n.len() > nc.len() {
                    let c = n.take(nc.len() + 1int);
                    assert(m.contains_key(c));
                    assert(c.take(nc.len() as int) =~= n.take(nc.len() as int));
                    assert(is_child(nc, c));
                } else {
                    assert(n =~= nc) by {
                        assert(n.take(nc.len() as int) =~= n);
                    }
                }
            }
        }
        if graph.is_entry(node) && r.len() < limit {
            r.push(node.clone());
            proof {
                assert(w =~= seq![nc]);
                assert(chains_of(r@) =~= r0 + w);
                assert(is_prefix(base, chains_of(r@)[r.len() - 1]));
            }
        } else {
            proof {
                if graph@.contains_key(nc) && graph@[nc] {
                    assert(w =~= seq![nc]);
                    assert((r0 + w).take(limit as int) =~= r0);
                } else {
                    assert(w =~= Seq::<Chain>::empty());
                    assert(r0 + w =~= r0);
                }
            }
        }
        return Ghost(Map::empty());
    }
    let mut kids = graph.children(node);
    let ghost before = kids@;
    shuffle_paths(&mut kids);
    let ghost kc = chains_of(kids@);
    proof {
        broadcast use vstd::seq_lib::group_to_multiset_ensures;

        assert forall|u: int| 0 <= u < kids.len() implies children_of(m, nc).contains(#[trigger] kc[u]) by {
            assert(kids@.to_multiset().contains(kids@[u]));
            assert(before.contains(kids@[u]));
            let i = choose|i: int| 0 <= i < before.len() && before[i] == kids@[u];
            assert(chains_of(before)[i] == kc[u]);
            assert(chains_of(before).to_set().contains(chains_of(before)[i]));
        }
        assert forall|c: Chain| #[trigger] children_of(m, nc).contains(c) implies kc.contains(c) by {
            assert(chains_of(before).to_set().contains(c));
            let i = choose|i: int| 0 <= i < before.len() && #[trigger] chains_of(before)[i] == c;
            assert(before.to_multiset().contains(before[i]));
            assert(kids@.contains(before[i]));
            let u = choose|u: int| 0 <= u < kids@.len() && kids@[u] == before[i];
            assert(kc[u] == c);
        }
        assert(before.no_duplicates()) by {
            assert forall|i: int, j: int| 0 <= i < before.len() && 0 <= j < before.len() && i != j implies before[i]
                != before[j] by {
                assert(chains_of(before)[i] != chains_of(before)[j]) by {
                    crate::order::lemma_chain_order(chains_of(before)[i], chains_of(before)[j], chains_of(before)[j]);
                }
            }
        }
        before.lemma_multiset_has_no_duplicates();
        kids@.lemma_multiset_has_no_duplicates_conv();
        assert forall|a: int, b: int| 0 <= a < kc.len() && 0 <= b < kc.len() && a != b implies kc[a] != kc[b] by {
            assert(kids@.to_multiset().contains(kids@[a]));
            assert(kids@.to_multiset().contains(kids@[b]));
            let i = choose|i: int| 0 <= i < before.len() && before[i] == kids@[a];
            let j = choose|j: int| 0 <= j < before.len() && before[j] == kids@[b];
            if kc[a] == kc[b] {
                assert(chains_of(before)[i] == chains_of(before)[j]);
                if i != j {
                    crate::order::lemma_chain_order(chains_of(before)[i], chains_of(before)[j], chains_of(before)[j]);
                }
            }
        }
        assert(kc.to_set() =~= children_of(m, nc));
    }
    let ghost mut acc: Map<Chain, Seq<Chain>> = Map::empty();
    let mut t: usize = 0;
    proof {
        assert(kc.take(0) =~= Seq::<Chain>::empty());
        assert(r0 + walk(m, acc, kc.take(0), (fuel - 1) as nat) =~= r0);
    }
    while t < kids.len()
        invariant
            graph.wf(),
            m == graph@,
            nc == chain_of(node@),
            has_child(m, nc),
            forall|x: Chain| #[trigger] m.contains_key(x) ==> x.len() <= bound,
            node.len() <= bound,
            fuel == (bound + 1 - node.len()) as nat,
            is_prefix(base, nc),
            kc == chains_of(kids@),
            kc.no_duplicates(),
            kc.to_set() == children_of(m, nc),
            forall|u: int| 0 <= u < kc.len() ==> children_of(m, nc).contains(#[trigger] kc[u]),
            t <= kids.len(),
            r.len() <= limit,
            forall|i: int| 0 <= i < r.len() ==> is_prefix(base, #[trigger] chains_of(r@)[i]),
            is_child_order(m, acc),
            forall|n: Chain|
                #[trigger] acc.contains_key(n) ==> exists|u: int| 0 <= u < t && #[trigger] is_prefix(kc[u], n),
            forall|u: int, n: Chain|
                0 <= u < t && #[trigger] reaches(m, kc[u], n) && has_child(m, n) ==> acc.contains_key(n),
            chains_of(r@) == cap(r0 + walk(m, acc, kc.take(t as int), (fuel - 1) as nat), limit as nat),
        decreases kids.len() - t,
    {
        let ghost k = kc[t as int];
        proof {
            assert(children_of(m, nc).contains(k));
            assert(m.contains_key(k));
            lemma_prefix_trans(base, nc, k);
            assert(is_prefix(nc, k));
        }
        let ghost rt = chains_of(r@);
        let Ghost(ct) = sample_from(graph, &kids[t], limit, bound, r, Ghost(base));
        proof {
            let f1 = (fuel - 1) as nat;
            assert((bound + 1 - kids[t as int].len()) as nat == f1);
            let acc2 = acc.union_prefer_right(ct);
            // keys of ct lie below k; keys of acc lie below earlier children
            assert forall|n: Chain| is_prefix(k, n) implies (#[trigger] acc2.contains_key(n) == ct.contains_key(n) && (
            acc2.contains_key(n) ==> acc2[n] == ct[n])) by {
                if acc.contains_key(n) {
                    let u = choose|u: int| 0 <= u < t && #[trigger] is_prefix(kc[u], n);
                    assert(kc[u] != k);
                    lemma_children_distinct(nc, kc[u], k, n);
                }
            }
            lemma_prefix_refl(k);
            lemma_walk_frame(m, ct, acc2, seq![k], f1, k);
            assert forall|i: int| 0 <= i < kc.take(t as int).len() implies is_prefix(nc, #[trigger] kc.take(t as int)[i]) by {
                assert(children_of(m, nc).contains(kc[i]));
            }
            assert forall|i: int| 0 <= i < kc.take(t as int).len() implies is_child(nc, #[trigger] kc.take(t as int)[i]) by {
                assert(children_of(m, nc).contains(kc[i]));
            }
            assert forall|i: int| 0 <= i < kc.take(t as int).len() implies kc.take(t as int)[i] != k by {
                assert(kc[i] != kc[t as int]);
            }
            lemma_walk_frame_except(m, acc, acc2, kc.take(t as int), f1, nc, k, true);
            lemma_walk_concat(m, acc2, kc.take(t as int), seq![k], f1);
            assert(kc.take(t + 1) =~= kc.take(t as int) + seq![k]);
            lemma_cap_cap(r0 + walk(m, acc, kc.take(t as int), f1), walk(m, ct, seq![k], f1), limit as nat);
            assert(r0 + walk(m, acc, kc.take(t as int), f1) + walk(m, ct, seq![k], f1) =~= r0 + walk(
                m,
                acc2,
                kc.take(t + 1),
                f1,
            ));
            assert forall|n: Chain| #[trigger] acc2.contains_key(n) implies exists|u: int|
                0 <= u < t + 1 && #[trigger] is_prefix(kc[u], n) by {
                if ct.contains_key(n) {
                    assert(is_prefix(kc[t as int], n));
                } else {
                    let u = choose|u: int| 0 <= u < t && #[trigger] is_prefix(kc[u], n);
                    assert(is_prefix(kc[u], n));
                }
            }
            assert forall|n: Chain| #[trigger] acc2.contains_key(n) implies acc2[n].no_duplicates() && acc2[n].to_set()
                == children_of(m, n) by {
                if ct.contains_key(n) {
                } else {
                }
            }
            acc = acc2;
        }
        t = t + 1;
    }
    let ghost choices = acc.insert(nc, kc);
    proof {
        let f1 = (fuel - 1) as nat;
        assert(kc.take(kids.len() as int) =~= kc);
        assert forall|i: int| 0 <= i < kc.len() implies is_prefix(nc, #[trigger] kc[i]) by {
            assert(children_of(m, nc).contains(kc[i]));
        }
        assert forall|i: int| 0 <= i < kc.len() implies is_child(nc, #[trigger] kc[i]) by {
            assert(children_of(m, nc).contains(kc[i]));
        }
        lemma_walk_frame_except(m, acc, choices, kc, f1, nc, nc, false);
        assert(fuel > 0) by {
            let x = choose|x: Chain| #[trigger] m.contains_key(x) && is_child(nc, x);
        }
        assert(seq![nc].drop_first() =~= Seq::<Chain>::empty());
        assert(walk(m, choices, seq![nc].drop_first(), fuel) == Seq::<Chain>::empty());
        assert(choices.contains_key(nc) && choices[nc] == kc);
        assert(seq![nc][0] == nc);
        assert(walk(m, choices, seq![nc], fuel) =~= walk(m, choices, kc, f1));
        assert forall|n: Chain| #[trigger] choices.contains_key(n) implies is_prefix(nc, n) by {
            if n != nc {
                let u = choose|u: int| 0 <= u < kc.len() && #[trigger] is_prefix(kc[u], n);
                lemma_prefix_trans(nc, kc[u], n);
            } else {
                assert(nc.take(nc.len() as int) =~= nc);
            }
        }
        assert forall|n: Chain| reaches(m, nc, n) && has_child(m, n) implies #[trigger] choices.contains_key(n) by {
            if n != nc {
                assert(n.len() > nc.len()) by {
                    if n.len() == nc.len() {
                        assert(n.take(nc.len() as int) =~= n);
                    }
                }
                let c = n.take(nc.len() + 1int);
                assert(m.contains_key(c));
                assert(c.take(nc.len() as int) =~= n.take(nc.len() as int));
                assert(children_of(m, nc).contains(c));
                assert(kc.to_set().contains(c));
                let u = choose|u: int| 0 <= u < kc.len() && kc[u] == c;
                assert(reaches(m, kc[u], n)) by {
                    assert(n.take(c.len() as int) =~= c);
                }
            }
        }
    }
    Ghost(choices)
}

proof fn lemma_prefix_refl(c: Chain)
    ensures
        is_prefix(c, c),
{
    assert(c.take(c.len() as int) =~= c);
}

/// A walk over children of `p` reads `choices` only at chains strictly below `p`; where
/// `excl` holds, also not below the child `k`, which the walk does not start from.
proof fn lemma_walk_frame_except(
    m: Map<Chain, bool>,
    c1: Map<Chain, Seq<Chain>>,
    c2: Map<Chain, Seq<Chain>>,
    s: Seq<Chain>,
    fuel: nat,
    p: Chain,
    k: Chain,
    excl: bool,
)
    requires
        is_child_order(m, c1),
        forall|i: int| 0 <= i < s.len() ==> is_child(p, #[trigger] s[i]),
        excl ==> is_child(p, k),
        excl ==> forall|i: int| 0 <= i < s.len() ==> s[i] != k,
        forall|n: Chain|
            is_prefix(p, n) && n.len() > p.len() && !(excl && is_prefix(k, n)) ==> (#[trigger] c1.contains_key(n)
                == c2.contains_key(n) && (c1.contains_key(n) ==> c1[n] == c2[n])),
    ensures
        walk(m, c1, s, fuel) == walk(m, c2, s, fuel),
    decreases s.len(),
{
    if s.len() > 0 {
        let q = s[0];
        assert(is_child(p, q));
        assert(is_prefix(p, q));
        assert forall|n: Chain| is_prefix(q, n) implies (#[trigger] c1.contains_key(n) == c2.contains_key(n) && (
        c1.contains_key(n) ==> c1[n] == c2[n])) by {
            lemma_prefix_trans(p, q, n);
            if excl && is_prefix(k, n) {
                assert(q =~= n.take(q.len() as int));
                assert(k =~= n.take(k.len() as int));
            }
        }
        lemma_prefix_refl(q);
        lemma_walk_frame(m, c1, c2, seq![q], fuel, q);
        assert(s =~= seq![q] + s.drop_first());
        lemma_walk_concat(m, c1, seq![q], s.drop_first(), fuel);
        lemma_walk_concat(m, c2, seq![q], s.drop_first(), fuel);
        assert forall|i: int| 0 <= i < s.drop_first().len() implies is_child(p, #[trigger] s.drop_first()[i]) by {
            assert(s.drop_first()[i] == s[i + 1]);
        }
        lemma_walk_frame_except(m, c1, c2, s.drop_first(), fuel, p, k, excl);
    }
}

/// Takes up to `limit` entries reached from `base`: a depth-first walk from `base` that
/// visits the children of each chain in a random order.
pub fn sample_results(graph: &Graph, base: &Vec<String>, limit: usize) -> (r: Vec<Vec<String>>)
    requires
        graph.wf(),
    ensures
        is_sample(graph@, chain_of(base@), limit as nat, chains_of(r@)),
        forall|i: int| 0 <= i < r.len() ==> is_prefix(chain_of(base@), #[trigger] chains_of(r@)[i]),
{
    let ghost m = graph@;
    let ghost bc = chain_of(base@);
    let bound = graph.max_len();
    let mut r: Vec<Vec<String>> = Vec::new();
    if base.len() > bound {
        proof {
            let ch = Map::<Chain, Seq<Chain>>::empty();
            assert(!has_child(m, bc)) by {
                if has_child(m, bc) {
                    let x = choose|x: Chain| #[trigger] m.contains_key(x) && is_child(bc, x);
                }
            }
            assert(seq![bc].drop_first() =~= Seq::<Chain>::empty());
            assert(walk(m, ch, seq![bc].drop_first(), 0) == Seq::<Chain>::empty());
            assert(!m.contains_key(bc));
            assert(seq![bc][0] == bc);
            assert(walk(m, ch, seq![bc], 0) =~= Seq::<Chain>::empty());
            assert(chains_of(r@) =~= cap(walk(m, ch, seq![bc], 0), limit as nat));
            assert forall|n: Chain| reaches(m, bc, n) && has_child(m, n) implies #[trigger] ch.contains_key(n) by {
                let x = choose|x: Chain| #[trigger] m.contains_key(x) && is_child(n, x);
            }
        }
        return r;
    }
    proof {
        assert(bc.take(bc.len() as int) =~= bc);
        assert(chains_of(r@) =~= Seq::<Chain>::empty());
    }
    let Ghost(ch) = sample_from(graph, base, limit, bound, &mut r, Ghost(bc));
    proof {
        let fuel = (bound + 1 - base.len()) as nat;
        assert(Seq::<Chain>::empty() + walk(m, ch, seq![bc], fuel) =~= walk(m, ch, seq![bc], fuel));
        assert forall|x: Chain| #[trigger] m.contains_key(x) implies x.len() < bc.len() + fuel by {}
    }
    r
}

} // verus!
