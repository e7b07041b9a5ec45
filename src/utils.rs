use vstd::prelude::*;

use crate::graph::{Graph, children_of};
use crate::order::{Chain, chain_of, chains_of, strictly_sorted};
use crate::search::contains_chain;

verus! {

/// The components of `c` joined by `.`.
pub open spec fn joined(c: Chain) -> Seq<char>
    decreases c.len(),
{
    if c.len() == 0 {
        Seq::empty()
    } else if c.len() == 1 {
        c[0]
    } else {
        joined(c.drop_last()) + seq!['.'] + c.last()
    }
}

/// The children of `path` in the graph, in `chain_lt` order.
pub fn get_children_paths(graph: &Graph, path: &Vec<String>) -> (r: Vec<Vec<String>>)
    requires
        graph.wf(),
    ensures
        strictly_sorted(chains_of(r@)),
        chains_of(r@).to_set() == children_of(graph@, chain_of(path@)),
{
    graph.children(path)
}

/// The last components of the children of `path`, in order.
pub fn get_children(graph: &Graph, path: &Vec<String>) -> (r: Vec<String>)
    requires
        graph.wf(),
    ensures
        exists|paths: Seq<Chain>|
            strictly_sorted(paths) && paths.to_set() == children_of(graph@, chain_of(path@)) && r@.len()
                == paths.len() && forall|i: int| 0 <= i < paths.len() ==> (#[trigger] r@[i])@ == paths[i].last(),
{
    let kids = graph.children(path);
    let mut r: Vec<String> = Vec::new();
    let mut i: usize = 0;
    while i < kids.len()
        invariant
            i <= kids.len(),
            chains_of(kids@).to_set() == children_of(graph@, chain_of(path@)),
            r@.len() == i,
            forall|k: int| 0 <= k < i ==> (#[trigger] r@[k])@ == chains_of(kids@)[k].last(),
        decreases kids.len() - i,
    {
        let p = &kids[i];
        proof {
            assert(chains_of(kids@).to_set().contains(chains_of(kids@)[i as int]));
        }
        let s = p[p.len() - 1].clone();
        r.push(s);
        i = i + 1;
    }
    r
}

/// The components of `path` joined by `.`, as `joined` states.
pub fn path_to_string(path: &Vec<String>) -> (r: String)
    ensures
        r@ == joined(chain_of(path@)),
{
    let mut r = String::new();
    let mut i: usize = 0;
    while i < path.len()
        invariant
            i <= path.len(),
            r@ == joined(chain_of(path@).take(i as int)),
        decreases path.len() - i,
    {
        let ghost before = chain_of(path@).take(i as int);
        let ghost after = chain_of(path@).take(i + 1);
        proof {
            assert(after.drop_last() =~= before);
        }
        let ghost r0 = r@;
        if i > 0 {
            proof {
                reveal_strlit(".");
            }
            r.append(".");
            assert(r@ =~= r0 + seq!['.']);
        }
        let ghost r1 = r@;
        r.append(path[i].as_str());
        proof {
            assert(after.last() == path@[i as int]@);
            if i == 0 {
                assert(r@ =~= after[0]);
            } else {
                assert(r@ =~= r1 + after.last());
                assert(r@ =~= joined(before) + seq!['.'] + after.last());
            }
        }
        i = i + 1;
    }
    assert(chain_of(path@).take(path.len() as int) =~= chain_of(path@));
    r
}

/// The paths of `a` whose chains `b` does not hold, in the order of `a`: the chains to
/// create, or to delete, when a graph changes from `b` to `a`.
pub fn missing_chains(a: &Vec<Vec<String>>, b: &Vec<Vec<String>>) -> (r: Vec<Vec<String>>)
    ensures
        forall|c: Chain|
            chains_of(r@).contains(c) <==> (chains_of(a@).contains(c) && !chains_of(b@).contains(c)),
{
    let mut r: Vec<Vec<String>> = Vec::new();
    let mut i: usize = 0;
    while i < a.len()
        invariant
            i <= a.len(),
            forall|c: Chain|
                chains_of(r@).contains(c) <==> (chains_of(a@).take(i as int).contains(c) && !chains_of(b@).contains(c)),
        decreases a.len() - i,
    {
        let ghost ci = chains_of(a@)[i as int];
        let ghost old_r = chains_of(r@);
        proof {
            assert(chains_of(a@).take(i + 1) =~= chains_of(a@).take(i as int).push(ci));
        }
        let skip = contains_chain(b, &a[i]);
        if !skip {
            r.push(a[i].clone());
            proof {
                assert(chains_of(r@) =~= old_r.push(ci));
            }
        }
        proof {
            broadcast use vstd::seq_lib::lemma_seq_contains_after_push;

            if chains_of(b@).contains(ci) {
                assert(chains_of(r@) == old_r);
            }
        }
        i = i + 1;
    }
    assert(chains_of(a@).take(a.len() as int) =~= chains_of(a@));
    r
}

} // verus!
