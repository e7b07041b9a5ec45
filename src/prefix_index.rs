use vstd::prelude::*;

use crate::codec::{build_path, result_path};
use crate::graph::{Graph, ensured, has_child, take_chain};
use crate::order::{Chain, chain_of, chains_of};
use crate::search::{collect_results, sample_results, is_search_result, is_sample};

verus! {

/// The link type that the links of an index carry: the zome that defines it and its
/// index among that zome's link types.
#[derive(Clone, Copy, Debug, PartialEq, Eq, Structural)]
pub struct ScopedLinkType {
    pub zome_index: u8,
    pub zome_type: u8,
}

/// Why an index operation failed.
#[derive(Clone, Copy, Debug, PartialEq, Eq, Structural)]
pub enum IndexError {
    /// An argument is out of range, such as a limit of zero.
    InvalidInput,
    /// A link tag does not hold a component text.
    DecodeFailure,
}

/// A prefix index: its name, link type, and the width and depth of its shard segments.
#[derive(Clone, Debug)]
pub struct PrefixIndex {
    pub index_name: String,
    pub link_type: ScopedLinkType,
    pub width: usize,
    pub depth: usize,
}

/// The graph after the edge into `c` is deleted and, level by level, the edge into each
/// ancestor left without children, stopping below the index name.
pub open spec fn cascade(m: Map<Chain, bool>, c: Chain) -> Map<Chain, bool>
    decreases c.len(),
{
    if c.len() < 2 || !m.contains_key(c) {
        m
    } else {
        let m1 = m.remove(c);
        let p = c.drop_last();
        if p.len() >= 2 && !has_child(m1, p) {
            cascade(m1, p)
        } else {
            m1
        }
    }
}

/// The graph after the entry `c` is removed; unchanged where `c` is not an entry.
pub open spec fn removed(m: Map<Chain, bool>, c: Chain) -> Map<Chain, bool> {
    if m.contains_key(c) && m[c] {
        cascade(m, c)
    } else {
        m
    }
}

/// The last component of each chain, in order.
pub open spec fn leaf_texts(r: Seq<Chain>) -> Seq<Seq<char>> {
    r.map_values(|c: Chain| c.last())
}

/// The texts of a vector of strings.
pub open spec fn texts_of(v: Seq<String>) -> Seq<Seq<char>> {
    v.map_values(|s: String| s@)
}

/// The last component of each path.
fn leaf_strings(r: &Vec<Vec<String>>) -> (out: Vec<String>)
    requires
        forall|i: int| 0 <= i < r.len() ==> (#[trigger] r@[i]).len() >= 1,
    ensures
        texts_of(out@) == leaf_texts(chains_of(r@)),
{
    let mut out: Vec<String> = Vec::new();
    let mut i: usize = 0;
    while i < r.len()
        invariant
            i <= r.len(),
            forall|k: int| 0 <= k < r.len() ==> (#[trigger] r@[k]).len() >= 1,
            texts_of(out@) == leaf_texts(chains_of(r@)).take(i as int),
        decreases r.len() - i,
    {
        let p = &r[i];
        let s = p[p.len() - 1].clone();
        let ghost old_out = out@;
        out.push(s);
        proof {
            assert(chains_of(r@)[i as int] == chain_of(p@));
            assert(texts_of(out@) =~= texts_of(old_out).push(s@));
            assert(leaf_texts(chains_of(r@)).take(i + 1) =~= leaf_texts(chains_of(r@)).take(i as int).push(
                chain_of(p@).last(),
            ));
        }
        i = i + 1;
    }
    assert(leaf_texts(chains_of(r@)).take(r.len() as int) =~= leaf_texts(chains_of(r@)));
    out
}

/// Removes the entry `path` from the graph, as `removed` states.
pub fn remove_path(graph: &mut Graph, path: &Vec<String>)
    requires
        old(graph).wf(),
    ensures
        final(graph).wf(),
        final(graph)@ == removed(old(graph)@, chain_of(path@)),
{
    if !graph.is_entry(path) {
        return;
    }
    let ghost target = cascade(graph@, chain_of(path@));
    if path.len() < 2 {
        return;
    }
    let mut cur: Vec<String> = path.clone();
    let mut done = false;
    while !done
        invariant
            graph.wf(),
            !done ==> cur.len() >= 2 && graph@.contains_key(chain_of(cur@)) && cascade(graph@, chain_of(cur@))
                == target,
            done ==> graph@ == target,
        decreases cur.len() + (if done { 0int } else { 1int }),
    {
        let ghost m = graph@;
        let ghost cc = chain_of(cur@);
        graph.delete_edge(&cur);
        let parent = take_chain(&cur, cur.len() - 1);
        assert(chain_of(parent@) =~= cc.drop_last());
        proof {
            let pc = cc.drop_last();
            assert(cascade(m, cc) == if pc.len() >= 2 && !has_child(graph@, pc) {
                cascade(graph@, pc)
            } else {
                graph@
            });
            if !graph@.contains_key(pc) {
                assert(cascade(graph@, pc) == graph@);
            }
        }
        if parent.len() >= 2 && !graph.has_children(&parent) && graph.contains(&parent) {
            cur = parent;
        } else {
            done = true;
        }
    }
}

impl PrefixIndex {
    /// The chain of the entry for `text`, with `label` as its last component if given.
    pub open spec fn path_spec(&self, text: Seq<char>, label: Option<Seq<char>>) -> Chain {
        result_path(self.index_name@, self.width as nat, self.depth as nat, text, label)
    }

    /// A prefix index with the given name, link type and shard shape.
    pub fn new(index_name: String, link_type: ScopedLinkType, width: usize, depth: usize) -> (r: PrefixIndex)
        ensures
            r.index_name == index_name,
            r.link_type == link_type,
            r.width == width,
            r.depth == depth,
    {
        PrefixIndex { index_name, link_type, width, depth }
    }

    /// The chain of the entry for `text`: the index name, the shard segments of the
    /// lower-cased text, and `full_text` if given, else `text` as it is.
    pub fn make_result_path(&self, text: String, full_text: Option<String>) -> (r: Vec<String>)
        ensures
            chain_of(r@) == self.path_spec(text@, match full_text {
                Some(l) => Some(l@),
                None => None,
            }),
            r.len() >= 2,
    {
        match full_text {
            Some(l) => build_path(&self.index_name, self.width, self.depth, &text, Some(&l)),
            None => build_path(&self.index_name, self.width, self.depth, &text, None),
        }
    }

    /// Adds `text` to the index; returns the chain of its entry.
    pub fn add_result(&self, graph: &mut Graph, text: String) -> (r: Vec<String>)
        requires
            old(graph).wf(),
        ensures
            final(graph).wf(),
            chain_of(r@) == self.path_spec(text@, None),
            final(graph)@ == ensured(old(graph)@, chain_of(r@)),
    {
        let path = self.make_result_path(text, None);
        graph.ensure_chain(&path);
        path
    }

    /// Adds `text` to the index under the label `full_text`, which is what searches return.
    pub fn add_result_with_label(&self, graph: &mut Graph, text: String, full_text: String) -> (r: Vec<String>)
        requires
            old(graph).wf(),
        ensures
            final(graph).wf(),
            chain_of(r@) == self.path_spec(text@, Some(full_text@)),
            final(graph)@ == ensured(old(graph)@, chain_of(r@)),
    {
        let path = self.make_result_path(text, Some(full_text));
        graph.ensure_chain(&path);
        path
    }

    /// Removes `text` from the index; nothing happens where it is not an entry.
    pub fn remove_result(&self, graph: &mut Graph, text: String)
        requires
            old(graph).wf(),
        ensures
            final(graph).wf(),
            final(graph)@ == removed(old(graph)@, self.path_spec(text@, None)),
    {
        let path = self.make_result_path(text, None);
        remove_path(graph, &path);
    }

    /// Removes `text`, added under the label `full_text`, from the index.
    pub fn remove_result_with_label(&self, graph: &mut Graph, text: String, full_text: String)
        requires
            old(graph).wf(),
        ensures
            final(graph).wf(),
            final(graph)@ == removed(old(graph)@, self.path_spec(text@, Some(full_text@))),
    {
        let path = self.make_result_path(text, Some(full_text));
        remove_path(graph, &path);
    }

    /// The entries that a search from `path` collects, at most `limit` of them.
    pub fn get_results_from_path(&self, graph: &Graph, path: &Vec<String>, limit: usize) -> (r: Vec<Vec<String>>)
        requires
            graph.wf(),
            path.len() >= 1,
        ensures
            is_search_result(graph@, chain_of(path@), limit as nat, chains_of(r@)),
    {
        collect_results(graph, path, limit)
    }

    /// Up to `limit` texts of entries that match `query`: those below its deepest bucket
    /// first, then those of the broader buckets above it.
    pub fn get_results(&self, graph: &Graph, query: String, limit: usize) -> (r: Result<Vec<String>, IndexError>)
        requires
            graph.wf(),
        ensures
            limit == 0 ==> r == Err::<Vec<String>, IndexError>(IndexError::InvalidInput),
            limit > 0 ==> r is Ok,
            r matches Ok(v) ==> exists|paths: Seq<Chain>|
                is_search_result(graph@, self.path_spec(query@, None), limit as nat, paths) && texts_of(v@)
                    == leaf_texts(paths),
    {
        if limit == 0 {
            return Err(IndexError::InvalidInput);
        }
        let path = self.make_result_path(query, None);
        let found = collect_results(graph, &path, limit);
        proof {
            assert forall|i: int| 0 <= i < found.len() implies (#[trigger] found@[i]).len() >= 1 by {
                crate::search::lemma_candidate_len(graph@, chain_of(path@), chains_of(found@)[i]);
            }
        }
        Ok(leaf_strings(&found))
    }

    /// Up to `limit` texts of entries of the index: the first entries of a depth-first walk
    /// from the index name that visits the children of each chain in a random order.
    pub fn get_random_results(&self, graph: &Graph, limit: usize) -> (r: Result<Vec<String>, IndexError>)
        requires
            graph.wf(),
        ensures
            limit == 0 ==> r == Err::<Vec<String>, IndexError>(IndexError::InvalidInput),
            limit > 0 ==> r is Ok,
            r matches Ok(v) ==> exists|paths: Seq<Chain>|
                is_sample(graph@, seq![self.index_name@], limit as nat, paths) && texts_of(v@) == leaf_texts(paths),
    {
        if limit == 0 {
            return Err(IndexError::InvalidInput);
        }
        let mut base: Vec<String> = Vec::new();
        base.push(self.index_name.clone());
        assert(chain_of(base@) =~= seq![self.index_name@]);
        let found = sample_results(graph, &base, limit);
        proof {
            assert forall|i: int| 0 <= i < found.len() implies (#[trigger] found@[i]).len() >= 1 by {
                assert(crate::graph::is_prefix(chain_of(base@), chains_of(found@)[i]));
            }
        }
        Ok(leaf_strings(&found))
    }
}

} // verus!
