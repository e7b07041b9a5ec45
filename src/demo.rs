use vstd::prelude::*;

use crate::codec::{after_marker, make_cashtag_index_text, make_hashtag_index_text};
use crate::graph::{Graph, ensured};
use crate::order::Chain;
use crate::prefix_index::{IndexError, PrefixIndex, ScopedLinkType, removed, leaf_texts, texts_of};
use crate::search::{is_search_result, is_sample};

verus! {

pub const PREFIX_INDEX_A_NAME: &'static str = "prefix_index_a";
pub const PREFIX_INDEX_A_WIDTH: usize = 3;
pub const PREFIX_INDEX_A_DEPTH: usize = 3;

pub const PREFIX_INDEX_B_NAME: &'static str = "prefix_index_b";
pub const PREFIX_INDEX_B_WIDTH: usize = 3;
pub const PREFIX_INDEX_B_DEPTH: usize = 5;

pub const PREFIX_INDEX_C_NAME: &'static str = "prefix_index_c";
pub const PREFIX_INDEX_C_WIDTH: usize = 4;
pub const PREFIX_INDEX_C_DEPTH: usize = 2;

/// The link types of the demo's three indexes.
#[derive(Clone, Copy, Debug, PartialEq, Eq, Structural)]
pub enum LinkTypes {
    PrefixIndexA,
    PrefixIndexB,
    PrefixIndexC,
}

/// A search request: the query text and how many results to return at most.
#[derive(Clone, Debug)]
pub struct SearchIndexInput {
    pub query: String,
    pub limit: usize,
}

/// The name, width and depth of the demo index of a link type.
pub open spec fn config_of(l: LinkTypes) -> (Seq<char>, usize, usize) {
    match l {
        LinkTypes::PrefixIndexA => (PREFIX_INDEX_A_NAME@, PREFIX_INDEX_A_WIDTH, PREFIX_INDEX_A_DEPTH),
        LinkTypes::PrefixIndexB => (PREFIX_INDEX_B_NAME@, PREFIX_INDEX_B_WIDTH, PREFIX_INDEX_B_DEPTH),
        LinkTypes::PrefixIndexC => (PREFIX_INDEX_C_NAME@, PREFIX_INDEX_C_WIDTH, PREFIX_INDEX_C_DEPTH),
    }
}

/// `ix` is the demo index of link type `l`.
pub open spec fn is_index_of(ix: PrefixIndex, l: LinkTypes) -> bool {
    ix.index_name@ == config_of(l).0 && ix.width == config_of(l).1 && ix.depth == config_of(l).2
}

/// The demo index of a link type.
pub fn index_for(l: LinkTypes) -> (r: PrefixIndex)
    ensures
        is_index_of(r, l),
{
    match l {
        LinkTypes::PrefixIndexA => PrefixIndex::new(
            String::from_str(PREFIX_INDEX_A_NAME),
            ScopedLinkType { zome_index: 0, zome_type: 0 },
            PREFIX_INDEX_A_WIDTH,
            PREFIX_INDEX_A_DEPTH,
        ),
        LinkTypes::PrefixIndexB => PrefixIndex::new(
            String::from_str(PREFIX_INDEX_B_NAME),
            ScopedLinkType { zome_index: 0, zome_type: 1 },
            PREFIX_INDEX_B_WIDTH,
            PREFIX_INDEX_B_DEPTH,
        ),
        LinkTypes::PrefixIndexC => PrefixIndex::new(
            String::from_str(PREFIX_INDEX_C_NAME),
            ScopedLinkType { zome_index: 0, zome_type: 2 },
            PREFIX_INDEX_C_WIDTH,
            PREFIX_INDEX_C_DEPTH,
        ),
    }
}

/// Adds `text` to the demo index of `l`.
pub fn add_to_index(graph: &mut Graph, l: LinkTypes, text: String)
    requires
        old(graph).wf(),
    ensures
        final(graph).wf(),
        exists|ix: PrefixIndex| is_index_of(ix, l) && final(graph)@ == ensured(old(graph)@, ix.path_spec(text@, None)),
{
    let index = index_for(l);
    index.add_result(graph, text);
}

/// Searches the demo index of `l`.
pub fn search_index(graph: &Graph, l: LinkTypes, input: SearchIndexInput) -> (r: Result<Vec<String>, IndexError>)
    requires
        graph.wf(),
    ensures
        input.limit == 0 ==> r == Err::<Vec<String>, IndexError>(IndexError::InvalidInput),
        input.limit > 0 ==> r is Ok,
        r matches Ok(v) ==> exists|ix: PrefixIndex, paths: Seq<Chain>|
            is_index_of(ix, l) && is_search_result(graph@, ix.path_spec(input.query@, None), input.limit as nat, paths)
                && texts_of(v@) == leaf_texts(paths),
{
    let index = index_for(l);
    index.get_results(graph, input.query, input.limit)
}

pub fn add_to_index_a(graph: &mut Graph, text: String)
    requires
        old(graph).wf(),
    ensures
        final(graph).wf(),
        exists|ix: PrefixIndex|
            is_index_of(ix, LinkTypes::PrefixIndexA) && final(graph)@ == ensured(old(graph)@, ix.path_spec(text@, None)),
{
    add_to_index(graph, LinkTypes::PrefixIndexA, text)
}

pub fn add_to_index_b(graph: &mut Graph, text: String)
    requires
        old(graph).wf(),
    ensures
        final(graph).wf(),
        exists|ix: PrefixIndex|
            is_index_of(ix, LinkTypes::PrefixIndexB) && final(graph)@ == ensured(old(graph)@, ix.path_spec(text@, None)),
{
    add_to_index(graph, LinkTypes::PrefixIndexB, text)
}

pub fn add_to_index_c(graph: &mut Graph, text: String)
    requires
        old(graph).wf(),
    ensures
        final(graph).wf(),
        exists|ix: PrefixIndex|
            is_index_of(ix, LinkTypes::PrefixIndexC) && final(graph)@ == ensured(old(graph)@, ix.path_spec(text@, None)),
{
    add_to_index(graph, LinkTypes::PrefixIndexC, text)
}

pub fn remove_from_index_a(graph: &mut Graph, text: String)
    requires
        old(graph).wf(),
    ensures
        final(graph).wf(),
        exists|ix: PrefixIndex|
            is_index_of(ix, LinkTypes::PrefixIndexA) && final(graph)@ == removed(old(graph)@, ix.path_spec(text@, None)),
{
    let index = index_for(LinkTypes::PrefixIndexA);
    index.remove_result(graph, text);
}

pub fn search_index_a(graph: &Graph, input: SearchIndexInput) -> (r: Result<Vec<String>, IndexError>)
    requires
        graph.wf(),
    ensures
        input.limit == 0 ==> r == Err::<Vec<String>, IndexError>(IndexError::InvalidInput),
        input.limit > 0 ==> r is Ok,
        r matches Ok(v) ==> exists|ix: PrefixIndex, paths: Seq<Chain>|
            is_index_of(ix, LinkTypes::PrefixIndexA) && is_search_result(
                graph@,
                ix.path_spec(input.query@, None),
                input.limit as nat,
                paths,
            ) && texts_of(v@) == leaf_texts(paths),
{
    search_index(graph, LinkTypes::PrefixIndexA, input)
}

pub fn search_index_b(graph: &Graph, input: SearchIndexInput) -> (r: Result<Vec<String>, IndexError>)
    requires
        graph.wf(),
    ensures
        input.limit == 0 ==> r == Err::<Vec<String>, IndexError>(IndexError::InvalidInput),
        input.limit > 0 ==> r is Ok,
        r matches Ok(v) ==> exists|ix: PrefixIndex, paths: Seq<Chain>|
            is_index_of(ix, LinkTypes::PrefixIndexB) && is_search_result(
                graph@,
                ix.path_spec(input.query@, None),
                input.limit as nat,
                paths,
            ) && texts_of(v@) == leaf_texts(paths),
{
    search_index(graph, LinkTypes::PrefixIndexB, input)
}

pub fn search_index_c(graph: &Graph, input: SearchIndexInput) -> (r: Result<Vec<String>, IndexError>)
    requires
        graph.wf(),
    ensures
        input.limit == 0 ==> r == Err::<Vec<String>, IndexError>(IndexError::InvalidInput),
        input.limit > 0 ==> r is Ok,
        r matches Ok(v) ==> exists|ix: PrefixIndex, paths: Seq<Chain>|
            is_index_of(ix, LinkTypes::PrefixIndexC) && is_search_result(
                graph@,
                ix.path_spec(input.query@, None),
                input.limit as nat,
                paths,
            ) && texts_of(v@) == leaf_texts(paths),
{
    search_index(graph, LinkTypes::PrefixIndexC, input)
}

/// Adds a hashtag to index A: its text after `#` is indexed, the hashtag itself is returned.
pub fn add_hashtag_to_index_a(graph: &mut Graph, hashtag: String)
    requires
        old(graph).wf(),
    ensures
        final(graph).wf(),
        exists|ix: PrefixIndex|
            is_index_of(ix, LinkTypes::PrefixIndexA) && final(graph)@ == ensured(
                old(graph)@,
                ix.path_spec(after_marker(hashtag@, '#'), Some(hashtag@)),
            ),
{
    let index = index_for(LinkTypes::PrefixIndexA);
    let index_text = make_hashtag_index_text(hashtag.clone());
    index.add_result_with_label(graph, index_text, hashtag);
}

/// Removes a hashtag from index A.
pub fn remove_hashtag_from_index_a(graph: &mut Graph, hashtag: String)
    requires
        old(graph).wf(),
    ensures
        final(graph).wf(),
        exists|ix: PrefixIndex|
            is_index_of(ix, LinkTypes::PrefixIndexA) && final(graph)@ == removed(
                old(graph)@,
                ix.path_spec(after_marker(hashtag@, '#'), Some(hashtag@)),
            ),
{
    let index = index_for(LinkTypes::PrefixIndexA);
    let index_text = make_hashtag_index_text(hashtag.clone());
    index.remove_result_with_label(graph, index_text, hashtag);
}

/// Adds a cashtag to index A: its text after `$` is indexed, the cashtag itself is returned.
pub fn add_cashtag_to_index_a(graph: &mut Graph, cashtag: String)
    requires
        old(graph).wf(),
    ensures
        final(graph).wf(),
        exists|ix: PrefixIndex|
            is_index_of(ix, LinkTypes::PrefixIndexA) && final(graph)@ == ensured(
                old(graph)@,
                ix.path_spec(after_marker(cashtag@, '$'), Some(cashtag@)),
            ),
{
    let index = index_for(LinkTypes::PrefixIndexA);
    let index_text = make_cashtag_index_text(cashtag.clone());
    index.add_result_with_label(graph, index_text, cashtag);
}

/// Removes a cashtag from index A.
pub fn remove_cashtag_from_index_a(graph: &mut Graph, cashtag: String)
    requires
        old(graph).wf(),
    ensures
        final(graph).wf(),
        exists|ix: PrefixIndex|
            is_index_of(ix, LinkTypes::PrefixIndexA) && final(graph)@ == removed(
                old(graph)@,
                ix.path_spec(after_marker(cashtag@, '$'), Some(cashtag@)),
            ),
{
    let index = index_for(LinkTypes::PrefixIndexA);
    let index_text = make_cashtag_index_text(cashtag.clone());
    index.remove_result_with_label(graph, index_text, cashtag);
}

/// Up to `limit` entries of index A, picked at random.
pub fn get_random_results_index_a(graph: &Graph, limit: usize) -> (r: Result<Vec<String>, IndexError>)
    requires
        graph.wf(),
    ensures
        limit == 0 ==> r == Err::<Vec<String>, IndexError>(IndexError::InvalidInput),
        limit > 0 ==> r is Ok,
        r matches Ok(v) ==> exists|paths: Seq<Chain>|
            is_sample(graph@, seq![PREFIX_INDEX_A_NAME@], limit as nat, paths) && texts_of(v@) == leaf_texts(paths),
{
    let index = index_for(LinkTypes::PrefixIndexA);
    index.get_random_results(graph, limit)
}

} // verus!
