use vstd::prelude::*;

use crate::codec::{lower_of, shard_count};
use crate::graph::{ensured, has_child, is_child, leaves_under};
use crate::order::Chain;
use crate::prefix_index::{PrefixIndex, cascade, removed};
use crate::search::{is_search_result, lemma_candidate_of_floor};
use crate::validate::{author_reason, create_is_valid, create_verdict, delete_is_valid, delete_verdict, width_reason};

verus! {

/// Adding a text twice leaves the same graph, and so the same search results, as adding
/// it once.
pub proof fn lemma_add_twice(index: PrefixIndex, m: Map<Chain, bool>, text: Seq<char>, label: Option<Seq<char>>)
    ensures
        ensured(ensured(m, index.path_spec(text, label)), index.path_spec(text, label)) == ensured(
            m,
            index.path_spec(text, label),
        ),
        forall|s: Chain, limit: nat, r: Seq<Chain>|
            is_search_result(ensured(ensured(m, index.path_spec(text, label)), index.path_spec(text, label)), s, limit, r)
                == is_search_result(ensured(m, index.path_spec(text, label)), s, limit, r),
{
    let c = index.path_spec(text, label);
    assert(ensured(ensured(m, c), c) =~= ensured(m, c));
}

proof fn lemma_cascade_shrinks(m: Map<Chain, bool>, c: Chain)
    ensures
        forall|x: Chain| #[trigger] cascade(m, c).contains_key(x) ==> m.contains_key(x) && cascade(m, c)[x] == m[x],
        c.len() >= 2 ==> !cascade(m, c).contains_key(c),
    decreases c.len(),
{
    if c.len() >= 2 && m.contains_key(c) {
        let m1 = m.remove(c);
        let p = c.drop_last();
        lemma_cascade_shrinks(m1, p);
    }
}

/// Once a text is removed, its entry is gone, and removing it again changes nothing: a
/// removal can be retried safely.
pub proof fn lemma_remove_twice(index: PrefixIndex, m: Map<Chain, bool>, text: Seq<char>, label: Option<Seq<char>>)
    ensures
        m.contains_key(index.path_spec(text, label)) && m[index.path_spec(text, label)] ==> !removed(
            m,
            index.path_spec(text, label),
        ).contains_key(index.path_spec(text, label)),
        removed(removed(m, index.path_spec(text, label)), index.path_spec(text, label)) == removed(
            m,
            index.path_spec(text, label),
        ),
{
    let c = index.path_spec(text, label);
    assert(c.len() >= 2);
    lemma_cascade_shrinks(m, c);
}

/// A link from the root whose tag is not the index name is rejected.
pub proof fn lemma_root_link_needs_name(base: Chain, target: Chain, tag: Seq<char>, index: PrefixIndex)
    requires
        base.len() == 0,
        tag != index.index_name@,
    ensures
        !create_is_valid(base, target, tag, index.index_name@, index.width as nat),
{
}

/// A link from the index name's chain whose tag is not `width` characters long is rejected.
pub proof fn lemma_name_link_needs_width(base: Chain, target: Chain, tag: Seq<char>, index: PrefixIndex)
    requires
        base == seq![index.index_name@],
        tag.len() != index.width,
    ensures
        create_verdict(base, target, tag, index.index_name@, index.width as nat) == Some(width_reason()),
{
}

/// A deletion by anyone but the link's author, or of a link from the root, is rejected,
/// whatever else the link holds.
pub proof fn lemma_delete_rules(author: Seq<u8>, creator: Seq<u8>, base: Chain)
    ensures
        author != creator ==> delete_verdict(author, creator, base) == Some(author_reason()),
        base.len() == 0 ==> !delete_is_valid(author, creator, base),
{
}

/// Removing an entry whose parent keeps another child deletes the edge into that entry
/// and nothing else.
pub proof fn lemma_remove_keeps_siblings(m: Map<Chain, bool>, c: Chain, sibling: Chain)
    requires
        c.len() >= 2,
        m.contains_key(c) && m[c],
        m.contains_key(sibling),
        is_child(c.drop_last(), sibling),
        sibling != c,
    ensures
        removed(m, c) == m.remove(c),
{
    assert(m.remove(c).contains_key(sibling));
    assert(has_child(m.remove(c), c.drop_last()));
}

/// A text added under a label is found by a query whose lower-cased form starts with the
/// same first shard segment, whatever the letter case of text, label and query: where the
/// search returns fewer than `limit` results, the entry is among them, with its label as
/// its last component. The entry must have no children, as an entry that some other entry
/// extends is not collected.
pub proof fn lemma_label_found(
    index: PrefixIndex,
    m: Map<Chain, bool>,
    text: Seq<char>,
    label: Seq<char>,
    query: Seq<char>,
    limit: nat,
    r: Seq<Chain>,
)
    requires
        shard_count(lower_of(text).len(), index.width as nat, index.depth as nat) >= 1,
        shard_count(lower_of(query).len(), index.width as nat, index.depth as nat) >= 1,
        lower_of(text).subrange(0, index.width as int) == lower_of(query).subrange(0, index.width as int),
        !has_child(ensured(m, index.path_spec(text, Some(label))), index.path_spec(text, Some(label))),
        is_search_result(ensured(m, index.path_spec(text, Some(label))), index.path_spec(query, None), limit, r),
        r.len() < limit,
    ensures
        r.contains(index.path_spec(text, Some(label))),
        index.path_spec(text, Some(label)).last() == label,
{
    let c = index.path_spec(text, Some(label));
    let s = index.path_spec(query, None);
    let m2 = ensured(m, c);
    let w = index.width as int;
    assert(c[1] == lower_of(text).subrange(0, w));
    assert(s[1] == lower_of(query).subrange(0, w));
    assert(s.take(2) =~= c.take(2));
    assert(leaves_under(m2, c.take(2)).contains(c)) by {
        assert(c.len() >= 3);
        assert(c.take(2).len() == 2);
        assert(c.take(2 as int) =~= c.take(2));
        assert(c.take(c.len() as int) =~= c);
        assert(m2.contains_key(c));
        assert forall|k: int| 2 < k <= c.len() implies #[trigger] m2.contains_key(c.take(k)) by {
            assert(c.take(k).len() == k);
            assert(c.take(c.take(k).len() as int) =~= c.take(k));
        }
    }
    lemma_candidate_of_floor(m2, s, c);
}

} // verus!
