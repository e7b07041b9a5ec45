use vstd::prelude::*;

verus! {

/// A path through the index: its components in order, each a sequence of characters.
pub type Chain = Seq<Seq<char>>;

/// The chain that a vector of component strings denotes.
pub open spec fn chain_of(v: Seq<String>) -> Chain {
    v.map_values(|s: String| s@)
}

/// The chains that a vector of paths denotes, one for each path.
pub open spec fn chains_of(v: Seq<Vec<String>>) -> Seq<Chain> {
    v.map_values(|p: Vec<String>| chain_of(p@))
}

/// The rank of a character among tag bytes: its four little-endian bytes, read with the
/// lowest byte as the most significant.
pub open spec fn tag_key(c: char) -> u32 {
    swap_bytes(c as u32)
}

/// `u` with its four bytes in reverse order.
pub open spec fn swap_bytes(u: u32) -> u32 {
    ((u & 0xff) << 24u32) | (((u >> 8u32) & 0xff) << 16u32) | (((u >> 16u32) & 0xff) << 8u32) | (u >> 24u32)
}

/// Lexicographic order on texts of one length, comparing characters by `tag_key`.
pub open spec fn chars_lt(a: Seq<char>, b: Seq<char>) -> bool
    decreases a.len(),
{
    if a.len() == 0 {
        b.len() > 0
    } else if b.len() == 0 {
        false
    } else if a[0] != b[0] {
        tag_key(a[0]) < tag_key(b[0])
    } else {
        chars_lt(a.drop_first(), b.drop_first())
    }
}

/// The order of the link tags that carry components. A tag holds the msgpack encoding of
/// the component's bytes, four little-endian bytes per character. The msgpack header holds
/// the length, so a shorter component comes first; components of one length then compare
/// character by character, by their bytes in order.
pub open spec fn text_lt(a: Seq<char>, b: Seq<char>) -> bool {
    a.len() < b.len() || (a.len() == b.len() && chars_lt(a, b))
}

/// Lexicographic order on chains, comparing components by `text_lt`.
pub open spec fn chain_lt(a: Chain, b: Chain) -> bool
    decreases a.len(),
{
    if a.len() == 0 {
        b.len() > 0
    } else if b.len() == 0 {
        false
    } else if a[0] != b[0] {
        text_lt(a[0], b[0])
    } else {
        chain_lt(a.drop_first(), b.drop_first())
    }
}

/// Every two chains of `s` stand in `chain_lt` order.
pub open spec fn strictly_sorted(s: Seq<Chain>) -> bool {
    forall|i: int, j: int| 0 <= i < j < s.len() ==> chain_lt(#[trigger] s[i], #[trigger] s[j])
}

proof fn lemma_swap_injective(u: u32, v: u32) by (bit_vector)
    requires
        ((u & 0xff) << 24u32) | (((u >> 8u32) & 0xff) << 16u32) | (((u >> 16u32) & 0xff) << 8u32) | (u >> 24u32)
            == ((v & 0xff) << 24u32) | (((v >> 8u32) & 0xff) << 16u32) | (((v >> 16u32) & 0xff) << 8u32) | (v >> 24u32),
    ensures
        u == v,
{
}

proof fn lemma_char_total(x: char, y: char)
    ensures
        x != y ==> tag_key(x) != tag_key(y),
{
    if tag_key(x) == tag_key(y) {
        lemma_swap_injective(x as u32, y as u32);
    }
}

proof fn lemma_chars_irreflexive(a: Seq<char>)
    ensures
        !chars_lt(a, a),
    decreases a.len(),
{
    if a.len() > 0 {
        lemma_chars_irreflexive(a.drop_first());
    }
}

proof fn lemma_chars_asymmetric(a: Seq<char>, b: Seq<char>)
    ensures
        chars_lt(a, b) ==> !chars_lt(b, a),
    decreases a.len(),
{
    if a.len() > 0 && b.len() > 0 {
        lemma_chars_asymmetric(a.drop_first(), b.drop_first());
    }
}

proof fn lemma_chars_total(a: Seq<char>, b: Seq<char>)
    ensures
        a != b ==> chars_lt(a, b) || chars_lt(b, a),
    decreases a.len(),
{
    if a.len() > 0 && b.len() > 0 {
        lemma_chars_total(a.drop_first(), b.drop_first());
        lemma_char_total(a[0], b[0]);
        if a[0] == b[0] && a != b {
            assert(a =~= seq![a[0]] + a.drop_first());
            assert(b =~= seq![b[0]] + b.drop_first());
        }
    } else if a.len() == 0 && b.len() == 0 {
        assert(a =~= b);
    }
}

proof fn lemma_chars_transitive(a: Seq<char>, b: Seq<char>, c: Seq<char>)
    ensures
        chars_lt(a, b) && chars_lt(b, c) ==> chars_lt(a, c),
    decreases a.len(),
{
    if a.len() > 0 && b.len() > 0 && c.len() > 0 {
        lemma_chars_transitive(a.drop_first(), b.drop_first(), c.drop_first());
    }
}

proof fn lemma_text_irreflexive(a: Seq<char>)
    ensures
        !text_lt(a, a),
{
    lemma_chars_irreflexive(a);
}

proof fn lemma_text_asymmetric(a: Seq<char>, b: Seq<char>)
    ensures
        text_lt(a, b) ==> !text_lt(b, a),
{
    lemma_chars_asymmetric(a, b);
}

proof fn lemma_text_total(a: Seq<char>, b: Seq<char>)
    ensures
        a != b ==> text_lt(a, b) || text_lt(b, a),
{
    lemma_chars_total(a, b);
}

proof fn lemma_text_transitive(a: Seq<char>, b: Seq<char>, c: Seq<char>)
    ensures
        text_lt(a, b) && text_lt(b, c) ==> text_lt(a, c),
{
    lemma_chars_transitive(a, b, c);
}

proof fn lemma_chain_irreflexive(a: Chain)
    ensures
        !chain_lt(a, a),
    decreases a.len(),
{
    if a.len() > 0 {
        lemma_chain_irreflexive(a.drop_first());
    }
}

proof fn lemma_chain_asymmetric(a: Chain, b: Chain)
    ensures
        chain_lt(a, b) ==> !chain_lt(b, a),
    decreases a.len(),
{
    if a.len() > 0 && b.len() > 0 {
        lemma_chain_asymmetric(a.drop_first(), b.drop_first());
        lemma_text_asymmetric(a[0], b[0]);
    }
}

proof fn lemma_chain_total(a: Chain, b: Chain)
    ensures
        a != b ==> chain_lt(a, b) || chain_lt(b, a),
    decreases a.len(),
{
    if a.len() > 0 && b.len() > 0 {
        lemma_chain_total(a.drop_first(), b.drop_first());
        lemma_text_total(a[0], b[0]);
        if a[0] == b[0] && a != b {
            assert(a =~= seq![a[0]] + a.drop_first());
            assert(b =~= seq![b[0]] + b.drop_first());
        }
    } else if a.len() == 0 && b.len() == 0 {
        assert(a =~= b);
    }
}

proof fn lemma_chain_transitive(a: Chain, b: Chain, c: Chain)
    ensures
        chain_lt(a, b) && chain_lt(b, c) ==> chain_lt(a, c),
    decreases a.len(),
{
    if a.len() > 0 && b.len() > 0 && c.len() > 0 {
        lemma_chain_transitive(a.drop_first(), b.drop_first(), c.drop_first());
        lemma_text_transitive(a[0], b[0], c[0]);
        lemma_text_asymmetric(a[0], b[0]);
    }
}

/// `chain_lt` is a strict total order.
pub proof fn lemma_chain_order(a: Chain, b: Chain, c: Chain)
    ensures
        !chain_lt(a, a),
        chain_lt(a, b) ==> !chain_lt(b, a),
        a != b ==> chain_lt(a, b) || chain_lt(b, a),
        chain_lt(a, b) && chain_lt(b, c) ==> chain_lt(a, c),
{
    lemma_chain_irreflexive(a);
    lemma_chain_asymmetric(a, b);
    lemma_chain_total(a, b);
    lemma_chain_transitive(a, b, c);
}

/// The rank of a character among tag bytes, as `tag_key` states.
pub fn char_tag_key(c: char) -> (k: u32)
    ensures
        k == tag_key(c),
{
    let u = c as u32;
    ((u & 0xff) << 24u32) | (((u >> 8u32) & 0xff) << 16u32) | (((u >> 16u32) & 0xff) << 8u32) | (u >> 24u32)
}

/// Whether `a` comes before `b` in `text_lt` order.
pub fn text_less(a: &String, b: &String) -> (r: bool)
    ensures
        r == text_lt(a@, b@),
{
    let sa = a.as_str();
    let sb = b.as_str();
    let la = sa.unicode_len();
    let lb = sb.unicode_len();
    if la != lb {
        return la < lb;
    }
    let mut i: usize = 0;
    assert(a@.skip(0) =~= a@);
    assert(b@.skip(0) =~= b@);
    while i < la
        invariant
            i <= la,
            la == lb,
            la == a@.len(),
            lb == b@.len(),
            sa@ == a@,
            sb@ == b@,
            chars_lt(a@, b@) == chars_lt(a@.skip(i as int), b@.skip(i as int)),
        decreases la - i,
    {
        let x = sa.get_char(i);
        let y = sb.get_char(i);
        if x != y {
            return char_tag_key(x) < char_tag_key(y);
        }
        assert(a@.skip(i as int).drop_first() =~= a@.skip(i + 1));
        assert(b@.skip(i as int).drop_first() =~= b@.skip(i + 1));
        i = i + 1;
    }
    false
}

/// Whether two paths denote the same chain.
pub fn chain_equal(a: &Vec<String>, b: &Vec<String>) -> (r: bool)
    ensures
        r == (chain_of(a@) == chain_of(b@)),
{
    if a.len() != b.len() {
        assert(chain_of(a@).len() != chain_of(b@).len());
        return false;
    }
    let mut i: usize = 0;
    while i < a.len()
        invariant
            i <= a.len(),
            a.len() == b.len(),
            forall|k: int| 0 <= k < i ==> chain_of(a@)[k] == chain_of(b@)[k],
        decreases a.len() - i,
    {
        if a[i] != b[i] {
            assert(chain_of(a@)[i as int] != chain_of(b@)[i as int]);
            return false;
        }
        i = i + 1;
    }
    assert(chain_of(a@) =~= chain_of(b@));
    true
}

/// Whether `a` comes before `b` in `chain_lt` order.
pub fn chain_less(a: &Vec<String>, b: &Vec<String>) -> (r: bool)
    ensures
        r == chain_lt(chain_of(a@), chain_of(b@)),
{
    let ghost ca = chain_of(a@);
    let ghost cb = chain_of(b@);
    let mut i: usize = 0;
    assert(ca.skip(0) =~= ca);
    assert(cb.skip(0) =~= cb);
    while i < a.len() && i < b.len()
        invariant
            i <= a.len(),
            i <= b.len(),
            ca == chain_of(a@),
            cb == chain_of(b@),
            chain_lt(ca, cb) == chain_lt(ca.skip(i as int), cb.skip(i as int)),
        decreases a.len() - i,
    {
        if a[i] != b[i] {
            return text_less(&a[i], &b[i]);
        }
        assert(ca.skip(i as int).drop_first() =~= ca.skip(i + 1));
        assert(cb.skip(i as int).drop_first() =~= cb.skip(i + 1));
        i = i + 1;
    }
    i < b.len()
}

/// Sorts paths with pairwise distinct chains into `chain_lt` order.
pub fn sort_chains(v: Vec<Vec<String>>) -> (r: Vec<Vec<String>>)
    requires
        chains_of(v@).no_duplicates(),
    ensures
        strictly_sorted(chains_of(r@)),
        chains_of(r@).to_set() == chains_of(v@).to_set(),
        r.len() == v.len(),
{
    let mut r: Vec<Vec<String>> = Vec::new();
    let mut i: usize = 0;
    while i < v.len()
        invariant
            i <= v.len(),
            r.len() == i,
            chains_of(v@).no_duplicates(),
            strictly_sorted(chains_of(r@)),
            chains_of(r@).to_set() == chains_of(v@).take(i as int).to_set(),
        decreases v.len() - i,
    {
        let x = v[i].clone();
        let ghost cx = chain_of(x@);
        let ghost old_r = chains_of(r@);
        assert(cx == chains_of(v@)[i as int]);
        let mut p: usize = 0;
        let mut found = false;
        while p < r.len() && !found
            invariant
                p <= r.len(),
                chains_of(r@) == old_r,
                cx == chain_of(x@),
                found ==> p < r.len() && chain_lt(cx, old_r[p as int]),
                forall|k: int| 0 <= k < p ==> !chain_lt(cx, #[trigger] old_r[k]),
            decreases r.len() - p + (if found { 0int } else { 1int }),
        {
            if chain_less(&x, &r[p]) {
                found = true;
            } else {
                p = p + 1;
            }
        }
        proof {
            assert(!chains_of(v@).take(i as int).contains(cx)) by {
                if chains_of(v@).take(i as int).contains(cx) {
                    let j = choose|j: int| 0 <= j < i && #[trigger] chains_of(v@).take(i as int)[j] == cx;
                    assert(chains_of(v@)[j] == chains_of(v@)[i as int]);
                }
            }
            assert forall|k: int| 0 <= k < p implies chain_lt(#[trigger] old_r[k], cx) by {
                assert(old_r.to_set().contains(old_r[k]));
                lemma_chain_order(cx, old_r[k], cx);
            }
            assert forall|k: int| p <= k < old_r.len() implies chain_lt(cx, #[trigger] old_r[k]) by {
                lemma_chain_order(cx, old_r[p as int], old_r[k]);
            }
        }
        r.insert(p, x);
        proof {
            let nr = chains_of(r@);
            assert(nr =~= old_r.insert(p as int, cx));
            assert forall|a: int, b: int| 0 <= a < b < nr.len() implies chain_lt(
                #[trigger] nr[a],
                #[trigger] nr[b],
            ) by {
                if a < p && b > p {
                    assert(nr[a] == old_r[a]);
                    assert(nr[b] == old_r[b - 1]);
                } else if a < p && b < p {
                } else if a > p {
                    assert(nr[a] == old_r[a - 1]);
                    assert(nr[b] == old_r[b - 1]);
                }
            }
            assert(chains_of(v@).take(i + 1) =~= chains_of(v@).take(i as int).push(cx));
            assert forall|c: Chain| nr.contains(c) <==> chains_of(v@).take(i + 1).contains(c) by {
                if nr.contains(c) {
                    let k = choose|k: int| 0 <= k < nr.len() && #[trigger] nr[k] == c;
                    if k < p {
                        assert(old_r[k] == c);
                        assert(old_r.to_set().contains(c));
                        let j = choose|j: int| 0 <= j < i && #[trigger] chains_of(v@).take(i as int)[j] == c;
                        assert(chains_of(v@).take(i + 1)[j] == c);
                    } else if k > p {
                        assert(old_r[k - 1] == c);
                        assert(old_r.to_set().contains(c));
                        let j = choose|j: int| 0 <= j < i && #[trigger] chains_of(v@).take(i as int)[j] == c;
                        assert(chains_of(v@).take(i + 1)[j] == c);
                    } else {
                        assert(chains_of(v@).take(i + 1)[i as int] == c);
                    }
                }
                if chains_of(v@).take(i + 1).contains(c) {
                    let j = choose|j: int| 0 <= j < i + 1 && #[trigger] chains_of(v@).take(i + 1)[j] == c;
                    if j < i {
                        assert(chains_of(v@).take(i as int)[j] == c);
                        assert(chains_of(v@).take(i as int).to_set().contains(c));
                        let k = choose|k: int| 0 <= k < old_r.len() && #[trigger] old_r[k] == c;
                        if k < p {
                            assert(nr[k] == c);
                        } else {
                            assert(nr[k + 1] == c);
                        }
                    } else {
                        assert(nr[p as int] == c);
                    }
                }
            }
            assert(nr.to_set() =~= chains_of(v@).take(i + 1).to_set());
        }
        i = i + 1;
    }
    assert(chains_of(v@).take(v.len() as int) =~= chains_of(v@));
    r
}

} // verus!
