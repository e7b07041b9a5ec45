use vstd::prelude::*;

use crate::order::{Chain, chain_of};

verus! {

/// What `str::to_lowercase` returns for a text.
pub uninterp spec fn lower_of(s: Seq<char>) -> Seq<char>;

/// Relies on `str::to_lowercase`: the lower-case form of a text depends on its characters alone.
#[verifier::external_body]
fn lowercase(s: &str) -> (r: String)
    ensures
        r@ == lower_of(s@),
{
    s.to_lowercase()
}

/// How many full shard segments of `width` characters a text of `n` characters gives,
/// at most `depth`.
pub open spec fn shard_count(n: nat, width: nat, depth: nat) -> nat {
    if width == 0 {
        0
    } else if n / width < depth {
        n / width
    } else {
        depth
    }
}

/// The shard segments of a (lower-cased) text: successive slices of `width` characters;
/// a last slice shorter than `width` is left out.
pub open spec fn shards(t: Seq<char>, width: nat, depth: nat) -> Seq<Seq<char>> {
    Seq::new(
        shard_count(t.len(), width, depth),
        |i: int| t.subrange(i * width, (i + 1) * width),
    )
}

/// The index name, the shard segments of the already lower-cased `lowered`, then `last`.
pub open spec fn sharded_path(name: Seq<char>, width: nat, depth: nat, lowered: Seq<char>, last: Seq<char>) -> Chain {
    seq![name] + shards(lowered, width, depth) + seq![last]
}

/// The chain of an index entry: the index name, the shard segments of the lower-cased
/// text, and last the label if one is given, else the text itself.
pub open spec fn result_path(
    name: Seq<char>,
    width: nat,
    depth: nat,
    text: Seq<char>,
    label: Option<Seq<char>>,
) -> Chain {
    seq![name] + shards(lower_of(text), width, depth) + seq![
        match label {
            Some(l) => l,
            None => text,
        },
    ]
}

/// The text of an optional label.
pub open spec fn label_view(l: Option<&String>) -> Option<Seq<char>> {
    match l {
        Some(s) => Some(s@),
        None => None,
    }
}

/// Builds the chain of an index entry from the lower-cased text, as `sharded_path` states.
pub fn shard_path(name: &String, width: usize, depth: usize, lowered: &String, last: String) -> (r: Vec<String>)
    ensures
        chain_of(r@) == sharded_path(name@, width as nat, depth as nat, lowered@, last@),
        r.len() >= 2,
{
    let ls = lowered.as_str();
    let n = ls.unicode_len();
    let k: usize = if width == 0 {
        0
    } else if n / width < depth {
        n / width
    } else {
        depth
    };
    let ghost sh = shards(lowered@, width as nat, depth as nat);
    assert(sh.len() == k);
    let mut r: Vec<String> = Vec::new();
    r.push(name.clone());
    let mut i: usize = 0;
    while i < k
        invariant
            i <= k,
            k == sh.len(),
            ls@ == lowered@,
            n == ls@.len(),
            width > 0 || k == 0,
            k == shard_count(n as nat, width as nat, depth as nat),
            sh == shards(lowered@, width as nat, depth as nat),
            chain_of(r@) == seq![name@] + sh.take(i as int),
        decreases k - i,
    {
        proof {
            assert((i + 1) * width <= k * width) by (nonlinear_arith)
                requires
                    i + 1 <= k,
            ;
            assert(k * width <= n) by (nonlinear_arith)
                requires
                    width > 0,
                    k <= n / width,
            ;
            assert(i * width + width == (i + 1) * width) by (nonlinear_arith);
        }
        let seg = ls.substring_char(i * width, i * width + width);
        let ghost old_r = r@;
        r.push(String::from_str(seg));
        proof {
            assert(chain_of(r@) =~= chain_of(old_r).push(seg@));
            assert(sh.take(i + 1) =~= sh.take(i as int).push(sh[i as int]));
            assert(chain_of(r@) =~= seq![name@] + sh.take(i + 1));
        }
        i = i + 1;
    }
    let ghost old_r = r@;
    let ghost lv = last@;
    r.push(last);
    proof {
        assert(sh.take(k as int) =~= sh);
        assert(chain_of(r@) =~= chain_of(old_r).push(lv));
        assert(chain_of(r@) =~= sharded_path(name@, width as nat, depth as nat, lowered@, lv));
    }
    r
}

/// Builds the chain of an index entry, as `result_path` states.
pub fn build_path(name: &String, width: usize, depth: usize, text: &String, label: Option<&String>) -> (r: Vec<String>)
    ensures
        chain_of(r@) == result_path(name@, width as nat, depth as nat, text@, label_view(label)),
        r.len() >= 2,
{
    let lower = lowercase(text.as_str());
    let last = match label {
        Some(l) => l.clone(),
        None => text.clone(),
    };
    shard_path(name, width, depth, &lower, last)
}

/// The index of the first `m` in `t`, or the length of `t` where there is none.
pub open spec fn index_of(t: Seq<char>, m: char) -> nat
    decreases t.len(),
{
    if t.len() == 0 {
        0
    } else if t[0] == m {
        0
    } else {
        1 + index_of(t.drop_first(), m)
    }
}

/// The text between the first marker `m` and the next one (or the end). A text without
/// a marker stays as it is.
pub open spec fn after_marker(t: Seq<char>, m: char) -> Seq<char> {
    let i = index_of(t, m);
    if i >= t.len() {
        t
    } else {
        let rest = t.skip(i + 1 as int);
        rest.take(index_of(rest, m) as int)
    }
}

proof fn lemma_index_of(t: Seq<char>, m: char, i: int)
    requires
        0 <= i <= t.len(),
        forall|k: int| 0 <= k < i ==> t[k] != m,
    ensures
        index_of(t, m) <= t.len(),
        i < t.len() && t[i] == m ==> index_of(t, m) == i,
        i == t.len() ==> index_of(t, m) == t.len(),
    decreases t.len(),
{
    if t.len() > 0 && i > 0 {
        lemma_index_of(t.drop_first(), m, i - 1);
    } else if t.len() > 0 {
        lemma_index_of(t.drop_first(), m, 0);
    }
}

/// Finds the first `m` in `t` at or after `from`, or the length of `t`.
fn find_char(t: &str, m: char, from: usize) -> (r: usize)
    requires
        from <= t@.len(),
        forall|k: int| 0 <= k < from ==> t@[k] != m,
    ensures
        r == index_of(t@, m),
{
    let n = t.unicode_len();
    let mut i = from;
    while i < n
        invariant
            from <= i <= n,
            n == t@.len(),
            forall|k: int| 0 <= k < i ==> t@[k] != m,
        decreases n - i,
    {
        if t.get_char(i) == m {
            proof {
                lemma_index_of(t@, m, i as int);
            }
            return i;
        }
        i = i + 1;
    }
    proof {
        lemma_index_of(t@, m, i as int);
    }
    i
}

/// The text between the first marker `m` and the next one, as `after_marker` states.
pub fn text_after_marker(text: &String, m: char) -> (r: String)
    ensures
        r@ == after_marker(text@, m),
{
    let t = text.as_str();
    let n = t.unicode_len();
    proof {
        lemma_index_of(t@, m, 0);
    }
    let i = find_char(t, m, 0);
    if i >= n {
        return text.clone();
    }
    let rest = t.substring_char(i + 1, n);
    proof {
        assert(rest@ =~= t@.skip(i + 1));
        lemma_index_of(rest@, m, 0);
    }
    let j = find_char(rest, m, 0);
    String::from_str(rest.substring_char(0, j))
}

/// The searchable text of a hashtag: what follows the `#`.
pub fn make_hashtag_index_text(text: String) -> (r: String)
    ensures
        r@ == after_marker(text@, '#'),
{
    text_after_marker(&text, '#')
}

/// The searchable text of a cashtag: what follows the `$`.
pub fn make_cashtag_index_text(text: String) -> (r: String)
    ensures
        r@ == after_marker(text@, '$'),
{
    text_after_marker(&text, '$')
}

} // verus!
