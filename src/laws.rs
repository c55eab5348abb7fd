//! What building and searching guarantee together.
use vstd::prelude::*;
use crate::builder::{
    fault_at, input_error, key_lt, lemma_first_fault_none, lemma_key_lt_total, stored_from,
    stored_value,
};
use crate::trie::{lookup, matches_from, Trie};
use crate::Match;

verus! {

proof fn lemma_key_lt_irreflexive(a: Seq<char>)
    ensures
        !key_lt(a, a),
    decreases a.len(),
{
    if a.len() > 0 {
        lemma_key_lt_irreflexive(a.drop_first());
    }
}

proof fn lemma_key_lt_transitive(a: Seq<char>, b: Seq<char>, c: Seq<char>)
    requires
        key_lt(a, b),
        key_lt(b, c),
    ensures
        key_lt(a, c),
    decreases a.len(),
{
    if a.len() > 0 && b.len() > 0 && c.len() > 0 && a[0] == b[0] && b[0] == c[0] {
        lemma_key_lt_transitive(a.drop_first(), b.drop_first(), c.drop_first());
    }
}

/// Sound records are sorted strictly: an earlier key is less than a later one.
proof fn lemma_sorted(keys: Seq<Seq<char>>, vals: Seq<u32>, i: int, k: int)
    requires
        input_error(keys, vals) is None,
        0 <= i < k < keys.len(),
    ensures
        key_lt(keys[i], keys[k]),
    decreases k - i,
{
    lemma_first_fault_none(keys, vals, keys.len() as int);
    assert(fault_at(keys, vals, k) is None);
    lemma_key_lt_total(keys[k - 1], keys[k]);
    if i < k - 1 {
        lemma_sorted(keys, vals, i, k - 1);
        lemma_key_lt_transitive(keys[i], keys[k - 1], keys[k]);
    }
}

proof fn lemma_stored_from_first(keys: Seq<Seq<char>>, vals: Seq<u32>, lo: int, k: int, s: Seq<char>)
    requires
        0 <= lo <= k < keys.len(),
        keys[k] == s,
        forall|i: int| lo <= i < k ==> keys[i] != s,
    ensures
        stored_from(keys, vals, lo, s) == Some(vals[k]),
    decreases k - lo,
{
    if lo < k {
        lemma_stored_from_first(keys, vals, lo + 1, k, s);
    }
}

proof fn lemma_stored_from_none(keys: Seq<Seq<char>>, vals: Seq<u32>, lo: int, s: Seq<char>)
    requires
        0 <= lo,
        forall|i: int| lo <= i < keys.len() ==> keys[i] != s,
    ensures
        stored_from(keys, vals, lo, s) is None,
    decreases keys.len() - lo,
{
    if lo < keys.len() {
        lemma_stored_from_none(keys, vals, lo + 1, s);
    }
}

/// Round trip: in a trie that answers as the sound records `keys`/`vals`
/// (as [`Trie::from_keys`] and [`Trie::from_records`] ensure), each key
/// finds its own value, and a text that is no key finds nothing.
pub proof fn lemma_round_trip(trie: Trie, keys: Seq<Seq<char>>, vals: Seq<u32>, s: Seq<char>)
    requires
        input_error(keys, vals) is None,
        forall|t: Seq<char>| #[trigger] trie.lookup_key(t) == stored_value(keys, vals, t),
    ensures
        forall|k: int| 0 <= k < keys.len() && keys[k] == s ==> trie.lookup_key(s) == Some(vals[k]),
        (forall|k: int| 0 <= k < keys.len() ==> keys[k] != s) ==> trie.lookup_key(s) is None,
{
    assert(trie.lookup_key(s) == stored_value(keys, vals, s));
    assert forall|k: int| 0 <= k < keys.len() && keys[k] == s implies trie.lookup_key(s) == Some(
        vals[k],
    ) by {
        assert forall|i: int| 0 <= i < k implies keys[i] != s by {
            lemma_sorted(keys, vals, i, k);
            lemma_key_lt_irreflexive(keys[k]);
        }
        lemma_stored_from_first(keys, vals, 0, k, s);
    }
    if forall|k: int| 0 <= k < keys.len() ==> keys[k] != s {
        lemma_stored_from_none(keys, vals, 0, s);
    }
}

/// A match is among those from `e` on exactly when it ends at `e` or later
/// and the prefix that it ends is a key with its value.
pub proof fn lemma_matches_from_contains(
    nodes: Seq<crate::Node>,
    text: Seq<Option<u32>>,
    e: int,
    m: Match,
)
    requires
        0 < e,
        text.len() <= usize::MAX,
    ensures
        matches_from(nodes, text, e).contains(m) <==> (e <= m.end_spec() <= text.len() && lookup(
            nodes,
            text.take(m.end_spec() as int),
        ) == Some(m.value_spec())),
    decreases text.len() + 1 - e,
{
    if e <= text.len() {
        lemma_matches_from_contains(nodes, text, e + 1, m);
        let rest = matches_from(nodes, text, e + 1);
        match lookup(nodes, text.take(e)) {
            Some(v) => {
                let here = Match { value: v, end: e as usize };
                assert(matches_from(nodes, text, e) == seq![here] + rest);
                if m == here {
                    assert((seq![here] + rest)[0] == m);
                } else if rest.contains(m) {
                    let i = choose|i: int| 0 <= i < rest.len() && rest[i] == m;
                    assert((seq![here] + rest)[i + 1] == m);
                }
                if (seq![here] + rest).contains(m) {
                    let i = choose|i: int| 0 <= i < (seq![here] + rest).len() && (seq![here]
                        + rest)[i] == m;
                    if i > 0 {
                        assert(rest[i - 1] == m);
                    }
                }
            },
            None => {},
        }
    }
}

proof fn lemma_mapped_window(trie: Trie, text: Seq<char>, i: int, e: int)
    requires
        0 <= i,
        0 <= e,
        i + e <= text.len(),
    ensures
        trie.mapped_spec(text).skip(i).take(e) == trie.mapped_spec(text.subrange(i, i + e)),
{
    assert(trie.mapped_spec(text).skip(i).take(e) =~= trie.mapped_spec(text.subrange(i, i + e)));
}

/// Prefix search: in a trie that answers as the records `keys`/`vals`, the
/// search over the codes of `text` from offset `i` gives the match `m`
/// exactly when a key occurs in `text` at `i`, ends at `i + m.end()`, and has
/// the value `m.value()`.
pub proof fn lemma_prefix_search(
    trie: Trie,
    keys: Seq<Seq<char>>,
    vals: Seq<u32>,
    text: Seq<char>,
    i: int,
    m: Match,
)
    requires
        forall|t: Seq<char>| #[trigger] trie.lookup_key(t) == stored_value(keys, vals, t),
        0 <= i <= text.len(),
        text.len() <= usize::MAX,
    ensures
        matches_from(trie.nodes_spec(), trie.mapped_spec(text).skip(i), 1).contains(m) <==> (1
            <= m.end_spec() <= text.len() - i && stored_value(
            keys,
            vals,
            text.subrange(i, i + m.end_spec()),
        ) == Some(m.value_spec())),
{
    let t = trie.mapped_spec(text).skip(i);
    lemma_matches_from_contains(trie.nodes_spec(), t, 1, m);
    if 1 <= m.end_spec() <= text.len() - i {
        lemma_mapped_window(trie, text, i, m.end_spec() as int);
        assert(trie.lookup_key(text.subrange(i, i + m.end_spec())) == lookup(
            trie.nodes_spec(),
            t.take(m.end_spec() as int),
        ));
    }
}

proof fn lemma_matches_agree(t1: Trie, t2: Trie, text: Seq<char>, e: int)
    requires
        0 < e,
        forall|s: Seq<char>| #[trigger] t1.lookup_key(s) == t2.lookup_key(s),
    ensures
        matches_from(t1.nodes_spec(), t1.mapped_spec(text), e) == matches_from(
            t2.nodes_spec(),
            t2.mapped_spec(text),
            e,
        ),
    decreases text.len() + 1 - e,
{
    if e <= text.len() {
        lemma_matches_agree(t1, t2, text, e + 1);
        lemma_mapped_window(t1, text, 0, e);
        lemma_mapped_window(t2, text, 0, e);
        assert(t1.mapped_spec(text).skip(0) =~= t1.mapped_spec(text));
        assert(t2.mapped_spec(text).skip(0) =~= t2.mapped_spec(text));
        assert(t1.lookup_key(text.subrange(0, e)) == t2.lookup_key(text.subrange(0, e)));
    }
}

/// Idempotence: two tries that both answer as the same records answer
/// every exact match and every prefix search alike.
pub proof fn lemma_same_records_same_answers(
    t1: Trie,
    t2: Trie,
    keys: Seq<Seq<char>>,
    vals: Seq<u32>,
    s: Seq<char>,
    text: Seq<char>,
)
    requires
        forall|t: Seq<char>| #[trigger] t1.lookup_key(t) == stored_value(keys, vals, t),
        forall|t: Seq<char>| #[trigger] t2.lookup_key(t) == stored_value(keys, vals, t),
    ensures
        t1.lookup_key(s) == t2.lookup_key(s),
        matches_from(t1.nodes_spec(), t1.mapped_spec(text), 1) == matches_from(
            t2.nodes_spec(),
            t2.mapped_spec(text),
            1,
        ),
{
    assert forall|u: Seq<char>| #[trigger] t1.lookup_key(u) == t2.lookup_key(u) by {
        assert(t1.lookup_key(u) == stored_value(keys, vals, u));
        assert(t2.lookup_key(u) == stored_value(keys, vals, u));
    }
    lemma_matches_agree(t1, t2, text, 1);
}

} // verus!
