//! What a node table built from sorted keys means: each node answers for the
//! keys below it, and placing nodes elsewhere leaves a finished subtree alone.
use vstd::prelude::*;
use crate::trie::{child_of, value_of, walk_from};
use crate::{Node, END_CODE};

verus! {

/// `s` as a sequence of present codes.
pub open spec fn opt_codes(s: Seq<u32>) -> Seq<Option<u32>> {
    s.map_values(|c: u32| Some(c))
}

/// `t` holds no end code.
pub open spec fn no_end_code(t: Seq<Option<u32>>) -> bool {
    forall|i: int| 0 <= i < t.len() ==> t[i] != Some(END_CODE)
}

/// Lexicographic order of code sequences.
pub open spec fn code_lt(a: Seq<u32>, b: Seq<u32>) -> bool
    decreases a.len(),
{
    if a.len() == 0 {
        b.len() > 0
    } else if b.len() == 0 {
        false
    } else if a[0] != b[0] {
        a[0] < b[0]
    } else {
        code_lt(a.drop_first(), b.drop_first())
    }
}

/// The edge label of `s` at depth `d`: its code there, or the end code where
/// `s` ends.
pub open spec fn label_at(s: Seq<u32>, d: int) -> u32 {
    if s.len() <= d {
        END_CODE
    } else {
        s[d]
    }
}

/// The value of the first key of `lo..hi` whose codes after the first `d`
/// are exactly `t`.
pub open spec fn range_value(
    cs: Seq<Seq<u32>>,
    vals: Seq<u32>,
    lo: int,
    hi: int,
    d: int,
    t: Seq<Option<u32>>,
) -> Option<u32>
    decreases hi - lo,
{
    if lo >= hi {
        None
    } else if opt_codes(cs[lo].skip(d)) == t {
        Some(vals[lo])
    } else {
        range_value(cs, vals, lo + 1, hi, d, t)
    }
}

/// The value found by walking `t` from `p`.
pub open spec fn lookup_from(nodes: Seq<Node>, p: u32, t: Seq<Option<u32>>) -> Option<u32> {
    match walk_from(nodes, p, t) {
        Some(q) => value_of(nodes, q),
        None => None,
    }
}

/// Node `p` answers, for every text without end codes, as the keys `lo..hi`
/// do after their first `d` codes.
pub open spec fn subtree_ok(
    nodes: Seq<Node>,
    p: u32,
    cs: Seq<Seq<u32>>,
    vals: Seq<u32>,
    lo: int,
    hi: int,
    d: int,
) -> bool {
    forall|t: Seq<Option<u32>>|
        no_end_code(t) ==> #[trigger] lookup_from(nodes, p, t) == range_value(cs, vals, lo, hi, d, t)
}

/// The slots of `s` lie in the table, and the children and synthetic leaves
/// of its nodes are in `s` too.
pub open spec fn closed(nodes: Seq<Node>, s: Set<u32>) -> bool {
    forall|y: u32|
        #[trigger] s.contains(y) ==> {
            &&& (y as int) < nodes.len()
            &&& forall|c: u32|
                #[trigger] child_of(nodes, y, c) is Some ==> s.contains(child_of(nodes, y, c)->0)
            &&& (!nodes[y as int].leaf_spec() && nodes[y as int].has_leaf_spec()) ==> s.contains(
                nodes[y as int].base_spec() ^ END_CODE,
            )
        }
}

/// From `n1` to `n2`, the slots of `s` are unchanged, and so is the set of
/// slots whose `check` names a slot of `s`.
pub open spec fn frame(n1: Seq<Node>, n2: Seq<Node>, s: Set<u32>) -> bool {
    &&& n2.len() >= n1.len()
    &&& forall|y: u32| #[trigger] s.contains(y) ==> n2[y as int] == n1[y as int]
    &&& forall|x: int, y: u32|
        #![trigger s.contains(y), n1[x]]
        #![trigger s.contains(y), n2[x]]
        s.contains(y) ==> ((0 <= x < n1.len() && n1[x].check_spec() == y) == (0 <= x < n2.len()
            && n2[x].check_spec() == y))
}

pub proof fn lemma_frame_child(n1: Seq<Node>, n2: Seq<Node>, s: Set<u32>, y: u32, c: u32)
    requires
        closed(n1, s),
        frame(n1, n2, s),
        s.contains(y),
    ensures
        child_of(n2, y, c) == child_of(n1, y, c),
{
    let x = n1[y as int].base_spec() ^ c;
    assert(n2[y as int] == n1[y as int]);
    if 0 <= x < n1.len() {
        assert(n1[x as int] == n1[x as int]);
    }
    if 0 <= x < n2.len() {
        assert(n2[x as int] == n2[x as int]);
    }
}

pub proof fn lemma_frame_walk(n1: Seq<Node>, n2: Seq<Node>, s: Set<u32>, y: u32, t: Seq<Option<u32>>)
    requires
        closed(n1, s),
        frame(n1, n2, s),
        s.contains(y),
    ensures
        walk_from(n2, y, t) == walk_from(n1, y, t),
        walk_from(n1, y, t) is Some ==> s.contains(walk_from(n1, y, t)->0),
    decreases t.len(),
{
    if t.len() > 0 {
        match t[0] {
            Some(c) => {
                lemma_frame_child(n1, n2, s, y, c);
                match child_of(n1, y, c) {
                    Some(x) => {
                        lemma_frame_walk(n1, n2, s, x, t.drop_first());
                    },
                    None => {},
                }
            },
            None => {},
        }
    }
}

pub proof fn lemma_frame_value(n1: Seq<Node>, n2: Seq<Node>, s: Set<u32>, z: u32)
    requires
        closed(n1, s),
        frame(n1, n2, s),
        s.contains(z),
    ensures
        value_of(n2, z) == value_of(n1, z),
{
    assert(n2[z as int] == n1[z as int]);
    if !n1[z as int].leaf_spec() && n1[z as int].has_leaf_spec() {
        let l = n1[z as int].base_spec() ^ END_CODE;
        assert(s.contains(l));
        assert(n2[l as int] == n1[l as int]);
    }
}

/// A finished subtree stays finished across a change that keeps its frame.
pub proof fn lemma_frame_subtree(
    n1: Seq<Node>,
    n2: Seq<Node>,
    s: Set<u32>,
    p: u32,
    cs: Seq<Seq<u32>>,
    vals: Seq<u32>,
    lo: int,
    hi: int,
    d: int,
)
    requires
        subtree_ok(n1, p, cs, vals, lo, hi, d),
        closed(n1, s),
        frame(n1, n2, s),
        s.contains(p),
    ensures
        subtree_ok(n2, p, cs, vals, lo, hi, d),
        closed(n2, s),
{
    assert forall|t: Seq<Option<u32>>| no_end_code(t) implies #[trigger] lookup_from(n2, p, t)
        == range_value(cs, vals, lo, hi, d, t) by {
        lemma_frame_walk(n1, n2, s, p, t);
        if walk_from(n1, p, t) is Some {
            lemma_frame_value(n1, n2, s, walk_from(n1, p, t)->0);
        }
        assert(lookup_from(n1, p, t) == range_value(cs, vals, lo, hi, d, t));
    }
    assert forall|y: u32| #[trigger] s.contains(y) implies {
        &&& (y as int) < n2.len()
        &&& forall|c: u32|
            #[trigger] child_of(n2, y, c) is Some ==> s.contains(child_of(n2, y, c)->0)
        &&& (!n2[y as int].leaf_spec() && n2[y as int].has_leaf_spec()) ==> s.contains(
            n2[y as int].base_spec() ^ END_CODE,
        )
    } by {
        assert forall|c: u32| #[trigger] child_of(n2, y, c) is Some implies s.contains(
            child_of(n2, y, c)->0,
        ) by {
            lemma_frame_child(n1, n2, s, y, c);
        }
    }
}

/// No key of `lo..hi` matches `t`.
pub proof fn lemma_range_none(
    cs: Seq<Seq<u32>>,
    vals: Seq<u32>,
    lo: int,
    hi: int,
    d: int,
    t: Seq<Option<u32>>,
)
    requires
        forall|k: int| lo <= k < hi ==> opt_codes(#[trigger] cs[k].skip(d)) != t,
    ensures
        range_value(cs, vals, lo, hi, d, t) is None,
    decreases hi - lo,
{
    if lo < hi {
        lemma_range_none(cs, vals, lo + 1, hi, d, t);
    }
}

/// The first match in `a..c` is the first in `a..b`, else the first in `b..c`.
pub proof fn lemma_range_split(
    cs: Seq<Seq<u32>>,
    vals: Seq<u32>,
    a: int,
    b: int,
    c: int,
    d: int,
    t: Seq<Option<u32>>,
)
    requires
        a <= b <= c,
    ensures
        range_value(cs, vals, a, c, d, t) == match range_value(cs, vals, a, b, d, t) {
            Some(v) => Some(v),
            None => range_value(cs, vals, b, c, d, t),
        },
    decreases b - a,
{
    if a < b {
        lemma_range_split(cs, vals, a + 1, b, c, d, t);
    }
}

proof fn lemma_opt_codes_step(s: Seq<u32>, d: int, c: u32, t: Seq<Option<u32>>)
    requires
        0 <= d < s.len(),
        s[d] == c,
    ensures
        (opt_codes(s.skip(d)) == seq![Some(c)] + t) == (opt_codes(s.skip(d + 1)) == t),
{
    let a = opt_codes(s.skip(d));
    let b = opt_codes(s.skip(d + 1));
    assert(a =~= seq![Some(c)] + b);
    if a == seq![Some(c)] + t {
        assert(b =~= (seq![Some(c)] + t).drop_first());
        assert((seq![Some(c)] + t).drop_first() =~= t);
    }
}

/// Where every key of `a..b` has the code `c` at depth `d`, matching
/// `c` followed by `t` at depth `d` is matching `t` at depth `d + 1`.
pub proof fn lemma_range_shift(
    cs: Seq<Seq<u32>>,
    vals: Seq<u32>,
    a: int,
    b: int,
    d: int,
    c: u32,
    t: Seq<Option<u32>>,
)
    requires
        0 <= d,
        forall|k: int| a <= k < b ==> d < #[trigger] cs[k].len() && cs[k][d] == c,
    ensures
        range_value(cs, vals, a, b, d, seq![Some(c)] + t) == range_value(cs, vals, a, b, d + 1, t),
    decreases b - a,
{
    if a < b {
        lemma_opt_codes_step(cs[a], d, c, t);
        lemma_range_shift(cs, vals, a + 1, b, d, c, t);
    }
}

/// Comparing after a common prefix of length `d`.
pub proof fn lemma_code_lt_skip(a: Seq<u32>, b: Seq<u32>, d: int)
    requires
        0 <= d <= a.len(),
        d <= b.len(),
        a.take(d) == b.take(d),
    ensures
        code_lt(a, b) == code_lt(a.skip(d), b.skip(d)),
    decreases d,
{
    if d == 0 {
        assert(a.skip(0) =~= a);
        assert(b.skip(0) =~= b);
    } else {
        assert(a[0] == a.take(d)[0]);
        assert(b[0] == b.take(d)[0]);
        assert(a.drop_first().take(d - 1) =~= a.take(d).drop_first());
        assert(b.drop_first().take(d - 1) =~= b.take(d).drop_first());
        lemma_code_lt_skip(a.drop_first(), b.drop_first(), d - 1);
        assert(a.drop_first().skip(d - 1) =~= a.skip(d));
        assert(b.drop_first().skip(d - 1) =~= b.skip(d));
    }
}

/// Of two adjacent sorted keys with a common prefix of length `d`, the
/// labels at `d` are ordered, the second is not the end code, and equal
/// labels extend the common prefix.
pub proof fn lemma_label_step(a: Seq<u32>, b: Seq<u32>, d: int)
    requires
        0 <= d <= a.len(),
        d <= b.len(),
        a.take(d) == b.take(d),
        code_lt(a, b),
        forall|i: int| 0 <= i < b.len() ==> 1 <= #[trigger] b[i],
    ensures
        label_at(a, d) <= label_at(b, d),
        label_at(b, d) != END_CODE,
        d < b.len(),
        label_at(a, d) == label_at(b, d) ==> d < a.len() && a.take(d + 1) == b.take(d + 1),
{
    lemma_code_lt_skip(a, b, d);
    let sa = a.skip(d);
    let sb = b.skip(d);
    if sb.len() == 0 {
        assert(!code_lt(sa, sb));
    }
    assert(sb[0] == b[d]);
    if sa.len() > 0 {
        assert(sa[0] == a[d]);
        if a[d] == b[d] {
            assert(a.take(d + 1) =~= a.take(d).push(a[d]));
            assert(b.take(d + 1) =~= b.take(d).push(b[d]));
        }
    }
}

pub proof fn lemma_xor_cancel(b: u32, x: u32, y: u32)
    ensures
        (b ^ x == b ^ y) == (x == y),
{
    assert((b ^ x == b ^ y) == (x == y)) by (bit_vector);
}

/// `t` differs from the codes of `s` after depth `d`, where `s` has the
/// label `l` at `d` and `t` begins with `c`, another label.
proof fn lemma_label_mismatch(s: Seq<u32>, d: int, l: u32, t: Seq<Option<u32>>)
    requires
        0 <= d <= s.len(),
        label_at(s, d) == l,
        t.len() > 0,
        t[0] != Some(l),
        forall|i: int| 0 <= i < s.len() ==> 1 <= #[trigger] s[i],
    ensures
        opt_codes(s.skip(d)) != t,
{
    if s.len() > d {
        assert(opt_codes(s.skip(d))[0] == Some(s[d]));
    } else {
        assert(opt_codes(s.skip(d)).len() == 0);
    }
}

/// A leaf node answers for the one key that ends at it.
pub proof fn lemma_leaf_subtree(
    n: Seq<Node>,
    q: u32,
    cs: Seq<Seq<u32>>,
    vals: Seq<u32>,
    lo: int,
    d: int,
)
    requires
        0 <= lo < cs.len(),
        lo < vals.len(),
        0 <= d,
        cs[lo].len() == d,
        (q as int) < n.len(),
        n[q as int].leaf_spec(),
        n[q as int].base_spec() == vals[lo],
    ensures
        subtree_ok(n, q, cs, vals, lo, lo + 1, d),
{
    assert forall|t: Seq<Option<u32>>| no_end_code(t) implies #[trigger] lookup_from(n, q, t)
        == range_value(cs, vals, lo, lo + 1, d, t) by {
        if t.len() == 0 {
            assert(opt_codes(cs[lo].skip(d)) =~= t);
        } else {
            assert(opt_codes(cs[lo].skip(d)).len() == 0);
            assert(range_value(cs, vals, lo + 1, lo + 1, d, t) is None);
            match t[0] {
                Some(c) => {
                    assert(child_of(n, q, c) is None);
                },
                None => {},
            }
        }
    }
}

/// What an inner node `p` with base `base` and the given children needs for
/// it to answer for the keys `lo..hi` at depth `d`.
#[verifier::opaque]
pub open spec fn node_ready(
    n: Seq<Node>,
    p: u32,
    base: u32,
    labels: Seq<u32>,
    starts: Seq<int>,
    group: Seq<int>,
    cs: Seq<Seq<u32>>,
    vals: Seq<u32>,
    lo: int,
    hi: int,
    d: int,
) -> bool {
    &&& 0 <= lo < hi <= cs.len()
    &&& vals.len() == cs.len()
    &&& 0 <= d
    &&& labels.len() >= 1
    &&& starts.len() == labels.len() + 1
    &&& group.len() == hi - lo
    &&& starts[0] == lo
    &&& starts[labels.len() as int] == hi
    &&& forall|j1: int, j2: int| 0 <= j1 < j2 < labels.len() ==> labels[j1] < labels[j2]
    &&& forall|j1: int, j2: int| 0 <= j1 < j2 < starts.len() ==> starts[j1] < starts[j2]
    &&& forall|j: int, k: int|
                #![trigger cs[k], starts[j]]
                0 <= j < labels.len() && starts[j] <= k < starts[j + 1] ==> label_at(cs[k], d)
                    == labels[j]
    &&& forall|k: int|
                lo <= k < hi ==> 0 <= #[trigger] group[k - lo] < labels.len() && starts[group[k - lo]]
                    <= k < starts[group[k - lo] + 1]
    &&& forall|k: int| lo <= k < hi ==> d <= #[trigger] cs[k].len()
    &&& forall|k: int, i: int| 0 <= k < cs.len() && 0 <= i < cs[k].len() ==> 1 <= #[trigger] cs[k][i]
    &&& (p as int) < n.len()
    &&& !n[p as int].leaf_spec()
    &&& n[p as int].base_spec() == base
    &&& forall|j: int|
                0 <= j < labels.len() ==> ((base ^ #[trigger] labels[j]) as int) < n.len() && n[(base
                    ^ labels[j]) as int].check_spec() == p
    &&& forall|x: int|
                0 <= x < n.len() && #[trigger] n[x].check_spec() == p ==> exists|j: int|
                    0 <= j < labels.len() && x == (base ^ #[trigger] labels[j]) as int
    &&& labels[0] == END_CODE ==> n[p as int].has_leaf_spec() && n[(base ^ END_CODE) as int].base_spec()
        == vals[lo]
    &&& labels[0] != END_CODE ==> !n[p as int].has_leaf_spec()
    &&& forall|j: int|
                0 <= j < labels.len() && #[trigger] labels[j] != END_CODE ==> subtree_ok(
                    n,
                    base ^ labels[j],
                    cs,
                    vals,
                    starts[j],
                    starts[j + 1],
                    d + 1,
                )
}

/// The empty text: the node's own value.
proof fn lemma_node_empty(
    n: Seq<Node>,
    p: u32,
    base: u32,
    labels: Seq<u32>,
    starts: Seq<int>,
    group: Seq<int>,
    cs: Seq<Seq<u32>>,
    vals: Seq<u32>,
    lo: int,
    hi: int,
    d: int,
    t: Seq<Option<u32>>,
)
    requires
        node_ready(n, p, base, labels, starts, group, cs, vals, lo, hi, d),
        no_end_code(t),
        t.len() == 0,
    ensures
        lookup_from(n, p, t) == range_value(cs, vals, lo, hi, d, t),
{
    reveal(node_ready);
    if labels[0] == END_CODE {
        assert(label_at(cs[lo], d) == labels[0]);
        assert(opt_codes(cs[lo].skip(d)) =~= t);
    } else {
        assert forall|k: int| lo <= k < hi implies opt_codes(#[trigger] cs[k].skip(d))
            != t by {
            let g = group[k - lo];
            assert(label_at(cs[k], d) == labels[g]);
            if g > 0 {
                assert(labels[0] < labels[g]);
            }
            assert(opt_codes(cs[k].skip(d))[0] == Some(cs[k][d]));
        }
        lemma_range_none(cs, vals, lo, hi, d, t);
    }
}

/// A text that begins without a code.
proof fn lemma_node_absent(
    n: Seq<Node>,
    p: u32,
    base: u32,
    labels: Seq<u32>,
    starts: Seq<int>,
    group: Seq<int>,
    cs: Seq<Seq<u32>>,
    vals: Seq<u32>,
    lo: int,
    hi: int,
    d: int,
    t: Seq<Option<u32>>,
)
    requires
        node_ready(n, p, base, labels, starts, group, cs, vals, lo, hi, d),
        no_end_code(t),
        t.len() > 0,
        t[0] is None,
    ensures
        lookup_from(n, p, t) == range_value(cs, vals, lo, hi, d, t),
{
    reveal(node_ready);
    assert forall|k: int| lo <= k < hi implies opt_codes(#[trigger] cs[k].skip(d))
        != t by {
        if cs[k].len() > d {
            assert(opt_codes(cs[k].skip(d))[0] == Some(cs[k][d]));
        } else {
            assert(opt_codes(cs[k].skip(d)).len() == 0);
        }
    }
    lemma_range_none(cs, vals, lo, hi, d, t);
}

/// A text that begins with the label of child `j`: the walk goes on in the child.
proof fn lemma_node_child_walk(
    n: Seq<Node>,
    p: u32,
    base: u32,
    labels: Seq<u32>,
    starts: Seq<int>,
    group: Seq<int>,
    cs: Seq<Seq<u32>>,
    vals: Seq<u32>,
    lo: int,
    hi: int,
    d: int,
    t: Seq<Option<u32>>,
    j: int,
)
    requires
        node_ready(n, p, base, labels, starts, group, cs, vals, lo, hi, d),
        no_end_code(t),
        t.len() > 0,
        t[0] is Some,
        0 <= j < labels.len(),
        labels[j] == t[0]->0,
    ensures
        lookup_from(n, p, t) == range_value(cs, vals, starts[j], starts[j + 1], d + 1, t.drop_first()),
{
    reveal(node_ready);
    let c = t[0]->0;
    let x = base ^ c;
    let t2 = t.drop_first();
    assert(child_of(n, p, c) == Some(x));
    assert(walk_from(n, p, t) == walk_from(n, x, t2));
    assert(no_end_code(t2)) by {
        assert forall|i: int| 0 <= i < t2.len() implies t2[i] != Some(END_CODE) by {
            assert(t2[i] == t[i + 1]);
        }
    }
    assert(subtree_ok(n, x, cs, vals, starts[j], starts[j + 1], d + 1));
    assert(lookup_from(n, x, t2) == range_value(cs, vals, starts[j], starts[j + 1], d + 1, t2));
}

/// A text that begins with the label of child `j`: only the keys of that
/// child can match.
proof fn lemma_node_child_range(
    n: Seq<Node>,
    p: u32,
    base: u32,
    labels: Seq<u32>,
    starts: Seq<int>,
    group: Seq<int>,
    cs: Seq<Seq<u32>>,
    vals: Seq<u32>,
    lo: int,
    hi: int,
    d: int,
    t: Seq<Option<u32>>,
    j: int,
)
    requires
        node_ready(n, p, base, labels, starts, group, cs, vals, lo, hi, d),
        no_end_code(t),
        t.len() > 0,
        t[0] is Some,
        0 <= j < labels.len(),
        labels[j] == t[0]->0,
    ensures
        range_value(cs, vals, lo, hi, d, t) == range_value(
            cs,
            vals,
            starts[j],
            starts[j + 1],
            d + 1,
            t.drop_first(),
        ),
{
    reveal(node_ready);
    let c = t[0]->0;
    let t2 = t.drop_first();
    assert(t =~= seq![Some(c)] + t2);
    assert forall|k: int| lo <= k < starts[j] implies opt_codes(#[trigger] cs[k].skip(d)) != t by {
        let g = group[k - lo];
        if g >= j {
            if g > j {
                assert(starts[j] < starts[g]);
            }
            assert(false);
        }
        assert(labels[g] < labels[j]);
        lemma_label_mismatch(cs[k], d, labels[g], t);
    }
    assert forall|k: int| starts[j + 1] <= k < hi implies opt_codes(#[trigger] cs[k].skip(d))
        != t by {
        let g = group[k - lo];
        if g <= j {
            if g < j {
                assert(starts[g + 1] < starts[j + 1]);
            }
            assert(false);
        }
        assert(labels[j] < labels[g]);
        lemma_label_mismatch(cs[k], d, labels[g], t);
    }
    lemma_range_none(cs, vals, lo, starts[j], d, t);
    lemma_range_none(cs, vals, starts[j + 1], hi, d, t);
    if j + 1 < starts.len() - 1 {
        assert(starts[j + 1] < starts[labels.len() as int]);
    }
    lemma_range_split(cs, vals, lo, starts[j], hi, d, t);
    lemma_range_split(cs, vals, starts[j], starts[j + 1], hi, d, t);
    assert forall|k: int| starts[j] <= k < starts[j + 1] implies d < #[trigger] cs[k].len()
        && cs[k][d] == c by {
        assert(label_at(cs[k], d) == labels[j]);
    }
    lemma_range_shift(cs, vals, starts[j], starts[j + 1], d, c, t2);
}

/// A text that begins with a code that labels no child.
proof fn lemma_node_no_child(
    n: Seq<Node>,
    p: u32,
    base: u32,
    labels: Seq<u32>,
    starts: Seq<int>,
    group: Seq<int>,
    cs: Seq<Seq<u32>>,
    vals: Seq<u32>,
    lo: int,
    hi: int,
    d: int,
    t: Seq<Option<u32>>,
)
    requires
        node_ready(n, p, base, labels, starts, group, cs, vals, lo, hi, d),
        no_end_code(t),
        t.len() > 0,
        t[0] is Some,
        !exists|j: int| 0 <= j < labels.len() && labels[j] == t[0]->0,
    ensures
        lookup_from(n, p, t) == range_value(cs, vals, lo, hi, d, t),
{
    reveal(node_ready);
    let c = t[0]->0;
    assert(c != END_CODE);
    let x = base ^ c;
    if (x as int) < n.len() && n[x as int].check_spec() == p {
        let j = choose|j: int|
            0 <= j < labels.len() && x as int == (base ^ #[trigger] labels[j]) as int;
        lemma_xor_cancel(base, c, labels[j]);
        assert(false);
    }
    assert(child_of(n, p, c) is None);
    assert forall|k: int| lo <= k < hi implies opt_codes(
        #[trigger] cs[k].skip(d),
    ) != t by {
        let g = group[k - lo];
        lemma_label_mismatch(cs[k], d, labels[g], t);
    }
    lemma_range_none(cs, vals, lo, hi, d, t);
}

/// An inner node answers for its keys once each child answers for its group.
pub proof fn lemma_node_subtree(
    n: Seq<Node>,
    p: u32,
    base: u32,
    labels: Seq<u32>,
    starts: Seq<int>,
    group: Seq<int>,
    cs: Seq<Seq<u32>>,
    vals: Seq<u32>,
    lo: int,
    hi: int,
    d: int,
)
    requires
        node_ready(n, p, base, labels, starts, group, cs, vals, lo, hi, d),
    ensures
        subtree_ok(n, p, cs, vals, lo, hi, d),
{
    assert forall|t: Seq<Option<u32>>| no_end_code(t) implies #[trigger] lookup_from(n, p, t)
        == range_value(cs, vals, lo, hi, d, t) by {
        if t.len() == 0 {
            lemma_node_empty(n, p, base, labels, starts, group, cs, vals, lo, hi, d, t);
        } else if t[0] is None {
            lemma_node_absent(n, p, base, labels, starts, group, cs, vals, lo, hi, d, t);
        } else if exists|j: int| 0 <= j < labels.len() && labels[j] == t[0]->0 {
            let j = choose|j: int| 0 <= j < labels.len() && labels[j] == t[0]->0;
            lemma_node_child_walk(n, p, base, labels, starts, group, cs, vals, lo, hi, d, t, j);
            lemma_node_child_range(n, p, base, labels, starts, group, cs, vals, lo, hi, d, t, j);
        } else {
            lemma_node_no_child(n, p, base, labels, starts, group, cs, vals, lo, hi, d, t);
        }
    }
}

} // verus!
