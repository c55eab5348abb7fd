//! A standard trie form that often provides the fastest queries.
use vstd::prelude::*;
use crate::builder::{
    input_error, key_chars, rank_values, record_chars, record_values, stored_value, within_proof_bound, Builder,
};
use crate::errors::CrawdadError;
use crate::mapper::CodeMapper;
use crate::{Match, Node, END_CODE};

verus! {

/// The child of node `p` along edge `c`: `base(p) ^ c`, when that slot's
/// `check` points back to `p`. A leaf has no children.
pub open spec fn child_of(nodes: Seq<Node>, p: u32, c: u32) -> Option<u32> {
    if (p as int) < nodes.len() && !nodes[p as int].leaf_spec() {
        let x = nodes[p as int].base_spec() ^ c;
        if (x as int) < nodes.len() && nodes[x as int].check_spec() == p {
            Some(x)
        } else {
            None
        }
    } else {
        None
    }
}

/// The node reached from `p` by following the codes of `text`; `None` where
/// an edge is missing or a position has no code.
pub open spec fn walk_from(nodes: Seq<Node>, p: u32, text: Seq<Option<u32>>) -> Option<u32>
    decreases text.len(),
{
    if text.len() == 0 {
        Some(p)
    } else {
        match text[0] {
            Some(c) => match child_of(nodes, p, c) {
                Some(x) => walk_from(nodes, x, text.drop_first()),
                None => None,
            },
            None => None,
        }
    }
}

/// The value stored at node `p`: its own, for a leaf, or that of its
/// synthetic leaf child.
pub open spec fn value_of(nodes: Seq<Node>, p: u32) -> Option<u32> {
    if (p as int) >= nodes.len() {
        None
    } else if nodes[p as int].leaf_spec() {
        Some(nodes[p as int].base_spec())
    } else if nodes[p as int].has_leaf_spec() {
        let l = nodes[p as int].base_spec() ^ END_CODE;
        if (l as int) < nodes.len() {
            Some(nodes[l as int].base_spec())
        } else {
            None
        }
    } else {
        None
    }
}

/// The value of the key whose codes are exactly `text`, if there is one.
pub open spec fn lookup(nodes: Seq<Node>, text: Seq<Option<u32>>) -> Option<u32> {
    match walk_from(nodes, 0, text) {
        Some(p) => value_of(nodes, p),
        None => None,
    }
}

/// The matches of the keys that are prefixes of `text` of length `e` or more,
/// by ascending length.
pub open(crate) spec fn matches_from(nodes: Seq<Node>, text: Seq<Option<u32>>, e: int) -> Seq<Match>
    decreases text.len() + 1 - e,
{
    if 0 < e <= text.len() {
        let rest = matches_from(nodes, text, e + 1);
        match lookup(nodes, text.take(e)) {
            Some(v) => seq![Match { value: v, end: e as usize }] + rest,
            None => rest,
        }
    } else {
        Seq::empty()
    }
}

/// Node `x` finds its synthetic leaf at `base ^ END_CODE`: inside the
/// table, pointing back to `x`, and flagged as a leaf.
pub open spec fn owns_leaf(nodes: Seq<Node>, x: int) -> bool {
    let l = (nodes[x].base_spec() ^ END_CODE) as int;
    &&& l < nodes.len()
    &&& nodes[l].check_spec() == x
    &&& nodes[l].leaf_spec()
}

/// Every node with the has-leaf flag is an inner node and owns its synthetic leaf.
pub open spec fn leaves_ok(nodes: Seq<Node>) -> bool {
    forall|x: int|
        0 <= x < nodes.len() && #[trigger] nodes[x].has_leaf_spec() ==> !nodes[x].leaf_spec()
            && owns_leaf(nodes, x)
}

/// Number of vacant slots in `nodes`.
pub open spec fn count_vacant(nodes: Seq<Node>) -> nat
    decreases nodes.len(),
{
    if nodes.len() == 0 {
        0
    } else {
        count_vacant(nodes.drop_last()) + if nodes.last().vacant_spec() {
            1nat
        } else {
            0nat
        }
    }
}

/// Walking one more position extends the walk by one edge.
pub proof fn lemma_walk_snoc(nodes: Seq<Node>, p: u32, text: Seq<Option<u32>>, e: int)
    requires
        0 <= e < text.len(),
    ensures
        walk_from(nodes, p, text.take(e + 1)) == match walk_from(nodes, p, text.take(e)) {
            Some(q) => match text[e] {
                Some(c) => child_of(nodes, q, c),
                None => None,
            },
            None => None,
        },
    decreases e,
{
    let t1 = text.take(e + 1);
    assert(t1[0] == text[0]);
    if e == 0 {
        assert(t1.drop_first() =~= Seq::<Option<u32>>::empty());
        assert(text.take(0).len() == 0);
        match text[0] {
            Some(c) => match child_of(nodes, p, c) {
                Some(x) => {
                    assert(walk_from(nodes, x, t1.drop_first()) == Some(x));
                },
                None => {},
            },
            None => {},
        }
    } else {
        let t0 = text.take(e);
        let rest = text.drop_first();
        assert(t0[0] == text[0]);
        assert(t1.drop_first() =~= rest.take(e));
        assert(t0.drop_first() =~= rest.take(e - 1));
        assert(rest[e - 1] == text[e]);
        match text[0] {
            Some(c) => match child_of(nodes, p, c) {
                Some(x) => {
                    lemma_walk_snoc(nodes, x, rest, e - 1);
                    assert(walk_from(nodes, p, t1) == walk_from(nodes, x, rest.take(e)));
                    assert(walk_from(nodes, p, t0) == walk_from(nodes, x, rest.take(e - 1)));
                },
                None => {},
            },
            None => {},
        }
    }
}

/// Once a walk fails, every longer walk fails.
pub proof fn lemma_walk_dead(nodes: Seq<Node>, p: u32, text: Seq<Option<u32>>, e: int, e2: int)
    requires
        0 <= e <= e2 <= text.len(),
        walk_from(nodes, p, text.take(e)) is None,
    ensures
        walk_from(nodes, p, text.take(e2)) is None,
    decreases e2 - e,
{
    if e < e2 {
        lemma_walk_snoc(nodes, p, text, e);
        lemma_walk_dead(nodes, p, text, e + 1, e2);
    }
}

/// Where the walk over the first `e` positions fails, no match ends at `e` or later.
pub proof fn lemma_no_matches_after_dead_walk(nodes: Seq<Node>, text: Seq<Option<u32>>, e: int)
    requires
        0 < e,
        e <= text.len() ==> walk_from(nodes, 0, text.take(e)) is None,
    ensures
        matches_from(nodes, text, e) =~= Seq::<Match>::empty(),
    decreases text.len() + 1 - e,
{
    if e <= text.len() {
        if e + 1 <= text.len() {
            lemma_walk_dead(nodes, 0, text, e, e + 1);
        }
        lemma_no_matches_after_dead_walk(nodes, text, e + 1);
    }
}

proof fn lemma_count_vacant_push(nodes: Seq<Node>, i: int)
    requires
        0 <= i < nodes.len(),
    ensures
        count_vacant(nodes.take(i + 1)) == count_vacant(nodes.take(i)) + if nodes[i].vacant_spec() {
            1nat
        } else {
            0nat
        },
{
    assert(nodes.take(i + 1).drop_last() =~= nodes.take(i));
}

/// A standard trie form that often provides the fastest queries.
pub struct Trie {
    pub(crate) mapper: CodeMapper,
    pub(crate) nodes: Vec<Node>,
}

impl Trie {
    /// The mapper is well formed, every slot has a 31-bit index, and each
    /// node with the has-leaf flag owns its synthetic leaf.
    pub open(crate) spec fn wf(&self) -> bool {
        &&& self.mapper.wf()
        &&& 1 <= self.nodes@.len() <= 0x8000_0000
        &&& leaves_ok(self.nodes@)
    }

    /// The slots of the double array.
    pub open(crate) spec fn nodes_spec(&self) -> Seq<Node> {
        self.nodes@
    }

    /// The code mapper of the trie.
    pub open(crate) spec fn mapper_spec(&self) -> CodeMapper {
        self.mapper
    }

    /// The value that [`Self::exact_match`] gives for `key`.
    pub open(crate) spec fn lookup_key(&self, key: Seq<char>) -> Option<u32> {
        lookup(self.nodes@, self.mapper.map_spec(key))
    }

    /// The codes of `text`, as [`Self::map_text`] gives them.
    pub open(crate) spec fn mapped_spec(&self, text: Seq<char>) -> Seq<Option<u32>> {
        self.mapper.map_spec(text)
    }

    /// Creates a new [`Trie`] from sorted keys; the `i`-th key gets the value `i`.
    pub fn from_keys(keys: &[&str]) -> (r: Result<Self, CrawdadError>)
        ensures
            keys@.len() > 0x8000_0000 ==> r == Err::<Trie, CrawdadError>(
                CrawdadError::CapacityExceeded,
            ),
            keys@.len() <= 0x8000_0000 ==> match input_error(
                key_chars(keys@),
                rank_values(keys@.len()),
            ) {
                Some(e) => r == Err::<Trie, CrawdadError>(e),
                None => r is Ok || r == Err::<Trie, CrawdadError>(CrawdadError::CapacityExceeded),
            },
            input_error(key_chars(keys@), rank_values(keys@.len())) is None && within_proof_bound(
                key_chars(keys@),
            ) ==> r is Ok,
            r is Ok ==> r->Ok_0.wf(),
            r is Ok ==> forall|s: Seq<char>|
                #[trigger] r->Ok_0.lookup_key(s) == stored_value(
                    key_chars(keys@),
                    rank_values(keys@.len()),
                    s,
                ),
    {
        Builder::new().build_from_keys(keys)
    }

    /// Creates a new [`Trie`] from sorted key-value pairs.
    pub fn from_records(records: &[(&str, u32)]) -> (r: Result<Self, CrawdadError>)
        ensures
            match input_error(record_chars(records@), record_values(records@)) {
                Some(e) => r == Err::<Trie, CrawdadError>(e),
                None => r is Ok || r == Err::<Trie, CrawdadError>(CrawdadError::CapacityExceeded),
            },
            input_error(record_chars(records@), record_values(records@)) is None
                && within_proof_bound(record_chars(records@)) ==> r is Ok,
            r is Ok ==> r->Ok_0.wf(),
            r is Ok ==> forall|s: Seq<char>|
                #[trigger] r->Ok_0.lookup_key(s) == stored_value(
                    record_chars(records@),
                    record_values(records@),
                    s,
                ),
    {
        Builder::new().build_from_records(records)
    }

    /// Returns the value associated with `key`, if `key` is stored.
    pub fn exact_match(&self, key: &str) -> (r: Option<u32>)
        ensures
            r == self.lookup_key(key@),
    {
        let ghost nodes = self.nodes@;
        let ghost text = self.mapper.map_spec(key@);
        let mut node_idx: u32 = 0;
        assert(text.skip(0) =~= text);
        for c in it: key.chars()
            invariant
                it.seq() == key@,
                text == self.mapper.map_spec(key@),
                nodes == self.nodes@,
                walk_from(nodes, 0, text) == walk_from(nodes, node_idx, text.skip(it.index() as int)),
        {
            let ghost i = it.index() as int;
            assert(text.skip(i)[0] == text[i]);
            assert(text.skip(i).drop_first() =~= text.skip(i + 1));
            if let Some(mc) = self.mapper.get(c) {
                if let Some(child_idx) = self.get_child_idx(node_idx, mc) {
                    node_idx = child_idx;
                } else {
                    return None;
                }
            } else {
                return None;
            }
        }
        assert(text.skip(text.len() as int) =~= Seq::<Option<u32>>::empty());
        if node_idx as usize >= self.nodes.len() {
            None
        } else if self.is_leaf(node_idx) {
            Some(self.get_value(node_idx))
        } else if self.has_leaf(node_idx) {
            let leaf_idx = self.get_leaf_idx(node_idx);
            if (leaf_idx as usize) < self.nodes.len() {
                Some(self.get_value(leaf_idx))
            } else {
                None
            }
        } else {
            None
        }
    }

    /// Returns a search over `text` (as mapped by [`Self::map_text`]) that
    /// gives, by ascending end, every key that is a prefix of `text`.
    pub fn common_prefix_searcher<'k, 't>(&'t self, text: &'k [Option<u32>]) -> (r:
        CommonPrefixSearcher<'k, 't>)
        ensures
            r.inv(),
            r.pos_spec() == 0,
            r.node_spec() == 0,
            r.trie_spec() == self,
            r.text_spec() == text@,
            r.remaining() == matches_from(self.nodes_spec(), text@, 1),
    {
        let r = CommonPrefixSearcher { text, text_pos: 0, trie: self, node_idx: 0 };
        assert(text@.take(0) =~= Seq::<Option<u32>>::empty());
        r
    }

    /// Replaces the contents of `mapped` with the codes of the characters of `text`.
    pub fn map_text(&self, text: &str, mapped: &mut Vec<Option<u32>>)
        ensures
            final(mapped)@ == self.mapped_spec(text@),
    {
        mapped.clear();
        for c in it: text.chars()
            invariant
                it.seq() == text@,
                mapped@ =~= self.mapper.map_spec(text@).take(it.index() as int),
        {
            mapped.push(self.mapper.get(c));
        }
        assert(self.mapper.map_spec(text@).take(text@.len() as int) =~= self.mapper.map_spec(
            text@,
        ));
    }

    /// The child of `node_idx` along code `mc`, if there is one.
    fn get_child_idx(&self, node_idx: u32, mc: u32) -> (r: Option<u32>)
        ensures
            r == child_of(self.nodes@, node_idx, mc),
    {
        if node_idx as usize >= self.nodes.len() {
            return None;
        }
        if self.is_leaf(node_idx) {
            return None;
        }
        let child_idx = self.get_base(node_idx) ^ mc;
        if (child_idx as usize) < self.nodes.len() && self.get_check(child_idx) == node_idx {
            return Some(child_idx);
        }
        None
    }

    fn get_base(&self, node_idx: u32) -> (r: u32)
        requires
            (node_idx as int) < self.nodes@.len(),
        ensures
            r == self.nodes@[node_idx as int].base_spec(),
    {
        self.nodes[node_idx as usize].get_base()
    }

    fn get_check(&self, node_idx: u32) -> (r: u32)
        requires
            (node_idx as int) < self.nodes@.len(),
        ensures
            r == self.nodes@[node_idx as int].check_spec(),
    {
        self.nodes[node_idx as usize].get_check()
    }

    fn is_leaf(&self, node_idx: u32) -> (r: bool)
        requires
            (node_idx as int) < self.nodes@.len(),
        ensures
            r == self.nodes@[node_idx as int].leaf_spec(),
    {
        self.nodes[node_idx as usize].is_leaf()
    }

    fn has_leaf(&self, node_idx: u32) -> (r: bool)
        requires
            (node_idx as int) < self.nodes@.len(),
        ensures
            r == self.nodes@[node_idx as int].has_leaf_spec(),
    {
        self.nodes[node_idx as usize].has_leaf()
    }

    /// Index of the synthetic leaf child of `node_idx`.
    fn get_leaf_idx(&self, node_idx: u32) -> (r: u32)
        requires
            (node_idx as int) < self.nodes@.len(),
        ensures
            r == self.nodes@[node_idx as int].base_spec() ^ END_CODE,
            leaves_ok(self.nodes@) && self.nodes@[node_idx as int].has_leaf_spec()
                ==> (r as int) < self.nodes@.len()
                && self.nodes@[r as int].check_spec() == node_idx && self.nodes@[r as int].leaf_spec(),
    {
        self.get_base(node_idx) ^ END_CODE
    }

    /// The value held by the leaf `node_idx`.
    fn get_value(&self, node_idx: u32) -> (r: u32)
        requires
            (node_idx as int) < self.nodes@.len(),
        ensures
            r == self.nodes@[node_idx as int].base_spec(),
    {
        self.nodes[node_idx as usize].get_base()
    }

    /// Bytes that the trie takes on the heap (`usize::MAX` where that does not fit).
    pub fn heap_bytes(&self) -> (r: usize)
        requires
            self.wf(),
        ensures
            r == if self.mapper_spec().table_len() * 4 + self.nodes_spec().len() * 8 <= usize::MAX {
                self.mapper_spec().table_len() * 4 + self.nodes_spec().len() * 8
            } else {
                usize::MAX as nat
            },
    {
        let m = self.mapper.heap_bytes();
        let n = self.nodes.len();
        if n > (usize::MAX - m) / 8 {
            usize::MAX
        } else {
            m + n * 8
        }
    }

    /// Number of slots of the double array.
    pub fn num_elems(&self) -> (r: usize)
        ensures
            r == self.nodes_spec().len(),
    {
        self.nodes.len()
    }

    /// Number of slots that were never placed.
    pub fn num_vacants(&self) -> (r: usize)
        ensures
            r == count_vacant(self.nodes_spec()),
    {
        let mut n: usize = 0;
        for i in 0..self.nodes.len()
            invariant
                n == count_vacant(self.nodes@.take(i as int)),
                n <= i,
        {
            proof {
                lemma_count_vacant_push(self.nodes@, i as int);
            }
            if self.nodes[i].is_vacant() {
                n += 1;
            }
        }
        assert(self.nodes@.take(self.nodes@.len() as int) =~= self.nodes@);
        n
    }
}

/// The state of one common-prefix search: a position in the text and the
/// node reached so far.
pub struct CommonPrefixSearcher<'k, 't> {
    pub(crate) text: &'k [Option<u32>],
    pub(crate) text_pos: usize,
    pub(crate) trie: &'t Trie,
    pub(crate) node_idx: u32,
}

impl<'k, 't> CommonPrefixSearcher<'k, 't> {
    /// Before the end of the text, `node_idx` is the node reached by the
    /// codes before `text_pos`.
    pub open(crate) spec fn inv(&self) -> bool {
        &&& self.text_pos <= self.text@.len()
        &&& self.text_pos < self.text@.len() ==> walk_from(
            self.trie.nodes@,
            0,
            self.text@.take(self.text_pos as int),
        ) == Some(self.node_idx)
    }

    /// The text searched.
    pub open(crate) spec fn text_spec(&self) -> Seq<Option<u32>> {
        self.text@
    }

    /// The position reached in the text.
    pub open(crate) spec fn pos_spec(&self) -> usize {
        self.text_pos
    }

    /// The node reached in the trie.
    pub open(crate) spec fn node_spec(&self) -> u32 {
        self.node_idx
    }

    /// The trie searched.
    pub open(crate) spec fn trie_spec(&self) -> &'t Trie {
        self.trie
    }

    /// The matches that the search has still to give.
    pub open(crate) spec fn remaining(&self) -> Seq<Match> {
        matches_from(self.trie.nodes@, self.text@, self.text_pos + 1)
    }

    /// The next match, by ascending end; `None` once no key is left.
    pub fn next(&mut self) -> (r: Option<Match>)
        requires
            old(self).inv(),
        ensures
            final(self).inv(),
            final(self).trie_spec() == old(self).trie_spec(),
            final(self).text_spec() == old(self).text_spec(),
            old(self).remaining().len() == 0 ==> r is None && final(self).remaining().len() == 0,
            old(self).remaining().len() > 0 ==> r == Some(old(self).remaining()[0])
                && final(self).remaining() == old(self).remaining().drop_first(),
    {
        let ghost nodes = self.trie.nodes@;
        let ghost text = self.text@;
        while self.text_pos < self.text.len()
            invariant
                self.inv(),
                self.trie == old(self).trie,
                self.text@ == old(self).text@,
                nodes == self.trie.nodes@,
                text == self.text@,
                old(self).remaining() == matches_from(nodes, text, self.text_pos + 1),
            decreases self.text@.len() - self.text_pos,
        {
            let pos = self.text_pos;
            proof {
                lemma_walk_snoc(nodes, 0, text, pos as int);
            }
            if let Some(mc) = self.text[pos] {
                if let Some(child_idx) = self.trie.get_child_idx(self.node_idx, mc) {
                    self.node_idx = child_idx;
                } else {
                    self.text_pos = self.text.len();
                    proof {
                        lemma_no_matches_after_dead_walk(nodes, text, pos + 1);
                    }
                    return None;
                }
            } else {
                self.text_pos = self.text.len();
                proof {
                    lemma_no_matches_after_dead_walk(nodes, text, pos + 1);
                }
                return None;
            }
            self.text_pos = pos + 1;
            let e = self.text_pos;
            if self.trie.is_leaf(self.node_idx) {
                let matched_pos = self.text_pos;
                self.text_pos = self.text.len();
                let m = Match { end: matched_pos, value: self.trie.get_value(self.node_idx) };
                proof {
                    if e < text.len() {
                        lemma_walk_snoc(nodes, 0, text, e as int);
                    }
                    lemma_no_matches_after_dead_walk(nodes, text, e + 1);
                    assert(matches_from(nodes, text, e as int) =~= seq![m] + matches_from(
                        nodes,
                        text,
                        e + 1,
                    ));
                    assert(old(self).remaining().drop_first() =~= Seq::<Match>::empty());
                }
                return Some(m);
            } else if self.trie.has_leaf(self.node_idx) {
                let leaf_idx = self.trie.get_leaf_idx(self.node_idx);
                if (leaf_idx as usize) < self.trie.nodes.len() {
                    let m = Match { end: self.text_pos, value: self.trie.get_value(leaf_idx) };
                    proof {
                        assert(old(self).remaining() =~= seq![m] + matches_from(
                            nodes,
                            text,
                            e + 1,
                        ));
                        assert(old(self).remaining().drop_first() =~= matches_from(
                            nodes,
                            text,
                            e + 1,
                        ));
                    }
                    return Some(m);
                }
            }
        }
        None
    }
}

} // verus!
