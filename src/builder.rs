//! Construction of a double-array trie from sorted keys.
use vstd::prelude::*;
use crate::bpxcheck::BPXChecker;
use crate::errors::CrawdadError;
use crate::mapper::CodeMapper;
use crate::shape::{
    lookup_from, no_end_code, closed, code_lt, opt_codes, range_value, frame, label_at, lemma_frame_subtree, lemma_label_step, lemma_leaf_subtree,
    lemma_node_subtree, lemma_xor_cancel, node_ready, subtree_ok,
};
use crate::trie::{child_of, leaves_ok, Trie};
use crate::{Node, END_CODE, FLAG_BIT, INVALID_IDX, OFFSET_MASK};

verus! {

/// Lexicographic order of character sequences, by code point.
pub open spec fn key_lt(a: Seq<char>, b: Seq<char>) -> bool
    decreases a.len(),
{
    if a.len() == 0 {
        b.len() > 0
    } else if b.len() == 0 {
        false
    } else if a[0] != b[0] {
        (a[0] as u32) < (b[0] as u32)
    } else {
        key_lt(a.drop_first(), b.drop_first())
    }
}

/// What is wrong with the `i`-th record, if anything.
pub open spec fn fault_at(keys: Seq<Seq<char>>, vals: Seq<u32>, i: int) -> Option<CrawdadError> {
    if keys[i].len() == 0 {
        Some(CrawdadError::EmptyKey)
    } else if i > 0 && keys[i] == keys[i - 1] {
        Some(CrawdadError::DuplicateKey)
    } else if i > 0 && key_lt(keys[i], keys[i - 1]) {
        Some(CrawdadError::UnsortedInput)
    } else if vals[i] > OFFSET_MASK {
        Some(CrawdadError::CapacityExceeded)
    } else {
        None
    }
}

/// The fault of the first faulty record among the first `n`.
pub open spec fn first_fault(keys: Seq<Seq<char>>, vals: Seq<u32>, n: int) -> Option<CrawdadError>
    decreases n,
{
    if n <= 0 {
        None
    } else {
        match first_fault(keys, vals, n - 1) {
            Some(e) => Some(e),
            None => fault_at(keys, vals, n - 1),
        }
    }
}

/// The error that building from `keys` with `vals` reports before any node
/// is placed, if any.
pub open spec fn input_error(keys: Seq<Seq<char>>, vals: Seq<u32>) -> Option<CrawdadError> {
    if keys.len() == 0 {
        Some(CrawdadError::EmptyInput)
    } else {
        first_fault(keys, vals, keys.len() as int)
    }
}

/// A size below which construction is proved to succeed. Each placed node
/// may take up to `node_growth(b)` fresh slots, where `2^b` is the least
/// power of two (at least 64) above every character's scalar value, which
/// bounds every code; there are at most (number of keys) times (length of
/// the longest key) placed nodes. The bound holds when that many growths
/// fit the 31-bit index space. It is a bound of the proof, not the index
/// limit itself: larger inputs may still build, but are not owed success.
pub open spec fn within_proof_bound(keys: Seq<Seq<char>>) -> bool {
    let g = node_growth(span_bits(keys_span(keys) as int, 6));
    forall|k: int|
        0 <= k < keys.len() ==> keys.len() * (#[trigger] keys[k]).len() * g + g + 1 <= OFFSET_MASK
}

/// The characters of each key.
pub open spec fn key_chars(keys: Seq<&str>) -> Seq<Seq<char>> {
    keys.map_values(|s: &str| s@)
}

/// The values `0, 1, ..., n - 1`.
pub open spec fn rank_values(n: nat) -> Seq<u32> {
    Seq::new(n, |i: int| i as u32)
}

/// The characters of the key of each record.
pub open spec fn record_chars(records: Seq<(&str, u32)>) -> Seq<Seq<char>> {
    records.map_values(|r: (&str, u32)| r.0@)
}

/// The value of each record.
pub open spec fn record_values(records: Seq<(&str, u32)>) -> Seq<u32> {
    records.map_values(|r: (&str, u32)| r.1)
}

/// The characters of `s`.
fn to_chars(s: &str) -> (r: Vec<char>)
    ensures
        r@ == s@,
{
    let mut v: Vec<char> = Vec::new();
    for c in it: s.chars()
        invariant
            it.seq() == s@,
            v@ =~= s@.take(it.index() as int),
    {
        v.push(c);
    }
    assert(s@.take(s@.len() as int) =~= s@);
    v
}

/// Whether `a` is less than `b`, and whether the two are equal.
fn compare_keys(a: &Vec<char>, b: &Vec<char>) -> (r: (bool, bool))
    ensures
        r.0 == key_lt(a@, b@),
        r.1 == (a@ == b@),
{
    let mut i: usize = 0;
    assert(a@.skip(0) =~= a@);
    assert(b@.skip(0) =~= b@);
    while i < a.len() && i < b.len() && a[i] == b[i]
        invariant
            i <= a@.len(),
            i <= b@.len(),
            a@.take(i as int) =~= b@.take(i as int),
            key_lt(a@, b@) == key_lt(a@.skip(i as int), b@.skip(i as int)),
        decreases a@.len() - i,
    {
        assert(a@.skip(i as int).drop_first() =~= a@.skip(i + 1));
        assert(b@.skip(i as int).drop_first() =~= b@.skip(i + 1));
        assert(a@.take(i + 1) =~= a@.take(i as int).push(a@[i as int]));
        assert(b@.take(i + 1) =~= b@.take(i as int).push(b@[i as int]));
        i += 1;
    }
    if i < a.len() && i < b.len() {
        assert(a@[i as int] == a@.skip(i as int)[0]);
        assert(b@[i as int] == b@.skip(i as int)[0]);
        ((a[i] as u32) < (b[i] as u32), false)
    } else {
        assert(a@.skip(i as int).len() == a@.len() - i);
        assert(b@.skip(i as int).len() == b@.len() - i);
        if i == a.len() && i == b.len() {
            assert(a@ =~= a@.take(i as int));
            assert(b@ =~= b@.take(i as int));
        } else if i < a.len() {
            assert(a@[i as int] == a@.skip(i as int)[0]);
            assert(a@.len() != b@.len());
        } else {
            assert(a@.len() != b@.len());
        }
        (i == a.len() && i < b.len(), i == a.len() && i == b.len())
    }
}

/// The faults of the records, checked in order; `None` when all are sound.
fn check_records(keys: &Vec<Vec<char>>, vals: &Vec<u32>) -> (r: Option<CrawdadError>)
    requires
        keys@.len() == vals@.len(),
    ensures
        r == first_fault(keys@.map_values(|k: Vec<char>| k@), vals@, keys@.len() as int),
{
    let ghost ks = keys@.map_values(|k: Vec<char>| k@);
    let n = keys.len();
    for i in 0..n
        invariant
            n == keys@.len(),
            keys@.len() == vals@.len(),
            ks == keys@.map_values(|k: Vec<char>| k@),
            first_fault(ks, vals@, i as int) is None,
    {
        assert(ks[i as int] == keys@[i as int]@);
        if i > 0 {
            assert(ks[i - 1] == keys@[i - 1]@);
        }
        let mut fault: Option<CrawdadError> = None;
        if keys[i].len() == 0 {
            fault = Some(CrawdadError::EmptyKey);
        } else if i > 0 {
            let (less, equal) = compare_keys(&keys[i], &keys[i - 1]);
            if equal {
                fault = Some(CrawdadError::DuplicateKey);
            } else if less {
                fault = Some(CrawdadError::UnsortedInput);
            }
        }
        if fault.is_none() && vals[i] > OFFSET_MASK {
            fault = Some(CrawdadError::CapacityExceeded);
        }
        assert(fault == fault_at(ks, vals@, i as int));
        if fault.is_some() {
            proof {
                lemma_first_fault_stable(ks, vals@, i + 1, n as int);
            }
            return fault;
        }
    }
    None
}

proof fn lemma_first_fault_stable(keys: Seq<Seq<char>>, vals: Seq<u32>, i: int, n: int)
    requires
        0 <= i <= n,
        first_fault(keys, vals, i) is Some,
    ensures
        first_fault(keys, vals, n) == first_fault(keys, vals, i),
    decreases n - i,
{
    if i < n {
        lemma_first_fault_stable(keys, vals, i, n - 1);
    }
}

pub(crate) proof fn lemma_first_fault_none(keys: Seq<Seq<char>>, vals: Seq<u32>, n: int)
    requires
        first_fault(keys, vals, n) is None,
    ensures
        forall|i: int| 0 <= i < n ==> #[trigger] fault_at(keys, vals, i) is None,
    decreases n,
{
    if n > 0 {
        lemma_first_fault_none(keys, vals, n - 1);
    }
}

/// The codes of the characters of each key.
fn map_keys(mapper: &CodeMapper, keys: &Vec<Vec<char>>) -> (r: Vec<Vec<u32>>)
    requires
        mapper.wf(),
        forall|k: int, d: int|
            0 <= k < keys@.len() && 0 <= d < keys@[k]@.len() ==> #[trigger] mapper.code_spec(
                keys@[k]@[d],
            ) is Some,
    ensures
        r@.len() == keys@.len(),
        forall|k: int|
            0 <= k < r@.len() ==> #[trigger] r@[k]@.len() == keys@[k]@.len() && forall|d: int|
                0 <= d < r@[k]@.len() ==> Some(#[trigger] r@[k]@[d]) == mapper.code_spec(
                    keys@[k]@[d],
                ),
        forall|k: int, d: int|
            0 <= k < r@.len() && 0 <= d < r@[k]@.len() ==> 1 <= #[trigger] r@[k]@[d] <= 0x11_0000,
{
    let mut out: Vec<Vec<u32>> = Vec::new();
    for k in 0..keys.len()
        invariant
            mapper.wf(),
            forall|k: int, d: int|
                0 <= k < keys@.len() && 0 <= d < keys@[k]@.len() ==> #[trigger] mapper.code_spec(
                    keys@[k]@[d],
                ) is Some,
            out@.len() == k,
            forall|kk: int|
                0 <= kk < k ==> #[trigger] out@[kk]@.len() == keys@[kk]@.len() && forall|d: int|
                    0 <= d < out@[kk]@.len() ==> Some(#[trigger] out@[kk]@[d]) == mapper.code_spec(
                        keys@[kk]@[d],
                    ),
            forall|kk: int, d: int|
                0 <= kk < k && 0 <= d < out@[kk]@.len() ==> 1 <= #[trigger] out@[kk]@[d]
                    <= 0x11_0000,
    {
        let key = &keys[k];
        let mut codes: Vec<u32> = Vec::new();
        for d in 0..key.len()
            invariant
                mapper.wf(),
                0 <= k < keys@.len(),
                key == keys@[k as int],
                forall|k: int, d: int|
                    0 <= k < keys@.len() && 0 <= d < keys@[k]@.len() ==> #[trigger] mapper.code_spec(
                        keys@[k]@[d],
                    ) is Some,
                codes@.len() == d,
                forall|dd: int|
                    0 <= dd < d ==> Some(#[trigger] codes@[dd]) == mapper.code_spec(key@[dd]),
                forall|dd: int| 0 <= dd < d ==> 1 <= #[trigger] codes@[dd] <= 0x11_0000,
        {
            assert(mapper.code_spec(keys@[k as int]@[d as int]) is Some);
            let code = mapper.get(key[d]).unwrap();
            codes.push(code);
        }
        out.push(codes);
    }
    out
}

/// The construction context: the node table and the occupancy bitmap, grown
/// in lock-step.
pub struct Builder {
    pub(crate) nodes: Vec<Node>,
    pub(crate) checker: BPXChecker,
    pub(crate) head: u32,
}

impl Builder {
    /// The table and the bitmap cover the same slots, all with 31-bit indices.
    /// Unfixed slots are vacant, slots past the table are unfixed, and the
    /// parent of a fixed slot is fixed.
    pub open(crate) spec fn wf(&self) -> bool {
        &&& 1 <= self.nodes@.len() <= OFFSET_MASK
        &&& self.checker.bitmap@.len() == (self.nodes@.len() + 63) / 64
        &&& forall|x: int|
            0 <= x < self.nodes@.len() && !self.checker.fixed_spec(x)
                ==> #[trigger] self.nodes@[x].vacant_spec()
        &&& forall|x: int|
            self.nodes@.len() <= x < self.checker.bitmap@.len() * 64
                ==> !#[trigger] self.checker.fixed_spec(x)
        &&& forall|x: int|
            0 <= x < self.nodes@.len() && self.checker.fixed_spec(x) && #[trigger] self.nodes@[
                x
            ].check_spec() != OFFSET_MASK ==> self.nodes@[x].check_spec() < self.nodes@.len()
                && self.checker.fixed_spec(self.nodes@[x].check_spec() as int)
    }

    /// Every slot before `len` keeps its node and its fixed bit.
    pub open(crate) spec fn keeps_prefix(&self, other: &Builder, len: int) -> bool {
        &&& other.nodes@.len() >= len
        &&& forall|y: int| 0 <= y < len ==> #[trigger] other.nodes@[y] == self.nodes@[y]
        &&& forall|y: int|
            0 <= y < len ==> #[trigger] other.checker.fixed_spec(y) == self.checker.fixed_spec(y)
    }

    /// The table holds only the root, fixed, with no parent and no leaf.
    pub open(crate) spec fn root_only(&self) -> bool {
        &&& self.nodes@.len() == 1
        &&& self.checker.fixed_spec(0)
        &&& self.nodes@[0].check_spec() == OFFSET_MASK
        &&& !self.nodes@[0].has_leaf_spec()
        &&& !self.nodes@[0].leaf_spec()
    }

    /// A context whose table holds only the root.
    pub fn new() -> (r: Self)
        ensures
            r.wf(),
            r.root_only(),
    {
        let mut checker = BPXChecker::new(1);
        checker.set_fixed(0);
        let mut nodes: Vec<Node> = Vec::new();
        nodes.push(Node { base: OFFSET_MASK, check: OFFSET_MASK });
        let r = Builder { nodes, checker, head: 0 };
        assert(r.nodes@[0].check_spec() == OFFSET_MASK) by {
            assert(0x7fff_ffffu32 % 0x8000_0000 == 0x7fff_ffff);
        }
        r
    }

    /// Builds a trie from sorted keys; the `i`-th key gets the value `i`.
    pub fn build_from_keys(self, keys: &[&str]) -> (r: Result<Trie, CrawdadError>)
        requires
            self.wf(),
            self.root_only(),
        ensures
            keys@.len() > 0x8000_0000 ==> r == Err::<Trie, CrawdadError>(
                CrawdadError::CapacityExceeded,
            ),
            keys@.len() <= 0x8000_0000 ==> match input_error(
                key_chars(keys@),
                rank_values(keys@.len()),
            ) {
                Some(e) => r == Err::<Trie, CrawdadError>(e),
                None => r is Ok || r == Err::<Trie, CrawdadError>(CrawdadError::CapacityExceeded),
            },
            input_error(key_chars(keys@), rank_values(keys@.len())) is None && within_proof_bound(
                key_chars(keys@),
            ) ==> r is Ok,
            r is Ok ==> r->Ok_0.wf(),
            r is Ok ==> forall|s: Seq<char>|
                #[trigger] r->Ok_0.lookup_key(s) == stored_value(
                    key_chars(keys@),
                    rank_values(keys@.len()),
                    s,
                ),
    {
        if keys.len() > 0x8000_0000 {
            proof {
                let ks = key_chars(keys@);
                let vs = rank_values(keys@.len());
                if within_proof_bound(ks) {
                    let n = ks.len() as int;
                    let l0 = ks[0].len() as int;
                    let g = node_growth(span_bits(keys_span(ks) as int, 6));
                    assert(n * l0 * g + g + 1 <= OFFSET_MASK);
                    if l0 >= 1 {
                        assert(n * l0 >= n) by (nonlinear_arith)
                            requires
                                n > 0,
                                l0 >= 1,
                        ;
                        assert(n * l0 * g >= n * l0) by (nonlinear_arith)
                            requires
                                n * l0 > 0,
                                g >= 64,
                        ;
                        assert(false);
                    }
                    assert(fault_at(ks, vs, 0) is Some);
                    assert(first_fault(ks, vs, 1) is Some);
                    lemma_first_fault_stable(ks, vs, 1, n);
                }
            }
            return Err(CrawdadError::CapacityExceeded);
        }
        let mut ks: Vec<Vec<char>> = Vec::new();
        let mut vs: Vec<u32> = Vec::new();
        for i in 0..keys.len()
            invariant
                keys@.len() <= 0x8000_0000,
                ks@.len() == i,
                vs@.len() == i,
                forall|j: int| 0 <= j < i ==> #[trigger] ks@[j]@ == keys@[j]@,
                forall|j: int| 0 <= j < i ==> #[trigger] vs@[j] == j as u32,
        {
            ks.push(to_chars(keys[i]));
            vs.push(i as u32);
        }
        assert(ks@.map_values(|k: Vec<char>| k@) =~= key_chars(keys@));
        assert(vs@ =~= rank_values(keys@.len()));
        self.build(ks, vs)
    }

    /// Builds a trie from sorted key-value pairs.
    pub fn build_from_records(self, records: &[(&str, u32)]) -> (r: Result<
        Trie,
        CrawdadError,
    >)
        requires
            self.wf(),
            self.root_only(),
        ensures
            match input_error(record_chars(records@), record_values(records@)) {
                Some(e) => r == Err::<Trie, CrawdadError>(e),
                None => r is Ok || r == Err::<Trie, CrawdadError>(CrawdadError::CapacityExceeded),
            },
            input_error(record_chars(records@), record_values(records@)) is None
                && within_proof_bound(record_chars(records@)) ==> r is Ok,
            r is Ok ==> r->Ok_0.wf(),
            r is Ok ==> forall|s: Seq<char>|
                #[trigger] r->Ok_0.lookup_key(s) == stored_value(
                    record_chars(records@),
                    record_values(records@),
                    s,
                ),
    {
        let mut ks: Vec<Vec<char>> = Vec::new();
        let mut vs: Vec<u32> = Vec::new();
        for i in 0..records.len()
            invariant
                ks@.len() == i,
                vs@.len() == i,
                forall|j: int| 0 <= j < i ==> #[trigger] ks@[j]@ == records@[j].0@,
                forall|j: int| 0 <= j < i ==> #[trigger] vs@[j] == records@[j].1,
        {
            let (k, v) = records[i];
            ks.push(to_chars(k));
            vs.push(v);
        }
        assert(ks@.map_values(|k: Vec<char>| k@) =~= record_chars(records@));
        assert(vs@ =~= record_values(records@));
        self.build(ks, vs)
    }

    /// Checks the records, then places them.
    fn build(self, keys: Vec<Vec<char>>, vals: Vec<u32>) -> (r: Result<Trie, CrawdadError>)
        requires
            self.wf(),
            self.root_only(),
            keys@.len() == vals@.len(),
        ensures
            match input_error(keys@.map_values(|k: Vec<char>| k@), vals@) {
                Some(e) => r == Err::<Trie, CrawdadError>(e),
                None => r is Ok || r == Err::<Trie, CrawdadError>(CrawdadError::CapacityExceeded),
            },
            input_error(keys@.map_values(|k: Vec<char>| k@), vals@) is None && within_proof_bound(
                keys@.map_values(|k: Vec<char>| k@),
            ) ==> r is Ok,
            r is Ok ==> r->Ok_0.wf(),
            r is Ok ==> forall|s: Seq<char>|
                #[trigger] r->Ok_0.lookup_key(s) == stored_value(
                    keys@.map_values(|k: Vec<char>| k@),
                    vals@,
                    s,
                ),
    {
        if keys.len() == 0 {
            return Err(CrawdadError::EmptyInput);
        }
        if let Some(e) = check_records(&keys, &vals) {
            return Err(e);
        }
        let ghost ks = keys@.map_values(|k: Vec<char>| k@);
        proof {
            lemma_first_fault_none(ks, vals@, keys@.len() as int);
            assert forall|k: int| 0 <= k < vals@.len() implies #[trigger] vals@[k] <= OFFSET_MASK by {
                assert(fault_at(ks, vals@, k) is None);
            }
        }
        let mapper = CodeMapper::new(&keys);
        let codes = map_keys(&mapper, &keys);
        let ghost cs = code_seqs(codes@);
        let ghost max_len = max_key_len(codes@);
        proof {
            lemma_max_key_len(codes@);
            assert forall|k: int| 0 <= k && k + 1 < keys@.len() implies code_lt(
                #[trigger] codes@[k]@,
                codes@[k + 1]@,
            ) by {
                assert(fault_at(ks, vals@, k + 1) is None);
                assert(ks[k] == keys@[k]@);
                assert(ks[k + 1] == keys@[k + 1]@);
                lemma_key_lt_total(ks[k], ks[k + 1]);
                assert(codes@[k]@.len() == keys@[k]@.len());
                assert(codes@[k + 1]@.len() == keys@[k + 1]@.len());
                lemma_lt_to_codes(mapper, keys@[k]@, codes@[k]@, keys@[k + 1]@, codes@[k + 1]@);
            }
            assert forall|k: int| 0 <= k < keys@.len() implies (#[trigger] codes@[k]@).take(0)
                == codes@[0]@.take(0) by {
                assert(codes@[k]@.take(0) =~= codes@[0]@.take(0));
            }
            assert(self.nodes@[0].check_spec() != 0);
            if within_proof_bound(ks) {
                let k = choose|k: int| 0 <= k < codes@.len() && codes@[k]@.len() == max_len;
                assert(ks[k] == keys@[k]@);
                assert(ks[k].len() == max_len);
            }
        }
        let ghost bits = span_bits(keys_span(ks) as int, 6);
        proof {
            lemma_keys_span(ks);
            lemma_span_bits(keys_span(ks) as int, 6);
            assert(ks[0] == keys@[0]@);
            assert(fault_at(ks, vals@, 0) is None);
            assert((ks[0][0] as u32) < keys_span(ks));
            assert forall|k: int, d: int| 0 <= k < keys@.len() && 0 <= d < keys@[k]@.len() implies ((
            #[trigger] keys@[k]@[d]) as u32) < keys_span(ks) by {
                assert(ks[k] == keys@[k]@);
                assert(ks[k][d] == keys@[k]@[d]);
            }
            assert(crate::mapper::scalars_below(keys@, keys_span(ks) as int));
            assert(mapper.table_len() <= keys_span(ks));
            assert forall|k: int, d: int|
                0 <= k < codes@.len() && 0 <= d < codes@[k]@.len() implies (#[trigger] codes@[k]@[d]
                as int) < (1u64 << bits) as int by {
                assert(Some(codes@[k]@[d]) == mapper.code_spec(keys@[k]@[d]));
                assert(mapper.code_spec(keys@[k]@[d]) is Some);
            }
        }
        let mut b = self;
        b.arrange(&codes, &vals, 0, keys.len(), 0, 0, Ghost(max_len), Ghost(bits))?;
        let trie = Trie { mapper, nodes: b.nodes };
        assert(leaves_ok(trie.nodes@));
        proof {
            assert forall|s: Seq<char>| #[trigger] trie.lookup_key(s) == stored_value(ks, vals@, s) by {
                let t = mapper.map_spec(s);
                assert(no_end_code(t)) by {
                    assert forall|i: int| 0 <= i < t.len() implies t[i] != Some(END_CODE) by {
                        if mapper.code_spec(s[i]) is Some {
                            assert(1 <= mapper.code_spec(s[i])->0);
                        }
                    }
                }
                assert(lookup_from(trie.nodes@, 0, t) == range_value(cs, vals@, 0, keys@.len() as int, 0, t));
                assert forall|k: int| 0 <= k < cs.len() implies #[trigger] cs[k].len() == ks[k].len() && forall|d: int|
                    0 <= d < cs[k].len() ==> Some(#[trigger] cs[k][d]) == mapper.code_spec(ks[k][d]) by {
                    assert(cs[k] == codes@[k]@);
                    assert(ks[k] == keys@[k]@);
                }
                lemma_range_stored(mapper, ks, cs, vals@, 0, s);
            }
        }
        Ok(trie)
    }
}

/// The code sequences of the keys.
pub open spec fn code_seqs(keys: Seq<Vec<u32>>) -> Seq<Seq<u32>> {
    keys.map_values(|k: Vec<u32>| k@)
}

/// Slot `y` is fixed in `b1` but was not fixed in the table of `b0`.
pub open(crate) spec fn newly_fixed(b0: Builder, b1: Builder, y: u32) -> bool {
    &&& (y as int) < b1.nodes@.len()
    &&& b1.checker.fixed_spec(y as int)
    &&& !((y as int) < b0.nodes@.len() && b0.checker.fixed_spec(y as int))
}

/// The slots that placing node `q` took: `q` and the slots fixed since `b0`.
pub open(crate) spec fn owned(b0: Builder, b1: Builder, q: u32) -> Set<u32> {
    Set::new(|y: u32| y == q || newly_fixed(b0, b1, y))
}

/// From `b0` to `b1`, each slot fixed in `b0` stays fixed and, but for `q`,
/// keeps its node and the set of slots whose `check` names it.
pub open(crate) spec fn kept(b0: Builder, b1: Builder, q: u32) -> bool {
    &&& b1.nodes@.len() >= b0.nodes@.len()
    &&& forall|y: int|
        0 <= y < b0.nodes@.len() && b0.checker.fixed_spec(y) ==> #[trigger] b1.checker.fixed_spec(y)
    &&& forall|y: int|
        0 <= y < b0.nodes@.len() && b0.checker.fixed_spec(y) && y != q ==> #[trigger] b1.nodes@[y]
            == b0.nodes@[y]
    &&& forall|x: int, y: u32|
        #![trigger b0.checker.fixed_spec(y as int), b1.nodes@[x]]
        #![trigger b0.checker.fixed_spec(y as int), b0.nodes@[x]]
        (y as int) < b0.nodes@.len() && b0.checker.fixed_spec(y as int) && y != q ==> ((0 <= x
            < b0.nodes@.len() && b0.nodes@[x].check_spec() == y) == (0 <= x < b1.nodes@.len()
            && b1.nodes@[x].check_spec() == y))
}

/// `y` is the slot `base ^ l` of a label `l`.
pub open spec fn is_child_slot(base: u32, labels: Seq<u32>, y: int) -> bool {
    exists|j: int| 0 <= j < labels.len() && y == (base ^ #[trigger] labels[j]) as int
}

proof fn lemma_kept_trans(b0: Builder, b1: Builder, b2: Builder, q: u32, q2: u32)
    requires
        kept(b0, b1, q),
        kept(b1, b2, q2),
        q2 == q || !((q2 as int) < b0.nodes@.len() && b0.checker.fixed_spec(q2 as int)),
    ensures
        kept(b0, b2, q),
{
    assert forall|x: int, y: u32|
        (y as int) < b0.nodes@.len() && b0.checker.fixed_spec(y as int) && y != q implies ((0 <= x
            < b0.nodes@.len() && b0.nodes@[x].check_spec() == y) == (0 <= x < b2.nodes@.len()
            && b2.nodes@[x].check_spec() == y)) by {
        assert(b1.checker.fixed_spec(y as int));
        if 0 <= x < b1.nodes@.len() {
            assert(b1.nodes@[x] == b1.nodes@[x]);
        }
        if 0 <= x < b0.nodes@.len() {
            assert(b0.nodes@[x] == b0.nodes@[x]);
        }
        if 0 <= x < b2.nodes@.len() {
            assert(b2.nodes@[x] == b2.nodes@[x]);
        }
    }
}

proof fn lemma_kept_frame(b1: Builder, b2: Builder, q2: u32, s: Set<u32>)
    requires
        kept(b1, b2, q2),
        forall|y: u32|
            #[trigger] s.contains(y) ==> (y as int) < b1.nodes@.len() && b1.checker.fixed_spec(
                y as int,
            ) && y != q2,
    ensures
        frame(b1.nodes@, b2.nodes@, s),
{
    assert forall|x: int, y: u32| s.contains(y) implies ((0 <= x < b1.nodes@.len()
        && b1.nodes@[x].check_spec() == y) == (0 <= x < b2.nodes@.len() && b2.nodes@[x].check_spec()
        == y)) by {
        assert(b1.checker.fixed_spec(y as int));
        if 0 <= x < b1.nodes@.len() {
            assert(b1.nodes@[x] == b1.nodes@[x]);
        }
        if 0 <= x < b2.nodes@.len() {
            assert(b2.nodes@[x] == b2.nodes@[x]);
        }
    }
    assert forall|y: u32| #[trigger] s.contains(y) implies b2.nodes@[y as int] == b1.nodes@[y as int] by {
        assert(b1.checker.fixed_spec(y as int));
    }
}

proof fn lemma_flag_value(v: u32)
    requires
        v <= OFFSET_MASK,
    ensures
        (v | FLAG_BIT) >= 0x8000_0000,
        ((v | FLAG_BIT) % 0x8000_0000) as u32 == v,
{
    assert((v | 0x8000_0000u32) >= 0x8000_0000u32 && (v | 0x8000_0000u32) % 0x8000_0000u32 == v)
        by (bit_vector)
        requires
            v <= 0x7fff_ffffu32,
    ;
}

proof fn lemma_flag_check(c: u32)
    ensures
        (c | FLAG_BIT) >= 0x8000_0000,
        (c | FLAG_BIT) % 0x8000_0000 == c % 0x8000_0000,
{
    assert((c | 0x8000_0000u32) >= 0x8000_0000u32 && (c | 0x8000_0000u32) % 0x8000_0000u32 == c
        % 0x8000_0000u32) by (bit_vector);
}

proof fn lemma_base_small(b: u32, l: u32)
    requires
        (b ^ l) <= 0x7fff_ffff,
        l <= 0x7fff_ffff,
    ensures
        b <= 0x7fff_ffff,
{
    assert(b <= 0x7fff_ffffu32) by (bit_vector)
        requires
            (b ^ l) <= 0x7fff_ffffu32,
            l <= 0x7fff_ffffu32,
    ;
}

/// The distinct labels of the keys `lo..hi` at depth `d`, in order, where
/// the keys of each begin, and the label index of each key.
#[verifier::rlimit(100)]
fn collect_labels(keys: &Vec<Vec<u32>>, lo: usize, hi: usize, depth: usize) -> (r: (
    Vec<u32>,
    Vec<usize>,
    Ghost<Seq<int>>,
))
    requires
        lo < hi <= keys@.len(),
        forall|k: int| lo <= k < hi ==> depth <= #[trigger] keys@[k]@.len(),
        forall|k: int| lo <= k < hi ==> (#[trigger] keys@[k]@).take(depth as int) == keys@[lo as int]@.take(depth as int),
        forall|k: int| lo <= k && k + 1 < hi ==> code_lt(#[trigger] keys@[k]@, keys@[k + 1]@),
        forall|k: int, d: int|
            0 <= k < keys@.len() && 0 <= d < keys@[k]@.len() ==> 1 <= #[trigger] keys@[k]@[d]
                <= 0x11_0000,
    ensures
        ({
            let (labels, starts, group) = r;
            let cs = code_seqs(keys@);
            &&& labels@.len() >= 1
            &&& starts@.len() == labels@.len() + 1
            &&& group@.len() == hi - lo
            &&& starts@[0] == lo
            &&& starts@[labels@.len() as int] == hi
            &&& forall|j: int| 0 <= j < labels@.len() ==> #[trigger] labels@[j] <= 0x11_0000
            &&& forall|j1: int, j2: int|
                0 <= j1 < j2 < labels@.len() ==> labels@[j1] < labels@[j2]
            &&& forall|j1: int, j2: int|
                0 <= j1 < j2 < starts@.len() ==> starts@[j1] < starts@[j2]
            &&& forall|j: int, k: int|
                #![trigger cs[k], starts@[j]]
                0 <= j < labels@.len() && starts@[j] <= k < starts@[j + 1] ==> label_at(
                    cs[k],
                    depth as int,
                ) == labels@[j]
            &&& forall|k: int|
                lo <= k < hi ==> 0 <= #[trigger] group@[k - lo] < labels@.len()
                    && starts@[group@[k - lo]] <= k < starts@[group@[k - lo] + 1]
        }),
{
    let ghost cs = code_seqs(keys@);
    let mut labels: Vec<u32> = Vec::new();
    let mut starts: Vec<usize> = Vec::new();
    let ghost mut group: Seq<int> = Seq::empty();
    for k in lo..hi
        invariant
            lo < hi <= keys@.len(),
            cs == code_seqs(keys@),
            forall|k: int| lo <= k < hi ==> depth <= #[trigger] keys@[k]@.len(),
            forall|k: int| lo <= k < hi ==> (#[trigger] keys@[k]@).take(depth as int) == keys@[lo as int]@.take(depth as int),
            forall|k: int| lo <= k && k + 1 < hi ==> code_lt(#[trigger] keys@[k]@, keys@[k + 1]@),
            forall|k: int, d: int|
                0 <= k < keys@.len() && 0 <= d < keys@[k]@.len() ==> 1 <= #[trigger] keys@[k]@[d]
                    <= 0x11_0000,
            labels@.len() == starts@.len(),
            group.len() == k - lo,
            k > lo ==> labels@.len() > 0,
            k > lo ==> labels@.last() == label_at(cs[k - 1], depth as int),
            starts@.len() > 0 ==> starts@[0] == lo,
            forall|j: int| 0 <= j < labels@.len() ==> #[trigger] labels@[j] <= 0x11_0000,
            forall|j: int| 0 <= j < starts@.len() ==> lo <= #[trigger] starts@[j] < k,
            forall|j1: int, j2: int|
                0 <= j1 < j2 < labels@.len() ==> labels@[j1] < labels@[j2],
            forall|j1: int, j2: int|
                0 <= j1 < j2 < starts@.len() ==> starts@[j1] < starts@[j2],
            forall|j: int, kk: int|
                #![trigger cs[kk], starts@[j]]
                0 <= j < labels@.len() && starts@[j] <= kk < (if j + 1 < starts@.len() {
                    starts@[j + 1] as int
                } else {
                    k as int
                }) ==> label_at(cs[kk], depth as int) == labels@[j],
            forall|kk: int|
                lo <= kk < k ==> 0 <= #[trigger] group[kk - lo] < labels@.len()
                    && starts@[group[kk - lo]] <= kk && (kk < (if group[kk - lo] + 1 < starts@.len() {
                    starts@[group[kk - lo] + 1] as int
                } else {
                    k as int
                })),
    {
        let key = &keys[k];
        let label = if key.len() == depth {
            END_CODE
        } else {
            key[depth]
        };
        proof {
            assert(cs[k as int] == keys@[k as int]@);
            assert(label == label_at(cs[k as int], depth as int));
            if k > lo {
                assert(cs[k - 1] == keys@[k - 1]@);
                lemma_label_step(keys@[k - 1]@, keys@[k as int]@, depth as int);
            }
        }
        if labels.len() == 0 || labels[labels.len() - 1] != label {
            labels.push(label);
            starts.push(k);
        }
        proof {
            group = group.push((labels@.len() - 1) as int);
        }
    }
    starts.push(hi);
    (labels, starts, Ghost(group))
}

/// After the children of `q` are placed and `q` is given its base: the
/// state that the recursion over the children starts from.
proof fn lemma_after_placing(
    a: Builder,
    f: Builder,
    pl: Builder,
    nn: Builder,
    q: u32,
    base: u32,
    labels: Seq<u32>,
    has_end: bool,
)
    requires
        a.wf(),
        f.wf(),
        pl.wf(),
        nn.wf(),
        (q as int) < a.nodes@.len(),
        a.checker.fixed_spec(q as int),
        !a.nodes@[q as int].has_leaf_spec(),
        forall|x: int| 0 <= x < a.nodes@.len() ==> #[trigger] a.nodes@[x].check_spec() != q,
        a.keeps_prefix(&f, a.nodes@.len() as int),
        forall|y: int| a.nodes@.len() <= y < f.nodes@.len() ==> !#[trigger] f.checker.fixed_spec(y),
        labels.len() >= 1,
        forall|j1: int, j2: int| 0 <= j1 < j2 < labels.len() ==> labels[j1] < labels[j2],
        forall|j: int|
            0 <= j < labels.len() ==> ((base ^ #[trigger] labels[j]) as int) < f.nodes@.len()
                && !f.checker.fixed_spec((base ^ labels[j]) as int),
        pl.nodes@.len() == f.nodes@.len(),
        forall|j: int|
            0 <= j < labels.len() ==> pl.nodes@[(base ^ #[trigger] labels[j]) as int] == (Node {
                base: OFFSET_MASK,
                check: q,
            }) && pl.checker.fixed_spec((base ^ labels[j]) as int),
        forall|y: int|
            0 <= y < f.nodes@.len() && !is_child_slot(base, labels, y) ==> #[trigger] pl.nodes@[y]
                == f.nodes@[y],
        forall|y: int|
            0 <= y < f.nodes@.len() && !is_child_slot(base, labels, y)
                ==> #[trigger] pl.checker.fixed_spec(y) == f.checker.fixed_spec(y),
        forall|y: int|
            0 <= y < f.nodes@.len() && f.checker.fixed_spec(y) ==> #[trigger] pl.checker.fixed_spec(y),
        nn.checker == pl.checker,
        nn.nodes@.len() == pl.nodes@.len(),
        nn.nodes@[q as int].base_spec() == base,
        !nn.nodes@[q as int].leaf_spec(),
        nn.nodes@[q as int].has_leaf_spec() == (has_end || pl.nodes@[q as int].has_leaf_spec()),
        nn.nodes@[q as int].check_spec() == pl.nodes@[q as int].check_spec(),
        has_end == (labels[0] == END_CODE),
        has_end ==> base == (base ^ labels[0]),
        has_end ==> nn.nodes@[base as int].check_spec() == q && nn.nodes@[base as int].leaf_spec(),
        forall|y: int|
            0 <= y < pl.nodes@.len() && y != q && !(has_end && y == base) ==> #[trigger] nn.nodes@[y]
                == pl.nodes@[y],
    ensures
        kept(a, nn, q),
        nn.nodes@[q as int].has_leaf_spec() == has_end,
        forall|j: int|
            0 <= j < labels.len() ==> ((base ^ #[trigger] labels[j]) as int) < nn.nodes@.len()
                && nn.checker.fixed_spec((base ^ labels[j]) as int) && !(((base ^ labels[j]) as int)
                < a.nodes@.len() && a.checker.fixed_spec((base ^ labels[j]) as int)),
        forall|j: int|
            0 <= j < labels.len() && #[trigger] labels[j] != END_CODE ==> nn.nodes@[(base
                ^ labels[j]) as int] == (Node { base: OFFSET_MASK, check: q }),
        forall|j: int, x: int|
            #![trigger labels[j], nn.nodes@[x]]
            0 <= j < labels.len() && 0 <= x < nn.nodes@.len() ==> nn.nodes@[x].check_spec() != (base
                ^ labels[j]),
        forall|x: int|
            0 <= x < nn.nodes@.len() ==> ((#[trigger] nn.nodes@[x].check_spec() == q)
                == is_child_slot(base, labels, x)),
        forall|y: int|
            0 <= y < nn.nodes@.len() && nn.checker.fixed_spec(y) && !(y < a.nodes@.len()
                && a.checker.fixed_spec(y)) ==> #[trigger] is_child_slot(base, labels, y),
{
    assert(pl.nodes@[q as int] == f.nodes@[q as int]) by {
        if is_child_slot(base, labels, q as int) {
            let j = choose|j: int| 0 <= j < labels.len() && q as int == (base ^ #[trigger] labels[j]) as int;
            assert(f.checker.fixed_spec(q as int));
        }
    }
    assert forall|j: int|
        0 <= j < labels.len() && #[trigger] labels[j] != END_CODE implies nn.nodes@[(base
            ^ labels[j]) as int] == (Node { base: OFFSET_MASK, check: q }) by {
        let x = base ^ labels[j];
        if x == q {
            assert(f.checker.fixed_spec(q as int));
        }
        if has_end && x == base {
            lemma_xor_cancel(base, labels[j], labels[0]);
        }
    }
    assert forall|x: int|
        0 <= x < nn.nodes@.len() implies ((#[trigger] nn.nodes@[x].check_spec() == q)
            == is_child_slot(base, labels, x)) by {
        if is_child_slot(base, labels, x) {
            let j = choose|j: int| 0 <= j < labels.len() && x == (base ^ #[trigger] labels[j]) as int;
            if has_end && x == base as int {
            } else if x == q as int {
                assert(f.checker.fixed_spec(q as int));
            } else {
                assert(pl.nodes@[x].check_spec() == q);
            }
        } else if x == q as int {
        } else if has_end && x == base as int {
            assert(is_child_slot(base, labels, x));
        } else {
            assert(nn.nodes@[x] == f.nodes@[x]);
            if x < a.nodes@.len() {
                assert(f.nodes@[x] == a.nodes@[x]);
            } else {
                assert(f.nodes@[x].vacant_spec());
            }
        }
    }
    assert forall|j: int, x: int|
        #![trigger labels[j], nn.nodes@[x]]
        0 <= j < labels.len() && 0 <= x < nn.nodes@.len() implies nn.nodes@[x].check_spec() != (base
            ^ labels[j]) by {
        let yj = base ^ labels[j];
        if nn.nodes@[x].check_spec() == yj {
            if nn.nodes@[x].check_spec() == q {
                assert(f.checker.fixed_spec(q as int));
            } else if x == q as int {
                assert(a.nodes@[x].check_spec() == nn.nodes@[x].check_spec());
                assert(a.checker.fixed_spec(yj as int));
            } else {
                assert(!is_child_slot(base, labels, x));
                if has_end && x == base as int {
                    assert(is_child_slot(base, labels, x));
                }
                assert(nn.nodes@[x] == f.nodes@[x]);
                if f.checker.fixed_spec(x) {
                    assert(f.checker.fixed_spec(yj as int));
                } else {
                    assert(f.nodes@[x].vacant_spec());
                }
            }
        }
    }
    assert forall|y: int|
        0 <= y < nn.nodes@.len() && nn.checker.fixed_spec(y) && !(y < a.nodes@.len()
            && a.checker.fixed_spec(y)) implies #[trigger] is_child_slot(base, labels, y) by {
        if !is_child_slot(base, labels, y) {
            assert(pl.checker.fixed_spec(y) == f.checker.fixed_spec(y));
        }
    }
    assert(kept(a, nn, q)) by {
        assert forall|y: int| 0 <= y < a.nodes@.len() && a.checker.fixed_spec(y) implies #[trigger] nn.checker.fixed_spec(y) by {
            assert(f.checker.fixed_spec(y));
            assert(pl.checker.fixed_spec(y));
        }
        assert forall|y: int| 0 <= y < a.nodes@.len() && a.checker.fixed_spec(y) && y != q implies #[trigger] nn.nodes@[y]
            == a.nodes@[y] by {
            assert(f.checker.fixed_spec(y));
            if is_child_slot(base, labels, y) {
                let j = choose|j: int| 0 <= j < labels.len() && y == (base ^ #[trigger] labels[j]) as int;
            }
            if has_end && y == base as int {
                assert(is_child_slot(base, labels, y));
            }
        }
        assert forall|x: int, y: u32|
            (y as int) < a.nodes@.len() && a.checker.fixed_spec(y as int) && y != q implies ((0 <= x
                < a.nodes@.len() && a.nodes@[x].check_spec() == y) == (0 <= x < nn.nodes@.len()
                && nn.nodes@[x].check_spec() == y)) by {
            assert(f.checker.fixed_spec(y as int));
            if 0 <= x < nn.nodes@.len() {
                if is_child_slot(base, labels, x) {
                    let j = choose|j: int| 0 <= j < labels.len() && x == (base ^ #[trigger] labels[j]) as int;
                    assert(nn.nodes@[x].check_spec() == q);
                    if x < a.nodes@.len() {
                        assert(!a.checker.fixed_spec(x));
                        assert(a.nodes@[x].vacant_spec());
                    }
                } else if x == q as int {
                    assert(nn.nodes@[x].check_spec() == a.nodes@[x].check_spec());
                } else {
                    if has_end && x == base as int {
                        assert(is_child_slot(base, labels, x));
                    }
                    assert(nn.nodes@[x] == f.nodes@[x]);
                    if x >= a.nodes@.len() {
                        assert(f.nodes@[x].vacant_spec());
                    }
                }
            }
        }
    }
}

/// Once every child of `q` is placed, `q` answers for its keys, and the
/// slots it took are closed.
proof fn lemma_arrange_done(
    a: Builder,
    nn: Builder,
    fin: Builder,
    q: u32,
    base: u32,
    labels: Seq<u32>,
    starts: Seq<usize>,
    group: Seq<int>,
    sets: Seq<Set<u32>>,
    cs: Seq<Seq<u32>>,
    vals: Seq<u32>,
    lo: int,
    hi: int,
    d: int,
    has_end: bool,
)
    requires
        0 <= lo < hi <= cs.len(),
        vals.len() == cs.len(),
        0 <= d,
        labels.len() >= 1,
        sets.len() == labels.len(),
        starts.len() == labels.len() + 1,
        group.len() == hi - lo,
        starts[0] == lo,
        starts[labels.len() as int] == hi,
        has_end == (labels[0] == END_CODE),
        forall|j1: int, j2: int| 0 <= j1 < j2 < labels.len() ==> labels[j1] < labels[j2],
        forall|j1: int, j2: int| 0 <= j1 < j2 < starts.len() ==> starts[j1] < starts[j2],
        forall|j: int, k: int|
            #![trigger cs[k], starts[j]]
            0 <= j < labels.len() && starts[j] <= k < starts[j + 1] ==> label_at(cs[k], d)
                == labels[j],
        forall|k: int|
            lo <= k < hi ==> 0 <= #[trigger] group[k - lo] < labels.len() && starts[group[k - lo]]
                <= k < starts[group[k - lo] + 1],
        forall|k: int| lo <= k < hi ==> d <= #[trigger] cs[k].len(),
        forall|k: int, i: int| 0 <= k < cs.len() && 0 <= i < cs[k].len() ==> 1 <= #[trigger] cs[k][i],
        (q as int) < nn.nodes@.len(),
        nn.nodes@.len() >= a.nodes@.len(),
        fin.nodes@.len() >= nn.nodes@.len(),
        fin.nodes@[q as int] == nn.nodes@[q as int],
        nn.nodes@[q as int].base_spec() == base,
        !nn.nodes@[q as int].leaf_spec(),
        nn.nodes@[q as int].has_leaf_spec() == has_end,
        has_end ==> base == (base ^ labels[0]),
        has_end ==> fin.nodes@[base as int] == nn.nodes@[base as int],
        has_end ==> nn.nodes@[base as int].leaf_spec() && nn.nodes@[base as int].base_spec() == vals[lo],
        forall|y: int|
            0 <= y < a.nodes@.len() && a.checker.fixed_spec(y) ==> #[trigger] nn.checker.fixed_spec(y),
        forall|y: int|
            0 <= y < nn.nodes@.len() && nn.checker.fixed_spec(y) ==> #[trigger] fin.checker.fixed_spec(y),
        forall|j: int|
            0 <= j < labels.len() ==> ((base ^ #[trigger] labels[j]) as int) < nn.nodes@.len()
                && nn.checker.fixed_spec((base ^ labels[j]) as int) && !(((base ^ labels[j]) as int)
                < a.nodes@.len() && a.checker.fixed_spec((base ^ labels[j]) as int)),
        forall|y: int|
            0 <= y < nn.nodes@.len() && nn.checker.fixed_spec(y) && !(y < a.nodes@.len()
                && a.checker.fixed_spec(y)) ==> #[trigger] is_child_slot(base, labels, y),
        forall|x: int|
            0 <= x < fin.nodes@.len() ==> ((#[trigger] fin.nodes@[x].check_spec() == q)
                == is_child_slot(base, labels, x)),
        forall|j: int|
            0 <= j < labels.len() && #[trigger] labels[j] != END_CODE ==> subtree_ok(
                fin.nodes@,
                base ^ labels[j],
                cs,
                vals,
                starts[j] as int,
                starts[j + 1] as int,
                d + 1,
            ) && closed(fin.nodes@, sets[j]) && sets[j].contains(base ^ labels[j]),
        forall|j: int| 0 <= j < labels.len() && labels[j] == END_CODE ==> sets[j] == Set::<u32>::empty(),
        forall|j: int, y: u32|
            0 <= j < labels.len() && #[trigger] sets[j].contains(y) ==> (y as int) < fin.nodes@.len()
                && fin.checker.fixed_spec(y as int) && (y == (base ^ labels[j]) || !((y as int)
                < nn.nodes@.len() && nn.checker.fixed_spec(y as int))),
        forall|y: u32|
            #[trigger] newly_fixed(nn, fin, y) ==> exists|j: int|
                0 <= j < labels.len() && #[trigger] sets[j].contains(y),
    ensures
        subtree_ok(fin.nodes@, q, cs, vals, lo, hi, d),
        closed(fin.nodes@, owned(a, fin, q)),
{
    let starts_i = starts.map_values(|x: usize| x as int);
    assert(base ^ END_CODE == base) by {
        assert(base ^ 0u32 == base) by (bit_vector);
    }
    assert(node_ready(fin.nodes@, q, base, labels, starts_i, group, cs, vals, lo, hi, d)) by {
        reveal(node_ready);
        assert forall|j: int|
            0 <= j < labels.len() implies ((base ^ #[trigger] labels[j]) as int) < fin.nodes@.len()
                && fin.nodes@[(base ^ labels[j]) as int].check_spec() == q by {
            assert(is_child_slot(base, labels, (base ^ labels[j]) as int));
        }
        assert forall|x: int|
            0 <= x < fin.nodes@.len() && #[trigger] fin.nodes@[x].check_spec() == q implies exists|j: int|
                0 <= j < labels.len() && x == (base ^ #[trigger] labels[j]) as int by {
            assert(is_child_slot(base, labels, x));
        }
    }
    lemma_node_subtree(fin.nodes@, q, base, labels, starts_i, group, cs, vals, lo, hi, d);
    let own = owned(a, fin, q);
    // The slots of each child's set belong to `q`.
    assert forall|j: int, z: u32| 0 <= j < labels.len() && #[trigger] sets[j].contains(z) implies own.contains(z) by {
        if z == (base ^ labels[j]) {
        } else {
            if (z as int) < a.nodes@.len() && a.checker.fixed_spec(z as int) {
                assert(nn.checker.fixed_spec(z as int));
            }
        }
        assert(newly_fixed(a, fin, z));
    }
    assert forall|y: u32| #[trigger] own.contains(y) implies {
        &&& (y as int) < fin.nodes@.len()
        &&& forall|c: u32|
            #[trigger] child_of(fin.nodes@, y, c) is Some ==> own.contains(child_of(fin.nodes@, y, c)->0)
        &&& (!fin.nodes@[y as int].leaf_spec() && fin.nodes@[y as int].has_leaf_spec()) ==> own.contains(
            fin.nodes@[y as int].base_spec() ^ END_CODE,
        )
    } by {
        if y == q {
            assert forall|c: u32| #[trigger] child_of(fin.nodes@, y, c) is Some implies own.contains(
                child_of(fin.nodes@, y, c)->0,
            ) by {
                let x = child_of(fin.nodes@, y, c)->0;
                assert(fin.nodes@[x as int].check_spec() == q);
                assert(is_child_slot(base, labels, x as int));
                let j = choose|j: int| 0 <= j < labels.len() && x as int == (base ^ #[trigger] labels[j]) as int;
                assert(newly_fixed(a, fin, x));
            }
            if fin.nodes@[y as int].has_leaf_spec() {
                assert(newly_fixed(a, fin, base ^ labels[0]));
            }
        } else if newly_fixed(nn, fin, y) {
            let j = choose|j: int| 0 <= j < labels.len() && #[trigger] sets[j].contains(y);
            assert(labels[j] != END_CODE);
            assert(closed(fin.nodes@, sets[j]));
            assert forall|c: u32| #[trigger] child_of(fin.nodes@, y, c) is Some implies own.contains(
                child_of(fin.nodes@, y, c)->0,
            ) by {
                assert(sets[j].contains(child_of(fin.nodes@, y, c)->0));
            }
            if !fin.nodes@[y as int].leaf_spec() && fin.nodes@[y as int].has_leaf_spec() {
                assert(sets[j].contains(fin.nodes@[y as int].base_spec() ^ END_CODE));
            }
        } else {
            assert(newly_fixed(a, fin, y));
            assert(is_child_slot(base, labels, y as int));
            let j = choose|j: int| 0 <= j < labels.len() && y as int == (base ^ #[trigger] labels[j]) as int;
            if labels[j] == END_CODE {
                assert(j == 0) by {
                    if j > 0 {
                        assert(labels[0] < labels[j]);
                    }
                }
                assert(fin.nodes@[y as int].leaf_spec());
                assert forall|c: u32| #[trigger] child_of(fin.nodes@, y, c) is Some implies own.contains(
                    child_of(fin.nodes@, y, c)->0,
                ) by {
                }
            } else {
                assert(sets[j].contains(y));
                assert(closed(fin.nodes@, sets[j]));
                assert forall|c: u32| #[trigger] child_of(fin.nodes@, y, c) is Some implies own.contains(
                    child_of(fin.nodes@, y, c)->0,
                ) by {
                    assert(sets[j].contains(child_of(fin.nodes@, y, c)->0));
                }
                if !fin.nodes@[y as int].leaf_spec() && fin.nodes@[y as int].has_leaf_spec() {
                    assert(sets[j].contains(fin.nodes@[y as int].base_spec() ^ END_CODE));
                }
            }
        }
    }
}

/// After the child `j` of `q` is placed: the recursion's facts hold again,
/// with the slots that the child took added as set `j`.
proof fn lemma_child_step(
    a: Builder,
    nn: Builder,
    cur: Builder,
    nxt: Builder,
    q: u32,
    base: u32,
    labels: Seq<u32>,
    starts: Seq<usize>,
    sets: Seq<Set<u32>>,
    cs: Seq<Seq<u32>>,
    vals: Seq<u32>,
    d: int,
    j: int,
)
    requires
        0 <= j < labels.len(),
        sets.len() == j,
        starts.len() == labels.len() + 1,
        labels[j] != END_CODE,
        forall|j1: int, j2: int| 0 <= j1 < j2 < labels.len() ==> labels[j1] < labels[j2],
        kept(a, cur, q),
        kept(cur, nxt, base ^ labels[j]),
        subtree_ok(nxt.nodes@, base ^ labels[j], cs, vals, starts[j] as int, starts[j + 1] as int, d + 1),
        closed(nxt.nodes@, owned(cur, nxt, base ^ labels[j])),
        (q as int) < a.nodes@.len(),
        a.checker.fixed_spec(q as int),
        cur.nodes@.len() >= nn.nodes@.len(),
        forall|y: int|
            0 <= y < nn.nodes@.len() && nn.checker.fixed_spec(y) ==> #[trigger] cur.checker.fixed_spec(y),
        forall|jj: int|
            0 <= jj < labels.len() ==> ((base ^ #[trigger] labels[jj]) as int) < nn.nodes@.len()
                && nn.checker.fixed_spec((base ^ labels[jj]) as int) && !(((base ^ labels[jj]) as int)
                < a.nodes@.len() && a.checker.fixed_spec((base ^ labels[jj]) as int)),
        forall|jj: int|
            j <= jj < labels.len() ==> cur.nodes@[(base ^ #[trigger] labels[jj]) as int]
                == nn.nodes@[(base ^ labels[jj]) as int],
        forall|jj: int, x: int|
            #![trigger labels[jj], cur.nodes@[x]]
            j <= jj < labels.len() && 0 <= x < cur.nodes@.len() ==> cur.nodes@[x].check_spec()
                != (base ^ labels[jj]),
        forall|x: int|
            0 <= x < cur.nodes@.len() ==> ((#[trigger] cur.nodes@[x].check_spec() == q)
                == is_child_slot(base, labels, x)),
        forall|jj: int|
            0 <= jj < j && #[trigger] labels[jj] != END_CODE ==> subtree_ok(
                cur.nodes@,
                base ^ labels[jj],
                cs,
                vals,
                starts[jj] as int,
                starts[jj + 1] as int,
                d + 1,
            ) && closed(cur.nodes@, sets[jj]) && sets[jj].contains(base ^ labels[jj]),
        forall|jj: int, y: u32|
            0 <= jj < j && #[trigger] sets[jj].contains(y) ==> (y as int) < cur.nodes@.len()
                && cur.checker.fixed_spec(y as int) && (y == (base ^ labels[jj]) || !((y as int)
                < nn.nodes@.len() && nn.checker.fixed_spec(y as int))),
        forall|y: u32|
            #[trigger] newly_fixed(nn, cur, y) ==> exists|jj: int|
                0 <= jj < j && #[trigger] sets[jj].contains(y),
    ensures
        ({
            let s2 = sets.push(owned(cur, nxt, base ^ labels[j]));
            &&& kept(a, nxt, q)
            &&& nxt.nodes@.len() >= nn.nodes@.len()
            &&& forall|y: int|
                0 <= y < nn.nodes@.len() && nn.checker.fixed_spec(y) ==> #[trigger] nxt.checker.fixed_spec(y)
            &&& forall|jj: int|
                j + 1 <= jj < labels.len() ==> nxt.nodes@[(base ^ #[trigger] labels[jj]) as int]
                    == nn.nodes@[(base ^ labels[jj]) as int]
            &&& forall|jj: int, x: int|
                #![trigger labels[jj], nxt.nodes@[x]]
                j + 1 <= jj < labels.len() && 0 <= x < nxt.nodes@.len() ==> nxt.nodes@[x].check_spec()
                    != (base ^ labels[jj])
            &&& nxt.nodes@[q as int] == cur.nodes@[q as int]
            &&& forall|x: int|
                0 <= x < nxt.nodes@.len() ==> ((#[trigger] nxt.nodes@[x].check_spec() == q)
                    == is_child_slot(base, labels, x))
            &&& forall|jj: int|
                0 <= jj < j + 1 && #[trigger] labels[jj] != END_CODE ==> subtree_ok(
                    nxt.nodes@,
                    base ^ labels[jj],
                    cs,
                    vals,
                    starts[jj] as int,
                    starts[jj + 1] as int,
                    d + 1,
                ) && closed(nxt.nodes@, s2[jj]) && s2[jj].contains(base ^ labels[jj])
            &&& forall|jj: int, y: u32|
                0 <= jj < j + 1 && #[trigger] s2[jj].contains(y) ==> (y as int) < nxt.nodes@.len()
                    && nxt.checker.fixed_spec(y as int) && (y == (base ^ labels[jj]) || !((y as int)
                    < nn.nodes@.len() && nn.checker.fixed_spec(y as int)))
            &&& forall|y: u32|
                #[trigger] newly_fixed(nn, nxt, y) ==> exists|jj: int|
                    0 <= jj < j + 1 && #[trigger] s2[jj].contains(y)
        }),
{
    let child_idx = base ^ labels[j];
    let s2 = sets.push(owned(cur, nxt, child_idx));
    lemma_kept_trans(a, cur, nxt, q, child_idx);
    assert(cur.checker.fixed_spec(q as int));
    assert forall|jj: int|
        0 <= jj < j && #[trigger] labels[jj] != END_CODE implies subtree_ok(
            nxt.nodes@,
            base ^ labels[jj],
            cs,
            vals,
            starts[jj] as int,
            starts[jj + 1] as int,
            d + 1,
        ) && closed(nxt.nodes@, sets[jj]) by {
        assert forall|y: u32| #[trigger] sets[jj].contains(y) implies (y as int) < cur.nodes@.len()
            && cur.checker.fixed_spec(y as int) && y != child_idx by {
            if y == child_idx {
                if y == (base ^ labels[jj]) {
                    lemma_xor_cancel(base, labels[jj], labels[j]);
                }
            }
        }
        lemma_kept_frame(cur, nxt, child_idx, sets[jj]);
        lemma_frame_subtree(
            cur.nodes@,
            nxt.nodes@,
            sets[jj],
            base ^ labels[jj],
            cs,
            vals,
            starts[jj] as int,
            starts[jj + 1] as int,
            d + 1,
        );
    }
    assert forall|jj: int|
        j + 1 <= jj < labels.len() implies nxt.nodes@[(base ^ #[trigger] labels[jj]) as int]
            == nn.nodes@[(base ^ labels[jj]) as int] by {
        lemma_xor_cancel(base, labels[jj], labels[j]);
        assert(cur.checker.fixed_spec((base ^ labels[jj]) as int));
    }
    assert forall|jj: int, x: int|
        #![trigger labels[jj], nxt.nodes@[x]]
        j + 1 <= jj < labels.len() && 0 <= x < nxt.nodes@.len() implies nxt.nodes@[x].check_spec()
            != (base ^ labels[jj]) by {
        let yy = base ^ labels[jj];
        lemma_xor_cancel(base, labels[jj], labels[j]);
        assert(cur.checker.fixed_spec(yy as int));
        if 0 <= x < cur.nodes@.len() {
            assert(cur.nodes@[x].check_spec() != yy);
        }
    }
    assert(q != child_idx);
    assert forall|x: int|
        0 <= x < nxt.nodes@.len() implies ((#[trigger] nxt.nodes@[x].check_spec() == q)
            == is_child_slot(base, labels, x)) by {
        if 0 <= x < cur.nodes@.len() {
            assert(cur.nodes@[x] == cur.nodes@[x]);
        }
    }
    assert forall|jj: int, y: u32|
        0 <= jj < j + 1 && #[trigger] s2[jj].contains(y) implies (y as int) < nxt.nodes@.len()
            && nxt.checker.fixed_spec(y as int) && (y == (base ^ labels[jj]) || !((y as int)
            < nn.nodes@.len() && nn.checker.fixed_spec(y as int))) by {
        if jj == j {
            if y != child_idx {
                assert(newly_fixed(cur, nxt, y));
            } else {
                assert(cur.checker.fixed_spec(y as int));
            }
        } else {
            assert(sets[jj].contains(y));
            assert(cur.checker.fixed_spec(y as int));
        }
    }
    assert forall|y: u32| #[trigger] newly_fixed(nn, nxt, y) implies exists|jj: int|
        0 <= jj < j + 1 && #[trigger] s2[jj].contains(y) by {
        if newly_fixed(cur, nxt, y) {
            assert(s2[j].contains(y));
        } else {
            assert(newly_fixed(nn, cur, y));
            let jj = choose|jj: int| 0 <= jj < j && #[trigger] sets[jj].contains(y);
            assert(s2[jj].contains(y));
        }
    }
    assert forall|jj: int|
        0 <= jj < j + 1 && #[trigger] labels[jj] != END_CODE implies subtree_ok(
            nxt.nodes@,
            base ^ labels[jj],
            cs,
            vals,
            starts[jj] as int,
            starts[jj + 1] as int,
            d + 1,
        ) && closed(nxt.nodes@, s2[jj]) && s2[jj].contains(base ^ labels[jj]) by {
        if jj < j {
            assert(s2[jj] == sets[jj]);
        }
    }
}

/// The value of the first key of `keys[lo..]` that equals `s`.
pub open spec fn stored_from(keys: Seq<Seq<char>>, vals: Seq<u32>, lo: int, s: Seq<char>) -> Option<
    u32,
>
    decreases keys.len() - lo,
{
    if lo < 0 || lo >= keys.len() {
        None
    } else if keys[lo] == s {
        Some(vals[lo])
    } else {
        stored_from(keys, vals, lo + 1, s)
    }
}

/// The value stored with `s`: that of the first key equal to `s`, if any.
pub open spec fn stored_value(keys: Seq<Seq<char>>, vals: Seq<u32>, s: Seq<char>) -> Option<u32> {
    stored_from(keys, vals, 0, s)
}

/// Characters with the same scalar value are equal.
proof fn lemma_scalar_injective(a: char, b: char)
    ensures
        ((a as u32) == (b as u32)) == (a == b),
{
    assert(((a as u32) as char) == a);
    assert(((b as u32) as char) == b);
}

/// Of two different character sequences, one is less than the other.
pub(crate) proof fn lemma_key_lt_total(a: Seq<char>, b: Seq<char>)
    requires
        a != b,
    ensures
        key_lt(a, b) || key_lt(b, a),
    decreases a.len(),
{
    if a.len() > 0 && b.len() > 0 && a[0] == b[0] {
        if a.drop_first() == b.drop_first() {
            assert(a =~= seq![a[0]] + a.drop_first());
            assert(b =~= seq![b[0]] + b.drop_first());
        }
        lemma_key_lt_total(a.drop_first(), b.drop_first());
    } else if a.len() > 0 && b.len() > 0 {
        lemma_scalar_injective(a[0], b[0]);
    } else if a.len() == 0 && b.len() == 0 {
        assert(a =~= b);
    }
}

/// The order of keys carries over to their codes.
proof fn lemma_lt_to_codes(mapper: CodeMapper, a: Seq<char>, ca: Seq<u32>, b: Seq<char>, cb: Seq<u32>)
    requires
        mapper.wf(),
        key_lt(a, b),
        ca.len() == a.len(),
        cb.len() == b.len(),
        forall|i: int| 0 <= i < a.len() ==> Some(#[trigger] ca[i]) == mapper.code_spec(a[i]),
        forall|i: int| 0 <= i < b.len() ==> Some(#[trigger] cb[i]) == mapper.code_spec(b[i]),
    ensures
        code_lt(ca, cb),
    decreases a.len(),
{
    if a.len() > 0 && b.len() > 0 {
        assert(Some(ca[0]) == mapper.code_spec(a[0]));
        assert(Some(cb[0]) == mapper.code_spec(b[0]));
        if a[0] != b[0] {
            assert((a[0] as u32) < (b[0] as u32));
        } else {
            lemma_lt_to_codes(mapper, a.drop_first(), ca.drop_first(), b.drop_first(), cb.drop_first());
        }
    }
}

/// The codes of key `k` are those of `s` exactly when the key is `s`.
proof fn lemma_codes_match(mapper: CodeMapper, key: Seq<char>, codes: Seq<u32>, s: Seq<char>)
    requires
        mapper.wf(),
        codes.len() == key.len(),
        forall|i: int| 0 <= i < key.len() ==> Some(#[trigger] codes[i]) == mapper.code_spec(key[i]),
    ensures
        (opt_codes(codes) == mapper.map_spec(s)) == (key == s),
{
    if key == s {
        assert(opt_codes(codes) =~= mapper.map_spec(s));
    }
    if opt_codes(codes) == mapper.map_spec(s) {
        assert(s.len() == key.len()) by {
            assert(opt_codes(codes).len() == mapper.map_spec(s).len());
        }
        assert forall|i: int| 0 <= i < key.len() implies key[i] == s[i] by {
            assert(opt_codes(codes)[i] == mapper.map_spec(s)[i]);
            assert(opt_codes(codes)[i] == Some(codes[i]));
            assert(mapper.map_spec(s)[i] == mapper.code_spec(s[i]));
            assert(Some(codes[i]) == mapper.code_spec(key[i]));
            assert(mapper.code_spec(s[i]) == mapper.code_spec(key[i]));
            if (key[i] as u32) < (s[i] as u32) {
            } else if (s[i] as u32) < (key[i] as u32) {
            }
            lemma_scalar_injective(key[i], s[i]);
        }
        assert(key =~= s);
    }
}

proof fn lemma_range_stored(
    mapper: CodeMapper,
    ks: Seq<Seq<char>>,
    cs: Seq<Seq<u32>>,
    vals: Seq<u32>,
    lo: int,
    s: Seq<char>,
)
    requires
        mapper.wf(),
        cs.len() == ks.len(),
        0 <= lo <= ks.len(),
        forall|k: int|
            0 <= k < cs.len() ==> #[trigger] cs[k].len() == ks[k].len() && forall|d: int|
                0 <= d < cs[k].len() ==> Some(#[trigger] cs[k][d]) == mapper.code_spec(ks[k][d]),
    ensures
        range_value(cs, vals, lo, ks.len() as int, 0, mapper.map_spec(s)) == stored_from(ks, vals, lo, s),
    decreases ks.len() - lo,
{
    if lo < ks.len() {
        assert(cs[lo].skip(0) =~= cs[lo]);
        assert(cs[lo].len() == ks[lo].len());
        lemma_codes_match(mapper, ks[lo], cs[lo], s);
        lemma_range_stored(mapper, ks, cs, vals, lo + 1, s);
    }
}

/// Slots by which placing one node may grow the table when every label is
/// below `2^bits`: a window past the table's end aligned to `2^bits`, and
/// the labels' span.
pub open spec fn node_growth(bits: u64) -> int {
    2 * ((1u64 << bits) as int) + 64
}

proof fn lemma_node_growth(bits: u64)
    requires
        6 <= bits <= 22,
    ensures
        64 <= (1u64 << bits) as int <= 0x40_0000,
        node_growth(bits) >= 64,
{
    assert(64 <= (1u64 << bits) <= 0x40_0000) by (bit_vector)
        requires
            6 <= bits <= 22,
    ;
}

/// The least `k` from `from` on (at most 40) such that `2^k` exceeds `n`.
pub open spec fn span_bits(n: int, from: u64) -> u64
    decreases 40 - from,
{
    if from >= 40 || ((1u64 << from) as int) > n {
        from
    } else {
        span_bits(n, (from + 1) as u64)
    }
}

proof fn lemma_span_bits(n: int, from: u64)
    requires
        6 <= from <= 21,
        0 <= n <= 0x11_0000,
    ensures
        from <= span_bits(n, from) <= 21,
        ((1u64 << span_bits(n, from)) as int) > n,
    decreases 40 - from,
{
    assert((1u64 << 21u64) == 0x20_0000) by (bit_vector);
    if ((1u64 << from) as int) <= n {
        assert(from < 21);
        lemma_span_bits(n, (from + 1) as u64);
    }
}

/// One more than the largest scalar value among the characters of `s`.
pub open spec fn key_span(s: Seq<char>) -> nat
    decreases s.len(),
{
    if s.len() == 0 {
        0
    } else {
        let m = key_span(s.drop_last());
        let c = (s.last() as u32) as nat + 1;
        if c > m {
            c
        } else {
            m
        }
    }
}

/// One more than the largest scalar value among the characters of the keys.
pub open spec fn keys_span(ks: Seq<Seq<char>>) -> nat
    decreases ks.len(),
{
    if ks.len() == 0 {
        0
    } else {
        let m = keys_span(ks.drop_last());
        let c = key_span(ks.last());
        if c > m {
            c
        } else {
            m
        }
    }
}

proof fn lemma_scalar_bound(c: char)
    ensures
        (c as u32) <= 0x10_ffff,
{
}

proof fn lemma_key_span(s: Seq<char>)
    ensures
        forall|d: int| 0 <= d < s.len() ==> ((#[trigger] s[d]) as u32) < key_span(s),
        key_span(s) <= 0x11_0000,
    decreases s.len(),
{
    if s.len() > 0 {
        lemma_key_span(s.drop_last());
        lemma_scalar_bound(s.last());
        assert forall|d: int| 0 <= d < s.len() implies ((#[trigger] s[d]) as u32) < key_span(s) by {
            if d < s.len() - 1 {
                assert(s[d] == s.drop_last()[d]);
            }
        }
    }
}

proof fn lemma_keys_span(ks: Seq<Seq<char>>)
    ensures
        forall|k: int, d: int|
            0 <= k < ks.len() && 0 <= d < ks[k].len() ==> ((#[trigger] ks[k][d]) as u32) < keys_span(ks),
        keys_span(ks) <= 0x11_0000,
    decreases ks.len(),
{
    if ks.len() > 0 {
        lemma_keys_span(ks.drop_last());
        lemma_key_span(ks.last());
        assert forall|k: int, d: int|
            0 <= k < ks.len() && 0 <= d < ks[k].len() implies ((#[trigger] ks[k][d]) as u32) < keys_span(ks) by {
            if k < ks.len() - 1 {
                assert(ks[k] == ks.drop_last()[k]);
            }
        }
    }
}

/// The length of the longest code sequence.
pub open spec fn max_key_len(codes: Seq<Vec<u32>>) -> nat
    decreases codes.len(),
{
    if codes.len() == 0 {
        0
    } else {
        let m = max_key_len(codes.drop_last());
        let l = codes.last()@.len();
        if l > m {
            l
        } else {
            m
        }
    }
}

proof fn lemma_max_key_len(codes: Seq<Vec<u32>>)
    ensures
        forall|k: int| 0 <= k < codes.len() ==> #[trigger] codes[k]@.len() <= max_key_len(codes),
        codes.len() > 0 ==> exists|k: int| 0 <= k < codes.len() && codes[k]@.len() == max_key_len(codes),
    decreases codes.len(),
{
    if codes.len() > 0 {
        lemma_max_key_len(codes.drop_last());
        if codes.last()@.len() <= max_key_len(codes.drop_last()) && codes.len() > 1 {
            let k = choose|k: int| 0 <= k < codes.drop_last().len() && codes.drop_last()[k]@.len()
                == max_key_len(codes.drop_last());
            assert(codes[k] == codes.drop_last()[k]);
        }
        assert forall|k: int| 0 <= k < codes.len() implies #[trigger] codes[k]@.len()
            <= max_key_len(codes) by {
            if k < codes.len() - 1 {
                assert(codes[k] == codes.drop_last()[k]);
            }
        }
    }
}

proof fn lemma_xor_le_sum(a: u32, b: u32)
    ensures
        (a ^ b) as int <= a as int + b as int,
{
    assert((a as u64) ^ (b as u64) <= (a as u64) + (b as u64)) by (bit_vector)
        requires
            a as u64 <= 0xffff_ffffu64,
            b as u64 <= 0xffff_ffffu64,
    ;
    assert(((a ^ b) as u64) == (a as u64) ^ (b as u64)) by (bit_vector);
}

impl Builder {
    /// Grows the table (and the bitmap with it) to at least `len` slots,
    /// with vacant slots.
    fn extend(&mut self, len: usize)
        requires
            old(self).wf(),
            leaves_ok(old(self).nodes@),
            len <= OFFSET_MASK,
        ensures
            final(self).wf(),
            leaves_ok(final(self).nodes@),
            final(self).nodes@.len() >= len,
            final(self).nodes@.len() >= old(self).nodes@.len(),
            final(self).nodes@.len() == if old(self).nodes@.len() < len {
                len as int
            } else {
                old(self).nodes@.len() as int
            },
            final(self).head == old(self).head,
            old(self).keeps_prefix(final(self), old(self).nodes@.len() as int),
            forall|y: int|
                old(self).nodes@.len() <= y < final(self).nodes@.len()
                    ==> !#[trigger] final(self).checker.fixed_spec(y),
    {
        if self.nodes.len() < len {
            let ghost before = *self;
            while self.nodes.len() < len
                invariant
                    old(self).nodes@.len() <= self.nodes@.len() <= len,
                    len <= OFFSET_MASK,
                    self.head == old(self).head,
                    self.checker == old(self).checker,
                    forall|y: int|
                        0 <= y < old(self).nodes@.len() ==> #[trigger] self.nodes@[y]
                            == old(self).nodes@[y],
                    forall|y: int|
                        old(self).nodes@.len() <= y < self.nodes@.len()
                            ==> #[trigger] self.nodes@[y].vacant_spec(),
                decreases len - self.nodes@.len(),
            {
                self.nodes.push(Node { base: OFFSET_MASK, check: OFFSET_MASK });
            }
            self.checker.resize(len);
            assert forall|x: int|
                self.nodes@.len() <= x < self.checker.bitmap@.len() * 64 implies !#[trigger] self.checker.fixed_spec(x) by {
                if x < 64 * before.checker.bitmap@.len() {
                    assert(!before.checker.fixed_spec(x));
                }
            }
            assert forall|y: int| 0 <= y < before.nodes@.len() implies #[trigger] self.checker.fixed_spec(y)
                == before.checker.fixed_spec(y) by {
                assert(y < 64 * before.checker.bitmap@.len());
            }
            assert forall|x: int|
                0 <= x < self.nodes@.len() && !self.checker.fixed_spec(x) implies #[trigger] self.nodes@[x].vacant_spec() by {
                if x < before.nodes@.len() {
                    assert(self.checker.fixed_spec(x) == before.checker.fixed_spec(x));
                }
            }
            assert forall|x: int|
                0 <= x < self.nodes@.len() && self.checker.fixed_spec(x) && #[trigger] self.nodes@[
                    x
                ].check_spec() != OFFSET_MASK implies self.nodes@[x].check_spec() < self.nodes@.len()
                && self.checker.fixed_spec(self.nodes@[x].check_spec() as int) by {
                if x >= before.nodes@.len() {
                    assert(x < 64 * self.checker.bitmap@.len());
                    if x < 64 * before.checker.bitmap@.len() {
                        assert(!before.checker.fixed_spec(x));
                    }
                    assert(!self.checker.fixed_spec(x));
                } else {
                    assert(self.checker.fixed_spec(x) == before.checker.fixed_spec(x));
                    let c = self.nodes@[x].check_spec() as int;
                    assert(self.checker.fixed_spec(c) == before.checker.fixed_spec(c));
                }
            }
            assert forall|y: int|
                before.nodes@.len() <= y < self.nodes@.len() implies !#[trigger] self.checker.fixed_spec(y) by {
                assert(y < 64 * self.checker.bitmap@.len());
                if y < 64 * before.checker.bitmap@.len() {
                    assert(!before.checker.fixed_spec(y));
                }
            }
            assert forall|x: int|
                0 <= x < self.nodes@.len() && #[trigger] self.nodes@[x].has_leaf_spec()
                    implies !self.nodes@[x].leaf_spec() && crate::trie::owns_leaf(self.nodes@, x) by {
                if x >= before.nodes@.len() {
                    assert(self.nodes@[x].vacant_spec());
                }
                assert(before.nodes@[x] == self.nodes@[x]);
                let l = (before.nodes@[x].base_spec() ^ END_CODE) as int;
                assert(before.nodes@[l] == self.nodes@[l]);
            }
        }
    }

    /// A base, at or after the search hint, under which every child slot
    /// `base ^ l` of `labels` is vacant and inside the table. With every label
    /// below `2^bits`, the search succeeds while the table can still grow by
    /// `node_growth(bits)` slots.
    fn find_base(&mut self, labels: &Vec<u32>, Ghost(bits): Ghost<u64>) -> (r: Result<u32, CrawdadError>)
        requires
            old(self).wf(),
            leaves_ok(old(self).nodes@),
            labels@.len() > 0,
            6 <= bits <= 22,
            forall|j: int| 0 <= j < labels@.len() ==> labels@[j] <= 0x11_0000,
            forall|j: int| 0 <= j < labels@.len() ==> (labels@[j] as int) < (1u64 << bits) as int,
        ensures
            final(self).wf(),
            leaves_ok(final(self).nodes@),
            final(self).nodes@.len() >= old(self).nodes@.len(),
            final(self).head == old(self).head,
            old(self).keeps_prefix(final(self), old(self).nodes@.len() as int),
            r is Err ==> r == Err::<u32, CrawdadError>(CrawdadError::CapacityExceeded),
            r is Ok ==> forall|j: int|
                0 <= j < labels@.len() ==> ((r->Ok_0 ^ labels@[j]) as int)
                    < final(self).nodes@.len(),
            r is Ok ==> final(self).checker.base_ok(r->Ok_0, labels@),
            r is Ok ==> final(self).nodes@.len() <= old(self).nodes@.len() + node_growth(bits),
            old(self).nodes@.len() + node_growth(bits) <= OFFSET_MASK ==> r is Ok,
            forall|y: int|
                old(self).nodes@.len() <= y < final(self).nodes@.len()
                    ==> !#[trigger] final(self).checker.fixed_spec(y),
    {
        proof {
            lemma_node_growth(bits);
        }
        let mut max_label: u32 = 0;
        for j in 0..labels.len()
            invariant
                forall|jj: int| 0 <= jj < j ==> labels@[jj] <= max_label,
                max_label <= 0x11_0000,
                (max_label as int) < (1u64 << bits) as int,
                forall|j: int| 0 <= j < labels@.len() ==> labels@[j] <= 0x11_0000,
                forall|j: int| 0 <= j < labels@.len() ==> (labels@[j] as int) < (1u64 << bits) as int,
        {
            if labels[j] > max_label {
                max_label = labels[j];
            }
        }
        let ghost l0 = self.nodes@.len();
        let ghost pw: u64 = 1u64 << bits;
        // The first window, at or past the table's end, aligned to a power of two
        // above every label: each of its child slots is a fresh one.
        let ghost fresh: u64 = (((l0 as u64) + (pw - 1) as u64) as u64) & !((pw - 1) as u64);
        proof {
            let x = l0 as u64;
            assert(64 <= pw <= 0x40_0000) by (bit_vector)
                requires
                    6 <= bits <= 22,
                    pw == 1u64 << bits,
            ;
            assert(fresh >= x && fresh <= x + (pw - 1) && fresh % 64 == 0 && fresh & ((pw - 1) as u64)
                == 0) by (bit_vector)
                requires
                    x <= 0xffff_ffffu64,
                    6 <= bits <= 22,
                    pw == 1u64 << bits,
                    fresh == ((x + (pw - 1) as u64) as u64) & !((pw - 1) as u64),
            ;
        }
        let mut front: u32 = self.head & BPXChecker::BASE_FRONT_MASK;
        if front as usize > self.nodes.len() {
            front = 0;
        }
        proof {
            let h = self.head;
            assert((h & 0xffff_ffc0u32) % 64 == 0) by (bit_vector);
        }
        loop
            invariant
                self.wf(),
                leaves_ok(self.nodes@),
                self.nodes@.len() >= old(self).nodes@.len(),
                l0 == old(self).nodes@.len(),
                self.head == old(self).head,
                old(self).keeps_prefix(self, old(self).nodes@.len() as int),
                forall|y: int|
                    old(self).nodes@.len() <= y < self.nodes@.len()
                        ==> !#[trigger] self.checker.fixed_spec(y),
                forall|jj: int| 0 <= jj < labels@.len() ==> labels@[jj] <= max_label,
                max_label <= 0x11_0000,
                (max_label as int) < pw as int,
                forall|j: int| 0 <= j < labels@.len() ==> labels@[j] <= 0x11_0000,
                forall|j: int| 0 <= j < labels@.len() ==> (labels@[j] as int) < pw as int,
                6 <= bits <= 22,
                pw == 1u64 << bits,
                64 <= pw <= 0x40_0000,
                node_growth(bits) == 2 * (pw as int) + 64,
                front % 64 == 0,
                fresh >= l0 && fresh <= l0 + (pw - 1) && fresh % 64 == 0 && fresh & ((pw - 1) as u64) == 0,
                self.nodes@.len() <= l0 || self.nodes@.len() <= front + max_label,
                l0 + node_growth(bits) <= OFFSET_MASK ==> front <= fresh,
            decreases 0x1_0000_0000 - front,
        {
            let need: u64 = front as u64 + 64 + max_label as u64;
            if need > OFFSET_MASK as u64 {
                return Err(CrawdadError::CapacityExceeded);
            }
            let ghost before = *self;
            self.extend(need as usize);
            proof {
                assert forall|y: int|
                    old(self).nodes@.len() <= y < self.nodes@.len() implies !#[trigger] self.checker.fixed_spec(y) by {
                    if y < before.nodes@.len() {
                        assert(!before.checker.fixed_spec(y));
                    }
                }
            }
            let b = self.checker.find_base_for_64adjacent(front, labels.as_slice());
            proof {
                if front as int == fresh as int {
                    let f = front;
                    assert(front - front % 64 == front);
                    assert forall|j: int| 0 <= j < labels@.len() implies !#[trigger] self.checker.fixed_spec(
                        (f ^ labels@[j]) as int,
                    ) by {
                        let l = labels@[j];
                        let fw = fresh;
                        assert((f ^ l) as u64 == (f as u64) + (l as u64)) by (bit_vector)
                            requires
                                fw == f as u64,
                                fw & ((pw - 1) as u64) == 0,
                                (l as u64) < pw,
                                64 <= pw <= 0x40_0000,
                                pw == 1u64 << bits,
                                bits <= 22,
                        ;
                    }
                    assert(self.checker.base_ok(f, labels@));
                    assert(f != INVALID_IDX);
                }
            }
            if b != INVALID_IDX {
                assert forall|j: int| 0 <= j < labels@.len() implies ((b ^ labels@[j]) as int)
                    < self.nodes@.len() by {
                    lemma_xor_le_sum(b, labels@[j]);
                }
                return Ok(b);
            }
            front = front + 64;
        }
    }

    /// Moves the search hint past the words that are fully occupied.
    fn advance_head(&mut self)
        requires
            old(self).wf(),
        ensures
            final(self).wf(),
            final(self).nodes == old(self).nodes,
            final(self).checker == old(self).checker,
    {
        if self.head > OFFSET_MASK {
            self.head = 0;
        }
        while (self.head as usize) < self.nodes.len() && self.checker.get_word(self.head / 64)
            == BPXChecker::NO_CANDIDATE
            invariant
                self.wf(),
                self.nodes == old(self).nodes,
                self.checker == old(self).checker,
                self.head <= OFFSET_MASK + 64,
            decreases OFFSET_MASK + 64 - self.head,
        {
            self.head = self.head + 64;
        }
    }

    /// Fixes the child slots `base ^ l` of `node_idx`, one for each label.
    fn place_children(&mut self, base: u32, labels: &Vec<u32>, node_idx: u32)
        requires
            old(self).wf(),
            leaves_ok(old(self).nodes@),
            (node_idx as int) < old(self).nodes@.len(),
            old(self).checker.fixed_spec(node_idx as int),
            forall|j1: int, j2: int| 0 <= j1 < j2 < labels@.len() ==> labels@[j1] < labels@[j2],
            forall|j: int|
                0 <= j < labels@.len() ==> ((base ^ #[trigger] labels@[j]) as int) < old(self).nodes@.len() && !old(self).checker.fixed_spec((base ^ labels@[j]) as int),
        ensures
            final(self).wf(),
            leaves_ok(final(self).nodes@),
            final(self).head == old(self).head,
            final(self).nodes@.len() == old(self).nodes@.len(),
            forall|j: int|
                0 <= j < labels@.len() ==> final(self).nodes@[(base ^ #[trigger] labels@[j]) as int]
                    == (Node { base: OFFSET_MASK, check: node_idx }) && final(self).checker.fixed_spec(
                    (base ^ labels@[j]) as int,
                ),
            forall|y: int|
                0 <= y < old(self).nodes@.len() && !is_child_slot(base, labels@, y)
                    ==> #[trigger] final(self).nodes@[y] == old(self).nodes@[y],
            forall|y: int|
                0 <= y < old(self).nodes@.len() && !is_child_slot(base, labels@, y)
                    ==> #[trigger] final(self).checker.fixed_spec(y) == old(self).checker.fixed_spec(y),
            forall|y: int|
                0 <= y < old(self).nodes@.len() && old(self).checker.fixed_spec(y)
                    ==> #[trigger] final(self).checker.fixed_spec(y),
    {
        let n = labels.len();
        for j in 0..n
            invariant
                self.wf(),
                leaves_ok(self.nodes@),
                self.head == old(self).head,
                n == labels@.len(),
                self.nodes@.len() == old(self).nodes@.len(),
                (node_idx as int) < old(self).nodes@.len(),
                self.checker.fixed_spec(node_idx as int),
                forall|j1: int, j2: int| 0 <= j1 < j2 < labels@.len() ==> labels@[j1] < labels@[j2],
                forall|jj: int|
                    0 <= jj < labels@.len() ==> ((base ^ #[trigger] labels@[jj]) as int) < old(self).nodes@.len(),
                forall|jj: int|
                    j <= jj < labels@.len() ==> !self.checker.fixed_spec(
                        (base ^ #[trigger] labels@[jj]) as int,
                    ),
                forall|jj: int|
                    0 <= jj < j ==> self.nodes@[(base ^ #[trigger] labels@[jj]) as int] == (Node {
                        base: OFFSET_MASK,
                        check: node_idx,
                    }) && self.checker.fixed_spec((base ^ labels@[jj]) as int),
                forall|y: int|
                    0 <= y < old(self).nodes@.len() && old(self).checker.fixed_spec(y)
                        ==> #[trigger] self.nodes@[y] == old(self).nodes@[y] && self.checker.fixed_spec(y),
                forall|y: int|
                    0 <= y < old(self).nodes@.len() && !#[trigger] self.checker.fixed_spec(y)
                        ==> self.nodes@[y] == old(self).nodes@[y],
                forall|y: int|
                    0 <= y < old(self).nodes@.len() && #[trigger] self.checker.fixed_spec(y)
                        && !old(self).checker.fixed_spec(y) ==> is_child_slot(base, labels@, y),
                forall|y: int|
                    0 <= y < old(self).nodes@.len() && #[trigger] self.checker.fixed_spec(y)
                        && !old(self).checker.fixed_spec(y) ==> self.nodes@[y].check_spec() == node_idx,
        {
            let child_idx = base ^ labels[j];
            let ghost before = *self;
            assert((child_idx as int) / 64 < self.checker.bitmap@.len());
            self.checker.set_fixed(child_idx);
            self.nodes.set(child_idx as usize, Node { base: OFFSET_MASK, check: node_idx });
            proof {
                assert forall|x: int|
                    0 <= x < self.nodes@.len() && #[trigger] self.nodes@[x].has_leaf_spec()
                        implies !self.nodes@[x].leaf_spec() && crate::trie::owns_leaf(self.nodes@, x) by {
                    assert(x != child_idx as int);
                    assert(before.nodes@[x] == self.nodes@[x]);
                    let l = (before.nodes@[x].base_spec() ^ END_CODE) as int;
                    assert(before.nodes@[l].leaf_spec());
                    assert(!before.nodes@[l].vacant_spec());
                    assert(before.checker.fixed_spec(l));
                    assert(l != child_idx as int);
                    assert(before.nodes@[l] == self.nodes@[l]);
                }
                assert forall|jj: int| j + 1 <= jj < labels@.len() implies !self.checker.fixed_spec(
                    (base ^ #[trigger] labels@[jj]) as int,
                ) by {
                    lemma_xor_cancel(base, labels@[jj], labels@[j as int]);
                }
                assert forall|jj: int| 0 <= jj < j implies self.nodes@[(base
                    ^ #[trigger] labels@[jj]) as int] == (Node { base: OFFSET_MASK, check: node_idx })
                    && self.checker.fixed_spec((base ^ labels@[jj]) as int) by {
                    lemma_xor_cancel(base, labels@[jj], labels@[j as int]);
                }
                assert(self.nodes@[child_idx as int].check_spec() == node_idx);
                assert forall|x: int|
                    0 <= x < self.nodes@.len() && !self.checker.fixed_spec(x) implies #[trigger] self.nodes@[x].vacant_spec() by {
                    assert(before.nodes@[x] == self.nodes@[x]);
                }
                assert forall|x: int|
                    self.nodes@.len() <= x < self.checker.bitmap@.len() * 64 implies !#[trigger] self.checker.fixed_spec(x) by {
                    assert(!before.checker.fixed_spec(x));
                }
                assert forall|x: int|
                    0 <= x < self.nodes@.len() && self.checker.fixed_spec(x) && #[trigger] self.nodes@[
                        x
                    ].check_spec() != OFFSET_MASK implies self.nodes@[x].check_spec()
                    < self.nodes@.len() && self.checker.fixed_spec(
                    self.nodes@[x].check_spec() as int,
                ) by {
                    if x != child_idx as int {
                        assert(before.nodes@[x] == self.nodes@[x]);
                        assert(before.checker.fixed_spec(x));
                    }
                }
                assert(is_child_slot(base, labels@, child_idx as int));
                assert forall|y: int|
                    0 <= y < old(self).nodes@.len() && old(self).checker.fixed_spec(y)
                        implies #[trigger] self.nodes@[y] == old(self).nodes@[y] && self.checker.fixed_spec(y) by {
                    assert(before.checker.fixed_spec(y));
                    assert(y != child_idx as int);
                    assert(before.nodes@[y] == self.nodes@[y]);
                }
                assert forall|y: int|
                    0 <= y < old(self).nodes@.len() && !#[trigger] self.checker.fixed_spec(y)
                        implies self.nodes@[y] == old(self).nodes@[y] by {
                    assert(!before.checker.fixed_spec(y));
                    assert(before.nodes@[y] == self.nodes@[y]);
                }
                assert forall|y: int|
                    0 <= y < old(self).nodes@.len() && #[trigger] self.checker.fixed_spec(y)
                        && !old(self).checker.fixed_spec(y) implies is_child_slot(base, labels@, y)
                        && self.nodes@[y].check_spec() == node_idx by {
                    if y != child_idx as int {
                        assert(before.checker.fixed_spec(y));
                        assert(before.nodes@[y] == self.nodes@[y]);
                    }
                }
            }
        }
        proof {
            assert forall|y: int|
                0 <= y < old(self).nodes@.len() && !is_child_slot(base, labels@, y)
                    implies #[trigger] self.nodes@[y] == old(self).nodes@[y] by {
                if self.checker.fixed_spec(y) && !old(self).checker.fixed_spec(y) {
                }
            }
            assert forall|y: int|
                0 <= y < old(self).nodes@.len() && !is_child_slot(base, labels@, y)
                    implies #[trigger] self.checker.fixed_spec(y) == old(self).checker.fixed_spec(y) by {
                if old(self).checker.fixed_spec(y) {
                    assert(self.nodes@[y] == old(self).nodes@[y]);
                }
            }
        }
    }

    /// Gives `node_idx` its base and, where a key ends at it, the synthetic
    /// leaf with the value `val`.
    fn fix_node(&mut self, node_idx: u32, base: u32, has_end: bool, val: u32)
        requires
            old(self).wf(),
            (node_idx as int) < old(self).nodes@.len(),
            old(self).checker.fixed_spec(node_idx as int),
            base <= OFFSET_MASK,
            val <= OFFSET_MASK,
            has_end ==> (base as int) < old(self).nodes@.len() && base != node_idx
                && old(self).checker.fixed_spec(base as int) && old(self).nodes@[base as int].check_spec()
                == node_idx,
            leaves_ok(old(self).nodes@),
            !old(self).nodes@[node_idx as int].leaf_spec(),
            !old(self).nodes@[node_idx as int].has_leaf_spec(),
            has_end ==> !old(self).nodes@[base as int].leaf_spec(),
        ensures
            final(self).wf(),
            leaves_ok(final(self).nodes@),
            final(self).head == old(self).head,
            final(self).checker == old(self).checker,
            final(self).nodes@.len() == old(self).nodes@.len(),
            final(self).nodes@[node_idx as int].base_spec() == base,
            !final(self).nodes@[node_idx as int].leaf_spec(),
            final(self).nodes@[node_idx as int].has_leaf_spec() == (has_end || old(self).nodes@[node_idx as int].has_leaf_spec()),
            final(self).nodes@[node_idx as int].check_spec() == old(self).nodes@[node_idx as int].check_spec(),
            has_end ==> final(self).nodes@[base as int] == (Node { base: val | FLAG_BIT, check: node_idx }),
            has_end ==> final(self).nodes@[base as int].leaf_spec() && final(self).nodes@[base as int].base_spec() == val,
            forall|y: int|
                0 <= y < old(self).nodes@.len() && y != node_idx && !(has_end && y == base) ==> #[trigger] final(self).nodes@[y]
                    == old(self).nodes@[y],
    {
        let old_check = self.nodes[node_idx as usize].check;
        proof {
            lemma_flag_check(old_check);
            lemma_flag_value(val);
        }
        if has_end {
            self.nodes.set(node_idx as usize, Node { base, check: old_check | FLAG_BIT });
            self.nodes.set(base as usize, Node { base: val | FLAG_BIT, check: node_idx });
        } else {
            self.nodes.set(node_idx as usize, Node { base, check: old_check });
        }
        proof {
            assert forall|x: int|
                0 <= x < self.nodes@.len() && !self.checker.fixed_spec(x) implies #[trigger] self.nodes@[x].vacant_spec() by {
                assert(old(self).nodes@[x] == self.nodes@[x]);
            }
            assert forall|x: int|
                0 <= x < self.nodes@.len() && self.checker.fixed_spec(x) && #[trigger] self.nodes@[
                    x
                ].check_spec() != OFFSET_MASK implies self.nodes@[x].check_spec()
                < self.nodes@.len() && self.checker.fixed_spec(
                self.nodes@[x].check_spec() as int,
            ) by {
                if x == node_idx as int {
                    assert(self.nodes@[x].check_spec() == old(self).nodes@[x].check_spec());
                } else if has_end && x == base as int {
                } else {
                    assert(old(self).nodes@[x] == self.nodes@[x]);
                }
            }
            assert(base ^ END_CODE == base) by {
                assert(base ^ 0u32 == base) by (bit_vector);
            }
            assert forall|x: int|
                0 <= x < self.nodes@.len() && #[trigger] self.nodes@[x].has_leaf_spec()
                    implies !self.nodes@[x].leaf_spec() && crate::trie::owns_leaf(self.nodes@, x) by {
                if x == node_idx as int {
                } else if has_end && x == base as int {
                } else {
                    assert(old(self).nodes@[x] == self.nodes@[x]);
                    let l = (old(self).nodes@[x].base_spec() ^ END_CODE) as int;
                    assert(old(self).nodes@[l].leaf_spec());
                    assert(old(self).nodes@[l] == self.nodes@[l]);
                }
            }
        }
    }

    /// Places the children of `node_idx` for the keys `lo..hi` and gives the
    /// node its base: everything but the descendants' own placement.
    fn open_node(
        &mut self,
        keys: &Vec<Vec<u32>>,
        vals: &Vec<u32>,
        lo: usize,
        hi: usize,
        depth: usize,
        node_idx: u32,
        Ghost(bits): Ghost<u64>,
    ) -> (r: Result<(Vec<u32>, Vec<usize>, Ghost<Seq<int>>, u32, bool), CrawdadError>)
        requires
            6 <= bits <= 22,
            forall|k: int, d: int|
                0 <= k < keys@.len() && 0 <= d < keys@[k]@.len() ==> (#[trigger] keys@[k]@[d] as int)
                    < (1u64 << bits) as int,
            old(self).wf(),
            lo < hi <= keys@.len(),
            vals@.len() == keys@.len(),
            !(hi - lo == 1 && keys@[lo as int]@.len() == depth),
            (node_idx as int) < old(self).nodes@.len(),
            old(self).checker.fixed_spec(node_idx as int),
            !old(self).nodes@[node_idx as int].has_leaf_spec(),
            !old(self).nodes@[node_idx as int].leaf_spec(),
            leaves_ok(old(self).nodes@),
            forall|x: int|
                0 <= x < old(self).nodes@.len() ==> #[trigger] old(self).nodes@[x].check_spec()
                    != node_idx,
            forall|k: int| lo <= k < hi ==> depth <= #[trigger] keys@[k]@.len(),
            forall|k: int| lo <= k < hi ==> (#[trigger] keys@[k]@).take(depth as int) == keys@[lo as int]@.take(depth as int),
            forall|k: int| lo <= k && k + 1 < hi ==> code_lt(#[trigger] keys@[k]@, keys@[k + 1]@),
            forall|k: int, d: int|
                0 <= k < keys@.len() && 0 <= d < keys@[k]@.len() ==> 1 <= #[trigger] keys@[k]@[d]
                    <= 0x11_0000,
            forall|k: int| 0 <= k < vals@.len() ==> #[trigger] vals@[k] <= OFFSET_MASK,
        ensures
            r is Err ==> r == Err::<(Vec<u32>, Vec<usize>, Ghost<Seq<int>>, u32, bool), CrawdadError>(
                CrawdadError::CapacityExceeded,
            ),
            old(self).nodes@.len() + node_growth(bits) <= OFFSET_MASK ==> r is Ok,
            r is Ok ==> ({
                let (labels, starts, group, base, has_end) = r->Ok_0;
                let cs = code_seqs(keys@);
                let a = *old(self);
                let nn = *final(self);
                &&& nn.wf()
                &&& leaves_ok(nn.nodes@)
                &&& nn.nodes@.len() <= a.nodes@.len() + node_growth(bits)
                &&& labels@.len() >= 1
                &&& starts@.len() == labels@.len() + 1
                &&& group@.len() == hi - lo
                &&& starts@[0] == lo
                &&& starts@[labels@.len() as int] == hi
                &&& forall|j: int| 0 <= j < labels@.len() ==> #[trigger] labels@[j] <= 0x11_0000
                &&& forall|j1: int, j2: int|
                    0 <= j1 < j2 < labels@.len() ==> labels@[j1] < labels@[j2]
                &&& forall|j1: int, j2: int|
                    0 <= j1 < j2 < starts@.len() ==> starts@[j1] < starts@[j2]
                &&& forall|j: int, k: int|
                    #![trigger cs[k], starts@[j]]
                    0 <= j < labels@.len() && starts@[j] <= k < starts@[j + 1] ==> label_at(
                        cs[k],
                        depth as int,
                    ) == labels@[j]
                &&& forall|k: int|
                    lo <= k < hi ==> 0 <= #[trigger] group@[k - lo] < labels@.len()
                        && starts@[group@[k - lo]] <= k < starts@[group@[k - lo] + 1]
                &&& has_end == (labels@[0] == END_CODE)
                &&& has_end ==> base == (base ^ labels@[0])
                &&& has_end ==> nn.nodes@[base as int].leaf_spec() && nn.nodes@[base as int].base_spec()
                    == vals@[lo as int]
                &&& (node_idx as int) < nn.nodes@.len()
                &&& nn.nodes@[node_idx as int].base_spec() == base
                &&& !nn.nodes@[node_idx as int].leaf_spec()
                &&& kept(a, nn, node_idx)
                &&& nn.nodes@[node_idx as int].has_leaf_spec() == has_end
                &&& forall|j: int|
                    0 <= j < labels@.len() ==> ((base ^ #[trigger] labels@[j]) as int) < nn.nodes@.len()
                        && nn.checker.fixed_spec((base ^ labels@[j]) as int) && !(((base ^ labels@[j]) as int)
                        < a.nodes@.len() && a.checker.fixed_spec((base ^ labels@[j]) as int))
                &&& forall|j: int|
                    0 <= j < labels@.len() && #[trigger] labels@[j] != END_CODE ==> nn.nodes@[(base
                        ^ labels@[j]) as int] == (Node { base: OFFSET_MASK, check: node_idx })
                &&& forall|j: int, x: int|
                    #![trigger labels@[j], nn.nodes@[x]]
                    0 <= j < labels@.len() && 0 <= x < nn.nodes@.len() ==> nn.nodes@[x].check_spec() != (base
                        ^ labels@[j])
                &&& forall|x: int|
                    0 <= x < nn.nodes@.len() ==> ((#[trigger] nn.nodes@[x].check_spec() == node_idx)
                        == is_child_slot(base, labels@, x))
                &&& forall|y: int|
                    0 <= y < nn.nodes@.len() && nn.checker.fixed_spec(y) && !(y < a.nodes@.len()
                        && a.checker.fixed_spec(y)) ==> #[trigger] is_child_slot(base, labels@, y)
            }),
    {
        let ghost cs = code_seqs(keys@);
        let ghost a = *self;
        let (labels, starts, Ghost(group)) = collect_labels(keys, lo, hi, depth);
        proof {
            lemma_node_growth(bits);
            assert forall|j: int| 0 <= j < labels@.len() implies (labels@[j] as int) < (1u64
                << bits) as int by {
                let k = starts@[j] as int;
                assert(starts@[j] < starts@[j + 1]);
                assert(label_at(cs[k], depth as int) == labels@[j]);
                assert(cs[k] == keys@[k]@);
            }
        }
        let base = self.find_base(&labels, Ghost(bits))?;
        let ghost f = *self;
        proof {
            assert forall|j: int| 0 <= j < labels@.len() implies ((base ^ #[trigger] labels@[j]) as int)
                < f.nodes@.len() && !f.checker.fixed_spec((base ^ labels@[j]) as int) by {
                assert(f.checker.base_ok(base, labels@));
            }
            lemma_base_small(base, labels@[0]);
        }
        self.place_children(base, &labels, node_idx);
        let ghost pl = *self;
        let has_end = labels[0] == END_CODE;
        proof {
            if is_child_slot(base, labels@, node_idx as int) {
                let j = choose|j: int|
                    0 <= j < labels@.len() && node_idx as int == (base ^ #[trigger] labels@[j]) as int;
                assert(f.checker.fixed_spec(node_idx as int));
            }
            assert(pl.nodes@[node_idx as int] == a.nodes@[node_idx as int]);
            if has_end {
                assert(base == base ^ labels@[0]) by {
                    assert(base ^ 0u32 == base) by (bit_vector);
                }
                assert(pl.nodes@[base as int].check_spec() == node_idx);
                if base == node_idx {
                    assert(!f.checker.fixed_spec((base ^ labels@[0]) as int));
                }
            }
        }
        self.fix_node(node_idx, base, has_end, vals[lo]);
        self.advance_head();
        // Up to here only the node itself and its new children changed.
        let ghost nn = *self;
        proof {
            lemma_after_placing(a, f, pl, nn, node_idx, base, labels@, has_end);
        }
        Ok((labels, starts, Ghost(group), base, has_end))
    }

    /// Makes `node_idx` the leaf of the one key `lo`, which ends at depth `depth`.
    fn arrange_leaf(&mut self, keys: &Vec<Vec<u32>>, vals: &Vec<u32>, lo: usize, depth: usize, node_idx: u32)
        requires
            old(self).wf(),
            lo < keys@.len(),
            vals@.len() == keys@.len(),
            keys@[lo as int]@.len() == depth,
            (node_idx as int) < old(self).nodes@.len(),
            old(self).checker.fixed_spec(node_idx as int),
            forall|k: int| 0 <= k < vals@.len() ==> #[trigger] vals@[k] <= OFFSET_MASK,
            leaves_ok(old(self).nodes@),
            !old(self).nodes@[node_idx as int].leaf_spec(),
            !old(self).nodes@[node_idx as int].has_leaf_spec(),
        ensures
            final(self).wf(),
            leaves_ok(final(self).nodes@),
            final(self).nodes@.len() == old(self).nodes@.len(),
            kept(*old(self), *final(self), node_idx),
            subtree_ok(
                final(self).nodes@,
                node_idx,
                code_seqs(keys@),
                vals@,
                lo as int,
                lo + 1,
                depth as int,
            ),
            closed(final(self).nodes@, owned(*old(self), *final(self), node_idx)),
    {
        let ghost cs = code_seqs(keys@);
        let ghost a = *self;
        assert(cs[lo as int] == keys@[lo as int]@);
        let check = self.nodes[node_idx as usize].check;
        proof {
            lemma_flag_value(vals@[lo as int]);
        }
        self.nodes.set(node_idx as usize, Node { base: vals[lo] | FLAG_BIT, check });
        proof {
            lemma_leaf_subtree(self.nodes@, node_idx, cs, vals@, lo as int, depth as int);
            assert forall|x: int|
                0 <= x < self.nodes@.len() && #[trigger] self.nodes@[x].has_leaf_spec()
                    implies !self.nodes@[x].leaf_spec() && crate::trie::owns_leaf(self.nodes@, x) by {
                assert(x != node_idx as int);
                assert(a.nodes@[x] == self.nodes@[x]);
                let l = (a.nodes@[x].base_spec() ^ END_CODE) as int;
                assert(a.nodes@[l].leaf_spec());
                assert(a.nodes@[l] == self.nodes@[l]);
            }
            assert forall|x: int|
                0 <= x < self.nodes@.len() && !self.checker.fixed_spec(x) implies #[trigger] self.nodes@[x].vacant_spec() by {
                assert(a.nodes@[x] == self.nodes@[x]);
            }
            assert forall|x: int|
                0 <= x < self.nodes@.len() && self.checker.fixed_spec(x) && #[trigger] self.nodes@[
                    x
                ].check_spec() != OFFSET_MASK implies self.nodes@[x].check_spec()
                < self.nodes@.len() && self.checker.fixed_spec(
                self.nodes@[x].check_spec() as int,
            ) by {
                assert(a.nodes@[x].check_spec() == self.nodes@[x].check_spec());
            }
            assert(kept(a, *self, node_idx)) by {
                assert forall|x: int, y: u32|
                    (y as int) < a.nodes@.len() && a.checker.fixed_spec(y as int) && y != node_idx
                        implies ((0 <= x < a.nodes@.len() && a.nodes@[x].check_spec() == y) == (0
                    <= x < self.nodes@.len() && self.nodes@[x].check_spec() == y)) by {
                    if 0 <= x < a.nodes@.len() {
                        assert(a.nodes@[x].check_spec() == self.nodes@[x].check_spec());
                    }
                }
            }
            assert forall|y: u32| #[trigger] owned(a, *self, node_idx).contains(y) implies {
                &&& (y as int) < self.nodes@.len()
                &&& forall|c: u32|
                    #[trigger] child_of(self.nodes@, y, c) is Some ==> owned(a, *self, node_idx).contains(
                        child_of(self.nodes@, y, c)->0,
                    )
                &&& (!self.nodes@[y as int].leaf_spec() && self.nodes@[y as int].has_leaf_spec())
                    ==> owned(a, *self, node_idx).contains(
                    self.nodes@[y as int].base_spec() ^ END_CODE,
                )
            } by {
                assert(y == node_idx);
            }
        }
    }

    /// Places the node `node_idx` for the keys `lo..hi`, which share their
    /// first `depth` codes, and then, recursively, its descendants.
    #[verifier::rlimit(100)]
    fn arrange(
        &mut self,
        keys: &Vec<Vec<u32>>,
        vals: &Vec<u32>,
        lo: usize,
        hi: usize,
        depth: usize,
        node_idx: u32,
        Ghost(max_len): Ghost<nat>,
        Ghost(bits): Ghost<u64>,
    ) -> (r: Result<(), CrawdadError>)
        requires
            6 <= bits <= 22,
            forall|k: int, d: int|
                0 <= k < keys@.len() && 0 <= d < keys@[k]@.len() ==> (#[trigger] keys@[k]@[d] as int)
                    < (1u64 << bits) as int,
            old(self).wf(),
            lo < hi <= keys@.len(),
            vals@.len() == keys@.len(),
            (node_idx as int) < old(self).nodes@.len(),
            old(self).checker.fixed_spec(node_idx as int),
            !old(self).nodes@[node_idx as int].has_leaf_spec(),
            !old(self).nodes@[node_idx as int].leaf_spec(),
            leaves_ok(old(self).nodes@),
            forall|x: int|
                0 <= x < old(self).nodes@.len() ==> #[trigger] old(self).nodes@[x].check_spec()
                    != node_idx,
            forall|k: int| lo <= k < hi ==> depth <= #[trigger] keys@[k]@.len() <= max_len,
            forall|k: int| lo <= k < hi ==> (#[trigger] keys@[k]@).take(depth as int) == keys@[lo as int]@.take(depth as int),
            forall|k: int| lo <= k && k + 1 < hi ==> code_lt(#[trigger] keys@[k]@, keys@[k + 1]@),
            forall|k: int, d: int|
                0 <= k < keys@.len() && 0 <= d < keys@[k]@.len() ==> 1 <= #[trigger] keys@[k]@[d]
                    <= 0x11_0000,
            forall|k: int| 0 <= k < vals@.len() ==> #[trigger] vals@[k] <= OFFSET_MASK,
        ensures
            r is Ok ==> final(self).wf(),
            r is Ok ==> leaves_ok(final(self).nodes@),
            r is Ok ==> final(self).nodes@.len() <= old(self).nodes@.len() + (hi - lo) * (max_len
                - depth) * node_growth(bits),
            old(self).nodes@.len() + (hi - lo) * (max_len - depth) * node_growth(bits)
                + node_growth(bits) <= OFFSET_MASK ==> r is Ok,
            r is Ok ==> kept(*old(self), *final(self), node_idx),
            r is Ok ==> subtree_ok(
                final(self).nodes@,
                node_idx,
                code_seqs(keys@),
                vals@,
                lo as int,
                hi as int,
                depth as int,
            ),
            r is Ok ==> closed(final(self).nodes@, owned(*old(self), *final(self), node_idx)),
            r is Err ==> r == Err::<(), CrawdadError>(CrawdadError::CapacityExceeded),
        decreases max_len - depth, 1nat,
    {
        let ghost cs = code_seqs(keys@);
        let ghost a = *self;
        assert(cs[lo as int] == keys@[lo as int]@);
        proof {
            lemma_node_growth(bits);
            assert(depth <= keys@[lo as int]@.len() <= max_len);
            assert((hi - lo) * (max_len - depth) * node_growth(bits) >= 0) by (nonlinear_arith)
                requires
                    node_growth(bits) >= 64,
                    hi > lo,
                    max_len >= depth,
            ;
        }
        if hi - lo == 1 && keys[lo].len() == depth {
            self.arrange_leaf(keys, vals, lo, depth, node_idx);
            return Ok(());
        }
        proof {
            if hi - lo >= 2 {
                assert(keys@[lo + 1]@.take(depth as int) == keys@[lo as int]@.take(depth as int));
                lemma_label_step(keys@[lo as int]@, keys@[lo + 1]@, depth as int);
                assert(depth < keys@[lo + 1]@.len() <= max_len);
            }
            assert(depth + 1 <= max_len);
        }
        let (labels, starts, Ghost(group), base, has_end) = self.open_node(keys, vals, lo, hi, depth, node_idx, Ghost(bits))?;
        let ghost nn = *self;
        let r = self.arrange_children(
            keys,
            vals,
            lo,
            hi,
            depth,
            node_idx,
            &labels,
            &starts,
            base,
            has_end,
            Ghost(group),
            Ghost(a),
            Ghost(max_len),
            Ghost(bits),
        );
        proof {
            let u = (max_len - depth - 1) * node_growth(bits);
            assert((hi - lo) * (max_len - depth) * node_growth(bits) == (hi - lo) * u + (hi - lo)
                * node_growth(bits)) by (nonlinear_arith)
                requires
                    node_growth(bits) >= 64,
                    u == (max_len - depth - 1) * node_growth(bits),
            ;
            assert((hi - lo) * node_growth(bits) >= node_growth(bits)) by (nonlinear_arith)
                requires
                    node_growth(bits) >= 64,
                    hi - lo >= 1,
            ;
        }
        r
    }

    /// Places the descendants of `node_idx` after [`Self::open_node`], child
    /// by child, and closes the node.
    fn arrange_children(
        &mut self,
        keys: &Vec<Vec<u32>>,
        vals: &Vec<u32>,
        lo: usize,
        hi: usize,
        depth: usize,
        node_idx: u32,
        labels: &Vec<u32>,
        starts: &Vec<usize>,
        base: u32,
        has_end: bool,
        Ghost(group): Ghost<Seq<int>>,
        Ghost(a): Ghost<Builder>,
        Ghost(max_len): Ghost<nat>,
        Ghost(bits): Ghost<u64>,
    ) -> (r: Result<(), CrawdadError>)
        requires
            6 <= bits <= 22,
            forall|k: int, d: int|
                0 <= k < keys@.len() && 0 <= d < keys@[k]@.len() ==> (#[trigger] keys@[k]@[d] as int)
                    < (1u64 << bits) as int,
            old(self).wf(),
            leaves_ok(old(self).nodes@),
            old(self).nodes@.len() <= a.nodes@.len() + node_growth(bits),
            depth + 1 <= max_len,
            lo < hi <= keys@.len(),
            vals@.len() == keys@.len(),
            labels@.len() >= 1,
            starts@.len() == labels@.len() + 1,
            starts@[0] == lo,
            starts@[labels@.len() as int] == hi,
            has_end == (labels@[0] == END_CODE),
            forall|jj: int| 0 <= jj < labels@.len() ==> #[trigger] labels@[jj] <= 0x11_0000,
            forall|j1: int, j2: int| 0 <= j1 < j2 < labels@.len() ==> labels@[j1] < labels@[j2],
            forall|j1: int, j2: int| 0 <= j1 < j2 < starts@.len() ==> starts@[j1] < starts@[j2],
            forall|jj: int, k: int|
            #![trigger code_seqs(keys@)[k], starts@[jj]]
            0 <= jj < labels@.len() && starts@[jj] <= k < starts@[jj + 1] ==> label_at(
                code_seqs(keys@)[k],
                depth as int,
            ) == labels@[jj],
            group.len() == hi - lo,
            forall|k: int|
            lo <= k < hi ==> 0 <= #[trigger] group[k - lo] < labels@.len()
                && starts@[group[k - lo]] <= k < starts@[group[k - lo] + 1],
            forall|k: int| lo <= k < hi ==> depth <= #[trigger] keys@[k]@.len() <= max_len,
            forall|k: int| lo <= k < hi ==> (#[trigger] keys@[k]@).take(depth as int) == keys@[lo as int]@.take(depth as int),
            forall|k: int| lo <= k && k + 1 < hi ==> code_lt(#[trigger] keys@[k]@, keys@[k + 1]@),
            forall|k: int, d: int|
            0 <= k < keys@.len() && 0 <= d < keys@[k]@.len() ==> 1 <= #[trigger] keys@[k]@[d]
                <= 0x11_0000,
            forall|k: int| 0 <= k < vals@.len() ==> #[trigger] vals@[k] <= OFFSET_MASK,
            kept(a, *old(self), node_idx),
            (node_idx as int) < a.nodes@.len(),
            a.checker.fixed_spec(node_idx as int),
            old(self).nodes@[node_idx as int].base_spec() == base,
            !old(self).nodes@[node_idx as int].leaf_spec(),
            old(self).nodes@[node_idx as int].has_leaf_spec() == has_end,
            has_end ==> base == (base ^ labels@[0]),
            has_end ==> old(self).nodes@[base as int].leaf_spec() && old(self).nodes@[base as int].base_spec() == vals@[lo as int],
            forall|y: int|
            0 <= y < a.nodes@.len() && a.checker.fixed_spec(y) ==> #[trigger] old(self).checker.fixed_spec(y),
            forall|y: int|
            0 <= y < old(self).nodes@.len() && old(self).checker.fixed_spec(y) && !(y < a.nodes@.len()
                && a.checker.fixed_spec(y)) ==> #[trigger] is_child_slot(base, labels@, y),
            (node_idx as int) < old(self).nodes@.len(),
            forall|jj: int|
            0 <= jj < labels@.len() ==> ((base ^ #[trigger] labels@[jj]) as int) < old(self).nodes@.len()
                && old(self).checker.fixed_spec((base ^ labels@[jj]) as int)
                && !(((base ^ labels@[jj]) as int) < a.nodes@.len() && a.checker.fixed_spec((base ^ labels@[jj]) as int)),
            forall|jj: int|
            0 <= jj < labels@.len() && #[trigger] labels@[jj] != END_CODE ==> old(self).nodes@[(base ^ labels@[jj]) as int]
                == (Node { base: OFFSET_MASK, check: node_idx }),
            forall|jj: int, x: int|
            #![trigger labels@[jj], old(self).nodes@[x]]
            0 <= jj < labels@.len() && 0 <= x < old(self).nodes@.len() ==> old(self).nodes@[x].check_spec()
                != (base ^ labels@[jj]),
            forall|x: int|
            0 <= x < old(self).nodes@.len() ==> ((#[trigger] old(self).nodes@[x].check_spec() == node_idx)
                == is_child_slot(base, labels@, x)),
        ensures
            r is Ok ==> final(self).wf(),
            r is Ok ==> leaves_ok(final(self).nodes@),
            r is Ok ==> final(self).nodes@.len() <= a.nodes@.len() + node_growth(bits) + (hi - lo) * ((
            max_len - depth - 1) * node_growth(bits)),
            a.nodes@.len() + (hi - lo) * (max_len - depth) * node_growth(bits) + node_growth(bits)
                <= OFFSET_MASK ==> r is Ok,
            r is Ok ==> kept(a, *final(self), node_idx),
            r is Ok ==> subtree_ok(
                final(self).nodes@,
                node_idx,
                code_seqs(keys@),
                vals@,
                lo as int,
                hi as int,
                depth as int,
            ),
            r is Ok ==> closed(final(self).nodes@, owned(a, *final(self), node_idx)),
            r is Err ==> r == Err::<(), CrawdadError>(CrawdadError::CapacityExceeded),
        decreases max_len - depth, 0nat,
    {
        let ghost cs = code_seqs(keys@);
        let ghost nn = *self;
        proof {
            lemma_node_growth(bits);
        }
        let n_labels = labels.len();
        let ghost mut sets: Seq<Set<u32>> = Seq::empty();
        for j in 0..n_labels
            invariant
                6 <= bits <= 22,
                node_growth(bits) >= 64,
                forall|k: int, d: int|
                    0 <= k < keys@.len() && 0 <= d < keys@[k]@.len() ==> (#[trigger] keys@[k]@[d] as int)
                        < (1u64 << bits) as int,
                leaves_ok(self.nodes@),
                nn.nodes@.len() <= a.nodes@.len() + node_growth(bits),
                depth + 1 <= max_len,
                self.nodes@.len() <= nn.nodes@.len() + (starts@[j as int] - lo) * ((max_len - depth
                    - 1) * node_growth(bits)),
                self.wf(),
                n_labels == labels@.len(),
                sets.len() == j,
                cs == code_seqs(keys@),
                lo < hi <= keys@.len(),
                vals@.len() == keys@.len(),
                labels@.len() >= 1,
                starts@.len() == labels@.len() + 1,
                starts@[0] == lo,
                starts@[labels@.len() as int] == hi,
                has_end == (labels@[0] == END_CODE),
                forall|jj: int| 0 <= jj < labels@.len() ==> #[trigger] labels@[jj] <= 0x11_0000,
                forall|j1: int, j2: int| 0 <= j1 < j2 < labels@.len() ==> labels@[j1] < labels@[j2],
                forall|j1: int, j2: int| 0 <= j1 < j2 < starts@.len() ==> starts@[j1] < starts@[j2],
                forall|jj: int, k: int|
                    #![trigger cs[k], starts@[jj]]
                    0 <= jj < labels@.len() && starts@[jj] <= k < starts@[jj + 1] ==> label_at(
                        cs[k],
                        depth as int,
                    ) == labels@[jj],
                group.len() == hi - lo,
                forall|k: int|
                    lo <= k < hi ==> 0 <= #[trigger] group[k - lo] < labels@.len()
                        && starts@[group[k - lo]] <= k < starts@[group[k - lo] + 1],
                forall|k: int| lo <= k < hi ==> depth <= #[trigger] keys@[k]@.len() <= max_len,
                forall|k: int| lo <= k < hi ==> (#[trigger] keys@[k]@).take(depth as int) == keys@[lo as int]@.take(depth as int),
                forall|k: int| lo <= k && k + 1 < hi ==> code_lt(#[trigger] keys@[k]@, keys@[k + 1]@),
                forall|k: int, d: int|
                    0 <= k < keys@.len() && 0 <= d < keys@[k]@.len() ==> 1 <= #[trigger] keys@[k]@[d]
                        <= 0x11_0000,
                forall|k: int| 0 <= k < vals@.len() ==> #[trigger] vals@[k] <= OFFSET_MASK,
                kept(a, *self, node_idx),
                (node_idx as int) < a.nodes@.len(),
                a.checker.fixed_spec(node_idx as int),
                nn.nodes@[node_idx as int].base_spec() == base,
                !nn.nodes@[node_idx as int].leaf_spec(),
                nn.nodes@[node_idx as int].has_leaf_spec() == has_end,
                has_end ==> base == (base ^ labels@[0]),
                has_end ==> nn.nodes@[base as int].leaf_spec() && nn.nodes@[base as int].base_spec() == vals@[lo as int],
                forall|y: int|
                    0 <= y < a.nodes@.len() && a.checker.fixed_spec(y) ==> #[trigger] nn.checker.fixed_spec(y),
                forall|y: int|
                    0 <= y < nn.nodes@.len() && nn.checker.fixed_spec(y) && !(y < a.nodes@.len()
                        && a.checker.fixed_spec(y)) ==> #[trigger] is_child_slot(base, labels@, y),
                forall|jj: int| 0 <= jj < j && labels@[jj] == END_CODE ==> sets[jj] == Set::<u32>::empty(),
                (node_idx as int) < nn.nodes@.len(),
                self.nodes@.len() >= nn.nodes@.len(),
                forall|y: int|
                    0 <= y < nn.nodes@.len() && nn.checker.fixed_spec(y) ==> #[trigger] self.checker.fixed_spec(y),
                forall|jj: int|
                    0 <= jj < labels@.len() ==> ((base ^ #[trigger] labels@[jj]) as int) < nn.nodes@.len()
                        && nn.checker.fixed_spec((base ^ labels@[jj]) as int)
                        && !(((base ^ labels@[jj]) as int) < a.nodes@.len() && a.checker.fixed_spec((base ^ labels@[jj]) as int)),
                forall|jj: int|
                    0 <= jj < labels@.len() && #[trigger] labels@[jj] != END_CODE ==> nn.nodes@[(base ^ labels@[jj]) as int]
                        == (Node { base: OFFSET_MASK, check: node_idx }),
                forall|jj: int|
                    j <= jj < labels@.len() ==> self.nodes@[(base ^ #[trigger] labels@[jj]) as int]
                        == nn.nodes@[(base ^ labels@[jj]) as int],
                forall|jj: int, x: int|
                    #![trigger labels@[jj], self.nodes@[x]]
                    j <= jj < labels@.len() && 0 <= x < self.nodes@.len() ==> self.nodes@[x].check_spec()
                        != (base ^ labels@[jj]),
                self.nodes@[node_idx as int] == nn.nodes@[node_idx as int],
                has_end ==> self.nodes@[base as int] == nn.nodes@[base as int],
                forall|x: int|
                    0 <= x < self.nodes@.len() ==> ((#[trigger] self.nodes@[x].check_spec() == node_idx)
                        == is_child_slot(base, labels@, x)),
                forall|jj: int|
                    0 <= jj < j && #[trigger] labels@[jj] != END_CODE ==> subtree_ok(
                        self.nodes@,
                        base ^ labels@[jj],
                        cs,
                        vals@,
                        starts@[jj] as int,
                        starts@[jj + 1] as int,
                        depth + 1,
                    ) && closed(self.nodes@, sets[jj]) && sets[jj].contains(base ^ labels@[jj]),
                forall|jj: int, y: u32|
                    0 <= jj < j && #[trigger] sets[jj].contains(y) ==> (y as int) < self.nodes@.len()
                        && self.checker.fixed_spec(y as int) && (y == (base ^ labels@[jj]) || !((y as int)
                        < nn.nodes@.len() && nn.checker.fixed_spec(y as int))),
                forall|y: u32|
                    #[trigger] newly_fixed(nn, *self, y) ==> exists|jj: int|
                        0 <= jj < j && #[trigger] sets[jj].contains(y),
        {
            let ghost cur = *self;
            if labels[j] != END_CODE {
                let child_idx = base ^ labels[j];
                let first_len = keys[starts[j]].len();
                proof {
                    assert(label_at(cs[starts@[j as int] as int], depth as int) == labels@[j as int]);
                    assert forall|k: int| starts@[j as int] <= k < starts@[j + 1] implies (#[trigger] keys@[k]@).take(depth + 1) == keys@[starts@[j as int] as int]@.take(depth + 1) by {
                        let k0 = starts@[j as int] as int;
                        assert(label_at(cs[k], depth as int) == labels@[j as int]);
                        assert(keys@[k]@.take(depth + 1) =~= keys@[k]@.take(depth as int).push(keys@[k]@[depth as int]));
                        assert(keys@[k0]@.take(depth + 1) =~= keys@[k0]@.take(depth as int).push(keys@[k0]@[depth as int]));
                    }
                    assert forall|k: int| starts@[j as int] <= k < starts@[j + 1] implies depth + 1 <= #[trigger] keys@[k]@.len() <= max_len by {
                        assert(label_at(cs[k], depth as int) == labels@[j as int]);
                    }
                    assert(self.nodes@[child_idx as int].check_spec() == node_idx);
                }
                let ghost u = (max_len - depth - 1) * node_growth(bits);
                let ghost s0 = starts@[j as int] - lo;
                let ghost s1 = starts@[j + 1] - lo;
                proof {
                    assert(s0 < s1 <= hi - lo);
                    assert(u >= 0) by (nonlinear_arith)
                        requires
                            node_growth(bits) >= 64,
                            max_len - depth - 1 >= 0,
                            u == (max_len - depth - 1) * node_growth(bits),
                    ;
                    assert((starts@[j + 1] - starts@[j as int]) * (max_len - (depth + 1)) * node_growth(bits)
                        == (s1 - s0) * u) by (nonlinear_arith)
                        requires
                            node_growth(bits) >= 64,
                            u == (max_len - depth - 1) * node_growth(bits),
                            s1 - s0 == starts@[j + 1] - starts@[j as int],
                    ;
                    assert(s0 * u + (s1 - s0) * u == s1 * u) by (nonlinear_arith);
                    assert(s1 * u <= (hi - lo) * u) by (nonlinear_arith)
                        requires
                            node_growth(bits) >= 64,
                            s1 <= hi - lo,
                            u >= 0,
                    ;
                    assert((hi - lo) * (max_len - depth) * node_growth(bits) == (hi - lo) * u + (hi - lo)
                        * node_growth(bits)) by (nonlinear_arith)
                        requires
                            node_growth(bits) >= 64,
                            u == (max_len - depth - 1) * node_growth(bits),
                    ;
                    assert((hi - lo) * node_growth(bits) >= node_growth(bits)) by (nonlinear_arith)
                        requires
                            node_growth(bits) >= 64,
                            hi - lo >= 1,
                    ;
                }
                self.arrange(keys, vals, starts[j], starts[j + 1], depth + 1, child_idx, Ghost(max_len), Ghost(bits))?;
                proof {
                    lemma_child_step(a, nn, cur, *self, node_idx, base, labels@, starts@, sets, cs, vals@, depth as int, j as int);
                    sets = sets.push(owned(cur, *self, child_idx));
                }
            } else {
                proof {
                    let u = (max_len - depth - 1) * node_growth(bits);
                    assert(u >= 0) by (nonlinear_arith)
                        requires
                            node_growth(bits) >= 64,
                            max_len - depth - 1 >= 0,
                            u == (max_len - depth - 1) * node_growth(bits),
                    ;
                    assert((starts@[j as int] - lo) * u <= (starts@[j + 1] - lo) * u) by (nonlinear_arith)
                        requires
                            node_growth(bits) >= 64,
                            starts@[j as int] < starts@[j + 1],
                            u >= 0,
                    ;
                    let old_sets = sets;
                    sets = sets.push(Set::empty());
                    assert forall|y: u32| #[trigger] newly_fixed(nn, *self, y) implies exists|jj: int|
                        0 <= jj < j + 1 && #[trigger] sets[jj].contains(y) by {
                        let jj = choose|jj: int| 0 <= jj < j && #[trigger] old_sets[jj].contains(y);
                        assert(sets[jj] == old_sets[jj]);
                        assert(sets[jj].contains(y));
                    }
                    assert forall|jj: int, y: u32|
                        0 <= jj < j + 1 && #[trigger] sets[jj].contains(y) implies (y as int) < self.nodes@.len()
                            && self.checker.fixed_spec(y as int) && (y == (base ^ labels@[jj]) || !((y as int)
                            < nn.nodes@.len() && nn.checker.fixed_spec(y as int))) by {
                        if jj < j {
                            assert(sets[jj] == old_sets[jj]);
                        }
                    }
                    assert forall|jj: int|
                        0 <= jj < j + 1 && #[trigger] labels@[jj] != END_CODE implies subtree_ok(
                            self.nodes@,
                            base ^ labels@[jj],
                            cs,
                            vals@,
                            starts@[jj] as int,
                            starts@[jj + 1] as int,
                            depth + 1,
                        ) && closed(self.nodes@, sets[jj]) && sets[jj].contains(base ^ labels@[jj]) by {
                        if jj < j {
                            assert(sets[jj] == old_sets[jj]);
                        }
                    }
                }
            }
        }
        proof {
            assert(starts@[n_labels as int] == hi);
            lemma_arrange_done(a, nn, *self, node_idx, base, labels@, starts@, group, sets, cs, vals@, lo as int, hi as int, depth as int, has_end);
        }
        Ok(())
    }
}

} // verus!
