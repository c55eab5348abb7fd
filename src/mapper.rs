//! Dense codes for the characters of the keys.
use vstd::prelude::*;

verus! {

/// Table entry of a character that has no code.
pub const INVALID_CODE: u32 = 0xffff_ffff;

/// Every character of `keys` has a scalar value below `b`.
pub open spec fn scalars_below(keys: Seq<Vec<char>>, b: int) -> bool {
    forall|k: int, d: int|
        0 <= k < keys.len() && 0 <= d < keys[k]@.len() ==> ((#[trigger] keys[k]@[d]) as u32) < b
}

/// The scalar value of `c`.
fn scalar_value(c: char) -> (r: u32)
    ensures
        r == c as u32,
        r <= 0x10_ffff,
{
    c as u32
}

/// Maps each character that occurs in the keys to a code in `1..`, in
/// ascending order of the characters; `0` stays reserved for the end of a key.
pub struct CodeMapper {
    pub(crate) table: Vec<u32>,
}

impl CodeMapper {
    /// The code of `c`, if it has one.
    pub open(crate) spec fn code_spec(&self, c: char) -> Option<u32> {
        let i = c as u32 as int;
        if i < self.table@.len() && self.table@[i] != INVALID_CODE {
            Some(self.table@[i])
        } else {
            None
        }
    }

    /// Number of entries of the table.
    pub open(crate) spec fn table_len(&self) -> nat {
        self.table@.len()
    }

    /// The codes of the characters of `s`, one for each.
    pub open spec fn map_spec(&self, s: Seq<char>) -> Seq<Option<u32>> {
        Seq::new(s.len(), |i: int| self.code_spec(s[i]))
    }

    /// Codes are positive, below the table's length, and ordered as the
    /// characters are.
    pub open(crate) spec fn wf(&self) -> bool {
        &&& self.table@.len() <= 0x11_0000
        &&& forall|c: char|
            #[trigger] self.code_spec(c) is Some ==> 1 <= self.code_spec(c)->0 <= self.table@.len()
        &&& forall|c1: char, c2: char|
            (c1 as u32) < (c2 as u32) && #[trigger] self.code_spec(c1) is Some
                && #[trigger] self.code_spec(c2) is Some ==> self.code_spec(c1)->0
                < self.code_spec(c2)->0
    }

    /// A mapper that gives a code to every character of `keys`.
    pub fn new(keys: &Vec<Vec<char>>) -> (r: Self)
        ensures
            r.wf(),
            forall|k: int, d: int|
                0 <= k < keys@.len() && 0 <= d < keys@[k]@.len() ==> #[trigger] r.code_spec(
                    keys@[k]@[d],
                ) is Some,
            forall|b: int| 1 <= b && #[trigger] scalars_below(keys@, b) ==> r.table_len() <= b,
    {
        // The largest character.
        let mut max_c: u32 = 0;
        for k in 0..keys.len()
            invariant
                max_c <= 0x10_ffff,
                max_c == 0 || exists|kk: int, dd: int|
                    0 <= kk < keys@.len() && 0 <= dd < keys@[kk]@.len() && (keys@[kk]@[dd] as u32)
                        == max_c,
                forall|kk: int, d: int|
                    0 <= kk < k && 0 <= d < keys@[kk]@.len() ==> (keys@[kk]@[d] as u32) <= max_c,
        {
            let key = &keys[k];
            for d in 0..key.len()
                invariant
                    max_c <= 0x10_ffff,
                    max_c == 0 || exists|kk: int, dd: int|
                        0 <= kk < keys@.len() && 0 <= dd < keys@[kk]@.len() && (keys@[kk]@[dd] as u32)
                            == max_c,
                    0 <= k < keys@.len(),
                    key == keys@[k as int],
                    forall|kk: int, dd: int|
                        0 <= kk < k && 0 <= dd < keys@[kk]@.len() ==> (keys@[kk]@[dd] as u32)
                            <= max_c,
                    forall|dd: int| 0 <= dd < d ==> (keys@[k as int]@[dd] as u32) <= max_c,
            {
                let c = scalar_value(key[d]);
                if c > max_c {
                    max_c = c;
                    assert((keys@[k as int]@[d as int] as u32) == max_c);
                }
            }
        }
        let n = max_c as usize + 1;
        let mut table: Vec<u32> = vec![INVALID_CODE; n];
        // Mark the characters that occur.
        for k in 0..keys.len()
            invariant
                table@.len() == n,
                n == max_c + 1,
                forall|kk: int, d: int|
                    0 <= kk < keys@.len() && 0 <= d < keys@[kk]@.len() ==> (keys@[kk]@[d] as u32)
                        <= max_c,
                forall|i: int| 0 <= i < n ==> table@[i] == 0 || table@[i] == INVALID_CODE,
                forall|kk: int, d: int|
                    0 <= kk < k && 0 <= d < keys@[kk]@.len() ==> table@[keys@[kk]@[d] as u32 as int]
                        == 0,
        {
            let key = &keys[k];
            for d in 0..key.len()
                invariant
                    table@.len() == n,
                    n == max_c + 1,
                    0 <= k < keys@.len(),
                    key == keys@[k as int],
                    forall|kk: int, dd: int|
                        0 <= kk < keys@.len() && 0 <= dd < keys@[kk]@.len() ==> (keys@[kk]@[dd] as u32)
                            <= max_c,
                    forall|i: int| 0 <= i < n ==> table@[i] == 0 || table@[i] == INVALID_CODE,
                    forall|kk: int, dd: int|
                        0 <= kk < k && 0 <= dd < keys@[kk]@.len() ==> table@[keys@[kk]@[dd] as u32 as int]
                            == 0,
                    forall|dd: int| 0 <= dd < d ==> table@[keys@[k as int]@[dd] as u32 as int] == 0,
            {
                let c = scalar_value(key[d]);
                table.set(c as usize, 0);
            }
        }
        let ghost marked = table@;
        // Number the marked characters in ascending order.
        let mut code: u32 = 1;
        for i in 0..n
            invariant
                table@.len() == n,
                marked.len() == n,
                n <= 0x11_0000,
                1 <= code <= i + 1,
                forall|j: int| 0 <= j < n ==> (table@[j] == INVALID_CODE) == (marked[j] == INVALID_CODE),
                forall|j: int| i <= j < n ==> table@[j] == marked[j],
                forall|j: int| 0 <= j < i && table@[j] != INVALID_CODE ==> 1 <= table@[j] < code,
                forall|j1: int, j2: int|
                    0 <= j1 < j2 < i && table@[j1] != INVALID_CODE && table@[j2] != INVALID_CODE
                        ==> table@[j1] < table@[j2],
        {
            if table[i] != INVALID_CODE {
                table.set(i, code);
                code = code + 1;
            }
        }
        let r = CodeMapper { table };
        assert forall|b: int| 1 <= b && #[trigger] scalars_below(keys@, b) implies r.table_len() <= b by {
            if max_c != 0 {
                let (kk, dd) = choose|kk: int, dd: int|
                    0 <= kk < keys@.len() && 0 <= dd < keys@[kk]@.len() && (keys@[kk]@[dd] as u32)
                        == max_c;
                assert((keys@[kk]@[dd] as u32) < b);
            }
        }
        assert forall|k: int, d: int|
            0 <= k < keys@.len() && 0 <= d < keys@[k]@.len() implies #[trigger] r.code_spec(
                keys@[k]@[d],
            ) is Some by {
            let c = keys@[k]@[d] as u32 as int;
            assert(marked[c] == 0);
        }
        r
    }

    /// The code of `c`, if it has one.
    pub fn get(&self, c: char) -> (r: Option<u32>)
        ensures
            r == self.code_spec(c),
    {
        let i = c as u32 as usize;
        if i < self.table.len() && self.table[i] != INVALID_CODE {
            Some(self.table[i])
        } else {
            None
        }
    }

    /// Bytes that the table takes on the heap.
    pub fn heap_bytes(&self) -> (r: usize)
        requires
            self.wf(),
        ensures
            r == self.table_len() * 4,
    {
        self.table.len() * 4
    }
}

} // verus!
