//! The substitution table: 256 bytes, one per byte value, meant to be a
//! permutation of `0..=255`.
//!
//! The table is modelled as a `Seq<u8>` of length 256. Forward lookup reads
//! the slot selected by the low eight bits of the index; inverse lookup scans
//! the slots `0..255` for the first one that holds the wanted byte. The last
//! slot is never scanned, so the byte stored there has no inverse.

use vstd::prelude::*;

verus! {

/// No byte occurs twice among the first `n` slots of `t`.
pub open spec fn distinct_before(t: Seq<u8>, n: int) -> bool {
    forall|i: int, j: int| 0 <= i < j < n ==> t[i] != t[j]
}

/// `v` is stored in one of the first `n` slots of `t`.
pub open spec fn occurs_before(t: Seq<u8>, v: u8, n: int) -> bool {
    exists|j: int| 0 <= j < n && t[j] == v
}

/// `t` is a substitution table in which every byte value appears exactly once.
pub open spec fn is_permutation(t: Seq<u8>) -> bool {
    t.len() == 256 && distinct_before(t, 256)
}

/// Forward lookup: the slot selected by the low eight bits of `index`.
pub open spec fn spec_substitute(t: Seq<u8>, index: int) -> u8 {
    t[index % 256]
}

/// Inverse lookup can answer for `v`: one of the slots `0..255` holds it.
pub open spec fn has_inverse(t: Seq<u8>, v: u8) -> bool {
    occurs_before(t, v, 255)
}

/// `i` is the first of the slots `0..255` that holds `v`.
pub open spec fn is_first_match(t: Seq<u8>, v: u8, i: int) -> bool {
    &&& 0 <= i < 255
    &&& t[i] == v
    &&& forall|j: int| 0 <= j < i ==> t[j] != v
}

/// Inverse lookup: the first of the slots `0..255` that holds `v`.
/// Meaningful only where `has_inverse(t, v)`.
pub open spec fn spec_inv_substitute(t: Seq<u8>, v: u8) -> u8 {
    choose|i: u8| is_first_match(t, v, i as int)
}

/// What a table read back from storage looks like: the stored bytes fill the
/// slots from the front, slots beyond the stored bytes are zero, and stored
/// bytes beyond slot 255 are ignored.
pub open spec fn loaded_table(stored: Seq<u8>) -> Seq<u8> {
    Seq::new(
        256,
        |i: int|
            if i < stored.len() {
                stored[i]
            } else {
                0u8
            },
    )
}

/// A first match is the only first match.
pub proof fn lemma_first_match_unique(t: Seq<u8>, v: u8, i: int, j: int)
    requires
        is_first_match(t, v, i),
        is_first_match(t, v, j),
    ensures
        i == j,
{
    if i < j {
        assert(t[i] != v);
    } else if j < i {
        assert(t[j] != v);
    }
}

/// Where `v` has an inverse, `spec_inv_substitute` names its first match.
pub proof fn lemma_inverse_is_first_match(t: Seq<u8>, v: u8)
    requires
        has_inverse(t, v),
    ensures
        is_first_match(t, v, spec_inv_substitute(t, v) as int),
{
    let first = first_match_below(t, v, 255);
    assert(is_first_match(t, v, first as u8 as int));
}

/// The least slot below `n` that holds `v`, found by looking at the slots
/// below `n - 1` first.
proof fn first_match_below(t: Seq<u8>, v: u8, n: int) -> (i: int)
    requires
        0 <= n <= 255,
        occurs_before(t, v, n),
    ensures
        0 <= i < n,
        is_first_match(t, v, i),
    decreases n,
{
    if occurs_before(t, v, n - 1) {
        first_match_below(t, v, n - 1)
    } else {
        let j = choose|j: int| 0 <= j < n && t[j] == v;
        assert(j == n - 1) by {
            if j < n - 1 {
                assert(occurs_before(t, v, n - 1));
            }
        }
        assert forall|k: int| 0 <= k < j implies t[k] != v by {
            if t[k] == v {
                assert(occurs_before(t, v, n - 1));
            }
        }
        j
    }
}

/// Fewer than 256 slots cannot hold all 256 byte values: some byte is stored
/// in none of the first `n` slots.
pub proof fn lemma_unused_exists(t: Seq<u8>, n: int)
    requires
        0 <= n < 256,
        n <= t.len(),
    ensures
        exists|v: u8| !occurs_before(t, v, n),
{
    if forall|v: u8| occurs_before(t, v, n) {
        let used = t.take(n).to_set();
        let widen = |v: u8| v as int;
        let all = vstd::set_lib::set_int_range(0, 256);
        t.take(n).lemma_cardinality_of_set();
        vstd::seq_lib::seq_to_set_is_finite(t.take(n));
        vstd::set_lib::lemma_map_size_bound(used, used.map(widen), widen);
        vstd::set_lib::lemma_int_range(0, 256);
        assert forall|k: int| all.contains(k) implies used.map(widen).contains(k) by {
            let v = k as u8;
            assert(occurs_before(t, v, n));
            let j = choose|j: int| 0 <= j < n && t[j] == v;
            assert(t.take(n)[j] == v);
            assert(used.contains(v));
            assert(widen(v) == k);
        }
        vstd::set_lib::lemma_len_subset(all, used.map(widen));
    }
}

/// In a permutation every byte value is stored in some slot.
pub proof fn lemma_permutation_is_onto(t: Seq<u8>, v: u8)
    requires
        is_permutation(t),
    ensures
        occurs_before(t, v, 256),
{
    let used = t.to_set();
    let widen = |v: u8| v as int;
    let all = vstd::set_lib::set_int_range(0, 256);
    assert(t.no_duplicates());
    t.unique_seq_to_set();
    vstd::seq_lib::seq_to_set_is_finite(t);
    assert(vstd::relations::injective_on(widen, used));
    vstd::set_lib::lemma_map_size(used, used.map(widen), widen);
    vstd::set_lib::lemma_int_range(0, 256);
    assert(used.map(widen).subset_of(all));
    vstd::set_lib::lemma_subset_equality(used.map(widen), all);
    assert(all.contains(v as int));
    assert(used.map(widen).contains(v as int));
    let w = choose|w: u8| used.contains(w) && widen(w) == v as int;
    assert(w == v);
    assert(t.contains(v));
}

/// Inverse lookup undoes forward lookup: for a permutation `t` and any
/// index whose low eight bits are not 255, the inverse of the substituted
/// byte exists and is those low eight bits.
pub proof fn lemma_inverse_of_substitute(t: Seq<u8>, index: int)
    requires
        is_permutation(t),
        index % 256 != 255,
    ensures
        has_inverse(t, spec_substitute(t, index)),
        spec_inv_substitute(t, spec_substitute(t, index)) == index % 256,
{
    let slot = index % 256;
    let v = spec_substitute(t, index);
    assert(0 <= slot < 255 && t[slot] == v);
    lemma_inverse_is_first_match(t, v);
    let found = spec_inv_substitute(t, v) as int;
    if found < slot {
        assert(t[found] != t[slot]);
    } else if slot < found {
        assert(t[slot] != t[found]);
    }
}

/// In a permutation the byte in the last slot is the one byte without an
/// inverse: forward lookup at an index whose low eight bits are 255 gives a
/// byte that inverse lookup cannot answer for.
pub proof fn lemma_last_slot_has_no_inverse(t: Seq<u8>, v: u8)
    requires
        is_permutation(t),
    ensures
        has_inverse(t, v) <==> v != t[255],
{
    if has_inverse(t, v) {
        let j = choose|j: int| 0 <= j < 255 && t[j] == v;
        assert(t[j] != t[255]);
    }
    if v != t[255] {
        lemma_permutation_is_onto(t, v);
        let j = choose|j: int| 0 <= j < 256 && t[j] == v;
        assert(0 <= j < 255 && t[j] == v);
    }
}

/// Storing a table and loading it again gives the same table: the 256
/// bytes of a table are loaded as they are.
pub proof fn lemma_reload_is_identity(t: Seq<u8>)
    requires
        t.len() == 256,
    ensures
        loaded_table(t) == t,
{
    assert(loaded_table(t) =~= t);
}

/// How many random bytes are drawn for one slot before the slot is filled
/// with the smallest unused byte instead. A draw for the last slot is
/// rejected with probability 255/256, so the limit is reached there with
/// probability below 1e-100, and less often for every other slot.
pub const DRAW_LIMIT: u32 = 65_536;

/// One byte from `rand::random`, which draws it from the thread-local
/// generator of the `rand` crate. Nothing is claimed about the byte. The
/// call panics only where the operating system cannot seed that generator.
#[verifier::external_body]
fn random_byte() -> u8 {
    rand::random::<u8>()
}

pub struct SBox {
    sbox: [u8; 256],
}

impl View for SBox {
    type V = Seq<u8>;

    closed spec fn view(&self) -> Seq<u8> {
        self.sbox@
    }
}

impl SBox {
    /// Every table has 256 slots.
    pub proof fn lemma_len(&self)
        ensures
            self@.len() == 256,
    {
    }

    /// Builds the table from what storage gave.
    ///
    /// `Some(bytes)` is what was read from the stored table: the bytes
    /// become the table as they are, without a check that they form a
    /// permutation; a short read leaves the remaining slots zero. `None`
    /// means that no stored table could be opened: a fresh permutation is
    /// generated.
    pub fn initiate(stored: Option<&[u8]>) -> (r: SBox)
        ensures
            r@.len() == 256,
            stored matches Some(bytes) ==> r@ == loaded_table(bytes@),
            stored is None ==> is_permutation(r@),
    {
        match stored {
            Some(bytes) => {
                let mut sb: [u8; 256] = [0u8; 256];
                let mut i: usize = 0;
                while i < 256 && i < bytes.len()
                    invariant
                        i <= 256,
                        i <= bytes@.len(),
                        forall|j: int| 0 <= j < i ==> sb@[j] == bytes@[j],
                        forall|j: int| i <= j < 256 ==> sb@[j] == 0u8,
                    decreases 256 - i,
                {
                    sb[i] = bytes[i];
                    i += 1;
                }
                assert(sb@ =~= loaded_table(bytes@));
                SBox { sbox: sb }
            },
            None => SBox { sbox: Self::generate_sbox() },
        }
    }

    /// The 256 bytes of the table in slot order, as they are stored.
    pub fn table(&self) -> (r: &[u8; 256])
        ensures
            r@ == self@,
    {
        &self.sbox
    }

    /// Whether `candidate` is stored in one of the first `before` slots.
    pub fn is_contained(sb: &[u8; 256], candidate: u8, before: usize) -> (r: bool)
        requires
            before <= 256,
        ensures
            r == occurs_before(sb@, candidate, before as int),
    {
        let mut j: usize = 0;
        while j < before
            invariant
                j <= before <= 256,
                forall|k: int| 0 <= k < j ==> sb@[k] != candidate,
            decreases before - j,
        {
            if sb[j] == candidate {
                return true;
            }
            j += 1;
        }
        false
    }

    /// The smallest byte that is stored in none of the first `before` slots.
    pub fn first_unused(sb: &[u8; 256], before: usize) -> (r: u8)
        requires
            before < 256,
        ensures
            !occurs_before(sb@, r, before as int),
            forall|v: u8| v < r ==> occurs_before(sb@, v, before as int),
    {
        let mut v: u8 = 0;
        while Self::is_contained(sb, v, before)
            invariant
                before < 256,
                forall|w: u8| w < v ==> occurs_before(sb@, w, before as int),
            decreases 255 - v,
        {
            proof {
                if v == 255 {
                    lemma_unused_exists(sb@, before as int);
                }
            }
            v += 1;
        }
        v
    }

    /// A byte for slot `before` that none of the earlier slots holds: the
    /// first of up to `DRAW_LIMIT` random bytes that is unused, or, should
    /// every one of them be rejected, the smallest unused byte.
    fn draw_unused(sb: &[u8; 256], before: usize) -> (r: u8)
        requires
            before < 256,
        ensures
            !occurs_before(sb@, r, before as int),
    {
        let mut draws: u32 = 0;
        while draws < DRAW_LIMIT
            invariant
                before < 256,
            decreases DRAW_LIMIT - draws,
        {
            let r: u8 = random_byte();
            if before == 0 || !Self::is_contained(sb, r, before) {
                return r;
            }
            draws += 1;
        }
        Self::first_unused(sb, before)
    }

    /// A fresh random permutation of the 256 byte values, built slot by
    /// slot: each slot takes a random byte that no earlier slot holds.
    fn generate_sbox() -> (sb: [u8; 256])
        ensures
            is_permutation(sb@),
    {
        let mut sb: [u8; 256] = [0u8; 256];
        let mut i: usize = 0;
        while i < 256
            invariant
                i <= 256,
                distinct_before(sb@, i as int),
            decreases 256 - i,
        {
            let r: u8 = Self::draw_unused(&sb, i);
            sb[i] = r;
            i += 1;
        }
        sb
    }

    /// Forward lookup. Any index is accepted; only its low eight bits count.
    pub fn substitute(&self, input: usize) -> (r: u8)
        ensures
            r == spec_substitute(self@, input as int),
    {
        let idx: usize = input & 0xFF;
        assert(idx == input % 256) by (bit_vector)
            requires
                idx == input & 0xFF,
        ;
        self.sbox[idx]
    }

    /// The first of the slots `0..255` that holds `input`, if there is one.
    fn find_inverse(&self, input: u8) -> (r: Option<u8>)
        ensures
            r is Some <==> has_inverse(self@, input),
            r matches Some(i) ==> is_first_match(self@, input, i as int),
    {
        let mut i: usize = 0;
        while i < 255
            invariant
                i <= 255,
                forall|j: int| 0 <= j < i ==> self@[j] != input,
            decreases 255 - i,
        {
            if self.substitute(i) == input {
                assert(occurs_before(self@, input, 255));
                return Some(i as u8);
            }
            i += 1;
        }
        None
    }

    /// Whether `inv_substitute` can answer for `input`.
    pub fn has_inverse(&self, input: u8) -> (r: bool)
        ensures
            r == has_inverse(self@, input),
    {
        self.find_inverse(input).is_some()
    }

    /// Inverse lookup: the first of the slots `0..255` that holds `input`.
    ///
    /// The last slot is not searched. A byte that is stored nowhere in the
    /// slots `0..255` has no inverse and must not be passed in.
    pub fn inv_substitute(&self, input: u8) -> (r: u8)
        requires
            has_inverse(self@, input),
        ensures
            is_first_match(self@, input, r as int),
            r == spec_inv_substitute(self@, input),
    {
        match self.find_inverse(input) {
            Some(i) => {
                proof {
                    lemma_inverse_is_first_match(self@, input);
                    lemma_first_match_unique(
                        self@,
                        input,
                        i as int,
                        spec_inv_substitute(self@, input) as int,
                    );
                }
                i
            },
            None => vstd::pervasive::unreached(),
        }
    }
}

} // verus!
