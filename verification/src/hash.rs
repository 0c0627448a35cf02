//! SDBM-style hashing and a separate-chaining hash table.

use vstd::prelude::*;

verus! {

// ---------------------------------------------------------------------------
// The SDBM accumulator, as a mathematical function.
// ---------------------------------------------------------------------------

/// One step of the SDBM recurrence: `unit + (s << 6) + (s << 16) - s`,
/// with every operation wrapping on 64-bit overflow.
pub open spec fn sdbm_step(state: u64, unit: u64) -> u64 {
    unit.wrapping_add(state << 6).wrapping_add(state << 16).wrapping_sub(state)
}

/// The accumulator state after feeding `units` left to right, starting
/// from `state`.
pub open spec fn sdbm_fold(state: u64, units: Seq<u64>) -> u64
    decreases units.len(),
{
    if units.len() == 0 {
        state
    } else {
        sdbm_step(sdbm_fold(state, units.drop_last()), units.last())
    }
}

/// A byte sequence widened to accumulator units, one unit per byte.
pub open spec fn byte_units(bytes: Seq<u8>) -> Seq<u64> {
    bytes.map_values(|b: u8| b as u64)
}

/// The UTF-16 encoding of one character, widened to accumulator units:
/// code points below `0x10000` are one unit, the rest a surrogate pair.
pub open spec fn utf16_char(c: char) -> Seq<u64> {
    let v = c as u32;
    if v < 0x10000 {
        seq![v as u64]
    } else {
        let w = (v - 0x10000) as u32;
        seq![(0xD800 + (w >> 10)) as u64, (0xDC00 + (w & 0x3FF)) as u64]
    }
}

/// The UTF-16 encoding of a character sequence, widened to accumulator units.
pub open spec fn utf16_units(s: Seq<char>) -> Seq<u64>
    decreases s.len(),
{
    if s.len() == 0 {
        Seq::empty()
    } else {
        utf16_units(s.drop_last()) + utf16_char(s.last())
    }
}

/// Folding over no units leaves the state unchanged.
pub proof fn lemma_sdbm_fold_empty(state: u64)
    ensures
        sdbm_fold(state, Seq::<u64>::empty()) == state,
{
}

/// Folding over one more unit is one more step.
pub proof fn lemma_sdbm_fold_push(state: u64, units: Seq<u64>, unit: u64)
    ensures
        sdbm_fold(state, units.push(unit)) == sdbm_step(sdbm_fold(state, units), unit),
{
    assert(units.push(unit).drop_last() =~= units);
    assert(units.push(unit).last() == unit);
}

// ---------------------------------------------------------------------------
// The stateful hasher.
// ---------------------------------------------------------------------------

/// A deterministic, non-cryptographic hasher: a running 64-bit SDBM
/// accumulator. Its view is the current accumulator state.
pub struct SdbmHasher {
    state: u64,
}

impl View for SdbmHasher {
    type V = u64;

    closed spec fn view(&self) -> u64 {
        self.state
    }
}

impl SdbmHasher {
    /// A hasher starting from the given accumulator state.
    pub fn new(state: u64) -> (h: Self)
        ensures
            h@ == state,
    {
        Self { state }
    }

    /// Feed one unit through the SDBM recurrence.
    pub fn hash_int(&mut self, number: u64)
        ensures
            final(self)@ == sdbm_step(old(self)@, number),
    {
        self.state = number
            .wrapping_add(self.state << 6)
            .wrapping_add(self.state << 16)
            .wrapping_sub(self.state);
    }

    /// Feed a string, one UTF-16 code unit at a time.
    pub fn hash_string(&mut self, string: &str)
        ensures
            final(self)@ == sdbm_fold(old(self)@, utf16_units(string@)),
    {
        let n = string.unicode_len();
        let mut i: usize = 0;
        while i < n
            invariant
                n == string@.len(),
                i <= n,
                self@ == sdbm_fold(old(self)@, utf16_units(string@.take(i as int))),
            decreases n - i,
        {
            let c = string.get_char(i);
            let v: u32 = c as u32;
            if v < 0x10000 {
                self.hash_int(v as u64);
            } else {
                let w: u32 = v - 0x10000;
                self.hash_int(0xD800u64 + ((w >> 10) as u64));
                self.hash_int(0xDC00u64 + ((w & 0x3FF) as u64));
            }
            proof {
                let pre = string@.take(i as int);
                let post = string@.take(i + 1 as int);
                assert(post.drop_last() =~= pre);
                assert(post.last() == c);
                let u = utf16_char(c);
                assert(utf16_units(post) == utf16_units(pre) + u);
                if u.len() == 1 {
                    assert(utf16_units(pre) + u =~= utf16_units(pre).push(u[0]));
                    lemma_sdbm_fold_push(old(self)@, utf16_units(pre), u[0]);
                } else {
                    assert(utf16_units(pre) + u =~= utf16_units(pre).push(u[0]).push(u[1]));
                    lemma_sdbm_fold_push(old(self)@, utf16_units(pre), u[0]);
                    lemma_sdbm_fold_push(old(self)@, utf16_units(pre).push(u[0]), u[1]);
                }
            }
            i = i + 1;
        }
        proof {
            assert(string@.take(n as int) =~= string@);
        }
    }

    /// The current accumulator state as the digest.
    pub fn finish(&self) -> (digest: u64)
        ensures
            digest == self@,
    {
        self.state
    }

    /// Feed a byte slice, one byte per unit.
    pub fn write(&mut self, bytes: &[u8])
        ensures
            final(self)@ == sdbm_fold(old(self)@, byte_units(bytes@)),
    {
        let n = bytes.len();
        let mut i: usize = 0;
        while i < n
            invariant
                n == bytes@.len(),
                i <= n,
                self@ == sdbm_fold(old(self)@, byte_units(bytes@).take(i as int)),
            decreases n - i,
        {
            let b = bytes[i];
            self.hash_int(b as u64);
            proof {
                let us = byte_units(bytes@);
                assert(us.take(i + 1 as int) =~= us.take(i as int).push(b as u64));
                lemma_sdbm_fold_push(old(self)@, us.take(i as int), b as u64);
            }
            i = i + 1;
        }
        proof {
            assert(byte_units(bytes@).take(n as int) =~= byte_units(bytes@));
        }
    }

    /// Feed a single byte.
    pub fn write_u8(&mut self, i: u8)
        ensures
            final(self)@ == sdbm_step(old(self)@, i as u64),
    {
        self.hash_int(i as u64);
    }

    /// Feed a 16-bit unit.
    pub fn write_u16(&mut self, i: u16)
        ensures
            final(self)@ == sdbm_step(old(self)@, i as u64),
    {
        self.hash_int(i as u64);
    }

    /// Feed a 32-bit unit.
    pub fn write_u32(&mut self, i: u32)
        ensures
            final(self)@ == sdbm_step(old(self)@, i as u64),
    {
        self.hash_int(i as u64);
    }

    /// Feed a 64-bit unit.
    pub fn write_u64(&mut self, i: u64)
        ensures
            final(self)@ == sdbm_step(old(self)@, i),
    {
        self.hash_int(i);
    }

    /// Feed a machine word.
    pub fn write_usize(&mut self, i: usize)
        ensures
            final(self)@ == sdbm_step(old(self)@, i as u64),
    {
        self.hash_int(i as u64);
    }
}

// ---------------------------------------------------------------------------
// Hashable keys.
// ---------------------------------------------------------------------------

/// A key the table can hash: it exposes itself as a sequence of accumulator
/// units, and it can decide equality with another key.
pub trait HashKey: Sized {
    /// The units this key feeds to the accumulator.
    spec fn units(&self) -> Seq<u64>;

    /// Feed the key's units to the hasher, in order.
    fn feed(&self, hasher: &mut SdbmHasher)
        ensures
            final(hasher)@ == sdbm_fold(old(hasher)@, self.units());

    /// Decide whether two keys are the same key.
    fn key_eq(&self, other: &Self) -> (r: bool)
        ensures
            r == (self == other);
}

/// The digest of a key: the accumulator run over its units from state zero.
pub open spec fn digest_of<K: HashKey>(k: K) -> u64 {
    sdbm_fold(0, k.units())
}

impl HashKey for u64 {
    open spec fn units(&self) -> Seq<u64> {
        seq![*self]
    }

    fn feed(&self, hasher: &mut SdbmHasher) {
        hasher.hash_int(*self);
        proof {
            lemma_sdbm_fold_empty(old(hasher)@);
            assert(self.units() =~= Seq::<u64>::empty().push(*self));
            lemma_sdbm_fold_push(old(hasher)@, Seq::<u64>::empty(), *self);
        }
    }

    fn key_eq(&self, other: &Self) -> (r: bool) {
        *self == *other
    }
}

impl HashKey for u32 {
    open spec fn units(&self) -> Seq<u64> {
        seq![*self as u64]
    }

    fn feed(&self, hasher: &mut SdbmHasher) {
        hasher.hash_int(*self as u64);
        proof {
            lemma_sdbm_fold_empty(old(hasher)@);
            assert(self.units() =~= Seq::<u64>::empty().push(*self as u64));
            lemma_sdbm_fold_push(old(hasher)@, Seq::<u64>::empty(), *self as u64);
        }
    }

    fn key_eq(&self, other: &Self) -> (r: bool) {
        *self == *other
    }
}

/// Hashing is deterministic: the digest is a function of the characters
/// alone, so hashing equal strings from equal states gives equal digests.
pub proof fn lemma_hash_deterministic(state: u64, s1: Seq<char>, s2: Seq<char>)
    requires
        s1 == s2,
    ensures
        sdbm_fold(state, utf16_units(s1)) == sdbm_fold(state, utf16_units(s2)),
{
}

// ---------------------------------------------------------------------------
// The separate-chaining hash table.
// ---------------------------------------------------------------------------

/// A separate-chaining hash table. Each bucket holds the pairs whose key
/// digest, taken modulo the bucket-array length, is the bucket's index.
/// Its view is the map from live keys to their values.
pub struct HashMap<K, V> {
    buckets: Vec<Vec<(K, V)>>,
    count: usize,
}

impl<K: HashKey, V> HashMap<K, V> {
    /// The bucket a key belongs to, in a bucket array of length `n`.
    pub open spec fn bucket_index_of(k: K, n: int) -> int {
        digest_of(k) as int % n
    }

    /// The bucket contents, one sequence of pairs per bucket.
    pub closed spec fn chains(self) -> Seq<Seq<(K, V)>> {
        Self::chains_of(self.buckets@)
    }

    spec fn chains_of(buckets: Seq<Vec<(K, V)>>) -> Seq<Seq<(K, V)>> {
        buckets.map_values(|b: Vec<(K, V)>| b@)
    }

    /// The current length of the bucket array.
    pub closed spec fn num_buckets(self) -> int {
        self.buckets@.len() as int
    }

    spec fn chains_pos_ok(cs: Seq<Seq<(K, V)>>, i: int, j: int) -> bool {
        0 <= i < cs.len() && 0 <= j < cs[i].len()
    }

    spec fn chain_total(cs: Seq<Seq<(K, V)>>) -> int
        decreases cs.len(),
    {
        if cs.len() == 0 {
            0
        } else {
            Self::chain_total(cs.drop_last()) + cs.last().len()
        }
    }

    /// Every pair sits in the bucket its key's digest selects.
    spec fn chains_placed(cs: Seq<Seq<(K, V)>>) -> bool {
        forall|i: int, j: int|
            Self::chains_pos_ok(cs, i, j) ==> Self::bucket_index_of(
                (#[trigger] cs[i][j]).0,
                cs.len() as int,
            ) == i
    }

    /// No key occurs at two positions.
    spec fn chains_distinct(cs: Seq<Seq<(K, V)>>) -> bool {
        forall|i1: int, j1: int, i2: int, j2: int|
            #![trigger cs[i1][j1], cs[i2][j2]]
            Self::chains_pos_ok(cs, i1, j1) && Self::chains_pos_ok(cs, i2, j2) && (i1 != i2 || j1
                != j2) ==> cs[i1][j1].0 != cs[i2][j2].0
    }

    spec fn chains_contains(cs: Seq<Seq<(K, V)>>, k: K) -> bool {
        exists|i: int, j: int| Self::chains_pos_ok(cs, i, j) && (#[trigger] cs[i][j]).0 == k
    }

    spec fn chains_value(cs: Seq<Seq<(K, V)>>, k: K) -> V {
        let (i, j) = choose|i: int, j: int|
            Self::chains_pos_ok(cs, i, j) && (#[trigger] cs[i][j]).0 == k;
        cs[i][j].1
    }

    spec fn chains_map(cs: Seq<Seq<(K, V)>>) -> Map<K, V> {
        Map::new(|k: K| Self::chains_contains(cs, k), |k: K| Self::chains_value(cs, k))
    }

    spec fn chains_key_set(cs: Seq<Seq<(K, V)>>) -> Set<K> {
        Set::new(|k: K| Self::chains_contains(cs, k))
    }

    /// Well-formedness: the cached count matches the stored pairs, every
    /// pair is in its key's bucket, and keys are unique.
    pub closed spec fn wf(self) -> bool {
        &&& self.count as int == Self::chain_total(self.chains())
        &&& Self::chains_placed(self.chains())
        &&& Self::chains_distinct(self.chains())
    }

    /// A position's pair is in the map, with exactly its value.
    proof fn lemma_chains_at(cs: Seq<Seq<(K, V)>>, i: int, j: int)
        requires
            Self::chains_distinct(cs),
            Self::chains_pos_ok(cs, i, j),
        ensures
            Self::chains_map(cs).contains_key(cs[i][j].0),
            Self::chains_map(cs)[cs[i][j].0] == cs[i][j].1,
    {
        let k = cs[i][j].0;
        assert(Self::chains_pos_ok(cs, i, j) && (cs[i][j]).0 == k);
        assert(Self::chains_contains(cs, k));
        let (i2, j2) = choose|i2: int, j2: int|
            Self::chains_pos_ok(cs, i2, j2) && (#[trigger] cs[i2][j2]).0 == k;
        if i2 != i || j2 != j {
            assert(cs[i2][j2].0 != cs[i][j].0);
            assert(false);
        }
    }

    /// A key at no position is not in the map.
    proof fn lemma_chains_absent(cs: Seq<Seq<(K, V)>>, k: K)
        requires
            forall|i: int, j: int| Self::chains_pos_ok(cs, i, j) ==> (#[trigger] cs[i][j]).0 != k,
        ensures
            !Self::chains_map(cs).contains_key(k),
            !Self::chains_contains(cs, k),
    {
    }

    /// The chains after appending a pair to bucket `i`.
    spec fn appended(cs: Seq<Seq<(K, V)>>, i: int, k: K, v: V) -> Seq<Seq<(K, V)>> {
        cs.update(i, cs[i].push((k, v)))
    }

    /// The chains after swap-removing position `j` of bucket `i`.
    spec fn swap_removed(cs: Seq<Seq<(K, V)>>, i: int, j: int) -> Seq<Seq<(K, V)>> {
        cs.update(i, cs[i].update(j, cs[i].last()).drop_last())
    }

    proof fn lemma_chain_total_nonneg(cs: Seq<Seq<(K, V)>>)
        ensures
            Self::chain_total(cs) >= 0,
        decreases cs.len(),
    {
        if cs.len() > 0 {
            Self::lemma_chain_total_nonneg(cs.drop_last());
        }
    }

    proof fn lemma_chain_total_empty(cs: Seq<Seq<(K, V)>>)
        requires
            forall|i: int| 0 <= i < cs.len() ==> (#[trigger] cs[i]).len() == 0,
        ensures
            Self::chain_total(cs) == 0,
        decreases cs.len(),
    {
        if cs.len() > 0 {
            assert forall|i: int| 0 <= i < cs.drop_last().len() implies (#[trigger] cs.drop_last()[
                i
            ]).len() == 0 by {
                assert(cs.drop_last()[i] == cs[i]);
            }
            Self::lemma_chain_total_empty(cs.drop_last());
        }
    }

    /// Replacing one bucket changes the total by the length difference.
    proof fn lemma_chain_total_update(cs: Seq<Seq<(K, V)>>, i: int, b2: Seq<(K, V)>)
        requires
            0 <= i < cs.len(),
        ensures
            Self::chain_total(cs.update(i, b2)) == Self::chain_total(cs) - cs[i].len() + b2.len(),
        decreases cs.len(),
    {
        let cs2 = cs.update(i, b2);
        if i == cs.len() - 1 {
            assert(cs2.drop_last() =~= cs.drop_last());
            assert(cs2.last() == b2);
        } else {
            assert(cs2.drop_last() =~= cs.drop_last().update(i, b2));
            assert(cs2.last() == cs.last());
            assert(cs.drop_last()[i] == cs[i]);
            Self::lemma_chain_total_update(cs.drop_last(), i, b2);
        }
    }

    /// Appending a fresh key to bucket `i` inserts it into the map.
    proof fn lemma_chains_append(cs: Seq<Seq<(K, V)>>, i: int, k: K, v: V)
        requires
            Self::chains_distinct(cs),
            !Self::chains_contains(cs, k),
            0 <= i < cs.len(),
        ensures
            Self::chains_distinct(Self::appended(cs, i, k, v)),
            Self::chains_map(Self::appended(cs, i, k, v)) =~= Self::chains_map(cs).insert(k, v),
            Self::chain_total(Self::appended(cs, i, k, v)) == Self::chain_total(cs) + 1,
            forall|k2: K|
                Self::chains_contains(Self::appended(cs, i, k, v), k2) <==> (
                Self::chains_contains(cs, k2) || k2 == k),
            Self::chains_placed(cs) && Self::bucket_index_of(k, cs.len() as int) == i
                ==> Self::chains_placed(Self::appended(cs, i, k, v)),
    {
        let cs2 = Self::appended(cs, i, k, v);
        let li = cs[i].len() as int;
        assert(cs2[i] == cs[i].push((k, v)));
        assert(cs2[i][li] == (k, v));
        assert forall|a: int, b2: int|
            Self::chains_pos_ok(cs2, a, b2) && (a != i || b2 != li) implies Self::chains_pos_ok(
            cs,
            a,
            b2,
        ) && cs2[a][b2] == cs[a][b2] by {
            if a == i {
                assert(cs2[i][b2] == cs[i].push((k, v))[b2]);
            }
        }
        assert forall|a1: int, b1: int, a2: int, b2: int|
            Self::chains_pos_ok(cs2, a1, b1) && Self::chains_pos_ok(cs2, a2, b2) && (a1 != a2 || b1
                != b2) implies (#[trigger] cs2[a1][b1]).0 != (#[trigger] cs2[a2][b2]).0 by {
            if (a1 != i || b1 != li) && (a2 != i || b2 != li) {
                assert((cs[a1][b1]).0 != (cs[a2][b2]).0);
            } else if a1 == i && b1 == li && (a2 != i || b2 != li) {
                if (cs[a2][b2]).0 == k {
                    assert(Self::chains_contains(cs, k));
                }
            } else if a2 == i && b2 == li && (a1 != i || b1 != li) {
                if (cs[a1][b1]).0 == k {
                    assert(Self::chains_contains(cs, k));
                }
            }
        }
        assert(Self::chains_distinct(cs2));
        assert forall|k2: K| Self::chains_contains(cs2, k2) implies (Self::chains_contains(cs, k2)
            || k2 == k) by {
            let (a, b2) = choose|a: int, b2: int|
                Self::chains_pos_ok(cs2, a, b2) && (#[trigger] cs2[a][b2]).0 == k2;
            if a != i || b2 != li {
                assert(Self::chains_pos_ok(cs, a, b2) && (cs[a][b2]).0 == k2);
            }
        }
        assert forall|k2: K| Self::chains_contains(cs, k2) || k2 == k implies Self::chains_contains(
            cs2,
            k2,
        ) by {
            if k2 == k {
                assert(Self::chains_pos_ok(cs2, i, li) && (cs2[i][li]).0 == k2);
            } else {
                let (a, b2) = choose|a: int, b2: int|
                    Self::chains_pos_ok(cs, a, b2) && (#[trigger] cs[a][b2]).0 == k2;
                assert(cs2[a][b2] == cs[a][b2]);
                assert(Self::chains_pos_ok(cs2, a, b2) && (cs2[a][b2]).0 == k2);
            }
        }
        let m1 = Self::chains_map(cs);
        let m2 = Self::chains_map(cs2);
        assert forall|k2: K| m2.contains_key(k2) implies m1.insert(k, v).contains_key(k2) && m2[k2]
            == m1.insert(k, v)[k2] by {
            let (a, b2) = choose|a: int, b2: int|
                Self::chains_pos_ok(cs2, a, b2) && (#[trigger] cs2[a][b2]).0 == k2;
            Self::lemma_chains_at(cs2, a, b2);
            if a == i && b2 == li {
                assert(m2[k2] == v);
            } else {
                assert(cs2[a][b2] == cs[a][b2]);
                Self::lemma_chains_at(cs, a, b2);
                assert(k2 != k);
            }
        }
        assert forall|k2: K| m1.insert(k, v).contains_key(k2) implies m2.contains_key(k2) by {
            assert(Self::chains_contains(cs2, k2));
        }
        assert(m2 =~= m1.insert(k, v));
        Self::lemma_chain_total_update(cs, i, cs[i].push((k, v)));
    }

    /// Swap-removing a position removes exactly its key from the map.
    proof fn lemma_chains_swap_remove(cs: Seq<Seq<(K, V)>>, i: int, j: int)
        requires
            Self::chains_distinct(cs),
            Self::chains_pos_ok(cs, i, j),
        ensures
            Self::chains_distinct(Self::swap_removed(cs, i, j)),
            Self::chains_map(Self::swap_removed(cs, i, j)) =~= Self::chains_map(cs).remove(
                cs[i][j].0,
            ),
            Self::chain_total(Self::swap_removed(cs, i, j)) == Self::chain_total(cs) - 1,
            forall|k2: K|
                Self::chains_contains(Self::swap_removed(cs, i, j), k2) <==> (
                Self::chains_contains(cs, k2) && k2 != cs[i][j].0),
            Self::chains_placed(cs) ==> Self::chains_placed(Self::swap_removed(cs, i, j)),
    {
        let cs2 = Self::swap_removed(cs, i, j);
        let k0 = cs[i][j].0;
        let li = cs[i].len() as int;
        assert(cs2[i] == cs[i].update(j, cs[i].last()).drop_last());
        assert(cs2[i].len() == li - 1);
        // every new position holds an old pair, from a source position other than (i, j)
        assert forall|a: int, b2: int| Self::chains_pos_ok(cs2, a, b2) implies {
            let sb = if a == i && b2 == j { li - 1 } else { b2 };
            &&& Self::chains_pos_ok(cs, a, sb)
            &&& cs2[a][b2] == cs[a][sb]
            &&& (a != i || sb != j)
        } by {
            if a == i {
                if b2 == j {
                    assert(cs2[i][b2] == cs[i].update(j, cs[i].last())[b2]);
                    assert(cs[i].last() == cs[i][li - 1]);
                    assert(j != li - 1 || b2 < li - 1);
                } else {
                    assert(cs2[i][b2] == cs[i].update(j, cs[i].last())[b2]);
                }
            }
        }
        assert forall|a1: int, b1: int, a2: int, b2: int|
            Self::chains_pos_ok(cs2, a1, b1) && Self::chains_pos_ok(cs2, a2, b2) && (a1 != a2 || b1
                != b2) implies (#[trigger] cs2[a1][b1]).0 != (#[trigger] cs2[a2][b2]).0 by {
            let s1 = if a1 == i && b1 == j { li - 1 } else { b1 };
            let s2 = if a2 == i && b2 == j { li - 1 } else { b2 };
            assert(cs2[a1][b1] == cs[a1][s1]);
            assert(cs2[a2][b2] == cs[a2][s2]);
            if a1 == a2 && s1 == s2 {
                assert(false);
            } else {
                assert((cs[a1][s1]).0 != (cs[a2][s2]).0);
            }
        }
        assert(Self::chains_distinct(cs2));
        assert forall|k2: K| Self::chains_contains(cs2, k2) implies (Self::chains_contains(cs, k2)
            && k2 != k0) by {
            let (a, b2) = choose|a: int, b2: int|
                Self::chains_pos_ok(cs2, a, b2) && (#[trigger] cs2[a][b2]).0 == k2;
            let sb = if a == i && b2 == j { li - 1 } else { b2 };
            assert(cs2[a][b2] == cs[a][sb]);
            assert(Self::chains_pos_ok(cs, a, sb) && (cs[a][sb]).0 == k2);
            if k2 == k0 {
                assert((cs[a][sb]).0 != (cs[i][j]).0);
            }
        }
        assert forall|k2: K| Self::chains_contains(cs, k2) && k2 != k0 implies
            Self::chains_contains(cs2, k2) by {
            let (a, b2) = choose|a: int, b2: int|
                Self::chains_pos_ok(cs, a, b2) && (#[trigger] cs[a][b2]).0 == k2;
            assert(a != i || b2 != j);
            if a != i {
                assert(cs2[a][b2] == cs[a][b2]);
                assert(Self::chains_pos_ok(cs2, a, b2) && (cs2[a][b2]).0 == k2);
            } else if b2 == li - 1 {
                // the moved pair: it now sits at position j, unless it was removed itself
                assert(j != li - 1);
                assert(cs2[i][j] == cs[i].update(j, cs[i].last())[j]);
                assert(cs2[i][j] == cs[a][b2]);
                assert(Self::chains_pos_ok(cs2, i, j) && (cs2[i][j]).0 == k2);
            } else {
                assert(cs2[a][b2] == cs[a][b2]);
                assert(Self::chains_pos_ok(cs2, a, b2) && (cs2[a][b2]).0 == k2);
            }
        }
        let m1 = Self::chains_map(cs);
        let m2 = Self::chains_map(cs2);
        assert forall|k2: K| m2.contains_key(k2) implies m1.remove(k0).contains_key(k2) && m2[k2]
            == m1.remove(k0)[k2] by {
            let (a, b2) = choose|a: int, b2: int|
                Self::chains_pos_ok(cs2, a, b2) && (#[trigger] cs2[a][b2]).0 == k2;
            Self::lemma_chains_at(cs2, a, b2);
            let sb = if a == i && b2 == j { li - 1 } else { b2 };
            assert(cs2[a][b2] == cs[a][sb]);
            Self::lemma_chains_at(cs, a, sb);
            assert(k2 != k0);
        }
        assert forall|k2: K| m1.remove(k0).contains_key(k2) implies m2.contains_key(k2) by {
            assert(Self::chains_contains(cs, k2) && k2 != k0);
            assert(Self::chains_contains(cs2, k2));
        }
        assert(m2 =~= m1.remove(k0));
        Self::lemma_chain_total_update(cs, i, cs[i].update(j, cs[i].last()).drop_last());
    }

    /// Dropping an empty final bucket leaves the contents unchanged.
    proof fn lemma_chains_drop_empty_last(cs: Seq<Seq<(K, V)>>)
        requires
            cs.len() > 0,
            cs.last().len() == 0,
            Self::chains_distinct(cs),
        ensures
            Self::chains_distinct(cs.drop_last()),
            Self::chains_map(cs.drop_last()) =~= Self::chains_map(cs),
            Self::chain_total(cs.drop_last()) == Self::chain_total(cs),
            forall|k2: K|
                Self::chains_contains(cs.drop_last(), k2) <==> Self::chains_contains(cs, k2),
    {
        let cs2 = cs.drop_last();
        assert forall|a: int, b2: int| Self::chains_pos_ok(cs2, a, b2) implies Self::chains_pos_ok(
            cs,
            a,
            b2,
        ) && cs2[a][b2] == cs[a][b2] by {
            assert(cs2[a] == cs[a]);
        }
        assert forall|a: int, b2: int| Self::chains_pos_ok(cs, a, b2) implies Self::chains_pos_ok(
            cs2,
            a,
            b2,
        ) && cs2[a][b2] == cs[a][b2] by {
            assert(a != cs.len() - 1);
            assert(cs2[a] == cs[a]);
        }
        assert(Self::chains_distinct(cs2));
        assert forall|k2: K| Self::chains_contains(cs2, k2) implies Self::chains_contains(cs, k2) by {
            let (a, b2) = choose|a: int, b2: int|
                Self::chains_pos_ok(cs2, a, b2) && (#[trigger] cs2[a][b2]).0 == k2;
            assert(Self::chains_pos_ok(cs, a, b2) && (cs[a][b2]).0 == k2);
        }
        assert forall|k2: K| Self::chains_contains(cs, k2) implies Self::chains_contains(cs2, k2) by {
            let (a, b2) = choose|a: int, b2: int|
                Self::chains_pos_ok(cs, a, b2) && (#[trigger] cs[a][b2]).0 == k2;
            assert(Self::chains_pos_ok(cs2, a, b2) && (cs2[a][b2]).0 == k2);
        }
        let m1 = Self::chains_map(cs);
        let m2 = Self::chains_map(cs2);
        assert forall|k2: K| m2.contains_key(k2) implies m1.contains_key(k2) && m2[k2] == m1[k2] by {
            let (a, b2) = choose|a: int, b2: int|
                Self::chains_pos_ok(cs2, a, b2) && (#[trigger] cs2[a][b2]).0 == k2;
            Self::lemma_chains_at(cs2, a, b2);
            Self::lemma_chains_at(cs, a, b2);
        }
        assert forall|k2: K| m1.contains_key(k2) implies m2.contains_key(k2) by {
            assert(Self::chains_contains(cs2, k2));
        }
        assert(m2 =~= m1);
        assert(Self::chain_total(cs) == Self::chain_total(cs2) + cs.last().len());
    }

    /// With distinct keys, the number of distinct keys equals the number of
    /// stored pairs.
    proof fn lemma_chains_count(cs: Seq<Seq<(K, V)>>)
        requires
            Self::chains_distinct(cs),
        ensures
            Self::chains_key_set(cs).finite(),
            Self::chains_key_set(cs).len() == Self::chain_total(cs),
        decreases cs.len(), Self::chain_total(cs),
    {
        Self::lemma_chain_total_nonneg(cs);
        if cs.len() == 0 {
            assert forall|k2: K| !Self::chains_contains(cs, k2) by {}
            assert(Self::chains_key_set(cs) =~= Set::<K>::empty());
        } else if cs.last().len() == 0 {
            let cs2 = cs.drop_last();
            Self::lemma_chains_drop_empty_last(cs);
            Self::lemma_chains_count(cs2);
            assert(Self::chains_key_set(cs) =~= Self::chains_key_set(cs2));
        } else {
            let i = cs.len() - 1;
            let l = cs[i].len() - 1;
            assert(Self::chains_pos_ok(cs, i, l));
            let k0 = cs[i][l].0;
            Self::lemma_chains_swap_remove(cs, i, l);
            let cs2 = Self::swap_removed(cs, i, l);
            Self::lemma_chain_total_nonneg(cs2);
            Self::lemma_chains_count(cs2);
            assert(Self::chains_contains(cs, k0)) by {
                assert(Self::chains_pos_ok(cs, i, l) && (cs[i][l]).0 == k0);
            }
            assert(!Self::chains_contains(cs2, k0));
            assert(Self::chains_key_set(cs) =~= Self::chains_key_set(cs2).insert(k0));
        }
    }

    /// The cached count is the number of live keys.
    proof fn lemma_count_matches_view(self)
        requires
            self.wf(),
        ensures
            self@.dom().finite(),
            self@.dom().len() == self.count,
    {
        Self::lemma_chains_count(self.chains());
        assert(self@.dom() =~= Self::chains_key_set(self.chains()));
    }

    /// The bucket a key would live in.
    spec fn home_bucket(cs: Seq<Seq<(K, V)>>, k: K) -> Seq<(K, V)> {
        cs[Self::bucket_index_of(k, cs.len() as int)]
    }

    /// A key absent from its own bucket is at no position at all.
    proof fn lemma_scanned_absent(cs: Seq<Seq<(K, V)>>, k: K)
        requires
            Self::chains_placed(cs),
            cs.len() > 0,
            forall|t: int|
                0 <= t < Self::home_bucket(cs, k).len() ==> (#[trigger] Self::home_bucket(cs, k)[t]).0 != k,
        ensures
            !Self::chains_map(cs).contains_key(k),
    {
        let b = Self::bucket_index_of(k, cs.len() as int);
        assert forall|i: int, j: int|
            Self::chains_pos_ok(cs, i, j) implies (#[trigger] cs[i][j]).0 != k by {
            if cs[i][j].0 == k {
                assert(Self::bucket_index_of(cs[i][j].0, cs.len() as int) == i);
                assert(i == b);
                assert(Self::home_bucket(cs, k)[j] == cs[i][j]);
                assert((Self::home_bucket(cs, k)[j]).0 != k);
            }
        }
        Self::lemma_chains_absent(cs, k);
    }

    /// An empty table: no buckets are allocated until the first insert.
    pub fn new() -> (table: Self)
        ensures
            table.wf(),
            table@ == Map::<K, V>::empty(),
            table@.dom().len() == 0,
            table@.dom().finite(),
            table.num_buckets() == 0,
    {
        let table = Self { buckets: Vec::new(), count: 0 };
        proof {
            assert(table@ =~= Map::<K, V>::empty());
        }
        table
    }

    /// The current bucket-array length, zero until the first insert.
    pub fn bucket_count(&self) -> (n: usize)
        ensures
            n as int == self.num_buckets(),
    {
        self.buckets.len()
    }

    /// The bucket the key would live in now, or nothing while the table
    /// still has no buckets.
    fn get_bucket(&self, key: &K) -> (result: Option<usize>)
        ensures
            match result {
                Some(b) => self.buckets@.len() > 0 && b as int == Self::bucket_index_of(
                    *key,
                    self.buckets@.len() as int,
                ),
                None => self.buckets@.len() == 0,
            },
    {
        if self.buckets.len() == 0 {
            return None;
        }
        let mut hasher = SdbmHasher::new(0);
        key.feed(&mut hasher);
        let digest = hasher.finish();
        let b = (digest % (self.buckets.len() as u64)) as usize;
        Some(b)
    }

    /// Scan one bucket for the key, returning its position when present.
    fn find_in_bucket(&self, b: usize, key: &K) -> (result: Option<usize>)
        requires
            b < self.buckets@.len(),
        ensures
            (match result {
                Some(j) => j < self.chains()[b as int].len() && self.chains()[b as int][j as int].0
                    == *key,
                None => forall|t: int|
                    0 <= t < self.chains()[b as int].len() ==> (#[trigger] self.chains()[b as int][
                        t
                    ]).0 != *key,
            }),
    {
        let bucket = &self.buckets[b];
        let n = bucket.len();
        let mut j: usize = 0;
        while j < n
            invariant
                b < self.buckets@.len(),
                bucket@ == self.chains()[b as int],
                n == bucket@.len(),
                j <= n,
                forall|t: int| 0 <= t < j ==> (#[trigger] self.chains()[b as int][t]).0 != *key,
            decreases n - j,
        {
            let pair = &bucket[j];
            if key.key_eq(&pair.0) {
                return Some(j);
            }
            j += 1;
        }
        None
    }

    /// Whether a source position is still waiting to be migrated, while the
    /// buckets below `m` and the first `blen` pairs of bucket `m` remain.
    spec fn remaining_pos(m: int, blen: int, a: int, c: int) -> bool {
        a < m || (a == m && c < blen)
    }

    /// Grow the bucket array (to one bucket, or to double its length) and
    /// rehash every stored pair into it. The contents are unchanged.
    fn resize(&mut self)
        requires
            old(self).wf(),
            old(self).buckets@.len() == 0 || old(self).count as int > (3 * old(
                self,
            ).buckets@.len() as int) / 4,
            (old(self).count as int) < (usize::MAX as int) / 4,
        ensures
            final(self).wf(),
            final(self)@ == old(self)@,
            final(self).count == old(self).count,
            final(self).num_buckets() == (if old(self).num_buckets() == 0 {
                1int
            } else {
                2 * old(self).num_buckets()
            }),
    {
        let old_len = self.buckets.len();
        proof {
            if old_len > 0 {
                let lc = old_len as int;
                let cc = self.count as int;
                let mm = usize::MAX as int;
                assert(4 * (3 * lc / 4) > 3 * lc - 4);
                assert(4 * (mm / 4) <= mm);
                assert(3 * lc / 4 < cc);
                assert(cc < mm / 4);
                assert(2 * lc < mm);
            }
        }
        let target = if old_len == 0 {
            1
        } else {
            2 * old_len
        };
        let ghost orig = self.chains();
        let mut fresh: Vec<Vec<(K, V)>> = Vec::new();
        let mut t: usize = 0;
        while t < target
            invariant
                fresh@.len() == t,
                t <= target,
                forall|x: int| 0 <= x < t ==> (#[trigger] fresh@[x])@.len() == 0,
            decreases target - t,
        {
            fresh.push(Vec::new());
            t += 1;
        }
        core::mem::swap(&mut self.buckets, &mut fresh);
        proof {
            assert(Self::chains_of(fresh@) =~= orig);
            assert forall|a: int, c: int| !Self::chains_pos_ok(self.chains(), a, c) by {}
            Self::lemma_chain_total_empty(self.chains());
            Self::lemma_chain_total_nonneg(orig);
        }
        while fresh.len() > 0
            invariant
                self.buckets@.len() == target,
                target as int == (if orig.len() == 0 {
                    1int
                } else {
                    2 * orig.len() as int
                }),
                target > 0,
                self.count == old(self).count,
                old(self).count as int == Self::chain_total(orig),
                Self::chains_distinct(orig),
                fresh@.len() <= orig.len(),
                forall|x: int| 0 <= x < fresh@.len() ==> (#[trigger] fresh@[x])@ == orig[x],
                Self::chains_placed(self.chains()),
                Self::chains_distinct(self.chains()),
                forall|a: int, c: int|
                    Self::chains_pos_ok(orig, a, c) && !Self::remaining_pos(
                        fresh@.len() as int,
                        0,
                        a,
                        c,
                    ) ==> Self::chains_contains(self.chains(), (#[trigger] orig[a][c]).0)
                        && Self::chains_map(self.chains())[orig[a][c].0] == orig[a][c].1,
                forall|k2: K|
                    Self::chains_contains(self.chains(), k2) ==> exists|a: int, c: int|
                        Self::chains_pos_ok(orig, a, c) && !Self::remaining_pos(
                            fresh@.len() as int,
                            0,
                            a,
                            c,
                        ) && (#[trigger] orig[a][c]).0 == k2,
                Self::chain_total(Self::chains_of(fresh@)) + Self::chain_total(self.chains())
                    == Self::chain_total(orig),
            decreases fresh@.len(),
        {
            let ghost fresh_pre = fresh@;
            let mut b = match fresh.pop() {
                Some(x) => x,
                None => {
                    proof {
                        assert(false);
                    }
                    Vec::new()
                },
            };
            proof {
                let m = fresh@.len() as int;
                assert(fresh_pre[m]@ == orig[m]);
                assert(b@ == orig[m].take(b@.len() as int));
                assert(Self::chains_of(fresh_pre) =~= Self::chains_of(fresh@).push(b@));
                assert(Self::chains_of(fresh@).push(b@).drop_last() =~= Self::chains_of(fresh@));
            }
            while b.len() > 0
                invariant
                    self.buckets@.len() == target,
                    target as int == (if orig.len() == 0 {
                        1int
                    } else {
                        2 * orig.len() as int
                    }),
                    target > 0,
                    self.count == old(self).count,
                    old(self).count as int == Self::chain_total(orig),
                    Self::chains_distinct(orig),
                    fresh@.len() < orig.len(),
                    forall|x: int| 0 <= x < fresh@.len() ==> (#[trigger] fresh@[x])@ == orig[x],
                    b@.len() <= orig[fresh@.len() as int].len(),
                    b@ == orig[fresh@.len() as int].take(b@.len() as int),
                    Self::chains_placed(self.chains()),
                    Self::chains_distinct(self.chains()),
                    forall|a: int, c: int|
                        Self::chains_pos_ok(orig, a, c) && !Self::remaining_pos(
                            fresh@.len() as int,
                            b@.len() as int,
                            a,
                            c,
                        ) ==> Self::chains_contains(self.chains(), (#[trigger] orig[a][c]).0)
                            && Self::chains_map(self.chains())[orig[a][c].0] == orig[a][c].1,
                    forall|k2: K|
                        Self::chains_contains(self.chains(), k2) ==> exists|a: int, c: int|
                            Self::chains_pos_ok(orig, a, c) && !Self::remaining_pos(
                                fresh@.len() as int,
                                b@.len() as int,
                                a,
                                c,
                            ) && (#[trigger] orig[a][c]).0 == k2,
                    Self::chain_total(Self::chains_of(fresh@)) + b@.len() + Self::chain_total(
                        self.chains(),
                    ) == Self::chain_total(orig),
                decreases b@.len(),
            {
                let ghost m = fresh@.len() as int;
                let ghost c0 = b@.len() - 1;
                let ghost cs_new_pre = self.chains();
                let pair = match b.pop() {
                    Some(x) => x,
                    None => {
                        proof {
                            assert(false);
                        }
                        return ;
                    },
                };
                let (k, v) = pair;
                proof {
                    assert(orig[m].take(c0 + 1).last() == orig[m][c0]);
                    assert(pair == orig[m][c0]);
                    assert(b@ == orig[m].take(c0 + 1).drop_last());
                    assert(orig[m].take(c0 + 1).drop_last() =~= orig[m].take(c0));
                    Self::lemma_chains_at(orig, m, c0);
                    // the key is not yet in the new table
                    if Self::chains_contains(cs_new_pre, k) {
                        let (a2, c2) = choose|a2: int, c2: int|
                            Self::chains_pos_ok(orig, a2, c2) && !Self::remaining_pos(
                                m,
                                c0 + 1,
                                a2,
                                c2,
                            ) && (#[trigger] orig[a2][c2]).0 == k;
                        assert((orig[a2][c2]).0 != (orig[m][c0]).0);
                        assert(false);
                    }
                }
                let idx = match self.get_bucket(&k) {
                    Some(x) => x,
                    None => {
                        proof {
                            assert(false);
                        }
                        return ;
                    },
                };
                {
                    let slot = &mut self.buckets[idx];
                    slot.push((k, v));
                }
                proof {
                    assert(self.chains() =~= Self::appended(cs_new_pre, idx as int, k, v));
                    Self::lemma_chains_append(cs_new_pre, idx as int, k, v);
                    assert forall|a: int, c: int|
                        Self::chains_pos_ok(orig, a, c) && !Self::remaining_pos(
                            fresh@.len() as int,
                            b@.len() as int,
                            a,
                            c,
                        ) implies Self::chains_contains(self.chains(), (#[trigger] orig[a][c]).0)
                        && Self::chains_map(self.chains())[orig[a][c].0] == orig[a][c].1 by {
                        if a == m && c == c0 {
                            assert(Self::chains_contains(self.chains(), k));
                        } else {
                            assert(!Self::remaining_pos(m, c0 + 1, a, c));
                            assert(Self::chains_contains(cs_new_pre, orig[a][c].0));
                            if orig[a][c].0 == k {
                                assert((orig[a][c]).0 != (orig[m][c0]).0);
                            }
                        }
                    }
                    assert forall|k2: K| Self::chains_contains(self.chains(), k2) implies exists|
                        a: int,
                        c: int,
                    |
                        Self::chains_pos_ok(orig, a, c) && !Self::remaining_pos(
                            fresh@.len() as int,
                            b@.len() as int,
                            a,
                            c,
                        ) && (#[trigger] orig[a][c]).0 == k2 by {
                        if k2 == k {
                            assert(Self::chains_pos_ok(orig, m, c0) && !Self::remaining_pos(
                                m,
                                c0,
                                m,
                                c0,
                            ) && (orig[m][c0]).0 == k2);
                        } else {
                            assert(Self::chains_contains(cs_new_pre, k2));
                            let (a2, c2) = choose|a2: int, c2: int|
                                Self::chains_pos_ok(orig, a2, c2) && !Self::remaining_pos(
                                    m,
                                    c0 + 1,
                                    a2,
                                    c2,
                                ) && (#[trigger] orig[a2][c2]).0 == k2;
                            assert(Self::chains_pos_ok(orig, a2, c2) && !Self::remaining_pos(
                                m,
                                c0,
                                a2,
                                c2,
                            ) && (orig[a2][c2]).0 == k2);
                        }
                    }
                }
            }
            proof {
                assert(b@.len() == 0);
                assert(Self::chains_of(fresh@).push(b@).len() > 0);
            }
        }
        proof {
            assert(fresh@.len() == 0);
            assert(Self::chains_of(fresh@).len() == 0);
            let m_orig = Self::chains_map(orig);
            let m_new = Self::chains_map(self.chains());
            assert forall|k2: K| m_orig.contains_key(k2) implies m_new.contains_key(k2) && m_new[k2]
                == m_orig[k2] by {
                let (a, c) = choose|a: int, c: int|
                    Self::chains_pos_ok(orig, a, c) && (#[trigger] orig[a][c]).0 == k2;
                assert(!Self::remaining_pos(0, 0, a, c));
                assert(Self::chains_contains(self.chains(), k2));
                Self::lemma_chains_at(orig, a, c);
            }
            assert forall|k2: K| m_new.contains_key(k2) implies m_orig.contains_key(k2) by {
                let (a, c) = choose|a: int, c: int|
                    Self::chains_pos_ok(orig, a, c) && !Self::remaining_pos(0, 0, a, c) && (
                    #[trigger] orig[a][c]).0 == k2;
                assert(Self::chains_contains(orig, k2));
            }
            assert(m_new =~= m_orig);
        }
    }

    /// Insert the pair, growing first when the table is empty or more than
    /// three quarters loaded. Returns the value the key held before, when
    /// there was one; the new value replaces it.
    pub fn insert(&mut self, key: K, val: V) -> (prev: Option<V>)
        requires
            old(self).wf(),
            old(self)@.dom().len() < (usize::MAX as int) / 4,
        ensures
            final(self).wf(),
            final(self)@ == old(self)@.insert(key, val),
            final(self)@.dom().finite(),
            final(self)@.dom().len() == old(self)@.dom().len() + (if old(self)@.contains_key(key) {
                0int
            } else {
                1int
            }),
            (match prev {
                Some(v) => old(self)@.contains_key(key) && v == old(self)@[key],
                None => !old(self)@.contains_key(key),
            }),
    {
        proof {
            Self::lemma_count_matches_view(*self);
        }
        let nb = self.buckets.len();
        if nb == 0 || (self.count as u128) > 3u128 * (nb as u128) / 4u128 {
            self.resize();
        }
        let ghost cs = self.chains();
        proof {
            assert(self@ == old(self)@);
        }
        let b = match self.get_bucket(&key) {
            Some(x) => x,
            None => {
                proof {
                    assert(false);
                }
                0
            },
        };
        match self.find_in_bucket(b, &key) {
            Some(j) => {
                let prev_val;
                {
                    let bucket = &mut self.buckets[b];
                    let old_pair = bucket.swap_remove(j);
                    bucket.push((key, val));
                    prev_val = old_pair.1;
                }
                proof {
                    let bi = b as int;
                    let ji = j as int;
                    let cs_a = Self::swap_removed(cs, bi, ji);
                    assert(self.chains() =~= Self::appended(cs_a, bi, key, val));
                    Self::lemma_chains_swap_remove(cs, bi, ji);
                    assert(cs[bi][ji].0 == key);
                    Self::lemma_chains_append(cs_a, bi, key, val);
                    assert(Self::chains_map(cs).remove(key).insert(key, val) =~= Self::chains_map(
                        cs,
                    ).insert(key, val));
                    Self::lemma_chains_at(cs, bi, ji);
                    Self::lemma_count_matches_view(*self);
                }
                Some(prev_val)
            },
            None => {
                proof {
                    Self::lemma_scanned_absent(cs, key);
                }
                {
                    let bucket = &mut self.buckets[b];
                    bucket.push((key, val));
                }
                self.count = self.count + 1;
                proof {
                    assert(self.chains() =~= Self::appended(cs, b as int, key, val));
                    Self::lemma_chains_append(cs, b as int, key, val);
                    Self::lemma_count_matches_view(*self);
                }
                None
            },
        }
    }

    /// Remove the key, returning the value it held, or nothing when it was
    /// absent; an absent key leaves the table unchanged.
    pub fn remove(&mut self, key: &K) -> (removed: Option<V>)
        requires
            old(self).wf(),
        ensures
            final(self).wf(),
            final(self)@ == old(self)@.remove(*key),
            final(self)@.dom().finite(),
            final(self)@.dom().len() == old(self)@.dom().len() - (if old(self)@.contains_key(*key) {
                1int
            } else {
                0int
            }),
            (match removed {
                Some(v) => old(self)@.contains_key(*key) && v == old(self)@[*key],
                None => !old(self)@.contains_key(*key),
            }),
    {
        let ghost cs = self.chains();
        proof {
            Self::lemma_count_matches_view(*self);
        }
        let b_opt = self.get_bucket(key);
        match b_opt {
            None => {
                proof {
                    Self::lemma_chains_absent(cs, *key);
                    assert(old(self)@.remove(*key) =~= old(self)@);
                }
                None
            },
            Some(b) => {
                match self.find_in_bucket(b, key) {
                    None => {
                        proof {
                            Self::lemma_scanned_absent(cs, *key);
                            assert(old(self)@.remove(*key) =~= old(self)@);
                        }
                        None
                    },
                    Some(j) => {
                        let removed_pair;
                        {
                            let bucket = &mut self.buckets[b];
                            removed_pair = bucket.swap_remove(j);
                        }
                        proof {
                            assert(self.chains() =~= Self::swap_removed(cs, b as int, j as int));
                            Self::lemma_chains_swap_remove(cs, b as int, j as int);
                            Self::lemma_chain_total_nonneg(self.chains());
                        }
                        self.count = self.count - 1;
                        proof {
                            Self::lemma_chains_at(cs, b as int, j as int);
                            Self::lemma_count_matches_view(*self);
                        }
                        Some(removed_pair.1)
                    },
                }
            },
        }
    }

    /// The number of live keys.
    pub fn len(&self) -> (n: usize)
        requires
            self.wf(),
        ensures
            n as int == self@.dom().len(),
            self@.dom().finite(),
    {
        proof {
            Self::lemma_count_matches_view(*self);
        }
        self.count
    }

    /// Whether no key is live.
    pub fn is_empty(&self) -> (empty: bool)
        requires
            self.wf(),
        ensures
            empty == (self@.dom().len() == 0),
    {
        proof {
            Self::lemma_count_matches_view(*self);
        }
        self.count == 0
    }

    /// Look the key up: the stored value, or nothing when the key is absent.
    pub fn get(&self, key: &K) -> (result: Option<&V>)
        requires
            self.wf(),
        ensures
            match result {
                Some(v) => self@.contains_key(*key) && *v == self@[*key],
                None => !self@.contains_key(*key),
            },
    {
        let ghost cs = self.chains();
        match self.get_bucket(key) {
            None => {
                proof {
                    Self::lemma_chains_absent(cs, *key);
                }
                None
            },
            Some(b) => {
                match self.find_in_bucket(b, key) {
                    Some(j) => {
                        proof {
                            Self::lemma_chains_at(cs, b as int, j as int);
                        }
                        let bucket = &self.buckets[b];
                        let pair = &bucket[j];
                        Some(&pair.1)
                    },
                    None => {
                        proof {
                            Self::lemma_scanned_absent(cs, *key);
                        }
                        None
                    },
                }
            },
        }
    }
}

impl<K: HashKey, Val> View for HashMap<K, Val> {
    type V = Map<K, Val>;

    closed spec fn view(&self) -> Map<K, Val> {
        Self::chains_map(self.chains())
    }
}

impl<K: HashKey, V> HashMap<K, V> {
    /// The map that inserting a pair sequence left to right produces:
    /// a later pair with the same key overwrites an earlier one.
    pub open spec fn map_of_pairs(ps: Seq<(K, V)>) -> Map<K, V>
        decreases ps.len(),
    {
        if ps.len() == 0 {
            Map::empty()
        } else {
            Self::map_of_pairs(ps.drop_last()).insert(ps.last().0, ps.last().1)
        }
    }

    /// Build a table from a pair sequence, as if inserting each in turn.
    pub fn from_pairs(pairs: Vec<(K, V)>) -> (table: Self)
        requires
            pairs@.len() < (usize::MAX as int) / 4,
        ensures
            table.wf(),
            table@ == Self::map_of_pairs(pairs@),
            table@.dom().finite(),
    {
        let ghost ps = pairs@;
        let mut rest = pairs;
        let mut table = Self::new();
        while rest.len() > 0
            invariant
                table.wf(),
                table@.dom().finite(),
                rest@.len() <= ps.len(),
                ps.len() < (usize::MAX as int) / 4,
                rest@ == ps.skip(ps.len() - rest@.len()),
                table@ == Self::map_of_pairs(ps.take(ps.len() - rest@.len())),
                table@.dom().len() <= ps.len() - rest@.len(),
            decreases rest@.len(),
        {
            let ghost d = ps.len() - rest@.len();
            let pair = rest.remove(0);
            proof {
                assert(rest@ =~= ps.skip(d + 1));
                assert(pair == ps[d]);
                assert(ps.take(d + 1).drop_last() =~= ps.take(d));
                assert(ps.take(d + 1).last() == ps[d]);
            }
            let (k, v) = pair;
            table.insert(k, v);
        }
        proof {
            assert(ps.take(ps.len() as int) =~= ps);
        }
        table
    }

    /// A destructive traversal of all pairs; the table is consumed.
    pub fn into_iter(self) -> (it: IntoIter<K, V>)
        requires
            self.wf(),
        ensures
            it.wf(),
            it@ == self@,
    {
        IntoIter { map: self, bucket: 0 }
    }

    /// Drain the table into a vector holding every live pair exactly once,
    /// each matching a lookup in the table it came from.
    pub fn into_pairs(self) -> (pairs: Vec<(K, V)>)
        requires
            self.wf(),
        ensures
            pairs@.len() == self@.dom().len(),
            forall|t: int|
                0 <= t < pairs@.len() ==> self@.contains_key((#[trigger] pairs@[t]).0) && self@[
                    pairs@[t].0
                ] == pairs@[t].1,
            forall|t1: int, t2: int|
                0 <= t1 < t2 < pairs@.len() ==> (#[trigger] pairs@[t1]).0 != (
                #[trigger] pairs@[t2]).0,
            forall|k: K|
                self@.contains_key(k) ==> exists|t: int|
                    0 <= t < pairs@.len() && (#[trigger] pairs@[t]).0 == k,
    {
        let ghost orig = self@;
        proof {
            Self::lemma_count_matches_view(self);
        }
        let mut it = self.into_iter();
        let mut out: Vec<(K, V)> = Vec::new();
        loop
            invariant
                orig == self@,
                orig.dom().finite(),
                it.wf(),
                it@.dom().finite(),
                forall|t: int|
                    0 <= t < out@.len() ==> orig.contains_key((#[trigger] out@[t]).0) && orig[
                        out@[t].0
                    ] == out@[t].1 && !it@.contains_key(out@[t].0),
                forall|t1: int, t2: int|
                    0 <= t1 < t2 < out@.len() ==> (#[trigger] out@[t1]).0 != (
                    #[trigger] out@[t2]).0,
                forall|k: K|
                    #[trigger] orig.contains_key(k) ==> it@.contains_key(k) || exists|t: int|
                        0 <= t < out@.len() && (#[trigger] out@[t]).0 == k,
                forall|k: K|
                    #[trigger] it@.contains_key(k) ==> orig.contains_key(k) && it@[k] == orig[k],
                out@.len() + it@.dom().len() == orig.dom().len(),
            decreases it@.dom().len(),
        {
            let ghost it_pre = it@;
            let ghost pre_out = out@;
            match it.next() {
                Some(p) => {
                    out.push(p);
                    proof {
                        assert(it_pre.contains_key(p.0));
                        assert(orig.contains_key(p.0) && it_pre[p.0] == orig[p.0]);
                        assert forall|t: int|
                            0 <= t < out@.len() implies orig.contains_key((#[trigger] out@[t]).0)
                            && orig[out@[t].0] == out@[t].1 && !it@.contains_key(out@[t].0) by {
                            if t < out@.len() - 1 {
                                assert(out@[t] == pre_out[t]);
                                assert(orig.contains_key(pre_out[t].0) && orig[pre_out[t].0]
                                    == pre_out[t].1 && !it_pre.contains_key(pre_out[t].0));
                                assert(!it@.contains_key(pre_out[t].0));
                            } else {
                                assert(out@[t] == p);
                                assert(!it@.contains_key(p.0));
                            }
                        }
                        assert forall|k: K|
                            it@.contains_key(k) implies orig.contains_key(k) && it@[k] == orig[k] by {
                            assert(it_pre.contains_key(k));
                            assert(it@[k] == it_pre[k]);
                        }
                        assert forall|t1: int, t2: int|
                            0 <= t1 < t2 < out@.len() implies (#[trigger] out@[t1]).0 != (
                        #[trigger] out@[t2]).0 by {
                            assert(out@[t1] == pre_out[t1]);
                            if t2 == out@.len() - 1 {
                                assert(!it_pre.contains_key(pre_out[t1].0));
                            } else {
                                assert(out@[t2] == pre_out[t2]);
                            }
                        }
                        assert forall|k: K|
                            orig.contains_key(k) implies it@.contains_key(k) || exists|t: int|
                            0 <= t < out@.len() && (#[trigger] out@[t]).0 == k by {
                            if it_pre.contains_key(k) {
                                if k == p.0 {
                                    assert((out@[out@.len() - 1]).0 == k);
                                }
                            } else {
                                let t0 = choose|t: int|
                                    0 <= t < pre_out.len() && (#[trigger] pre_out[t]).0 == k;
                                assert((out@[t0]).0 == k);
                            }
                        }
                    }
                },
                None => {
                    return out;
                },
            }
        }
    }
}

/// A destructive traversal: pairs are drained bucket by bucket, each bucket
/// from its tail. Its view is the map of the pairs still to come.
pub struct IntoIter<K, V> {
    map: HashMap<K, V>,
    bucket: usize,
}

impl<K: HashKey, V> IntoIter<K, V> {
    /// The buckets below the cursor are already drained.
    pub closed spec fn wf(self) -> bool {
        &&& self.map.wf()
        &&& self.bucket as int <= self.map.num_buckets()
        &&& forall|i: int|
            0 <= i < self.bucket as int ==> (#[trigger] self.map.chains()[i]).len() == 0
    }

    /// The next pair still to come, or nothing once the table is drained.
    pub fn next(&mut self) -> (item: Option<(K, V)>)
        requires
            old(self).wf(),
        ensures
            final(self).wf(),
            final(self)@.dom().finite(),
            (match item {
                Some(p) => {
                    &&& old(self)@.contains_key(p.0)
                    &&& old(self)@[p.0] == p.1
                    &&& final(self)@ == old(self)@.remove(p.0)
                    &&& final(self)@.dom().len() == old(self)@.dom().len() - 1
                },
                None => old(self)@.dom().len() == 0 && final(self)@ == old(self)@,
            }),
    {
        proof {
            HashMap::<K, V>::lemma_count_matches_view(self.map);
        }
        loop
            invariant
                self.wf(),
                self.map == old(self).map,
            decreases self.map.num_buckets() - self.bucket,
        {
            if self.bucket >= self.map.buckets.len() {
                proof {
                    HashMap::<K, V>::lemma_chains_absent_all(self.map.chains());
                    assert(self.map@ =~= Map::<K, V>::empty());
                }
                return None;
            }
            let n = self.map.buckets[self.bucket].len();
            if n > 0 {
                let ghost cs = self.map.chains();
                let ghost bi = self.bucket as int;
                let pair;
                {
                    let bucket = &mut self.map.buckets[self.bucket];
                    pair = match bucket.pop() {
                        Some(p) => p,
                        None => {
                            proof {
                                assert(false);
                            }
                            return None;
                        },
                    };
                }
                proof {
                    assert(cs[bi].update(n - 1, cs[bi].last()) =~= cs[bi]);
                    assert(self.map.chains() =~= HashMap::<K, V>::swap_removed(cs, bi, n - 1));
                    HashMap::<K, V>::lemma_chains_swap_remove(cs, bi, n - 1);
                    HashMap::<K, V>::lemma_chain_total_nonneg(self.map.chains());
                }
                self.map.count = self.map.count - 1;
                proof {
                    assert(pair == cs[bi][n - 1]);
                    HashMap::<K, V>::lemma_chains_at(cs, bi, n - 1);
                    HashMap::<K, V>::lemma_count_matches_view(self.map);
                }
                return Some(pair);
            }
            self.bucket = self.bucket + 1;
        }
    }
}

impl<K: HashKey, Val> View for IntoIter<K, Val> {
    type V = Map<K, Val>;

    closed spec fn view(&self) -> Map<K, Val> {
        self.map@
    }
}

impl<K: HashKey, V> HashMap<K, V> {
    /// No position at all means an empty map.
    proof fn lemma_chains_absent_all(cs: Seq<Seq<(K, V)>>)
        requires
            forall|i: int| 0 <= i < cs.len() ==> (#[trigger] cs[i]).len() == 0,
        ensures
            forall|k: K| !Self::chains_map(cs).contains_key(k),
    {
        assert forall|k: K| !Self::chains_contains(cs, k) by {}
    }

    /// A borrowing traversal positioned at the start.
    pub fn iter<'a>(&'a self) -> (it: HashMapIter<'a, K, V>)
        requires
            self.wf(),
        ensures
            it.wf(),
            it.source() == self@,
            it.visited_keys() == Set::<K>::empty(),
    {
        let it = HashMapIter { map: self, bucket: 0, at: 0, visited: Ghost(Set::empty()) };
        proof {
            let cs = self.chains();
            assert(it.visited@ =~= Set::new(
                |k: K|
                    exists|i: int, j: int|
                        Self::chains_pos_ok(cs, i, j) && Self::remaining_pos(0, 0, i, j) && (
                        #[trigger] cs[i][j]).0 == k,
            ));
        }
        it
    }
}

/// A borrowing traversal: yields each live pair once, bucket by bucket and,
/// within a bucket, front to back; the table itself is untouched.
#[verifier::reject_recursive_types(K)]
pub struct HashMapIter<'a, K, V> {
    map: &'a HashMap<K, V>,
    bucket: usize,
    at: usize,
    visited: Ghost<Set<K>>,
}

impl<'a, K: HashKey, V> HashMapIter<'a, K, V> {
    /// The table being traversed, as its map.
    pub closed spec fn source(self) -> Map<K, V> {
        self.map@
    }

    /// The keys already yielded.
    pub closed spec fn visited_keys(self) -> Set<K> {
        self.visited@
    }

    /// The cursor is within bounds, and the visited keys are exactly those
    /// at positions before it.
    pub closed spec fn wf(self) -> bool {
        let cs = self.map.chains();
        &&& self.map.wf()
        &&& self.bucket as int <= cs.len()
        &&& ((self.bucket as int) < cs.len() ==> self.at as int <= cs[self.bucket as int].len())
        &&& (self.bucket as int == cs.len() ==> self.at == 0)
        &&& self.visited@ == Set::new(
            |k: K|
                exists|i: int, j: int|
                    HashMap::<K, V>::chains_pos_ok(cs, i, j) && HashMap::<K, V>::remaining_pos(
                        self.bucket as int,
                        self.at as int,
                        i,
                        j,
                    ) && (#[trigger] cs[i][j]).0 == k,
        )
    }

    /// The next pair not yet yielded: one the table holds, with a key not
    /// yielded before; or nothing once every key has been yielded.
    pub fn next(&mut self) -> (item: Option<(&'a K, &'a V)>)
        requires
            old(self).wf(),
        ensures
            final(self).wf(),
            final(self).source() == old(self).source(),
            (match item {
                Some(p) => {
                    &&& old(self).source().contains_key(*p.0)
                    &&& old(self).source()[*p.0] == *p.1
                    &&& !old(self).visited_keys().contains(*p.0)
                    &&& final(self).visited_keys() == old(self).visited_keys().insert(*p.0)
                },
                None => {
                    &&& final(self).visited_keys() == old(self).visited_keys()
                    &&& old(self).visited_keys() == old(self).source().dom()
                },
            }),
    {
        let map_ref: &'a HashMap<K, V> = self.map;
        let ghost cs = map_ref.chains();
        loop
            invariant
                self.wf(),
                self.map == old(self).map,
                map_ref == self.map,
                cs == self.map.chains(),
                self.visited@ == old(self).visited@,
            decreases cs.len() - self.bucket,
        {
            if self.bucket >= map_ref.buckets.len() {
                proof {
                    assert forall|k: K| self.map@.dom().contains(k) implies self.visited@.contains(
                        k,
                    ) by {
                        let (i, j) = choose|i: int, j: int|
                            HashMap::<K, V>::chains_pos_ok(cs, i, j) && (#[trigger] cs[i][j]).0
                                == k;
                        assert(HashMap::<K, V>::remaining_pos(
                            self.bucket as int,
                            self.at as int,
                            i,
                            j,
                        ));
                    }
                    assert forall|k: K| self.visited@.contains(k) implies self.map@.dom().contains(
                        k,
                    ) by {
                        let (i, j) = choose|i: int, j: int|
                            HashMap::<K, V>::chains_pos_ok(cs, i, j) && HashMap::<
                                K,
                                V,
                            >::remaining_pos(self.bucket as int, self.at as int, i, j) && (
                            #[trigger] cs[i][j]).0 == k;
                        assert(HashMap::<K, V>::chains_contains(cs, k));
                    }
                    assert(self.visited@ =~= self.map@.dom());
                }
                return None;
            }
            let bucket_ref = &map_ref.buckets[self.bucket];
            if self.at < bucket_ref.len() {
                let pair = &bucket_ref[self.at];
                let ghost b0 = self.bucket as int;
                let ghost a0 = self.at as int;
                let ghost k0 = cs[b0][a0].0;
                let ghost oldvis = self.visited@;
                proof {
                    HashMap::<K, V>::lemma_chains_at(cs, b0, a0);
                    if oldvis.contains(k0) {
                        let (i, j) = choose|i: int, j: int|
                            HashMap::<K, V>::chains_pos_ok(cs, i, j) && HashMap::<
                                K,
                                V,
                            >::remaining_pos(b0, a0, i, j) && (#[trigger] cs[i][j]).0 == k0;
                        assert(i != b0 || j != a0);
                        assert((cs[i][j]).0 != (cs[b0][a0]).0);
                        assert(false);
                    }
                }
                self.at = self.at + 1;
                proof {
                    self.visited@ = oldvis.insert(k0);
                    let vis2 = Set::new(
                        |k: K|
                            exists|i: int, j: int|
                                HashMap::<K, V>::chains_pos_ok(cs, i, j) && HashMap::<
                                    K,
                                    V,
                                >::remaining_pos(b0, a0 + 1, i, j) && (#[trigger] cs[i][j]).0 == k,
                    );
                    assert forall|k: K| vis2.contains(k) implies oldvis.insert(k0).contains(k) by {
                        let (i, j) = choose|i: int, j: int|
                            HashMap::<K, V>::chains_pos_ok(cs, i, j) && HashMap::<
                                K,
                                V,
                            >::remaining_pos(b0, a0 + 1, i, j) && (#[trigger] cs[i][j]).0 == k;
                        if i == b0 && j == a0 {
                            assert(k == k0);
                        } else {
                            assert(HashMap::<K, V>::remaining_pos(b0, a0, i, j));
                            assert(oldvis.contains(k));
                        }
                    }
                    assert forall|k: K| oldvis.insert(k0).contains(k) implies vis2.contains(k) by {
                        if k == k0 {
                            assert(HashMap::<K, V>::chains_pos_ok(cs, b0, a0) && HashMap::<
                                K,
                                V,
                            >::remaining_pos(b0, a0 + 1, b0, a0) && (cs[b0][a0]).0 == k);
                        } else {
                            assert(oldvis.contains(k));
                            let (i, j) = choose|i: int, j: int|
                                HashMap::<K, V>::chains_pos_ok(cs, i, j) && HashMap::<
                                    K,
                                    V,
                                >::remaining_pos(b0, a0, i, j) && (#[trigger] cs[i][j]).0 == k;
                            assert(HashMap::<K, V>::remaining_pos(b0, a0 + 1, i, j));
                        }
                    }
                    assert(self.visited@ =~= vis2);
                }
                return Some((&pair.0, &pair.1));
            }
            proof {
                let vis3 = Set::new(
                    |k: K|
                        exists|i: int, j: int|
                            HashMap::<K, V>::chains_pos_ok(cs, i, j) && HashMap::<
                                K,
                                V,
                            >::remaining_pos(self.bucket as int + 1, 0, i, j) && (
                            #[trigger] cs[i][j]).0 == k,
                );
                assert forall|k: K| vis3.contains(k) implies self.visited@.contains(k) by {
                    let (i, j) = choose|i: int, j: int|
                        HashMap::<K, V>::chains_pos_ok(cs, i, j) && HashMap::<K, V>::remaining_pos(
                            self.bucket as int + 1,
                            0,
                            i,
                            j,
                        ) && (#[trigger] cs[i][j]).0 == k;
                    assert(HashMap::<K, V>::remaining_pos(
                        self.bucket as int,
                        self.at as int,
                        i,
                        j,
                    ));
                }
                assert forall|k: K| self.visited@.contains(k) implies vis3.contains(k) by {
                    let (i, j) = choose|i: int, j: int|
                        HashMap::<K, V>::chains_pos_ok(cs, i, j) && HashMap::<K, V>::remaining_pos(
                            self.bucket as int,
                            self.at as int,
                            i,
                            j,
                        ) && (#[trigger] cs[i][j]).0 == k;
                    assert(HashMap::<K, V>::remaining_pos(self.bucket as int + 1, 0, i, j));
                }
                assert(self.visited@ =~= vis3);
            }
            self.bucket = self.bucket + 1;
            self.at = 0;
        }
    }
}

// ---------------------------------------------------------------------------
// Laws of the table's map view. Together with the exact contracts of
// `insert`, `remove`, `get` and `len`, they state how the operations
// interact across calls.
// ---------------------------------------------------------------------------

/// After `insert(k, v)`, a `get(k)` finds exactly `v`, and every other
/// live mapping is untouched: in particular the growth an insert may
/// trigger never disturbs one.
pub proof fn lemma_insert_then_get<K, V>(m: Map<K, V>, k: K, v: V)
    ensures
        m.insert(k, v).contains_key(k),
        m.insert(k, v)[k] == v,
        forall|k2: K|
            k2 != k ==> #[trigger] m.insert(k, v).contains_key(k2) == m.contains_key(k2),
        forall|k2: K| k2 != k && m.contains_key(k2) ==> #[trigger] m.insert(k, v)[k2] == m[k2],
{
}

/// Inserting twice at one key leaves a single entry holding the second
/// value: the first insert might as well not have happened.
pub proof fn lemma_insert_overwrites<K, V>(m: Map<K, V>, k: K, v1: V, v2: V)
    ensures
        m.insert(k, v1).insert(k, v2) == m.insert(k, v2),
        m.insert(k, v1).contains_key(k),
        m.insert(k, v1)[k] == v1,
{
    assert(m.insert(k, v1).insert(k, v2) =~= m.insert(k, v2));
}

/// Removing a freshly inserted key restores the map, and the removed entry
/// held the inserted value.
pub proof fn lemma_insert_then_remove<K, V>(m: Map<K, V>, k: K, v: V)
    requires
        !m.contains_key(k),
    ensures
        m.insert(k, v).remove(k) == m,
        m.insert(k, v)[k] == v,
{
    assert(m.insert(k, v).remove(k) =~= m);
}

/// How the number of live keys moves: an insert adds one exactly when its
/// key is fresh, and a remove takes one exactly when its key is live — so
/// the count always equals the distinct keys inserted minus those
/// successfully removed.
pub proof fn lemma_len_accounting<K, V>(m: Map<K, V>, k: K, v: V)
    requires
        m.dom().finite(),
    ensures
        m.insert(k, v).dom().len() == m.dom().len() + (if m.contains_key(k) {
            0int
        } else {
            1int
        }),
        m.remove(k).dom().len() == m.dom().len() - (if m.contains_key(k) {
            1int
        } else {
            0int
        }),
{
    assert(m.insert(k, v).dom() =~= m.dom().insert(k));
    assert(m.remove(k).dom() =~= m.dom().remove(k));
    if m.contains_key(k) {
        assert(m.dom().insert(k) =~= m.dom());
    } else {
        assert(m.dom().remove(k) =~= m.dom());
    }
}

/// Removing an absent key changes nothing.
pub proof fn lemma_remove_absent<K, V>(m: Map<K, V>, k: K)
    requires
        !m.contains_key(k),
    ensures
        m.remove(k) == m,
{
    assert(m.remove(k) =~= m);
}

} // verus!
