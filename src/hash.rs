//! 160-bit identifiers with XOR distance, bit iterators and a total order.
use vstd::prelude::*;

verus! {

/// Identifier length in bits.
pub const HASH_SIZE: usize = 160;

/// Identifier length in bytes.
pub const HASH_SIZE_BYTES: usize = HASH_SIZE / 8;

/// Little-endian 160-bit identifier: bit `i` is bit `i % 8` of byte `i / 8`.
#[derive(Debug, Clone, Copy, Eq, Hash)]
pub struct SubotaiHash {
    pub raw: [u8; HASH_SIZE_BYTES],
}

/// Whether bit `k` (0 is the least significant) of a byte is set.
pub open spec fn byte_bit(b: u8, k: u8) -> bool {
    (b >> k) & 1u8 == 1u8
}

/// The highest position below `n` at which `f` holds.
pub open spec fn top_set(f: spec_fn(int) -> bool, n: int) -> Option<int>
    decreases n,
{
    if n <= 0 {
        None
    } else if f(n - 1) {
        Some(n - 1)
    } else {
        top_set(f, n - 1)
    }
}

/// Numeric order of two bit strings of `HASH_SIZE` bits: they agree above
/// some position `m`, where the first is clear and the second is set.
pub open spec fn bits_lt(f: spec_fn(int) -> bool, g: spec_fn(int) -> bool) -> bool {
    exists|m: int|
        0 <= m < HASH_SIZE && !f(m) && #[trigger] g(m) && (forall|j: int|
            #![trigger f(j)]
            #![trigger g(j)]
            m < j < HASH_SIZE ==> f(j) == g(j))
}

/// The bits of `a ^ b`.
pub open spec fn xor_bits(a: SubotaiHash, b: SubotaiHash) -> spec_fn(int) -> bool {
    |i: int| a.has_bit(i) != b.has_bit(i)
}

/// `a` is strictly closer than `b` to `target` in XOR distance.
pub open spec fn closer(target: SubotaiHash, a: SubotaiHash, b: SubotaiHash) -> bool {
    bits_lt(xor_bits(a, target), xor_bits(b, target))
}

/// Height of the XOR distance between two identifiers.
pub open spec fn distance_height(a: SubotaiHash, b: SubotaiHash) -> Option<int> {
    top_set(xor_bits(a, b), HASH_SIZE as int)
}

/// `r` holds, byte for byte, the XOR of `a` and `b`.
pub open spec fn is_xor(a: SubotaiHash, b: SubotaiHash, r: SubotaiHash) -> bool {
    forall|k: int| 0 <= k < HASH_SIZE_BYTES ==> #[trigger] r.raw@[k] == a.raw@[k] ^ b.raw@[k]
}

/// `r` is `h` with the bit at `position` flipped (unchanged when out of range).
pub open spec fn is_flipped(h: SubotaiHash, position: int, r: SubotaiHash) -> bool {
    if position < 0 || position >= HASH_SIZE {
        r.raw@ == h.raw@
    } else {
        r.raw@ == h.raw@.update(
            position / 8,
            h.raw@[position / 8] ^ (1u8 << ((position % 8) as u8)),
        )
    }
}

/// `r` takes its bits below `distance` from `noise` and the others from `reference`.
pub open spec fn is_at_distance(
    reference: SubotaiHash,
    distance: int,
    noise: SubotaiHash,
    r: SubotaiHash,
) -> bool {
    forall|i: int|
        0 <= i < HASH_SIZE ==> #[trigger] r.has_bit(i) == if i < distance {
            noise.has_bit(i)
        } else {
            reference.has_bit(i)
        }
}

/// `r` is the first position in `lo..hi` whose bit equals `want`, if any.
pub open spec fn first_with(h: SubotaiHash, want: bool, lo: int, hi: int, r: Option<usize>) -> bool {
    match r {
        Some(p) => lo <= p < hi && h.has_bit(p as int) == want && forall|q: int|
            lo <= q < p ==> #[trigger] h.has_bit(q) != want,
        None => forall|q: int| lo <= q < hi ==> #[trigger] h.has_bit(q) != want,
    }
}

/// `r` is the last position in `lo..hi` whose bit equals `want`, if any.
pub open spec fn last_with(h: SubotaiHash, want: bool, lo: int, hi: int, r: Option<usize>) -> bool {
    match r {
        Some(p) => lo <= p < hi && h.has_bit(p as int) == want && forall|q: int|
            p < q < hi ==> #[trigger] h.has_bit(q) != want,
        None => forall|q: int| lo <= q < hi ==> #[trigger] h.has_bit(q) != want,
    }
}

pub proof fn lemma_byte_bit_xor(a: u8, b: u8, k: u8)
    by (bit_vector)
    requires
        k < 8,
    ensures
        byte_bit(a ^ b, k) == (byte_bit(a, k) != byte_bit(b, k)),
{
}

pub proof fn lemma_byte_bit_flip(b: u8, m: u8, k: u8)
    by (bit_vector)
    requires
        m < 8,
        k < 8,
    ensures
        byte_bit(b ^ (1u8 << m), k) == if k == m {
            !byte_bit(b, k)
        } else {
            byte_bit(b, k)
        },
{
}

proof fn lemma_byte_flip_twice(b: u8, m: u8)
    by (bit_vector)
    requires
        m < 8,
    ensures
        (b ^ (1u8 << m)) ^ (1u8 << m) == b,
{
}

proof fn lemma_byte_self_xor(b: u8)
    by (bit_vector)
    ensures
        b ^ b == 0u8,
{
}

proof fn lemma_byte_ext(a: u8, b: u8)
    by (bit_vector)
    requires
        byte_bit(a, 0) == byte_bit(b, 0),
        byte_bit(a, 1) == byte_bit(b, 1),
        byte_bit(a, 2) == byte_bit(b, 2),
        byte_bit(a, 3) == byte_bit(b, 3),
        byte_bit(a, 4) == byte_bit(b, 4),
        byte_bit(a, 5) == byte_bit(b, 5),
        byte_bit(a, 6) == byte_bit(b, 6),
        byte_bit(a, 7) == byte_bit(b, 7),
    ensures
        a == b,
{
}

/// Two identifiers with the same bits hold the same bytes.
pub proof fn lemma_bits_ext(a: SubotaiHash, b: SubotaiHash)
    requires
        forall|i: int| 0 <= i < HASH_SIZE ==> #[trigger] a.has_bit(i) == b.has_bit(i),
    ensures
        a.raw@ == b.raw@,
{
    assert forall|k: int| 0 <= k < HASH_SIZE_BYTES implies a.raw@[k] == b.raw@[k] by {
        assert(a.has_bit(8 * k + 0) == b.has_bit(8 * k + 0));
        assert(a.has_bit(8 * k + 1) == b.has_bit(8 * k + 1));
        assert(a.has_bit(8 * k + 2) == b.has_bit(8 * k + 2));
        assert(a.has_bit(8 * k + 3) == b.has_bit(8 * k + 3));
        assert(a.has_bit(8 * k + 4) == b.has_bit(8 * k + 4));
        assert(a.has_bit(8 * k + 5) == b.has_bit(8 * k + 5));
        assert(a.has_bit(8 * k + 6) == b.has_bit(8 * k + 6));
        assert(a.has_bit(8 * k + 7) == b.has_bit(8 * k + 7));
        lemma_byte_ext(a.raw@[k], b.raw@[k]);
    }
    assert(a.raw@ =~= b.raw@);
}

/// A byte-wise XOR has, at every position, the XOR of the two bits.
pub proof fn lemma_xor_bits(a: SubotaiHash, b: SubotaiHash, r: SubotaiHash)
    requires
        is_xor(a, b, r),
    ensures
        forall|i: int| 0 <= i < HASH_SIZE ==> #[trigger] r.has_bit(i) == xor_bits(a, b)(i),
{
    assert forall|i: int| 0 <= i < HASH_SIZE implies #[trigger] r.has_bit(i) == xor_bits(a, b)(i) by {
        lemma_byte_bit_xor(a.raw@[i / 8], b.raw@[i / 8], (i % 8) as u8);
    }
}

/// Flipping the same bit twice gives back the identifier it started from.
pub proof fn lemma_flip_bit_twice(h: SubotaiHash, position: int, once: SubotaiHash, twice: SubotaiHash)
    requires
        is_flipped(h, position, once),
        is_flipped(once, position, twice),
    ensures
        twice.raw@ == h.raw@,
{
    if 0 <= position < HASH_SIZE {
        lemma_byte_flip_twice(h.raw@[position / 8], (position % 8) as u8);
        assert(twice.raw@ =~= h.raw@);
    }
}

/// The XOR of an identifier with itself is the blank identifier.
pub proof fn lemma_xor_self_is_blank(a: SubotaiHash, r: SubotaiHash)
    requires
        is_xor(a, a, r),
    ensures
        r.is_blank(),
{
    assert forall|k: int| 0 <= k < HASH_SIZE_BYTES implies #[trigger] r.raw@[k] == 0u8 by {
        lemma_byte_self_xor(a.raw@[k]);
    }
}

/// An identifier drawn at distance zero from a reference is that reference.
pub proof fn lemma_at_distance_zero(reference: SubotaiHash, noise: SubotaiHash, r: SubotaiHash)
    requires
        is_at_distance(reference, 0, noise, r),
    ensures
        r.raw@ == reference.raw@,
{
    lemma_bits_ext(r, reference);
}

/// An identifier drawn at distance `d` from a reference keeps every bit of
/// the reference from `d` up, so their XOR distance has no bit set there.
pub proof fn lemma_at_distance_height(
    reference: SubotaiHash,
    distance: int,
    noise: SubotaiHash,
    r: SubotaiHash,
)
    requires
        0 <= distance,
        is_at_distance(reference, distance, noise, r),
    ensures
        match distance_height(reference, r) {
            Some(h) => h < distance,
            None => true,
        },
{
    lemma_top_set_below(xor_bits(reference, r), HASH_SIZE as int, distance);
}

/// When `f` is false from `d` up to `n`, its top position below `n` is under `d`.
pub proof fn lemma_top_set_below(f: spec_fn(int) -> bool, n: int, d: int)
    requires
        0 <= d,
        forall|j: int| d <= j < n ==> !#[trigger] f(j),
    ensures
        match top_set(f, n) {
            Some(h) => h < d,
            None => true,
        },
    decreases n,
{
    if n > 0 && !f(n - 1) {
        lemma_top_set_below(f, n - 1, d);
    }
}

/// The top position of `f` below `n` is set, and nothing above it is.
pub proof fn lemma_top_set_spec(f: spec_fn(int) -> bool, n: int)
    ensures
        match top_set(f, n) {
            Some(h) => 0 <= h < n && f(h) && forall|j: int| h < j < n ==> !#[trigger] f(j),
            None => forall|j: int| 0 <= j < n ==> !#[trigger] f(j),
        },
    decreases n,
{
    if n > 0 && !f(n - 1) {
        lemma_top_set_spec(f, n - 1);
    }
}

/// Two identifiers are equal exactly when their XOR distance has no height.
pub proof fn lemma_distance_none_iff_equal(a: SubotaiHash, b: SubotaiHash)
    ensures
        distance_height(a, b) is None <==> a == b,
{
    lemma_top_set_spec(xor_bits(a, b), HASH_SIZE as int);
    if distance_height(a, b) is None {
        assert forall|i: int| 0 <= i < HASH_SIZE implies #[trigger] a.has_bit(i) == b.has_bit(i) by {
            assert(!xor_bits(a, b)(i));
        }
        lemma_bits_ext(a, b);
        assert(a.raw =~= b.raw);
    }
}

impl SubotaiHash {
    /// Whether bit `i` is set.
    pub open spec fn has_bit(&self, i: int) -> bool {
        0 <= i < HASH_SIZE && byte_bit(self.raw@[i / 8], (i % 8) as u8)
    }

    /// All bits of the identifier as a function of their position.
    pub open spec fn bits(&self) -> spec_fn(int) -> bool {
        |i: int| self.has_bit(i)
    }

    /// Every byte is zero.
    pub open spec fn is_blank(&self) -> bool {
        forall|k: int| 0 <= k < HASH_SIZE_BYTES ==> #[trigger] self.raw@[k] == 0u8
    }

    /// Index of the most significant set bit, if any.
    pub open spec fn spec_height(&self) -> Option<int> {
        top_set(self.bits(), HASH_SIZE as int)
    }

    /// Generates a blank hash (every bit set to 0).
    pub fn blank() -> (r: SubotaiHash)
        ensures
            r.is_blank(),
    {
        SubotaiHash { raw: [0u8; HASH_SIZE_BYTES] }
    }

    /// Generates a random hash from the operating system's entropy.
    pub fn random() -> (r: SubotaiHash) {
        SubotaiHash { raw: random_bytes() }
    }

    /// Reads bit `i`.
    pub fn bit(&self, i: usize) -> (r: bool)
        requires
            i < HASH_SIZE,
        ensures
            r == self.has_bit(i as int),
    {
        (self.raw[i / 8] >> ((i % 8) as u8)) & 1u8 == 1u8
    }

    /// XOR of two identifiers, byte by byte.
    pub fn xor(&self, other: &SubotaiHash) -> (r: SubotaiHash)
        ensures
            is_xor(*self, *other, r),
            forall|i: int| 0 <= i < HASH_SIZE ==> #[trigger] r.has_bit(i) == xor_bits(*self, *other)(i),
            r.bits() == xor_bits(*self, *other),
    {
        let mut r = SubotaiHash::blank();
        let mut k: usize = 0;
        while k < HASH_SIZE_BYTES
            invariant
                k <= HASH_SIZE_BYTES,
                forall|j: int| 0 <= j < k ==> #[trigger] r.raw@[j] == self.raw@[j] ^ other.raw@[j],
            decreases HASH_SIZE_BYTES - k,
        {
            r.raw[k] = self.raw[k] ^ other.raw[k];
            k += 1;
        }
        proof {
            lemma_xor_bits(*self, *other, r);
            assert(r.bits() =~= xor_bits(*self, *other));
        }
        r
    }

    /// Computes the bit index of the highest "1". Returns None for a blank hash.
    pub fn height(&self) -> (r: Option<usize>)
        ensures
            match r {
                Some(i) => self.spec_height() == Some(i as int),
                None => self.spec_height() is None,
            },
    {
        let mut i: usize = HASH_SIZE;
        while i > 0
            invariant
                i <= HASH_SIZE,
                top_set(self.bits(), HASH_SIZE as int) == top_set(self.bits(), i as int),
            decreases i,
        {
            if self.bit(i - 1) {
                return Some(i - 1);
            }
            i -= 1;
        }
        None
    }

    /// Flips the bit at `position`; does nothing when it is out of range.
    pub fn flip_bit(&mut self, position: usize)
        ensures
            is_flipped(*old(self), position as int, *final(self)),
            forall|i: int|
                0 <= i < HASH_SIZE ==> #[trigger] final(self).has_bit(i) == if i == position {
                    !old(self).has_bit(i)
                } else {
                    old(self).has_bit(i)
                },
    {
        if position >= HASH_SIZE {
            return;
        }
        let k = position / 8;
        let m = (position % 8) as u8;
        self.raw[k] = self.raw[k] ^ (1u8 << m);
        proof {
            assert forall|i: int| 0 <= i < HASH_SIZE implies #[trigger] final(self).has_bit(i) == if i
                == position {
                !old(self).has_bit(i)
            } else {
                old(self).has_bit(i)
            } by {
                if i / 8 == k {
                    lemma_byte_bit_flip(old(self).raw@[k as int], m, (i % 8) as u8);
                }
            }
        }
    }

    /// Takes the bits below `distance` from `noise` and the others from
    /// `reference`.
    pub fn at_distance_with(reference: &SubotaiHash, distance: usize, noise: &SubotaiHash) -> (r:
        SubotaiHash)
        ensures
            is_at_distance(*reference, distance as int, *noise, r),
    {
        let mut r = *reference;
        let top = if distance < HASH_SIZE {
            distance
        } else {
            HASH_SIZE
        };
        let mut i: usize = 0;
        while i < top
            invariant
                i <= top <= HASH_SIZE,
                top == distance || (top == HASH_SIZE && distance >= HASH_SIZE),
                forall|j: int| 0 <= j < i ==> #[trigger] r.has_bit(j) == noise.has_bit(j),
                forall|j: int| i <= j < HASH_SIZE ==> #[trigger] r.has_bit(j) == reference.has_bit(j),
            decreases top - i,
        {
            if r.bit(i) != noise.bit(i) {
                r.flip_bit(i);
            }
            i += 1;
        }
        r
    }

    /// Creates a random hash that agrees with `reference` on every bit from
    /// `distance` up; the bits below are random.
    pub fn random_at_distance(reference: &SubotaiHash, distance: usize) -> (r: SubotaiHash)
        ensures
            forall|i: int|
                distance <= i < HASH_SIZE ==> #[trigger] r.has_bit(i) == reference.has_bit(i),
    {
        let noise = SubotaiHash::random();
        SubotaiHash::at_distance_with(reference, distance, &noise)
    }

    /// Total order by numeric value (byte 19 is the most significant).
    pub fn compare(&self, other: &SubotaiHash) -> (r: core::cmp::Ordering)
        ensures
            (r == core::cmp::Ordering::Less) == bits_lt(self.bits(), other.bits()),
            (r == core::cmp::Ordering::Greater) == bits_lt(other.bits(), self.bits()),
            (r == core::cmp::Ordering::Equal) == (self.raw@ == other.raw@),
    {
        let mut i: usize = HASH_SIZE;
        while i > 0
            invariant
                i <= HASH_SIZE,
                forall|j: int| i <= j < HASH_SIZE ==> #[trigger] self.has_bit(j) == other.has_bit(j),
            decreases i,
        {
            let a = self.bit(i - 1);
            let b = other.bit(i - 1);
            if a != b {
                proof {
                    let m = (i - 1) as int;
                    assert(self.bits()(m) == a && other.bits()(m) == b);
                    if !a {
                        assert(bits_lt(self.bits(), other.bits()));
                    } else {
                        assert(bits_lt(other.bits(), self.bits()));
                    }
                }
                if !a {
                    return core::cmp::Ordering::Less;
                } else {
                    return core::cmp::Ordering::Greater;
                }
            }
            i -= 1;
        }
        proof {
            lemma_bits_ext(*self, *other);
        }
        core::cmp::Ordering::Equal
    }

    /// Provides an iterator through the indices of each of its "0" bits.
    pub fn zeroes(&self) -> (r: Zeroes)
        ensures
            r.wf(),
            r.source() == *self,
            r.front() == 0,
            r.back() == HASH_SIZE,
    {
        Zeroes { hash: self, index: 0, rev: HASH_SIZE }
    }

    /// Provides an iterator through the indices of each of its "1" bits.
    pub fn ones(&self) -> (r: Ones)
        ensures
            r.wf(),
            r.source() == *self,
            r.front() == 0,
            r.back() == HASH_SIZE,
    {
        Ones { hash: self, index: 0, rev: HASH_SIZE }
    }

    /// Provides a consuming iterator through the indices of each of its "0" bits.
    pub fn into_zeroes(self) -> (r: IntoZeroes)
        ensures
            r.wf(),
            r.source() == self,
            r.front() == 0,
            r.back() == HASH_SIZE,
    {
        IntoZeroes { hash: self, index: 0, rev: HASH_SIZE }
    }

    /// Provides a consuming iterator through the indices of each of its "1" bits.
    pub fn into_ones(self) -> (r: IntoOnes)
        ensures
            r.wf(),
            r.source() == self,
            r.front() == 0,
            r.back() == HASH_SIZE,
    {
        IntoOnes { hash: self, index: 0, rev: HASH_SIZE }
    }
}

/// Finds the first position in `index..rev` whose bit equals `want`; the
/// second result is where the front of the scan ends up.
fn scan_forward(h: &SubotaiHash, want: bool, index: usize, rev: usize) -> (r: (Option<usize>, usize))
    requires
        index <= rev <= HASH_SIZE,
    ensures
        first_with(*h, want, index as int, rev as int, r.0),
        r.1 == match r.0 {
            Some(p) => (p + 1) as usize,
            None => rev,
        },
{
    let mut i = index;
    while i < rev
        invariant
            index <= i <= rev <= HASH_SIZE,
            forall|q: int| index <= q < i ==> #[trigger] h.has_bit(q) != want,
        decreases rev - i,
    {
        if h.bit(i) == want {
            return (Some(i), i + 1);
        }
        i += 1;
    }
    (None, rev)
}

/// Finds the last position in `index..rev` whose bit equals `want`; the
/// second result is where the back of the scan ends up.
fn scan_backward(h: &SubotaiHash, want: bool, index: usize, rev: usize) -> (r: (Option<usize>, usize))
    requires
        index <= rev <= HASH_SIZE,
    ensures
        last_with(*h, want, index as int, rev as int, r.0),
        r.1 == match r.0 {
            Some(p) => p,
            None => index,
        },
{
    let mut i = rev;
    while i > index
        invariant
            index <= i <= rev <= HASH_SIZE,
            forall|q: int| i <= q < rev ==> #[trigger] h.has_bit(q) != want,
        decreases i,
    {
        if h.bit(i - 1) == want {
            return (Some(i - 1), i - 1);
        }
        i -= 1;
    }
    (None, index)
}

/// Iterator through the indices of each '0' in a hash.
pub struct Zeroes<'a> {
    hash: &'a SubotaiHash,
    index: usize,
    rev: usize,
}

impl<'a> Zeroes<'a> {
    /// The identifier whose bits are walked.
    pub closed spec fn source(&self) -> SubotaiHash {
        *self.hash
    }

    /// First position not yet produced from the front.
    pub closed spec fn front(&self) -> int {
        self.index as int
    }

    /// One past the last position not yet produced from the back.
    pub closed spec fn back(&self) -> int {
        self.rev as int
    }

    pub closed spec fn wf(&self) -> bool {
        self.index <= self.rev <= HASH_SIZE
    }

    /// Produces the lowest remaining position whose bit is clear.
    pub fn next(&mut self) -> (r: Option<usize>)
        requires
            old(self).wf(),
        ensures
            final(self).wf(),
            final(self).source() == old(self).source(),
            final(self).back() == old(self).back(),
            first_with(old(self).source(), false, old(self).front(), old(self).back(), r),
            final(self).front() == match r {
                Some(p) => p + 1,
                None => old(self).back(),
            },
    {
        let (r, index) = scan_forward(&self.hash, false, self.index, self.rev);
        self.index = index;
        r
    }

    /// Produces the highest remaining position whose bit is clear.
    pub fn next_back(&mut self) -> (r: Option<usize>)
        requires
            old(self).wf(),
        ensures
            final(self).wf(),
            final(self).source() == old(self).source(),
            final(self).front() == old(self).front(),
            last_with(old(self).source(), false, old(self).front(), old(self).back(), r),
            final(self).back() == match r {
                Some(p) => p as int,
                None => old(self).front(),
            },
    {
        let (r, rev) = scan_backward(&self.hash, false, self.index, self.rev);
        self.rev = rev;
        r
    }
}

/// Iterator through the indices of each '1' in a hash.
pub struct Ones<'a> {
    hash: &'a SubotaiHash,
    index: usize,
    rev: usize,
}

impl<'a> Ones<'a> {
    /// The identifier whose bits are walked.
    pub closed spec fn source(&self) -> SubotaiHash {
        *self.hash
    }

    /// First position not yet produced from the front.
    pub closed spec fn front(&self) -> int {
        self.index as int
    }

    /// One past the last position not yet produced from the back.
    pub closed spec fn back(&self) -> int {
        self.rev as int
    }

    pub closed spec fn wf(&self) -> bool {
        self.index <= self.rev <= HASH_SIZE
    }

    /// Produces the lowest remaining position whose bit is set.
    pub fn next(&mut self) -> (r: Option<usize>)
        requires
            old(self).wf(),
        ensures
            final(self).wf(),
            final(self).source() == old(self).source(),
            final(self).back() == old(self).back(),
            first_with(old(self).source(), true, old(self).front(), old(self).back(), r),
            final(self).front() == match r {
                Some(p) => p + 1,
                None => old(self).back(),
            },
    {
        let (r, index) = scan_forward(&self.hash, true, self.index, self.rev);
        self.index = index;
        r
    }

    /// Produces the highest remaining position whose bit is set.
    pub fn next_back(&mut self) -> (r: Option<usize>)
        requires
            old(self).wf(),
        ensures
            final(self).wf(),
            final(self).source() == old(self).source(),
            final(self).front() == old(self).front(),
            last_with(old(self).source(), true, old(self).front(), old(self).back(), r),
            final(self).back() == match r {
                Some(p) => p as int,
                None => old(self).front(),
            },
    {
        let (r, rev) = scan_backward(&self.hash, true, self.index, self.rev);
        self.rev = rev;
        r
    }
}

/// Consuming iterator through the indices of each '0' in a hash.
pub struct IntoZeroes {
    hash: SubotaiHash,
    index: usize,
    rev: usize,
}

impl IntoZeroes {
    /// The identifier whose bits are walked.
    pub closed spec fn source(&self) -> SubotaiHash {
        self.hash
    }

    /// First position not yet produced from the front.
    pub closed spec fn front(&self) -> int {
        self.index as int
    }

    /// One past the last position not yet produced from the back.
    pub closed spec fn back(&self) -> int {
        self.rev as int
    }

    pub closed spec fn wf(&self) -> bool {
        self.index <= self.rev <= HASH_SIZE
    }

    /// Produces the lowest remaining position whose bit is clear.
    pub fn next(&mut self) -> (r: Option<usize>)
        requires
            old(self).wf(),
        ensures
            final(self).wf(),
            final(self).source() == old(self).source(),
            final(self).back() == old(self).back(),
            first_with(old(self).source(), false, old(self).front(), old(self).back(), r),
            final(self).front() == match r {
                Some(p) => p + 1,
                None => old(self).back(),
            },
    {
        let (r, index) = scan_forward(&self.hash, false, self.index, self.rev);
        self.index = index;
        r
    }

    /// Produces the highest remaining position whose bit is clear.
    pub fn next_back(&mut self) -> (r: Option<usize>)
        requires
            old(self).wf(),
        ensures
            final(self).wf(),
            final(self).source() == old(self).source(),
            final(self).front() == old(self).front(),
            last_with(old(self).source(), false, old(self).front(), old(self).back(), r),
            final(self).back() == match r {
                Some(p) => p as int,
                None => old(self).front(),
            },
    {
        let (r, rev) = scan_backward(&self.hash, false, self.index, self.rev);
        self.rev = rev;
        r
    }
}

/// Consuming iterator through the indices of each '1' in a hash.
pub struct IntoOnes {
    hash: SubotaiHash,
    index: usize,
    rev: usize,
}

impl IntoOnes {
    /// The identifier whose bits are walked.
    pub closed spec fn source(&self) -> SubotaiHash {
        self.hash
    }

    /// First position not yet produced from the front.
    pub closed spec fn front(&self) -> int {
        self.index as int
    }

    /// One past the last position not yet produced from the back.
    pub closed spec fn back(&self) -> int {
        self.rev as int
    }

    pub closed spec fn wf(&self) -> bool {
        self.index <= self.rev <= HASH_SIZE
    }

    /// Produces the lowest remaining position whose bit is set.
    pub fn next(&mut self) -> (r: Option<usize>)
        requires
            old(self).wf(),
        ensures
            final(self).wf(),
            final(self).source() == old(self).source(),
            final(self).back() == old(self).back(),
            first_with(old(self).source(), true, old(self).front(), old(self).back(), r),
            final(self).front() == match r {
                Some(p) => p + 1,
                None => old(self).back(),
            },
    {
        let (r, index) = scan_forward(&self.hash, true, self.index, self.rev);
        self.index = index;
        r
    }

    /// Produces the highest remaining position whose bit is set.
    pub fn next_back(&mut self) -> (r: Option<usize>)
        requires
            old(self).wf(),
        ensures
            final(self).wf(),
            final(self).source() == old(self).source(),
            final(self).front() == old(self).front(),
            last_with(old(self).source(), true, old(self).front(), old(self).back(), r),
            final(self).back() == match r {
                Some(p) => p as int,
                None => old(self).front(),
            },
    {
        let (r, rev) = scan_backward(&self.hash, true, self.index, self.rev);
        self.rev = rev;
        r
    }
}

impl PartialEq for SubotaiHash {
    fn eq(&self, other: &SubotaiHash) -> (r: bool)
        ensures
            r == (self.raw@ == other.raw@),
    {
        let mut k: usize = 0;
        while k < HASH_SIZE_BYTES
            invariant
                k <= HASH_SIZE_BYTES,
                forall|j: int| 0 <= j < k ==> #[trigger] self.raw@[j] == other.raw@[j],
            decreases HASH_SIZE_BYTES - k,
        {
            if self.raw[k] != other.raw[k] {
                return false;
            }
            k += 1;
        }
        assert(self.raw@ =~= other.raw@);
        true
    }
}

impl vstd::std_specs::cmp::PartialEqSpecImpl for SubotaiHash {
    open spec fn obeys_eq_spec() -> bool {
        true
    }

    open spec fn eq_spec(&self, other: &SubotaiHash) -> bool {
        self.raw@ == other.raw@
    }
}

/// Two identifiers with the same bytes are the same identifier.
pub proof fn lemma_raw_ext(a: SubotaiHash, b: SubotaiHash)
    requires
        a.raw@ == b.raw@,
    ensures
        a == b,
{
    assert(a.raw =~= b.raw);
}

/// Relies on rand's `thread_rng().fill_bytes`: fills an identifier's bytes
/// from the thread's random generator; nothing is promised of the bytes.
#[verifier::external_body]
fn random_bytes() -> (r: [u8; HASH_SIZE_BYTES]) {
    let mut raw = [0u8; HASH_SIZE_BYTES];
    rand::RngCore::fill_bytes(&mut rand::thread_rng(), &mut raw);
    raw
}

} // verus!
