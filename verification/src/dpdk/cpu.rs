//! CPU cores and sets of them.

use vstd::arithmetic::power2::*;
use vstd::prelude::*;

use crate::text;

verus! {

/// The number of CPU cores that can be addressed.
pub const MAX_CORES: u16 = 128;

/// Represents a CPU core ID.
#[derive(Debug, Clone, Copy, PartialEq, Eq, Hash, Structural)]
pub struct CoreId(u16);

impl View for CoreId {
    type V = u16;

    closed spec fn view(&self) -> u16 {
        self.0
    }
}

impl CoreId {
    #[verifier::type_invariant]
    spec fn inv(self) -> bool {
        self.0 < MAX_CORES
    }

    /// Constructs a new `CoreId` using specified unsigned integer.
    pub fn new(id: u16) -> (r: Self)
        requires
            id < MAX_CORES,
        ensures
            r@ == id,
    {
        CoreId(id)
    }

    /// Returns the underlying core id value.
    pub fn as_u16(&self) -> (r: u16)
        ensures
            r == self@,
            r < MAX_CORES,
    {
        proof {
            use_type_invariant(self);
        }
        self.0
    }
}

impl Default for CoreId {
    /// The first core.
    fn default() -> (r: Self)
        ensures
            r@ == 0,
    {
        CoreId(0)
    }
}

/// Keeps CPU cores bitmask for further usage in EAL arguments.
#[derive(Debug, Clone, Copy, PartialEq, Eq, Hash, Structural)]
pub struct CoreMask(u128);

/// Whether bit `i` of `v` is set.
pub open spec fn bit(v: u128, i: u16) -> bool {
    (v >> (i as u128)) & 1u128 == 1u128
}

/// Whether the bits of `v` are those of the given cores.
pub open spec fn is_mask(v: u128, cores: Set<u16>) -> bool {
    forall|i: u16| i < MAX_CORES ==> (#[trigger] bit(v, i) <==> cores.contains(i))
}

/// The bitmask of the given cores.
pub open spec fn mask_of(cores: Set<u16>) -> u128 {
    choose|v: u128| is_mask(v, cores)
}

proof fn lemma_same_bits_from(v: u128, w: u128, cores: Set<u16>, k: u16)
    requires
        is_mask(v, cores),
        is_mask(w, cores),
        k <= MAX_CORES,
    ensures
        v >> (k as u128) == w >> (k as u128),
    decreases MAX_CORES - k,
{
    let a = k as u128;
    if k == MAX_CORES {
        assert(v >> a == w >> a) by (bit_vector)
            requires
                a == 128,
        ;
    } else {
        lemma_same_bits_from(v, w, cores, (k + 1) as u16);
        assert(bit(v, k) == bit(w, k));
        let b = (k + 1) as u128;
        assert(v >> a == w >> a) by (bit_vector)
            requires
                b == a + 1,
                a < 128,
                v >> b == w >> b,
                ((v >> a) & 1u128 == 1u128) == ((w >> a) & 1u128 == 1u128),
        ;
    }
}

/// A set of cores has one bitmask only.
pub proof fn lemma_mask_is_unique(v: u128, cores: Set<u16>)
    requires
        is_mask(v, cores),
    ensures
        v == mask_of(cores),
{
    let w = mask_of(cores);
    assert(is_mask(w, cores));
    lemma_same_bits_from(v, w, cores, 0);
    assert(v >> 0u128 == v && w >> 0u128 == w) by (bit_vector);
}

impl View for CoreMask {
    type V = Set<u16>;

    /// The cores in the mask.
    open spec fn view(&self) -> Set<u16> {
        Set::new(|i: u16| i < MAX_CORES && bit(self.bits(), i))
    }
}

impl CoreMask {
    /// The bitmask value.
    pub closed spec fn bits(self) -> u128 {
        self.0
    }

    /// Adds a CPU id into the bitmask.
    pub fn add(&mut self, id: CoreId)
        ensures
            final(self)@ == old(self)@.insert(id@),
    {
        let i: u16 = id.as_u16();
        let ghost v = self.0;
        self.0 = self.0 | (1u128 << (i as u128));
        proof {
            let w = self.0;
            assert forall|j: u16| j < MAX_CORES implies bit(w, j) == (j == i || bit(v, j)) by {
                let (a, b) = (i as u128, j as u128);
                assert((((v | (1u128 << a)) >> b) & 1u128 == 1u128) == (b == a || (v >> b) & 1u128 == 1u128))
                    by (bit_vector)
                    requires
                        a < 128,
                        b < 128,
                ;
            }
            assert(self@ =~= old(self)@.insert(id@));
        }
    }

    /// Yields the underlying bitmask value.
    pub fn as_u128(&self) -> (r: u128)
        ensures
            r == self.bits(),
            r == mask_of(self@),
            is_mask(r, self@),
    {
        proof {
            lemma_mask_is_unique(self.0, self@);
        }
        self.0
    }
}

impl Default for CoreMask {
    /// An empty mask.
    fn default() -> (r: Self)
        ensures
            r@ == Set::<u16>::empty(),
            r.bits() == 0,
    {
        let r: CoreMask = CoreMask(0);
        proof {
            assert forall|i: u16| i < MAX_CORES implies !bit(0, i) by {
                let b = i as u128;
                assert((0u128 >> b) & 1u128 == 0u128) by (bit_vector)
                    requires
                        b < 128,
                ;
            }
            assert(r@ =~= Set::empty());
        }
        r
    }
}

/// Appends the number of a core.
pub fn push_core(out: &mut String, id: CoreId)
    ensures
        final(out)@ == old(out)@ + text::decimal(id@ as nat),
{
    text::push_decimal(out, id.as_u16() as u128);
}

/// The sum of `2^i` over the given cores below `k`.
pub open spec fn sum_of_powers(cores: Set<u16>, k: nat) -> nat
    decreases k,
{
    if k == 0 {
        0
    } else {
        sum_of_powers(cores, (k - 1) as nat) + (if cores.contains((k - 1) as u16) {
            pow2((k - 1) as nat)
        } else {
            0
        })
    }
}

proof fn lemma_mask_below(v: u128, cores: Set<u16>, k: nat)
    requires
        is_mask(v, cores),
        k <= 127,
    ensures
        v == (v >> (k as u128)) * pow2(k) + sum_of_powers(cores, k),
    decreases k,
{
    lemma2_to64();
    if k == 0 {
        assert(v >> 0u128 == v) by (bit_vector);
        assert(v * 1 == v);
    } else {
        let j = (k - 1) as nat;
        lemma_mask_below(v, cores, j);
        let (a, b) = (j as u128, k as u128);
        let (x, y) = (v >> a, v >> b);
        assert(x == 2 * y + (x & 1u128)) by (bit_vector)
            requires
                b == a + 1,
                a < 127,
                x == v >> a,
                y == v >> b,
        ;
        assert(x & 1u128 == 1u128 || x & 1u128 == 0u128) by (bit_vector);
        assert(bit(v, j as u16) <==> cores.contains(j as u16));
        assert((j as u16) as u128 == a);
        lemma_pow2_unfold(k);
        let (p, q) = (pow2(j), pow2(k));
        assert((2 * y) * p == y * q) by (nonlinear_arith)
            requires
                q == 2 * p,
        ;
        assert((2 * y + 1) * p == (2 * y) * p + p) by (nonlinear_arith);
    }
}

/// The bitmask of cores is the sum of the powers of two of their numbers.
pub proof fn lemma_mask_is_sum(v: u128, cores: Set<u16>)
    requires
        is_mask(v, cores),
    ensures
        v == sum_of_powers(cores, 128),
{
    lemma_mask_below(v, cores, 127);
    let x = v >> 127u128;
    assert(x == 0 || x == 1) by (bit_vector)
        requires
            x == v >> 127u128,
    ;
    assert(bit(v, 127) <==> cores.contains(127));
    assert(x & 1u128 == x) by (bit_vector)
        requires
            x == 0 || x == 1,
    ;
    assert(x * pow2(127) == if x == 1 {
        pow2(127)
    } else {
        0
    }) by (nonlinear_arith)
        requires
            x == 0 || x == 1,
    ;
}

proof fn lemma_mask_upto(cores: Set<u16>, k: u16) -> (v: u128)
    requires
        k <= MAX_CORES,
    ensures
        forall|i: u16| i < MAX_CORES ==> (#[trigger] bit(v, i) <==> i < k && cores.contains(i)),
    decreases k,
{
    if k == 0 {
        assert forall|i: u16| i < MAX_CORES implies !#[trigger] bit(0, i) by {
            let b = i as u128;
            assert((0u128 >> b) & 1u128 == 0u128) by (bit_vector)
                requires
                    b < 128,
            ;
        }
        0
    } else {
        let j = (k - 1) as u16;
        let v = lemma_mask_upto(cores, j);
        if cores.contains(j) {
            let a = j as u128;
            let w = v | (1u128 << a);
            assert forall|i: u16| i < MAX_CORES implies (#[trigger] bit(w, i) <==> i < k && cores.contains(i)) by {
                let b = i as u128;
                assert((((v | (1u128 << a)) >> b) & 1u128 == 1u128) == (b == a || (v >> b) & 1u128 == 1u128))
                    by (bit_vector)
                    requires
                        a < 128,
                        b < 128,
                ;
                assert(bit(v, i) <==> i < j && cores.contains(i));
            }
            w
        } else {
            v
        }
    }
}

/// Every set of cores has a bitmask.
pub proof fn lemma_mask_exists(cores: Set<u16>)
    ensures
        is_mask(mask_of(cores), cores),
{
    let v = lemma_mask_upto(cores, MAX_CORES);
    assert(is_mask(v, cores));
}

/// The bitmask of cores is the sum of the powers of two of their numbers, whatever the cores.
pub proof fn lemma_mask_value(cores: Set<u16>)
    ensures
        mask_of(cores) == sum_of_powers(cores, 128),
{
    lemma_mask_exists(cores);
    lemma_mask_is_sum(mask_of(cores), cores);
}

} // verus!
