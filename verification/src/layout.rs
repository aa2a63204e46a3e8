//! How many shards a map has, and which hash goes to which of them.
use vstd::arithmetic::div_mod::{
    lemma_basic_div, lemma_div_multiples_vanish, lemma_div_pos_is_pos, lemma_multiply_divide_lt,
};
use vstd::arithmetic::mul::lemma_mul_is_commutative;
use vstd::arithmetic::power::pow;
use vstd::arithmetic::power2::{
    is_pow2, is_pow2_equiv, lemma2_to64, lemma_pow2, lemma_pow2_adds, lemma_pow2_pos,
    lemma_pow2_strictly_increases, lemma_pow2_unfold, pow2,
};
use vstd::bits::{lemma_u64_shl_is_mul, lemma_usize_shl_is_mul, lemma_usize_shr_is_div};
use vstd::layout::{layout_of_primitives, unsigned_int_max_values};
use vstd::prelude::*;
use vstd::std_specs::bits::{axiom_u64_trailing_zeros, u64_trailing_zeros};

verus! {

/// `usize::next_power_of_two`: the smallest power of two that is not less than
/// `n`. It panics where that is no `usize`.
pub assume_specification[ usize::next_power_of_two ](n: usize) -> (p: usize)
    requires
        n <= usize::MAX / 2 + 1,
    ensures
        is_pow2(p as int),
        n <= p,
        p == 1 || p < 2 * n,
;

/// Returns the number of bits in a pointer.
pub fn ptr_size_bits() -> (bits: usize)
    ensures
        bits == usize::BITS,
{
    broadcast use layout_of_primitives;

    std::mem::size_of::<usize>() * 8
}

/// Whether `shards` is the smallest power of two that gives four shards to each
/// thread of a machine that runs `parallelism` threads at a time. Where that is
/// not known it is taken to be one.
pub open spec fn suits_parallelism(shards: int, parallelism: Option<usize>) -> bool {
    let threads = match parallelism {
        Some(p) => p,
        None => 1,
    };
    is_pow2(shards) && 4 * threads <= shards < 8 * threads
}

/// Returns the number of shards of a map on a machine that runs `parallelism`
/// threads at a time, if that is known.
pub fn calculate_shard_count(parallelism: Option<usize>) -> (shards: usize)
    requires
        parallelism matches Some(p) ==> 1 <= p <= usize::MAX / 8 + 1,
    ensures
        suits_parallelism(shards as int, parallelism),
        is_pow2(shards as int),
        parallelism matches Some(p) ==> 4 * p <= shards < 8 * p,
        parallelism is None ==> shards == 4,
{
    let threads: usize = match parallelism {
        Some(p) => p,
        None => 1,
    };
    let shards: usize = (threads * 4).next_power_of_two();
    proof {
        if shards != 4 && shards < 8 {
            lemma_four_is_pow2();
            lemma_pow2_gap(4, shards as int);
        }
    }
    shards
}

/// The shard, out of `shards`, that `hash` goes to: the seven high bits of the
/// hash are left to the hash tables, and the rest is scaled to the number of
/// shards.
pub open spec fn shard_index(hash: usize, shards: int) -> int {
    ((hash * 128) % (usize::MAX + 1)) / ((usize::MAX + 1) / shards)
}

/// Assigns hashes to shards.
pub struct ShardLayout {
    shards: usize,
    shift: usize,
}

impl ShardLayout {
    /// The number of shards.
    pub closed spec fn shards(&self) -> int {
        self.shards as int
    }

    /// Whether the number of shards is a power of two greater than one, and the
    /// layout assigns hashes to that many shards.
    pub closed spec fn wf(&self) -> bool {
        &&& self.shards > 1
        &&& is_pow2(self.shards as int)
        &&& self.shift < usize::BITS
        &&& pow2(self.shift as nat) * self.shards == usize::MAX + 1
    }

    /// There is a power of two of shards, more than one, and a hash goes to one of
    /// them.
    pub proof fn lemma_in_range(&self, hash: usize)
        requires
            self.wf(),
        ensures
            self.shards() > 1,
            is_pow2(self.shards()),
            0 <= shard_index(hash, self.shards()) < self.shards(),
    {
        lemma_shard_index(hash, self.shards());
    }

    /// Creates a layout of `shards` shards.
    pub fn new(shards: usize) -> (layout: Self)
        requires
            shards > 1,
            is_pow2(shards as int),
        ensures
            layout.wf(),
            layout.shards() == shards,
    {
        let zeros: u32 = (shards as u64).trailing_zeros();
        proof {
            lemma_trailing_zeros(shards as u64);
            unsigned_int_max_values();
            if zeros > usize::BITS {
                lemma_pow2_strictly_increases(usize::BITS as nat, zeros as nat);
            }
            if zeros == 0 {
                lemma2_to64();
            }
            lemma_pow2_adds((usize::BITS - zeros) as nat, zeros as nat);
        }
        let shift: usize = ptr_size_bits() - (zeros as usize);
        ShardLayout { shards, shift }
    }

    /// Returns the shard that `hash` goes to.
    pub fn shard_for_hash(&self, hash: usize) -> (index: usize)
        requires
            self.wf(),
        ensures
            index == shard_index(hash, self.shards()),
            index < self.shards(),
    {
        let index: usize = (hash << 7) >> self.shift;
        proof {
            let shifted = hash << 7usize;
            let max = usize::MAX;
            assert(max <= !0usize) by (bit_vector);
            assert(shifted == (hash * 128) % (max + 1)) by (bit_vector)
                requires
                    shifted == hash << 7usize,
                    max == !0usize,
            ;
            lemma_usize_shr_is_div(shifted, self.shift);
            lemma_div_multiples_vanish(pow2(self.shift as nat) as int, self.shards());
            lemma_mul_is_commutative(pow2(self.shift as nat) as int, self.shards());
            self.lemma_in_range(hash);
        }
        index
    }

    /// Returns the number of entries that each shard is made to hold so that
    /// together they hold `cap`.
    pub fn shard_capacity(&self, cap: usize) -> (each: usize)
        requires
            self.wf(),
            cap == 0 || cap + self.shards() - 1 <= usize::MAX,
        ensures
            each == (cap + self.shards() - 1) / self.shards(),
    {
        let ghost given = cap;
        let mut cap: usize = cap;
        if cap != 0 {
            cap = (cap + (self.shards - 1)) & !(self.shards - 1);
        }
        let each: usize = cap / self.shards;
        proof {
            if given != 0 {
                lemma_round_down((given + (self.shards - 1)) as usize, self.shards);
            } else {
                lemma_basic_div(0, self.shards as int);
                lemma_basic_div(self.shards - 1, self.shards as int);
            }
        }
        each
    }
}

/// Four is a power of two.
pub(crate) proof fn lemma_four_is_pow2()
    ensures
        is_pow2(4),
{
    is_pow2_equiv(4);
    lemma_pow2(2);
    lemma2_to64();
    assert(pow(2, 2) == 4);
}

/// The next power of two is twice as large.
pub(crate) proof fn lemma_pow2_gap(a: int, b: int)
    requires
        is_pow2(a),
        is_pow2(b),
        a < b,
    ensures
        2 * a <= b,
{
    is_pow2_equiv(a);
    is_pow2_equiv(b);
    let d = choose|d: nat| pow(2, d) == a;
    let e = choose|e: nat| pow(2, e) == b;
    lemma_pow2(d);
    lemma_pow2(e);
    if e < d {
        lemma_pow2_strictly_increases(e, d);
    }
    lemma_pow2_unfold(d + 1);
    if d + 1 < e {
        lemma_pow2_strictly_increases(d + 1, e);
    }
}

/// A power of two divides the number of hashes.
pub(crate) proof fn lemma_parts(shards: int)
    requires
        is_pow2(shards),
        1 < shards <= usize::MAX,
    ensures
        (usize::MAX + 1) / shards * shards == usize::MAX + 1,
        (usize::MAX + 1) / shards > 0,
{
    unsigned_int_max_values();
    lemma_trailing_zeros(shards as u64);
    let zeros = u64_trailing_zeros(shards as u64);
    if zeros > usize::BITS {
        lemma_pow2_strictly_increases(usize::BITS as nat, zeros as nat);
    }
    let rest = (usize::BITS - zeros) as nat;
    lemma_pow2_adds(rest, zeros as nat);
    lemma_pow2_pos(rest);
    lemma_div_multiples_vanish(pow2(rest) as int, shards);
    lemma_mul_is_commutative(pow2(rest) as int, shards);
}

/// A hash goes to one of the shards.
pub(crate) proof fn lemma_shard_index(hash: usize, shards: int)
    requires
        is_pow2(shards),
        1 < shards <= usize::MAX,
    ensures
        0 <= shard_index(hash, shards) < shards,
{
    let all = usize::MAX + 1;
    let shifted = (hash * 128) % all;
    lemma_parts(shards);
    lemma_multiply_divide_lt(shifted, all / shards, shards);
    lemma_mul_is_commutative(all / shards, shards);
    lemma_div_pos_is_pos(shifted, all / shards);
}

/// A power of two is at most half of what a `usize` can count.
pub(crate) proof fn lemma_pow2_half(n: int)
    requires
        is_pow2(n),
        n <= usize::MAX,
    ensures
        n <= usize::MAX / 2 + 1,
{
    is_pow2_equiv(n);
    unsigned_int_max_values();
    let e = choose|e: nat| pow(2, e) == n;
    lemma_pow2(e);
    let half = (usize::BITS - 1) as nat;
    if e > half {
        if e > half + 1 {
            lemma_pow2_strictly_increases(half + 1, e);
        }
    } else if e < half {
        lemma_pow2_strictly_increases(e, half);
    }
    lemma_pow2_unfold(half + 1);
}

/// Clearing the bits of `n` below the one bit of `p` leaves the quotient by `p`.
proof fn lemma_round_down(n: usize, p: usize)
    requires
        is_pow2(p as int),
    ensures
        (n & !((p - 1) as usize)) / p == n / p,
{
    lemma_trailing_zeros(p as u64);
    let zeros = u64_trailing_zeros(p as u64) as usize;
    assert(zeros < usize::BITS) by {
        if zeros >= usize::BITS {
            unsigned_int_max_values();
            if zeros > usize::BITS {
                lemma_pow2_strictly_increases(usize::BITS as nat, zeros as nat);
            }
        }
    }
    assert(p == 1usize << zeros) by {
        lemma_usize_shl_is_mul(1, zeros);
    }
    let low = (p - 1) as usize;
    assert((n & !low) >> zeros == n >> zeros) by (bit_vector)
        requires
            p == 1usize << zeros,
            low == p - 1,
            zeros < usize::BITS,
    ;
    lemma_usize_shr_is_div(n & !low, zeros);
    lemma_usize_shr_is_div(n, zeros);
}

/// A power of two has as many trailing zeros as its exponent says.
pub(crate) proof fn lemma_trailing_zeros(n: u64)
    requires
        is_pow2(n as int),
    ensures
        u64_trailing_zeros(n) < 64,
        pow2(u64_trailing_zeros(n) as nat) == n,
{
    is_pow2_equiv(n as int);
    let e = choose|e: nat| pow(2, e) == n;
    assert(e < 64) by {
        if e >= 64 {
            unsigned_int_max_values();
            if e > 64 {
                lemma_pow2_strictly_increases(64, e);
            }
        }
    }
    lemma_pow2_pos(e);
    axiom_u64_trailing_zeros(n);
    let e = e as u64;
    let zeros = u64_trailing_zeros(n) as u64;
    assert(n == 1u64 << e) by {
        lemma_u64_shl_is_mul(1, e);
    }
    assert(zeros == e) by (bit_vector)
        requires
            n == 1u64 << e,
            e < 64,
            zeros < 64,
            (n >> zeros) & 1u64 == 1u64,
    ;
}

} // verus!
