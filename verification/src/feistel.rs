//! A balanced Feistel network over a power-of-two domain, and the
//! cycle-walking `Permutor` that restricts it to a caller-chosen capacity.

use vstd::arithmetic::div_mod::{lemma_basic_div, lemma_div_is_ordered_by_denominator};
use vstd::arithmetic::power2::{
    lemma2_to64, lemma_pow2_adds, lemma_pow2_strictly_increases, pow2,
};
use vstd::bits::lemma_u128_shr_is_div;
use vstd::prelude::*;

use crate::masks::{
    lemma_and_mask_idem, lemma_fits_full_mask, lemma_full_mask_64, lemma_mask_join,
    lemma_mask_split, lemma_mask_step, lemma_xor_cancel, lemma_xor_mask,
};
use crate::round_hash::{fx_round_digest, round_digest};

verus! {

/// Number of bits needed to write `n` in binary; zero for `n <= 0`.
///
/// For `n >= 1` this is one more than the floor of the base-two logarithm,
/// so `pow2(bit_len(n)) > n` even when `n` is a power of two.
pub open spec fn bit_len(n: int) -> nat
    decreases n,
{
    if n <= 0 {
        0
    } else {
        (1 + bit_len(n / 2)) as nat
    }
}

/// A number below `pow2(b)` needs at most `b` bits.
pub proof fn lemma_bit_len_le(n: int, b: nat)
    requires
        0 <= n < pow2(b),
    ensures
        bit_len(n) <= b,
    decreases b,
{
    if n > 0 {
        lemma_pow2_adds((b - 1) as nat, 1);
        lemma2_to64();
        lemma_bit_len_le(n / 2, (b - 1) as nat);
    }
}

/// `bit_len` brackets its argument between two powers of two.
pub proof fn lemma_bit_len_pow2(n: int)
    requires
        n >= 1,
    ensures
        bit_len(n) >= 1,
        n < pow2(bit_len(n)),
        pow2((bit_len(n) - 1) as nat) <= n,
    decreases n,
{
    lemma2_to64();
    if n == 1 {
    } else {
        lemma_bit_len_pow2(n / 2);
        lemma_pow2_adds(bit_len(n / 2), 1);
        lemma_pow2_adds((bit_len(n / 2) - 1) as nat, 1);
    }
}

/// Bit length of `input`: `Some(1 + floor(log2(input)))`, or `None` for zero.
pub fn integer_log2(input: u128) -> (r: Option<u32>)
    ensures
        input == 0 ==> r == None::<u32>,
        input >= 1 ==> r == Some(bit_len(input as int) as u32),
        input >= 1 ==> 1 <= bit_len(input as int) <= 128,
{
    proof {
        if input >= 1 {
            lemma_pow2_adds(64, 64);
            lemma2_to64();
            lemma_bit_len_le(input as int, 128);
            lemma_bit_len_pow2(input as int);
        }
    }
    if input == 0 {
        return None;
    }
    let mut v: u128 = input;
    let mut bits: u32 = 0;
    while v > 0
        invariant
            bit_len(input as int) == bits + bit_len(v as int),
            bit_len(input as int) <= 128,
        decreases v,
    {
        v = v / 2;
        bits = bits + 1;
    }
    Some(bits)
}

/// The 256-bit key that a 64-bit key expands to: the eight big-endian bytes
/// of the key followed by 24 zero bytes.
pub open spec fn spec_key_expand(k: u64) -> Seq<u8> {
    seq![
        (k >> 56) as u8,
        (k >> 48) as u8,
        (k >> 40) as u8,
        (k >> 32) as u8,
        (k >> 24) as u8,
        (k >> 16) as u8,
        (k >> 8) as u8,
        k as u8,
        0u8,
        0u8,
        0u8,
        0u8,
        0u8,
        0u8,
        0u8,
        0u8,
        0u8,
        0u8,
        0u8,
        0u8,
        0u8,
        0u8,
        0u8,
        0u8,
        0u8,
        0u8,
        0u8,
        0u8,
        0u8,
        0u8,
        0u8,
        0u8,
    ]
}

/// Place the big-endian bytes of `input` in the first eight bytes of a
/// 32-byte key and zero-fill the rest.
pub fn u64_to_32slice(input: u64) -> (result: [u8; 32])
    ensures
        result@ == spec_key_expand(input),
{
    let b0: u8 = (input >> 56) as u8;
    let b1: u8 = (input >> 48) as u8;
    let b2: u8 = (input >> 40) as u8;
    let b3: u8 = (input >> 32) as u8;
    let b4: u8 = (input >> 24) as u8;
    let b5: u8 = (input >> 16) as u8;
    let b6: u8 = (input >> 8) as u8;
    let b7: u8 = input as u8;
    let result: [u8; 32] = [
        b0, b1, b2, b3, b4, b5, b6, b7, 0, 0, 0, 0, 0, 0, 0, 0, 0, 0, 0, 0, 0, 0, 0, 0, 0, 0, 0,
        0, 0, 0, 0, 0,
    ];
    proof {
        assert(result@ =~= spec_key_expand(input));
    }
    result
}

/// A balanced Feistel network: an invertible keyed permutation on the
/// `2 * half_width`-bit block domain `[0, left_mask | right_mask]`.
///
/// Immutable after construction. `permute` and `invert` are mutually inverse
/// bijections on that domain whatever the round digest does.
#[derive(Debug, Clone)]
pub struct FeistelNetwork {
    /// Half the block width, in bits.
    pub half_width: u128,
    /// Mask of the right half: the low `half_width` bits.
    pub right_mask: u128,
    /// Mask of the left half: the next `half_width` bits.
    pub left_mask: u128,
    /// 256-bit key as 32 bytes.
    pub key: [u8; 32],
    /// Number of Feistel rounds.
    pub rounds: u8,
}

impl FeistelNetwork {
    /// The key, as the byte sequence fed to the round digest.
    pub open spec fn key_bytes(self) -> Seq<u8> {
        self.key@
    }

    /// The number of rounds the network applies.
    pub open spec fn spec_rounds(self) -> u8 {
        self.rounds
    }

    /// Mask of the whole block domain.
    pub open spec fn full_mask(self) -> u128 {
        self.left_mask | self.right_mask
    }

    /// The masks describe two adjacent half-blocks of `half_width` bits each
    /// and the round count is in its designed range.
    pub open spec fn wf(self) -> bool {
        &&& 1 <= self.half_width <= 64
        &&& self.right_mask == (1u128 << self.half_width) - 1
        &&& self.left_mask == self.right_mask << self.half_width
        &&& 8 <= self.spec_rounds() <= 32
    }

    /// `x` lies in the block domain `[0, full_mask]`.
    pub open spec fn in_domain(self, x: u128) -> bool {
        x & self.full_mask() == x
    }
}

/// One round's mixing value: the keyed digest of the right half, projected
/// into the half-block domain by `mask`.
pub open spec fn round_fn(key: Seq<u8>, mask: u128, round: u8, right: u128) -> u128 {
    (fx_round_digest(key, right, round) as u128) & mask
}

/// The pair of halves after applying Feistel rounds `i, i + 1, ..., rounds - 1`
/// in encrypting order to `(l, r)`.
pub open spec fn fwd_from(key: Seq<u8>, mask: u128, rounds: u8, l: u128, r: u128, i: int) -> (
    u128,
    u128,
)
    decreases rounds - i,
{
    if i < 0 || i >= rounds {
        (l, r)
    } else {
        fwd_from(key, mask, rounds, r, l ^ round_fn(key, mask, i as u8, r), i + 1)
    }
}

/// The pair of halves after applying Feistel rounds `i, i - 1, ..., 0` in
/// decrypting order to `(l, r)`.
pub open spec fn bwd_from(key: Seq<u8>, mask: u128, l: u128, r: u128, i: int) -> (u128, u128)
    decreases i + 1,
{
    if i < 0 {
        (l, r)
    } else {
        bwd_from(key, mask, r ^ round_fn(key, mask, i as u8, l), l, i - 1)
    }
}

/// Encrypting rounds keep both halves within the half-block mask.
proof fn lemma_fwd_from_masked(key: Seq<u8>, mask: u128, rounds: u8, l: u128, r: u128, i: int)
    requires
        l & mask == l,
        r & mask == r,
    ensures
        fwd_from(key, mask, rounds, l, r, i).0 & mask == fwd_from(key, mask, rounds, l, r, i).0,
        fwd_from(key, mask, rounds, l, r, i).1 & mask == fwd_from(key, mask, rounds, l, r, i).1,
    decreases rounds - i,
{
    if 0 <= i < rounds {
        let f = round_fn(key, mask, i as u8, r);
        lemma_and_mask_idem(fx_round_digest(key, r, i as u8) as u128, mask);
        lemma_xor_mask(l, f, mask);
        lemma_fwd_from_masked(key, mask, rounds, r, l ^ f, i + 1);
    }
}

/// Decrypting rounds keep both halves within the half-block mask.
proof fn lemma_bwd_from_masked(key: Seq<u8>, mask: u128, l: u128, r: u128, i: int)
    requires
        l & mask == l,
        r & mask == r,
    ensures
        bwd_from(key, mask, l, r, i).0 & mask == bwd_from(key, mask, l, r, i).0,
        bwd_from(key, mask, l, r, i).1 & mask == bwd_from(key, mask, l, r, i).1,
    decreases i + 1,
{
    if i >= 0 {
        let f = round_fn(key, mask, i as u8, l);
        lemma_and_mask_idem(fx_round_digest(key, l, i as u8) as u128, mask);
        lemma_xor_mask(r, f, mask);
        lemma_bwd_from_masked(key, mask, r ^ f, l, i - 1);
    }
}

/// Decrypting rounds `rounds - 1, ..., 0` undo encrypting rounds
/// `i, ..., rounds - 1` and then behave as if started at round `i - 1`.
proof fn lemma_bwd_undoes_fwd(key: Seq<u8>, mask: u128, rounds: u8, l: u128, r: u128, i: int)
    requires
        0 <= i <= rounds,
    ensures
        ({
            let p = fwd_from(key, mask, rounds, l, r, i);
            bwd_from(key, mask, p.0, p.1, rounds - 1) == bwd_from(key, mask, l, r, i - 1)
        }),
    decreases rounds - i,
{
    if i < rounds {
        let f = round_fn(key, mask, i as u8, r);
        lemma_bwd_undoes_fwd(key, mask, rounds, r, l ^ f, i + 1);
        lemma_xor_cancel(l, f);
    }
}

/// Encrypting rounds `0, ..., rounds - 1` undo decrypting rounds `i, ..., 0`
/// and then behave as if started at round `i + 1`.
proof fn lemma_fwd_undoes_bwd(key: Seq<u8>, mask: u128, rounds: u8, l: u128, r: u128, i: int)
    requires
        -1 <= i < rounds,
    ensures
        ({
            let p = bwd_from(key, mask, l, r, i);
            fwd_from(key, mask, rounds, p.0, p.1, 0) == fwd_from(key, mask, rounds, l, r, i + 1)
        }),
    decreases i + 1,
{
    if i >= 0 {
        let f = round_fn(key, mask, i as u8, l);
        lemma_fwd_undoes_bwd(key, mask, rounds, r ^ f, l, i - 1);
        lemma_xor_cancel(r, f);
    }
}

impl FeistelNetwork {
    /// What `permute` returns: split the block, run the rounds in encrypting
    /// order, rejoin and mask.
    pub open spec fn permute_spec(self, input: u128) -> u128 {
        let l = (input & self.left_mask) >> self.half_width;
        let r = input & self.right_mask;
        let p = fwd_from(self.key_bytes(), self.right_mask, self.spec_rounds(), l, r, 0);
        ((p.0 << self.half_width) | p.1) & (self.left_mask | self.right_mask)
    }

    /// What `invert` returns: split the block, run the rounds in decrypting
    /// order, rejoin and mask.
    pub open spec fn invert_spec(self, input: u128) -> u128 {
        let l = (input & self.left_mask) >> self.half_width;
        let r = input & self.right_mask;
        let p = bwd_from(self.key_bytes(), self.right_mask, l, r, self.spec_rounds() - 1);
        ((p.0 << self.half_width) | p.1) & (self.left_mask | self.right_mask)
    }

    /// The network that construction from `(max_value, key)` yields: the
    /// width is the bit length of `max_value` rounded up to an even number of
    /// bits, and smaller domains get more rounds, capped at 32.
    pub open spec fn spec_new(max_value: u128, key: [u8; 32]) -> FeistelNetwork {
        let bits = bit_len(max_value as int);
        let width = if bits % 2 == 1 {
            (bits + 1) as nat
        } else {
            bits
        };
        let h = (width / 2) as u128;
        let denom = if bits < 4 {
            4 as nat
        } else {
            bits
        };
        let nr = (8 + 60nat / denom) as nat;
        let capped = if nr > 32 {
            32 as nat
        } else {
            nr
        };
        FeistelNetwork {
            half_width: h,
            right_mask: ((1u128 << h) - 1) as u128,
            left_mask: ((((1u128 << h) - 1) as u128) << h) as u128,
            key: key,
            rounds: capped as u8,
        }
    }

    /// Build a network whose block domain covers `[0, max_value]`, so that
    /// every value below `max_value` lies in the domain.
    pub fn new_with_slice_key(max_value: u128, key: [u8; 32]) -> (net: FeistelNetwork)
        requires
            1 <= max_value,
        ensures
            net == FeistelNetwork::spec_new(max_value, key),
            net.wf(),
            max_value <= net.full_mask(),
            net.key_bytes() == key@,
    {
        proof {
            lemma_bit_len_pow2(max_value as int);
        }
        let bits: u32 = match integer_log2(max_value) {
            Some(b) => b,
            None => 0,
        };
        let mut width: u32 = bits;
        if width % 2 != 0 {
            width = width + 1;
        }
        let half_width: u128 = (width / 2) as u128;
        proof {
            assert((1u128 << 0u128) == 1u128) by (bit_vector);
        }
        let mut right_mask: u128 = 0;
        let mut i: u128 = 0;
        while i < half_width
            invariant
                i <= half_width,
                half_width <= 64,
                right_mask == (1u128 << i) - 1,
            decreases half_width - i,
        {
            proof {
                lemma_mask_step(i, right_mask);
            }
            right_mask = right_mask | (1u128 << i);
            i = i + 1;
        }
        let left_mask: u128 = right_mask << half_width;
        let denom: u32 = if bits < 4 {
            4
        } else {
            bits
        };
        proof {
            lemma_div_is_ordered_by_denominator(60, 4, denom as int);
        }
        let num_rounds: u32 = 8 + 60 / denom;
        let num_rounds: u32 = if num_rounds > 32 {
            32
        } else {
            num_rounds
        };
        let net = FeistelNetwork {
            half_width,
            right_mask,
            left_mask,
            key,
            rounds: num_rounds as u8,
        };
        proof {
            assert(net == FeistelNetwork::spec_new(max_value, key));
            if half_width == 64 {
                lemma_full_mask_64(right_mask, left_mask);
            } else {
                let w: u128 = (2 * half_width) as u128;
                let b = bit_len(max_value as int);
                if b < w as nat {
                    lemma_pow2_strictly_increases(b, w as nat);
                }
                lemma_u128_shr_is_div(max_value, w);
                lemma_basic_div(max_value as int, pow2(w as nat) as int);
                lemma_fits_full_mask(max_value, half_width, right_mask, left_mask);
            }
        }
        net
    }

    fn round_function(&self, right: u128, round: u8, key: [u8; 32], mask: u128) -> (f: u128)
        ensures
            f == round_fn(key@, mask, round, right),
    {
        let digest = round_digest(&key, right, round);
        (digest as u128) & mask
    }

    /// Apply the permutation: a bijection on the block domain.
    pub fn permute(&self, input: u128) -> (result: u128)
        requires
            self.wf(),
        ensures
            result == self.permute_spec(input),
            self.in_domain(result),
    {
        let mut left: u128 = (input & self.left_mask) >> self.half_width;
        let mut right: u128 = input & self.right_mask;
        let ghost l0: u128 = left;
        let ghost r0: u128 = right;

        let mut i: u8 = 0;
        while i < self.rounds
            invariant
                self.wf(),
                i <= self.rounds,
                fwd_from(self.key_bytes(), self.right_mask, self.spec_rounds(), left, right,
                    i as int) == fwd_from(self.key_bytes(), self.right_mask, self.spec_rounds(),
                    l0, r0, 0),
            decreases self.rounds - i,
        {
            let new_left = right;
            let f = self.round_function(right, i, self.key, self.right_mask);
            right = left ^ f;
            left = new_left;
            i = i + 1;
        }

        let result = (left << self.half_width) | right;
        proof {
            lemma_and_mask_idem(result, self.left_mask | self.right_mask);
        }
        result & (self.left_mask | self.right_mask)
    }

    /// Apply the inverse permutation: undoes `permute` on the block domain.
    pub fn invert(&self, input: u128) -> (result: u128)
        requires
            self.wf(),
        ensures
            result == self.invert_spec(input),
            self.in_domain(result),
    {
        let mut left: u128 = (input & self.left_mask) >> self.half_width;
        let mut right: u128 = input & self.right_mask;
        let ghost l0: u128 = left;
        let ghost r0: u128 = right;

        let mut i: u8 = self.rounds;
        while i > 0
            invariant
                self.wf(),
                i <= self.rounds,
                bwd_from(self.key_bytes(), self.right_mask, left, right, i as int - 1)
                    == bwd_from(self.key_bytes(), self.right_mask, l0, r0,
                    self.spec_rounds() - 1),
            decreases i,
        {
            i = i - 1;
            let new_right = left;
            let f = self.round_function(left, i, self.key, self.right_mask);
            left = right ^ f;
            right = new_right;
        }

        let result = (left << self.half_width) | right;
        proof {
            lemma_and_mask_idem(result, self.left_mask | self.right_mask);
        }
        result & (self.left_mask | self.right_mask)
    }
}

/// A keyed pseudo-random permutation of `[0, max)`, presented as a
/// restartable iterator and a pair of inverse index maps.
///
/// `forward` and `backward` never touch `values_returned`; only `next`
/// advances it. Cloning and resetting `values_returned` to zero yields an
/// independent iterator over the identical sequence.
#[derive(Debug, Clone)]
pub struct Permutor {
    /// The underlying Feistel network.
    pub feistel: FeistelNetwork,
    /// The capacity: values range over `[0, max)`.
    pub max: u128,
    /// The iterator cursor: the next index to emit.
    pub values_returned: u128,
}

impl Permutor {
    /// The network is well formed and covers `[0, max)`.
    pub open spec fn valid(self) -> bool {
        &&& self.feistel.wf()
        &&& 1 <= self.max
        &&& self.max <= self.feistel.full_mask()
    }

    /// `valid`, and the cursor has not run past the end.
    pub open spec fn wf(self) -> bool {
        &&& self.valid()
        &&& self.values_returned <= self.max
    }

    /// Build a permutor of `[0, max)` from a 64-bit key, whitened by a fixed
    /// constant and expanded to 256 bits big-endian with zero fill.
    pub fn new_with_u64_key(max: u128, key: u64) -> (p: Permutor)
        requires
            1 <= max,
        ensures
            p.wf(),
            p.max == max,
            p.values_returned == 0,
            p.feistel == FeistelNetwork::spec_new(max, p.feistel.key),
            p.feistel.key_bytes() == spec_key_expand(key ^ 0xDEADBEEF_FEE1DEADu64),
    {
        let key = key ^ 0xDEADBEEF_FEE1DEAD;
        let key = u64_to_32slice(key);
        Permutor { feistel: FeistelNetwork::new_with_slice_key(max, key), max, values_returned: 0 }
    }

    /// Build a permutor of `[0, max)` from a full 256-bit key.
    pub fn new_with_slice_key(max: u128, key: [u8; 32]) -> (p: Permutor)
        requires
            1 <= max,
        ensures
            p.wf(),
            p.max == max,
            p.values_returned == 0,
            p.feistel == FeistelNetwork::spec_new(max, key),
    {
        Permutor { feistel: FeistelNetwork::new_with_slice_key(max, key), max, values_returned: 0 }
    }

    /// The `plaintext`-th element of the permutation: walk the Feistel
    /// permutation from `plaintext` until the value falls below `max`.
    pub fn forward(&self, plaintext: u128) -> (result: u128)
        requires
            self.valid(),
            plaintext < self.max,
        ensures
            result == crate::walk::walk_fwd(self.feistel, self.max, plaintext),
            crate::walk::reaches_fwd(self.feistel, self.max, plaintext, result),
            result < self.max,
    {
        proof {
            crate::walk::lemma_in_domain_le(self.feistel, plaintext);
            crate::walk::lemma_cycle_fwd(self.feistel, plaintext);
        }
        let ghost c: nat = choose|c: nat|
            1 <= c <= crate::walk::domain_size(self.feistel) && crate::walk::orbit_fwd(
                self.feistel,
                plaintext,
                c,
            ) == plaintext;
        let mut result = self.feistel.permute(plaintext);
        proof {
            assert(crate::walk::orbit_fwd(self.feistel, plaintext, 0) == plaintext);
            assert(crate::walk::orbit_fwd(self.feistel, plaintext, 1) == self.feistel.permute_spec(
                plaintext,
            ));
        }
        let ghost mut steps: nat = 1;
        while result >= self.max
            invariant
                self.valid(),
                plaintext < self.max,
                1 <= c <= crate::walk::domain_size(self.feistel),
                crate::walk::orbit_fwd(self.feistel, plaintext, c) == plaintext,
                1 <= steps <= c,
                result == crate::walk::orbit_fwd(self.feistel, plaintext, steps),
                forall|m: nat|
                    1 <= m < steps ==> crate::walk::orbit_fwd(self.feistel, plaintext, m)
                        >= self.max,
            decreases c - steps,
        {
            proof {
                assert(steps < c);
            }
            result = self.feistel.permute(result);
            proof {
                steps = steps + 1;
            }
        }
        proof {
            assert(crate::walk::is_first_hit_fwd(self.feistel, self.max, plaintext, steps,
                result));
            assert(crate::walk::reaches_fwd(self.feistel, self.max, plaintext, result));
            let y = crate::walk::walk_fwd(self.feistel, self.max, plaintext);
            assert(crate::walk::reaches_fwd(self.feistel, self.max, plaintext, y));
            let j2 = choose|j: nat|
                crate::walk::is_first_hit_fwd(self.feistel, self.max, plaintext, j, y);
            crate::walk::lemma_first_hit_fwd_unique(self.feistel, self.max, plaintext, steps,
                result, j2, y);
        }
        result
    }

    /// The index whose `forward` value is `ciphertext`: walk the inverse
    /// permutation from `ciphertext` until the value falls below `max`.
    pub fn backward(&self, ciphertext: u128) -> (result: u128)
        requires
            self.valid(),
            ciphertext < self.max,
        ensures
            result == crate::walk::walk_bwd(self.feistel, self.max, ciphertext),
            crate::walk::reaches_bwd(self.feistel, self.max, ciphertext, result),
            result < self.max,
    {
        proof {
            crate::walk::lemma_in_domain_le(self.feistel, ciphertext);
            crate::walk::lemma_cycle_bwd(self.feistel, ciphertext);
        }
        let ghost c: nat = choose|c: nat|
            1 <= c <= crate::walk::domain_size(self.feistel) && crate::walk::orbit_bwd(
                self.feistel,
                ciphertext,
                c,
            ) == ciphertext;
        let mut result = self.feistel.invert(ciphertext);
        proof {
            assert(crate::walk::orbit_bwd(self.feistel, ciphertext, 0) == ciphertext);
            assert(crate::walk::orbit_bwd(self.feistel, ciphertext, 1) == self.feistel.invert_spec(
                ciphertext,
            ));
        }
        let ghost mut steps: nat = 1;
        while result >= self.max
            invariant
                self.valid(),
                ciphertext < self.max,
                1 <= c <= crate::walk::domain_size(self.feistel),
                crate::walk::orbit_bwd(self.feistel, ciphertext, c) == ciphertext,
                1 <= steps <= c,
                result == crate::walk::orbit_bwd(self.feistel, ciphertext, steps),
                forall|m: nat|
                    1 <= m < steps ==> crate::walk::orbit_bwd(self.feistel, ciphertext, m)
                        >= self.max,
            decreases c - steps,
        {
            proof {
                assert(steps < c);
            }
            result = self.feistel.invert(result);
            proof {
                steps = steps + 1;
            }
        }
        proof {
            assert(crate::walk::is_first_hit_bwd(self.feistel, self.max, ciphertext, steps,
                result));
            assert(crate::walk::reaches_bwd(self.feistel, self.max, ciphertext, result));
            let y = crate::walk::walk_bwd(self.feistel, self.max, ciphertext);
            assert(crate::walk::reaches_bwd(self.feistel, self.max, ciphertext, y));
            let j2 = choose|j: nat|
                crate::walk::is_first_hit_bwd(self.feistel, self.max, ciphertext, j, y);
            crate::walk::lemma_first_hit_bwd_unique(self.feistel, self.max, ciphertext, steps,
                result, j2, y);
        }
        result
    }

    /// Advance the iterator: the `i`-th emitted value is `forward(i)`, and
    /// after `max` values the iterator is exhausted and returns `None`.
    pub fn next(&mut self) -> (r: Option<u128>)
        requires
            old(self).wf(),
        ensures
            final(self).wf(),
            final(self).feistel == old(self).feistel,
            final(self).max == old(self).max,
            old(self).values_returned < old(self).max ==> final(self).values_returned == old(
                self,
            ).values_returned + 1,
            old(self).values_returned < old(self).max ==> r == Some(
                crate::walk::walk_fwd(
                    old(self).feistel,
                    old(self).max,
                    old(self).values_returned,
                ),
            ),
            old(self).values_returned >= old(self).max ==> r == None::<u128>
                && final(self).values_returned == old(self).values_returned,
    {
        if self.values_returned < self.max {
            let v = self.values_returned;
            let next = self.forward(v);
            self.values_returned = self.values_returned + 1;
            return Some(next);
        }
        None
    }
}

/// The Feistel permutation and its inverse are mutually inverse bijections on
/// the block domain: for every in-domain `x`, inverting the permutation of
/// `x` gives back `x`, and permuting the inversion of `x` gives back `x`.
pub proof fn lemma_feistel_self_inverse(net: FeistelNetwork, x: u128)
    requires
        net.wf(),
        net.in_domain(x),
    ensures
        net.in_domain(net.permute_spec(x)),
        net.in_domain(net.invert_spec(x)),
        net.invert_spec(net.permute_spec(x)) == x,
        net.permute_spec(net.invert_spec(x)) == x,
{
    let h = net.half_width;
    let rm = net.right_mask;
    let lm = net.left_mask;
    let key = net.key_bytes();
    let n = net.spec_rounds();
    let l0 = (x & lm) >> h;
    let r0 = x & rm;

    lemma_mask_split(x, h, rm, lm);

    // Forward then backward.
    let p = fwd_from(key, rm, n, l0, r0, 0);
    lemma_fwd_from_masked(key, rm, n, l0, r0, 0);
    lemma_mask_join(p.0, p.1, h, rm, lm);
    let y = net.permute_spec(x);
    assert(y == (p.0 << h) | p.1);
    lemma_bwd_undoes_fwd(key, rm, n, l0, r0, 0);
    assert(bwd_from(key, rm, p.0, p.1, n - 1) == (l0, r0));
    lemma_mask_join(l0, r0, h, rm, lm);
    assert(net.invert_spec(y) == (l0 << h) | r0);
    assert(net.invert_spec(net.permute_spec(x)) == x);

    // Backward then forward.
    let q = bwd_from(key, rm, l0, r0, n - 1);
    lemma_bwd_from_masked(key, rm, l0, r0, n - 1);
    lemma_mask_join(q.0, q.1, h, rm, lm);
    let z = net.invert_spec(x);
    assert(z == (q.0 << h) | q.1);
    lemma_fwd_undoes_bwd(key, rm, n, l0, r0, n - 1);
    assert(fwd_from(key, rm, n, q.0, q.1, 0) == fwd_from(key, rm, n, l0, r0, n as int));
    assert(fwd_from(key, rm, n, l0, r0, n as int) == (l0, r0));
    assert(net.permute_spec(net.invert_spec(x)) == x);
}

} // verus!
