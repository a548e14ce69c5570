//! Packing of occurrence lists into fixed-width integers.
//!
//! A verse's list of occurrence offsets (at most 22 entries, each at most
//! 2046) is packed into one 256-bit unsigned integer, 11 bits per entry,
//! with a +1 bias so that a real zero offset is distinct from the empty
//! terminator state.  The parallel list of occurrence lengths (each below
//! 32) is packed into one 128-bit integer, 5 bits per entry, unbiased.
use vstd::prelude::*;
use vstd::arithmetic::div_mod::*;
use vstd::arithmetic::power2::*;

verus! {

/// 2^117, the highest 11 bits of a 128-bit limb start here.
pub const LOW_SPLIT: u128 = 0x20_0000_0000_0000_0000_0000_0000_0000;

/// 2^113, a safe ceiling for the high limb before a base-2048 shift.
pub const HI_CAP: u128 = 0x2_0000_0000_0000_0000_0000_0000_0000;

/// A 256-bit unsigned integer held as two 128-bit limbs.
///
/// This is the carrier for a packed offset list: 22 entries of 11 bits
/// need 242 bits, which no built-in integer type offers.
#[derive(Clone, Copy, Debug, PartialEq, Eq, Structural)]
pub struct Packed256 {
    pub hi: u128,
    pub lo: u128,
}

impl Packed256 {
    /// The mathematical value of the two limbs.
    pub open spec fn value(self) -> nat {
        (self.hi * 0x1_0000_0000_0000_0000_0000_0000_0000_0000 + self.lo) as nat
    }

    /// The zero value.
    pub fn zero() -> (r: Packed256)
        ensures
            r.value() == 0,
    {
        Packed256 { hi: 0, lo: 0 }
    }

    /// Whether the value is zero.
    pub fn is_zero(&self) -> (r: bool)
        ensures
            r <==> self.value() == 0,
    {
        self.hi == 0 && self.lo == 0
    }

    /// Shifts the value one base-2048 digit up and adds `d`.
    pub fn mul2048_add(self, d: u16) -> (r: Packed256)
        requires
            self.value() < pow2(241),
            d < 2048,
        ensures
            r.value() == self.value() * 2048 + d,
    {
        proof {
            lemma_packing_pow2_facts();
            assert(self.hi < HI_CAP) by {
                assert(self.value() < pow2(113) * pow2(128));
                if self.hi >= HI_CAP {
                    assert(self.hi * pow2(128) >= pow2(113) * pow2(128))
                        by (nonlinear_arith)
                        requires
                            self.hi >= pow2(113),
                    ;
                }
            }
            lemma_fundamental_div_mod(self.lo as int, LOW_SPLIT as int);
        }
        let q: u128 = self.lo / LOW_SPLIT;
        let r: u128 = self.lo % LOW_SPLIT;
        let new_hi: u128 = self.hi * 2048 + q;
        let new_lo: u128 = r * 2048 + d as u128;
        let result = Packed256 { hi: new_hi, lo: new_lo };
        proof {
            let p128 = 0x1_0000_0000_0000_0000_0000_0000_0000_0000 as int;
            assert(result.value() == self.value() * 2048 + d) by (nonlinear_arith)
                requires
                    self.lo == q * (LOW_SPLIT as int) + r,
                    new_hi == self.hi * 2048 + q,
                    new_lo == r * 2048 + d,
                    result.value() == new_hi * p128 + new_lo,
                    self.value() == self.hi * p128 + self.lo,
                    (LOW_SPLIT as int) * 2048 == p128,
            ;
        }
        result
    }

    /// The lowest base-2048 digit of the value.
    pub fn mod2048(&self) -> (r: u16)
        ensures
            r == self.value() % 2048,
    {
        proof {
            lemma_split_2048(self.hi, self.lo);
        }
        (self.lo % 2048) as u16
    }

    /// Shifts the value one base-2048 digit down.
    pub fn div2048(self) -> (r: Packed256)
        ensures
            r.value() == self.value() / 2048,
    {
        proof {
            lemma_split_2048(self.hi, self.lo);
            lemma_fundamental_div_mod(self.hi as int, 2048);
            lemma_fundamental_div_mod(self.lo as int, 2048);
        }
        let b: u128 = self.hi % 2048;
        let new_hi: u128 = self.hi / 2048;
        let new_lo: u128 = self.lo / 2048 + b * LOW_SPLIT;
        Packed256 { hi: new_hi, lo: new_lo }
    }
}

/// The quotient and remainder of a two-limb value by 2048, written as one
/// division identity so that both follow from the converse of the
/// fundamental division lemma.
proof fn lemma_split_2048(hi: u128, lo: u128)
    ensures
        (hi * 0x1_0000_0000_0000_0000_0000_0000_0000_0000 + lo) % 2048 == lo % 2048,
        (hi * 0x1_0000_0000_0000_0000_0000_0000_0000_0000 + lo) / 2048 == hi / 2048
            * 0x1_0000_0000_0000_0000_0000_0000_0000_0000 + (lo / 2048 + (hi % 2048) * (
        LOW_SPLIT as int)),
        lo / 2048 + (hi % 2048) * (LOW_SPLIT as int)
            < 0x1_0000_0000_0000_0000_0000_0000_0000_0000,
{
    let p128 = 0x1_0000_0000_0000_0000_0000_0000_0000_0000 as int;
    let a = hi as int / 2048;
    let b = hi as int % 2048;
    let q = lo as int / 2048;
    let r = lo as int % 2048;
    lemma_fundamental_div_mod(hi as int, 2048);
    lemma_fundamental_div_mod(lo as int, 2048);
    let total_q = a * p128 + b * (LOW_SPLIT as int) + q;
    assert(hi * p128 + lo == total_q * 2048 + r) by (nonlinear_arith)
        requires
            hi == a * 2048 + b,
            lo == q * 2048 + r,
            total_q == a * p128 + b * (LOW_SPLIT as int) + q,
            (LOW_SPLIT as int) * 2048 == p128,
    ;
    assert(b * (LOW_SPLIT as int) <= 2047 * (LOW_SPLIT as int)) by (nonlinear_arith)
        requires
            0 <= b < 2048,
    ;
    lemma_fundamental_div_mod_converse(hi * p128 + lo, 2048, total_q, r);
}

/// Concrete values for the powers of two that the packing proofs use.
proof fn lemma_packing_pow2_facts()
    ensures
        pow2(128) == 0x1_0000_0000_0000_0000_0000_0000_0000_0000,
        pow2(113) == HI_CAP,
        pow2(117) == LOW_SPLIT,
        pow2(241) == pow2(113) * pow2(128),
        pow2(11) == 2048,
        pow2(5) == 32,
{
    lemma2_to64();
    lemma2_to64_rest();
    lemma_pow2_adds(64, 64);
    lemma_pow2_adds(49, 64);
    lemma_pow2_adds(53, 64);
    lemma_pow2_adds(113, 128);
}

/// The value that a list of offsets packs to: base-2048 digits, first
/// offset highest, each digit the offset plus one.
pub open spec fn pack_indices_value(s: Seq<u16>) -> nat
    decreases s.len(),
{
    if s.len() == 0 {
        0
    } else {
        (pack_indices_value(s.drop_last()) * 2048 + (s.last() + 1)) as nat
    }
}

/// The offset list that a packed value unpacks to.
pub open spec fn unpack_indices_value(v: nat) -> Seq<u16>
    decreases v,
{
    if v == 0 {
        Seq::empty()
    } else {
        unpack_indices_value(v / 2048).push((v % 2048 - 1) as u16)
    }
}

/// A value is a well-formed offset packing when every base-2048 digit
/// above the terminator is nonzero.
pub open spec fn well_formed_packed(v: nat) -> bool
    decreases v,
{
    v == 0 || (v % 2048 != 0 && well_formed_packed(v / 2048))
}

/// The value that a list of lengths packs to: base-32 digits, first
/// length highest, unbiased.
pub open spec fn pack_lengths_value(s: Seq<u8>) -> nat
    decreases s.len(),
{
    if s.len() == 0 {
        0
    } else {
        (pack_lengths_value(s.drop_last()) * 32 + s.last()) as nat
    }
}

/// The length list that a packed value unpacks to.
pub open spec fn unpack_lengths_value(v: nat) -> Seq<u8>
    decreases v,
{
    if v == 0 {
        Seq::empty()
    } else {
        unpack_lengths_value(v / 32).push((v % 32) as u8)
    }
}

/// An offset packing stays under 2^(11 n) for n offsets.
pub proof fn lemma_pack_indices_value_bound(s: Seq<u16>)
    requires
        forall|i: int| 0 <= i < s.len() ==> s[i] <= 2046,
    ensures
        pack_indices_value(s) < pow2(11 * s.len()),
    decreases s.len(),
{
    lemma2_to64();
    if s.len() > 0 {
        lemma_pack_indices_value_bound(s.drop_last());
        lemma_pow2_adds(11 * (s.len() - 1) as nat, 11);
        let p = pow2(11 * (s.len() - 1) as nat) as int;
        assert(pack_indices_value(s.drop_last()) * 2048 <= (p - 1) * 2048) by (nonlinear_arith)
            requires
                pack_indices_value(s.drop_last()) <= p - 1,
        ;
    }
}

/// A length packing stays under 2^(5 n) for n lengths.
pub proof fn lemma_pack_lengths_value_bound(s: Seq<u8>)
    requires
        forall|i: int| 0 <= i < s.len() ==> s[i] < 32,
    ensures
        pack_lengths_value(s) < pow2(5 * s.len()),
    decreases s.len(),
{
    lemma2_to64();
    if s.len() > 0 {
        lemma_pack_lengths_value_bound(s.drop_last());
        lemma_pow2_adds(5 * (s.len() - 1) as nat, 5);
        let p = pow2(5 * (s.len() - 1) as nat) as int;
        assert(pack_lengths_value(s.drop_last()) * 32 <= (p - 1) * 32) by (nonlinear_arith)
            requires
                pack_lengths_value(s.drop_last()) <= p - 1,
        ;
    }
}

/// Packs a list of occurrence offsets into one 256-bit value.
pub fn pack_indices(indices: &Vec<u16>) -> (r: Packed256)
    requires
        indices@.len() <= 22,
        forall|i: int| 0 <= i < indices@.len() ==> indices@[i] <= 2046,
    ensures
        r.value() == pack_indices_value(indices@),
{
    let mut result = Packed256::zero();
    let mut k: usize = 0;
    proof {
        assert(indices@.take(0int) =~= Seq::<u16>::empty());
    }
    while k < indices.len()
        invariant
            k <= indices@.len(),
            result.value() == pack_indices_value(indices@.take(k as int)),
        decreases indices@.len() - k,
    {
        proof {
            lemma_pack_indices_value_bound(indices@.take(k as int));
            lemma_packing_pow2_facts();
            if 11 * k < 241 {
                lemma_pow2_strictly_increases(11 * k as nat, 241);
            }
            assert(indices@.take(k + 1int).drop_last() =~= indices@.take(k as int));
        }
        result = result.mul2048_add(indices[k] + 1);
        k = k + 1;
    }
    proof {
        assert(indices@.take(indices@.len() as int) =~= indices@);
    }
    result
}

/// Unpacks a 256-bit value back into its list of occurrence offsets.
pub fn unpack_indices(packed: Packed256) -> (r: Vec<u16>)
    requires
        well_formed_packed(packed.value()),
    ensures
        r@ == unpack_indices_value(packed.value()),
{
    let mut tmp = packed;
    let mut out: Vec<u16> = Vec::new();
    while !(tmp.hi == 0 && tmp.lo == 0)
        invariant
            well_formed_packed(tmp.value()),
            unpack_indices_value(packed.value()) == unpack_indices_value(tmp.value()) + out@,
        decreases tmp.value(),
    {
        let digit = tmp.mod2048();
        proof {
            lemma_mod_division_less_than_divisor(tmp.value() as int, 2048);
            lemma_div_decreases(tmp.value() as int, 2048);
        }
        let ghost old_val = tmp.value();
        let ghost old_out = out@;
        tmp = tmp.div2048();
        out.insert(0, digit - 1);
        proof {
            assert(unpack_indices_value(old_val) == unpack_indices_value(tmp.value()).push(
                (digit - 1) as u16,
            ));
            assert(unpack_indices_value(tmp.value()).push((digit - 1) as u16) + old_out
                =~= unpack_indices_value(tmp.value()) + out@);
        }
    }
    proof {
        assert(unpack_indices_value(0) + out@ =~= out@);
    }
    out
}

/// Packs a list of occurrence lengths into one 128-bit value.
pub fn pack_lengths(lengths: &Vec<u8>) -> (r: u128)
    requires
        lengths@.len() <= 22,
        forall|i: int| 0 <= i < lengths@.len() ==> lengths@[i] < 32,
    ensures
        r as nat == pack_lengths_value(lengths@),
{
    let mut result: u128 = 0;
    let mut k: usize = 0;
    proof {
        assert(lengths@.take(0int) =~= Seq::<u8>::empty());
    }
    while k < lengths.len()
        invariant
            k <= lengths@.len(),
            result as nat == pack_lengths_value(lengths@.take(k as int)),
        decreases lengths@.len() - k,
    {
        proof {
            lemma_pack_lengths_value_bound(lengths@.take(k as int));
            lemma_packing_pow2_facts();
            lemma_pow2_adds(5 * k as nat, 5);
            if 5 * k + 5 < 128 {
                lemma_pow2_strictly_increases((5 * k + 5) as nat, 128);
            }
            let p = pow2(5 * k as nat) as int;
            assert(result * 32 <= (p - 1) * 32) by (nonlinear_arith)
                requires
                    result <= p - 1,
            ;
            assert(lengths@.take(k + 1int).drop_last() =~= lengths@.take(k as int));
        }
        result = result * 32 + lengths[k] as u128;
        k = k + 1;
    }
    proof {
        assert(lengths@.take(lengths@.len() as int) =~= lengths@);
    }
    result
}

/// Unpacks a 128-bit value back into its list of occurrence lengths.
pub fn unpack_lengths(packed: u128) -> (r: Vec<u8>)
    ensures
        r@ == unpack_lengths_value(packed as nat),
{
    let mut tmp = packed;
    let mut out: Vec<u8> = Vec::new();
    while tmp > 0
        invariant
            unpack_lengths_value(packed as nat) == unpack_lengths_value(tmp as nat) + out@,
        decreases tmp,
    {
        proof {
            lemma_mod_division_less_than_divisor(tmp as int, 32);
            lemma_fundamental_div_mod(tmp as int, 32);
        }
        let digit: u8 = (tmp % 32) as u8;
        let ghost old_val = tmp as nat;
        let ghost old_out = out@;
        tmp = tmp / 32;
        out.insert(0, digit);
        proof {
            assert(unpack_lengths_value(old_val) == unpack_lengths_value(tmp as nat).push(digit));
            assert(unpack_lengths_value(tmp as nat).push(digit) + old_out
                =~= unpack_lengths_value(tmp as nat) + out@);
        }
    }
    proof {
        assert(unpack_lengths_value(0) + out@ =~= out@);
    }
    out
}

/// Packs a list of occurrence offsets and returns the four 64-bit limbs
/// of the 256-bit value, lowest limb first.
pub fn pack_indices_arr(indices: &Vec<u16>) -> (r: [u64; 4])
    requires
        indices@.len() <= 22,
        forall|i: int| 0 <= i < indices@.len() ==> indices@[i] <= 2046,
    ensures
        r@[0] + r@[1] * 0x1_0000_0000_0000_0000 + r@[2] * 0x1_0000_0000_0000_0000_0000_0000_0000_0000
            + r@[3] * 0x1_0000_0000_0000_0000_0000_0000_0000_0000_0000_0000_0000_0000
            == pack_indices_value(indices@),
{
    let p = pack_indices(indices);
    let lo0: u64 = (p.lo % 0x1_0000_0000_0000_0000) as u64;
    let lo1: u64 = (p.lo / 0x1_0000_0000_0000_0000) as u64;
    let hi0: u64 = (p.hi % 0x1_0000_0000_0000_0000) as u64;
    let hi1: u64 = (p.hi / 0x1_0000_0000_0000_0000) as u64;
    proof {
        lemma_fundamental_div_mod(p.lo as int, 0x1_0000_0000_0000_0000);
        lemma_fundamental_div_mod(p.hi as int, 0x1_0000_0000_0000_0000);
        let p64 = 0x1_0000_0000_0000_0000 as int;
        let p128 = 0x1_0000_0000_0000_0000_0000_0000_0000_0000 as int;
        let p192 = 0x1_0000_0000_0000_0000_0000_0000_0000_0000_0000_0000_0000_0000 as int;
        assert(lo0 + lo1 * p64 + hi0 * p128 + hi1 * p192 == p.hi * p128 + p.lo)
            by (nonlinear_arith)
            requires
                p.lo == lo1 * p64 + lo0,
                p.hi == hi1 * p64 + hi0,
                p64 * p128 == p192,
        ;
    }
    [lo0, lo1, hi0, hi1]
}

/// Round trip for offsets: unpacking a packed offset list restores it,
/// for any number of offsets, each at most 2046.
pub proof fn lemma_indices_round_trip(s: Seq<u16>)
    requires
        forall|i: int| 0 <= i < s.len() ==> s[i] <= 2046,
    ensures
        unpack_indices_value(pack_indices_value(s)) == s,
        well_formed_packed(pack_indices_value(s)),
    decreases s.len(),
{
    if s.len() > 0 {
        lemma_indices_round_trip(s.drop_last());
        let p = pack_indices_value(s.drop_last());
        let v = pack_indices_value(s);
        let d = (s.last() + 1) as int;
        lemma_fundamental_div_mod_converse(v as int, 2048, p as int, d);
        assert(unpack_indices_value(v) =~= s);
    }
}

/// Round trip for lengths: unpacking a packed length list restores it,
/// for lengths below 32 whose first entry is nonzero.  A leading zero
/// length packs to nothing, which is why a zero-length occurrence is
/// rejected before packing.
pub proof fn lemma_lengths_round_trip(s: Seq<u8>)
    requires
        forall|i: int| 0 <= i < s.len() ==> s[i] < 32,
        s.len() > 0 ==> s[0] != 0,
    ensures
        unpack_lengths_value(pack_lengths_value(s)) == s,
        pack_lengths_value(s) > 0 || s.len() == 0,
    decreases s.len(),
{
    if s.len() > 0 {
        if s.len() > 1 {
            assert(s.drop_last()[0] == s[0]);
        }
        lemma_lengths_round_trip(s.drop_last());
        let p = pack_lengths_value(s.drop_last());
        let v = pack_lengths_value(s);
        lemma_fundamental_div_mod_converse(v as int, 32, p as int, s.last() as int);
        if s.len() > 1 {
            assert(v > 0) by (nonlinear_arith)
                requires
                    v == p * 32 + s.last(),
                    p > 0,
            ;
        }
        assert(unpack_lengths_value(v) =~= s);
    }
}

} // verus!
