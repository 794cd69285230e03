//! Mathematical model of bit streams: a stream is a `Seq<bool>`, most
//! significant bit of each field first, packed into bytes high bit first.
use vstd::prelude::*;
use vstd::arithmetic::power2::{lemma_pow2_unfold, pow2};
use vstd::arithmetic::div_mod::{lemma_div_denominator, lemma_fundamental_div_mod};

verus! {

/// The k-th binary digit of `v`; k = 0 is the least significant.
pub open spec fn nth_bit(v: nat, k: nat) -> bool {
    v / pow2(k) % 2 == 1
}

/// `v` written as exactly `n` bits, most significant first.
pub open spec fn bits_of(v: nat, n: nat) -> Seq<bool> {
    Seq::new(n, |i: int| nth_bit(v, (n - 1 - i) as nat))
}

/// Numeric value of a bit string read most significant bit first.
pub open spec fn val_of(s: Seq<bool>) -> nat
    decreases s.len(),
{
    if s.len() == 0 {
        0
    } else {
        val_of(s.drop_last()) * 2 + (if s.last() {
            1nat
        } else {
            0nat
        })
    }
}

/// Bit `o` of a byte counted from the most significant end, o < 8.
pub open spec fn byte_bit(b: u8, o: nat) -> bool {
    ((b >> ((7 - o) as u8)) & 1) == 1
}

/// Bit `i` of a byte-packed stream, high bit of each byte first.
pub open spec fn stream_bit(bytes: Seq<u8>, i: int) -> bool {
    byte_bit(bytes[i / 8], (i % 8) as nat)
}

/// The first `len` bits of a byte-packed stream.
pub open spec fn stream_bits(bytes: Seq<u8>, len: nat) -> Seq<bool> {
    Seq::new(len, |i: int| stream_bit(bytes, i))
}

/// A freshly started byte carries its one bit at the top position and
/// zeros below.
pub proof fn lemma_first_bit_of_byte(bv: u8, k: u8)
    by (bit_vector)
    requires
        bv <= 1,
        k < 8,
    ensures
        ((bv << 7u8) >> ((7 - k) as u8)) & 1 == (if k == 0 {
            bv
        } else {
            0
        }),
        (bv << 7u8) & (0xffu8 >> 1u8) == 0,
{
}

/// Writing bit `o` into a byte whose bits at `o` and below are still zero
/// sets exactly that bit and leaves every other position alone.
pub proof fn lemma_set_bit(x: u8, o: u8, bv: u8, k: u8)
    by (bit_vector)
    requires
        1 <= o < 8,
        k < 8,
        bv <= 1,
        x & (0xffu8 >> o) == 0,
    ensures
        ((x | (bv << ((7 - o) as u8))) >> ((7 - k) as u8)) & 1 == (if k == o {
            bv
        } else if k < o {
            (x >> ((7 - k) as u8)) & 1
        } else {
            0
        }),
        o < 7 ==> (x | (bv << ((7 - o) as u8))) & (0xffu8 >> ((o + 1) as u8)) == 0,
{
}

/// Writing a value in `n` bits loses nothing: reading the bits back
/// most significant first gives the value again.
pub proof fn lemma_val_of_bits_of(v: nat, n: nat)
    requires
        v < pow2(n),
    ensures
        val_of(bits_of(v, n)) == v,
    decreases n,
{
    if n == 0 {
        assert(pow2(0) == 1) by {
            vstd::arithmetic::power2::lemma2_to64();
        }
        assert(bits_of(v, 0) =~= Seq::empty());
    } else {
        lemma_pow2_unfold(n);
        lemma_fundamental_div_mod(v as int, 2);
        assert(v / 2 < pow2((n - 1) as nat));
        assert(bits_of(v, n).drop_last() =~= bits_of(v / 2, (n - 1) as nat)) by {
            assert forall|i: int| 0 <= i < n - 1 implies bits_of(v, n)[i] == bits_of(
                v / 2,
                (n - 1) as nat,
            )[i] by {
                let k = (n - 2 - i) as nat;
                vstd::arithmetic::power2::lemma_pow2_pos(k);
                lemma_pow2_unfold((k + 1) as nat);
                lemma_div_denominator(v as int, 2, pow2(k) as int);
                assert(v as int / (pow2((k + 1) as nat) as int) == (v as int / 2) / (
                pow2(k) as int));
                assert(nth_bit(v, (k + 1) as nat) == nth_bit(v / 2, k));
            }
        }
        lemma_val_of_bits_of(v / 2, (n - 1) as nat);
        assert(pow2(0) == 1) by {
            vstd::arithmetic::power2::lemma2_to64();
        }
        assert(bits_of(v, n).last() == nth_bit(v, 0));
        assert(nth_bit(v, 0) == (v % 2 == 1));
        assert(val_of(bits_of(v, n)) == (v / 2) * 2 + v % 2);
    }
}

} // verus!
