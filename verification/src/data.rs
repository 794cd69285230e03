//! The growing bit stream that segment encoding appends to, packed into
//! bytes high bit first, together with the segment type fed to the encoder.
use vstd::prelude::*;
use vstd::arithmetic::power2::pow2;
use vstd::arithmetic::div_mod::lemma_fundamental_div_mod;
use crate::bits::{bits_of, byte_bit, lemma_first_bit_of_byte, lemma_set_bit, nth_bit, stream_bit,
    stream_bits};
use crate::encode::{encode_alphanumeric, encode_byte, encode_numeric, segment_bits,
    segments_bits, segments_result};
use crate::qrcode::{Mode, QrError, Version};

verus! {

/// One run of text with the mode it is to be compacted under.
pub struct Segment<'a> {
    pub mode: Mode,
    pub text: &'a str,
}

/// An ordered bit sequence under construction, packed into bytes with the
/// high bit of each byte first; `bit_len` counts the bits written so far.
pub struct Data {
    pub value: Vec<u8>,
    pub bit_len: usize,
    pub version: Version,
}

impl Data {
    /// The bytes cover exactly the written bits and the tail of a partial
    /// last byte is still zero.
    pub open spec fn wf(self) -> bool {
        &&& self.version.valid()
        &&& self.value@.len() == (self.bit_len + 7) / 8
        &&& (self.bit_len % 8 != 0 ==> (self.value@.last() & (0xffu8 >> ((self.bit_len % 8)
            as u8))) == 0)
    }

    /// The stream written so far, as a sequence of bits.
    pub open spec fn bits(self) -> Seq<bool> {
        stream_bits(self.value@, self.bit_len as nat)
    }


    /// Encode every segment in order into a fresh stream for `version`:
    /// each segment appends its mode indicator, character count and packed
    /// payload. The first invalid character or overfull payload aborts
    /// with its error and no stream is returned.
    pub fn new<'a>(segments: Vec<Segment<'a>>, version: Version) -> (r: Result<Data, QrError>)
        requires
            version.valid(),
        ensures
            match r {
                Ok(d) => {
                    &&& segments_result(segments@, version, 0) == Ok::<(), QrError>(())
                    &&& d.wf()
                    &&& d.version == version
                    &&& d.bits() == segments_bits(segments@, version)
                },
                Err(e) => segments_result(segments@, version, 0) == Err::<(), QrError>(e),
            },
    {
        let ghost segs = segments@;
        let mut data = Data { value: Vec::new(), bit_len: 0, version };
        proof {
            assert(data.bits() =~= Seq::<bool>::empty());
            assert(segs.skip(0) =~= segs);
        }
        let n = segments.len();
        let ghost mut acc: Seq<bool> = Seq::empty();
        for i in 0..n
            invariant
                data.wf(),
                data.version == version,
                version.valid(),
                n == segs.len(),
                segments@ == segs,
                acc.len() == data.bit_len,
                data.bits() == acc,
                segments_bits(segs, version) == acc + segments_bits(segs.skip(i as int), version),
                segments_result(segs, version, 0) == segments_result(
                    segs.skip(i as int),
                    version,
                    data.bit_len as nat,
                ),
        {
            let seg = &segments[i];
            let ghost tail = segs.skip(i as int);
            proof {
                assert(tail[0] == segs[i as int]);
                assert(tail.skip(1) =~= segs.skip(i as int + 1));
            }
            let res = match seg.mode {
                Mode::Numeric => encode_numeric(&mut data, seg.text),
                Mode::Alphanumeric => encode_alphanumeric(&mut data, seg.text),
                Mode::Byte => encode_byte(&mut data, seg.text),
            };
            match res {
                Ok(()) => {
                    proof {
                        acc = acc + segment_bits(segs[i as int], version);
                        assert(data.bits() =~= acc);
                        assert(segments_bits(segs, version) =~= acc + segments_bits(
                            segs.skip(i as int + 1),
                            version,
                        ));
                    }
                },
                Err(e) => {
                    return Err(e);
                },
            }
        }
        proof {
            assert(segs.skip(n as int).len() == 0);
            assert(segments_bits(segs, version) =~= acc);
        }
        Ok(data)
    }

    /// Append one bit at the end of the stream.
    pub fn push_bit(&mut self, b: bool)
        requires
            old(self).wf(),
            old(self).bit_len < usize::MAX,
        ensures
            final(self).wf(),
            final(self).version == old(self).version,
            final(self).bit_len == old(self).bit_len + 1,
            final(self).bits() == old(self).bits().push(b),
    {
        let ghost obl = old(self).bit_len as int;
        let o: usize = self.bit_len % 8;
        let bv: u8 = if b {
            1
        } else {
            0
        };
        let ghost nbv: u8;
        if o == 0 {
            let nb: u8 = bv << 7u8;
            self.value.push(nb);
            proof {
                nbv = nb;
                assert forall|k: nat| k < 8 implies #[trigger] byte_bit(nb, k) == (k == 0 && b) by {
                    lemma_first_bit_of_byte(bv, k as u8);
                }
                lemma_first_bit_of_byte(bv, 0);
            }
        } else {
            let last_i: usize = self.value.len() - 1;
            let nb: u8 = self.value[last_i] | (bv << ((7 - o) as u8));
            self.value.set(last_i, nb);
            proof {
                nbv = nb;
                let x = old(self).value@.last();
                assert forall|k: nat| k < 8 implies #[trigger] byte_bit(nb, k) == (if k == o {
                    b
                } else if k < o {
                    byte_bit(x, k)
                } else {
                    false
                }) by {
                    lemma_set_bit(x, o as u8, bv, k as u8);
                }
                if o < 7 {
                    lemma_set_bit(x, o as u8, bv, 0);
                }
            }
        }
        self.bit_len = self.bit_len + 1;
        proof {
            lemma_fundamental_div_mod(obl, 8);
            let q = obl / 8;
            // Byte count still covers the written bits.
            if o == 0 {
                assert(self.value@.len() == (self.bit_len + 7) / 8);
            } else {
                assert(self.value@.len() == (self.bit_len + 7) / 8);
            }
            // The new last byte index.
            let li = self.value@.len() - 1;
            assert(self.value@[li] == nbv);
            // Every already-written bit is untouched.
            assert forall|i: int| 0 <= i < obl implies stream_bit(self.value@, i) == stream_bit(
                old(self).value@,
                i,
            ) by {
                lemma_fundamental_div_mod(i, 8);
                assert(0 <= i / 8 < old(self).value@.len());
                if o != 0 && i / 8 == li {
                    assert(i % 8 < o);
                    assert(byte_bit(nbv, (i % 8) as nat) == byte_bit(
                        old(self).value@[li],
                        (i % 8) as nat,
                    ));
                }
            }
            // The appended bit lands at stream position obl.
            assert(obl / 8 == li && obl % 8 == o);
            assert(stream_bit(self.value@, obl) == b);
            assert(self.bits() =~= old(self).bits().push(b));
        }
    }

    /// Append the low `n` bits of `value`, most significant first.
    pub fn push_bits(&mut self, value: usize, n: usize)
        requires
            old(self).wf(),
            n <= 32,
            value < pow2(n as nat),
            old(self).bit_len + n <= usize::MAX,
        ensures
            final(self).wf(),
            final(self).version == old(self).version,
            final(self).bit_len == old(self).bit_len + n,
            final(self).bits() == old(self).bits() + bits_of(value as nat, n as nat),
    {
        let ghost pushed = bits_of(value as nat, n as nat);
        for k in 0..n
            invariant
                self.wf(),
                self.version == old(self).version,
                n <= 32,
                value < pow2(n as nat),
                old(self).bit_len + n <= usize::MAX,
                pushed == bits_of(value as nat, n as nat),
                self.bit_len == old(self).bit_len + k,
                self.bits() == old(self).bits() + pushed.take(k as int),
        {
            let shift: usize = n - 1 - k;
            let bit: usize = (value >> shift) & 1;
            proof {
                vstd::bits::lemma_usize_shr_is_div(value, shift as usize);
                assert((value >> shift) & 1 == (value >> shift) % 2) by (bit_vector);
                assert((bit == 1) == nth_bit(value as nat, shift as nat));
                assert(pushed[k as int] == nth_bit(value as nat, shift as nat));
            }
            self.push_bit(bit == 1);
            proof {
                assert(pushed.take(k as int + 1) =~= pushed.take(k as int).push(
                    pushed[k as int],
                ));
                assert(self.bits() =~= old(self).bits() + pushed.take(k as int + 1));
            }
        }
        proof {
            assert(pushed.take(n as int) =~= pushed);
        }
    }
}

} // verus!
