//! Segment encoding: mode indicator, character-count indicator and packed
//! payload per mode, plus the two cyclic-code metadata tables (format and
//! version information).
use vstd::prelude::*;
use vstd::string::StringSliceAdditionalSpecFns;
use vstd::arithmetic::power2::{lemma2_to64, pow2};
use vstd::arithmetic::div_mod::{lemma_fundamental_div_mod, lemma_fundamental_div_mod_converse};
use crate::bits::{bits_of, lemma_val_of_bits_of, val_of};
use crate::data::Data;
use crate::qrcode::{Mode, QrError, Version};

verus! {

/// Width in bits of the character-count indicator for (version, mode).
pub open spec fn spec_cci(version: Version, mode: Mode) -> nat {
    match mode {
        Mode::Byte => if version.0 < 10 {
            8
        } else {
            16
        },
        Mode::Numeric => if version.0 < 10 {
            10
        } else if version.0 < 27 {
            12
        } else {
            14
        },
        Mode::Alphanumeric => if version.0 < 10 {
            9
        } else if version.0 < 27 {
            11
        } else {
            13
        },
    }
}

/// ASCII decimal digit.
pub open spec fn is_digit(c: u8) -> bool {
    0x30 <= c <= 0x39
}

/// Every byte of the text is a decimal digit.
pub open spec fn numeric_ok(s: Seq<u8>) -> bool {
    forall|i: int| 0 <= i < s.len() ==> is_digit(#[trigger] s[i])
}

/// Numeric value of an ASCII digit.
pub open spec fn digit_val(c: u8) -> nat {
    (c - 0x30) as nat
}

/// Numeric payload: groups of three digits in ten bits, then a two-digit
/// group in seven bits or a single digit in four.
pub open spec fn numeric_payload_bits(s: Seq<u8>) -> Seq<bool>
    decreases s.len(),
{
    if s.len() >= 3 {
        bits_of(digit_val(s[0]) * 100 + digit_val(s[1]) * 10 + digit_val(s[2]), 10)
            + numeric_payload_bits(s.skip(3))
    } else if s.len() == 2 {
        bits_of(digit_val(s[0]) * 10 + digit_val(s[1]), 7)
    } else if s.len() == 1 {
        bits_of(digit_val(s[0]), 4)
    } else {
        Seq::empty()
    }
}

/// Number of payload bits the numeric mode emits for `l` digits.
pub open spec fn numeric_payload_len(l: nat) -> nat {
    10 * (l / 3) + (if l % 3 == 2 {
        7nat
    } else if l % 3 == 1 {
        4nat
    } else {
        0nat
    })
}

/// Everything a numeric segment appends: indicator, count, payload.
pub open spec fn segment_numeric_bits(s: Seq<u8>, version: Version) -> Seq<bool> {
    bits_of(1, 4) + bits_of(s.len(), spec_cci(version, Mode::Numeric)) + numeric_payload_bits(s)
}

/// Raw bit budget of the symbol: no stream may outgrow the grid itself.
pub open spec fn spec_bit_budget(version: Version) -> int {
    version.spec_width() * version.spec_width()
}

/// Character-count indicator width: 8/16 bits for byte mode, 10/12/14 for
/// numeric and 9/11/13 for alphanumeric, stepping at versions 10 and 27.
pub fn bits_char_count_indicator(version: Version, mode: Mode) -> (r: usize)
    ensures
        r == spec_cci(version, mode),
{
    if matches!(mode, Mode::Byte) {
        return if version.0 < 10 {
            8
        } else {
            16
        };
    }
    let mut base: usize = match mode {
        Mode::Numeric => 10,
        _ => 9,
    };
    if version.0 > 9 {
        base += 2
    }
    if version.0 > 26 {
        base += 2
    }
    base
}

/// True when every byte is an ASCII decimal digit.
fn all_digits(bytes: &[u8]) -> (b: bool)
    ensures
        b == numeric_ok(bytes@),
{
    let n = bytes.len();
    for i in 0..n
        invariant
            n == bytes@.len(),
            forall|j: int| 0 <= j < i ==> is_digit(#[trigger] bytes@[j]),
    {
        let c = bytes[i];
        if c < 0x30 || c > 0x39 {
            return false;
        }
    }
    true
}

/// Append a numeric segment: `0001`, the digit count, then the packed
/// digit groups. Rejects non-digit text before writing anything, and
/// payloads whose count cannot be represented or whose bits cannot fit
/// the symbol grid.
pub fn encode_numeric(qrdata: &mut Data, input: &str) -> (r: Result<(), QrError>)
    requires
        old(qrdata).wf(),
    ensures
        final(qrdata).wf(),
        final(qrdata).version == old(qrdata).version,
        ({
            let s = input.spec_bytes();
            let v = old(qrdata).version;
            let total = 4 + spec_cci(v, Mode::Numeric) + numeric_payload_len(s.len());
            if !numeric_ok(s) {
                &&& r == Err::<(), QrError>(QrError::InvalidCharacter)
                &&& *final(qrdata) == *old(qrdata)
            } else if s.len() >= pow2(spec_cci(v, Mode::Numeric)) || old(qrdata).bit_len + total
                > spec_bit_budget(v) {
                &&& r == Err::<(), QrError>(QrError::CapacityExceeded)
                &&& *final(qrdata) == *old(qrdata)
            } else {
                &&& r == Ok::<(), QrError>(())
                &&& final(qrdata).bits() == old(qrdata).bits() + segment_numeric_bits(s, v)
                &&& final(qrdata).bit_len == old(qrdata).bit_len + total
            }
        }),
{
    proof {
        lemma2_to64();
    }
    let ghost s = input.spec_bytes();
    let bytes = input.as_bytes();
    let n = bytes.len();
    if !all_digits(bytes) {
        return Err(QrError::InvalidCharacter);
    }
    let cci = bits_char_count_indicator(qrdata.version, Mode::Numeric);
    let limit: usize = 1usize << cci;
    proof {
        vstd::bits::lemma_usize_shl_is_mul(1usize, cci as usize);
    }
    if n >= limit {
        return Err(QrError::CapacityExceeded);
    }
    let groups = n / 3;
    let rem = n % 3;
    let added: usize = 4 + cci + 10 * groups + (if rem == 2 {
        7
    } else if rem == 1 {
        4
    } else {
        0
    });
    proof {
        assert(qrdata.version.valid());
    }
    let w: usize = 4 * qrdata.version.0 + 17;
    proof {
        assert(w * w <= 31329) by (nonlinear_arith)
            requires
                w <= 177,
        ;
    }
    let wsq: usize = w * w;
    if qrdata.bit_len > wsq || added > wsq - qrdata.bit_len {
        return Err(QrError::CapacityExceeded);
    }
    qrdata.push_bits(0b0001, 4);
    qrdata.push_bits(n, cci);
    let ghost header = bits_of(1, 4) + bits_of(n as nat, cci as nat);
    let ghost mut acc: Seq<bool> = Seq::empty();
    proof {
        assert(qrdata.bits() =~= old(qrdata).bits() + header + acc);
        assert(s.skip(0) =~= s);
    }
    for i in 0..groups
        invariant
            qrdata.wf(),
            qrdata.version == old(qrdata).version,
            s == input.spec_bytes(),
            bytes@ == s,
            numeric_ok(s),
            n == s.len(),
            groups == n / 3,
            cci == spec_cci(old(qrdata).version, Mode::Numeric),
            old(qrdata).bit_len + added <= wsq <= 31329,
            added == 4 + cci + numeric_payload_len(n as nat),
            qrdata.bit_len == old(qrdata).bit_len + 4 + cci + 10 * i,
            acc.len() == 10 * i,
            qrdata.bits() == old(qrdata).bits() + header + acc,
            numeric_payload_bits(s) == acc + numeric_payload_bits(s.skip(3 * i)),
    {
        proof {
            lemma2_to64();
            lemma_fundamental_div_mod(n as int, 3);
            assert(3 * i + 3 <= n);
            assert(is_digit(s[3 * i]) && is_digit(s[3 * i + 1]) && is_digit(s[3 * i + 2]));
        }
        let d0 = (bytes[i * 3] - 0x30) as usize;
        let d1 = (bytes[i * 3 + 1] - 0x30) as usize;
        let d2 = (bytes[i * 3 + 2] - 0x30) as usize;
        let group = d0 * 100 + d1 * 10 + d2;
        proof {
            assert(10 * (i + 1) <= 10 * groups);
        }
        qrdata.push_bits(group, 10);
        proof {
            let tail = s.skip(3 * i);
            assert(tail.len() >= 3);
            assert(tail[0] == s[3 * i] && tail[1] == s[3 * i + 1] && tail[2] == s[3 * i + 2]);
            assert(tail.skip(3) =~= s.skip(3 * i + 3));
            let gb = bits_of(group as nat, 10);
            assert(numeric_payload_bits(tail) == gb + numeric_payload_bits(s.skip(3 * i + 3)));
            acc = acc + gb;
            assert(qrdata.bits() =~= old(qrdata).bits() + header + acc);
            assert(numeric_payload_bits(s) =~= acc + numeric_payload_bits(s.skip(3 * (i + 1))));
        }
    }
    proof {
        lemma2_to64();
        lemma_fundamental_div_mod(n as int, 3);
    }
    if rem == 1 {
        let d = (bytes[n - 1] - 0x30) as usize;
        proof {
            assert(is_digit(s[n - 1]));
        }
        qrdata.push_bits(d, 4);
        proof {
            let tail = s.skip(3 * groups as int);
            assert(tail.len() == 1 && tail[0] == s[n - 1]);
            acc = acc + bits_of(d as nat, 4);
            assert(qrdata.bits() =~= old(qrdata).bits() + header + acc);
            assert(numeric_payload_bits(s) =~= acc);
        }
    } else if rem == 2 {
        let d0 = (bytes[n - 2] - 0x30) as usize;
        let d1 = (bytes[n - 1] - 0x30) as usize;
        proof {
            assert(is_digit(s[n - 2]) && is_digit(s[n - 1]));
        }
        qrdata.push_bits(d0 * 10 + d1, 7);
        proof {
            let tail = s.skip(3 * groups as int);
            assert(tail.len() == 2 && tail[0] == s[n - 2] && tail[1] == s[n - 1]);
            acc = acc + bits_of((d0 * 10 + d1) as nat, 7);
            assert(qrdata.bits() =~= old(qrdata).bits() + header + acc);
            assert(numeric_payload_bits(s) =~= acc);
        }
    } else {
        proof {
            let tail = s.skip(3 * groups as int);
            assert(tail.len() == 0);
            assert(numeric_payload_bits(s) =~= acc);
        }
    }
    proof {
        assert(qrdata.bits() =~= old(qrdata).bits() + segment_numeric_bits(s, old(
            qrdata,
        ).version));
    }
    Ok(())
}

/// Character of the 45-symbol alphanumeric alphabet.
pub open spec fn is_b45(c: u8) -> bool {
    (0x30 <= c <= 0x39) || (0x41 <= c <= 0x5A) || c == 0x20 || c == 0x24 || c == 0x25 || c == 0x2A
        || c == 0x2B || c == 0x2D || c == 0x2E || c == 0x2F || c == 0x3A
}

/// Value of a character under the 45-symbol mapping: digits to 0-9,
/// letters to 10-35, then space $ % * + - . / : to 36-44.
pub open spec fn b45_val(c: u8) -> nat {
    if 0x30 <= c <= 0x39 {
        (c - 0x30) as nat
    } else if 0x41 <= c <= 0x5A {
        (c - 0x41 + 10) as nat
    } else if c == 0x20 {
        36
    } else if c == 0x24 {
        37
    } else if c == 0x25 {
        38
    } else if c == 0x2A {
        39
    } else if c == 0x2B {
        40
    } else if c == 0x2D {
        41
    } else if c == 0x2E {
        42
    } else if c == 0x2F {
        43
    } else if c == 0x3A {
        44
    } else {
        45
    }
}

/// Every byte of the text lies in the 45-symbol alphabet.
pub open spec fn alnum_ok(s: Seq<u8>) -> bool {
    forall|i: int| 0 <= i < s.len() ==> is_b45(#[trigger] s[i])
}

/// Alphanumeric payload: pairs combined as `c0 * 45 + c1` in eleven bits,
/// a trailing single character in six.
pub open spec fn alnum_payload_bits(s: Seq<u8>) -> Seq<bool>
    decreases s.len(),
{
    if s.len() >= 2 {
        bits_of(b45_val(s[0]) * 45 + b45_val(s[1]), 11) + alnum_payload_bits(s.skip(2))
    } else if s.len() == 1 {
        bits_of(b45_val(s[0]), 6)
    } else {
        Seq::empty()
    }
}

/// Number of payload bits the alphanumeric mode emits for `l` characters.
pub open spec fn alnum_payload_len(l: nat) -> nat {
    11 * (l / 2) + 6 * (l % 2)
}

/// Everything an alphanumeric segment appends: indicator, count, payload.
pub open spec fn segment_alnum_bits(s: Seq<u8>, version: Version) -> Seq<bool> {
    bits_of(2, 4) + bits_of(s.len(), spec_cci(version, Mode::Alphanumeric)) + alnum_payload_bits(s)
}

/// Byte payload: each input byte emitted as-is in eight bits.
pub open spec fn byte_payload_bits(s: Seq<u8>) -> Seq<bool>
    decreases s.len(),
{
    if s.len() == 0 {
        Seq::empty()
    } else {
        bits_of(s[0] as nat, 8) + byte_payload_bits(s.skip(1))
    }
}

/// Everything a byte segment appends: indicator, count, payload.
pub open spec fn segment_byte_bits(s: Seq<u8>, version: Version) -> Seq<bool> {
    bits_of(4, 4) + bits_of(s.len(), spec_cci(version, Mode::Byte)) + byte_payload_bits(s)
}

/// Value of one alphanumeric character, digits and letters by offset and
/// the nine punctuation symbols singly.
pub fn ascii_to_b45(c: u8) -> (r: u8)
    requires
        is_b45(c),
    ensures
        r as nat == b45_val(c),
{
    if c >= 0x41 {
        c - 0x41 + 10
    } else if c == 0x3A {
        44
    } else if c >= 0x30 {
        c - 0x30
    } else {
        match c {
            0x20 => 36,
            0x24 => 37,
            0x25 => 38,
            0x2A => 39,
            0x2B => 40,
            0x2D => 41,
            0x2E => 42,
            _ => 43,
        }
    }
}

/// True when every byte lies in the 45-symbol alphabet.
fn all_b45(bytes: &[u8]) -> (b: bool)
    ensures
        b == alnum_ok(bytes@),
{
    let n = bytes.len();
    for i in 0..n
        invariant
            n == bytes@.len(),
            forall|j: int| 0 <= j < i ==> is_b45(#[trigger] bytes@[j]),
    {
        let c = bytes[i];
        let inside = (c >= 0x30 && c <= 0x39) || (c >= 0x41 && c <= 0x5A) || c == 0x20 || c == 0x24
            || c == 0x25 || c == 0x2A || c == 0x2B || c == 0x2D || c == 0x2E || c == 0x2F || c
            == 0x3A;
        if !inside {
            return false;
        }
    }
    true
}

/// Append an alphanumeric segment: `0010`, the character count, then the
/// packed pairs. Rejects text outside the 45-symbol alphabet before
/// writing anything, and payloads that cannot fit.
pub fn encode_alphanumeric(qrdata: &mut Data, input: &str) -> (r: Result<(), QrError>)
    requires
        old(qrdata).wf(),
    ensures
        final(qrdata).wf(),
        final(qrdata).version == old(qrdata).version,
        ({
            let s = input.spec_bytes();
            let v = old(qrdata).version;
            let total = 4 + spec_cci(v, Mode::Alphanumeric) + alnum_payload_len(s.len());
            if !alnum_ok(s) {
                &&& r == Err::<(), QrError>(QrError::InvalidCharacter)
                &&& *final(qrdata) == *old(qrdata)
            } else if s.len() >= pow2(spec_cci(v, Mode::Alphanumeric)) || old(qrdata).bit_len
                + total > spec_bit_budget(v) {
                &&& r == Err::<(), QrError>(QrError::CapacityExceeded)
                &&& *final(qrdata) == *old(qrdata)
            } else {
                &&& r == Ok::<(), QrError>(())
                &&& final(qrdata).bits() == old(qrdata).bits() + segment_alnum_bits(s, v)
                &&& final(qrdata).bit_len == old(qrdata).bit_len + total
            }
        }),
{
    proof {
        lemma2_to64();
    }
    let ghost s = input.spec_bytes();
    let bytes = input.as_bytes();
    let n = bytes.len();
    if !all_b45(bytes) {
        return Err(QrError::InvalidCharacter);
    }
    let cci = bits_char_count_indicator(qrdata.version, Mode::Alphanumeric);
    let limit: usize = 1usize << cci;
    proof {
        vstd::bits::lemma_usize_shl_is_mul(1usize, cci as usize);
    }
    if n >= limit {
        return Err(QrError::CapacityExceeded);
    }
    let groups = n / 2;
    let rem = n % 2;
    let added: usize = 4 + cci + 11 * groups + 6 * rem;
    let w: usize = 4 * qrdata.version.0 + 17;
    proof {
        assert(w * w <= 31329) by (nonlinear_arith)
            requires
                w <= 177,
        ;
    }
    let wsq: usize = w * w;
    if qrdata.bit_len > wsq || added > wsq - qrdata.bit_len {
        return Err(QrError::CapacityExceeded);
    }
    qrdata.push_bits(0b0010, 4);
    qrdata.push_bits(n, cci);
    let ghost header = bits_of(2, 4) + bits_of(n as nat, cci as nat);
    let ghost mut acc: Seq<bool> = Seq::empty();
    proof {
        assert(qrdata.bits() =~= old(qrdata).bits() + header + acc);
        assert(s.skip(0) =~= s);
    }
    for i in 0..groups
        invariant
            qrdata.wf(),
            qrdata.version == old(qrdata).version,
            s == input.spec_bytes(),
            bytes@ == s,
            alnum_ok(s),
            n == s.len(),
            groups == n / 2,
            cci == spec_cci(old(qrdata).version, Mode::Alphanumeric),
            old(qrdata).bit_len + added <= wsq <= 31329,
            added == 4 + cci + alnum_payload_len(n as nat),
            qrdata.bit_len == old(qrdata).bit_len + 4 + cci + 11 * i,
            acc.len() == 11 * i,
            qrdata.bits() == old(qrdata).bits() + header + acc,
            alnum_payload_bits(s) == acc + alnum_payload_bits(s.skip(2 * i)),
    {
        proof {
            lemma2_to64();
            lemma_fundamental_div_mod(n as int, 2);
            assert(2 * i + 2 <= n);
            assert(is_b45(s[2 * i]) && is_b45(s[2 * i + 1]));
        }
        let c0 = ascii_to_b45(bytes[i * 2]) as usize;
        let c1 = ascii_to_b45(bytes[i * 2 + 1]) as usize;
        let group = c0 * 45 + c1;
        proof {
            assert(11 * (i + 1) <= 11 * groups);
        }
        qrdata.push_bits(group, 11);
        proof {
            let tail = s.skip(2 * i);
            assert(tail.len() >= 2);
            assert(tail[0] == s[2 * i] && tail[1] == s[2 * i + 1]);
            assert(tail.skip(2) =~= s.skip(2 * i + 2));
            let gb = bits_of(group as nat, 11);
            assert(alnum_payload_bits(tail) == gb + alnum_payload_bits(s.skip(2 * i + 2)));
            acc = acc + gb;
            assert(qrdata.bits() =~= old(qrdata).bits() + header + acc);
            assert(alnum_payload_bits(s) =~= acc + alnum_payload_bits(s.skip(2 * (i + 1))));
        }
    }
    proof {
        lemma2_to64();
        lemma_fundamental_div_mod(n as int, 2);
    }
    if rem == 1 {
        proof {
            assert(is_b45(s[n - 1]));
        }
        let d = ascii_to_b45(bytes[n - 1]) as usize;
        qrdata.push_bits(d, 6);
        proof {
            let tail = s.skip(2 * groups as int);
            assert(tail.len() == 1 && tail[0] == s[n - 1]);
            acc = acc + bits_of(d as nat, 6);
            assert(qrdata.bits() =~= old(qrdata).bits() + header + acc);
            assert(alnum_payload_bits(s) =~= acc);
        }
    } else {
        proof {
            let tail = s.skip(2 * groups as int);
            assert(tail.len() == 0);
            assert(alnum_payload_bits(s) =~= acc);
        }
    }
    proof {
        assert(qrdata.bits() =~= old(qrdata).bits() + segment_alnum_bits(s, old(
            qrdata,
        ).version));
    }
    Ok(())
}

/// Append a byte segment: `0100`, the byte count, then every input byte
/// as-is in eight bits.
pub fn encode_byte(qrdata: &mut Data, input: &str) -> (r: Result<(), QrError>)
    requires
        old(qrdata).wf(),
    ensures
        final(qrdata).wf(),
        final(qrdata).version == old(qrdata).version,
        ({
            let s = input.spec_bytes();
            let v = old(qrdata).version;
            let total = 4 + spec_cci(v, Mode::Byte) + 8 * s.len();
            if s.len() >= pow2(spec_cci(v, Mode::Byte)) || old(qrdata).bit_len + total
                > spec_bit_budget(v) {
                &&& r == Err::<(), QrError>(QrError::CapacityExceeded)
                &&& *final(qrdata) == *old(qrdata)
            } else {
                &&& r == Ok::<(), QrError>(())
                &&& final(qrdata).bits() == old(qrdata).bits() + segment_byte_bits(s, v)
                &&& final(qrdata).bit_len == old(qrdata).bit_len + total
            }
        }),
{
    proof {
        lemma2_to64();
    }
    let ghost s = input.spec_bytes();
    let bytes = input.as_bytes();
    let n = bytes.len();
    let cci = bits_char_count_indicator(qrdata.version, Mode::Byte);
    let limit: usize = 1usize << cci;
    proof {
        vstd::bits::lemma_usize_shl_is_mul(1usize, cci as usize);
    }
    if n >= limit {
        return Err(QrError::CapacityExceeded);
    }
    let added: usize = 4 + cci + 8 * n;
    let w: usize = 4 * qrdata.version.0 + 17;
    proof {
        assert(w * w <= 31329) by (nonlinear_arith)
            requires
                w <= 177,
        ;
    }
    let wsq: usize = w * w;
    if qrdata.bit_len > wsq || added > wsq - qrdata.bit_len {
        return Err(QrError::CapacityExceeded);
    }
    qrdata.push_bits(0b0100, 4);
    qrdata.push_bits(n, cci);
    let ghost header = bits_of(4, 4) + bits_of(n as nat, cci as nat);
    let ghost mut acc: Seq<bool> = Seq::empty();
    proof {
        assert(qrdata.bits() =~= old(qrdata).bits() + header + acc);
        assert(s.skip(0) =~= s);
    }
    for i in 0..n
        invariant
            qrdata.wf(),
            qrdata.version == old(qrdata).version,
            s == input.spec_bytes(),
            bytes@ == s,
            n == s.len(),
            cci == spec_cci(old(qrdata).version, Mode::Byte),
            old(qrdata).bit_len + added <= wsq <= 31329,
            added == 4 + cci + 8 * n,
            qrdata.bit_len == old(qrdata).bit_len + 4 + cci + 8 * i,
            acc.len() == 8 * i,
            qrdata.bits() == old(qrdata).bits() + header + acc,
            byte_payload_bits(s) == acc + byte_payload_bits(s.skip(i as int)),
    {
        proof {
            lemma2_to64();
            assert(8 * (i + 1) <= 8 * n);
        }
        let c = bytes[i] as usize;
        qrdata.push_bits(c, 8);
        proof {
            let tail = s.skip(i as int);
            assert(tail.len() >= 1);
            assert(tail[0] == s[i as int]);
            assert(tail.skip(1) =~= s.skip(i + 1));
            let gb = bits_of(c as nat, 8);
            assert(byte_payload_bits(tail) == gb + byte_payload_bits(s.skip(i + 1)));
            acc = acc + gb;
            assert(qrdata.bits() =~= old(qrdata).bits() + header + acc);
            assert(byte_payload_bits(s) =~= acc + byte_payload_bits(s.skip(i + 1)));
        }
    }
    proof {
        assert(s.skip(n as int).len() == 0);
        assert(byte_payload_bits(s) =~= acc);
        assert(qrdata.bits() =~= old(qrdata).bits() + segment_byte_bits(s, old(
            qrdata,
        ).version));
    }
    Ok(())
}

/// Remainder of binary polynomial long division: scan from bit `pos` down
/// to the generator's degree `deg`, cancelling each set bit with the
/// generator shifted up to it.
pub open spec fn poly_rem_from(d: u32, gen: u32, deg: u32, pos: int) -> u32
    decreases pos + 1,
{
    if pos < deg {
        d
    } else {
        poly_rem_from(
            if (d >> (pos as u32)) & 1 == 1 {
                d ^ (gen << ((pos - deg) as u32))
            } else {
                d
            },
            gen,
            deg,
            pos - 1,
        )
    }
}

/// The 18-bit version-information word: the version shifted into the top
/// six bits joined with its 12-bit remainder modulo the generator
/// `0b1_1111_0010_0101`.
pub open spec fn spec_version_info(v: int) -> u32 {
    ((v as u32) << 12u32) | poly_rem_from((v as u32) << 12u32, 0x1F25, 12, 17)
}

/// Two-bit level code at a given table index (the standard's
/// non-monotonic assignment).
pub open spec fn spec_format_value(e: int) -> u32 {
    if e == 0 {
        1
    } else if e == 1 {
        0
    } else if e == 2 {
        3
    } else {
        2
    }
}

/// The 15-bit format-information word for table indices (level, mask):
/// level code and mask index joined with their 10-bit remainder modulo
/// the generator `0b101_0011_0111`, then XORed with the fixed mask
/// `0b101_0100_0001_0010` so no format pattern is all zero.
pub open spec fn spec_format_info(e: int, m: int) -> u32 {
    let f = ((spec_format_value(e) << 3u32) | (m as u32)) << 10u32;
    (f | poly_rem_from(f, 0x537, 10, 14)) ^ 0x5412u32
}

/// The version-information table: entry `v` is the 18-bit code for
/// version `v` (entries 1 through 40; entry 0 is unused).
pub fn version_info() -> (r: Vec<u32>)
    ensures
        r@.len() == 41,
        forall|v: int| 1 <= v <= 40 ==> r@[v] == spec_version_info(v),
{
    let mut arr: Vec<u32> = Vec::new();
    arr.push(0);
    for version in 1..41usize
        invariant
            arr@.len() == version,
            forall|v: int| 1 <= v < version ==> arr@[v] == spec_version_info(v),
    {
        let shifted: u32 = (version as u32) << 12u32;
        let mut dividend: u32 = shifted;
        let mut pos: u32 = 17;
        while pos >= 12
            invariant
                11 <= pos <= 17,
                poly_rem_from(shifted, 0x1F25, 12, 17) == poly_rem_from(
                    dividend,
                    0x1F25,
                    12,
                    pos as int,
                ),
            decreases pos,
        {
            if (dividend >> pos) & 1 == 1 {
                dividend = dividend ^ (0x1F25u32 << (pos - 12));
            }
            pos = pos - 1;
        }
        arr.push(shifted | dividend);
    }
    arr
}

/// The format-information table: entry `[e][m]` is the 15-bit code for
/// error-correction level index `e` and mask index `m`.
pub fn format_info() -> (r: Vec<Vec<u32>>)
    ensures
        r@.len() == 4,
        forall|e: int| 0 <= e < 4 ==> (#[trigger] r@[e])@.len() == 8,
        forall|e: int, m: int|
            0 <= e < 4 && 0 <= m < 8 ==> #[trigger] (r@[e])@[m] == spec_format_info(e, m),
{
    let mut arr: Vec<Vec<u32>> = Vec::new();
    for i in 0..4usize
        invariant
            arr@.len() == i,
            forall|e: int| 0 <= e < i ==> (#[trigger] arr@[e])@.len() == 8,
            forall|e: int, m: int|
                0 <= e < i && 0 <= m < 8 ==> #[trigger] (arr@[e])@[m] == spec_format_info(e, m),
    {
        let value: u32 = if i == 0 {
            1
        } else if i == 1 {
            0
        } else if i == 2 {
            3
        } else {
            2
        };
        let mut row: Vec<u32> = Vec::new();
        for mask in 0..8usize
            invariant
                value == spec_format_value(i as int),
                row@.len() == mask,
                forall|m: int| 0 <= m < mask ==> row@[m] == spec_format_info(i as int, m),
        {
            let format: u32 = ((value << 3u32) | (mask as u32)) << 10u32;
            let mut dividend: u32 = format;
            let mut pos: u32 = 14;
            while pos >= 10
                invariant
                    9 <= pos <= 14,
                    poly_rem_from(format, 0x537, 10, 14) == poly_rem_from(
                        dividend,
                        0x537,
                        10,
                        pos as int,
                    ),
                decreases pos,
            {
                if (dividend >> pos) & 1 == 1 {
                    dividend = dividend ^ (0x537u32 << (pos - 10));
                }
                pos = pos - 1;
            }
            row.push((format | dividend) ^ 0x5412);
        }
        arr.push(row);
    }
    arr
}

/// Bits a whole segment appends under its mode.
pub open spec fn segment_bits(seg: crate::data::Segment, version: Version) -> Seq<bool> {
    match seg.mode {
        Mode::Numeric => segment_numeric_bits(seg.text.spec_bytes(), version),
        Mode::Alphanumeric => segment_alnum_bits(seg.text.spec_bytes(), version),
        Mode::Byte => segment_byte_bits(seg.text.spec_bytes(), version),
    }
}

/// The segment's text contains only characters its mode can encode.
pub open spec fn segment_valid(seg: crate::data::Segment) -> bool {
    match seg.mode {
        Mode::Numeric => numeric_ok(seg.text.spec_bytes()),
        Mode::Alphanumeric => alnum_ok(seg.text.spec_bytes()),
        Mode::Byte => true,
    }
}

/// Total number of bits the segment appends: indicator, count, payload.
pub open spec fn segment_total_bits(seg: crate::data::Segment, version: Version) -> nat {
    4 + spec_cci(version, seg.mode) + (match seg.mode {
        Mode::Numeric => numeric_payload_len(seg.text.spec_bytes().len()),
        Mode::Alphanumeric => alnum_payload_len(seg.text.spec_bytes().len()),
        Mode::Byte => 8 * seg.text.spec_bytes().len(),
    })
}

/// Concatenation of every segment's bits in order.
pub open spec fn segments_bits(segs: Seq<crate::data::Segment>, version: Version) -> Seq<bool>
    decreases segs.len(),
{
    if segs.len() == 0 {
        Seq::empty()
    } else {
        segment_bits(segs[0], version) + segments_bits(segs.skip(1), version)
    }
}

/// Outcome of encoding the segments in order into a stream that already
/// holds `start` bits: the first invalid character or overfull payload
/// decides, and the stream may never outgrow the symbol grid.
pub open spec fn segments_result(
    segs: Seq<crate::data::Segment>,
    version: Version,
    start: nat,
) -> Result<(), QrError>
    decreases segs.len(),
{
    if segs.len() == 0 {
        Ok(())
    } else {
        let s = segs[0].text.spec_bytes();
        let total = segment_total_bits(segs[0], version);
        if !segment_valid(segs[0]) {
            Err(QrError::InvalidCharacter)
        } else if s.len() >= pow2(spec_cci(version, segs[0].mode)) || start + total
            > spec_bit_budget(version) {
            Err(QrError::CapacityExceeded)
        } else {
            segments_result(segs.skip(1), version, (start + total) as nat)
        }
    }
}

/// The character of the 45-symbol alphabet bearing a given value.
pub open spec fn b45_inv(v: nat) -> u8 {
    if v <= 9 {
        (0x30 + v) as u8
    } else if v <= 35 {
        (0x41 + v - 10) as u8
    } else if v == 36 {
        0x20
    } else if v == 37 {
        0x24
    } else if v == 38 {
        0x25
    } else if v == 39 {
        0x2A
    } else if v == 40 {
        0x2B
    } else if v == 41 {
        0x2D
    } else if v == 42 {
        0x2E
    } else if v == 43 {
        0x2F
    } else {
        0x3A
    }
}

/// The 45-symbol mapping is a bijection between its alphabet and the
/// values 0 through 44: distinct characters take distinct values, the
/// inverse mapping returns every character to itself, and every value
/// under 45 is taken by exactly one character of the alphabet.
pub proof fn lemma_b45_bijective(c1: u8, c2: u8, v: nat)
    requires
        is_b45(c1),
        is_b45(c2),
        v < 45,
    ensures
        b45_val(c1) == b45_val(c2) ==> c1 == c2,
        b45_val(c1) < 45,
        b45_inv(b45_val(c1)) == c1,
        is_b45(b45_inv(v)),
        b45_val(b45_inv(v)) == v,
{
}

/// Digits decoded back out of a numeric payload: ten-bit groups give
/// three digits, a seven-bit group two, a four-bit group one.
pub open spec fn numeric_decode(bits: Seq<bool>, count: nat) -> Seq<u8>
    decreases count,
{
    if count >= 3 {
        let g = val_of(bits.take(10));
        seq![(0x30 + g / 100) as u8, (0x30 + g / 10 % 10) as u8, (0x30 + g % 10) as u8]
            + numeric_decode(bits.skip(10), (count - 3) as nat)
    } else if count == 2 {
        let g = val_of(bits.take(7));
        seq![(0x30 + g / 10) as u8, (0x30 + g % 10) as u8]
    } else if count == 1 {
        seq![(0x30 + val_of(bits.take(4))) as u8]
    } else {
        Seq::empty()
    }
}

/// Numeric encoding round-trips: grouping digits by three and decoding
/// the emitted 10/7/4-bit groups reproduces the original digit string.
pub proof fn lemma_numeric_round_trip(s: Seq<u8>)
    requires
        numeric_ok(s),
    ensures
        numeric_decode(numeric_payload_bits(s), s.len()) == s,
    decreases s.len(),
{
    lemma2_to64();
    let bits = numeric_payload_bits(s);
    if s.len() >= 3 {
        let d0 = digit_val(s[0]);
        let d1 = digit_val(s[1]);
        let d2 = digit_val(s[2]);
        let g = d0 * 100 + d1 * 10 + d2;
        assert(is_digit(s[0]) && is_digit(s[1]) && is_digit(s[2]));
        assert(bits.take(10) =~= bits_of(g, 10));
        lemma_val_of_bits_of(g, 10);
        lemma_fundamental_div_mod_converse(g as int, 100, d0 as int, (d1 * 10 + d2) as int);
        lemma_fundamental_div_mod_converse(g as int, 10, (d0 * 10 + d1) as int, d2 as int);
        lemma_fundamental_div_mod_converse(
            (d0 * 10 + d1) as int,
            10,
            d0 as int,
            d1 as int,
        );
        assert(g / 100 == d0 && g / 10 % 10 == d1 && g % 10 == d2);
        assert(bits.skip(10) =~= numeric_payload_bits(s.skip(3)));
        assert(numeric_ok(s.skip(3))) by {
            assert(forall|i: int|
                0 <= i < s.skip(3).len() ==> #[trigger] s.skip(3)[i] == s[i + 3]);
        }
        lemma_numeric_round_trip(s.skip(3));
        assert(numeric_decode(bits, s.len()) =~= s);
    } else if s.len() == 2 {
        let d0 = digit_val(s[0]);
        let d1 = digit_val(s[1]);
        let g = d0 * 10 + d1;
        assert(is_digit(s[0]) && is_digit(s[1]));
        assert(bits.take(7) =~= bits_of(g, 7));
        lemma_val_of_bits_of(g, 7);
        lemma_fundamental_div_mod_converse(g as int, 10, d0 as int, d1 as int);
        assert(numeric_decode(bits, s.len()) =~= s);
    } else if s.len() == 1 {
        assert(is_digit(s[0]));
        assert(bits.take(4) =~= bits_of(digit_val(s[0]), 4));
        lemma_val_of_bits_of(digit_val(s[0]), 4);
        assert(numeric_decode(bits, s.len()) =~= s);
    } else {
        assert(numeric_decode(bits, s.len()) =~= s);
    }
}

/// Characters decoded back out of an alphanumeric payload through the
/// inverse 45-symbol mapping.
pub open spec fn alnum_decode(bits: Seq<bool>, count: nat) -> Seq<u8>
    decreases count,
{
    if count >= 2 {
        let g = val_of(bits.take(11));
        seq![b45_inv(g / 45), b45_inv(g % 45)] + alnum_decode(bits.skip(11), (count - 2) as nat)
    } else if count == 1 {
        seq![b45_inv(val_of(bits.take(6)))]
    } else {
        Seq::empty()
    }
}

/// Alphanumeric encoding round-trips: decoding the emitted 11/6-bit
/// groups through the inverse mapping reproduces the original text.
pub proof fn lemma_alnum_round_trip(s: Seq<u8>)
    requires
        alnum_ok(s),
    ensures
        alnum_decode(alnum_payload_bits(s), s.len()) == s,
    decreases s.len(),
{
    lemma2_to64();
    let bits = alnum_payload_bits(s);
    if s.len() >= 2 {
        assert(is_b45(s[0]) && is_b45(s[1]));
        let v0 = b45_val(s[0]);
        let v1 = b45_val(s[1]);
        lemma_b45_bijective(s[0], s[1], 0);
        let g = v0 * 45 + v1;
        assert(bits.take(11) =~= bits_of(g, 11));
        lemma_val_of_bits_of(g, 11);
        lemma_fundamental_div_mod_converse(g as int, 45, v0 as int, v1 as int);
        assert(g / 45 == v0 && g % 45 == v1);
        assert(bits.skip(11) =~= alnum_payload_bits(s.skip(2)));
        assert(alnum_ok(s.skip(2))) by {
            assert(forall|i: int|
                0 <= i < s.skip(2).len() ==> #[trigger] s.skip(2)[i] == s[i + 2]);
        }
        lemma_alnum_round_trip(s.skip(2));
        assert(alnum_decode(bits, s.len()) =~= s);
    } else if s.len() == 1 {
        assert(is_b45(s[0]));
        lemma_b45_bijective(s[0], s[0], 0);
        assert(bits.take(6) =~= bits_of(b45_val(s[0]), 6));
        lemma_val_of_bits_of(b45_val(s[0]), 6);
        assert(alnum_decode(bits, s.len()) =~= s);
    } else {
        assert(alnum_decode(bits, s.len()) =~= s);
    }
}

/// Byte encoding emits exactly eight bits per input byte and preserves
/// every byte value: the i-th eight-bit group reads back as the i-th
/// input byte.
pub proof fn lemma_byte_round_trip(s: Seq<u8>)
    ensures
        byte_payload_bits(s).len() == 8 * s.len(),
        forall|i: int|
            0 <= i < s.len() ==> val_of(
                #[trigger] byte_payload_bits(s).subrange(8 * i, 8 * i + 8),
            ) == s[i],
    decreases s.len(),
{
    lemma2_to64();
    let bits = byte_payload_bits(s);
    if s.len() > 0 {
        lemma_byte_round_trip(s.skip(1));
        assert forall|i: int| 0 <= i < s.len() implies val_of(
            #[trigger] bits.subrange(8 * i, 8 * i + 8),
        ) == s[i] by {
            if i == 0 {
                assert(bits.subrange(0, 8) =~= bits_of(s[0] as nat, 8));
                lemma_val_of_bits_of(s[0] as nat, 8);
            } else {
                assert(bits.subrange(8 * i, 8 * i + 8) =~= byte_payload_bits(s.skip(1)).subrange(
                    8 * (i - 1),
                    8 * (i - 1) + 8,
                ));
                assert(s.skip(1)[i - 1] == s[i]);
            }
        }
    }
}

} // verus!
