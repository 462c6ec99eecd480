use crate::algorithms::huffman::chars_of;
use vstd::prelude::*;
use vstd::string::StringExecFns;

verus! {

/// The CRC-32 generator polynomial without its top term.
pub const CRC32_GENERATOR: u32 = 0x04C1_1DB7;

/// Bit `position` of `number` as a binary digit.
pub open spec fn bit_digit(number: u8, position: u32) -> char {
    if (number >> position) & 1 == 1 {
        '1'
    } else {
        '0'
    }
}

/// Shifts one more bit of the dividend into the remainder register of the
/// division by the generator polynomial.
pub open spec fn division_step(reg: u32, bit: bool) -> u32 {
    let shifted = (reg << 1u32) | if bit {
        1u32
    } else {
        0u32
    };
    if reg & 0x8000_0000 != 0 {
        shifted ^ CRC32_GENERATOR
    } else {
        shifted
    }
}

/// The remainder register after shifting in the binary digits `bits`.
pub open spec fn division_remainder(reg: u32, bits: Seq<char>) -> u32
    decreases bits.len(),
{
    if bits.len() == 0 {
        reg
    } else {
        division_remainder(division_step(reg, bits[0] == '1'), bits.drop_first())
    }
}

/// The remainder of the division of the bit string `bits`, followed by 32
/// zero bits, by the CRC-32 generator polynomial.
pub open spec fn polynomial_remainder(bits: Seq<char>) -> u32 {
    division_remainder(0, bits + Seq::new(32, |i: int| '0'))
}

/// Bit `position` of `number` as a binary digit.
pub fn get_bit(number: u8, position: u32) -> (r: char)
    requires
        position < 8,
    ensures
        r == bit_digit(number, position),
{
    if (number >> position) & 1 == 1 {
        '1'
    } else {
        '0'
    }
}

/// Exclusive or of two binary digits.
pub fn xor(char1: char, char2: char) -> (r: char)
    ensures
        r == if (char1 == '1') != (char2 == '1') {
            '1'
        } else {
            '0'
        },
{
    if char1 == '1' && char2 == '1' {
        '0'
    } else if char1 == '1' || char2 == '1' {
        '1'
    } else {
        '0'
    }
}

proof fn lemma_remainder_push(reg: u32, bits: Seq<char>, c: char)
    ensures
        division_remainder(reg, bits.push(c)) == division_step(division_remainder(reg, bits), c == '1'),
    decreases bits.len(),
{
    assert(bits.push(c)[0] == if bits.len() == 0 {
        c
    } else {
        bits[0]
    });
    if bits.len() == 0 {
        assert(bits.push(c).drop_first() =~= bits);
        assert(division_remainder(reg, bits) == reg);
        assert(division_remainder(division_step(reg, c == '1'), bits) == division_step(reg, c == '1'));
    } else {
        assert(bits.push(c).drop_first() =~= bits.drop_first().push(c));
        lemma_remainder_push(division_step(reg, bits[0] == '1'), bits.drop_first(), c);
    }
}

/// The digits of `bytes`, eight per byte, most significant bit first.
pub fn bits_of_bytes(bytes: &Vec<u8>) -> (r: String)
    ensures
        r@.len() == 8 * bytes@.len(),
        forall|i: int, p: int|
            0 <= i < bytes@.len() && 0 <= p < 8 ==> #[trigger] r@[8 * i + p] == bit_digit(
                bytes@[i],
                (7 - p) as u32,
            ),
{
    let mut bits = String::new();
    let mut i: usize = 0;
    while i < bytes.len()
        invariant
            i <= bytes@.len(),
            bits@.len() == 8 * i,
            forall|k: int, p: int|
                0 <= k < i && 0 <= p < 8 ==> #[trigger] bits@[8 * k + p] == bit_digit(
                    bytes@[k],
                    (7 - p) as u32,
                ),
        decreases bytes@.len() - i,
    {
        let mut p: u32 = 0;
        while p < 8
            invariant
                i < bytes@.len(),
                p <= 8,
                bits@.len() == 8 * i + p,
                forall|k: int, q: int|
                    0 <= k < i && 0 <= q < 8 ==> #[trigger] bits@[8 * k + q] == bit_digit(
                        bytes@[k],
                        (7 - q) as u32,
                    ),
                forall|q: int|
                    0 <= q < p ==> #[trigger] bits@[8 * i + q] == bit_digit(bytes@[i as int], (7 - q) as u32),
            decreases 8 - p,
        {
            let ghost before = bits@;
            if get_bit(bytes[i], 7 - p) == '1' {
                bits.append("1");
            } else {
                bits.append("0");
            }
            proof {
                reveal_strlit("1");
                reveal_strlit("0");
                assert forall|k: int, q: int|
                    0 <= k < i && 0 <= q < 8 implies #[trigger] bits@[8 * k + q] == bit_digit(
                    bytes@[k],
                    (7 - q) as u32,
                ) by {
                    assert(bits@[8 * k + q] == before[8 * k + q]);
                }
                assert forall|q: int|
                    0 <= q < p + 1 implies #[trigger] bits@[8 * i + q] == bit_digit(bytes@[i as int], (7 - q) as u32) by {
                    if q < p {
                        assert(bits@[8 * i + q] == before[8 * i + q]);
                    }
                }
            }
            p = p + 1;
        }
        i = i + 1;
    }
    bits
}

/// One step of the remainder register.
fn register_step(reg: u32, bit: bool) -> (r: u32)
    ensures
        r == division_step(reg, bit),
{
    let shifted: u32 = (reg << 1u32) | if bit {
        1u32
    } else {
        0u32
    };
    if reg & 0x8000_0000 != 0 {
        shifted ^ CRC32_GENERATOR
    } else {
        shifted
    }
}

/// The remainder of dividing the bit string `data`, padded with 32 zero bits,
/// by the CRC-32 generator polynomial.
pub fn calculate_crc(data: String) -> (r: u32)
    ensures
        r == polynomial_remainder(data@),
{
    let digits = chars_of(data.as_str());
    let ghost padded = data@ + Seq::new(32, |i: int| '0');
    let mut reg: u32 = 0;
    let mut i: usize = 0;
    let n: usize = digits.len();
    proof {
        assert(padded.subrange(0, 0) =~= Seq::<char>::empty());
    }
    while i < n
        invariant
            n == digits@.len() == data@.len(),
            digits@ == data@,
            padded == data@ + Seq::new(32, |i: int| '0'),
            i <= n,
            reg == division_remainder(0, padded.subrange(0, i as int)),
        decreases n - i,
    {
        let bit: bool = digits[i] == '1';
        proof {
            assert(padded.subrange(0, i as int + 1) =~= padded.subrange(0, i as int).push(padded[i as int]));
            lemma_remainder_push(0, padded.subrange(0, i as int), padded[i as int]);
            assert(padded[i as int] == data@[i as int]);
        }
        reg = register_step(reg, bit);
        i = i + 1;
    }
    let mut k: usize = 0;
    while k < 32
        invariant
            n == data@.len(),
            padded == data@ + Seq::new(32, |i: int| '0'),
            k <= 32,
            reg == division_remainder(0, padded.subrange(0, n + k)),
        decreases 32 - k,
    {
        proof {
            let j = n + k;
            assert(padded.subrange(0, j + 1) =~= padded.subrange(0, j).push(padded[j]));
            lemma_remainder_push(0, padded.subrange(0, j), padded[j]);
            assert(padded[j] == '0');
        }
        reg = register_step(reg, false);
        k = k + 1;
    }
    proof {
        assert(padded.subrange(0, n + k) =~= padded);
    }
    reg
}

} // verus!
