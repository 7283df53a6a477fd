//! The printed name of a cluster: its history in hexadecimal.

use vstd::prelude::*;
use crate::cluster::Cluster;

verus! {

/// `String::push` of std: appends one character to the string.
#[verifier::external_body]
fn push_char(s: &mut String, c: char)
    ensures
        final(s)@ == old(s)@.push(c),
{
    s.push(c)
}

/// The number of zero bits that a history of `len` bits is padded with on
/// the left, to fill whole hexadecimal digits.
pub open spec fn padding_of(len: nat) -> nat {
    ((4 - len % 4) % 4) as nat
}

/// The bit at position `i` of the padded history, as a number.
pub open spec fn padded_bit(bits: Seq<bool>, i: int) -> int {
    let pad = padding_of(bits.len()) as int;
    if i >= pad && bits[i - pad] {
        1
    } else {
        0
    }
}

/// The value of the `k`-th group of four bits of the padded history, first
/// bit highest.
pub open spec fn nibble(bits: Seq<bool>, k: int) -> int {
    8 * padded_bit(bits, 4 * k) + 4 * padded_bit(bits, 4 * k + 1) + 2 * padded_bit(
        bits,
        4 * k + 2,
    ) + padded_bit(bits, 4 * k + 3)
}

/// The lower-case hexadecimal digit for a value below sixteen.
pub open spec fn hex_digit(v: int) -> char {
    if v == 0 {
        '0'
    } else if v == 1 {
        '1'
    } else if v == 2 {
        '2'
    } else if v == 3 {
        '3'
    } else if v == 4 {
        '4'
    } else if v == 5 {
        '5'
    } else if v == 6 {
        '6'
    } else if v == 7 {
        '7'
    } else if v == 8 {
        '8'
    } else if v == 9 {
        '9'
    } else if v == 10 {
        'a'
    } else if v == 11 {
        'b'
    } else if v == 12 {
        'c'
    } else if v == 13 {
        'd'
    } else if v == 14 {
        'e'
    } else {
        'f'
    }
}

/// The value of a lower-case hexadecimal digit, and sixteen for any other
/// character.
pub open spec fn digit_value(c: char) -> int {
    if c == '0' {
        0
    } else if c == '1' {
        1
    } else if c == '2' {
        2
    } else if c == '3' {
        3
    } else if c == '4' {
        4
    } else if c == '5' {
        5
    } else if c == '6' {
        6
    } else if c == '7' {
        7
    } else if c == '8' {
        8
    } else if c == '9' {
        9
    } else if c == 'a' {
        10
    } else if c == 'b' {
        11
    } else if c == 'c' {
        12
    } else if c == 'd' {
        13
    } else if c == 'e' {
        14
    } else if c == 'f' {
        15
    } else {
        16
    }
}

/// The name of a history: its bits, padded on the left with zeros to a
/// multiple of four, four bits to a hexadecimal digit.
pub open spec fn hex_name(bits: Seq<bool>) -> Seq<char> {
    Seq::new((bits.len() + padding_of(bits.len())) / 4, |k: int| hex_digit(nibble(bits, k)))
}

/// The bits that a name spells out, four to a digit, first bit highest.
pub open spec fn name_bits(name: Seq<char>) -> Seq<bool> {
    Seq::new(
        4 * name.len(),
        |i: int|
            {
                let v = digit_value(name[i / 4]);
                if i % 4 == 0 {
                    v / 8 % 2 == 1
                } else if i % 4 == 1 {
                    v / 4 % 2 == 1
                } else if i % 4 == 2 {
                    v / 2 % 2 == 1
                } else {
                    v % 2 == 1
                }
            },
    )
}

/// The bits from the first one on.
pub open spec fn strip_zeros(bits: Seq<bool>) -> Seq<bool>
    decreases bits.len(),
{
    if bits.len() == 0 || bits[0] {
        bits
    } else {
        strip_zeros(bits.drop_first())
    }
}

/// The history that a name stands for: the bits that it spells out, without
/// the zeros that pad them on the left.
pub open spec fn parse_name(name: Seq<char>) -> Seq<bool> {
    strip_zeros(name_bits(name))
}

/// Stripping removes up to three leading zeros in front of a history.
proof fn lemma_strip_padding(bits: Seq<bool>, pad: nat, padded: Seq<bool>)
    requires
        bits.len() >= 1,
        bits[0],
        padded.len() == pad + bits.len(),
        forall|i: int| 0 <= i < pad ==> !#[trigger] padded[i],
        forall|i: int| 0 <= i < bits.len() ==> #[trigger] padded[pad + i] == bits[i],
    ensures
        strip_zeros(padded) == bits,
    decreases pad,
{
    if pad == 0 {
        assert forall|i: int| 0 <= i < bits.len() implies padded[i] == bits[i] by {
            assert(padded[pad + i] == bits[i]);
        }
        assert(padded =~= bits);
    } else {
        assert(!padded[0]);
        let rest = padded.drop_first();
        assert forall|i: int| 0 <= i < bits.len() implies #[trigger] rest[(pad - 1) + i]
            == bits[i] by {
            assert(rest[(pad - 1) + i] == padded[pad + i]);
        }
        lemma_strip_padding(bits, (pad - 1) as nat, rest);
    }
}

/// A name read back gives the history that it was written from: parsing
/// undoes naming, for every history that starts with the bit of the root.
pub proof fn lemma_name_round_trip(bits: Seq<bool>)
    requires
        bits.len() >= 1,
        bits[0],
    ensures
        parse_name(hex_name(bits)) == bits,
        hex_name(parse_name(hex_name(bits))) == hex_name(bits),
{
    let name = hex_name(bits);
    let pad = padding_of(bits.len());
    let spelled = name_bits(name);
    assert((bits.len() + pad) % 4 == 0);
    assert(spelled.len() == pad + bits.len());
    assert forall|i: int| 0 <= i < spelled.len() implies (#[trigger] spelled[i] == (padded_bit(
        bits,
        i,
    ) == 1)) by {
        let k = i / 4;
        let v = nibble(bits, k);
        assert(0 <= v < 16);
        assert(digit_value(hex_digit(v)) == v);
        assert(name[k] == hex_digit(v));
        assert(i == 4 * k + i % 4);
    }
    assert forall|i: int| 0 <= i < pad implies !#[trigger] spelled[i] by {}
    assert forall|i: int| 0 <= i < bits.len() implies #[trigger] spelled[pad + i] == bits[i] by {
        assert(spelled[pad + i] == (padded_bit(bits, pad + i) == 1));
    }
    lemma_strip_padding(bits, pad, spelled);
}

impl Cluster {
    /// One bit of the padded history, as a number.
    fn padded_bit_at(&self, pad: usize, i: usize) -> (b: u8)
        requires
            pad == padding_of(self.bits().len()),
            i < pad + self.bits().len(),
        ensures
            b == padded_bit(self.bits(), i as int),
    {
        if i >= pad && self.history.bit(i - pad) {
            1
        } else {
            0
        }
    }

    /// The name of the cluster: its history in lower-case hexadecimal. The
    /// root is `"1"`, its children are `"2"` and `"3"`.
    pub fn name(&self) -> (res: String)
        ensures
            res@ == hex_name(self.bits()),
    {
        let d = self.history.len();
        let pad: usize = (4 - d % 4) % 4;
        let digits: usize = d / 4 + if d % 4 == 0 {
            0
        } else {
            1
        };
        assert(digits == (d + pad) / 4);
        let mut res = String::new();
        let mut k: usize = 0;
        while k < digits
            invariant
                d == self.bits().len(),
                pad == padding_of(d as nat),
                digits == (d + pad) / 4,
                (d + pad) % 4 == 0,
                k <= digits,
                res@ == hex_name(self.bits()).take(k as int),
            decreases digits - k,
        {
            let v: u8 = 8 * self.padded_bit_at(pad, 4 * k) + 4 * self.padded_bit_at(pad, 4 * k + 1)
                + 2 * self.padded_bit_at(pad, 4 * k + 2) + self.padded_bit_at(pad, 4 * k + 3);
            let c = if v == 0 {
                '0'
            } else if v == 1 {
                '1'
            } else if v == 2 {
                '2'
            } else if v == 3 {
                '3'
            } else if v == 4 {
                '4'
            } else if v == 5 {
                '5'
            } else if v == 6 {
                '6'
            } else if v == 7 {
                '7'
            } else if v == 8 {
                '8'
            } else if v == 9 {
                '9'
            } else if v == 10 {
                'a'
            } else if v == 11 {
                'b'
            } else if v == 12 {
                'c'
            } else if v == 13 {
                'd'
            } else if v == 14 {
                'e'
            } else {
                'f'
            };
            push_char(&mut res, c);
            proof {
                let name = hex_name(self.bits());
                assert(name.take(k as int + 1) =~= name.take(k as int).push(name[k as int]));
            }
            k += 1;
        }
        proof {
            let name = hex_name(self.bits());
            assert(name.take(k as int) =~= name);
        }
        res
    }
}

/// Stripping leaves the bits from the first one on.
proof fn lemma_strip_is_skip(bits: Seq<bool>, f: int)
    requires
        0 <= f <= bits.len(),
        forall|i: int| 0 <= i < f ==> !#[trigger] bits[i],
        f < bits.len() ==> bits[f],
    ensures
        strip_zeros(bits) == bits.skip(f),
    decreases f,
{
    if f == 0 {
        assert(bits.skip(0) =~= bits);
    } else {
        let rest = bits.drop_first();
        assert forall|i: int| 0 <= i < f - 1 implies !#[trigger] rest[i] by {
            assert(rest[i] == bits[i + 1]);
        }
        lemma_strip_is_skip(rest, f - 1);
        assert(rest.skip(f - 1) =~= bits.skip(f));
    }
}

/// The value of a lower-case hexadecimal digit, and sixteen for any other
/// character.
fn value_of(c: char) -> (v: u8)
    ensures
        v == digit_value(c),
{
    if c == '0' {
        0
    } else if c == '1' {
        1
    } else if c == '2' {
        2
    } else if c == '3' {
        3
    } else if c == '4' {
        4
    } else if c == '5' {
        5
    } else if c == '6' {
        6
    } else if c == '7' {
        7
    } else if c == '8' {
        8
    } else if c == '9' {
        9
    } else if c == 'a' {
        10
    } else if c == 'b' {
        11
    } else if c == 'c' {
        12
    } else if c == 'd' {
        13
    } else if c == 'e' {
        14
    } else if c == 'f' {
        15
    } else {
        16
    }
}

/// Every character of the name is a lower-case hexadecimal digit.
pub open spec fn is_hex(name: Seq<char>) -> bool {
    forall|i: int| 0 <= i < name.len() ==> digit_value(#[trigger] name[i]) < 16
}

/// Reads a name back into the history that it stands for. `None` for a name
/// that holds anything but lower-case hexadecimal digits, or that is too
/// long for its bits to be counted.
pub fn history_of(name: &[char]) -> (res: Option<Vec<bool>>)
    ensures
        res is Some <==> is_hex(name@) && 4 * name@.len() <= usize::MAX,
        res is Some ==> res->Some_0@ == parse_name(name@),
{
    if name.len() > usize::MAX / 4 {
        return None;
    }
    let mut spelled: Vec<bool> = Vec::new();
    let mut k: usize = 0;
    while k < name.len()
        invariant
            k <= name@.len(),
            4 * name@.len() <= usize::MAX,
            is_hex(name@.take(k as int)),
            spelled@ == name_bits(name@.take(k as int)),
        decreases name@.len() - k,
    {
        let v = value_of(name[k]);
        if v >= 16 {
            return None;
        }
        let ghost before = spelled@;
        spelled.push(v / 8 % 2 == 1);
        spelled.push(v / 4 % 2 == 1);
        spelled.push(v / 2 % 2 == 1);
        spelled.push(v % 2 == 1);
        proof {
            let front = name@.take(k as int);
            let next = name@.take(k as int + 1);
            assert(next =~= front.push(name@[k as int]));
            assert forall|i: int| 0 <= i < next.len() implies digit_value(#[trigger] next[i])
                < 16 by {
                if i < k {
                    assert(front[i] == next[i]);
                }
            }
            assert(spelled@ =~= name_bits(next)) by {
                assert forall|i: int| 0 <= i < spelled@.len() implies spelled@[i] == name_bits(
                    next,
                )[i] by {
                    if i < 4 * k {
                        assert(spelled@[i] == before[i]);
                        assert(front[i / 4] == next[i / 4]);
                    }
                }
            }
        }
        k += 1;
    }
    proof {
        assert(name@.take(k as int) =~= name@);
    }
    let mut first: usize = 0;
    while first < spelled.len() && !spelled[first]
        invariant
            first <= spelled@.len(),
            forall|i: int| 0 <= i < first ==> !#[trigger] spelled@[i],
        decreases spelled@.len() - first,
    {
        first += 1;
    }
    let mut bits: Vec<bool> = Vec::new();
    let mut i: usize = first;
    while i < spelled.len()
        invariant
            first <= i <= spelled@.len(),
            bits@ == spelled@.subrange(first as int, i as int),
        decreases spelled@.len() - i,
    {
        bits.push(spelled[i]);
        proof {
            assert(spelled@.subrange(first as int, i as int + 1) =~= spelled@.subrange(
                first as int,
                i as int,
            ).push(spelled@[i as int]));
        }
        i += 1;
    }
    proof {
        lemma_strip_is_skip(spelled@, first as int);
        assert(spelled@.subrange(first as int, spelled@.len() as int) =~= spelled@.skip(
            first as int,
        ));
    }
    Some(bits)
}

} // verus!
