//! Variable-length integers: the two high bits of the first byte give the
//! encoded length (1, 2, 4 or 8 bytes), the rest is the value in network order.

use vstd::prelude::*;

use crate::wire::{be_bytes, be_value, lemma_be_unique};

verus! {

/// The input ends before the integer does.
#[derive(Debug, Clone, Copy, PartialEq, Eq, Structural)]
pub struct Error;

/// The largest value that a variable-length integer can hold.
pub const MAX_VARINT: u64 = 0x3fff_ffff_ffff_ffff;

/// An integer of at most 62 bits.
#[derive(Debug, Clone, Copy, PartialEq, Eq, Structural)]
pub struct VarInt {
    value: u64,
}

impl View for VarInt {
    type V = u64;

    closed spec fn view(&self) -> u64 {
        self.value
    }
}

/// The number of bytes in the shortest encoding of `value`.
pub open spec fn varint_len(value: u64) -> int {
    if value < 0x40 {
        1
    } else if value < 0x4000 {
        2
    } else if value < 0x4000_0000 {
        4
    } else {
        8
    }
}

/// The shortest encoding of `value`.
#[verifier::opaque]
pub open spec fn varint_bytes(value: u64) -> Seq<u8> {
    if value < 0x40 {
        seq![value as u8]
    } else if value < 0x4000 {
        seq![(0x40 + value / 0x100) as u8, (value % 0x100) as u8]
    } else if value < 0x4000_0000 {
        seq![
            (0x80 + value / 0x100_0000) as u8,
            (value / 0x1_0000 % 0x100) as u8,
            (value / 0x100 % 0x100) as u8,
            (value % 0x100) as u8,
        ]
    } else {
        seq![
            (0xc0 + value / 0x100_0000_0000_0000) as u8,
            (value / 0x1_0000_0000_0000 % 0x100) as u8,
            (value / 0x100_0000_0000 % 0x100) as u8,
            (value / 0x1_0000_0000 % 0x100) as u8,
            (value / 0x100_0000 % 0x100) as u8,
            (value / 0x1_0000 % 0x100) as u8,
            (value / 0x100 % 0x100) as u8,
            (value % 0x100) as u8,
        ]
    }
}

/// The encoded length that a first byte announces.
pub open spec fn announced_len(first: u8) -> int {
    if first < 0x40 {
        1
    } else if first < 0x80 {
        2
    } else if first < 0xc0 {
        4
    } else {
        8
    }
}

/// The value that an encoding at the front of `input` stands for.
pub open spec fn announced_value(input: Seq<u8>) -> int {
    let n = announced_len(input[0]);
    if n == 1 {
        input[0] as int
    } else if n == 2 {
        (input[0] - 0x40) * 0x100 + input[1]
    } else if n == 4 {
        (input[0] - 0x80) * 0x100_0000 + input[1] * 0x1_0000 + input[2] * 0x100 + input[3]
    } else {
        (input[0] - 0xc0) * 0x100_0000_0000_0000 + input[1] * 0x1_0000_0000_0000 + input[2]
            * 0x100_0000_0000 + input[3] * 0x1_0000_0000 + input[4] * 0x100_0000 + input[5]
            * 0x1_0000 + input[6] * 0x100 + input[7]
    }
}

/// The integer at the front of `input` and the length of its encoding, or
/// nothing where `input` ends early.
#[verifier::opaque]
pub open spec fn varint_parse(input: Seq<u8>) -> Option<(u64, int)> {
    if input.len() == 0 || input.len() < announced_len(input[0]) {
        None
    } else {
        Some((announced_value(input) as u64, announced_len(input[0])))
    }
}

impl VarInt {
    #[verifier::type_invariant]
    spec fn in_range(self) -> bool {
        self.value <= MAX_VARINT
    }

    /// The integer with the given value.
    pub closed spec fn of(value: u64) -> VarInt {
        VarInt { value }
    }

    /// The integer with value zero.
    pub fn zero() -> (result: VarInt)
        ensures
            result@ == 0,
    {
        VarInt { value: 0 }
    }

    pub fn new(value: u64) -> (result: Option<VarInt>)
        ensures
            match result {
                Some(v) => value <= MAX_VARINT && v@ == value,
                None => value > MAX_VARINT,
            },
    {
        if value <= MAX_VARINT {
            Some(VarInt { value })
        } else {
            None
        }
    }

    pub fn from_usize(value: usize) -> (result: Option<VarInt>)
        ensures
            match result {
                Some(v) => value <= MAX_VARINT && v@ == value,
                None => value > MAX_VARINT,
            },
    {
        VarInt::new(value as u64)
    }

    pub fn get(self) -> (value: u64)
        ensures
            value == self@,
            value <= MAX_VARINT,
    {
        proof {
            use_type_invariant(self);
        }
        self.value
    }

    pub fn encoded_len(self) -> (len: usize)
        ensures
            len == varint_len(self@),
    {
        if self.value < 0x40 {
            1
        } else if self.value < 0x4000 {
            2
        } else if self.value < 0x4000_0000 {
            4
        } else {
            8
        }
    }

    /// Appends the shortest encoding.
    pub fn encode(self, out: &mut Vec<u8>)
        ensures
            final(out)@ == old(out)@ + varint_bytes(self@),
    {
        reveal(varint_bytes);
        let value: u64 = self.get();
        if value < 0x40 {
            out.push(value as u8);
        } else if value < 0x4000 {
            out.push((0x40 + value / 0x100) as u8);
            out.push((value % 0x100) as u8);
        } else if value < 0x4000_0000 {
            out.push((0x80 + value / 0x100_0000) as u8);
            out.push((value / 0x1_0000 % 0x100) as u8);
            out.push((value / 0x100 % 0x100) as u8);
            out.push((value % 0x100) as u8);
        } else {
            out.push((0xc0 + value / 0x100_0000_0000_0000) as u8);
            out.push((value / 0x1_0000_0000_0000 % 0x100) as u8);
            out.push((value / 0x100_0000_0000 % 0x100) as u8);
            out.push((value / 0x1_0000_0000 % 0x100) as u8);
            out.push((value / 0x100_0000 % 0x100) as u8);
            out.push((value / 0x1_0000 % 0x100) as u8);
            out.push((value / 0x100 % 0x100) as u8);
            out.push((value % 0x100) as u8);
        }
        assert(out@ =~= old(out)@ + varint_bytes(self@));
    }

    /// Reads the integer at the front of `input`; also returns the number of
    /// bytes that it takes.
    pub fn decode(input: &[u8]) -> (result: Result<(VarInt, usize), Error>)
        ensures
            match result {
                Ok((v, n)) => varint_parse(input@) == Some((v@, n as int)) && 1 <= n <= input.len(),
                Err(_) => varint_parse(input@) is None,
            },
    {
        reveal(varint_parse);
        if input.len() == 0 {
            return Err(Error);
        }
        let first: u8 = input[0];
        if first < 0x40 {
            Ok((VarInt { value: first as u64 }, 1))
        } else if first < 0x80 {
            if input.len() < 2 {
                return Err(Error);
            }
            let value: u64 = (first as u64 - 0x40) * 0x100 + input[1] as u64;
            Ok((VarInt { value }, 2))
        } else if first < 0xc0 {
            if input.len() < 4 {
                return Err(Error);
            }
            let value: u64 = (first as u64 - 0x80) * 0x100_0000 + input[1] as u64 * 0x1_0000
                + input[2] as u64 * 0x100 + input[3] as u64;
            Ok((VarInt { value }, 4))
        } else {
            if input.len() < 8 {
                return Err(Error);
            }
            let value: u64 = (first as u64 - 0xc0) * 0x100_0000_0000_0000 + input[1] as u64
                * 0x1_0000_0000_0000 + input[2] as u64 * 0x100_0000_0000 + input[3] as u64
                * 0x1_0000_0000 + input[4] as u64 * 0x100_0000 + input[5] as u64 * 0x1_0000
                + input[6] as u64 * 0x100 + input[7] as u64;
            Ok((VarInt { value }, 8))
        }
    }
}

pub broadcast proof fn lemma_of_view(value: u64)
    ensures
        #[trigger] VarInt::of(value)@ == value,
{
}

pub broadcast proof fn lemma_view_of(v: VarInt)
    ensures
        VarInt::of(#[trigger] v@) == v,
{
}

/// Every valid value has an encoding of the announced length, and reading the
/// encoding back, whatever follows it, gives the value.
pub proof fn law_varint_round_trip(value: u64, rest: Seq<u8>)
    requires
        value <= MAX_VARINT,
    ensures
        varint_bytes(value).len() == varint_len(value),
        varint_parse(varint_bytes(value) + rest) == Some((value, varint_len(value))),
{
    reveal(varint_bytes);
    reveal(varint_parse);
    let s = varint_bytes(value) + rest;
    if value < 0x40 {
    } else if value < 0x4000 {
    } else if value < 0x4000_0000 {
        assert(s[0] == 0x80 + value / 0x100_0000);
    } else {
        let a1 = value / 0x100;
        let a2 = a1 / 0x100;
        let a3 = a2 / 0x100;
        let a4 = a3 / 0x100;
        let a5 = a4 / 0x100;
        let a6 = a5 / 0x100;
        let a7 = a6 / 0x100;
        lemma_shifts(value);
        assert(a7 <= 0x3f);
        assert(s[0] == 0xc0 + a7);
        assert(s[1] == a6 % 0x100);
        assert(s[2] == a5 % 0x100);
        assert(s[3] == a4 % 0x100);
        assert(s[4] == a3 % 0x100);
        assert(s[5] == a2 % 0x100);
        assert(s[6] == a1 % 0x100);
        assert(s[7] == value % 0x100);
    }
}

/// Division by successive powers of 256 is repeated division by 256.
proof fn lemma_shifts(value: u64)
    ensures
        value / 0x1_0000 == value / 0x100 / 0x100,
        value / 0x100_0000 == value / 0x100 / 0x100 / 0x100,
        value / 0x1_0000_0000 == value / 0x100 / 0x100 / 0x100 / 0x100,
        value / 0x100_0000_0000 == value / 0x100 / 0x100 / 0x100 / 0x100 / 0x100,
        value / 0x1_0000_0000_0000 == value / 0x100 / 0x100 / 0x100 / 0x100 / 0x100 / 0x100,
        value / 0x100_0000_0000_0000 == value / 0x100 / 0x100 / 0x100 / 0x100 / 0x100 / 0x100
            / 0x100,
{
    assert(value / 0x1_0000 == value / 0x100 / 0x100);
    assert(value / 0x100_0000 == value / 0x1_0000 / 0x100);
    assert(value / 0x1_0000_0000 == value / 0x100_0000 / 0x100);
    assert(value / 0x100_0000_0000 == value / 0x1_0000_0000 / 0x100);
    assert(value / 0x1_0000_0000_0000 == value / 0x100_0000_0000 / 0x100);
    assert(value / 0x100_0000_0000_0000 == value / 0x1_0000_0000_0000 / 0x100);
}

/// What is read is a valid value, and its encoding lies within the input.
pub proof fn law_varint_parse_bounds(input: Seq<u8>)
    ensures
        varint_parse(input) matches Some((v, n)) ==> {
            &&& v <= MAX_VARINT
            &&& v == announced_value(input)
            &&& 1 <= varint_len(v) <= n <= input.len()
        },
{
    reveal(varint_parse);
}

/// The value that bytes in network order stand for, one byte after the other.
proof fn lemma_be_steps(s: Seq<u8>)
    ensures
        forall|i: int|
            0 < i <= s.len() ==> be_value(#[trigger] s.take(i)) == be_value(s.take(i - 1)) * 256
                + s[i - 1],
        be_value(s.take(0)) == 0,
{
    assert(s.take(0) =~= Seq::empty());
    assert forall|i: int| 0 < i <= s.len() implies be_value(#[trigger] s.take(i)) == be_value(
        s.take(i - 1),
    ) * 256 + s[i - 1] by {
        assert(s.take(i).drop_last() =~= s.take(i - 1));
    }
}

/// An integer is read from one, two, four or eight bytes in network order, as the two highest
/// bits of the first tell: the bits behind those are the value.
pub proof fn law_varint_read(input: Seq<u8>)
    ensures
        match varint_parse(input) {
            Some((value, n)) => {
                &&& 0 < n <= input.len()
                &&& input[0] < 64 ==> n == 1 && be_value(input.take(1)) == value
                &&& 64 <= input[0] < 128 ==> n == 2 && be_value(input.take(2)) == value + 0x4000
                &&& 128 <= input[0] < 192 ==> n == 4 && be_value(input.take(4)) == value
                    + 0x8000_0000
                &&& 192 <= input[0] ==> n == 8 && be_value(input.take(8)) == value
                    + 0xc000_0000_0000_0000
            },
            None => input.len() == 0 || (input[0] >= 64 && input.len() < 2) || (input[0] >= 128
                && input.len() < 4) || (input[0] >= 192 && input.len() < 8),
        },
{
    reveal(varint_parse);
    if input.len() > 0 {
        lemma_be_steps(input);
        assert(be_value(input.take(1)) == be_value(input.take(1 - 1)) * 256 + input[0]);
        if input.len() > 1 {
            assert(be_value(input.take(2)) == be_value(input.take(2 - 1)) * 256 + input[1]);
        }
        if input.len() > 3 {
            assert(be_value(input.take(3)) == be_value(input.take(3 - 1)) * 256 + input[2]);
            assert(be_value(input.take(4)) == be_value(input.take(4 - 1)) * 256 + input[3]);
        }
        if input.len() > 7 {
            assert(be_value(input.take(5)) == be_value(input.take(5 - 1)) * 256 + input[4]);
            assert(be_value(input.take(6)) == be_value(input.take(6 - 1)) * 256 + input[5]);
            assert(be_value(input.take(7)) == be_value(input.take(7 - 1)) * 256 + input[6]);
            assert(be_value(input.take(8)) == be_value(input.take(8 - 1)) * 256 + input[7]);
        }
    }
}

/// An integer is written in as few bytes as there can be, in network order, behind two bits
/// that tell how many they are.
pub proof fn law_varint_written(value: u64)
    requires
        value <= 0x3fff_ffff_ffff_ffff,
    ensures
        value < 64 ==> varint_bytes(value) == be_bytes(value as nat, 1),
        64 <= value < 0x4000 ==> varint_bytes(value) == be_bytes((value + 0x4000) as nat, 2),
        0x4000 <= value < 0x4000_0000 ==> varint_bytes(value) == be_bytes(
            (value + 0x8000_0000) as nat,
            4,
        ),
        0x4000_0000 <= value ==> varint_bytes(value) == be_bytes(
            (value + 0xc000_0000_0000_0000) as nat,
            8,
        ),
        MAX_VARINT == 0x3fff_ffff_ffff_ffff,
{
    let s = varint_bytes(value);
    law_varint_round_trip(value, Seq::empty());
    assert(s + Seq::empty() =~= s);
    law_varint_read(s);
    lemma_be_unique(s);
    assert(s.take(s.len() as int) =~= s);
}

} // verus!
