//! The variable-length encoding of integers.

use vstd::prelude::*;

verus! {

/// The LEB128 encoding of `n`: seven bits to a byte, least significant first,
/// with the top bit set on every byte but the last.
pub open spec fn uleb128(n: nat) -> Seq<u8>
    decreases n,
{
    if n < 128 {
        seq![n as u8]
    } else {
        seq![(n % 128 + 128) as u8] + uleb128(n / 128)
    }
}

/// The signed LEB128 encoding of `n`: as that of an unsigned integer, but the
/// last byte has seven bits in two's complement.
pub open spec fn sleb128(n: int) -> Seq<u8>
    decreases
            if n < 0 {
                -n
            } else {
                n
            },
{
    if -64 <= n < 64 {
        seq![(n % 128) as u8]
    } else {
        seq![(n % 128 + 128) as u8] + sleb128(n / 128)
    }
}

/// The integer whose encoding starts at `pos` and takes at most `room` bytes, and
/// the position behind it. In the last byte that there is room for only the four
/// bits may be set that an integer of 32 bits has left there.
pub open spec fn decoded(bytes: Seq<u8>, pos: int, room: nat) -> Option<(nat, int)>
    decreases room,
{
    if room == 0 || pos < 0 || pos >= bytes.len() {
        None
    } else if bytes[pos] < 128 {
        if room == 1 && bytes[pos] >= 16 {
            None
        } else {
            Some((bytes[pos] as nat, pos + 1))
        }
    } else {
        match decoded(bytes, pos + 1, (room - 1) as nat) {
            None => None,
            Some((rest, next)) => Some(((bytes[pos] - 128 + 128 * rest) as nat, next)),
        }
    }
}

/// The integer of 32 bits whose encoding, of at most five bytes, starts at `pos`,
/// and the position behind it.
pub open spec fn decoded_u32(bytes: Seq<u8>, pos: int) -> Option<(u32, int)> {
    match decoded(bytes, pos, 5) {
        None => None,
        Some((value, next)) => Some((value as u32, next)),
    }
}

/// What an encoding of at most `room` bytes can stand for is less than this.
pub open spec fn limit(room: nat) -> nat
    decreases room,
{
    if room == 0 {
        0
    } else if room == 1 {
        16
    } else {
        128 * limit((room - 1) as nat)
    }
}

/// A decoded integer is less than the limit, its encoding has at least one byte
/// and ends inside the bytes.
pub proof fn lemma_decoded_bounds(bytes: Seq<u8>, pos: int, room: nat)
    ensures
        decoded(bytes, pos, room) matches Some((value, next)) ==> value < limit(room) && pos < next
            <= bytes.len(),
    decreases room,
{
    reveal_with_fuel(decoded, 2);
    if room > 1 && 0 <= pos < bytes.len() {
        lemma_limit_positive((room - 1) as nat);
        lemma_decoded_bounds(bytes, pos + 1, (room - 1) as nat);
    }
}

/// There is something that an encoding of a byte or more can stand for.
proof fn lemma_limit_positive(room: nat)
    requires
        room > 0,
    ensures
        limit(room) >= 16,
    decreases room,
{
    if room > 1 {
        lemma_limit_positive((room - 1) as nat);
    }
}

/// Decoding what was encoded gives it back, if there is room for it.
pub proof fn lemma_decodes_encoded(bytes: Seq<u8>, pos: int, n: nat, room: nat)
    requires
        0 <= pos,
        pos + uleb128(n).len() <= bytes.len(),
        bytes.subrange(pos, pos + uleb128(n).len()) == uleb128(n),
        n < limit(room),
    ensures
        decoded(bytes, pos, room) == Some((n, pos + uleb128(n).len())),
    decreases room,
{
    let encoded = bytes.subrange(pos, pos + uleb128(n).len());
    lemma_uleb128_shape(n);
    assert(bytes[pos] == encoded[0]);
    if n >= 128 {
        let rest = uleb128(n / 128);
        assert(encoded == seq![(n % 128 + 128) as u8] + rest);
        assert(bytes.subrange(pos + 1, pos + 1 + rest.len()) =~= rest) by {
            assert forall|i: int| 0 <= i < rest.len() implies bytes[pos + 1 + i] == #[trigger] rest[i] by {
                assert(encoded[i + 1] == rest[i]);
            }
        }
        lemma_decodes_encoded(bytes, pos + 1, n / 128, (room - 1) as nat);
    }
}

/// Every integer of 32 bits is read back from its encoding, wherever that stands,
/// and the position behind it is found.
pub proof fn law_decodes_encoded(bytes: Seq<u8>, pos: int, n: u32)
    requires
        0 <= pos,
        pos + uleb128(n as nat).len() <= bytes.len(),
        bytes.subrange(pos, pos + uleb128(n as nat).len()) == uleb128(n as nat),
    ensures
        decoded_u32(bytes, pos) == Some((n, pos + uleb128(n as nat).len())),
{
    assert(limit(5) == 0x1_0000_0000) by {
        reveal_with_fuel(limit, 5);
    }
    lemma_decodes_encoded(bytes, pos, n as nat, 5);
}

/// An encoding has a byte, each byte but the last is at least 128, the last is
/// less.
pub proof fn lemma_uleb128_shape(n: nat)
    ensures
        uleb128(n).len() >= 1,
        uleb128(n).last() < 128,
        forall|i: int| 0 <= i < uleb128(n).len() - 1 ==> #[trigger] uleb128(n)[i] >= 128,
    decreases n,
{
    if n >= 128 {
        lemma_uleb128_shape(n / 128);
        let rest = uleb128(n / 128);
        assert(uleb128(n) =~= seq![(n % 128 + 128) as u8] + rest);
        assert forall|i: int| 0 <= i < uleb128(n).len() - 1 implies #[trigger] uleb128(n)[i]
            >= 128 by {
            if i > 0 {
                assert(uleb128(n)[i] == rest[i - 1]);
            }
        }
    }
}

/// The encoding of a 32-bit integer takes at most five bytes.
pub proof fn lemma_uleb128_u32_len(n: nat)
    requires
        n <= u32::MAX,
    ensures
        uleb128(n).len() <= 5,
{
    reveal_with_fuel(uleb128, 5);
}

/// Encodes `n`.
pub fn encode_u32(n: u32) -> (bytes: Vec<u8>)
    ensures
        bytes@ == uleb128(n as nat),
{
    let mut bytes: Vec<u8> = Vec::new();
    let mut rest: u32 = n;
    while rest >= 128
        invariant
            bytes@ + uleb128(rest as nat) == uleb128(n as nat),
        decreases rest,
    {
        let ghost before = bytes@;
        let byte: u8 = (rest % 128 + 128) as u8;
        bytes.push(byte);
        proof {
            assert(uleb128(rest as nat) == seq![byte] + uleb128((rest / 128) as nat));
            assert(bytes@ + uleb128((rest / 128) as nat) =~= before + uleb128(rest as nat));
        }
        rest = rest / 128;
    }
    proof {
        assert(bytes@.push(rest as u8) =~= bytes@ + uleb128(rest as nat));
    }
    bytes.push(rest as u8);
    bytes
}

/// Steps over an encoded integer that starts at `pos`.
pub(crate) fn skip_u32(bytes: &Vec<u8>, pos: usize, Ghost(n): Ghost<nat>) -> (next: usize)
    requires
        pos + uleb128(n).len() <= bytes@.len(),
        bytes@.subrange(pos as int, pos + uleb128(n).len()) == uleb128(n),
    ensures
        next == pos + uleb128(n).len(),
{
    proof {
        lemma_uleb128_shape(n);
        assert forall|i: int| 0 <= i < uleb128(n).len() implies #[trigger] uleb128(n)[i] == bytes@[pos
            + i] by {
            assert(uleb128(n)[i] == bytes@.subrange(pos as int, pos + uleb128(n).len())[i]);
        }
    }
    let len: usize = bytes.len();
    let mut next: usize = pos;
    assert(bytes@[next as int] == uleb128(n)[0]);
    while bytes[next] >= 128
        invariant
            pos <= next < pos + uleb128(n).len() <= len,
            len == bytes@.len(),
            uleb128(n).last() < 128,
            forall|i: int|
                0 <= i < uleb128(n).len() ==> #[trigger] uleb128(n)[i] == bytes@[pos + i],
        decreases bytes@.len() - next,
    {
        assert(uleb128(n)[next - pos] == bytes@[pos + (next - pos)]);
        next = next + 1;
    }
    proof {
        assert(uleb128(n)[next - pos] == bytes@[pos + (next - pos)]);
    }
    next + 1
}

} // verus!
