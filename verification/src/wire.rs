//! Framing of a request on the wire: an 8-byte big-endian length, then that
//! many bytes of payload. A response has no prefix; it ends where the
//! stream ends.

use vstd::prelude::*;

verus! {

/// Length in bytes of the prefix that carries a request's length.
pub const PREFIX_LEN: usize = 8;

/// The number that `bytes` spell in base 256, most significant byte first.
pub open spec fn be_value(bytes: Seq<u8>) -> nat
    decreases bytes.len(),
{
    if bytes.len() == 0 {
        0
    } else {
        be_value(bytes.drop_last()) * 256 + bytes.last() as nat
    }
}

/// The last `width` base-256 digits of `value`, most significant first.
pub open spec fn be_bytes(value: nat, width: nat) -> Seq<u8>
    decreases width,
{
    if width == 0 {
        Seq::empty()
    } else {
        be_bytes(value / 256, (width - 1) as nat).push((value % 256) as u8)
    }
}

/// A request as it travels: the length of `payload` in `PREFIX_LEN` bytes,
/// then `payload` itself.
pub open spec fn framed(payload: Seq<u8>) -> Seq<u8> {
    be_bytes(payload.len(), PREFIX_LEN as nat) + payload
}

/// Whether `value` has at most `width` base-256 digits.
pub open spec fn fits(value: nat, width: nat) -> bool
    decreases width,
{
    if width == 0 {
        value == 0
    } else {
        fits(value / 256, (width - 1) as nat)
    }
}

/// A number that fits its width is read back from its digits.
pub proof fn lemma_be_round_trip(value: nat, width: nat)
    requires
        fits(value, width),
    ensures
        be_bytes(value, width).len() == width,
        be_value(be_bytes(value, width)) == value,
    decreases width,
{
    if width > 0 {
        let higher = be_bytes(value / 256, (width - 1) as nat);
        lemma_be_round_trip(value / 256, (width - 1) as nat);
        assert(higher.push((value % 256) as u8).drop_last() =~= higher);
    }
}

/// The length that a prefix announces is the length that was framed: what
/// `payload_length` reads from the first `PREFIX_LEN` bytes of a frame is the
/// length of the payload that `frame_request` was given.
pub proof fn lemma_prefix_round_trip(payload: Seq<u8>)
    requires
        payload.len() <= u64::MAX,
    ensures
        framed(payload).len() == PREFIX_LEN + payload.len(),
        be_value(framed(payload).take(PREFIX_LEN as int)) == payload.len(),
        framed(payload).skip(PREFIX_LEN as int) == payload,
{
    let length = payload.len();
    assert(fits(length, 8)) by {
        reveal_with_fuel(fits, 9);
    }
    lemma_be_round_trip(length, 8);
    assert(framed(payload).take(8) =~= be_bytes(length, 8));
    assert(framed(payload).skip(8) =~= payload);
}

/// The length prefix of a payload of `length` bytes.
pub fn length_prefix(length: u64) -> (prefix: Vec<u8>)
    ensures
        prefix@ == be_bytes(length as nat, PREFIX_LEN as nat),
        prefix.len() == PREFIX_LEN,
{
    let mut prefix: Vec<u8> = Vec::new();
    let mut rest: u64 = length;
    let mut i: usize = 0;
    while i < PREFIX_LEN
        invariant
            i <= PREFIX_LEN,
            prefix.len() == i,
            be_bytes(length as nat, PREFIX_LEN as nat) == be_bytes(
                rest as nat,
                (PREFIX_LEN - i) as nat,
            ) + prefix@,
        decreases PREFIX_LEN - i,
    {
        let digit = (rest % 256) as u8;
        let ghost higher = be_bytes(rest as nat / 256, (PREFIX_LEN - i - 1) as nat);
        let ghost lower = prefix@;
        prefix.insert(0, digit);
        assert(higher.push(digit) + lower =~= higher + prefix@);
        rest = rest / 256;
        i += 1;
    }
    assert(Seq::<u8>::empty() + prefix@ =~= prefix@);
    prefix
}

/// Frames a request: the length of `payload`, then `payload`.
pub fn frame_request(payload: &Vec<u8>) -> (frame: Vec<u8>)
    ensures
        frame@ == framed(payload@),
{
    let mut frame = length_prefix(payload.len() as u64);
    let mut i: usize = 0;
    while i < payload.len()
        invariant
            i <= payload.len(),
            frame@ == be_bytes(payload.len() as nat, PREFIX_LEN as nat) + payload@.take(i as int),
        decreases payload.len() - i,
    {
        frame.push(payload[i]);
        i += 1;
    }
    assert(payload@.take(payload.len() as int) =~= payload@);
    frame
}

/// The payload length that a request's prefix announces.
pub fn payload_length(prefix: &[u8; 8]) -> (length: u64)
    ensures
        length == be_value(prefix@),
{
    proof {
        let bytes = prefix@;
        let seven = bytes.drop_last();
        let six = seven.drop_last();
        let five = six.drop_last();
        let four = five.drop_last();
        let three = four.drop_last();
        let two = three.drop_last();
        let one = two.drop_last();
        assert(be_value(one.drop_last()) == 0);
        assert(be_value(one) == bytes[0]);
        assert(be_value(two) == be_value(one) * 256 + bytes[1]);
        assert(be_value(three) == be_value(two) * 256 + bytes[2]);
        assert(be_value(four) == be_value(three) * 256 + bytes[3]);
        assert(be_value(five) == be_value(four) * 256 + bytes[4]);
        assert(be_value(six) == be_value(five) * 256 + bytes[5]);
        assert(be_value(seven) == be_value(six) * 256 + bytes[6]);
        assert(be_value(bytes) == be_value(seven) * 256 + bytes[7]);
    }
    (prefix[0] as u64) * 0x0100_0000_0000_0000 + (prefix[1] as u64) * 0x0001_0000_0000_0000 + (
    prefix[2] as u64) * 0x0000_0100_0000_0000 + (prefix[3] as u64) * 0x0000_0001_0000_0000 + (
    prefix[4] as u64) * 0x0000_0000_0100_0000 + (prefix[5] as u64) * 0x0000_0000_0001_0000 + (
    prefix[6] as u64) * 0x0000_0000_0000_0100 + (prefix[7] as u64)
}

} // verus!
