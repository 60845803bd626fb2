//! The bytes of protobuf messages.

use crate::text::{push_bytes, utf8};
use prost::encoding::WireType;
use vstd::prelude::*;

verus! {

/// A number in groups of seven bits, the low ones first.
pub open spec fn varint(v: nat) -> Seq<u8>
    decreases v,
{
    if v < 128 {
        seq![v as u8]
    } else {
        seq![(v % 128 + 128) as u8] + varint(v / 128)
    }
}

/// What stands before the value of a field: its number, and how its value is coded.
pub open spec fn key(tag: nat, wire_type: nat) -> Seq<u8> {
    varint(8 * tag + wire_type)
}

/// A field that holds a number.
pub open spec fn varint_field(tag: nat, v: u64) -> Seq<u8> {
    key(tag, 0) + varint(v as nat)
}

/// A field that holds bytes.
pub open spec fn bytes_field(tag: nat, bytes: Seq<u8>) -> Seq<u8> {
    key(tag, 2) + varint(bytes.len()) + bytes
}

/// Some numbers, one behind the other.
pub open spec fn varints(values: Seq<u64>) -> Seq<u8>
    decreases values.len(),
{
    if values.len() == 0 {
        Seq::empty()
    } else {
        varints(values.drop_last()) + varint(values.last() as nat)
    }
}

/// A field that holds several numbers. It is left out where there are none.
pub open spec fn packed_field(tag: nat, values: Seq<u64>) -> Seq<u8> {
    if values.len() == 0 {
        Seq::empty()
    } else {
        bytes_field(tag, varints(values))
    }
}

/// A field that holds a number, left out where it is zero.
pub open spec fn number_field(tag: nat, v: u64) -> Seq<u8> {
    if v == 0 {
        Seq::empty()
    } else {
        varint_field(tag, v)
    }
}

/// A signed number as the unsigned one that has its bits.
pub open spec fn two_complement(v: int) -> u64 {
    if v < 0 {
        (0x1_0000_0000_0000_0000 + v) as u64
    } else {
        v as u64
    }
}

/// `prost::encoding::encode_key`, for a field that holds bytes. Field numbers have
/// 29 bits and start at one.
#[verifier::external_body]
fn put_key(tag: u32, out: &mut Vec<u8>)
    requires
        1 <= tag < 0x2000_0000,
    ensures
        final(out)@ == old(out)@ + key(tag as nat, 2),
{
    prost::encoding::encode_key(tag, WireType::LengthDelimited, out)
}

/// `prost::encoding::uint64::encode`: a field that holds a number. Field numbers
/// have 29 bits and start at one.
#[verifier::external_body]
pub(crate) fn put_number(tag: u32, v: u64, out: &mut Vec<u8>)
    requires
        1 <= tag < 0x2000_0000,
    ensures
        final(out)@ == old(out)@ + varint_field(tag as nat, v),
{
    prost::encoding::uint64::encode(tag, &v, out)
}

/// `prost::encoding::uint64::encode_packed`: a field that holds several numbers,
/// and no field where there are none. Field numbers have 29 bits and start at one.
#[verifier::external_body]
pub(crate) fn put_packed(tag: u32, values: &Vec<u64>, out: &mut Vec<u8>)
    requires
        1 <= tag < 0x2000_0000,
    ensures
        final(out)@ == old(out)@ + packed_field(tag as nat, values@),
{
    prost::encoding::uint64::encode_packed(tag, values, out)
}

/// `prost::encoding::string::encode`: a field that holds the bytes of a string.
/// Field numbers have 29 bits and start at one.
#[verifier::external_body]
pub(crate) fn put_string(tag: u32, s: &String, out: &mut Vec<u8>)
    requires
        1 <= tag < 0x2000_0000,
    ensures
        final(out)@ == old(out)@ + bytes_field(tag as nat, utf8(s@)),
{
    prost::encoding::string::encode(tag, s, out)
}

/// Appends a number in groups of seven bits.
pub fn push_varint(out: &mut Vec<u8>, v: u64)
    ensures
        final(out)@ == old(out)@ + varint(v as nat),
{
    let ghost start = out@;
    let mut left: u64 = v;
    let ghost mut done: Seq<u8> = Seq::empty();
    assert(done + varint(v as nat) =~= varint(v as nat));
    assert(out@ =~= start + done);
    while left >= 0x80
        invariant
            start == old(out)@,
            out@ == start + done,
            done + varint(left as nat) == varint(v as nat),
        decreases left,
    {
        let byte: u8 = (left % 128 + 128) as u8;
        proof {
            let rest = varint(left as nat / 128);
            assert(varint(left as nat) == seq![byte] + rest);
            assert(done + (seq![byte] + rest) =~= done.push(byte) + rest);
            assert(start + done.push(byte) =~= (start + done).push(byte));
            done = done.push(byte);
        }
        out.push(byte);
        left = left / 128;
    }
    out.push(left as u8);
    assert(varint(left as nat) =~= seq![left as u8]);
    assert(out@ =~= start + (done + varint(left as nat)));
}

/// Appends a field that holds bytes.
pub fn push_field(tag: u32, bytes: &Vec<u8>, out: &mut Vec<u8>)
    requires
        1 <= tag < 0x2000_0000,
    ensures
        final(out)@ == old(out)@ + bytes_field(tag as nat, bytes@),
{
    put_key(tag, out);
    push_varint(out, bytes.len() as u64);
    push_bytes(out, bytes.as_slice());
    assert(out@ =~= old(out)@ + bytes_field(tag as nat, bytes@));
}

/// Appends a field that holds a number, unless it is zero.
pub fn push_number(tag: u32, v: u64, out: &mut Vec<u8>)
    requires
        1 <= tag < 0x2000_0000,
    ensures
        final(out)@ == old(out)@ + number_field(tag as nat, v),
{
    if v != 0 {
        put_number(tag, v, out);
    }
    assert(old(out)@ + Seq::empty() =~= old(out)@);
}

/// The unsigned number that has the bits of a signed one.
pub fn bits_of(v: i64) -> (bits: u64)
    ensures
        bits == two_complement(v as int),
{
    if v < 0 {
        u64::MAX - (-(v + 1)) as u64
    } else {
        v as u64
    }
}

/// A packet as it stands in a stream.
pub open spec fn frame(packet: Seq<u8>) -> Seq<u8> {
    bytes_field(1, packet)
}

/// A stream of packets.
pub open spec fn framed(packets: Seq<Seq<u8>>) -> Seq<u8>
    decreases packets.len(),
{
    if packets.len() == 0 {
        Seq::empty()
    } else {
        framed(packets.drop_last()) + frame(packets.last())
    }
}

/// The number at the start of some bytes, and how many bytes it takes.
pub open spec fn read_varint(bytes: Seq<u8>) -> Option<(nat, nat)>
    decreases bytes.len(),
{
    if bytes.len() == 0 {
        None
    } else if bytes[0] < 128 {
        Some((bytes[0] as nat, 1))
    } else {
        match read_varint(bytes.skip(1)) {
            Some((v, n)) => Some(((bytes[0] - 128) as nat + 128 * v, n + 1)),
            None => None,
        }
    }
}

/// The packets of a stream, where it is one.
pub open spec fn unframed(bytes: Seq<u8>) -> Option<Seq<Seq<u8>>>
    decreases bytes.len(),
{
    if bytes.len() == 0 {
        Some(Seq::empty())
    } else if bytes[0] != 0x0a {
        None
    } else {
        match read_varint(bytes.skip(1)) {
            Some((len, used)) => {
                let at = 1 + used;
                if at + len > bytes.len() {
                    None
                } else {
                    match unframed(bytes.skip((at + len) as int)) {
                        Some(rest) => Some(
                            seq![bytes.subrange(at as int, (at + len) as int)] + rest,
                        ),
                        None => None,
                    }
                }
            },
            None => None,
        }
    }
}

/// A number reads back from its groups of seven bits, whatever stands behind them.
pub proof fn varints_read_back(v: nat, rest: Seq<u8>)
    ensures
        read_varint(varint(v) + rest) == Some((v, varint(v).len())),
        varint(v).len() > 0,
    decreases v,
{
    let all = varint(v) + rest;
    if v >= 128 {
        varints_read_back(v / 128, rest);
        assert(all.skip(1) =~= varint(v / 128) + rest);
        assert(all[0] == (v % 128 + 128) as u8);
    } else {
        assert(all[0] == v as u8);
    }
}

proof fn lemma_framed_first(packets: Seq<Seq<u8>>)
    requires
        packets.len() > 0,
    ensures
        framed(packets) == frame(packets[0]) + framed(packets.skip(1)),
    decreases packets.len(),
{
    let rest = packets.skip(1);
    if packets.len() == 1 {
        assert(packets.drop_last() =~= Seq::empty());
        assert(rest =~= Seq::empty());
        assert(framed(Seq::empty()) =~= Seq::empty());
        assert(Seq::<u8>::empty() + frame(packets[0]) =~= frame(packets[0]) + Seq::<u8>::empty());
    } else {
        lemma_framed_first(packets.drop_last());
        assert(packets.drop_last().skip(1) =~= rest.drop_last());
        assert(framed(packets) =~= frame(packets[0]) + (framed(rest.drop_last()) + frame(
            rest.last(),
        )));
    }
}

/// One stream behind another is the stream of the packets of both, so that several
/// processes can write to one file.
pub proof fn streams_concatenate(first: Seq<Seq<u8>>, second: Seq<Seq<u8>>)
    ensures
        framed(first + second) == framed(first) + framed(second),
    decreases second.len(),
{
    if second.len() == 0 {
        assert(first + second =~= first);
        assert(framed(first) + Seq::<u8>::empty() =~= framed(first));
    } else {
        streams_concatenate(first, second.drop_last());
        assert((first + second).drop_last() =~= first + second.drop_last());
        assert(framed(first) + framed(second) =~= framed(first) + framed(second.drop_last())
            + frame(second.last()));
    }
}

/// A stream reads back as the packets that were written to it.
pub proof fn streams_read_back(packets: Seq<Seq<u8>>)
    ensures
        unframed(framed(packets)) == Some(packets),
    decreases packets.len(),
{
    if packets.len() == 0 {
        assert(packets =~= Seq::empty());
        assert(unframed(Seq::empty()) == Some(Seq::<Seq<u8>>::empty()));
    } else {
        let first = packets[0];
        let rest = framed(packets.skip(1));
        let all = framed(packets);
        lemma_framed_first(packets);
        streams_read_back(packets.skip(1));
        assert(key(1, 2) =~= seq![0x0au8]);
        let len = varint(first.len());
        varints_read_back(first.len(), first + rest);
        assert(all.skip(1) =~= len + (first + rest));
        let at = 1 + len.len();
        assert(all.subrange(at as int, (at + first.len()) as int) =~= first);
        assert(all.skip((at + first.len()) as int) =~= rest);
        assert(packets =~= seq![first] + packets.skip(1));
    }
}

} // verus!
