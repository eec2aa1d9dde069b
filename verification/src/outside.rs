//! The calls that leave this crate. Nothing here is proved: each contract
//! says what the function behind it is known to do.

use byteorder::{LittleEndian, ReadBytesExt, WriteBytesExt};
use vstd::prelude::*;
use vstd::utf8::{decode_utf8, valid_utf8};

verus! {

/// The two bytes of a 16-bit number, low byte first.
pub open spec fn u16_le(n: u16) -> Seq<u8> {
    seq![(n % 256) as u8, (n / 256) as u8]
}

/// The two bytes of a signed 16-bit number in two's complement, low byte
/// first.
pub open spec fn i16_le(n: i16) -> Seq<u8> {
    if n < 0 {
        u16_le((n + 0x1_0000) as u16)
    } else {
        u16_le(n as u16)
    }
}

/// The text that `String::from_utf8_lossy` makes of bytes: the text they
/// encode, with U+FFFD in the place of what is not UTF-8.
pub uninterp spec fn utf8_lossy(bytes: Seq<u8>) -> Seq<char>;

/// The text that bytes are read as: the text they encode where they are
/// UTF-8, else what `String::from_utf8_lossy` makes of them.
pub open spec fn lossy_text(bytes: Seq<u8>) -> Seq<char> {
    if valid_utf8(bytes) {
        decode_utf8(bytes)
    } else {
        utf8_lossy(bytes)
    }
}

/// `byteorder::ReadBytesExt::read_u8` on a byte slice: the first byte, or
/// nothing where the slice is empty.
#[verifier::external_body]
pub(crate) fn read_u8(bytes: &[u8]) -> (b: Option<u8>)
    ensures
        b == if bytes@.len() >= 1 {
            Some(bytes@[0])
        } else {
            None
        },
{
    let mut reader = bytes;
    reader.read_u8().ok()
}

/// `byteorder::ReadBytesExt::read_u16::<LittleEndian>` on a byte slice: the
/// number whose low byte comes first, or nothing where the slice has fewer
/// than two bytes.
#[verifier::external_body]
pub(crate) fn read_u16_le(bytes: &[u8]) -> (n: Option<u16>)
    ensures
        n == if bytes@.len() >= 2 {
            Some((bytes@[0] + 256 * bytes@[1]) as u16)
        } else {
            None
        },
{
    let mut reader = bytes;
    reader.read_u16::<LittleEndian>().ok()
}

/// `byteorder::WriteBytesExt::write_u16::<LittleEndian>` on a vector, which
/// takes every write: the two bytes are appended, low byte first.
#[verifier::external_body]
pub(crate) fn write_u16_le(out: &mut Vec<u8>, n: u16)
    ensures
        final(out)@ == old(out)@ + u16_le(n),
{
    let _ = out.write_u16::<LittleEndian>(n);
}

/// `byteorder::WriteBytesExt::write_i16::<LittleEndian>` on a vector, which
/// takes every write: the two bytes of the two's complement are appended,
/// low byte first.
#[verifier::external_body]
pub(crate) fn write_i16_le(out: &mut Vec<u8>, n: i16)
    ensures
        final(out)@ == old(out)@ + i16_le(n),
{
    let _ = out.write_i16::<LittleEndian>(n);
}

/// `String::from_utf8_lossy`, made an owned string. Bytes that are UTF-8
/// come back as the text they encode.
#[verifier::external_body]
pub(crate) fn string_from_utf8_lossy(bytes: &[u8]) -> (text: String)
    ensures
        text@ == utf8_lossy(bytes@),
        valid_utf8(bytes@) ==> text@ == decode_utf8(bytes@),
{
    String::from_utf8_lossy(bytes).into_owned()
}

/// `fastrand::u32` on the range below `bound`: some number of that range.
/// Two calls may give two numbers.
#[verifier::external_body]
pub(crate) fn random_u32_below(bound: u32) -> (n: u32)
    requires
        bound > 0,
    ensures
        n < bound,
{
    fastrand::u32(..bound)
}

/// `pnet_packet::tcp::TcpFlags::SYN`.
#[verifier::external_body]
pub(crate) fn tcp_flag_syn() -> (flag: u8)
    ensures
        flag == 0x02,
{
    pnet_packet::tcp::TcpFlags::SYN
}

/// `pnet_packet::tcp::TcpFlags::ACK`.
#[verifier::external_body]
pub(crate) fn tcp_flag_ack() -> (flag: u8)
    ensures
        flag == 0x10,
{
    pnet_packet::tcp::TcpFlags::ACK
}

/// `pnet_packet::tcp::TcpFlags::PSH`.
#[verifier::external_body]
pub(crate) fn tcp_flag_psh() -> (flag: u8)
    ensures
        flag == 0x08,
{
    pnet_packet::tcp::TcpFlags::PSH
}

/// `pnet_packet::tcp::TcpFlags::RST`.
#[verifier::external_body]
pub(crate) fn tcp_flag_rst() -> (flag: u8)
    ensures
        flag == 0x04,
{
    pnet_packet::tcp::TcpFlags::RST
}

/// `pnet_packet::tcp::TcpFlags::FIN`.
#[verifier::external_body]
pub(crate) fn tcp_flag_fin() -> (flag: u8)
    ensures
        flag == 0x01,
{
    pnet_packet::tcp::TcpFlags::FIN
}

} // verus!
